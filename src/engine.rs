//! The editing engine: a document, its layout configuration and its cached
//! layout, with the editing operations the surrounding application issues.
//!
//! Every edit marks the cached layout stale; queries on the layout answer from
//! the last `recompute_layout`.
use vstd::prelude::*;
use crate::document::{
    is_first_table,
    BlockType,
    Document,
    DocumentImage,
    HorizontalAlign,
    ImagePositionMode,
    ImageWrapStyle,
    ListType,
    Paragraph,
    TextAlign,
    IMAGE_MARK,
    PAGE_BREAK_MARK,
    TABLE_MARK,
};
use crate::layout::{
    compute_layout,
    display_pos_of,
    display_to_para,
    doc_size,
    laid_out_document,
    get_page_for_position,
    para_pos_of,
    para_to_display_pos,
    DisplayLine,
    DisplayPosition,
    LayoutConfig,
    ParagraphPosition,
    TextMeasure,
};
use crate::style::{lemma_no_runs_wf, opt_view, runs_wf, StyleChange, TextStyle};
use crate::table::DocumentTable;
use crate::text::{chars_of, string_of};

verus! {

/// Whether `s` reads `lit`.
fn name_is(s: &str, lit: &str) -> (r: bool)
    ensures
        r == (s@ == lit@),
{
    String::from_str(s).eq(&String::from_str(lit))
}

/// The block type a name stands for: `h1` to `h4`, `blockquote`, else a
/// plain paragraph.
pub open spec fn block_type_named(name: Seq<char>) -> BlockType {
    if name == "h1"@ {
        BlockType::Heading1
    } else if name == "h2"@ {
        BlockType::Heading2
    } else if name == "h3"@ {
        BlockType::Heading3
    } else if name == "h4"@ {
        BlockType::Heading4
    } else if name == "blockquote"@ {
        BlockType::Blockquote
    } else {
        BlockType::Paragraph
    }
}

pub fn block_type_from_name(name: &str) -> (r: BlockType)
    ensures
        r == block_type_named(name@),
{
    if name_is(name, "h1") {
        BlockType::Heading1
    } else if name_is(name, "h2") {
        BlockType::Heading2
    } else if name_is(name, "h3") {
        BlockType::Heading3
    } else if name_is(name, "h4") {
        BlockType::Heading4
    } else if name_is(name, "blockquote") {
        BlockType::Blockquote
    } else {
        BlockType::Paragraph
    }
}

/// The alignment a name stands for: `center`, `right`, `justify`, else left.
pub open spec fn align_named(name: Seq<char>) -> TextAlign {
    if name == "center"@ {
        TextAlign::Center
    } else if name == "right"@ {
        TextAlign::Right
    } else if name == "justify"@ {
        TextAlign::Justify
    } else {
        TextAlign::Left
    }
}

pub fn align_from_name(name: &str) -> (r: TextAlign)
    ensures
        r == align_named(name@),
{
    if name_is(name, "center") {
        TextAlign::Center
    } else if name_is(name, "right") {
        TextAlign::Right
    } else if name_is(name, "justify") {
        TextAlign::Justify
    } else {
        TextAlign::Left
    }
}

/// The list type a name stands for: `bullet`, `numbered`, else none.
pub open spec fn list_type_named(name: Seq<char>) -> ListType {
    if name == "bullet"@ {
        ListType::Bullet
    } else if name == "numbered"@ {
        ListType::Numbered
    } else {
        ListType::NoList
    }
}

pub fn list_type_from_name(name: &str) -> (r: ListType)
    ensures
        r == list_type_named(name@),
{
    if name_is(name, "bullet") {
        ListType::Bullet
    } else if name_is(name, "numbered") {
        ListType::Numbered
    } else {
        ListType::NoList
    }
}

/// The wrap style a name stands for; unknown names are inline.
pub open spec fn wrap_style_named(name: Seq<char>) -> ImageWrapStyle {
    if name == "top-bottom"@ {
        ImageWrapStyle::TopBottom
    } else if name == "square"@ {
        ImageWrapStyle::Square
    } else if name == "tight"@ {
        ImageWrapStyle::Tight
    } else if name == "through"@ {
        ImageWrapStyle::Through
    } else if name == "behind"@ {
        ImageWrapStyle::Behind
    } else if name == "in-front"@ {
        ImageWrapStyle::InFront
    } else {
        ImageWrapStyle::Inline
    }
}

pub fn wrap_style_from_name(name: &str) -> (r: ImageWrapStyle)
    ensures
        r == wrap_style_named(name@),
{
    if name_is(name, "top-bottom") {
        ImageWrapStyle::TopBottom
    } else if name_is(name, "square") {
        ImageWrapStyle::Square
    } else if name_is(name, "tight") {
        ImageWrapStyle::Tight
    } else if name_is(name, "through") {
        ImageWrapStyle::Through
    } else if name_is(name, "behind") {
        ImageWrapStyle::Behind
    } else if name_is(name, "in-front") {
        ImageWrapStyle::InFront
    } else {
        ImageWrapStyle::Inline
    }
}

/// The horizontal alignment a name stands for: `center`, `right`, else left.
pub open spec fn horizontal_named(name: Seq<char>) -> HorizontalAlign {
    if name == "center"@ {
        HorizontalAlign::Center
    } else if name == "right"@ {
        HorizontalAlign::Right
    } else {
        HorizontalAlign::Left
    }
}

pub fn horizontal_from_name(name: &str) -> (r: HorizontalAlign)
    ensures
        r == horizontal_named(name@),
{
    if name_is(name, "center") {
        HorizontalAlign::Center
    } else if name_is(name, "right") {
        HorizontalAlign::Right
    } else {
        HorizontalAlign::Left
    }
}

/// The name of a list type.
pub fn list_type_name(t: ListType) -> (r: String)
    ensures
        r@ == match t {
            ListType::NoList => "none"@,
            ListType::Bullet => "bullet"@,
            ListType::Numbered => "numbered"@,
        },
{
    match t {
        ListType::NoList => String::from_str("none"),
        ListType::Bullet => String::from_str("bullet"),
        ListType::Numbered => String::from_str("numbered"),
    }
}

/// The decimal digit `d`.
pub open spec fn digit_char(d: int) -> char {
    if d == 0 {
        '0'
    } else if d == 1 {
        '1'
    } else if d == 2 {
        '2'
    } else if d == 3 {
        '3'
    } else if d == 4 {
        '4'
    } else if d == 5 {
        '5'
    } else if d == 6 {
        '6'
    } else if d == 7 {
        '7'
    } else if d == 8 {
        '8'
    } else {
        '9'
    }
}

/// The decimal numeral of `n`.
pub open spec fn decimal_text(n: nat) -> Seq<char>
    decreases n,
{
    if n < 10 {
        seq![digit_char(n as int)]
    } else {
        decimal_text(n / 10).push(digit_char((n % 10) as int))
    }
}

fn digit(d: usize) -> (c: char)
    requires
        d < 10,
    ensures
        c == digit_char(d as int),
{
    if d == 0 {
        '0'
    } else if d == 1 {
        '1'
    } else if d == 2 {
        '2'
    } else if d == 3 {
        '3'
    } else if d == 4 {
        '4'
    } else if d == 5 {
        '5'
    } else if d == 6 {
        '6'
    } else if d == 7 {
        '7'
    } else if d == 8 {
        '8'
    } else {
        '9'
    }
}

fn push_decimal(n: usize, out: &mut Vec<char>)
    ensures
        final(out)@ == old(out)@ + decimal_text(n as nat),
    decreases n,
{
    if n < 10 {
        out.push(digit(n));
    } else {
        push_decimal(n / 10, out);
        out.push(digit(n % 10));
    }
}

/// The id `table_<n>`.
pub fn table_id_for(n: usize) -> (r: String)
    ensures
        r@ == "table_"@ + decimal_text(n as nat),
{
    let mut cs: Vec<char> = Vec::new();
    cs.push('t');
    cs.push('a');
    cs.push('b');
    cs.push('l');
    cs.push('e');
    cs.push('_');
    push_decimal(n, &mut cs);
    proof {
        reveal_strlit("table_");
        assert(cs@.subrange(0, 6) =~= "table_"@);
        assert(cs@ =~= "table_"@ + decimal_text(n as nat));
    }
    string_of(cs.as_slice())
}

/// `mark` followed by `id`.
fn marked(mark: char, id: &str) -> (r: String)
    ensures
        r@ == seq![mark] + id@,
{
    let mut cs: Vec<char> = Vec::new();
    cs.push(mark);
    let rest = chars_of(id);
    let mut i: usize = 0;
    while i < rest.len()
        invariant
            0 <= i <= rest@.len(),
            rest@ == id@,
            cs@ == seq![mark] + rest@.subrange(0, i as int),
        decreases rest@.len() - i,
    {
        cs.push(rest[i]);
        i = i + 1;
        assert(cs@ =~= seq![mark] + rest@.subrange(0, i as int));
    }
    assert(rest@.subrange(0, rest@.len() as int) =~= rest@);
    string_of(cs.as_slice())
}

/// The editing engine
pub struct Engine {
    pub document: Document,
    pub layout_config: LayoutConfig,
    pub display_lines: Vec<DisplayLine>,
    /// Whether the cached layout is stale
    pub dirty: bool,
}

impl Default for Engine {
    fn default() -> (r: Engine)
        ensures
            r.wf(),
            r.dirty,
            r.display_lines@.len() == 0,
            r.document.paragraphs@.len() == 1,
    {
        Engine::new()
    }
}

/// The document's invariants: well-formed style runs, tables that are grids.
pub open spec fn doc_wf(d: Document) -> bool {
    &&& forall|i: int| 0 <= i < d.paragraphs@.len() ==> runs_wf(#[trigger] d.paragraphs@[i].styles@)
    &&& forall|t: int|
        0 <= t < d.tables@.len() ==> (#[trigger] d.tables@[t]).is_grid() && d.tables@[t].column_widths@.len()
            < usize::MAX
    &&& table_ids_distinct(d.tables@)
}

/// No two tables share an id.
pub open spec fn table_ids_distinct(ts: Seq<DocumentTable>) -> bool {
    forall|i: int, j: int|
        #![trigger ts[i], ts[j]]
        0 <= i < ts.len() && 0 <= j < ts.len() && i != j ==> ts[i].id@ != ts[j].id@
}

/// Tables that keep their ids keep them distinct.
proof fn lemma_ids_kept(o: Seq<DocumentTable>, n: Seq<DocumentTable>)
    requires
        table_ids_distinct(o),
        n.len() == o.len(),
        forall|k: int| 0 <= k < o.len() ==> (#[trigger] n[k]).id == o[k].id,
    ensures
        table_ids_distinct(n),
{
    assert forall|i: int, j: int|
        #![trigger n[i], n[j]]
        0 <= i < n.len() && 0 <= j < n.len() && i != j implies n[i].id@ != n[j].id@ by {
        assert(n[i].id == o[i].id && n[j].id == o[j].id);
    }
}

/// Whether a paragraph points at the image `id`.
pub open spec fn refers_to_image(p: Paragraph, id: Seq<char>) -> bool {
    p.image_spec() && p.marked_id() == id
}

/// Whether a paragraph points at the table `id`.
pub open spec fn refers_to_table(p: Paragraph, id: Seq<char>) -> bool {
    p.table_spec() && p.marked_id() == id
}

/// Whether a paragraph refers to image `id`.
fn image_ref_is(p: &Paragraph, id: &str) -> (r: bool)
    ensures
        r == refers_to_image(*p, id@),
{
    match p.image_id() {
        Some(x) => name_is(x, id),
        None => false,
    }
}

/// Whether a paragraph refers to table `id`.
fn table_ref_is(p: &Paragraph, id: &str) -> (r: bool)
    ensures
        r == refers_to_table(*p, id@),
{
    match p.table_id() {
        Some(x) => name_is(x, id),
        None => false,
    }
}

/// Whether the document holds its invariants.
pub fn document_well_formed(d: &Document) -> (r: bool)
    ensures
        r == doc_wf(*d),
{
    let mut i: usize = 0;
    while i < d.paragraphs.len()
        invariant
            0 <= i <= d.paragraphs@.len(),
            forall|k: int| 0 <= k < i ==> runs_wf(#[trigger] d.paragraphs@[k].styles@),
        decreases d.paragraphs@.len() - i,
    {
        if !crate::style::styles_well_formed(&d.paragraphs[i].styles) {
            return false;
        }
        i = i + 1;
    }
    let mut t: usize = 0;
    while t < d.tables.len()
        invariant
            0 <= t <= d.tables@.len(),
            forall|k: int| 0 <= k < d.paragraphs@.len() ==> runs_wf(#[trigger] d.paragraphs@[k].styles@),
            forall|k: int|
                0 <= k < t ==> (#[trigger] d.tables@[k]).is_grid() && d.tables@[k].column_widths@.len() < usize::MAX,
        decreases d.tables@.len() - t,
    {
        if !d.tables[t].check_grid() || d.tables[t].column_widths.len() == usize::MAX {
            return false;
        }
        t = t + 1;
    }
    let n = d.tables.len();
    let mut a: usize = 0;
    while a < n
        invariant
            n == d.tables@.len(),
            0 <= a <= n,
            forall|k: int| 0 <= k < d.paragraphs@.len() ==> runs_wf(#[trigger] d.paragraphs@[k].styles@),
            forall|k: int|
                0 <= k < n ==> (#[trigger] d.tables@[k]).is_grid() && d.tables@[k].column_widths@.len() < usize::MAX,
            forall|i: int, j: int|
                #![trigger d.tables@[i], d.tables@[j]]
                0 <= i < a && 0 <= j < n && i != j ==> d.tables@[i].id@ != d.tables@[j].id@,
        decreases n - a,
    {
        let mut b: usize = 0;
        while b < n
            invariant
                n == d.tables@.len(),
                0 <= a < n,
                0 <= b <= n,
                forall|i: int, j: int|
                    #![trigger d.tables@[i], d.tables@[j]]
                    0 <= i < a && 0 <= j < n && i != j ==> d.tables@[i].id@ != d.tables@[j].id@,
                forall|j: int| 0 <= j < b && j != a ==> (#[trigger] d.tables@[j]).id@ != d.tables@[a as int].id@,
            decreases n - b,
        {
            if b != a && d.tables[b].id.eq(&d.tables[a].id) {
                assert(!table_ids_distinct(d.tables@)) by {
                    assert(d.tables@[a as int].id@ == d.tables@[b as int].id@);
                }
                return false;
            }
            b = b + 1;
        }
        a = a + 1;
    }
    true
}

impl Engine {
    pub open spec fn wf(&self) -> bool {
        &&& self.layout_config.valid()
        &&& doc_wf(self.document)
    }

    /// An engine with a new document and the default configuration.
    pub fn new() -> (r: Engine)
        ensures
            r.wf(),
            r.dirty,
            r.display_lines@.len() == 0,
            r.document.paragraphs@.len() == 1,
            r.document.paragraphs@[0].text@.len() == 0,
    {
        let document = Document::new();
        proof {
            lemma_no_runs_wf();
            assert(document.paragraphs@[0].styles@ =~= Seq::<TextStyle>::empty());
        }
        Engine { document, layout_config: LayoutConfig::default(), display_lines: Vec::new(), dirty: true }
    }

    /// Replaces the page geometry, keeping the font settings. Fails, changing
    /// nothing, where the result would not be a valid configuration.
    pub fn set_page_config(
        &mut self,
        page_width: u32,
        page_height: u32,
        margin_top: u32,
        margin_right: u32,
        margin_bottom: u32,
        margin_left: u32,
        columns: u8,
        column_gap: u32,
    ) -> (ok: bool)
        requires
            old(self).wf(),
        ensures
            final(self).wf(),
            final(self).document == old(self).document,
            ok ==> final(self).layout_config == (LayoutConfig {
                page_width,
                page_height,
                margin_top,
                margin_right,
                margin_bottom,
                margin_left,
                columns,
                column_gap,
                ..old(self).layout_config
            }) && final(self).dirty,
            !ok ==> *final(self) == *old(self),
            ok == (LayoutConfig {
                page_width,
                page_height,
                margin_top,
                margin_right,
                margin_bottom,
                margin_left,
                columns,
                column_gap,
                ..old(self).layout_config
            }).valid(),
    {
        let c = LayoutConfig {
            page_width,
            page_height,
            margin_top,
            margin_right,
            margin_bottom,
            margin_left,
            columns,
            column_gap,
            font_size: self.layout_config.font_size,
            line_height: self.layout_config.line_height,
            letter_spacing: self.layout_config.letter_spacing,
            paragraph_spacing: self.layout_config.paragraph_spacing,
        };
        if !c.check() {
            return false;
        }
        self.layout_config = c;
        self.dirty = true;
        true
    }

    /// Replaces the font settings. Fails, changing nothing, where the result
    /// would not be a valid configuration.
    pub fn set_font_config(&mut self, font_size: u32, line_height: u32, letter_spacing: u32, paragraph_spacing: u32) -> (ok: bool)
        requires
            old(self).wf(),
        ensures
            final(self).wf(),
            final(self).document == old(self).document,
            ok == (LayoutConfig { font_size, line_height, letter_spacing, paragraph_spacing, ..old(self).layout_config }).valid(),
            ok ==> final(self).layout_config == (LayoutConfig {
                font_size,
                line_height,
                letter_spacing,
                paragraph_spacing,
                ..old(self).layout_config
            }) && final(self).dirty,
            !ok ==> *final(self) == *old(self),
    {
        let c = LayoutConfig {
            font_size,
            line_height,
            letter_spacing,
            paragraph_spacing,
            page_width: self.layout_config.page_width,
            page_height: self.layout_config.page_height,
            margin_top: self.layout_config.margin_top,
            margin_right: self.layout_config.margin_right,
            margin_bottom: self.layout_config.margin_bottom,
            margin_left: self.layout_config.margin_left,
            columns: self.layout_config.columns,
            column_gap: self.layout_config.column_gap,
        };
        if !c.check() {
            return false;
        }
        self.layout_config = c;
        self.dirty = true;
        true
    }

    /// The number of paragraphs
    pub fn paragraph_count(&self) -> (r: usize)
        ensures
            r == self.document.paragraphs@.len(),
    {
        self.document.paragraphs.len()
    }

    /// The text of paragraph `index`, if there is one.
    pub fn get_paragraph(&self, index: usize) -> (r: Option<String>)
        ensures
            r.is_some() == (index < self.document.paragraphs@.len()),
            r.is_some() ==> r.unwrap()@ == self.document.paragraphs@[index as int].text@,
    {
        if index < self.document.paragraphs.len() {
            Some(self.document.paragraphs[index].text.clone())
        } else {
            None
        }
    }

    /// Sets the text of paragraph `index`, if there is one.
    pub fn set_paragraph(&mut self, index: usize, text: String)
        requires
            old(self).wf(),
        ensures
            final(self).wf(),
            final(self).document.paragraphs@.len() == old(self).document.paragraphs@.len(),
            index < old(self).document.paragraphs@.len() ==> final(self).document.paragraphs@[index as int].text@ == text@
                && final(self).dirty,
            index >= old(self).document.paragraphs@.len() ==> *final(self) == *old(self),
    {
        if index < self.document.paragraphs.len() {
            self.document.paragraphs[index].text = text;
            self.dirty = true;
        }
    }

    /// Inserts `para` at `index`, or at the end where the index is past it.
    fn insert_para(&mut self, index: usize, para: Paragraph)
        requires
            old(self).wf(),
            runs_wf(para.styles@),
        ensures
            final(self).wf(),
            final(self).dirty,
            final(self).document.paragraphs@ == old(self).document.paragraphs@.insert(
                if index < old(self).document.paragraphs@.len() { index as int } else { old(self).document.paragraphs@.len() as int },
                para,
            ),
            final(self).document.images == old(self).document.images,
            final(self).document.tables == old(self).document.tables,
            final(self).layout_config == old(self).layout_config,
    {
        let n = self.document.paragraphs.len();
        let at = if index < n {
            index
        } else {
            n
        };
        self.document.paragraphs.insert(at, para);
        self.dirty = true;
        assert forall|i: int| 0 <= i < self.document.paragraphs@.len() implies runs_wf(
            #[trigger] self.document.paragraphs@[i].styles@,
        ) by {
            if i < at {
                assert(self.document.paragraphs@[i] == old(self).document.paragraphs@[i]);
            } else if i > at {
                assert(self.document.paragraphs@[i] == old(self).document.paragraphs@[i - 1]);
            }
        }
    }

    /// Inserts a paragraph of `text` at `index`, or at the end.
    pub fn insert_paragraph(&mut self, index: usize, text: String)
        requires
            old(self).wf(),
        ensures
            final(self).wf(),
            final(self).dirty,
            ({
                let n = old(self).document.paragraphs@.len();
                let at = if index < n { index as int } else { n as int };
                &&& final(self).document.paragraphs@.len() == n + 1
                &&& final(self).document.paragraphs@[at].text@ == text@
                &&& final(self).document.paragraphs@.remove(at) == old(self).document.paragraphs@
            }),
    {
        let para = Paragraph::new(text);
        proof {
            lemma_no_runs_wf();
            assert(para.styles@ =~= Seq::<TextStyle>::empty());
        }
        self.insert_para(index, para);
        proof {
            let n = old(self).document.paragraphs@.len();
            let at = if index < n { index as int } else { n as int };
            assert(self.document.paragraphs@.remove(at) =~= old(self).document.paragraphs@);
        }
    }

    /// Deletes paragraph `index`, if there is one.
    pub fn delete_paragraph(&mut self, index: usize)
        requires
            old(self).wf(),
        ensures
            final(self).wf(),
            index < old(self).document.paragraphs@.len() ==> final(self).document.paragraphs@
                == old(self).document.paragraphs@.remove(index as int) && final(self).dirty,
            index >= old(self).document.paragraphs@.len() ==> *final(self) == *old(self),
    {
        if index < self.document.paragraphs.len() {
            self.document.paragraphs.remove(index);
            self.dirty = true;
            assert forall|i: int| 0 <= i < self.document.paragraphs@.len() implies runs_wf(
                #[trigger] self.document.paragraphs@[i].styles@,
            ) by {
                if i < index {
                    assert(self.document.paragraphs@[i] == old(self).document.paragraphs@[i]);
                } else {
                    assert(self.document.paragraphs@[i] == old(self).document.paragraphs@[i + 1]);
                }
            }
        }
    }

    /// Recomputes the layout where it is stale; returns whether it did.
    pub fn recompute_layout<M: TextMeasure>(&mut self, m: &M) -> (r: bool)
        requires
            old(self).wf(),
        ensures
            final(self).wf(),
            final(self).document == old(self).document,
            final(self).layout_config == old(self).layout_config,
            r == (old(self).dirty && doc_size(old(self).document.paragraphs@) <= usize::MAX),
            r ==> !final(self).dirty && laid_out_document(m, final(self).document, final(self).layout_config, final(self).display_lines@),
            !r ==> *final(self) == *old(self),
    {
        if !self.dirty {
            return false;
        }
        if !size_fits(&self.document) {
            return false;
        }
        self.display_lines = compute_layout(&self.document, &self.layout_config, m);
        self.dirty = false;
        true
    }

    /// The number of pages of the layout.
    pub fn page_count(&self) -> (r: usize)
        ensures
            self.display_lines@.len() == 0 ==> r == 1,
            r >= 1,
            forall|k: int|
                0 <= k < self.display_lines@.len() ==> (#[trigger] self.display_lines@[k]).page_index < r || r == usize::MAX,
            r == 1 || exists|k: int|
                0 <= k < self.display_lines@.len() && ((#[trigger] self.display_lines@[k]).page_index + 1 == r
                    || self.display_lines@[k].page_index == usize::MAX),
    {
        let mut best: usize = 0;
        let mut found = false;
        let mut i: usize = 0;
        while i < self.display_lines.len()
            invariant
                0 <= i <= self.display_lines@.len(),
                forall|k: int| 0 <= k < i ==> (#[trigger] self.display_lines@[k]).page_index <= best,
                found ==> exists|k: int| 0 <= k < i && (#[trigger] self.display_lines@[k]).page_index == best,
                !found ==> best == 0,
                i > 0 ==> found,
            decreases self.display_lines@.len() - i,
        {
            if !found || self.display_lines[i].page_index > best {
                best = self.display_lines[i].page_index;
            }
            found = true;
            i = i + 1;
        }
        if best == usize::MAX {
            usize::MAX
        } else {
            best + 1
        }
    }

    /// The display position of a document position, with the page and
    /// coordinates of its line.
    pub fn para_to_display_pos(&self, para_index: usize, char_offset: usize) -> (r: Option<(DisplayPosition, usize, u64, u64)>)
        ensures
            ({
                let (l, c) = display_pos_of(self.display_lines@, para_index as int, char_offset as int);
                match r {
                    Some((p, page, x, y)) => 0 <= l < self.display_lines@.len() && p.line == l && p.col == c
                        && page == self.display_lines@[l].page_index && x == self.display_lines@[l].x_position
                        && y == self.display_lines@[l].y_position,
                    None => !(0 <= l < self.display_lines@.len()),
                }
            }),
    {
        let pos = para_to_display_pos(&self.display_lines, para_index, char_offset);
        if pos.line < self.display_lines.len() {
            let dl = &self.display_lines[pos.line];
            Some((pos, dl.page_index, dl.x_position, dl.y_position))
        } else {
            None
        }
    }

    /// The document position of a display position.
    pub fn display_to_para(&self, line: usize, col: usize) -> (r: ParagraphPosition)
        ensures
            (r.para as int, r.offset as int) == para_pos_of(self.display_lines@, line as int, col as int),
    {
        display_to_para(&self.display_lines, line, col)
    }

    /// The page of a document position.
    pub fn get_page_for_position(&self, para_index: usize, char_offset: usize) -> (r: usize)
        ensures
            ({
                let (l, _c) = display_pos_of(self.display_lines@, para_index as int, char_offset as int);
                r == if 0 <= l < self.display_lines@.len() {
                    self.display_lines@[l].page_index
                } else {
                    0
                }
            }),
    {
        get_page_for_position(&self.display_lines, para_index, char_offset)
    }

    /// The number of display lines
    pub fn display_line_count(&self) -> (r: usize)
        ensures
            r == self.display_lines@.len(),
    {
        self.display_lines.len()
    }

    /// Replaces the document. Fails, changing nothing, where the new document
    /// does not hold the invariants.
    pub fn load_document(&mut self, doc: Document) -> (ok: bool)
        requires
            old(self).wf(),
        ensures
            final(self).wf(),
            ok == doc_wf(doc),
            ok ==> final(self).document == doc && final(self).dirty,
            !ok ==> *final(self) == *old(self),
    {
        if !document_well_formed(&doc) {
            return false;
        }
        self.document = doc;
        self.dirty = true;
        true
    }

    /// Alignment, block type and list type of paragraph `index`.
    pub fn get_paragraph_meta(&self, index: usize) -> (r: Option<(TextAlign, BlockType, ListType)>)
        ensures
            r.is_some() == (index < self.document.paragraphs@.len()),
            r.is_some() ==> r.unwrap() == (
                self.document.paragraphs@[index as int].meta.align,
                self.document.paragraphs@[index as int].meta.block_type,
                self.document.paragraphs@[index as int].meta.list_type,
            ),
    {
        if index < self.document.paragraphs.len() {
            let m = &self.document.paragraphs[index].meta;
            Some((m.align, m.block_type, m.list_type))
        } else {
            None
        }
    }

    /// The list type of paragraph `index`; none where there is no such
    /// paragraph.
    pub fn get_list_type(&self, index: usize) -> (r: ListType)
        ensures
            r == if index < self.document.paragraphs@.len() {
                self.document.paragraphs@[index as int].meta.list_type
            } else {
                ListType::NoList
            },
    {
        if index < self.document.paragraphs.len() {
            self.document.paragraphs[index].meta.list_type
        } else {
            ListType::NoList
        }
    }

    /// Inserts a paragraph of `text` at `index` with the list type of
    /// paragraph `source_para` (none where there is no such paragraph).
    pub fn insert_paragraph_with_list(&mut self, index: usize, text: String, source_para: usize)
        requires
            old(self).wf(),
        ensures
            final(self).wf(),
            final(self).dirty,
            ({
                let n = old(self).document.paragraphs@.len();
                let at = if index < n { index as int } else { n as int };
                &&& final(self).document.paragraphs@.len() == n + 1
                &&& final(self).document.paragraphs@[at].text@ == text@
                &&& final(self).document.paragraphs@[at].meta.list_type == if source_para < n {
                    old(self).document.paragraphs@[source_para as int].meta.list_type
                } else {
                    ListType::NoList
                }
                &&& final(self).document.paragraphs@.remove(at) == old(self).document.paragraphs@
            }),
    {
        let list_type = self.get_list_type(source_para);
        let mut para = Paragraph::new(text);
        para.meta.list_type = list_type;
        proof {
            lemma_no_runs_wf();
            assert(para.styles@ =~= Seq::<TextStyle>::empty());
        }
        self.insert_para(index, para);
        proof {
            let n = old(self).document.paragraphs@.len();
            let at = if index < n { index as int } else { n as int };
            assert(self.document.paragraphs@.remove(at) =~= old(self).document.paragraphs@);
        }
    }

    /// Sets the block type of paragraph `index` by name.
    pub fn set_block_type(&mut self, index: usize, block_type: &str)
        requires
            old(self).wf(),
        ensures
            final(self).wf(),
            final(self).document.paragraphs@.len() == old(self).document.paragraphs@.len(),
            index < old(self).document.paragraphs@.len() ==> final(self).document.paragraphs@[index as int].meta.block_type
                == block_type_named(block_type@) && final(self).dirty,
            index >= old(self).document.paragraphs@.len() ==> *final(self) == *old(self),
    {
        if index < self.document.paragraphs.len() {
            self.document.paragraphs[index].meta.block_type = block_type_from_name(block_type);
            self.dirty = true;
        }
    }

    /// Sets the alignment of paragraph `index` by name.
    pub fn set_alignment(&mut self, index: usize, align: &str)
        requires
            old(self).wf(),
        ensures
            final(self).wf(),
            final(self).document.paragraphs@.len() == old(self).document.paragraphs@.len(),
            index < old(self).document.paragraphs@.len() ==> final(self).document.paragraphs@[index as int].meta.align
                == align_named(align@) && final(self).dirty,
            index >= old(self).document.paragraphs@.len() ==> *final(self) == *old(self),
    {
        if index < self.document.paragraphs.len() {
            self.document.paragraphs[index].meta.align = align_from_name(align);
            self.dirty = true;
        }
    }

    /// Sets the list type of paragraph `index` by name.
    pub fn set_list_type(&mut self, index: usize, list_type: &str)
        requires
            old(self).wf(),
        ensures
            final(self).wf(),
            final(self).document.paragraphs@.len() == old(self).document.paragraphs@.len(),
            index < old(self).document.paragraphs@.len() ==> final(self).document.paragraphs@[index as int].meta.list_type
                == list_type_named(list_type@) && final(self).dirty,
            index >= old(self).document.paragraphs@.len() ==> *final(self) == *old(self),
    {
        if index < self.document.paragraphs.len() {
            self.document.paragraphs[index].meta.list_type = list_type_from_name(list_type);
            self.dirty = true;
        }
    }

    /// Toggles the named list type on paragraph `index`: removes it where the
    /// paragraph has it, else sets it.
    pub fn toggle_list(&mut self, index: usize, list_type: &str)
        requires
            old(self).wf(),
        ensures
            final(self).wf(),
            final(self).document.paragraphs@.len() == old(self).document.paragraphs@.len(),
            index < old(self).document.paragraphs@.len() ==> final(self).document.paragraphs@[index as int].meta.list_type
                == if old(self).document.paragraphs@[index as int].meta.list_type == list_type_named(list_type@) {
                ListType::NoList
            } else {
                list_type_named(list_type@)
            } && final(self).dirty,
            index >= old(self).document.paragraphs@.len() ==> *final(self) == *old(self),
    {
        if index < self.document.paragraphs.len() {
            let target = list_type_from_name(list_type);
            let current = self.document.paragraphs[index].meta.list_type;
            self.document.paragraphs[index].meta.list_type = if current == target {
                ListType::NoList
            } else {
                target
            };
            self.dirty = true;
        }
    }

    /// Applies `change` to the range of paragraph `para_index`.
    fn restyle(&mut self, para_index: usize, start: usize, end: usize, change: &StyleChange)
        requires
            old(self).wf(),
            para_index < old(self).document.paragraphs@.len(),
        ensures
            final(self).wf(),
            final(self).dirty,
            final(self).document.paragraphs@.len() == old(self).document.paragraphs@.len(),
            crate::document::restyle_post(
                old(self).document.paragraphs@[para_index as int].styles@,
                final(self).document.paragraphs@[para_index as int].styles@,
                start as int,
                end as int,
                *change,
            ),
            forall|i: int|
                0 <= i < old(self).document.paragraphs@.len() && i != para_index
                    ==> #[trigger] final(self).document.paragraphs@[i] == old(self).document.paragraphs@[i],
    {
        assert(runs_wf(self.document.paragraphs@[para_index as int].styles@));
        self.document.paragraphs[para_index].apply_style(start, end, change);
        self.dirty = true;
        assert forall|i: int| 0 <= i < self.document.paragraphs@.len() implies runs_wf(
            #[trigger] self.document.paragraphs@[i].styles@,
        ) by {
            if i != para_index {
                assert(self.document.paragraphs@[i] == old(self).document.paragraphs@[i]);
            }
        }
    }

    /// Toggles bold over a range: clears it where every character of the
    /// range is bold, else sets it.
    pub fn toggle_bold(&mut self, para_index: usize, start: usize, end: usize)
        requires
            old(self).wf(),
        ensures
            final(self).wf(),
            para_index >= old(self).document.paragraphs@.len() ==> *final(self) == *old(self),
            para_index < old(self).document.paragraphs@.len() ==> crate::document::restyle_post(
                old(self).document.paragraphs@[para_index as int].styles@,
                final(self).document.paragraphs@[para_index as int].styles@,
                start as int,
                end as int,
                flag_change(0, !all_flagged(old(self).document.paragraphs@[para_index as int].styles@, start as int, end as int, 0)),
            ),
    {
        self.toggle_flag(para_index, start, end, 0);
    }

    /// Sets the text color over a range; an empty color removes it.
    pub fn set_text_color(&mut self, para_index: usize, start: usize, end: usize, color: &str)
        requires
            old(self).wf(),
        ensures
            final(self).wf(),
            para_index >= old(self).document.paragraphs@.len() ==> *final(self) == *old(self),
            para_index < old(self).document.paragraphs@.len() ==> exists|c: StyleChange|
                crate::document::restyle_post(
                    old(self).document.paragraphs@[para_index as int].styles@,
                    final(self).document.paragraphs@[para_index as int].styles@,
                    start as int,
                    end as int,
                    c,
                ) && c.bold.is_none() && c.italic.is_none() && c.underline.is_none() && c.strikethrough.is_none()
                    && c.background.is_none() && c.color.is_some() && crate::style::opt_view(c.color.unwrap())
                    == if color@.len() == 0 {
                    None
                } else {
                    Some(color@)
                },
    {
        if para_index < self.document.paragraphs.len() {
            let value = if color.is_empty() {
                None
            } else {
                Some(String::from_str(color))
            };
            let mut c = StyleChange::new();
            c.color = Some(value);
            self.restyle(para_index, start, end, &c);
            assert(crate::document::restyle_post(
                old(self).document.paragraphs@[para_index as int].styles@,
                self.document.paragraphs@[para_index as int].styles@,
                start as int,
                end as int,
                c,
            ));
        }
    }

    /// Sets the highlight color over a range; an empty color removes it.
    pub fn set_highlight_color(&mut self, para_index: usize, start: usize, end: usize, color: &str)
        requires
            old(self).wf(),
        ensures
            final(self).wf(),
            para_index >= old(self).document.paragraphs@.len() ==> *final(self) == *old(self),
            para_index < old(self).document.paragraphs@.len() ==> exists|c: StyleChange|
                crate::document::restyle_post(
                    old(self).document.paragraphs@[para_index as int].styles@,
                    final(self).document.paragraphs@[para_index as int].styles@,
                    start as int,
                    end as int,
                    c,
                ) && c.bold.is_none() && c.italic.is_none() && c.underline.is_none() && c.strikethrough.is_none()
                    && c.color.is_none() && c.background.is_some() && crate::style::opt_view(c.background.unwrap())
                    == if color@.len() == 0 {
                    None
                } else {
                    Some(color@)
                },
    {
        if para_index < self.document.paragraphs.len() {
            let value = if color.is_empty() {
                None
            } else {
                Some(String::from_str(color))
            };
            let mut c = StyleChange::new();
            c.background = Some(value);
            self.restyle(para_index, start, end, &c);
            assert(crate::document::restyle_post(
                old(self).document.paragraphs@[para_index as int].styles@,
                self.document.paragraphs@[para_index as int].styles@,
                start as int,
                end as int,
                c,
            ));
        }
    }

    /// Adds an image with the given display and natural sizes.
    pub fn add_image(&mut self, id: &str, src: &str, width: u32, height: u32, natural_width: u32, natural_height: u32)
        requires
            old(self).wf(),
        ensures
            final(self).wf(),
            final(self).document.images@.len() == old(self).document.images@.len() + 1,
            final(self).document.images@.drop_last() == old(self).document.images@,
            final(self).document.images@.last().id@ == id@,
            final(self).document.images@.last().width == width,
            final(self).document.images@.last().height == height,
            final(self).document.images@.last().natural_width == natural_width,
            final(self).document.images@.last().natural_height == natural_height,
            final(self).document.paragraphs == old(self).document.paragraphs,
            final(self).document.tables == old(self).document.tables,
    {
        let mut image = DocumentImage::new(String::from_str(id), String::from_str(src), width, height);
        image.natural_width = natural_width;
        image.natural_height = natural_height;
        self.document.images.push(image);
        assert(self.document.images@.drop_last() == old(self).document.images@);
    }

    /// Inserts a paragraph referring to image `image_id` at `index`.
    pub fn insert_image_paragraph(&mut self, index: usize, image_id: &str)
        requires
            old(self).wf(),
        ensures
            final(self).wf(),
            final(self).dirty,
            ({
                let n = old(self).document.paragraphs@.len();
                let at = if index < n { index as int } else { n as int };
                &&& final(self).document.paragraphs@.len() == n + 1
                &&& final(self).document.paragraphs@[at].text@ == seq![IMAGE_MARK] + image_id@
                &&& final(self).document.paragraphs@.remove(at) == old(self).document.paragraphs@
            }),
    {
        let para = Paragraph::new(marked(IMAGE_MARK, image_id));
        proof {
            lemma_no_runs_wf();
            assert(para.styles@ =~= Seq::<TextStyle>::empty());
        }
        self.insert_para(index, para);
        proof {
            let n = old(self).document.paragraphs@.len();
            let at = if index < n { index as int } else { n as int };
            assert(self.document.paragraphs@.remove(at) =~= old(self).document.paragraphs@);
        }
    }

    /// Inserts a page break at `index`.
    pub fn insert_page_break(&mut self, index: usize)
        requires
            old(self).wf(),
        ensures
            final(self).wf(),
            final(self).dirty,
            ({
                let n = old(self).document.paragraphs@.len();
                let at = if index < n { index as int } else { n as int };
                &&& final(self).document.paragraphs@.len() == n + 1
                &&& final(self).document.paragraphs@[at].page_break_spec()
                &&& final(self).document.paragraphs@.remove(at) == old(self).document.paragraphs@
            }),
    {
        let mut cs: Vec<char> = Vec::new();
        cs.push(PAGE_BREAK_MARK);
        let para = Paragraph::new(string_of(cs.as_slice()));
        proof {
            lemma_no_runs_wf();
            assert(para.styles@ =~= Seq::<TextStyle>::empty());
            assert(para.text@ =~= seq![PAGE_BREAK_MARK]);
        }
        self.insert_para(index, para);
        proof {
            let n = old(self).document.paragraphs@.len();
            let at = if index < n { index as int } else { n as int };
            assert(self.document.paragraphs@.remove(at) =~= old(self).document.paragraphs@);
        }
    }

    /// Deletes every image with id `id` and every paragraph referring to it.
    pub fn delete_image(&mut self, id: &str)
        requires
            old(self).wf(),
        ensures
            final(self).wf(),
            final(self).dirty,
            forall|k: int| 0 <= k < final(self).document.images@.len() ==> (#[trigger] final(self).document.images@[k]).id@ != id@,
            forall|k: int|
                0 <= k < final(self).document.paragraphs@.len() ==> !refers_to_image(
                    #[trigger] final(self).document.paragraphs@[k],
                    id@,
                ),
            forall|k: int|
                0 <= k < old(self).document.paragraphs@.len() && !refers_to_image(
                    #[trigger] old(self).document.paragraphs@[k],
                    id@,
                ) ==> final(self).document.paragraphs@.contains(old(self).document.paragraphs@[k]),
            final(self).document.tables == old(self).document.tables,
    {
        let mut images: Vec<DocumentImage> = Vec::new();
        let mut old_images: Vec<DocumentImage> = Vec::new();
        std::mem::swap(&mut old_images, &mut self.document.images);
        let key = String::from_str(id);
        let mut i: usize = 0;
        while i < old_images.len()
            invariant
                0 <= i <= old_images@.len(),
                key@ == id@,
                forall|k: int| 0 <= k < images@.len() ==> (#[trigger] images@[k]).id@ != id@,
            decreases old_images@.len() - i,
        {
            if !old_images[i].id.eq(&key) {
                images.push(clone_image(&old_images[i]));
            }
            i = i + 1;
        }
        self.document.images = images;
        let mut old_paras: Vec<Paragraph> = Vec::new();
        std::mem::swap(&mut old_paras, &mut self.document.paragraphs);
        let ghost op = old_paras@;
        let mut paras: Vec<Paragraph> = Vec::new();
        let mut it = old_paras;
        let mut i: usize = 0;
        let n = it.len();
        while i < n
            invariant
                n == op.len(),
                it@.len() == n,
                0 <= i <= n,
                forall|k: int| i <= k < n ==> #[trigger] it@[k] == op[k],
                forall|k: int| 0 <= k < op.len() ==> runs_wf(#[trigger] op[k].styles@),
                forall|k: int| 0 <= k < paras@.len() ==> runs_wf(#[trigger] paras@[k].styles@),
                forall|k: int| 0 <= k < paras@.len() ==> !refers_to_image(#[trigger] paras@[k], id@),
                forall|k: int| 0 <= k < i && !refers_to_image(#[trigger] op[k], id@) ==> paras@.contains(op[k]),
            decreases n - i,
        {
            let keep = !image_ref_is(&it[i], id);
            let mut p = Paragraph::new(String::new());
            std::mem::swap(&mut p, &mut it[i]);
            assert(p == op[i as int]);
            if keep {
                let ghost before = paras@;
                paras.push(p);
                assert forall|k: int| 0 <= k <= i && !refers_to_image(#[trigger] op[k], id@) implies paras@.contains(op[k]) by {
                    if k < i {
                        let j = choose|j: int| 0 <= j < before.len() && before[j] == op[k];
                        assert(paras@[j] == op[k]);
                    } else {
                        assert(paras@[before.len() as int] == op[k]);
                    }
                }
            }
            i = i + 1;
        }
        self.document.paragraphs = paras;
        self.dirty = true;
    }

    /// Creates a table of `rows` × `cols` empty cells and returns its id,
    /// `table_<n>` where `n` is the number of tables before it.
    pub fn create_table(&mut self, rows: usize, cols: usize) -> (id: String)
        requires
            old(self).wf(),
            cols < usize::MAX,
        ensures
            final(self).wf(),
            final(self).dirty,
            forall|t: int| 0 <= t < old(self).document.tables@.len() ==> (#[trigger] old(self).document.tables@[t]).id@ != id@,
            (forall|t: int|
                0 <= t < old(self).document.tables@.len() ==> (#[trigger] old(self).document.tables@[t]).id@ != "table_"@
                    + decimal_text(old(self).document.tables@.len() as nat)) ==> id@ == "table_"@ + decimal_text(
                old(self).document.tables@.len() as nat,
            ),
            final(self).document.tables@.len() == old(self).document.tables@.len() + 1,
            final(self).document.tables@.drop_last() == old(self).document.tables@,
            final(self).document.tables@.last().id@ == id@,
            final(self).document.tables@.last().rows@.len() == rows,
            final(self).document.tables@.last().column_widths@.len() == cols,
            final(self).document.paragraphs == old(self).document.paragraphs,
    {
        let mut longest: usize = 0;
        let mut k: usize = 0;
        while k < self.document.tables.len()
            invariant
                0 <= k <= self.document.tables@.len(),
                forall|j: int| 0 <= j < k ==> (#[trigger] self.document.tables@[j]).id@.len() <= longest,
            decreases self.document.tables@.len() - k,
        {
            let l = self.document.tables[k].id.as_str().unicode_len();
            if l > longest {
                longest = l;
            }
            k = k + 1;
        }
        let mut id = table_id_for(self.document.tables.len());
        let ghost base = id@;
        let mut taken = self.table_index(id.as_str()).is_some();
        let ghost first_taken = taken;
        while taken
            invariant
                *self == *old(self),
                forall|j: int| 0 <= j < self.document.tables@.len() ==> (#[trigger] self.document.tables@[j]).id@.len() <= longest,
                taken == exists|t: int| 0 <= t < self.document.tables@.len() && (#[trigger] self.document.tables@[t]).id@ == id@,
                !first_taken ==> id@ == base && !taken,
            decreases if id@.len() > longest { 0 } else { longest + 1 - id@.len() },
        {
            proof {
                let t = choose|t: int| 0 <= t < self.document.tables@.len() && (#[trigger] self.document.tables@[t]).id@ == id@;
                assert(id@.len() <= longest);
            }
            id.append("_");
            proof {
                reveal_strlit("_");
            }
            taken = self.table_index(id.as_str()).is_some();
        }
        let table = DocumentTable::new(String::from_str(id.as_str()), rows, cols, 0);
        let ghost o = self.document.tables@;
        self.document.tables.push(table);
        self.dirty = true;
        assert(self.document.tables@.drop_last() == old(self).document.tables@);
        assert(table_ids_distinct(self.document.tables@)) by {
            let n = self.document.tables@;
            assert forall|i: int, j: int|
                #![trigger n[i], n[j]]
                0 <= i < n.len() && 0 <= j < n.len() && i != j implies n[i].id@ != n[j].id@ by {
                if i < o.len() && j < o.len() {
                    assert(n[i] == o[i] && n[j] == o[j]);
                } else if i < o.len() {
                    assert(n[i] == o[i]);
                } else {
                    assert(n[j] == o[j]);
                }
            }
        }
        id
    }

    /// Inserts a paragraph referring to table `table_id` at `index`.
    pub fn insert_table_paragraph(&mut self, index: usize, table_id: &str)
        requires
            old(self).wf(),
        ensures
            final(self).wf(),
            final(self).dirty,
            ({
                let n = old(self).document.paragraphs@.len();
                let at = if index < n { index as int } else { n as int };
                &&& final(self).document.paragraphs@.len() == n + 1
                &&& final(self).document.paragraphs@[at].text@ == seq![TABLE_MARK] + table_id@
                &&& final(self).document.paragraphs@.remove(at) == old(self).document.paragraphs@
            }),
    {
        let para = Paragraph::new(marked(TABLE_MARK, table_id));
        proof {
            lemma_no_runs_wf();
            assert(para.styles@ =~= Seq::<TextStyle>::empty());
        }
        self.insert_para(index, para);
        proof {
            let n = old(self).document.paragraphs@.len();
            let at = if index < n { index as int } else { n as int };
            assert(self.document.paragraphs@.remove(at) =~= old(self).document.paragraphs@);
        }
    }

    /// The index of the first table with id `id`.
    pub fn table_index(&self, id: &str) -> (r: Option<usize>)
        ensures
            match r {
                Some(i) => i < self.document.tables@.len() && self.document.tables@[i as int].id@ == id@ && forall|j: int|
                    0 <= j < i ==> (#[trigger] self.document.tables@[j]).id@ != id@,
                None => forall|j: int| 0 <= j < self.document.tables@.len() ==> (#[trigger] self.document.tables@[j]).id@ != id@,
            },
    {
        let key = String::from_str(id);
        let mut i: usize = 0;
        while i < self.document.tables.len()
            invariant
                0 <= i <= self.document.tables@.len(),
                key@ == id@,
                forall|j: int| 0 <= j < i ==> (#[trigger] self.document.tables@[j]).id@ != id@,
            decreases self.document.tables@.len() - i,
        {
            if self.document.tables[i].id.eq(&key) {
                return Some(i);
            }
            i = i + 1;
        }
        None
    }

    /// The index of the first image with id `id`.
    pub fn image_index(&self, id: &str) -> (r: Option<usize>)
        ensures
            match r {
                Some(i) => i < self.document.images@.len() && self.document.images@[i as int].id@ == id@ && forall|j: int|
                    0 <= j < i ==> (#[trigger] self.document.images@[j]).id@ != id@,
                None => forall|j: int| 0 <= j < self.document.images@.len() ==> (#[trigger] self.document.images@[j]).id@ != id@,
            },
    {
        let key = String::from_str(id);
        let mut i: usize = 0;
        while i < self.document.images.len()
            invariant
                0 <= i <= self.document.images@.len(),
                key@ == id@,
                forall|j: int| 0 <= j < i ==> (#[trigger] self.document.images@[j]).id@ != id@,
            decreases self.document.images@.len() - i,
        {
            if self.document.images[i].id.eq(&key) {
                return Some(i);
            }
            i = i + 1;
        }
        None
    }

    /// The text of a cell, if the table and the cell exist.
    pub fn get_cell_text(&self, table_id: &str, row: usize, col: usize) -> (r: Option<String>)
        ensures
            forall|t: int|
                #![trigger self.document.tables@[t]]
                is_first_table(self.document, t, table_id@) ==> r.is_some() == self.document.tables@[t].has_cell(
                    row as int,
                    col as int,
                ) && (r.is_some() ==> r.unwrap()@ == self.document.tables@[t].cell(row as int, col as int).text@),
            (forall|t: int| 0 <= t < self.document.tables@.len() ==> (#[trigger] self.document.tables@[t]).id@ != table_id@)
                ==> r.is_none(),
    {
        match self.table_index(table_id) {
            Some(t) => match self.document.tables[t].get_cell(row, col) {
                Some(c) => Some(c.text.clone()),
                None => None,
            },
            None => None,
        }
    }

    /// Sets the text of a cell, if the table and the cell exist.
    pub fn set_cell_text(&mut self, table_id: &str, row: usize, col: usize, text: &str)
        requires
            old(self).wf(),
        ensures
            final(self).wf(),
            final(self).document.paragraphs == old(self).document.paragraphs,
            final(self).document.tables@.len() == old(self).document.tables@.len(),
            forall|t: int|
                #![trigger old(self).document.tables@[t]]
                is_first_table(old(self).document, t, table_id@) && old(self).document.tables@[t].has_cell(
                    row as int,
                    col as int,
                ) ==> final(self).document.tables@[t].cell(row as int, col as int).text@ == text@,
    {
        if let Some(t) = self.table_index(table_id) {
            if row < self.document.tables[t].rows.len() && col < self.document.tables[t].rows[row].cells.len() {
                self.document.tables[t].rows[row].cells[col].text = String::from_str(text);
                self.dirty = true;
                assert(old(self).document.tables@[t as int].is_grid());
                assert forall|k: int| 0 <= k < self.document.tables@.len() implies (#[trigger] self.document.tables@[k]).is_grid()
                    && self.document.tables@[k].column_widths@.len() < usize::MAX by {
                    if k != t {
                        assert(self.document.tables@[k] == old(self).document.tables@[k]);
                    } else {
                        assert forall|r: int| 0 <= r < self.document.tables@[k].rows@.len() implies (#[trigger] self.document.tables@[k].rows@[r]).cells@.len()
                            == self.document.tables@[k].column_widths@.len() by {
                            assert(old(self).document.tables@[k].rows@[r].cells@.len() == old(self).document.tables@[k].column_widths@.len());
                        }
                    }
                }
            }
        }
    }

    /// Adds a row to a table, if it exists.
    pub fn add_table_row(&mut self, table_id: &str, at_index: usize)
        requires
            old(self).wf(),
        ensures
            final(self).wf(),
            final(self).document.paragraphs == old(self).document.paragraphs,
            final(self).document.tables@.len() == old(self).document.tables@.len(),
    {
        if let Some(t) = self.table_index(table_id) {
            self.document.tables[t].add_row(at_index);
            self.dirty = true;
            assert forall|k: int| 0 <= k < self.document.tables@.len() implies (#[trigger] self.document.tables@[k]).is_grid()
                && self.document.tables@[k].column_widths@.len() < usize::MAX by {
                if k != t {
                    assert(self.document.tables@[k] == old(self).document.tables@[k]);
                }
            }
        }
    }

    /// Adds a column to a table, if it exists.
    pub fn add_table_column(&mut self, table_id: &str, at_index: usize)
        requires
            old(self).wf(),
        ensures
            final(self).wf(),
            final(self).document.paragraphs == old(self).document.paragraphs,
            final(self).document.tables@.len() == old(self).document.tables@.len(),
            forall|t: int|
                #![trigger old(self).document.tables@[t]]
                is_first_table(old(self).document, t, table_id@) && old(self).document.tables@[t].column_widths@.len() + 2
                    < usize::MAX ==> final(self).document.tables@[t].column_widths@.len()
                    == old(self).document.tables@[t].column_widths@.len() + 1,
    {
        if let Some(t) = self.table_index(table_id) {
            if self.document.tables[t].column_widths.len() < usize::MAX - 2 {
                self.document.tables[t].add_column(at_index);
                self.dirty = true;
                assert forall|k: int| 0 <= k < self.document.tables@.len() implies (#[trigger] self.document.tables@[k]).is_grid()
                    && self.document.tables@[k].column_widths@.len() < usize::MAX by {
                    if k != t {
                        assert(self.document.tables@[k] == old(self).document.tables@[k]);
                    }
                }
            }
        }
    }

    /// Deletes a row of a table; false where the table does not exist or the
    /// table refuses.
    pub fn delete_table_row(&mut self, table_id: &str, row: usize) -> (ok: bool)
        requires
            old(self).wf(),
        ensures
            final(self).wf(),
            !ok ==> *final(self) == *old(self),
            final(self).document.paragraphs == old(self).document.paragraphs,
    {
        if let Some(t) = self.table_index(table_id) {
            if !(row < self.document.tables[t].rows.len() && self.document.tables[t].rows.len() > 1) {
                return false;
            }
            let ok = self.document.tables[t].delete_row(row);
            self.dirty = true;
            assert forall|k: int| 0 <= k < self.document.tables@.len() implies (#[trigger] self.document.tables@[k]).is_grid()
                && self.document.tables@[k].column_widths@.len() < usize::MAX by {
                if k != t {
                    assert(self.document.tables@[k] == old(self).document.tables@[k]);
                } else if ok {
                    assert forall|r: int| 0 <= r < self.document.tables@[k].rows@.len() implies (#[trigger] self.document.tables@[k].rows@[r]).cells@.len()
                        == self.document.tables@[k].column_widths@.len() by {
                        if r < row {
                            assert(self.document.tables@[k].rows@[r] == old(self).document.tables@[k].rows@[r]);
                        } else {
                            assert(self.document.tables@[k].rows@[r] == old(self).document.tables@[k].rows@[r + 1]);
                        }
                    }
                }
            }
            ok
        } else {
            false
        }
    }

    /// Deletes a column of a table; false where the table does not exist or
    /// the table refuses.
    pub fn delete_table_column(&mut self, table_id: &str, col: usize) -> (ok: bool)
        requires
            old(self).wf(),
        ensures
            final(self).wf(),
            !ok ==> *final(self) == *old(self),
            final(self).document.paragraphs == old(self).document.paragraphs,
    {
        if let Some(t) = self.table_index(table_id) {
            if !(col < self.document.tables[t].column_widths.len() && self.document.tables[t].column_widths.len() > 1) {
                return false;
            }
            let ok = self.document.tables[t].delete_column(col);
            self.dirty = true;
            assert forall|k: int| 0 <= k < self.document.tables@.len() implies (#[trigger] self.document.tables@[k]).is_grid()
                && self.document.tables@[k].column_widths@.len() < usize::MAX by {
                if k != t {
                    assert(self.document.tables@[k] == old(self).document.tables@[k]);
                }
            }
            ok
        } else {
            false
        }
    }

    /// The number of rows and columns of a table.
    pub fn get_table_dimensions(&self, table_id: &str) -> (r: Option<(usize, usize)>)
        ensures
            match r {
                Some((rows, cols)) => exists|t: int|
                    0 <= t < self.document.tables@.len() && self.document.tables@[t].id@ == table_id@
                        && rows == self.document.tables@[t].rows@.len() && cols
                        == self.document.tables@[t].column_widths@.len(),
                None => forall|t: int| 0 <= t < self.document.tables@.len() ==> (#[trigger] self.document.tables@[t]).id@ != table_id@,
            },
    {
        match self.table_index(table_id) {
            Some(t) => Some((self.document.tables[t].num_rows(), self.document.tables[t].num_cols())),
            None => None,
        }
    }
}

/// Whether the document is small enough to lay out.
fn size_fits(d: &Document) -> (r: bool)
    ensures
        r == (doc_size(d.paragraphs@) <= usize::MAX),
{
    let mut total: usize = 0;
    let mut i: usize = 0;
    while i < d.paragraphs.len()
        invariant
            0 <= i <= d.paragraphs@.len(),
            total == doc_size(d.paragraphs@.subrange(0, i as int)),
        decreases d.paragraphs@.len() - i,
    {
        assert(d.paragraphs@.subrange(0, i + 1).drop_last() =~= d.paragraphs@.subrange(0, i as int));
        let len = d.paragraphs[i].text.as_str().unicode_len();
        if len >= usize::MAX - total {
            proof {
                crate::layout::lemma_doc_size_prefix(d.paragraphs@, i + 1);
            }
            return false;
        }
        total = total + len + 1;
        i = i + 1;
    }
    assert(d.paragraphs@.subrange(0, d.paragraphs@.len() as int) =~= d.paragraphs@);
    true
}

/// A copy of an image.
fn clone_image(i: &DocumentImage) -> (r: DocumentImage)
    ensures
        r == *i,
{
    DocumentImage {
        id: i.id.clone(),
        src: i.src.clone(),
        width: i.width,
        height: i.height,
        natural_width: i.natural_width,
        natural_height: i.natural_height,
        wrap_style: i.wrap_style,
        horizontal_align: i.horizontal_align,
        position_mode: i.position_mode,
        x: i.x,
        y: i.y,
        page_index: i.page_index,
        crop_top: i.crop_top,
        crop_right: i.crop_right,
        crop_bottom: i.crop_bottom,
        crop_left: i.crop_left,
    }
}

/// The tables of `n` are those of `o`, but table `t`, which keeps its shape.
pub open spec fn tables_reshaped_at(o: Document, n: Document, t: int) -> bool {
    &&& n.tables@.len() == o.tables@.len()
    &&& forall|k: int| 0 <= k < o.tables@.len() && k != t ==> #[trigger] n.tables@[k] == o.tables@[k]
    &&& 0 <= t < o.tables@.len() ==> n.tables@[t].same_frame(&o.tables@[t])
}

proof fn lemma_tables_stay_wf(o: Document, n: Document, t: int)
    requires
        doc_wf(o),
        n.paragraphs == o.paragraphs,
        tables_reshaped_at(o, n, t),
    ensures
        doc_wf(n),
{
    assert forall|k: int| 0 <= k < o.tables@.len() implies (#[trigger] n.tables@[k]).id == o.tables@[k].id by {
        if k != t {
            assert(n.tables@[k] == o.tables@[k]);
        }
    }
    lemma_ids_kept(o.tables@, n.tables@);
    assert forall|k: int| 0 <= k < n.tables@.len() implies (#[trigger] n.tables@[k]).is_grid()
        && n.tables@[k].column_widths@.len() < usize::MAX by {
        if k == t {
            assert(o.tables@[k].is_grid());
            assert forall|r: int| 0 <= r < n.tables@[k].rows@.len() implies (#[trigger] n.tables@[k].rows@[r]).cells@.len()
                == n.tables@[k].column_widths@.len() by {
                assert(o.tables@[k].rows@[r].cells@.len() == o.tables@[k].column_widths@.len());
            }
        } else {
            assert(n.tables@[k] == o.tables@[k]);
        }
    }
}

/// One of the four on/off style flags of `s`: 0 bold, 1 italic, 2 underline,
/// 3 strikethrough.
pub open spec fn flag_of(s: TextStyle, which: u8) -> bool {
    if which == 0 {
        s.bold
    } else if which == 1 {
        s.italic
    } else if which == 2 {
        s.underline
    } else {
        s.strikethrough
    }
}

/// The change that sets flag `which` to `v`.
pub open spec fn flag_change(which: u8, v: bool) -> StyleChange {
    StyleChange {
        bold: if which == 0 { Some(v) } else { None },
        italic: if which == 1 { Some(v) } else { None },
        underline: if which == 2 { Some(v) } else { None },
        strikethrough: if which >= 3 { Some(v) } else { None },
        color: None,
        background: None,
    }
}

/// One of the four on/off flags of attributes, numbered as in `flag_of`.
pub open spec fn attrs_flag(a: crate::style::Attrs, which: u8) -> bool {
    if which == 0 {
        a.bold
    } else if which == 1 {
        a.italic
    } else if which == 2 {
        a.underline
    } else {
        a.strikethrough
    }
}

/// Whether every character of `[start, end)` has flag `which`.
pub open spec fn all_flagged(runs: Seq<TextStyle>, start: int, end: int, which: u8) -> bool {
    forall|p: int|
        start <= p < end ==> match #[trigger] crate::style::attrs_at(runs, p) {
            Some(a) => attrs_flag(a, which),
            None => false,
        }
}

/// Whether every character of `[start, end)` has flag `which`.
fn range_flagged(runs: &Vec<TextStyle>, start: usize, end: usize, which: u8) -> (r: bool)
    requires
        runs_wf(runs@),
    ensures
        r == all_flagged(runs@, start as int, end as int, which),
{
    let ghost rs = runs@;
    proof {
        crate::style::reveal_runs_wf(rs);
    }
    let mut cursor = start;
    let mut i: usize = 0;
    while i < runs.len()
        invariant
            rs == runs@,
            runs_wf(rs),
            crate::style::runs_sorted(rs),
            0 <= i <= rs.len(),
            start <= cursor,
            forall|j: int| 0 <= j < i ==> (#[trigger] rs[j]).end <= cursor || rs[j].start >= end,
            forall|p: int| start <= p < cursor && p < end ==> match #[trigger] crate::style::attrs_at(rs, p) {
                Some(a) => attrs_flag(a, which),
                None => false,
            },
        decreases rs.len() - i,
    {
        if cursor >= end {
            return true;
        }
        let s = &runs[i];
        if s.end > cursor && s.start < end {
            if s.start > cursor {
                proof {
                    assert forall|j: int| 0 <= j < rs.len() implies !(#[trigger] rs[j]).covers(cursor as int) by {
                        if j > i {
                            assert(rs[i as int].end <= rs[j].start);
                        }
                    }
                    crate::style::lemma_attrs_at_gap(rs, cursor as int);
                    assert(crate::style::attrs_at(rs, cursor as int) == None::<crate::style::Attrs>);
                }
                return false;
            }
            if !flag(s, which) {
                let q = if s.start > cursor { s.start } else { cursor };
                proof {
                    crate::style::lemma_attrs_at_run(rs, i as int, q as int);
                }
                assert(!match crate::style::attrs_at(rs, q as int) {
                    Some(a) => attrs_flag(a, which),
                    None => false,
                });
                return false;
            }
            proof {
                assert forall|p: int| start <= p < s.end && p < end implies match #[trigger] crate::style::attrs_at(rs, p) {
                    Some(a) => attrs_flag(a, which),
                    None => false,
                } by {
                    if p >= cursor {
                        crate::style::lemma_attrs_at_run(rs, i as int, p);
                    }
                }
            }
            cursor = s.end;
        }
        i = i + 1;
    }
    if cursor < end {
        proof {
            assert forall|j: int| 0 <= j < rs.len() implies !(#[trigger] rs[j]).covers(cursor as int) by {}
            crate::style::lemma_attrs_at_gap(rs, cursor as int);
            assert(crate::style::attrs_at(rs, cursor as int) == None::<crate::style::Attrs>);
        }
        return false;
    }
    true
}

fn flag(s: &TextStyle, which: u8) -> (r: bool)
    ensures
        r == flag_of(*s, which),
{
    if which == 0 {
        s.bold
    } else if which == 1 {
        s.italic
    } else if which == 2 {
        s.underline
    } else {
        s.strikethrough
    }
}

impl Engine {
    /// Toggles flag `which` over a range: clears it where every character
    /// of the range has it, else sets it.
    fn toggle_flag(&mut self, para_index: usize, start: usize, end: usize, which: u8)
        requires
            old(self).wf(),
        ensures
            final(self).wf(),
            para_index >= old(self).document.paragraphs@.len() ==> *final(self) == *old(self),
            para_index < old(self).document.paragraphs@.len() ==> crate::document::restyle_post(
                old(self).document.paragraphs@[para_index as int].styles@,
                final(self).document.paragraphs@[para_index as int].styles@,
                start as int,
                end as int,
                flag_change(which, !all_flagged(old(self).document.paragraphs@[para_index as int].styles@, start as int, end as int, which)),
            ),
    {
        if para_index < self.document.paragraphs.len() {
            assert(runs_wf(self.document.paragraphs@[para_index as int].styles@));
            let all = range_flagged(&self.document.paragraphs[para_index].styles, start, end, which);
            let mut c = StyleChange::new();
            if which == 0 {
                c.bold = Some(!all);
            } else if which == 1 {
                c.italic = Some(!all);
            } else if which == 2 {
                c.underline = Some(!all);
            } else {
                c.strikethrough = Some(!all);
            }
            assert(c == flag_change(which, !all));
            self.restyle(para_index, start, end, &c);
        }
    }

    /// Toggles italics over a range.
    pub fn toggle_italic(&mut self, para_index: usize, start: usize, end: usize)
        requires
            old(self).wf(),
        ensures
            final(self).wf(),
            para_index >= old(self).document.paragraphs@.len() ==> *final(self) == *old(self),
            para_index < old(self).document.paragraphs@.len() ==> crate::document::restyle_post(
                old(self).document.paragraphs@[para_index as int].styles@,
                final(self).document.paragraphs@[para_index as int].styles@,
                start as int,
                end as int,
                flag_change(1, !all_flagged(old(self).document.paragraphs@[para_index as int].styles@, start as int, end as int, 1)),
            ),
    {
        self.toggle_flag(para_index, start, end, 1);
    }

    /// Toggles underlining over a range.
    pub fn toggle_underline(&mut self, para_index: usize, start: usize, end: usize)
        requires
            old(self).wf(),
        ensures
            final(self).wf(),
            para_index >= old(self).document.paragraphs@.len() ==> *final(self) == *old(self),
            para_index < old(self).document.paragraphs@.len() ==> crate::document::restyle_post(
                old(self).document.paragraphs@[para_index as int].styles@,
                final(self).document.paragraphs@[para_index as int].styles@,
                start as int,
                end as int,
                flag_change(2, !all_flagged(old(self).document.paragraphs@[para_index as int].styles@, start as int, end as int, 2)),
            ),
    {
        self.toggle_flag(para_index, start, end, 2);
    }

    /// Toggles strikethrough over a range.
    pub fn toggle_strikethrough(&mut self, para_index: usize, start: usize, end: usize)
        requires
            old(self).wf(),
        ensures
            final(self).wf(),
            para_index >= old(self).document.paragraphs@.len() ==> *final(self) == *old(self),
            para_index < old(self).document.paragraphs@.len() ==> crate::document::restyle_post(
                old(self).document.paragraphs@[para_index as int].styles@,
                final(self).document.paragraphs@[para_index as int].styles@,
                start as int,
                end as int,
                flag_change(3, !all_flagged(old(self).document.paragraphs@[para_index as int].styles@, start as int, end as int, 3)),
            ),
    {
        self.toggle_flag(para_index, start, end, 3);
    }

    /// Sets the display size of the first image with id `id`.
    pub fn update_image_size(&mut self, id: &str, width: u32, height: u32)
        requires
            old(self).wf(),
        ensures
            final(self).wf(),
            final(self).document.paragraphs == old(self).document.paragraphs,
            final(self).document.tables == old(self).document.tables,
            final(self).document.images@.len() == old(self).document.images@.len(),
            forall|i: int|
                0 <= i < old(self).document.images@.len() ==> {
                    let a = old(self).document.images@[i];
                    let b = #[trigger] final(self).document.images@[i];
                    if a.id@ == id@ && forall|j: int| 0 <= j < i ==> (#[trigger] old(self).document.images@[j]).id@ != id@ {
                        b == DocumentImage { width, height, ..a }
                    } else {
                        b == a
                    }
                },
    {
        if let Some(i) = self.image_index(id) {
            self.document.images[i].width = width;
            self.document.images[i].height = height;
            self.dirty = true;
        }
    }

    /// Sets the wrap style of the first image with id `id`, by name.
    pub fn set_image_wrap_style(&mut self, id: &str, wrap_style: &str)
        requires
            old(self).wf(),
        ensures
            final(self).wf(),
            final(self).document.paragraphs == old(self).document.paragraphs,
            final(self).document.tables == old(self).document.tables,
            final(self).document.images@.len() == old(self).document.images@.len(),
            forall|i: int|
                0 <= i < old(self).document.images@.len() ==> {
                    let a = old(self).document.images@[i];
                    let b = #[trigger] final(self).document.images@[i];
                    if a.id@ == id@ && forall|j: int| 0 <= j < i ==> (#[trigger] old(self).document.images@[j]).id@ != id@ {
                        b == DocumentImage { wrap_style: wrap_style_named(wrap_style@), ..a }
                    } else {
                        b == a
                    }
                },
    {
        if let Some(i) = self.image_index(id) {
            self.document.images[i].wrap_style = wrap_style_from_name(wrap_style);
            self.dirty = true;
        }
    }

    /// Fixes the first image with id `id` at a position on a page.
    pub fn set_image_position(&mut self, id: &str, x: i64, y: i64, page_index: usize)
        requires
            old(self).wf(),
        ensures
            final(self).wf(),
            final(self).document.paragraphs == old(self).document.paragraphs,
            final(self).document.tables == old(self).document.tables,
            final(self).document.images@.len() == old(self).document.images@.len(),
            forall|i: int|
                0 <= i < old(self).document.images@.len() ==> {
                    let a = old(self).document.images@[i];
                    let b = #[trigger] final(self).document.images@[i];
                    if a.id@ == id@ && forall|j: int| 0 <= j < i ==> (#[trigger] old(self).document.images@[j]).id@ != id@ {
                        b == DocumentImage {
                            x: Some(x),
                            y: Some(y),
                            page_index: Some(page_index),
                            position_mode: ImagePositionMode::FixedPosition,
                            ..a
                        }
                    } else {
                        b == a
                    }
                },
    {
        if let Some(i) = self.image_index(id) {
            self.document.images[i].x = Some(x);
            self.document.images[i].y = Some(y);
            self.document.images[i].page_index = Some(page_index);
            self.document.images[i].position_mode = ImagePositionMode::FixedPosition;
            self.dirty = true;
        }
    }

    /// Returns the first image with id `id` to moving with the text.
    pub fn clear_image_position(&mut self, id: &str)
        requires
            old(self).wf(),
        ensures
            final(self).wf(),
            final(self).document.paragraphs == old(self).document.paragraphs,
            final(self).document.tables == old(self).document.tables,
            final(self).document.images@.len() == old(self).document.images@.len(),
            forall|i: int|
                0 <= i < old(self).document.images@.len() ==> {
                    let a = old(self).document.images@[i];
                    let b = #[trigger] final(self).document.images@[i];
                    if a.id@ == id@ && forall|j: int| 0 <= j < i ==> (#[trigger] old(self).document.images@[j]).id@ != id@ {
                        b == DocumentImage {
                            x: None,
                            y: None,
                            page_index: None,
                            position_mode: ImagePositionMode::MoveWithText,
                            ..a
                        }
                    } else {
                        b == a
                    }
                },
    {
        if let Some(i) = self.image_index(id) {
            self.document.images[i].x = None;
            self.document.images[i].y = None;
            self.document.images[i].page_index = None;
            self.document.images[i].position_mode = ImagePositionMode::MoveWithText;
            self.dirty = true;
        }
    }

    /// Sets the horizontal alignment of the first image with id `id`, by
    /// name.
    pub fn set_image_horizontal_align(&mut self, id: &str, align: &str)
        requires
            old(self).wf(),
        ensures
            final(self).wf(),
            final(self).document.paragraphs == old(self).document.paragraphs,
            final(self).document.tables == old(self).document.tables,
            final(self).document.images@.len() == old(self).document.images@.len(),
            forall|i: int|
                0 <= i < old(self).document.images@.len() ==> {
                    let a = old(self).document.images@[i];
                    let b = #[trigger] final(self).document.images@[i];
                    if a.id@ == id@ && forall|j: int| 0 <= j < i ==> (#[trigger] old(self).document.images@[j]).id@ != id@ {
                        b == DocumentImage { horizontal_align: horizontal_named(align@), ..a }
                    } else {
                        b == a
                    }
                },
    {
        if let Some(i) = self.image_index(id) {
            self.document.images[i].horizontal_align = horizontal_from_name(align);
            self.dirty = true;
        }
    }

    /// Sets the background of a cell; an empty color removes it.
    pub fn set_cell_background(&mut self, table_id: &str, row: usize, col: usize, color: &str)
        requires
            old(self).wf(),
        ensures
            final(self).wf(),
            final(self).document.paragraphs == old(self).document.paragraphs,
            final(self).document.tables@.len() == old(self).document.tables@.len(),
            forall|t: int|
                #![trigger old(self).document.tables@[t]]
                is_first_table(old(self).document, t, table_id@) && old(self).document.tables@[t].has_cell(
                    row as int,
                    col as int,
                ) ==> opt_view(final(self).document.tables@[t].cell(row as int, col as int).background) == if color@.len()
                    == 0 {
                    None
                } else {
                    Some(color@)
                },
    {
        if let Some(t) = self.table_index(table_id) {
            if row < self.document.tables[t].rows.len() && col < self.document.tables[t].rows[row].cells.len() {
                let value = if color.is_empty() {
                    None
                } else {
                    Some(String::from_str(color))
                };
                self.document.tables[t].rows[row].cells[col].background = value;
                self.dirty = true;
                proof {
                    lemma_tables_stay_wf(old(self).document, self.document, t as int);
                }
            }
        }
    }

    /// Sets the alignment of a cell, by name.
    pub fn set_cell_align(&mut self, table_id: &str, row: usize, col: usize, align: &str)
        requires
            old(self).wf(),
        ensures
            final(self).wf(),
            final(self).document.paragraphs == old(self).document.paragraphs,
            final(self).document.tables@.len() == old(self).document.tables@.len(),
            forall|t: int|
                #![trigger old(self).document.tables@[t]]
                is_first_table(old(self).document, t, table_id@) && old(self).document.tables@[t].has_cell(
                    row as int,
                    col as int,
                ) ==> final(self).document.tables@[t].cell(row as int, col as int).align == align_named(align@),
    {
        if let Some(t) = self.table_index(table_id) {
            if row < self.document.tables[t].rows.len() && col < self.document.tables[t].rows[row].cells.len() {
                self.document.tables[t].rows[row].cells[col].align = align_from_name(align);
                self.dirty = true;
                proof {
                    lemma_tables_stay_wf(old(self).document, self.document, t as int);
                }
            }
        }
    }

    /// Sets the declared width of a column of a table.
    pub fn set_column_width(&mut self, table_id: &str, col: usize, width: u32)
        requires
            old(self).wf(),
        ensures
            final(self).wf(),
            final(self).document.paragraphs == old(self).document.paragraphs,
            final(self).document.tables@.len() == old(self).document.tables@.len(),
    {
        if let Some(t) = self.table_index(table_id) {
            if col < self.document.tables[t].column_widths.len() {
                self.document.tables[t].column_widths.set(col, width);
                self.dirty = true;
                assert forall|k: int| 0 <= k < self.document.tables@.len() implies (#[trigger] self.document.tables@[k]).is_grid()
                    && self.document.tables@[k].column_widths@.len() < usize::MAX by {
                    if k != t {
                        assert(self.document.tables@[k] == old(self).document.tables@[k]);
                    } else {
                        assert(old(self).document.tables@[k].is_grid());
                    }
                }
            }
        }
    }

    /// Sets the border width and color of a table.
    pub fn set_table_border(&mut self, table_id: &str, width: u32, color: &str)
        requires
            old(self).wf(),
        ensures
            final(self).wf(),
            final(self).document.paragraphs == old(self).document.paragraphs,
            final(self).document.tables@.len() == old(self).document.tables@.len(),
    {
        if let Some(t) = self.table_index(table_id) {
            self.document.tables[t].border_width = width;
            self.document.tables[t].border_color = String::from_str(color);
            self.dirty = true;
            assert forall|k: int| 0 <= k < self.document.tables@.len() implies (#[trigger] self.document.tables@[k]).is_grid()
                && self.document.tables@[k].column_widths@.len() < usize::MAX by {
                if k != t {
                    assert(self.document.tables@[k] == old(self).document.tables@[k]);
                } else {
                    assert(old(self).document.tables@[k].is_grid());
                }
            }
        }
    }

    /// Deletes every table with id `id` and every paragraph referring to it.
    pub fn delete_table(&mut self, id: &str)
        requires
            old(self).wf(),
        ensures
            final(self).wf(),
            final(self).dirty,
            forall|k: int| 0 <= k < final(self).document.tables@.len() ==> (#[trigger] final(self).document.tables@[k]).id@ != id@,
            forall|k: int|
                0 <= k < final(self).document.paragraphs@.len() ==> !refers_to_table(
                    #[trigger] final(self).document.paragraphs@[k],
                    id@,
                ),
            forall|k: int|
                0 <= k < old(self).document.paragraphs@.len() && !refers_to_table(
                    #[trigger] old(self).document.paragraphs@[k],
                    id@,
                ) ==> final(self).document.paragraphs@.contains(old(self).document.paragraphs@[k]),
            final(self).document.images == old(self).document.images,
    {
        let mut old_tables: Vec<DocumentTable> = Vec::new();
        std::mem::swap(&mut old_tables, &mut self.document.tables);
        let ghost ot = old_tables@;
        let mut tables: Vec<DocumentTable> = Vec::new();
        let key = String::from_str(id);
        let n = old_tables.len();
        let mut i: usize = 0;
        while i < n
            invariant
                n == ot.len(),
                old_tables@.len() == n,
                key@ == id@,
                0 <= i <= n,
                forall|k: int| i <= k < n ==> #[trigger] old_tables@[k] == ot[k],
                forall|k: int| 0 <= k < ot.len() ==> (#[trigger] ot[k]).is_grid() && ot[k].column_widths@.len() < usize::MAX,
                forall|k: int|
                    0 <= k < tables@.len() ==> (#[trigger] tables@[k]).is_grid() && tables@[k].column_widths@.len()
                        < usize::MAX && tables@[k].id@ != id@,
                table_ids_distinct(ot),
                table_ids_distinct(tables@),
                forall|k: int| 0 <= k < tables@.len() ==> exists|j: int| 0 <= j < i && #[trigger] tables@[k] == ot[j],
            decreases n - i,
        {
            let keep = !old_tables[i].id.eq(&key);
            let mut tb = DocumentTable::new(String::new(), 0, 0, 0);
            std::mem::swap(&mut tb, &mut old_tables[i]);
            assert(tb == ot[i as int]);
            if keep {
                let ghost before = tables@;
                tables.push(tb);
                proof {
                    let nt = tables@;
                    assert forall|a: int, b: int|
                        #![trigger nt[a], nt[b]]
                        0 <= a < nt.len() && 0 <= b < nt.len() && a != b implies nt[a].id@ != nt[b].id@ by {
                        if a < before.len() && b < before.len() {
                            assert(nt[a] == before[a] && nt[b] == before[b]);
                        } else if a < before.len() {
                            assert(nt[a] == before[a]);
                            let j = choose|j: int| 0 <= j < i && #[trigger] before[a] == ot[j];
                            assert(ot[j].id@ != ot[i as int].id@);
                        } else {
                            assert(nt[b] == before[b]);
                            let j = choose|j: int| 0 <= j < i && #[trigger] before[b] == ot[j];
                            assert(ot[j].id@ != ot[i as int].id@);
                        }
                    }
                    assert forall|k: int| 0 <= k < nt.len() implies exists|j: int| 0 <= j < i + 1 && #[trigger] nt[k] == ot[j] by {
                        if k < before.len() {
                            assert(nt[k] == before[k]);
                            let j = choose|j: int| 0 <= j < i && #[trigger] before[k] == ot[j];
                            assert(nt[k] == ot[j]);
                        } else {
                            assert(nt[k] == ot[i as int]);
                        }
                    }
                }
            }
            i = i + 1;
        }
        self.document.tables = tables;
        let mut old_paras: Vec<Paragraph> = Vec::new();
        std::mem::swap(&mut old_paras, &mut self.document.paragraphs);
        let ghost op = old_paras@;
        let mut paras: Vec<Paragraph> = Vec::new();
        let n = old_paras.len();
        let mut i: usize = 0;
        while i < n
            invariant
                n == op.len(),
                old_paras@.len() == n,
                0 <= i <= n,
                forall|k: int| i <= k < n ==> #[trigger] old_paras@[k] == op[k],
                forall|k: int| 0 <= k < op.len() ==> runs_wf(#[trigger] op[k].styles@),
                forall|k: int| 0 <= k < paras@.len() ==> runs_wf(#[trigger] paras@[k].styles@),
                forall|k: int| 0 <= k < paras@.len() ==> !refers_to_table(#[trigger] paras@[k], id@),
                forall|k: int| 0 <= k < i && !refers_to_table(#[trigger] op[k], id@) ==> paras@.contains(op[k]),
            decreases n - i,
        {
            let keep = !table_ref_is(&old_paras[i], id);
            let mut p = Paragraph::new(String::new());
            std::mem::swap(&mut p, &mut old_paras[i]);
            assert(p == op[i as int]);
            if keep {
                let ghost before = paras@;
                paras.push(p);
                assert forall|k: int| 0 <= k <= i && !refers_to_table(#[trigger] op[k], id@) implies paras@.contains(op[k]) by {
                    if k < i {
                        let j = choose|j: int| 0 <= j < before.len() && before[j] == op[k];
                        assert(paras@[j] == op[k]);
                    } else {
                        assert(paras@[before.len() as int] == op[k]);
                    }
                }
            }
            i = i + 1;
        }
        self.document.paragraphs = paras;
        self.dirty = true;
    }
}

/// The number of line breaks in `t`.
pub open spec fn breaks_in(t: Seq<char>) -> int
    decreases t.len(),
{
    if t.len() == 0 {
        0
    } else {
        breaks_in(t.drop_last()) + if t.last() == '\n' {
            1int
        } else {
            0int
        }
    }
}

/// The estimated number of lines of a cell's text, at `char_width` per
/// character in a cell `cell_width` wide: the text's width over the cell's,
/// rounded up; or, where either is not positive, one line per line break
/// and one more.
pub open spec fn estimated_lines(t: Seq<char>, cell_width: int, char_width: int) -> int {
    let w = t.len() * char_width;
    if cell_width > 0 && w > 0 {
        let l = (w + cell_width - 1) / cell_width;
        if l < 1 {
            1
        } else {
            l
        }
    } else {
        breaks_in(t) + 1
    }
}

/// The first band holding `pos`, where the bands have the given sizes, the
/// first starts at `at` and each is followed by a gap.
pub open spec fn band_at(sizes: Seq<int>, at: int, gap: int, pos: int) -> Option<int>
    decreases sizes.len(),
{
    if sizes.len() == 0 {
        None
    } else if at <= pos < at + sizes[0] {
        Some(0)
    } else {
        match band_at(sizes.drop_first(), at + sizes[0] + gap, gap, pos) {
            Some(i) => Some(i + 1),
            None => None,
        }
    }
}

fn count_breaks(t: &Vec<char>) -> (r: usize)
    ensures
        r == breaks_in(t@),
{
    let mut n: usize = 0;
    let mut i: usize = 0;
    while i < t.len()
        invariant
            0 <= i <= t@.len(),
            n == breaks_in(t@.subrange(0, i as int)),
            n <= i,
        decreases t@.len() - i,
    {
        assert(t@.subrange(0, i + 1).drop_last() =~= t@.subrange(0, i as int));
        if t[i] == '\n' {
            n = n + 1;
        }
        i = i + 1;
    }
    assert(t@.subrange(0, t@.len() as int) =~= t@);
    n
}

fn estimate_lines(t: &Vec<char>, cell_width: i128, char_width: u64) -> (r: u128)
    requires
        -0x1_0000_0000_0000_0000 <= cell_width <= 0x1_0000_0000_0000_0000,
        char_width <= 0xffff_ffff,
    ensures
        r == estimated_lines(t@, cell_width as int, char_width as int),
        r <= 0x4_0000_0000_0000_0000_0000_0000,
{
    let n = t.len();
    assert(n * char_width <= 0xffff_ffff_ffff_ffff * 0xffff_ffff) by (nonlinear_arith)
        requires n <= 0xffff_ffff_ffff_ffff, char_width <= 0xffff_ffff;
    let w = n as u128 * char_width as u128;
    if cell_width > 0 && w > 0 {
        assert((w as int + cell_width as int - 1) / (cell_width as int) <= w as int + cell_width as int) by (nonlinear_arith)
            requires cell_width as int >= 1, w as int >= 0;
        let l = (w + cell_width as u128 - 1) / cell_width as u128;
        if l < 1 {
            1
        } else {
            l
        }
    } else {
        count_breaks(t) as u128 + 1
    }
}

/// Finds the band that holds `pos`.
fn find_band(sizes: &Vec<u128>, at: i128, gap: u32, pos: i64) -> (r: Option<usize>)
    requires
        0 <= at <= 0xffff_ffff,
        forall|k: int| 0 <= k < sizes@.len() ==> #[trigger] sizes@[k] <= 0x1_0000_0000_0000_0000_0000,
        sizes@.len() <= 0xffff_ffff_ffff_ffff,
    ensures
        match r {
            Some(i) => band_at(sizes@.map_values(|s: u128| s as int), at as int, gap as int, pos as int) == Some(i as int),
            None => band_at(sizes@.map_values(|s: u128| s as int), at as int, gap as int, pos as int).is_none(),
        },
{
    let ghost whole = sizes@.map_values(|s: u128| s as int);
    assert(whole.subrange(0, whole.len() as int) =~= whole);
    let mut y: i128 = at;
    let mut i: usize = 0;
    while i < sizes.len()
        invariant
            0 <= i <= sizes@.len(),
            whole == sizes@.map_values(|s: u128| s as int),
            forall|k: int| 0 <= k < sizes@.len() ==> #[trigger] sizes@[k] <= 0x1_0000_0000_0000_0000_0000,
            0 <= y <= 0x2_0000_0000_0000_0000_0000,
            ({
                let full = band_at(whole, at as int, gap as int, pos as int);
                let rest = band_at(whole.subrange(i as int, whole.len() as int), y as int, gap as int, pos as int);
                full == match rest {
                    Some(j) => Some(j + i),
                    None => None::<int>,
                }
            }),
        decreases sizes@.len() - i,
    {
        let ghost rest = whole.subrange(i as int, whole.len() as int);
        if y > i64::MAX as i128 {
            proof {
                lemma_band_beyond(rest, y as int, gap as int, pos as int);
            }
            return None;
        }
        assert(rest.drop_first() =~= whole.subrange(i + 1, whole.len() as int));
        assert(rest[0] == sizes@[i as int]);
        let h = sizes[i];
        if pos as i128 >= y && (pos as i128) < y + h as i128 {
            return Some(i);
        }
        y = y + h as i128 + gap as i128;
        i = i + 1;
    }
    proof {
        assert(whole.subrange(i as int, whole.len() as int) =~= Seq::<int>::empty());
    }
    None
}

proof fn lemma_band_beyond(sizes: Seq<int>, at: int, gap: int, pos: int)
    requires
        at > pos,
        gap >= 0,
        forall|k: int| 0 <= k < sizes.len() ==> #[trigger] sizes[k] >= 0,
    ensures
        band_at(sizes, at, gap, pos).is_none(),
    decreases sizes.len(),
{
    if sizes.len() > 0 {
        let d = sizes.drop_first();
        assert forall|k: int| 0 <= k < d.len() implies #[trigger] d[k] >= 0 by {
            assert(d[k] == sizes[k + 1]);
        }
        lemma_band_beyond(d, at + sizes[0] + gap, gap, pos);
    }
}

impl Engine {
    /// The cell at a click position inside table `table_id`, relative to its
    /// top-left corner. Rows take the height their texts are estimated to
    /// need, at six tenths of the font size per character, within the
    /// columns' shares of the column width; borders lie between rows and
    /// columns and around them.
    pub fn get_cell_at_position(&self, table_id: &str, rel_x: i64, rel_y: i64) -> (r: Option<(usize, usize)>)
        requires
            self.wf(),
        ensures
            r.is_some() ==> exists|t: int|
                0 <= t < self.document.tables@.len() && self.document.tables@[t].id@ == table_id@
                    && r.unwrap().0 < self.document.tables@[t].rows@.len()
                    && r.unwrap().1 < self.document.tables@[t].column_widths@.len(),
    {
        let t = match self.table_index(table_id) {
            Some(t) => t,
            None => return None,
        };
        let table = &self.document.tables[t];
        let border = table.border_width;
        let available = self.layout_config.column_width();
        assert(available <= 0xffff_ffff) by (nonlinear_arith)
            requires
                self.layout_config.content_width_spec() - self.layout_config.column_gap * (self.layout_config.columns - 1) >= 0,
                self.layout_config.content_width_spec() <= 0xffff_ffff,
                self.layout_config.columns >= 1,
                self.layout_config.column_gap >= 0,
                available == (self.layout_config.content_width_spec() - self.layout_config.column_gap * (
                self.layout_config.columns - 1)) / self.layout_config.columns as int;
        let line_height = self.layout_config.line_height_px();
        let char_width = self.layout_config.font_size as u64 * 6 / 10;
        let mut widths: Vec<u128> = Vec::new();
        let mut c: usize = 0;
        while c < table.column_widths.len()
            invariant
                0 <= c <= table.column_widths@.len(),
                widths@.len() == c,
                0 <= available <= 0xffff_ffff,
                forall|k: int| 0 <= k < widths@.len() ==> #[trigger] widths@[k] <= 0x1_0000_0000_0000_0000_0000,
            decreases table.column_widths@.len() - c,
        {
            let w = table.column_widths[c];
            assert(available * w <= 0xffff_ffff * 0xffff_ffff) by (nonlinear_arith)
                requires 0 <= available <= 0xffff_ffff, w <= 0xffff_ffff;
            widths.push(available as u128 * w as u128 / 100);
            c = c + 1;
        }
        let mut heights: Vec<u128> = Vec::new();
        let mut i: usize = 0;
        while i < table.rows.len()
            invariant
                0 <= i <= table.rows@.len(),
                heights@.len() == i,
                line_height <= crate::layout::MAX_LINE_HEIGHT,
                char_width <= 0xffff_ffff,
                widths@.len() == table.column_widths@.len(),
                forall|k: int| 0 <= k < widths@.len() ==> #[trigger] widths@[k] <= 0x1_0000_0000_0000_0000_0000,
                forall|k: int| 0 <= k < heights@.len() ==> #[trigger] heights@[k] <= 0x1_0000_0000_0000_0000_0000,
            decreases table.rows@.len() - i,
        {
            let row = &table.rows[i];
            let mut max_lines: u128 = 1;
            let mut j: usize = 0;
            while j < row.cells.len()
                invariant
                    0 <= j <= row.cells@.len(),
                    widths@.len() == table.column_widths@.len(),
                    forall|k: int| 0 <= k < widths@.len() ==> #[trigger] widths@[k] <= 0x1_0000_0000_0000_0000_0000,
                    char_width <= 0xffff_ffff,
                    1 <= max_lines <= 0x4_0000_0000_0000_0000_0000_0000,
                decreases row.cells@.len() - j,
            {
                let col_width: i128 = if j < widths.len() {
                    if widths[j] > 0x1_0000_0000_0000_0000 {
                        0x1_0000_0000_0000_0000
                    } else {
                        widths[j] as i128
                    }
                } else {
                    100
                };
                let chars = chars_of(row.cells[j].text.as_str());
                let lines = estimate_lines(&chars, col_width - crate::layout::CELL_PADDING as i128, char_width);
                if lines > max_lines {
                    max_lines = lines;
                }
                j = j + 1;
            }
            assert(max_lines * line_height <= 0x4_0000_0000_0000_0000_0000_0000 * crate::layout::MAX_LINE_HEIGHT) by (nonlinear_arith)
                requires max_lines <= 0x4_0000_0000_0000_0000_0000_0000, line_height <= crate::layout::MAX_LINE_HEIGHT;
            let content = max_lines * line_height as u128 + crate::layout::CELL_PADDING as u128;
            let floor: u128 = match row.min_height {
                Some(h) => h as u128,
                None => line_height as u128 + crate::layout::CELL_PADDING as u128,
            };
            let h = if content > floor {
                content
            } else {
                floor
            };
            heights.push(if h > 0x1_0000_0000_0000_0000_0000 {
                0x1_0000_0000_0000_0000_0000
            } else {
                h
            });
            i = i + 1;
        }
        let found_row = find_band(&heights, border as i128, border, rel_y);
        let found_col = find_band(&widths, border as i128, border, rel_x);
        match (found_row, found_col) {
            (Some(r), Some(c)) => {
                proof {
                    lemma_band_in_range(heights@.map_values(|s: u128| s as int), border as int, border as int, rel_y as int);
                    lemma_band_in_range(widths@.map_values(|s: u128| s as int), border as int, border as int, rel_x as int);
                }
                Some((r, c))
            },
            _ => None,
        }
    }
}

proof fn lemma_band_in_range(sizes: Seq<int>, at: int, gap: int, pos: int)
    ensures
        band_at(sizes, at, gap, pos) matches Some(i) ==> 0 <= i < sizes.len(),
    decreases sizes.len(),
{
    if sizes.len() > 0 {
        lemma_band_in_range(sizes.drop_first(), at + sizes[0] + gap, gap, pos);
    }
}

} // verus!
