//! The document model: paragraphs with their metadata and styles, images and
//! tables.
//!
//! A paragraph whose text starts with a reserved character stands for a block
//! that is not text: U+FFFD alone is a page break, U+FFFC followed by an id
//! refers to an image, U+FFFB followed by an id refers to a table.
//!
//! Lengths are integer layout units (pixels at the caller's scale); factors
//! that are fractional in typography are held as percentages.
use vstd::prelude::*;
use crate::style::{
    attrs_at,
    first_style_at,
    overlapping,
    overlapping_styles,
    restyle_runs,
    restyled_at,
    runs_wf,
    same_runs,
    StyleChange,
    TextStyle,
};
use crate::table::DocumentTable;

verus! {

/// Marks a page-break paragraph.
pub const PAGE_BREAK_MARK: char = '\u{FFFD}';

/// Starts an image paragraph; the image id follows.
pub const IMAGE_MARK: char = '\u{FFFC}';

/// Starts a table paragraph; the table id follows.
pub const TABLE_MARK: char = '\u{FFFB}';

/// Text alignment options
#[derive(Debug, Clone, Copy, PartialEq, Eq, Structural)]
pub enum TextAlign {
    Left,
    Center,
    Right,
    Justify,
}

/// Block-level element types
#[derive(Debug, Clone, Copy, PartialEq, Eq, Structural)]
pub enum BlockType {
    Paragraph,
    Heading1,
    Heading2,
    Heading3,
    Heading4,
    Blockquote,
}

impl BlockType {
    pub open spec fn size_percent(self) -> u32 {
        match self {
            BlockType::Heading1 => 200,
            BlockType::Heading2 => 150,
            BlockType::Heading3 => 117,
            _ => 100,
        }
    }

    /// The font size multiplier for this block type, in percent.
    pub fn font_size_multiplier(&self) -> (r: u32)
        ensures
            r == self.size_percent(),
    {
        match self {
            BlockType::Heading1 => 200,
            BlockType::Heading2 => 150,
            BlockType::Heading3 => 117,
            BlockType::Heading4 => 100,
            BlockType::Paragraph => 100,
            BlockType::Blockquote => 100,
        }
    }

    /// Whether this block type is set in bold.
    pub fn is_bold(&self) -> (r: bool)
        ensures
            r == (*self is Heading1 || *self is Heading2 || *self is Heading3 || *self is Heading4),
    {
        match self {
            BlockType::Heading1 | BlockType::Heading2 | BlockType::Heading3 | BlockType::Heading4 => true,
            _ => false,
        }
    }

    /// Whether this block type is set in italics.
    pub fn is_italic(&self) -> (r: bool)
        ensures
            r == (*self is Blockquote),
    {
        match self {
            BlockType::Blockquote => true,
            _ => false,
        }
    }
}

/// List type options
#[derive(Debug, Clone, Copy, PartialEq, Eq, Structural)]
pub enum ListType {
    /// Not a list item.
    NoList,
    Bullet,
    Numbered,
}

/// Image wrap style options
#[derive(Debug, Clone, Copy, PartialEq, Eq, Structural)]
pub enum ImageWrapStyle {
    Inline,
    TopBottom,
    Square,
    Tight,
    Through,
    Behind,
    InFront,
}

impl ImageWrapStyle {
    pub open spec fn floats(self) -> bool {
        self is Square || self is Tight || self is Through
    }

    /// Whether text flows around an image of this style.
    pub fn is_float(&self) -> (r: bool)
        ensures
            r == self.floats(),
    {
        match self {
            ImageWrapStyle::Square | ImageWrapStyle::Tight | ImageWrapStyle::Through => true,
            _ => false,
        }
    }
}

/// Horizontal alignment for images
#[derive(Debug, Clone, Copy, PartialEq, Eq, Structural)]
pub enum HorizontalAlign {
    Left,
    Center,
    Right,
}

/// How an image moves with the document content
#[derive(Debug, Clone, Copy, PartialEq, Eq, Structural)]
pub enum ImagePositionMode {
    /// The image moves with its anchor paragraph.
    MoveWithText,
    /// The image has a fixed position on a page.
    FixedPosition,
}

/// Table width calculation mode
#[derive(Debug, Clone, Copy, PartialEq, Eq, Structural)]
pub enum TableWidthMode {
    /// Column widths are pixels.
    Fixed,
    /// Column widths are shares of the available width.
    Percentage,
    /// Laid out as `Percentage`.
    Auto,
}

/// Paragraph formatting metadata
pub struct ParagraphMeta {
    pub align: TextAlign,
    pub block_type: BlockType,
    pub list_type: ListType,
    /// Font size, where it differs from the configured one
    pub font_size: Option<u32>,
    pub text_color: Option<String>,
}

impl ParagraphMeta {
    /// Left-aligned body text, not in a list, with the default font.
    pub fn default() -> (r: Self)
        ensures
            r.align == TextAlign::Left,
            r.block_type == BlockType::Paragraph,
            r.list_type == ListType::NoList,
            r.font_size.is_none(),
            r.text_color.is_none(),
    {
        ParagraphMeta {
            align: TextAlign::Left,
            block_type: BlockType::Paragraph,
            list_type: ListType::NoList,
            font_size: None,
            text_color: None,
        }
    }
}

/// What `apply_style(start, end, c)` does to a run list.
pub open spec fn restyle_post(old: Seq<TextStyle>, new: Seq<TextStyle>, start: int, end: int, c: StyleChange) -> bool {
    &&& start >= end ==> new == old
    &&& start < end ==> runs_wf(new)
    &&& start < end ==> forall|p: int| #[trigger] attrs_at(new, p) == restyled_at(old, start, end, c, p)
}

/// A single paragraph of the document
pub struct Paragraph {
    pub text: String,
    pub meta: ParagraphMeta,
    /// Inline styles: a well-formed run list
    pub styles: Vec<TextStyle>,
}

impl Paragraph {
    pub open spec fn page_break_spec(&self) -> bool {
        self.text@ == seq![PAGE_BREAK_MARK]
    }

    pub open spec fn image_spec(&self) -> bool {
        self.text@.len() > 0 && self.text@[0] == IMAGE_MARK
    }

    pub open spec fn table_spec(&self) -> bool {
        self.text@.len() > 0 && self.text@[0] == TABLE_MARK
    }

    /// The id after the marker character.
    pub open spec fn marked_id(&self) -> Seq<char> {
        self.text@.subrange(1, self.text@.len() as int)
    }

    /// A paragraph of `text` with default metadata and no styles.
    pub fn new(text: String) -> (r: Self)
        ensures
            r.text@ == text@,
            r.styles@.len() == 0,
            r.meta.align == TextAlign::Left,
            r.meta.block_type == BlockType::Paragraph,
            r.meta.list_type == ListType::NoList,
            r.meta.font_size.is_none(),
            r.meta.text_color.is_none(),
    {
        Paragraph { text, meta: ParagraphMeta::default(), styles: Vec::new() }
    }

    /// A paragraph of `text` with the given metadata and no styles.
    pub fn with_meta(text: String, meta: ParagraphMeta) -> (r: Self)
        ensures
            r.text@ == text@,
            r.meta == meta,
            r.styles@.len() == 0,
    {
        Paragraph { text, meta, styles: Vec::new() }
    }

    /// Applies `change` to the characters `[start, end)`: the parts of
    /// existing runs outside the range are kept, the range takes the change
    /// over what it had, unformatted runs are dropped and touching runs with
    /// equal attributes are joined. Nothing happens where `start >= end`.
    pub fn apply_style(&mut self, start: usize, end: usize, change: &StyleChange)
        requires
            runs_wf(old(self).styles@),
        ensures
            restyle_post(old(self).styles@, final(self).styles@, start as int, end as int, *change),
            final(self).text == old(self).text,
            final(self).meta == old(self).meta,
    {
        if start >= end {
            return;
        }
        self.styles = restyle_runs(&self.styles, start, end, change);
    }

    /// The first style that covers position `pos`.
    pub fn style_at(&self, pos: usize) -> (r: Option<&TextStyle>)
        ensures
            match r {
                Some(s) => exists|i: int|
                    0 <= i < self.styles@.len() && self.styles@[i] == *s && s.covers(pos as int) && forall|j: int|
                        0 <= j < i ==> !(#[trigger] self.styles@[j]).covers(pos as int),
                None => forall|i: int| 0 <= i < self.styles@.len() ==> !(#[trigger] self.styles@[i]).covers(pos as int),
            },
    {
        first_style_at(&self.styles, pos)
    }

    /// The styles that overlap `[start, end)`, in order.
    pub fn styles_in_range(&self, start: usize, end: usize) -> (r: Vec<&TextStyle>)
        ensures
            r@.len() == overlapping(self.styles@, start as int, end as int).len(),
            forall|i: int|
                0 <= i < r@.len() ==> *(#[trigger] r@[i]) == overlapping(self.styles@, start as int, end as int)[i],
    {
        overlapping_styles(&self.styles, start, end)
    }

    /// Whether this paragraph is a page break.
    pub fn is_page_break(&self) -> (r: bool)
        ensures
            r == self.page_break_spec(),
    {
        let s = self.text.as_str();
        if s.unicode_len() == 1 {
            let c = s.get_char(0);
            proof {
                if c == PAGE_BREAK_MARK {
                    assert(s@ =~= seq![PAGE_BREAK_MARK]);
                }
            }
            c == PAGE_BREAK_MARK
        } else {
            proof {
                assert(s@.len() != 1);
            }
            false
        }
    }

    /// Whether this paragraph refers to an image.
    pub fn is_image(&self) -> (r: bool)
        ensures
            r == self.image_spec(),
    {
        let s = self.text.as_str();
        s.unicode_len() > 0 && s.get_char(0) == IMAGE_MARK
    }

    /// The id of the image this paragraph refers to.
    pub fn image_id(&self) -> (r: Option<&str>)
        ensures
            r.is_some() == self.image_spec(),
            r.is_some() ==> r.unwrap()@ == self.marked_id(),
    {
        if self.is_image() {
            let s = self.text.as_str();
            Some(s.substring_char(1, s.unicode_len()))
        } else {
            None
        }
    }

    /// Whether this paragraph refers to a table.
    pub fn is_table(&self) -> (r: bool)
        ensures
            r == self.table_spec(),
    {
        let s = self.text.as_str();
        s.unicode_len() > 0 && s.get_char(0) == TABLE_MARK
    }

    /// The id of the table this paragraph refers to.
    pub fn table_id(&self) -> (r: Option<&str>)
        ensures
            r.is_some() == self.table_spec(),
            r.is_some() ==> r.unwrap()@ == self.marked_id(),
    {
        if self.is_table() {
            let s = self.text.as_str();
            Some(s.substring_char(1, s.unicode_len()))
        } else {
            None
        }
    }
}

/// Applying the same style change twice to a paragraph leaves the runs that
/// applying it once leaves; neither leaves unformatted runs nor touching runs
/// with equal attributes.
pub proof fn law_apply_style_idempotent(
    runs: Seq<TextStyle>,
    once: Seq<TextStyle>,
    twice: Seq<TextStyle>,
    start: int,
    end: int,
    c: StyleChange,
)
    requires
        runs_wf(runs),
        restyle_post(runs, once, start, end, c),
        restyle_post(once, twice, start, end, c),
    ensures
        same_runs(once, twice),
        runs_wf(once),
        runs_wf(twice),
{
    if start < end {
        crate::style::law_restyle_idempotent(runs, start, end, c, once, twice);
    } else {
        assert forall|i: int| 0 <= i < once.len() implies (#[trigger] once[i]).start == twice[i].start && once[i].end
            == twice[i].end && once[i].attrs() == twice[i].attrs() by {}
    }
}

/// An image in the document
pub struct DocumentImage {
    pub id: String,
    /// Image source URL or data URL
    pub src: String,
    /// Display size
    pub width: u32,
    pub height: u32,
    /// Natural size
    pub natural_width: u32,
    pub natural_height: u32,
    pub wrap_style: ImageWrapStyle,
    pub horizontal_align: HorizontalAlign,
    pub position_mode: ImagePositionMode,
    /// Position, for a fixed image
    pub x: Option<i64>,
    pub y: Option<i64>,
    pub page_index: Option<usize>,
    /// Crop of each edge, in percent
    pub crop_top: u32,
    pub crop_right: u32,
    pub crop_bottom: u32,
    pub crop_left: u32,
}

/// `size` with the two crops taken off; nothing is left where they add up to
/// 100 percent or more.
pub open spec fn cropped_spec(size: int, crop_a: int, crop_b: int) -> int {
    if crop_a + crop_b >= 100 {
        0
    } else {
        size * (100 - crop_a - crop_b) / 100
    }
}

fn cropped(size: u32, crop_a: u32, crop_b: u32) -> (r: u32)
    ensures
        r == cropped_spec(size as int, crop_a as int, crop_b as int),
{
    if crop_a as u64 + crop_b as u64 >= 100 {
        0
    } else {
        let keep = 100 - crop_a as u64 - crop_b as u64;
        assert(size as u64 * keep <= 0xffff_ffff * 100) by (nonlinear_arith)
            requires size <= 0xffff_ffff, keep <= 100;
        assert(size as u64 * keep / 100 <= 0xffff_ffff) by (nonlinear_arith)
            requires size <= 0xffff_ffff, keep <= 100;
        (size as u64 * keep / 100) as u32
    }
}

impl DocumentImage {
    /// An inline image of the given display size, uncropped.
    pub fn new(id: String, src: String, width: u32, height: u32) -> (r: Self)
        ensures
            r.id@ == id@,
            r.src@ == src@,
            r.width == width && r.height == height,
            r.natural_width == width && r.natural_height == height,
            r.wrap_style == ImageWrapStyle::Inline,
            r.horizontal_align == HorizontalAlign::Left,
            r.position_mode == ImagePositionMode::MoveWithText,
            r.x.is_none() && r.y.is_none() && r.page_index.is_none(),
            r.crop_top == 0 && r.crop_right == 0 && r.crop_bottom == 0 && r.crop_left == 0,
    {
        DocumentImage {
            id,
            src,
            width,
            height,
            natural_width: width,
            natural_height: height,
            wrap_style: ImageWrapStyle::Inline,
            horizontal_align: HorizontalAlign::Left,
            position_mode: ImagePositionMode::MoveWithText,
            x: None,
            y: None,
            page_index: None,
            crop_top: 0,
            crop_right: 0,
            crop_bottom: 0,
            crop_left: 0,
        }
    }

    /// The display height after cropping.
    pub fn cropped_height(&self) -> (r: u32)
        ensures
            r == cropped_spec(self.height as int, self.crop_top as int, self.crop_bottom as int),
    {
        cropped(self.height, self.crop_top, self.crop_bottom)
    }

    /// The display width after cropping.
    pub fn cropped_width(&self) -> (r: u32)
        ensures
            r == cropped_spec(self.width as int, self.crop_left as int, self.crop_right as int),
    {
        cropped(self.width, self.crop_left, self.crop_right)
    }
}

impl Default for Document {
    fn default() -> (r: Self)
        ensures
            r.version == 1,
            r.paragraphs@.len() == 1,
            r.paragraphs@[0].text@.len() == 0,
            r.paragraphs@[0].styles@.len() == 0,
            r.images@.len() == 0,
            r.tables@.len() == 0,
    {
        Document::new()
    }
}

/// Table `t` is the first with id `id`.
pub open spec fn is_first_table(d: Document, t: int, id: Seq<char>) -> bool {
    &&& 0 <= t < d.tables@.len()
    &&& d.tables@[t].id@ == id
    &&& forall|j: int| 0 <= j < t ==> (#[trigger] d.tables@[j]).id@ != id
}

/// Image `i` is the first with id `id`.
pub open spec fn is_first_image(d: Document, i: int, id: Seq<char>) -> bool {
    &&& 0 <= i < d.images@.len()
    &&& d.images@[i].id@ == id
    &&& forall|j: int| 0 <= j < i ==> (#[trigger] d.images@[j]).id@ != id
}

/// The root document structure
pub struct Document {
    pub version: u32,
    pub paragraphs: Vec<Paragraph>,
    pub images: Vec<DocumentImage>,
    pub tables: Vec<DocumentTable>,
}

impl Document {
    /// A document of one empty paragraph.
    pub fn new() -> (r: Self)
        ensures
            r.version == 1,
            r.paragraphs@.len() == 1,
            r.paragraphs@[0].text@.len() == 0,
            r.paragraphs@[0].styles@.len() == 0,
            r.images@.len() == 0,
            r.tables@.len() == 0,
    {
        let mut paragraphs: Vec<Paragraph> = Vec::new();
        paragraphs.push(Paragraph::new(String::new()));
        Document { version: 1, paragraphs, images: Vec::new(), tables: Vec::new() }
    }
}

/// The marker encoding of references reads back: a paragraph whose text is
/// the image (or table) mark followed by an id refers to an image (or a
/// table), and to that id; a paragraph that is the page-break mark alone is a
/// page break. The three kinds exclude each other.
pub proof fn law_marker_round_trip(p: Paragraph, id: Seq<char>)
    ensures
        p.text@ == seq![IMAGE_MARK] + id ==> p.image_spec() && !p.table_spec() && !p.page_break_spec()
            && p.marked_id() == id,
        p.text@ == seq![TABLE_MARK] + id ==> p.table_spec() && !p.image_spec() && !p.page_break_spec()
            && p.marked_id() == id,
        p.text@ == seq![PAGE_BREAK_MARK] ==> p.page_break_spec() && !p.image_spec() && !p.table_spec(),
{
    if p.text@ == seq![IMAGE_MARK] + id {
        assert(p.text@[0] == IMAGE_MARK);
        assert(p.marked_id() =~= id);
    }
    if p.text@ == seq![TABLE_MARK] + id {
        assert(p.text@[0] == TABLE_MARK);
        assert(p.marked_id() =~= id);
    }
}

} // verus!
