//! Layout: wrapping paragraphs into lines, avoiding floating images,
//! paginating, and mapping between document positions and display lines.
//!
//! All lengths are integer layout units. The line height and the block-type
//! font multipliers are percentages.
use vstd::prelude::*;
use crate::document::{
    cropped_spec,
    is_first_image,
    is_first_table,
    BlockType,
    Document,
    DocumentImage,
    HorizontalAlign,
    ImagePositionMode,
    ImageWrapStyle,
    ListType,
    Paragraph,
    TableWidthMode,
};
use crate::table::{DocumentTable, TableCell};
use crate::text::{chars_of, string_of};

verus! {

/// Lines taller than this many units are not laid out.
pub const MAX_LINE_HEIGHT: u64 = 0x10_0000;

/// Configuration for page layout
pub struct LayoutConfig {
    pub page_width: u32,
    pub page_height: u32,
    pub margin_top: u32,
    pub margin_right: u32,
    pub margin_bottom: u32,
    pub margin_left: u32,
    /// Number of columns
    pub columns: u8,
    /// Gap between columns
    pub column_gap: u32,
    /// Base font size
    pub font_size: u32,
    /// Line height, in percent of the font size
    pub line_height: u32,
    /// Extra space between characters
    pub letter_spacing: u32,
    /// Extra space after a paragraph's last line
    pub paragraph_spacing: u32,
}

impl LayoutConfig {
    pub open spec fn content_width_spec(&self) -> int {
        self.page_width - self.margin_left - self.margin_right
    }

    pub open spec fn content_height_spec(&self) -> int {
        self.page_height - self.margin_top - self.margin_bottom
    }

    pub open spec fn column_width_spec(&self) -> int {
        (self.content_width_spec() - self.column_gap * (self.columns - 1)) / self.columns as int
    }

    pub open spec fn line_height_spec(&self) -> int {
        self.font_size * self.line_height / 100
    }

    /// The configuration describes a page with at least one column of
    /// non-negative width, and lines of a sane height.
    pub open spec fn valid(&self) -> bool {
        &&& self.columns >= 1
        &&& self.content_width_spec() - self.column_gap * (self.columns - 1) >= 0
        &&& self.content_height_spec() >= 0
        &&& self.line_height_spec() <= MAX_LINE_HEIGHT
    }

    /// Whether the configuration is valid.
    pub fn check(&self) -> (r: bool)
        ensures
            r == self.valid(),
    {
        if self.columns < 1 {
            return false;
        }
        assert(self.column_gap * (self.columns - 1) <= 0xffff_ffff * 255) by (nonlinear_arith)
            requires self.column_gap <= 0xffff_ffff, 1 <= self.columns <= 255;
        let gaps = self.column_gap as i64 * (self.columns as i64 - 1);
        self.content_width() - gaps >= 0 && self.content_height() >= 0 && self.line_height_px() <= MAX_LINE_HEIGHT
    }

    /// The page width minus the side margins.
    pub fn content_width(&self) -> (r: i64)
        ensures
            r == self.content_width_spec(),
    {
        self.page_width as i64 - self.margin_left as i64 - self.margin_right as i64
    }

    /// The page height minus the top and bottom margins.
    pub fn content_height(&self) -> (r: i64)
        ensures
            r == self.content_height_spec(),
    {
        self.page_height as i64 - self.margin_top as i64 - self.margin_bottom as i64
    }

    /// The width of one column.
    pub fn column_width(&self) -> (r: i64)
        requires
            self.valid(),
        ensures
            r == self.column_width_spec(),
            r >= 0,
    {
        let gaps = self.column_gap as i64 * (self.columns as i64 - 1);
        let room = self.content_width() - gaps;
        room / self.columns as i64
    }

    /// The height of one line of body text.
    pub fn line_height_px(&self) -> (r: u64)
        ensures
            r == self.line_height_spec(),
    {
        assert(self.font_size as u64 * self.line_height as u64 <= 0xffff_ffff_u64 * 0xffff_ffff_u64) by (nonlinear_arith);
        self.font_size as u64 * self.line_height as u64 / 100
    }
}

impl Default for LayoutConfig {
    /// US Letter at 96 DPI with one-inch margins and 16-unit type.
    fn default() -> (r: Self)
        ensures
            r.valid(),
            r.page_width == 816 && r.page_height == 1056,
            r.margin_top == 96 && r.margin_right == 96 && r.margin_bottom == 96 && r.margin_left == 96,
            r.columns == 1 && r.column_gap == 48,
            r.font_size == 16 && r.line_height == 150,
            r.letter_spacing == 0 && r.paragraph_spacing == 12,
    {
        LayoutConfig {
            page_width: 816,
            page_height: 1056,
            margin_top: 96,
            margin_right: 96,
            margin_bottom: 96,
            margin_left: 96,
            columns: 1,
            column_gap: 48,
            font_size: 16,
            line_height: 150,
            letter_spacing: 0,
            paragraph_spacing: 12,
        }
    }
}

/// Side of the column a floating image occupies.
#[derive(Debug, Clone, Copy, PartialEq, Eq, Structural)]
pub enum FloatSide {
    Left,
    Right,
}

/// Width taken from a line by a floating image.
#[derive(Debug, Clone, Copy, PartialEq, Eq, Structural)]
pub struct FloatReduction {
    pub side: FloatSide,
    pub width: u32,
    /// Position of the image, from the start of the column
    pub float_x: i64,
}

/// A computed display line
pub struct DisplayLine {
    /// Index of the source paragraph
    pub para_index: usize,
    /// Start character offset within the paragraph
    pub start_offset: usize,
    /// End character offset within the paragraph (exclusive)
    pub end_offset: usize,
    /// The text of this line
    pub text: String,
    pub page_index: usize,
    pub column_index: usize,
    pub x_position: u64,
    pub y_position: u64,
    pub is_page_break: bool,
    pub is_image: bool,
    pub image_id: Option<String>,
    /// Height of an image or table line, in lines
    pub image_height: Option<u32>,
    /// Number of a numbered-list item, on its first line
    pub list_number: Option<usize>,
    /// Whether this is the last line of its paragraph
    pub is_last_line: bool,
    pub block_type: BlockType,
    pub list_type: ListType,
    pub float_reduction: Option<FloatReduction>,
    pub is_table: bool,
    pub table_id: Option<String>,
    pub table_layout: Option<TableLayout>,
}

/// Computed table geometry
pub struct TableLayout {
    pub table_id: String,
    pub row_heights: Vec<u64>,
    pub column_widths: Vec<u64>,
    pub total_height: u64,
    pub total_width: u64,
    /// Wrapped lines of each cell, by row and column
    pub cell_lines: Vec<Vec<Vec<String>>>,
}

/// A place in the display: a line and a character column in it.
#[derive(Debug, Clone, Copy, PartialEq, Eq, Structural)]
pub struct DisplayPosition {
    pub line: usize,
    pub col: usize,
}

/// A place in the document: a paragraph and a character offset in it.
#[derive(Debug, Clone, Copy, PartialEq, Eq, Structural)]
pub struct ParagraphPosition {
    pub para: usize,
    pub offset: usize,
}

/// Line `dl` holds offset `offset` of paragraph `para`, its end included.
pub open spec fn holds_position(dl: DisplayLine, para: int, offset: int) -> bool {
    dl.para_index == para && dl.start_offset <= offset <= dl.end_offset
}

/// Where `para_to_display_pos` puts a document position.
pub open spec fn display_pos_of(lines: Seq<DisplayLine>, para: int, offset: int) -> (int, int) {
    if exists|i: int| 0 <= i < lines.len() && holds_position(#[trigger] lines[i], para, offset) {
        let i = choose|i: int|
            0 <= i < lines.len() && holds_position(#[trigger] lines[i], para, offset) && forall|j: int|
                0 <= j < i ==> !holds_position(#[trigger] lines[j], para, offset);
        (i, offset - lines[i].start_offset)
    } else if lines.len() == 0 {
        (0, 0)
    } else {
        (lines.len() - 1, lines.last().text@.len() as int)
    }
}

proof fn lemma_first_holding(lines: Seq<DisplayLine>, para: int, offset: int, i: int)
    requires
        0 <= i < lines.len(),
        holds_position(lines[i], para, offset),
        forall|j: int| 0 <= j < i ==> !holds_position(#[trigger] lines[j], para, offset),
    ensures
        display_pos_of(lines, para, offset) == (i, offset - lines[i].start_offset),
{
    let k = choose|k: int|
        0 <= k < lines.len() && holds_position(#[trigger] lines[k], para, offset) && forall|j: int|
            0 <= j < k ==> !holds_position(#[trigger] lines[j], para, offset);
    if k < i {
        assert(!holds_position(lines[k], para, offset));
    }
    if k > i {
        assert(!holds_position(lines[i], para, offset));
    }
}

/// Converts a document position to a display position: the first line of the
/// paragraph whose range holds the offset (its end included), or the end of
/// the last line where none does.
pub fn para_to_display_pos(display_lines: &Vec<DisplayLine>, para: usize, offset: usize) -> (r: DisplayPosition)
    ensures
        (r.line as int, r.col as int) == display_pos_of(display_lines@, para as int, offset as int),
{
    let ghost ls = display_lines@;
    let mut i: usize = 0;
    while i < display_lines.len()
        invariant
            ls == display_lines@,
            0 <= i <= ls.len(),
            forall|j: int| 0 <= j < i ==> !holds_position(#[trigger] ls[j], para as int, offset as int),
        decreases ls.len() - i,
    {
        let dl = &display_lines[i];
        if dl.para_index == para && offset >= dl.start_offset && offset <= dl.end_offset {
            proof {
                lemma_first_holding(ls, para as int, offset as int, i as int);
            }
            return DisplayPosition { line: i, col: offset - dl.start_offset };
        }
        i = i + 1;
    }
    let n = display_lines.len();
    if n == 0 {
        DisplayPosition { line: 0, col: 0 }
    } else {
        DisplayPosition { line: n - 1, col: display_lines[n - 1].text.as_str().unicode_len() }
    }
}

/// Where `display_to_para` puts a display position.
pub open spec fn para_pos_of(lines: Seq<DisplayLine>, line: int, col: int) -> (int, int) {
    if lines.len() == 0 {
        (0, 0)
    } else {
        let dl = if line < lines.len() {
            lines[line]
        } else {
            lines.last()
        };
        let c = if col < dl.text@.len() {
            col
        } else {
            dl.text@.len() as int
        };
        let o = dl.start_offset + c;
        (dl.para_index as int, if o <= usize::MAX { o } else { usize::MAX as int })
    }
}

/// Converts a display position to a document position, clamping the line
/// index into range and then the column into that line's text.
pub fn display_to_para(display_lines: &Vec<DisplayLine>, line: usize, col: usize) -> (r: ParagraphPosition)
    ensures
        (r.para as int, r.offset as int) == para_pos_of(display_lines@, line as int, col as int),
{
    let n = display_lines.len();
    if n == 0 {
        return ParagraphPosition { para: 0, offset: 0 };
    }
    let dl = if line < n {
        &display_lines[line]
    } else {
        &display_lines[n - 1]
    };
    let len = dl.text.as_str().unicode_len();
    let c = if col < len {
        col
    } else {
        len
    };
    ParagraphPosition { para: dl.para_index, offset: dl.start_offset.saturating_add(c) }
}

/// The page of the line that a document position maps to.
pub fn get_page_for_position(display_lines: &Vec<DisplayLine>, para: usize, offset: usize) -> (r: usize)
    ensures
        ({
            let (l, _c) = display_pos_of(display_lines@, para as int, offset as int);
            r == if 0 <= l < display_lines@.len() {
                display_lines@[l].page_index
            } else {
                0
            }
        }),
{
    let pos = para_to_display_pos(display_lines, para, offset);
    if pos.line < display_lines.len() {
        display_lines[pos.line].page_index
    } else {
        0
    }
}

/// A line's text is exactly its range of the paragraph.
pub open spec fn text_matches_range(dl: DisplayLine) -> bool {
    dl.text@.len() == dl.end_offset - dl.start_offset
}

/// Some line holds the position and none before it does.
proof fn lemma_exists_first_holding(lines: Seq<DisplayLine>, para: int, offset: int, holder: int)
    requires
        0 <= holder < lines.len(),
        holds_position(lines[holder], para, offset),
    ensures
        exists|i: int|
            0 <= i < lines.len() && holds_position(#[trigger] lines[i], para, offset) && forall|j: int|
                0 <= j < i ==> !holds_position(#[trigger] lines[j], para, offset),
    decreases holder,
{
    if exists|j: int| 0 <= j < holder && holds_position(#[trigger] lines[j], para, offset) {
        let j = choose|j: int| 0 <= j < holder && holds_position(#[trigger] lines[j], para, offset);
        lemma_exists_first_holding(lines, para, offset, j);
    } else {
        assert(forall|j: int| 0 <= j < holder ==> !holds_position(#[trigger] lines[j], para, offset));
    }
}

/// Mapping a document position to the display and back gives the position
/// again, wherever some line holds it and the lines' texts match their
/// ranges.
pub proof fn law_position_round_trip(lines: Seq<DisplayLine>, para: int, offset: int, holder: int)
    requires
        0 <= holder < lines.len(),
        holds_position(lines[holder], para, offset),
        forall|i: int| 0 <= i < lines.len() ==> text_matches_range(#[trigger] lines[i]),
    ensures
        ({
            let (l, c) = display_pos_of(lines, para, offset);
            para_pos_of(lines, l, c) == (para, offset)
        }),
{
    lemma_exists_first_holding(lines, para, offset, holder);
    let k = choose|k: int|
        0 <= k < lines.len() && holds_position(#[trigger] lines[k], para, offset) && forall|j: int|
            0 <= j < k ==> !holds_position(#[trigger] lines[j], para, offset);
    lemma_first_holding(lines, para, offset, k);
    assert(text_matches_range(lines[k]));
}

/// Where the paginator stands: page, column, and height used in the column.
pub struct Cursor {
    pub page: int,
    pub column: int,
    pub y: int,
}

/// The height line `dl` takes in a column, where a body line takes `lh`.
pub open spec fn line_extent(dl: DisplayLine, lh: int) -> int {
    if dl.is_image || dl.is_table {
        match dl.image_height {
            Some(h) => h * lh,
            None => lh,
        }
    } else {
        lh
    }
}

/// Where line `dl` is put when the paginator stands at `c`: a page break
/// stays where it is; a line that would overflow the column moves to the
/// next column, or to the next page after the last column.
pub open spec fn place(c: Cursor, dl: DisplayLine, cfg: LayoutConfig) -> Cursor {
    if dl.is_page_break {
        c
    } else if c.y + line_extent(dl, cfg.line_height_spec()) > cfg.content_height_spec() {
        if cfg.columns > 1 && c.column < cfg.columns - 1 {
            Cursor { page: c.page, column: c.column + 1, y: 0 }
        } else {
            Cursor { page: c.page + 1, column: 0, y: 0 }
        }
    } else {
        c
    }
}

/// Where the paginator stands after line `dl`.
pub open spec fn advance(c: Cursor, dl: DisplayLine, cfg: LayoutConfig) -> Cursor {
    if dl.is_page_break {
        Cursor { page: c.page + 1, column: 0, y: 0 }
    } else {
        let p = place(c, dl, cfg);
        let h = line_extent(dl, cfg.line_height_spec());
        let spacing = if dl.is_last_line && h > 0 {
            cfg.paragraph_spacing as int
        } else {
            0
        };
        Cursor { page: p.page, column: p.column, y: p.y + h + spacing }
    }
}

/// Where the paginator stands before line `k`.
pub open spec fn cursor_before(lines: Seq<DisplayLine>, cfg: LayoutConfig, k: int) -> Cursor
    decreases k,
{
    if k <= 0 {
        Cursor { page: 0, column: 0, y: 0 }
    } else {
        advance(cursor_before(lines, cfg, k - 1), lines[k - 1], cfg)
    }
}

/// The left edge of column `column`.
pub open spec fn column_x(cfg: LayoutConfig, column: int) -> int {
    cfg.margin_left + column * (cfg.column_width_spec() + cfg.column_gap)
}

/// `n` is `o` placed at the given page, column and coordinates.
#[verifier::opaque]
pub open spec fn placed_as(o: DisplayLine, n: DisplayLine, page: int, column: int, x: int, y: int) -> bool {
    n == DisplayLine { page_index: page as usize, column_index: column as usize, x_position: x as u64, y_position: y as u64, ..o }
}

fn set_position(dl: &mut DisplayLine, page: usize, column: usize, x: u64, y: u64)
    ensures
        placed_as(*old(dl), *final(dl), page as int, column as int, x as int, y as int),
{
    reveal(placed_as);
    dl.page_index = page;
    dl.column_index = column;
    dl.x_position = x;
    dl.y_position = y;
}

/// The largest height a single line can take.
pub open spec fn max_extent() -> int {
    0xffff_ffff * MAX_LINE_HEIGHT
}

proof fn lemma_extent_bound(dl: DisplayLine, lh: int)
    requires
        0 <= lh <= MAX_LINE_HEIGHT,
    ensures
        0 <= line_extent(dl, lh) <= max_extent(),
{
    if dl.is_image || dl.is_table {
        if let Some(h) = dl.image_height {
            assert(0 <= h * lh <= 0xffff_ffff * MAX_LINE_HEIGHT) by (nonlinear_arith)
                requires 0 <= h <= 0xffff_ffff, 0 <= lh <= MAX_LINE_HEIGHT;
        }
    }
}

/// The left edge of a column.
fn column_left(config: &LayoutConfig, column_width: u64, column: usize) -> (x: u64)
    requires
        config.valid(),
        column_width == config.column_width_spec(),
        column < 256,
    ensures
        x == column_x(*config, column as int),
{
    assert(column_width <= 0xffff_ffff) by {
        assert(config.column_width_spec() <= config.content_width_spec()) by (nonlinear_arith)
            requires
                config.content_width_spec() - config.column_gap * (config.columns - 1) >= 0,
                config.columns >= 1,
                config.column_gap >= 0,
                config.column_width_spec() == (config.content_width_spec() - config.column_gap * (config.columns - 1)) / config.columns as int;
    }
    let step = column_width + config.column_gap as u64;
    assert(column as u64 * step <= 256 * 0x2_0000_0000) by (nonlinear_arith)
        requires column < 256, step <= 0x2_0000_0000;
    config.margin_left as u64 + column as u64 * step
}

/// Places one line: returns where it goes and where the paginator stands
/// after it.
fn place_line(
    dl: &DisplayLine,
    config: &LayoutConfig,
    page: usize,
    column: usize,
    y: u64,
    max_height: u64,
    line_height: u64,
) -> (r: ((usize, usize, u64), (usize, usize, u64)))
    requires
        config.valid(),
        max_height == config.content_height_spec(),
        line_height == config.line_height_spec(),
        page < usize::MAX,
        column < config.columns,
        y <= max_height + max_extent() + config.paragraph_spacing,
    ensures
        ({
            let c = Cursor { page: page as int, column: column as int, y: y as int };
            let p = place(c, *dl, *config);
            let n = advance(c, *dl, *config);
            &&& (r.0.0 as int, r.0.1 as int, r.0.2 as int) == (p.page, p.column, p.y)
            &&& (r.1.0 as int, r.1.1 as int, r.1.2 as int) == (n.page, n.column, n.y)
            &&& r.0.0 <= page + 1
            &&& r.1.0 <= page + 1
            &&& r.0.1 < config.columns
            &&& r.1.1 < config.columns
            &&& r.1.2 <= max_height + max_extent() + config.paragraph_spacing
        }),
{
    if dl.is_page_break {
        return ((page, column, y), (page + 1, 0, 0));
    }
    proof {
        lemma_extent_bound(*dl, line_height as int);
    }
    let h: u64 = if dl.is_image || dl.is_table {
        match dl.image_height {
            Some(n) => n as u64 * line_height,
            None => line_height,
        }
    } else {
        line_height
    };
    let spacing: u64 = if dl.is_last_line && h > 0 {
        config.paragraph_spacing as u64
    } else {
        0
    };
    let columns = config.columns as usize;
    let (p, c, py) = if y + h > max_height {
        if columns > 1 && column < columns - 1 {
            (page, column + 1, 0)
        } else {
            (page + 1, 0, 0)
        }
    } else {
        (page, column, y)
    };
    ((p, c, py), (p, c, py + h + spacing))
}

/// Assigns page, column and coordinates to each line in a single sweep.
pub fn assign_page_positions(display_lines: &mut Vec<DisplayLine>, config: &LayoutConfig)
    requires
        config.valid(),
    ensures
        final(display_lines)@.len() == old(display_lines)@.len(),
        forall|k: int|
            0 <= k < old(display_lines)@.len() ==> {
                let p = place(cursor_before(old(display_lines)@, *config, k), #[trigger] old(display_lines)@[k], *config);
                placed_as(old(display_lines)@[k], final(display_lines)@[k], p.page, p.column, column_x(*config, p.column), p.y)
            },
{
    let ghost ls = display_lines@;
    let ghost cfg = *config;
    let max_height = config.content_height() as u64;
    let line_height = config.line_height_px();
    let column_width = config.column_width() as u64;
    let mut page: usize = 0;
    let mut column: usize = 0;
    let mut y: u64 = 0;
    let mut i: usize = 0;
    while i < display_lines.len()
        invariant
            config.valid(),
            cfg == *config,
            display_lines@.len() == ls.len(),
            0 <= i <= ls.len(),
            max_height == cfg.content_height_spec(),
            line_height == cfg.line_height_spec(),
            column_width == cfg.column_width_spec(),
            cursor_before(ls, cfg, i as int) == (Cursor { page: page as int, column: column as int, y: y as int }),
            page <= i,
            column < cfg.columns,
            y <= max_height + max_extent() + cfg.paragraph_spacing,
            forall|k: int|
                0 <= k < i ==> {
                    let p = place(cursor_before(ls, cfg, k), #[trigger] ls[k], cfg);
                    placed_as(ls[k], display_lines@[k], p.page, p.column, column_x(cfg, p.column), p.y)
                },
            forall|k: int| i <= k < ls.len() ==> #[trigger] display_lines@[k] == ls[k],
        decreases ls.len() - i,
    {
        let (at, next) = place_line(&display_lines[i], config, page, column, y, max_height, line_height);
        let x = column_left(config, column_width, at.1);
        let ghost before = display_lines@;
        set_position(&mut display_lines[i], at.0, at.1, x, at.2);
        assert(forall|k: int| 0 <= k < ls.len() && k != i ==> display_lines@[k] == before[k]);
        page = next.0;
        column = next.1;
        y = next.2;
        i = i + 1;
    }
}

/// A line that would overflow its column is never left in that column: it
/// goes to the top of another column or page than the one the paginator
/// stood in, which is also where the line before it went.
pub proof fn law_overflow_moves_on(lines: Seq<DisplayLine>, cfg: LayoutConfig, k: int)
    requires
        0 <= k < lines.len(),
        !lines[k].is_page_break,
        cursor_before(lines, cfg, k).y + line_extent(lines[k], cfg.line_height_spec()) > cfg.content_height_spec(),
    ensures
        ({
            let c = cursor_before(lines, cfg, k);
            let p = place(c, lines[k], cfg);
            &&& (p.page, p.column) != (c.page, c.column)
            &&& p.y == 0
            &&& (k > 0 && !lines[k - 1].is_page_break) ==> {
                let q = place(cursor_before(lines, cfg, k - 1), lines[k - 1], cfg);
                (p.page, p.column) != (q.page, q.column)
            }
        }),
{
}

/// Text measurement: the width of a text set at a font size. Widths must
/// depend on the text and the size alone.
pub trait TextMeasure {
    spec fn width_of(&self, text: Seq<char>, font_size: u32) -> u64;

    fn measure(&self, text: &[char], font_size: u32) -> (w: u64)
        ensures
            w == self.width_of(text@, font_size),
    ;
}

/// The estimate used where no measurement is available: half the font size
/// per character.
pub open spec fn approx_width_spec(count: int, font_size: int) -> int {
    let w = count * font_size / 2;
    if w > u64::MAX {
        u64::MAX as int
    } else {
        w
    }
}

/// Half the font size per character, saturating.
pub fn approx_width(count: usize, font_size: u32) -> (w: u64)
    ensures
        w == approx_width_spec(count as int, font_size as int),
{
    assert(count as u128 * font_size as u128 <= 0xffff_ffff_ffff_ffff_u128 * 0xffff_ffff_u128) by (nonlinear_arith);
    let w = count as u128 * font_size as u128 / 2;
    if w > u64::MAX as u128 {
        u64::MAX
    } else {
        w as u64
    }
}

/// Measures every character as half the font size.
pub struct ApproxMeasure;

impl TextMeasure for ApproxMeasure {
    open spec fn width_of(&self, text: Seq<char>, font_size: u32) -> u64 {
        approx_width_spec(text.len() as int, font_size as int) as u64
    }

    fn measure(&self, text: &[char], font_size: u32) -> (w: u64) {
        approx_width(text.len(), font_size)
    }
}

/// Measures every character as the same width, whatever the font size.
pub struct MonospaceMeasure {
    pub char_width: u32,
}

impl TextMeasure for MonospaceMeasure {
    open spec fn width_of(&self, text: Seq<char>, font_size: u32) -> u64 {
        let w = text.len() * self.char_width;
        if w > u64::MAX {
            u64::MAX
        } else {
            w as u64
        }
    }

    fn measure(&self, text: &[char], font_size: u32) -> (w: u64) {
        let n = text.len();
        assert(n * self.char_width <= 0xffff_ffff_ffff_ffff_u128 * 0xffff_ffff_u128) by (nonlinear_arith)
            requires n <= usize::MAX, self.char_width <= 0xffff_ffff;
        let w = n as u128 * self.char_width as u128;
        if w > u64::MAX as u128 {
            u64::MAX
        } else {
            w as u64
        }
    }
}

/// The measured width of `t` plus the letter spacing between its characters.
pub open spec fn spaced_width<M: TextMeasure>(m: &M, t: Seq<char>, font_size: u32, spacing: u32) -> int {
    m.width_of(t, font_size) + if t.len() > 1 {
        (t.len() - 1) * spacing
    } else {
        0
    }
}

/// Measures `t` and adds letter spacing.
pub fn measure_text<M: TextMeasure>(m: &M, t: &[char], font_size: u32, spacing: u32) -> (w: u128)
    ensures
        w == spaced_width(m, t@, font_size, spacing),
{
    let base = m.measure(t, font_size);
    if t.len() > 1 {
        assert((t@.len() - 1) * spacing <= 0xffff_ffff_ffff_ffff_u128 * 0xffff_ffff_u128) by (nonlinear_arith)
            requires t@.len() <= usize::MAX, spacing <= 0xffff_ffff;
        base as u128 + (t.len() - 1) as u128 * spacing as u128
    } else {
        base as u128
    }
}

/// Scanning a line that starts at `start` from position `pos` on, with the
/// last break opportunity (just after a space) at `lwb`: the end of the line.
pub open spec fn scan_break<M: TextMeasure>(
    m: &M,
    t: Seq<char>,
    start: int,
    pos: int,
    lwb: int,
    avail: int,
    font_size: u32,
    spacing: u32,
) -> int
    decreases t.len() - pos,
{
    if pos >= t.len() || pos < start {
        t.len() as int
    } else {
        let lwb2 = if t[pos] == ' ' {
            pos + 1
        } else {
            lwb
        };
        if spaced_width(m, t.subrange(start, pos + 1), font_size, spacing) > avail {
            if lwb2 > start {
                lwb2
            } else if pos > start + 1 {
                pos
            } else {
                start + 1
            }
        } else {
            scan_break(m, t, start, pos + 1, lwb2, avail, font_size, spacing)
        }
    }
}

/// The end of the line that starts at `start` in a column `avail` wide: all
/// the rest where it fits; else up to the last space before the first
/// character that overflows, or that character where no space comes before
/// it, and never less than one character.
pub open spec fn line_end<M: TextMeasure>(
    m: &M,
    t: Seq<char>,
    start: int,
    avail: int,
    font_size: u32,
    spacing: u32,
) -> int {
    if spaced_width(m, t.subrange(start, t.len() as int), font_size, spacing) <= avail {
        t.len() as int
    } else {
        let e = scan_break(m, t, start, start, start, avail, font_size, spacing);
        if e <= start {
            start + 1
        } else {
            e
        }
    }
}

proof fn lemma_scan_bounds<M: TextMeasure>(
    m: &M,
    t: Seq<char>,
    start: int,
    pos: int,
    lwb: int,
    avail: int,
    font_size: u32,
    spacing: u32,
)
    requires
        0 <= start < t.len(),
        start <= lwb <= pos,
    ensures
        scan_break(m, t, start, pos, lwb, avail, font_size, spacing) <= t.len(),
    decreases t.len() - pos,
{
    if pos < t.len() && pos >= start {
        let lwb2 = if t[pos] == ' ' {
            pos + 1
        } else {
            lwb
        };
        if spaced_width(m, t.subrange(start, pos + 1), font_size, spacing) <= avail {
            lemma_scan_bounds(m, t, start, pos + 1, lwb2, avail, font_size, spacing);
        }
    }
}

/// Whether width `w` is more than `avail`.
fn exceeds(w: u128, avail: i128) -> (b: bool)
    ensures
        b == (w > avail),
{
    if avail < 0 {
        true
    } else {
        w > avail as u128
    }
}

/// Where the line that starts at `start` ends.
pub fn find_line_end<M: TextMeasure>(
    m: &M,
    t: &[char],
    start: usize,
    avail: i128,
    font_size: u32,
    spacing: u32,
) -> (e: usize)
    requires
        start < t@.len(),
    ensures
        e == line_end(m, t@, start as int, avail as int, font_size, spacing),
        start < e <= t@.len(),
{
    let n = t.len();
    let rest = measure_text(m, &t[start..n], font_size, spacing);
    if !exceeds(rest, avail) {
        return n;
    }
    proof {
        lemma_scan_bounds(m, t@, start as int, start as int, start as int, avail as int, font_size, spacing);
    }
    let mut pos = start;
    let mut lwb = start;
    while pos < n
        invariant
            n == t@.len(),
            start <= lwb <= pos <= n,
            start < n,
            spaced_width(m, t@.subrange(start as int, n as int), font_size, spacing) > avail,
            scan_break(m, t@, start as int, pos as int, lwb as int, avail as int, font_size, spacing) == scan_break(
                m,
                t@,
                start as int,
                start as int,
                start as int,
                avail as int,
                font_size,
                spacing,
            ),
        decreases n - pos,
    {
        let lwb2 = if t[pos] == ' ' {
            pos + 1
        } else {
            lwb
        };
        let w = measure_text(m, &t[start..pos + 1], font_size, spacing);
        if exceeds(w, avail) {
            return if lwb2 > start {
                lwb2
            } else if pos > start + 1 {
                pos
            } else {
                start + 1
            };
        }
        lwb = lwb2;
        pos = pos + 1;
    }
    n
}

/// A floating image that takes width from the lines it overlaps.
pub struct ActiveFloat {
    pub id: String,
    /// Lines `[start_line, end_line)` of a float that moves with the text
    pub start_line: usize,
    pub end_line: usize,
    pub width: u32,
    pub side: FloatSide,
    pub page_index: Option<usize>,
    /// Vertical extent `[y_start, y_end)` of a float with a fixed position
    pub y_start: Option<i64>,
    pub y_end: Option<i64>,
    /// Horizontal position of a float with a fixed position
    pub x_position: Option<i64>,
}

/// Whether float `f` overlaps the line with index `line_index` at height `y`:
/// by height for a fixed float, by line index otherwise.
pub open spec fn float_hits(f: ActiveFloat, line_index: int, y: int, line_height: int) -> bool {
    if f.y_start.is_some() && f.y_end.is_some() {
        y < f.y_end.unwrap() && y + line_height > f.y_start.unwrap()
    } else {
        f.start_line <= line_index < f.end_line
    }
}

/// Whether `f` has a fixed position, and so a vertical extent.
pub open spec fn is_fixed(f: ActiveFloat) -> bool {
    f.y_start.is_some() && f.y_end.is_some()
}

/// The width float `f` takes from a line, and where it stands in the
/// column: at the left edge for a left float, against the right edge for a
/// right one.
pub open spec fn reduction_of(f: ActiveFloat, column_width: int) -> FloatReduction {
    FloatReduction {
        side: f.side,
        width: f.width,
        float_x: match f.side {
            FloatSide::Left => 0,
            FloatSide::Right => (column_width - f.width) as i64,
        },
    }
}

/// The reduction of the first float from index `i` on, among the fixed ones
/// (`fixed`) or the others, that hits the line.
pub open spec fn first_hit(
    floats: Seq<ActiveFloat>,
    i: int,
    fixed: bool,
    line_index: int,
    y: int,
    line_height: int,
    column_width: int,
) -> Option<FloatReduction>
    decreases floats.len() - i,
{
    if i >= floats.len() || i < 0 {
        None
    } else if is_fixed(floats[i]) == fixed && float_hits(floats[i], line_index, y, line_height) {
        Some(reduction_of(floats[i], column_width))
    } else {
        first_hit(floats, i + 1, fixed, line_index, y, line_height, column_width)
    }
}

/// The float beside a line: the first fixed float whose extent meets the
/// line's height band, else the first float moving with the text whose
/// line range holds the line's index.
pub open spec fn float_from(floats: Seq<ActiveFloat>, line_index: int, y: int, line_height: int, column_width: int) -> Option<
    FloatReduction,
> {
    match first_hit(floats, 0, true, line_index, y, line_height, column_width) {
        Some(r) => Some(r),
        None => first_hit(floats, 0, false, line_index, y, line_height, column_width),
    }
}

fn find_hit(
    floats: &Vec<ActiveFloat>,
    fixed: bool,
    line_index: usize,
    estimated_y: i128,
    line_height: i128,
    column_width: i64,
) -> (r: Option<FloatReduction>)
    requires
        -0x10_0000_0000_0000_0000_0000_0000 <= estimated_y <= 0x10_0000_0000_0000_0000_0000_0000,
        0 <= line_height <= 0x1_0000_0000_0000_0000,
        0 <= column_width <= 0xffff_ffff,
    ensures
        r == first_hit(floats@, 0, fixed, line_index as int, estimated_y as int, line_height as int, column_width as int),
{
    let mut i: usize = 0;
    while i < floats.len()
        invariant
            0 <= i <= floats@.len(),
            -0x10_0000_0000_0000_0000_0000_0000 <= estimated_y <= 0x10_0000_0000_0000_0000_0000_0000,
            0 <= line_height <= 0x1_0000_0000_0000_0000,
            0 <= column_width <= 0xffff_ffff,
            first_hit(floats@, 0, fixed, line_index as int, estimated_y as int, line_height as int, column_width as int)
                == first_hit(floats@, i as int, fixed, line_index as int, estimated_y as int, line_height as int, column_width as int),
        decreases floats@.len() - i,
    {
        let f = &floats[i];
        let hit = match (f.y_start, f.y_end) {
            (Some(y_start), Some(y_end)) => fixed && estimated_y < y_end as i128 && estimated_y + line_height > y_start as i128,
            _ => !fixed && line_index >= f.start_line && line_index < f.end_line,
        };
        if hit {
            let float_x = match f.side {
                FloatSide::Left => 0,
                FloatSide::Right => column_width - f.width as i64,
            };
            return Some(FloatReduction { side: f.side, width: f.width, float_x });
        }
        i = i + 1;
    }
    None
}

/// The float reduction for a line: fixed floats are looked up first, by
/// height, then floats that move with the text, by line index.
pub fn get_float_reduction(
    floats: &Vec<ActiveFloat>,
    line_index: usize,
    estimated_y: i128,
    line_height: i128,
    column_width: i64,
) -> (r: Option<FloatReduction>)
    requires
        -0x10_0000_0000_0000_0000_0000_0000 <= estimated_y <= 0x10_0000_0000_0000_0000_0000_0000,
        0 <= line_height <= 0x1_0000_0000_0000_0000,
        0 <= column_width <= 0xffff_ffff,
    ensures
        r == float_from(floats@, line_index as int, estimated_y as int, line_height as int, column_width as int),
{
    match find_hit(floats, true, line_index, estimated_y, line_height, column_width) {
        Some(r) => Some(r),
        None => find_hit(floats, false, line_index, estimated_y, line_height, column_width),
    }
}

/// The gap kept between a floating image and the text beside it.
pub const FLOAT_GAP: i64 = 10;

/// One wrapped line of a paragraph: its character range and the float beside
/// it.
#[derive(Debug, Clone, Copy, PartialEq, Eq, Structural)]
pub struct LineSpan {
    pub start: usize,
    pub end: usize,
    pub float_reduction: Option<FloatReduction>,
}

/// The float beside the line with index `line_index`, its top estimated at
/// `line_index` line heights.
pub open spec fn float_for_line(floats: Seq<ActiveFloat>, line_index: int, line_height: int, column_width: int) -> Option<
    FloatReduction,
> {
    float_from(floats, line_index, line_index * line_height, line_height, column_width)
}

/// The width left for text beside a float.
pub open spec fn width_beside(base: int, fr: Option<FloatReduction>) -> int {
    match fr {
        Some(f) => base - (f.width + FLOAT_GAP),
        None => base,
    }
}

/// `lines` is the greedy wrapping of `t` whose first line has index
/// `first_line`: consecutive non-empty ranges from 0 to the end of `t`, each
/// as long as `line_end` allows in the width left beside that line's float.
pub open spec fn wraps<M: TextMeasure>(
    m: &M,
    t: Seq<char>,
    lines: Seq<LineSpan>,
    base: int,
    floats: Seq<ActiveFloat>,
    first_line: int,
    line_height: int,
    column_width: int,
    font_size: u32,
    spacing: u32,
) -> bool {
    &&& lines.len() >= 1
    &&& lines[0].start == 0
    &&& lines.last().end == t.len()
    &&& forall|k: int| 0 <= k < lines.len() - 1 ==> #[trigger] lines[k].end == lines[k + 1].start
    &&& forall|k: int|
        0 <= k < lines.len() ==> (#[trigger] lines[k]).float_reduction == float_for_line(
            floats,
            first_line + k,
            line_height,
            column_width,
        )
    &&& forall|k: int|
        0 <= k < lines.len() ==> (#[trigger] lines[k]).end == line_end(
            m,
            t,
            lines[k].start as int,
            width_beside(base, lines[k].float_reduction),
            font_size,
            spacing,
        )
}

/// Wraps the non-empty text `t` greedily, line by line, each line as wide as
/// the float beside it leaves.
pub fn wrap_text_lines<M: TextMeasure>(
    m: &M,
    t: &Vec<char>,
    base: i64,
    floats: &Vec<ActiveFloat>,
    first_line: usize,
    line_height: u64,
    column_width: i64,
    font_size: u32,
    spacing: u32,
) -> (r: Vec<LineSpan>)
    requires
        t@.len() > 0,
        first_line + t@.len() <= usize::MAX,
        line_height <= MAX_LINE_HEIGHT,
        0 <= column_width <= 0xffff_ffff,
    ensures
        wraps(m, t@, r@, base as int, floats@, first_line as int, line_height as int, column_width as int, font_size, spacing),
        r@.len() <= t@.len(),
        forall|k: int| 0 <= k < r@.len() ==> (#[trigger] r@[k]).start < r@[k].end <= t@.len(),
{
    let n = t.len();
    let mut lines: Vec<LineSpan> = Vec::new();
    let mut start: usize = 0;
    while start < n
        invariant
            n == t@.len(),
            n > 0,
            first_line + n <= usize::MAX,
            line_height <= MAX_LINE_HEIGHT,
            0 <= column_width <= 0xffff_ffff,
            0 <= start <= n,
            lines@.len() <= start,
            start == 0 <==> lines@.len() == 0,
            lines@.len() > 0 ==> lines@.last().end == start,
            lines@.len() > 0 ==> lines@[0].start == 0,
            forall|k: int| 0 <= k < lines@.len() ==> (#[trigger] lines@[k]).start < lines@[k].end <= n,
            forall|k: int| 0 <= k < lines@.len() - 1 ==> #[trigger] lines@[k].end == lines@[k + 1].start,
            forall|k: int|
                0 <= k < lines@.len() ==> (#[trigger] lines@[k]).float_reduction == float_for_line(
                    floats@,
                    first_line + k,
                    line_height as int,
                    column_width as int,
                ),
            forall|k: int|
                0 <= k < lines@.len() ==> (#[trigger] lines@[k]).end == line_end(
                    m,
                    t@,
                    lines@[k].start as int,
                    width_beside(base as int, lines@[k].float_reduction),
                    font_size,
                    spacing,
                ),
        decreases n - start,
    {
        let line_index = first_line + lines.len();
        assert(line_index as int * line_height as int <= 0xffff_ffff_ffff_ffff * MAX_LINE_HEIGHT) by (nonlinear_arith)
            requires line_index <= 0xffff_ffff_ffff_ffff, line_height <= MAX_LINE_HEIGHT;
        let estimated_y = line_index as i128 * line_height as i128;
        let fr = get_float_reduction(floats, line_index, estimated_y, line_height as i128, column_width);
        let avail: i128 = match fr {
            Some(f) => base as i128 - (f.width as i128 + FLOAT_GAP as i128),
            None => base as i128,
        };
        let end = find_line_end(m, t.as_slice(), start, avail, font_size, spacing);
        let ghost before = lines@;
        lines.push(LineSpan { start, end, float_reduction: fr });
        assert(lines@.drop_last() == before);
        start = end;
    }
    lines
}

/// The side a floating image takes for its alignment.
pub fn align_to_float_side(align: HorizontalAlign) -> (r: FloatSide)
    ensures
        r == (if align == HorizontalAlign::Right { FloatSide::Right } else { FloatSide::Left }),
{
    match align {
        HorizontalAlign::Right => FloatSide::Right,
        _ => FloatSide::Left,
    }
}

/// `h` in whole lines of height `lh`, rounded up; no lines where `lh` is 0.
pub open spec fn lines_for(h: int, lh: int) -> int {
    if lh <= 0 {
        0
    } else {
        (h + lh - 1) / lh
    }
}

fn ceil_lines(h: u64, lh: u64) -> (r: u64)
    requires
        h <= 0xffff_ffff_ffff_ffff,
        lh <= MAX_LINE_HEIGHT,
    ensures
        r == lines_for(h as int, lh as int),
        r <= h,
{
    if lh == 0 {
        0
    } else {
        let q = (h as u128 + lh as u128 - 1) / lh as u128;
        assert(q <= h) by (nonlinear_arith)
            requires lh >= 1, h >= 0, q == (h + lh - 1) / lh as int;
        q as u64
    }
}

/// `x`, or the largest `usize` where it is larger.
pub open spec fn sat_usize(x: int) -> int {
    if x > usize::MAX {
        usize::MAX as int
    } else {
        x
    }
}

/// `x`, or the largest `u32` where it is larger.
pub open spec fn clamp_u32(x: int) -> u32 {
    if x > u32::MAX {
        u32::MAX
    } else {
        x as u32
    }
}

fn saturate_u32(x: u64) -> (r: u32)
    ensures
        r == clamp_u32(x as int),
{
    if x > u32::MAX as u64 {
        u32::MAX
    } else {
        x as u32
    }
}

/// The font size of a paragraph: its own size or the configured one, scaled
/// by its block type.
pub open spec fn para_font_size(config: LayoutConfig, para: Paragraph) -> u32 {
    let base = match para.meta.font_size {
        Some(f) => f as int,
        None => config.font_size as int,
    };
    clamp_u32(base * para.meta.block_type.size_percent() / 100)
}

/// The width a paragraph's lines have where no float stands beside them: the
/// column less the list indent.
pub open spec fn para_base_width(config: LayoutConfig, para: Paragraph) -> int {
    let fs = para_font_size(config, para);
    config.column_width_spec() - if para.meta.list_type != ListType::NoList {
        fs * 3 / 2
    } else {
        0
    }
}

fn font_size_of(config: &LayoutConfig, para: &Paragraph) -> (r: u32)
    ensures
        r == para_font_size(*config, *para),
{
    let base = match para.meta.font_size {
        Some(f) => f,
        None => config.font_size,
    };
    let pct = para.meta.block_type.font_size_multiplier();
    assert(base as u64 * pct as u64 <= 0xffff_ffff * 200) by (nonlinear_arith)
        requires base <= 0xffff_ffff, pct <= 200;
    saturate_u32(base as u64 * pct as u64 / 100)
}

/// Whether a paragraph is laid out as text.
pub open spec fn is_text_para(para: Paragraph) -> bool {
    !para.page_break_spec() && !para.table_spec() && !para.image_spec()
}

/// The list counter after a text paragraph: numbered items count on, any
/// other paragraph resets it.
pub open spec fn next_counter(counter: int, list_type: ListType) -> int {
    match list_type {
        ListType::Numbered => counter + 1,
        _ => 0,
    }
}

/// The index of the first image with id `id`.
fn find_image(images: &Vec<DocumentImage>, id: &str) -> (r: Option<usize>)
    ensures
        match r {
            Some(i) => i < images@.len() && images@[i as int].id@ == id@ && forall|j: int|
                0 <= j < i ==> (#[trigger] images@[j]).id@ != id@,
            None => forall|j: int| 0 <= j < images@.len() ==> (#[trigger] images@[j]).id@ != id@,
        },
{
    let key = String::from_str(id);
    let mut i: usize = 0;
    while i < images.len()
        invariant
            0 <= i <= images@.len(),
            key@ == id@,
            forall|j: int| 0 <= j < i ==> (#[trigger] images@[j]).id@ != id@,
        decreases images@.len() - i,
    {
        if images[i].id.eq(&key) {
            return Some(i);
        }
        i = i + 1;
    }
    None
}

/// The index of the first table with id `id`.
fn find_table(tables: &Vec<DocumentTable>, id: &str) -> (r: Option<usize>)
    ensures
        match r {
            Some(i) => i < tables@.len() && tables@[i as int].id@ == id@ && forall|j: int|
                0 <= j < i ==> (#[trigger] tables@[j]).id@ != id@,
            None => forall|j: int| 0 <= j < tables@.len() ==> (#[trigger] tables@[j]).id@ != id@,
        },
{
    let key = String::from_str(id);
    let mut i: usize = 0;
    while i < tables.len()
        invariant
            0 <= i <= tables@.len(),
            key@ == id@,
            forall|j: int| 0 <= j < i ==> (#[trigger] tables@[j]).id@ != id@,
        decreases tables@.len() - i,
    {
        if tables[i].id.eq(&key) {
            return Some(i);
        }
        i = i + 1;
    }
    None
}

/// The height, in lines, that the line of an image reserves: none for a
/// floating image or one behind or in front of the text, else the whole lines
/// its cropped height takes.
pub open spec fn image_line_height(img: DocumentImage, lh: int) -> u32 {
    if img.wrap_style.floats() || img.wrap_style == ImageWrapStyle::Behind || img.wrap_style == ImageWrapStyle::InFront {
        0
    } else {
        clamp_u32(lines_for(cropped_spec(img.height as int, img.crop_top as int, img.crop_bottom as int), lh))
    }
}

/// A line that stands for a whole marker paragraph: no text, the marker's
/// range, the last line of its paragraph.
fn marker_line(
    para_idx: usize,
    end: usize,
    block_type: BlockType,
    is_page_break: bool,
    is_image: bool,
    image_id: Option<String>,
    image_height: Option<u32>,
    is_table: bool,
    table_id: Option<String>,
    table_layout: Option<TableLayout>,
) -> (r: DisplayLine)
    ensures
        r.para_index == para_idx,
        r.start_offset == 0,
        r.end_offset == end,
        r.text@.len() == 0,
        r.is_page_break == is_page_break,
        r.is_image == is_image,
        r.image_height == image_height,
        r.is_table == is_table,
        r.is_last_line,
        r.list_number.is_none(),
        r.block_type == block_type,
        r.list_type == ListType::NoList,
        r.float_reduction.is_none(),
        r.table_layout == table_layout,
{
    DisplayLine {
        para_index: para_idx,
        start_offset: 0,
        end_offset: end,
        text: String::new(),
        page_index: 0,
        column_index: 0,
        x_position: 0,
        y_position: 0,
        is_page_break,
        is_image,
        image_id,
        image_height,
        list_number: None,
        is_last_line: true,
        block_type,
        list_type: ListType::NoList,
        float_reduction: None,
        is_table,
        table_id,
        table_layout,
    }
}

/// The characters of the strings.
pub open spec fn views(v: Seq<String>) -> Seq<Seq<char>> {
    v.map_values(|s: String| s@)
}

/// The first line break at or after `i`, or the end of `t`.
pub open spec fn next_break(t: Seq<char>, i: int) -> int
    decreases t.len() - i,
{
    if i >= t.len() || i < 0 {
        t.len() as int
    } else if t[i] == '\n' {
        i
    } else {
        next_break(t, i + 1)
    }
}

/// The pieces of `t` from `i` on, between line breaks.
pub open spec fn pieces_from(t: Seq<char>, i: int) -> Seq<Seq<char>>
    decreases t.len() + 1 - i,
{
    if i < 0 || i > t.len() {
        Seq::empty()
    } else {
        let j = next_break(t, i);
        if j >= t.len() || j < i {
            seq![t.subrange(i, t.len() as int)]
        } else {
            seq![t.subrange(i, j)].add(pieces_from(t, j + 1))
        }
    }
}

/// The greedy wrapping of `piece` from `start` on, in a width `avail`.
pub open spec fn wrap_from<M: TextMeasure>(m: &M, piece: Seq<char>, start: int, avail: int, font_size: u32, spacing: u32) -> Seq<
    Seq<char>,
>
    decreases piece.len() - start,
{
    if start < 0 || start >= piece.len() {
        Seq::empty()
    } else {
        let e = line_end(m, piece, start, avail, font_size, spacing);
        if e <= start || e > piece.len() {
            Seq::empty()
        } else {
            seq![piece.subrange(start, e)].add(wrap_from(m, piece, e, avail, font_size, spacing))
        }
    }
}

/// The lines of one piece: an empty piece is one empty line.
pub open spec fn piece_lines<M: TextMeasure>(m: &M, piece: Seq<char>, avail: int, font_size: u32, spacing: u32) -> Seq<
    Seq<char>,
> {
    if piece.len() == 0 {
        seq![Seq::empty()]
    } else {
        wrap_from(m, piece, 0, avail, font_size, spacing)
    }
}

pub open spec fn lines_of_pieces<M: TextMeasure>(m: &M, pieces: Seq<Seq<char>>, avail: int, font_size: u32, spacing: u32) -> Seq<
    Seq<char>,
>
    decreases pieces.len(),
{
    if pieces.len() == 0 {
        Seq::empty()
    } else {
        piece_lines(m, pieces[0], avail, font_size, spacing).add(
            lines_of_pieces(m, pieces.drop_first(), avail, font_size, spacing),
        )
    }
}

/// The lines of a cell's text: split at line breaks, each piece wrapped.
pub open spec fn cell_text_lines<M: TextMeasure>(m: &M, t: Seq<char>, avail: int, font_size: u32, spacing: u32) -> Seq<
    Seq<char>,
> {
    if t.len() == 0 {
        seq![Seq::empty()]
    } else {
        lines_of_pieces(m, pieces_from(t, 0), avail, font_size, spacing)
    }
}

/// Wraps the piece `t[ps..pe]` and appends its lines to `out`.
fn wrap_piece<M: TextMeasure>(
    m: &M,
    t: &[char],
    ps: usize,
    pe: usize,
    avail: i128,
    font_size: u32,
    spacing: u32,
    out: &mut Vec<String>,
)
    requires
        ps <= pe <= t@.len(),
    ensures
        views(final(out)@) == views(old(out)@).add(
            piece_lines(m, t@.subrange(ps as int, pe as int), avail as int, font_size, spacing),
        ),
{
    let piece = &t[ps..pe];
    let ghost pv = piece@;
    if ps == pe {
        let ghost o = out@;
        out.push(String::new());
        assert(views(out@) =~= views(o).add(seq![Seq::<char>::empty()]));
        return;
    }
    let n = pe - ps;
    let mut start: usize = 0;
    while start < n
        invariant
            n == pv.len(),
            pv == piece@,
            n > 0,
            0 <= start <= n,
            views(out@).add(wrap_from(m, pv, start as int, avail as int, font_size, spacing)) == views(old(out)@).add(
                wrap_from(m, pv, 0, avail as int, font_size, spacing),
            ),
        decreases n - start,
    {
        let e = find_line_end(m, piece, start, avail, font_size, spacing);
        let ghost o = out@;
        out.push(string_of(&piece[start..e]));
        assert(views(out@) =~= views(o).push(pv.subrange(start as int, e as int)));
        assert(wrap_from(m, pv, start as int, avail as int, font_size, spacing) == seq![pv.subrange(start as int, e as int)].add(
            wrap_from(m, pv, e as int, avail as int, font_size, spacing),
        ));
        assert(views(out@).add(wrap_from(m, pv, e as int, avail as int, font_size, spacing)) =~= views(o).add(
            wrap_from(m, pv, start as int, avail as int, font_size, spacing),
        ));
        start = e;
    }
    assert(views(out@).add(wrap_from(m, pv, n as int, avail as int, font_size, spacing)) =~= views(out@));
}

/// Wraps a cell's text: first at its line breaks, then greedily within each
/// piece as paragraphs are wrapped.
pub fn wrap_text_for_cell<M: TextMeasure>(text: &String, max_width: i64, font_size: u32, m: &M, spacing: u32) -> (r: Vec<String>)
    ensures
        views(r@) == cell_text_lines(m, text@, max_width as int, font_size, spacing),
{
    let t = chars_of(text.as_str());
    let n = t.len();
    let mut out: Vec<String> = Vec::new();
    if n == 0 {
        out.push(String::new());
        assert(views(out@) =~= seq![Seq::<char>::empty()]);
        return out;
    }
    let mut ps: usize = 0;
    loop
        invariant
            n == t@.len(),
            t@ == text@,
            n > 0,
            0 <= ps <= n,
            views(out@).add(lines_of_pieces(m, pieces_from(t@, ps as int), max_width as int, font_size, spacing))
                == cell_text_lines(m, t@, max_width as int, font_size, spacing),
        decreases n + 1 - ps,
    {
        let mut j = ps;
        while j < n && t[j] != '\n'
            invariant
                n == t@.len(),
                ps <= j <= n,
                next_break(t@, j as int) == next_break(t@, ps as int),
            decreases n - j,
        {
            j = j + 1;
        }
        let ghost o = out@;
        wrap_piece(m, t.as_slice(), ps, j, max_width as i128, font_size, spacing, &mut out);
        let ghost pl = piece_lines(m, t@.subrange(ps as int, j as int), max_width as int, font_size, spacing);
        if j >= n {
            assert(pieces_from(t@, ps as int) == seq![t@.subrange(ps as int, n as int)]);
            assert(seq![t@.subrange(ps as int, n as int)].drop_first() =~= Seq::<Seq<char>>::empty());
            assert(lines_of_pieces(m, seq![t@.subrange(ps as int, n as int)], max_width as int, font_size, spacing) =~= pl.add(
                lines_of_pieces(m, Seq::<Seq<char>>::empty(), max_width as int, font_size, spacing),
            ));
            assert(views(out@) =~= views(o).add(pl));
            return out;
        }
        let ghost rest = pieces_from(t@, j + 1);
        assert(pieces_from(t@, ps as int) == seq![t@.subrange(ps as int, j as int)].add(rest));
        assert(seq![t@.subrange(ps as int, j as int)].add(rest).drop_first() =~= rest);
        assert(views(out@).add(lines_of_pieces(m, rest, max_width as int, font_size, spacing)) =~= views(o).add(
            lines_of_pieces(m, pieces_from(t@, ps as int), max_width as int, font_size, spacing),
        ));
        ps = j + 1;
    }
}

/// Padding inside a table cell, both sides together.
pub const CELL_PADDING: u64 = 8;

/// The pixel width of a column declared as `w`: pixels in fixed mode, else
/// `w` percent of the room left between the borders.
pub open spec fn column_px(mode: TableWidthMode, w: u32, room: int) -> int {
    match mode {
        TableWidthMode::Fixed => w as int,
        _ => room * w / 100,
    }
}

/// The room for columns: the available width less all vertical borders, and
/// no less than nothing.
pub open spec fn table_room(available: int, ncols: int, border: int) -> int {
    let r = available - (ncols + 1) * border;
    if r < 0 {
        0
    } else {
        r
    }
}

/// `a + b`, or the largest `u64` where that is larger.
pub open spec fn sat_add(a: int, b: int) -> int {
    if a + b > u64::MAX {
        u64::MAX as int
    } else {
        a + b
    }
}

/// The widths of columns `[from, to)` added up, saturating.
pub open spec fn span_width(ws: Seq<u64>, from: int, to: int) -> int
    decreases to - from,
{
    if to <= from {
        0
    } else {
        sat_add(span_width(ws, from, to - 1), ws[to - 1] as int)
    }
}

/// The content width of the cell at column `col`: its spanned columns and
/// the borders between them, less the padding.
pub open spec fn cell_width(ws: Seq<u64>, col: int, span: int, border: int) -> int {
    let end = if col + span < ws.len() {
        col + span
    } else {
        ws.len() as int
    };
    let inner = if span > 1 {
        (span - 1) * border
    } else {
        0
    };
    let w = span_width(ws, col, end) + inner - CELL_PADDING;
    if w > i64::MAX {
        i64::MAX as int
    } else {
        w
    }
}

fn column_pixels(table: &DocumentTable, available: i64) -> (r: Vec<u64>)
    requires
        0 <= available <= 0xffff_ffff,
    ensures
        r@.len() == table.column_widths@.len(),
        forall|k: int|
            0 <= k < r@.len() ==> #[trigger] r@[k] == column_px(
                table.width_mode,
                table.column_widths@[k],
                table_room(available as int, table.column_widths@.len() as int, table.border_width as int),
            ),
{
    let ncols = table.column_widths.len();
    assert((ncols + 1) * table.border_width <= 0x1_0000_0000_0000_0000 * 0xffff_ffff) by (nonlinear_arith)
        requires ncols <= 0xffff_ffff_ffff_ffff, table.border_width <= 0xffff_ffff;
    let borders = (ncols as i128 + 1) * table.border_width as i128;
    let room: i128 = if available as i128 - borders < 0 {
        0
    } else {
        available as i128 - borders
    };
    let mut out: Vec<u64> = Vec::new();
    let mut k: usize = 0;
    while k < ncols
        invariant
            ncols == table.column_widths@.len(),
            0 <= room <= 0xffff_ffff,
            room == table_room(available as int, ncols as int, table.border_width as int),
            0 <= k <= ncols,
            out@.len() == k,
            forall|i: int|
                0 <= i < k ==> #[trigger] out@[i] == column_px(table.width_mode, table.column_widths@[i], room as int),
        decreases ncols - k,
    {
        let w = table.column_widths[k];
        let px: u64 = match table.width_mode {
            TableWidthMode::Fixed => w as u64,
            _ => {
                assert(room * w <= 0xffff_ffff * 0xffff_ffff) by (nonlinear_arith)
                    requires 0 <= room <= 0xffff_ffff, w <= 0xffff_ffff;
                (room * w as i128 / 100) as u64
            },
        };
        out.push(px);
        k = k + 1;
    }
    out
}

fn cell_content_width(ws: &Vec<u64>, col: usize, span: usize, border: u32) -> (r: i64)
    ensures
        r == cell_width(ws@, col as int, span as int, border as int),
{
    let end = if span < ws.len() && col < ws.len() - span {
        col + span
    } else {
        ws.len()
    };
    let mut sum: u64 = 0;
    let mut k = col;
    while k < end
        invariant
            end <= ws@.len(),
            col <= k,
            col <= end ==> k <= end,
            col > end ==> k == col,
            sum == span_width(ws@, col as int, k as int),
        decreases end - k,
    {
        sum = sum.saturating_add(ws[k]);
        k = k + 1;
    }
    assert(sum == span_width(ws@, col as int, end as int)) by {
        if col > end {
            assert(span_width(ws@, col as int, col as int) == 0);
            assert(span_width(ws@, col as int, end as int) == 0);
        }
    }
    let inner: i128 = if span > 1 {
        assert((span - 1) * border <= 0xffff_ffff_ffff_ffff * 0xffff_ffff) by (nonlinear_arith)
            requires span <= 0xffff_ffff_ffff_ffff, border <= 0xffff_ffff;
        (span as i128 - 1) * border as i128
    } else {
        0
    };
    let w: i128 = sum as i128 + inner - CELL_PADDING as i128;
    if w > i64::MAX as i128 {
        i64::MAX
    } else {
        w as i64
    }
}

/// `x`, or the largest `u64` where it is larger.
fn clamp_u64(x: u128) -> (r: u64)
    ensures
        r == (if x > u64::MAX { u64::MAX as int } else { x as int }),
{
    if x > u64::MAX as u128 {
        u64::MAX
    } else {
        x as u64
    }
}

/// The wrapped lines of cell `cell` at column `col`: one empty line for a
/// covered cell.
pub open spec fn cell_lines_spec<M: TextMeasure>(
    m: &M,
    cell: TableCell,
    ws: Seq<u64>,
    col: int,
    border: int,
    font_size: u32,
    spacing: u32,
) -> Seq<Seq<char>> {
    if cell.covered {
        seq![Seq::empty()]
    } else {
        cell_text_lines(m, cell.text@, cell_width(ws, col, cell.col_span as int, border), font_size, spacing)
    }
}

/// The height `count` lines of height `lh` take in a cell, padding
/// included, saturating.
pub open spec fn lines_height_spec(count: int, lh: int) -> int {
    let h = count * lh + CELL_PADDING;
    if h > u64::MAX {
        u64::MAX as int
    } else {
        h
    }
}

/// The most lines among the first `k` cells of a row that span one row
/// only, and at least one.
pub open spec fn row_lines_max<M: TextMeasure>(
    m: &M,
    cells: Seq<TableCell>,
    k: int,
    ws: Seq<u64>,
    border: int,
    font_size: u32,
    spacing: u32,
) -> int
    decreases k,
{
    if k <= 0 {
        1
    } else {
        let prev = row_lines_max(m, cells, k - 1, ws, border, font_size, spacing);
        let c = cells[k - 1];
        let n = cell_lines_spec(m, c, ws, k - 1, border, font_size, spacing).len() as int;
        if !c.covered && c.row_span == 1 && n > prev {
            n
        } else {
            prev
        }
    }
}

/// The height row `row` needs for its single-row cells, and no less than its
/// declared minimum (one line where it declares none).
pub open spec fn row_base_height<M: TextMeasure>(
    m: &M,
    row: crate::table::TableRow,
    ws: Seq<u64>,
    border: int,
    font_size: u32,
    spacing: u32,
    lh: int,
) -> int {
    let content = lines_height_spec(
        row_lines_max(m, row.cells@, row.cells@.len() as int, ws, border, font_size, spacing),
        lh,
    );
    let floor = match row.min_height {
        Some(h) => h as int,
        None => lh + CELL_PADDING,
    };
    if content > floor {
        content
    } else {
        floor
    }
}

/// The height `count` lines of height `lh` take in a cell, saturating.
fn lines_height(count: usize, lh: u64) -> (r: u64)
    requires
        lh <= MAX_LINE_HEIGHT,
    ensures
        r == lines_height_spec(count as int, lh as int),
{
    assert(count * lh <= 0xffff_ffff_ffff_ffff * MAX_LINE_HEIGHT) by (nonlinear_arith)
        requires count <= 0xffff_ffff_ffff_ffff, lh <= MAX_LINE_HEIGHT;
    clamp_u64(count as u128 * lh as u128 + CELL_PADDING as u128)
}

/// The heights added up, saturating at the largest `u64`.
pub open spec fn sat_sum(hs: Seq<u64>) -> int
    decreases hs.len(),
{
    if hs.len() == 0 {
        0
    } else {
        sat_add(sat_sum(hs.drop_last()), hs.last() as int)
    }
}

/// `x`, or the largest `u64` where it is larger.
pub open spec fn clamp_to_u64(x: int) -> int {
    if x > u64::MAX {
        u64::MAX as int
    } else {
        x
    }
}

/// No uncovered cell of the table spans more than one row.
pub open spec fn no_row_spans(t: DocumentTable) -> bool {
    forall|r: int, c: int|
        0 <= r < t.rows@.len() && 0 <= c < t.rows@[r].cells@.len() ==> (#[trigger] t.rows@[r].cells@[c]).covered
            || t.rows@[r].cells@[c].row_span <= 1
}

/// The heights of rows `[a, b)` added up.
pub open spec fn span_sum(hs: Seq<u64>, a: int, b: int) -> int
    decreases b - a,
{
    if b <= a {
        0
    } else {
        span_sum(hs, a, b - 1) + hs[b - 1]
    }
}

/// The heights of rows `[a, b)` added up, saturating.
pub open spec fn sat_span(hs: Seq<u64>, a: int, b: int) -> int
    decreases b - a,
{
    if b <= a {
        0
    } else {
        sat_add(sat_span(hs, a, b - 1), hs[b - 1] as int)
    }
}

proof fn lemma_sat_span(hs: Seq<u64>, a: int, b: int)
    requires
        0 <= a <= b <= hs.len(),
    ensures
        0 <= sat_span(hs, a, b) <= span_sum(hs, a, b),
        sat_span(hs, a, b) < u64::MAX ==> sat_span(hs, a, b) == span_sum(hs, a, b),
        sat_span(hs, a, b) <= u64::MAX,
    decreases b - a,
{
    if b > a {
        lemma_sat_span(hs, a, b - 1);
    }
}

proof fn lemma_span_monotone(o: Seq<u64>, n: Seq<u64>, a: int, b: int)
    requires
        0 <= a <= b <= o.len(),
        o.len() == n.len(),
        forall|x: int| a <= x < b ==> #[trigger] n[x] >= o[x],
    ensures
        span_sum(n, a, b) >= span_sum(o, a, b),
    decreases b - a,
{
    if b > a {
        lemma_span_monotone(o, n, a, b - 1);
    }
}

proof fn lemma_span_ge_part(hs: Seq<u64>, a: int, b: int, x: int)
    requires
        0 <= a <= x < b <= hs.len(),
    ensures
        span_sum(hs, a, b) >= hs[x],
    decreases b - a,
{
    if x < b - 1 {
        lemma_span_ge_part(hs, a, b - 1, x);
    }
    lemma_span_nonneg(hs, a, b - 1);
}

proof fn lemma_span_nonneg(hs: Seq<u64>, a: int, b: int)
    ensures
        span_sum(hs, a, b) >= 0,
    decreases b - a,
{
    if b > a {
        lemma_span_nonneg(hs, a, b - 1);
    }
}

proof fn lemma_span_plus(o: Seq<u64>, n: Seq<u64>, a: int, b: int, per: int)
    requires
        0 <= a <= b <= o.len(),
        o.len() == n.len(),
        forall|x: int| a <= x < b ==> #[trigger] n[x] == o[x] + per,
    ensures
        span_sum(n, a, b) == span_sum(o, a, b) + (b - a) * per,
    decreases b - a,
{
    if b > a {
        lemma_span_plus(o, n, a, b - 1, per);
        assert((b - 1 - a) * per + per == (b - a) * per) by (nonlinear_arith);
        assert(span_sum(n, a, b) == span_sum(n, a, b - 1) + n[b - 1]);
        assert(span_sum(o, a, b) == span_sum(o, a, b - 1) + o[b - 1]);
    } else {
        assert((b - a) * per == 0) by (nonlinear_arith)
            requires b - a == 0;
    }
}

/// Spreads what rows `[i, end)` lack for a cell spanning `span` of them
/// evenly over them, rounded up, so that, unless the span is cut short by
/// the table's end, the rows and the borders between them hold `required`.
fn spread_span(heights: &mut Vec<u64>, i: usize, end: usize, span: usize, required: u64, border: u32)
    requires
        i < end <= old(heights)@.len(),
        end <= i + span,
        span > 1,
    ensures
        final(heights)@.len() == old(heights)@.len(),
        forall|x: int| 0 <= x < old(heights)@.len() ==> #[trigger] final(heights)@[x] >= old(heights)@[x],
        forall|x: int|
            0 <= x < old(heights)@.len() && !(i <= x < end) ==> #[trigger] final(heights)@[x] == old(heights)@[x],
        end == i + span ==> span_sum(final(heights)@, i as int, end as int) + (span - 1) * border >= required,
{
    let ghost o = heights@;
    let mut current: u64 = 0;
    let mut k = i;
    while k < end
        invariant
            heights@ == o,
            i <= k <= end <= o.len(),
            current == sat_span(o, i as int, k as int),
        decreases end - k,
    {
        current = current.saturating_add(heights[k]);
        k = k + 1;
    }
    proof {
        lemma_sat_span(o, i as int, end as int);
    }
    let ghost sat = current as int;
    let ghost full = span_sum(o, i as int, end as int);
    assert((span - 1) * border <= 0xffff_ffff_ffff_ffff * 0xffff_ffff) by (nonlinear_arith)
        requires span <= 0xffff_ffff_ffff_ffff, border <= 0xffff_ffff;
    let ghost inner = (span - 1) * border;
    let current = clamp_u64(current as u128 + (span as u128 - 1) * border as u128);
    assert(current <= sat + inner);
    if required <= current {
        assert(heights@ == o);
        return;
    }
    assert(sat + inner < u64::MAX);
    assert(sat == full);
    assert(current == full + inner);
    let extra = (required - current) as u128;
    let per128 = (extra + span as u128 - 1) / span as u128;
    assert(per128 <= extra) by (nonlinear_arith)
        requires span >= 1, per128 == (extra + span - 1) / span as int, extra >= 0;
    assert(per128 * span >= extra) by (nonlinear_arith)
        requires span >= 1, per128 == (extra + span - 1) / span as int, extra >= 0;
    let per = per128 as u64;
    let mut x = i;
    while x < end
        invariant
            heights@.len() == o.len(),
            i <= x <= end <= o.len(),
            forall|y: int| 0 <= y < o.len() && !(i <= y < x) ==> #[trigger] heights@[y] == o[y],
            forall|y: int| i <= y < x ==> #[trigger] heights@[y] == sat_add(o[y] as int, per as int),
        decreases end - x,
    {
        let h = heights[x].saturating_add(per);
        heights.set(x, h);
        x = x + 1;
    }
    proof {
        let n = heights@;
        if end == i + span {
            if exists|y: int| i <= y < end && o[y] + per > u64::MAX {
                let y = choose|y: int| i <= y < end && o[y] + per > u64::MAX;
                assert(n[y] == u64::MAX);
                lemma_span_ge_part(n, i as int, end as int, y);
            } else {
                assert forall|y: int| i <= y < end implies #[trigger] n[y] == o[y] + per by {}
                lemma_span_plus(o, n, i as int, end as int, per as int);
                assert((end - i) * per == span * per);
                assert(span * per >= extra);
                assert(span_sum(n, i as int, end as int) >= full + extra);
            }
        }
    }
}

/// The row-spanning cell `(i, j)` fits the rows it spans and the borders
/// between them.
pub open spec fn span_fits(hs: Seq<u64>, i: int, span: int, border: int, need: int) -> bool {
    span_sum(hs, i, i + span) + (span - 1) * border >= need
}

/// The row-spanning cell `(i, j)`, where the table holds all the rows it
/// spans, fits them and the borders between them.
pub open spec fn cell_fits(
    t: DocumentTable,
    cl: Seq<Vec<Vec<String>>>,
    hs: Seq<u64>,
    i: int,
    j: int,
    border: int,
    lh: int,
) -> bool {
    let c = t.rows@[i].cells@[j];
    (!c.covered && c.row_span > 1 && i + c.row_span <= t.rows@.len()) ==> span_fits(
        hs,
        i,
        c.row_span as int,
        border,
        lines_height_spec(cl[i]@[j]@.len() as int, lh),
    )
}

/// Computes a table's geometry: column widths, each cell's wrapped lines,
/// row heights that fit the cells (spanning cells spread what they lack
/// evenly over their rows), and the totals.
pub fn compute_table_layout<M: TextMeasure>(table: &DocumentTable, config: &LayoutConfig, m: &M) -> (r: TableLayout)
    requires
        config.valid(),
    ensures
        r.table_id@ == table.id@,
        r.column_widths@.len() == table.column_widths@.len(),
        forall|k: int|
            0 <= k < r.column_widths@.len() ==> #[trigger] r.column_widths@[k] == column_px(
                table.width_mode,
                table.column_widths@[k],
                table_room(config.column_width_spec(), table.column_widths@.len() as int, table.border_width as int),
            ),
        r.cell_lines@.len() == table.rows@.len(),
        r.row_heights@.len() == table.rows@.len(),
        forall|i: int|
            0 <= i < table.rows@.len() ==> (#[trigger] r.cell_lines@[i])@.len() == table.rows@[i].cells@.len(),
        forall|i: int, j: int|
            0 <= i < table.rows@.len() && 0 <= j < table.rows@[i].cells@.len() ==> views(
                (#[trigger] r.cell_lines@[i]@[j])@,
            ) == cell_lines_spec(
                m,
                table.rows@[i].cells@[j],
                r.column_widths@,
                j,
                table.border_width as int,
                config.font_size,
                config.letter_spacing,
            ),
        r.total_width == config.column_width_spec(),
        r.total_height == clamp_to_u64(sat_sum(r.row_heights@) + (table.rows@.len() + 1) * table.border_width),
        forall|i: int, j: int|
            0 <= i < table.rows@.len() && 0 <= j < table.rows@[i].cells@.len() ==> #[trigger] cell_fits(
                *table,
                r.cell_lines@,
                r.row_heights@,
                i,
                j,
                table.border_width as int,
                config.line_height_spec(),
            ),
        no_row_spans(*table) ==> forall|i: int|
            0 <= i < table.rows@.len() ==> #[trigger] r.row_heights@[i] == row_base_height(
                m,
                table.rows@[i],
                r.column_widths@,
                table.border_width as int,
                config.font_size,
                config.letter_spacing,
                config.line_height_spec(),
            ),
        forall|i: int|
            0 <= i < table.rows@.len() ==> #[trigger] r.row_heights@[i] >= row_base_height(
                m,
                table.rows@[i],
                r.column_widths@,
                table.border_width as int,
                config.font_size,
                config.letter_spacing,
                config.line_height_spec(),
            ),
{
    let available = config.column_width();
    assert(available <= 0xffff_ffff) by (nonlinear_arith)
        requires
            config.content_width_spec() - config.column_gap * (config.columns - 1) >= 0,
            config.content_width_spec() <= 0xffff_ffff,
            config.columns >= 1,
            config.column_gap >= 0,
            available == (config.content_width_spec() - config.column_gap * (config.columns - 1)) / config.columns as int;
    let line_height = config.line_height_px();
    let font_size = config.font_size;
    let border = table.border_width;
    let column_widths = column_pixels(table, available);
    let nrows = table.rows.len();
    let mut row_heights: Vec<u64> = Vec::new();
    let mut cell_lines: Vec<Vec<Vec<String>>> = Vec::new();
    let mut i: usize = 0;
    while i < nrows
        invariant
            config.valid(),
            line_height == config.line_height_spec(),
            nrows == table.rows@.len(),
            border == table.border_width,
            font_size == config.font_size,
            0 <= i <= nrows,
            cell_lines@.len() == i,
            row_heights@.len() == i,
            forall|a: int| 0 <= a < i ==> (#[trigger] cell_lines@[a])@.len() == table.rows@[a].cells@.len(),
            forall|a: int, b: int|
                0 <= a < i && 0 <= b < table.rows@[a].cells@.len() ==> views((#[trigger] cell_lines@[a]@[b])@)
                    == cell_lines_spec(m, table.rows@[a].cells@[b], column_widths@, b, border as int, font_size, config.letter_spacing),
            forall|a: int|
                0 <= a < i ==> #[trigger] row_heights@[a] == row_base_height(
                    m,
                    table.rows@[a],
                    column_widths@,
                    border as int,
                    font_size,
                    config.letter_spacing,
                    line_height as int,
                ),
        decreases nrows - i,
    {
        let row = &table.rows[i];
        let mut row_lines: Vec<Vec<String>> = Vec::new();
        let mut max_lines: usize = 1;
        let mut j: usize = 0;
        while j < row.cells.len()
            invariant
                0 <= j <= row.cells@.len(),
                row == table.rows@[i as int],
                border == table.border_width,
                font_size == config.font_size,
                row_lines@.len() == j,
                max_lines == row_lines_max(m, row.cells@, j as int, column_widths@, border as int, font_size, config.letter_spacing),
                forall|b: int|
                    0 <= b < j ==> views((#[trigger] row_lines@[b])@) == cell_lines_spec(
                        m,
                        row.cells@[b],
                        column_widths@,
                        b,
                        border as int,
                        font_size,
                        config.letter_spacing,
                    ),
            decreases row.cells@.len() - j,
        {
            let cell = &row.cells[j];
            if cell.covered {
                let mut one: Vec<String> = Vec::new();
                one.push(String::new());
                assert(views(one@) =~= seq![Seq::<char>::empty()]);
                row_lines.push(one);
            } else {
                let w = cell_content_width(&column_widths, j, cell.col_span, border);
                let lines = wrap_text_for_cell(&cell.text, w, font_size, m, config.letter_spacing);
                assert(lines@.len() == views(lines@).len());
                if cell.row_span == 1 && lines.len() > max_lines {
                    max_lines = lines.len();
                }
                row_lines.push(lines);
            }
            j = j + 1;
        }
        let content = lines_height(max_lines, line_height);
        let floor = match row.min_height {
            Some(h) => h as u64,
            None => line_height + CELL_PADDING,
        };
        row_heights.push(if content > floor { content } else { floor });
        cell_lines.push(row_lines);
        i = i + 1;
    }
    let mut i: usize = 0;
    while i < nrows
        invariant
            nrows == table.rows@.len(),
            line_height <= MAX_LINE_HEIGHT,
            row_heights@.len() == nrows,
            cell_lines@.len() == nrows,
            forall|a: int| 0 <= a < nrows ==> (#[trigger] cell_lines@[a])@.len() == table.rows@[a].cells@.len(),
            forall|a: int| 0 <= a < nrows ==> #[trigger] row_heights@[a] >= row_base_height(
                    m,
                    table.rows@[a],
                    column_widths@,
                    border as int,
                    font_size,
                    config.letter_spacing,
                    line_height as int,
                ),
            no_row_spans(*table) ==> forall|a: int| 0 <= a < nrows ==> #[trigger] row_heights@[a] == row_base_height(
                    m,
                    table.rows@[a],
                    column_widths@,
                    border as int,
                    font_size,
                    config.letter_spacing,
                    line_height as int,
                ),
            0 <= i <= nrows,
            forall|a: int, c: int|
                0 <= a < i && 0 <= c < table.rows@[a].cells@.len() ==> #[trigger] cell_fits(
                    *table,
                    cell_lines@,
                    row_heights@,
                    a,
                    c,
                    border as int,
                    line_height as int,
                ),
        decreases nrows - i,
    {
        let row = &table.rows[i];
        let mut j: usize = 0;
        while j < row.cells.len()
            invariant
            nrows == table.rows@.len(),
            line_height <= MAX_LINE_HEIGHT,
            row_heights@.len() == nrows,
            cell_lines@.len() == nrows,
            forall|a: int| 0 <= a < nrows ==> (#[trigger] cell_lines@[a])@.len() == table.rows@[a].cells@.len(),
            forall|a: int| 0 <= a < nrows ==> #[trigger] row_heights@[a] >= row_base_height(
                    m,
                    table.rows@[a],
                    column_widths@,
                    border as int,
                    font_size,
                    config.letter_spacing,
                    line_height as int,
                ),
            no_row_spans(*table) ==> forall|a: int| 0 <= a < nrows ==> #[trigger] row_heights@[a] == row_base_height(
                    m,
                    table.rows@[a],
                    column_widths@,
                    border as int,
                    font_size,
                    config.letter_spacing,
                    line_height as int,
                ),
                row == table.rows@[i as int],
                0 <= i < nrows,
                0 <= j <= row.cells@.len(),
                forall|a: int, c: int|
                    (0 <= a < i && 0 <= c < table.rows@[a].cells@.len()) || (a == i && 0 <= c < j) ==> #[trigger] cell_fits(
                        *table,
                        cell_lines@,
                        row_heights@,
                        a,
                        c,
                        border as int,
                        line_height as int,
                    ),
            decreases row.cells@.len() - j,
        {
            let cell = &row.cells[j];
            if !cell.covered && cell.row_span > 1 {
                let count = cell_lines[i][j].len();
                let required = lines_height(count, line_height);
                let end = if cell.row_span < nrows - i {
                    i + cell.row_span
                } else {
                    nrows
                };
                assert(!no_row_spans(*table)) by {
                    assert(!(table.rows@[i as int].cells@[j as int].covered || table.rows@[i as int].cells@[j as int].row_span
                        <= 1));
                }
                let ghost before = row_heights@;
                spread_span(&mut row_heights, i, end, cell.row_span, required, border);
                proof {
                    assert forall|a: int, c: int|
                        (0 <= a < i && 0 <= c < table.rows@[a].cells@.len()) || (a == i && 0 <= c <= j) implies #[trigger] cell_fits(
                            *table,
                            cell_lines@,
                            row_heights@,
                            a,
                            c,
                            border as int,
                            line_height as int,
                        ) by {
                        let cc = table.rows@[a].cells@[c];
                        if !cc.covered && cc.row_span > 1 && a + cc.row_span <= nrows && !(a == i && c == j) {
                            assert(cell_fits(*table, cell_lines@, before, a, c, border as int, line_height as int));
                            lemma_span_monotone(before, row_heights@, a, a + cc.row_span);
                        }
                    }
                }
            }
            j = j + 1;
        }
        i = i + 1;
    }
    let mut total: u64 = 0;
    let mut k: usize = 0;
    while k < nrows
        invariant
            0 <= k <= nrows,
            row_heights@.len() == nrows,
            total == sat_sum(row_heights@.subrange(0, k as int)),
            forall|a: int|
                0 <= a < nrows ==> #[trigger] row_heights@[a] >= row_base_height(
                    m,
                    table.rows@[a],
                    column_widths@,
                    border as int,
                    font_size,
                    config.letter_spacing,
                    line_height as int,
                ),
            no_row_spans(*table) ==> forall|a: int|
                0 <= a < nrows ==> #[trigger] row_heights@[a] == row_base_height(
                    m,
                    table.rows@[a],
                    column_widths@,
                    border as int,
                    font_size,
                    config.letter_spacing,
                    line_height as int,
                ),
        decreases nrows - k,
    {
        assert(row_heights@.subrange(0, k + 1).drop_last() =~= row_heights@.subrange(0, k as int));
        total = total.saturating_add(row_heights[k]);
        k = k + 1;
    }
    assert((nrows + 1) * border <= 0x1_0000_0000_0000_0000 * 0xffff_ffff) by (nonlinear_arith)
        requires nrows <= 0xffff_ffff_ffff_ffff, border <= 0xffff_ffff;
    assert(row_heights@.subrange(0, nrows as int) =~= row_heights@);
    let total_height = clamp_u64(total as u128 + (nrows as u128 + 1) * border as u128);
    TableLayout {
        table_id: String::from_str(table.id.as_str()),
        row_heights,
        column_widths,
        total_height,
        total_width: available as u64,
        cell_lines,
    }
}

/// The character range and float of each display line.
pub open spec fn spans_of(lines: Seq<DisplayLine>) -> Seq<LineSpan> {
    lines.map_values(
        |d: DisplayLine| LineSpan { start: d.start_offset, end: d.end_offset, float_reduction: d.float_reduction },
    )
}

/// The display lines of a text paragraph, built from its wrapped spans.
fn text_lines(
    para_idx: usize,
    para: &Paragraph,
    chars: &Vec<char>,
    spans: &Vec<LineSpan>,
    list_number: Option<usize>,
) -> (r: Vec<DisplayLine>)
    requires
        chars@ == para.text@,
        spans@.len() >= 1,
        forall|k: int| 0 <= k < spans@.len() ==> (#[trigger] spans@[k]).start <= spans@[k].end <= chars@.len(),
    ensures
        spans_of(r@) == spans@,
        r@.len() == spans@.len(),
        forall|k: int|
            0 <= k < r@.len() ==> {
                let d = #[trigger] r@[k];
                &&& d.para_index == para_idx
                &&& d.text@ == para.text@.subrange(d.start_offset as int, d.end_offset as int)
                &&& !d.is_page_break && !d.is_image && !d.is_table
                &&& d.block_type == para.meta.block_type
                &&& d.list_type == para.meta.list_type
                &&& d.is_last_line == (k == r@.len() - 1)
                &&& d.list_number == if k == 0 { list_number } else { None }
            },
{
    let mut out: Vec<DisplayLine> = Vec::new();
    let n = spans.len();
    let mut k: usize = 0;
    while k < n
        invariant
            n == spans@.len(),
            chars@ == para.text@,
            forall|a: int| 0 <= a < spans@.len() ==> (#[trigger] spans@[a]).start <= spans@[a].end <= chars@.len(),
            0 <= k <= n,
            out@.len() == k,
            forall|a: int|
                0 <= a < k ==> {
                    let d = #[trigger] out@[a];
                    &&& d.start_offset == spans@[a].start
                    &&& d.end_offset == spans@[a].end
                    &&& d.float_reduction == spans@[a].float_reduction
                    &&& d.para_index == para_idx
                    &&& d.text@ == para.text@.subrange(d.start_offset as int, d.end_offset as int)
                    &&& !d.is_page_break && !d.is_image && !d.is_table
                    &&& d.block_type == para.meta.block_type
                    &&& d.list_type == para.meta.list_type
                    &&& d.is_last_line == (a == n - 1)
                    &&& d.list_number == if a == 0 { list_number } else { None }
                },
        decreases n - k,
    {
        let sp = spans[k];
        out.push(DisplayLine {
            para_index: para_idx,
            start_offset: sp.start,
            end_offset: sp.end,
            text: string_of(&chars.as_slice()[sp.start..sp.end]),
            page_index: 0,
            column_index: 0,
            x_position: 0,
            y_position: 0,
            is_page_break: false,
            is_image: false,
            image_id: None,
            image_height: None,
            list_number: if k == 0 {
                list_number
            } else {
                None
            },
            is_last_line: k == n - 1,
            block_type: para.meta.block_type,
            list_type: para.meta.list_type,
            float_reduction: sp.float_reduction,
            is_table: false,
            table_id: None,
            table_layout: None,
        });
        k = k + 1;
    }
    assert(spans_of(out@) =~= spans@);
    out
}

/// What `layout_paragraph` makes of paragraph `para_idx`: its lines `r`,
/// the floats and the list counter before and after it, with `current`
/// lines laid out before it.
#[verifier::opaque]
pub open spec fn para_laid_out<M: TextMeasure>(
    m: &M,
    document: Document,
    config: LayoutConfig,
    para_idx: int,
    para: Paragraph,
    r: Seq<DisplayLine>,
    floats_before: Seq<ActiveFloat>,
    floats_after: Seq<ActiveFloat>,
    counter_before: int,
    counter_after: int,
    current: int,
) -> bool {
    &&& (r.len() >= 1)
    &&& (r.len() <= para.text@.len() + 1)
    &&& (forall|k: int| 0 <= k < r.len() ==> (#[trigger] r[k]).para_index == para_idx)
    &&& (r.last().is_last_line)
    &&& (forall|k: int| 0 <= k < r.len() - 1 ==> !(#[trigger] r[k]).is_last_line)
    &&& (para.page_break_spec() ==> r.len() == 1 && r[0].is_page_break && r[0].start_offset == 0 && r[0].end_offset == 1)
    &&& (!is_text_para(para) ==> r.len() == 1 && r[0].start_offset == 0 && r[0].list_number.is_none()
        && counter_after == counter_before)
    &&& (!is_text_para(para) && !para.page_break_spec() ==> r[0].end_offset == para.text@.len() && r[0].text@.len() == 0
        && !r[0].is_page_break && (r[0].is_image || r[0].is_table))
    &&& (floats_after == floats_before || (para.image_spec() && floats_after.drop_last()
        == floats_before && floats_after.last().start_line == current + 1
        && floats_after.last().y_start.is_none()))
    &&& (para.table_spec() && !para.page_break_spec() ==> {
        &&& r[0].is_table
        &&& (exists|t: int| is_first_table(document, t, para.marked_id())) ==> r[0].table_layout.is_some()
        &&& !(exists|t: int| is_first_table(document, t, para.marked_id())) ==> r[0].table_layout.is_none()
            && r[0].image_height == Some(0u32)
    })
    &&& (para.image_spec() && !para.page_break_spec() && !para.table_spec() ==> {
        &&& r[0].is_image
        &&& forall|i: int|
            #![trigger document.images@[i]]
            is_first_image(document, i, para.marked_id()) ==> {
                let img = document.images@[i];
                &&& r[0].image_height == Some(image_line_height(img, config.line_height_spec()))
                &&& (img.wrap_style.floats() && img.position_mode == ImagePositionMode::MoveWithText) ==> {
                    let f = floats_after.last();
                    &&& floats_after.drop_last() == floats_before
                    &&& f.start_line == current + 1
                    &&& f.end_line == sat_usize(
                        current + 1 + lines_for(
                            cropped_spec(img.height as int, img.crop_top as int, img.crop_bottom as int),
                            config.line_height_spec(),
                        ),
                    )
                    &&& f.width == if img.width < config.column_width_spec() {
                        img.width as int
                    } else {
                        config.column_width_spec()
                    }
                    &&& f.y_start.is_none() && f.y_end.is_none()
                    &&& f.side == (if img.horizontal_align == HorizontalAlign::Right {
                        FloatSide::Right
                    } else {
                        FloatSide::Left
                    })
                }
                &&& !(img.wrap_style.floats() && img.position_mode == ImagePositionMode::MoveWithText)
                    ==> floats_after == floats_before
            }
        &&& (forall|i: int| 0 <= i < document.images@.len() ==> (#[trigger] document.images@[i]).id@ != para.marked_id())
            ==> r[0].image_height == Some(0u32) && floats_after == floats_before
    })
    &&& (is_text_para(para) ==> {
        &&& counter_after == next_counter(counter_before, para.meta.list_type)
        &&& floats_after == floats_before
        &&& r[0].list_number == if para.meta.list_type == ListType::Numbered {
            Some(counter_after as usize)
        } else {
            None
        }
        &&& forall|k: int|
            0 <= k < r.len() ==> {
                let d = #[trigger] r[k];
                &&& !d.is_page_break && !d.is_image && !d.is_table
                &&& d.block_type == para.meta.block_type
                &&& d.list_type == para.meta.list_type
                &&& d.text@ == para.text@.subrange(d.start_offset as int, d.end_offset as int)
                &&& k > 0 ==> d.list_number.is_none()
                &&& para.text@.len() > 0 ==> d.start_offset < d.end_offset
            }
        &&& para.text@.len() == 0 ==> r.len() == 1 && r[0].start_offset == 0 && r[0].end_offset == 0
            && r[0].float_reduction == float_for_line(
            floats_before,
            current,
            config.line_height_spec(),
            config.column_width_spec(),
        )
        &&& para.text@.len() > 0 ==> wraps(
            m,
            para.text@,
            spans_of(r),
            para_base_width(config, para),
            floats_before,
            current,
            config.line_height_spec(),
            config.column_width_spec(),
            para_font_size(config, para),
            config.letter_spacing,
        )
    })
}

/// Lays out one paragraph into unpositioned display lines.
///
/// A page break is one line flagged as such. A table or image reference is
/// one line without text over the marker's range; a reference to a missing
/// table or image takes no height. A floating image that moves with the text
/// is registered over the lines that follow it. A text paragraph is wrapped
/// greedily, each line in the width its float leaves; numbered items count
/// on from `list_counter`, which other text paragraphs reset.
#[verifier::rlimit(100)]
pub fn layout_paragraph<M: TextMeasure>(
    para_idx: usize,
    para: &Paragraph,
    document: &Document,
    config: &LayoutConfig,
    m: &M,
    active_floats: &mut Vec<ActiveFloat>,
    list_counter: &mut usize,
    current_line_count: usize,
) -> (r: Vec<DisplayLine>)
    requires
        config.valid(),
        current_line_count + para.text@.len() + 1 <= usize::MAX,
        *old(list_counter) < usize::MAX,
    ensures
        para_laid_out(
            m,
            *document,
            *config,
            para_idx as int,
            *para,
            r@,
            old(active_floats)@,
            final(active_floats)@,
            *old(list_counter) as int,
            *final(list_counter) as int,
            current_line_count as int,
        ),
        r@.len() >= 1,
        r@.len() <= para.text@.len() + 1,
        forall|k: int| 0 <= k < r@.len() ==> (#[trigger] r@[k]).para_index == para_idx,
        *final(list_counter) <= *old(list_counter) + 1,
{
    reveal(para_laid_out);
    let meta = &para.meta;
    let text_len = para.text.as_str().unicode_len();
    if para.is_page_break() {
        let mut v: Vec<DisplayLine> = Vec::new();
        v.push(marker_line(para_idx, 1, meta.block_type, true, false, None, None, false, None, None));
        return v;
    }
    let line_height = config.line_height_px();
    let column_width = config.column_width();
    assert(column_width <= 0xffff_ffff) by (nonlinear_arith)
        requires
            config.content_width_spec() - config.column_gap * (config.columns - 1) >= 0,
            config.content_width_spec() <= 0xffff_ffff,
            config.columns >= 1,
            config.column_gap >= 0,
            column_width == (config.content_width_spec() - config.column_gap * (config.columns - 1)) / config.columns as int;
    if let Some(table_id) = para.table_id() {
        let mut v: Vec<DisplayLine> = Vec::new();
        match find_table(&document.tables, table_id) {
            Some(ti) => {
                assert(is_first_table(*document, ti as int, para.marked_id()));
                let tl = compute_table_layout(&document.tables[ti], config, m);
                let lines = saturate_u32(ceil_lines(tl.total_height, line_height));
                v.push(
                    marker_line(
                        para_idx,
                        text_len,
                        meta.block_type,
                        false,
                        false,
                        None,
                        Some(lines),
                        true,
                        Some(String::from_str(table_id)),
                        Some(tl),
                    ),
                );
            },
            None => {
                v.push(
                    marker_line(
                        para_idx,
                        text_len,
                        meta.block_type,
                        false,
                        false,
                        None,
                        Some(0),
                        true,
                        Some(String::from_str(table_id)),
                        None,
                    ),
                );
            },
        }
        return v;
    }
    if let Some(image_id) = para.image_id() {
        let mut v: Vec<DisplayLine> = Vec::new();
        match find_image(&document.images, image_id) {
            Some(ii) => {
                let image = &document.images[ii];
                assert(is_first_image(*document, ii as int, para.marked_id()));
                assert forall|i: int| #[trigger] is_first_image(*document, i, para.marked_id()) implies i == ii by {
                    if i < ii {
                        assert(document.images@[i].id@ != para.marked_id());
                    } else if i > ii {
                        assert(document.images@[ii as int].id@ != para.marked_id());
                    }
                }
                let clamped_width: u32 = if (image.width as i64) < column_width {
                    image.width
                } else {
                    column_width as u32
                };
                let image_height = image.cropped_height() as u64;
                let lines = ceil_lines(image_height, line_height);
                let height = if image.wrap_style.is_float() && image.position_mode == ImagePositionMode::MoveWithText {
                    let start_line = current_line_count + 1;
                    let side = align_to_float_side(image.horizontal_align);
                    active_floats.push(
                        ActiveFloat {
                            id: String::from_str(image_id),
                            start_line,
                            end_line: start_line.saturating_add(lines as usize),
                            width: clamped_width,
                            side,
                            page_index: None,
                            y_start: None,
                            y_end: None,
                            x_position: None,
                        },
                    );
                    assert(active_floats@.drop_last() =~= old(active_floats)@);
                    assert(active_floats@.last().side == (if image.horizontal_align == HorizontalAlign::Right {
                        FloatSide::Right
                    } else {
                        FloatSide::Left
                    }));
                    0
                } else if image.wrap_style.is_float() || image.wrap_style == ImageWrapStyle::Behind
                    || image.wrap_style == ImageWrapStyle::InFront {
                    0
                } else {
                    saturate_u32(lines)
                };
                v.push(
                    marker_line(
                        para_idx,
                        text_len,
                        meta.block_type,
                        false,
                        true,
                        Some(String::from_str(image_id)),
                        Some(height),
                        false,
                        None,
                        None,
                    ),
                );
            },
            None => {
                v.push(
                    marker_line(
                        para_idx,
                        text_len,
                        meta.block_type,
                        false,
                        true,
                        Some(String::from_str(image_id)),
                        Some(0),
                        false,
                        None,
                        None,
                    ),
                );
            },
        }
        return v;
    }
    let list_number = match meta.list_type {
        ListType::Numbered => {
            *list_counter = *list_counter + 1;
            Some(*list_counter)
        },
        _ => {
            *list_counter = 0;
            None
        },
    };
    let font_size = font_size_of(config, para);
    let indent: i64 = if meta.list_type != ListType::NoList {
        font_size as i64 * 3 / 2
    } else {
        0
    };
    let base = column_width - indent;
    let chars = chars_of(para.text.as_str());
    if chars.len() == 0 {
        assert(current_line_count as int * line_height as int <= 0xffff_ffff_ffff_ffff * MAX_LINE_HEIGHT) by (nonlinear_arith)
            requires current_line_count <= 0xffff_ffff_ffff_ffff, line_height <= MAX_LINE_HEIGHT;
        let estimated_y = current_line_count as i128 * line_height as i128;
        let fr = get_float_reduction(active_floats, current_line_count, estimated_y, line_height as i128, column_width);
        let mut spans: Vec<LineSpan> = Vec::new();
        spans.push(LineSpan { start: 0, end: 0, float_reduction: fr });
        let r = text_lines(para_idx, para, &chars, &spans, list_number);
        assert(spans_of(r@)[0] == spans@[0]);
        return r;
    }
    let spans = wrap_text_lines(
        m,
        &chars,
        base,
        active_floats,
        current_line_count,
        line_height,
        column_width,
        font_size,
        config.letter_spacing,
    );
    let r = text_lines(para_idx, para, &chars, &spans, list_number);
    assert forall|k: int| 0 <= k < r@.len() implies (#[trigger] r@[k]).start_offset < r@[k].end_offset by {
        assert(spans_of(r@)[k] == spans@[k]);
    }
    r
}

/// The characters of the paragraphs, plus one for each.
pub open spec fn doc_size(ps: Seq<Paragraph>) -> int
    decreases ps.len(),
{
    if ps.len() == 0 {
        0
    } else {
        doc_size(ps.drop_last()) + ps.last().text@.len() + 1
    }
}

/// Lines `a` and `b` take the same room in a column.
pub open spec fn same_extent(a: DisplayLine, b: DisplayLine) -> bool {
    &&& a.is_page_break == b.is_page_break
    &&& a.is_image == b.is_image
    &&& a.is_table == b.is_table
    &&& a.image_height == b.image_height
    &&& a.is_last_line == b.is_last_line
}

proof fn lemma_cursor_same(a: Seq<DisplayLine>, b: Seq<DisplayLine>, cfg: LayoutConfig, k: int)
    requires
        a.len() == b.len(),
        0 <= k <= a.len(),
        forall|j: int| 0 <= j < a.len() ==> same_extent(#[trigger] a[j], b[j]),
    ensures
        cursor_before(a, cfg, k) == cursor_before(b, cfg, k),
    decreases k,
{
    if k > 0 {
        lemma_cursor_same(a, b, cfg, k - 1);
        assert(same_extent(a[k - 1], b[k - 1]));
    }
}

/// Some line of `r` belongs to paragraph `i`.
pub open spec fn has_line_of(r: Seq<DisplayLine>, i: int) -> bool {
    exists|k: int| 0 <= k < r.len() && (#[trigger] r[k]).para_index == i
}

/// `r` is `u` with each line placed where the paginator puts it.
pub open spec fn placed_lines(u: Seq<DisplayLine>, r: Seq<DisplayLine>, cfg: LayoutConfig) -> bool {
    &&& r.len() == u.len()
    &&& forall|k: int|
        0 <= k < u.len() ==> {
            let p = place(cursor_before(u, cfg, k), #[trigger] u[k], cfg);
            placed_as(u[k], r[k], p.page, p.column, column_x(cfg, p.column), p.y)
        }
}

/// Line `dl` sits where the paginator puts it.
pub open spec fn well_placed(lines: Seq<DisplayLine>, cfg: LayoutConfig, k: int) -> bool {
    let p = place(cursor_before(lines, cfg, k), lines[k], cfg);
    &&& lines[k].page_index == p.page as usize
    &&& lines[k].column_index == p.column as usize
    &&& lines[k].y_position == p.y as u64
    &&& lines[k].x_position == column_x(cfg, p.column) as u64
}

/// An image that floats at a fixed position on the page.
pub open spec fn is_fixed_image(img: DocumentImage) -> bool {
    img.wrap_style.floats() && img.position_mode == ImagePositionMode::FixedPosition && img.y.is_some()
}

/// The document has no image floating at a fixed position.
pub open spec fn no_fixed_images(d: Document) -> bool {
    forall|i: int| 0 <= i < d.images@.len() ==> !is_fixed_image(#[trigger] d.images@[i])
}

/// `u` is the paragraphs' lines laid out one after the other: paragraph `i`
/// has the lines `u[starts[i]..starts[i + 1]]`, it is laid out with the
/// floats `fl[i]` and the list counter `cs[i]` that the paragraphs before it
/// left, and it leaves `fl[i + 1]` and `cs[i + 1]`. The floats at the start
/// are fixed ones, and none where the document has no fixed image.
pub open spec fn layout_chain<M: TextMeasure>(
    m: &M,
    document: Document,
    config: LayoutConfig,
    u: Seq<DisplayLine>,
    starts: Seq<int>,
    fl: Seq<Seq<ActiveFloat>>,
    cs: Seq<int>,
) -> bool {
    let n = document.paragraphs@.len();
    &&& starts.len() == n + 1
    &&& fl.len() == n + 1
    &&& cs.len() == n + 1
    &&& starts[0] == 0
    &&& starts[n as int] == u.len()
    &&& cs[0] == 0
    &&& forall|j: int| 0 <= j < fl[0].len() ==> is_fixed(#[trigger] fl[0][j])
    &&& no_fixed_images(document) ==> fl[0].len() == 0
    &&& forall|i: int|
        #![trigger starts[i]]
        0 <= i < n ==> starts[i] < starts[i + 1] && para_laid_out(
            m,
            document,
            config,
            i,
            document.paragraphs@[i],
            u.subrange(starts[i], starts[i + 1]),
            fl[i],
            fl[i + 1],
            cs[i],
            cs[i + 1],
            starts[i],
        )
}

/// The floats with a fixed position, which hold whatever the flow.
fn fixed_floats(document: &Document, config: &LayoutConfig) -> (r: Vec<ActiveFloat>)
    requires
        config.valid(),
    ensures
        forall|k: int| 0 <= k < r@.len() ==> is_fixed(#[trigger] r@[k]),
        no_fixed_images(*document) ==> r@.len() == 0,
{
    let column_width = config.column_width();
    assert(column_width <= 0xffff_ffff) by (nonlinear_arith)
        requires
            config.content_width_spec() - config.column_gap * (config.columns - 1) >= 0,
            config.content_width_spec() <= 0xffff_ffff,
            config.columns >= 1,
            config.column_gap >= 0,
            column_width == (config.content_width_spec() - config.column_gap * (config.columns - 1)) / config.columns as int;
    let mut out: Vec<ActiveFloat> = Vec::new();
    let mut i: usize = 0;
    while i < document.images.len()
        invariant
            0 <= i <= document.images@.len(),
            0 <= column_width <= 0xffff_ffff,
            forall|k: int| 0 <= k < out@.len() ==> is_fixed(#[trigger] out@[k]),
            (forall|j: int| 0 <= j < i ==> !is_fixed_image(#[trigger] document.images@[j])) ==> out@.len() == 0,
        decreases document.images@.len() - i,
    {
        let image = &document.images[i];
        if image.wrap_style.is_float() && image.position_mode == ImagePositionMode::FixedPosition {
            if let Some(y) = image.y {
                let x = match image.x {
                    Some(x) => x,
                    None => 0,
                };
                let height = image.cropped_height();
                let width: u32 = if (image.width as i64) < column_width {
                    image.width
                } else {
                    column_width as u32
                };
                let side = if (x as i128) * 2 + (width as i128) < column_width as i128 {
                    FloatSide::Left
                } else {
                    FloatSide::Right
                };
                let y_end: i64 = if y as i128 + height as i128 > i64::MAX as i128 {
                    i64::MAX
                } else {
                    (y as i128 + height as i128) as i64
                };
                out.push(
                    ActiveFloat {
                        id: String::from_str(image.id.as_str()),
                        start_line: 0,
                        end_line: 0,
                        width,
                        side,
                        page_index: image.page_index,
                        y_start: Some(y),
                        y_end: Some(y_end),
                        x_position: Some(x),
                    },
                );
            }
        }
        i = i + 1;
    }
    out
}

/// What `compute_layout` gives for a document: lines in paragraph order,
/// every paragraph present, each laid out as `layout_paragraph` does with
/// the floats and list counter carried from one paragraph to the next, and
/// each placed where the paginator puts it.
pub open spec fn laid_out_document<M: TextMeasure>(m: &M, document: Document, config: LayoutConfig, r: Seq<DisplayLine>) -> bool {
    &&& (forall|k: int| 0 <= k < r.len() ==> (#[trigger] r[k]).para_index < document.paragraphs@.len())
    &&& (forall|k: int| 0 <= k < r.len() - 1 ==> #[trigger] r[k].para_index <= r[k + 1].para_index)
    &&& (forall|k: int| 0 <= k < r.len() ==> #[trigger] well_placed(r, config, k))
    &&& (r.len() >= document.paragraphs@.len())
    &&& (forall|i: int| 0 <= i < document.paragraphs@.len() ==> #[trigger] has_line_of(r, i))
    &&& (exists|u: Seq<DisplayLine>, starts: Seq<int>, fl: Seq<Seq<ActiveFloat>>, cs: Seq<int>|
        #[trigger] layout_chain(m, document, config, u, starts, fl, cs) && placed_lines(u, r, config))
}

/// Lays out a whole document: fixed floats first, then each paragraph in
/// order, then the pagination sweep.
#[verifier::rlimit(100)]
pub fn compute_layout<M: TextMeasure>(document: &Document, config: &LayoutConfig, m: &M) -> (r: Vec<DisplayLine>)
    requires
        config.valid(),
        doc_size(document.paragraphs@) <= usize::MAX,
    ensures
        laid_out_document(m, *document, *config, r@),
{
    let mut active_floats = fixed_floats(document, config);
    let mut counter: usize = 0;
    let mut lines: Vec<DisplayLine> = Vec::new();
    let n = document.paragraphs.len();
    let ghost mut starts: Seq<int> = seq![0];
    let ghost mut fl: Seq<Seq<ActiveFloat>> = seq![active_floats@];
    let ghost mut cs: Seq<int> = seq![0];
    let mut i: usize = 0;
    while i < n
        invariant
            starts.len() == i + 1,
            fl.len() == i + 1,
            cs.len() == i + 1,
            starts[0] == 0,
            starts[i as int] == lines@.len(),
            cs[0] == 0,
            cs[i as int] == counter,
            fl[i as int] == active_floats@,
            forall|k: int| 0 <= k <= i ==> 0 <= #[trigger] starts[k] <= lines@.len(),
            forall|j: int| 0 <= j < fl[0].len() ==> is_fixed(#[trigger] fl[0][j]),
            no_fixed_images(*document) ==> fl[0].len() == 0,
            forall|k: int|
                #![trigger starts[k]]
                0 <= k < i ==> starts[k] < starts[k + 1] && para_laid_out(
                    m,
                    *document,
                    *config,
                    k,
                    document.paragraphs@[k],
                    lines@.subrange(starts[k], starts[k + 1]),
                    fl[k],
                    fl[k + 1],
                    cs[k],
                    cs[k + 1],
                    starts[k],
                ),
            config.valid(),
            n == document.paragraphs@.len(),
            doc_size(document.paragraphs@) <= usize::MAX,
            0 <= i <= n,
            counter <= i,
            lines@.len() <= doc_size(document.paragraphs@.subrange(0, i as int)),
            lines@.len() >= i,
            forall|k: int| 0 <= k < lines@.len() ==> (#[trigger] lines@[k]).para_index < i,
            forall|k: int| 0 <= k < lines@.len() - 1 ==> #[trigger] lines@[k].para_index <= lines@[k + 1].para_index,
        decreases n - i,
    {
        proof {
            lemma_doc_size_prefix(document.paragraphs@, i as int + 1);
            assert(document.paragraphs@.subrange(0, i + 1).drop_last() =~= document.paragraphs@.subrange(0, i as int));
        }
        let para = &document.paragraphs[i];
        let current = lines.len();
        let ghost floats_before = active_floats@;
        let ghost counter_before = counter;
        let mut more = layout_paragraph(i, para, document, config, m, &mut active_floats, &mut counter, current);
        let ghost before = lines@;
        let ghost added = more@;
        lines.append(&mut more);
        assert(lines@ == before + added);
        proof {
            assert forall|k: int| 0 <= k < i implies #[trigger] lines@.subrange(starts[k], starts[k + 1]) == before.subrange(
                starts[k],
                starts[k + 1],
            ) by {
                assert(starts[k] < starts[k + 1]);
                assert(starts[k + 1] <= before.len());
                assert(lines@.subrange(starts[k], starts[k + 1]) =~= before.subrange(starts[k], starts[k + 1]));
            }
            assert(lines@.subrange(current as int, lines@.len() as int) =~= added);
            starts = starts.push(lines@.len() as int);
            fl = fl.push(active_floats@);
            cs = cs.push(counter as int);
            assert forall|k: int|
                #![trigger starts[k]]
                0 <= k < i + 1 implies starts[k] < starts[k + 1] && para_laid_out(
                    m,
                    *document,
                    *config,
                    k,
                    document.paragraphs@[k],
                    lines@.subrange(starts[k], starts[k + 1]),
                    fl[k],
                    fl[k + 1],
                    cs[k],
                    cs[k + 1],
                    starts[k],
                ) by {
                if k < i {
                    assert(lines@.subrange(starts[k], starts[k + 1]) == before.subrange(starts[k], starts[k + 1]));
                } else {
                    assert(starts[k] == current);
                    assert(fl[k] == floats_before);
                    assert(cs[k] == counter_before);
                }
            }
        }
        assert forall|k: int| 0 <= k < lines@.len() - 1 implies #[trigger] lines@[k].para_index <= lines@[k + 1].para_index by {
            if k + 1 < before.len() {
                assert(lines@[k] == before[k] && lines@[k + 1] == before[k + 1]);
            } else if k + 1 == before.len() {
                assert(lines@[k] == before[k]);
                assert(lines@[k + 1] == added[0]);
            } else {
                assert(lines@[k] == added[k - before.len()]);
                assert(lines@[k + 1] == added[k + 1 - before.len()]);
            }
        }
        assert forall|k: int| 0 <= k < lines@.len() implies (#[trigger] lines@[k]).para_index < i + 1 by {
            if k < before.len() {
                assert(lines@[k] == before[k]);
            } else {
                assert(lines@[k] == added[k - before.len()]);
            }
        }
        i = i + 1;
    }
    let ghost unplaced = lines@;
    assert(layout_chain(m, *document, *config, unplaced, starts, fl, cs));
    assign_page_positions(&mut lines, config);
    assert(placed_lines(unplaced, lines@, *config));
    proof {
        reveal(placed_as);
        assert forall|i: int| 0 <= i < n implies #[trigger] has_line_of(lines@, i) by {
            reveal(para_laid_out);
            assert(starts[i] < starts[i + 1]);
            let k = starts[i];
            let sl = unplaced.subrange(starts[i], starts[i + 1]);
            assert(sl[0] == unplaced[k]);
            assert(sl[0].para_index == i);
            let p = place(cursor_before(unplaced, *config, k), unplaced[k], *config);
            assert(placed_as(unplaced[k], lines@[k], p.page, p.column, column_x(*config, p.column), p.y));
            assert(lines@[k].para_index == i);
        }
        assert forall|j: int| 0 <= j < unplaced.len() implies same_extent(#[trigger] unplaced[j], lines@[j]) by {
            let p = place(cursor_before(unplaced, *config, j), unplaced[j], *config);
            assert(placed_as(unplaced[j], lines@[j], p.page, p.column, column_x(*config, p.column), p.y));
        }
        assert forall|k: int| 0 <= k < lines@.len() implies #[trigger] well_placed(lines@, *config, k) by {
            lemma_cursor_same(unplaced, lines@, *config, k);
            let p = place(cursor_before(unplaced, *config, k), unplaced[k], *config);
            assert(placed_as(unplaced[k], lines@[k], p.page, p.column, column_x(*config, p.column), p.y));
            assert(same_extent(unplaced[k], lines@[k]));
        }
        assert forall|k: int| 0 <= k < lines@.len() implies (#[trigger] lines@[k]).para_index < n by {
            let p = place(cursor_before(unplaced, *config, k), unplaced[k], *config);
            assert(placed_as(unplaced[k], lines@[k], p.page, p.column, column_x(*config, p.column), p.y));
        }
        assert forall|k: int| 0 <= k < lines@.len() - 1 implies #[trigger] lines@[k].para_index <= lines@[k + 1].para_index by {
            let p = place(cursor_before(unplaced, *config, k), unplaced[k], *config);
            assert(placed_as(unplaced[k], lines@[k], p.page, p.column, column_x(*config, p.column), p.y));
            let q = place(cursor_before(unplaced, *config, k + 1), unplaced[k + 1], *config);
            assert(placed_as(unplaced[k + 1], lines@[k + 1], q.page, q.column, column_x(*config, q.column), q.y));
        }
    }
    lines
}

pub proof fn lemma_doc_size_prefix(ps: Seq<Paragraph>, i: int)
    requires
        0 <= i <= ps.len(),
    ensures
        doc_size(ps.subrange(0, i)) <= doc_size(ps),
    decreases ps.len() - i,
{
    if i < ps.len() {
        lemma_doc_size_prefix(ps, i + 1);
        assert(ps.subrange(0, i + 1).drop_last() =~= ps.subrange(0, i));
    } else {
        assert(ps.subrange(0, i) =~= ps);
    }
}

} // verus!
