//! Tables: a grid of cells with rectangular merges.
//!
//! A merge origin is an uncovered cell whose span is more than one row or
//! column; every other cell of its footprint is covered and points at it.
use vstd::prelude::*;
use crate::document::{TableWidthMode, TextAlign};
use crate::style::{copy_opt, TextStyle};

verus! {

/// The span a cell has unless it is a merge origin.
pub fn default_span() -> (r: usize)
    ensures
        r == 1,
{
    1
}

/// The border color of a new table.
pub fn default_border_color() -> (r: String)
    ensures
        r@ == seq!['#', '0', '0', '0', '0', '0', '0'],
{
    let r = String::from_str("#000000");
    proof {
        reveal_strlit("#000000");
    }
    r
}

/// A single table cell
pub struct TableCell {
    pub text: String,
    pub styles: Vec<TextStyle>,
    pub align: TextAlign,
    pub background: Option<String>,
    pub col_span: usize,
    pub row_span: usize,
    /// Whether a merged cell covers this one (it is then not rendered).
    pub covered: bool,
    /// If covered, the row of the merge origin.
    pub covered_by_row: Option<usize>,
    /// If covered, the column of the merge origin.
    pub covered_by_col: Option<usize>,
}

impl TableCell {
    pub open spec fn origin(self) -> bool {
        !self.covered && (self.col_span > 1 || self.row_span > 1)
    }

    /// A plain uncovered cell of span 1×1 with no styles or background.
    pub open spec fn plain_with(self, text: Seq<char>) -> bool {
        &&& self.text@ == text
        &&& self.styles@.len() == 0
        &&& self.align == TextAlign::Left
        &&& self.background.is_none()
        &&& self.col_span == 1
        &&& self.row_span == 1
        &&& !self.covered
        &&& self.covered_by_row.is_none()
        &&& self.covered_by_col.is_none()
    }

    /// An empty cell.
    pub fn new() -> (r: Self)
        ensures
            r.plain_with(Seq::empty()),
    {
        TableCell {
            text: String::new(),
            styles: Vec::new(),
            align: TextAlign::Left,
            background: None,
            col_span: 1,
            row_span: 1,
            covered: false,
            covered_by_row: None,
            covered_by_col: None,
        }
    }

    /// A cell holding `text`.
    pub fn with_text(text: String) -> (r: Self)
        ensures
            r.plain_with(text@),
    {
        TableCell {
            text,
            styles: Vec::new(),
            align: TextAlign::Left,
            background: None,
            col_span: 1,
            row_span: 1,
            covered: false,
            covered_by_row: None,
            covered_by_col: None,
        }
    }

    /// A cell covered by the merge whose origin is at the given row and column.
    pub fn covered(covered_by_row: usize, covered_by_col: usize) -> (r: Self)
        ensures
            r.text@.len() == 0,
            r.styles@.len() == 0,
            r.align == TextAlign::Left,
            r.background.is_none(),
            r.col_span == 1,
            r.row_span == 1,
            r.covered,
            r.covered_by_row == Some(covered_by_row),
            r.covered_by_col == Some(covered_by_col),
    {
        TableCell {
            text: String::new(),
            styles: Vec::new(),
            align: TextAlign::Left,
            background: None,
            col_span: 1,
            row_span: 1,
            covered: true,
            covered_by_row: Some(covered_by_row),
            covered_by_col: Some(covered_by_col),
        }
    }

    /// Whether this cell is the origin of a merged region.
    pub fn is_merge_origin(&self) -> (r: bool)
        ensures
            r == self.origin(),
    {
        !self.covered && (self.col_span > 1 || self.row_span > 1)
    }
}

impl Default for TableCell {
    fn default() -> (r: Self)
        ensures
            r.plain_with(Seq::empty()),
    {
        TableCell::new()
    }
}

/// A table row
pub struct TableRow {
    pub cells: Vec<TableCell>,
    /// Minimum row height
    pub min_height: Option<u32>,
}

impl TableRow {
    /// A row of `num_cols` empty cells.
    pub fn new(num_cols: usize) -> (r: Self)
        ensures
            r.cells@.len() == num_cols,
            forall|c: int| 0 <= c < num_cols ==> (#[trigger] r.cells@[c]).plain_with(Seq::empty()),
            r.min_height.is_none(),
    {
        let mut cells: Vec<TableCell> = Vec::new();
        let mut i: usize = 0;
        while i < num_cols
            invariant
                i <= num_cols,
                cells@.len() == i,
                forall|c: int| 0 <= c < i ==> (#[trigger] cells@[c]).plain_with(Seq::empty()),
            decreases num_cols - i,
        {
            cells.push(TableCell::new());
            i = i + 1;
        }
        TableRow { cells, min_height: None }
    }
}

/// A table in the document
pub struct DocumentTable {
    pub id: String,
    pub rows: Vec<TableRow>,
    /// Column widths: pixels in `Fixed` mode, shares otherwise.
    pub column_widths: Vec<u32>,
    pub border_width: u32,
    pub border_color: String,
    pub width_mode: TableWidthMode,
}

/// `acc` with the text of `cell` appended, as merging collects it: covered
/// and empty cells add nothing, and texts are joined by line breaks.
pub open spec fn join_cell_text(acc: Seq<char>, cell: TableCell) -> Seq<char> {
    if cell.covered || cell.text@.len() == 0 {
        acc
    } else if acc.len() == 0 {
        cell.text@
    } else {
        acc + seq!['\n'] + cell.text@
    }
}

/// `cell` holds `text`, the given span and cover, and otherwise what `old`
/// holds.
pub open spec fn cell_set(
    old: TableCell,
    cell: TableCell,
    text: Seq<char>,
    row_span: int,
    col_span: int,
    covered: bool,
    by_row: Option<usize>,
    by_col: Option<usize>,
) -> bool {
    &&& cell.text@ == text
    &&& cell.styles == old.styles
    &&& cell.align == old.align
    &&& cell.background == old.background
    &&& cell.row_span == row_span
    &&& cell.col_span == col_span
    &&& cell.covered == covered
    &&& cell.covered_by_row == by_row
    &&& cell.covered_by_col == by_col
}

pub open spec fn in_rect(r: int, c: int, r0: int, c0: int, r1: int, c1: int) -> bool {
    r0 <= r <= r1 && c0 <= c <= c1
}

/// Whether `cell`, at row `r` and column `c` inside the rectangle, belongs to
/// a merge that reaches outside it.
pub open spec fn blocks_merge(cell: TableCell, r: int, c: int, r0: int, c0: int, r1: int, c1: int) -> bool {
    ||| (cell.covered && cell.covered_by_row.is_some() && cell.covered_by_col.is_some() && !in_rect(
        cell.covered_by_row.unwrap() as int,
        cell.covered_by_col.unwrap() as int,
        r0,
        c0,
        r1,
        c1,
    ))
    ||| (cell.origin() && (r + cell.row_span - 1 > r1 || c + cell.col_span - 1 > c1))
}

fn cell_blocks_merge(cell: &TableCell, r: usize, c: usize, r0: usize, c0: usize, r1: usize, c1: usize) -> (b: bool)
    requires
        in_rect(r as int, c as int, r0 as int, c0 as int, r1 as int, c1 as int),
        r1 < usize::MAX,
        c1 < usize::MAX,
    ensures
        b == blocks_merge(*cell, r as int, c as int, r0 as int, c0 as int, r1 as int, c1 as int),
{
    if cell.covered {
        if let (Some(by_row), Some(by_col)) = (cell.covered_by_row, cell.covered_by_col) {
            if !(r0 <= by_row && by_row <= r1 && c0 <= by_col && by_col <= c1) {
                return true;
            }
        }
    }
    cell.is_merge_origin() && (cell.row_span > r1 - r + 1 || cell.col_span > c1 - c + 1)
}

/// Makes `cell` the origin of a merge of the given span, holding `text`.
fn make_origin(cell: &mut TableCell, text: String, row_span: usize, col_span: usize)
    ensures
        cell_set(*old(cell), *final(cell), text@, row_span as int, col_span as int, false, None, None),
{
    cell.text = text;
    cell.row_span = row_span;
    cell.col_span = col_span;
    cell.covered = false;
    cell.covered_by_row = None;
    cell.covered_by_col = None;
}

/// Makes `cell` a covered cell of the merge whose origin is at `(row, col)`.
fn make_covered(cell: &mut TableCell, row: usize, col: usize)
    ensures
        cell_set(*old(cell), *final(cell), Seq::empty(), 1, 1, true, Some(row), Some(col)),
{
    cell.text = String::new();
    cell.covered = true;
    cell.covered_by_row = Some(row);
    cell.covered_by_col = Some(col);
    cell.row_span = 1;
    cell.col_span = 1;
}

impl DocumentTable {
    pub open spec fn num_rows_spec(&self) -> int {
        self.rows@.len() as int
    }

    pub open spec fn num_cols_spec(&self) -> int {
        self.column_widths@.len() as int
    }

    pub open spec fn cell(&self, r: int, c: int) -> TableCell {
        self.rows@[r].cells@[c]
    }

    pub open spec fn has_cell(&self, r: int, c: int) -> bool {
        0 <= r < self.rows@.len() && 0 <= c < self.rows@[r].cells@.len()
    }

    /// Every row has one cell per column.
    pub open spec fn is_grid(&self) -> bool {
        forall|r: int|
            0 <= r < self.rows@.len() ==> (#[trigger] self.rows@[r]).cells@.len()
                == self.column_widths@.len()
    }

    /// `self` and `o` have the same shape and everything but the cells'
    /// contents in common.
    pub open spec fn same_frame(&self, o: &DocumentTable) -> bool {
        &&& self.id == o.id
        &&& self.column_widths == o.column_widths
        &&& self.border_width == o.border_width
        &&& self.border_color == o.border_color
        &&& self.width_mode == o.width_mode
        &&& self.rows@.len() == o.rows@.len()
        &&& forall|r: int|
            0 <= r < self.rows@.len() ==> (#[trigger] self.rows@[r]).cells@.len()
                == o.rows@[r].cells@.len() && self.rows@[r].min_height == o.rows@[r].min_height
    }

    /// Whether the rectangle from `(r0, c0)` to `(r1, c1)` (inclusive) can be
    /// merged.
    pub open spec fn can_merge(&self, r0: int, c0: int, r1: int, c1: int) -> bool {
        &&& r1 < self.num_rows_spec()
        &&& c1 < self.num_cols_spec()
        &&& r0 <= r1
        &&& c0 <= c1
        &&& forall|r: int, c: int|
            in_rect(r, c, r0, c0, r1, c1) ==> !blocks_merge(#[trigger] self.cell(r, c), r, c, r0, c0, r1, c1)
    }

    /// The text collected from the cells before `(r, c)`, in row-major order
    /// over the columns `c0..=c1` from row `r0` on.
    pub open spec fn merge_text_before(&self, r0: int, c0: int, c1: int, r: int, c: int) -> Seq<char>
        decreases r - r0, c - c0,
    {
        if r < r0 || (r == r0 && c <= c0) {
            Seq::empty()
        } else if c <= c0 {
            self.merge_text_before(r0, c0, c1, r - 1, c1 + 1)
        } else {
            join_cell_text(self.merge_text_before(r0, c0, c1, r, c - 1), self.cell(r, c - 1))
        }
    }

    /// The text a merge of the rectangle gives its origin.
    pub open spec fn merge_text(&self, r0: int, c0: int, r1: int, c1: int) -> Seq<char> {
        self.merge_text_before(r0, c0, c1, r1 + 1, c0)
    }

    /// What a merge of the rectangle makes of the cell at `(r, c)`.
    pub open spec fn merged_cell(
        &self,
        r0: int,
        c0: int,
        r1: int,
        c1: int,
        text: Seq<char>,
        r: int,
        c: int,
        cell: TableCell,
    ) -> bool {
        let old = self.cell(r, c);
        if r == r0 && c == c0 {
            cell_set(old, cell, text, r1 - r0 + 1, c1 - c0 + 1, false, None, None)
        } else if in_rect(r, c, r0, c0, r1, c1) {
            cell_set(old, cell, Seq::empty(), 1, 1, true, Some(r0 as usize), Some(c0 as usize))
        } else {
            cell == old
        }
    }

    /// The number of columns
    pub fn num_cols(&self) -> (r: usize)
        ensures
            r == self.num_cols_spec(),
    {
        self.column_widths.len()
    }

    /// The number of rows
    pub fn num_rows(&self) -> (r: usize)
        ensures
            r == self.num_rows_spec(),
    {
        self.rows.len()
    }

    /// The cell at the given position, if there is one.
    pub fn get_cell(&self, row: usize, col: usize) -> (r: Option<&TableCell>)
        ensures
            r.is_some() == self.has_cell(row as int, col as int),
            r.is_some() ==> *r.unwrap() == self.cell(row as int, col as int),
    {
        if row < self.rows.len() && col < self.rows[row].cells.len() {
            Some(&self.rows[row].cells[col])
        } else {
            None
        }
    }

    /// Merges the cells of the rectangle from `(start_row, start_col)` to
    /// `(end_row, end_col)`, inclusive, into its top-left cell. Fails, and
    /// changes nothing, where the rectangle is out of bounds or reversed, or
    /// cuts through another merge.
    pub fn merge_cells(&mut self, start_row: usize, start_col: usize, end_row: usize, end_col: usize) -> (ok: bool)
        requires
            old(self).is_grid(),
        ensures
            merge_post(*old(self), *final(self), start_row as int, start_col as int, end_row as int, end_col as int, ok),
    {
        let r0 = start_row;
        let c0 = start_col;
        let r1 = end_row;
        let c1 = end_col;
        if end_row >= self.num_rows() || end_col >= self.num_cols() {
            return false;
        }
        if start_row > end_row || start_col > end_col {
            return false;
        }
        assert(r1 < usize::MAX && c1 < usize::MAX);
        let mut r = r0;
        while r <= r1
            invariant
                *self == *old(self),
                r0 == start_row && c0 == start_col && r1 == end_row && c1 == end_col,
                self.is_grid(),
                r1 < self.num_rows_spec(),
                c1 < self.num_cols_spec(),
                r0 <= r <= r1 + 1,
                c0 <= c1,
                r1 < usize::MAX,
                c1 < usize::MAX,
                forall|i: int, j: int|
                    in_rect(i, j, r0 as int, c0 as int, r - 1, c1 as int) ==> !blocks_merge(
                        #[trigger] self.cell(i, j),
                        i,
                        j,
                        r0 as int,
                        c0 as int,
                        r1 as int,
                        c1 as int,
                    ),
            decreases r1 + 1 - r,
        {
            let mut c = c0;
            while c <= c1
                invariant
                    *self == *old(self),
                    r0 == start_row && c0 == start_col && r1 == end_row && c1 == end_col,
                    self.is_grid(),
                    r1 < self.num_rows_spec(),
                    c1 < self.num_cols_spec(),
                    r0 <= r <= r1,
                    c0 <= c <= c1 + 1,
                    r1 < usize::MAX,
                    c1 < usize::MAX,
                    forall|i: int, j: int|
                        in_rect(i, j, r0 as int, c0 as int, r - 1, c1 as int) ==> !blocks_merge(
                            #[trigger] self.cell(i, j),
                            i,
                            j,
                            r0 as int,
                            c0 as int,
                            r1 as int,
                            c1 as int,
                        ),
                    forall|j: int|
                        c0 <= j < c ==> !blocks_merge(
                            #[trigger] self.cell(r as int, j),
                            r as int,
                            j,
                            r0 as int,
                            c0 as int,
                            r1 as int,
                            c1 as int,
                        ),
                decreases c1 + 1 - c,
            {
                assert(self.rows@[r as int].cells@.len() == self.column_widths@.len());
                if cell_blocks_merge(&self.rows[r].cells[c], r, c, r0, c0, r1, c1) {
                    assert(blocks_merge(old(self).cell(r as int, c as int), r as int, c as int, r0 as int, c0 as int, r1 as int, c1 as int));
                    assert(in_rect(r as int, c as int, r0 as int, c0 as int, r1 as int, c1 as int));
                    return false;
                }
                c = c + 1;
            }
            r = r + 1;
        }
        let ghost old_t = *self;
        assert(old_t.can_merge(r0 as int, c0 as int, r1 as int, c1 as int));
        let mut combined = String::new();
        let mut r = r0;
        while r <= r1
            invariant
                *self == old_t,
                old_t == *old(self),
                old_t.can_merge(r0 as int, c0 as int, r1 as int, c1 as int),
                self.is_grid(),
                r1 < self.num_rows_spec(),
                c1 < self.num_cols_spec(),
                r0 <= r <= r1 + 1,
                c0 <= c1,
                r1 < usize::MAX,
                c1 < usize::MAX,
                combined@ == self.merge_text_before(r0 as int, c0 as int, c1 as int, r as int, c0 as int),
            decreases r1 + 1 - r,
        {
            let mut c = c0;
            assert(r > r0 ==> self.merge_text_before(r0 as int, c0 as int, c1 as int, r as int, c0 as int)
                == self.merge_text_before(r0 as int, c0 as int, c1 as int, r - 1, c1 + 1));
            while c <= c1
                invariant
                    *self == old_t,
                    old_t == *old(self),
                    old_t.can_merge(r0 as int, c0 as int, r1 as int, c1 as int),
                    self.is_grid(),
                    r1 < self.num_rows_spec(),
                    c1 < self.num_cols_spec(),
                    r0 <= r <= r1,
                    c0 <= c <= c1 + 1,
                    r1 < usize::MAX,
                    c1 < usize::MAX,
                    combined@ == self.merge_text_before(r0 as int, c0 as int, c1 as int, r as int, c as int),
                decreases c1 + 1 - c,
            {
                assert(self.rows@[r as int].cells@.len() == self.column_widths@.len());
                let cell = &self.rows[r].cells[c];
                if !cell.covered && !cell.text.as_str().is_empty() {
                    if !combined.as_str().is_empty() {
                        combined.append("\n");
                        proof {
                            reveal_strlit("\n");
                        }
                    }
                    combined.append(cell.text.as_str());
                }
                proof {
                    if cell.text@.len() == 0 {
                        assert(cell.text@ == Seq::<char>::empty());
                    }
                }
                c = c + 1;
            }
            r = r + 1;
        }
        let ghost text = combined@;
        let mut r = r0;
        while r <= r1
            invariant
                self.same_frame(&old_t),
                old_t == *old(self),
                old_t.can_merge(r0 as int, c0 as int, r1 as int, c1 as int),
                old_t.is_grid(),
                r1 < old_t.num_rows_spec(),
                c1 < old_t.num_cols_spec(),
                r0 <= r <= r1 + 1,
                c0 <= c1,
                r1 < usize::MAX,
                c1 < usize::MAX,
                text == old_t.merge_text(r0 as int, c0 as int, r1 as int, c1 as int),
                combined@ == text,
                forall|i: int, j: int|
                    #![trigger self.cell(i, j)]
                    old_t.has_cell(i, j) ==> if i < r {
                        old_t.merged_cell(r0 as int, c0 as int, r1 as int, c1 as int, text, i, j, self.cell(i, j))
                    } else {
                        self.cell(i, j) == old_t.cell(i, j)
                    },
            decreases r1 + 1 - r,
        {
            let mut c = c0;
            while c <= c1
                invariant
                    self.same_frame(&old_t),
                    old_t == *old(self),
                    old_t.can_merge(r0 as int, c0 as int, r1 as int, c1 as int),
                    old_t.is_grid(),
                    r1 < old_t.num_rows_spec(),
                    c1 < old_t.num_cols_spec(),
                    r0 <= r <= r1,
                    c0 <= c <= c1 + 1,
                    r1 < usize::MAX,
                    c1 < usize::MAX,
                    combined@ == text,
                    forall|i: int, j: int|
                        #![trigger self.cell(i, j)]
                        old_t.has_cell(i, j) ==> if i < r || (i == r && c0 <= j < c) {
                            old_t.merged_cell(r0 as int, c0 as int, r1 as int, c1 as int, text, i, j, self.cell(i, j))
                        } else {
                            self.cell(i, j) == old_t.cell(i, j)
                        },
                decreases c1 + 1 - c,
            {
                assert(old_t.rows@[r as int].cells@.len() == old_t.column_widths@.len());
                let ghost prev = *self;
                if r == r0 && c == c0 {
                    let t = String::from_str(combined.as_str());
                    make_origin(&mut self.rows[r].cells[c], t, r1 - r0 + 1, c1 - c0 + 1);
                } else {
                    make_covered(&mut self.rows[r].cells[c], r0, c0);
                }
                assert forall|i: int, j: int|
                    old_t.has_cell(i, j) && !(i == r && j == c) implies #[trigger] self.cell(i, j) == prev.cell(i, j) by {
                    if i == r {
                        assert(self.rows@[i].cells@[j] == prev.rows@[i].cells@[j]);
                    } else {
                        assert(self.rows@[i] == prev.rows@[i]);
                    }
                }
                c = c + 1;
            }
            r = r + 1;
        }
        true
    }

    /// What splitting the origin at `(row, col)` makes of the cell at `(i, j)`.
    pub open spec fn split_result(&self, row: int, col: int, i: int, j: int, cell: TableCell) -> bool {
        let o = self.cell(row, col);
        let old = self.cell(i, j);
        if i == row && j == col {
            cell_set(old, cell, old.text@, 1, 1, old.covered, old.covered_by_row, old.covered_by_col)
        } else if row <= i < row + o.row_span && col <= j < col + o.col_span {
            &&& cell.text == old.text
            &&& cell.styles == old.styles
            &&& cell.align == old.align
            &&& cell.background == o.background
            &&& cell.row_span == old.row_span
            &&& cell.col_span == old.col_span
            &&& !cell.covered
            &&& cell.covered_by_row.is_none()
            &&& cell.covered_by_col.is_none()
        } else {
            cell == old
        }
    }

    /// Splits the merged region whose origin is at `(row, col)` back into
    /// single cells. Fails, and changes nothing, where that cell is not an
    /// uncovered merge origin.
    pub fn split_cell(&mut self, row: usize, col: usize) -> (ok: bool)
        requires
            old(self).is_grid(),
        ensures
            split_post(*old(self), *final(self), row as int, col as int, ok),
    {
        if !(row < self.rows.len() && col < self.rows[row].cells.len()) {
            return false;
        }
        if !self.rows[row].cells[col].is_merge_origin() {
            return false;
        }
        let ghost old_t = *self;
        let row_span = self.rows[row].cells[col].row_span;
        let col_span = self.rows[row].cells[col].col_span;
        let background = copy_opt(&self.rows[row].cells[col].background);
        let nr = self.rows.len();
        let nc = self.column_widths.len();
        assert(old_t.rows@[row as int].cells@.len() == nc);
        let row_end = if row_span > nr - row {
            nr
        } else {
            row + row_span
        };
        let col_end = if col_span > nc - col {
            nc
        } else {
            col + col_span
        };
        reset_span(&mut self.rows[row].cells[col]);
        assert forall|i: int, j: int|
            old_t.has_cell(i, j) && !(i == row && j == col) implies #[trigger] self.cell(i, j) == old_t.cell(i, j) by {
            if i == row {
                assert(self.rows@[i].cells@[j] == old_t.rows@[i].cells@[j]);
            } else {
                assert(self.rows@[i] == old_t.rows@[i]);
            }
        }
        let mut i = row;
        while i < row_end
            invariant
                self.same_frame(&old_t),
                old_t.is_grid(),
                old_t.has_cell(row as int, col as int),
                row_span == old_t.cell(row as int, col as int).row_span,
                col_span == old_t.cell(row as int, col as int).col_span,
                background == old_t.cell(row as int, col as int).background,
                nr == old_t.rows@.len(),
                nc == old_t.column_widths@.len(),
                row <= i <= row_end <= nr,
                row_end == if row_span > nr - row { nr as int } else { row + row_span },
                col <= col_end <= nc,
                col_end == if col_span > nc - col { nc as int } else { col + col_span },
                forall|a: int, b: int|
                    #![trigger self.cell(a, b)]
                    old_t.has_cell(a, b) ==> if (a == row && b == col) || (row <= a < i && col <= b < col_end) {
                        old_t.split_result(row as int, col as int, a, b, self.cell(a, b))
                    } else {
                        self.cell(a, b) == old_t.cell(a, b)
                    },
            decreases row_end - i,
        {
            let mut j = col;
            while j < col_end
                invariant
                    self.same_frame(&old_t),
                    old_t.is_grid(),
                    old_t.has_cell(row as int, col as int),
                    background == old_t.cell(row as int, col as int).background,
                    nr == old_t.rows@.len(),
                    nc == old_t.column_widths@.len(),
                    row <= i < row_end <= nr,
                    row_end == if row_span > nr - row { nr as int } else { row + row_span },
                    row_span == old_t.cell(row as int, col as int).row_span,
                    col_span == old_t.cell(row as int, col as int).col_span,
                    col <= j <= col_end <= nc,
                    col_end == if col_span > nc - col { nc as int } else { col + col_span },
                    forall|a: int, b: int|
                        #![trigger self.cell(a, b)]
                        old_t.has_cell(a, b) ==> if (a == row && b == col) || (row <= a < i && col <= b < col_end)
                            || (a == i && col <= b < j) {
                            old_t.split_result(row as int, col as int, a, b, self.cell(a, b))
                        } else {
                            self.cell(a, b) == old_t.cell(a, b)
                        },
                decreases col_end - j,
            {
                assert(old_t.rows@[i as int].cells@.len() == nc);
                if !(i == row && j == col) {
                    let ghost prev = *self;
                    let bg = copy_opt(&background);
                    uncover(&mut self.rows[i].cells[j], bg);
                    assert forall|a: int, b: int|
                        old_t.has_cell(a, b) && !(a == i && b == j) implies #[trigger] self.cell(a, b) == prev.cell(a, b) by {
                        if a == i {
                            assert(self.rows@[a].cells@[b] == prev.rows@[a].cells@[b]);
                        } else {
                            assert(self.rows@[a] == prev.rows@[a]);
                        }
                    }
                }
                j = j + 1;
            }
            i = i + 1;
        }
        true
    }

    /// The position of the cell shown at `(row, col)`: the cell itself where it
    /// is not covered, else the origin it points at.
    pub open spec fn visible_at(&self, row: int, col: int) -> Option<(int, int)> {
        if !self.has_cell(row, col) {
            None
        } else if !self.cell(row, col).covered {
            Some((row, col))
        } else {
            let c = self.cell(row, col);
            if c.covered_by_row.is_some() && c.covered_by_col.is_some() && self.has_cell(
                c.covered_by_row.unwrap() as int,
                c.covered_by_col.unwrap() as int,
            ) {
                Some((c.covered_by_row.unwrap() as int, c.covered_by_col.unwrap() as int))
            } else {
                None
            }
        }
    }

    /// The cell that is rendered at a position, with its own position.
    pub fn get_visible_cell(&self, row: usize, col: usize) -> (r: Option<(usize, usize, &TableCell)>)
        ensures
            match r {
                Some((a, b, cell)) => self.visible_at(row as int, col as int) == Some((a as int, b as int))
                    && *cell == self.cell(a as int, b as int),
                None => self.visible_at(row as int, col as int).is_none(),
            },
    {
        match self.get_cell(row, col) {
            Some(cell) => {
                if cell.covered {
                    if let (Some(origin_row), Some(origin_col)) = (cell.covered_by_row, cell.covered_by_col) {
                        if let Some(origin) = self.get_cell(origin_row, origin_col) {
                            return Some((origin_row, origin_col, origin));
                        }
                    }
                    None
                } else {
                    Some((row, col, cell))
                }
            },
            None => None,
        }
    }

    /// Whether the cell at a position renders content of its own.
    pub fn should_render_cell(&self, row: usize, col: usize) -> (r: bool)
        ensures
            r == (self.has_cell(row as int, col as int) && !self.cell(row as int, col as int).covered),
    {
        match self.get_cell(row, col) {
            Some(cell) => !cell.covered,
            None => false,
        }
    }
}

/// Sets the span of `cell` to 1×1.
fn reset_span(cell: &mut TableCell)
    ensures
        cell_set(
            *old(cell),
            *final(cell),
            old(cell).text@,
            1,
            1,
            old(cell).covered,
            old(cell).covered_by_row,
            old(cell).covered_by_col,
        ),
        final(cell).text == old(cell).text,
{
    cell.row_span = 1;
    cell.col_span = 1;
}

/// Frees `cell` from the merge covering it, giving it `background`.
fn uncover(cell: &mut TableCell, background: Option<String>)
    ensures
        final(cell).text == old(cell).text,
        final(cell).styles == old(cell).styles,
        final(cell).align == old(cell).align,
        final(cell).background == background,
        final(cell).row_span == old(cell).row_span,
        final(cell).col_span == old(cell).col_span,
        !final(cell).covered,
        final(cell).covered_by_row.is_none(),
        final(cell).covered_by_col.is_none(),
{
    cell.covered = false;
    cell.covered_by_row = None;
    cell.covered_by_col = None;
    cell.background = background;
}

/// What `merge_cells` does: `ok` tells whether the rectangle could be merged;
/// on failure nothing changes, on success each cell is as `merged_cell` says.
pub open spec fn merge_post(
    t: DocumentTable,
    n: DocumentTable,
    r0: int,
    c0: int,
    r1: int,
    c1: int,
    ok: bool,
) -> bool {
    &&& ok == t.can_merge(r0, c0, r1, c1)
    &&& !ok ==> n == t
    &&& ok ==> n.same_frame(&t)
    &&& ok ==> forall|r: int, c: int|
        #![trigger n.cell(r, c)]
        t.has_cell(r, c) ==> t.merged_cell(r0, c0, r1, c1, t.merge_text(r0, c0, r1, c1), r, c, n.cell(r, c))
}

/// What `split_cell` does: `ok` tells whether the cell was a merge origin; on
/// failure nothing changes, on success each cell is as `split_result` says.
pub open spec fn split_post(t: DocumentTable, n: DocumentTable, row: int, col: int, ok: bool) -> bool {
    &&& ok == (t.has_cell(row, col) && t.cell(row, col).origin())
    &&& !ok ==> n == t
    &&& ok ==> n.same_frame(&t)
    &&& ok ==> forall|i: int, j: int|
        #![trigger n.cell(i, j)]
        t.has_cell(i, j) ==> t.split_result(row, col, i, j, n.cell(i, j))
}

/// The two cells agree on cover and span.
pub open spec fn same_topology_cell(a: TableCell, b: TableCell) -> bool {
    &&& a.covered == b.covered
    &&& a.covered_by_row == b.covered_by_row
    &&& a.covered_by_col == b.covered_by_col
    &&& a.row_span == b.row_span
    &&& a.col_span == b.col_span
}

/// A lone cell: neither covered nor merged.
pub open spec fn is_single(a: TableCell) -> bool {
    &&& !a.covered
    &&& a.covered_by_row.is_none()
    &&& a.covered_by_col.is_none()
    &&& a.row_span == 1
    &&& a.col_span == 1
}

impl DocumentTable {
    /// `(i, j)` lies in the footprint of the cell at `(r, c)`.
    pub open spec fn in_footprint(&self, r: int, c: int, i: int, j: int) -> bool {
        r <= i < r + self.cell(r, c).row_span && c <= j < c + self.cell(r, c).col_span
    }

    /// The grid's merge topology is sound: spans are positive, covered cells
    /// are 1×1 and name an origin, and every cell of an origin's footprint but
    /// the origin is in the grid, covered, and points at that origin.
    pub open spec fn topology_ok(&self) -> bool {
        &&& self.is_grid()
        &&& forall|r: int, c: int|
            #![trigger self.cell(r, c)]
            self.has_cell(r, c) ==> self.cell(r, c).row_span >= 1 && self.cell(r, c).col_span >= 1
        &&& forall|r: int, c: int|
            #![trigger self.cell(r, c)]
            self.has_cell(r, c) && self.cell(r, c).covered ==> self.cell(r, c).row_span == 1
                && self.cell(r, c).col_span == 1 && self.cell(r, c).covered_by_row.is_some()
                && self.cell(r, c).covered_by_col.is_some()
        &&& forall|r: int, c: int, i: int, j: int|
            #![trigger self.cell(r, c), self.cell(i, j)]
            self.has_cell(r, c) && self.cell(r, c).origin() && self.in_footprint(r, c, i, j) && !(i == r
                && j == c) ==> self.has_cell(i, j) && self.cell(i, j).covered
                && self.cell(i, j).covered_by_row == Some(r as usize)
                && self.cell(i, j).covered_by_col == Some(c as usize)
    }
}

/// Merging a rectangle of lone cells and then splitting its top-left cell
/// gives back the grid's shape and every cell's cover and span.
pub proof fn law_merge_then_split_restores_topology(
    t: DocumentTable,
    m: DocumentTable,
    s: DocumentTable,
    r0: int,
    c0: int,
    r1: int,
    c1: int,
    merged: bool,
    split: bool,
)
    requires
        t.is_grid(),
        0 <= r0,
        0 <= c0,
        r0 < usize::MAX,
        c0 < usize::MAX,
        r0 <= r1,
        c0 <= c1,
        forall|r: int, c: int| in_rect(r, c, r0, c0, r1, c1) && t.has_cell(r, c) ==> is_single(#[trigger] t.cell(r, c)),
        merge_post(t, m, r0, c0, r1, c1, merged),
        split_post(m, s, r0, c0, split),
    ensures
        s.same_frame(&t),
        forall|r: int, c: int|
            #![trigger s.cell(r, c)]
            t.has_cell(r, c) ==> same_topology_cell(s.cell(r, c), t.cell(r, c)),
{
    if merged {
        assert(t.has_cell(r0, c0));
        assert(m.has_cell(r0, c0));
        assert forall|r: int, c: int| #![trigger s.cell(r, c)] t.has_cell(r, c) implies same_topology_cell(
            s.cell(r, c),
            t.cell(r, c),
        ) by {
            assert(m.has_cell(r, c));
            let mc = m.cell(r, c);
            assert(t.merged_cell(r0, c0, r1, c1, t.merge_text(r0, c0, r1, c1), r, c, mc));
            if split {
                assert(m.split_result(r0, c0, r, c, s.cell(r, c)));
                if in_rect(r, c, r0, c0, r1, c1) {
                    assert(is_single(t.cell(r, c)));
                }
            } else {
                assert(s == m);
                if in_rect(r, c, r0, c0, r1, c1) {
                    assert(is_single(t.cell(r, c)));
                    assert(m.cell(r0, c0).row_span == 1 && m.cell(r0, c0).col_span == 1);
                }
            }
        }
    } else {
        assert(m == t);
        assert(in_rect(r0, c0, r0, c0, r1, c1));
        if t.has_cell(r0, c0) {
            assert(is_single(t.cell(r0, c0)));
        }
        assert(s == t);
    }
}

/// Merging a rectangle that holds part, but not all, of another merge's
/// footprint fails.
pub proof fn law_merge_rejects_partial_overlap(
    t: DocumentTable,
    or: int,
    oc: int,
    r0: int,
    c0: int,
    r1: int,
    c1: int,
    inside_r: int,
    inside_c: int,
    outside_r: int,
    outside_c: int,
)
    requires
        t.topology_ok(),
        0 <= or,
        0 <= oc,
        t.has_cell(or, oc),
        t.cell(or, oc).origin(),
        t.in_footprint(or, oc, inside_r, inside_c),
        in_rect(inside_r, inside_c, r0, c0, r1, c1),
        t.in_footprint(or, oc, outside_r, outside_c),
        !in_rect(outside_r, outside_c, r0, c0, r1, c1),
    ensures
        !t.can_merge(r0, c0, r1, c1),
{
    if t.can_merge(r0, c0, r1, c1) {
        if inside_r == or && inside_c == oc {
            assert(!blocks_merge(t.cell(or, oc), or, oc, r0, c0, r1, c1));
        } else {
            let cell = t.cell(inside_r, inside_c);
            assert(t.has_cell(inside_r, inside_c) && cell.covered);
            assert(!blocks_merge(t.cell(inside_r, inside_c), inside_r, inside_c, r0, c0, r1, c1));
            assert(cell.covered_by_row == Some(or as usize));
        }
    }
}

/// The sum of the widths.
pub open spec fn width_sum(w: Seq<u32>) -> int
    decreases w.len(),
{
    if w.len() == 0 {
        0
    } else {
        width_sum(w.drop_last()) + w.last()
    }
}

/// The widths rescaled so that they add up to about 100, each rounded down;
/// all-zero widths stay as they are.
pub open spec fn normalized(w: Seq<u32>, k: int) -> int {
    if width_sum(w) == 0 {
        w[k] as int
    } else {
        w[k] * 100 / width_sum(w)
    }
}

proof fn lemma_width_sum_bound(w: Seq<u32>)
    ensures
        0 <= width_sum(w) <= w.len() * 0xffff_ffff,
    decreases w.len(),
{
    if w.len() > 0 {
        lemma_width_sum_bound(w.drop_last());
    }
}

proof fn lemma_width_part_le_sum(w: Seq<u32>, k: int)
    requires
        0 <= k < w.len(),
    ensures
        w[k] <= width_sum(w),
    decreases w.len(),
{
    lemma_width_sum_bound(w.drop_last());
    if k < w.len() - 1 {
        lemma_width_part_le_sum(w.drop_last(), k);
    }
}

/// Rescales the widths so that they add up to about 100.
fn normalize_widths(w: &mut Vec<u32>)
    ensures
        final(w)@.len() == old(w)@.len(),
        forall|k: int| 0 <= k < final(w)@.len() ==> #[trigger] final(w)@[k] == normalized(old(w)@, k),
{
    let ghost o = w@;
    let mut total: u128 = 0;
    let mut i: usize = 0;
    while i < w.len()
        invariant
            w@ == o,
            0 <= i <= o.len(),
            total == width_sum(o.subrange(0, i as int)),
        decreases o.len() - i,
    {
        proof {
            assert(o.subrange(0, i + 1).drop_last() == o.subrange(0, i as int));
            lemma_width_sum_bound(o.subrange(0, i as int));
            assert(i * 0xffff_ffff <= 0xffff_ffff_ffff_ffff * 0xffff_ffff) by (nonlinear_arith)
                requires i <= 0xffff_ffff_ffff_ffff;
        }
        total = total + w[i] as u128;
        i = i + 1;
    }
    assert(o.subrange(0, o.len() as int) == o);
    if total == 0 {
        return;
    }
    let mut i: usize = 0;
    while i < w.len()
        invariant
            w@.len() == o.len(),
            total == width_sum(o),
            total > 0,
            0 <= i <= o.len(),
            forall|k: int| 0 <= k < i ==> #[trigger] w@[k] == normalized(o, k),
            forall|k: int| i <= k < o.len() ==> #[trigger] w@[k] == o[k],
        decreases o.len() - i,
    {
        proof {
            lemma_width_part_le_sum(o, i as int);
            assert(o[i as int] * 100 / width_sum(o) <= 100) by (nonlinear_arith)
                requires o[i as int] <= width_sum(o), width_sum(o) > 0;
        }
        let v = (w[i] as u128) * 100 / total;
        w.set(i, v as u32);
        i = i + 1;
    }
}

impl DocumentTable {
    /// A table of `num_rows` × `num_cols` empty cells with equal column
    /// shares.
    pub fn new(id: String, num_rows: usize, num_cols: usize, _column_width: u32) -> (r: Self)
        ensures
            r.id@ == id@,
            r.rows@.len() == num_rows,
            r.column_widths@.len() == num_cols,
            forall|k: int| 0 <= k < num_cols ==> #[trigger] r.column_widths@[k] == 100int / num_cols as int,
            r.is_grid(),
            forall|i: int, j: int| #![trigger r.cell(i, j)] r.has_cell(i, j) ==> r.cell(i, j).plain_with(Seq::empty()),
            r.border_width == 1,
            r.border_color@ == seq!['#', '0', '0', '0', '0', '0', '0'],
            r.width_mode == TableWidthMode::Percentage,
    {
        let share: u32 = if num_cols > 0 {
            (100 / num_cols) as u32
        } else {
            0
        };
        let mut column_widths: Vec<u32> = Vec::new();
        let mut k: usize = 0;
        while k < num_cols
            invariant
                0 <= k <= num_cols,
                column_widths@.len() == k,
                num_cols > 0 ==> share == 100int / num_cols as int,
                forall|m: int| 0 <= m < k ==> #[trigger] column_widths@[m] == share,
            decreases num_cols - k,
        {
            column_widths.push(share);
            k = k + 1;
        }
        let mut rows: Vec<TableRow> = Vec::new();
        let mut i: usize = 0;
        while i < num_rows
            invariant
                0 <= i <= num_rows,
                rows@.len() == i,
                forall|m: int| 0 <= m < i ==> (#[trigger] rows@[m]).cells@.len() == num_cols,
                forall|m: int, c: int|
                    0 <= m < i && 0 <= c < num_cols ==> (#[trigger] rows@[m].cells@[c]).plain_with(Seq::empty()),
            decreases num_rows - i,
        {
            rows.push(TableRow::new(num_cols));
            i = i + 1;
        }
        DocumentTable {
            id,
            rows,
            column_widths,
            border_width: 1,
            border_color: default_border_color(),
            width_mode: TableWidthMode::Percentage,
        }
    }

    /// Adds a row of empty cells at `at_index`, or at the end where the index
    /// is past it.
    pub fn add_row(&mut self, at_index: usize)
        ensures
            ({
                let idx = if at_index < old(self).rows@.len() { at_index as int } else { old(self).rows@.len() as int };
                &&& final(self).rows@.len() == old(self).rows@.len() + 1
                &&& final(self).rows@.subrange(0, idx) == old(self).rows@.subrange(0, idx)
                &&& final(self).rows@.subrange(idx + 1, final(self).rows@.len() as int) == old(self).rows@.subrange(
                    idx,
                    old(self).rows@.len() as int,
                )
                &&& final(self).rows@[idx].cells@.len() == old(self).column_widths@.len()
                &&& forall|c: int|
                    0 <= c < old(self).column_widths@.len() ==> (#[trigger] final(self).rows@[idx].cells@[c]).plain_with(
                        Seq::empty(),
                    )
            }),
            final(self).column_widths == old(self).column_widths,
            final(self).id == old(self).id,
            final(self).border_width == old(self).border_width,
            final(self).border_color == old(self).border_color,
            final(self).width_mode == old(self).width_mode,
            old(self).is_grid() ==> final(self).is_grid(),
    {
        let num_cols = self.num_cols();
        let index = if at_index < self.rows.len() {
            at_index
        } else {
            self.rows.len()
        };
        self.rows.insert(index, TableRow::new(num_cols));
        assert(self.rows@.subrange(0, index as int) =~= old(self).rows@.subrange(0, index as int));
        assert(self.rows@.subrange(index + 1, self.rows@.len() as int) =~= old(self).rows@.subrange(
            index as int,
            old(self).rows@.len() as int,
        ));
        assert(old(self).is_grid() ==> self.is_grid()) by {
            if old(self).is_grid() {
                assert forall|r: int| 0 <= r < self.rows@.len() implies (#[trigger] self.rows@[r]).cells@.len()
                    == self.column_widths@.len() by {
                    if r < index {
                        assert(self.rows@[r] == old(self).rows@[r]);
                    } else if r > index {
                        assert(self.rows@[r] == old(self).rows@[r - 1]);
                    }
                }
            }
        }
    }

    /// Deletes row `row`. Fails, changing nothing, where the row does not
    /// exist or is the last one left.
    pub fn delete_row(&mut self, row: usize) -> (ok: bool)
        ensures
            ok == (row < old(self).rows@.len() && old(self).rows@.len() > 1),
            !ok ==> *final(self) == *old(self),
            ok ==> final(self).rows@ == old(self).rows@.remove(row as int),
            final(self).column_widths == old(self).column_widths,
            final(self).id == old(self).id,
            final(self).border_width == old(self).border_width,
            final(self).border_color == old(self).border_color,
            final(self).width_mode == old(self).width_mode,
    {
        if row < self.rows.len() && self.rows.len() > 1 {
            self.rows.remove(row);
            true
        } else {
            false
        }
    }

    /// Deletes column `col` from every row and rescales the remaining widths.
    /// Fails, changing nothing, where the column does not exist or is the last
    /// one left.
    pub fn delete_column(&mut self, col: usize) -> (ok: bool)
        requires
            old(self).is_grid(),
        ensures
            ok == (col < old(self).column_widths@.len() && old(self).column_widths@.len() > 1),
            !ok ==> *final(self) == *old(self),
            ok ==> final(self).rows@.len() == old(self).rows@.len(),
            ok ==> forall|r: int|
                0 <= r < old(self).rows@.len() ==> (#[trigger] final(self).rows@[r]).cells@ == old(
                    self,
                ).rows@[r].cells@.remove(col as int) && final(self).rows@[r].min_height == old(self).rows@[r].min_height,
            ok ==> final(self).column_widths@.len() == old(self).column_widths@.len() - 1,
            ok ==> forall|k: int|
                0 <= k < final(self).column_widths@.len() ==> #[trigger] final(self).column_widths@[k] == normalized(
                    old(self).column_widths@.remove(col as int),
                    k,
                ),
            ok ==> final(self).is_grid(),
            final(self).id == old(self).id,
            final(self).border_width == old(self).border_width,
            final(self).border_color == old(self).border_color,
            final(self).width_mode == old(self).width_mode,
    {
        if !(col < self.num_cols() && self.num_cols() > 1) {
            return false;
        }
        let ghost o = *self;
        let mut i: usize = 0;
        while i < self.rows.len()
            invariant
                o == *old(self),
                o.is_grid(),
                col < o.column_widths@.len(),
                self.rows@.len() == o.rows@.len(),
                self.column_widths == o.column_widths,
                self.id == o.id,
                self.border_width == o.border_width,
                self.border_color == o.border_color,
                self.width_mode == o.width_mode,
                0 <= i <= o.rows@.len(),
                forall|r: int|
                    0 <= r < i ==> (#[trigger] self.rows@[r]).cells@ == o.rows@[r].cells@.remove(col as int)
                        && self.rows@[r].min_height == o.rows@[r].min_height,
                forall|r: int| i <= r < o.rows@.len() ==> #[trigger] self.rows@[r] == o.rows@[r],
            decreases o.rows@.len() - i,
        {
            assert(o.rows@[i as int].cells@.len() == o.column_widths@.len());
            self.rows[i].cells.remove(col);
            i = i + 1;
        }
        self.column_widths.remove(col);
        normalize_widths(&mut self.column_widths);
        assert forall|r: int| 0 <= r < self.rows@.len() implies (#[trigger] self.rows@[r]).cells@.len()
            == self.column_widths@.len() by {
            assert(o.rows@[r].cells@.len() == o.column_widths@.len());
        }
        true
    }

    /// Adds a column of empty cells at `at_index`, or at the end where the
    /// index is past it, and rescales the widths.
    pub fn add_column(&mut self, at_index: usize)
        requires
            old(self).is_grid(),
            old(self).column_widths@.len() < usize::MAX,
        ensures
            ({
                let n = old(self).column_widths@.len() as int;
                let idx = if at_index < n { at_index as int } else { n as int };
                &&& final(self).rows@.len() == old(self).rows@.len()
                &&& forall|r: int|
                    0 <= r < old(self).rows@.len() ==> (#[trigger] final(self).rows@[r]).cells@.subrange(0, idx)
                        == old(self).rows@[r].cells@.subrange(0, idx) && final(self).rows@[r].cells@.subrange(
                        idx + 1,
                        n + 1,
                    ) == old(self).rows@[r].cells@.subrange(idx, n) && final(self).rows@[r].cells@[idx].plain_with(
                        Seq::empty(),
                    ) && final(self).rows@[r].min_height == old(self).rows@[r].min_height
                &&& final(self).column_widths@.len() == n + 1
                &&& forall|k: int|
                    0 <= k <= n ==> #[trigger] final(self).column_widths@[k] == normalized(
                        old(self).column_widths@.insert(idx, (100int / (n + 1)) as u32),
                        k,
                    )
            }),
            final(self).is_grid(),
            final(self).id == old(self).id,
            final(self).border_width == old(self).border_width,
            final(self).border_color == old(self).border_color,
            final(self).width_mode == old(self).width_mode,
    {
        let ghost o = *self;
        let n = self.num_cols();
        let index = if at_index < n {
            at_index
        } else {
            n
        };
        let mut i: usize = 0;
        while i < self.rows.len()
            invariant
                o == *old(self),
                o.is_grid(),
                n == o.column_widths@.len(),
                index <= n,
                self.rows@.len() == o.rows@.len(),
                self.column_widths == o.column_widths,
                self.id == o.id,
                self.border_width == o.border_width,
                self.border_color == o.border_color,
                self.width_mode == o.width_mode,
                0 <= i <= o.rows@.len(),
                forall|r: int|
                    0 <= r < i ==> (#[trigger] self.rows@[r]).cells@.len() == n + 1
                        && self.rows@[r].cells@.subrange(0, index as int) == o.rows@[r].cells@.subrange(0, index as int)
                        && self.rows@[r].cells@.subrange(index + 1, n + 1) == o.rows@[r].cells@.subrange(index as int, n as int)
                        && self.rows@[r].cells@[index as int].plain_with(Seq::empty())
                        && self.rows@[r].min_height == o.rows@[r].min_height,
                forall|r: int| i <= r < o.rows@.len() ==> #[trigger] self.rows@[r] == o.rows@[r],
            decreases o.rows@.len() - i,
        {
            assert(o.rows@[i as int].cells@.len() == n);
            self.rows[i].cells.insert(index, TableCell::new());
            assert(self.rows@[i as int].cells@.subrange(0, index as int) =~= o.rows@[i as int].cells@.subrange(0, index as int));
            assert(self.rows@[i as int].cells@.subrange(index + 1, n + 1) =~= o.rows@[i as int].cells@.subrange(index as int, n as int));
            i = i + 1;
        }
        let new_width = (100 / (n + 1)) as u32;
        self.column_widths.insert(index, new_width);
        normalize_widths(&mut self.column_widths);
    }
}

impl DocumentTable {
    /// Whether every row has one cell per column.
    pub fn check_grid(&self) -> (r: bool)
        ensures
            r == self.is_grid(),
    {
        let n = self.column_widths.len();
        let mut i: usize = 0;
        while i < self.rows.len()
            invariant
                n == self.column_widths@.len(),
                0 <= i <= self.rows@.len(),
                forall|r: int| 0 <= r < i ==> (#[trigger] self.rows@[r]).cells@.len() == n,
            decreases self.rows@.len() - i,
        {
            if self.rows[i].cells.len() != n {
                return false;
            }
            i = i + 1;
        }
        true
    }
}

/// Merging keeps the merge topology sound: after a merge, spans are still
/// positive, covered cells are still 1×1 and name their origin, and every
/// footprint is still covered and points at its origin.
pub proof fn law_merge_keeps_topology(t: DocumentTable, n: DocumentTable, r0: int, c0: int, r1: int, c1: int, ok: bool)
    requires
        t.topology_ok(),
        0 <= r0 < usize::MAX,
        0 <= c0 < usize::MAX,
        merge_post(t, n, r0, c0, r1, c1, ok),
    ensures
        n.topology_ok(),
{
    if ok {
        let text = t.merge_text(r0, c0, r1, c1);
        assert(n.is_grid()) by {
            assert forall|r: int| 0 <= r < n.rows@.len() implies (#[trigger] n.rows@[r]).cells@.len()
                == n.column_widths@.len() by {
                assert(t.rows@[r].cells@.len() == t.column_widths@.len());
            }
        }
        assert forall|r: int, c: int| #![trigger n.cell(r, c)] n.has_cell(r, c) implies n.cell(r, c).row_span >= 1
            && n.cell(r, c).col_span >= 1 by {
            assert(t.has_cell(r, c));
            assert(t.merged_cell(r0, c0, r1, c1, text, r, c, n.cell(r, c)));
        }
        assert forall|r: int, c: int| #![trigger n.cell(r, c)] n.has_cell(r, c) && n.cell(r, c).covered implies n.cell(
            r,
            c,
        ).row_span == 1 && n.cell(r, c).col_span == 1 && n.cell(r, c).covered_by_row.is_some() && n.cell(
            r,
            c,
        ).covered_by_col.is_some() by {
            assert(t.has_cell(r, c));
            assert(t.merged_cell(r0, c0, r1, c1, text, r, c, n.cell(r, c)));
        }
        assert forall|r: int, c: int, i: int, j: int|
            #![trigger n.cell(r, c), n.cell(i, j)]
            n.has_cell(r, c) && n.cell(r, c).origin() && n.in_footprint(r, c, i, j) && !(i == r && j == c) implies n.has_cell(
                i,
                j,
            ) && n.cell(i, j).covered && n.cell(i, j).covered_by_row == Some(r as usize) && n.cell(i, j).covered_by_col
                == Some(c as usize) by {
            assert(t.has_cell(r, c));
            assert(t.merged_cell(r0, c0, r1, c1, text, r, c, n.cell(r, c)));
            if r == r0 && c == c0 {
                assert(in_rect(i, j, r0, c0, r1, c1));
                assert(t.has_cell(i, j));
                assert(t.merged_cell(r0, c0, r1, c1, text, i, j, n.cell(i, j)));
            } else {
                // an origin after the merge lies outside the rectangle and was
                // an origin before, with the same footprint
                assert(!in_rect(r, c, r0, c0, r1, c1));
                assert(n.cell(r, c) == t.cell(r, c));
                assert(t.in_footprint(r, c, i, j));
                assert(t.has_cell(i, j) && t.cell(i, j).covered);
                assert(t.cell(i, j).covered_by_row == Some(r as usize));
                if in_rect(i, j, r0, c0, r1, c1) {
                    assert(!blocks_merge(t.cell(i, j), i, j, r0, c0, r1, c1));
                    assert(false);
                }
                assert(t.merged_cell(r0, c0, r1, c1, text, i, j, n.cell(i, j)));
            }
        }
    }
}

/// Splitting keeps the merge topology sound.
pub proof fn law_split_keeps_topology(t: DocumentTable, n: DocumentTable, row: int, col: int, ok: bool)
    requires
        t.topology_ok(),
        t.rows@.len() <= usize::MAX,
        t.column_widths@.len() <= usize::MAX,
        split_post(t, n, row, col, ok),
    ensures
        n.topology_ok(),
{
    if ok {
        assert(n.is_grid()) by {
            assert forall|r: int| 0 <= r < n.rows@.len() implies (#[trigger] n.rows@[r]).cells@.len()
                == n.column_widths@.len() by {
                assert(t.rows@[r].cells@.len() == t.column_widths@.len());
            }
        }
        assert forall|r: int, c: int| #![trigger n.cell(r, c)] n.has_cell(r, c) implies n.cell(r, c).row_span >= 1
            && n.cell(r, c).col_span >= 1 by {
            assert(t.has_cell(r, c));
            assert(t.split_result(row, col, r, c, n.cell(r, c)));
            assert(t.cell(r, c).row_span >= 1);
        }
        assert forall|r: int, c: int| #![trigger n.cell(r, c)] n.has_cell(r, c) && n.cell(r, c).covered implies n.cell(
            r,
            c,
        ).row_span == 1 && n.cell(r, c).col_span == 1 && n.cell(r, c).covered_by_row.is_some() && n.cell(
            r,
            c,
        ).covered_by_col.is_some() by {
            assert(t.has_cell(r, c));
            assert(t.split_result(row, col, r, c, n.cell(r, c)));
        }
        assert forall|r: int, c: int, i: int, j: int|
            #![trigger n.cell(r, c), n.cell(i, j)]
            n.has_cell(r, c) && n.cell(r, c).origin() && n.in_footprint(r, c, i, j) && !(i == r && j == c) implies n.has_cell(
                i,
                j,
            ) && n.cell(i, j).covered && n.cell(i, j).covered_by_row == Some(r as usize) && n.cell(i, j).covered_by_col
                == Some(c as usize) by {
            assert(t.has_cell(r, c));
            assert(t.split_result(row, col, r, c, n.cell(r, c)));
            assert(t.has_cell(row, col) && t.cell(row, col).origin());
            // the split origin and the cells it covered are no origins now,
            // so this one was an origin before, with the same footprint
            assert(!(r == row && c == col));
            assert(!t.in_footprint(row, col, r, c));
            assert(n.cell(r, c) == t.cell(r, c));
            assert(t.in_footprint(r, c, i, j));
            assert(t.has_cell(i, j) && t.cell(i, j).covered);
            assert(t.cell(i, j).covered_by_row == Some(r as usize) && t.cell(i, j).covered_by_col == Some(c as usize));
            if i == row && j == col {
                assert(!t.cell(row, col).covered);
            }
            if t.in_footprint(row, col, i, j) && !(i == row && j == col) {
                assert(t.cell(i, j).covered_by_row == Some(row as usize) && t.cell(i, j).covered_by_col == Some(col as usize));
                assert(t.rows@[r].cells@.len() == t.column_widths@.len());
                assert(r as usize == r && row as usize == row && c as usize == c && col as usize == col);
                assert(false);
            }
            assert(t.split_result(row, col, i, j, n.cell(i, j)));
        }
    }
}

} // verus!
