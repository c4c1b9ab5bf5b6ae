//! The grid widget's state: a three-level selection (row / cell / character),
//! persistent scroll state, and the row-windowing algorithm that keeps the
//! selected row visible.

use vstd::prelude::*;

use crate::projection::ItemColumnWidth;

verus! {

/// What is selected in the grid: nothing, a row, a cell within a row, or a
/// character position within a cell.
#[derive(Copy, Clone, Debug, PartialEq, Eq, Structural)]
pub enum SheetSelection {
    Unselected,
    Row(usize),
    Cell(usize, usize),
    Char(usize, usize, usize),
}

/// The selection's row index, if any.
pub open spec fn spec_sel_row(s: SheetSelection) -> Option<usize> {
    match s {
        SheetSelection::Unselected => None,
        SheetSelection::Row(r) => Some(r),
        SheetSelection::Cell(r, _) => Some(r),
        SheetSelection::Char(r, _, _) => Some(r),
    }
}

/// The selection's column index, if any.
pub open spec fn spec_sel_column(s: SheetSelection) -> Option<usize> {
    match s {
        SheetSelection::Unselected => None,
        SheetSelection::Row(_) => None,
        SheetSelection::Cell(_, c) => Some(c),
        SheetSelection::Char(_, c, _) => Some(c),
    }
}

/// The selection's character index, if any.
pub open spec fn spec_sel_i(s: SheetSelection) -> Option<usize> {
    match s {
        SheetSelection::Char(_, _, i) => Some(i),
        _ => None,
    }
}

/// The selection with its row index replaced, promoting `Unselected` to `Row`.
pub open spec fn spec_with_row(s: SheetSelection, row: usize) -> SheetSelection {
    match s {
        SheetSelection::Unselected => SheetSelection::Row(row),
        SheetSelection::Row(_) => SheetSelection::Row(row),
        SheetSelection::Cell(_, c) => SheetSelection::Cell(row, c),
        SheetSelection::Char(_, c, i) => SheetSelection::Char(row, c, i),
    }
}

/// The selection with its row index clamped to at most `m`.
pub open spec fn spec_clamp_row_max(s: SheetSelection, m: usize) -> SheetSelection {
    match s {
        SheetSelection::Unselected => s,
        SheetSelection::Row(r) => SheetSelection::Row(if r > m {
            m
        } else {
            r
        }),
        SheetSelection::Cell(r, c) => SheetSelection::Cell(
            if r > m {
                m
            } else {
                r
            },
            c,
        ),
        SheetSelection::Char(r, c, i) => SheetSelection::Char(
            if r > m {
                m
            } else {
                r
            },
            c,
            i,
        ),
    }
}

/// The selection with its row index raised to at least `m`.
pub open spec fn spec_clamp_row_min(s: SheetSelection, m: usize) -> SheetSelection {
    match s {
        SheetSelection::Unselected => s,
        SheetSelection::Row(r) => SheetSelection::Row(if r < m {
            m
        } else {
            r
        }),
        SheetSelection::Cell(r, c) => SheetSelection::Cell(
            if r < m {
                m
            } else {
                r
            },
            c,
        ),
        SheetSelection::Char(r, c, i) => SheetSelection::Char(
            if r < m {
                m
            } else {
                r
            },
            c,
            i,
        ),
    }
}

/// The selection with row and column indices clamped to the rendered bounds;
/// the character index is left alone.
pub open spec fn spec_normalize(s: SheetSelection, width: usize, height: usize) -> SheetSelection {
    match s {
        SheetSelection::Unselected => SheetSelection::Unselected,
        SheetSelection::Row(r) => SheetSelection::Row(if r > height {
            height
        } else {
            r
        }),
        SheetSelection::Cell(r, c) => SheetSelection::Cell(
            if r > height {
                height
            } else {
                r
            },
            if c > width {
                width
            } else {
                c
            },
        ),
        SheetSelection::Char(r, c, i) => SheetSelection::Char(
            if r > height {
                height
            } else {
                r
            },
            if c > width {
                width
            } else {
                c
            },
            i,
        ),
    }
}

/// A `Char` selection clamped to the cell's length, or degraded to `Cell`
/// when the cell allows no character selection.
pub open spec fn spec_normalize_char(s: SheetSelection, cell_len: Option<usize>) -> SheetSelection {
    match s {
        SheetSelection::Char(r, c, i) => match cell_len {
            Some(l) => SheetSelection::Char(
                r,
                c,
                if i > l {
                    l
                } else {
                    i
                },
            ),
            None => SheetSelection::Cell(r, c),
        },
        _ => s,
    }
}

impl SheetSelection {
    /// Whether nothing is selected.
    pub fn is_none(&self) -> (r: bool)
        ensures
            r == (*self is Unselected),
    {
        match *self {
            Self::Unselected => true,
            _ => false,
        }
    }

    /// Whether anything is selected.
    pub fn is_some(&self) -> (r: bool)
        ensures
            r == !(*self is Unselected),
    {
        match *self {
            Self::Unselected => false,
            _ => true,
        }
    }

    /// The selected row index, if any.
    pub fn row(&self) -> (r: Option<usize>)
        ensures
            r == spec_sel_row(*self),
    {
        match *self {
            Self::Unselected => None,
            Self::Row(r) => Some(r),
            Self::Cell(r, _) => Some(r),
            Self::Char(r, _, _) => Some(r),
        }
    }

    /// The selected column index, if any.
    pub fn column(&self) -> (r: Option<usize>)
        ensures
            r == spec_sel_column(*self),
    {
        match *self {
            Self::Unselected => None,
            Self::Row(_) => None,
            Self::Cell(_, c) => Some(c),
            Self::Char(_, c, _) => Some(c),
        }
    }

    /// The selected character index, if any.
    pub fn i(&self) -> (r: Option<usize>)
        ensures
            r == spec_sel_i(*self),
    {
        match *self {
            Self::Char(_, _, i) => Some(i),
            _ => None,
        }
    }

    /// Reassign the row index, keeping the column and character shape;
    /// an empty selection becomes a row selection.
    pub fn with_row(self, row: usize) -> (r: Self)
        ensures
            r == spec_with_row(self, row),
    {
        match self {
            Self::Unselected => Self::Row(row),
            Self::Row(_) => Self::Row(row),
            Self::Cell(_, c) => Self::Cell(row, c),
            Self::Char(_, c, i) => Self::Char(row, c, i),
        }
    }

    /// Transform the row index if one is present; an empty selection is left
    /// unchanged.
    pub fn map_row<F: FnOnce(usize) -> usize>(self, f: F) -> (r: Self)
        requires
            spec_sel_row(self) matches Some(x) ==> f.requires((x,)),
        ensures
            self is Unselected ==> r == self,
            spec_sel_row(self) matches Some(x) ==> exists|y: usize|
                #[trigger] f.ensures((x,), y) && r == spec_with_row(self, y),
    {
        match self {
            Self::Unselected => self,
            Self::Row(r) => Self::Row(f(r)),
            Self::Cell(r, c) => Self::Cell(f(r), c),
            Self::Char(r, c, i) => Self::Char(f(r), c, i),
        }
    }

    /// Transform the row index if one is present; an empty selection becomes
    /// a row selection at `default`.
    pub fn map_row_or<F: FnOnce(usize) -> usize>(self, default: usize, f: F) -> (r: Self)
        requires
            spec_sel_row(self) matches Some(x) ==> f.requires((x,)),
        ensures
            self is Unselected ==> r == SheetSelection::Row(default),
            spec_sel_row(self) matches Some(x) ==> exists|y: usize|
                #[trigger] f.ensures((x,), y) && r == spec_with_row(self, y),
    {
        match self {
            Self::Unselected => Self::Row(default),
            Self::Row(r) => Self::Row(f(r)),
            Self::Cell(r, c) => Self::Cell(f(r), c),
            Self::Char(r, c, i) => Self::Char(f(r), c, i),
        }
    }

    /// Clamp stale row and column indices to the rendered bounds.
    pub fn normalize(&mut self, width: usize, height: usize)
        ensures
            *final(self) == spec_normalize(*old(self), width, height),
    {
        *self = match *self {
            Self::Unselected => Self::Unselected,
            Self::Row(r) => Self::Row(if r > height {
                height
            } else {
                r
            }),
            Self::Cell(r, c) => Self::Cell(
                if r > height {
                    height
                } else {
                    r
                },
                if c > width {
                    width
                } else {
                    c
                },
            ),
            Self::Char(r, c, i) => Self::Char(
                if r > height {
                    height
                } else {
                    r
                },
                if c > width {
                    width
                } else {
                    c
                },
                i,
            ),
        };
    }

    /// Clamp a character selection to its cell's length, or degrade it to a
    /// cell selection when the cell allows no character position.
    pub fn normalize_char_position(&mut self, cell_len: Option<usize>)
        ensures
            *final(self) == spec_normalize_char(*old(self), cell_len),
    {
        *self = match *self {
            Self::Unselected => *self,
            Self::Row(_) => *self,
            Self::Cell(_, _) => *self,
            Self::Char(r, c, i) => match cell_len {
                Some(l) => Self::Char(
                    r,
                    c,
                    if l < i {
                        l
                    } else {
                        i
                    },
                ),
                None => Self::Cell(r, c),
            },
        };
    }
}

impl Default for SheetSelection {
    /// A fresh selection selects nothing.
    fn default() -> (r: Self)
        ensures
            r == SheetSelection::Unselected,
    {
        Self::Unselected
    }
}

/// Normalizing a selection is idempotent: clamping already-clamped indices
/// changes nothing.
pub proof fn lemma_normalize_idempotent(s: SheetSelection, width: usize, height: usize)
    ensures
        spec_normalize(spec_normalize(s, width, height), width, height) == spec_normalize(
            s,
            width,
            height,
        ),
{
}

/// Normalizing a character position is idempotent.
pub proof fn lemma_normalize_char_idempotent(s: SheetSelection, cell_len: Option<usize>)
    ensures
        spec_normalize_char(spec_normalize_char(s, cell_len), cell_len) == spec_normalize_char(
            s,
            cell_len,
        ),
{
}

/// The two normalization steps together, as a render pass applies them, are
/// idempotent as well.
pub proof fn lemma_normalize_full_idempotent(
    s: SheetSelection,
    width: usize,
    height: usize,
    cell_len: Option<usize>,
)
    ensures
        spec_normalize_char(
            spec_normalize(spec_normalize_char(spec_normalize(s, width, height), cell_len), width, height),
            cell_len,
        ) == spec_normalize_char(spec_normalize(s, width, height), cell_len),
{
}

/// Persistent grid state: the scroll offset, the selection, and the height
/// of the row area at the last render (used to clamp scrolling).
#[derive(Clone, Debug)]
pub struct SheetState {
    pub offset: usize,
    pub selection: SheetSelection,
    pub last_rows_height: Option<u16>,
}

impl Default for SheetState {
    /// A fresh grid starts unscrolled with nothing selected.
    fn default() -> (r: Self)
        ensures
            r.offset == 0,
            r.selection == SheetSelection::Unselected,
            r.last_rows_height is None,
    {
        SheetState { offset: 0, selection: SheetSelection::Unselected, last_rows_height: None }
    }
}

impl SheetState {
    /// The current selection.
    pub fn selection(&self) -> (r: SheetSelection)
        ensures
            r == self.selection,
    {
        self.selection
    }

    /// Replace the selection; clearing it also resets the scroll offset.
    pub fn select(&mut self, selection: SheetSelection)
        ensures
            final(self).selection == selection,
            final(self).offset == if selection is Unselected {
                0
            } else {
                old(self).offset
            },
            final(self).last_rows_height == old(self).last_rows_height,
    {
        self.selection = selection;
        if self.selection.is_none() {
            self.offset = 0;
        }
    }

    /// Replace the selection with a function of the current one.
    pub fn map_selection<F: FnOnce(SheetSelection) -> SheetSelection>(&mut self, f: F)
        requires
            f.requires((old(self).selection,)),
        ensures
            exists|t: SheetSelection|
                {
                    &&& #[trigger] f.ensures((old(self).selection,), t)
                    &&& final(self).selection == t
                    &&& final(self).offset == if t is Unselected {
                        0
                    } else {
                        old(self).offset
                    }
                    &&& final(self).last_rows_height == old(self).last_rows_height
                },
    {
        let t = f(self.selection);
        self.select(t);
    }

    /// The scroll offset: the index of the first visible row.
    pub fn get_offset(&self) -> (r: usize)
        ensures
            r == self.offset,
    {
        self.offset
    }

    /// Jump the scroll offset, moving the selection's row with it.
    pub fn set_offset(&mut self, offset: usize)
        ensures
            final(self).offset == offset,
            final(self).selection == spec_with_row(old(self).selection, offset),
            final(self).last_rows_height == old(self).last_rows_height,
    {
        self.selection = self.selection.with_row(offset);
        self.offset = offset;
    }

    /// Scroll up by `delta` rows, keeping the selection inside the window
    /// seen at the last render.
    pub fn scroll_up(&mut self, delta: usize)
        requires
            old(self).last_rows_height matches Some(h) ==> old(self).offset + h <= usize::MAX && (
            if old(self).offset >= delta {
                old(self).offset - delta
            } else {
                0
            }) + h >= 1,
        ensures
            final(self).offset == if old(self).offset >= delta {
                old(self).offset - delta
            } else {
                0
            },
            final(self).selection == match old(self).last_rows_height {
                Some(h) => spec_clamp_row_max(
                    old(self).selection,
                    (final(self).offset + h - 1) as usize,
                ),
                None => old(self).selection,
            },
            final(self).last_rows_height == old(self).last_rows_height,
    {
        self.offset = if self.offset >= delta {
            self.offset - delta
        } else {
            0
        };

        if let Some(last_rows_height) = self.last_rows_height {
            let bound: usize = self.offset + (last_rows_height as usize) - 1;
            self.selection = match self.selection {
                SheetSelection::Unselected => self.selection,
                SheetSelection::Row(r) => SheetSelection::Row(
                    if r > bound {
                        bound
                    } else {
                        r
                    },
                ),
                SheetSelection::Cell(r, c) => SheetSelection::Cell(
                    if r > bound {
                        bound
                    } else {
                        r
                    },
                    c,
                ),
                SheetSelection::Char(r, c, i) => SheetSelection::Char(
                    if r > bound {
                        bound
                    } else {
                        r
                    },
                    c,
                    i,
                ),
            };
        }
    }

    /// Scroll down by `delta` rows, pushing the selection at least to the new
    /// offset.
    pub fn scroll_down(&mut self, delta: usize)
        requires
            old(self).offset + delta <= usize::MAX,
        ensures
            final(self).offset == old(self).offset + delta,
            final(self).selection == spec_clamp_row_min(old(self).selection, final(self).offset),
            final(self).last_rows_height == old(self).last_rows_height,
    {
        self.offset = self.offset + delta;
        let bound = self.offset;
        self.selection = match self.selection {
            SheetSelection::Unselected => self.selection,
            SheetSelection::Row(r) => SheetSelection::Row(
                if r < bound {
                    bound
                } else {
                    r
                },
            ),
            SheetSelection::Cell(r, c) => SheetSelection::Cell(
                if r < bound {
                    bound
                } else {
                    r
                },
                c,
            ),
            SheetSelection::Char(r, c, i) => SheetSelection::Char(
                if r < bound {
                    bound
                } else {
                    r
                },
                c,
                i,
            ),
        };
    }
}

/// The vertical extent of one row: its height and the margin below it.
#[derive(Copy, Clone, Debug, PartialEq, Eq, Structural)]
pub struct RowHeight {
    pub height: u16,
    pub bottom_margin: u16,
}

/// A row's total vertical extent, saturating as the widget does.
pub open spec fn spec_total_height(r: RowHeight) -> int {
    if r.height + r.bottom_margin > u16::MAX {
        u16::MAX as int
    } else {
        r.height + r.bottom_margin
    }
}

impl RowHeight {
    /// The row's height plus its bottom margin, saturating at `u16::MAX`.
    pub fn total_height(&self) -> (r: u16)
        ensures
            r == spec_total_height(*self),
    {
        if self.height > u16::MAX - self.bottom_margin {
            u16::MAX
        } else {
            self.height + self.bottom_margin
        }
    }
}

/// The summed total heights of rows `from .. to`.
pub open spec fn sum_totals(rows: Seq<RowHeight>, from: int, to: int) -> int
    decreases to - from,
{
    if from >= to {
        0
    } else {
        spec_total_height(rows[from]) + sum_totals(rows, from + 1, to)
    }
}

proof fn lemma_sum_totals_split(rows: Seq<RowHeight>, from: int, mid: int, to: int)
    requires
        from <= mid <= to,
    ensures
        sum_totals(rows, from, to) == sum_totals(rows, from, mid) + sum_totals(rows, mid, to),
    decreases mid - from,
{
    if from < mid {
        lemma_sum_totals_split(rows, from + 1, mid, to);
    }
}

proof fn lemma_sum_totals_nonneg(rows: Seq<RowHeight>, from: int, to: int)
    ensures
        sum_totals(rows, from, to) >= 0,
    decreases to - from,
{
    if from < to {
        lemma_sum_totals_nonneg(rows, from + 1, to);
    }
}


proof fn lemma_sum_snoc(rows: Seq<RowHeight>, a: int, b: int)
    requires
        0 <= a <= b < rows.len(),
    ensures
        sum_totals(rows, a, b + 1) == sum_totals(rows, a, b) + spec_total_height(rows[b]),
{
    lemma_sum_totals_split(rows, a, b, b + 1);
    assert(sum_totals(rows, b, b + 1) == spec_total_height(rows[b]) + sum_totals(rows, b + 1, b + 1));
}

proof fn lemma_sum_within(rows: Seq<RowHeight>, a: int, b: int, bound: int)
    requires
        0 <= a <= b <= rows.len(),
        sum_totals(rows, 0, rows.len() as int) <= bound,
    ensures
        sum_totals(rows, a, b) <= bound,
        sum_totals(rows, a, b) >= 0,
{
    lemma_sum_totals_split(rows, 0, a, rows.len() as int);
    lemma_sum_totals_split(rows, a, b, rows.len() as int);
    lemma_sum_totals_nonneg(rows, 0, a);
    lemma_sum_totals_nonneg(rows, b, rows.len() as int);
    lemma_sum_totals_nonneg(rows, a, b);
}

/// Where the visible window ends when it grows from row `i` with `used`
/// height already taken: rows are added while the next row's own height
/// still fits the remaining budget.
pub open spec fn scan_end(rows: Seq<RowHeight>, i: int, used: int, max: int) -> int
    decreases rows.len() - i,
{
    if i < 0 || i >= rows.len() || used + rows[i].height > max {
        i
    } else {
        scan_end(rows, i + 1, used + spec_total_height(rows[i]), max)
    }
}

proof fn lemma_scan_end_bounds(rows: Seq<RowHeight>, i: int, used: int, max: int)
    requires
        0 <= i <= rows.len(),
    ensures
        i <= scan_end(rows, i, used, max) <= rows.len(),
    decreases rows.len() - i,
{
    if i < rows.len() && used + rows[i].height <= max {
        lemma_scan_end_bounds(rows, i + 1, used + spec_total_height(rows[i]), max);
    }
}


/// The window grown from `i` fits the remaining budget, as long as no row
/// in it carries a bottom margin.
proof fn lemma_scan_end_budget(rows: Seq<RowHeight>, i: int, used: int, max: int)
    requires
        0 <= i <= rows.len(),
        0 <= used <= max,
        forall|k: int|
            i <= k < scan_end(rows, i, used, max) ==> (#[trigger] rows[k]).bottom_margin == 0,
    ensures
        used + sum_totals(rows, i, scan_end(rows, i, used, max)) <= max,
    decreases rows.len() - i,
{
    if i >= rows.len() || used + rows[i].height > max {
    } else {
        lemma_scan_end_bounds(rows, i + 1, used + spec_total_height(rows[i]), max);
        assert(spec_total_height(rows[i]) == rows[i].height);
        lemma_scan_end_budget(rows, i + 1, used + spec_total_height(rows[i]), max);
    }
}

/// The clamped selected row that the window must cover: the requested row,
/// or the clamped offset when none is selected, held below the row count.
pub open spec fn spec_sel_target(
    rows: Seq<RowHeight>,
    selected: Option<usize>,
    offset: usize,
) -> int {
    let off = if offset < rows.len() - 1 {
        offset as int
    } else {
        rows.len() - 1
    };
    let sel0 = match selected {
        Some(s) => s as int,
        None => off,
    };
    if sel0 < rows.len() - 1 {
        sel0
    } else {
        rows.len() - 1
    }
}

/// Compute the contiguous window of visible rows `[start, end)`.
///
/// The window starts at the requested offset and grows while rows fit the
/// height budget; it then slides forward or backward the minimum amount
/// needed to bring the selected row into view, never recentering.
pub fn get_row_bounds(
    rows: &Vec<RowHeight>,
    selected: Option<usize>,
    offset: usize,
    max_height: u16,
) -> (r: (usize, usize))
    requires
        rows.len() > 0,
        sum_totals(rows@, 0, rows@.len() as int) <= u16::MAX,
    ensures
        r.0 <= r.1 <= rows@.len(),
        ({
            let off = if offset < rows@.len() - 1 {
                offset as int
            } else {
                rows@.len() - 1
            };
            let sel = spec_sel_target(rows@, selected, offset);
            &&& (spec_total_height(rows@[sel]) <= max_height ==> r.0 <= sel < r.1)
            &&& (off <= sel < scan_end(rows@, off, 0, max_height as int) ==> r.0 == off && r.1
                == scan_end(rows@, off, 0, max_height as int))
            &&& sum_totals(rows@, r.0 as int, r.1 as int) <= u16::MAX
            &&& (sum_totals(rows@, r.0 as int, r.1 as int) <= max_height || (r.0 == off && r.1
                == scan_end(rows@, off, 0, max_height as int)))
            &&& ((forall|k: int|
                r.0 <= k < r.1 ==> (#[trigger] rows@[k]).bottom_margin == 0) ==> sum_totals(
                rows@,
                r.0 as int,
                r.1 as int,
            ) <= max_height)
        }),
{
    let len = rows.len();
    let off: usize = if offset < len - 1 {
        offset
    } else {
        len - 1
    };
    let ghost target_end = scan_end(rows@, off as int, 0, max_height as int);
    proof {
        lemma_scan_end_bounds(rows@, off as int, 0, max_height as int);
    }
    let mut start: usize = off;
    let mut end: usize = off;
    let mut height: u16 = 0;
    while end < len && height as u32 + rows[end].height as u32 <= max_height as u32
        invariant
            off <= end <= len,
            len == rows@.len(),
            height == sum_totals(rows@, off as int, end as int),
            sum_totals(rows@, 0, len as int) <= u16::MAX,
            target_end == scan_end(rows@, end as int, height as int, max_height as int),
            off <= target_end <= len,
        decreases len - end,
    {
        proof {
            lemma_sum_within(rows@, off as int, end + 1, u16::MAX as int);
            lemma_sum_snoc(rows@, off as int, end as int);
        }
        height = height + rows[end].total_height();
        end = end + 1;
    }
    proof {
        assert(scan_end(rows@, end as int, height as int, max_height as int) == end as int);
    }
    assert(end == target_end);

    let sel0 = match selected {
        Some(s) => s,
        None => off,
    };
    let sel: usize = if sel0 < len - 1 {
        sel0
    } else {
        len - 1
    };
    assert(sel == spec_sel_target(rows@, selected, offset));
    let ghost fits = spec_total_height(rows@[sel as int]) <= max_height;

    if sel >= end {
        while sel >= end
            invariant
                len == rows@.len(),
                sum_totals(rows@, 0, len as int) <= u16::MAX,
                start <= end <= sel + 1,
                sel < len,
                height == sum_totals(rows@, start as int, end as int),
                fits == (spec_total_height(rows@[sel as int]) <= max_height),
                fits ==> start <= sel,
                height <= max_height || (start == off && end == target_end),
            decreases sel + 1 - end,
        {
            proof {
                lemma_sum_within(rows@, start as int, end + 1, u16::MAX as int);
                lemma_sum_snoc(rows@, start as int, end as int);
            }
            height = height + rows[end].total_height();
            end = end + 1;
            while height > max_height
                invariant
                    len == rows@.len(),
                    sum_totals(rows@, 0, len as int) <= u16::MAX,
                    start <= end <= len,
                    height == sum_totals(rows@, start as int, end as int),
                    end <= sel + 1,
                    sel < len,
                    fits == (spec_total_height(rows@[sel as int]) <= max_height),
                    fits ==> start <= sel,
                decreases end - start,
            {
                proof {
                    if start >= end {
                        assert(height == 0);
                    }
                    assert(start < end);
                    assert(sum_totals(rows@, start as int, end as int) == spec_total_height(
                        rows@[start as int],
                    ) + sum_totals(rows@, start + 1, end as int));
                    lemma_sum_totals_nonneg(rows@, start + 1, end as int);
                    if fits && start as int == sel {
                        assert(end == sel + 1);
                        assert(sum_totals(rows@, sel as int, sel + 1) == spec_total_height(
                            rows@[sel as int],
                        ) + sum_totals(rows@, sel + 1, sel + 1));
                        assert(false);
                    }
                }
                height = height - rows[start].total_height();
                start = start + 1;
            }
        }
        assert(end == sel + 1);
    }

    if sel < start {
        while sel < start
            invariant
                len == rows@.len(),
                sum_totals(rows@, 0, len as int) <= u16::MAX,
                start <= end <= len,
                sel <= start,
                sel < len,
                height == sum_totals(rows@, start as int, end as int),
                fits == (spec_total_height(rows@[sel as int]) <= max_height),
                fits ==> sel < end || sel < start,
                height <= max_height || (start == off && end == target_end),
            decreases start,
        {
            start = start - 1;
            proof {
                lemma_sum_within(rows@, start as int, end as int, u16::MAX as int);
                assert(sum_totals(rows@, start as int, end as int) == spec_total_height(
                    rows@[start as int],
                ) + sum_totals(rows@, start + 1, end as int));
            }
            height = height + rows[start].total_height();
            while height > max_height
                invariant
                    len == rows@.len(),
                    start <= end <= len,
                    sum_totals(rows@, 0, len as int) <= u16::MAX,
                    height == sum_totals(rows@, start as int, end as int),
                    sel <= start,
                    sel < len,
                    fits == (spec_total_height(rows@[sel as int]) <= max_height),
                    fits && start as int == sel ==> sel < end,
                decreases end,
            {
                proof {
                    if start >= end {
                        assert(height == 0);
                    }
                    assert(start < end);
                    lemma_sum_snoc(rows@, start as int, end - 1);
                    lemma_sum_totals_nonneg(rows@, start as int, end - 1);
                    if fits && start as int == sel && end == sel + 1 {
                        assert(sum_totals(rows@, sel as int, sel + 1) == spec_total_height(
                            rows@[sel as int],
                        ) + sum_totals(rows@, sel + 1, sel + 1));
                        assert(false);
                    }
                }
                end = end - 1;
                height = height - rows[end].total_height();
            }
        }
        assert(start == sel);
    }

    proof {
        lemma_sum_within(rows@, start as int, end as int, u16::MAX as int);
        if !(height <= max_height) {
            assert(start == off && end == target_end);
        }
        if forall|k: int| start <= k < end ==> (#[trigger] rows@[k]).bottom_margin == 0 {
            if start == off as int && end == target_end {
                lemma_scan_end_budget(rows@, off as int, 0, max_height as int);
            }
        }
    }
    (start, end)
}


/// A column's needed width, capped at the widest cell count.
pub open spec fn spec_col_need(c: (ItemColumnWidth, usize)) -> int {
    if c.1 > 65535 {
        65535
    } else {
        c.1 as int
    }
}

/// The summed needs of the size-to-content columns among the first `upto`.
pub open spec fn spec_shrink_needs(constraints: Seq<(ItemColumnWidth, usize)>, upto: int) -> int
    decreases upto,
{
    if upto <= 0 {
        0
    } else {
        spec_shrink_needs(constraints, upto - 1) + if constraints[upto - 1].0
            == ItemColumnWidth::Shrink {
            spec_col_need(constraints[upto - 1])
        } else {
            0
        }
    }
}

/// The cells left for column content once one gap between each pair of
/// columns is reserved.
pub open spec fn spec_column_budget(constraints: Seq<(ItemColumnWidth, usize)>, total: u16) -> int {
    let gaps = constraints.len() - 1;
    if total > gaps {
        total - gaps
    } else {
        0
    }
}

/// The width a column would take with no shortage: its need for a
/// size-to-content column; for an expanding column, whatever the fixed
/// columns leave of the budget, and never less than its own (budget-capped)
/// need.
pub open spec fn spec_ideal_width(
    constraints: Seq<(ItemColumnWidth, usize)>,
    total: u16,
    j: int,
) -> int {
    let budget = spec_column_budget(constraints, total);
    let need = spec_col_need(constraints[j]);
    if constraints[j].0 == ItemColumnWidth::Shrink {
        need
    } else {
        let fixed = spec_shrink_needs(constraints, constraints.len() as int);
        let rest = if budget > fixed {
            budget - fixed
        } else {
            0
        };
        let capped = if need > budget {
            budget
        } else {
            need
        };
        if rest > capped {
            rest
        } else {
            capped
        }
    }
}

/// The summed wanted widths of the first `j` columns.
pub open spec fn spec_ideal_sum(constraints: Seq<(ItemColumnWidth, usize)>, total: u16, j: int) -> int
    decreases j,
{
    if j <= 0 {
        0
    } else {
        spec_ideal_sum(constraints, total, j - 1) + spec_ideal_width(constraints, total, j - 1)
    }
}

/// The summed granted widths of the first `j` columns.
pub open spec fn spec_width_sum(r: Seq<u16>, j: int) -> int
    decreases j,
{
    if j <= 0 {
        0
    } else {
        spec_width_sum(r, j - 1) + r[j - 1]
    }
}

proof fn lemma_ideal_sum_bounds(constraints: Seq<(ItemColumnWidth, usize)>, total: u16, j: int)
    requires
        0 <= j <= constraints.len(),
    ensures
        spec_ideal_sum(constraints, total, j) <= spec_ideal_sum(
            constraints,
            total,
            constraints.len() as int,
        ),
    decreases constraints.len() - j,
{
    if j < constraints.len() {
        assert(spec_ideal_width(constraints, total, j) >= 0);
        lemma_ideal_sum_bounds(constraints, total, j + 1);
    }
}

proof fn lemma_width_sum_prefix(a: Seq<u16>, b: Seq<u16>, k: int)
    requires
        0 <= k <= a.len(),
        k <= b.len(),
        forall|i: int| 0 <= i < k ==> a[i] == b[i],
    ensures
        spec_width_sum(a, k) == spec_width_sum(b, k),
    decreases k,
{
    if k > 0 {
        lemma_width_sum_prefix(a, b, k - 1);
    }
}

/// Lay the columns out across `total` cells, never exceeding the area:
/// one gap between each pair of columns is reserved first, each column
/// takes at most its wanted width, and whatever no longer fits is cut from
/// the rightmost columns. When everything fits, each size-to-content
/// column takes exactly its need and each expanding column the leftover.
pub fn layout_columns(constraints: &Vec<(ItemColumnWidth, usize)>, total: u16) -> (r: Vec<u16>)
    ensures
        r@.len() == constraints@.len(),
        constraints@.len() > 0 ==> spec_width_sum(r@, r@.len() as int) <= spec_column_budget(
            constraints@,
            total,
        ),
        forall|j: int|
            0 <= j < r@.len() ==> (#[trigger] r@[j]) <= spec_ideal_width(constraints@, total, j),
        spec_ideal_sum(constraints@, total, constraints@.len() as int) <= spec_column_budget(
            constraints@,
            total,
        ) ==> forall|j: int|
            0 <= j < r@.len() ==> (#[trigger] r@[j]) == spec_ideal_width(constraints@, total, j),
{
    let n = constraints.len();
    if n == 0 {
        return Vec::new();
    }
    // Reserve the inter-column gaps.
    let budget: u16 = if (total as usize) > n - 1 {
        total - ((n - 1) as u16)
    } else {
        0
    };
    assert(budget == spec_column_budget(constraints@, total));
    // The fixed columns' needs, capped at the widest cell count.
    let mut fixed: u16 = 0;
    let mut j: usize = 0;
    while j < n
        invariant
            0 <= j <= n,
            n == constraints@.len(),
            fixed == if spec_shrink_needs(constraints@, j as int) > 65535 {
                65535int
            } else {
                spec_shrink_needs(constraints@, j as int)
            },
        decreases n - j,
    {
        let (policy, w) = constraints[j];
        if policy == ItemColumnWidth::Shrink {
            let w16: u32 = if w > 65535 {
                65535
            } else {
                w as u32
            };
            let grown: u32 = fixed as u32 + w16;
            fixed = if grown > 65535 {
                65535
            } else {
                grown as u16
            };
        }
        j = j + 1;
    }
    let rest: u16 = if budget > fixed {
        budget - fixed
    } else {
        0
    };
    proof {
        let true_fixed = spec_shrink_needs(constraints@, n as int);
        assert(rest == if spec_column_budget(constraints@, total) > true_fixed {
            spec_column_budget(constraints@, total) - true_fixed
        } else {
            0int
        });
    }
    // Grant each column its wanted width while the budget lasts.
    let mut r: Vec<u16> = Vec::new();
    let mut remaining: u16 = budget;
    let mut j: usize = 0;
    while j < n
        invariant
            0 <= j <= n,
            n == constraints@.len(),
            budget == spec_column_budget(constraints@, total),
            rest == ({
                let true_fixed = spec_shrink_needs(constraints@, n as int);
                if spec_column_budget(constraints@, total) > true_fixed {
                    spec_column_budget(constraints@, total) - true_fixed
                } else {
                    0int
                }
            }),
            r@.len() == j,
            remaining == budget - spec_width_sum(r@, j as int),
            spec_width_sum(r@, j as int) <= budget,
            forall|k: int|
                0 <= k < j ==> (#[trigger] r@[k]) <= spec_ideal_width(constraints@, total, k),
            spec_ideal_sum(constraints@, total, n as int) <= budget ==> (forall|k: int|
                0 <= k < j ==> (#[trigger] r@[k]) == spec_ideal_width(constraints@, total, k))
                && remaining == budget - spec_ideal_sum(constraints@, total, j as int),
        decreases n - j,
    {
        let (policy, w) = constraints[j];
        let need: u16 = if w > 65535 {
            65535
        } else {
            w as u16
        };
        let ideal: u16 = match policy {
            ItemColumnWidth::Shrink => need,
            ItemColumnWidth::Expand => {
                let capped = if need > budget {
                    budget
                } else {
                    need
                };
                if rest > capped {
                    rest
                } else {
                    capped
                }
            },
        };
        assert(ideal == spec_ideal_width(constraints@, total, j as int));
        let give = if ideal > remaining {
            remaining
        } else {
            ideal
        };
        let ghost before = r@;
        r.push(give);
        remaining = remaining - give;
        proof {
            assert(forall|k: int| 0 <= k < j ==> r@[k] == before[k]);
            lemma_width_sum_prefix(r@, before, j as int);
            assert(spec_width_sum(r@, j + 1) == spec_width_sum(r@, j as int) + give);
            if spec_ideal_sum(constraints@, total, n as int) <= budget {
                lemma_ideal_sum_bounds(constraints@, total, j + 1);
                assert(spec_ideal_sum(constraints@, total, j + 1) == spec_ideal_sum(
                    constraints@,
                    total,
                    j as int,
                ) + ideal);
                assert(give == ideal);
            }
        }
        j = j + 1;
    }
    r
}

/// Uniform single-line rows: the window's total height is its row count.
pub proof fn lemma_uniform_sum(rows: Seq<RowHeight>, from: int, to: int)
    requires
        0 <= from <= to <= rows.len(),
        forall|k: int|
            0 <= k < rows.len() ==> (#[trigger] rows[k]).height == 1 && rows[k].bottom_margin == 0,
    ensures
        sum_totals(rows, from, to) == to - from,
    decreases to - from,
{
    if from < to {
        lemma_uniform_sum(rows, from + 1, to);
    }
}

} // verus!
