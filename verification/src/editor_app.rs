//! The editor's application state and its event decisions: how each input
//! event moves the selection, edits the record under the cursor, or asks
//! the caller to perform store work. The caller runs the terminal loop,
//! performs the returned store operations, and feeds events back in.

use vstd::prelude::*;

use crate::projection::{ItemColumnKind, ItemColumnRenderedSet};
use crate::sheet::{
    get_row_bounds, spec_normalize, spec_normalize_char, spec_sel_row, spec_with_row, RowHeight,
    SheetSelection, SheetState,
};
use crate::text::push_char;
use crate::view_model::{vm_wf, ItemColumnViewModel, StoreAction, StoreWrite};

verus! {

/// A logical key, free of any terminal library.
#[derive(Copy, Clone, Debug, PartialEq, Eq, Structural)]
pub enum Key {
    Up,
    Down,
    Left,
    Right,
    Home,
    End,
    PageUp,
    PageDown,
    Esc,
    Enter,
    Backspace,
    Delete,
    Letter(char),
    Function(u8),
    ControlKey,
}

/// Whether a key went down, repeated, or came up.
#[derive(Copy, Clone, Debug, PartialEq, Eq, Structural)]
pub enum KeyKind {
    Press,
    Repeat,
    Release,
}

/// Modifier state carried with a key event.
#[derive(Copy, Clone, Debug, PartialEq, Eq, Structural)]
pub struct Modifiers {
    pub control: bool,
    pub alt: bool,
    pub shift: bool,
}

/// One input event, abstracted from the terminal.
#[derive(Copy, Clone, Debug, PartialEq, Eq, Structural)]
pub enum InputEvent {
    Key(Key, Modifiers, KeyKind),
    ScrollUp,
    ScrollDown,
    Resize,
}

/// What the caller must do after an event is handled: nothing, quit, ask
/// the store again, perform store operations, create a record below a row,
/// or delete one.
pub enum AppAction {
    Nothing,
    Quit,
    RefreshStore,
    PerformStore(Vec<StoreAction>),
    PersistWrites(Vec<StoreWrite>),
    PersistWrite(Option<StoreWrite>),
    CreateItem { after_row: usize, name: String, location: crate::types::Location, size: crate::types::ItemSize },
    DeleteRecord { id: i64, name: String, description: String },
}

/// The editor state: the view-model, the search in progress, the grid
/// state, whether help is shown, and the height of the grid at the last
/// render (for paging).
pub struct App {
    pub view_model: ItemColumnViewModel,
    pub search: Option<String>,
    pub search_in_progress: bool,
    pub sheet_state: SheetState,
    pub help_shown: bool,
    pub last_table_height: Option<usize>,
}

/// The editor's invariant: a sound view-model, and indices far enough from
/// the machine limits that movement arithmetic cannot wrap.
pub open spec fn app_wf(app: &App) -> bool {
    &&& vm_wf(&app.view_model)
    &&& match spec_sel_row(app.sheet_state.selection) {
        Some(r) => r < usize::MAX - 1,
        None => true,
    }
    &&& app.sheet_state.offset < usize::MAX - 65536
    &&& (app.sheet_state.last_rows_height matches Some(h) ==> h > 0)
    &&& (app.last_table_height matches Some(h) ==> h <= 65536)
}

/// Moving up: an empty selection lands on the first visible row; otherwise
/// the row index drops by one, stopping at the top; a character cursor
/// snaps to the cell start.
pub open spec fn spec_move_up(s: SheetSelection, default_row: usize) -> SheetSelection {
    match s {
        SheetSelection::Unselected => SheetSelection::Row(default_row),
        SheetSelection::Row(r) => SheetSelection::Row(
            if r > 0 {
                (r - 1) as usize
            } else {
                0
            },
        ),
        SheetSelection::Cell(r, c) => SheetSelection::Cell(
            if r > 0 {
                (r - 1) as usize
            } else {
                0
            },
            c,
        ),
        SheetSelection::Char(r, c, _) => SheetSelection::Char(
            if r > 0 {
                (r - 1) as usize
            } else {
                0
            },
            c,
            0,
        ),
    }
}

/// Moving down: an empty selection lands on the first visible row;
/// otherwise the row index grows by one; a character cursor snaps to the
/// cell start.
pub open spec fn spec_move_down(s: SheetSelection, default_row: usize) -> SheetSelection {
    match s {
        SheetSelection::Unselected => SheetSelection::Row(default_row),
        SheetSelection::Row(r) => SheetSelection::Row(
            if r < usize::MAX - 2 {
                (r + 1) as usize
            } else {
                r
            },
        ),
        SheetSelection::Cell(r, c) => SheetSelection::Cell(
            if r < usize::MAX - 2 {
                (r + 1) as usize
            } else {
                r
            },
            c,
        ),
        SheetSelection::Char(r, c, _) => SheetSelection::Char(
            if r < usize::MAX - 2 {
                (r + 1) as usize
            } else {
                r
            },
            c,
            0,
        ),
    }
}

/// Backing out: column-level detail drops to a row selection; a row or
/// empty selection clears.
pub open spec fn spec_back_out(s: SheetSelection) -> SheetSelection {
    match s {
        SheetSelection::Unselected => SheetSelection::Unselected,
        SheetSelection::Row(_) => SheetSelection::Unselected,
        SheetSelection::Cell(r, _) => SheetSelection::Row(r),
        SheetSelection::Char(r, _, _) => SheetSelection::Row(r),
    }
}

impl App {
    /// A fresh editor over the standard columns: the cursor starts in the
    /// name column of the first row, ready to type.
    pub fn new() -> (r: App)
        ensures
            app_wf(&r),
            r.search is None,
            !r.search_in_progress,
            !r.help_shown,
            r.sheet_state.selection == SheetSelection::Char(0, 2, 0),
            r.sheet_state.offset == 0,
    {
        let columns = crate::projection::item_columns();
        let mut sheet_state = SheetState::default();
        sheet_state.select(SheetSelection::Char(0, 2, 0));
        App {
            view_model: ItemColumnViewModel::new(columns),
            search: None,
            search_in_progress: false,
            sheet_state,
            help_shown: false,
            last_table_height: None,
        }
    }

    /// Move the selection one row up (§ row movement).
    pub fn move_up(&mut self)
        requires
            app_wf(old(self)),
        ensures
            app_wf(final(self)),
            final(self).sheet_state.selection == spec_move_up(
                old(self).sheet_state.selection,
                old(self).sheet_state.offset,
            ),
            final(self).sheet_state.offset == if spec_move_up(
                old(self).sheet_state.selection,
                old(self).sheet_state.offset,
            ) is Unselected {
                0
            } else {
                old(self).sheet_state.offset
            },
            final(self).view_model == old(self).view_model,
            final(self).search == old(self).search,
            final(self).help_shown == old(self).help_shown,
    {
        let default_row = self.sheet_state.get_offset();
        let sel = match self.sheet_state.selection() {
            SheetSelection::Unselected => SheetSelection::Row(default_row),
            SheetSelection::Row(r) => SheetSelection::Row(
                if r > 0 {
                    r - 1
                } else {
                    0
                },
            ),
            SheetSelection::Cell(r, c) => SheetSelection::Cell(
                if r > 0 {
                    r - 1
                } else {
                    0
                },
                c,
            ),
            SheetSelection::Char(r, c, _) => SheetSelection::Char(
                if r > 0 {
                    r - 1
                } else {
                    0
                },
                c,
                0,
            ),
        };
        self.sheet_state.select(sel);
    }

    /// Move the selection one row down.
    pub fn move_down(&mut self)
        requires
            app_wf(old(self)),
        ensures
            app_wf(final(self)),
            final(self).sheet_state.selection == spec_move_down(
                old(self).sheet_state.selection,
                old(self).sheet_state.offset,
            ),
            final(self).sheet_state.offset == old(self).sheet_state.offset,
            final(self).view_model == old(self).view_model,
            final(self).search == old(self).search,
            final(self).help_shown == old(self).help_shown,
    {
        let default_row = self.sheet_state.get_offset();
        let sel = match self.sheet_state.selection() {
            SheetSelection::Unselected => SheetSelection::Row(default_row),
            SheetSelection::Row(r) => SheetSelection::Row(
                if r < usize::MAX - 2 {
                    r + 1
                } else {
                    r
                },
            ),
            SheetSelection::Cell(r, c) => SheetSelection::Cell(
                if r < usize::MAX - 2 {
                    r + 1
                } else {
                    r
                },
                c,
            ),
            SheetSelection::Char(r, c, _) => SheetSelection::Char(
                if r < usize::MAX - 2 {
                    r + 1
                } else {
                    r
                },
                c,
                0,
            ),
        };
        self.sheet_state.select(sel);
    }

    /// Move horizontally by `offset` columns: entering a free-text column
    /// yields a character cursor at its start, any other column a cell
    /// selection; the column index saturates at both ends.
    pub fn move_to_cell_rel(&mut self, offset: isize)
        requires
            app_wf(old(self)),
        ensures
            app_wf(final(self)),
            final(self).view_model == old(self).view_model,
            final(self).search == old(self).search,
            ({
                let ncols = old(self).view_model.last_rendered_set.columns@.len() as int;
                let default_column: int = if offset < 0 {
                    ncols - 1
                } else {
                    0
                };
                let (row, col) = match old(self).sheet_state.selection {
                    SheetSelection::Unselected => (0int, default_column),
                    SheetSelection::Row(r) => (r as int, default_column),
                    SheetSelection::Cell(r, c) => (
                        r as int,
                        if c + offset < 0 {
                            0int
                        } else if c + offset > ncols - 1 {
                            ncols - 1
                        } else {
                            c + offset
                        },
                    ),
                    SheetSelection::Char(r, c, _) => (
                        r as int,
                        if c + offset < 0 {
                            0int
                        } else if c + offset > ncols - 1 {
                            ncols - 1
                        } else {
                            c + offset
                        },
                    ),
                };
                final(self).sheet_state.selection == if old(self).view_model.last_rendered_set.columns@[col].kind == ItemColumnKind::FullText {
                    SheetSelection::Char(row as usize, col as usize, 0)
                } else {
                    SheetSelection::Cell(row as usize, col as usize)
                }
            }),
    {
        let default_column = if offset < 0 {
            self.view_model.rightmost_column_index()
        } else {
            0
        };
        let (new_row, new_col) = match self.sheet_state.selection() {
            SheetSelection::Unselected => (0, default_column),
            SheetSelection::Row(r) => (r, default_column),
            SheetSelection::Cell(r, c) => (
                r,
                self.view_model.column_index_saturating_add(c, offset),
            ),
            SheetSelection::Char(r, c, _) => (
                r,
                self.view_model.column_index_saturating_add(c, offset),
            ),
        };
        let sel = if self.view_model.column_allows_char_selection(new_col) {
            SheetSelection::Char(new_row, new_col, 0)
        } else {
            SheetSelection::Cell(new_row, new_col)
        };
        self.sheet_state.select(sel);
    }

    /// Reset the selection to the start of the name column of the first
    /// row.
    pub fn reset_selection(&mut self)
        requires
            app_wf(old(self)),
        ensures
            app_wf(final(self)),
            final(self).sheet_state.selection == SheetSelection::Char(0, 2, 0),
            final(self).view_model == old(self).view_model,
            final(self).search == old(self).search,
            final(self).search_in_progress == old(self).search_in_progress,
            final(self).help_shown == old(self).help_shown,
            final(self).last_table_height == old(self).last_table_height,
    {
        self.sheet_state.select(SheetSelection::Char(0, 2, 0));
    }

    /// Drop column-level detail, or clear the selection.
    pub fn back_out(&mut self)
        requires
            app_wf(old(self)),
        ensures
            app_wf(final(self)),
            final(self).sheet_state.selection == spec_back_out(old(self).sheet_state.selection),
            final(self).view_model == old(self).view_model,
            final(self).search == old(self).search,
    {
        let sel = match self.sheet_state.selection() {
            SheetSelection::Unselected => SheetSelection::Unselected,
            SheetSelection::Row(_) => SheetSelection::Unselected,
            SheetSelection::Cell(r, _) => SheetSelection::Row(r),
            SheetSelection::Char(r, _, _) => SheetSelection::Row(r),
        };
        self.sheet_state.select(sel);
    }

    /// Snap the character cursor to the start of its cell.
    pub fn move_char_first(&mut self)
        requires
            app_wf(old(self)),
        ensures
            app_wf(final(self)),
            final(self).sheet_state.selection == match old(self).sheet_state.selection {
                SheetSelection::Char(r, c, _) => SheetSelection::Char(r, c, 0),
                s => s,
            },
            final(self).view_model == old(self).view_model,
    {
        let sel = match self.sheet_state.selection() {
            SheetSelection::Char(r, c, _) => SheetSelection::Char(r, c, 0),
            s => s,
        };
        self.sheet_state.select(sel);
    }

    /// Snap the character cursor to the end of its cell's text.
    pub fn move_char_end(&mut self)
        requires
            app_wf(old(self)),
            old(self).sheet_state.selection matches SheetSelection::Char(r, c, i) ==> r < old(self).view_model.last_rendered_set.entries@.len() && c < old(self).view_model.last_rendered_set.columns@.len(),
        ensures
            app_wf(final(self)),
            final(self).view_model == old(self).view_model,
            old(self).sheet_state.selection matches SheetSelection::Char(r, c, i) ==> final(self).sheet_state.selection == SheetSelection::Char(
                r,
                c,
                if old(self).view_model.last_rendered_set.columns@[c as int].kind
                    == ItemColumnKind::FullText {
                    old(self).view_model.last_rendered_set.entries@[r as int].column_widths@[c as int]
                } else {
                    0
                },
            ),
            !(old(self).sheet_state.selection is Char) ==> final(self).sheet_state.selection
                == old(self).sheet_state.selection,
    {
        let sel = match self.sheet_state.selection() {
            SheetSelection::Char(r, c, _) => {
                let end = match self.view_model.get_column_len(r, c) {
                    Some(l) => l,
                    None => 0,
                };
                SheetSelection::Char(r, c, end)
            },
            s => s,
        };
        self.sheet_state.select(sel);
    }

    /// Move the character cursor one left, stopping at the start.
    pub fn move_char_left(&mut self)
        requires
            app_wf(old(self)),
        ensures
            app_wf(final(self)),
            final(self).view_model == old(self).view_model,
            final(self).sheet_state.selection == match old(self).sheet_state.selection {
                SheetSelection::Char(r, c, i) => SheetSelection::Char(
                    r,
                    c,
                    if i > 0 {
                        (i - 1) as usize
                    } else {
                        0
                    },
                ),
                s => s,
            },
    {
        let sel = match self.sheet_state.selection() {
            SheetSelection::Char(r, c, i) => SheetSelection::Char(
                r,
                c,
                if i > 0 {
                    i - 1
                } else {
                    0
                },
            ),
            s => s,
        };
        self.sheet_state.select(sel);
    }

    /// Move the character cursor one right, clamped to the cell's length.
    pub fn move_char_right(&mut self)
        requires
            app_wf(old(self)),
            old(self).sheet_state.selection matches SheetSelection::Char(r, c, i) ==> r < old(self).view_model.last_rendered_set.entries@.len() && c < old(self).view_model.last_rendered_set.columns@.len(),
        ensures
            app_wf(final(self)),
            final(self).view_model == old(self).view_model,
            old(self).sheet_state.selection matches SheetSelection::Char(r, c, i) ==> final(self).sheet_state.selection == SheetSelection::Char(
                r,
                c,
                ({
                    let bound = if old(self).view_model.last_rendered_set.columns@[c as int].kind
                        == ItemColumnKind::FullText {
                        old(self).view_model.last_rendered_set.entries@[r as int].column_widths@[c as int] as int
                    } else {
                        0int
                    };
                    if i < bound {
                        (i + 1) as usize
                    } else {
                        bound as usize
                    }
                }),
            ),
            !(old(self).sheet_state.selection is Char) ==> final(self).sheet_state.selection
                == old(self).sheet_state.selection,
    {
        let sel = match self.sheet_state.selection() {
            SheetSelection::Char(r, c, i) => {
                let bound = match self.view_model.get_column_len(r, c) {
                    Some(l) => l,
                    None => 0,
                };
                SheetSelection::Char(
                    r,
                    c,
                    if i < bound {
                        i + 1
                    } else {
                        bound
                    },
                )
            },
            s => s,
        };
        self.sheet_state.select(sel);
    }

    /// Scroll the grid up, keeping the selection inside the viewport seen
    /// at the last render.
    pub fn scroll_up(&mut self, delta: usize)
        requires
            app_wf(old(self)),
        ensures
            app_wf(final(self)),
            final(self).view_model == old(self).view_model,
            final(self).search == old(self).search,
            final(self).search_in_progress == old(self).search_in_progress,
            final(self).help_shown == old(self).help_shown,
            final(self).last_table_height == old(self).last_table_height,
            final(self).sheet_state.offset == if old(self).sheet_state.offset >= delta {
                old(self).sheet_state.offset - delta
            } else {
                0
            },
            final(self).sheet_state.selection == match old(self).sheet_state.last_rows_height {
                Some(h) => crate::sheet::spec_clamp_row_max(
                    old(self).sheet_state.selection,
                    (final(self).sheet_state.offset + h - 1) as usize,
                ),
                None => old(self).sheet_state.selection,
            },
            final(self).sheet_state.last_rows_height == old(self).sheet_state.last_rows_height,
    {
        self.sheet_state.scroll_up(delta);
    }

    /// Scroll the grid down by `delta` rows (dropped only at the machine
    /// limit), raising the selection to the new offset.
    pub fn scroll_down(&mut self, delta: usize)
        requires
            app_wf(old(self)),
            delta <= 65535,
        ensures
            app_wf(final(self)),
            final(self).view_model == old(self).view_model,
            final(self).search == old(self).search,
            final(self).search_in_progress == old(self).search_in_progress,
            final(self).help_shown == old(self).help_shown,
            final(self).last_table_height == old(self).last_table_height,
            ({
                let capped: int = if old(self).sheet_state.offset < usize::MAX - 131072 {
                    delta as int
                } else {
                    0
                };
                &&& final(self).sheet_state.offset == old(self).sheet_state.offset + capped
                &&& final(self).sheet_state.selection == crate::sheet::spec_clamp_row_min(
                    old(self).sheet_state.selection,
                    (old(self).sheet_state.offset + capped) as usize,
                )
            }),
            final(self).sheet_state.last_rows_height == old(self).sheet_state.last_rows_height,
    {
        let capped = if self.sheet_state.get_offset() < usize::MAX - 131072 {
            delta
        } else {
            0
        };
        self.sheet_state.scroll_down(capped);
    }
}


/// Whether a plain id list holds `id`.
fn contains_id(v: &Vec<i64>, id: i64) -> (r: bool)
    ensures
        r == v@.contains(id),
{
    let mut u: usize = 0;
    while u < v.len()
        invariant
            0 <= u <= v@.len(),
            forall|j: int| 0 <= j < u ==> v@[j] != id,
        decreases v@.len() - u,
    {
        if v[u] == id {
            proof {
                assert(v@.contains(id));
            }
            return true;
        }
        u = u + 1;
    }
    proof {
        if v@.contains(id) {
            let w = choose|w: int| 0 <= w < v@.len() && v@[w] == id;
            assert(false);
        }
    }
    false
}

impl App {
    /// The search text after a plain character is typed while the control
    /// key is held: a fresh search when none was in progress, extended by
    /// the character.
    pub open spec fn spec_search_grown(app: &App, c: char) -> Seq<char> {
        let base: Seq<char> = if app.search_in_progress {
            match app.search {
                Some(t) => t@,
                None => Seq::empty(),
            }
        } else {
            Seq::empty()
        };
        base.push(c)
    }

    /// Handle one input event: pure navigation and editing happen in
    /// place; store work comes back as an action for the caller. The
    /// returned flag says whether the event counted as activity.
    pub fn handle(&mut self, ev: InputEvent) -> (r: (bool, AppAction))
        requires
            app_wf(old(self)),
        ensures
            app_wf(final(self)),
            ev matches InputEvent::Key(Key::Letter(c), m, KeyKind::Press) ==> (m.control ==> (
            final(self).search matches Some(s) && s@ == App::spec_search_grown(old(self), c)
                && final(self).search_in_progress && final(self).sheet_state.selection
                == SheetSelection::Char(0, 2, 0) && r.0)),
            ev matches InputEvent::Key(Key::ControlKey, m, KeyKind::Press) ==> (final(self).search
                matches Some(s) && s@.len() == 0 && final(self).search_in_progress && final(self).sheet_state.selection == SheetSelection::Char(0, 2, 0) && r.0),
            ev matches InputEvent::Key(Key::ControlKey, m, KeyKind::Release) ==> (!final(self).search_in_progress && (match old(self).search {
                Some(s) => if s@.len() == 0 {
                    final(self).search is None
                } else {
                    final(self).search == old(self).search
                },
                None => final(self).search is None,
            }) && r.0),
            ev matches InputEvent::Key(Key::Function(n), m, k) ==> ((k == KeyKind::Press || k
                == KeyKind::Repeat) && !m.control ==> ((n == 1 ==> final(self).help_shown == !old(self).help_shown) && (n == 5 ==> r.1 is RefreshStore) && (n == 12 ==> r.1 is Quit))),
            ev matches InputEvent::Key(Key::Up, m, k) ==> (!m.control && (k == KeyKind::Press || k
                == KeyKind::Repeat) ==> final(self).sheet_state.selection == spec_move_up(
                old(self).sheet_state.selection,
                old(self).sheet_state.offset,
            )),
            ev matches InputEvent::Key(Key::Down, m, k) ==> (!m.control && (k == KeyKind::Press
                || k == KeyKind::Repeat) ==> final(self).sheet_state.selection == spec_move_down(
                old(self).sheet_state.selection,
                old(self).sheet_state.offset,
            )),
            ev matches InputEvent::Key(Key::Esc, m, k) ==> (!m.control && (k == KeyKind::Press
                || k == KeyKind::Repeat) ==> final(self).sheet_state.selection == spec_back_out(
                old(self).sheet_state.selection,
            )),
            ev matches InputEvent::Key(Key::Backspace, m, k) && m.alt && !m.control && (k
                == KeyKind::Press || k == KeyKind::Repeat) ==> (r.1 matches
                AppAction::PerformStore(acts) && acts@.len() > 0 && acts@.last() is Undo && final(self).view_model.edited_items@.len() == 0 && final(self).view_model.last_updated_checkpoint == 0),
            ev matches InputEvent::Key(Key::Home, m, k) ==> (!m.control && (k == KeyKind::Press
                || k == KeyKind::Repeat) ==> final(self).sheet_state.selection == match old(self).sheet_state.selection {
                SheetSelection::Char(r2, c2, _) => SheetSelection::Char(r2, c2, 0),
                s => s,
            }),
            ev matches InputEvent::Key(Key::Left, m, k) ==> (!m.control && !m.alt && (k
                == KeyKind::Press || k == KeyKind::Repeat) ==> final(self).sheet_state.selection
                == match old(self).sheet_state.selection {
                SheetSelection::Char(r2, c2, i2) => SheetSelection::Char(
                    r2,
                    c2,
                    if i2 > 0 {
                        (i2 - 1) as usize
                    } else {
                        0
                    },
                ),
                s => s,
            }),
            ev matches InputEvent::Key(Key::End, m, k) ==> (!m.control && (k == KeyKind::Press
                || k == KeyKind::Repeat) && (old(self).sheet_state.selection matches
            SheetSelection::Char(r2, c2, i2) && r2 < old(self).view_model.last_rendered_set.entries@.len() && c2 < old(self).view_model.last_rendered_set.columns@.len()) ==> final(self).sheet_state.selection
                == SheetSelection::Char(
                old(self).sheet_state.selection->Char_0,
                old(self).sheet_state.selection->Char_1,
                if old(self).view_model.last_rendered_set.columns@[old(self).sheet_state.selection->Char_1 as int].kind == ItemColumnKind::FullText {
                    old(self).view_model.last_rendered_set.entries@[old(self).sheet_state.selection->Char_0 as int].column_widths@[old(self).sheet_state.selection->Char_1 as int]
                } else {
                    0
                },
            )),
            ev matches InputEvent::Key(Key::Enter, m, k) ==> (m.alt && !m.control && (k
                == KeyKind::Press || k == KeyKind::Repeat) ==> ({
                let after: int = match spec_sel_row(old(self).sheet_state.selection) {
                    Some(rr) => rr as int,
                    None => 0,
                };
                &&& *final(self) == *old(self)
                &&& (after < old(self).view_model.last_rendered_set.entries@.len() ==> (r.1
                    matches AppAction::CreateItem { after_row, name, location, size } && after_row
                    == after && (match old(self).search {
                    Some(q) => name@ == crate::view_model::title_cased(
                        crate::unicode::word_segments_of(q@),
                    ),
                    None => name@.len() == 0,
                }) && location@ == old(self).view_model.last_rendered_set.entries@[after].item.location@
                    && size == crate::types::ItemSize::M))
                &&& (after >= old(self).view_model.last_rendered_set.entries@.len() ==> r.1
                    is Nothing)
            })),
            ev matches InputEvent::Key(Key::Delete, m, k) ==> (m.alt && !m.control && (k
                == KeyKind::Press || k == KeyKind::Repeat) && (spec_sel_row(
                old(self).sheet_state.selection,
            ) matches Some(rr) && rr < old(self).view_model.last_rendered_set.entries@.len())
                ==> (*final(self) == *old(self) && (r.1 matches AppAction::DeleteRecord {
                id,
                name,
                description,
            } && id == old(self).view_model.last_rendered_set.entries@[spec_sel_row(
                old(self).sheet_state.selection,
            )->Some_0 as int].id && name@ == old(self).view_model.last_rendered_set.entries@[spec_sel_row(
                old(self).sheet_state.selection,
            )->Some_0 as int].item.name@ && description@ == "delete item: "@ + old(self).view_model.last_rendered_set.entries@[spec_sel_row(
                old(self).sheet_state.selection,
            )->Some_0 as int].item.name@))),
            ev matches InputEvent::Key(Key::Letter(ch), m, k) ==> (m.alt && !m.control && m.shift
                && (ch == 's' || ch == 'S') && (k == KeyKind::Press || k == KeyKind::Repeat)
                ==> ({
                let entries = old(self).view_model.last_rendered_set.entries@;
                let dirty = old(self).view_model.edited_items@.filter(
                    crate::projection::in_ids(crate::projection::ids_of(entries)),
                );
                &&& final(self).view_model.edited_items@.len() == 0
                &&& final(self).view_model.last_rendered_set == old(self).view_model.last_rendered_set
                &&& r.1 matches AppAction::PersistWrites(ws)
                &&& ws@.len() == dirty.len()
                &&& (forall|q: int| 0 <= q < ws@.len() ==> (#[trigger] ws@[q]).id == dirty[q])
                &&& (forall|q: int|
                    0 <= q < ws@.len() ==> exists|j: int|
                        0 <= j < entries.len() && (#[trigger] ws@[q]).id == entries[j].id
                            && ws@[q].item@ == entries[j].item@ && ws@[q].description@
                            == "update item: "@ + entries[j].item.name@)
            })),
            ev matches InputEvent::Key(Key::Letter(ch), m, k) ==> (m.alt && !m.control && !m.shift
                && (ch == 's' || ch == 'S') && (k == KeyKind::Press || k == KeyKind::Repeat) && (
            spec_sel_row(old(self).sheet_state.selection) matches Some(rr) && rr < old(self).view_model.last_rendered_set.entries@.len()) ==> ({
                let row = spec_sel_row(old(self).sheet_state.selection)->Some_0 as int;
                let entry = old(self).view_model.last_rendered_set.entries@[row];
                let id = entry.id;
                &&& final(self).view_model.last_rendered_set == old(self).view_model.last_rendered_set
                &&& (if old(self).view_model.edited_items@.contains(id) {
                    &&& r.1 matches AppAction::PersistWrite(ow) && ow matches Some(w) && w.id
                        == id && w.item@ == entry.item@ && w.description@ == "update item: "@
                        + entry.item.name@
                    &&& final(self).view_model.edited_items@ == old(self).view_model.edited_items@.remove_value(id)
                } else {
                    &&& r.1 matches AppAction::PersistWrite(ow) && ow is None
                    &&& final(self).view_model.edited_items@ == old(self).view_model.edited_items@
                })
            })),
            ev matches InputEvent::Key(Key::Letter(ch), m, k) ==> (!m.control && !m.alt && (k
                == KeyKind::Press || k == KeyKind::Repeat) && (old(self).sheet_state.selection
                matches SheetSelection::Char(row, cell, i2) && row < old(self).view_model.last_rendered_set.entries@.len() && cell < old(self).view_model.last_rendered_set.columns@.len() && i2 < usize::MAX) ==> ({
                let row = old(self).sheet_state.selection->Char_0;
                let cell = old(self).sheet_state.selection->Char_1;
                let i2 = old(self).sheet_state.selection->Char_2;
                let typed = if m.shift {
                    crate::view_model::ascii_upper(ch)
                } else {
                    ch
                };
                let content = old(self).view_model.last_rendered_set.columns@[cell as int].content;
                let entries0 = old(self).view_model.last_rendered_set.entries@;
                let entries1 = final(self).view_model.last_rendered_set.entries@;
                &&& (crate::projection::spec_has_insert(content) ==> entries1[row as int].item@
                    == crate::projection::spec_insert_edit(
                    content,
                    entries0[row as int].item@,
                    i2 as int,
                    typed,
                ) && final(self).sheet_state.selection == SheetSelection::Char(
                    row,
                    cell,
                    crate::projection::spec_insert_cursor(
                        content,
                        entries0[row as int].item@,
                        i2 as int,
                        typed,
                    ) as usize,
                ) && final(self).view_model.edited_items@ == crate::view_model::mark_dirty(
                    old(self).view_model.edited_items@,
                    entries0[row as int].id,
                ))
                &&& (!crate::projection::spec_has_insert(content) ==> final(self).view_model
                    == old(self).view_model && final(self).sheet_state.selection
                    == SheetSelection::Char(row, cell, i2))
            })),
            ev matches InputEvent::Key(Key::Backspace, m, k) ==> (!m.control && !m.alt && (k
                == KeyKind::Press || k == KeyKind::Repeat) && (old(self).sheet_state.selection
                matches SheetSelection::Char(row, cell, i2) && i2 > 0 && row < old(self).view_model.last_rendered_set.entries@.len() && cell < old(self).view_model.last_rendered_set.columns@.len()) ==> ({
                let row = old(self).sheet_state.selection->Char_0;
                let cell = old(self).sheet_state.selection->Char_1;
                let i2 = old(self).sheet_state.selection->Char_2;
                let content = old(self).view_model.last_rendered_set.columns@[cell as int].content;
                let entries0 = old(self).view_model.last_rendered_set.entries@;
                let entries1 = final(self).view_model.last_rendered_set.entries@;
                &&& (crate::projection::spec_has_delete(content) ==> entries1[row as int].item@
                    == crate::projection::spec_delete_edit(
                    content,
                    entries0[row as int].item@,
                    i2 - 1,
                ))
                &&& (!crate::projection::spec_has_delete(content) ==> final(self).view_model
                    == old(self).view_model)
                &&& final(self).sheet_state.selection == SheetSelection::Char(
                    row,
                    cell,
                    (i2 - 1) as usize,
                )
            })),
            ev matches InputEvent::Key(Key::Delete, m, k) ==> (!m.control && !m.alt && (k
                == KeyKind::Press || k == KeyKind::Repeat) && (old(self).sheet_state.selection
                matches SheetSelection::Char(row, cell, i2) && row < old(self).view_model.last_rendered_set.entries@.len() && cell < old(self).view_model.last_rendered_set.columns@.len()) ==> ({
                let row = old(self).sheet_state.selection->Char_0;
                let cell = old(self).sheet_state.selection->Char_1;
                let i2 = old(self).sheet_state.selection->Char_2;
                let content = old(self).view_model.last_rendered_set.columns@[cell as int].content;
                let entries0 = old(self).view_model.last_rendered_set.entries@;
                let entries1 = final(self).view_model.last_rendered_set.entries@;
                &&& (crate::projection::spec_has_delete(content) ==> entries1[row as int].item@
                    == crate::projection::spec_delete_edit(
                    content,
                    entries0[row as int].item@,
                    i2 as int,
                ))
                &&& (!crate::projection::spec_has_delete(content) ==> final(self).view_model
                    == old(self).view_model)
                &&& final(self).sheet_state.selection == old(self).sheet_state.selection
            })),
            ev matches InputEvent::Key(Key::PageUp, m, k) ==> (!m.control && (k == KeyKind::Press
                || k == KeyKind::Repeat) ==> (old(self).last_table_height matches Some(h) ==> ({
                let delta: int = if h > 3 {
                    h - 3
                } else {
                    0
                };
                final(self).sheet_state.offset == if old(self).sheet_state.offset >= delta {
                    old(self).sheet_state.offset - delta
                } else {
                    0int
                }
            }))),
            ev matches InputEvent::Key(Key::PageDown, m, k) ==> (!m.control && (k
                == KeyKind::Press || k == KeyKind::Repeat) && old(self).sheet_state.offset
                < usize::MAX - 131072 ==> (old(self).last_table_height matches Some(h) ==> ({
                let delta: int = if h > 3 {
                    h - 3
                } else {
                    0
                };
                final(self).sheet_state.offset == old(self).sheet_state.offset + delta
            }))),
            ev is ScrollUp ==> final(self).sheet_state.offset == if old(self).sheet_state.offset
                >= 3 {
                (old(self).sheet_state.offset - 3) as usize
            } else {
                0
            },
            ev is ScrollDown && old(self).sheet_state.offset < usize::MAX - 131072 ==> final(self).sheet_state.offset == old(self).sheet_state.offset + 3,
            ev is Resize ==> (*final(self) == *old(self) && r.0 && r.1 is Nothing),
    {
        match ev {
            InputEvent::Key(code, m, kind) => {
                if m.control && !m.alt || m.control && m.alt {
                    if kind == KeyKind::Press {
                        if let Key::Letter(c) = code {
                            let mut s = if self.search_in_progress {
                                match &self.search {
                                    Some(t) => crate::text::clone_string(t),
                                    None => String::new(),
                                }
                            } else {
                                String::new()
                            };
                            push_char(&mut s, c);
                            self.search = Some(s);
                            self.search_in_progress = true;
                            self.reset_selection();
                            return (true, AppAction::Nothing);
                        }
                    }
                }
                if code == Key::ControlKey {
                    match kind {
                        KeyKind::Press => {
                            self.search = Some(String::new());
                            self.search_in_progress = true;
                            self.reset_selection();
                            return (true, AppAction::Nothing);
                        },
                        KeyKind::Release => {
                            self.search_in_progress = false;
                            let clear = match &self.search {
                                Some(s) => s.as_str().unicode_len() == 0,
                                None => true,
                            };
                            if clear {
                                self.search = None;
                            }
                            return (true, AppAction::Nothing);
                        },
                        KeyKind::Repeat => {
                            return (false, AppAction::Nothing);
                        },
                    }
                }
                if m.control {
                    return (false, AppAction::Nothing);
                }
                if kind == KeyKind::Release {
                    return (false, AppAction::Nothing);
                }
                match code {
                    Key::Function(1) => {
                        self.help_shown = !self.help_shown;
                        (true, AppAction::Nothing)
                    },
                    Key::Function(5) => (true, AppAction::RefreshStore),
                    Key::Function(12) => (true, AppAction::Quit),
                    Key::Backspace if m.alt => {
                        self.prune_missing_edits();
                        let actions = self.view_model.undo();
                        (true, AppAction::PerformStore(actions))
                    },
                    Key::Enter if m.alt => {
                        let after_row = match self.sheet_state.selection().row() {
                            Some(r) => r,
                            None => 0,
                        };
                        if after_row < self.view_model.row_count() {
                            let name = crate::view_model::item_name_from_search(&self.search);
                            let location = crate::projection::clone_location(
                                &self.view_model.last_rendered_set.entries[after_row].item.location,
                            );
                            (
                                true,
                                AppAction::CreateItem {
                                    after_row,
                                    name,
                                    location,
                                    size: crate::types::ItemSize::M,
                                },
                            )
                        } else {
                            (true, AppAction::Nothing)
                        }
                    },
                    Key::Delete if m.alt => {
                        match self.sheet_state.selection().row() {
                            Some(row) => {
                                if row < self.view_model.row_count() {
                                    let (id, name, description) = self.view_model.delete_item(row);
                                    (true, AppAction::DeleteRecord { id, name, description })
                                } else {
                                    (true, AppAction::Nothing)
                                }
                            },
                            None => (true, AppAction::Nothing),
                        }
                    },
                    Key::Letter(ch) if m.alt && (ch == 's' || ch == 'S') && m.shift => {
                        self.prune_missing_edits();
                        let writes = self.view_model.persist_pending_edits();
                        (true, AppAction::PersistWrites(writes))
                    },
                    Key::Letter(ch) if m.alt && (ch == 's' || ch == 'S') => {
                        match self.sheet_state.selection().row() {
                            Some(row) => {
                                if row < self.view_model.row_count() {
                                    let w = self.view_model.persist_current_pending_edit(row);
                                    (true, AppAction::PersistWrite(w))
                                } else {
                                    (true, AppAction::Nothing)
                                }
                            },
                            None => (true, AppAction::Nothing),
                        }
                    },
                    Key::Up => {
                        self.move_up();
                        (true, AppAction::Nothing)
                    },
                    Key::Down => {
                        self.move_down();
                        (true, AppAction::Nothing)
                    },
                    Key::Left if m.alt => {
                        self.move_to_cell_rel(-1);
                        (true, AppAction::Nothing)
                    },
                    Key::Right if m.alt => {
                        self.move_to_cell_rel(1);
                        (true, AppAction::Nothing)
                    },
                    Key::Esc => {
                        self.back_out();
                        (true, AppAction::Nothing)
                    },
                    Key::PageUp => {
                        match self.last_table_height {
                            Some(h) => {
                                let delta = if h > 3 {
                                    h - 3
                                } else {
                                    0
                                };
                                self.scroll_up(delta);
                            },
                            None => {},
                        }
                        (true, AppAction::Nothing)
                    },
                    Key::PageDown => {
                        match self.last_table_height {
                            Some(h) => {
                                let delta = if h > 3 {
                                    h - 3
                                } else {
                                    0
                                };
                                self.scroll_down(delta);
                            },
                            None => {},
                        }
                        (true, AppAction::Nothing)
                    },
                    Key::Home => {
                        self.move_char_first();
                        (true, AppAction::Nothing)
                    },
                    Key::End => {
                        let in_bounds = match self.sheet_state.selection() {
                            SheetSelection::Char(r, c, _) => r < self.view_model.row_count() && c
                                < self.view_model.last_rendered_set.columns.len(),
                            _ => true,
                        };
                        if in_bounds {
                            self.move_char_end();
                        }
                        (true, AppAction::Nothing)
                    },
                    Key::Left => {
                        self.move_char_left();
                        (true, AppAction::Nothing)
                    },
                    Key::Right => {
                        let in_bounds = match self.sheet_state.selection() {
                            SheetSelection::Char(r, c, _) => r < self.view_model.row_count() && c
                                < self.view_model.last_rendered_set.columns.len(),
                            _ => true,
                        };
                        if in_bounds {
                            self.move_char_right();
                        }
                        (true, AppAction::Nothing)
                    },
                    Key::Backspace => {
                        if let SheetSelection::Char(row, cell, i) = self.sheet_state.selection() {
                            if i > 0 && row < self.view_model.row_count() && cell
                                < self.view_model.last_rendered_set.columns.len() {
                                let new_i = i - 1;
                                self.view_model.delete_char(row, cell, new_i);
                                self.sheet_state.select(SheetSelection::Char(row, cell, new_i));
                            }
                        }
                        (true, AppAction::Nothing)
                    },
                    Key::Delete => {
                        if let SheetSelection::Char(row, cell, i) = self.sheet_state.selection() {
                            if row < self.view_model.row_count() && cell
                                < self.view_model.last_rendered_set.columns.len() {
                                self.view_model.delete_char(row, cell, i);
                            }
                        }
                        (true, AppAction::Nothing)
                    },
                    Key::Letter(orig_c) => {
                        let c = if m.shift {
                            crate::view_model::ascii_upper_exec(orig_c)
                        } else {
                            orig_c
                        };
                        match self.sheet_state.selection() {
                            SheetSelection::Char(row, cell, i) => {
                                if row < self.view_model.row_count() && cell
                                    < self.view_model.last_rendered_set.columns.len() && i
                                    < usize::MAX {
                                    let new_i = self.view_model.insert_char(row, cell, i, c);
                                    self.sheet_state.select(
                                        SheetSelection::Char(row, cell, new_i),
                                    );
                                }
                                (true, AppAction::Nothing)
                            },
                            SheetSelection::Cell(row, cell) => {
                                if row < self.view_model.row_count() && cell
                                    < self.view_model.last_rendered_set.columns.len() {
                                    self.view_model.insert_char(row, cell, 0, c);
                                }
                                (true, AppAction::Nothing)
                            },
                            _ => (true, AppAction::Nothing),
                        }
                    },
                    _ => (false, AppAction::Nothing),
                }
            },
            InputEvent::ScrollUp => {
                self.scroll_up(3);
                (true, AppAction::Nothing)
            },
            InputEvent::ScrollDown => {
                self.scroll_down(3);
                (true, AppAction::Nothing)
            },
            InputEvent::Resize => (true, AppAction::Nothing),
        }
    }

    /// When the idle timeout passes with pending edits, flush them all in
    /// one batch: exactly one write per dirty record.
    pub fn handle_idle(&mut self) -> (r: AppAction)
        requires
            app_wf(old(self)),
        ensures
            app_wf(final(self)),
            final(self).view_model.edited_items@.len() == 0,
            final(self).view_model.last_rendered_set == old(self).view_model.last_rendered_set,
            final(self).view_model.last_fetched_items == old(self).view_model.last_fetched_items,
            final(self).view_model.last_updated_checkpoint == old(
                self,
            ).view_model.last_updated_checkpoint,
            final(self).sheet_state == old(self).sheet_state,
            final(self).search == old(self).search,
            old(self).view_model.edited_items@.len() == 0 ==> (r is Nothing && *final(self)
                == *old(self)),
            old(self).view_model.edited_items@.len() > 0 ==> ({
                let entries = old(self).view_model.last_rendered_set.entries@;
                let dirty = old(self).view_model.edited_items@.filter(
                    crate::projection::in_ids(crate::projection::ids_of(entries)),
                );
                &&& r matches AppAction::PersistWrites(ws)
                &&& ws@.len() == dirty.len()
                &&& (forall|k: int| 0 <= k < ws@.len() ==> (#[trigger] ws@[k]).id == dirty[k])
                &&& (forall|k: int|
                    0 <= k < ws@.len() ==> exists|j: int|
                        0 <= j < entries.len() && (#[trigger] ws@[k]).id == entries[j].id
                            && ws@[k].item@ == entries[j].item@ && ws@[k].description@
                            == "update item: "@ + entries[j].item.name@)
            }),
    {
        if self.view_model.edited_items.len() == 0 {
            return AppAction::Nothing;
        }
        self.prune_missing_edits();
        let writes = self.view_model.persist_pending_edits();
        AppAction::PersistWrites(writes)
    }

    /// Drop dirty marks whose record no longer has a visible row, so a
    /// flush never addresses a vanished record; the rest keep their
    /// marking order.
    fn prune_missing_edits(&mut self)
        requires
            app_wf(old(self)),
        ensures
            app_wf(final(self)),
            final(self).view_model.last_rendered_set == old(self).view_model.last_rendered_set,
            final(self).view_model.last_fetched_items == old(self).view_model.last_fetched_items,
            final(self).view_model.last_updated_checkpoint == old(
                self,
            ).view_model.last_updated_checkpoint,
            final(self).sheet_state == old(self).sheet_state,
            final(self).search == old(self).search,
            final(self).search_in_progress == old(self).search_in_progress,
            final(self).help_shown == old(self).help_shown,
            final(self).last_table_height == old(self).last_table_height,
            final(self).view_model.edited_items@ == old(self).view_model.edited_items@.filter(
                crate::projection::in_ids(
                    crate::projection::ids_of(old(self).view_model.last_rendered_set.entries@),
                ),
            ),
    {
        let ghost visible = crate::projection::in_ids(
            crate::projection::ids_of(self.view_model.last_rendered_set.entries@),
        );
        let mut pruned: Vec<i64> = Vec::new();
        let mut k: usize = 0;
        let n = self.view_model.edited_items.len();
        proof {
            assert(self.view_model.edited_items@.take(0) =~= Seq::<i64>::empty());
            crate::projection::lemma_filter_push(
                Seq::<i64>::empty(),
                0i64,
                visible,
            );
            assert(Seq::<i64>::empty().filter(visible) =~= Seq::<i64>::empty()) by {
                crate::projection::lemma_filter_no_dup(Seq::<i64>::empty(), visible);
                Seq::<i64>::empty().lemma_filter_len(visible);
                assert(Seq::<i64>::empty().filter(visible).len() == 0);
            }
        }
        while k < n
            invariant
                0 <= k <= n,
                app_wf(old(self)),
                self == old(self),
                n == self.view_model.edited_items@.len(),
                visible == crate::projection::in_ids(
                    crate::projection::ids_of(self.view_model.last_rendered_set.entries@),
                ),
                pruned@ == self.view_model.edited_items@.take(k as int).filter(visible),
            decreases n - k,
        {
            let id = self.view_model.edited_items[k];
            let mut present = false;
            let mut t: usize = 0;
            let m = self.view_model.last_rendered_set.entries.len();
            while t < m
                invariant
                    0 <= t <= m,
                    self == old(self),
                    m == self.view_model.last_rendered_set.entries@.len(),
                    id == self.view_model.edited_items@[k as int],
                    k < self.view_model.edited_items@.len(),
                    present ==> crate::projection::ids_of(
                        self.view_model.last_rendered_set.entries@,
                    ).contains(id),
                    !present ==> forall|u: int|
                        0 <= u < t ==> (
                        #[trigger] self.view_model.last_rendered_set.entries@[u]).id != id,
                decreases m - t,
            {
                if self.view_model.last_rendered_set.entries[t].id == id {
                    proof {
                        assert(crate::projection::ids_of(
                            self.view_model.last_rendered_set.entries@,
                        )[t as int] == id);
                    }
                    present = true;
                }
                t = t + 1;
            }
            proof {
                let ids = crate::projection::ids_of(self.view_model.last_rendered_set.entries@);
                if !present && ids.contains(id) {
                    let w = choose|w: int| 0 <= w < ids.len() && ids[w] == id;
                    assert(self.view_model.last_rendered_set.entries@[w].id == id);
                    assert(false);
                }
                assert(present == visible(id));
                crate::projection::lemma_filter_push(
                    self.view_model.edited_items@.take(k as int),
                    id,
                    visible,
                );
                assert(self.view_model.edited_items@.take(k + 1)
                    =~= self.view_model.edited_items@.take(k as int).push(id));
            }
            if present {
                pruned.push(id);
            }
            k = k + 1;
        }
        proof {
            assert(self.view_model.edited_items@.take(n as int)
                =~= self.view_model.edited_items@);
            crate::projection::lemma_filter_no_dup(self.view_model.edited_items@, visible);
        }
        self.view_model.edited_items = pruned;
    }

    /// After the caller created the record below `after_row`, splice it in
    /// and step the selection onto it.
    pub fn complete_insert_item(&mut self, after_row: usize, item: &crate::types::Item)
        requires
            app_wf(old(self)),
            after_row < old(self).view_model.last_rendered_set.entries@.len(),
            item.object_id is Some,
            !crate::projection::ids_of(old(self).view_model.last_rendered_set.entries@).contains(
                item.object_id->Some_0,
            ),
        ensures
            app_wf(final(self)),
            final(self).view_model.last_rendered_set.entries@.len() == old(self).view_model.last_rendered_set.entries@.len() + 1,
            final(self).view_model.last_rendered_set.entries@[after_row + 1].item@ == item@,
            final(self).sheet_state.selection == match old(self).sheet_state.selection {
                SheetSelection::Unselected => SheetSelection::Row(0),
                s => spec_with_row(
                    s,
                    ({
                        let r = spec_sel_row(s)->Some_0;
                        if r < usize::MAX - 2 {
                            (r + 1) as usize
                        } else {
                            r
                        }
                    }),
                ),
            },
    {
        self.view_model.insert_item(after_row, item);
        let sel = match self.sheet_state.selection() {
            SheetSelection::Unselected => SheetSelection::Row(0),
            SheetSelection::Row(r) => SheetSelection::Row(
                if r < usize::MAX - 2 {
                    r + 1
                } else {
                    r
                },
            ),
            SheetSelection::Cell(r, c) => SheetSelection::Cell(
                if r < usize::MAX - 2 {
                    r + 1
                } else {
                    r
                },
                c,
            ),
            SheetSelection::Char(r, c, i) => SheetSelection::Char(
                if r < usize::MAX - 2 {
                    r + 1
                } else {
                    r
                },
                c,
                i,
            ),
        };
        self.sheet_state.select(sel);
    }

    /// Take in a fresh record set after the caller asked the store.
    pub fn apply_refresh(&mut self, items: Vec<crate::types::Item>, checkpoint: u64)
        requires
            app_wf(old(self)),
            forall|j: int|
                0 <= j < items@.len() ==> (#[trigger] items@[j]).object_id is Some,
            crate::projection::item_ids_of(items@).no_duplicates(),
        ensures
            app_wf(final(self)),
            final(self).view_model.last_fetched_items == items,
            final(self).view_model.last_updated_checkpoint == checkpoint,
    {
        self.view_model.refresh(items, checkpoint);
    }

    /// Remember the grid height of the last render, for paging.
    pub fn set_last_table_height(&mut self, height: usize)
        requires
            app_wf(old(self)),
        ensures
            app_wf(final(self)),
            final(self).last_table_height == Some(
                if height <= 65536 {
                    height
                } else {
                    65536
                },
            ),
    {
        self.last_table_height = Some(
            if height <= 65536 {
                height
            } else {
                65536
            },
        );
    }
}


/// The selection a render pass works with: row and column clamped to the
/// rendered bounds, and a character cursor clamped to its cell (or degraded
/// to a cell selection where the column has no cursor).
pub open spec fn spec_render_selection(
    s: SheetSelection,
    set: ItemColumnRenderedSet,
    rc: int,
) -> SheetSelection {
    let ncols = set.columns@.len() as int;
    let n = spec_normalize(s, (ncols - 1) as usize, (rc - 1) as usize);
    match n {
        SheetSelection::Char(r2, c2, i2) => spec_normalize_char(
            n,
            if set.columns@[c2 as int].kind == ItemColumnKind::FullText {
                Some(set.entries@[r2 as int].column_widths@[c2 as int])
            } else {
                None
            },
        ),
        _ => n,
    }
}

impl App {
    /// Make the grid state fit the rows about to be painted: clamp stale
    /// selection indices, remember the viewport height, and compute the
    /// visible window, sliding it the minimum needed to keep the selected
    /// row in view. An empty table or a zero-height viewport changes
    /// nothing.
    pub fn prepare_render(&mut self, viewport_rows: u16) -> (r: (usize, usize))
        requires
            app_wf(old(self)),
        ensures
            app_wf(final(self)),
            final(self).view_model == old(self).view_model,
            final(self).search == old(self).search,
            final(self).search_in_progress == old(self).search_in_progress,
            final(self).help_shown == old(self).help_shown,
            final(self).last_table_height == old(self).last_table_height,
            old(self).view_model.last_rendered_set.entries@.len() == 0 || viewport_rows == 0 ==> (
            *final(self) == *old(self) && r == (0usize, 0usize)),
            old(self).view_model.last_rendered_set.entries@.len() > 0 && viewport_rows > 0 ==> ({
                let rc: int = if old(self).view_model.last_rendered_set.entries@.len() > 65535 {
                    65535int
                } else {
                    old(self).view_model.last_rendered_set.entries@.len() as int
                };
                let sel = spec_render_selection(
                    old(self).sheet_state.selection,
                    old(self).view_model.last_rendered_set,
                    rc,
                );
                &&& final(self).sheet_state.selection == sel
                &&& final(self).sheet_state.last_rows_height == Some(viewport_rows)
                &&& final(self).sheet_state.offset == r.0
                &&& r.0 <= r.1 <= rc
                &&& r.1 - r.0 <= viewport_rows
                &&& (spec_sel_row(sel) matches Some(rr) ==> r.0 <= rr < r.1)
            }),
    {
        let rc_full = self.view_model.row_count();
        if rc_full == 0 || viewport_rows == 0 {
            return (0, 0);
        }
        let rc: usize = if rc_full > 65535 {
            65535
        } else {
            rc_full
        };
        let ncols = self.view_model.last_rendered_set.columns.len();
        let mut sel = self.sheet_state.selection();
        sel.normalize(ncols - 1, rc - 1);
        let sel2 = match sel {
            SheetSelection::Char(r2, c2, i2) => {
                let cell_len = self.view_model.get_column_len(r2, c2);
                let mut s2 = sel;
                s2.normalize_char_position(cell_len);
                proof {
                    assert(s2 == spec_render_selection(
                        old(self).sheet_state.selection,
                        self.view_model.last_rendered_set,
                        rc as int,
                    ));
                }
                s2
            },
            s => s,
        };
        self.sheet_state.selection = sel2;
        let mut heights: Vec<RowHeight> = Vec::new();
        let mut k: usize = 0;
        while k < rc
            invariant
                0 <= k <= rc,
                heights@.len() == k,
                forall|m: int|
                    0 <= m < k ==> (#[trigger] heights@[m]).height == 1
                        && heights@[m].bottom_margin == 0,
            decreases rc - k,
        {
            heights.push(RowHeight { height: 1, bottom_margin: 0 });
            k = k + 1;
        }
        proof {
            crate::sheet::lemma_uniform_sum(heights@, 0, rc as int);
        }
        let (start, end) = get_row_bounds(
            &heights,
            sel2.row(),
            self.sheet_state.get_offset(),
            viewport_rows,
        );
        proof {
            crate::sheet::lemma_uniform_sum(heights@, start as int, end as int);
        }
        self.sheet_state.offset = start;
        self.sheet_state.last_rows_height = Some(viewport_rows);
        (start, end)
    }
}

} // verus!
