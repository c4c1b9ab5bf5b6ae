//! The item-column view-model: it holds the last records fetched from the
//! store, drives the projection, dispatches character edits, batches dirty
//! records for deferred persistence, and plans undo.
//!
//! The store itself is an outside collaborator; the view-model works on
//! fetched values and returns the writes the caller must perform.

use vstd::prelude::*;

use crate::projection::{
    ids_of, item_ids_of, set_wf, spec_delete_edit, spec_has_delete, spec_has_insert,
    spec_insert_cursor, spec_insert_edit, ItemColumn, ItemColumnKind, ItemColumnRenderedSet,
    ItemColumnWidth,
};
use crate::text::push_char;
use crate::types::Item;
use crate::unicode::word_segments_of;

verus! {

/// One pending write: persist `item` under `id`, committed with a
/// human-readable description.
pub struct StoreWrite {
    pub id: i64,
    pub item: Item,
    pub description: String,
}

/// One store operation the caller must perform, in order.
pub enum StoreAction {
    Write(StoreWrite),
    Undo,
}

/// The uppercased form of an ASCII letter; other characters are unchanged.
pub open spec fn ascii_upper(c: char) -> char {
    if 'a' as int <= c as int <= 'z' as int {
        (c as int - 32) as char
    } else {
        c
    }
}

/// A segment with its first character uppercased.
pub open spec fn upper_first(s: Seq<char>) -> Seq<char> {
    if s.len() == 0 {
        s
    } else {
        seq![ascii_upper(s[0])] + s.skip(1)
    }
}

/// The segments joined, each with its first character uppercased.
pub open spec fn title_cased(segs: Seq<Seq<char>>) -> Seq<char>
    decreases segs.len(),
{
    if segs.len() == 0 {
        Seq::empty()
    } else {
        title_cased(segs.drop_last()) + upper_first(segs.last())
    }
}

/// Uppercase an ASCII letter.
pub fn ascii_upper_exec(c: char) -> (r: char)
    ensures
        r == ascii_upper(c),
{
    if c >= 'a' && c <= 'z' {
        let b: u8 = (c as u8) - 32;
        b as char
    } else {
        c
    }
}

/// The default name for a new item, derived from the search in progress:
/// each word-bound segment with its first letter uppercased, whitespace
/// and punctuation preserved; empty when no search is active.
pub fn item_name_from_search(search: &Option<String>) -> (r: String)
    ensures
        match search {
            Some(s) => r@ == title_cased(word_segments_of(s@)),
            None => r@.len() == 0,
        },
{
    let s = match search {
        Some(s) => s,
        None => { return String::new() },
    };
    let segs = crate::unicode::word_bounds_vec(s.as_str());
    let ghost views = crate::unicode::seg_views(segs@);
    let mut out = String::new();
    let mut k: usize = 0;
    proof {
        assert(views.take(0) =~= Seq::<Seq<char>>::empty());
    }
    while k < segs.len()
        invariant
            0 <= k <= segs@.len(),
            views == crate::unicode::seg_views(segs@),
            views == word_segments_of(s@),
            forall|j: int| 0 <= j < segs@.len() ==> (#[trigger] segs@[j])@.len() > 0,
            out@ == title_cased(views.take(k as int)),
        decreases segs@.len() - k,
    {
        let seg = &segs[k];
        let first = seg.as_str().get_char(0);
        push_char(&mut out, ascii_upper_exec(first));
        let rest = seg.as_str().substring_char(1, seg.as_str().unicode_len());
        out.append(rest);
        proof {
            assert(views[k as int] == seg@);
            assert(rest@ =~= seg@.skip(1)) by {
                assert(seg@.subrange(1, seg@.len() as int) =~= seg@.skip(1));
            }
            assert(views.take(k + 1).drop_last() =~= views.take(k as int));
            assert(views.take(k + 1).last() == views[k as int]);
            assert(upper_first(seg@) =~= seq![ascii_upper(seg@[0])] + seg@.skip(1));
            assert(out@ =~= title_cased(views.take(k as int)) + upper_first(views[k as int]));
        }
        k = k + 1;
    }
    proof {
        assert(views.take(views.len() as int) =~= views);
    }
    out
}

/// A dirty-set with `id` marked: unchanged if already marked, else with
/// `id` appended.
pub open spec fn mark_dirty(s: Seq<i64>, id: i64) -> Seq<i64> {
    if s.contains(id) {
        s
    } else {
        s.push(id)
    }
}

/// The view-model: the records and revision last fetched, the projection
/// built over them, and the set of record ids with uncommitted edits.
pub struct ItemColumnViewModel {
    pub last_fetched_items: Vec<Item>,
    pub last_updated_checkpoint: u64,
    pub last_rendered_set: ItemColumnRenderedSet,
    pub edited_items: Vec<i64>,
}

/// The view-model's invariant: a sound projection, a non-empty schema,
/// well-identified records, and a duplicate-free dirty set.
pub open spec fn vm_wf(vm: &ItemColumnViewModel) -> bool {
    &&& set_wf(&vm.last_rendered_set)
    &&& vm.last_rendered_set.columns@.len() > 0
    &&& forall|j: int|
        0 <= j < vm.last_fetched_items@.len() ==> (#[trigger] vm.last_fetched_items@[j]).object_id
            is Some
    &&& item_ids_of(vm.last_fetched_items@).no_duplicates()
    &&& vm.edited_items@.no_duplicates()
}

impl ItemColumnViewModel {
    /// A fresh view-model over a column schema.
    pub fn new(columns: Vec<ItemColumn>) -> (r: ItemColumnViewModel)
        requires
            columns@.len() > 0,
        ensures
            vm_wf(&r),
            r.last_rendered_set.columns == columns,
            r.last_fetched_items@.len() == 0,
            r.last_updated_checkpoint == 0,
            r.last_rendered_set.entries@.len() == 0,
            r.edited_items@.len() == 0,
    {
        ItemColumnViewModel {
            last_fetched_items: Vec::new(),
            last_updated_checkpoint: 0,
            last_rendered_set: ItemColumnRenderedSet::new(columns),
            edited_items: Vec::new(),
        }
    }

    /// Take in a freshly fetched record set and the revision it reflects.
    pub fn refresh(&mut self, items: Vec<Item>, checkpoint: u64)
        requires
            vm_wf(old(self)),
            forall|j: int| 0 <= j < items@.len() ==> (#[trigger] items@[j]).object_id is Some,
            item_ids_of(items@).no_duplicates(),
        ensures
            vm_wf(final(self)),
            final(self).last_fetched_items == items,
            final(self).last_updated_checkpoint == checkpoint,
            final(self).last_rendered_set == old(self).last_rendered_set,
            final(self).edited_items == old(self).edited_items,
    {
        self.last_fetched_items = items;
        self.last_updated_checkpoint = checkpoint;
    }

    /// Whether the store must be asked again: it reports changes past the
    /// revision last seen.
    pub fn needs_refresh(&self, store_modified: bool) -> (r: bool)
        ensures
            r == store_modified,
    {
        store_modified
    }

    /// Rebuild the projection for the current records and a search (a
    /// no-op when it already reflects them), and hand back the header
    /// labels and the width policy and needed width of each column.
    pub fn render(&mut self, search: &Option<String>) -> (r: (
        Vec<String>,
        Vec<(ItemColumnWidth, usize)>,
    ))
        requires
            vm_wf(old(self)),
        ensures
            vm_wf(final(self)),
            final(self).last_fetched_items == old(self).last_fetched_items,
            final(self).last_updated_checkpoint == old(self).last_updated_checkpoint,
            final(self).edited_items == old(self).edited_items,
            final(self).last_rendered_set.columns == old(self).last_rendered_set.columns,
            crate::projection::search_eq(*search, old(self).last_rendered_set.search) && old(self).last_updated_checkpoint == old(self).last_rendered_set.checkpoint ==> final(self).last_rendered_set == old(self).last_rendered_set,
            !(crate::projection::search_eq(*search, old(self).last_rendered_set.search) && old(self).last_updated_checkpoint == old(self).last_rendered_set.checkpoint)
                ==> crate::projection::spec_regenerated(
                old(self).last_rendered_set,
                final(self).last_rendered_set,
                old(self).last_fetched_items@,
                old(self).last_updated_checkpoint,
                *search,
            ),
            r.0@.len() == final(self).last_rendered_set.columns@.len(),
            forall|j: int|
                0 <= j < r.0@.len() ==> (#[trigger] r.0@[j])@ == final(self).last_rendered_set.columns@[j].header@,
            r.1@.len() == final(self).last_rendered_set.columns@.len(),
            forall|j: int|
                0 <= j < r.1@.len() ==> (#[trigger] r.1@[j]).0 == final(self).last_rendered_set.columns@[j].width,
            forall|j: int|
                0 <= j < r.1@.len() ==> (#[trigger] r.1@[j]).1 >= final(self).last_rendered_set.columns@[j].header@.len() && forall|k: int|
                    0 <= k < final(self).last_rendered_set.entries@.len() ==> r.1@[j].1 >= (
                    #[trigger] final(self).last_rendered_set.entries@[k]).column_widths@[j],
            forall|j: int|
                0 <= j < r.1@.len() ==> (#[trigger] r.1@[j]).1 == final(self).last_rendered_set.columns@[j].header@.len() || exists|k: int|
                    0 <= k < final(self).last_rendered_set.entries@.len() && r.1@[j].1 == (
                    #[trigger] final(self).last_rendered_set.entries@[k]).column_widths@[j],
    {
        let search_copy = match search {
            Some(s) => Some(crate::text::clone_string(s)),
            None => None,
        };
        self.last_rendered_set.regenerate_if_needed(
            &self.last_fetched_items,
            self.last_updated_checkpoint,
            search_copy,
        );
        let ncols = self.last_rendered_set.columns.len();
        let mut headers: Vec<String> = Vec::new();
        let mut constraints: Vec<(ItemColumnWidth, usize)> = Vec::new();
        let mut j: usize = 0;
        while j < ncols
            invariant
                0 <= j <= ncols,
                ncols == self.last_rendered_set.columns@.len(),
                vm_wf(self),
                headers@.len() == j,
                constraints@.len() == j,
                forall|k: int|
                    0 <= k < j ==> (#[trigger] headers@[k])@
                        == self.last_rendered_set.columns@[k].header@,
                forall|k: int|
                    0 <= k < j ==> (#[trigger] constraints@[k]).0
                        == self.last_rendered_set.columns@[k].width,
                forall|k: int|
                    0 <= k < j ==> (#[trigger] constraints@[k]).1
                        >= self.last_rendered_set.columns@[k].header@.len() && forall|m: int|
                        0 <= m < self.last_rendered_set.entries@.len() ==> constraints@[k].1 >= (
                        #[trigger] self.last_rendered_set.entries@[m]).column_widths@[k],
                forall|k: int|
                    0 <= k < j ==> (#[trigger] constraints@[k]).1
                        == self.last_rendered_set.columns@[k].header@.len() || exists|m: int|
                        0 <= m < self.last_rendered_set.entries@.len() && constraints@[k].1 == (
                        #[trigger] self.last_rendered_set.entries@[m]).column_widths@[k],
            decreases ncols - j,
        {
            headers.push(crate::text::clone_string(&self.last_rendered_set.columns[j].header));
            let w = self.last_rendered_set.max_column_width(j);
            let policy = self.last_rendered_set.columns[j].width;
            constraints.push((policy, w));
            j = j + 1;
        }
        (headers, constraints)
    }

    /// The number of visible rows.
    pub fn row_count(&self) -> (r: usize)
        ensures
            r == self.last_rendered_set.entries@.len(),
    {
        self.last_rendered_set.entries.len()
    }

    /// The record id shown at a row.
    pub fn row_id(&self, row: usize) -> (r: i64)
        requires
            row < self.last_rendered_set.entries@.len(),
        ensures
            r == self.last_rendered_set.entries@[row as int].id,
    {
        self.last_rendered_set.entries[row].id
    }

    /// The index of the rightmost column.
    pub fn rightmost_column_index(&self) -> (r: usize)
        requires
            self.last_rendered_set.columns@.len() > 0,
        ensures
            r == self.last_rendered_set.columns@.len() - 1,
    {
        self.last_rendered_set.columns.len() - 1
    }

    /// A column index moved by `offset`, saturating at the first and last
    /// columns.
    pub fn column_index_saturating_add(&self, column_index: usize, offset: isize) -> (r: usize)
        requires
            self.last_rendered_set.columns@.len() > 0,
        ensures
            r == {
                let max = self.last_rendered_set.columns@.len() - 1;
                if column_index + offset < 0 {
                    0
                } else if column_index + offset > max {
                    max as int
                } else {
                    column_index + offset
                }
            },
    {
        let max = self.rightmost_column_index();
        if offset >= 0 {
            let off = offset as usize;
            if column_index <= max && off <= max - column_index {
                column_index + off
            } else {
                max
            }
        } else {
            let back: usize = if offset == isize::MIN {
                (isize::MAX as usize) + 1
            } else {
                (-offset) as usize
            };
            if back > column_index {
                0
            } else {
                let moved = column_index - back;
                if moved > max {
                    max
                } else {
                    moved
                }
            }
        }
    }

    /// Whether a column supports a character-level cursor.
    pub fn column_allows_char_selection(&self, column_index: usize) -> (r: bool)
        requires
            column_index < self.last_rendered_set.columns@.len(),
        ensures
            r == (self.last_rendered_set.columns@[column_index as int].kind
                == ItemColumnKind::FullText),
    {
        match self.last_rendered_set.columns[column_index].kind {
            ItemColumnKind::FullText => true,
            ItemColumnKind::Choice => false,
        }
    }

    /// The grapheme length of a cell, for columns with a character cursor.
    pub fn get_column_len(&self, row_index: usize, column_index: usize) -> (r: Option<usize>)
        requires
            vm_wf(self),
            row_index < self.last_rendered_set.entries@.len(),
            column_index < self.last_rendered_set.columns@.len(),
        ensures
            r == if self.last_rendered_set.columns@[column_index as int].kind
                == ItemColumnKind::FullText {
                Some(
                    self.last_rendered_set.entries@[row_index as int].column_widths@[column_index as int],
                )
            } else {
                None::<usize>
            },
    {
        if !self.column_allows_char_selection(column_index) {
            return None;
        }
        Some(self.last_rendered_set.entries[row_index].column_widths[column_index])
    }

    /// Type a character into a cell: a column without an editor ignores it
    /// and leaves the cursor alone; otherwise the record is edited in
    /// place, marked dirty, and the new cursor returned.
    pub fn insert_char(&mut self, row: usize, cell: usize, i: usize, c: char) -> (r: usize)
        requires
            vm_wf(old(self)),
            row < old(self).last_rendered_set.entries@.len(),
            cell < old(self).last_rendered_set.columns@.len(),
            i < usize::MAX,
        ensures
            vm_wf(final(self)),
            final(self).last_fetched_items == old(self).last_fetched_items,
            final(self).last_updated_checkpoint == old(self).last_updated_checkpoint,
            final(self).last_rendered_set.columns == old(self).last_rendered_set.columns,
            !spec_has_insert(old(self).last_rendered_set.columns@[cell as int].content) ==> r == i
                && *final(self) == *old(self),
            spec_has_insert(old(self).last_rendered_set.columns@[cell as int].content) ==> {
                let content = old(self).last_rendered_set.columns@[cell as int].content;
                let entries0 = old(self).last_rendered_set.entries@;
                let entries1 = final(self).last_rendered_set.entries@;
                &&& entries1.len() == entries0.len()
                &&& (forall|j: int|
                    0 <= j < entries1.len() && j != row ==> entries1[j] == entries0[j])
                &&& entries1[row as int].id == entries0[row as int].id
                &&& entries1[row as int].item@ == spec_insert_edit(
                    content,
                    entries0[row as int].item@,
                    i as int,
                    c,
                )
                &&& r == spec_insert_cursor(content, entries0[row as int].item@, i as int, c)
                &&& final(self).edited_items@ == mark_dirty(
                    old(self).edited_items@,
                    entries0[row as int].id,
                )
            },
    {
        let has_editor = match self.last_rendered_set.columns[cell].content {
            crate::projection::ItemColumnContent::Location => false,
            crate::projection::ItemColumnContent::Size => true,
            crate::projection::ItemColumnContent::Name => true,
        };
        if !has_editor {
            return i;
        }
        let (id, cursor) = self.last_rendered_set.edit_insert_char(row, cell, i, c);
        self.mark_edited(id);
        cursor
    }

    /// Delete the character under a cell's cursor: a column without a
    /// delete editor ignores it; otherwise the record is edited in place
    /// and marked dirty.
    pub fn delete_char(&mut self, row: usize, cell: usize, i: usize)
        requires
            vm_wf(old(self)),
            row < old(self).last_rendered_set.entries@.len(),
            cell < old(self).last_rendered_set.columns@.len(),
        ensures
            vm_wf(final(self)),
            final(self).last_fetched_items == old(self).last_fetched_items,
            final(self).last_updated_checkpoint == old(self).last_updated_checkpoint,
            final(self).last_rendered_set.columns == old(self).last_rendered_set.columns,
            !spec_has_delete(old(self).last_rendered_set.columns@[cell as int].content) ==> *final(self) == *old(self),
            spec_has_delete(old(self).last_rendered_set.columns@[cell as int].content) ==> {
                let content = old(self).last_rendered_set.columns@[cell as int].content;
                let entries0 = old(self).last_rendered_set.entries@;
                let entries1 = final(self).last_rendered_set.entries@;
                &&& entries1.len() == entries0.len()
                &&& (forall|j: int|
                    0 <= j < entries1.len() && j != row ==> entries1[j] == entries0[j])
                &&& entries1[row as int].id == entries0[row as int].id
                &&& entries1[row as int].item@ == spec_delete_edit(
                    content,
                    entries0[row as int].item@,
                    i as int,
                )
                &&& final(self).edited_items@ == mark_dirty(
                    old(self).edited_items@,
                    entries0[row as int].id,
                )
            },
    {
        let has_editor = match self.last_rendered_set.columns[cell].content {
            crate::projection::ItemColumnContent::Location => false,
            crate::projection::ItemColumnContent::Size => false,
            crate::projection::ItemColumnContent::Name => true,
        };
        if !has_editor {
            return ;
        }
        let id = self.last_rendered_set.edit_delete_char(row, cell, i);
        self.mark_edited(id);
    }

    /// Mark a record dirty, once.
    fn mark_edited(&mut self, id: i64)
        requires
            vm_wf(old(self)),
        ensures
            final(self).edited_items@ == mark_dirty(old(self).edited_items@, id),
            final(self).last_fetched_items == old(self).last_fetched_items,
            final(self).last_updated_checkpoint == old(self).last_updated_checkpoint,
            final(self).last_rendered_set == old(self).last_rendered_set,
            final(self).edited_items@.no_duplicates(),
    {
        let mut k: usize = 0;
        while k < self.edited_items.len()
            invariant
                0 <= k <= self.edited_items@.len(),
                self == old(self),
                vm_wf(old(self)),
                forall|j: int| 0 <= j < k ==> self.edited_items@[j] != id,
            decreases self.edited_items@.len() - k,
        {
            if self.edited_items[k] == id {
                proof {
                    assert(self.edited_items@.contains(id));
                }
                return ;
            }
            k = k + 1;
        }
        proof {
            if self.edited_items@.contains(id) {
                let w = choose|w: int|
                    0 <= w < self.edited_items@.len() && self.edited_items@[w] == id;
                assert(false);
            }
        }
        let ghost before = self.edited_items@;
        self.edited_items.push(id);
        proof {
            assert forall|x: int, y: int|
                0 <= x < y < self.edited_items@.len() implies self.edited_items@[x]
                != self.edited_items@[y] by {
                if y == self.edited_items@.len() - 1 {
                    assert(self.edited_items@[x] == before[x]);
                } else {
                    assert(self.edited_items@[x] == before[x] && self.edited_items@[y]
                        == before[y]);
                }
            }
        }
    }

    /// The write one dirty record needs: its current in-memory state, with
    /// a description naming it.
    fn write_for(&self, entry_index: usize) -> (r: StoreWrite)
        requires
            set_wf(&self.last_rendered_set),
            entry_index < self.last_rendered_set.entries@.len(),
        ensures
            r.id == self.last_rendered_set.entries@[entry_index as int].id,
            r.item@ == self.last_rendered_set.entries@[entry_index as int].item@,
            r.description@ == "update item: "@
                + self.last_rendered_set.entries@[entry_index as int].item.name@,
    {
        let e = &self.last_rendered_set.entries[entry_index];
        let item = crate::projection::clone_item(&e.item);
        let mut description = String::from_str("update item: ");
        description.append(item.name.as_str());
        StoreWrite { id: e.id, item, description }
    }

    /// Flush the dirty set: one write per dirty record, in marking order,
    /// each carrying the record's current in-memory state; the dirty set
    /// is empty afterwards.
    pub fn persist_pending_edits(&mut self) -> (r: Vec<StoreWrite>)
        requires
            vm_wf(old(self)),
            forall|k: int|
                0 <= k < old(self).edited_items@.len() ==> ids_of(
                    old(self).last_rendered_set.entries@,
                ).contains(#[trigger] old(self).edited_items@[k]),
        ensures
            vm_wf(final(self)),
            final(self).last_fetched_items == old(self).last_fetched_items,
            final(self).last_updated_checkpoint == old(self).last_updated_checkpoint,
            final(self).last_rendered_set == old(self).last_rendered_set,
            final(self).edited_items@.len() == 0,
            r@.len() == old(self).edited_items@.len(),
            forall|k: int|
                0 <= k < r@.len() ==> (#[trigger] r@[k]).id == old(self).edited_items@[k],
            forall|k: int|
                0 <= k < r@.len() ==> exists|j: int|
                    0 <= j < old(self).last_rendered_set.entries@.len() && (#[trigger] r@[k]).id
                        == old(self).last_rendered_set.entries@[j].id && r@[k].item@ == old(self).last_rendered_set.entries@[j].item@ && r@[k].description@ == "update item: "@
                        + old(self).last_rendered_set.entries@[j].item.name@,
    {
        let mut writes: Vec<StoreWrite> = Vec::new();
        let mut k: usize = 0;
        while k < self.edited_items.len()
            invariant
                0 <= k <= self.edited_items@.len(),
                self == old(self),
                vm_wf(self),
                forall|m: int|
                    0 <= m < self.edited_items@.len() ==> ids_of(
                        self.last_rendered_set.entries@,
                    ).contains(#[trigger] self.edited_items@[m]),
                writes@.len() == k,
                forall|m: int|
                    0 <= m < k ==> (#[trigger] writes@[m]).id == self.edited_items@[m],
                forall|m: int|
                    0 <= m < k ==> exists|j: int|
                        0 <= j < self.last_rendered_set.entries@.len() && (#[trigger] writes@[m]).id
                            == self.last_rendered_set.entries@[j].id && writes@[m].item@
                            == self.last_rendered_set.entries@[j].item@ && writes@[m].description@
                            == "update item: "@ + self.last_rendered_set.entries@[j].item.name@,
            decreases self.edited_items@.len() - k,
        {
            let id = self.edited_items[k];
            proof {
                assert(ids_of(self.last_rendered_set.entries@).contains(id));
            }
            let idx = self.find_entry_index(id);
            let w = self.write_for(idx);
            writes.push(w);
            k = k + 1;
        }
        self.edited_items = Vec::new();
        writes
    }

    /// The row index of the entry carrying `id`.
    fn find_entry_index(&self, id: i64) -> (r: usize)
        requires
            set_wf(&self.last_rendered_set),
            ids_of(self.last_rendered_set.entries@).contains(id),
        ensures
            r < self.last_rendered_set.entries@.len(),
            self.last_rendered_set.entries@[r as int].id == id,
    {
        let mut k: usize = 0;
        proof {
            let w = choose|w: int|
                0 <= w < ids_of(self.last_rendered_set.entries@).len() && ids_of(
                    self.last_rendered_set.entries@,
                )[w] == id;
            assert(self.last_rendered_set.entries@[w].id == id);
        }
        while k < self.last_rendered_set.entries.len()
            invariant
                0 <= k <= self.last_rendered_set.entries@.len(),
                exists|w: int|
                    k <= w < self.last_rendered_set.entries@.len() && (#[trigger] self.last_rendered_set.entries@[w]).id
                        == id,
            decreases self.last_rendered_set.entries@.len() - k,
        {
            if self.last_rendered_set.entries[k].id == id {
                return k;
            }
            k = k + 1;
        }
        proof {
            assert(false);
        }
        0
    }

    /// Flush only the row under the cursor, if it is dirty; the rest of
    /// the dirty set is untouched.
    pub fn persist_current_pending_edit(&mut self, row: usize) -> (r: Option<StoreWrite>)
        requires
            vm_wf(old(self)),
            row < old(self).last_rendered_set.entries@.len(),
        ensures
            vm_wf(final(self)),
            final(self).last_fetched_items == old(self).last_fetched_items,
            final(self).last_updated_checkpoint == old(self).last_updated_checkpoint,
            final(self).last_rendered_set == old(self).last_rendered_set,
            ({
                let id = old(self).last_rendered_set.entries@[row as int].id;
                if old(self).edited_items@.contains(id) {
                    &&& r matches Some(w) && w.id == id && w.item@ == old(self).last_rendered_set.entries@[row as int].item@ && w.description@
                        == "update item: "@ + old(self).last_rendered_set.entries@[row as int].item.name@
                    &&& final(self).edited_items@ == old(self).edited_items@.remove_value(id)
                } else {
                    &&& r is None
                    &&& final(self).edited_items@ == old(self).edited_items@
                }
            }),
    {
        let id = self.last_rendered_set.entries[row].id;
        let mut k: usize = 0;
        while k < self.edited_items.len()
            invariant
                0 <= k <= self.edited_items@.len(),
                self == old(self),
                vm_wf(self),
                row < self.last_rendered_set.entries@.len(),
                id == self.last_rendered_set.entries@[row as int].id,
                forall|j: int| 0 <= j < k ==> self.edited_items@[j] != id,
            decreases self.edited_items@.len() - k,
        {
            if self.edited_items[k] == id {
                proof {
                    assert(self.edited_items@.contains(id));
                    assert(self.edited_items@.index_of_first(id) matches Some(i) && i == k) by {
                        self.edited_items@.index_of_first_ensures(id);
                    }
                }
                let w = self.write_for(row);
                let ghost before = self.edited_items@;
                self.edited_items.remove(k);
                proof {
                    before.index_of_first_ensures(id);
                    assert(self.edited_items@ == before.remove_value(id));
                    let a = before;
                    assert forall|x: int, y: int|
                        0 <= x < y < a.remove(k as int).len() implies a.remove(k as int)[x] != a.remove(
                        k as int,
                    )[y] by {
                        let x2 = if x < k {
                            x
                        } else {
                            x + 1
                        };
                        let y2 = if y < k {
                            y
                        } else {
                            y + 1
                        };
                        assert(a.remove(k as int)[x] == a[x2] && a.remove(k as int)[y] == a[y2]);
                    }
                }
                return Some(w);
            }
            k = k + 1;
        }
        proof {
            if self.edited_items@.contains(id) {
                let w = choose|w: int|
                    0 <= w < self.edited_items@.len() && self.edited_items@[w] == id;
                assert(false);
            }
            self.edited_items@.index_of_first_ensures(id);
            assert(self.edited_items@.remove_value(id) == self.edited_items@);
        }
        None
    }

    /// Plan an undo: first the writes that flush every uncommitted edit,
    /// then the store's own undo of its most recent commit. The remembered
    /// revision drops to the sentinel so the next refresh is unconditional.
    pub fn undo(&mut self) -> (r: Vec<StoreAction>)
        requires
            vm_wf(old(self)),
            forall|k: int|
                0 <= k < old(self).edited_items@.len() ==> ids_of(
                    old(self).last_rendered_set.entries@,
                ).contains(#[trigger] old(self).edited_items@[k]),
        ensures
            vm_wf(final(self)),
            final(self).last_fetched_items == old(self).last_fetched_items,
            final(self).last_updated_checkpoint == 0,
            final(self).last_rendered_set == old(self).last_rendered_set,
            final(self).edited_items@.len() == 0,
            r@.len() == old(self).edited_items@.len() + 1,
            forall|k: int|
                0 <= k < r@.len() - 1 ==> ((#[trigger] r@[k]) matches StoreAction::Write(w)
                    && w.id == old(self).edited_items@[k]),
            forall|k: int|
                0 <= k < r@.len() - 1 ==> ((#[trigger] r@[k]) matches StoreAction::Write(w)
                    && exists|j: int|
                    0 <= j < old(self).last_rendered_set.entries@.len() && w.id == old(self).last_rendered_set.entries@[j].id && w.item@ == old(self).last_rendered_set.entries@[j].item@ && w.description@ == "update item: "@
                        + old(self).last_rendered_set.entries@[j].item.name@),
            r@.last() is Undo,
    {
        let writes = self.persist_pending_edits();
        let mut actions: Vec<StoreAction> = Vec::new();
        let ghost writes0 = writes@;
        let mut writes = writes;
        let ghost mut t: int = 0;
        proof {
            assert(writes0.skip(0) =~= writes0);
        }
        while writes.len() > 0
            invariant
                0 <= t <= writes0.len(),
                writes@ == writes0.skip(t),
                actions@.len() == t,
                forall|k: int|
                    0 <= k < t ==> ((#[trigger] actions@[k]) matches StoreAction::Write(w) && w
                        == writes0[k]),
            decreases writes@.len(),
        {
            let w = writes.remove(0);
            proof {
                assert(w == writes0[t]);
                assert(writes0.skip(t).skip(1) =~= writes0.skip(t + 1));
            }
            actions.push(StoreAction::Write(w));
            proof {
                t = t + 1;
            }
        }
        actions.push(StoreAction::Undo);
        self.last_updated_checkpoint = 0;
        actions
    }

    /// Splice a freshly created record in below the given row.
    pub fn insert_item(&mut self, after_index: usize, item: &Item)
        requires
            vm_wf(old(self)),
            after_index < old(self).last_rendered_set.entries@.len(),
            item.object_id is Some,
            !ids_of(old(self).last_rendered_set.entries@).contains(item.object_id->Some_0),
        ensures
            vm_wf(final(self)),
            final(self).last_rendered_set.entries@.len() == old(self).last_rendered_set.entries@.len() + 1,
            final(self).last_rendered_set.entries@[after_index + 1].id == item.object_id->Some_0,
            final(self).last_rendered_set.entries@[after_index + 1].item@ == item@,
            forall|j: int|
                0 <= j <= after_index ==> final(self).last_rendered_set.entries@[j] == old(self).last_rendered_set.entries@[j],
            forall|j: int|
                after_index + 2 <= j < final(self).last_rendered_set.entries@.len() ==> final(self).last_rendered_set.entries@[j] == old(self).last_rendered_set.entries@[j - 1],
            final(self).edited_items == old(self).edited_items,
            final(self).last_fetched_items == old(self).last_fetched_items,
            final(self).last_updated_checkpoint == old(self).last_updated_checkpoint,
    {
        self.last_rendered_set.add_item(after_index, item);
    }

    /// What deleting a row means for the store: the record id to delete
    /// and the commit description, plus the name for the status line.
    pub fn delete_item(&self, row: usize) -> (r: (i64, String, String))
        requires
            vm_wf(self),
            row < self.last_rendered_set.entries@.len(),
        ensures
            r.0 == self.last_rendered_set.entries@[row as int].id,
            r.1@ == self.last_rendered_set.entries@[row as int].item.name@,
            r.2@ == "delete item: "@ + self.last_rendered_set.entries@[row as int].item.name@,
    {
        let e = &self.last_rendered_set.entries[row];
        let name = crate::text::clone_string(&e.item.name);
        let mut description = String::from_str("delete item: ");
        description.append(e.item.name.as_str());
        (e.id, name, description)
    }
}

} // verus!
