use pachinko::projection::{item_columns, ItemColumnContent};
use pachinko::types::{Item, Location};
use pachinko::view_model::{item_name_from_search, ItemColumnViewModel, StoreAction};

fn item(id: i64, loc: &str, num_bins: i64, bin: i64, name: &str, size: &str) -> Item {
    Item {
        object_id: Some(id),
        name: name.to_string(),
        location: Location {
            object_id: Some(100 + id),
            name: loc.to_string(),
            num_bins,
        },
        bin_no: bin,
        size: size.to_string(),
    }
}

fn fresh_vm() -> ItemColumnViewModel {
    let mut vm = ItemColumnViewModel::new(item_columns());
    let items = vec![
        item(1, "Huge", 8, 6, "Item", "M"),
        item(2, "Test", 8, 3, "Item", "S"),
    ];
    vm.refresh(items, 1);
    vm.render(&None);
    vm
}

#[test]
fn typing_into_the_name_column_marks_the_record_dirty() {
    let mut vm = fresh_vm();
    // Row 0, name column (2), insert at the end of "Item".
    let cursor = vm.insert_char(0, 2, 4, 's');
    assert_eq!(cursor, 5);
    assert_eq!(vm.last_rendered_set.entries[0].item.name, "Items".to_string());
    assert_eq!(vm.edited_items, vec![1]);
}

#[test]
fn typing_into_the_location_column_is_ignored() {
    let mut vm = fresh_vm();
    let cursor = vm.insert_char(0, 0, 3, 'x');
    assert_eq!(cursor, 3);
    assert!(vm.edited_items.is_empty());
}

#[test]
fn typing_a_size_letter_replaces_the_size() {
    let mut vm = fresh_vm();
    vm.insert_char(0, 1, 0, 'l');
    assert_eq!(vm.last_rendered_set.entries[0].item.size, "L".to_string());
    assert_eq!(vm.last_rendered_set.entries[0].contents[1], "Lg".to_string());
    // A letter outside the size alphabet leaves the record unchanged.
    let mut vm2 = fresh_vm();
    vm2.insert_char(0, 1, 0, 'q');
    assert_eq!(vm2.last_rendered_set.entries[0].item.size, "M".to_string());
}

#[test]
fn grapheme_deletes_remove_whole_clusters() {
    let mut vm = ItemColumnViewModel::new(item_columns());
    let items = vec![item(1, "A", 1, 1, "ae\u{301}b", "S")];
    vm.refresh(items, 1);
    vm.render(&None);
    assert_eq!(vm.get_column_len(0, 2), Some(3));
    vm.delete_char(0, 2, 1);
    assert_eq!(vm.last_rendered_set.entries[0].item.name, "ab".to_string());
    assert_eq!(vm.get_column_len(0, 2), Some(2));
}

#[test]
fn grapheme_inserts_land_between_clusters() {
    let mut vm = ItemColumnViewModel::new(item_columns());
    let items = vec![item(1, "A", 1, 1, "ae\u{301}b", "S")];
    vm.refresh(items, 1);
    vm.render(&None);
    let cursor = vm.insert_char(0, 2, 2, 'x');
    assert_eq!(cursor, 3);
    assert_eq!(
        vm.last_rendered_set.entries[0].item.name,
        "ae\u{301}xb".to_string()
    );
}

#[test]
fn idle_flush_writes_each_dirty_record_once() {
    let mut vm = fresh_vm();
    vm.insert_char(0, 2, 4, 's');
    vm.insert_char(0, 2, 5, '!');
    vm.insert_char(1, 2, 0, 'x');
    assert_eq!(vm.edited_items.len(), 2);

    let writes = vm.persist_pending_edits();
    // Exactly one commit per dirty record, and the dirty set is empty.
    assert_eq!(writes.len(), 2);
    assert_eq!(writes[0].id, 1);
    assert_eq!(writes[1].id, 2);
    assert_eq!(writes[0].item.name, "Items!".to_string());
    assert_eq!(writes[0].description, "update item: Items!".to_string());
    assert!(vm.edited_items.is_empty());

    // Flushing again writes nothing.
    assert!(vm.persist_pending_edits().is_empty());
}

#[test]
fn persisting_one_row_leaves_other_edits_pending() {
    let mut vm = fresh_vm();
    vm.insert_char(0, 2, 4, 's');
    vm.insert_char(1, 2, 0, 'x');
    let w = vm.persist_current_pending_edit(0).unwrap();
    assert_eq!(w.id, 1);
    assert_eq!(vm.edited_items, vec![2]);
    assert!(vm.persist_current_pending_edit(0).is_none());
}

#[test]
fn undo_flushes_pending_edits_before_the_store_undo() {
    let mut vm = fresh_vm();
    vm.insert_char(0, 2, 4, 's');
    let actions = vm.undo();
    assert_eq!(actions.len(), 2);
    match &actions[0] {
        StoreAction::Write(w) => {
            assert_eq!(w.id, 1);
            assert_eq!(w.item.name, "Items".to_string());
        }
        _ => panic!("the flush must come first"),
    }
    assert!(matches!(actions[1], StoreAction::Undo));
    assert!(vm.edited_items.is_empty());
    // The remembered revision drops so the next refresh is unconditional.
    assert_eq!(vm.last_updated_checkpoint, 0);
}

#[test]
fn undo_with_nothing_pending_only_undoes() {
    let mut vm = fresh_vm();
    let actions = vm.undo();
    assert_eq!(actions.len(), 1);
    assert!(matches!(actions[0], StoreAction::Undo));
}

#[test]
fn delete_item_names_the_record() {
    let vm = fresh_vm();
    let (id, name, description) = vm.delete_item(0);
    assert_eq!(id, 1);
    assert_eq!(name, "Item".to_string());
    assert_eq!(description, "delete item: Item".to_string());
}

#[test]
fn insert_item_splices_below_and_render_headers_are_fixed() {
    let mut vm = fresh_vm();
    let new_item = item(9, "Zeta", 4, 1, "z", "S");
    vm.insert_item(0, &new_item);
    let ids: Vec<i64> = vm.last_rendered_set.entries.iter().map(|e| e.id).collect();
    assert_eq!(ids, vec![1, 9, 2]);

    let (headers, constraints) = vm.render(&None);
    assert_eq!(
        headers,
        vec![
            "Location".to_string(),
            "Size".to_string(),
            "Name".to_string()
        ]
    );
    assert_eq!(constraints.len(), 3);
}

#[test]
fn column_helpers_report_the_schema() {
    let vm = fresh_vm();
    assert_eq!(vm.rightmost_column_index(), 2);
    assert_eq!(vm.column_index_saturating_add(2, 1), 2);
    assert_eq!(vm.column_index_saturating_add(0, -1), 0);
    assert_eq!(vm.column_index_saturating_add(0, 2), 2);
    assert!(vm.column_allows_char_selection(2));
    assert!(!vm.column_allows_char_selection(0));
    assert_eq!(vm.get_column_len(0, 0), None);
    assert_eq!(vm.get_column_len(0, 2), Some(4));
}

#[test]
fn item_names_derive_from_the_search() {
    assert_eq!(item_name_from_search(&None), "".to_string());
    assert_eq!(
        item_name_from_search(&Some("two  words".to_string())),
        "Two  Words".to_string()
    );
    let _ = ItemColumnContent::Name;
}
