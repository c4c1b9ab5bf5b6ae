use pachinko::projection::{item_columns, ItemColumnRenderedSet};
use pachinko::types::{Item, Location};

fn item(id: i64, loc: &str, num_bins: i64, bin: i64, name: &str, size: &str) -> Item {
    Item {
        object_id: Some(id),
        name: name.to_string(),
        location: Location {
            object_id: Some(100 + id),
            name: loc.to_string(),
            num_bins,
        },
        bin_no: bin,
        size: size.to_string(),
    }
}

fn visible_ids(set: &ItemColumnRenderedSet) -> Vec<i64> {
    set.entries.iter().map(|e| e.id).collect()
}

#[test]
fn first_population_uses_canonical_order() {
    let mut set = ItemColumnRenderedSet::new(item_columns());
    let items = vec![
        item(1, "Test", 8, 4, "Zebra", "S"),
        item(2, "Huge", 8, 6, "Item", "M"),
        item(3, "Test", 8, 3, "Item", "L"),
    ];
    set.regenerate_if_needed(&items, 1, None);
    // Sorted by location name, then bin, then name.
    assert_eq!(visible_ids(&set), vec![2, 3, 1]);
}

#[test]
fn row_order_is_stable_across_refreshes() {
    let mut set = ItemColumnRenderedSet::new(item_columns());
    let items = vec![
        item(1, "Test", 8, 4, "Zebra", "S"),
        item(2, "Huge", 8, 6, "Item", "M"),
        item(3, "Test", 8, 3, "Item", "L"),
    ];
    set.regenerate_if_needed(&items, 1, None);
    let order = visible_ids(&set);
    // Same membership, bumped revision, any number of times: order holds.
    set.regenerate_if_needed(&items, 2, None);
    assert_eq!(visible_ids(&set), order);
    set.regenerate_if_needed(&items, 3, None);
    assert_eq!(visible_ids(&set), order);
    // Memoized: the same revision and search change nothing at all.
    set.regenerate_if_needed(&items, 3, None);
    assert_eq!(visible_ids(&set), order);
}

#[test]
fn reconciliation_preserves_identity_across_delete_and_insert() {
    let mut set = ItemColumnRenderedSet::new(item_columns());
    let a = item(1, "Alpha", 4, 1, "a", "S");
    let b = item(2, "Beta", 4, 1, "b", "S");
    let c = item(3, "Gamma", 4, 1, "c", "S");
    set.regenerate_if_needed(&vec![a.clone(), b.clone(), c.clone()], 1, None);
    assert_eq!(visible_ids(&set), vec![1, 2, 3]);

    // B vanishes and D (sorting between A and C) arrives: [A, D, C].
    let d = item(4, "Delta", 4, 1, "d", "S");
    set.regenerate_if_needed(&vec![a.clone(), c.clone(), d.clone()], 2, None);
    assert_eq!(visible_ids(&set), vec![1, 4, 3]);
}

#[test]
fn search_keeps_only_positive_scores_in_descending_order() {
    let mut set = ItemColumnRenderedSet::new(item_columns());
    let items = vec![
        item(1, "Test", 8, 4, "Zebra", "S"),
        item(2, "Huge", 8, 6, "Item", "M"),
        item(3, "Test", 8, 3, "Item", "L"),
    ];
    set.regenerate_if_needed(&items, 1, Some("item".to_string()));
    let ids = visible_ids(&set);
    assert_eq!(ids.len(), 2);
    assert!(ids.contains(&2) && ids.contains(&3));
    let scores: Vec<i64> = set.entries.iter().map(|e| e.score).collect();
    assert!(scores.iter().all(|s| *s > 0));
    assert!(scores.windows(2).all(|w| w[0] >= w[1]));
}

#[test]
fn narrowing_a_search_keeps_surviving_order() {
    let mut set = ItemColumnRenderedSet::new(item_columns());
    let items = vec![
        item(1, "Test", 8, 4, "Zebra", "S"),
        item(2, "Huge", 8, 6, "Item", "M"),
        item(3, "Test", 8, 3, "Item", "L"),
    ];
    set.regenerate_if_needed(&items, 1, Some("it".to_string()));
    let before = visible_ids(&set);
    assert!(before.contains(&2) && before.contains(&3));
    assert!(!before.contains(&1));

    set.regenerate_if_needed(&items, 1, Some("ite".to_string()));
    let after = visible_ids(&set);
    // Both still match; their relative order is unchanged.
    assert_eq!(before, after);
}

#[test]
fn unchanged_search_keeps_rows_that_stop_matching() {
    let mut set = ItemColumnRenderedSet::new(item_columns());
    let items = vec![
        item(2, "Huge", 8, 6, "Item", "M"),
        item(3, "Test", 8, 3, "Item", "L"),
    ];
    set.regenerate_if_needed(&items, 1, Some("item".to_string()));
    assert_eq!(visible_ids(&set).len(), 2);

    // One record's name is edited so it no longer matches; with the same
    // search and a bumped revision it stays visible, unhighlighted.
    let renamed = vec![
        item(2, "Huge", 8, 6, "Box", "M"),
        item(3, "Test", 8, 3, "Item", "L"),
    ];
    let before = visible_ids(&set);
    set.regenerate_if_needed(&renamed, 2, Some("item".to_string()));
    assert_eq!(visible_ids(&set), before);
}

#[test]
fn changing_the_search_drops_rows_that_no_longer_match() {
    let mut set = ItemColumnRenderedSet::new(item_columns());
    let items = vec![
        item(1, "Test", 8, 4, "Zebra", "S"),
        item(2, "Huge", 8, 6, "Item", "M"),
    ];
    set.regenerate_if_needed(&items, 1, Some("e".to_string()));
    // Both names hold an "e".
    assert_eq!(visible_ids(&set).len(), 2);
    set.regenerate_if_needed(&items, 1, Some("ze".to_string()));
    // Only "Zebra" survives the narrowed search.
    assert_eq!(visible_ids(&set), vec![1]);
}

#[test]
fn canonical_ties_keep_fetch_order() {
    // Two records with identical location, bin and name tie on the
    // canonical key; the fetch order decides.
    let mut set = ItemColumnRenderedSet::new(item_columns());
    let items = vec![
        item(7, "Test", 4, 1, "Same", "S"),
        item(3, "Test", 4, 1, "Same", "S"),
    ];
    set.regenerate_if_needed(&items, 1, None);
    assert_eq!(visible_ids(&set), vec![7, 3]);

    let mut other = ItemColumnRenderedSet::new(item_columns());
    let swapped = vec![
        item(3, "Test", 4, 1, "Same", "S"),
        item(7, "Test", 4, 1, "Same", "S"),
    ];
    other.regenerate_if_needed(&swapped, 1, None);
    assert_eq!(visible_ids(&other), vec![3, 7]);
}

#[test]
fn add_item_splices_directly_below_the_given_row() {
    let mut set = ItemColumnRenderedSet::new(item_columns());
    let items = vec![
        item(1, "Alpha", 4, 1, "a", "S"),
        item(2, "Beta", 4, 1, "b", "S"),
    ];
    set.regenerate_if_needed(&items, 1, None);
    let new_item = item(9, "Zeta", 4, 1, "z", "S");
    set.add_item(0, &new_item);
    // Spliced below row 0 even though it sorts last.
    assert_eq!(visible_ids(&set), vec![1, 9, 2]);
}

#[test]
fn max_column_width_covers_header_and_cells() {
    let mut set = ItemColumnRenderedSet::new(item_columns());
    let items = vec![item(1, "A", 1, 1, "a very long item name", "S")];
    set.regenerate_if_needed(&items, 1, None);
    // Location column: header "Location" (8) is wider than "A".
    assert_eq!(set.max_column_width(0), 8);
    // Name column: the cell is wider than the header "Name".
    assert_eq!(set.max_column_width(2), 21);
}

#[test]
fn size_column_renders_two_letter_codes() {
    let mut set = ItemColumnRenderedSet::new(item_columns());
    let items = vec![item(1, "A", 1, 1, "a", "X")];
    set.regenerate_if_needed(&items, 1, None);
    assert_eq!(set.entries[0].contents[1], "XL".to_string());
}
