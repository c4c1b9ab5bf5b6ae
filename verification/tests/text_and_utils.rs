use pachinko::text::{fmt_i64, fmt_u64, parse_i64, str_le, str_starts_with};
use pachinko::types::{Item, ItemSize, Location};
use pachinko::unicode::{delete_char_at_grapheme, grapheme_count, insert_char_at_grapheme};
use pachinko::utils::{choose_bin, make_item, validate_bin};

fn item(id: i64, bin: i64, size: &str) -> Item {
    Item {
        object_id: Some(id),
        name: format!("thing {}", id),
        location: Location {
            object_id: Some(50),
            name: "Test".to_string(),
            num_bins: 4,
        },
        bin_no: bin,
        size: size.to_string(),
    }
}

#[test]
fn decimal_formatting_is_exact() {
    assert_eq!(fmt_u64(0), "0".to_string());
    assert_eq!(fmt_u64(907), "907".to_string());
    assert_eq!(fmt_i64(-42), "-42".to_string());
    assert_eq!(fmt_i64(i64::MIN), "-9223372036854775808".to_string());
}

#[test]
fn decimal_parsing_matches_the_standard_library() {
    for s in ["0", "17", "-3", "+25", "9223372036854775807", "-9223372036854775808"] {
        assert_eq!(parse_i64(s), s.parse::<i64>().ok(), "case {}", s);
    }
    for s in ["", "-", "+", "2x", "9223372036854775808", " 1"] {
        assert_eq!(parse_i64(s), None, "case {}", s);
    }
}

#[test]
fn string_ordering_is_lexicographic() {
    assert!(str_le("abc", "abd"));
    assert!(str_le("ab", "abc"));
    assert!(!str_le("b", "a"));
    assert!(str_starts_with("abcd", "ab"));
    assert!(!str_starts_with("a", "ab"));
}

#[test]
fn grapheme_editing_counts_clusters_not_bytes() {
    // "e" followed by a combining accent is one grapheme.
    let s = "ae\u{301}b";
    assert_eq!(grapheme_count(s), 3);
    let (inserted, cursor) = insert_char_at_grapheme(s, 1, 'x');
    assert_eq!(inserted, "axe\u{301}b".to_string());
    assert_eq!(cursor, 2);
    assert_eq!(delete_char_at_grapheme(s, 1), "ab".to_string());
    // Deleting past the end leaves the text unchanged.
    assert_eq!(delete_char_at_grapheme(s, 9), s.to_string());
}

#[test]
fn bins_fill_evenly_first_slot_wins_ties() {
    // Empty location: every bin is empty, so the first is chosen.
    assert_eq!(choose_bin(4, &vec![]).unwrap(), 1);

    // Bin 1 holds a medium item; bin 2 is the first empty one.
    let items = vec![item(1, 1, "M")];
    assert_eq!(choose_bin(4, &items).unwrap(), 2);

    // Bins 1..3 loaded 3/2/2: bins 2 and 3 tie with 2, 4 is empty.
    let items = vec![item(1, 1, "M"), item(2, 2, "S"), item(3, 3, "S")];
    assert_eq!(choose_bin(4, &items).unwrap(), 4);

    // All bins equally loaded: back to the first.
    let items = vec![
        item(1, 1, "S"),
        item(2, 2, "S"),
        item(3, 3, "S"),
        item(4, 4, "S"),
    ];
    assert_eq!(choose_bin(4, &items).unwrap(), 1);
}

#[test]
fn choose_bin_fails_on_unreadable_sizes() {
    let items = vec![item(1, 1, "?")];
    assert!(choose_bin(4, &items).is_err());
}

#[test]
fn bins_past_the_locations_last_are_refused() {
    let loc = Location {
        object_id: Some(1),
        name: "Closet".to_string(),
        num_bins: 2,
    };
    assert_eq!(validate_bin(&loc, 2).unwrap(), 2);
    let e = validate_bin(&loc, 3).unwrap_err();
    assert_eq!(e, "location Closet only has 2 bins".to_string());
}

#[test]
fn made_items_carry_the_size_code() {
    let loc = Location {
        object_id: Some(1),
        name: "Closet".to_string(),
        num_bins: 2,
    };
    let it = make_item("Hat".to_string(), &loc, 2, ItemSize::M);
    assert_eq!(it.object_id, None);
    assert_eq!(it.name, "Hat".to_string());
    assert_eq!(it.bin_no, 2);
    assert_eq!(it.size, "M".to_string());
}
