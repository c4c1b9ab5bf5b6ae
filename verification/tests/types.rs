use pachinko::types::{parse_bin_number, FormattedItem, Item, ItemLocation, ItemSize, Location};

#[test]
fn item_size_parsing_should_succeed_for_lowercase_sizes() {
    assert_eq!("s".parse::<ItemSize>().unwrap(), ItemSize::S);
    assert_eq!("m".parse::<ItemSize>().unwrap(), ItemSize::M);
}

#[test]
fn item_size_parsing_rejects_other_text() {
    assert!("q".parse::<ItemSize>().is_err());
    assert!("SM".parse::<ItemSize>().is_err());
    assert!("".parse::<ItemSize>().is_err());
}

#[test]
fn item_size_renders_one_letter() {
    assert_eq!(ItemSize::L.to_string(), "L".to_string());
    assert_eq!(ItemSize::X.to_string(), "X".to_string());
}

#[test]
fn bin_numbers_parse_when_positive() {
    assert_eq!(parse_bin_number("6").unwrap(), 6);
    assert_eq!(parse_bin_number("+12").unwrap(), 12);
}

#[test]
fn bin_numbers_reject_zero_negative_and_junk() {
    assert!(parse_bin_number("0").is_err());
    assert!(parse_bin_number("-3").is_err());
    assert!(parse_bin_number("six").is_err());
    assert!(parse_bin_number("").is_err());
    assert!(parse_bin_number("99999999999999999999").is_err());
}

#[test]
fn item_locations_parse_with_and_without_bins() {
    let bare = ItemLocation::parse("Garage").unwrap();
    assert_eq!(bare.location, "Garage".to_string());
    assert_eq!(bare.bin, None);

    let binned = ItemLocation::parse("Garage/4").unwrap();
    assert_eq!(binned.location, "Garage".to_string());
    assert_eq!(binned.bin, Some(4));

    assert!(ItemLocation::parse("a/b/c").is_err());
    assert!(ItemLocation::parse("Garage/0").is_err());
}

#[test]
fn formatting_shows_bins_only_for_multi_bin_locations() {
    let item = Item {
        object_id: Some(1),
        name: "Item".to_string(),
        location: Location {
            object_id: Some(7),
            name: "Test".to_string(),
            num_bins: 4,
        },
        bin_no: 3,
        size: "S".to_string(),
    };
    assert_eq!(item.format().format_location(), "Test/3".to_string());

    let single = Item {
        location: Location {
            object_id: Some(8),
            name: "Shelf".to_string(),
            num_bins: 1,
        },
        ..item
    };
    assert_eq!(single.format().format_location(), "Shelf".to_string());
}

#[test]
fn formatted_items_sort_by_location_bin_and_name() {
    let a = FormattedItem {
        location_name: "A".to_string(),
        bin_no: Some(1),
        name: "x".to_string(),
        size: "S".to_string(),
    };
    let b = FormattedItem {
        location_name: "A".to_string(),
        bin_no: Some(2),
        name: "a".to_string(),
        size: "S".to_string(),
    };
    assert!(a < b);
}
