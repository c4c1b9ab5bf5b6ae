use pachinko::view_model::item_name_from_search;

#[test]
fn item_name_returns_empty_for_none() {
    assert_eq!(item_name_from_search(&None), "".to_string());
}

#[test]
fn item_name_uppercases_leading_letters() {
    assert_eq!(
        item_name_from_search(&Some("abc".to_string())),
        "Abc".to_string()
    );
    assert_eq!(
        item_name_from_search(&Some("abc def".to_string())),
        "Abc Def".to_string()
    );
}

#[test]
fn item_name_preserves_punctuation_runs() {
    assert_eq!(
        item_name_from_search(&Some("cool gadget".to_string())),
        "Cool Gadget".to_string()
    );
}
