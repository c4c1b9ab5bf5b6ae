use pachinko::console::{words_up_to_cursor_pos, InputWord};

fn word(pos: usize, w: &str) -> InputWord {
    InputWord {
        pos,
        word: w.to_string(),
        delimiters: "".to_string(),
    }
}

fn dword(pos: usize, w: &str, delimiters: &str) -> InputWord {
    InputWord {
        pos,
        word: w.to_string(),
        delimiters: delimiters.to_string(),
    }
}

#[test]
fn words_up_to_cursor_pos_works_on_trival_input() {
    assert_eq!(words_up_to_cursor_pos("", 0), vec![word(0, "")]);
    assert_eq!(words_up_to_cursor_pos("oneword", 0), vec![word(0, "")]);
    assert_eq!(words_up_to_cursor_pos("oneword", 2), vec![word(0, "on")]);
}

#[test]
fn words_up_to_cursor_pos_includes_empty_trailing_word() {
    assert_eq!(words_up_to_cursor_pos("two ", 3), vec![word(0, "two")]);
    assert_eq!(
        words_up_to_cursor_pos("two ", 4),
        vec![word(0, "two"), word(4, "")]
    );
}

#[test]
fn words_up_to_cursor_pos_works_on_unquoted_words() {
    assert_eq!(words_up_to_cursor_pos("two words", 2), vec![word(0, "tw")]);

    assert_eq!(
        words_up_to_cursor_pos("two words", 6),
        vec![word(0, "two"), word(4, "wo")]
    );
}

#[test]
fn words_up_to_cursor_pos_works_with_extra_whitespace() {
    assert_eq!(
        words_up_to_cursor_pos("   two   words ", 10),
        vec![word(3, "two"), word(9, "w")]
    );

    assert_eq!(words_up_to_cursor_pos("   ", 2), vec![word(2, "")]);
    assert_eq!(words_up_to_cursor_pos("   ", 3), vec![word(3, "")]);
}

#[test]
fn words_up_to_cursor_pos_works_with_unquoted_words_with_backslashes() {
    assert_eq!(
        words_up_to_cursor_pos(r#"three esc\ aped words"#, 17),
        vec![word(0, "three"), word(6, "esc aped"), word(16, "w")]
    );
}

#[test]
fn words_up_to_cursor_pos_works_with_quoted_words() {
    assert_eq!(
        words_up_to_cursor_pos(r#"   two   "quoted words" "#, 18),
        vec![word(3, "two"), dword(9, "quoted w", "\"")]
    );

    assert_eq!(
        words_up_to_cursor_pos(r#"   two   "quoted words" "#, 23),
        vec![word(3, "two"), dword(9, "quoted words", "\"")]
    );
}

#[test]
fn words_up_to_cursor_pos_works_with_quoted_words_with_backslashes() {
    assert_eq!(
        words_up_to_cursor_pos(r#"three "quo ted" "wo\"rds""#, 22),
        vec![
            word(0, "three"),
            dword(6, "quo ted", "\""),
            dword(16, "wo\"r", "\"")
        ]
    );
}

#[test]
fn words_up_to_cursor_pos_works_with_incomplete_quoted_words() {
    assert_eq!(
        words_up_to_cursor_pos(r#"   two   "quoted "#, 17),
        vec![word(3, "two"), dword(9, "quoted ", "\"")]
    );
}
