use pachinko::console::{filter_and_format_candidates, quote, unquote, InputWord};

fn word(pos: usize, word: &str, delimiters: &str) -> InputWord {
    InputWord {
        pos,
        word: word.to_string(),
        delimiters: delimiters.to_string(),
    }
}

#[test]
fn filter_candidates_works_with_trivial_input() {
    assert_eq!(
        filter_and_format_candidates(
            vec!["abc".to_string(), "deaf".to_string(), "def".to_string(),],
            &word(0, "", ""),
        ),
        vec!["abc".to_string(), "deaf".to_string(), "def".to_string(),],
    );
}

#[test]
fn filter_candidates_works_with_prefixes() {
    assert_eq!(
        filter_and_format_candidates(
            vec!["abc".to_string(), "deaf".to_string(), "def".to_string(),],
            &word(0, "de", ""),
        ),
        vec!["deaf".to_string(), "def".to_string(),],
    );
}

#[test]
fn filter_candidates_works_with_words_needing_quotes() {
    assert_eq!(
        filter_and_format_candidates(
            vec![
                "ab cd".to_string(),
                "a\"c".to_string(),
                "ef gh".to_string(),
                "abcd".to_string(),
                "de af".to_string(),
                "ab\\c".to_string(),
            ],
            &word(0, "a", "\""),
        ),
        vec![
            "\"a\\\"c\"".to_string(),
            "\"ab cd\"".to_string(),
            "\"ab\\\\c\"".to_string(),
            "\"abcd\"".to_string(),
        ],
    );
}

#[test]
fn filter_candidates_works_with_words_needing_backslashes() {
    assert_eq!(
        filter_and_format_candidates(
            vec![
                "ab cd".to_string(),
                "a\"c".to_string(),
                "ef gh".to_string(),
                "abcd".to_string(),
                "de af".to_string(),
                "ab\\c".to_string(),
            ],
            &word(0, "a", ""),
        ),
        vec![
            "a\\\"c".to_string(),
            "ab\\ cd".to_string(),
            "ab\\\\c".to_string(),
            "abcd".to_string(),
        ],
    );
}

#[test]
fn quoting_plain_word_is_identity() {
    assert_eq!(quote("abcd", "".to_string()), "abcd".to_string());
}

#[test]
fn quoting_inside_open_quote_wraps() {
    assert_eq!(quote("ab cd", "\"".to_string()), "\"ab cd\"".to_string());
}

#[test]
fn unquoting_strips_backslashes_and_quotes() {
    assert_eq!(unquote("ab\\ cd"), "ab cd".to_string());
    assert_eq!(unquote("\"quoted words\""), "quoted words".to_string());
    assert_eq!(unquote("wo\\\"rd"), "wo\"rd".to_string());
    assert_eq!(unquote("dangling\\"), "dangling".to_string());
}
