use tatoeba_frequency::text::{
    chars_eq, chars_of, is_split_char, lex_le_chars, parse_usize_chars, split_cells, split_tokens,
    string_from_chars,
};
use tatoeba_frequency::norm::{canon_token, filtered_words, keep_token};

fn cv(s: &str) -> Vec<char> {
    s.chars().collect()
}

fn to_strings(v: Vec<Vec<char>>) -> Vec<String> {
    v.into_iter().map(|w| w.into_iter().collect()).collect()
}

#[test]
fn split_char_classification() {
    assert!(is_split_char(' '));
    assert!(is_split_char('\t'));
    assert!(is_split_char('.'));
    assert!(is_split_char(','));
    assert!(is_split_char('!'));
    assert!(is_split_char('\u{3002}'));
    assert!(is_split_char('\u{ff0c}'));
    assert!(is_split_char('\u{201c}'));
    assert!(!is_split_char('\''));
    assert!(!is_split_char('a'));
    assert!(!is_split_char('Z'));
    assert!(!is_split_char('\u{e9}'));
    assert!(!is_split_char('7'));
}

#[test]
fn chars_round_trip() {
    let v = chars_of("The cat.");
    assert_eq!(v, cv("The cat."));
    let s = string_from_chars(&v);
    assert_eq!(s, "The cat.");
    assert!(chars_eq(&v, &cv("The cat.")));
    assert!(!chars_eq(&v, &cv("The cat")));
}

#[test]
fn tokenizing_splits_at_delimiters_keeping_empties() {
    let tokens = to_strings(split_tokens(&cv("The cat sat.")));
    assert_eq!(tokens, vec!["The", "cat", "sat", ""]);
    let tokens = to_strings(split_tokens(&cv("don't stop")));
    assert_eq!(tokens, vec!["don't", "stop"]);
    let tokens = to_strings(split_tokens(&cv("a,,b")));
    assert_eq!(tokens, vec!["a", "", "b"]);
    let tokens = to_strings(split_tokens(&cv("")));
    assert_eq!(tokens, vec![""]);
}

#[test]
fn cells_split_at_tabs_only() {
    let cells = to_strings(split_cells(&cv("1\teng\tThe cat sat.\textra")));
    assert_eq!(cells, vec!["1", "eng", "The cat sat.", "extra"]);
    let cells = to_strings(split_cells(&cv("no tabs here")));
    assert_eq!(cells, vec!["no tabs here"]);
}

#[test]
fn id_parsing_accepts_digits_and_a_leading_plus() {
    assert_eq!(parse_usize_chars(&cv("123")), Some(123));
    assert_eq!(parse_usize_chars(&cv("0")), Some(0));
    assert_eq!(parse_usize_chars(&cv("+7")), Some(7));
    assert_eq!(parse_usize_chars(&cv("")), None);
    assert_eq!(parse_usize_chars(&cv("+")), None);
    assert_eq!(parse_usize_chars(&cv("12a")), None);
    assert_eq!(parse_usize_chars(&cv("-3")), None);
    assert_eq!(parse_usize_chars(&cv(" 3")), None);
    assert_eq!(parse_usize_chars(&cv("99999999999999999999999999999")), None);
}

#[test]
fn filter_rejects_digits_residues_and_empties() {
    let tokens = vec![
        cv("The"),
        cv(""),
        cv("word1"),
        cv("a.b"),
        cv("a\u{0663}"),
        cv("cat"),
    ];
    let words = to_strings(filtered_words(&tokens));
    assert_eq!(words, vec!["THE", "CAT"]);
    assert!(keep_token(&cv("cat")));
    assert!(!keep_token(&cv("")));
    assert!(!keep_token(&cv("word1")));
    assert!(!keep_token(&cv("a.b")));
}

#[test]
fn canonicalization_composes_then_uppercases() {
    // decomposed e + combining acute becomes the composed letter, then its
    // uppercase form
    let decomposed = canon_token(&cv("cafe\u{301}"));
    let composed = canon_token(&cv("caf\u{e9}"));
    let upper = canon_token(&cv("CAF\u{c9}"));
    assert_eq!(decomposed, cv("CAF\u{c9}"));
    assert_eq!(composed, cv("CAF\u{c9}"));
    assert_eq!(upper, cv("CAF\u{c9}"));
}

#[test]
fn lexicographic_order_on_words() {
    assert!(lex_le_chars(&cv("cat"), &cv("dog")));
    assert!(!lex_le_chars(&cv("dog"), &cv("cat")));
    assert!(lex_le_chars(&cv("cat"), &cv("cat")));
    assert!(lex_le_chars(&cv("ca"), &cv("cat")));
    assert!(!lex_le_chars(&cv("cat"), &cv("ca")));
    assert!(lex_le_chars(&cv(""), &cv("a")));
}
