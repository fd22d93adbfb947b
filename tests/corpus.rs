use markov_text::corpus::{is_space_char, normalize, tokenize};
use markov_text::generator::{is_sentence_terminator, join_phrase};

#[test]
fn normalize_strips_annotations_and_collapses_space() {
    let r = normalize("Hello [note] \"world\" (x)\n  it's_ok");
    assert_eq!(r, "Hello world x itsok");
}

#[test]
fn normalize_removes_curly_quotes_and_carriage_returns() {
    let r = normalize("\u{201c}Yes\u{201d}\r\nshe\u{2019}s here");
    assert_eq!(r, "Yes shes here");
}

#[test]
fn tokenize_splits_on_whitespace() {
    let r = tokenize("  one\ttwo\u{a0}three   four. ");
    assert_eq!(r, vec!["one", "two", "three", "four."]);
}

#[test]
fn tokenize_empty_text() {
    assert!(tokenize("").is_empty());
    assert!(tokenize("   ").is_empty());
}

#[test]
fn space_characters() {
    assert!(is_space_char(' '));
    assert!(is_space_char('\n'));
    assert!(is_space_char('\u{3000}'));
    assert!(!is_space_char('a'));
}

#[test]
fn terminators_end_in_delimiters() {
    assert!(is_sentence_terminator(&"end.".to_string()));
    assert!(is_sentence_terminator(&"so,".to_string()));
    assert!(is_sentence_terminator(&"wow!".to_string()));
    assert!(!is_sentence_terminator(&"what?".to_string()));
    assert!(!is_sentence_terminator(&String::new()));
}

#[test]
fn join_uses_single_spaces() {
    let ws = vec!["a".to_string(), "bb".to_string(), "c".to_string()];
    assert_eq!(join_phrase(&ws), "a bb c");
    assert_eq!(join_phrase(&Vec::new()), "");
}

#[test]
fn carriage_return_separates_words() {
    let r = normalize("a\rb");
    assert_eq!(r, "a b");
    assert_eq!(tokenize(&r), vec!["a", "b"]);
}
