use rustml::bayes_classifier::Tokenize;
use rustml::text::tokenize_str;

fn words(input: &str) -> Vec<String> {
    tokenize_str(input)
}

#[test]
fn lowercases_and_splits_on_spaces() {
    assert_eq!(words("Hello World"), vec!["hello".to_string(), "world".to_string()]);
}

#[test]
fn punctuation_acts_as_a_boundary() {
    assert_eq!(words("Hello, World!"), vec!["hello".to_string(), "world".to_string()]);
    assert_eq!(words("a-b"), vec!["a".to_string(), "b".to_string()]);
}

#[test]
fn surrounding_and_repeated_whitespace_is_dropped() {
    assert_eq!(words("  a  b "), vec!["a".to_string(), "b".to_string()]);
}

#[test]
fn empty_and_letterless_text_has_no_tokens() {
    assert_eq!(words(""), Vec::<String>::new());
    assert_eq!(words("123 !? 456"), Vec::<String>::new());
}

#[test]
fn non_ascii_characters_are_boundaries() {
    assert_eq!(words("p\u{e8}re"), vec!["p".to_string(), "re".to_string()]);
}

#[test]
fn string_content_uses_the_reference_policy() {
    let toks = "One, two; THREE".to_string().tokenize();
    assert_eq!(toks, vec!["one".to_string(), "two".to_string(), "three".to_string()]);
}
