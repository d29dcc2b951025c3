use fst_indexer::tokenize;

#[test]
fn test_tokenize_basic() {
    let tokens = tokenize("Hello World");
    assert_eq!(tokens, vec!["hello", "world"]);
}

#[test]
fn test_tokenize_short_words_skipped() {
    let tokens = tokenize("a an the cat");
    // "a" is len 1 (filtered), "an" is len 2 (included), "the"/"cat" are >= 2
    assert_eq!(tokens, vec!["an", "the", "cat"]);
}

#[test]
fn test_tokenize_hyphen_and_underscore() {
    let tokens = tokenize("multi-word and_snake_case");
    assert_eq!(tokens, vec!["multi-word", "and_snake_case"]);
}

#[test]
fn tokenize_empty_text() {
    assert!(tokenize("").is_empty());
    assert!(tokenize("   ,;  ").is_empty());
}

#[test]
fn tokenize_splits_on_punctuation_and_keeps_digits() {
    assert_eq!(tokenize("error: code=42, retry!"), vec!["error", "code", "42", "retry"]);
}

#[test]
fn tokenize_length_is_counted_in_bytes() {
    // one two-byte character passes the two-byte minimum
    assert_eq!(tokenize("é x"), vec!["é"]);
    let long = "a".repeat(100);
    let too_long = "b".repeat(101);
    let text = format!("{} {}", long, too_long);
    assert_eq!(tokenize(&text), vec![long]);
}

#[test]
fn tokenize_lowercases_unicode() {
    assert_eq!(tokenize("ÜBER Straße"), vec!["über", "straße"]);
}

#[test]
fn a_separator_keeps_the_tokens_of_both_sides() {
    let a = "Hello wor";
    let b = "ld-wide again";
    for sep in [" ", ",", "\n", "!"] {
        let joined = format!("{}{}{}", a, sep, b);
        let mut expected = tokenize(a);
        expected.extend(tokenize(b));
        assert_eq!(tokenize(&joined), expected);
    }
}

#[test]
fn ascii_tokens_are_lowercase_and_tokenize_to_themselves() {
    let text = "Deploy FAILED on host-42 (error_code=E17), retry_in 5s!";
    let toks = tokenize(text);
    assert_eq!(toks, vec!["deploy", "failed", "on", "host-42", "error_code", "e17", "retry_in", "5s"]);
    for t in &toks {
        assert!(t.len() >= 2 && t.len() <= 100);
        assert!(t.chars().all(|c| c.is_ascii_lowercase() || c.is_ascii_digit() || c == '_' || c == '-'));
        assert_eq!(tokenize(t), vec![t.clone()]);
    }
    assert_eq!(tokenize(&toks.join(" ")), toks);
}
