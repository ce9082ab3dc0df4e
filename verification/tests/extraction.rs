use fulltext::extract::extract_terms;

#[test]
fn scenario_sentence_with_punctuation() {
    let input = "This is a sentence. It includes punctuation, too.\nAnd newlines.";
    let terms = extract_terms(input.as_bytes()).unwrap();
    let expected = vec![
        "this",
        "is",
        "sentence",
        "it",
        "includes",
        "punctuation",
        "too",
        "and",
        "newlines",
    ];
    assert_eq!(terms, expected);
    for w in [
        "this",
        "is",
        "it",
        "includes",
        "punctuation",
        "too",
        "and",
        "newlines",
    ] {
        assert!(terms.iter().any(|t| t == w));
    }
    assert!(!terms.iter().any(|t| t == "a"));
}

#[test]
fn scenario_digits_and_punctuation_only() {
    let terms = extract_terms("123. !!! 456".as_bytes()).unwrap();
    assert!(terms.is_empty());
}

#[test]
fn empty_input_gives_empty_term_list() {
    let terms = extract_terms(b"").unwrap();
    assert!(terms.is_empty());
}

#[test]
fn whitespace_only_gives_empty_term_list() {
    let terms = extract_terms("  \t\n  \r\n ".as_bytes()).unwrap();
    assert!(terms.is_empty());
}

#[test]
fn single_character_tokens_are_dropped() {
    let terms = extract_terms("a b c xy z".as_bytes()).unwrap();
    assert_eq!(terms, vec!["xy"]);
}

#[test]
fn punctuation_between_runs_merges_them() {
    let terms = extract_terms("end.No more".as_bytes()).unwrap();
    assert_eq!(terms, vec!["endno", "more"]);
}

#[test]
fn digits_inside_a_word_are_dropped_not_split() {
    let terms = extract_terms("abc123def gh4".as_bytes()).unwrap();
    assert_eq!(terms, vec!["abcdef", "gh"]);
}

#[test]
fn unicode_letters_are_kept_and_folded() {
    let terms = extract_terms("ÄPFEL Über\tcafé".as_bytes()).unwrap();
    assert_eq!(terms, vec!["äpfel", "über", "café"]);
}

#[test]
fn letterlike_capitals_without_lowercase_forms_are_kept_as_is() {
    let terms = extract_terms("ℂℂ plus".as_bytes()).unwrap();
    assert_eq!(terms, vec!["ℂℂ", "plus"]);
    assert!(terms[0].chars().all(|c| c.is_uppercase()));
}

#[test]
fn terms_are_lowercase_alphabetic_and_long_enough() {
    let input = "Mixed CASE text, with Punct!! and 42 numbers\tplus Tabs";
    let terms = extract_terms(input.as_bytes()).unwrap();
    assert!(!terms.is_empty());
    for t in &terms {
        assert!(t.chars().count() >= 2);
        for c in t.chars() {
            assert!(c.is_alphabetic());
            assert!(!c.is_whitespace());
            assert!(!c.is_uppercase());
        }
    }
}

#[test]
fn extraction_is_idempotent() {
    let input = "Twice told: the same Bytes, the same Terms.";
    let first = extract_terms(input.as_bytes()).unwrap();
    let second = extract_terms(input.as_bytes()).unwrap();
    assert_eq!(first, second);
}

#[test]
fn valid_utf8_never_fails() {
    for input in [
        "",
        "plain words",
        "punctuation!!! only???",
        "123 456",
        "mixed Scripts: κόσμος мир world",
    ] {
        assert!(extract_terms(input.as_bytes()).is_ok());
    }
}

#[test]
fn invalid_utf8_fails_with_prefix_length() {
    let bytes: &[u8] = &[0x61, 0x62, 0xff, 0x63];
    let err = extract_terms(bytes).unwrap_err();
    assert_eq!(err, 2);
}
