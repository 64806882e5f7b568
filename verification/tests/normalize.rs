use tfidf_search::normalize::{is_letter, lemmatize, normalize, sanitize};

#[test]
fn sanitize_keeps_letters_only() {
    assert_eq!(sanitize("it's"), "its");
    assert_eq!(sanitize("Hello, World! 42"), "HelloWorld");
    assert_eq!(sanitize("a'); DROP TABLE terms; --"), "aDROPTABLEterms");
}

#[test]
fn sanitize_drops_letters_outside_a_to_z() {
    assert_eq!(sanitize("héllo"), "hllo");
    assert_eq!(sanitize("ÄÖÜ"), "");
}

#[test]
fn sanitize_leaves_a_word_of_letters() {
    assert_eq!(sanitize("cat"), "cat");
    assert_eq!(sanitize(""), "");
}

#[test]
fn is_letter_tells_the_letters() {
    for c in ['a', 'z', 'A', 'Z', 'm'] {
        assert!(is_letter(c));
    }
    for c in ['`', '{', '@', '[', '0', ' ', 'é', '\''] {
        assert!(!is_letter(c));
    }
}

#[test]
fn normalize_gives_the_term_of_a_word() {
    assert_eq!(normalize("cat"), Some("cat".to_string()));
    assert_eq!(normalize("don't"), Some("dont".to_string()));
}

#[test]
fn normalize_gives_no_term_for_a_word_without_letters() {
    assert_eq!(normalize(""), None);
    assert_eq!(normalize("1234"), None);
    assert_eq!(normalize("--"), None);
}

#[test]
fn lemmatize_takes_the_stem() {
    let stemmed: Result<String, String> = Ok("run".to_string());
    assert_eq!(lemmatize(stemmed), "run");
}

#[test]
fn lemmatize_gives_the_empty_word_on_failure() {
    let stemmed: Result<String, &str> = Err("not ascii");
    assert_eq!(lemmatize(stemmed), "");
}
