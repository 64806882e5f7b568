use tfidf_search::text::{chars_of, is_white_space, replace_all, split_whitespace, to_decimal};

#[test]
fn split_whitespace_gives_the_words() {
    assert_eq!(split_whitespace("cat dog cat"), vec!["cat", "dog", "cat"]);
}

#[test]
fn split_whitespace_passes_over_runs_of_white_space() {
    assert_eq!(split_whitespace("  cat \t\n dog\r\n"), vec!["cat", "dog"]);
}

#[test]
fn split_whitespace_of_nothing_is_empty() {
    assert!(split_whitespace("").is_empty());
    assert!(split_whitespace(" \n\t ").is_empty());
}

#[test]
fn split_whitespace_knows_unicode_white_space() {
    assert_eq!(
        split_whitespace("a\u{a0}b\u{2003}c\u{3000}d\u{85}e"),
        vec!["a", "b", "c", "d", "e"]
    );
}

#[test]
fn split_whitespace_agrees_with_std() {
    let text = " one\u{1680}two  three\u{2028}four\u{205f}five\u{202f}six\u{200b}seven ";
    let expected: Vec<String> = text.split_whitespace().map(|w| w.to_string()).collect();
    assert_eq!(split_whitespace(text), expected);
}

#[test]
fn white_space_agrees_with_std_on_every_character() {
    let mut n: u32 = 0;
    while n <= 0x10ffff {
        if let Some(c) = char::from_u32(n) {
            assert_eq!(is_white_space(c), c.is_whitespace());
        }
        n += 1;
    }
}

#[test]
fn chars_of_lists_the_characters() {
    assert_eq!(chars_of("héllo"), vec!['h', 'é', 'l', 'l', 'o']);
}

#[test]
fn replace_all_replaces_each_occurrence() {
    assert_eq!(replace_all("a/b/c", "/", "_IN_"), "a_IN_b_IN_c");
    assert_eq!(replace_all("a.b", ".", "_DOT_"), "a_DOT_b");
}

#[test]
fn replace_all_goes_from_left_to_right_without_overlap() {
    assert_eq!(replace_all("aaaa", "aa", "b"), "bb");
    assert_eq!(replace_all("aaa", "aa", "b"), "ba");
    assert_eq!(replace_all("abab", "aba", "x"), "xb");
}

#[test]
fn replace_all_leaves_a_text_without_the_pattern() {
    assert_eq!(replace_all("abc", "xyz", "q"), "abc");
    assert_eq!(replace_all("ab", "abc", "q"), "ab");
    assert_eq!(replace_all("", "a", "q"), "");
}

#[test]
fn replace_all_with_an_empty_pattern_changes_nothing() {
    assert_eq!(replace_all("abc", "", "q"), "abc");
}

#[test]
fn replace_all_agrees_with_std() {
    for (text, pattern, with) in [
        ("./content/a.b.txt", ".", "_DOT_"),
        ("xxyxxxyx", "xx", "y"),
        ("héllo wörld", "ö", "oe"),
        ("_DOT__IN_content_IN_a_DOT_txt", "_DOT_txt", ""),
    ] {
        assert_eq!(replace_all(text, pattern, with), text.replace(pattern, with));
    }
}

#[test]
fn to_decimal_writes_numerals() {
    assert_eq!(to_decimal(0), "0");
    assert_eq!(to_decimal(7), "7");
    assert_eq!(to_decimal(10), "10");
    assert_eq!(to_decimal(1234567890), "1234567890");
    assert_eq!(to_decimal(u64::MAX), "18446744073709551615");
}
