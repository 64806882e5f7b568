use tfidf_search::document::{Document, TermCount, TermCounts};

fn entries(counts: &TermCounts) -> Vec<(String, u64)> {
    let mut out = Vec::new();
    let mut i = 0;
    while let Some(entry) = counts.entry(i) {
        out.push((entry.term.clone(), entry.count));
        i += 1;
    }
    out
}

#[test]
fn size_is_the_number_of_distinct_terms() {
    let document = Document::from_text("a.txt".to_string(), "cat dog cat");
    assert_eq!(document.size(), 2);
    assert_eq!(document.df.total(), 3);
    assert_eq!(
        entries(&document.df),
        vec![("cat".to_string(), 2), ("dog".to_string(), 1)]
    );
}

#[test]
fn size_is_not_the_number_of_tokens() {
    let document = Document::from_text("a.txt".to_string(), "a a a a a a a");
    assert_eq!(document.size(), 1);
    assert_eq!(document.df.get(&"a".to_string()), Some(7));
}

#[test]
fn words_without_letters_are_left_out() {
    let document = Document::from_text("a.txt".to_string(), "cat 42 -- dog ...");
    assert_eq!(document.size(), 2);
    assert_eq!(document.df.total(), 2);
    assert_eq!(document.df.get(&"".to_string()), None);
}

#[test]
fn words_that_spell_one_term_count_together() {
    let document = Document::from_text("a.txt".to_string(), "its it's its.");
    assert_eq!(entries(&document.df), vec![("its".to_string(), 3)]);
}

#[test]
fn empty_text_gives_an_empty_document() {
    let document = Document::from_text("a.txt".to_string(), "  \n ");
    assert_eq!(document.size(), 0);
    assert_eq!(document.df.len(), 0);
    assert_eq!(document.df.total(), 0);
    assert!(document.df.entry(0).is_none());
}

#[test]
fn from_words_drops_failed_words() {
    let words = vec![
        "run".to_string(),
        "".to_string(),
        "cat".to_string(),
        "run".to_string(),
    ];
    let document = Document::from_words("b.txt".to_string(), &words);
    assert_eq!(document.path, "b.txt");
    assert_eq!(
        entries(&document.df),
        vec![("run".to_string(), 2), ("cat".to_string(), 1)]
    );
}

#[test]
fn counts_are_never_zero() {
    let document = Document::from_text("a.txt".to_string(), "x y z x y x");
    for (_, count) in entries(&document.df) {
        assert!(count >= 1);
    }
}

#[test]
fn entry_gives_the_row() {
    let document = Document::from_text("a.txt".to_string(), "dog cat");
    assert_eq!(
        document.df.entry(1),
        Some(&TermCount { term: "cat".to_string(), count: 1 })
    );
    assert_eq!(document.df.entry(2), None);
}

#[test]
fn absorb_adds_the_counts() {
    let mut totals = TermCounts::new();
    let a = Document::from_text("a".to_string(), "cat dog cat");
    let b = Document::from_text("b".to_string(), "dog bird");
    assert!(totals.absorb(&a.df));
    assert!(totals.absorb(&b.df));
    assert_eq!(
        entries(&totals),
        vec![
            ("cat".to_string(), 2),
            ("dog".to_string(), 2),
            ("bird".to_string(), 1)
        ]
    );
    assert_eq!(totals.total(), 5);
}

#[test]
fn absorb_does_not_depend_on_the_order() {
    let a = Document::from_text("a".to_string(), "cat dog cat");
    let b = Document::from_text("b".to_string(), "dog bird");
    let mut one = TermCounts::new();
    assert!(one.absorb(&a.df));
    assert!(one.absorb(&b.df));
    let mut other = TermCounts::new();
    assert!(other.absorb(&b.df));
    assert!(other.absorb(&a.df));
    for term in ["cat", "dog", "bird", "fish"] {
        assert_eq!(one.get(&term.to_string()), other.get(&term.to_string()));
    }
}

#[test]
fn absorb_refuses_a_sum_that_does_not_fit() {
    let mut a = Document::from_text("a".to_string(), "x").df;
    let mut b = Document::from_text("b".to_string(), "x").df;
    let mut refused = false;
    for _ in 0..200 {
        let before = a.total();
        if !a.absorb(&b) {
            assert_eq!(a.total(), before);
            assert_eq!(a.get(&"x".to_string()), Some(before));
            assert!(before.checked_add(b.total()).is_none());
            refused = true;
            break;
        }
        assert_eq!(a.total(), before + b.total());
        std::mem::swap(&mut a, &mut b);
    }
    assert!(refused);
}
