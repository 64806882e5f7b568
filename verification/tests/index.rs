use tfidf_search::document::Document;
use tfidf_search::index::{IndexReport, Indexer};

#[test]
fn a_new_run_has_seen_nothing() {
    let indexer = Indexer::new();
    assert_eq!(indexer.totals().len(), 0);
    assert_eq!(indexer.report(), IndexReport { succeeded: 0, failed: Vec::new() });
}

#[test]
fn merge_sums_the_counts_of_the_documents() {
    let mut indexer = Indexer::new();
    assert!(indexer.merge(&Document::from_text("a".to_string(), "cat dog cat")));
    assert!(indexer.merge(&Document::from_text("b".to_string(), "dog bird")));
    let totals = indexer.totals();
    assert_eq!(totals.get(&"cat".to_string()), Some(2));
    assert_eq!(totals.get(&"dog".to_string()), Some(2));
    assert_eq!(totals.get(&"bird".to_string()), Some(1));
    assert_eq!(totals.get(&"fish".to_string()), None);
    assert_eq!(totals.total(), 5);
}

#[test]
fn merge_gives_the_same_counts_in_any_order() {
    let a = Document::from_text("a".to_string(), "cat dog cat");
    let b = Document::from_text("b".to_string(), "dog bird");
    let c = Document::from_text("c".to_string(), "bird bird cat");
    let mut one = Indexer::new();
    for document in [&a, &b, &c] {
        assert!(one.merge(document));
    }
    let mut other = Indexer::new();
    for document in [&c, &a, &b] {
        assert!(other.merge(document));
    }
    for term in ["cat", "dog", "bird"] {
        assert_eq!(
            one.totals().get(&term.to_string()),
            other.totals().get(&term.to_string())
        );
    }
}

#[test]
fn report_counts_successes_and_lists_failures() {
    let mut indexer = Indexer::new();
    indexer.record("a.txt", true);
    indexer.record("b.txt", false);
    indexer.record("c.txt", true);
    indexer.record("d.txt", false);
    assert_eq!(
        indexer.report(),
        IndexReport {
            succeeded: 2,
            failed: vec!["b.txt".to_string(), "d.txt".to_string()],
        }
    );
}

#[test]
fn a_failure_does_not_end_the_run() {
    let mut indexer = Indexer::new();
    assert!(indexer.merge(&Document::from_text("a".to_string(), "cat")));
    indexer.record("a", false);
    assert!(indexer.merge(&Document::from_text("b".to_string(), "cat")));
    indexer.record("b", true);
    assert_eq!(indexer.totals().get(&"cat".to_string()), Some(2));
    assert_eq!(indexer.report().succeeded, 1);
    assert_eq!(indexer.report().failed, vec!["a".to_string()]);
}
