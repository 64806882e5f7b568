use tfidf_search::document::{Document, TermCount};
use tfidf_search::index::Indexer;
use tfidf_search::memory::MemoryStore;
use tfidf_search::query::{query_many_terms, query_term, DocumentRow, TermRow};
use tfidf_search::score::Score;

fn two_documents() -> MemoryStore {
    let mut store = MemoryStore::new();
    store.write(&Document::from_text("A".to_string(), "cat dog cat"));
    store.write(&Document::from_text("B".to_string(), "dog bird"));
    store
}

fn value(score: &Score) -> f64 {
    (score.frequency as f64 / score.size as f64)
        * (score.matching as f64 / score.total as f64).ln()
}

#[test]
fn registry_lists_each_document_with_its_size() {
    let store = two_documents();
    assert_eq!(
        store.documents(),
        vec![
            DocumentRow { name: "A".to_string(), size: 2 },
            DocumentRow { name: "B".to_string(), size: 2 },
        ]
    );
}

#[test]
fn lookup_finds_the_documents_that_hold_the_term() {
    let store = two_documents();
    assert_eq!(
        store.lookup("dog"),
        vec![
            TermRow { name: "A".to_string(), frequency: 1 },
            TermRow { name: "B".to_string(), frequency: 1 },
        ]
    );
    assert_eq!(store.lookup("cat"), vec![TermRow { name: "A".to_string(), frequency: 2 }]);
    assert!(store.lookup("fish").is_empty());
    assert!(store.lookup("").is_empty());
    assert!(store.lookup("42").is_empty());
}

#[test]
fn lookup_strips_the_word_as_indexing_does() {
    let mut store = MemoryStore::new();
    store.write(&Document::from_text("A".to_string(), "it's"));
    assert_eq!(store.lookup("its"), store.lookup("it's"));
    assert_eq!(store.lookup("its").len(), 1);
}

#[test]
fn query_dog_returns_both_documents_with_score_zero() {
    let store = two_documents();
    let ranked = query_term(&store.documents(), &store.lookup("dog"));
    assert_eq!(ranked.len(), 2);
    assert_eq!(ranked[0].name, "A");
    assert_eq!(ranked[1].name, "B");
    for scored in &ranked {
        assert_eq!(scored.score.matching, 2);
        assert_eq!(scored.score.total, 2);
        assert_eq!(value(&scored.score), 0.0);
    }
}

#[test]
fn query_cat_returns_the_one_document() {
    let store = two_documents();
    let ranked = query_term(&store.documents(), &store.lookup("cat"));
    assert_eq!(ranked.len(), 1);
    assert_eq!(ranked[0].name, "A");
    assert_eq!(ranked[0].score, Score { frequency: 2, size: 2, matching: 1, total: 2 });
    assert_eq!(value(&ranked[0].score), (0.5f64).ln());
}

#[test]
fn query_cat_and_dog_returns_the_intersection() {
    let store = two_documents();
    let documents = store.documents();
    let per_term = vec![store.lookup("cat"), store.lookup("dog")];
    assert_eq!(query_many_terms(&documents, &per_term), vec!["A".to_string()]);
    let cat = query_term(&documents, &per_term[0]);
    let dog = query_term(&documents, &per_term[1]);
    let product = value(&cat[0].score) * value(&dog[0].score);
    assert_eq!(product.abs(), 0.0);
}

#[test]
fn query_cat_and_bird_returns_nothing() {
    let store = two_documents();
    let per_term = vec![store.lookup("cat"), store.lookup("bird")];
    assert!(query_many_terms(&store.documents(), &per_term).is_empty());
}

#[test]
fn writing_a_document_again_changes_nothing() {
    let document = Document::from_text("docs/a.txt".to_string(), "cat dog cat");
    let mut once = MemoryStore::new();
    once.write(&document);
    let mut twice = MemoryStore::new();
    twice.write(&document);
    twice.write(&document);
    assert_eq!(once.documents(), twice.documents());
    for word in ["cat", "dog", "bird"] {
        assert_eq!(once.lookup(word), twice.lookup(word));
    }
    assert_eq!(
        twice.lookup("cat"),
        vec![TermRow { name: "docs_IN_a_DOT_txt".to_string(), frequency: 2 }]
    );
}

#[test]
fn writing_a_changed_document_replaces_its_rows() {
    let mut store = MemoryStore::new();
    store.write(&Document::from_text("A".to_string(), "cat dog cat"));
    store.write(&Document::from_text("A".to_string(), "cat bird"));
    assert_eq!(store.documents(), vec![DocumentRow { name: "A".to_string(), size: 2 }]);
    assert_eq!(store.lookup("cat"), vec![TermRow { name: "A".to_string(), frequency: 1 }]);
    assert_eq!(store.lookup("bird"), vec![TermRow { name: "A".to_string(), frequency: 1 }]);
    // Rows of terms that the document no longer holds are not removed.
    assert_eq!(store.lookup("dog"), vec![TermRow { name: "A".to_string(), frequency: 1 }]);
}

#[test]
fn paths_of_one_table_name_share_a_table() {
    let mut store = MemoryStore::new();
    store.write(&Document::from_text("a/b".to_string(), "cat"));
    store.write(&Document::from_text("a_IN_b".to_string(), "dog dog"));
    assert_eq!(store.documents(), vec![DocumentRow { name: "a_IN_b".to_string(), size: 1 }]);
    assert_eq!(store.lookup("cat").len(), 1);
    assert_eq!(store.lookup("dog"), vec![TermRow { name: "a_IN_b".to_string(), frequency: 2 }]);
}

#[test]
fn write_terms_keeps_the_corpus_counts_apart() {
    let a = Document::from_text("A".to_string(), "cat dog cat");
    let mut indexer = Indexer::new();
    assert!(indexer.merge(&a));
    let mut store = MemoryStore::new();
    store.write(&a);
    let before = (store.documents(), store.lookup("cat"));
    store.write_terms(indexer.totals());
    store.write_terms(indexer.totals());
    assert_eq!(before, (store.documents(), store.lookup("cat")));
}

#[test]
fn write_terms_rebuilds_the_table_of_the_corpus() {
    let mut store = MemoryStore::new();
    let mut earlier = Indexer::new();
    assert!(earlier.merge(&Document::from_text("A".to_string(), "old old old")));
    store.write_terms(earlier.totals());
    assert_eq!(store.terms(), vec![TermCount { term: "old".to_string(), count: 3 }]);
    let mut later = Indexer::new();
    assert!(later.merge(&Document::from_text("B".to_string(), "cat cat")));
    store.write_terms(later.totals());
    assert_eq!(store.terms(), vec![TermCount { term: "cat".to_string(), count: 2 }]);
}

#[test]
fn write_terms_twice_is_as_once() {
    let mut indexer = Indexer::new();
    assert!(indexer.merge(&Document::from_text("A".to_string(), "cat dog cat")));
    assert!(indexer.merge(&Document::from_text("B".to_string(), "dog bird")));
    let mut store = MemoryStore::new();
    store.write_terms(indexer.totals());
    let once = store.terms();
    store.write_terms(indexer.totals());
    assert_eq!(store.terms(), once);
    assert_eq!(
        once,
        vec![
            TermCount { term: "cat".to_string(), count: 2 },
            TermCount { term: "dog".to_string(), count: 2 },
            TermCount { term: "bird".to_string(), count: 1 },
        ]
    );
}

#[test]
fn write_terms_of_an_empty_run_empties_the_table() {
    let mut store = MemoryStore::new();
    let mut earlier = Indexer::new();
    assert!(earlier.merge(&Document::from_text("A".to_string(), "old")));
    store.write_terms(earlier.totals());
    store.write_terms(Indexer::new().totals());
    assert!(store.terms().is_empty());
}

#[test]
fn index_writes_every_document_and_the_corpus() {
    let documents = vec![
        Document::from_text("A".to_string(), "cat dog cat"),
        Document::from_text("B".to_string(), "dog bird"),
    ];
    let mut store = MemoryStore::new();
    let report = store.index(&documents);
    assert_eq!(report.succeeded, 2);
    assert!(report.failed.is_empty());
    assert_eq!(store.documents(), two_documents().documents());
    assert_eq!(store.lookup("dog"), two_documents().lookup("dog"));
    assert_eq!(
        store.terms(),
        vec![
            TermCount { term: "cat".to_string(), count: 2 },
            TermCount { term: "dog".to_string(), count: 2 },
            TermCount { term: "bird".to_string(), count: 1 },
        ]
    );
}

#[test]
fn index_again_leaves_the_store_as_it_was() {
    let documents = vec![
        Document::from_text("a/b".to_string(), "cat dog cat"),
        Document::from_text("c.txt".to_string(), "dog bird"),
        Document::from_text("a_IN_b".to_string(), "dog dog fish"),
        Document::from_text("empty".to_string(), ""),
    ];
    let mut store = MemoryStore::new();
    store.index(&documents);
    let once = (
        store.documents(),
        store.terms(),
        store.lookup("cat"),
        store.lookup("dog"),
        store.lookup("bird"),
        store.lookup("fish"),
    );
    store.index(&documents);
    let twice = (
        store.documents(),
        store.terms(),
        store.lookup("cat"),
        store.lookup("dog"),
        store.lookup("bird"),
        store.lookup("fish"),
    );
    assert_eq!(once, twice);
    assert_eq!(store.documents().len(), 3);
    assert_eq!(store.lookup("dog")[0], TermRow { name: "a_IN_b".to_string(), frequency: 2 });
}

#[test]
fn index_forgets_the_corpus_of_an_earlier_run() {
    let mut store = MemoryStore::new();
    store.index(&vec![Document::from_text("A".to_string(), "old old old")]);
    store.index(&vec![Document::from_text("B".to_string(), "cat cat")]);
    assert_eq!(store.terms(), vec![TermCount { term: "cat".to_string(), count: 2 }]);
    // The registry and the tables of earlier documents stay.
    assert_eq!(store.documents().len(), 2);
    assert_eq!(store.lookup("old").len(), 1);
}
