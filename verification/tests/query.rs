use tfidf_search::query::{query_many_terms, query_term, DocumentRow, Registry, Scored, TermRow};
use tfidf_search::rank::rank;
use tfidf_search::score::{cross_product, is_ahead, product_sign, Score};

fn doc(name: &str, size: u64) -> DocumentRow {
    DocumentRow { name: name.to_string(), size }
}

fn row(name: &str, frequency: u64) -> TermRow {
    TermRow { name: name.to_string(), frequency }
}

fn value(score: &Score) -> f64 {
    (score.frequency as f64 / score.size as f64)
        * (score.matching as f64 / score.total as f64).ln()
}

fn names(ranked: &Vec<Scored>) -> Vec<String> {
    ranked.iter().map(|s| s.name.clone()).collect()
}

#[test]
fn term_in_every_document_scores_zero_and_keeps_row_order() {
    let documents = vec![doc("A", 2), doc("B", 2)];
    let rows = vec![row("A", 1), row("B", 1)];
    let ranked = query_term(&documents, &rows);
    assert_eq!(names(&ranked), vec!["A", "B"]);
    for scored in &ranked {
        assert_eq!(scored.score.matching, 2);
        assert_eq!(scored.score.total, 2);
        assert_eq!(value(&scored.score), 0.0);
    }
    let other_way = query_term(&documents, &vec![row("B", 1), row("A", 1)]);
    assert_eq!(names(&other_way), vec!["B", "A"]);
}

#[test]
fn term_in_one_of_two_documents() {
    let documents = vec![doc("A", 2), doc("B", 2)];
    let rows = vec![row("A", 2)];
    let ranked = query_term(&documents, &rows);
    assert_eq!(
        ranked,
        vec![Scored {
            name: "A".to_string(),
            score: Score { frequency: 2, size: 2, matching: 1, total: 2 },
        }]
    );
}

#[test]
fn score_has_the_value_of_the_formula() {
    let documents = vec![doc("A", 2), doc("B", 2)];
    let ranked = query_term(&documents, &vec![row("A", 1)]);
    let v = value(&ranked[0].score);
    assert_eq!(v, 0.5 * (0.5f64).ln());
    assert!((v + 0.347).abs() < 1e-3);
}

#[test]
fn single_match_among_many_has_the_logarithm_of_one_over_total() {
    let documents = vec![doc("A", 4), doc("B", 7), doc("C", 1), doc("D", 9), doc("E", 3)];
    let ranked = query_term(&documents, &vec![row("B", 3)]);
    assert_eq!(ranked.len(), 1);
    assert_eq!(ranked[0].name, "B");
    assert_eq!(ranked[0].score, Score { frequency: 3, size: 7, matching: 1, total: 5 });
    assert_eq!(value(&ranked[0].score), 3.0 / 7.0 * (1.0f64 / 5.0).ln());
}

#[test]
fn scores_are_ranked_greatest_first() {
    // The logarithm is negative, so the smaller quotient has the greater score.
    let documents = vec![doc("A", 2), doc("B", 2), doc("C", 5)];
    let rows = vec![row("A", 2), row("B", 1)];
    let ranked = query_term(&documents, &rows);
    assert_eq!(names(&ranked), vec!["B", "A"]);
    assert!(value(&ranked[0].score) > value(&ranked[1].score));
    assert_eq!(ranked[0].score, Score { frequency: 1, size: 2, matching: 2, total: 3 });
    assert_eq!(ranked[1].score, Score { frequency: 2, size: 2, matching: 2, total: 3 });
}

#[test]
fn ranking_follows_the_values_of_the_scores() {
    let documents = vec![
        doc("A", 3),
        doc("B", 10),
        doc("C", 7),
        doc("D", 4),
        doc("E", 100),
        doc("F", 1),
    ];
    let rows = vec![row("A", 2), row("B", 9), row("C", 1), row("D", 4), row("E", 1)];
    let ranked = query_term(&documents, &rows);
    assert_eq!(names(&ranked), vec!["E", "C", "A", "B", "D"]);
    for pair in ranked.windows(2) {
        assert!(value(&pair[0].score) >= value(&pair[1].score));
    }
}

#[test]
fn equal_scores_keep_the_order_of_the_rows() {
    let documents = vec![doc("A", 2), doc("B", 4), doc("C", 6), doc("D", 1)];
    let rows = vec![row("C", 3), row("A", 1), row("B", 2)];
    let ranked = query_term(&documents, &rows);
    assert_eq!(names(&ranked), vec!["C", "A", "B"]);
}

#[test]
fn rows_of_unlisted_documents_are_passed_over() {
    let documents = vec![doc("A", 2)];
    let rows = vec![row("Z", 5), row("A", 1)];
    let ranked = query_term(&documents, &rows);
    assert_eq!(names(&ranked), vec!["A"]);
    assert_eq!(ranked[0].score, Score { frequency: 1, size: 2, matching: 1, total: 1 });
}

#[test]
fn rows_of_empty_documents_are_passed_over() {
    let documents = vec![doc("A", 0), doc("B", 3)];
    let rows = vec![row("A", 1), row("B", 2)];
    let ranked = query_term(&documents, &rows);
    assert_eq!(names(&ranked), vec!["B"]);
    assert_eq!(ranked[0].score, Score { frequency: 2, size: 3, matching: 1, total: 2 });
}

#[test]
fn a_document_counts_once() {
    let documents = vec![doc("A", 2), doc("B", 2)];
    let rows = vec![row("A", 1), row("A", 2)];
    let ranked = query_term(&documents, &rows);
    assert_eq!(
        ranked,
        vec![Scored {
            name: "A".to_string(),
            score: Score { frequency: 1, size: 2, matching: 1, total: 2 },
        }]
    );
}

#[test]
fn no_rows_give_no_answer() {
    let documents = vec![doc("A", 2)];
    assert!(query_term(&documents, &Vec::new()).is_empty());
    assert!(query_term(&Vec::new(), &vec![row("A", 1)]).is_empty());
}

#[test]
fn registry_takes_the_later_row_of_a_document() {
    let registry = Registry::from_rows(&vec![doc("A", 2), doc("B", 3), doc("A", 5)]);
    assert_eq!(registry.len(), 2);
    assert_eq!(registry.size_of(&"A".to_string()), Some(5));
    assert_eq!(registry.size_of(&"B".to_string()), Some(3));
    assert_eq!(registry.size_of(&"C".to_string()), None);
}

#[test]
fn registry_scores_as_query_term_does() {
    let documents = vec![doc("A", 2), doc("B", 2), doc("C", 5)];
    let rows = vec![row("A", 2), row("B", 1)];
    let registry = Registry::from_rows(&documents);
    assert_eq!(registry.score(&rows), query_term(&documents, &rows));
}

#[test]
fn two_terms_intersect() {
    let documents = vec![doc("A", 2), doc("B", 2)];
    let cat = vec![row("A", 2)];
    let dog = vec![row("A", 1), row("B", 1)];
    let names = query_many_terms(&documents, &vec![cat, dog]);
    assert_eq!(names, vec!["A".to_string()]);
}

#[test]
fn product_of_the_two_scores() {
    let documents = vec![doc("A", 2), doc("B", 2)];
    let cat = query_term(&documents, &vec![row("A", 2)]);
    let dog = query_term(&documents, &vec![row("A", 1), row("B", 1)]);
    let product = value(&cat[0].score) * value(&dog[0].score);
    assert_eq!(value(&cat[0].score), (0.5f64).ln());
    assert_eq!(value(&dog[0].score), 0.0);
    assert_eq!(product.abs(), 0.0);
}

#[test]
fn no_terms_give_no_answer() {
    let documents = vec![doc("A", 2), doc("B", 2)];
    assert!(query_many_terms(&documents, &Vec::new()).is_empty());
}

#[test]
fn terms_without_a_common_document_give_no_answer() {
    let documents = vec![doc("A", 2), doc("B", 2)];
    let cat = vec![row("A", 2)];
    let bird = vec![row("B", 1)];
    assert!(query_many_terms(&documents, &vec![cat, bird]).is_empty());
}

#[test]
fn a_term_without_rows_empties_the_answer() {
    let documents = vec![doc("A", 2), doc("B", 2)];
    let dog = vec![row("A", 1), row("B", 1)];
    assert!(query_many_terms(&documents, &vec![dog, Vec::new()]).is_empty());
}

#[test]
fn one_term_is_ordered_as_the_single_query() {
    let documents = vec![
        doc("A", 3),
        doc("B", 10),
        doc("C", 7),
        doc("D", 4),
        doc("E", 100),
        doc("F", 1),
    ];
    let rows = vec![row("A", 2), row("B", 9), row("C", 1), row("D", 4), row("E", 1)];
    let single = query_term(&documents, &rows);
    let many = query_many_terms(&documents, &vec![rows]);
    assert_eq!(many, names(&single));
}

#[test]
fn two_negative_scores_rank_by_the_product() {
    // Both logarithms are negative: the products are positive, and the
    // greater product of quotients comes first.
    let documents = vec![doc("A", 4), doc("B", 4), doc("C", 4), doc("D", 9)];
    let first = vec![row("A", 1), row("B", 2), row("C", 4)];
    let second = vec![row("A", 4), row("B", 3), row("C", 1)];
    let names = query_many_terms(&documents, &vec![first, second]);
    // A: 1/4 * 4/4, B: 2/4 * 3/4, C: 4/4 * 1/4. A and C are equal and keep
    // the order of the answer to the first term, where A stands before C.
    assert_eq!(names, vec!["B", "A", "C"]);
}

#[test]
fn three_negative_scores_rank_by_the_smaller_product() {
    let documents = vec![doc("A", 2), doc("B", 2), doc("C", 9)];
    let one = vec![row("A", 2), row("B", 1)];
    let two = vec![row("A", 2), row("B", 1)];
    let three = vec![row("B", 1), row("A", 2)];
    let names = query_many_terms(&documents, &vec![one, two, three]);
    assert_eq!(names, vec!["B", "A"]);
}

#[test]
fn products_are_compared_beyond_machine_words() {
    let big = u64::MAX;
    let a = vec![
        Score { frequency: big, size: 1, matching: 1, total: 2 },
        Score { frequency: big, size: 1, matching: 1, total: 2 },
        Score { frequency: big, size: 1, matching: 1, total: 2 },
        Score { frequency: big, size: 1, matching: 1, total: 2 },
    ];
    let mut b = a.clone();
    b[3].frequency = big - 1;
    assert_eq!(product_sign(&a), 1);
    assert!(is_ahead(&a, &b));
    assert!(!is_ahead(&b, &a));
    assert!(!is_ahead(&a, &a));
    let mut c = a.clone();
    c.pop();
    assert_eq!(product_sign(&c), -1);
    let mut d = c.clone();
    d[0].frequency = big - 1;
    assert!(is_ahead(&d, &c));
    assert!(!is_ahead(&c, &d));
}

#[test]
fn cross_product_multiplies_frequencies_and_sizes() {
    let over = vec![
        Score { frequency: 6, size: 1, matching: 1, total: 2 },
        Score { frequency: 7, size: 1, matching: 1, total: 2 },
    ];
    let under = vec![Score { frequency: 1, size: 2, matching: 1, total: 2 }];
    let product = cross_product(&over, &under);
    let same = cross_product(
        &vec![Score { frequency: 84, size: 1, matching: 1, total: 2 }],
        &Vec::new(),
    );
    assert!(!product.less_than(&same));
    assert!(!same.less_than(&product));
    let more = cross_product(
        &vec![Score { frequency: 85, size: 1, matching: 1, total: 2 }],
        &Vec::new(),
    );
    assert!(product.less_than(&more));
}

#[test]
fn a_universal_term_makes_the_product_zero() {
    let key = vec![
        Score { frequency: 5, size: 1, matching: 1, total: 2 },
        Score { frequency: 5, size: 1, matching: 2, total: 2 },
    ];
    let other = vec![
        Score { frequency: 1, size: 1, matching: 1, total: 2 },
        Score { frequency: 9, size: 1, matching: 2, total: 2 },
    ];
    assert_eq!(product_sign(&key), 0);
    assert!(!is_ahead(&key, &other));
    assert!(!is_ahead(&other, &key));
}

#[test]
fn rank_is_stable_and_descending() {
    let s = |frequency: u64, size: u64| vec![Score { frequency, size, matching: 1, total: 3 }];
    // Values: -1/2 L, -1/4 L, -1/2 L, -1 L, -1/4 L with L > 0.
    let keys = vec![s(1, 2), s(1, 4), s(2, 4), s(3, 3), s(2, 8)];
    assert_eq!(rank(&keys), vec![1, 4, 0, 2, 3]);
    assert!(rank(&Vec::new()).is_empty());
}
