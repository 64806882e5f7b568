use tfidf_search::front::{display_name, format_results};

#[test]
fn display_name_strips_the_markers() {
    assert_eq!(display_name("_DOT__IN_content_IN_a_DOT_txt"), "a");
    assert_eq!(display_name("other_IN_b_DOT_md"), "other_IN_b_DOT_md");
}

#[test]
fn format_results_lists_the_documents() {
    let names = vec![
        "_DOT__IN_content_IN_a_DOT_txt".to_string(),
        "_DOT__IN_content_IN_b_DOT_txt".to_string(),
    ];
    assert_eq!(
        format_results(&names),
        vec![
            "INFO: number of results: 2".to_string(),
            "RESULT: ".to_string(),
            "   1. a".to_string(),
            "   2. b".to_string(),
        ]
    );
}

#[test]
fn format_results_of_an_empty_answer() {
    assert_eq!(
        format_results(&Vec::new()),
        vec!["INFO: number of results: 0".to_string(), "RESULT: ".to_string()]
    );
}

#[test]
fn format_results_counts_past_nine() {
    let names: Vec<String> = (0..12).map(|i| format!("d{}", i)).collect();
    let lines = format_results(&names);
    assert_eq!(lines[0], "INFO: number of results: 12");
    assert_eq!(lines[11], "   10. d9");
    assert_eq!(lines[13], "   12. d11");
}
