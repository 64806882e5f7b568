use tfidf_search::document::{Document, TermCounts};
use tfidf_search::query::{DocumentRow, Registry};
use tfidf_search::store::{
    add_terms_to_sqlite, create_document_table, lookup_statement, select_registry, table_name,
    Statement,
};

fn plain(sql: &str) -> Statement {
    Statement { sql: sql.to_string(), params: Vec::new() }
}

#[test]
fn table_name_marks_slashes_and_dots() {
    assert_eq!(table_name("./content/a.txt"), "_DOT__IN_content_IN_a_DOT_txt");
    assert_eq!(table_name("plain"), "plain");
}

#[test]
fn table_names_can_collide() {
    assert_eq!(table_name("a/b"), table_name("a_IN_b"));
}

#[test]
fn create_document_table_gives_the_four_statements() {
    let document = Document::from_text("docs/a.txt".to_string(), "cat dog cat");
    let statements = create_document_table(&document);
    assert_eq!(
        statements,
        vec![
            plain(
                "CREATE TABLE IF NOT EXISTS documents (name TEXT PRIMARY KEY, size INTEGER NOT NULL)"
            ),
            Statement {
                sql: "INSERT OR REPLACE INTO documents (name, size) VALUES (?1, ?2)".to_string(),
                params: vec!["docs_IN_a_DOT_txt".to_string(), "2".to_string()],
            },
            plain(
                "CREATE TABLE IF NOT EXISTS docs_IN_a_DOT_txt (term TEXT PRIMARY KEY, frequency INTEGER NOT NULL)"
            ),
            plain(
                "INSERT OR REPLACE INTO docs_IN_a_DOT_txt (term, frequency) VALUES\n ('cat', 2),\n ('dog', 1)\n"
            ),
        ]
    );
}

#[test]
fn create_document_table_is_the_same_for_the_same_document() {
    let document = Document::from_text("a.txt".to_string(), "x y x");
    assert_eq!(create_document_table(&document), create_document_table(&document));
}

#[test]
fn create_document_table_of_an_empty_document_has_no_rows() {
    let document = Document::from_text("e".to_string(), "");
    let statements = create_document_table(&document);
    assert_eq!(statements[1].params, vec!["e".to_string(), "0".to_string()]);
    assert_eq!(
        statements[3],
        plain("INSERT OR REPLACE INTO e (term, frequency) VALUES\n")
    );
}

#[test]
fn add_terms_to_sqlite_writes_the_corpus_counts() {
    let mut totals = TermCounts::new();
    assert!(totals.absorb(&Document::from_text("a".to_string(), "cat dog cat").df));
    assert!(totals.absorb(&Document::from_text("b".to_string(), "dog bird").df));
    assert_eq!(
        add_terms_to_sqlite(&totals),
        vec![
            plain(
                "CREATE TABLE IF NOT EXISTS terms (term TEXT PRIMARY KEY, frequency INTEGER NOT NULL)"
            ),
            plain("DELETE FROM terms"),
            plain(
                "INSERT OR REPLACE INTO terms (term, frequency) VALUES\n ('cat', 2),\n ('dog', 2),\n ('bird', 1)\n"
            ),
        ]
    );
}

#[test]
fn terms_in_statements_hold_letters_only() {
    let document = Document::from_text("a".to_string(), "o'neil \"quoted\" x');--");
    let statements = create_document_table(&document);
    assert_eq!(
        statements[3].sql,
        "INSERT OR REPLACE INTO a (term, frequency) VALUES\n ('oneil', 1),\n ('quoted', 1),\n ('x', 1)\n"
    );
}

#[test]
fn select_registry_reads_names_and_sizes() {
    assert_eq!(select_registry(), "SELECT name, size FROM documents");
}

#[test]
fn lookup_statement_asks_every_table() {
    let registry = Registry::from_rows(&vec![
        DocumentRow { name: "A".to_string(), size: 2 },
        DocumentRow { name: "B".to_string(), size: 2 },
    ]);
    assert_eq!(
        lookup_statement(&registry, "cat"),
        Some(
            "SELECT frequency, 'A' AS A FROM A WHERE term = 'cat'\nUNION ALL\nSELECT frequency, 'B' AS B FROM B WHERE term = 'cat'\n\nORDER BY frequency DESC"
                .to_string()
        )
    );
}

#[test]
fn lookup_statement_of_one_document_has_no_union() {
    let registry = Registry::from_rows(&vec![DocumentRow { name: "A".to_string(), size: 1 }]);
    assert_eq!(
        lookup_statement(&registry, "dog"),
        Some("SELECT frequency, 'A' AS A FROM A WHERE term = 'dog'\n\nORDER BY frequency DESC".to_string())
    );
}

#[test]
fn lookup_statement_strips_the_word_as_indexing_does() {
    let registry = Registry::from_rows(&vec![DocumentRow { name: "A".to_string(), size: 1 }]);
    assert_eq!(lookup_statement(&registry, "it's"), lookup_statement(&registry, "its"));
    assert_eq!(
        lookup_statement(&registry, "x' OR '1'='1"),
        lookup_statement(&registry, "xOR")
    );
}

#[test]
fn lookup_statement_is_none_without_a_term_or_a_document() {
    let registry = Registry::from_rows(&vec![DocumentRow { name: "A".to_string(), size: 1 }]);
    assert_eq!(lookup_statement(&registry, ""), None);
    assert_eq!(lookup_statement(&registry, "123"), None);
    let empty = Registry::from_rows(&Vec::new());
    assert_eq!(lookup_statement(&empty, "cat"), None);
}

#[test]
fn table_name_holds_no_separator() {
    for path in ["./content/a.txt", "/a/b/../c.d.e", "...", "///", "a", ""] {
        let name = table_name(path);
        assert!(!name.contains('/'));
        assert!(!name.contains('.'));
    }
}

#[test]
fn add_terms_to_sqlite_empties_the_table_before_it_writes() {
    let mut totals = TermCounts::new();
    assert!(totals.absorb(&Document::from_text("a".to_string(), "cat cat").df));
    let statements = add_terms_to_sqlite(&totals);
    assert_eq!(statements.len(), 3);
    assert_eq!(statements[1], plain("DELETE FROM terms"));
    assert_eq!(
        statements[2],
        plain("INSERT OR REPLACE INTO terms (term, frequency) VALUES\n ('cat', 2)\n")
    );
}
