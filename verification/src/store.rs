//! The statements that persist an index in a relational store, and the one
//! that looks a term up in it.
//!
//! The store holds a registry `documents(name, size)`, one table
//! `(term, frequency)` for each document, and a table `terms(term,
//! frequency)` for the whole corpus. A write of a document replaces the rows
//! of the same key; the table of the corpus is emptied and written anew on
//! every run.

use crate::document::{Document, TermCounts};
use crate::normalize::{normalize, term_of};
use crate::query::Registry;
use crate::text::{decimal, replace_all, replaced, string_views, to_decimal};
use vstd::prelude::*;

verus! {

/// A statement and the values of its parameters.
#[derive(Clone, Debug, PartialEq, Eq)]
pub struct Statement {
    pub sql: String,
    pub params: Vec<String>,
}

impl View for Statement {
    type V = (Seq<char>, Seq<Seq<char>>);

    open spec fn view(&self) -> (Seq<char>, Seq<Seq<char>>) {
        (self.sql@, string_views(self.params@))
    }
}

/// The views of the statements.
pub open spec fn statement_views(statements: Seq<Statement>) -> Seq<(Seq<char>, Seq<Seq<char>>)> {
    statements.map_values(|s: Statement| s@)
}

/// The name of the table of a document: its path with `_IN_` for each `/`
/// and `_DOT_` for each `.`. Two paths may give one name.
pub open spec fn table_name_of(path: Seq<char>) -> Seq<char> {
    replaced(replaced(path, "/"@, "_IN_"@), "."@, "_DOT_"@)
}

/// The statement that creates the registry.
pub open spec fn create_registry_sql() -> Seq<char> {
    "CREATE TABLE IF NOT EXISTS documents (name TEXT PRIMARY KEY, size INTEGER NOT NULL)"@
}

/// The statement that writes a row of the registry.
pub open spec fn upsert_registry_sql() -> Seq<char> {
    "INSERT OR REPLACE INTO documents (name, size) VALUES (?1, ?2)"@
}

/// The statement that reads the registry.
pub open spec fn select_registry_sql() -> Seq<char> {
    "SELECT name, size FROM documents"@
}

/// The statement that creates a table of term counts.
pub open spec fn create_table_sql(table: Seq<char>) -> Seq<char> {
    "CREATE TABLE IF NOT EXISTS "@ + table
        + " (term TEXT PRIMARY KEY, frequency INTEGER NOT NULL)"@
}

/// One row of values: a term and its count.
pub open spec fn value_row(entry: (Seq<char>, u64)) -> Seq<char> {
    " ('"@ + entry.0 + "', "@ + decimal(entry.1 as nat) + ")"@
}

/// The rows of values of a table, each on a line of its own, with a comma
/// between two rows.
pub open spec fn value_list(entries: Seq<(Seq<char>, u64)>) -> Seq<char>
    decreases entries.len(),
{
    if entries.len() == 0 {
        Seq::empty()
    } else if entries.len() == 1 {
        "\n"@ + value_row(entries.last())
    } else {
        value_list(entries.drop_last()) + ",\n"@ + value_row(entries.last())
    }
}

/// The statement that writes the rows of a table of term counts.
pub open spec fn insert_sql(table: Seq<char>, entries: Seq<(Seq<char>, u64)>) -> Seq<char> {
    "INSERT OR REPLACE INTO "@ + table + " (term, frequency) VALUES"@ + value_list(entries) + "\n"@
}

/// The statements that persist a document, in the order in which they are
/// to be executed: create the registry, write the document's row into it,
/// create the document's table, write the term counts into it.
pub open spec fn document_statements(path: Seq<char>, df: Seq<(Seq<char>, u64)>) -> Seq<
    (Seq<char>, Seq<Seq<char>>),
> {
    let table = table_name_of(path);
    seq![
        (create_registry_sql(), Seq::empty()),
        (upsert_registry_sql(), seq![table, decimal(df.len())]),
        (create_table_sql(table), Seq::empty()),
        (insert_sql(table, df), Seq::empty()),
    ]
}

/// The statement that removes every row of a table.
pub open spec fn delete_rows_sql(table: Seq<char>) -> Seq<char> {
    "DELETE FROM "@ + table
}

/// The statements that persist the term counts of the corpus, in the order
/// in which they are to be executed: create the table `terms` where it is
/// missing, remove the rows that an earlier run left in it, write the counts
/// into it. After them the table holds the counts of this run and nothing
/// else.
pub open spec fn terms_statements(totals: Seq<(Seq<char>, u64)>) -> Seq<
    (Seq<char>, Seq<Seq<char>>),
> {
    seq![
        (create_table_sql("terms"@), Seq::empty()),
        (delete_rows_sql("terms"@), Seq::empty()),
        (insert_sql("terms"@, totals), Seq::empty()),
    ]
}

/// The part of a lookup that reads the table of one document: the frequency
/// of the term there, and beside it the name of the table.
pub open spec fn select_sql(table: Seq<char>, term: Seq<char>) -> Seq<char> {
    "SELECT frequency, '"@ + table + "' AS "@ + table + " FROM "@ + table + " WHERE term = '"@
        + term + "'\n"@
}

/// The parts of a lookup for all documents of the registry, joined by
/// `UNION ALL`.
pub open spec fn union_sql(registry: Seq<(Seq<char>, u64)>, term: Seq<char>) -> Seq<char>
    decreases registry.len(),
{
    if registry.len() == 0 {
        Seq::empty()
    } else if registry.len() == 1 {
        select_sql(registry.last().0, term)
    } else {
        union_sql(registry.drop_last(), term) + "UNION ALL\n"@ + select_sql(registry.last().0, term)
    }
}

/// The statement that looks a word up in the tables of all documents of the
/// registry. There is none where the word gives no term, or the registry
/// lists no document.
pub open spec fn lookup_sql(registry: Seq<(Seq<char>, u64)>, word: Seq<char>) -> Option<Seq<char>> {
    match term_of(word) {
        Some(term) => if registry.len() > 0 {
            Some(union_sql(registry, term) + "\nORDER BY frequency DESC"@)
        } else {
            None
        },
        None => None,
    }
}

/// The name of the table of a document.
pub fn table_name(path: &str) -> (name: String)
    ensures
        name@ == table_name_of(path@),
{
    let slashes = replace_all(path, "/", "_IN_");
    replace_all(slashes.as_str(), ".", "_DOT_")
}

/// The statement that creates a table of term counts.
fn create_table(table: &str) -> (statement: Statement)
    ensures
        statement@ == (create_table_sql(table@), Seq::<Seq<char>>::empty()),
{
    let mut sql = String::new();
    sql.append("CREATE TABLE IF NOT EXISTS ");
    sql.append(table);
    sql.append(" (term TEXT PRIMARY KEY, frequency INTEGER NOT NULL)");
    let statement = Statement { sql, params: Vec::new() };
    proof {
        assert(statement.sql@ =~= create_table_sql(table@));
        assert(string_views(statement.params@) =~= Seq::<Seq<char>>::empty());
    }
    statement
}

/// The statement that writes the rows of a table of term counts.
fn insert_rows(table: &str, counts: &TermCounts) -> (statement: Statement)
    ensures
        statement@ == (insert_sql(table@, counts@), Seq::<Seq<char>>::empty()),
{
    let mut sql = String::new();
    sql.append("INSERT OR REPLACE INTO ");
    sql.append(table);
    sql.append(" (term, frequency) VALUES");
    let ghost head = sql@;
    let mut k: usize = 0;
    proof {
        assert(counts@.take(0) =~= Seq::empty());
        assert(sql@ =~= head + value_list(counts@.take(0)));
    }
    while k < counts.len()
        invariant
            k <= counts@.len(),
            head == "INSERT OR REPLACE INTO "@ + table@ + " (term, frequency) VALUES"@,
            sql@ == head + value_list(counts@.take(k as int)),
        decreases counts@.len() - k,
    {
        let ghost before = sql@;
        let ghost list = value_list(counts@.take(k as int));
        let entry = counts.at(k);
        proof {
            assert(counts@.take(k + 1).drop_last() =~= counts@.take(k as int));
            assert(counts@.take(k + 1).last() == entry@);
        }
        if k == 0 {
            sql.append("\n");
        } else {
            sql.append(",\n");
        }
        sql.append(" ('");
        sql.append(entry.term.as_str());
        sql.append("', ");
        let count = to_decimal(entry.count);
        sql.append(count.as_str());
        sql.append(")");
        proof {
            let sep = if k == 0 {
                "\n"@
            } else {
                ",\n"@
            };
            assert(sql@ =~= before + sep + value_row(entry@));
            if k == 0 {
                assert(list =~= Seq::<char>::empty());
                assert(sql@ =~= head + ("\n"@ + value_row(entry@)));
            } else {
                assert(sql@ =~= head + (list + ",\n"@ + value_row(entry@)));
            }
        }
        k = k + 1;
    }
    proof {
        assert(counts@.take(counts@.len() as int) =~= counts@);
    }
    sql.append("\n");
    let statement = Statement { sql, params: Vec::new() };
    proof {
        assert(statement.sql@ =~= insert_sql(table@, counts@));
        assert(string_views(statement.params@) =~= Seq::<Seq<char>>::empty());
    }
    statement
}

/// The statements that persist a document: they create the registry and the
/// document's table where they are missing, and write the document's row and
/// its term counts, each in the place of an earlier row of the same key.
pub fn create_document_table(document: &Document) -> (statements: Vec<Statement>)
    ensures
        statement_views(statements@) == document_statements(document.path@, document.df@),
{
    let table = table_name(document.path.as_str());
    let size = to_decimal(document.df.len() as u64);
    let mut statements: Vec<Statement> = Vec::new();
    let mut create = String::new();
    create.append(
        "CREATE TABLE IF NOT EXISTS documents (name TEXT PRIMARY KEY, size INTEGER NOT NULL)",
    );
    let first = Statement { sql: create, params: Vec::new() };
    let mut upsert = String::new();
    upsert.append("INSERT OR REPLACE INTO documents (name, size) VALUES (?1, ?2)");
    let mut params: Vec<String> = Vec::new();
    params.push(table.clone());
    params.push(size);
    let second = Statement { sql: upsert, params };
    let third = create_table(table.as_str());
    let fourth = insert_rows(table.as_str(), &document.df);
    proof {
        assert(first.sql@ =~= create_registry_sql());
        assert(string_views(first.params@) =~= Seq::<Seq<char>>::empty());
        assert(second.sql@ =~= upsert_registry_sql());
        assert(string_views(second.params@) =~= seq![
            table_name_of(document.path@),
            decimal(document.df@.len()),
        ]);
    }
    statements.push(first);
    statements.push(second);
    statements.push(third);
    statements.push(fourth);
    proof {
        assert(statement_views(statements@) =~= document_statements(
            document.path@,
            document.df@,
        ));
    }
    statements
}

/// The statement that removes every row of a table.
fn delete_rows(table: &str) -> (statement: Statement)
    ensures
        statement@ == (delete_rows_sql(table@), Seq::<Seq<char>>::empty()),
{
    let mut sql = String::new();
    sql.append("DELETE FROM ");
    sql.append(table);
    let statement = Statement { sql, params: Vec::new() };
    proof {
        assert(statement.sql@ =~= delete_rows_sql(table@));
        assert(string_views(statement.params@) =~= Seq::<Seq<char>>::empty());
    }
    statement
}

/// The statements that persist the term counts of the corpus: the table
/// `terms` is rebuilt, so that it holds the counts of this run alone.
pub fn add_terms_to_sqlite(totals: &TermCounts) -> (statements: Vec<Statement>)
    ensures
        statement_views(statements@) == terms_statements(totals@),
{
    let mut statements: Vec<Statement> = Vec::new();
    let first = create_table("terms");
    let second = delete_rows("terms");
    let third = insert_rows("terms", totals);
    statements.push(first);
    statements.push(second);
    statements.push(third);
    proof {
        assert(statement_views(statements@) =~= terms_statements(totals@));
    }
    statements
}

/// The statement that reads the registry.
pub fn select_registry() -> (sql: String)
    ensures
        sql@ == select_registry_sql(),
{
    let mut sql = String::new();
    sql.append("SELECT name, size FROM documents");
    proof {
        assert(sql@ =~= select_registry_sql());
    }
    sql
}

/// The statement that looks a word up in the tables of all documents of the
/// registry, most frequent first. The word is reduced to its letters as it
/// is when a document is indexed. Returns `None` where the word has no
/// letters or the registry lists no document: then no document holds it.
pub fn lookup_statement(registry: &Registry, word: &str) -> (sql: Option<String>)
    ensures
        match sql {
            Some(text) => lookup_sql(registry@, word@) == Some(text@),
            None => lookup_sql(registry@, word@) is None,
        },
{
    let term = match normalize(word) {
        Some(term) => term,
        None => {
            return None;
        },
    };
    if registry.len() == 0 {
        return None;
    }
    let mut sql = String::new();
    let mut k: usize = 0;
    proof {
        assert(registry@.take(0) =~= Seq::empty());
        assert(sql@ =~= union_sql(registry@.take(0), term@));
    }
    while k < registry.len()
        invariant
            k <= registry@.len(),
            sql@ == union_sql(registry@.take(k as int), term@),
        decreases registry@.len() - k,
    {
        let ghost before = sql@;
        let name = registry.name(k);
        proof {
            assert(registry@.take(k + 1).drop_last() =~= registry@.take(k as int));
            assert(registry@.take(k + 1).last().0 == name@);
        }
        if k > 0 {
            sql.append("UNION ALL\n");
        }
        sql.append("SELECT frequency, '");
        sql.append(name.as_str());
        sql.append("' AS ");
        sql.append(name.as_str());
        sql.append(" FROM ");
        sql.append(name.as_str());
        sql.append(" WHERE term = '");
        sql.append(term.as_str());
        sql.append("'\n");
        proof {
            if k == 0 {
                assert(before =~= Seq::<char>::empty());
                assert(sql@ =~= select_sql(name@, term@));
            } else {
                assert(sql@ =~= before + "UNION ALL\n"@ + select_sql(name@, term@));
            }
        }
        k = k + 1;
    }
    proof {
        assert(registry@.take(registry@.len() as int) =~= registry@);
    }
    sql.append("\nORDER BY frequency DESC");
    Some(sql)
}

} // verus!
