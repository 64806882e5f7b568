//! A term store held in memory: the registry, the tables of the documents
//! and the table of the corpus, written as the statements of the persistent
//! store write them.
//!
//! A lookup gives the same rows as the lookup statement of the persistent
//! store, but in the order of the registry, where that statement asks for the
//! most frequent first. A query keeps the order of the rows only among
//! documents of equal score, so the two stores can differ in the order of
//! such documents and in nothing else.

use crate::document::{merged, sum, Document, TermCount, TermCounts};
use crate::index::IndexReport;
use crate::entries::{find, upserted, upserted_all, value_of, views, Named};
use crate::normalize::{normalize, term_of};
use crate::query::{DocumentRow, TermRow};
use crate::store::{table_name, table_name_of};
use vstd::prelude::*;

verus! {

/// The table of one document: its name and its rows.
struct Table {
    name: String,
    rows: Vec<TermCount>,
}

impl View for Table {
    type V = (Seq<char>, Seq<(Seq<char>, u64)>);

    closed spec fn view(&self) -> (Seq<char>, Seq<(Seq<char>, u64)>) {
        (self.name@, views(self.rows@))
    }
}

impl Named<Seq<(Seq<char>, u64)>> for Table {
    fn name(&self) -> (name: &String) {
        &self.name
    }
}

/// What a store holds.
pub struct Stored {
    /// The registry: each document with its size.
    pub documents: Seq<(Seq<char>, u64)>,
    /// The table of each document: its terms with their frequencies.
    pub tables: Seq<(Seq<char>, Seq<(Seq<char>, u64)>)>,
    /// The terms of the corpus with their frequencies.
    pub terms: Seq<(Seq<char>, u64)>,
}

/// The rows of the table of that name; none if there is no such table.
pub open spec fn table_of(tables: Seq<(Seq<char>, Seq<(Seq<char>, u64)>)>, name: Seq<char>) -> Seq<
    (Seq<char>, u64),
> {
    match value_of(tables, name) {
        Some(rows) => rows,
        None => Seq::empty(),
    }
}

/// The store after a document was written under `name`: its row in the
/// registry holds the number of its terms, and each of its term counts is
/// written into the table of that name, which is created if it is missing.
/// Rows of other terms that the table held before stay.
pub open spec fn written(store: Stored, name: Seq<char>, df: Seq<(Seq<char>, u64)>) -> Stored {
    Stored {
        documents: upserted(store.documents, name, df.len() as u64),
        tables: upserted(store.tables, name, upserted_all(table_of(store.tables, name), df)),
        terms: store.terms,
    }
}

/// The store after the term counts of the corpus were written: the table of
/// the corpus holds these counts and no row of an earlier run; the registry
/// and the tables of the documents are as they were.
pub open spec fn rebuilt(store: Stored, totals: Seq<(Seq<char>, u64)>) -> Stored {
    Stored {
        documents: store.documents,
        tables: store.tables,
        terms: upserted_all(Seq::empty(), totals),
    }
}

/// The documents of a run as they are written: of each the name of its table
/// and its term counts.
pub open spec fn written_views(documents: Seq<Document>) -> Seq<
    (Seq<char>, Seq<(Seq<char>, u64)>),
> {
    documents.map_values(|d: Document| (table_name_of(d.path@), d.df@))
}

/// The store after each of the documents was written, in their order.
pub open spec fn indexed(store: Stored, documents: Seq<(Seq<char>, Seq<(Seq<char>, u64)>)>) -> Stored
    decreases documents.len(),
{
    if documents.len() == 0 {
        store
    } else {
        written(indexed(store, documents.drop_last()), documents.last().0, documents.last().1)
    }
}

/// The counts of the corpus with those of one more document: their sum,
/// term by term; the counts as they were where the sum of all counts would no
/// longer fit.
pub open spec fn absorbed(base: Seq<(Seq<char>, u64)>, extra: Seq<(Seq<char>, u64)>) -> Seq<
    (Seq<char>, u64),
> {
    if sum(base) + sum(extra) <= u64::MAX {
        merged(base, extra)
    } else {
        base
    }
}

/// The counts of the corpus of a run: those of its documents, added up in
/// their order.
pub open spec fn corpus(documents: Seq<(Seq<char>, Seq<(Seq<char>, u64)>)>) -> Seq<(Seq<char>, u64)>
    decreases documents.len(),
{
    if documents.len() == 0 {
        Seq::empty()
    } else {
        absorbed(corpus(documents.drop_last()), documents.last().1)
    }
}

/// The store after a run over the documents: each document is written, and
/// then the table of the corpus is rebuilt from the counts of the run.
pub open spec fn run(store: Stored, documents: Seq<(Seq<char>, Seq<(Seq<char>, u64)>)>) -> Stored {
    rebuilt(indexed(store, documents), corpus(documents))
}

/// The rows that a lookup of a term finds: for each document of the
/// registry whose table holds the term, the document and the frequency, in
/// the order of the registry.
pub open spec fn found_rows(
    documents: Seq<(Seq<char>, u64)>,
    tables: Seq<(Seq<char>, Seq<(Seq<char>, u64)>)>,
    term: Seq<char>,
) -> Seq<(Seq<char>, u64)>
    decreases documents.len(),
{
    if documents.len() == 0 {
        Seq::empty()
    } else {
        let prior = found_rows(documents.drop_last(), tables, term);
        match value_of(table_of(tables, documents.last().0), term) {
            Some(frequency) => prior.push((documents.last().0, frequency)),
            None => prior,
        }
    }
}

/// The rows that a lookup of a word finds: those of the term that its
/// letters spell, none for a word without letters.
pub open spec fn lookup_rows(store: Stored, word: Seq<char>) -> Seq<(Seq<char>, u64)> {
    match term_of(word) {
        Some(term) => found_rows(store.documents, store.tables, term),
        None => Seq::empty(),
    }
}

/// Writes each count over the rows: in the place of the row of the same
/// term, or at the end.
fn upsert_rows(rows: Vec<TermCount>, counts: &TermCounts) -> (out: Vec<TermCount>)
    ensures
        views(out@) == upserted_all(views(rows@), counts@),
{
    let ghost start = views(rows@);
    let mut out = rows;
    let mut k: usize = 0;
    proof {
        assert(counts@.take(0) =~= Seq::empty());
    }
    while k < counts.len()
        invariant
            k <= counts@.len(),
            views(out@) == upserted_all(start, counts@.take(k as int)),
        decreases counts@.len() - k,
    {
        let ghost before = views(out@);
        let entry = counts.at(k);
        proof {
            assert(counts@.take(k + 1).drop_last() =~= counts@.take(k as int));
            assert(counts@.take(k + 1).last() == entry@);
        }
        let row = TermCount { term: entry.term.clone(), count: entry.count };
        match find(&out, &entry.term) {
            Some(i) => {
                out[i] = row;
                proof {
                    assert(views(out@) =~= before.update(i as int, entry@));
                }
            },
            None => {
                out.push(row);
                proof {
                    assert(views(out@) =~= before.push(entry@));
                }
            },
        }
        k = k + 1;
    }
    proof {
        assert(counts@.take(counts@.len() as int) =~= counts@);
    }
    out
}

/// A term store in memory.
pub struct MemoryStore {
    documents: Vec<DocumentRow>,
    tables: Vec<Table>,
    terms: Vec<TermCount>,
}

impl View for MemoryStore {
    type V = Stored;

    closed spec fn view(&self) -> Stored {
        Stored {
            documents: views(self.documents@),
            tables: views(self.tables@),
            terms: views(self.terms@),
        }
    }
}

impl MemoryStore {
    /// The empty store.
    pub fn new() -> (store: MemoryStore)
        ensures
            store@.documents.len() == 0,
            store@.tables.len() == 0,
            store@.terms.len() == 0,
    {
        MemoryStore { documents: Vec::new(), tables: Vec::new(), terms: Vec::new() }
    }

    /// Writes a document: its row in the registry and its term counts in its
    /// table, each in the place of an earlier row of the same key.
    pub fn write(&mut self, document: &Document)
        ensures
            final(self)@ == written(old(self)@, table_name_of(document.path@), document.df@),
    {
        let ghost before = self@;
        let name = table_name(document.path.as_str());
        let row = DocumentRow { name: name.clone(), size: document.df.len() as u64 };
        match find(&self.documents, &name) {
            Some(i) => {
                self.documents[i] = row;
                proof {
                    assert(views(self.documents@) =~= before.documents.update(i as int, row@));
                }
            },
            None => {
                self.documents.push(row);
                proof {
                    assert(views(self.documents@) =~= before.documents.push(row@));
                }
            },
        }
        match find(&self.tables, &name) {
            Some(i) => {
                let table = self.tables.remove(i);
                let rows = upsert_rows(table.rows, &document.df);
                let ghost rows_view = views(rows@);
                self.tables.insert(i, Table { name, rows });
                proof {
                    assert(views(self.tables@) =~= before.tables.update(
                        i as int,
                        (name@, rows_view),
                    ));
                }
            },
            None => {
                let rows = upsert_rows(Vec::new(), &document.df);
                let ghost rows_view = views(rows@);
                proof {
                    assert(views(Seq::<TermCount>::empty()) =~= Seq::empty());
                }
                self.tables.push(Table { name, rows });
                proof {
                    assert(views(self.tables@) =~= before.tables.push((name@, rows_view)));
                }
            },
        }
        proof {
            assert(self@.terms == before.terms);
        }
    }

    /// Runs the index over the documents: writes each of them, adds their
    /// term counts up, and rebuilds the table of the corpus from the sums.
    /// In memory no write fails, so the report counts every document.
    pub fn index(&mut self, documents: &Vec<Document>) -> (report: IndexReport)
        requires
            forall|i: int| 0 <= i < documents@.len() ==> (#[trigger] documents@[i]).df.well_formed(),
        ensures
            final(self)@ == run(old(self)@, written_views(documents@)),
            report.succeeded == documents@.len(),
            report.failed@.len() == 0,
    {
        let ghost start = self@;
        let ghost all = written_views(documents@);
        let mut totals = TermCounts::new();
        let mut k: usize = 0;
        proof {
            assert(all.take(0) =~= Seq::empty());
        }
        while k < documents.len()
            invariant
                k <= documents@.len(),
                all == written_views(documents@),
                forall|i: int|
                    0 <= i < documents@.len() ==> (#[trigger] documents@[i]).df.well_formed(),
                totals.well_formed(),
                totals@ == corpus(all.take(k as int)),
                self@ == indexed(start, all.take(k as int)),
            decreases documents@.len() - k,
        {
            proof {
                assert(all.take(k + 1).drop_last() =~= all.take(k as int));
                assert(all.take(k + 1).last() == (
                    table_name_of(documents@[k as int].path@),
                    documents@[k as int].df@,
                ));
                assert(documents@[k as int].df.well_formed());
            }
            let _ = totals.absorb(&documents[k].df);
            self.write(&documents[k]);
            k = k + 1;
        }
        proof {
            assert(all.take(documents@.len() as int) =~= all);
        }
        self.write_terms(&totals);
        IndexReport { succeeded: documents.len(), failed: Vec::new() }
    }

    /// Writes the term counts of the corpus. The table of the corpus is
    /// rebuilt: the rows that an earlier run left in it are removed, and it
    /// holds the counts of this run alone.
    pub fn write_terms(&mut self, totals: &TermCounts)
        ensures
            final(self)@ == rebuilt(old(self)@, totals@),
            totals.well_formed() ==> final(self)@.terms == totals@,
    {
        proof {
            assert(views(Seq::<TermCount>::empty()) =~= Seq::empty());
            if totals.well_formed() {
                crate::laws::law_rebuilt_table(totals@);
            }
        }
        self.terms = upsert_rows(Vec::new(), totals);
    }

    /// The rows of the table of the corpus.
    pub fn terms(&self) -> (rows: Vec<TermCount>)
        ensures
            views(rows@) == self@.terms,
    {
        let mut rows: Vec<TermCount> = Vec::new();
        let mut k: usize = 0;
        while k < self.terms.len()
            invariant
                k <= self.terms@.len(),
                views(rows@) =~= self@.terms.take(k as int),
            decreases self.terms@.len() - k,
        {
            let ghost before = views(rows@);
            rows.push(TermCount { term: self.terms[k].term.clone(), count: self.terms[k].count });
            proof {
                assert(views(rows@) =~= before.push(self.terms@[k as int]@));
            }
            k = k + 1;
        }
        proof {
            assert(self@.terms.take(self.terms@.len() as int) =~= self@.terms);
        }
        rows
    }

    /// The rows of the registry.
    pub fn documents(&self) -> (rows: Vec<DocumentRow>)
        ensures
            views(rows@) == self@.documents,
    {
        let mut rows: Vec<DocumentRow> = Vec::new();
        let mut k: usize = 0;
        while k < self.documents.len()
            invariant
                k <= self.documents@.len(),
                views(rows@) =~= self@.documents.take(k as int),
            decreases self.documents@.len() - k,
        {
            let ghost before = views(rows@);
            rows.push(
                DocumentRow { name: self.documents[k].name.clone(), size: self.documents[k].size },
            );
            proof {
                assert(views(rows@) =~= before.push(self.documents@[k as int]@));
            }
            k = k + 1;
        }
        proof {
            assert(self@.documents.take(self.documents@.len() as int) =~= self@.documents);
        }
        rows
    }

    /// Looks a word up: returns, for each document of the registry whose
    /// table holds the term of the word, the document and the frequency, in
    /// the order of the registry.
    pub fn lookup(&self, word: &str) -> (rows: Vec<TermRow>)
        ensures
            views(rows@) == lookup_rows(self@, word@),
    {
        let mut rows: Vec<TermRow> = Vec::new();
        proof {
            assert(views(rows@) =~= Seq::empty());
        }
        let term = match normalize(word) {
            Some(term) => term,
            None => {
                return rows;
            },
        };
        let ghost all = self@.documents;
        let mut k: usize = 0;
        proof {
            assert(all.take(0) =~= Seq::empty());
        }
        while k < self.documents.len()
            invariant
                k <= self.documents@.len(),
                all == self@.documents,
                views(rows@) == found_rows(all.take(k as int), self@.tables, term@),
            decreases self.documents@.len() - k,
        {
            let ghost before = views(rows@);
            proof {
                assert(all.take(k + 1).drop_last() =~= all.take(k as int));
                assert(all.take(k + 1).last() == self.documents@[k as int]@);
            }
            match find(&self.tables, &self.documents[k].name) {
                Some(i) => {
                    match find(&self.tables[i].rows, &term) {
                        Some(j) => {
                            let frequency = self.tables[i].rows[j].count;
                            rows.push(
                                TermRow { name: self.documents[k].name.clone(), frequency },
                            );
                            proof {
                                assert(views(rows@) =~= before.push(
                                    (self.documents@[k as int].name@, frequency),
                                ));
                            }
                        },
                        None => {},
                    }
                },
                None => {
                    proof {
                        assert(table_of(self@.tables, self.documents@[k as int].name@)
                            =~= Seq::empty());
                    }
                },
            }
            k = k + 1;
        }
        proof {
            assert(all.take(self.documents@.len() as int) =~= all);
        }
        rows
    }
}

} // verus!
