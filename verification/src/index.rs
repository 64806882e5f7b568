//! The state of an indexing run: the counts of the whole corpus and what
//! became of each document.

use crate::document::{merged, Document, TermCounts};
use crate::entries::views;
use crate::text::string_views;
use vstd::prelude::*;

verus! {

/// What became of one document: whether its table was persisted.
#[derive(Clone, Debug, PartialEq, Eq)]
pub struct Outcome {
    pub path: String,
    pub persisted: bool,
}

impl View for Outcome {
    type V = (Seq<char>, bool);

    open spec fn view(&self) -> (Seq<char>, bool) {
        (self.path@, self.persisted)
    }
}

/// The report of a run: how many documents were persisted, and the paths of
/// those that were not.
#[derive(Clone, Debug, PartialEq, Eq)]
pub struct IndexReport {
    pub succeeded: usize,
    pub failed: Vec<String>,
}

/// The number of documents that were persisted.
pub open spec fn persisted_count(outcomes: Seq<(Seq<char>, bool)>) -> nat
    decreases outcomes.len(),
{
    if outcomes.len() == 0 {
        0
    } else if outcomes.last().1 {
        persisted_count(outcomes.drop_last()) + 1
    } else {
        persisted_count(outcomes.drop_last())
    }
}

/// The paths of the documents that were not persisted, in the order in which
/// they were recorded.
pub open spec fn failed_paths(outcomes: Seq<(Seq<char>, bool)>) -> Seq<Seq<char>>
    decreases outcomes.len(),
{
    if outcomes.len() == 0 {
        Seq::empty()
    } else if outcomes.last().1 {
        failed_paths(outcomes.drop_last())
    } else {
        failed_paths(outcomes.drop_last()).push(outcomes.last().0)
    }
}

/// Every document was either persisted or is listed as failed.
pub proof fn lemma_report_is_complete(outcomes: Seq<(Seq<char>, bool)>)
    ensures
        persisted_count(outcomes) + failed_paths(outcomes).len() == outcomes.len(),
    decreases outcomes.len(),
{
    if outcomes.len() > 0 {
        lemma_report_is_complete(outcomes.drop_last());
    }
}

/// An indexing run: the term counts of all documents taken in so far, and
/// the outcome of each document recorded so far.
pub struct Indexer {
    totals: TermCounts,
    outcomes: Vec<Outcome>,
}

impl Indexer {
    /// The term counts of the corpus.
    pub closed spec fn totals_view(&self) -> Seq<(Seq<char>, u64)> {
        self.totals@
    }

    /// The number of occurrences counted in the corpus.
    pub closed spec fn occurrences(&self) -> nat {
        self.totals.occurrences()
    }

    /// The outcomes recorded.
    pub closed spec fn outcomes_view(&self) -> Seq<(Seq<char>, bool)> {
        views(self.outcomes@)
    }

    /// The counts of the corpus are a valid table.
    pub closed spec fn well_formed(&self) -> bool {
        self.totals.well_formed()
    }

    /// A run that has seen no document.
    pub fn new() -> (r: Indexer)
        ensures
            r.well_formed(),
            r.totals_view() == Seq::<(Seq<char>, u64)>::empty(),
            r.outcomes_view() == Seq::<(Seq<char>, bool)>::empty(),
            r.occurrences() == 0,
    {
        let r = Indexer { totals: TermCounts::new(), outcomes: Vec::new() };
        proof {
            assert(r.outcomes_view() =~= Seq::<(Seq<char>, bool)>::empty());
        }
        r
    }

    /// Adds the term counts of a document to those of the corpus. Returns
    /// `false`, and leaves the counts as they are, where their sum would no
    /// longer fit.
    pub fn merge(&mut self, document: &Document) -> (done: bool)
        requires
            old(self).well_formed(),
            document.df.well_formed(),
        ensures
            final(self).well_formed(),
            final(self).outcomes_view() == old(self).outcomes_view(),
            done == (old(self).occurrences() + document.df.occurrences() <= u64::MAX),
            done ==> final(self).totals_view() == merged(old(self).totals_view(), document.df@)
                && final(self).occurrences() == old(self).occurrences()
                + document.df.occurrences(),
            !done ==> final(self).totals_view() == old(self).totals_view() && final(self).occurrences() == old(self).occurrences(),
    {
        self.totals.absorb(&document.df)
    }

    /// Records whether the table of a document was persisted.
    pub fn record(&mut self, path: &str, persisted: bool)
        requires
            old(self).well_formed(),
        ensures
            final(self).well_formed(),
            final(self).totals_view() == old(self).totals_view(),
            final(self).occurrences() == old(self).occurrences(),
            final(self).outcomes_view() == old(self).outcomes_view().push((path@, persisted)),
    {
        let ghost before = self.outcomes_view();
        self.outcomes.push(Outcome { path: path.to_owned(), persisted });
        proof {
            assert(self.outcomes_view() =~= before.push((path@, persisted)));
        }
    }

    /// The term counts of the corpus.
    pub fn totals(&self) -> (r: &TermCounts)
        ensures
            r@ == self.totals_view(),
            r.occurrences() == self.occurrences(),
            self.well_formed() ==> r.well_formed(),
    {
        &self.totals
    }

    /// The report of the run so far.
    pub fn report(&self) -> (r: IndexReport)
        ensures
            r.succeeded == persisted_count(self.outcomes_view()),
            string_views(r.failed@) == failed_paths(self.outcomes_view()),
            r.succeeded + r.failed@.len() == self.outcomes_view().len(),
    {
        let ghost all = self.outcomes_view();
        proof {
            lemma_report_is_complete(all);
        }
        let mut succeeded: usize = 0;
        let mut failed: Vec<String> = Vec::new();
        let mut k: usize = 0;
        proof {
            assert(all.take(0) =~= Seq::empty());
            assert(string_views(failed@) =~= Seq::empty());
        }
        while k < self.outcomes.len()
            invariant
                k <= self.outcomes@.len(),
                all == views(self.outcomes@),
                succeeded == persisted_count(all.take(k as int)),
                succeeded <= k,
                string_views(failed@) == failed_paths(all.take(k as int)),
            decreases self.outcomes@.len() - k,
        {
            proof {
                assert(all.take(k + 1).drop_last() =~= all.take(k as int));
                assert(all.take(k + 1).last() == self.outcomes@[k as int]@);
            }
            if self.outcomes[k].persisted {
                succeeded = succeeded + 1;
            } else {
                let ghost before = string_views(failed@);
                failed.push(self.outcomes[k].path.clone());
                proof {
                    assert(string_views(failed@) =~= before.push(self.outcomes@[k as int].path@));
                }
            }
            k = k + 1;
        }
        proof {
            assert(all.take(self.outcomes@.len() as int) =~= all);
        }
        IndexReport { succeeded, failed }
    }
}

} // verus!
