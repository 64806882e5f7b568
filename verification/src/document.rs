//! Documents: a path and the table of its term counts.

use crate::entries::{
    distinct_names, find, lemma_position_of, position_of, value_of, views, Named,
};
use crate::normalize::{is_term, normalize, term_of};
use crate::text::{split_whitespace, string_views, words};
use vstd::prelude::*;

verus! {

/// A term and the number of its occurrences.
#[derive(Clone, Debug, PartialEq, Eq)]
pub struct TermCount {
    pub term: String,
    pub count: u64,
}

impl View for TermCount {
    type V = (Seq<char>, u64);

    open spec fn view(&self) -> (Seq<char>, u64) {
        (self.term@, self.count)
    }
}

impl Named<u64> for TermCount {
    fn name(&self) -> (name: &String) {
        &self.term
    }
}

/// The sum of the counts.
pub open spec fn sum(entries: Seq<(Seq<char>, u64)>) -> nat
    decreases entries.len(),
{
    if entries.len() == 0 {
        0
    } else {
        sum(entries.drop_last()) + entries.last().1 as nat
    }
}

/// The table with `amount` more occurrences of `term`: added to its entry
/// if it has one, else under a new entry at the end.
pub open spec fn added(entries: Seq<(Seq<char>, u64)>, term: Seq<char>, amount: u64) -> Seq<
    (Seq<char>, u64),
> {
    match position_of(entries, term) {
        Some(i) => entries.update(i, (term, (entries[i].1 + amount) as u64)),
        None => entries.push((term, amount)),
    }
}

/// What a table of term counts must be: no term twice, every entry a term,
/// no count of zero.
pub open spec fn valid_counts(entries: Seq<(Seq<char>, u64)>) -> bool {
    &&& distinct_names(entries)
    &&& forall|i: int|
        0 <= i < entries.len() ==> is_term((#[trigger] entries[i]).0) && entries[i].1 >= 1
}

/// Replacing a count changes the sum by the difference.
pub proof fn lemma_sum_update(entries: Seq<(Seq<char>, u64)>, i: int, entry: (Seq<char>, u64))
    requires
        0 <= i < entries.len(),
    ensures
        sum(entries.update(i, entry)) + entries[i].1 == sum(entries) + entry.1,
        entries[i].1 <= sum(entries),
    decreases entries.len(),
{
    if i == entries.len() - 1 {
        assert(entries.update(i, entry).drop_last() =~= entries.drop_last());
    } else {
        lemma_sum_update(entries.drop_last(), i, entry);
        assert(entries.update(i, entry).drop_last() =~= entries.drop_last().update(i, entry));
    }
}

/// The sum of the first counts: one more entry adds its count, and the sum
/// never exceeds that of the whole table.
pub proof fn lemma_sum_take(entries: Seq<(Seq<char>, u64)>, k: int)
    requires
        0 <= k < entries.len(),
    ensures
        sum(entries.take(k + 1)) == sum(entries.take(k)) + entries[k].1,
        sum(entries.take(k + 1)) <= sum(entries),
    decreases entries.len() - k,
{
    assert(entries.take(k + 1).drop_last() =~= entries.take(k));
    if k + 1 < entries.len() {
        lemma_sum_take(entries, k + 1);
    } else {
        assert(entries.take(k + 1) =~= entries);
    }
}

/// The table `base` with the counts of `extra` added to it, entry by entry.
pub open spec fn merged(base: Seq<(Seq<char>, u64)>, extra: Seq<(Seq<char>, u64)>) -> Seq<
    (Seq<char>, u64),
>
    decreases extra.len(),
{
    if extra.len() == 0 {
        base
    } else {
        added(merged(base, extra.drop_last()), extra.last().0, extra.last().1)
    }
}

/// A table of term counts: for each term its number of occurrences.
#[derive(Clone, Debug)]
pub struct TermCounts {
    entries: Vec<TermCount>,
    total: u64,
}

impl View for TermCounts {
    type V = Seq<(Seq<char>, u64)>;

    closed spec fn view(&self) -> Seq<(Seq<char>, u64)> {
        views(self.entries@)
    }
}

impl TermCounts {
    /// The number of occurrences that were counted, of all terms together.
    pub closed spec fn occurrences(&self) -> nat {
        self.total as nat
    }

    /// The table is valid and knows the sum of its counts.
    pub open spec fn well_formed(&self) -> bool {
        &&& valid_counts(self@)
        &&& self.occurrences() == sum(self@)
    }

    /// The empty table.
    pub fn new() -> (r: TermCounts)
        ensures
            r.well_formed(),
            r@ == Seq::<(Seq<char>, u64)>::empty(),
            r.occurrences() == 0,
    {
        let r = TermCounts { entries: Vec::new(), total: 0 };
        proof {
            assert(r@ =~= Seq::<(Seq<char>, u64)>::empty());
        }
        r
    }

    /// The number of distinct terms.
    pub fn len(&self) -> (n: usize)
        ensures
            n == self@.len(),
    {
        self.entries.len()
    }

    /// The sum of all counts.
    pub fn total(&self) -> (n: u64)
        ensures
            n == self.occurrences(),
    {
        self.total
    }

    /// The entry at a place of the table.
    pub(crate) fn at(&self, i: usize) -> (r: &TermCount)
        requires
            i < self@.len(),
        ensures
            r@ == self@[i as int],
    {
        &self.entries[i]
    }

    /// The entry at a place of the table, if the table has that many.
    pub fn entry(&self, i: usize) -> (r: Option<&TermCount>)
        ensures
            match r {
                Some(entry) => i < self@.len() && entry@ == self@[i as int],
                None => i >= self@.len(),
            },
    {
        if i < self.entries.len() {
            Some(&self.entries[i])
        } else {
            None
        }
    }

    /// The count of a term, if the table holds it.
    pub fn get(&self, term: &String) -> (r: Option<u64>)
        ensures
            r == value_of(self@, term@),
    {
        match find(&self.entries, term) {
            Some(i) => Some(self.entries[i].count),
            None => None,
        }
    }

    /// Counts `amount` more occurrences of a term. Returns `false`, and
    /// leaves the table as it is, where the sum of all counts would no longer
    /// fit.
    fn add(&mut self, term: &String, amount: u64) -> (done: bool)
        requires
            old(self).well_formed(),
            is_term(term@),
            amount >= 1,
        ensures
            final(self).well_formed(),
            done == (old(self).occurrences() + amount <= u64::MAX),
            done ==> final(self)@ == added(old(self)@, term@, amount) && final(self).occurrences()
                == old(self).occurrences() + amount,
            !done ==> final(self)@ == old(self)@ && final(self).occurrences() == old(self).occurrences(),
    {
        if amount > u64::MAX - self.total {
            return false;
        }
        let ghost before = self@;
        proof {
            lemma_position_of(before, term@);
        }
        match find(&self.entries, term) {
            Some(i) => {
                proof {
                    lemma_sum_update(before, i as int, (term@, (before[i as int].1 + amount) as u64));
                }
                let count: u64 = self.entries[i].count + amount;
                self.entries[i] = TermCount { term: term.clone(), count };
                proof {
                    assert(self@ =~= before.update(i as int, (term@, count)));
                    assert forall|a: int, b: int| 0 <= a < b < self@.len() implies (
                    #[trigger] self@[a]).0 != (#[trigger] self@[b]).0 by {
                        assert(before[a].0 != before[b].0);
                    }
                    assert forall|a: int| 0 <= a < self@.len() implies is_term(
                        (#[trigger] self@[a]).0,
                    ) && self@[a].1 >= 1 by {
                        assert(is_term(before[a].0) && before[a].1 >= 1);
                    }
                }
            },
            None => {
                self.entries.push(TermCount { term: term.clone(), count: amount });
                proof {
                    assert(self@ =~= before.push((term@, amount)));
                    assert(self@.drop_last() =~= before);
                    assert forall|a: int, b: int| 0 <= a < b < self@.len() implies (
                    #[trigger] self@[a]).0 != (#[trigger] self@[b]).0 by {
                        if b < before.len() {
                            assert(before[a].0 != before[b].0);
                        } else {
                            assert(before[a].0 != term@);
                        }
                    }
                    assert forall|a: int| 0 <= a < self@.len() implies is_term(
                        (#[trigger] self@[a]).0,
                    ) && self@[a].1 >= 1 by {
                        if a < before.len() {
                            assert(is_term(before[a].0) && before[a].1 >= 1);
                        }
                    }
                }
            },
        }
        self.total = self.total + amount;
        true
    }
}

impl TermCounts {
    /// Adds the counts of another table to this one. Returns `false`, and
    /// leaves the table as it is, where the sum of all counts would no longer
    /// fit.
    pub fn absorb(&mut self, other: &TermCounts) -> (done: bool)
        requires
            old(self).well_formed(),
            other.well_formed(),
        ensures
            final(self).well_formed(),
            done == (old(self).occurrences() + other.occurrences() <= u64::MAX),
            done ==> final(self)@ == merged(old(self)@, other@) && final(self).occurrences() == old(self).occurrences() + other.occurrences(),
            !done ==> final(self)@ == old(self)@ && final(self).occurrences() == old(self).occurrences(),
    {
        if other.total > u64::MAX - self.total {
            return false;
        }
        let ghost start = self@;
        let ghost start_total = self.occurrences();
        let mut k: usize = 0;
        proof {
            assert(other@.take(0) =~= Seq::empty());
        }
        while k < other.entries.len()
            invariant
                k <= other.entries@.len(),
                self.well_formed(),
                other.well_formed(),
                start_total + other.occurrences() <= u64::MAX,
                self@ == merged(start, other@.take(k as int)),
                self.occurrences() == start_total + sum(other@.take(k as int)),
            decreases other.entries@.len() - k,
        {
            proof {
                lemma_sum_take(other@, k as int);
                assert(other@.take(k + 1).drop_last() =~= other@.take(k as int));
                assert(other@.take(k + 1).last() == other@[k as int]);
                assert(other@[k as int] == other.entries@[k as int]@);
                assert(is_term(other@[k as int].0) && other@[k as int].1 >= 1);
            }
            let done = self.add(&other.entries[k].term, other.entries[k].count);
            assert(done);
            k = k + 1;
        }
        proof {
            assert(other@.take(other.entries@.len() as int) =~= other@);
        }
        true
    }
}

/// The terms of a list of normalized words: of each word its letters, words
/// without letters left out.
pub open spec fn terms_of(words: Seq<Seq<char>>) -> Seq<Seq<char>>
    decreases words.len(),
{
    if words.len() == 0 {
        Seq::empty()
    } else {
        match term_of(words.last()) {
            Some(term) => terms_of(words.drop_last()).push(term),
            None => terms_of(words.drop_last()),
        }
    }
}

/// No more terms than words, and each of them a term.
pub proof fn lemma_terms_of(words: Seq<Seq<char>>)
    ensures
        terms_of(words).len() <= words.len(),
        forall|i: int| 0 <= i < terms_of(words).len() ==> is_term(#[trigger] terms_of(words)[i]),
    decreases words.len(),
{
    if words.len() > 0 {
        lemma_terms_of(words.drop_last());
        crate::normalize::lemma_letters_of(words.last());
    }
}

/// The table that counts each term of a list: an entry for each distinct
/// term, in the order in which the terms first occur.
pub open spec fn tally(terms: Seq<Seq<char>>) -> Seq<(Seq<char>, u64)>
    decreases terms.len(),
{
    if terms.len() == 0 {
        Seq::empty()
    } else {
        added(tally(terms.drop_last()), terms.last(), 1)
    }
}

/// A document: its path and the counts of its terms.
#[derive(Clone, Debug)]
pub struct Document {
    pub path: String,
    pub df: TermCounts,
}

impl Document {
    /// Builds the document of a text from its normalized words. A word
    /// without letters is left out; every other word counts once for the term
    /// that its letters spell.
    pub fn from_words(path: String, words: &Vec<String>) -> (document: Document)
        ensures
            document.path == path,
            document.df.well_formed(),
            document.df@ == tally(terms_of(string_views(words@))),
            document.df@.len() == terms_of(string_views(words@)).to_set().len(),
            document.df.occurrences() == terms_of(string_views(words@)).len(),
    {
        let ghost all = string_views(words@);
        let count: usize = words.len();
        proof {
            lemma_terms_of(all);
            assert(all.len() == count);
            crate::laws::law_size_is_distinct_terms(terms_of(all));
        }
        let mut df = TermCounts::new();
        let mut k: usize = 0;
        proof {
            assert(all.take(0) =~= Seq::empty());
        }
        while k < words.len()
            invariant
                k <= words.len(),
                all == string_views(words@),
                df.well_formed(),
                df@ == tally(terms_of(all.take(k as int))),
                df.occurrences() == terms_of(all.take(k as int)).len(),
                df.occurrences() <= k,
            decreases words.len() - k,
        {
            proof {
                assert(all.take(k + 1).drop_last() =~= all.take(k as int));
                assert(all.take(k + 1).last() == words@[k as int]@);
            }
            match normalize(words[k].as_str()) {
                Some(term) => {
                    proof {
                        let terms = terms_of(all.take(k + 1));
                        assert(terms.drop_last() =~= terms_of(all.take(k as int)));
                        assert(terms.last() == term@);
                    }
                    let done = df.add(&term, 1);
                    assert(done);
                },
                None => {},
            }
            k = k + 1;
        }
        proof {
            assert(all.take(words.len() as int) =~= all);
        }
        Document { path, df }
    }

    /// Builds the document of a text whose words are taken as they stand:
    /// the text is split at white space, and each word counts once for the
    /// term that its letters spell.
    pub fn from_text(path: String, text: &str) -> (document: Document)
        ensures
            document.path == path,
            document.df.well_formed(),
            document.df@ == tally(terms_of(words(text@))),
            document.df@.len() == terms_of(words(text@)).to_set().len(),
            document.df.occurrences() == terms_of(words(text@)).len(),
    {
        let found = split_whitespace(text);
        Document::from_words(path, &found)
    }

    /// The size of the document: the number of its distinct terms.
    pub fn size(&self) -> (n: usize)
        ensures
            n == self.df@.len(),
    {
        self.df.len()
    }
}

} // verus!
