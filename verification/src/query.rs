//! The query engine: from the rows of a term store to ranked documents.
//!
//! The caller reads the registry (`documents`) and, for each query term, the
//! rows of the documents whose table holds the term; the functions here turn
//! these rows into scores and rankings.

use crate::entries::{
    distinct_names, find, lemma_position_of, names_of, position_of, upserted_all, value_of, views,
    Named,
};
use crate::rank::{holds, key_views, lemma_ranking_is_permutation, rank, ranking};
use crate::score::{outranks, Score};
use crate::text::string_views;
use vstd::prelude::*;

verus! {

/// A row of the registry: a document and its number of distinct terms.
#[derive(Clone, Debug, PartialEq, Eq)]
pub struct DocumentRow {
    pub name: String,
    pub size: u64,
}

/// A row of a document's table for one term: the document and how often the
/// term occurs in it.
#[derive(Clone, Debug, PartialEq, Eq)]
pub struct TermRow {
    pub name: String,
    pub frequency: u64,
}

/// A document with its score for one term.
#[derive(Clone, Debug, PartialEq, Eq)]
pub struct Scored {
    pub name: String,
    pub score: Score,
}

impl View for DocumentRow {
    type V = (Seq<char>, u64);

    open spec fn view(&self) -> (Seq<char>, u64) {
        (self.name@, self.size)
    }
}

impl View for TermRow {
    type V = (Seq<char>, u64);

    open spec fn view(&self) -> (Seq<char>, u64) {
        (self.name@, self.frequency)
    }
}

impl View for Scored {
    type V = (Seq<char>, Score);

    open spec fn view(&self) -> (Seq<char>, Score) {
        (self.name@, self.score)
    }
}

impl Named<u64> for DocumentRow {
    fn name(&self) -> (name: &String) {
        &self.name
    }
}

impl Named<u64> for TermRow {
    fn name(&self) -> (name: &String) {
        &self.name
    }
}

impl Named<Score> for Scored {
    fn name(&self) -> (name: &String) {
        &self.name
    }
}

/// The registry that a list of rows stands for: one entry for each document,
/// in the order in which the documents first occur, each with the size of its
/// last row.
pub open spec fn registry_of(rows: Seq<(Seq<char>, u64)>) -> Seq<(Seq<char>, u64)> {
    upserted_all(Seq::empty(), rows)
}

/// A registry never lists a document twice, and holds no more entries than
/// there were rows.
pub proof fn lemma_registry_of(rows: Seq<(Seq<char>, u64)>)
    ensures
        distinct_names(registry_of(rows)),
        registry_of(rows).len() <= rows.len(),
    decreases rows.len(),
{
    if rows.len() > 0 {
        let prior = registry_of(rows.drop_last());
        lemma_registry_of(rows.drop_last());
        lemma_position_of(prior, rows.last().0);
    }
}

/// The registry: the documents that a query sees, each with its size.
pub struct Registry {
    entries: Vec<DocumentRow>,
}

impl View for Registry {
    type V = Seq<(Seq<char>, u64)>;

    closed spec fn view(&self) -> Seq<(Seq<char>, u64)> {
        views(self.entries@)
    }
}

impl Registry {
    /// Builds the registry from the rows of the store. Of two rows for one
    /// document the later one counts.
    pub fn from_rows(rows: &Vec<DocumentRow>) -> (r: Registry)
        ensures
            r@ == registry_of(views(rows@)),
    {
        let mut registry = Registry { entries: Vec::new() };
        let mut k: usize = 0;
        proof {
            assert(views(rows@).take(0) =~= Seq::empty());
            assert(registry@ =~= Seq::empty());
        }
        while k < rows.len()
            invariant
                k <= rows.len(),
                registry@ == registry_of(views(rows@).take(k as int)),
            decreases rows.len() - k,
        {
            proof {
                assert(views(rows@).take(k + 1).drop_last() =~= views(rows@).take(k as int));
                assert(views(rows@).take(k + 1).last() == rows@[k as int]@);
            }
            let ghost before = registry@;
            let row = DocumentRow { name: rows[k].name.clone(), size: rows[k].size };
            match find(&registry.entries, &row.name) {
                Some(i) => {
                    registry.entries[i] = row;
                    proof {
                        assert(registry@ =~= before.update(i as int, rows@[k as int]@));
                    }
                },
                None => {
                    registry.entries.push(row);
                    proof {
                        assert(registry@ =~= before.push(rows@[k as int]@));
                    }
                },
            }
            k = k + 1;
        }
        proof {
            assert(views(rows@).take(rows.len() as int) =~= views(rows@));
        }
        registry
    }

    /// The number of documents.
    pub fn len(&self) -> (n: usize)
        ensures
            n == self@.len(),
    {
        self.entries.len()
    }

    /// The name of the document at a place of the registry.
    pub(crate) fn name(&self, i: usize) -> (r: &String)
        requires
            i < self@.len(),
        ensures
            r@ == self@[i as int].0,
    {
        &self.entries[i].name
    }

    /// The size of a document, if the registry lists it.
    pub fn size_of(&self, name: &String) -> (r: Option<u64>)
        ensures
            r == value_of(self@, name@),
    {
        match find(&self.entries, name) {
            Some(i) => Some(self.entries[i].size),
            None => None,
        }
    }
}

/// A document in which the term was found: its name, the term's frequency
/// in it, and its size.
struct Hit {
    name: String,
    frequency: u64,
    size: u64,
}

impl View for Hit {
    type V = (Seq<char>, (u64, u64));

    closed spec fn view(&self) -> (Seq<char>, (u64, u64)) {
        (self.name@, (self.frequency, self.size))
    }
}

/// The documents that hold the term: for each document of the rows that the
/// registry lists with at least one term, its name, the frequency of its
/// first row and its size, in the order of the rows. A row of a document that
/// the registry does not list, or lists as empty, is passed over.
pub open spec fn hits(registry: Seq<(Seq<char>, u64)>, rows: Seq<(Seq<char>, u64)>) -> Seq<
    (Seq<char>, (u64, u64)),
>
    decreases rows.len(),
{
    if rows.len() == 0 {
        Seq::empty()
    } else {
        let prior = hits(registry, rows.drop_last());
        let row = rows.last();
        match value_of(registry, row.0) {
            Some(size) => if size >= 1 && position_of(prior, row.0) is None {
                prior.push((row.0, (row.1, size)))
            } else {
                prior
            },
            None => prior,
        }
    }
}

/// The score of each document that holds the term, in the order of the rows:
/// its frequency over its size, times the logarithm of the number of
/// documents that hold the term over the number of documents listed.
pub open spec fn scores(registry: Seq<(Seq<char>, u64)>, rows: Seq<(Seq<char>, u64)>) -> Seq<
    (Seq<char>, Score),
> {
    let found = hits(registry, rows);
    found.map_values(
        |h: (Seq<char>, (u64, u64))|
            (
                h.0,
                Score {
                    frequency: h.1.0,
                    size: h.1.1,
                    matching: found.len() as u64,
                    total: registry.len() as u64,
                },
            ),
    )
}

/// Each score as a product of one factor.
pub open spec fn single_keys(scored: Seq<(Seq<char>, Score)>) -> Seq<Seq<Score>> {
    scored.map_values(|s: (Seq<char>, Score)| seq![s.1])
}

/// The items in the given order.
pub open spec fn picked<T>(items: Seq<T>, order: Seq<int>) -> Seq<T> {
    Seq::new(order.len(), |i: int| items[order[i]])
}

/// The answer to a query for one term: the documents that hold it with their
/// scores, greatest score first, documents of equal score in the order of
/// their rows.
pub open spec fn ranked_scores(documents: Seq<(Seq<char>, u64)>, rows: Seq<(Seq<char>, u64)>) -> Seq<
    (Seq<char>, Score),
> {
    let scored = scores(registry_of(documents), rows);
    picked(scored, ranking(single_keys(scored)))
}

impl Named<(u64, u64)> for Hit {
    fn name(&self) -> (name: &String) {
        &self.name
    }
}

impl Registry {
    /// The documents among the rows that the registry lists as holding terms.
    fn find_hits(&self, rows: &Vec<TermRow>) -> (found: Vec<Hit>)
        ensures
            views(found@) == hits(self@, views(rows@)),
    {
        let ghost all = views(rows@);
        let mut found: Vec<Hit> = Vec::new();
        let mut k: usize = 0;
        proof {
            assert(all.take(0) =~= Seq::empty());
            assert(views(found@) =~= Seq::empty());
        }
        while k < rows.len()
            invariant
                k <= rows.len(),
                all == views(rows@),
                views(found@) == hits(self@, all.take(k as int)),
            decreases rows.len() - k,
        {
            proof {
                assert(all.take(k + 1).drop_last() =~= all.take(k as int));
                assert(all.take(k + 1).last() == rows@[k as int]@);
            }
            let ghost before = views(found@);
            match self.size_of(&rows[k].name) {
                Some(size) => {
                    if size >= 1 && find(&found, &rows[k].name).is_none() {
                        found.push(
                            Hit { name: rows[k].name.clone(), frequency: rows[k].frequency, size },
                        );
                        proof {
                            assert(views(found@) =~= before.push(
                                (rows@[k as int].name@, (rows@[k as int].frequency, size)),
                            ));
                        }
                    }
                },
                None => {},
            }
            k = k + 1;
        }
        proof {
            assert(all.take(rows.len() as int) =~= all);
        }
        found
    }

    /// Scores the rows of one term against the registry and ranks them.
    pub fn score(&self, rows: &Vec<TermRow>) -> (ranked: Vec<Scored>)
        ensures
            views(ranked@) == picked(
                scores(self@, views(rows@)),
                ranking(single_keys(scores(self@, views(rows@)))),
            ),
    {
        let found = self.find_hits(rows);
        let matching: u64 = found.len() as u64;
        let total: u64 = self.entries.len() as u64;
        let ghost goal = scores(self@, views(rows@));
        let mut scored: Vec<Scored> = Vec::new();
        let mut keys: Vec<Vec<Score>> = Vec::new();
        let mut k: usize = 0;
        while k < found.len()
            invariant
                k <= found.len(),
                views(found@) == hits(self@, views(rows@)),
                matching == found@.len() as u64,
                total == self@.len() as u64,
                goal == scores(self@, views(rows@)),
                views(scored@) =~= goal.take(k as int),
                key_views(keys@) =~= single_keys(goal).take(k as int),
            decreases found.len() - k,
        {
            let score = Score {
                frequency: found[k].frequency,
                size: found[k].size,
                matching,
                total,
            };
            let ghost scored_before = views(scored@);
            let ghost keys_before = key_views(keys@);
            scored.push(Scored { name: found[k].name.clone(), score });
            let mut key: Vec<Score> = Vec::new();
            key.push(score);
            keys.push(key);
            proof {
                assert(views(found@)[k as int] == found@[k as int]@);
                assert(goal[k as int] == (found@[k as int].name@, score));
                assert(views(scored@) =~= scored_before.push(goal[k as int]));
                assert(key@ =~= seq![score]);
                assert(key_views(keys@) =~= keys_before.push(seq![score]));
            }
            k = k + 1;
        }
        proof {
            assert(goal.take(found.len() as int) =~= goal);
            assert(single_keys(goal).take(found.len() as int) =~= single_keys(goal));
        }
        let order = rank(&keys);
        proof {
            lemma_ranking_is_permutation(key_views(keys@), keys@.len() as nat);
        }
        pick(&scored, &order, Ghost(ranking(key_views(keys@))))
    }
}

/// Copies the items out in the given order.
fn pick(items: &Vec<Scored>, order: &Vec<usize>, Ghost(indices): Ghost<Seq<int>>) -> (out: Vec<
    Scored,
>)
    requires
        holds(order@, indices),
        forall|i: int| 0 <= i < indices.len() ==> 0 <= #[trigger] indices[i] < items@.len(),
    ensures
        views(out@) == picked(views(items@), indices),
{
    let mut out: Vec<Scored> = Vec::new();
    let mut i: usize = 0;
    while i < order.len()
        invariant
            i <= order.len(),
            holds(order@, indices),
            forall|i: int| 0 <= i < indices.len() ==> 0 <= #[trigger] indices[i] < items@.len(),
            views(out@) =~= picked(views(items@), indices).take(i as int),
        decreases order.len() - i,
    {
        let ghost before = views(out@);
        let j: usize = order[i];
        proof {
            assert(order@[i as int] as int == indices[i as int]);
        }
        out.push(Scored { name: items[j].name.clone(), score: items[j].score });
        proof {
            assert(views(out@) =~= before.push(items@[j as int]@));
        }
        i = i + 1;
    }
    proof {
        assert(picked(views(items@), indices).take(order.len() as int) =~= picked(
            views(items@),
            indices,
        ));
    }
    out
}

/// Answers a query for one term. `documents` holds the rows of the registry,
/// `rows` the rows of the documents whose table holds the term. Returns the
/// documents that hold the term with their scores, greatest score first.
pub fn query_term(documents: &Vec<DocumentRow>, rows: &Vec<TermRow>) -> (ranked: Vec<Scored>)
    ensures
        views(ranked@) == ranked_scores(views(documents@), views(rows@)),
        distinct_names(views(ranked@)),
        forall|a: int, b: int|
            0 <= a < b < ranked@.len() ==> !outranks(
                seq![(#[trigger] ranked@[b]).score],
                seq![(#[trigger] ranked@[a]).score],
            ),
        forall|i: int|
            0 <= i < ranked@.len() ==> {
                let score = (#[trigger] ranked@[i]).score;
                &&& score.well_formed()
                &&& score.matching <= score.total
                &&& score.total == registry_of(views(documents@)).len()
                &&& score.matching == ranked@.len()
            },
{
    let registry = Registry::from_rows(documents);
    let count: usize = documents.len();
    let ranked = registry.score(rows);
    proof {
        let answer = ranked_scores(views(documents@), views(rows@));
        crate::laws::law_answer_is_sorted(views(documents@), views(rows@));
        assert forall|a: int, b: int| 0 <= a < b < ranked@.len() implies !outranks(
            seq![(#[trigger] ranked@[b]).score],
            seq![(#[trigger] ranked@[a]).score],
        ) by {
            assert(answer[a] == ranked@[a]@);
            assert(answer[b] == ranked@[b]@);
        }
        assert forall|i: int| 0 <= i < ranked@.len() implies {
            let score = (#[trigger] ranked@[i]).score;
            &&& score.well_formed()
            &&& score.matching <= score.total
            &&& score.total == registry_of(views(documents@)).len()
            &&& score.matching == ranked@.len()
        } by {
            assert(answer[i] == ranked@[i]@);
            crate::laws::law_answer_counts(views(documents@), views(rows@), i);
        }
    }
    ranked
}

/// The views of the items of each list.
pub open spec fn nested_views<T: View>(lists: Seq<Vec<T>>) -> Seq<Seq<T::V>> {
    Seq::new(lists.len(), |i: int| views(lists[i]@))
}

/// Whether every result lists the document.
pub open spec fn in_all(results: Seq<Seq<(Seq<char>, Score)>>, name: Seq<char>) -> bool {
    forall|i: int| 0 <= i < results.len() ==> position_of(#[trigger] results[i], name) is Some
}

/// The documents of `first` that every result lists, in the order of `first`.
pub open spec fn common(first: Seq<(Seq<char>, Score)>, results: Seq<Seq<(Seq<char>, Score)>>) -> Seq<
    Seq<char>,
>
    decreases first.len(),
{
    if first.len() == 0 {
        Seq::empty()
    } else {
        let prior = common(first.drop_last(), results);
        if in_all(results, first.last().0) {
            prior.push(first.last().0)
        } else {
            prior
        }
    }
}

/// The score that a result lists for the document; a score of value zero if
/// it lists none.
pub open spec fn factor(result: Seq<(Seq<char>, Score)>, name: Seq<char>) -> Score {
    match value_of(result, name) {
        Some(score) => score,
        None => Score { frequency: 0, size: 1, matching: 1, total: 1 },
    }
}

/// The scores of the document, one from each result.
pub open spec fn factors(results: Seq<Seq<(Seq<char>, Score)>>, name: Seq<char>) -> Seq<Score> {
    Seq::new(results.len(), |i: int| factor(results[i], name))
}

/// The answer to each term of a query.
pub open spec fn term_results(
    documents: Seq<(Seq<char>, u64)>,
    per_term: Seq<Seq<(Seq<char>, u64)>>,
) -> Seq<Seq<(Seq<char>, Score)>> {
    Seq::new(per_term.len(), |i: int| ranked_scores(documents, per_term[i]))
}

/// The products of scores by which the candidates are ranked.
pub open spec fn candidate_keys(
    results: Seq<Seq<(Seq<char>, Score)>>,
    candidates: Seq<Seq<char>>,
) -> Seq<Seq<Score>> {
    Seq::new(candidates.len(), |c: int| factors(results, candidates[c]))
}

/// The answer to a query of several terms: the documents that hold every
/// term, ranked by the product of their scores for the terms, greatest
/// first; documents of equal product in the order of the answer to the first
/// term. A query without terms has no answer.
pub open spec fn ranked_documents(
    documents: Seq<(Seq<char>, u64)>,
    per_term: Seq<Seq<(Seq<char>, u64)>>,
) -> Seq<Seq<char>> {
    if per_term.len() == 0 {
        Seq::empty()
    } else {
        let results = term_results(documents, per_term);
        let candidates = common(results[0], results);
        picked(candidates, ranking(candidate_keys(results, candidates)))
    }
}

/// Whether every result lists the document.
fn listed_in_all(results: &Vec<Vec<Scored>>, name: &String) -> (r: bool)
    ensures
        r == in_all(nested_views(results@), name@),
{
    let mut i: usize = 0;
    while i < results.len()
        invariant
            i <= results.len(),
            forall|j: int|
                0 <= j < i ==> position_of(#[trigger] nested_views(results@)[j], name@) is Some,
        decreases results.len() - i,
    {
        if find(&results[i], name).is_none() {
            proof {
                assert(position_of(nested_views(results@)[i as int], name@) is None);
            }
            return false;
        }
        i = i + 1;
    }
    true
}

/// The scores of the document, one from each result.
fn collect_factors(results: &Vec<Vec<Scored>>, name: &String) -> (key: Vec<Score>)
    ensures
        key@ == factors(nested_views(results@), name@),
{
    let mut key: Vec<Score> = Vec::new();
    let mut i: usize = 0;
    while i < results.len()
        invariant
            i <= results.len(),
            key@ =~= factors(nested_views(results@), name@).take(i as int),
        decreases results.len() - i,
    {
        let ghost before = key@;
        let score = match find(&results[i], name) {
            Some(j) => results[i][j].score,
            None => Score { frequency: 0, size: 1, matching: 1, total: 1 },
        };
        key.push(score);
        proof {
            assert(score == factor(nested_views(results@)[i as int], name@));
            assert(key@ =~= before.push(score));
        }
        i = i + 1;
    }
    proof {
        assert(factors(nested_views(results@), name@).take(results.len() as int) =~= factors(
            nested_views(results@),
            name@,
        ));
    }
    key
}

/// Answers a query of several terms. `documents` holds the rows of the
/// registry and `per_term`, for each term of the query, the rows of the
/// documents whose table holds that term. Returns the documents that hold
/// every term, greatest product of scores first.
pub fn query_many_terms(documents: &Vec<DocumentRow>, per_term: &Vec<Vec<TermRow>>) -> (names: Vec<
    String,
>)
    ensures
        string_views(names@) == ranked_documents(views(documents@), nested_views(per_term@)),
        per_term@.len() == 0 ==> names@.len() == 0,
        per_term@.len() > 0 ==> forall|name: Seq<char>| #[trigger]
            string_views(names@).contains(name) <==> in_all(
                term_results(views(documents@), nested_views(per_term@)),
                name,
            ),
        per_term@.len() == 1 ==> string_views(names@) == names_of(
            ranked_scores(views(documents@), views(per_term@[0]@)),
        ),
        forall|a: int, b: int|
            0 <= a < b < names@.len() ==> !outranks(
                factors(
                    term_results(views(documents@), nested_views(per_term@)),
                    (#[trigger] names@[b])@,
                ),
                factors(
                    term_results(views(documents@), nested_views(per_term@)),
                    (#[trigger] names@[a])@,
                ),
            ),
{
    let mut names: Vec<String> = Vec::new();
    if per_term.len() == 0 {
        proof {
            assert(string_views(names@) =~= Seq::empty());
        }
        return names;
    }
    let registry = Registry::from_rows(documents);
    let ghost goal = term_results(views(documents@), nested_views(per_term@));
    let mut results: Vec<Vec<Scored>> = Vec::new();
    let mut t: usize = 0;
    while t < per_term.len()
        invariant
            t <= per_term.len(),
            registry@ == registry_of(views(documents@)),
            goal == term_results(views(documents@), nested_views(per_term@)),
            nested_views(results@) =~= goal.take(t as int),
        decreases per_term.len() - t,
    {
        let ghost before = nested_views(results@);
        let result = registry.score(&per_term[t]);
        proof {
            assert(views(result@) == goal[t as int]);
        }
        results.push(result);
        proof {
            assert(nested_views(results@) =~= before.push(goal[t as int]));
        }
        t = t + 1;
    }
    proof {
        assert(goal.take(per_term.len() as int) =~= goal);
    }
    let ghost first = goal[0];
    let mut candidates: Vec<String> = Vec::new();
    let mut keys: Vec<Vec<Score>> = Vec::new();
    let mut k: usize = 0;
    proof {
        assert(first.take(0) =~= Seq::empty());
        assert(string_views(candidates@) =~= common(first.take(0), goal));
    }
    while k < results[0].len()
        invariant
            results@.len() > 0,
            k <= results@[0]@.len(),
            nested_views(results@) == goal,
            first == goal[0],
            first == views(results@[0]@),
            string_views(candidates@) == common(first.take(k as int), goal),
            key_views(keys@) =~= candidate_keys(goal, string_views(candidates@)),
        decreases results@[0]@.len() - k,
    {
        proof {
            assert(first.take(k + 1).drop_last() =~= first.take(k as int));
            assert(first.take(k + 1).last() == results@[0]@[k as int]@);
        }
        if listed_in_all(&results, &results[0][k].name) {
            let ghost names_before = string_views(candidates@);
            let ghost keys_before = key_views(keys@);
            let name = results[0][k].name.clone();
            let key = collect_factors(&results, &name);
            candidates.push(name);
            keys.push(key);
            proof {
                assert(string_views(candidates@) =~= names_before.push(name@));
                assert(key_views(keys@) =~= keys_before.push(factors(goal, name@)));
            }
        }
        k = k + 1;
    }
    proof {
        assert(first.take(results@[0]@.len() as int) =~= first);
    }
    let order = rank(&keys);
    let ghost indices = ranking(key_views(keys@));
    proof {
        lemma_ranking_is_permutation(key_views(keys@), keys@.len() as nat);
    }
    let mut i: usize = 0;
    while i < order.len()
        invariant
            i <= order.len(),
            holds(order@, indices),
            indices.len() == candidates@.len(),
            forall|i: int| 0 <= i < indices.len() ==> 0 <= #[trigger] indices[i] < candidates@.len(),
            string_views(names@) =~= picked(string_views(candidates@), indices).take(i as int),
        decreases order.len() - i,
    {
        let ghost before = string_views(names@);
        let j: usize = order[i];
        proof {
            assert(order@[i as int] as int == indices[i as int]);
        }
        names.push(candidates[j].clone());
        proof {
            assert(string_views(names@) =~= before.push(candidates@[j as int]@));
        }
        i = i + 1;
    }
    proof {
        assert(picked(string_views(candidates@), indices).take(order.len() as int) =~= picked(
            string_views(candidates@),
            indices,
        ));
        let answer = ranked_documents(views(documents@), nested_views(per_term@));
        assert(string_views(names@) == answer);
        assert forall|name: Seq<char>| #[trigger]
            string_views(names@).contains(name) <==> in_all(goal, name) by {
            crate::laws::law_answer_is_intersection(
                views(documents@),
                nested_views(per_term@),
                name,
            );
        }
        if per_term@.len() == 1 {
            assert(nested_views(per_term@) =~= seq![views(per_term@[0]@)]);
            crate::laws::law_one_term(views(documents@), views(per_term@[0]@));
        }
        crate::laws::law_many_terms_answer_is_sorted(views(documents@), nested_views(per_term@));
        assert forall|a: int, b: int| 0 <= a < b < names@.len() implies !outranks(
            factors(goal, (#[trigger] names@[b])@),
            factors(goal, (#[trigger] names@[a])@),
        ) by {
            assert(answer[a] == names@[a]@);
            assert(answer[b] == names@[b]@);
        }
    }
    names
}

} // verus!
