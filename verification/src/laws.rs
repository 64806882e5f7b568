//! Laws of the library: what holds of every text, document, store and
//! query, proved from the definitions that the contracts of the functions
//! speak of.

use crate::document::{added, lemma_sum_update, merged, sum, tally, valid_counts};
use crate::entries::{
    distinct_names, lemma_position_of, lemma_position_of_own_name, names_of, position_of,
    upserted, upserted_all, value_of,
};
use crate::memory::{corpus, indexed, rebuilt, run, table_of, written, Stored};
use crate::normalize::{is_term, lemma_letters_of, lemma_letters_of_letters, term_of};
use crate::query::{
    candidate_keys, common, factor, factors, hits, in_all, lemma_registry_of, picked,
    ranked_documents, ranked_scores, registry_of, scores, single_keys, term_results,
};
use crate::rank::{
    comparable, identity, lemma_ranking_is_permutation, lemma_ranking_is_sorted,
    lemma_ranking_of_sorted, precedes, ranking,
};
use crate::score::{denominator, numerator, outranks, sign_of, Score};
use crate::store::table_name_of;
use crate::text::{replaced, white_space, words};
use vstd::prelude::*;

verus! {

/// The documents that hold a term are distinct, none of them is empty, each
/// has the size that the registry gives it, and there are no more of them
/// than rows.
pub proof fn lemma_hits(registry: Seq<(Seq<char>, u64)>, rows: Seq<(Seq<char>, u64)>)
    ensures
        distinct_names(hits(registry, rows)),
        hits(registry, rows).len() <= rows.len(),
        forall|i: int|
            0 <= i < hits(registry, rows).len() ==> {
                let hit = #[trigger] hits(registry, rows)[i];
                hit.1.1 >= 1 && value_of(registry, hit.0) == Some(hit.1.1)
            },
    decreases rows.len(),
{
    if rows.len() > 0 {
        let prior = hits(registry, rows.drop_last());
        lemma_hits(registry, rows.drop_last());
        lemma_position_of(prior, rows.last().0);
    }
}

/// No more documents hold a term than the registry lists.
pub proof fn lemma_hits_within_registry(registry: Seq<(Seq<char>, u64)>, rows: Seq<(Seq<char>, u64)>)
    ensures
        hits(registry, rows).len() <= registry.len(),
{
    let found = hits(registry, rows);
    let found_names = names_of(found);
    let listed_names = names_of(registry);
    lemma_hits(registry, rows);
    assert(found_names.no_duplicates()) by {
        assert forall|i: int, j: int|
            0 <= i < found_names.len() && 0 <= j < found_names.len() && i != j implies found_names[i]
            != found_names[j] by {
            if i < j {
                assert(found[i].0 != found[j].0);
            } else {
                assert(found[j].0 != found[i].0);
            }
        }
    }
    found_names.unique_seq_to_set();
    assert(found_names.to_set().subset_of(listed_names.to_set())) by {
        assert forall|name: Seq<char>| found_names.to_set().contains(name) implies listed_names.to_set().contains(
            name,
        ) by {
            let i = choose|i: int| 0 <= i < found_names.len() && found_names[i] == name;
            assert(value_of(registry, found[i].0) is Some);
            lemma_position_of(registry, name);
            let p = position_of(registry, name)->0;
            assert(listed_names[p] == name);
        }
    }
    vstd::set_lib::lemma_len_subset(found_names.to_set(), listed_names.to_set());
    listed_names.lemma_cardinality_of_set();
}

/// The scores of a term: one for each document that holds it, under distinct
/// names, each made of the row's frequency, the document's size, the number
/// of documents that hold the term and the number of documents listed. They
/// can be compared with each other.
pub proof fn lemma_scores(registry: Seq<(Seq<char>, u64)>, rows: Seq<(Seq<char>, u64)>)
    ensures
        scores(registry, rows).len() == hits(registry, rows).len(),
        distinct_names(scores(registry, rows)),
        forall|i: int|
            0 <= i < scores(registry, rows).len() ==> {
                let hit = hits(registry, rows)[i];
                #[trigger] scores(registry, rows)[i] == (
                    hit.0,
                    Score {
                        frequency: hit.1.0,
                        size: hit.1.1,
                        matching: hits(registry, rows).len() as u64,
                        total: registry.len() as u64,
                    },
                ) && hit.1.1 >= 1
            },
        comparable(single_keys(scores(registry, rows))),
{
    lemma_hits(registry, rows);
    let found = hits(registry, rows);
    let scored = scores(registry, rows);
    let keys = single_keys(scored);
    assert forall|i: int, j: int| 0 <= i < j < scored.len() implies (#[trigger] scored[i]).0 != (
    #[trigger] scored[j]).0 by {
        assert(found[i].0 != found[j].0);
    }
    assert forall|i: int, j: int| 0 <= i < keys.len() && 0 <= j < keys.len() implies sign_of(
        #[trigger] keys[i],
    ) == sign_of(#[trigger] keys[j]) by {
        lemma_single_key(scored[i].1);
        lemma_single_key(scored[j].1);
    }
    assert forall|i: int, j: int| 0 <= i < keys.len() && 0 <= j < keys[i].len() implies (
    #[trigger] keys[i][j]).size >= 1 by {
        assert(found[i].1.1 >= 1);
    }
}

/// A product of one score: its sign and its two parts.
pub proof fn lemma_single_key(score: Score)
    ensures
        sign_of(seq![score]) == score.idf_sign(),
        numerator(seq![score]) == score.frequency,
        denominator(seq![score]) == score.size,
{
    let key = seq![score];
    assert(key.drop_last() =~= Seq::<Score>::empty());
    assert(key.last() == score);
    assert(sign_of(key.drop_last()) == 1);
    assert(numerator(key.drop_last()) == 1);
    assert(denominator(key.drop_last()) == 1);
    assert(numerator(key) == 1 * (score.frequency as nat));
    assert(denominator(key) == 1 * (score.size as nat));
}

/// Every score in the answer to a term counts the documents that hold the
/// term and the documents listed. No more documents hold the term than are
/// listed, so the logarithm in the score is taken of a quotient that is at
/// most one, and no score is positive.
pub proof fn law_answer_counts(documents: Seq<(Seq<char>, u64)>, rows: Seq<(Seq<char>, u64)>, i: int)
    requires
        documents.len() <= u64::MAX,
        0 <= i < ranked_scores(documents, rows).len(),
    ensures
        ranked_scores(documents, rows)[i].1.matching == ranked_scores(documents, rows).len(),
        ranked_scores(documents, rows)[i].1.total == registry_of(documents).len(),
        ranked_scores(documents, rows)[i].1.matching <= ranked_scores(documents, rows)[i].1.total,
        ranked_scores(documents, rows)[i].1.idf_sign() <= 0,
        ranked_scores(documents, rows)[i].1.well_formed(),
{
    let registry = registry_of(documents);
    let scored = scores(registry, rows);
    lemma_registry_of(documents);
    lemma_hits_within_registry(registry, rows);
    lemma_scores(registry, rows);
    let order = ranking(single_keys(scored));
    lemma_ranking_is_permutation(single_keys(scored), scored.len());
    assert(ranked_scores(documents, rows)[i] == scored[order[i]]);
}

/// A term that exactly one document holds: the answer is that document
/// alone, and its score is `frequency / size * ln(1 / total)`, with the
/// frequency of its row, its size in the registry, and the number of
/// documents listed.
pub proof fn law_single_match(documents: Seq<(Seq<char>, u64)>, rows: Seq<(Seq<char>, u64)>)
    requires
        hits(registry_of(documents), rows).len() == 1,
    ensures
        ranked_scores(documents, rows) == seq![
            (
                hits(registry_of(documents), rows)[0].0,
                Score {
                    frequency: hits(registry_of(documents), rows)[0].1.0,
                    size: hits(registry_of(documents), rows)[0].1.1,
                    matching: 1,
                    total: registry_of(documents).len() as u64,
                },
            ),
        ],
        value_of(registry_of(documents), hits(registry_of(documents), rows)[0].0) == Some(
            hits(registry_of(documents), rows)[0].1.1,
        ),
{
    let registry = registry_of(documents);
    let scored = scores(registry, rows);
    lemma_scores(registry, rows);
    lemma_hits(registry, rows);
    let keys = single_keys(scored);
    lemma_ranking_is_permutation(keys, 1);
    assert(ranking(keys)[0] == 0);
    assert(ranked_scores(documents, rows) =~= seq![scored[0]]);
}

/// The answer to a term is in descending order of score, and lists no
/// document twice.
pub proof fn law_answer_is_sorted(documents: Seq<(Seq<char>, u64)>, rows: Seq<(Seq<char>, u64)>)
    ensures
        distinct_names(ranked_scores(documents, rows)),
        forall|a: int, b: int|
            0 <= a < b < ranked_scores(documents, rows).len() ==> !outranks(
                seq![(#[trigger] ranked_scores(documents, rows)[b]).1],
                seq![(#[trigger] ranked_scores(documents, rows)[a]).1],
            ),
{
    let registry = registry_of(documents);
    let scored = scores(registry, rows);
    let keys = single_keys(scored);
    let order = ranking(keys);
    let answer = ranked_scores(documents, rows);
    lemma_scores(registry, rows);
    lemma_ranking_is_permutation(keys, keys.len());
    lemma_ranking_is_sorted(keys, keys.len());
    assert forall|a: int, b: int| 0 <= a < b < answer.len() implies (#[trigger] answer[a]).0 != (
    #[trigger] answer[b]).0 by {
        assert(order[a] != order[b]);
        if order[a] < order[b] {
            assert(scored[order[a]].0 != scored[order[b]].0);
        } else {
            assert(scored[order[b]].0 != scored[order[a]].0);
        }
    }
    assert forall|a: int, b: int| 0 <= a < b < answer.len() implies !outranks(
        seq![(#[trigger] answer[b]).1],
        seq![(#[trigger] answer[a]).1],
    ) by {
        assert(precedes(keys, order[a], order[b]));
        assert(keys[order[a]] == seq![answer[a].1]);
        assert(keys[order[b]] == seq![answer[b].1]);
        assert(sign_of(keys[order[a]]) == sign_of(keys[order[b]]));
    }
}

/// Each entry of the answer to a term names a document that is not empty,
/// and counts the documents that hold the term and the documents listed as
/// every other entry does.
pub proof fn lemma_answer_entry(
    documents: Seq<(Seq<char>, u64)>,
    rows: Seq<(Seq<char>, u64)>,
    p: int,
)
    requires
        0 <= p < ranked_scores(documents, rows).len(),
    ensures
        ranked_scores(documents, rows)[p].1.size >= 1,
        ranked_scores(documents, rows)[p].1.matching == hits(registry_of(documents), rows).len() as u64,
        ranked_scores(documents, rows)[p].1.total == registry_of(documents).len() as u64,
{
    let registry = registry_of(documents);
    let scored = scores(registry, rows);
    lemma_scores(registry, rows);
    let order = ranking(single_keys(scored));
    lemma_ranking_is_permutation(single_keys(scored), scored.len());
    assert(ranked_scores(documents, rows)[p] == scored[order[p]]);
}

/// Products whose logarithms have the same signs, place by place, have one
/// sign.
pub proof fn lemma_sign_by_factors(a: Seq<Score>, b: Seq<Score>)
    requires
        a.len() == b.len(),
        forall|i: int| 0 <= i < a.len() ==> (#[trigger] a[i]).idf_sign() == b[i].idf_sign(),
    ensures
        sign_of(a) == sign_of(b),
    decreases a.len(),
{
    if a.len() > 0 {
        assert(a[a.len() - 1].idf_sign() == b[a.len() - 1].idf_sign());
        assert forall|i: int| 0 <= i < a.drop_last().len() implies (#[trigger] a.drop_last()[i]).idf_sign()
            == b.drop_last()[i].idf_sign() by {
            assert(a[i].idf_sign() == b[i].idf_sign());
        }
        lemma_sign_by_factors(a.drop_last(), b.drop_last());
    }
}

/// The candidates of a query can be compared: each of them has one score
/// from the answer to each term, the scores for one term share their
/// logarithm, and no candidate is an empty document.
pub proof fn lemma_candidates_are_comparable(
    documents: Seq<(Seq<char>, u64)>,
    per_term: Seq<Seq<(Seq<char>, u64)>>,
)
    requires
        per_term.len() > 0,
    ensures
        comparable(
            candidate_keys(
                term_results(documents, per_term),
                common(term_results(documents, per_term)[0], term_results(documents, per_term)),
            ),
        ),
{
    let results = term_results(documents, per_term);
    let candidates = common(results[0], results);
    let keys = candidate_keys(results, candidates);
    lemma_common(results[0], results);
    assert forall|c: int, t: int| 0 <= c < keys.len() && 0 <= t < results.len() implies {
        let score = #[trigger] factor(results[t], candidates[c]);
        &&& score.size >= 1
        &&& score.matching == hits(registry_of(documents), per_term[t]).len() as u64
        &&& score.total == registry_of(documents).len() as u64
    } by {
        assert(candidates.contains(candidates[c]));
        assert(in_all(results, candidates[c]));
        assert(position_of(results[t], candidates[c]) is Some);
        lemma_position_of(results[t], candidates[c]);
        lemma_answer_entry(documents, per_term[t], position_of(results[t], candidates[c])->0);
    }
    assert forall|i: int, j: int| 0 <= i < keys.len() && 0 <= j < keys.len() implies sign_of(
        #[trigger] keys[i],
    ) == sign_of(#[trigger] keys[j]) by {
        assert forall|t: int| 0 <= t < keys[i].len() implies (#[trigger] keys[i][t]).idf_sign()
            == keys[j][t].idf_sign() by {
            assert(keys[i][t] == factor(results[t], candidates[i]));
            assert(keys[j][t] == factor(results[t], candidates[j]));
        }
        lemma_sign_by_factors(keys[i], keys[j]);
    }
    assert forall|i: int, t: int| 0 <= i < keys.len() && 0 <= t < keys[i].len() implies (
    #[trigger] keys[i][t]).size >= 1 by {
        assert(keys[i][t] == factor(results[t], candidates[i]));
    }
}

/// The answer to a query of several terms is in descending order of the
/// product of the scores: no document has a greater product than one that
/// stands before it.
pub proof fn law_many_terms_answer_is_sorted(
    documents: Seq<(Seq<char>, u64)>,
    per_term: Seq<Seq<(Seq<char>, u64)>>,
)
    requires
        per_term.len() > 0,
    ensures
        forall|a: int, b: int|
            0 <= a < b < ranked_documents(documents, per_term).len() ==> !outranks(
                factors(
                    term_results(documents, per_term),
                    #[trigger] ranked_documents(documents, per_term)[b],
                ),
                factors(
                    term_results(documents, per_term),
                    #[trigger] ranked_documents(documents, per_term)[a],
                ),
            ),
{
    let results = term_results(documents, per_term);
    let candidates = common(results[0], results);
    let keys = candidate_keys(results, candidates);
    let order = ranking(keys);
    let answer = ranked_documents(documents, per_term);
    lemma_candidates_are_comparable(documents, per_term);
    lemma_ranking_is_permutation(keys, keys.len());
    lemma_ranking_is_sorted(keys, keys.len());
    assert forall|a: int, b: int| 0 <= a < b < answer.len() implies !outranks(
        factors(results, #[trigger] answer[b]),
        factors(results, #[trigger] answer[a]),
    ) by {
        assert(precedes(keys, order[a], order[b]));
        assert(keys[order[a]] == factors(results, answer[a]));
        assert(keys[order[b]] == factors(results, answer[b]));
        assert(sign_of(keys[order[a]]) == sign_of(keys[order[b]]));
    }
}

/// A query without terms has no answer.
pub proof fn law_no_terms(documents: Seq<(Seq<char>, u64)>)
    ensures
        ranked_documents(documents, Seq::empty()) == Seq::<Seq<char>>::empty(),
{
}

/// The candidates of a query are the documents of the first answer that
/// every answer lists.
pub proof fn lemma_common(first: Seq<(Seq<char>, Score)>, results: Seq<Seq<(Seq<char>, Score)>>)
    ensures
        common(first, results).len() <= first.len(),
        forall|name: Seq<char>| #[trigger]
            common(first, results).contains(name) <==> in_all(results, name) && position_of(
                first,
                name,
            ) is Some,
    decreases first.len(),
{
    if first.len() == 0 {
        assert forall|name: Seq<char>| !(#[trigger] common(first, results).contains(name)) by {}
    } else {
        let prior = common(first.drop_last(), results);
        lemma_common(first.drop_last(), results);
        let last = first.last().0;
        assert forall|name: Seq<char>| #[trigger]
            common(first, results).contains(name) <==> in_all(results, name) && position_of(
                first,
                name,
            ) is Some by {
            if in_all(results, last) {
                let all = prior.push(last);
                if all.contains(name) {
                    let i = choose|i: int| 0 <= i < all.len() && all[i] == name;
                    if i < prior.len() {
                        assert(prior[i] == name);
                        assert(prior.contains(name));
                    }
                }
                if in_all(results, name) && position_of(first, name) is Some {
                    if name == last {
                        assert(all[prior.len() as int] == name);
                    } else {
                        assert(prior.contains(name));
                        let i = choose|i: int| 0 <= i < prior.len() && prior[i] == name;
                        assert(all[i] == name);
                    }
                }
            }
        }
    }
}

/// The answer to a query of several terms holds exactly the documents that
/// hold every term: those that the answer to each term lists.
pub proof fn law_answer_is_intersection(
    documents: Seq<(Seq<char>, u64)>,
    per_term: Seq<Seq<(Seq<char>, u64)>>,
    name: Seq<char>,
)
    requires
        per_term.len() > 0,
    ensures
        ranked_documents(documents, per_term).contains(name) <==> in_all(
            term_results(documents, per_term),
            name,
        ),
{
    let results = term_results(documents, per_term);
    let candidates = common(results[0], results);
    let keys = candidate_keys(results, candidates);
    let order = ranking(keys);
    let answer = ranked_documents(documents, per_term);
    lemma_common(results[0], results);
    lemma_ranking_is_permutation(keys, keys.len());
    if answer.contains(name) {
        let i = choose|i: int| 0 <= i < answer.len() && answer[i] == name;
        assert(candidates[order[i]] == name);
        assert(candidates.contains(name));
    }
    if in_all(results, name) {
        assert(position_of(results[0], name) is Some);
        assert(candidates.contains(name));
        let c = choose|c: int| 0 <= c < candidates.len() && candidates[c] == name;
        assert(order.contains(c));
        let i = choose|i: int| 0 <= i < order.len() && order[i] == c;
        assert(answer[i] == name);
    }
}

/// Terms that no document holds together have an empty answer.
pub proof fn law_empty_intersection(
    documents: Seq<(Seq<char>, u64)>,
    per_term: Seq<Seq<(Seq<char>, u64)>>,
)
    requires
        forall|name: Seq<char>| !in_all(term_results(documents, per_term), name),
    ensures
        ranked_documents(documents, per_term) == Seq::<Seq<char>>::empty(),
{
    if per_term.len() > 0 {
        let answer = ranked_documents(documents, per_term);
        if answer.len() > 0 {
            law_answer_is_intersection(documents, per_term, answer[0]);
            assert(answer.contains(answer[0]));
        }
        assert(answer =~= Seq::<Seq<char>>::empty());
    }
}

/// A query of one term is answered by the documents of the answer to that
/// term, in the same order.
pub proof fn law_one_term(documents: Seq<(Seq<char>, u64)>, rows: Seq<(Seq<char>, u64)>)
    ensures
        ranked_documents(documents, seq![rows]) == names_of(ranked_scores(documents, rows)),
{
    let per_term = seq![rows];
    let first = ranked_scores(documents, rows);
    let results = term_results(documents, per_term);
    assert(results =~= seq![first]);
    law_answer_is_sorted(documents, rows);
    assert forall|k: int| 0 <= k < first.len() implies in_all(results, (#[trigger] first[k]).0) by {
        lemma_position_of_own_name(first, k);
    }
    lemma_common_of_listed(first, results, first.len());
    assert(first.take(first.len() as int) =~= first);
    let candidates = common(first, results);
    assert(candidates =~= names_of(first));
    let keys = candidate_keys(results, candidates);
    assert forall|c: int| 0 <= c < keys.len() implies #[trigger] keys[c] == seq![first[c].1] by {
        lemma_position_of_own_name(first, c);
        assert(factors(results, candidates[c]) =~= seq![factor(first, first[c].0)]);
    }
    assert forall|a: int, b: int| 0 <= a < b < keys.len() implies !outranks(
        #[trigger] keys[b],
        #[trigger] keys[a],
    ) by {
        assert(!outranks(seq![first[b].1], seq![first[a].1]));
    }
    lemma_ranking_of_sorted(keys, keys.len());
    assert(picked(candidates, identity(keys.len())) =~= candidates);
}

/// Where every document of the first `n` entries is listed by every answer,
/// all of them are candidates.
pub proof fn lemma_common_of_listed(
    first: Seq<(Seq<char>, Score)>,
    results: Seq<Seq<(Seq<char>, Score)>>,
    n: nat,
)
    requires
        n <= first.len(),
        forall|k: int| 0 <= k < first.len() ==> in_all(results, (#[trigger] first[k]).0),
    ensures
        common(first.take(n as int), results) == names_of(first.take(n as int)),
    decreases n,
{
    let head = first.take(n as int);
    if n == 0 {
        assert(common(head, results) =~= names_of(head));
    } else {
        lemma_common_of_listed(first, results, (n - 1) as nat);
        assert(head.drop_last() =~= first.take(n - 1));
        assert(head.last() == first[n - 1]);
        assert(in_all(results, first[n - 1].0));
        assert(names_of(head) =~= names_of(first.take(n - 1)).push(first[n - 1].0));
    }
}

/// Where an entry is found depends on the names alone.
pub proof fn lemma_position_by_names<T>(
    a: Seq<(Seq<char>, T)>,
    b: Seq<(Seq<char>, T)>,
    name: Seq<char>,
)
    requires
        a.len() == b.len(),
        forall|i: int| 0 <= i < a.len() ==> (#[trigger] a[i]).0 == b[i].0,
    ensures
        position_of(a, name) == position_of(b, name),
    decreases a.len(),
{
    if a.len() > 0 {
        assert(a.last().0 == b.last().0) by {
            assert(a[a.len() - 1].0 == b[a.len() - 1].0);
        }
        if a.last().0 != name {
            assert forall|i: int| 0 <= i < a.drop_last().len() implies (#[trigger] a.drop_last()[i]).0
                == b.drop_last()[i].0 by {
                assert(a[i].0 == b[i].0);
            }
            lemma_position_by_names(a.drop_last(), b.drop_last(), name);
        }
    }
}

/// After a write the entries hold what was written, under its name.
pub proof fn lemma_upserted_holds<T>(entries: Seq<(Seq<char>, T)>, name: Seq<char>, value: T)
    ensures
        position_of(upserted(entries, name, value), name) is Some,
        upserted(entries, name, value)[position_of(upserted(entries, name, value), name)->0] == (
            name,
            value,
        ),
{
    let after = upserted(entries, name, value);
    lemma_position_of(entries, name);
    match position_of(entries, name) {
        Some(i) => {
            lemma_position_by_names(entries, after, name);
        },
        None => {},
    }
}

/// A write under one name leaves what is held under another name.
pub proof fn lemma_upserted_other<T>(
    entries: Seq<(Seq<char>, T)>,
    name: Seq<char>,
    value: T,
    other: Seq<char>,
)
    requires
        other != name,
    ensures
        position_of(upserted(entries, name, value), other) == position_of(entries, other),
        value_of(upserted(entries, name, value), other) == value_of(entries, other),
{
    let after = upserted(entries, name, value);
    lemma_position_of(entries, name);
    lemma_position_of(entries, other);
    match position_of(entries, name) {
        Some(i) => {
            lemma_position_by_names(entries, after, other);
        },
        None => {
            assert(after.drop_last() =~= entries);
        },
    }
}

/// Writing what is held already changes nothing.
pub proof fn lemma_upserted_again<T>(entries: Seq<(Seq<char>, T)>, name: Seq<char>, value: T)
    requires
        position_of(entries, name) is Some,
        entries[position_of(entries, name)->0] == (name, value),
    ensures
        upserted(entries, name, value) == entries,
{
    lemma_position_of(entries, name);
    assert(upserted(entries, name, value) =~= entries);
}

/// After rows of distinct names were written, each of them is held.
pub proof fn lemma_upserted_all_holds<T>(
    entries: Seq<(Seq<char>, T)>,
    rows: Seq<(Seq<char>, T)>,
    j: int,
)
    requires
        distinct_names(rows),
        0 <= j < rows.len(),
    ensures
        position_of(upserted_all(entries, rows), rows[j].0) is Some,
        upserted_all(entries, rows)[position_of(upserted_all(entries, rows), rows[j].0)->0]
            == rows[j],
    decreases rows.len(),
{
    let prior = upserted_all(entries, rows.drop_last());
    let last = rows.last();
    if j == rows.len() - 1 {
        lemma_upserted_holds(prior, last.0, last.1);
    } else {
        assert(rows.drop_last()[j] == rows[j]);
        assert(rows[j].0 != rows[rows.len() - 1].0);
        lemma_upserted_all_holds(entries, rows.drop_last(), j);
        lemma_upserted_other(prior, last.0, last.1, rows[j].0);
        lemma_position_of(prior, rows[j].0);
        lemma_position_of(prior, last.0);
        let p = position_of(prior, rows[j].0)->0;
        match position_of(prior, last.0) {
            Some(i) => {
                assert(i != p);
            },
            None => {},
        }
    }
}

/// A write keeps every entry that was there in its place and under its
/// name, adds at most one entry at the end, and changes no entry but the last
/// one of the name that is written.
pub proof fn lemma_upserted_shape<T>(entries: Seq<(Seq<char>, T)>, name: Seq<char>, value: T)
    ensures
        upserted(entries, name, value).len() >= entries.len(),
        position_of(entries, name) is Some ==> upserted(entries, name, value).len()
            == entries.len(),
        forall|q: int|
            0 <= q < entries.len() ==> (#[trigger] upserted(entries, name, value)[q]).0
                == entries[q].0,
        forall|q: int|
            0 <= q < entries.len() && position_of(entries, entries[q].0) != Some(q)
                ==> #[trigger] upserted(entries, name, value)[q] == entries[q],
        forall|x: Seq<char>|
            position_of(entries, x) is Some ==> #[trigger] position_of(
                upserted(entries, name, value),
                x,
            ) == position_of(entries, x),
{
    let after = upserted(entries, name, value);
    lemma_position_of(entries, name);
    match position_of(entries, name) {
        Some(i) => {
            assert forall|x: Seq<char>| position_of(entries, x) is Some implies #[trigger] position_of(
                after,
                x,
            ) == position_of(entries, x) by {
                lemma_position_by_names(entries, after, x);
            }
        },
        None => {
            assert(after.drop_last() =~= entries);
            assert forall|x: Seq<char>| position_of(entries, x) is Some implies #[trigger] position_of(
                after,
                x,
            ) == position_of(entries, x) by {
                lemma_position_of(entries, x);
            }
        },
    }
}

/// Writes keep every entry that was there in its place and under its name,
/// and change no entry but the last one of a name. Where every name that is
/// written is there already, no entry is added.
pub proof fn lemma_upserted_all_shape<T>(entries: Seq<(Seq<char>, T)>, rows: Seq<(Seq<char>, T)>)
    ensures
        upserted_all(entries, rows).len() >= entries.len(),
        (forall|j: int| 0 <= j < rows.len() ==> position_of(entries, (#[trigger] rows[j]).0) is Some)
            ==> upserted_all(entries, rows).len() == entries.len(),
        forall|q: int|
            0 <= q < entries.len() ==> (#[trigger] upserted_all(entries, rows)[q]).0
                == entries[q].0,
        forall|q: int|
            0 <= q < entries.len() && position_of(entries, entries[q].0) != Some(q)
                ==> #[trigger] upserted_all(entries, rows)[q] == entries[q],
        forall|x: Seq<char>|
            position_of(entries, x) is Some ==> #[trigger] position_of(
                upserted_all(entries, rows),
                x,
            ) == position_of(entries, x),
    decreases rows.len(),
{
    if rows.len() > 0 {
        let prior = upserted_all(entries, rows.drop_last());
        let after = upserted_all(entries, rows);
        lemma_upserted_all_shape(entries, rows.drop_last());
        lemma_upserted_shape(prior, rows.last().0, rows.last().1);
        assert forall|q: int| 0 <= q < entries.len() implies (#[trigger] after[q]).0
            == entries[q].0 by {
            assert(prior[q].0 == entries[q].0);
        }
        assert forall|x: Seq<char>| position_of(entries, x) is Some implies #[trigger] position_of(
            after,
            x,
        ) == position_of(entries, x) by {
            assert(position_of(prior, x) == position_of(entries, x));
        }
        assert forall|q: int|
            0 <= q < entries.len() && position_of(entries, entries[q].0) != Some(
                q,
            ) implies #[trigger] after[q] == entries[q] by {
            lemma_position_of(entries, entries[q].0);
            assert(prior[q] == entries[q]);
            assert(position_of(prior, entries[q].0) == position_of(entries, entries[q].0));
        }
        if forall|j: int| 0 <= j < rows.len() ==> position_of(entries, (#[trigger] rows[j]).0) is Some {
            assert forall|j: int| 0 <= j < rows.drop_last().len() implies position_of(
                entries,
                (#[trigger] rows.drop_last()[j]).0,
            ) is Some by {
                assert(rows.drop_last()[j] == rows[j]);
            }
            assert(position_of(entries, rows[rows.len() - 1].0) is Some);
            assert(position_of(prior, rows.last().0) == position_of(entries, rows.last().0));
        }
    }
}

/// After rows were written, a name holds what its last row gave it; a name
/// of no row holds what it held before.
pub proof fn lemma_upserted_all_value<T>(
    entries: Seq<(Seq<char>, T)>,
    rows: Seq<(Seq<char>, T)>,
    name: Seq<char>,
)
    ensures
        value_of(upserted_all(entries, rows), name) == match value_of(rows, name) {
            Some(value) => Some(value),
            None => value_of(entries, name),
        },
    decreases rows.len(),
{
    if rows.len() > 0 {
        let prior = upserted_all(entries, rows.drop_last());
        let last = rows.last();
        lemma_upserted_all_value(entries, rows.drop_last(), name);
        if last.0 == name {
            lemma_upserted_holds(prior, last.0, last.1);
        } else {
            lemma_upserted_other(prior, last.0, last.1, name);
            lemma_position_of(rows.drop_last(), name);
            match position_of(rows.drop_last(), name) {
                Some(i) => {
                    assert(rows.drop_last()[i] == rows[i]);
                },
                None => {},
            }
        }
    }
}

/// Writing two lists of rows one after the other is writing the one list
/// that holds both.
pub proof fn lemma_upserted_all_concat<T>(
    entries: Seq<(Seq<char>, T)>,
    first: Seq<(Seq<char>, T)>,
    second: Seq<(Seq<char>, T)>,
)
    ensures
        upserted_all(entries, first + second) == upserted_all(
            upserted_all(entries, first),
            second,
        ),
    decreases second.len(),
{
    if second.len() == 0 {
        assert(first + second =~= first);
    } else {
        lemma_upserted_all_concat(entries, first, second.drop_last());
        assert((first + second).drop_last() =~= first + second.drop_last());
        assert((first + second).last() == second.last());
    }
}

/// Writing the same rows twice leaves what writing them once leaves,
/// whatever was held before and whatever the rows are.
pub proof fn law_upsert_is_idempotent<T>(entries: Seq<(Seq<char>, T)>, rows: Seq<(Seq<char>, T)>)
    ensures
        upserted_all(upserted_all(entries, rows), rows) == upserted_all(entries, rows),
{
    let once = upserted_all(entries, rows);
    let twice = upserted_all(once, rows);
    assert forall|j: int| 0 <= j < rows.len() implies position_of(once, (#[trigger] rows[j]).0)
        is Some by {
        lemma_upserted_all_value(entries, rows, rows[j].0);
        lemma_position_of(rows, rows[j].0);
    }
    lemma_upserted_all_shape(once, rows);
    assert(twice.len() == once.len());
    assert forall|q: int| 0 <= q < once.len() implies twice[q] == once[q] by {
        let name = once[q].0;
        assert(twice[q].0 == name);
        if position_of(once, name) == Some(q) {
            assert(position_of(twice, name) == Some(q));
            lemma_upserted_all_value(once, rows, name);
            lemma_upserted_all_value(entries, rows, name);
            assert(value_of(twice, name) == Some(twice[q].1));
            assert(value_of(once, name) == Some(once[q].1));
        } else {
            assert(twice[q] == once[q]);
        }
    }
    assert(twice =~= once);
}

/// A table that is written anew from rows of distinct names holds these
/// rows, in their order, and nothing else.
pub proof fn law_rebuilt_table<T>(rows: Seq<(Seq<char>, T)>)
    requires
        distinct_names(rows),
    ensures
        upserted_all(Seq::empty(), rows) == rows,
    decreases rows.len(),
{
    if rows.len() == 0 {
        assert(upserted_all(Seq::<(Seq<char>, T)>::empty(), rows) =~= rows);
    } else {
        let head = rows.drop_last();
        assert forall|i: int, j: int| 0 <= i < j < head.len() implies (#[trigger] head[i]).0 != (
        #[trigger] head[j]).0 by {
            assert(rows[i].0 != rows[j].0);
        }
        law_rebuilt_table(head);
        lemma_position_of(head, rows.last().0);
        match position_of(head, rows.last().0) {
            Some(i) => {
                assert(rows[i].0 != rows[rows.len() - 1].0);
            },
            None => {},
        }
        assert(head.push(rows.last()) =~= rows);
    }
}

/// The table of the corpus does not depend on what an earlier run left in
/// it: after the counts of a run were written, it holds these counts alone,
/// and writing them again changes nothing.
pub proof fn law_terms_are_rebuilt(store: Stored, totals: Seq<(Seq<char>, u64)>)
    requires
        valid_counts(totals),
    ensures
        rebuilt(store, totals).terms == totals,
        rebuilt(rebuilt(store, totals), totals) == rebuilt(store, totals),
{
    law_rebuilt_table(totals);
}

/// Indexing a document again leaves the store as indexing it once left it:
/// the same registry, the same tables with the same rows.
pub proof fn law_reindexing_is_idempotent(store: Stored, name: Seq<char>, df: Seq<(Seq<char>, u64)>)
    ensures
        written(written(store, name, df), name, df) == written(store, name, df),
{
    let once = written(store, name, df);
    let twice = written(once, name, df);
    let size = df.len() as u64;
    let rows = upserted_all(table_of(store.tables, name), df);
    lemma_upserted_holds(store.documents, name, size);
    lemma_upserted_again(once.documents, name, size);
    lemma_upserted_holds(store.tables, name, rows);
    assert(table_of(once.tables, name) == rows);
    law_upsert_is_idempotent(table_of(store.tables, name), df);
    lemma_upserted_again(once.tables, name, rows);
    assert(twice.documents == once.documents);
    assert(twice.tables == once.tables);
}

/// The rows that a run writes into the registry: for each document the name
/// of its table and the number of its terms.
pub open spec fn registry_rows(documents: Seq<(Seq<char>, Seq<(Seq<char>, u64)>)>) -> Seq<
    (Seq<char>, u64),
> {
    documents.map_values(|d: (Seq<char>, Seq<(Seq<char>, u64)>)| (d.0, d.1.len() as u64))
}

/// The rows that a run writes into the table of one name: the term counts
/// of the documents of that name, in their order.
pub open spec fn rows_for(documents: Seq<(Seq<char>, Seq<(Seq<char>, u64)>)>, name: Seq<char>) -> Seq<
    (Seq<char>, u64),
>
    decreases documents.len(),
{
    if documents.len() == 0 {
        Seq::empty()
    } else if documents.last().0 == name {
        rows_for(documents.drop_last(), name) + documents.last().1
    } else {
        rows_for(documents.drop_last(), name)
    }
}

/// Writing documents writes their rows into the registry, and leaves the
/// table of the corpus.
pub proof fn lemma_indexed_registry(store: Stored, documents: Seq<(Seq<char>, Seq<(Seq<char>, u64)>)>)
    ensures
        indexed(store, documents).documents == upserted_all(
            store.documents,
            registry_rows(documents),
        ),
        indexed(store, documents).terms == store.terms,
    decreases documents.len(),
{
    if documents.len() > 0 {
        lemma_indexed_registry(store, documents.drop_last());
        assert(registry_rows(documents).drop_last() =~= registry_rows(documents.drop_last()));
    }
}

/// Writing documents writes, into the table of each name, the term counts
/// of the documents of that name.
pub proof fn lemma_indexed_table(
    store: Stored,
    documents: Seq<(Seq<char>, Seq<(Seq<char>, u64)>)>,
    name: Seq<char>,
)
    ensures
        table_of(indexed(store, documents).tables, name) == upserted_all(
            table_of(store.tables, name),
            rows_for(documents, name),
        ),
    decreases documents.len(),
{
    if documents.len() > 0 {
        let prior = indexed(store, documents.drop_last());
        let last = documents.last();
        let rows = upserted_all(table_of(prior.tables, last.0), last.1);
        lemma_indexed_table(store, documents.drop_last(), name);
        if last.0 == name {
            lemma_upserted_holds(prior.tables, last.0, rows);
            lemma_upserted_all_concat(
                table_of(store.tables, name),
                rows_for(documents.drop_last(), name),
                last.1,
            );
        } else {
            lemma_upserted_other(prior.tables, last.0, rows, name);
        }
    }
}

/// Writing documents keeps every table that was there in its place and
/// under its name, and changes no table but the last one of a name. After it
/// every document has a table; where each had one before, no table is added.
pub proof fn lemma_indexed_shape(store: Stored, documents: Seq<(Seq<char>, Seq<(Seq<char>, u64)>)>)
    ensures
        indexed(store, documents).tables.len() >= store.tables.len(),
        (forall|j: int|
            0 <= j < documents.len() ==> position_of(store.tables, (#[trigger] documents[j]).0)
                is Some) ==> indexed(store, documents).tables.len() == store.tables.len(),
        forall|q: int|
            0 <= q < store.tables.len() ==> (#[trigger] indexed(store, documents).tables[q]).0
                == store.tables[q].0,
        forall|q: int|
            0 <= q < store.tables.len() && position_of(store.tables, store.tables[q].0) != Some(q)
                ==> #[trigger] indexed(store, documents).tables[q] == store.tables[q],
        forall|x: Seq<char>|
            position_of(store.tables, x) is Some ==> #[trigger] position_of(
                indexed(store, documents).tables,
                x,
            ) == position_of(store.tables, x),
        forall|j: int|
            0 <= j < documents.len() ==> position_of(
                indexed(store, documents).tables,
                (#[trigger] documents[j]).0,
            ) is Some,
    decreases documents.len(),
{
    if documents.len() > 0 {
        let before = store.tables;
        let prior = indexed(store, documents.drop_last()).tables;
        let after = indexed(store, documents).tables;
        let last = documents.last();
        let rows = upserted_all(table_of(prior, last.0), last.1);
        lemma_indexed_shape(store, documents.drop_last());
        lemma_upserted_shape(prior, last.0, rows);
        lemma_upserted_holds(prior, last.0, rows);
        assert(after == upserted(prior, last.0, rows));
        assert forall|q: int| 0 <= q < before.len() implies (#[trigger] after[q]).0
            == before[q].0 by {
            assert(prior[q].0 == before[q].0);
        }
        assert forall|x: Seq<char>| position_of(before, x) is Some implies #[trigger] position_of(
            after,
            x,
        ) == position_of(before, x) by {
            assert(position_of(prior, x) == position_of(before, x));
        }
        assert forall|q: int|
            0 <= q < before.len() && position_of(before, before[q].0) != Some(
                q,
            ) implies #[trigger] after[q] == before[q] by {
            lemma_position_of(before, before[q].0);
            assert(prior[q] == before[q]);
            assert(position_of(prior, before[q].0) == position_of(before, before[q].0));
        }
        assert forall|j: int| 0 <= j < documents.len() implies position_of(
            after,
            (#[trigger] documents[j]).0,
        ) is Some by {
            if j < documents.len() - 1 {
                assert(documents.drop_last()[j] == documents[j]);
                assert(position_of(prior, documents.drop_last()[j].0) is Some);
                assert(position_of(after, documents[j].0) == position_of(prior, documents[j].0));
            }
        }
        if forall|j: int|
            0 <= j < documents.len() ==> position_of(before, (#[trigger] documents[j]).0) is Some {
            assert forall|j: int| 0 <= j < documents.drop_last().len() implies position_of(
                before,
                (#[trigger] documents.drop_last()[j]).0,
            ) is Some by {
                assert(documents.drop_last()[j] == documents[j]);
            }
            assert(position_of(before, documents[documents.len() - 1].0) is Some);
            assert(position_of(prior, last.0) == position_of(before, last.0));
        }
    }
}

/// What writing documents leaves in the registry and in the tables depends
/// on the registry and the tables alone.
pub proof fn lemma_indexed_depends(
    one: Stored,
    other: Stored,
    documents: Seq<(Seq<char>, Seq<(Seq<char>, u64)>)>,
)
    requires
        one.documents == other.documents,
        one.tables == other.tables,
    ensures
        indexed(one, documents).documents == indexed(other, documents).documents,
        indexed(one, documents).tables == indexed(other, documents).tables,
    decreases documents.len(),
{
    if documents.len() > 0 {
        lemma_indexed_depends(one, other, documents.drop_last());
    }
}

/// Writing the same documents again leaves the registry and every table as
/// writing them once left them, also where two documents share a table.
pub proof fn law_indexing_again_changes_nothing(
    store: Stored,
    documents: Seq<(Seq<char>, Seq<(Seq<char>, u64)>)>,
)
    ensures
        indexed(indexed(store, documents), documents) == indexed(store, documents),
{
    let once = indexed(store, documents);
    let twice = indexed(once, documents);
    lemma_indexed_registry(store, documents);
    lemma_indexed_registry(once, documents);
    law_upsert_is_idempotent(store.documents, registry_rows(documents));
    assert(twice.documents == once.documents);
    lemma_indexed_shape(store, documents);
    lemma_indexed_shape(once, documents);
    assert(twice.tables.len() == once.tables.len());
    assert forall|q: int| 0 <= q < once.tables.len() implies twice.tables[q] == once.tables[q] by {
        let name = once.tables[q].0;
        assert(twice.tables[q].0 == name);
        if position_of(once.tables, name) == Some(q) {
            assert(position_of(twice.tables, name) == Some(q));
            lemma_indexed_table(once, documents, name);
            lemma_indexed_table(store, documents, name);
            law_upsert_is_idempotent(table_of(store.tables, name), rows_for(documents, name));
            assert(table_of(twice.tables, name) == twice.tables[q].1);
            assert(table_of(once.tables, name) == once.tables[q].1);
        } else {
            assert(twice.tables[q] == once.tables[q]);
        }
    }
    assert(twice.tables =~= once.tables);
}

/// A run over the same documents, made again, leaves the store as the first
/// run left it: the same registry, the same table for every document, the
/// same table of the corpus.
pub proof fn law_run_is_idempotent(store: Stored, documents: Seq<(Seq<char>, Seq<(Seq<char>, u64)>)>)
    ensures
        run(run(store, documents), documents) == run(store, documents),
{
    let once = run(store, documents);
    let written_once = indexed(store, documents);
    lemma_indexed_depends(once, written_once, documents);
    law_indexing_again_changes_nothing(store, documents);
    lemma_indexed_registry(once, documents);
}

/// After a run the table of the corpus holds the counts of the run alone,
/// whatever it held before.
pub proof fn law_run_rebuilds_terms(
    store: Stored,
    other: Stored,
    documents: Seq<(Seq<char>, Seq<(Seq<char>, u64)>)>,
)
    ensures
        run(store, documents).terms == run(other, documents).terms,
        run(store, documents).terms == upserted_all(Seq::empty(), corpus(documents)),
{
}

/// After a document was written, its table holds each of its terms with the
/// document's own count, and the registry holds the number of its terms.
pub proof fn law_written_is_held(
    store: Stored,
    name: Seq<char>,
    df: Seq<(Seq<char>, u64)>,
    j: int,
)
    requires
        valid_counts(df),
        0 <= j < df.len(),
    ensures
        value_of(written(store, name, df).documents, name) == Some(df.len() as u64),
        value_of(table_of(written(store, name, df).tables, name), df[j].0) == Some(df[j].1),
{
    let rows = upserted_all(table_of(store.tables, name), df);
    lemma_upserted_holds(store.documents, name, df.len() as u64);
    lemma_upserted_holds(store.tables, name, rows);
    lemma_upserted_all_holds(table_of(store.tables, name), df, j);
}

/// A term is its own term: a word that was indexed under a term is found
/// again by a query for that term.
pub proof fn law_term_is_kept(word: Seq<char>)
    ensures
        match term_of(word) {
            Some(term) => is_term(term) && term_of(term) == Some(term),
            None => true,
        },
        is_term(word) ==> term_of(word) == Some(word),
{
    lemma_letters_of(word);
    if is_term(word) {
        lemma_letters_of_letters(word);
    }
    match term_of(word) {
        Some(term) => {
            lemma_letters_of_letters(term);
        },
        None => {},
    }
}

/// How often a term occurs in a list of terms.
pub open spec fn count_in(terms: Seq<Seq<char>>, term: Seq<char>) -> nat
    decreases terms.len(),
{
    if terms.len() == 0 {
        0
    } else if terms.last() == term {
        count_in(terms.drop_last(), term) + 1
    } else {
        count_in(terms.drop_last(), term)
    }
}

/// The count that a table holds for a term; zero where it holds none.
pub open spec fn amount(entries: Seq<(Seq<char>, u64)>, term: Seq<char>) -> nat {
    match value_of(entries, term) {
        Some(count) => count as nat,
        None => 0,
    }
}

/// No term occurs more often than the list is long, and one that occurs is
/// in the list.
pub proof fn lemma_count_in(terms: Seq<Seq<char>>, term: Seq<char>)
    ensures
        count_in(terms, term) <= terms.len(),
        count_in(terms, term) > 0 <==> terms.contains(term),
    decreases terms.len(),
{
    if terms.len() > 0 {
        lemma_count_in(terms.drop_last(), term);
        if terms.drop_last().contains(term) {
            let i = choose|i: int| 0 <= i < terms.drop_last().len() && terms.drop_last()[i] == term;
            assert(terms[i] == term);
        }
        if terms.contains(term) && terms.last() != term {
            let i = choose|i: int| 0 <= i < terms.len() && terms[i] == term;
            assert(terms.drop_last()[i] == term);
        }
        if terms.last() == term {
            assert(terms[terms.len() - 1] == term);
        }
    }
}

/// Adding occurrences of a term is a write of its new count under its name.
pub proof fn lemma_added_is_upserted(entries: Seq<(Seq<char>, u64)>, term: Seq<char>, count: u64)
    ensures
        added(entries, term, count) == upserted(
            entries,
            term,
            match position_of(entries, term) {
                Some(i) => (entries[i].1 + count) as u64,
                None => count,
            },
        ),
{
}

/// The table of a list of terms holds each term of the list once, with the
/// number of its occurrences, and nothing else.
pub proof fn lemma_tally(terms: Seq<Seq<char>>, term: Seq<char>)
    requires
        terms.len() <= u64::MAX,
    ensures
        distinct_names(tally(terms)),
        amount(tally(terms), term) == count_in(terms, term),
        value_of(tally(terms), term) is Some <==> terms.contains(term),
    decreases terms.len(),
{
    lemma_count_in(terms, term);
    if terms.len() > 0 {
        let prior = tally(terms.drop_last());
        let last = terms.last();
        lemma_tally(terms.drop_last(), term);
        lemma_tally(terms.drop_last(), last);
        lemma_count_in(terms.drop_last(), last);
        lemma_count_in(terms.drop_last(), term);
        lemma_position_of(prior, last);
        lemma_added_is_upserted(prior, last, 1);
        let value: u64 = match position_of(prior, last) {
            Some(i) => (prior[i].1 + 1) as u64,
            None => 1,
        };
        lemma_upserted_holds(prior, last, value);
        if term != last {
            lemma_upserted_other(prior, last, value, term);
        }
        let after = tally(terms);
        assert forall|a: int, b: int| 0 <= a < b < after.len() implies (#[trigger] after[a]).0 != (
        #[trigger] after[b]).0 by {
            match position_of(prior, last) {
                Some(i) => {
                    assert(prior[a].0 != prior[b].0);
                },
                None => {
                    if b < prior.len() {
                        assert(prior[a].0 != prior[b].0);
                    } else {
                        assert(prior[a].0 != last);
                    }
                },
            }
        }
    }
}

/// The size of a document is the number of its distinct terms, however
/// often each of them occurs.
pub proof fn law_size_is_distinct_terms(terms: Seq<Seq<char>>)
    requires
        terms.len() <= u64::MAX,
    ensures
        tally(terms).len() == terms.to_set().len(),
        tally(terms).len() <= terms.len(),
{
    let table = tally(terms);
    let names = names_of(table);
    assert forall|name: Seq<char>| names.to_set().contains(name) <==> terms.to_set().contains(
        name,
    ) by {
        lemma_tally(terms, name);
        lemma_position_of(table, name);
        if names.contains(name) {
            let i = choose|i: int| 0 <= i < names.len() && names[i] == name;
            assert(table[i].0 == name);
        }
        if terms.contains(name) {
            let p = position_of(table, name)->0;
            assert(names[p] == name);
        }
    }
    assert(names.to_set() =~= terms.to_set());
    if terms.len() > 0 {
        lemma_tally(terms, terms[0]);
    } else {
        assert(distinct_names(table));
    }
    assert(names.no_duplicates()) by {
        assert forall|i: int, j: int|
            0 <= i < names.len() && 0 <= j < names.len() && i != j implies names[i] != names[j] by {
            if i < j {
                assert(table[i].0 != table[j].0);
            } else {
                assert(table[j].0 != table[i].0);
            }
        }
    }
    names.unique_seq_to_set();
    terms.lemma_cardinality_of_set();
}

/// No count of a table exceeds the sum of its counts.
pub proof fn lemma_amount_bound(entries: Seq<(Seq<char>, u64)>, term: Seq<char>)
    ensures
        amount(entries, term) <= sum(entries),
{
    lemma_position_of(entries, term);
    match position_of(entries, term) {
        Some(i) => {
            lemma_sum_update(entries, i, entries[i]);
        },
        None => {},
    }
}

/// Adding occurrences of a term raises its count and the sum by as much, and
/// leaves the count of every other term.
pub proof fn lemma_added_amount(
    entries: Seq<(Seq<char>, u64)>,
    term: Seq<char>,
    count: u64,
    other: Seq<char>,
)
    requires
        sum(entries) + count <= u64::MAX,
    ensures
        amount(added(entries, term, count), other) == amount(entries, other) + (if other == term {
            count as nat
        } else {
            0
        }),
        sum(added(entries, term, count)) == sum(entries) + count,
{
    lemma_amount_bound(entries, term);
    lemma_position_of(entries, term);
    lemma_added_is_upserted(entries, term, count);
    let value: u64 = match position_of(entries, term) {
        Some(i) => (entries[i].1 + count) as u64,
        None => count,
    };
    lemma_upserted_holds(entries, term, value);
    if other != term {
        lemma_upserted_other(entries, term, value, other);
    }
    match position_of(entries, term) {
        Some(i) => {
            lemma_sum_update(entries, i, (term, value));
        },
        None => {
            assert(entries.push((term, count)).drop_last() =~= entries);
        },
    }
}

/// Merging a table into another adds, for each term, its counts in the two,
/// as long as the sum of all counts fits.
pub proof fn lemma_merged_amount(
    base: Seq<(Seq<char>, u64)>,
    extra: Seq<(Seq<char>, u64)>,
    term: Seq<char>,
)
    requires
        distinct_names(extra),
        sum(base) + sum(extra) <= u64::MAX,
    ensures
        amount(merged(base, extra), term) == amount(base, term) + amount(extra, term),
        sum(merged(base, extra)) == sum(base) + sum(extra),
    decreases extra.len(),
{
    if extra.len() > 0 {
        let rest = extra.drop_last();
        let last = extra.last();
        assert forall|i: int, j: int| 0 <= i < j < rest.len() implies (#[trigger] rest[i]).0 != (
        #[trigger] rest[j]).0 by {
            assert(extra[i].0 != extra[j].0);
        }
        lemma_merged_amount(base, rest, term);
        lemma_added_amount(merged(base, rest), last.0, last.1, term);
        lemma_position_of(rest, term);
        if term == last.0 {
            match position_of(rest, term) {
                Some(i) => {
                    assert(extra[i].0 != extra[extra.len() - 1].0);
                },
                None => {},
            }
        }
    }
}

/// The counts of the corpus do not depend on the order in which documents
/// are merged into them.
pub proof fn law_merge_commutes(
    base: Seq<(Seq<char>, u64)>,
    a: Seq<(Seq<char>, u64)>,
    b: Seq<(Seq<char>, u64)>,
    term: Seq<char>,
)
    requires
        distinct_names(a),
        distinct_names(b),
        sum(base) + sum(a) + sum(b) <= u64::MAX,
    ensures
        amount(merged(merged(base, a), b), term) == amount(merged(merged(base, b), a), term),
        amount(merged(merged(base, a), b), term) == amount(base, term) + amount(a, term) + amount(
            b,
            term,
        ),
{
    lemma_merged_amount(base, a, term);
    lemma_merged_amount(merged(base, a), b, term);
    lemma_merged_amount(base, b, term);
    lemma_merged_amount(merged(base, b), a, term);
}

/// No word is empty, and no word holds white space.
pub proof fn law_words(text: Seq<char>)
    ensures
        forall|i: int|
            0 <= i < words(text).len() ==> {
                let word = #[trigger] words(text)[i];
                word.len() > 0 && forall|j: int| 0 <= j < word.len() ==> !white_space(word[j])
            },
        text.len() > 0 && !white_space(text.last()) ==> words(text).len() > 0,
    decreases text.len(),
{
    if text.len() > 0 {
        let head = text.drop_last();
        law_words(head);
        if !white_space(text.last()) && !(text.len() == 1 || white_space(text[text.len() - 2])) {
            assert(head.last() == text[text.len() - 2]);
            let before = words(head);
            let grown = before.last().push(text.last());
            assert forall|i: int| 0 <= i < words(text).len() implies {
                let word = #[trigger] words(text)[i];
                word.len() > 0 && forall|j: int| 0 <= j < word.len() ==> !white_space(word[j])
            } by {
                if i < before.len() - 1 {
                    assert(words(text)[i] == before[i]);
                } else {
                    assert(words(text)[i] == grown);
                    assert forall|j: int| 0 <= j < grown.len() implies !white_space(grown[j]) by {
                        if j < before.last().len() {
                            assert(grown[j] == before[before.len() - 1][j]);
                        }
                    }
                }
            }
        }
    }
}

/// Replacing a character leaves none of it: what the result holds is either
/// another character of the text or a character of the replacement.
pub proof fn lemma_replaced_char(text: Seq<char>, c: char, with: Seq<char>, i: int)
    requires
        0 <= i < replaced(text, seq![c], with).len(),
    ensures
        ({
            let x = replaced(text, seq![c], with)[i];
            (x != c && text.contains(x)) || with.contains(x)
        }),
    decreases text.len(),
{
    let pattern = seq![c];
    let x = replaced(text, pattern, with)[i];
    if text.len() >= 1 {
        if text.take(1) == pattern {
            let rest = replaced(text.skip(1), pattern, with);
            if i < with.len() {
                assert(with[i] == x);
            } else {
                lemma_replaced_char(text.skip(1), c, with, i - with.len());
                if x != c && text.skip(1).contains(x) {
                    let j = choose|j: int| 0 <= j < text.skip(1).len() && text.skip(1)[j] == x;
                    assert(text[j + 1] == x);
                }
            }
        } else {
            assert(text.take(1) =~= seq![text[0]]);
            if i == 0 {
                assert(text[0] == x);
            } else {
                lemma_replaced_char(text.skip(1), c, with, i - 1);
                if x != c && text.skip(1).contains(x) {
                    let j = choose|j: int| 0 <= j < text.skip(1).len() && text.skip(1)[j] == x;
                    assert(text[j + 1] == x);
                }
            }
        }
    }
}

/// The name of a table holds neither `/` nor `.`, whatever the path.
pub proof fn law_table_name_has_no_separators(path: Seq<char>, i: int)
    requires
        0 <= i < table_name_of(path).len(),
    ensures
        table_name_of(path)[i] != '/',
        table_name_of(path)[i] != '.',
{
    reveal_strlit("/");
    reveal_strlit("_IN_");
    reveal_strlit(".");
    reveal_strlit("_DOT_");
    assert("/"@ =~= seq!['/']);
    assert("."@ =~= seq!['.']);
    let inner = replaced(path, seq!['/'], "_IN_"@);
    let x = table_name_of(path)[i];
    lemma_replaced_char(inner, '.', "_DOT_"@, i);
    if x == '/' {
        assert(!"_DOT_"@.contains(x)) by {
            if "_DOT_"@.contains(x) {
                let j = choose|j: int| 0 <= j < "_DOT_"@.len() && "_DOT_"@[j] == x;
                assert("_DOT_"@[j] != '/');
            }
        }
        assert(inner.contains(x));
        let k = choose|k: int| 0 <= k < inner.len() && inner[k] == x;
        lemma_replaced_char(path, '/', "_IN_"@, k);
        assert(!"_IN_"@.contains(x)) by {
            if "_IN_"@.contains(x) {
                let j = choose|j: int| 0 <= j < "_IN_"@.len() && "_IN_"@[j] == x;
                assert("_IN_"@[j] != '/');
            }
        }
    }
    if x == '.' {
        assert(!"_DOT_"@.contains(x)) by {
            if "_DOT_"@.contains(x) {
                let j = choose|j: int| 0 <= j < "_DOT_"@.len() && "_DOT_"@[j] == x;
                assert("_DOT_"@[j] != '.');
            }
        }
    }
}

} // verus!
