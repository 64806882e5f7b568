//! Ranking: the stable descending order of products of scores.

use crate::score::{denominator, is_ahead, numerator, outranks, sign_of, Score};
use vstd::prelude::*;

verus! {

/// The factors of each candidate, as sequences.
pub open spec fn key_views(keys: Seq<Vec<Score>>) -> Seq<Seq<Score>> {
    Seq::new(keys.len(), |i: int| keys[i]@)
}

/// The place at which candidate `k` enters an order: behind every candidate
/// but those at the end that it outranks.
pub open spec fn slot(keys: Seq<Seq<Score>>, order: Seq<int>, k: int) -> int
    decreases order.len(),
{
    if order.len() == 0 {
        0
    } else if outranks(keys[k], keys[order.last()]) {
        slot(keys, order.drop_last(), k)
    } else {
        order.len() as int
    }
}

/// The ranking of the first `n` candidates: their indices, greatest product
/// first, candidates of equal product in the order in which they were given.
pub open spec fn ranking_upto(keys: Seq<Seq<Score>>, n: nat) -> Seq<int>
    decreases n,
{
    if n == 0 {
        Seq::empty()
    } else {
        let prior = ranking_upto(keys, (n - 1) as nat);
        prior.insert(slot(keys, prior, n - 1), n - 1)
    }
}

/// The ranking of all candidates.
pub open spec fn ranking(keys: Seq<Seq<Score>>) -> Seq<int> {
    ranking_upto(keys, keys.len())
}

/// Candidate `a` stands before candidate `b`: its product is greater, or the
/// two are equal and `a` was given first.
pub open spec fn precedes(keys: Seq<Seq<Score>>, a: int, b: int) -> bool {
    outranks(keys[a], keys[b]) || (!outranks(keys[b], keys[a]) && a < b)
}

/// The candidates can be compared: the logarithms in their products have one
/// sign, and no size in them is zero.
pub open spec fn comparable(keys: Seq<Seq<Score>>) -> bool {
    &&& forall|i: int, j: int|
        0 <= i < keys.len() && 0 <= j < keys.len() ==> sign_of(#[trigger] keys[i]) == sign_of(
            #[trigger] keys[j],
        )
    &&& forall|i: int, j: int|
        0 <= i < keys.len() && 0 <= j < keys[i].len() ==> (#[trigger] keys[i][j]).size >= 1
}

/// The indices `0, 1, .., n - 1`.
pub open spec fn identity(n: nat) -> Seq<int> {
    Seq::new(n, |i: int| i)
}

/// Where a candidate enters: it outranks all that follow, and not the one
/// before.
pub proof fn lemma_slot(keys: Seq<Seq<Score>>, order: Seq<int>, k: int)
    ensures
        0 <= slot(keys, order, k) <= order.len(),
        forall|q: int|
            slot(keys, order, k) <= q < order.len() ==> outranks(keys[k], keys[#[trigger] order[q]]),
        slot(keys, order, k) > 0 ==> !outranks(keys[k], keys[order[slot(keys, order, k) - 1]]),
    decreases order.len(),
{
    if order.len() > 0 && outranks(keys[k], keys[order.last()]) {
        lemma_slot(keys, order.drop_last(), k);
        let p = slot(keys, order, k);
        assert forall|q: int| p <= q < order.len() implies outranks(
            keys[k],
            keys[#[trigger] order[q]],
        ) by {
            if q < order.len() - 1 {
                assert(order.drop_last()[q] == order[q]);
            }
        }
        if p > 0 {
            assert(order.drop_last()[p - 1] == order[p - 1]);
        }
    }
}

/// A ranking holds every index once.
pub proof fn lemma_ranking_is_permutation(keys: Seq<Seq<Score>>, n: nat)
    ensures
        ranking_upto(keys, n).len() == n,
        forall|i: int| 0 <= i < n ==> 0 <= #[trigger] ranking_upto(keys, n)[i] < n,
        forall|i: int, j: int|
            0 <= i < j < n ==> #[trigger] ranking_upto(keys, n)[i] != #[trigger] ranking_upto(
                keys,
                n,
            )[j],
        forall|v: int| 0 <= v < n ==> #[trigger] ranking_upto(keys, n).contains(v),
    decreases n,
{
    if n > 0 {
        let m = (n - 1) as nat;
        let prior = ranking_upto(keys, m);
        lemma_ranking_is_permutation(keys, m);
        lemma_slot(keys, prior, n - 1);
        let p = slot(keys, prior, n - 1);
        let r = ranking_upto(keys, n);
        assert(r == prior.insert(p, n - 1));
        prior.insert_ensures(p, n - 1);
        assert forall|i: int, j: int| 0 <= i < j < n implies #[trigger] r[i] != #[trigger] r[j] by {
            let a = if i < p { i } else { i - 1 };
            let b = if j < p { j } else { j - 1 };
            if i != p && j != p {
                assert(r[i] == prior[a]);
                assert(r[j] == prior[b]);
            } else if i == p {
                assert(r[j] == prior[b]);
            } else {
                assert(r[i] == prior[a]);
            }
        }
        assert forall|v: int| 0 <= v < n implies #[trigger] r.contains(v) by {
            if v == n - 1 {
                assert(r[p] == v);
            } else {
                assert(prior.contains(v));
                let i = choose|i: int| 0 <= i < prior.len() && prior[i] == v;
                let t = if i < p { i } else { i + 1 };
                assert(r[t] == v);
            }
        }
    }
}

/// If `x` is greater than `y` and `z` is not, then `x` is greater than `z`,
/// whenever the three can be compared.
pub proof fn lemma_outranks_chain(x: Seq<Score>, y: Seq<Score>, z: Seq<Score>)
    requires
        sign_of(x) == sign_of(y),
        sign_of(y) == sign_of(z),
        denominator(x) >= 1,
        denominator(y) >= 1,
        denominator(z) >= 1,
        outranks(x, y),
        !outranks(z, y),
    ensures
        outranks(x, z),
{
    let nx = numerator(x) as int;
    let ny = numerator(y) as int;
    let nz = numerator(z) as int;
    let dx = denominator(x) as int;
    let dy = denominator(y) as int;
    let dz = denominator(z) as int;
    if sign_of(x) > 0 {
        assert(nx * dy > ny * dx);
        assert(ny * dz >= nz * dy);
        assert((nx * dz) * dy == (nx * dy) * dz) by (nonlinear_arith);
        assert((nx * dy) * dz > (ny * dx) * dz) by (nonlinear_arith)
            requires
                nx * dy > ny * dx,
                dz >= 1,
        ;
        assert((ny * dx) * dz == (ny * dz) * dx) by (nonlinear_arith);
        assert((ny * dz) * dx >= (nz * dy) * dx) by (nonlinear_arith)
            requires
                ny * dz >= nz * dy,
                dx >= 1,
        ;
        assert((nz * dy) * dx == (nz * dx) * dy) by (nonlinear_arith);
        assert(nx * dz > nz * dx) by (nonlinear_arith)
            requires
                (nx * dz) * dy > (nz * dx) * dy,
                dy >= 1,
        ;
    } else {
        assert(nx * dy < ny * dx);
        assert(ny * dz <= nz * dy);
        assert((nx * dz) * dy == (nx * dy) * dz) by (nonlinear_arith);
        assert((nx * dy) * dz < (ny * dx) * dz) by (nonlinear_arith)
            requires
                nx * dy < ny * dx,
                dz >= 1,
        ;
        assert((ny * dx) * dz == (ny * dz) * dx) by (nonlinear_arith);
        assert((ny * dz) * dx <= (nz * dy) * dx) by (nonlinear_arith)
            requires
                ny * dz <= nz * dy,
                dx >= 1,
        ;
        assert((nz * dy) * dx == (nz * dx) * dy) by (nonlinear_arith);
        assert(nx * dz < nz * dx) by (nonlinear_arith)
            requires
                (nx * dz) * dy < (nz * dx) * dy,
                dy >= 1,
        ;
    }
}

/// In a ranking of candidates that can be compared, each index stands
/// before all that follow it.
pub proof fn lemma_ranking_is_sorted(keys: Seq<Seq<Score>>, n: nat)
    requires
        comparable(keys),
        n <= keys.len(),
    ensures
        forall|i: int, j: int|
            0 <= i < j < n ==> precedes(
                keys,
                #[trigger] ranking_upto(keys, n)[i],
                #[trigger] ranking_upto(keys, n)[j],
            ),
    decreases n,
{
    if n > 0 {
        let m = (n - 1) as nat;
        let k = n - 1;
        let prior = ranking_upto(keys, m);
        lemma_ranking_is_sorted(keys, m);
        lemma_ranking_is_permutation(keys, m);
        lemma_slot(keys, prior, k);
        let p = slot(keys, prior, k);
        let r = ranking_upto(keys, n);
        assert(r == prior.insert(p, k));
        prior.insert_ensures(p, k);
        assert forall|q: int| 0 <= q < p implies !outranks(keys[k], keys[#[trigger] prior[q]]) by {
            if q < p - 1 {
                assert(precedes(keys, prior[q], prior[p - 1]));
                if outranks(keys[k], keys[prior[q]]) {
                    lemma_comparable_denominators(keys, k);
                    lemma_comparable_denominators(keys, prior[q]);
                    lemma_comparable_denominators(keys, prior[p - 1]);
                    lemma_outranks_chain(keys[k], keys[prior[q]], keys[prior[p - 1]]);
                }
            }
        }
        assert forall|i: int, j: int| 0 <= i < j < n implies precedes(
            keys,
            #[trigger] r[i],
            #[trigger] r[j],
        ) by {
            let a = if i < p { i } else { i - 1 };
            let b = if j < p { j } else { j - 1 };
            if i != p && j != p {
                assert(r[i] == prior[a]);
                assert(r[j] == prior[b]);
                assert(precedes(keys, prior[a], prior[b]));
            } else if i == p {
                assert(r[i] == k);
                assert(r[j] == prior[b]);
                assert(outranks(keys[k], keys[prior[b]]));
            } else {
                assert(r[j] == k);
                assert(r[i] == prior[a]);
                assert(!outranks(keys[k], keys[prior[a]]));
                assert(prior[a] < k);
            }
        }
    }
}

/// The product of the sizes of a candidate that can be compared is positive.
pub proof fn lemma_comparable_denominators(keys: Seq<Seq<Score>>, i: int)
    requires
        comparable(keys),
        0 <= i < keys.len(),
    ensures
        denominator(keys[i]) >= 1,
{
    assert forall|j: int| 0 <= j < keys[i].len() implies (#[trigger] keys[i][j]).size >= 1 by {}
    crate::score::lemma_denominator_positive(keys[i]);
}

/// Candidates that were given in descending order keep their places.
pub proof fn lemma_ranking_of_sorted(keys: Seq<Seq<Score>>, n: nat)
    requires
        n <= keys.len(),
        forall|a: int, b: int| 0 <= a < b < n ==> !outranks(#[trigger] keys[b], #[trigger] keys[a]),
    ensures
        ranking_upto(keys, n) == identity(n),
    decreases n,
{
    if n > 0 {
        let m = (n - 1) as nat;
        lemma_ranking_of_sorted(keys, m);
        let prior = ranking_upto(keys, m);
        if m > 0 {
            assert(prior.last() == m - 1);
            assert(!outranks(keys[n - 1], keys[m - 1]));
        }
        assert(slot(keys, prior, n - 1) == m);
        assert(prior.insert(m as int, n - 1) =~= identity(n));
    }
}

/// What a ranking of the first `n` candidates is: it holds each of their
/// indices once, and each index stands before all that follow it.
pub open spec fn is_ranking(keys: Seq<Seq<Score>>, n: nat, order: Seq<int>) -> bool {
    &&& order.len() == n
    &&& forall|i: int| 0 <= i < n ==> 0 <= #[trigger] order[i] < n
    &&& forall|v: int| 0 <= v < n ==> #[trigger] order.contains(v)
    &&& forall|i: int, j: int| 0 <= i < j < n ==> precedes(keys, #[trigger] order[i], #[trigger] order[j])
}

/// The ranking that `ranking_upto` builds is a ranking.
pub proof fn law_ranking_is_ranking(keys: Seq<Seq<Score>>, n: nat)
    requires
        comparable(keys),
        n <= keys.len(),
    ensures
        is_ranking(keys, n, ranking_upto(keys, n)),
{
    lemma_ranking_is_permutation(keys, n);
    lemma_ranking_is_sorted(keys, n);
}

/// There is one ranking only: candidates that can be compared have no
/// other order that meets `is_ranking`.
pub proof fn law_ranking_is_unique(keys: Seq<Seq<Score>>, n: nat, order: Seq<int>)
    requires
        comparable(keys),
        n <= keys.len(),
        is_ranking(keys, n, order),
    ensures
        order == ranking_upto(keys, n),
    decreases n,
{
    if n == 0 {
        assert(order =~= ranking_upto(keys, n));
    } else {
        let k = n - 1;
        let m = (n - 1) as nat;
        assert(order.contains(k));
        let at = choose|at: int| 0 <= at < order.len() && order[at] == k;
        let rest = order.remove(at);
        assert forall|i: int| 0 <= i < m implies 0 <= #[trigger] rest[i] < m by {
            let o = if i < at { i } else { i + 1 };
            assert(rest[i] == order[o]);
            if o < at {
                assert(precedes(keys, order[o], order[at]));
            } else {
                assert(precedes(keys, order[at], order[o]));
            }
        }
        assert forall|v: int| 0 <= v < m implies #[trigger] rest.contains(v) by {
            assert(order.contains(v));
            let o = choose|o: int| 0 <= o < order.len() && order[o] == v;
            let i = if o < at { o } else { o - 1 };
            assert(rest[i] == v);
        }
        assert forall|i: int, j: int| 0 <= i < j < m implies precedes(
            keys,
            #[trigger] rest[i],
            #[trigger] rest[j],
        ) by {
            let a = if i < at { i } else { i + 1 };
            let b = if j < at { j } else { j + 1 };
            assert(rest[i] == order[a]);
            assert(rest[j] == order[b]);
            assert(precedes(keys, order[a], order[b]));
        }
        law_ranking_is_unique(keys, m, rest);
        let prior = ranking_upto(keys, m);
        lemma_slot(keys, prior, k);
        let p = slot(keys, prior, k);
        if at < p {
            // The candidate before the slot follows `k` in `order`.
            assert(prior[p - 1] == order[p]);
            assert(precedes(keys, order[at], order[p]));
        } else if at > p {
            // The candidate before `k` in `order` stands at or behind the slot.
            assert(prior[at - 1] == order[at - 1]);
            assert(precedes(keys, order[at - 1], order[at]));
            assert(outranks(keys[k], keys[prior[at - 1]]));
            assert(sign_of(keys[k]) == sign_of(keys[prior[at - 1]]));
        }
        assert(at == p);
        assert(order =~= rest.insert(at, k));
    }
}

/// Whether the order holds the index sequence `indices`.
pub open spec fn holds(order: Seq<usize>, indices: Seq<int>) -> bool {
    &&& order.len() == indices.len()
    &&& forall|i: int| 0 <= i < order.len() ==> #[trigger] order[i] as int == indices[i]
}

/// Ranks the candidates: returns their indices, greatest product of scores
/// first, candidates of equal product in the order in which they were given.
pub fn rank(keys: &Vec<Vec<Score>>) -> (order: Vec<usize>)
    ensures
        holds(order@, ranking(key_views(keys@))),
        order@.len() == keys@.len(),
        forall|i: int| 0 <= i < order@.len() ==> #[trigger] order@[i] < keys@.len(),
        forall|i: int, j: int|
            0 <= i < j < order@.len() ==> #[trigger] order@[i] != #[trigger] order@[j],
        comparable(key_views(keys@)) ==> forall|i: int, j: int|
            0 <= i < j < order@.len() ==> precedes(
                key_views(keys@),
                #[trigger] order@[i] as int,
                #[trigger] order@[j] as int,
            ),
{
    let ghost views = key_views(keys@);
    let mut order: Vec<usize> = Vec::new();
    let mut k: usize = 0;
    while k < keys.len()
        invariant
            k <= keys.len(),
            views == key_views(keys@),
            holds(order@, ranking_upto(views, k as nat)),
        decreases keys.len() - k,
    {
        let ghost prior = ranking_upto(views, k as nat);
        proof {
            lemma_ranking_is_permutation(views, k as nat);
        }
        let mut p: usize = order.len();
        let mut searching = true;
        proof {
            assert(prior.take(p as int) =~= prior);
        }
        while searching && p > 0
            invariant
                p <= order.len(),
                k < keys.len(),
                views == key_views(keys@),
                prior == ranking_upto(views, k as nat),
                prior.len() == k,
                holds(order@, prior),
                forall|i: int| 0 <= i < k ==> 0 <= #[trigger] prior[i] < k,
                slot(views, prior, k as int) == slot(views, prior.take(p as int), k as int),
                !searching ==> p > 0 && !outranks(views[k as int], views[prior[p - 1]]),
            decreases p + (if searching { 1int } else { 0int }),
        {
            let candidate: usize = order[p - 1];
            proof {
                assert(order@[p - 1] as int == prior[p - 1]);
                assert(0 <= prior[p - 1] < k);
                assert(prior.take(p as int).drop_last() =~= prior.take(p - 1));
                assert(prior.take(p as int).last() == prior[p - 1]);
            }
            if is_ahead(&keys[k], &keys[candidate]) {
                p = p - 1;
            } else {
                searching = false;
            }
        }
        proof {
            if p > 0 {
                assert(prior.take(p as int).last() == prior[p - 1]);
            }
            assert(slot(views, prior, k as int) == p);
        }
        let ghost before = order@;
        order.insert(p, k);
        proof {
            let next = prior.insert(p as int, k as int);
            prior.insert_ensures(p as int, k as int);
            before.insert_ensures(p as int, k);
            assert forall|i: int| 0 <= i < order@.len() implies #[trigger] order@[i] as int
                == next[i] by {
                if i < p {
                    assert(order@[i] == before[i]);
                } else if i > p {
                    assert(order@[i] == before[i - 1]);
                }
            }
        }
        k = k + 1;
    }
    proof {
        let indices = ranking(views);
        lemma_ranking_is_permutation(views, views.len());
        assert forall|i: int| 0 <= i < order@.len() implies #[trigger] order@[i] < keys@.len() by {
            assert(order@[i] as int == indices[i]);
        }
        assert forall|i: int, j: int| 0 <= i < j < order@.len() implies #[trigger] order@[i]
            != #[trigger] order@[j] by {
            assert(order@[i] as int == indices[i]);
            assert(order@[j] as int == indices[j]);
            assert(indices[i] != indices[j]);
        }
        if comparable(views) {
            lemma_ranking_is_sorted(views, views.len());
            assert forall|i: int, j: int| 0 <= i < j < order@.len() implies precedes(
                views,
                #[trigger] order@[i] as int,
                #[trigger] order@[j] as int,
            ) by {
                assert(order@[i] as int == indices[i]);
                assert(order@[j] as int == indices[j]);
                assert(precedes(views, indices[i], indices[j]));
            }
        }
    }
    order
}

} // verus!
