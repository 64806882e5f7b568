//! TF-IDF scores, kept exact.
//!
//! A score is the real number `frequency / size * ln(matching / total)`. It is
//! held as the four counts it is made of, so that scores and products of
//! scores are compared without rounding.

use crate::bignat::BigNat;
use vstd::prelude::*;

verus! {

/// The score of one document for one term: the value
/// `frequency / size * ln(matching / total)`.
#[derive(Clone, Copy, Debug, PartialEq, Eq, Structural)]
pub struct Score {
    /// How often the term occurs in the document.
    pub frequency: u64,
    /// The number of distinct terms of the document.
    pub size: u64,
    /// The number of documents that hold the term.
    pub matching: u64,
    /// The number of documents in the registry.
    pub total: u64,
}

impl Score {
    /// A score has a value only if the document holds a term and the term is
    /// held by a document: no count of a quotient's lower part is zero, and
    /// the logarithm's argument is positive.
    pub open spec fn well_formed(self) -> bool {
        &&& self.size >= 1
        &&& self.matching >= 1
        &&& self.total >= 1
    }

    /// The sign of `ln(matching / total)`: negative while some document lacks
    /// the term, zero when every document holds it.
    pub open spec fn idf_sign(self) -> int {
        if self.matching < self.total {
            -1
        } else if self.matching == self.total {
            0
        } else {
            1
        }
    }
}

/// The sign of the product of the logarithms of the factors.
pub open spec fn sign_of(factors: Seq<Score>) -> int
    decreases factors.len(),
{
    if factors.len() == 0 {
        1
    } else {
        let rest = sign_of(factors.drop_last());
        let s = factors.last().idf_sign();
        if s == 0 {
            0
        } else if s > 0 {
            rest
        } else {
            -rest
        }
    }
}

/// The product of the frequencies of the factors.
pub open spec fn numerator(factors: Seq<Score>) -> nat
    decreases factors.len(),
{
    if factors.len() == 0 {
        1
    } else {
        numerator(factors.drop_last()) * (factors.last().frequency as nat)
    }
}

/// The product of the sizes of the factors.
pub open spec fn denominator(factors: Seq<Score>) -> nat
    decreases factors.len(),
{
    if factors.len() == 0 {
        1
    } else {
        denominator(factors.drop_last()) * (factors.last().size as nat)
    }
}

/// Whether the product of the scores in `a` is greater than the product of
/// the scores in `b`, where both are taken over the same terms, so that the
/// logarithms in them agree. With `tf(p) = numerator(p) / denominator(p)` the
/// two products are `tf(a) * L` and `tf(b) * L` for one real `L` whose sign
/// is `sign_of(a)`; the quotients are compared by cross-multiplication.
pub open spec fn outranks(a: Seq<Score>, b: Seq<Score>) -> bool {
    let left = numerator(a) * denominator(b);
    let right = numerator(b) * denominator(a);
    if sign_of(a) > 0 {
        left > right
    } else if sign_of(a) < 0 {
        left < right
    } else {
        false
    }
}

/// The product of positive sizes is positive.
pub proof fn lemma_denominator_positive(factors: Seq<Score>)
    requires
        forall|i: int| 0 <= i < factors.len() ==> (#[trigger] factors[i]).size >= 1,
    ensures
        denominator(factors) >= 1,
    decreases factors.len(),
{
    if factors.len() > 0 {
        lemma_denominator_positive(factors.drop_last());
        let d = denominator(factors.drop_last());
        let s = factors.last().size as nat;
        assert(d * s >= 1) by (nonlinear_arith)
            requires
                d >= 1,
                s >= 1,
        ;
    }
}

/// The sign of the product of the logarithms of the factors: -1, 0 or 1.
pub fn product_sign(factors: &Vec<Score>) -> (r: i8)
    ensures
        r as int == sign_of(factors@),
        -1 <= r <= 1,
{
    let mut sign: i8 = 1;
    let mut i: usize = 0;
    while i < factors.len()
        invariant
            i <= factors.len(),
            -1 <= sign <= 1,
            sign as int == sign_of(factors@.take(i as int)),
        decreases factors.len() - i,
    {
        proof {
            assert(factors@.take(i + 1).drop_last() =~= factors@.take(i as int));
        }
        let f = factors[i];
        if f.matching == f.total {
            sign = 0;
        } else if f.matching < f.total {
            sign = -sign;
        }
        i = i + 1;
    }
    proof {
        assert(factors@.take(factors.len() as int) =~= factors@);
    }
    sign
}

/// The product of the frequencies of `over` and the sizes of `under`.
pub fn cross_product(over: &Vec<Score>, under: &Vec<Score>) -> (r: BigNat)
    ensures
        r@ == numerator(over@) * denominator(under@),
{
    let mut acc = BigNat::one();
    let mut i: usize = 0;
    while i < over.len()
        invariant
            i <= over.len(),
            acc@ == numerator(over@.take(i as int)),
        decreases over.len() - i,
    {
        proof {
            assert(over@.take(i + 1).drop_last() =~= over@.take(i as int));
        }
        acc = acc.times(over[i].frequency);
        i = i + 1;
    }
    proof {
        assert(over@.take(over.len() as int) =~= over@);
        assert(denominator(under@.take(0)) == 1);
        assert(numerator(over@) * 1 == numerator(over@)) by (nonlinear_arith);
    }
    let mut j: usize = 0;
    while j < under.len()
        invariant
            j <= under.len(),
            acc@ == numerator(over@) * denominator(under@.take(j as int)),
        decreases under.len() - j,
    {
        proof {
            assert(under@.take(j + 1).drop_last() =~= under@.take(j as int));
            let n = numerator(over@);
            let d = denominator(under@.take(j as int));
            let s = under@[j as int].size as nat;
            assert((n * d) * s == n * (d * s)) by (nonlinear_arith);
        }
        acc = acc.times(under[j].size);
        j = j + 1;
    }
    proof {
        assert(under@.take(under.len() as int) =~= under@);
    }
    acc
}

/// Whether the product of the scores in `a` is greater than that of the
/// scores in `b`.
pub fn is_ahead(a: &Vec<Score>, b: &Vec<Score>) -> (r: bool)
    ensures
        r == outranks(a@, b@),
{
    let sign = product_sign(a);
    if sign == 0 {
        return false;
    }
    let left = cross_product(a, b);
    let right = cross_product(b, a);
    if sign > 0 {
        right.less_than(&left)
    } else {
        left.less_than(&right)
    }
}

} // verus!
