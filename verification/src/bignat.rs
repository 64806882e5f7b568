//! Natural numbers of any size, as far as ranking needs them: a product of
//! machine words is built up one factor at a time and two products are
//! compared exactly.

use vstd::prelude::*;

verus! {

/// The weight of limb `n`: the radix `2^32` to the power `n`.
pub open spec fn weight(n: nat) -> nat
    decreases n,
{
    if n == 0 {
        1
    } else {
        0x1_0000_0000 * weight((n - 1) as nat)
    }
}

/// Limb `j` of a little-endian limb sequence; zero beyond its end.
pub open spec fn limb(limbs: Seq<u32>, j: nat) -> nat {
    if j < limbs.len() {
        limbs[j as int] as nat
    } else {
        0
    }
}

/// The number that the lowest `n` limbs stand for.
pub open spec fn low_value(limbs: Seq<u32>, n: nat) -> nat
    decreases n,
{
    if n == 0 {
        0
    } else {
        low_value(limbs, (n - 1) as nat) + limb(limbs, (n - 1) as nat) * weight((n - 1) as nat)
    }
}

/// The lowest `n` limbs stand for a number below `weight(n)`.
pub proof fn lemma_low_value_bound(limbs: Seq<u32>, n: nat)
    ensures
        low_value(limbs, n) < weight(n),
    decreases n,
{
    if n > 0 {
        let m = (n - 1) as nat;
        lemma_low_value_bound(limbs, m);
        let l = limb(limbs, m);
        let w = weight(m);
        assert(l <= 0xffff_ffff);
        assert(low_value(limbs, m) + l * w < 0x1_0000_0000 * w) by (nonlinear_arith)
            requires
                low_value(limbs, m) < w,
                l <= 0xffff_ffff,
        ;
    }
}

/// `low_value` reads only the limbs below `n`.
pub proof fn lemma_low_value_agrees(a: Seq<u32>, b: Seq<u32>, n: nat)
    requires
        forall|j: nat| j < n ==> limb(a, j) == limb(b, j),
    ensures
        low_value(a, n) == low_value(b, n),
    decreases n,
{
    if n > 0 {
        lemma_low_value_agrees(a, b, (n - 1) as nat);
        assert(limb(a, (n - 1) as nat) == limb(b, (n - 1) as nat));
    }
}

/// Limbs beyond the end add nothing.
pub proof fn lemma_low_value_saturates(limbs: Seq<u32>, n: nat)
    requires
        n >= limbs.len(),
    ensures
        low_value(limbs, n) == low_value(limbs, limbs.len()),
    decreases n,
{
    if n > limbs.len() {
        lemma_low_value_saturates(limbs, (n - 1) as nat);
        assert(limb(limbs, (n - 1) as nat) == 0);
    }
}

/// A natural number held as 32-bit limbs, lowest first.
pub struct BigNat {
    limbs: Vec<u32>,
}

impl View for BigNat {
    type V = nat;

    closed spec fn view(&self) -> nat {
        low_value(self.limbs@, self.limbs@.len())
    }
}

impl BigNat {
    /// The number one.
    pub fn one() -> (r: BigNat)
        ensures
            r@ == 1,
    {
        let mut limbs: Vec<u32> = Vec::new();
        limbs.push(1u32);
        proof {
            assert(limb(limbs@, 0) == 1);
            assert(weight(0) == 1);
            assert(low_value(limbs@, 0) == 0);
            assert(low_value(limbs@, 1) == low_value(limbs@, 0) + limb(limbs@, 0) * weight(0));
        }
        BigNat { limbs }
    }

    /// The product of this number and a machine word.
    pub fn times(&self, x: u64) -> (r: BigNat)
        ensures
            r@ == self@ * (x as nat),
    {
        let n: usize = self.limbs.len();
        let mut out: Vec<u32> = Vec::new();
        let mut carry: u64 = 0;
        let mut i: usize = 0;
        assert(low_value(out@, 0) == 0 && low_value(self.limbs@, 0) == 0);
        assert(0 * weight(0) == 0 && 0 * (x as nat) == 0) by (nonlinear_arith);
        while i < n
            invariant
                n == self.limbs@.len(),
                i <= n,
                out@.len() == i,
                low_value(out@, i as nat) + (carry as nat) * weight(i as nat) == low_value(
                    self.limbs@,
                    i as nat,
                ) * (x as nat),
            decreases n - i,
        {
            let a: u32 = self.limbs[i];
            assert((a as u128) * (x as u128) + (carry as u128) < 0x1_0000_0000_0000_0000_0000_0000)
                by (nonlinear_arith)
                requires
                    (a as u128) <= 0xffff_ffff,
                    (x as u128) <= 0xffff_ffff_ffff_ffff,
                    (carry as u128) <= 0xffff_ffff_ffff_ffff,
            ;
            let t: u128 = (a as u128) * (x as u128) + (carry as u128);
            let lo: u32 = (t % 0x1_0000_0000) as u32;
            let hi: u64 = (t / 0x1_0000_0000) as u64;
            let ghost before = out@;
            out.push(lo);
            proof {
                let w = weight(i as nat);
                let old_low = low_value(before, i as nat);
                let src_low = low_value(self.limbs@, i as nat);
                lemma_low_value_agrees(before, out@, i as nat);
                assert(limb(out@, i as nat) == lo as nat);
                assert(limb(self.limbs@, i as nat) == a as nat);
                assert(weight((i + 1) as nat) == 0x1_0000_0000 * w);
                assert(t as nat == (lo as nat) + 0x1_0000_0000 * (hi as nat));
                assert(old_low + (lo as nat) * w + (hi as nat) * (0x1_0000_0000 * w) == (src_low + (
                a as nat) * w) * (x as nat)) by (nonlinear_arith)
                    requires
                        old_low + (carry as nat) * w == src_low * (x as nat),
                        (a as nat) * (x as nat) + (carry as nat) == (lo as nat) + 0x1_0000_0000 * (
                        hi as nat),
                ;
            }
            carry = hi;
            i = i + 1;
        }
        let c0: u32 = (carry % 0x1_0000_0000) as u32;
        let c1: u32 = (carry / 0x1_0000_0000) as u32;
        let ghost mid = out@;
        out.push(c0);
        let ghost mid1 = out@;
        out.push(c1);
        proof {
            let w = weight(n as nat);
            lemma_low_value_agrees(mid, out@, n as nat);
            assert(limb(out@, n as nat) == c0 as nat);
            assert(limb(out@, (n + 1) as nat) == c1 as nat);
            assert(weight((n + 1) as nat) == 0x1_0000_0000 * w);
            assert(low_value(out@, (n + 2) as nat) == low_value(out@, (n + 1) as nat) + (c1 as nat)
                * weight((n + 1) as nat));
            assert(low_value(out@, (n + 1) as nat) == low_value(out@, n as nat) + (c0 as nat) * w);
            assert((c0 as nat) * w + (c1 as nat) * (0x1_0000_0000 * w) == (carry as nat) * w)
                by (nonlinear_arith)
                requires
                    (carry as nat) == (c0 as nat) + 0x1_0000_0000 * (c1 as nat),
            ;
        }
        BigNat { limbs: out }
    }

    /// Whether this number is smaller than the other.
    pub fn less_than(&self, other: &BigNat) -> (r: bool)
        ensures
            r == (self@ < other@),
    {
        let la: usize = self.limbs.len();
        let lb: usize = other.limbs.len();
        let n: usize = if la < lb { lb } else { la };
        // After limb `i`, `state` tells how the low parts compare:
        // 0 for equal, 1 for this one smaller, 2 for this one larger.
        let mut state: u8 = 0;
        let mut i: usize = 0;
        while i < n
            invariant
                la == self.limbs@.len(),
                lb == other.limbs@.len(),
                n >= la,
                n >= lb,
                i <= n,
                state <= 2,
                state == 0 <==> low_value(self.limbs@, i as nat) == low_value(
                    other.limbs@,
                    i as nat,
                ),
                state == 1 <==> low_value(self.limbs@, i as nat) < low_value(
                    other.limbs@,
                    i as nat,
                ),
            decreases n - i,
        {
            let a: u32 = if i < la { self.limbs[i] } else { 0 };
            let b: u32 = if i < lb { other.limbs[i] } else { 0 };
            proof {
                let w = weight(i as nat);
                lemma_low_value_bound(self.limbs@, i as nat);
                lemma_low_value_bound(other.limbs@, i as nat);
                let va = low_value(self.limbs@, i as nat);
                let vb = low_value(other.limbs@, i as nat);
                assert(limb(self.limbs@, i as nat) == a as nat);
                assert(limb(other.limbs@, i as nat) == b as nat);
                if a < b {
                    assert(va + (a as nat) * w < vb + (b as nat) * w) by (nonlinear_arith)
                        requires
                            va < w,
                            (a as nat) < (b as nat),
                    ;
                } else if b < a {
                    assert(vb + (b as nat) * w < va + (a as nat) * w) by (nonlinear_arith)
                        requires
                            vb < w,
                            (b as nat) < (a as nat),
                    ;
                }
            }
            if a < b {
                state = 1;
            } else if b < a {
                state = 2;
            }
            i = i + 1;
        }
        proof {
            lemma_low_value_saturates(self.limbs@, n as nat);
            lemma_low_value_saturates(other.limbs@, n as nat);
        }
        state == 1
    }
}

} // verus!
