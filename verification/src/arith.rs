//! Coefficient-wise polynomial arithmetic: addition, subtraction,
//! negation, and the degree shifts (multiplication and truncated
//! division by powers of X).

use vstd::prelude::*;
use crate::Polynomial;
use crate::wrapped::{wadd, wsub, wneg, lemma_wrapping_add, lemma_wrapping_sub};
use crate::convspec::coef;

verus! {

/// The coefficient-wise wrapped sum of two coefficient sequences.
pub open spec fn padd(a: Seq<i64>, b: Seq<i64>) -> Seq<i64> {
    Seq::new(
        if a.len() >= b.len() {
            a.len()
        } else {
            b.len()
        },
        |i: int| wadd(coef(a, i), coef(b, i)),
    )
}

/// The coefficient-wise wrapped difference of two coefficient
/// sequences.
pub open spec fn psub(a: Seq<i64>, b: Seq<i64>) -> Seq<i64> {
    Seq::new(
        if a.len() >= b.len() {
            a.len()
        } else {
            b.len()
        },
        |i: int| wsub(coef(a, i), coef(b, i)),
    )
}

/// The coefficient-wise wrapped negation of a coefficient sequence.
pub open spec fn pneg(a: Seq<i64>) -> Seq<i64> {
    Seq::new(a.len(), |i: int| wneg(a[i]))
}

pub proof fn lemma_padd_coef(a: Seq<i64>, b: Seq<i64>)
    ensures
        forall|i: int| #![trigger coef(padd(a, b), i)]
            coef(padd(a, b), i) == wadd(coef(a, i), coef(b, i)),
{
    crate::wrapped::lemma_wrap_id(0);
}

pub proof fn lemma_psub_coef(a: Seq<i64>, b: Seq<i64>)
    ensures
        forall|i: int| #![trigger coef(psub(a, b), i)]
            coef(psub(a, b), i) == wsub(coef(a, i), coef(b, i)),
{
    crate::wrapped::lemma_wrap_id(0);
}

/// `s` zero coefficients followed by `a`: multiplication by `X^s`.
pub open spec fn shifted(a: Seq<i64>, s: int) -> Seq<i64> {
    Seq::new(if s >= 0 { s as nat } else { 0 }, |i: int| 0i64) + a
}

/// Degree-shift round trip: shifting a coefficient sequence up by `k`
/// (multiplying by `X^k`, as `shl` does) and then down by `k`
/// (dividing by `X^k`, as `shr` does) restores the original sequence.
pub proof fn lemma_shift_round_trip(s: Seq<i64>, k: int)
    requires
        0 <= k,
    ensures
        (if k < shifted(s, k).len() {
            shifted(s, k).subrange(k, shifted(s, k).len() as int)
        } else {
            Seq::<i64>::empty()
        }) == s,
{
    if k < shifted(s, k).len() {
        assert(shifted(s, k).subrange(k, shifted(s, k).len() as int) =~= s);
    } else {
        assert(s =~= Seq::<i64>::empty());
    }
}

impl Polynomial {
    /// The coefficient-wise sum, in canonical form.
    pub fn add(&self, other: &Self) -> (r: Self)
        ensures
            r@ == crate::trim(padd(self@, other@)),
            crate::wf(r@),
    {
        let n1 = self.coeffs.len();
        let n2 = other.coeffs.len();
        let n = if n1 >= n2 { n1 } else { n2 };
        let mut v: Vec<i64> = Vec::new();
        let mut i: usize = 0;
        while i < n
            invariant
                i <= n,
                n1 == self@.len(),
                n2 == other@.len(),
                n == padd(self@, other@).len(),
                v@.len() == i,
                forall|k: int| 0 <= k < i ==> v@[k] == padd(self@, other@)[k],
            decreases n - i,
        {
            let c1 = if i < n1 { self.coeffs[i] } else { 0 };
            let c2 = if i < n2 { other.coeffs[i] } else { 0 };
            v.push(c1.wrapping_add(c2));
            proof {
                lemma_wrapping_add(c1, c2);
                assert(c1 == coef(self@, i as int));
                assert(c2 == coef(other@, i as int));
            }
            i = i + 1;
        }
        proof {
            assert(v@ =~= padd(self@, other@));
        }
        Polynomial::from_vec(v)
    }

    /// The coefficient-wise difference, in canonical form.
    pub fn sub(&self, other: &Self) -> (r: Self)
        ensures
            r@ == crate::trim(psub(self@, other@)),
            crate::wf(r@),
    {
        let n1 = self.coeffs.len();
        let n2 = other.coeffs.len();
        let n = if n1 >= n2 { n1 } else { n2 };
        let mut v: Vec<i64> = Vec::new();
        let mut i: usize = 0;
        while i < n
            invariant
                i <= n,
                n1 == self@.len(),
                n2 == other@.len(),
                n == psub(self@, other@).len(),
                v@.len() == i,
                forall|k: int| 0 <= k < i ==> v@[k] == psub(self@, other@)[k],
            decreases n - i,
        {
            let c1 = if i < n1 { self.coeffs[i] } else { 0 };
            let c2 = if i < n2 { other.coeffs[i] } else { 0 };
            v.push(c1.wrapping_sub(c2));
            proof {
                lemma_wrapping_sub(c1, c2);
                assert(c1 == coef(self@, i as int));
                assert(c2 == coef(other@, i as int));
            }
            i = i + 1;
        }
        proof {
            assert(v@ =~= psub(self@, other@));
        }
        Polynomial::from_vec(v)
    }

    /// The coefficient-wise negation, in canonical form.
    pub fn neg(&self) -> (r: Self)
        ensures
            r@ == crate::trim(pneg(self@)),
            crate::wf(r@),
    {
        let n = self.coeffs.len();
        let mut v: Vec<i64> = Vec::new();
        let mut i: usize = 0;
        while i < n
            invariant
                i <= n,
                n == self@.len(),
                v@.len() == i,
                forall|k: int| 0 <= k < i ==> v@[k] == pneg(self@)[k],
            decreases n - i,
        {
            let c = self.coeffs[i];
            v.push(0i64.wrapping_sub(c));
            proof {
                lemma_wrapping_sub(0, c);
            }
            i = i + 1;
        }
        proof {
            assert(v@ =~= pneg(self@));
        }
        Polynomial::from_vec(v)
    }

    /// Shifts the degrees up by `rhs`: multiplication by `X^rhs`.  The
    /// coefficient vector is kept as computed, without re-trimming.
    pub fn shl(&self, rhs: usize) -> (r: Self)
        requires
            rhs + self@.len() <= usize::MAX,
        ensures
            r@ == shifted(self@, rhs as int),
    {
        let mut v: Vec<i64> = Vec::new();
        let mut i: usize = 0;
        while i < rhs
            invariant
                i <= rhs,
                v@.len() == i,
                forall|k: int| 0 <= k < i ==> v@[k] == 0i64,
            decreases rhs - i,
        {
            v.push(0);
            i = i + 1;
        }
        let n = self.coeffs.len();
        let mut j: usize = 0;
        while j < n
            invariant
                j <= n,
                n == self@.len(),
                v@.len() == rhs + j,
                forall|k: int| 0 <= k < rhs ==> v@[k] == 0i64,
                forall|k: int| 0 <= k < j ==> v@[rhs + k] == self@[k],
            decreases n - j,
        {
            v.push(self.coeffs[j]);
            j = j + 1;
        }
        proof {
            assert(v@ =~= shifted(self@, rhs as int));
        }
        Polynomial { coeffs: v }
    }

    /// In-place form of `shl`.
    pub fn shl_assign(&mut self, rhs: usize)
        requires
            rhs + old(self)@.len() <= usize::MAX,
        ensures
            final(self)@ == shifted(old(self)@, rhs as int),
    {
        let r = self.shl(rhs);
        self.coeffs = r.coeffs;
    }

    /// Shifts the degrees down by `rhs`, dropping the low-order
    /// coefficients: truncated division by `X^rhs`.
    pub fn shr(&self, rhs: usize) -> (r: Self)
        ensures
            r@ == if rhs < self@.len() {
                self@.subrange(rhs as int, self@.len() as int)
            } else {
                Seq::<i64>::empty()
            },
    {
        let n = self.coeffs.len();
        let mut v: Vec<i64> = Vec::new();
        if rhs >= n {
            proof {
                assert(v@ =~= Seq::<i64>::empty());
            }
            return Polynomial { coeffs: v };
        }
        let mut i: usize = rhs;
        while i < n
            invariant
                rhs <= i <= n,
                n == self@.len(),
                v@.len() == i - rhs,
                forall|k: int| 0 <= k < i - rhs ==> v@[k] == self@[rhs + k],
            decreases n - i,
        {
            v.push(self.coeffs[i]);
            i = i + 1;
        }
        proof {
            assert(v@ =~= self@.subrange(rhs as int, n as int));
        }
        Polynomial { coeffs: v }
    }

    /// In-place form of `shr`.
    pub fn shr_assign(&mut self, rhs: usize)
        ensures
            final(self)@ == if rhs < old(self)@.len() {
                old(self)@.subrange(rhs as int, old(self)@.len() as int)
            } else {
                Seq::<i64>::empty()
            },
    {
        let r = self.shr(rhs);
        self.coeffs = r.coeffs;
    }
}

} // verus!
