//! A verified library for univariate polynomial arithmetic over `i64`
//! coefficients, where every coefficient operation wraps modulo 2^64.
//!
//! A polynomial is a coefficient vector with index 0 holding the constant
//! term.  The canonical form has no trailing zero coefficient; the empty
//! vector is the zero polynomial.  The multiplication core is a recursive
//! Karatsuba algorithm with truncation (short products), on top of which
//! sit Newton iteration for power-series inversion, Euclidean division via
//! reversed polynomials, and a Euclidean GCD.

use vstd::prelude::*;

pub mod wrapped;
pub mod convspec;
pub mod arith;
pub mod multiply;
pub mod divide;
pub mod gcd;
pub mod parse;
pub mod latex;

verus! {

use crate::wrapped::{wadd, wmul};
use crate::wrapped::{lemma_wrapping_add, lemma_wrapping_mul};

/// A univariate polynomial; `coeffs[i]` is the coefficient of `X^i`.
#[derive(Debug)]
pub struct Polynomial {
    pub coeffs: Vec<i64>,
}

impl View for Polynomial {
    type V = Seq<i64>;

    open spec fn view(&self) -> Seq<i64> {
        self.coeffs@
    }
}

/// A coefficient sequence is canonical when it is empty (the zero
/// polynomial) or its last (leading) coefficient is non-zero.
pub open spec fn wf(s: Seq<i64>) -> bool {
    s.len() == 0 || s.last() != 0
}

/// The canonical form of a coefficient sequence: trailing zeros removed.
pub open spec fn trim(s: Seq<i64>) -> Seq<i64>
    decreases s.len(),
{
    if s.len() == 0 || s.last() != 0 {
        s
    } else {
        trim(s.drop_last())
    }
}

/// The degree reported for a coefficient sequence; the zero polynomial
/// reports degree 0 and is distinguished by emptiness, not by degree.
pub open spec fn deg_of(s: Seq<i64>) -> int {
    if s.len() == 0 {
        0
    } else {
        s.len() - 1
    }
}

/// Horner evaluation of a coefficient sequence at `x`, with wrapping
/// coefficient arithmetic.
pub open spec fn eval_at(s: Seq<i64>, x: i64) -> i64
    decreases s.len(),
{
    if s.len() == 0 {
        0
    } else {
        wadd(wmul(x, eval_at(s.subrange(1, s.len() as int), x)), s[0])
    }
}

pub proof fn lemma_trim_wf(s: Seq<i64>)
    ensures
        wf(trim(s)),
    decreases s.len(),
{
    if s.len() == 0 || s.last() != 0 {
    } else {
        lemma_trim_wf(s.drop_last());
    }
}

pub proof fn lemma_trim_id(s: Seq<i64>)
    requires
        wf(s),
    ensures
        trim(s) == s,
{
}

impl Polynomial {
    /// The zero polynomial.
    pub fn new() -> (r: Self)
        ensures
            r@ == Seq::<i64>::empty(),
            wf(r@),
    {
        Polynomial { coeffs: Vec::new() }
    }

    /// Builds a polynomial from a coefficient vector, trimming trailing
    /// zero coefficients so the result is canonical.
    pub fn from_vec(mut v: Vec<i64>) -> (r: Self)
        ensures
            r@ == trim(v@),
            wf(r@),
    {
        let ghost orig = v@;
        proof {
            lemma_trim_wf(v@);
        }
        while v.len() > 0 && v[v.len() - 1] == 0
            invariant
                trim(v@) == trim(orig),
            decreases v@.len(),
        {
            let ghost pre = v@;
            v.pop();
            proof {
                assert(v@ == pre.drop_last());
            }
        }
        proof {
            lemma_trim_id(v@);
        }
        Polynomial { coeffs: v }
    }

    pub fn is_empty(&self) -> (r: bool)
        ensures
            r == (self@.len() == 0),
    {
        self.coeffs.len() == 0
    }

    /// The zero polynomial is the empty coefficient sequence.
    pub fn is_zero(&self) -> (r: bool)
        ensures
            r == (self@.len() == 0),
    {
        self.coeffs.len() == 0
    }

    /// The constant polynomial 1.
    pub fn one() -> (r: Self)
        ensures
            r@ == seq![1i64],
            wf(r@),
    {
        let mut v: Vec<i64> = Vec::new();
        v.push(1);
        assert(v@ == seq![1i64]);
        Polynomial { coeffs: v }
    }

    /// The degree; the zero polynomial reports 0.
    pub fn degree(&self) -> (r: usize)
        ensures
            r as int == deg_of(self@),
    {
        if self.coeffs.len() == 0 {
            0
        } else {
            self.coeffs.len() - 1
        }
    }

    /// The coefficient of `X^i`, or 0 beyond the stored length.
    pub fn coefficient(&self, i: usize) -> (r: i64)
        ensures
            r == crate::convspec::coef(self@, i as int),
    {
        if i < self.coeffs.len() {
            self.coeffs[i]
        } else {
            0
        }
    }

    /// Whether this polynomial is exactly the monomial X.
    pub fn is_x(&self) -> (r: bool)
        ensures
            r == (self@.len() == 2 && self@[0] == 0 && self@[1] == 1),
    {
        self.coeffs.len() == 2 && self.coeffs[0] == 0 && self.coeffs[1] == 1
    }

    /// Evaluates the polynomial at `x` by Horner's rule, wrapping on
    /// overflow.
    pub fn eval(&self, x: i64) -> (r: i64)
        ensures
            r == eval_at(self@, x),
    {
        let mut result: i64 = 0;
        let mut j: usize = self.coeffs.len();
        while j > 0
            invariant
                j <= self.coeffs.len(),
                result == eval_at(self@.subrange(j as int, self@.len() as int), x),
            decreases j,
        {
            j = j - 1;
            let c = self.coeffs[j];
            let ghost pre = self@.subrange(j as int + 1, self@.len() as int);
            result = x.wrapping_mul(result).wrapping_add(c);
            proof {
                let cur = self@.subrange(j as int, self@.len() as int);
                assert(cur[0] == self@[j as int]);
                assert(cur.subrange(1, cur.len() as int) == pre);
                lemma_wrapping_mul(x, eval_at(pre, x));
                lemma_wrapping_add(wmul(x, eval_at(pre, x)), c);
            }
        }
        proof {
            assert(self@.subrange(0, self@.len() as int) == self@);
        }
        result
    }

    /// A new polynomial with the coefficients in reverse order, trimmed
    /// to canonical form.
    pub fn rev(&self) -> (r: Self)
        ensures
            r@ == trim(self@.reverse()),
            wf(r@),
    {
        let mut v: Vec<i64> = Vec::new();
        let n = self.coeffs.len();
        let mut i: usize = n;
        while i > 0
            invariant
                i <= n,
                n == self@.len(),
                v@.len() == n - i,
                forall|k: int| 0 <= k < v@.len() ==> v@[k] == self@[n - 1 - k],
            decreases i,
        {
            i = i - 1;
            v.push(self.coeffs[i]);
        }
        proof {
            assert(v@ =~= self@.reverse());
        }
        Polynomial::from_vec(v)
    }

    /// Reverses the coefficients in place, without re-trimming: the
    /// result may be non-canonical when the constant term was zero.
    pub fn rev_inplace(&mut self)
        ensures
            final(self)@ == old(self)@.reverse(),
    {
        let n = self.coeffs.len();
        let mut i: usize = 0;
        while i < n / 2
            invariant
                n == self@.len(),
                n == old(self)@.len(),
                i <= n / 2,
                forall|k: int|
                    0 <= k < n ==> self@[k] == (if k < i || k >= n - i {
                        old(self)@[n - 1 - k]
                    } else {
                        old(self)@[k]
                    }),
            decreases n - i,
        {
            let a = self.coeffs[i];
            let b = self.coeffs[n - 1 - i];
            self.coeffs.set(i, b);
            self.coeffs.set(n - 1 - i, a);
            i = i + 1;
        }
        proof {
            assert(self@ =~= old(self)@.reverse());
        }
    }

    /// Removes trailing zero coefficients in place, restoring canonical
    /// form.
    pub fn clean_zeros(&mut self)
        ensures
            final(self)@ == trim(old(self)@),
            wf(final(self)@),
    {
        proof {
            lemma_trim_wf(old(self)@);
        }
        while self.coeffs.len() > 0 && self.coeffs[self.coeffs.len() - 1] == 0
            invariant
                trim(self@) == trim(old(self)@),
            decreases self@.len(),
        {
            let ghost pre = self@;
            self.coeffs.pop();
            proof {
                assert(self@ == pre.drop_last());
            }
        }
        proof {
            lemma_trim_id(self@);
        }
    }

    /// An owned copy with the same coefficients.
    pub fn duplicate(&self) -> (r: Self)
        ensures
            r@ == self@,
    {
        let mut v: Vec<i64> = Vec::new();
        let n = self.coeffs.len();
        let mut i: usize = 0;
        while i < n
            invariant
                i <= n,
                n == self@.len(),
                v@ == self@.subrange(0, i as int),
            decreases n - i,
        {
            v.push(self.coeffs[i]);
            i = i + 1;
        }
        proof {
            assert(self@.subrange(0, n as int) == self@);
        }
        Polynomial { coeffs: v }
    }

    /// Structural equality of the stored coefficient vectors.
    pub fn equal(&self, other: &Self) -> (r: bool)
        ensures
            r == (self@ == other@),
    {
        if self.coeffs.len() != other.coeffs.len() {
            proof {
                assert(self@.len() != other@.len());
            }
            return false;
        }
        let n = self.coeffs.len();
        let mut i: usize = 0;
        while i < n
            invariant
                i <= n,
                n == self@.len(),
                n == other@.len(),
                forall|k: int| 0 <= k < i ==> self@[k] == other@[k],
            decreases n - i,
        {
            if self.coeffs[i] != other.coeffs[i] {
                return false;
            }
            i = i + 1;
        }
        proof {
            assert(self@ =~= other@);
        }
        true
    }
}

} // verus!
