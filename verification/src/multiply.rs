//! Polynomial multiplication: the naive convolution fallback and the
//! recursive Karatsuba algorithm with truncation (short products).
//! Both are proved to return the canonical truncated convolution of
//! their operands.

use vstd::prelude::*;
use crate::Polynomial;
use crate::wrapped::{wadd, wsub, wmul, wadd_e, wsub_e, wmul_e};
use crate::wrapped::{
    lemma_wadd_regroup, lemma_wadd_zero, lemma_wmul_zero, lemma_wrap_id, lemma_mid_recover,
};
use crate::convspec::{
    coef, conv_at, conv_upto, conv_seq, full_len, prod, prod_trunc,
    lemma_conv_add_right, lemma_conv_any, lemma_conv_beyond, lemma_conv_comm,
    lemma_conv_congruent_right_low, lemma_conv_low_zero, lemma_conv_neg,
    lemma_conv_split_left, lemma_conv_sub_left, lemma_conv_sub_right,
    lemma_conv_upto_congruent, lemma_conv_upto_extend, lemma_conv_upto_shrink,
    lemma_conv_upto_zero_left, lemma_trim_pointwise,
};

verus! {

/// Some stored coefficient is non-zero.
pub open spec fn has_nonzero(s: Seq<i64>) -> bool {
    exists|i: int| 0 <= i < s.len() && s[i] != 0
}

/// A vector of `n` zero coefficients.
fn zero_vec(n: usize) -> (r: Vec<i64>)
    ensures
        r@.len() == n,
        forall|k: int| 0 <= k < n ==> r@[k] == 0i64,
{
    let mut v: Vec<i64> = Vec::new();
    let mut i: usize = 0;
    while i < n
        invariant
            i <= n,
            v@.len() == i,
            forall|k: int| 0 <= k < i ==> v@[k] == 0i64,
        decreases n - i,
    {
        v.push(0);
        i = i + 1;
    }
    v
}

/// The coefficient at `i`, with implicit zeros past the end.
fn cz(v: &Vec<i64>, i: usize) -> (r: i64)
    ensures
        r == coef(v@, i as int),
{
    if i < v.len() {
        v[i]
    } else {
        0
    }
}

/// A copy of the coefficients in `[lo, hi)`.
fn subvec(v: &Vec<i64>, lo: usize, hi: usize) -> (r: Vec<i64>)
    requires
        lo <= hi <= v@.len(),
    ensures
        r@ == v@.subrange(lo as int, hi as int),
{
    let mut r: Vec<i64> = Vec::new();
    let mut i: usize = lo;
    while i < hi
        invariant
            lo <= i <= hi <= v@.len(),
            r@.len() == i - lo,
            forall|k: int| 0 <= k < i - lo ==> r@[k] == v@[lo + k],
        decreases hi - i,
    {
        r.push(v[i]);
        i = i + 1;
    }
    proof {
        assert(r@ =~= v@.subrange(lo as int, hi as int));
    }
    r
}

/// The equal-length recursive Karatsuba core: returns the full product
/// of two coefficient vectors of the same length.
#[verifier::loop_isolation(false)]
#[verifier::rlimit(60)]
fn kara_eq(a: &Vec<i64>, b: &Vec<i64>) -> (r: Vec<i64>)
    requires
        a@.len() == b@.len(),
        1 <= a@.len() <= 0x4000_0000,
    ensures
        r@.len() == 2 * a@.len() - 1,
        forall|i: int| 0 <= i < r@.len() ==> r@[i] == conv_at(a@, b@, i),
    decreases a@.len(),
{
    let n = a.len();
    if n < 6 {
        // Base case: direct quadratic accumulation.
        let mut r = zero_vec(2 * n - 1);
        let mut j: usize = 0;
        while j < n
            invariant
                j <= n,
                n == a@.len() == b@.len(),
                r@.len() == 2 * n - 1,
                forall|i: int| 0 <= i < r@.len() ==> r@[i] == conv_upto(a@, b@, i, j as int),
            decreases n - j,
        {
            let mut k: usize = 0;
            while k < n
                invariant
                    k <= n,
                    j < n,
                    n == a@.len() == b@.len(),
                    r@.len() == 2 * n - 1,
                    forall|i: int|
                        0 <= i < r@.len() ==> r@[i] == (if j <= i < j + k {
                            conv_upto(a@, b@, i, j as int + 1)
                        } else {
                            conv_upto(a@, b@, i, j as int)
                        }),
                decreases n - k,
            {
                let idx = j + k;
                let t = wmul_e(a[j], b[k]);
                let s = wadd_e(r[idx], t);
                r.set(idx, s);
                proof {
                    assert(coef(a@, j as int) == a@[j as int]);
                    assert(coef(b@, idx - j) == b@[k as int]);
                }
                k = k + 1;
            }
            proof {
                assert forall|i: int|
                    0 <= i < r@.len() && !(j <= i < j + n) implies conv_upto(a@, b@, i, j as int + 1)
                    == conv_upto(a@, b@, i, j as int) by {
                    assert(coef(b@, i - j) == 0);
                    lemma_wmul_zero(coef(a@, j as int));
                    lemma_wadd_zero(conv_upto(a@, b@, i, j as int));
                }
            }
            j = j + 1;
        }
        return r;
    }
    let p = n / 2;
    let q = n - p;
    let a0 = subvec(a, 0, p);
    let a1 = subvec(a, p, n);
    let b0 = subvec(b, 0, p);
    let b1 = subvec(b, p, n);
    // The difference operands (low minus high of `a`, high minus low of
    // `b`), padded to the high half's length.
    let mut d1: Vec<i64> = Vec::new();
    let mut d2: Vec<i64> = Vec::new();
    let mut k: usize = 0;
    while k < p
        invariant
            k <= p,
            p < n,
            n == a@.len() == b@.len(),
            d1@.len() == k,
            d2@.len() == k,
            forall|m: int| 0 <= m < k ==> d1@[m] == wsub(a@[m], a@[p + m]),
            forall|m: int| 0 <= m < k ==> d2@[m] == wsub(b@[p + m], b@[m]),
        decreases p - k,
    {
        d1.push(wsub_e(a[k], a[k + p]));
        d2.push(wsub_e(b[k + p], b[k]));
        k = k + 1;
    }
    if q > p {
        d1.push(wsub_e(0, a[n - 1]));
        d2.push(b[n - 1]);
    }
    proof {
        lemma_wrap_id(0);
        assert forall|m: int| #![trigger coef(d1@, m)]
            true implies coef(d1@, m) == wsub(coef(a0@, m), coef(a1@, m)) by {
            if 0 <= m < p {
            } else if m == p && q > p {
                assert(coef(a1@, m) == a@[n - 1]);
            } else {
                assert(coef(d1@, m) == 0);
                assert(coef(a0@, m) == 0);
                assert(coef(a1@, m) == 0);
            }
        }
        assert forall|m: int| #![trigger coef(d2@, m)]
            true implies coef(d2@, m) == wsub(coef(b1@, m), coef(b0@, m)) by {
            if 0 <= m < p {
            } else if m == p && q > p {
                assert(coef(b1@, m) == b@[n - 1]);
                lemma_wrap_id(b@[n - 1] as int);
            } else {
                assert(coef(d2@, m) == 0);
                assert(coef(b1@, m) == 0);
                assert(coef(b0@, m) == 0);
            }
        }
    }
    assert(d1@.len() == q && d2@.len() == q);
    let low = kara_eq(&a0, &b0);
    let high = kara_eq(&a1, &b1);
    let mid = kara_eq(&d1, &d2);
    // Assemble: result = low + X^p * (mid + low + high) + X^(2p) * high.
    let mut r: Vec<i64> = Vec::new();
    let mut i: usize = 0;
    while i < 2 * n - 1
        invariant
            i <= 2 * n - 1,
            n == a@.len() == b@.len(),
            6 <= n <= 0x4000_0000,
            p == n / 2,
            q == n - p,
            a0@ == a@.subrange(0, p as int),
            a1@ == a@.subrange(p as int, n as int),
            b0@ == b@.subrange(0, p as int),
            b1@ == b@.subrange(p as int, n as int),
            low@.len() == 2 * p - 1,
            high@.len() == 2 * q - 1,
            mid@.len() == 2 * q - 1,
            forall|m: int| 0 <= m < low@.len() ==> low@[m] == conv_at(a0@, b0@, m),
            forall|m: int| 0 <= m < high@.len() ==> high@[m] == conv_at(a1@, b1@, m),
            forall|m: int| 0 <= m < mid@.len() ==> mid@[m] == conv_at(d1@, d2@, m),
            forall|m: int| coef(d1@, m) == wsub(coef(a0@, m), coef(a1@, m)),
            forall|m: int| coef(d2@, m) == wsub(coef(b1@, m), coef(b0@, m)),
            r@.len() == i,
            forall|m: int| 0 <= m < i ==> r@[m] == conv_at(a@, b@, m),
        decreases 2 * n - 1 - i,
    {
        let t_low = cz(&low, i);
        let t_mid: i64 = if i >= p {
            wadd_e(wadd_e(cz(&mid, i - p), cz(&low, i - p)), cz(&high, i - p))
        } else {
            0
        };
        let t_high: i64 = if i >= 2 * p {
            cz(&high, i - 2 * p)
        } else {
            0
        };
        let val = wadd_e(wadd_e(t_low, t_mid), t_high);
        proof {
            lemma_kara_index(
                a@, b@, a0@, a1@, b0@, b1@, d1@, d2@, low@, high@, mid@, i as int, p as int,
                q as int,
            );
            if i < 2 * p {
                assert(coef(high@, i - 2 * p) == 0);
            }
        }
        r.push(val);
        i = i + 1;
    }
    r
}

impl Polynomial {
    /// Naive convolution: the product of `p1` and `p2` keeping the
    /// coefficients of degree at most `truncate`, in canonical form.
    #[verifier::loop_isolation(false)]
    pub fn convolve(p1: &Self, p2: &Self, truncate: usize) -> (r: Self)
        requires
            p1@.len() + p2@.len() <= 0x4000_0000,
        ensures
            r@ == prod_trunc(p1@, p2@, truncate as int + 1),
            crate::wf(r@),
    {
        let n1 = p1.coeffs.len();
        let n2 = p2.coeffs.len();
        if n1 == 0 || n2 == 0 {
            proof {
                assert(conv_seq(p1@, p2@, 0) =~= Seq::<i64>::empty());
            }
            return Polynomial::new();
        }
        let flen = n1 + n2 - 1;
        let rlen = if flen <= truncate { flen } else { truncate + 1 };
        let mut r = zero_vec(rlen);
        let mut j: usize = 0;
        while j < n1
            invariant
                j <= n1,
                n1 == p1@.len(),
                n2 == p2@.len(),
                n1 >= 1,
                n2 >= 1,
                flen == n1 + n2 - 1,
                rlen as int == if flen <= truncate {
                    flen as int
                } else {
                    truncate as int + 1
                },
                r@.len() == rlen,
                forall|i: int| 0 <= i < rlen ==> r@[i] == conv_upto(p1@, p2@, i, j as int),
            decreases n1 - j,
        {
            let mut k: usize = 0;
            while k < n2 && j + k < rlen
                invariant
                    k <= n2,
                    j < n1,
                    n1 == p1@.len(),
                    n2 == p2@.len(),
                    r@.len() == rlen,
                    j + k <= rlen || k == 0,
                    forall|i: int|
                        0 <= i < rlen ==> r@[i] == (if j <= i < j + k {
                            conv_upto(p1@, p2@, i, j as int + 1)
                        } else {
                            conv_upto(p1@, p2@, i, j as int)
                        }),
                decreases n2 - k,
            {
                let idx = j + k;
                let t = wmul_e(p1.coeffs[j], p2.coeffs[k]);
                let s = wadd_e(r[idx], t);
                r.set(idx, s);
                proof {
                    assert(coef(p1@, j as int) == p1@[j as int]);
                    assert(coef(p2@, idx - j) == p2@[k as int]);
                }
                k = k + 1;
            }
            proof {
                assert forall|i: int|
                    0 <= i < rlen && !(j <= i < j + k) implies conv_upto(p1@, p2@, i, j as int + 1)
                    == conv_upto(p1@, p2@, i, j as int) by {
                    assert(coef(p2@, i - j) == 0);
                    lemma_wmul_zero(coef(p1@, j as int));
                    lemma_wadd_zero(conv_upto(p1@, p2@, i, j as int));
                }
            }
            j = j + 1;
        }
        proof {
            let k2 = truncate as int + 1;
            let kk = if k2 <= full_len(p1@, p2@) {
                k2
            } else {
                full_len(p1@, p2@)
            };
            assert(rlen == kk);
            assert forall|i: int| 0 <= i < rlen implies r@[i] == conv_at(p1@, p2@, i) by {
                assert(r@[i] == conv_upto(p1@, p2@, i, n1 as int));
            }
            assert(r@ =~= conv_seq(p1@, p2@, kk));
        }
        Polynomial::from_vec(r)
    }

    /// Karatsuba multiplication: the product of `p1` and `p2` modulo
    /// `X^truncate`, in canonical form.  Each operand must be stored
    /// either as the empty (zero) polynomial or with some non-zero
    /// coefficient.
    #[verifier::loop_isolation(false)]
    #[verifier::rlimit(60)]
    pub fn karatsuba(p1: &Self, p2: &Self, truncate: usize) -> (r: Self)
        requires
            p1@.len() == 0 || has_nonzero(p1@),
            p2@.len() == 0 || has_nonzero(p2@),
            p1@.len() + p2@.len() <= 0x4000_0000,
        ensures
            r@ == prod_trunc(p1@, p2@, truncate as int),
            crate::wf(r@),
    {
        let n1 = p1.coeffs.len();
        let n2 = p2.coeffs.len();
        if truncate == 0 || n1 == 0 || n2 == 0 {
            proof {
                let kk = if truncate as int <= full_len(p1@, p2@) {
                    truncate as int
                } else {
                    full_len(p1@, p2@)
                };
                assert(conv_seq(p1@, p2@, kk) =~= Seq::<i64>::empty());
            }
            return Polynomial::new();
        }
        // Skip the leading zero runs; the product gains their combined
        // shift.
        let mut f1: usize = 0;
        while f1 < n1 && p1.coeffs[f1] == 0
            invariant
                f1 <= n1,
                n1 == p1@.len(),
                forall|k: int| 0 <= k < f1 ==> p1@[k] == 0,
            decreases n1 - f1,
        {
            f1 = f1 + 1;
        }
        proof {
            if f1 == n1 {
                let w = choose|i: int| 0 <= i < p1@.len() && p1@[i] != 0;
                assert(p1@[w] == 0);
            }
        }
        let mut f2: usize = 0;
        while f2 < n2 && p2.coeffs[f2] == 0
            invariant
                f2 <= n2,
                n2 == p2@.len(),
                forall|k: int| 0 <= k < f2 ==> p2@[k] == 0,
            decreases n2 - f2,
        {
            f2 = f2 + 1;
        }
        proof {
            if f2 == n2 {
                let w = choose|i: int| 0 <= i < p2@.len() && p2@[i] != 0;
                assert(p2@[w] == 0);
            }
        }
        assert(f1 < n1 && f2 < n2);
        if truncate <= f1 + f2 {
            // Every kept coefficient lies below the combined shift.
            proof {
                let kk = if truncate as int <= full_len(p1@, p2@) {
                    truncate as int
                } else {
                    full_len(p1@, p2@)
                };
                let cs = conv_seq(p1@, p2@, kk);
                assert forall|i: int| true implies coef(cs, i) == coef(Seq::<i64>::empty(), i) by {
                    if 0 <= i < kk {
                        lemma_conv_low_zero(p1@, p2@, i, f1 as int, f2 as int, p1@.len() as int);
                        assert(cs[i] == 0);
                    }
                }
                lemma_trim_pointwise(cs, Seq::<i64>::empty());
            }
            return Polynomial::new();
        }
        // Clip each operand to the coefficients that can still reach a
        // kept product coefficient, then pad to a common length.
        let e1 = if truncate <= n1 { truncate } else { n1 };
        let e2 = if truncate <= n2 { truncate } else { n2 };
        let l1 = e1 - f1;
        let l2 = e2 - f2;
        let bign = if l1 >= l2 { l1 } else { l2 };
        assert(f1 < e1 <= n1 && f2 < e2 <= n2);
        let mut t1 = subvec(&p1.coeffs, f1, e1);
        let mut t2 = subvec(&p2.coeffs, f2, e2);
        while t1.len() < bign
            invariant
                f1 < e1 <= p1@.len(),
                l1 == e1 - f1,
                l1 <= t1@.len() <= bign,
                t1@.subrange(0, l1 as int) == p1@.subrange(f1 as int, e1 as int),
                forall|k: int| l1 <= k < t1@.len() ==> t1@[k] == 0,
            decreases bign - t1@.len(),
        {
            let ghost pre = t1@;
            t1.push(0);
            proof {
                assert(t1@.subrange(0, l1 as int) =~= pre.subrange(0, l1 as int));
            }
        }
        while t2.len() < bign
            invariant
                f2 < e2 <= p2@.len(),
                l2 == e2 - f2,
                l2 <= t2@.len() <= bign,
                t2@.subrange(0, l2 as int) == p2@.subrange(f2 as int, e2 as int),
                forall|k: int| l2 <= k < t2@.len() ==> t2@[k] == 0,
            decreases bign - t2@.len(),
        {
            let ghost pre = t2@;
            t2.push(0);
            proof {
                assert(t2@.subrange(0, l2 as int) =~= pre.subrange(0, l2 as int));
            }
        }
        assert(t1.len() == bign && t2.len() == bign);
        let kara = kara_eq(&t1, &t2);
        // Shift by the zero runs, truncate, and trim.
        assert(f1 + f2 + kara@.len() <= usize::MAX);
        let mut res = zero_vec(f1 + f2);
        let mut i: usize = 0;
        while i < kara.len()
            invariant
                i <= kara@.len(),
                res@.len() == f1 + f2 + i,
                forall|k: int| 0 <= k < f1 + f2 ==> res@[k] == 0,
                forall|k: int| 0 <= k < i ==> res@[f1 + f2 + k] == kara@[k],
                kara@.len() == 2 * bign - 1,
                f1 + f2 + kara@.len() <= usize::MAX,
            decreases kara@.len() - i,
        {
            res.push(kara[i]);
            i = i + 1;
        }
        let ghost pre_trunc = res@;
        res.truncate(truncate);
        proof {
            let av = p1@;
            let bv = p2@;
            let tr = truncate as int;
            let fi1 = f1 as int;
            let fi2 = f2 as int;
            assert(res@ == pre_trunc.subrange(0, res@.len() as int));
            assert(av.subrange(fi1, av.len() as int).subrange(0, e1 - fi1) =~= av.subrange(
                fi1,
                e1 as int,
            ));
            assert(bv.subrange(fi2, bv.len() as int).subrange(0, e2 - fi2) =~= bv.subrange(
                fi2,
                e2 as int,
            ));
            // Each kept entry of the result is a true product
            // coefficient of the original operands.
            assert forall|i2: int| 0 <= i2 < res@.len() implies res@[i2] == conv_at(av, bv, i2) by {
                assert(res@[i2] == pre_trunc[i2]);
                if i2 < fi1 + fi2 {
                    lemma_conv_low_zero(av, bv, i2, fi1, fi2, av.len() as int);
                } else {
                    let j2 = i2 - fi1 - fi2;
                    assert(pre_trunc[i2] == kara@[j2]);
                    assert(kara@[j2] == conv_at(t1@, t2@, j2));
                    lemma_kara_operands(av, bv, t1@, t2@, fi1, fi2, e1 as int, e2 as int, j2);
                }
            }
            // And the entries cover everything the truncated product
            // keeps.
            let kk = if tr <= full_len(av, bv) {
                tr
            } else {
                full_len(av, bv)
            };
            let cs = conv_seq(av, bv, kk);
            assert(res@.len() >= kk);
            assert forall|i2: int| true implies coef(res@, i2) == coef(cs, i2) by {
                if 0 <= i2 < res@.len() {
                    if i2 >= kk {
                        assert(i2 >= full_len(av, bv));
                        lemma_conv_beyond(av, bv, i2);
                    }
                } else if 0 <= i2 < kk {
                    assert(false);
                }
            }
            lemma_trim_pointwise(res@, cs);
        }
        Polynomial::from_vec(res)
    }

    /// The product of `p1` and `p2` modulo `X^modulus`: the short
    /// product.
    pub fn short_product(p1: &Self, p2: &Self, modulus: usize) -> (r: Self)
        requires
            p1@.len() == 0 || has_nonzero(p1@),
            p2@.len() == 0 || has_nonzero(p2@),
            p1@.len() + p2@.len() <= 0x4000_0000,
        ensures
            r@ == prod_trunc(p1@, p2@, modulus as int),
            crate::wf(r@),
    {
        Polynomial::karatsuba(p1, p2, modulus)
    }

    /// Raises the polynomial to the power `exp` by repeated
    /// multiplication.  The zero polynomial yields zero for every
    /// exponent, including zero.
    #[verifier::loop_isolation(false)]
    pub fn powi(&self, exp: usize) -> (r: Self)
        requires
            crate::wf(self@),
            self@.len() >= 1 ==> (self@.len() - 1) * exp + 1 <= 0x0400_0000,
        ensures
            crate::wf(r@),
            self@.len() == 0 ==> r@ == Seq::<i64>::empty(),
            self@.len() >= 1 ==> r@ == ppow(self@, exp as nat),
    {
        if self.coeffs.len() == 0 {
            return Polynomial::new();
        }
        let ghost ll = self@.len() - 1;
        let mut acc = Polynomial::one();
        let mut i: usize = 0;
        while i < exp
            invariant
                i <= exp,
                crate::wf(acc@),
                acc@ == ppow(self@, i as nat),
                acc@.len() <= ll * i + 1,
            decreases exp - i,
        {
            proof {
                assert(ll * i + 1 <= ll * exp + 1 && ll <= ll * exp) by (nonlinear_arith)
                    requires
                        0 <= i < exp,
                        0 <= ll,
                ;
            }
            let next = acc.mul(self);
            proof {
                crate::convspec::lemma_trim_len(
                    conv_seq(acc@, self@, full_len(acc@, self@)),
                );
                assert(next@.len() <= ll * (i + 1) + 1) by (nonlinear_arith)
                    requires
                        next@.len() <= acc@.len() + ll,
                        acc@.len() <= ll * i + 1,
                        0 <= ll,
                ;
            }
            acc = next;
            i = i + 1;
        }
        acc
    }

    /// The full product of two canonical polynomials.
    pub fn mul(&self, other: &Self) -> (r: Self)
        requires
            crate::wf(self@),
            crate::wf(other@),
            self@.len() + other@.len() <= 0x4000_0000,
        ensures
            r@ == prod(self@, other@),
            crate::wf(r@),
    {
        let d1 = self.degree();
        let d2 = other.degree();
        proof {
            if self@.len() > 0 {
                assert(self@[self@.len() - 1] != 0);
            }
            if other@.len() > 0 {
                assert(other@[other@.len() - 1] != 0);
            }
            assert(d1 as int <= self@.len() && d2 as int <= other@.len());
        }
        Polynomial::karatsuba(self, other, d1 + d2 + 1)
    }
}

/// The canonical `n`-th power of a coefficient sequence.
pub open spec fn ppow(s: Seq<i64>, n: nat) -> Seq<i64>
    decreases n,
{
    if n == 0 {
        seq![1i64]
    } else {
        prod(ppow(s, (n - 1) as nat), s)
    }
}

/// Truncation boundary: a product truncated to no coefficients at all
/// is the zero polynomial, whatever the operands.
pub proof fn lemma_product_trunc_zero(a: Seq<i64>, b: Seq<i64>)
    ensures
        prod_trunc(a, b, 0) == Seq::<i64>::empty(),
{
    assert(conv_seq(a, b, 0) =~= Seq::<i64>::empty());
}

/// Truncation boundary: a product with the zero polynomial is the zero
/// polynomial, whatever the truncation.
pub proof fn lemma_product_by_zero(a: Seq<i64>, k: int)
    ensures
        prod_trunc(a, Seq::<i64>::empty(), k) == Seq::<i64>::empty(),
        prod_trunc(Seq::<i64>::empty(), a, k) == Seq::<i64>::empty(),
{
    let z = Seq::<i64>::empty();
    let k1 = if k <= full_len(a, z) {
        k
    } else {
        full_len(a, z)
    };
    let k2 = if k <= full_len(z, a) {
        k
    } else {
        full_len(z, a)
    };
    assert(conv_seq(a, z, k1) =~= z);
    assert(conv_seq(z, a, k2) =~= z);
}

/// One index of the Karatsuba assembly: the result coefficient formed
/// from the low, high and difference sub-products equals the product
/// coefficient of the full operands.
#[verifier::rlimit(100)]
proof fn lemma_kara_index(
    av: Seq<i64>,
    bv: Seq<i64>,
    a0: Seq<i64>,
    a1: Seq<i64>,
    b0: Seq<i64>,
    b1: Seq<i64>,
    d1: Seq<i64>,
    d2: Seq<i64>,
    lowv: Seq<i64>,
    highv: Seq<i64>,
    midv: Seq<i64>,
    ii: int,
    p: int,
    q: int,
)
    requires
        av.len() == bv.len(),
        6 <= av.len(),
        p == av.len() / 2,
        q == av.len() - p,
        a0 == av.subrange(0, p),
        a1 == av.subrange(p, av.len() as int),
        b0 == bv.subrange(0, p),
        b1 == bv.subrange(p, bv.len() as int),
        d1.len() == q,
        d2.len() == q,
        lowv.len() == 2 * p - 1,
        highv.len() == 2 * q - 1,
        midv.len() == 2 * q - 1,
        forall|m: int| 0 <= m < lowv.len() ==> lowv[m] == conv_at(a0, b0, m),
        forall|m: int| 0 <= m < highv.len() ==> highv[m] == conv_at(a1, b1, m),
        forall|m: int| 0 <= m < midv.len() ==> midv[m] == conv_at(d1, d2, m),
        forall|m: int| coef(d1, m) == wsub(coef(a0, m), coef(a1, m)),
        forall|m: int| coef(d2, m) == wsub(coef(b1, m), coef(b0, m)),
        0 <= ii,
    ensures
        wadd(
            wadd(
                coef(lowv, ii),
                if ii >= p {
                    wadd(wadd(coef(midv, ii - p), coef(lowv, ii - p)), coef(highv, ii - p))
                } else {
                    0
                },
            ),
            coef(highv, ii - 2 * p),
        ) == conv_at(av, bv, ii),
{
    let n = av.len() as int;
    let jj = ii - p;
    let t_mid = if ii >= p {
        wadd(wadd(coef(midv, jj), coef(lowv, jj)), coef(highv, jj))
    } else {
        0i64
    };
    // The four quarter products at the indices that matter.
    let c00i = conv_at(a0, b0, ii);
    let c00 = conv_at(a0, b0, jj);
    let c01 = conv_at(a0, b1, jj);
    let c10 = conv_at(a1, b0, jj);
    let c11 = conv_at(a1, b1, jj);
    let c11t = conv_at(a1, b1, ii - 2 * p);
    // The low slot holds the low product coefficient.
    if ii >= 2 * p - 1 {
        lemma_conv_beyond(a0, b0, ii);
    }
    assert(coef(lowv, ii) == c00i);
    // The high slot holds the shifted high product coefficient.
    if ii - 2 * p < 0 {
        lemma_conv_neg(a1, b1, ii - 2 * p, q);
    } else if ii - 2 * p >= 2 * q - 1 {
        lemma_conv_beyond(a1, b1, ii - 2 * p);
    }
    assert(coef(highv, ii - 2 * p) == c11t);
    // The middle slot holds the cross coefficient c01 + c10.
    if jj < 0 {
        lemma_conv_neg(a0, b1, jj, p);
        lemma_conv_neg(a1, b0, jj, q);
        lemma_wrap_id(0);
        assert(t_mid == wadd(c01, c10));
    } else {
        if jj >= 2 * q - 1 {
            lemma_conv_beyond(d1, d2, jj);
        }
        if jj >= 2 * p - 1 {
            lemma_conv_beyond(a0, b0, jj);
        }
        if jj >= 2 * q - 1 {
            lemma_conv_beyond(a1, b1, jj);
        }
        let cdd = conv_at(d1, d2, jj);
        assert(coef(midv, jj) == cdd);
        // Expand the difference product into the four quarters.
        lemma_conv_sub_left(d1, a0, a1, d2, jj, q);
        lemma_conv_upto_extend(a0, d2, jj, q);
        lemma_conv_sub_right(a0, d2, b1, b0, jj, p);
        lemma_conv_sub_right(a1, d2, b1, b0, jj, q);
        assert(cdd == wsub(wsub(c01, c00), wsub(c11, c10)));
        lemma_mid_recover(c00, c01, c10, c11);
        assert(t_mid == wadd(c01, c10));
    }
    // The true coefficient splits into the four quarters.
    assert(av =~= a0 + a1);
    lemma_conv_split_left(a0, a1, bv, ii);
    assert forall|m: int| #![trigger coef(bv, m)]
        true implies coef(bv, m) == wadd(coef(b0, m), coef(b1, m - p)) by {
        if 0 <= m < p {
            lemma_wadd_zero(bv[m]);
        } else if p <= m < n {
            lemma_wadd_zero(bv[m]);
        } else {
            lemma_wrap_id(0);
        }
    }
    lemma_conv_add_right(a0, bv, b0, b1, p, ii, p);
    lemma_conv_add_right(a1, bv, b0, b1, p, jj, q);
    assert(conv_at(av, bv, ii) == wadd(wadd(c00i, c01), wadd(c10, c11t)));
    lemma_wadd_regroup(c00i, c01, c10, c11t);
}

/// Links the clipped, shifted, padded operands that the Karatsuba core
/// multiplies back to the product coefficients of the originals.
proof fn lemma_kara_operands(
    av: Seq<i64>,
    bv: Seq<i64>,
    t1: Seq<i64>,
    t2: Seq<i64>,
    f1: int,
    f2: int,
    e1: int,
    e2: int,
    j: int,
)
    requires
        0 <= f1 < e1 <= av.len(),
        0 <= f2 < e2 <= bv.len(),
        t1.len() == t2.len(),
        t1.len() >= e1 - f1,
        t2.len() >= e2 - f2,
        t1.subrange(0, e1 - f1) == av.subrange(f1, av.len() as int).subrange(0, e1 - f1),
        t2.subrange(0, e2 - f2) == bv.subrange(f2, bv.len() as int).subrange(0, e2 - f2),
        forall|k: int| e1 - f1 <= k < t1.len() ==> t1[k] == 0,
        forall|k: int| e2 - f2 <= k < t2.len() ==> t2[k] == 0,
        forall|k: int| 0 <= k < f1 ==> av[k] == 0,
        forall|k: int| 0 <= k < f2 ==> bv[k] == 0,
        // The clip points keep every coefficient that can reach `j`.
        j + f1 + f2 < e1 + f2 || e1 == av.len(),
        j + f1 + f2 < e2 + f1 || e2 == bv.len(),
    ensures
        conv_at(t1, t2, j) == conv_at(av, bv, j + f1 + f2),
{
    let tail1 = av.subrange(f1, av.len() as int);
    let tail2 = bv.subrange(f2, bv.len() as int);
    let i = j + f1 + f2;
    // Padding and clipping of the right operand do not change the kept
    // coefficients.
    assert forall|k: int| 0 <= k <= j implies coef(t2, k) == coef(tail2, k) by {
        if k < e2 - f2 {
            assert(t2.subrange(0, e2 - f2)[k] == tail2.subrange(0, e2 - f2)[k]);
        } else {
            assert(coef(t2, k) == 0);
            if k < tail2.len() {
                // Only possible when the clip point kept everything,
                // which contradicts `k` lying past the clipped length.
                assert(e2 == bv.len());
                assert(tail2.len() == e2 - f2);
            }
        }
    }
    lemma_conv_congruent_right_low(t1, t2, tail2, j, t1.len() as int);
    // Now replace the left operand in the same way.
    assert forall|k: int| 0 <= k < e1 - f1 implies coef(t1, k) == coef(tail1, k) by {
        assert(t1.subrange(0, e1 - f1)[k] == tail1.subrange(0, e1 - f1)[k]);
    }
    lemma_conv_left_clip(t1, tail1, tail2, j, e1 - f1);
    // The zero runs shift the product.
    lemma_conv_shift_both(av, bv, tail1, tail2, f1, f2, i);
}

/// Replaces a clipped-and-padded left operand by the full tail.
proof fn lemma_conv_left_clip(t1: Seq<i64>, tail1: Seq<i64>, z: Seq<i64>, j: int, c: int)
    requires
        c >= 1,
        t1.len() >= c,
        forall|k: int| 0 <= k < c ==> coef(t1, k) == coef(tail1, k),
        forall|k: int| c <= k < t1.len() ==> t1[k] == 0,
        j < c || c == tail1.len(),
    ensures
        conv_at(t1, z, j) == conv_at(tail1, z, j),
{
    if c == tail1.len() {
        // No clipping happened; the operands agree everywhere.
        assert(forall|k: int| 0 <= k < t1.len() ==> coef(t1, k) == coef(tail1, k)) by {
            assert forall|k: int| 0 <= k < t1.len() implies coef(t1, k) == coef(tail1, k) by {
                if k >= c {
                    assert(t1[k] == 0);
                    assert(coef(tail1, k) == 0);
                }
            }
        }
        lemma_conv_upto_congruent(t1, z, tail1, z, j, t1.len() as int);
        lemma_conv_upto_extend(tail1, z, j, t1.len() as int);
    } else {
        // j < c: the summation can stop at c on both sides.
        lemma_conv_any(t1, z, j, c);
        lemma_conv_upto_congruent(t1, z, tail1, z, j, c);
        lemma_conv_any(tail1, z, j, c);
    }
}

/// Dropping the leading zero runs shifts the product coefficients.
proof fn lemma_conv_shift_both(
    av: Seq<i64>,
    bv: Seq<i64>,
    tail1: Seq<i64>,
    tail2: Seq<i64>,
    f1: int,
    f2: int,
    i: int,
)
    requires
        0 <= f1 <= av.len(),
        0 <= f2 <= bv.len(),
        tail1 == av.subrange(f1, av.len() as int),
        tail2 == bv.subrange(f2, bv.len() as int),
        forall|k: int| 0 <= k < f1 ==> av[k] == 0,
        forall|k: int| 0 <= k < f2 ==> bv[k] == 0,
    ensures
        conv_at(tail1, tail2, i - f1 - f2) == conv_at(av, bv, i),
{
    let z1 = av.subrange(0, f1);
    let z2 = bv.subrange(0, f2);
    assert(av =~= z1 + tail1);
    lemma_conv_split_left(z1, tail1, bv, i);
    lemma_conv_upto_zero_left(z1, bv, i, f1);
    lemma_wadd_zero(conv_at(tail1, bv, i - f1));
    lemma_conv_comm(tail1, bv, i - f1);
    assert(bv =~= z2 + tail2);
    lemma_conv_split_left(z2, tail2, tail1, i - f1);
    lemma_conv_upto_zero_left(z2, tail1, i - f1, f2);
    lemma_wadd_zero(conv_at(tail2, tail1, i - f1 - f2));
    lemma_conv_comm(tail2, tail1, i - f1 - f2);
}

} // verus!
