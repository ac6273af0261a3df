//! Formal power-series inversion by Newton iteration and Euclidean
//! polynomial division via reversed polynomials.  The division contract
//! is the full one: quotient times divisor plus remainder restores the
//! dividend, and the remainder's degree lies below the divisor's.

use vstd::prelude::*;
use crate::{Polynomial, wf, trim};
use crate::wrapped::{wadd, wsub, wmul};
use crate::wrapped::{
    lemma_unit_inverse, lemma_wadd_zero, lemma_wmul_one, lemma_wmul_unit_nonzero,
    lemma_wmul_zero, lemma_wrap_id, lemma_wsub_add,
};
use crate::arith::{psub, lemma_psub_coef, shifted};
use crate::convspec::{
    coef, conv_at, conv_upto, conv_seq, full_len, prod_trunc,
    lemma_conv_assoc, lemma_conv_beyond, lemma_conv_comm,
    lemma_conv_congruent_right_low, lemma_conv_rev, lemma_conv_sparse1,
    lemma_conv_upto_congruent, lemma_conv_upto_shrink, lemma_prod_trunc_coef,
    lemma_trim_coef, lemma_trim_len, lemma_trim_len_le, lemma_trim_pointwise,
};

verus! {

/// The coefficient sequence of the constant polynomial 1.
pub open spec fn one_at(j: int) -> i64 {
    if j == 0 {
        1
    } else {
        0
    }
}

/// A partial convolution sum against an operand pair that is known to
/// be zero on `1 .. rm` on both sides collapses to its two designated
/// terms (the argument behind one Newton iteration step).
proof fn lemma_newton_sum_low(g: Seq<i64>, d: Seq<i64>, j: int, rm: int, k: int)
    requires
        rm >= 1,
        1 <= j < 2 * rm,
        0 <= k <= j,
        forall|l: int| 1 <= l < rm ==> coef(g, l) == 0,
        forall|m: int| 1 <= m < rm ==> coef(d, m) == 0,
    ensures
        conv_upto(g, d, j, k) == (if k >= 1 {
            wmul(coef(g, 0), coef(d, j))
        } else {
            0i64
        }),
    decreases k,
{
    if k == 0 {
    } else if k == 1 {
        assert(conv_upto(g, d, j, 0) == 0);
        lemma_wadd_zero(wmul(coef(g, 0), coef(d, j)));
    } else {
        lemma_newton_sum_low(g, d, j, rm, k - 1);
        let l = k - 1;
        if l < rm {
            assert(coef(g, l) == 0);
            lemma_wmul_zero(coef(d, j - l));
        } else {
            assert(1 <= j - l < rm);
            assert(coef(d, j - l) == 0);
            lemma_wmul_zero(coef(g, l));
        }
        lemma_wadd_zero(wmul(coef(g, 0), coef(d, j)));
    }
}

proof fn lemma_newton_sum(g: Seq<i64>, d: Seq<i64>, j: int, rm: int, n: int)
    requires
        rm >= 1,
        0 <= j < 2 * rm,
        n > j,
        forall|l: int| 1 <= l < rm ==> coef(g, l) == 0,
        forall|m: int| 1 <= m < rm ==> coef(d, m) == 0,
    ensures
        conv_upto(g, d, j, n) == (if j == 0 {
            wmul(coef(g, 0), coef(d, 0))
        } else {
            wadd(wmul(coef(g, 0), coef(d, j)), wmul(coef(g, j), coef(d, 0)))
        }),
    decreases n,
{
    if n - 1 > j {
        let l = n - 1;
        if l < rm {
            assert(coef(g, l) == 0);
            lemma_wmul_zero(coef(d, j - l));
        } else {
            assert(coef(d, j - l) == 0);
            lemma_wmul_zero(coef(g, l));
        }
        lemma_newton_sum(g, d, j, rm, n - 1);
        lemma_wadd_zero(conv_upto(g, d, j, n - 1));
    } else {
        // n - 1 == j: the designated diagonal term is peeled here.
        if j == 0 {
            assert(conv_upto(g, d, j, 0) == 0);
            lemma_wadd_zero(wmul(coef(g, 0), coef(d, 0)));
        } else {
            lemma_newton_sum_low(g, d, j, rm, j);
        }
    }
}

/// One Newton step: if `v` inverts `u` modulo `X^rm`, then
/// `v * (2 - u * v)` inverts `u` modulo `X^(2 rm)` (within the working
/// precision `md`).
#[verifier::rlimit(100)]
proof fn lemma_newton_step(
    u: Seq<i64>,
    v: Seq<i64>,
    w: Seq<i64>,
    d: Seq<i64>,
    vn: Seq<i64>,
    rm: int,
    md: int,
)
    requires
        1 <= rm < md,
        forall|j: int| #![trigger conv_at(u, v, j)] 0 <= j < rm && j < md ==> conv_at(u, v, j) == one_at(j),
        w == prod_trunc(u, v, md),
        d == trim(psub(seq![2i64], w)),
        vn == prod_trunc(v, d, md),
    ensures
        forall|j: int| #![trigger conv_at(u, vn, j)] 0 <= j < 2 * rm && j < md ==> conv_at(u, vn, j) == one_at(j),
{
    let two = seq![2i64];
    let pd = psub(two, w);
    lemma_prod_trunc_coef(u, v, md);
    lemma_prod_trunc_coef(v, d, md);
    lemma_psub_coef(two, w);
    lemma_trim_coef(pd);
    assert(d == trim(pd));
    lemma_wrap_id(0);
    lemma_wrap_id(1);
    // The correction term: 1 at index 0, zero on 1 .. rm, and the
    // negated product coefficient beyond.
    assert forall|m: int| #![trigger coef(d, m)]
        true implies coef(d, m) == (if m == 0 {
        1i64
    } else if 0 <= m < md {
        wsub(0, conv_at(u, v, m))
    } else {
        0i64
    }) by {
        assert(coef(d, m) == coef(pd, m));
        assert(coef(pd, m) == wsub(coef(two, m), coef(w, m)));
        if m == 0 {
            assert(conv_at(u, v, 0) == one_at(0));
            assert(coef(two, 0) == 2);
            assert(coef(w, 0) == 1);
            assert(coef(d, 0) == wsub(2, 1));
        } else if 1 <= m < rm {
            assert(conv_at(u, v, m) == one_at(m));
            assert(coef(w, m) == 0);
        } else if 0 <= m < md {
            assert(coef(w, m) == conv_at(u, v, m));
            assert(coef(two, m) == 0);
        } else {
            assert(coef(w, m) == 0);
            assert(coef(two, m) == 0);
        }
    }
    assert forall|j: int| 0 <= j < 2 * rm && j < md implies conv_at(u, vn, j) == one_at(j) by {
        // Replace vn by the materialized product of v and d.
        let vd = conv_seq(v, d, md);
        assert forall|l: int| true implies coef(vn, l) == coef(vd, l) by {
            if 0 <= l < md {
            } else {
                assert(coef(vn, l) == 0);
                assert(coef(vd, l) == 0);
            }
        }
        lemma_conv_upto_congruent(u, vn, u, vd, j, u.len() as int);
        // Regroup: u * (v * d) == (u * v) * d.
        lemma_conv_assoc(u, v, d, j, md, md);
        let g = conv_seq(u, v, md);
        assert forall|l: int| 1 <= l < rm implies coef(g, l) == 0 by {
            assert(conv_at(u, v, l) == 0);
        }
        assert forall|m: int| 1 <= m < rm implies coef(d, m) == 0 by {
            assert(conv_at(u, v, m) == 0);
        }
        lemma_newton_sum(g, d, j, rm, g.len() as int);
        assert(coef(g, 0) == 1);
        assert(coef(d, 0) == 1);
        if j == 0 {
            lemma_wmul_one(1);
        } else if j < rm {
            assert(coef(g, j) == 0);
            assert(coef(d, j) == 0);
            lemma_wmul_zero(1);
            lemma_wmul_zero(0);
            lemma_wadd_zero(0);
        } else {
            let gj = conv_at(u, v, j);
            assert(coef(g, j) == gj);
            assert(coef(d, j) == wsub(0, gj));
            lemma_wmul_one(wsub(0, gj));
            lemma_wmul_one(gj);
            assert(wmul(coef(g, j), coef(d, 0)) == gj);
            lemma_wsub_add(0, gj);
        }
    }
}

/// Inverse correctness, in the form callers observe it: when `v`
/// inverts `u` modulo `X^k` (as the `inverse` contract states), the
/// short product of `u` and `v` modulo `X^k` is exactly the constant
/// polynomial 1.
pub proof fn lemma_inverse_short_product(u: Seq<i64>, v: Seq<i64>, k: int)
    requires
        k >= 1,
        forall|j: int| #![trigger conv_at(u, v, j)] 0 <= j < k ==> conv_at(u, v, j) == one_at(j),
    ensures
        prod_trunc(u, v, k) == seq![1i64],
{
    let kk = if k <= full_len(u, v) {
        k
    } else {
        full_len(u, v)
    };
    let cs = conv_seq(u, v, kk);
    let one = seq![1i64];
    // The operands cannot be empty, since their product has the
    // non-zero constant coefficient 1.
    if u.len() == 0 {
        assert(conv_upto(u, v, 0, 0) == 0);
        assert(conv_at(u, v, 0) == 0);
    }
    if v.len() == 0 {
        crate::convspec::lemma_conv_upto_zero_right(u, v, 0, u.len() as int);
        assert(conv_at(u, v, 0) == 0);
    }
    assert(kk >= 1);
    lemma_prod_trunc_coef(u, v, k);
    assert forall|i: int| coef(cs, i) == coef(one, i) by {
        if 0 <= i < kk {
            assert(coef(prod_trunc(u, v, k), i) == conv_at(u, v, i));
        } else if kk <= i < k {
            assert(coef(prod_trunc(u, v, k), i) == conv_at(u, v, i));
            assert(coef(cs, i) == 0);
            lemma_conv_beyond(u, v, i);
        }
    }
    lemma_trim_pointwise(cs, one);
    assert(crate::trim(one) == one);
}

impl Polynomial {
    /// The inverse of `u` as a formal power series, modulo
    /// `X^modulus`, computed by Newton iteration.  The constant
    /// coefficient must be a unit, i.e. 1 or -1; the product of `u`
    /// with the result is congruent to 1 modulo `X^modulus`.
    #[verifier::loop_isolation(false)]
    #[verifier::rlimit(60)]
    pub fn inverse(u: &Self, modulus: usize) -> (r: Self)
        requires
            u@.len() >= 1,
            u@[0] == 1 || u@[0] == -1,
            u@.len() <= 0x1000_0000,
            modulus <= 0x1000_0000,
        ensures
            wf(r@),
            r@.len() <= (if modulus >= 1 {
                modulus as int
            } else {
                1
            }),
            forall|j: int| #![trigger conv_at(u@, r@, j)] 0 <= j < modulus ==> conv_at(u@, r@, j) == one_at(j),
    {
        let mut tv: Vec<i64> = Vec::new();
        tv.push(2);
        let two = Polynomial { coeffs: tv };
        let mut vv: Vec<i64> = Vec::new();
        vv.push(u.coeffs[0]);
        let mut v = Polynomial { coeffs: vv };
        proof {
            assert(two@ =~= seq![2i64]);
            assert(v@ =~= seq![u@[0]]);
            // The seed inverts the constant coefficient: (+-1)^2 == 1.
            lemma_conv_upto_shrink(u@, v@, 0, 1, u@.len() as int);
            assert(conv_upto(u@, v@, 0, 0) == 0);
            assert(coef(u@, 0) == u@[0]);
            assert(coef(v@, 0) == v@[0]);
            assert(conv_upto(u@, v@, 0, 1) == wadd(0, wmul(u@[0], v@[0])));
            assert(v@[0] == u@[0]);
            assert(u@[0] as int * v@[0] as int == 1) by (nonlinear_arith)
                requires
                    u@[0] == 1 || u@[0] == -1,
                    v@[0] == u@[0],
            ;
            lemma_wrap_id(1);
            lemma_wadd_zero(1);
        }
        let mut rm: usize = 1;
        while rm < modulus
            invariant
                1 <= rm <= 0x4000_0000,
                wf(v@),
                v@.len() >= 1,
                v@.len() <= (if modulus >= 1 {
                    modulus as int
                } else {
                    1
                }),
                forall|j: int| #![trigger conv_at(u@, v@, j)] 0 <= j < rm && j < modulus ==> conv_at(u@, v@, j) == one_at(j),
            decreases modulus - rm,
        {
            let w = Polynomial::short_product(u, &v, modulus);
            proof {
                let kk = if modulus as int <= full_len(u@, v@) {
                    modulus as int
                } else {
                    full_len(u@, v@)
                };
                lemma_trim_len(conv_seq(u@, v@, kk));
                assert(w@.len() <= modulus);
            }
            let d = two.sub(&w);
            proof {
                lemma_trim_len(psub(two@, w@));
                assert(d@.len() <= modulus + 1);
            }
            let vn = Polynomial::short_product(&v, &d, modulus);
            proof {
                lemma_newton_step(u@, v@, w@, d@, vn@, rm as int, modulus as int);
                // The updated approximation cannot be longer than the
                // working precision.
                let kk = if modulus as int <= full_len(v@, d@) {
                    modulus as int
                } else {
                    full_len(v@, d@)
                };
                lemma_trim_len(conv_seq(v@, d@, kk));
                if vn@.len() == 0 {
                    assert(conv_at(u@, vn@, 0) == conv_upto(u@, vn@, 0, u@.len() as int));
                    crate::convspec::lemma_conv_upto_zero_right(u@, vn@, 0, u@.len() as int);
                    assert(one_at(0) == 1i64);
                }
            }
            v = vn;
            rm = if rm * 2 <= modulus {
                rm * 2
            } else {
                modulus
            };
        }
        v
    }

    /// Euclidean division: returns `(quotient, remainder)` with
    /// `divisor * quotient + remainder == dividend` and the remainder
    /// shorter than the divisor.  The divisor must not be zero and its
    /// leading coefficient must be a unit (1 or -1).  The arguments are
    /// reversed in place for the power-series step and restored before
    /// returning.
    #[verifier::loop_isolation(false)]
    #[verifier::rlimit(100)]
    pub fn euclidean_division(p1: &mut Self, p2: &mut Self) -> (qr: (Self, Self))
        requires
            wf(old(p1)@),
            wf(old(p2)@),
            old(p2)@.len() > 0,
            old(p2)@.last() == 1 || old(p2)@.last() == -1,
            old(p1)@.len() + old(p2)@.len() <= 0x1000_0000,
        ensures
            final(p1)@ == old(p1)@,
            final(p2)@ == old(p2)@,
            wf(qr.0@),
            wf(qr.1@),
            qr.1@.len() < old(p2)@.len(),
            qr.0@.len() == (if old(p1)@.len() >= old(p2)@.len() {
                old(p1)@.len() - old(p2)@.len() + 1
            } else {
                0int
            }),
            forall|i: int| #![trigger coef(old(p1)@, i)]
                coef(old(p1)@, i) == wadd(conv_at(old(p2)@, qr.0@, i), coef(qr.1@, i)),
    {
        let ghost p1v = old(p1)@;
        let ghost p2v = old(p2)@;
        let dm = p1.degree();
        let dn = p2.degree();
        if dm < dn {
            let q = Polynomial::new();
            let r = p1.duplicate();
            proof {
                assert forall|i: int|
                    coef(p1v, i) == wadd(conv_at(p2v, q@, i), coef(r@, i)) by {
                    crate::convspec::lemma_conv_upto_zero_right(p2v, q@, i, p2v.len() as int);
                    lemma_wadd_zero(coef(p1v, i));
                }
            }
            return (q, r);
        }
        let k = dm - dn + 1;
        p1.rev_inplace();
        p2.rev_inplace();
        proof {
            assert(p2@[0] == p2v.last());
            if p1v.len() > 0 {
                assert(p1@[0] == p1v.last());
                assert(crate::multiply::has_nonzero(p1@));
            }
        }
        let h = Polynomial::inverse(p2, k);
        let w = Polynomial::short_product(p1, &h, k);
        p1.rev_inplace();
        p2.rev_inplace();
        proof {
            assert(p1@ =~= p1v);
            assert(p2@ =~= p2v);
        }
        let ghost rp1 = p1v.reverse();
        let ghost rp2 = p2v.reverse();
        let ghost ki = k as int;
        proof {
            // The computed short product keeps at most k coefficients.
            let kk = if ki <= full_len(rp1, h@) {
                ki
            } else {
                full_len(rp1, h@)
            };
            lemma_trim_len(conv_seq(rp1, h@, kk));
            assert(w@.len() <= ki);
            lemma_prod_trunc_coef(rp1, h@, ki);
            if p1v.len() > 0 {
                // The constant coefficient of the reversed-product is
                // the dividend's leading coefficient times a unit, so
                // the quotient has full length k after reversal.
                lemma_conv_upto_shrink(rp2, h@, 0, 1, rp2.len() as int);
                assert(conv_upto(rp2, h@, 0, 0) == 0);
                assert(conv_at(rp2, h@, 0) == wadd(0, wmul(rp2[0], coef(h@, 0))));
                lemma_wadd_zero(wmul(rp2[0], coef(h@, 0)));
                assert(wmul(rp2[0], coef(h@, 0)) == one_at(0));
                lemma_unit_inverse(rp2[0], coef(h@, 0));
                assert(coef(h@, 0) == p2v.last());
                lemma_conv_upto_shrink(rp1, h@, 0, 1, rp1.len() as int);
                assert(conv_upto(rp1, h@, 0, 0) == 0);
                assert(conv_at(rp1, h@, 0) == wadd(0, wmul(rp1[0], coef(h@, 0))));
                lemma_wadd_zero(wmul(rp1[0], coef(h@, 0)));
                assert(rp1[0] == p1v.last());
                lemma_wmul_unit_nonzero(p1v.last(), coef(h@, 0));
                assert(coef(w@, 0) == conv_at(rp1, h@, 0));
                assert(coef(w@, 0) != 0);
                assert(w@.len() >= 1);
            }
        }
        let q0 = w.rev();
        proof {
            if p1v.len() > 0 {
                assert(w@.reverse().last() == w@[0]);
                assert(wf(w@.reverse()));
                crate::lemma_trim_id(w@.reverse());
                assert(q0@ == w@.reverse());
            } else {
                assert(w@.len() == 0);
                assert(q0@.len() == 0);
            }
            assert(q0@.len() <= ki);
        }
        let dq = q0.degree();
        let s = dm - dn - dq;
        let q = q0.shl(s);
        proof {
            assert(q@ == shifted(q0@, s as int));
            if p1v.len() > 0 {
                assert(q@.len() == ki);
                assert(q@.last() == q0@.last());
                assert(wf(q@));
            } else {
                assert(s == 0);
                assert(q@.len() == 0);
            }
        }
        let prod = p2.mul(&q);
        let r = p1.sub(&prod);
        proof {
            let qv = q@;
            let mi = dm as int;
            let ni = dn as int;
            // Every product coefficient of divisor and quotient.
            lemma_prod_trunc_coef(p2v, qv, full_len(p2v, qv));
            assert forall|i: int| #![trigger coef(prod@, i)]
                coef(prod@, i) == conv_at(p2v, qv, i) by {
                if 0 <= i < full_len(p2v, qv) {
                } else {
                    if i < 0 {
                        crate::convspec::lemma_conv_neg(p2v, qv, i, p2v.len() as int);
                    } else {
                        lemma_conv_beyond(p2v, qv, i);
                    }
                }
            }
            // The division identity, coefficient by coefficient.
            assert(p1@ == p1v);
            assert(r@ == trim(psub(p1v, prod@)));
            lemma_psub_coef(p1v, prod@);
            lemma_trim_coef(psub(p1v, prod@));
            assert forall|i: int| #![trigger coef(p1v, i)]
                coef(p1v, i) == wadd(conv_at(p2v, qv, i), coef(r@, i)) by {
                assert(coef(r@, i) == coef(psub(p1v, prod@), i));
                assert(coef(psub(p1v, prod@), i) == wsub(coef(p1v, i), coef(prod@, i)));
                lemma_wsub_add(coef(p1v, i), conv_at(p2v, qv, i));
            }
            // The high coefficients of the product match the dividend,
            // so the remainder is shorter than the divisor.
            if p1v.len() > 0 {
                let ws = w@ + Seq::new((s as int) as nat, |x: int| 0i64);
                assert forall|x: int| 0 <= x < ki implies qv.reverse()[x] == coef(ws, x) by {
                    if x < w@.len() {
                        assert(qv.reverse()[x] == qv[ki - 1 - x]);
                        assert(qv[ki - 1 - x] == q0@[ki - 1 - x - s]);
                        assert(q0@[w@.len() - 1 - x] == w@[x]);
                    } else {
                        assert(qv.reverse()[x] == qv[ki - 1 - x]);
                        assert(ki - 1 - x < s);
                    }
                }
                let wseq = conv_seq(rp1, h@, ki);
                let sw = conv_seq(h@, rp1, ki);
                let e = conv_seq(rp2, h@, ki);
                assert forall|l: int| 0 <= l <= mi - ni implies coef(ws, l) == coef(sw, l) by {
                    assert(coef(w@, l) == conv_at(rp1, h@, l));
                    if l < w@.len() {
                    } else {
                        assert(coef(ws, l) == 0);
                    }
                    lemma_conv_comm(rp1, h@, l);
                }
                assert forall|l: int| 0 <= l < ki && l != 0 implies coef(e, l) == 0 by {
                    assert(conv_at(rp2, h@, l) == one_at(l));
                }
                assert forall|i: int| ni <= i implies conv_at(p2v, qv, i) == coef(p1v, i) by {
                    if i > mi {
                        lemma_conv_beyond(p2v, qv, i);
                        assert(coef(p1v, i) == 0);
                    } else {
                        let t = mi - i;
                        lemma_conv_rev(p2v, qv, t);
                        assert(p2v.len() + qv.len() - 2 - t == i);
                        assert(conv_at(rp2, qv.reverse(), t) == conv_at(p2v, qv, i));
                        lemma_conv_congruent_right_low(rp2, qv.reverse(), sw, t, rp2.len() as int);
                        lemma_conv_assoc(rp2, h@, rp1, t, ki, ki);
                        assert(conv_at(rp2, sw, t) == conv_at(e, rp1, t));
                        lemma_conv_sparse1(e, rp1, t, ki, 0);
                        assert(conv_at(e, rp1, t) == wmul(coef(e, 0), coef(rp1, t)));
                        assert(coef(e, 0) == conv_at(rp2, h@, 0));
                        assert(coef(e, 0) == 1);
                        lemma_wmul_one(coef(rp1, t));
                        assert(coef(rp1, t) == p1v[mi - t]);
                    }
                }
                lemma_wrap_id(0);
                assert forall|i: int| i >= ni implies coef(psub(p1v, prod@), i) == 0 by {
                    assert(coef(prod@, i) == conv_at(p2v, qv, i));
                    assert(conv_at(p2v, qv, i) == coef(p1v, i));
                }
                lemma_trim_len_le(psub(p1v, prod@), ni);
                assert(r@.len() <= ni);
            } else {
                assert forall|i: int| i >= 0 implies coef(psub(p1v, prod@), i) == 0 by {
                    assert(coef(prod@, i) == conv_at(p2v, qv, i));
                    crate::convspec::lemma_conv_upto_zero_right(p2v, qv, i, p2v.len() as int);
                    assert(coef(p1v, i) == 0);
                    lemma_wrap_id(0);
                }
                lemma_trim_len_le(psub(p1v, prod@), 0);
                assert(r@.len() == 0);
            }
        }
        (q, r)
    }

    /// Euclidean division on borrowed arguments: copies the operands
    /// and divides the copies, with the same contract.
    pub fn euclidean_division_immutable(p1: &Self, p2: &Self) -> (qr: (Self, Self))
        requires
            wf(p1@),
            wf(p2@),
            p2@.len() > 0,
            p2@.last() == 1 || p2@.last() == -1,
            p1@.len() + p2@.len() <= 0x1000_0000,
        ensures
            wf(qr.0@),
            wf(qr.1@),
            qr.1@.len() < p2@.len(),
            qr.0@.len() == (if p1@.len() >= p2@.len() {
                p1@.len() - p2@.len() + 1
            } else {
                0int
            }),
            forall|i: int| #![trigger coef(p1@, i)]
                coef(p1@, i) == wadd(conv_at(p2@, qr.0@, i), coef(qr.1@, i)),
    {
        let mut c1 = p1.duplicate();
        let mut c2 = p2.duplicate();
        Polynomial::euclidean_division(&mut c1, &mut c2)
    }
}

} // verus!
