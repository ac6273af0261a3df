//! Polynomial greatest common divisors by the recursive Euclidean
//! algorithm.  Exact integer coefficients make this fragile: at every
//! step each coefficient in play must be divisible by the divisor's
//! leading coefficient, and the computation reports an error when that
//! fails instead of returning a wrong result.

use vstd::prelude::*;
use crate::{Polynomial, wf};
use crate::wrapped::{wadd, wmul, wsub_e};
use crate::wrapped::{lemma_wadd_zero, lemma_wmul_one, lemma_wmul_zero, lemma_wrap_id};
use crate::convspec::{
    coef, conv_at, conv_seq, conv_upto, full_len,
    lemma_conv_add_right, lemma_conv_assoc, lemma_conv_beyond, lemma_conv_comm,
    lemma_conv_congruent_right_low, lemma_conv_right_zero_window, lemma_conv_scale_right,
    lemma_conv_upto_zero_right,
};
use vstd::arithmetic::div_mod::{lemma_fundamental_div_mod, lemma_mod_multiples_basic};

verus! {

/// `c` multiplied by `g` has exactly the coefficients of `p`.
pub open spec fn is_quotient_of(g: Seq<i64>, p: Seq<i64>, c: Seq<i64>) -> bool {
    forall|i: int| #![trigger coef(p, i)] coef(p, i) == conv_at(g, c, i)
}

/// `g` divides `p` in the coefficient ring: some polynomial multiplied
/// by `g` has exactly the coefficients of `p`.
pub open spec fn pdivides(g: Seq<i64>, p: Seq<i64>) -> bool {
    exists|c: Seq<i64>| #[trigger] is_quotient_of(g, p, c)
}

/// `d` divides `x` exactly over the integers.
pub open spec fn divides_int(d: i64, x: i64) -> bool {
    exists|c: int| x as int == #[trigger] (c * (d as int))
}

/// The integer quotient of an exact division `x / d`, wrapped into a
/// coefficient.  When `d` divides `x` over the integers the quotient
/// is unique, so the choice is determined; `wrap` only matters for the
/// one quotient (2^63) that does not fit an `i64`.
pub open spec fn exact_quot(x: i64, d: i64) -> i64 {
    crate::wrapped::wrap(choose|c: int| x as int == #[trigger] (c * (d as int)))
}

/// Every stored coefficient of `s` is an exact integer multiple of
/// `lc`.
pub open spec fn all_div(s: Seq<i64>, lc: i64) -> bool {
    forall|i: int| 0 <= i < s.len() ==> divides_int(lc, #[trigger] s[i])
}

/// `s` with every coefficient divided exactly by `lc`.
pub open spec fn scaled_seq(s: Seq<i64>, lc: i64) -> Seq<i64> {
    Seq::new(s.len(), |i: int| exact_quot(s[i], lc))
}

/// `q` and `r` are a quotient-remainder pair for dividing `a` by `b`:
/// they rebuild `a` coefficient by coefficient and the remainder is
/// shorter than the divisor.
pub open spec fn is_division_pair(a: Seq<i64>, b: Seq<i64>, q: Seq<i64>, r: Seq<i64>) -> bool {
    &&& forall|i: int| #![trigger coef(a, i)] coef(a, i) == wadd(conv_at(b, q, i), coef(r, i))
    &&& r.len() < b.len()
    &&& wf(r)
}

/// The remainder of the Euclidean division of `a` by `b`.  When the
/// leading coefficient of `b` is a unit the pair is unique in its
/// remainder (`lemma_division_pair_unique`), so this picks the one
/// remainder the division algorithm computes.
pub open spec fn spec_rem(a: Seq<i64>, b: Seq<i64>) -> Seq<i64> {
    (choose|qr: (Seq<i64>, Seq<i64>)| #[trigger] is_division_pair(a, b, qr.0, qr.1)).1
}

/// The recursive Euclidean chain, with explicit fuel for termination:
/// a zero divisor ends the chain with the current dividend; a leading
/// coefficient that fails to divide some coefficient of either
/// polynomial ends it with `None`; otherwise both are scaled down and
/// the chain continues on the divisor and the division remainder.
pub open spec fn gcd_chain(a: Seq<i64>, b: Seq<i64>, fuel: nat) -> Option<Seq<i64>>
    decreases fuel,
{
    if b.len() == 0 {
        Some(a)
    } else if fuel == 0 {
        None
    } else if !all_div(b, b.last()) || !all_div(a, b.last()) {
        None
    } else {
        let b2 = scaled_seq(b, b.last());
        let a2 = scaled_seq(a, b.last());
        let r = spec_rem(a2, b2);
        if r.len() < b2.len() {
            gcd_chain(b2, r, (fuel - 1) as nat)
        } else {
            None
        }
    }
}

/// The result of the recursive Euclidean algorithm on `a` and `b`:
/// `Some` of the final divisor when every leading-coefficient
/// divisibility check along the chain passes, `None` otherwise.  Fuel
/// `b.len()` always suffices, because every division remainder is
/// shorter than its divisor.
pub open spec fn gcd_spec(a: Seq<i64>, b: Seq<i64>) -> Option<Seq<i64>> {
    gcd_chain(a, b, b.len())
}

/// The chain's value does not depend on the fuel, as long as the fuel
/// covers the divisor's length.
proof fn lemma_gcd_chain_fuel(a: Seq<i64>, b: Seq<i64>, f1: nat, f2: nat)
    requires
        f1 >= b.len(),
        f2 >= b.len(),
    ensures
        gcd_chain(a, b, f1) == gcd_chain(a, b, f2),
    decreases f1 + f2,
{
    if b.len() == 0 {
    } else if !all_div(b, b.last()) || !all_div(a, b.last()) {
    } else {
        let b2 = scaled_seq(b, b.last());
        let a2 = scaled_seq(a, b.last());
        let r = spec_rem(a2, b2);
        if r.len() < b2.len() {
            lemma_gcd_chain_fuel(b2, r, (f1 - 1) as nat, (f2 - 1) as nat);
        }
    }
}

/// A known integer quotient settles the value of `exact_quot`.
proof fn lemma_exact_quot(x: i64, d: i64, c0: int)
    requires
        d != 0,
        x as int == c0 * (d as int),
    ensures
        exact_quot(x, d) == crate::wrapped::wrap(c0),
{
    let ch = choose|c: int| x as int == #[trigger] (c * (d as int));
    assert(x as int == ch * (d as int));
    assert(ch == c0) by (nonlinear_arith)
        requires
            x as int == ch * (d as int),
            x as int == c0 * (d as int),
            d != 0,
    ;
}

/// The reason a greatest-common-divisor computation failed: one of
/// the two polynomials in play held `coefficient` at degree `index`,
/// and it is not an integer multiple of the divisor's leading
/// coefficient `leading`.
#[derive(Debug)]
pub struct GcdError {
    pub index: usize,
    pub coefficient: i64,
    pub leading: i64,
}

/// The exact integer quotient of `x` by `d`, or `None` when `d` does
/// not divide `x`.  On success the quotient times `d` wraps back to
/// exactly `x`.
fn div_coeff(x: i64, d: i64) -> (r: Option<i64>)
    requires
        d != 0,
    ensures
        r matches Some(c) ==> wmul(c, d) == x && divides_int(d, x) && c == exact_quot(x, d),
        r is None ==> !divides_int(d, x),
        x == d ==> (r matches Some(c) && c == 1),
{
    if d == 1 {
        proof {
            lemma_wmul_one(x);
            assert(x as int == (x as int) * 1);
            lemma_exact_quot(x, d, x as int);
            lemma_wrap_id(x as int);
        }
        return Some(x);
    }
    if d == -1 {
        let c = wsub_e(0, x);
        proof {
            assert(x as int == (-(x as int)) * ((-1) as int)) by (nonlinear_arith);
            if x == i64::MIN {
                assert(c == x) by {
                    vstd::arithmetic::div_mod::lemma_mod_add_multiples_vanish(
                        -(x as int),
                        0x1_0000_0000_0000_0000,
                    );
                    vstd::arithmetic::div_mod::lemma_small_mod(
                        (-(x as int) - 0x1_0000_0000_0000_0000 + 0x1_0000_0000_0000_0000) as nat,
                        0x1_0000_0000_0000_0000,
                    );
                }
                assert(wmul(c, d) == x) by {
                    assert(c as int * (d as int) == 0x8000_0000_0000_0000) by (nonlinear_arith)
                        requires
                            c == i64::MIN,
                            d == -1,
                    ;
                    vstd::arithmetic::div_mod::lemma_small_mod(
                        0x8000_0000_0000_0000nat,
                        0x1_0000_0000_0000_0000,
                    );
                }
            } else {
                crate::wrapped::lemma_wrap_id(-(x as int));
                assert(c == -x);
                assert(c as int * (d as int) == x as int) by (nonlinear_arith)
                    requires
                        c as int == -(x as int),
                        d == -1,
                ;
                crate::wrapped::lemma_wrap_id(x as int);
                if x == -1 {
                    assert(c == 1);
                }
            }
            lemma_exact_quot(x, d, -(x as int));
            assert(c == crate::wrapped::wrap(-(x as int)));
        }
        return Some(c);
    }
    // |d| >= 2: decide divisibility on the magnitudes.
    let ax: u64 = if x >= 0 {
        x as u64
    } else {
        ((-(x as i128)) as u64)
    };
    let ad: u64 = if d >= 0 {
        d as u64
    } else {
        ((-(d as i128)) as u64)
    };
    proof {
        assert(ax as int == (if x >= 0 { x as int } else { -(x as int) }));
        assert(ad as int == (if d >= 0 { d as int } else { -(d as int) }));
        assert(ad >= 2);
    }
    let q = ax / ad;
    let rem = ax % ad;
    if rem != 0 {
        proof {
            // If some c satisfied x == c * d, the magnitudes would
            // divide exactly.
            if divides_int(d, x) {
                let c = choose|c: int| x as int == #[trigger] (c * (d as int));
                let am: int = if c >= 0 { c } else { -c };
                assert(ax as int == am * (ad as int)) by (nonlinear_arith)
                    requires
                        x as int == c * (d as int),
                        am == (if c >= 0 { c } else { -(c as int) }),
                        ax as int == (if x >= 0 { x as int } else { -(x as int) }),
                        ad as int == (if d >= 0 { d as int } else { -(d as int) }),
                ;
                lemma_mod_multiples_basic(am, ad as int);
                assert(ax as int % (ad as int) == 0);
            }
            if x == d {
                lemma_mod_multiples_basic(1, ad as int);
                assert(1 * (ad as int) == ad as int);
                assert(ax as int % (ad as int) == 0);
            }
        }
        return None;
    }
    proof {
        lemma_fundamental_div_mod(ax as int, ad as int);
        assert(ax as int == (ad as int) * (ax as int / ad as int));
        assert(q as int == ax as int / ad as int);
        assert(q as int * (ad as int) <= ax as int) by (nonlinear_arith)
            requires
                ax as int == (ad as int) * (q as int),
        ;
        assert(q <= 0x7fff_ffff_ffff_ffff) by (nonlinear_arith)
            requires
                ax as int == (ad as int) * (q as int),
                ad >= 2,
                ax < 0x1_0000_0000_0000_0000,
                q >= 0,
        ;
    }
    let qi = q as i64;
    let c: i64 = if (x < 0) != (d < 0) {
        -qi
    } else {
        qi
    };
    proof {
        assert(c as int * (d as int) == x as int) by (nonlinear_arith)
            requires
                ax as int == (ad as int) * (q as int),
                ax as int == (if x >= 0 { x as int } else { -(x as int) }),
                ad as int == (if d >= 0 { d as int } else { -(d as int) }),
                c as int == (if (x < 0) != (d < 0) { -(q as int) } else { q as int }),
        ;
        assert(x as int == (c as int) * (d as int));
        lemma_wrap_id(x as int);
        assert(wmul(c, d) == x);
        lemma_exact_quot(x, d, c as int);
        lemma_wrap_id(c as int);
        if x == d {
            assert(c == 1) by (nonlinear_arith)
                requires
                    c as int * (d as int) == x as int,
                    x == d,
                    d != 0,
            ;
        }
    }
    Some(c)
}

/// Divides every coefficient of `p` by `lc` exactly, or reports the
/// first coefficient that is not divisible.
fn scale_down(p: &Polynomial, lc: i64) -> (r: Result<Polynomial, GcdError>)
    requires
        lc != 0,
    ensures
        r matches Ok(d) ==> {
            &&& d@.len() == p@.len()
            &&& d@ == scaled_seq(p@, lc)
            &&& all_div(p@, lc)
            &&& forall|i: int| #![trigger coef(p@, i)] coef(p@, i) == wmul(lc, coef(d@, i))
            &&& (p@.len() > 0 && p@.last() == lc ==> d@.last() == 1)
        },
        r matches Err(e) ==> {
            &&& e.index < p@.len()
            &&& e.leading == lc
            &&& e.coefficient == p@[e.index as int]
            &&& !divides_int(lc, p@[e.index as int])
            &&& forall|k: int| 0 <= k < e.index ==> divides_int(lc, #[trigger] p@[k])
        },
{
    let n = p.coeffs.len();
    let mut v: Vec<i64> = Vec::new();
    let mut i: usize = 0;
    while i < n
        invariant
            i <= n,
            n == p@.len(),
            lc != 0,
            v@.len() == i,
            forall|k: int| 0 <= k < i ==> p@[k] == wmul(lc, v@[k]),
            forall|k: int| 0 <= k < i && p@[k] == lc ==> v@[k] == 1,
            forall|k: int| 0 <= k < i ==> v@[k] == exact_quot(p@[k], lc),
            forall|k: int| 0 <= k < i ==> divides_int(lc, #[trigger] p@[k]),
        decreases n - i,
    {
        let x = p.coeffs[i];
        match div_coeff(x, lc) {
            Some(c) => {
                proof {
                    assert(wmul(c, lc) == x);
                    assert(wmul(lc, c) == wmul(c, lc));
                }
                v.push(c);
            },
            None => {
                return Err(GcdError { index: i, coefficient: x, leading: lc });
            },
        }
        i = i + 1;
    }
    proof {
        lemma_wrap_id(0);
        assert forall|k: int| #![trigger coef(p@, k)]
            true implies coef(p@, k) == wmul(lc, coef(v@, k)) by {
            if 0 <= k < n {
            } else {
                lemma_wmul_zero(lc);
            }
        }
        assert(v@ =~= scaled_seq(p@, lc));
    }
    Ok(Polynomial { coeffs: v })
}

/// The constant polynomial 1 witnesses that every polynomial divides
/// itself.
proof fn lemma_pdivides_self(p: Seq<i64>)
    ensures
        pdivides(p, p),
{
    let one = seq![1i64];
    assert forall|i: int| #![trigger coef(p, i)] coef(p, i) == conv_at(p, one, i) by {
        lemma_conv_comm(p, one, i);
        assert(conv_upto(one, p, i, 0) == 0);
        assert(conv_at(one, p, i) == wadd(0, wmul(1, coef(p, i))));
        lemma_wmul_one(coef(p, i));
        lemma_wadd_zero(coef(p, i));
    }
    assert(is_quotient_of(p, p, one));
}

/// The empty polynomial witnesses that everything divides zero.
proof fn lemma_pdivides_zero(p: Seq<i64>)
    ensures
        pdivides(p, Seq::<i64>::empty()),
{
    let z = Seq::<i64>::empty();
    assert forall|i: int| #![trigger coef(z, i)] coef(z, i) == conv_at(p, z, i) by {
        lemma_conv_upto_zero_right(p, z, i, p.len() as int);
    }
    assert(is_quotient_of(p, z, z));
}

/// Divisibility transfers through a wrapped scaling of the dividend.
proof fn lemma_pdivides_scale(g: Seq<i64>, small: Seq<i64>, big: Seq<i64>, lc: i64)
    requires
        pdivides(g, small),
        forall|i: int| #![trigger coef(big, i)] coef(big, i) == wmul(lc, coef(small, i)),
    ensures
        pdivides(g, big),
{
    let c = choose|c: Seq<i64>| is_quotient_of(g, small, c);
    assert(is_quotient_of(g, small, c));
    let cs = Seq::new(c.len(), |l: int| wmul(lc, c[l]));
    assert forall|m: int| true implies coef(cs, m) == wmul(lc, coef(c, m)) by {
        if !(0 <= m < c.len()) {
            lemma_wmul_zero(lc);
        }
    }
    assert forall|i: int| #![trigger coef(big, i)] coef(big, i) == conv_at(g, cs, i) by {
        lemma_conv_scale_right(lc, g, cs, c, i, g.len() as int);
        assert(coef(small, i) == conv_at(g, c, i));
    }
    assert(is_quotient_of(g, big, cs));
}

/// If `g` divides the divisor and the remainder of a Euclidean step,
/// it divides the dividend.
proof fn lemma_pdivides_step(g: Seq<i64>, b: Seq<i64>, q: Seq<i64>, r: Seq<i64>, a: Seq<i64>)
    requires
        pdivides(g, b),
        pdivides(g, r),
        forall|i: int| #![trigger coef(a, i)] coef(a, i) == wadd(conv_at(b, q, i), coef(r, i)),
    ensures
        pdivides(g, a),
{
    let cb = choose|c: Seq<i64>| is_quotient_of(g, b, c);
    assert(is_quotient_of(g, b, cb));
    let cr = choose|c: Seq<i64>| is_quotient_of(g, r, c);
    assert(is_quotient_of(g, r, cr));
    let fl = full_len(cb, q) + cr.len() + g.len() + b.len() + q.len() + 1;
    let u = conv_seq(cb, q, fl);
    // Every coefficient of the materialized product agrees with the
    // convolution, in and out of range.
    assert forall|m: int| true implies coef(u, m) == conv_at(cb, q, m) by {
        if !(0 <= m < fl) {
            if m < 0 {
                crate::convspec::lemma_conv_neg(cb, q, m, cb.len() as int);
            } else {
                lemma_conv_beyond(cb, q, m);
            }
        }
    }
    let cc = Seq::new(fl as nat, |l: int| wadd(conv_at(cb, q, l), coef(cr, l)));
    assert forall|m: int| true implies coef(cc, m) == wadd(coef(u, m), coef(cr, m)) by {
        if !(0 <= m < fl) {
            if m < 0 {
                crate::convspec::lemma_conv_neg(cb, q, m, cb.len() as int);
            } else {
                lemma_conv_beyond(cb, q, m);
            }
            assert(coef(cr, m) == 0);
            lemma_wrap_id(0);
        }
    }
    assert forall|i: int| #![trigger coef(a, i)] coef(a, i) == conv_at(g, cc, i) by {
        lemma_conv_add_right(g, cc, u, cr, 0, i, g.len() as int);
        // The materialized product against `g` is the product of `b`
        // and `q`.
        if i < fl {
            if i < 0 {
                crate::convspec::lemma_conv_neg(g, u, i, g.len() as int);
                crate::convspec::lemma_conv_neg(b, q, i, b.len() as int);
            } else {
                lemma_conv_assoc(g, cb, q, i, fl, i + 1);
                let gb = conv_seq(g, cb, i + 1);
                lemma_conv_comm(gb, q, i);
                assert forall|l: int| 0 <= l <= i implies coef(gb, l) == coef(b, l) by {
                    assert(coef(b, l) == conv_at(g, cb, l));
                }
                lemma_conv_congruent_right_low(q, gb, b, i, q.len() as int);
                lemma_conv_comm(q, b, i);
                lemma_conv_comm(b, q, i);
            }
        } else {
            // Far beyond every stored coefficient both sides vanish.
            assert forall|k: int| i - g.len() < k <= i implies coef(u, k) == 0 by {
                if k >= 0 {
                    assert(k >= full_len(cb, q));
                    lemma_conv_beyond(cb, q, k);
                }
            }
            lemma_conv_right_zero_window(g, u, i, g.len() as int);
            lemma_conv_beyond(b, q, i);
        }
        assert(conv_upto(g, u, i, g.len() as int) == conv_at(b, q, i));
        assert(conv_upto(g, cr, i, g.len() as int) == coef(r, i));
    }
    assert(is_quotient_of(g, a, cc));
}

/// In a non-empty sequence with a non-zero coefficient there is a
/// highest non-zero coefficient.
proof fn lemma_max_support(d: Seq<i64>)
    requires
        exists|l: int| 0 <= l < d.len() && d[l] != 0,
    ensures
        exists|m: int|
            0 <= m < d.len() && d[m] != 0 && (forall|l: int| l > m ==> #[trigger] coef(d, l) == 0),
    decreases d.len(),
{
    if d.last() != 0 {
        let m = d.len() - 1;
        assert(0 <= m < d.len() && d[m] != 0 && (forall|l: int| l > m ==> #[trigger] coef(d, l)
            == 0));
    } else {
        let dd = d.drop_last();
        let w = choose|l: int| 0 <= l < d.len() && d[l] != 0;
        assert(0 <= w < dd.len() && dd[w] != 0);
        lemma_max_support(dd);
        let m = choose|m: int|
            0 <= m < dd.len() && dd[m] != 0 && (forall|l: int| l > m ==> #[trigger] coef(dd, l)
                == 0);
        assert forall|l: int| l > m implies #[trigger] coef(d, l) == 0 by {
            if l < d.len() - 1 {
                assert(coef(dd, l) == 0);
            }
        }
        assert(0 <= m < d.len() && d[m] != 0);
    }
}

/// With a unit leading coefficient on the divisor, a Euclidean
/// quotient-remainder pair is unique in its remainder: two pairs that
/// both rebuild the dividend leave the same remainder.
pub proof fn lemma_division_pair_unique(
    a: Seq<i64>,
    b: Seq<i64>,
    q1: Seq<i64>,
    r1: Seq<i64>,
    q2: Seq<i64>,
    r2: Seq<i64>,
)
    requires
        b.len() >= 1,
        b.last() == 1 || b.last() == -1,
        is_division_pair(a, b, q1, r1),
        is_division_pair(a, b, q2, r2),
    ensures
        r1 == r2,
{
    let dn = q1.len() + q2.len() + 1;
    let d = Seq::new(dn as nat, |l: int| crate::wrapped::wsub(coef(q2, l), coef(q1, l)));
    lemma_wrap_id(0);
    assert forall|m: int| true implies coef(d, m) == crate::wrapped::wsub(
        coef(q2, m),
        coef(q1, m),
    ) by {
        if !(0 <= m < dn) {
            assert(coef(q2, m) == 0);
            assert(coef(q1, m) == 0);
        }
    }
    // The divisor times the quotient difference is the remainder
    // difference.
    assert forall|i: int| true implies conv_at(b, d, i) == crate::wrapped::wsub(
        coef(r1, i),
        coef(r2, i),
    ) by {
        crate::convspec::lemma_conv_sub_right(b, d, q2, q1, i, b.len() as int);
        assert(coef(a, i) == wadd(conv_at(b, q1, i), coef(r1, i)));
        assert(coef(a, i) == wadd(conv_at(b, q2, i), coef(r2, i)));
        crate::wrapped::lemma_wadd_balance(
            conv_at(b, q1, i),
            coef(r1, i),
            conv_at(b, q2, i),
            coef(r2, i),
        );
    }
    // A highest non-zero quotient difference would put a non-zero
    // product coefficient past both remainders' lengths.
    if exists|l: int| 0 <= l < d.len() && d[l] != 0 {
        lemma_max_support(d);
        let m = choose|m: int|
            0 <= m < d.len() && d[m] != 0 && (forall|l: int| l > m ==> #[trigger] coef(d, l)
                == 0);
        let top = m + b.len() - 1;
        lemma_conv_right_zero_window(b, d, top, b.len() - 1);
        assert(conv_at(b, d, top) == wadd(
            conv_upto(b, d, top, b.len() - 1),
            wmul(coef(b, b.len() - 1), coef(d, top - (b.len() - 1))),
        ));
        assert(coef(d, top - (b.len() - 1)) == d[m]);
        lemma_wadd_zero(wmul(coef(b, b.len() - 1), d[m]));
        crate::wrapped::lemma_wmul_unit_nonzero(d[m], b.last());
        assert(wmul(b.last(), d[m]) == wmul(d[m], b.last()));
        assert(conv_at(b, d, top) != 0);
        assert(coef(r1, top) == 0);
        assert(coef(r2, top) == 0);
        assert(false);
    }
    // So the quotient difference vanishes, and the remainders agree
    // coefficient by coefficient; both are canonical.
    assert forall|i: int| true implies coef(r1, i) == coef(r2, i) by {
        assert forall|l: int| true implies coef(d, l) == 0 by {
            if 0 <= l < d.len() {
                assert(d[l] == 0);
            }
        }
        lemma_conv_upto_zero_right(b, d, i, b.len() as int);
        assert(conv_at(b, d, i) == 0);
        crate::wrapped::lemma_wsub_zero(coef(r1, i), coef(r2, i));
    }
    crate::convspec::lemma_trim_pointwise(r1, r2);
    crate::lemma_trim_id(r1);
    crate::lemma_trim_id(r2);
}

/// The remainder of dividing a multiple of `g` by `g` is zero: the
/// divisibility witness and the empty remainder form a division pair,
/// and the pair is unique.
pub proof fn lemma_divisor_zero_remainder(g: Seq<i64>, p: Seq<i64>, q: Seq<i64>, r: Seq<i64>)
    requires
        g.len() >= 1,
        g.last() == 1 || g.last() == -1,
        pdivides(g, p),
        forall|i: int| #![trigger coef(p, i)] coef(p, i) == wadd(conv_at(g, q, i), coef(r, i)),
        r.len() < g.len(),
        wf(r),
    ensures
        r == Seq::<i64>::empty(),
{
    let c = choose|c: Seq<i64>| is_quotient_of(g, p, c);
    assert(is_quotient_of(g, p, c));
    let z = Seq::<i64>::empty();
    assert forall|i: int| #![trigger coef(p, i)]
        true implies coef(p, i) == wadd(conv_at(g, c, i), coef(z, i)) by {
        lemma_wadd_zero(conv_at(g, c, i));
    }
    assert(is_division_pair(p, g, c, z));
    assert(is_division_pair(p, g, q, r));
    lemma_division_pair_unique(p, g, c, z, q, r);
}

impl Polynomial {
    /// The greatest common divisor of `p1` and `p2` by the Euclidean
    /// algorithm.  At every step the divisor's leading coefficient
    /// must divide every coefficient in play; when it does not, the
    /// computation stops with an error naming the offending
    /// coefficient rather than returning a wrong result.  The call
    /// succeeds exactly when the modelled chain `gcd_spec` does, the
    /// successful value is the chain's value (which divides both
    /// inputs), and a reported error names a coefficient that really
    /// is not divisible by its leading coefficient.
    pub fn gcd(p1: &mut Self, p2: &mut Self) -> (r: Result<Self, GcdError>)
        requires
            wf(old(p1)@),
            wf(old(p2)@),
            old(p1)@.len() <= 0x0400_0000,
            old(p2)@.len() <= 0x0400_0000,
        ensures
            final(p1)@ == old(p1)@,
            final(p2)@ == old(p2)@,
            r matches Ok(g) ==> wf(g@) && Some(g@) == gcd_spec(old(p1)@, old(p2)@)
                && pdivides(g@, old(p1)@) && pdivides(g@, old(p2)@),
            r is Err ==> gcd_spec(old(p1)@, old(p2)@) is None,
            r matches Err(e) ==> !divides_int(e.leading, e.coefficient),
            old(p2)@.len() == 0 ==> (r matches Ok(g) && g@ == old(p1)@),
    {
        let a = p1.duplicate();
        let b = p2.duplicate();
        Polynomial::gcd_core(a, b)
    }

    /// As `gcd`, for borrowed arguments.
    pub fn gcd_immutable(p1: &Self, p2: &Self) -> (r: Result<Self, GcdError>)
        requires
            wf(p1@),
            wf(p2@),
            p1@.len() <= 0x0400_0000,
            p2@.len() <= 0x0400_0000,
        ensures
            r matches Ok(g) ==> wf(g@) && Some(g@) == gcd_spec(p1@, p2@) && pdivides(g@, p1@)
                && pdivides(g@, p2@),
            r is Err ==> gcd_spec(p1@, p2@) is None,
            r matches Err(e) ==> !divides_int(e.leading, e.coefficient),
            p2@.len() == 0 ==> (r matches Ok(g) && g@ == p1@),
    {
        Polynomial::gcd_core(p1.duplicate(), p2.duplicate())
    }

    /// The recursive Euclidean chain on owned operands, matched step
    /// by step against the `gcd_spec` model.
    fn gcd_core(a: Polynomial, b: Polynomial) -> (r: Result<Self, GcdError>)
        requires
            wf(a@),
            wf(b@),
            a@.len() <= 0x0400_0000,
            b@.len() <= 0x0400_0000,
        ensures
            r matches Ok(g) ==> wf(g@) && Some(g@) == gcd_spec(a@, b@) && pdivides(g@, a@)
                && pdivides(g@, b@),
            r is Err ==> gcd_spec(a@, b@) is None,
            r matches Err(e) ==> !divides_int(e.leading, e.coefficient),
            b@.len() == 0 ==> (r matches Ok(g) && g@ == a@),
        decreases b@.len(),
    {
        if b.is_zero() {
            proof {
                lemma_pdivides_self(a@);
                lemma_pdivides_zero(a@);
                assert(b@ =~= Seq::<i64>::empty());
                assert(gcd_spec(a@, b@) == Some(a@));
            }
            return Ok(a);
        }
        let lc = b.coeffs[b.coeffs.len() - 1];
        proof {
            assert(lc == b@.last());
        }
        let b2 = match scale_down(&b, lc) {
            Ok(d) => d,
            Err(e) => {
                proof {
                    assert(!all_div(b@, lc)) by {
                        if all_div(b@, lc) {
                            assert(divides_int(lc, b@[e.index as int]));
                        }
                    }
                    assert(gcd_spec(a@, b@) is None);
                }
                return Err(e);
            },
        };
        let a2 = match scale_down(&a, lc) {
            Ok(d) => d,
            Err(e) => {
                proof {
                    assert(!all_div(a@, lc)) by {
                        if all_div(a@, lc) {
                            assert(divides_int(lc, a@[e.index as int]));
                        }
                    }
                    assert(gcd_spec(a@, b@) is None);
                }
                return Err(e);
            },
        };
        proof {
            assert(coef(b@, b@.len() - 1) == b@.last());
            assert(b2@.last() == 1);
            assert(wf(b2@));
            if a2@.len() > 0 {
                assert(coef(a@, a@.len() - 1) == wmul(lc, coef(a2@, a@.len() - 1)));
                if a2@.last() == 0 {
                    lemma_wmul_zero(lc);
                    assert(a@.last() == 0);
                }
            }
        }
        let (q, rem) = Polynomial::euclidean_division_immutable(&a2, &b2);
        proof {
            // The computed remainder is the modelled one, so the chain
            // takes exactly this step.
            assert(is_division_pair(a2@, b2@, q@, rem@));
            let pr = (q@, rem@);
            assert(is_division_pair(a2@, b2@, pr.0, pr.1));
            let qr = choose|qr: (Seq<i64>, Seq<i64>)| is_division_pair(a2@, b2@, qr.0, qr.1);
            assert(is_division_pair(a2@, b2@, qr.0, qr.1));
            lemma_division_pair_unique(a2@, b2@, qr.0, qr.1, q@, rem@);
            assert(spec_rem(a2@, b2@) == rem@);
            assert(gcd_spec(a@, b@) == gcd_chain(b2@, rem@, (b@.len() - 1) as nat));
            lemma_gcd_chain_fuel(b2@, rem@, (b@.len() - 1) as nat, rem@.len());
            assert(gcd_spec(a@, b@) == gcd_spec(b2@, rem@));
        }
        let g = match Polynomial::gcd_core(b2, rem) {
            Ok(g) => g,
            Err(e) => {
                return Err(e);
            },
        };
        proof {
            lemma_pdivides_step(g@, b2@, q@, rem@, a2@);
            lemma_pdivides_scale(g@, a2@, a@, lc);
            lemma_pdivides_scale(g@, b2@, b@, lc);
        }
        Ok(g)
    }
}

} // verus!
