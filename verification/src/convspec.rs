//! The specification of polynomial products: the coefficient-wise
//! convolution of two coefficient sequences, with wrapping coefficient
//! arithmetic, together with the algebraic lemmas (splitting, bilinearity,
//! commutativity, associativity, reversal) that the multiplication,
//! inversion and division proofs rest on.

use vstd::prelude::*;
use crate::wrapped::{wadd, wmul, wsub};
use crate::wrapped::{
    lemma_wadd_assoc, lemma_wadd_shuffle, lemma_wadd_zero, lemma_wmul_assoc,
    lemma_wmul_distrib, lemma_wmul_distrib_sub, lemma_wmul_zero, lemma_wrap_id,
    lemma_wsub_shuffle,
};

verus! {

/// The coefficient of `X^i` in `s`, with implicit zeros outside the
/// stored range.
pub open spec fn coef(s: Seq<i64>, i: int) -> i64 {
    if 0 <= i < s.len() {
        s[i]
    } else {
        0
    }
}

/// The partial convolution sum of `a` and `b` at index `i`, over the
/// first `n` coefficients of `a`: the wrapped sum of
/// `a[j] * b[i - j]` for `0 <= j < n`.
pub open spec fn conv_upto(a: Seq<i64>, b: Seq<i64>, i: int, n: int) -> i64
    decreases n,
{
    if n <= 0 {
        0
    } else {
        wadd(conv_upto(a, b, i, n - 1), wmul(coef(a, n - 1), coef(b, i - (n - 1))))
    }
}

/// The coefficient of `X^i` in the product of `a` and `b`.
pub open spec fn conv_at(a: Seq<i64>, b: Seq<i64>, i: int) -> i64 {
    conv_upto(a, b, i, a.len() as int)
}

/// The number of coefficients in the full product of `a` and `b`.
pub open spec fn full_len(a: Seq<i64>, b: Seq<i64>) -> int {
    if a.len() == 0 || b.len() == 0 {
        0
    } else {
        a.len() + b.len() - 1
    }
}

/// The first `n` product coefficients of `a` and `b`, as a sequence.
pub open spec fn conv_seq(a: Seq<i64>, b: Seq<i64>, n: int) -> Seq<i64> {
    Seq::new(if n >= 0 { n as nat } else { 0 }, |i: int| conv_at(a, b, i))
}

/// The canonical product of two polynomials truncated to the
/// coefficients of degree below `k` (the short product mod `X^k`).
pub open spec fn prod_trunc(a: Seq<i64>, b: Seq<i64>, k: int) -> Seq<i64> {
    crate::trim(conv_seq(a, b, if k <= full_len(a, b) { k } else { full_len(a, b) }))
}

/// The canonical full product of two polynomials.
pub open spec fn prod(a: Seq<i64>, b: Seq<i64>) -> Seq<i64> {
    prod_trunc(a, b, full_len(a, b))
}

/// Extending the summation range beyond the length of `a` does not
/// change a partial convolution sum.
pub proof fn lemma_conv_upto_extend(a: Seq<i64>, b: Seq<i64>, i: int, n: int)
    requires
        n >= a.len(),
    ensures
        conv_upto(a, b, i, n) == conv_at(a, b, i),
    decreases n,
{
    if n > a.len() {
        lemma_conv_upto_extend(a, b, i, n - 1);
        lemma_wmul_zero(coef(b, i - (n - 1)));
        lemma_wadd_zero(conv_upto(a, b, i, n - 1));
    }
}

/// Partial convolution sums only read the designated coefficients.
pub proof fn lemma_conv_upto_congruent(a1: Seq<i64>, b1: Seq<i64>, a2: Seq<i64>, b2: Seq<i64>, i: int, n: int)
    requires
        forall|k: int| 0 <= k < n ==> coef(a1, k) == coef(a2, k),
        forall|k: int| coef(b1, k) == coef(b2, k),
    ensures
        conv_upto(a1, b1, i, n) == conv_upto(a2, b2, i, n),
    decreases n,
{
    if n > 0 {
        lemma_conv_upto_congruent(a1, b1, a2, b2, i, n - 1);
    }
}

/// A convolution with an all-zero left operand is zero.
pub proof fn lemma_conv_upto_zero_left(a: Seq<i64>, b: Seq<i64>, i: int, n: int)
    requires
        forall|k: int| 0 <= k < n ==> coef(a, k) == 0,
    ensures
        conv_upto(a, b, i, n) == 0,
    decreases n,
{
    if n > 0 {
        lemma_conv_upto_zero_left(a, b, i, n - 1);
        lemma_wmul_zero(coef(b, i - (n - 1)));
        lemma_wadd_zero(0);
    }
}

/// Product coefficients beyond the full product length (and below
/// index 0) are zero.
pub proof fn lemma_conv_beyond(a: Seq<i64>, b: Seq<i64>, i: int)
    requires
        i < 0 || i >= full_len(a, b),
    ensures
        conv_at(a, b, i) == 0,
{
    lemma_conv_beyond_upto(a, b, i, a.len() as int);
}

proof fn lemma_conv_beyond_upto(a: Seq<i64>, b: Seq<i64>, i: int, n: int)
    requires
        i < 0 || i >= full_len(a, b),
        n <= a.len(),
    ensures
        conv_upto(a, b, i, n) == 0,
    decreases n,
{
    if n > 0 {
        lemma_conv_beyond_upto(a, b, i, n - 1);
        assert(coef(b, i - (n - 1)) == 0);
        lemma_wmul_zero(coef(a, n - 1));
        lemma_wadd_zero(0);
    }
}

/// Splitting the left operand as a concatenation splits the product
/// coefficient into a low part and a shifted high part.
pub proof fn lemma_conv_split_left(x: Seq<i64>, y: Seq<i64>, b: Seq<i64>, i: int)
    ensures
        conv_at(x + y, b, i) == wadd(conv_at(x, b, i), conv_at(y, b, i - x.len())),
{
    lemma_conv_split_left_upto(x, y, b, i, y.len() as int);
}

proof fn lemma_conv_split_left_upto(x: Seq<i64>, y: Seq<i64>, b: Seq<i64>, i: int, m: int)
    requires
        0 <= m <= y.len(),
    ensures
        conv_upto(x + y, b, i, x.len() + m) == wadd(conv_at(x, b, i), conv_upto(y, b, i - x.len(), m)),
    decreases m,
{
    let a = x + y;
    let p = x.len() as int;
    if m == 0 {
        lemma_conv_upto_congruent(a, b, x, b, i, p);
        lemma_wadd_zero(conv_at(x, b, i));
    } else {
        lemma_conv_split_left_upto(x, y, b, i, m - 1);
        assert(coef(a, p + m - 1) == coef(y, m - 1));
        assert(i - (p + m - 1) == (i - p) - (m - 1));
        lemma_wadd_assoc(
            conv_at(x, b, i),
            conv_upto(y, b, i - p, m - 1),
            wmul(coef(y, m - 1), coef(b, (i - p) - (m - 1))),
        );
    }
}

/// If the coefficients of `c` are the wrapped sums of those of `u` and
/// of `v` shifted by `s`, a product against `c` splits accordingly.
pub proof fn lemma_conv_add_right(a: Seq<i64>, c: Seq<i64>, u: Seq<i64>, v: Seq<i64>, s: int, i: int, n: int)
    requires
        forall|m: int| coef(c, m) == wadd(coef(u, m), coef(v, m - s)),
    ensures
        conv_upto(a, c, i, n) == wadd(conv_upto(a, u, i, n), conv_upto(a, v, i - s, n)),
    decreases n,
{
    if n <= 0 {
        lemma_wadd_zero(0);
    } else {
        lemma_conv_add_right(a, c, u, v, s, i, n - 1);
        let j = n - 1;
        let aj = coef(a, j);
        assert(coef(c, i - j) == wadd(coef(u, i - j), coef(v, i - j - s)));
        lemma_wmul_distrib(aj, coef(u, i - j), coef(v, i - j - s));
        assert((i - s) - j == i - j - s);
        lemma_wadd_shuffle(
            conv_upto(a, u, i, j),
            conv_upto(a, v, i - s, j),
            wmul(aj, coef(u, i - j)),
            wmul(aj, coef(v, i - j - s)),
        );
    }
}

/// The same splitting, for a right operand that is a wrapped difference.
pub proof fn lemma_conv_sub_right(a: Seq<i64>, c: Seq<i64>, u: Seq<i64>, v: Seq<i64>, i: int, n: int)
    requires
        forall|m: int| coef(c, m) == wsub(coef(u, m), coef(v, m)),
    ensures
        conv_upto(a, c, i, n) == wsub(conv_upto(a, u, i, n), conv_upto(a, v, i, n)),
    decreases n,
{
    if n <= 0 {
        lemma_wrap_id(0);
    } else {
        lemma_conv_sub_right(a, c, u, v, i, n - 1);
        let j = n - 1;
        let aj = coef(a, j);
        lemma_wmul_distrib_sub(aj, coef(u, i - j), coef(v, i - j));
        assert(wmul(aj, coef(c, i - j)) == wsub(wmul(aj, coef(u, i - j)), wmul(aj, coef(v, i - j))));
        lemma_wsub_shuffle(
            conv_upto(a, u, i, j),
            conv_upto(a, v, i, j),
            wmul(aj, coef(u, i - j)),
            wmul(aj, coef(v, i - j)),
        );
    }
}

/// The same splitting, for a left operand that is a wrapped difference.
pub proof fn lemma_conv_sub_left(c: Seq<i64>, u: Seq<i64>, v: Seq<i64>, b: Seq<i64>, i: int, n: int)
    requires
        forall|m: int| 0 <= m < n ==> coef(c, m) == wsub(coef(u, m), coef(v, m)),
    ensures
        conv_upto(c, b, i, n) == wsub(conv_upto(u, b, i, n), conv_upto(v, b, i, n)),
    decreases n,
{
    if n <= 0 {
        lemma_wrap_id(0);
    } else {
        lemma_conv_sub_left(c, u, v, b, i, n - 1);
        let j = n - 1;
        let bij = coef(b, i - j);
        lemma_wmul_distrib_sub(bij, coef(u, j), coef(v, j));
        lemma_wsub_shuffle(
            conv_upto(u, b, i, j),
            conv_upto(v, b, i, j),
            wmul(coef(u, j), bij),
            wmul(coef(v, j), bij),
        );
    }
}

/// Product coefficients at negative indices are zero.
pub proof fn lemma_conv_neg(a: Seq<i64>, b: Seq<i64>, i: int, n: int)
    requires
        i < n - 1 || i < 0,
    ensures
        i < 0 ==> conv_upto(a, b, i, n) == 0,
    decreases n,
{
    if n > 0 && i < 0 {
        lemma_conv_neg(a, b, i, n - 1);
        lemma_wmul_zero(coef(a, n - 1));
        lemma_wadd_zero(0);
    }
}

/// Summands whose index exceeds the target coefficient contribute
/// nothing, so the summation range can stop at `m`.
pub proof fn lemma_conv_upto_shrink(x: Seq<i64>, z: Seq<i64>, i: int, m: int, n: int)
    requires
        m >= i + 1,
        m >= 0,
        n >= m,
    ensures
        conv_upto(x, z, i, n) == conv_upto(x, z, i, m),
    decreases n,
{
    if n > m {
        lemma_conv_upto_shrink(x, z, i, m, n - 1);
        assert(coef(z, i - (n - 1)) == 0);
        lemma_wmul_zero(coef(x, n - 1));
        lemma_wadd_zero(conv_upto(x, z, i, n - 1));
    }
}

/// A partial sum over any range that covers either the whole left
/// operand or every index up to `i` equals the product coefficient.
pub proof fn lemma_conv_any(x: Seq<i64>, z: Seq<i64>, i: int, n: int)
    requires
        n >= x.len() || (n >= 0 && n > i),
    ensures
        conv_upto(x, z, i, n) == conv_at(x, z, i),
{
    if n >= x.len() {
        lemma_conv_upto_extend(x, z, i, n);
    } else {
        lemma_conv_upto_shrink(x, z, i, n, x.len() as int);
    }
}

/// Peels the constant coefficient off the left operand of a product.
pub proof fn lemma_conv_first_peel(a: Seq<i64>, b: Seq<i64>, i: int)
    requires
        a.len() >= 1,
    ensures
        conv_at(a, b, i) == wadd(
            wmul(a[0], coef(b, i)),
            conv_at(a.subrange(1, a.len() as int), b, i - 1),
        ),
{
    let x = a.subrange(0, 1);
    let y = a.subrange(1, a.len() as int);
    assert(a =~= x + y);
    lemma_conv_split_left(x, y, b, i);
    assert(conv_upto(x, b, i, 0) == 0);
    assert(conv_at(x, b, i) == wadd(0, wmul(coef(x, 0), coef(b, i))));
    lemma_wadd_zero(wmul(coef(x, 0), coef(b, i)));
    assert(coef(x, 0) == a[0]);
}

/// If the coefficients of `c` are the wrapped sums of those of `u` and
/// of `v` shifted by `s`, a product with `c` on the left splits
/// accordingly.
pub proof fn lemma_conv_add_left(c: Seq<i64>, u: Seq<i64>, v: Seq<i64>, z: Seq<i64>, s: int, i: int, n: int)
    requires
        s >= 0,
        forall|m: int| 0 <= m < n ==> coef(c, m) == wadd(coef(u, m), coef(v, m - s)),
    ensures
        conv_upto(c, z, i, n) == wadd(conv_upto(u, z, i, n), conv_upto(v, z, i - s, n - s)),
    decreases n,
{
    if n <= 0 {
        lemma_wadd_zero(0);
    } else {
        lemma_conv_add_left(c, u, v, z, s, i, n - 1);
        let j = n - 1;
        let zij = coef(z, i - j);
        lemma_wmul_distrib(zij, coef(u, j), coef(v, j - s));
        assert(wmul(coef(c, j), zij) == wadd(wmul(coef(u, j), zij), wmul(coef(v, j - s), zij)));
        if j - s >= 0 {
            assert((i - s) - (j - s) == i - j);
            lemma_wadd_shuffle(
                conv_upto(u, z, i, j),
                conv_upto(v, z, i - s, j - s),
                wmul(coef(u, j), zij),
                wmul(coef(v, j - s), zij),
            );
        } else {
            assert(coef(v, j - s) == 0);
            lemma_wmul_zero(zij);
            lemma_wadd_zero(wmul(coef(u, j), zij));
            assert(n - s <= 0);
            lemma_wadd_zero(conv_upto(u, z, i, j));
            lemma_wadd_zero(conv_upto(u, z, i, n));
            lemma_wadd_assoc(conv_upto(u, z, i, j), 0, wmul(coef(u, j), zij));
        }
    }
}

/// If the coefficients of `c` are those of `u` scaled by `h`, the
/// product with `c` on the left is the product with `u` scaled by `h`.
pub proof fn lemma_conv_scale_left(h: i64, c: Seq<i64>, u: Seq<i64>, z: Seq<i64>, i: int, n: int)
    requires
        forall|m: int| 0 <= m < n ==> coef(c, m) == wmul(h, coef(u, m)),
    ensures
        conv_upto(c, z, i, n) == wmul(h, conv_upto(u, z, i, n)),
    decreases n,
{
    if n <= 0 {
        lemma_wmul_zero(h);
    } else {
        lemma_conv_scale_left(h, c, u, z, i, n - 1);
        let j = n - 1;
        let zij = coef(z, i - j);
        lemma_wmul_assoc(h, coef(u, j), zij);
        lemma_wmul_distrib(h, conv_upto(u, z, i, j), wmul(coef(u, j), zij));
    }
}

/// Peels the constant coefficient off the *right* operand of a partial
/// convolution sum.
proof fn lemma_conv_right_first_peel(b: Seq<i64>, a: Seq<i64>, i: int, n: int)
    requires
        a.len() >= 1,
    ensures
        conv_upto(b, a, i, n) == wadd(
            conv_upto(b, a.subrange(1, a.len() as int), i - 1, n),
            if 0 <= i < n {
                wmul(coef(b, i), a[0])
            } else {
                0
            },
        ),
    decreases n,
{
    let a1 = a.subrange(1, a.len() as int);
    if n <= 0 {
        lemma_wadd_zero(0);
    } else {
        lemma_conv_right_first_peel(b, a, i, n - 1);
        let j = n - 1;
        let r = conv_upto(b, a1, i - 1, j);
        if j == i {
            assert(coef(a, i - j) == a[0]);
            assert(coef(a1, (i - 1) - j) == 0);
            lemma_wmul_zero(coef(b, j));
            lemma_wadd_zero(r);
            lemma_wadd_zero(conv_upto(b, a1, i - 1, n - 1));
        } else {
            assert(coef(a, i - j) == coef(a1, (i - 1) - j));
            let t = wmul(coef(b, j), coef(a, i - j));
            let cnd = if 0 <= i < n - 1 {
                wmul(coef(b, i), a[0])
            } else {
                0
            };
            assert(0 <= i < n <==> 0 <= i < n - 1);
            lemma_wadd_assoc(r, cnd, t);
            lemma_wadd_assoc(r, t, cnd);
        }
    }
}

/// Convolution is commutative.
pub proof fn lemma_conv_comm(a: Seq<i64>, b: Seq<i64>, i: int)
    ensures
        conv_at(a, b, i) == conv_at(b, a, i),
    decreases a.len(),
{
    if a.len() == 0 {
        lemma_conv_upto_zero_right(b, a, i, b.len() as int);
    } else {
        let a1 = a.subrange(1, a.len() as int);
        lemma_conv_first_peel(a, b, i);
        lemma_conv_comm(a1, b, i - 1);
        lemma_conv_right_first_peel(b, a, i, b.len() as int);
        if 0 <= i < b.len() {
            assert(coef(b, i) == b[i]);
        } else {
            assert(coef(b, i) == 0);
            lemma_wmul_zero(a[0]);
            lemma_wadd_zero(conv_at(b, a1, i - 1));
        }
    }
}

/// A convolution with an all-zero right operand is zero.
pub proof fn lemma_conv_upto_zero_right(a: Seq<i64>, b: Seq<i64>, i: int, n: int)
    requires
        forall|k: int| coef(b, k) == 0,
    ensures
        conv_upto(a, b, i, n) == 0,
    decreases n,
{
    if n > 0 {
        lemma_conv_upto_zero_right(a, b, i, n - 1);
        lemma_wmul_zero(coef(a, n - 1));
        lemma_wadd_zero(0);
    }
}

/// Convolution is associative: taking product coefficients against a
/// materialized product sequence may be regrouped, as long as the
/// materialized sequences hold at least the first `i + 1` product
/// coefficients.
pub proof fn lemma_conv_assoc(a: Seq<i64>, b: Seq<i64>, c: Seq<i64>, i: int, nbc: int, nab: int)
    requires
        nbc > i,
        nab > i,
        nbc >= 0,
        nab >= 0,
    ensures
        conv_at(a, conv_seq(b, c, nbc), i) == conv_at(conv_seq(a, b, nab), c, i),
    decreases a.len(),
{
    let y = conv_seq(b, c, nbc);
    let x = conv_seq(a, b, nab);
    if a.len() == 0 {
        assert forall|k: int| 0 <= k < nab implies coef(x, k) == 0 by {
            assert(conv_upto(a, b, k, 0) == 0);
        }
        lemma_conv_upto_zero_left(x, c, i, nab);
    } else if i < 0 {
        lemma_conv_neg(a, y, i, a.len() as int);
        lemma_conv_neg(x, c, i, nab);
    } else {
        let h = a[0];
        let a1 = a.subrange(1, a.len() as int);
        let x1 = conv_seq(a1, b, nab);
        // The left-hand side, with the constant coefficient of `a` peeled.
        lemma_conv_first_peel(a, y, i);
        lemma_conv_assoc(a1, b, c, i - 1, nbc, nab);
        // The right-hand side: every coefficient of `x` splits into the
        // scaled part and the shifted tail part.
        let u = Seq::new(nab as nat, |m: int| wmul(h, coef(b, m)));
        assert forall|m: int| 0 <= m < nab implies coef(x, m) == wadd(
            coef(u, m),
            coef(x1, m - 1),
        ) by {
            lemma_conv_first_peel(a, b, m);
            if m - 1 < 0 {
                lemma_conv_neg(a1, b, m - 1, a1.len() as int);
            } else {
                assert(coef(x1, m - 1) == conv_at(a1, b, m - 1));
            }
        }
        lemma_conv_add_left(x, u, x1, c, 1, i, nab);
        // The scaled part contributes `h` times the `(b, c)` product.
        assert forall|m: int| 0 <= m < nab implies coef(u, m) == wmul(h, coef(b, m)) by {}
        lemma_conv_scale_left(h, u, b, c, i, nab);
        lemma_conv_any(b, c, i, nab);
        assert(coef(y, i) == conv_at(b, c, i));
        // The tail part is the product against `x1` at `i - 1`.
        lemma_conv_any(x1, c, i - 1, nab - 1);
        lemma_conv_any(x1, c, i - 1, nab);
        assert(conv_upto(x1, c, i - 1, nab - 1) == conv_at(x1, c, i - 1));
    }
}

/// Reversing both operands reverses the product coefficients.
pub proof fn lemma_conv_rev(a: Seq<i64>, b: Seq<i64>, i: int)
    requires
        a.len() >= 1,
        b.len() >= 1,
    ensures
        conv_at(a.reverse(), b.reverse(), i) == conv_at(a, b, a.len() + b.len() - 2 - i),
    decreases a.len(),
{
    let n = a.len() as int;
    let m = b.len() as int;
    let ra = a.reverse();
    let rb = b.reverse();
    let d = n + m - 2;
    assert(forall|k: int| coef(rb, k) == coef(b, m - 1 - k));
    if n == 1 {
        assert(conv_upto(ra, rb, i, 0) == 0);
        assert(conv_at(ra, rb, i) == wadd(0, wmul(coef(ra, 0), coef(rb, i))));
        assert(conv_upto(a, b, d - i, 0) == 0);
        assert(conv_at(a, b, d - i) == wadd(0, wmul(coef(a, 0), coef(b, d - i))));
        assert(coef(rb, i) == coef(b, m - 1 - i));
        assert(ra[0] == a[0]);
    } else {
        let a1 = a.subrange(1, n);
        let ra1 = a1.reverse();
        assert(forall|k: int| 0 <= k < n - 1 ==> coef(ra, k) == coef(ra1, k));
        lemma_conv_upto_congruent(ra, rb, ra1, rb, i, n - 1);
        lemma_conv_rev(a1, b, i);
        lemma_conv_first_peel(a, b, d - i);
        assert(ra[n - 1] == a[0]);
        assert(coef(rb, i - (n - 1)) == coef(b, d - i));
        assert((n - 1) + m - 2 - i == d - i - 1);
    }
}

/// Collapses a convolution whose left operand has a single possibly
/// non-zero coefficient.
pub proof fn lemma_conv_sparse1(x: Seq<i64>, z: Seq<i64>, i: int, n: int, l1: int)
    requires
        0 <= l1 < n,
        forall|l: int| 0 <= l < n && l != l1 ==> coef(x, l) == 0,
    ensures
        conv_upto(x, z, i, n) == wmul(coef(x, l1), coef(z, i - l1)),
    decreases n,
{
    let j = n - 1;
    if j == l1 {
        lemma_conv_upto_zero_left(x, z, i, j);
        lemma_wadd_zero(wmul(coef(x, l1), coef(z, i - l1)));
    } else {
        lemma_conv_sparse1(x, z, i, n - 1, l1);
        lemma_wmul_zero(coef(z, i - j));
        lemma_wadd_zero(wmul(coef(x, l1), coef(z, i - l1)));
    }
}

/// Product coefficients below the combined order of the leading zero
/// runs of the two operands are zero.
pub proof fn lemma_conv_low_zero(a: Seq<i64>, b: Seq<i64>, i: int, f1: int, f2: int, n: int)
    requires
        forall|k: int| 0 <= k < f1 ==> coef(a, k) == 0,
        forall|k: int| 0 <= k < f2 ==> coef(b, k) == 0,
        0 <= f1,
        0 <= f2,
        i < f1 + f2,
    ensures
        conv_upto(a, b, i, n) == 0,
    decreases n,
{
    if n > 0 {
        lemma_conv_low_zero(a, b, i, f1, f2, n - 1);
        let j = n - 1;
        if j < f1 {
            assert(coef(a, j) == 0);
            lemma_wmul_zero(coef(b, i - j));
        } else {
            assert(i - j < f2);
            assert(coef(b, i - j) == 0);
            lemma_wmul_zero(coef(a, j));
        }
        lemma_wadd_zero(0);
    }
}

/// Partial convolution sums at index `i` only read the right operand's
/// coefficients up to index `i`.
pub proof fn lemma_conv_congruent_right_low(a: Seq<i64>, b1: Seq<i64>, b2: Seq<i64>, i: int, n: int)
    requires
        forall|k: int| 0 <= k <= i ==> coef(b1, k) == coef(b2, k),
    ensures
        conv_upto(a, b1, i, n) == conv_upto(a, b2, i, n),
    decreases n,
{
    if n > 0 {
        lemma_conv_congruent_right_low(a, b1, b2, i, n - 1);
        let j = n - 1;
        if i - j < 0 {
            assert(coef(b1, i - j) == 0);
            assert(coef(b2, i - j) == 0);
        }
    }
}

/// A product coefficient vanishes when the right operand is zero on
/// the whole window of indices the sum can read.
pub proof fn lemma_conv_right_zero_window(a: Seq<i64>, b: Seq<i64>, i: int, n: int)
    requires
        forall|k: int| i - n < k <= i ==> coef(b, k) == 0,
    ensures
        conv_upto(a, b, i, n) == 0,
    decreases n,
{
    if n > 0 {
        assert forall|k: int| i - (n - 1) < k <= i implies coef(b, k) == 0 by {}
        lemma_conv_right_zero_window(a, b, i, n - 1);
        assert(coef(b, i - (n - 1)) == 0);
        lemma_wmul_zero(coef(a, n - 1));
        lemma_wadd_zero(0);
    }
}

/// If the coefficients of `c` are those of `u` scaled by `h`, the
/// product with `c` on the right is the product with `u` scaled by
/// `h`.
pub proof fn lemma_conv_scale_right(h: i64, a: Seq<i64>, c: Seq<i64>, u: Seq<i64>, i: int, n: int)
    requires
        forall|m: int| coef(c, m) == wmul(h, coef(u, m)),
    ensures
        conv_upto(a, c, i, n) == wmul(h, conv_upto(a, u, i, n)),
    decreases n,
{
    if n <= 0 {
        lemma_wmul_zero(h);
    } else {
        lemma_conv_scale_right(h, a, c, u, i, n - 1);
        let j = n - 1;
        let aj = coef(a, j);
        // a_j * (h * u) == h * (a_j * u), and the partial sums collect.
        crate::wrapped::lemma_wmul_assoc(aj, h, coef(u, i - j));
        crate::wrapped::lemma_wmul_assoc(h, aj, coef(u, i - j));
        assert(wmul(aj, h) == wmul(h, aj));
        lemma_wmul_distrib(h, conv_upto(a, u, i, j), wmul(aj, coef(u, i - j)));
    }
}

/// Trimming never lengthens a sequence.
pub proof fn lemma_trim_len(s: Seq<i64>)
    ensures
        crate::trim(s).len() <= s.len(),
    decreases s.len(),
{
    if s.len() == 0 || s.last() != 0 {
    } else {
        lemma_trim_len(s.drop_last());
    }
}

/// A sequence whose coefficients vanish from `bound` on trims to at
/// most `bound` coefficients.
pub proof fn lemma_trim_len_le(s: Seq<i64>, bound: int)
    requires
        0 <= bound,
        forall|i: int| i >= bound ==> coef(s, i) == 0,
    ensures
        crate::trim(s).len() <= bound,
    decreases s.len(),
{
    if s.len() <= bound {
        lemma_trim_len(s);
    } else {
        assert(coef(s, s.len() - 1) == 0);
        assert(s.last() == 0);
        assert forall|i: int| i >= bound implies coef(s.drop_last(), i) == 0 by {
            assert(coef(s, i) == 0);
        }
        lemma_trim_len_le(s.drop_last(), bound);
    }
}

/// The coefficients of a truncated product: the convolution below the
/// cut, zero from it on.
pub proof fn lemma_prod_trunc_coef(a: Seq<i64>, b: Seq<i64>, k: int)
    ensures
        forall|l: int| #![trigger coef(prod_trunc(a, b, k), l)]
            coef(prod_trunc(a, b, k), l) == (if 0 <= l < k {
                conv_at(a, b, l)
            } else {
                0
            }),
{
    let kk = if k <= full_len(a, b) {
        k
    } else {
        full_len(a, b)
    };
    let cs = conv_seq(a, b, kk);
    lemma_trim_coef(cs);
    assert forall|l: int|
        coef(prod_trunc(a, b, k), l) == (if 0 <= l < k {
            conv_at(a, b, l)
        } else {
            0
        }) by {
        assert(coef(prod_trunc(a, b, k), l) == coef(cs, l));
        if 0 <= l < k {
            if l >= kk {
                lemma_conv_beyond(a, b, l);
            }
        }
    }
}

/// Trimming does not change any coefficient.
pub proof fn lemma_trim_coef(s: Seq<i64>)
    ensures
        forall|i: int| coef(crate::trim(s), i) == coef(s, i),
    decreases s.len(),
{
    if s.len() == 0 || s.last() != 0 {
    } else {
        lemma_trim_coef(s.drop_last());
        assert(forall|i: int| coef(s.drop_last(), i) == coef(s, i));
    }
}

/// Sequences with the same coefficients have the same canonical form.
pub proof fn lemma_trim_pointwise(s1: Seq<i64>, s2: Seq<i64>)
    requires
        forall|i: int| coef(s1, i) == coef(s2, i),
    ensures
        crate::trim(s1) == crate::trim(s2),
    decreases s1.len() + s2.len(),
{
    if s1.len() > 0 && s1.last() == 0 {
        assert(forall|i: int| coef(s1.drop_last(), i) == coef(s1, i));
        lemma_trim_pointwise(s1.drop_last(), s2);
    } else if s2.len() > 0 && s2.last() == 0 {
        assert(forall|i: int| coef(s2.drop_last(), i) == coef(s2, i));
        lemma_trim_pointwise(s1, s2.drop_last());
    } else {
        if s1.len() > 0 {
            assert(coef(s2, s1.len() - 1) != 0);
            assert(s2.len() >= s1.len());
        }
        if s2.len() > 0 {
            assert(coef(s1, s2.len() - 1) != 0);
            assert(s1.len() >= s2.len());
        }
        assert forall|i: int| 0 <= i < s1.len() implies s1[i] == s2[i] by {
            assert(coef(s1, i) == coef(s2, i));
        }
        assert(s1 =~= s2);
    }
}

} // verus!
