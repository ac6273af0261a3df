//! The coefficient arithmetic model: `i64` values combined with wrapping
//! addition, subtraction and multiplication, i.e. the ring of integers
//! modulo 2^64.  `wrap` maps a mathematical integer to its `i64`
//! representative; the lemmas here give the ring identities that the
//! polynomial algebra is built on.

use vstd::prelude::*;
use vstd::arithmetic::div_mod::*;

verus! {

/// The residue of `x` modulo 2^64, in `[0, 2^64)`.
pub open spec fn pmod(x: int) -> int {
    x % 0x1_0000_0000_0000_0000
}

/// The `i64` value congruent to `x` modulo 2^64.
pub open spec fn wrap(x: int) -> i64 {
    if pmod(x) > i64::MAX {
        (pmod(x) - 0x1_0000_0000_0000_0000) as i64
    } else {
        pmod(x) as i64
    }
}

/// Wrapping addition of coefficients.
pub open spec fn wadd(a: i64, b: i64) -> i64 {
    wrap(a + b)
}

/// Wrapping subtraction of coefficients.
pub open spec fn wsub(a: i64, b: i64) -> i64 {
    wrap(a - b)
}

/// Wrapping multiplication of coefficients.
pub open spec fn wmul(a: i64, b: i64) -> i64 {
    wrap(a * b)
}

/// Wrapping negation of a coefficient.
pub open spec fn wneg(a: i64) -> i64 {
    wrap(-a)
}

pub proof fn lemma_pmod_bounds(x: int)
    ensures
        0 <= pmod(x) < 0x1_0000_0000_0000_0000,
{
    lemma_mod_bound(x, 0x1_0000_0000_0000_0000);
}

pub proof fn lemma_wrap_id(x: int)
    requires
        i64::MIN <= x <= i64::MAX,
    ensures
        wrap(x) == x,
{
    if x >= 0 {
        lemma_small_mod(x as nat, 0x1_0000_0000_0000_0000);
    } else {
        lemma_mod_add_multiples_vanish(x, 0x1_0000_0000_0000_0000);
        lemma_small_mod((x + 0x1_0000_0000_0000_0000) as nat, 0x1_0000_0000_0000_0000);
    }
}

pub proof fn lemma_wrap_mod(x: int)
    ensures
        pmod(wrap(x) as int) == pmod(x),
{
    lemma_pmod_bounds(x);
    if pmod(x) > i64::MAX {
        lemma_mod_add_multiples_vanish(pmod(x) - 0x1_0000_0000_0000_0000, 0x1_0000_0000_0000_0000);
        lemma_small_mod(pmod(x) as nat, 0x1_0000_0000_0000_0000);
        lemma_mod_twice(x, 0x1_0000_0000_0000_0000);
    } else {
        lemma_mod_twice(x, 0x1_0000_0000_0000_0000);
    }
}

/// Two integers with the same residue wrap to the same coefficient.
pub proof fn lemma_wrap_eq(x: int, y: int)
    requires
        pmod(x) == pmod(y),
    ensures
        wrap(x) == wrap(y),
{
}

pub proof fn lemma_absorb_add(x: int, y: int)
    ensures
        wrap(wrap(x) + y) == wrap(x + y),
{
    lemma_wrap_mod(x);
    lemma_add_mod_noop(wrap(x) as int, y, 0x1_0000_0000_0000_0000);
    lemma_add_mod_noop(x, y, 0x1_0000_0000_0000_0000);
    lemma_wrap_eq(wrap(x) + y, x + y);
}

pub proof fn lemma_absorb_sub_left(x: int, y: int)
    ensures
        wrap(wrap(x) - y) == wrap(x - y),
{
    lemma_wrap_mod(x);
    lemma_sub_mod_noop(wrap(x) as int, y, 0x1_0000_0000_0000_0000);
    lemma_sub_mod_noop(x, y, 0x1_0000_0000_0000_0000);
    lemma_wrap_eq(wrap(x) - y, x - y);
}

pub proof fn lemma_absorb_sub_right(x: int, y: int)
    ensures
        wrap(x - wrap(y)) == wrap(x - y),
{
    lemma_wrap_mod(y);
    lemma_sub_mod_noop(x, wrap(y) as int, 0x1_0000_0000_0000_0000);
    lemma_sub_mod_noop(x, y, 0x1_0000_0000_0000_0000);
    lemma_wrap_eq(x - wrap(y), x - y);
}

pub proof fn lemma_absorb_mul(x: int, y: int)
    ensures
        wrap(wrap(x) * y) == wrap(x * y),
        wrap(y * wrap(x)) == wrap(y * x),
{
    lemma_wrap_mod(x);
    lemma_mul_mod_noop(wrap(x) as int, y, 0x1_0000_0000_0000_0000);
    lemma_mul_mod_noop(x, y, 0x1_0000_0000_0000_0000);
    lemma_wrap_eq(wrap(x) * y, x * y);
    assert(wrap(x) * y == y * wrap(x)) by (nonlinear_arith);
    assert(x * y == y * x) by (nonlinear_arith);
}

/// The result of the executable `i64::wrapping_add` is `wadd`.
pub proof fn lemma_wrapping_add(a: i64, b: i64)
    ensures
        vstd::wrapping::i64_specs::wrapping_add(a, b) == wadd(a, b),
{
    if a + b > i64::MAX || a + b < i64::MIN {
        if a + b > i64::MAX {
            lemma_small_mod((a + b) as nat, 0x1_0000_0000_0000_0000);
        } else {
            lemma_mod_add_multiples_vanish(a + b, 0x1_0000_0000_0000_0000);
            lemma_small_mod((a + b + 0x1_0000_0000_0000_0000) as nat, 0x1_0000_0000_0000_0000);
        }
    } else {
        lemma_wrap_id(a + b);
    }
}

/// The result of the executable `i64::wrapping_sub` is `wsub`.
pub proof fn lemma_wrapping_sub(a: i64, b: i64)
    ensures
        vstd::wrapping::i64_specs::wrapping_sub(a, b) == wsub(a, b),
{
    if a - b > i64::MAX || a - b < i64::MIN {
        if a - b > i64::MAX {
            lemma_small_mod((a - b) as nat, 0x1_0000_0000_0000_0000);
        } else {
            lemma_mod_add_multiples_vanish(a - b, 0x1_0000_0000_0000_0000);
            lemma_small_mod((a - b + 0x1_0000_0000_0000_0000) as nat, 0x1_0000_0000_0000_0000);
        }
    } else {
        lemma_wrap_id(a - b);
    }
}

/// The result of the executable `i64::wrapping_mul` is `wmul`.
pub proof fn lemma_wrapping_mul(a: i64, b: i64)
    ensures
        vstd::wrapping::i64_specs::wrapping_mul(a, b) == wmul(a, b),
{
}

/// Executable wrapping addition, tied to `wadd`.
pub fn wadd_e(a: i64, b: i64) -> (r: i64)
    ensures
        r == wadd(a, b),
{
    proof {
        lemma_wrapping_add(a, b);
    }
    a.wrapping_add(b)
}

/// Executable wrapping subtraction, tied to `wsub`.
pub fn wsub_e(a: i64, b: i64) -> (r: i64)
    ensures
        r == wsub(a, b),
{
    proof {
        lemma_wrapping_sub(a, b);
    }
    a.wrapping_sub(b)
}

/// Executable wrapping multiplication, tied to `wmul`.
pub fn wmul_e(a: i64, b: i64) -> (r: i64)
    ensures
        r == wmul(a, b),
{
    proof {
        lemma_wrapping_mul(a, b);
    }
    a.wrapping_mul(b)
}

pub proof fn lemma_wadd_zero(a: i64)
    ensures
        wadd(a, 0) == a,
        wadd(0, a) == a,
{
    lemma_wrap_id(a as int);
}

pub proof fn lemma_wmul_zero(a: i64)
    ensures
        wmul(a, 0) == 0,
        wmul(0, a) == 0,
{
    lemma_wrap_id(0);
}

pub proof fn lemma_wmul_one(a: i64)
    ensures
        wmul(a, 1) == a,
        wmul(1, a) == a,
{
    lemma_wrap_id(a as int);
}

pub proof fn lemma_wadd_assoc(a: i64, b: i64, c: i64)
    ensures
        wadd(wadd(a, b), c) == wadd(a, wadd(b, c)),
{
    lemma_absorb_add(a + b, c as int);
    lemma_absorb_add(b + c, a as int);
    assert(wadd(b, c) + a == a + wrap(b + c));
}

/// Exchanges the middle operands of a four-way wrapped sum.
pub proof fn lemma_wadd_shuffle(a: i64, b: i64, c: i64, d: i64)
    ensures
        wadd(wadd(a, b), wadd(c, d)) == wadd(wadd(a, c), wadd(b, d)),
{
    lemma_absorb_add(a + b, wadd(c, d) as int);
    lemma_absorb_add(c + d, (a + b) as int);
    lemma_absorb_add(a + c, wadd(b, d) as int);
    lemma_absorb_add(b + d, (a + c) as int);
}

/// Regroups `((a+b)+(c+d))` as `((a+(b+c))+d)` under wrapping.
pub proof fn lemma_wadd_regroup(a: i64, b: i64, c: i64, d: i64)
    ensures
        wadd(wadd(a, b), wadd(c, d)) == wadd(wadd(a, wadd(b, c)), d),
{
    lemma_absorb_add(a + b, wadd(c, d) as int);
    lemma_absorb_add(c + d, (a + b) as int);
    lemma_absorb_add(b + c, a as int);
    lemma_absorb_add(a + (b + c), d as int);
    lemma_wrap_eq(a + b + (c + d), a + (b + c) + d);
}

pub proof fn lemma_wmul_distrib(a: i64, b: i64, c: i64)
    ensures
        wmul(a, wadd(b, c)) == wadd(wmul(a, b), wmul(a, c)),
        wmul(wadd(b, c), a) == wadd(wmul(b, a), wmul(c, a)),
{
    lemma_absorb_mul(b + c, a as int);
    assert(a * (b + c) == a * b + a * c) by (nonlinear_arith);
    assert((b + c) * a == b * a + c * a) by (nonlinear_arith);
    lemma_absorb_add(a * b, wmul(a, c) as int);
    lemma_absorb_add(a * c, (a * b) as int);
    lemma_wrap_eq(a * b + a * c, a * (b + c));
    lemma_absorb_add(b * a, wmul(c, a) as int);
    lemma_absorb_add(c * a, (b * a) as int);
    lemma_wrap_eq(b * a + c * a, (b + c) * a);
}

pub proof fn lemma_wmul_distrib_sub(a: i64, b: i64, c: i64)
    ensures
        wmul(wsub(b, c), a) == wsub(wmul(b, a), wmul(c, a)),
        wmul(a, wsub(b, c)) == wsub(wmul(a, b), wmul(a, c)),
{
    lemma_absorb_mul(b - c, a as int);
    assert((b - c) * a == b * a - c * a) by (nonlinear_arith);
    assert(a * (b - c) == a * b - a * c) by (nonlinear_arith);
    lemma_absorb_sub_left(b * a, wmul(c, a) as int);
    lemma_absorb_sub_right(b * a, (c * a) as int);
    lemma_wrap_eq(b * a - c * a, (b - c) * a);
    lemma_absorb_sub_left(a * b, wmul(a, c) as int);
    lemma_absorb_sub_right(a * b, (a * c) as int);
    lemma_wrap_eq(a * b - a * c, a * (b - c));
}

pub proof fn lemma_wmul_assoc(a: i64, b: i64, c: i64)
    ensures
        wmul(wmul(a, b), c) == wmul(a, wmul(b, c)),
{
    lemma_absorb_mul(a * b, c as int);
    lemma_absorb_mul(b * c, a as int);
    assert(a * b * c == a * (b * c)) by (nonlinear_arith);
    lemma_wrap_eq((a * b) * c, a * (b * c));
}

/// A wrapped product of units is a unit: the inverse of 1 is 1 and the
/// inverse of -1 is -1.
pub proof fn lemma_unit_inverse(a: i64, b: i64)
    requires
        a == 1 || a == -1,
        wmul(a, b) == 1,
    ensures
        b == a,
{
    if a == 1 {
        assert(a * b == b as int) by (nonlinear_arith)
            requires
                a == 1,
        ;
        lemma_wrap_id(b as int);
    } else {
        if b == i64::MIN {
            assert(a * b == 0x8000_0000_0000_0000) by (nonlinear_arith)
                requires
                    a == -1,
                    b == i64::MIN,
            ;
            lemma_small_mod(0x8000_0000_0000_0000nat, 0x1_0000_0000_0000_0000);
            assert(wmul(a, b) != 1);
        } else {
            assert(a * b == -(b as int)) by (nonlinear_arith)
                requires
                    a == -1,
            ;
            lemma_wrap_id(-(b as int));
        }
    }
}

/// Multiplying a non-zero coefficient by a unit keeps it non-zero.
pub proof fn lemma_wmul_unit_nonzero(x: i64, e: i64)
    requires
        x != 0,
        e == 1 || e == -1,
    ensures
        wmul(x, e) != 0,
{
    if e == 1 {
        lemma_wmul_one(x);
    } else if x == i64::MIN {
            assert(x * e == 0x8000_0000_0000_0000) by (nonlinear_arith)
                requires
                    e == -1,
                    x == i64::MIN,
            ;
        lemma_small_mod(0x8000_0000_0000_0000nat, 0x1_0000_0000_0000_0000);
    } else {
        assert(x * e == -(x as int)) by (nonlinear_arith)
            requires
                e == -1,
        ;
        lemma_wrap_id(-(x as int));
    }
}

/// A sum of wrapped differences is the wrapped difference of the sums.
pub proof fn lemma_wsub_shuffle(a: i64, b: i64, c: i64, d: i64)
    ensures
        wadd(wsub(a, b), wsub(c, d)) == wsub(wadd(a, c), wadd(b, d)),
{
    lemma_absorb_add(a - b, wsub(c, d) as int);
    lemma_absorb_add(c - d, (a - b) as int);
    lemma_absorb_sub_left(a + c, wadd(b, d) as int);
    lemma_absorb_sub_right((a + c) as int, (b + d) as int);
}

/// A wrapped difference is zero only for equal operands.
pub proof fn lemma_wsub_zero(x: i64, y: i64)
    requires
        wsub(x, y) == 0,
    ensures
        x == y,
{
    lemma_pmod_bounds(x - y);
    if x - y >= 0 {
        lemma_small_mod((x - y) as nat, 0x1_0000_0000_0000_0000);
    } else {
        lemma_mod_add_multiples_vanish(x - y, 0x1_0000_0000_0000_0000);
        lemma_small_mod((x - y + 0x1_0000_0000_0000_0000) as nat, 0x1_0000_0000_0000_0000);
    }
}

/// Equal wrapped sums balance: the differences of the two operand
/// pairs wrap to the same coefficient.
pub proof fn lemma_wadd_balance(x1: i64, y1: i64, x2: i64, y2: i64)
    requires
        wadd(x1, y1) == wadd(x2, y2),
    ensures
        wsub(x2, x1) == wsub(y1, y2),
{
    lemma_wrap_mod(x1 + y1);
    lemma_wrap_mod(x2 + y2);
    assert(pmod(x1 + y1) == pmod(x2 + y2));
    lemma_sub_mod_noop(x2 + y2, x1 + y1, 0x1_0000_0000_0000_0000);
    assert(pmod((x2 + y2) - (x1 + y1)) == 0) by {
        lemma_small_mod(0nat, 0x1_0000_0000_0000_0000);
    }
    // x2 - x1 and y1 - y2 differ by that multiple of 2^64.
    lemma_add_mod_noop((x2 + y2) - (x1 + y1), y1 - y2, 0x1_0000_0000_0000_0000);
    lemma_mod_twice(y1 - y2, 0x1_0000_0000_0000_0000);
    assert((x2 + y2) - (x1 + y1) + (y1 - y2) == x2 - x1);
    lemma_wrap_eq(x2 - x1, y1 - y2);
}

/// Subtracting and adding back the same value is the identity.
pub proof fn lemma_wsub_add(a: i64, b: i64)
    ensures
        wadd(wsub(a, b), b) == a,
{
    lemma_absorb_add(a - b, b as int);
    lemma_wrap_id(a as int);
}

/// Recovers the Karatsuba cross term: adding the two outer products back
/// to the difference product yields the sum of the two cross products.
pub proof fn lemma_mid_recover(c00: i64, c01: i64, c10: i64, c11: i64)
    ensures
        wadd(wadd(wsub(wsub(c01, c00), wsub(c11, c10)), c00), c11) == wadd(c01, c10),
{
    let m = wsub(wsub(c01, c00), wsub(c11, c10));
    lemma_absorb_sub_left(c01 - c00, wsub(c11, c10) as int);
    lemma_absorb_sub_right((c01 - c00) as int, (c11 - c10) as int);
    assert(m == wrap(c01 - c00 - (c11 - c10)));
    lemma_absorb_add(c01 - c00 - (c11 - c10), c00 as int);
    assert(wadd(m, c00) == wrap(c01 - c11 + c10));
    lemma_absorb_add(c01 - c11 + c10, c11 as int);
    assert(wadd(wadd(m, c00), c11) == wrap(c01 + c10));
}

} // verus!
