//! Every result is the closest number there is: said of each operation over
//! the values alone, whichever way it is computed.
//!
//! Two to the 1024 counts as a number here. It is what infinity weighs, so a
//! result is infinite just where that is the closest.

use crate::binary64::Binary64;
use crate::exact;
use crate::rounding::{self, INFINITE, ONE_UNITS};
use vstd::arithmetic::power2::*;
use vstd::prelude::*;

verus! {

/// How far apart two values are.
pub open spec fn gap(a: int, b: int) -> int {
    if a < b {
        b - a
    } else {
        a - b
    }
}

/// A gap is the distance between two values, whichever is larger.
pub proof fn a_gap_is_a_distance(a: int, b: int)
    ensures
        gap(a, b) >= 0,
        gap(a, b) == a - b || gap(a, b) == b - a,
{
}

/// The pattern that a quotient rounds to is the closest one, and the even one
/// of two that are as close.
pub proof fn rounded_is_closest(num: nat, den: nat, q: nat)
    requires
        den > 0,
        q <= INFINITE,
    ensures
        ({
            let p = rounding::rounded(num, den);
            let near = gap((den * rounding::units(p)) as int, num as int);
            let other = gap((den * rounding::units(q)) as int, num as int);
            &&& p <= INFINITE
            &&& near <= other
            &&& near == other && p != q ==> p % 2 == 0
        }),
{
    rounding::lemma_rounded_exists(num, den);
    let p = rounding::rounded(num, den);
    let (u, v) = (rounding::units(p), rounding::units(q));
    if q < p {
        let before = rounding::units((p - 1) as nat);
        if q < p - 1 {
            rounding::lemma_units_ordered(q, (p - 1) as nat);
        }
        rounding::lemma_units_ordered(q, p);
        assert(den * (before + u) == den * before + den * u) by (nonlinear_arith);
        assert(den * v <= den * before) by (nonlinear_arith)
            requires
                v <= before,
        ;
        assert(v < before ==> den * v < den * before) by (nonlinear_arith)
            requires
                den > 0,
        ;
        assert(den * v < den * u) by (nonlinear_arith)
            requires
                v < u,
                den > 0,
        ;
    } else if p < q {
        let after = rounding::units(p + 1);
        if p + 1 < q {
            rounding::lemma_units_ordered(p + 1, q);
        }
        rounding::lemma_units_ordered(p, q);
        assert(den * (u + after) == den * u + den * after) by (nonlinear_arith);
        assert(den * after <= den * v) by (nonlinear_arith)
            requires
                after <= v,
        ;
        assert(after < v ==> den * after < den * v) by (nonlinear_arith)
            requires
                den > 0,
        ;
        assert(den * u < den * v) by (nonlinear_arith)
            requires
                u < v,
                den > 0,
        ;
    }
}

/// A value rounds to the closest number.
pub proof fn nearest_is_closest(value: int, c: Binary64)
    requires
        !c.is_nan(),
    ensures
        ({
            let r = Binary64::nearest(value);
            let (near, other) = (gap(r.value(), value), gap(c.value(), value));
            &&& !r.is_nan()
            &&& near <= other
            &&& near == other && r.value() != c.value() ==> r.pattern() % 2 == 0
        }),
{
    rounding::lemma_units_zero();
    exact::lemma_nearest(value);
    let m = (if value < 0 {
        -value
    } else {
        value
    }) as nat;
    rounded_is_closest(m, 1, c.pattern());
    rounded_is_closest(m, 1, 0);
}

/// A sum is the closest number to the exact sum.
pub proof fn a_sum_is_closest(a: Binary64, b: Binary64, c: Binary64)
    requires
        a.is_finite(),
        b.is_finite(),
        !c.is_nan(),
    ensures
        ({
            let (r, exact) = (a.sum(b), a.value() + b.value());
            let (near, other) = (gap(r.value(), exact), gap(c.value(), exact));
            &&& !r.is_nan()
            &&& near <= other
            &&& near == other && r.value() != c.value() ==> r.pattern() % 2 == 0
            &&& exact != 0 ==> r.is_negative() == (exact < 0)
            &&& exact == 0 ==> r.is_negative() == (a.is_negative() && b.is_negative())
        }),
{
    rounding::lemma_units_zero();
    nearest_is_closest(a.value() + b.value(), c);
    exact::lemma_nearest(a.value() + b.value());
    exact::lemma_of(a.is_negative() && b.is_negative(), 0);
}

/// A difference is the closest number to the exact difference.
pub proof fn a_difference_is_closest(a: Binary64, b: Binary64, c: Binary64)
    requires
        a.is_finite(),
        b.is_finite(),
        !c.is_nan(),
    ensures
        ({
            let (r, exact) = (a.difference(b), a.value() - b.value());
            let (near, other) = (gap(r.value(), exact), gap(c.value(), exact));
            &&& !r.is_nan()
            &&& near <= other
            &&& near == other && r.value() != c.value() ==> r.pattern() % 2 == 0
            &&& exact != 0 ==> r.is_negative() == (exact < 0)
            &&& exact == 0 ==> r.is_negative() == (a.is_negative() && !b.is_negative())
        }),
{
    exact::lemma_of(!b.is_negative(), b.pattern());
    a_sum_is_closest(a, b.opposite(), c);
}

/// A product is the closest number to the exact product. Values are counted
/// in units, so a product counts each unit so many times.
pub proof fn a_product_is_closest(a: Binary64, b: Binary64, c: Binary64)
    requires
        a.is_finite(),
        b.is_finite(),
        !c.is_nan(),
    ensures
        ({
            let one = rounding::one() as int;
            let (r, exact) = (a.product(b), a.value() * b.value());
            let (near, other) = (gap(r.value() * one, exact), gap(c.value() * one, exact));
            &&& !r.is_nan()
            &&& near <= other
            &&& near == other && r.value() != c.value() ==> r.pattern() % 2 == 0
            &&& r.is_negative() == (a.is_negative() != b.is_negative())
        }),
{
    rounding::lemma_units_zero();
    lemma_pow2_pos(ONE_UNITS as nat);
    let one = rounding::one() as int;
    let (x, y) = (rounding::units(a.pattern()) as int, rounding::units(b.pattern()) as int);
    let negative = a.is_negative() != b.is_negative();
    let num = (x * y) as nat;
    assert(x * y >= 0) by (nonlinear_arith)
        requires
            x >= 0,
            y >= 0,
    ;
    let p = rounding::rounded(num, rounding::one());
    rounded_is_closest(num, rounding::one(), c.pattern());
    rounded_is_closest(num, rounding::one(), 0);
    exact::lemma_of(negative, p);
    assert((-x) * y == -(x * y) && x * (-y) == -(x * y) && (-x) * (-y) == x * y)
        by (nonlinear_arith);
    let (u, w) = (rounding::units(p) as int, rounding::units(c.pattern()) as int);
    assert((-u) * one == -(one * u) && u * one == one * u) by (nonlinear_arith);
    assert((-w) * one == -(one * w) && w * one == one * w) by (nonlinear_arith);
    assert(one * w >= 0 && (one * w == 0 ==> w == 0)) by (nonlinear_arith)
        requires
            one > 0,
            w >= 0,
    ;
    assert(one * 0 == 0);
}

/// A quotient is the closest number to the exact quotient: times the divisor
/// it comes closest to what is divided.
pub proof fn a_quotient_is_closest(a: Binary64, b: Binary64, c: Binary64)
    requires
        a.is_finite(),
        b.is_finite(),
        b.value() != 0,
        !c.is_nan(),
    ensures
        ({
            let (r, exact) = (a.quotient(b), a.value() * rounding::one());
            let (near, other) = (
                gap(r.value() * b.value(), exact),
                gap(c.value() * b.value(), exact),
            );
            &&& !r.is_nan()
            &&& near <= other
            &&& near == other && r.value() != c.value() ==> r.pattern() % 2 == 0
            &&& r.is_negative() == (a.is_negative() != b.is_negative())
        }),
{
    rounding::lemma_units_zero();
    lemma_pow2_pos(ONE_UNITS as nat);
    let one = rounding::one() as int;
    let (x, y) = (rounding::units(a.pattern()) as int, rounding::units(b.pattern()) as int);
    let negative = a.is_negative() != b.is_negative();
    let num = (x * one) as nat;
    assert(x * one >= 0) by (nonlinear_arith)
        requires
            x >= 0,
            one > 0,
    ;
    let p = rounding::rounded(num, y as nat);
    rounded_is_closest(num, y as nat, c.pattern());
    rounded_is_closest(num, y as nat, 0);
    exact::lemma_of(negative, p);
    assert((-x) * one == -(x * one)) by (nonlinear_arith);
    let (u, w) = (rounding::units(p) as int, rounding::units(c.pattern()) as int);
    assert(u * y == y * u && (-u) * y == -(y * u) && u * (-y) == -(y * u) && (-u) * (-y) == y * u)
        by (nonlinear_arith);
    assert(w * y == y * w && (-w) * y == -(y * w) && w * (-y) == -(y * w) && (-w) * (-y) == y * w)
        by (nonlinear_arith);
    assert(y * w >= 0 && (y * w == 0 ==> w == 0)) by (nonlinear_arith)
        requires
            y > 0,
            w >= 0,
    ;
    assert(y * 0 == 0);
}

/// What adding and subtracting give where an operand is not finite.
pub proof fn sums_without_end(a: Binary64, b: Binary64)
    ensures
        a.sum(b).is_nan() <==> a.is_nan() || b.is_nan() || (a.is_infinite() && b.is_infinite()
            && a.is_negative() != b.is_negative()),
        a.difference(b).is_nan() <==> a.is_nan() || b.is_nan() || (a.is_infinite()
            && b.is_infinite() && a.is_negative() == b.is_negative()),
        a.is_infinite() && !a.sum(b).is_nan() ==> a.sum(b) == a,
        b.is_infinite() && !a.sum(b).is_nan() ==> a.sum(b) == b,
        a.is_infinite() && !a.difference(b).is_nan() ==> a.difference(b) == a,
        b.is_infinite() && !a.difference(b).is_nan() ==> a.difference(b).is_infinite()
            && a.difference(b).is_negative() != b.is_negative(),
{
    if !b.is_nan() {
        exact::lemma_of(!b.is_negative(), b.pattern());
    }
    if a.is_finite() && b.is_finite() {
        a_sum_is_closest(a, b, a);
        a_difference_is_closest(a, b, a);
    }
}

/// What multiplying and dividing give where an operand is not finite, or the
/// divisor is zero.
pub proof fn products_without_end(a: Binary64, b: Binary64)
    ensures
        a.product(b).is_nan() <==> a.is_nan() || b.is_nan() || (a.is_infinite() && b.is_zero()) || (
        a.is_zero() && b.is_infinite()),
        (a.is_infinite() || b.is_infinite()) && !a.product(b).is_nan() ==> a.product(
            b,
        ).is_infinite() && a.product(b).is_negative() == (a.is_negative() != b.is_negative()),
        a.quotient(b).is_nan() <==> a.is_nan() || b.is_nan() || (a.is_infinite()
            && b.is_infinite()) || (a.is_zero() && b.is_zero()),
        (a.is_infinite() || b.is_zero()) && !a.quotient(b).is_nan() ==> a.quotient(
            b,
        ).is_infinite() && a.quotient(b).is_negative() == (a.is_negative() != b.is_negative()),
        b.is_infinite() && !a.quotient(b).is_nan() ==> a.quotient(b).is_zero() && a.quotient(
            b,
        ).is_negative() == (a.is_negative() != b.is_negative()),
{
    rounding::lemma_units_zero();
    exact::lemma_of(a.is_negative() != b.is_negative(), INFINITE as nat);
    exact::lemma_of(a.is_negative() != b.is_negative(), 0);
    if a.is_finite() && b.is_finite() {
        a_product_is_closest(a, b, a);
        if !b.is_zero() {
            rounding::lemma_units_ordered(0, b.pattern());
            a_quotient_is_closest(a, b, a);
        }
    }
}

/// What bits say: the top one the sign, eleven the binade, and the rest the
/// place in it. A value is counted in the smallest number there is, and one
/// is two to the 1074 of them.
pub proof fn bits_spell_numbers(x: Binary64)
    ensures
        x.is_negative() <==> x.bits >= 0x8000_0000_0000_0000,
        x.is_nan() <==> x.bits % 0x8000_0000_0000_0000 > 0x7ff0_0000_0000_0000,
        x.is_infinite() <==> x.bits % 0x8000_0000_0000_0000 == 0x7ff0_0000_0000_0000,
        x.is_finite() <==> x.bits % 0x8000_0000_0000_0000 < 0x7ff0_0000_0000_0000,
        x.is_zero() <==> x.bits % 0x8000_0000_0000_0000 == 0,
        x.pattern() == x.bits % 0x8000_0000_0000_0000,
        rounding::one() == pow2(1074),
        ({
            let binade = (x.bits % 0x8000_0000_0000_0000) / 0x10_0000_0000_0000;
            let place = x.bits % 0x10_0000_0000_0000;
            let magnitude = if binade == 0 {
                place as int
            } else {
                (0x10_0000_0000_0000 + place) * pow2((binade - 1) as nat)
            };
            x.value() == if x.bits >= 0x8000_0000_0000_0000 {
                -magnitude
            } else {
                magnitude
            }
        }),
{
    reveal(rounding::units);
    let p = x.pattern();
    assert(x.bits % 0x10_0000_0000_0000 == p % 0x10_0000_0000_0000);
}

/// Numbers compare by their values, and what is no number compares to
/// nothing. Infinity lies beyond every finite number.
pub proof fn numbers_compare_by_value(a: Binary64, b: Binary64)
    ensures
        a.ge(b) <==> !a.is_nan() && !b.is_nan() && a.value() >= b.value(),
        a.lt(b) <==> !a.is_nan() && !b.is_nan() && a.value() < b.value(),
        a.equals(b) <==> !a.is_nan() && !b.is_nan() && a.value() == b.value(),
        a.is_infinite() && !a.is_negative() && b.is_finite() ==> a.value() > b.value(),
        a.is_infinite() && a.is_negative() && b.is_finite() ==> a.value() < b.value(),
{
    if b.is_finite() {
        exact::lemma_finite_bounds(b);
    }
}

/// Negating flips the sign bit and nothing else.
pub proof fn negating_flips_the_sign(x: Binary64)
    ensures
        x.bits < 0x8000_0000_0000_0000 ==> x.opposite().bits == x.bits + 0x8000_0000_0000_0000,
        x.bits >= 0x8000_0000_0000_0000 ==> x.opposite().bits == x.bits - 0x8000_0000_0000_0000,
        !x.is_nan() ==> x.opposite().value() == -x.value(),
{
    if !x.is_nan() {
        exact::lemma_of(!x.is_negative(), x.pattern());
    }
}

/// An integer converts to the closest number.
pub proof fn an_integer_is_closest(n: int, c: Binary64)
    requires
        !c.is_nan(),
    ensures
        ({
            let (r, exact) = (Binary64::of_integer(n), n * rounding::one());
            let (near, other) = (gap(r.value(), exact), gap(c.value(), exact));
            &&& !r.is_nan()
            &&& near <= other
            &&& near == other && r.value() != c.value() ==> r.pattern() % 2 == 0
            &&& r.is_negative() == (n < 0)
        }),
{
    lemma_pow2_pos(ONE_UNITS as nat);
    let one = rounding::one() as int;
    assert((n < 0) == (n * one < 0)) by (nonlinear_arith)
        requires
            one > 0,
    ;
    exact::lemma_nearest(n * one);
    nearest_is_closest(n * one, c);
}

} // verus!
