//! How results are ordered, and when they are exact.

use crate::binary64::Binary64;
use crate::rounding::{self, BINADE, INFINITE, ONE_UNITS};
use vstd::arithmetic::mul::*;
use vstd::arithmetic::power2::*;
use vstd::prelude::*;

verus! {

/// Sign and pattern of a number put together from them.
pub proof fn lemma_of(negative: bool, pattern: nat)
    requires
        pattern <= INFINITE,
    ensures
        Binary64::of(negative, pattern).pattern() == pattern,
        Binary64::of(negative, pattern).is_negative() == negative,
        !Binary64::of(negative, pattern).is_nan(),
        Binary64::of(negative, pattern).value() == if negative {
            -(rounding::units(pattern) as int)
        } else {
            rounding::units(pattern) as int
        },
{
}

/// Rounding gives a number, of the sign of what was rounded.
pub proof fn lemma_nearest(value: int)
    ensures
        !Binary64::nearest(value).is_nan(),
        Binary64::nearest(value).is_negative() == (value < 0),
        Binary64::nearest(value).pattern() == rounding::rounded(
            (if value < 0 {
                -value
            } else {
                value
            }) as nat,
            1,
        ),
{
    let magnitude = (if value < 0 {
        -value
    } else {
        value
    }) as nat;
    rounding::lemma_rounded_exists(magnitude, 1);
    lemma_of(value < 0, rounding::rounded(magnitude, 1));
}

/// Rounding keeps the order of what is rounded.
pub proof fn nearest_is_monotone(x: int, y: int)
    requires
        x <= y,
    ensures
        Binary64::nearest(x).value() <= Binary64::nearest(y).value(),
{
    lemma_nearest(x);
    lemma_nearest(y);
    let (p, q) = (Binary64::nearest(x).pattern(), Binary64::nearest(y).pattern());
    if 0 <= x {
        rounding::lemma_rounded_monotone(x as nat, 1, y as nat, 1);
        if p < q {
            rounding::lemma_units_ordered(p, q);
        }
    } else if y < 0 {
        rounding::lemma_rounded_monotone((-y) as nat, 1, (-x) as nat, 1);
        if q < p {
            rounding::lemma_units_ordered(q, p);
        }
    }
}

/// A finite number's own value rounds to the number.
pub proof fn nearest_is_exact(x: Binary64)
    requires
        x.is_finite(),
    ensures
        Binary64::nearest(x.value()).value() == x.value(),
        Binary64::nearest(x.value()).pattern() == x.pattern(),
{
    let p = x.pattern();
    lemma_nearest(x.value());
    rounding::lemma_nearest_exact(rounding::units(p), 1, p);
    rounding::lemma_rounded_is(rounding::units(p), 1, p);
}

/// A finite sum has the value its exact sum rounds to.
pub proof fn lemma_sum_value(a: Binary64, b: Binary64)
    requires
        a.is_finite(),
        b.is_finite(),
    ensures
        !a.sum(b).is_nan(),
        a.sum(b).value() == Binary64::nearest(a.value() + b.value()).value(),
{
    rounding::lemma_units_zero();
    lemma_nearest(a.value() + b.value());
    if a.value() + b.value() == 0 {
        lemma_of(a.is_negative() && b.is_negative(), 0);
        rounding::lemma_nearest_exact(0, 1, 0);
        rounding::lemma_rounded_is(0, 1, 0);
    }
}

/// A finite number weighs less than infinity does.
pub proof fn lemma_finite_bounds(x: Binary64)
    requires
        !x.is_nan(),
    ensures
        -(rounding::units(INFINITE as nat) as int) <= x.value() <= rounding::units(
            INFINITE as nat,
        ),
        x.is_finite() ==> -(rounding::units(INFINITE as nat) as int) < x.value()
            < rounding::units(INFINITE as nat),
{
    if x.is_finite() {
        rounding::lemma_units_ordered(x.pattern(), INFINITE as nat);
    }
}

/// Adding more never gives less.
pub proof fn sum_is_monotone(a: Binary64, b: Binary64, c: Binary64)
    requires
        c.ge(b),
        !a.sum(b).is_nan(),
        !a.sum(c).is_nan(),
    ensures
        a.sum(c).ge(a.sum(b)),
{
    lemma_finite_bounds(b);
    lemma_finite_bounds(c);
    lemma_finite_bounds(a.sum(b));
    lemma_finite_bounds(a.sum(c));
    if a.is_finite() && b.is_finite() && c.is_finite() {
        lemma_sum_value(a, b);
        lemma_sum_value(a, c);
        nearest_is_monotone(a.value() + b.value(), a.value() + c.value());
    }
}

/// Adding to more never gives less.
pub proof fn sum_is_monotone_in_the_first(a: Binary64, b: Binary64, c: Binary64)
    requires
        b.ge(a),
        !a.sum(c).is_nan(),
        !b.sum(c).is_nan(),
    ensures
        b.sum(c).ge(a.sum(c)),
{
    lemma_finite_bounds(a);
    lemma_finite_bounds(b);
    lemma_finite_bounds(a.sum(c));
    lemma_finite_bounds(b.sum(c));
    if a.is_finite() && b.is_finite() && c.is_finite() {
        lemma_sum_value(a, c);
        lemma_sum_value(b, c);
        nearest_is_monotone(a.value() + c.value(), b.value() + c.value());
    }
}

/// A stretch that holds another is no shorter.
pub proof fn difference_is_monotone(start: Binary64, end: Binary64, from: Binary64, to: Binary64)
    requires
        start.ge(from),
        to.ge(end),
        !end.difference(start).is_nan(),
        !to.difference(from).is_nan(),
    ensures
        to.difference(from).ge(end.difference(start)),
{
    lemma_of(!start.is_negative(), start.pattern());
    lemma_of(!from.is_negative(), from.pattern());
    lemma_finite_bounds(start);
    lemma_finite_bounds(end);
    lemma_finite_bounds(from);
    lemma_finite_bounds(to);
    lemma_finite_bounds(end.difference(start));
    lemma_finite_bounds(to.difference(from));
    if start.is_finite() && end.is_finite() && from.is_finite() && to.is_finite() {
        lemma_sum_value(end, start.opposite());
        lemma_sum_value(to, from.opposite());
        nearest_is_monotone(end.value() - start.value(), to.value() - from.value());
    }
}

/// A stretch within one that is shorter than `limit` is shorter too.
pub proof fn lemma_shorter_within(
    start: Binary64,
    end: Binary64,
    from: Binary64,
    limit: Binary64,
)
    requires
        end.difference(from).lt(limit),
        start.ge(from),
        end.ge(start),
    ensures
        end.difference(start).lt(limit),
{
    lemma_of(!start.is_negative(), start.pattern());
    lemma_of(!from.is_negative(), from.pattern());
    lemma_finite_bounds(start);
    lemma_finite_bounds(end);
    lemma_finite_bounds(from);
    lemma_finite_bounds(limit);
    if start.is_finite() && end.is_finite() {
        lemma_sum_value(end, start.opposite());
    }
    difference_is_monotone(start, end, from, end);
}

/// A stretch around one that reaches `limit` reaches it too.
pub proof fn lemma_longer_around(
    start: Binary64,
    end: Binary64,
    from: Binary64,
    to: Binary64,
    limit: Binary64,
)
    requires
        end.difference(start).ge(limit),
        start.ge(from),
        end.ge(start),
        to.ge(end),
    ensures
        to.difference(from).ge(limit),
{
    lemma_of(!start.is_negative(), start.pattern());
    lemma_of(!from.is_negative(), from.pattern());
    lemma_finite_bounds(start);
    lemma_finite_bounds(end);
    lemma_finite_bounds(from);
    lemma_finite_bounds(to);
    rounding::lemma_units_ordered(0, INFINITE as nat);
    if from.is_finite() && to.is_finite() {
        lemma_sum_value(to, from.opposite());
    }
    difference_is_monotone(start, end, from, to);
}

/// Adding what is not negative never goes back.
pub proof fn adding_never_goes_back(a: Binary64, b: Binary64)
    requires
        !a.is_nan(),
        b.is_finite(),
        b.value() >= 0,
    ensures
        a.sum(b).ge(a),
{
    if a.is_finite() {
        lemma_sum_value(a, b);
        nearest_is_monotone(a.value(), a.value() + b.value());
        nearest_is_exact(a);
    }
}

/// Integers of up to 53 bits convert to the very number.
pub proof fn integers_are_exact(n: int)
    requires
        -2 * BINADE <= n <= 2 * BINADE,
    ensures
        Binary64::of_integer(n).is_finite(),
        Binary64::of_integer(n).is_negative() == (n < 0),
        Binary64::of_integer(n).value() == n * rounding::one(),
{
    let m = (if n < 0 {
        -n
    } else {
        n
    }) as nat;
    let one = rounding::one() as int;
    lemma_pow2_pos(ONE_UNITS as nat);
    assert(n < 0 ==> n * one < 0) by (nonlinear_arith)
        requires
            one > 0,
    ;
    assert(n >= 0 ==> n * one >= 0) by (nonlinear_arith)
        requires
            one > 0,
    ;
    assert(n < 0 ==> -(n * one) == m * one) by (nonlinear_arith)
        requires
            n < 0 ==> m == -n,
    ;
    let p = rounding::lemma_representable(m, ONE_UNITS as nat);
    let num = m * rounding::one();
    rounding::lemma_nearest_exact(num, 1, p);
    rounding::lemma_rounded_is(num, 1, p);
    lemma_nearest(n * one);
}

/// Larger integers convert to no smaller numbers.
pub proof fn integers_keep_their_order(m: int, n: int)
    requires
        m <= n,
    ensures
        Binary64::of_integer(n).ge(Binary64::of_integer(m)),
{
    let one = rounding::one() as int;
    lemma_mul_inequality(m, n, one);
    nearest_is_monotone(m * one, n * one);
    lemma_nearest(m * one);
    lemma_nearest(n * one);
}

/// The quotient of two such integers is rounded only once.
pub proof fn integer_quotients_round_once(a: int, b: int)
    requires
        0 <= a <= 2 * BINADE,
        0 < b <= 2 * BINADE,
    ensures
        Binary64::of_integer(a).quotient(Binary64::of_integer(b)) == Binary64::of(
            false,
            rounding::rounded((a * rounding::one()) as nat, b as nat),
        ),
{
    rounding::lemma_units_zero();
    integers_are_exact(a);
    integers_are_exact(b);
    let (x, y) = (Binary64::of_integer(a), Binary64::of_integer(b));
    let one = rounding::one();
    lemma_pow2_pos(ONE_UNITS as nat);
    assert(b * one > 0) by (nonlinear_arith)
        requires
            b > 0,
            one > 0,
    ;
    assert(a * one >= 0) by (nonlinear_arith)
        requires
            a >= 0,
            one > 0,
    ;
    assert(!y.is_zero());
    rounding::lemma_rounded_reduced((a * one) as nat, b as nat, one);
}

/// What lies between two numbers rounds to no less than the one and no more
/// than the other.
pub proof fn lemma_rounded_between(num: nat, den: nat, low: nat, high: nat)
    requires
        den > 0,
        low <= INFINITE,
        high <= INFINITE,
        den * rounding::units(low) <= num,
        num <= den * rounding::units(high),
    ensures
        low <= rounding::rounded(num, den) <= high,
{
    let (below, above) = (den * rounding::units(low), den * rounding::units(high));
    rounding::lemma_nearest_exact(below, den, low);
    rounding::lemma_rounded_is(below, den, low);
    rounding::lemma_nearest_exact(above, den, high);
    rounding::lemma_rounded_is(above, den, high);
    lemma_mul_inequality(below as int, num as int, den as int);
    lemma_mul_inequality(num as int, above as int, den as int);
    rounding::lemma_rounded_monotone(below, den, num, den);
    rounding::lemma_rounded_monotone(num, den, above, den);
}

/// An integer other than zero stays at least one in magnitude, and one of up
/// to 64 bits stays within 64 bits.
pub proof fn lemma_integer_size(n: int)
    requires
        -0x1_0000_0000_0000_0000 <= n <= 0x1_0000_0000_0000_0000,
    ensures
        Binary64::of_integer(n).is_finite(),
        Binary64::of_integer(n).is_negative() == (n < 0),
        n == 0 ==> Binary64::of_integer(n).is_zero(),
        n != 0 ==> rounding::units(Binary64::of_integer(n).pattern()) >= rounding::one(),
        rounding::units(Binary64::of_integer(n).pattern()) <= 0x1_0000_0000_0000_0000
            * rounding::one(),
{
    rounding::lemma_units_zero();
    let m = (if n < 0 {
        -n
    } else {
        n
    }) as nat;
    let one = rounding::one();
    lemma2_to64();
    lemma_pow2_pos(ONE_UNITS as nat);
    lemma_pow2_adds(64, ONE_UNITS as nat);
    assert(n < 0 ==> n * one < 0) by (nonlinear_arith)
        requires
            one > 0,
    ;
    assert(n >= 0 ==> n * one >= 0) by (nonlinear_arith)
        requires
            one > 0,
    ;
    assert(n < 0 ==> -(n * one) == m * one) by (nonlinear_arith)
        requires
            n < 0 ==> m == -n,
    ;
    lemma_nearest(n * one);
    let low = rounding::lemma_representable(if m == 0 {
        0
    } else {
        1
    }, ONE_UNITS as nat);
    let high = rounding::lemma_representable(1, ONE_UNITS as nat + 64);
    assert(m * one <= 0x1_0000_0000_0000_0000 * one) by (nonlinear_arith)
        requires
            m <= 0x1_0000_0000_0000_0000,
    ;
    assert(m >= 1 ==> m * one >= 1 * one) by (nonlinear_arith);
    assert(0 * one == 0);
    lemma_rounded_between(m * one, 1, low, high);
    let p = rounding::rounded(m * one, 1);
    if low < p {
        rounding::lemma_units_ordered(low, p);
    }
    if p < high {
        rounding::lemma_units_ordered(p, high);
    }
    if m == 0 {
        rounding::lemma_nearest_exact(0, 1, 0);
        rounding::lemma_rounded_is(0, 1, 0);
    }
}

/// Zero and a number that is not negative add up to that number.
pub proof fn adding_to_zero(x: Binary64)
    requires
        !x.is_nan(),
        !x.is_negative(),
    ensures
        (Binary64 { bits: 0 }).sum(x) == x,
{
    rounding::lemma_units_zero();
    let zero = Binary64 { bits: 0 };
    if x.is_finite() {
        nearest_is_exact(x);
        lemma_nearest(x.value());
        if x.pattern() > 0 {
            rounding::lemma_units_ordered(0, x.pattern());
        }
    }
}

/// The bits of a quotient of integers that lies close to `q` times two to the
/// `t`.
pub proof fn lemma_quotient_bits(a: int, b: int, q: nat, t: nat)
    requires
        0 < a <= 2 * BINADE,
        0 < b <= 2 * BINADE,
        BINADE < q < 2 * BINADE,
        t < ONE_UNITS,
        b * (2 * q - 1) < 2 * (a * pow2((ONE_UNITS - t) as nat)) < b * (2 * q + 1),
    ensures
        Binary64::of_integer(a).quotient(Binary64::of_integer(b)).bits == q + t * BINADE,
{
    let p = q + t * (BINADE as nat);
    let one = rounding::one();
    let (w, step) = (pow2((ONE_UNITS - t) as nat), pow2(t));
    integer_quotients_round_once(a, b);
    lemma_pow2_adds((ONE_UNITS - t) as nat, t);
    lemma_pow2_pos(t);
    rounding::lemma_units_on_grid(q, t);
    rounding::lemma_units_on_grid((q - 1) as nat, t);
    rounding::lemma_units_on_grid(q + 1, t);
    assert((q - 1) + t * (BINADE as nat) == p - 1 && (q + 1) + t * (BINADE as nat) == p + 1);
    assert(b * ((q - 1) * step + q * step) == (b * (2 * q - 1)) * step) by (nonlinear_arith);
    assert(b * (q * step + (q + 1) * step) == (b * (2 * q + 1)) * step) by (nonlinear_arith);
    assert(2 * (a * (w * step)) == (2 * (a * w)) * step) by (nonlinear_arith);
    assert((b * (2 * q - 1)) * step < (2 * (a * w)) * step) by (nonlinear_arith)
        requires
            b * (2 * q - 1) < 2 * (a * w),
            step > 0,
    ;
    assert((2 * (a * w)) * step < (b * (2 * q + 1)) * step) by (nonlinear_arith)
        requires
            2 * (a * w) < b * (2 * q + 1),
            step > 0,
    ;
    assert(a * one >= 0) by (nonlinear_arith)
        requires
            a > 0,
            one >= 0,
    ;
    assert(p < INFINITE);
    assert(rounding::is_nearest((a * one) as nat, b as nat, p));
    rounding::lemma_rounded_is((a * one) as nat, b as nat, p);
}

/// The bits of one over a power of two.
pub proof fn lemma_half_bits(t: nat, b: int)
    requires
        1000 <= t < 1022,
        b == pow2((1022 - t) as nat),
        b <= 2 * BINADE,
    ensures
        Binary64::of_integer(1).quotient(Binary64::of_integer(b)).bits == BINADE + t * BINADE,
{
    let p = BINADE as nat + t * (BINADE as nat);
    lemma_pow2_pos((1022 - t) as nat);
    integer_quotients_round_once(1, b);
    rounding::lemma_units_on_grid(BINADE as nat, t);
    lemma2_to64_rest();
    lemma_pow2_adds(52, t);
    lemma_pow2_adds((1022 - t) as nat, 52 + t);
    assert(1 * rounding::one() == rounding::one());
    rounding::lemma_nearest_exact(rounding::one(), b as nat, p);
    rounding::lemma_rounded_is(rounding::one(), b as nat, p);
}

} // verus!
