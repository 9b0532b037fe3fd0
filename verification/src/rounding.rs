//! What it means to round to the nearest binary64 number, ties to even.
//!
//! A nonnegative binary64 number is known by its *pattern*: the number its
//! 63 bits under the sign spell. Patterns `0..INFINITE` are the finite
//! numbers in increasing order, and `INFINITE` follows the largest of them.
//! Every finite number is a whole multiple of the smallest positive one, so
//! its exact value is a natural number of those *units*.

use vstd::arithmetic::mul::*;
use vstd::arithmetic::power2::*;
use vstd::prelude::*;

verus! {

/// Patterns in one binade: two to the fraction's 52 bits.
pub const BINADE: u64 = 0x10_0000_0000_0000;

/// The pattern of infinity, one past the largest finite number's.
pub const INFINITE: u64 = 0x7ff0_0000_0000_0000;

/// One, counted in units, is two to this power.
pub const ONE_UNITS: u64 = 1074;

/// The value of a pattern in units. `INFINITE` weighs what the number after
/// the largest finite one would, which is where rounding stops being finite.
#[verifier::opaque]
pub open spec fn units(pattern: nat) -> nat {
    let exponent = pattern / (BINADE as nat);
    let fraction = pattern % (BINADE as nat);
    if exponent == 0 {
        fraction
    } else {
        (BINADE as nat + fraction) * pow2((exponent - 1) as nat)
    }
}

/// The number of units in one.
pub open spec fn one() -> nat {
    pow2(ONE_UNITS as nat)
}

/// Whether `pattern` is the closest to `num / den` units, and the even one
/// of the two when the quotient lies halfway between neighbours.
pub open spec fn is_nearest(num: nat, den: nat, pattern: nat) -> bool {
    &&& pattern <= INFINITE
    &&& pattern > 0 ==> {
        let midpoint = den * (units((pattern - 1) as nat) + units(pattern));
        midpoint < 2 * num || (midpoint == 2 * num && pattern % 2 == 0)
    }
    &&& pattern < INFINITE ==> {
        let midpoint = den * (units(pattern) + units(pattern + 1));
        2 * num < midpoint || (midpoint == 2 * num && pattern % 2 == 0)
    }
}

/// The pattern that `num / den` units round to.
pub open spec fn rounded(num: nat, den: nat) -> nat {
    choose|pattern: nat| is_nearest(num, den, pattern)
}

/// The first pattern is zero.
pub proof fn lemma_units_zero()
    ensures
        units(0) == 0,
{
    reveal(units);
}

/// Within a binade the units advance by equal steps.
pub proof fn lemma_units_on_grid(q: nat, t: nat)
    requires
        q <= 2 * BINADE,
        t == 0 || q >= BINADE,
    ensures
        units(q + t * (BINADE as nat)) == q * pow2(t),
{
    reveal(units);
    let p = q + t * (BINADE as nat);
    lemma2_to64();
    if q < BINADE {
        assert(q * pow2(0) == q) by (nonlinear_arith)
            requires
                pow2(0) == 1,
        ;
    } else if q < 2 * BINADE {
        assert(p / (BINADE as nat) == t + 1);
        assert(p % (BINADE as nat) == q - BINADE);
    } else {
        assert(p / (BINADE as nat) == t + 2);
        assert(p % (BINADE as nat) == 0);
        lemma_pow2_unfold((t + 1) as nat);
        assert((BINADE as nat) * (2 * pow2(t)) == (2 * BINADE as nat) * pow2(t)) by (nonlinear_arith);
    }
}

/// Every pattern stands on the grid of its binade.
pub proof fn lemma_pattern_on_grid(p: nat) -> (r: (nat, nat))
    ensures
        p == r.0 + r.1 * (BINADE as nat),
        r.0 < 2 * BINADE,
        r.1 == 0 || r.0 >= BINADE,
{
    let exponent = p / (BINADE as nat);
    if exponent == 0 {
        (p, 0)
    } else {
        let t = (exponent - 1) as nat;
        ((p - t * (BINADE as nat)) as nat, t)
    }
}

/// The next pattern is the next larger number.
pub proof fn lemma_units_step(p: nat)
    ensures
        units(p) < units(p + 1),
{
    let (q, t) = lemma_pattern_on_grid(p);
    lemma_units_on_grid(q, t);
    lemma_units_on_grid(q + 1, t);
    lemma_pow2_pos(t);
    assert(q * pow2(t) < (q + 1) * pow2(t)) by (nonlinear_arith)
        requires
            pow2(t) > 0,
    ;
    assert((q + 1) + t * (BINADE as nat) == p + 1);
}

/// Patterns are ordered as the numbers they stand for.
pub proof fn lemma_units_ordered(a: nat, b: nat)
    requires
        a < b,
    ensures
        units(a) < units(b),
    decreases b - a,
{
    lemma_units_step(a);
    if a + 1 < b {
        lemma_units_ordered(a + 1, b);
    }
}

/// Rounding has one outcome.
pub proof fn lemma_nearest_unique(num: nat, den: nat, a: nat, b: nat)
    requires
        den > 0,
        is_nearest(num, den, a),
        is_nearest(num, den, b),
    ensures
        a == b,
{
    lemma_nearest_at_most(num, den, a, b);
    lemma_nearest_at_most(num, den, b, a);
}

proof fn lemma_nearest_at_most(num: nat, den: nat, a: nat, b: nat)
    requires
        den > 0,
        is_nearest(num, den, a),
        is_nearest(num, den, b),
    ensures
        b <= a,
{
    if a + 1 < b {
        let above = units(a) + units(a + 1);
        let below = units((b - 1) as nat) + units(b);
        lemma_units_ordered(a, (b - 1) as nat);
        lemma_units_ordered(a + 1, b);
        lemma_mul_strict_inequality(above as int, below as int, den as int);
        lemma_mul_is_commutative(above as int, den as int);
        lemma_mul_is_commutative(below as int, den as int);
    }
}

/// What is known to be nearest is what rounding gives.
pub proof fn lemma_rounded_is(num: nat, den: nat, pattern: nat)
    requires
        den > 0,
        is_nearest(num, den, pattern),
    ensures
        rounded(num, den) == pattern,
{
    lemma_nearest_unique(num, den, rounded(num, den), pattern);
}

/// A quotient between two neighbours rounds to one of them, by its half.
pub proof fn lemma_nearest_between(num: nat, den: nat, p: nat)
    requires
        den > 0,
        p < INFINITE,
        den * units(p) <= num,
        num < den * units(p + 1),
    ensures
        ({
            let midpoint = den * (units(p) + units(p + 1));
            if 2 * num < midpoint || (2 * num == midpoint && p % 2 == 0) {
                is_nearest(num, den, p)
            } else {
                is_nearest(num, den, p + 1)
            }
        }),
{
    let midpoint = den * (units(p) + units(p + 1));
    assert(midpoint == den * units(p) + den * units(p + 1)) by (nonlinear_arith)
        requires
            midpoint == den * (units(p) + units(p + 1)),
    ;
    if p > 0 {
        let before = units((p - 1) as nat);
        lemma_units_step((p - 1) as nat);
        assert(den * (before + units(p)) < 2 * (den * units(p))) by (nonlinear_arith)
            requires
                den > 0,
                before < units(p),
        ;
    }
    if p + 1 < INFINITE {
        lemma_units_step(p + 1);
        assert(2 * (den * units(p + 1)) < den * (units(p + 1) + units(p + 1 + 1)))
            by (nonlinear_arith)
            requires
                den > 0,
                units(p + 1) < units(p + 1 + 1),
        ;
    }
}

/// A pattern's own value rounds to it.
pub proof fn lemma_nearest_exact(num: nat, den: nat, p: nat)
    requires
        den > 0,
        p <= INFINITE,
        num == den * units(p),
    ensures
        is_nearest(num, den, p),
{
    if p < INFINITE {
        lemma_units_step(p);
        let (here, next) = (units(p), units(p + 1));
        assert(den * here < den * next && 2 * (den * here) < den * (here + next)) by (nonlinear_arith)
            requires
                den > 0,
                here < next,
        ;
        lemma_nearest_between(num, den, p);
    } else {
        lemma_nearest_infinite(num, den);
    }
}

/// From the weight of infinity on, everything rounds to infinity.
pub proof fn lemma_nearest_infinite(num: nat, den: nat)
    requires
        den > 0,
        den * units(INFINITE as nat) <= num,
    ensures
        is_nearest(num, den, INFINITE as nat),
{
    let top = (INFINITE - 1) as nat;
    lemma_units_step(top);
    let (here, next) = (units(top), units(top + 1));
    assert(den * (here + next) < 2 * (den * next)) by (nonlinear_arith)
        requires
            den > 0,
            here < next,
    ;
}

/// Rounding is defined for every quotient.
pub proof fn lemma_rounded_exists(num: nat, den: nat)
    requires
        den > 0,
    ensures
        is_nearest(num, den, rounded(num, den)),
{
    if den * units(INFINITE as nat) <= num {
        lemma_nearest_infinite(num, den);
    } else {
        lemma_neighbours(num, den, INFINITE as nat);
        let p = choose|p: nat|
            p < INFINITE && den * #[trigger] units(p) <= num && num < den * units(p + 1);
        lemma_nearest_between(num, den, p);
        assert(is_nearest(num, den, p) || is_nearest(num, den, p + 1));
    }
}

proof fn lemma_neighbours(num: nat, den: nat, bound: nat)
    requires
        den > 0,
        num < den * units(bound),
    ensures
        exists|p: nat|
            p < bound && den * #[trigger] units(p) <= num && num < den * units(p + 1),
    decreases bound,
{
    lemma_units_zero();
    if bound == 0 {
        assert(den * units(0) == 0) by (nonlinear_arith)
            requires
                units(0) == 0,
        ;
    } else {
        let p = (bound - 1) as nat;
        if den * units(p) <= num {
            assert(num < den * units(p + 1));
        } else {
            lemma_neighbours(num, den, p);
            let q = choose|q: nat|
                q < p && den * #[trigger] units(q) <= num && num < den * units(q + 1);
            assert(q < bound);
        }
    }
}

/// A larger quotient never rounds to a smaller number.
pub proof fn lemma_rounded_monotone(num1: nat, den1: nat, num2: nat, den2: nat)
    requires
        den1 > 0,
        den2 > 0,
        num1 * den2 <= num2 * den1,
    ensures
        rounded(num1, den1) <= rounded(num2, den2),
{
    lemma_rounded_exists(num1, den1);
    lemma_rounded_exists(num2, den2);
    let (a, b) = (rounded(num1, den1), rounded(num2, den2));
    if b < a {
        // Then `num1 / den1` lies at or above the midpoint under `a`, and
        // `num2 / den2` at or below the one over `b`.
        let below = units((a - 1) as nat) + units(a);
        let above = units(b) + units(b + 1);
        if b + 1 < a {
            lemma_units_ordered(b, (a - 1) as nat);
            lemma_units_ordered(b + 1, a);
        }
        assert(den1 * below * den2 <= 2 * num1 * den2) by (nonlinear_arith)
            requires
                den1 * below <= 2 * num1,
        ;
        assert(2 * num2 * den1 <= den2 * above * den1) by (nonlinear_arith)
            requires
                2 * num2 <= den2 * above,
        ;
        assert(2 * num1 * den2 <= 2 * num2 * den1) by (nonlinear_arith)
            requires
                num1 * den2 <= num2 * den1,
        ;
        assert(den1 * below * den2 == (den1 * den2) * below) by (nonlinear_arith);
        assert(den2 * above * den1 == (den1 * den2) * above) by (nonlinear_arith);
        let c = den1 * den2;
        assert(c > 0) by (nonlinear_arith)
            requires
                den1 > 0,
                den2 > 0,
                c == den1 * den2,
        ;
        if b + 1 < a {
            assert(c * above < c * below) by (nonlinear_arith)
                requires
                    c > 0,
                    above < below,
            ;
        } else {
            // Both sit on the one midpoint between `b` and `a`, and the even
            // one of the two is the only answer there.
            assert(c * above == c * below);
            assert(den1 * below == 2 * num1) by (nonlinear_arith)
                requires
                    den2 > 0,
                    den1 * below <= 2 * num1,
                    den1 * below * den2 == 2 * num1 * den2,
            ;
            assert(den2 * above == 2 * num2) by (nonlinear_arith)
                requires
                    den1 > 0,
                    2 * num2 <= den2 * above,
                    2 * num2 * den1 == den2 * above * den1,
            ;
        }
    }
}

/// Any 53-bit mantissa within reach has a pattern of its own.
pub proof fn lemma_representable(m: nat, t: nat) -> (p: nat)
    requires
        m <= 2 * BINADE,
        t < 2045,
    ensures
        units(p) == m * pow2(t),
        p < INFINITE,
    decreases t,
{
    if m >= BINADE || t == 0 {
        lemma_units_on_grid(m, t);
        m + t * (BINADE as nat)
    } else {
        let below = (t - 1) as nat;
        lemma_pow2_unfold(t);
        assert((2 * m) * pow2(below) == m * (2 * pow2(below))) by (nonlinear_arith);
        lemma_representable(2 * m, below)
    }
}

/// A quotient rounds the same in smaller parts.
pub proof fn lemma_rounded_reduced(num: nat, den: nat, by: nat)
    requires
        den > 0,
        by > 0,
    ensures
        rounded(num * by, den * by) == rounded(num, den),
{
    assert(den * by > 0) by (nonlinear_arith)
        requires
            den > 0,
            by > 0,
    ;
    assert((num * by) * den == num * (den * by)) by (nonlinear_arith);
    lemma_rounded_monotone(num * by, den * by, num, den);
    lemma_rounded_monotone(num, den, num * by, den * by);
}

} // verus!
