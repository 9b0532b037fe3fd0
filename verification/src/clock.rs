//! Samples, chunks and the seconds they fall on.

use crate::binary64::Binary64;
use crate::closest;
use crate::exact;
use crate::rounding::{self, BINADE, INFINITE, ONE_UNITS};
use vstd::arithmetic::power2::*;
use vstd::prelude::*;

verus! {

/// Samples one model chunk covers. Silero VAD v5 is trained on exactly this
/// many at 16 kHz and accepts no other length.
pub const CHUNK: usize = 512;

/// The rate the model works at, and the only one the module accepts.
pub const SAMPLE_RATE: u32 = 16_000;

/// The seconds `samples` samples last.
pub open spec fn lasting(samples: u64) -> Binary64 {
    Binary64::of_integer(samples as int).quotient(Binary64::of_integer(SAMPLE_RATE as int))
}

/// Seconds one chunk covers: 32 ms, which is the resolution a span's edges
/// can ever have.
pub open spec fn chunk_length() -> Binary64 {
    lasting(CHUNK as u64)
}

/// The second a timestamp falls on: each operation rounds once.
pub open spec fn seconds_of(ticks: int, num: int, den: int) -> Binary64 {
    Binary64::of_integer(ticks).product(Binary64::of_integer(num)).quotient(
        Binary64::of_integer(den),
    )
}

/// The second that lies `samples` samples after `base`.
pub open spec fn second_at(base: Binary64, samples: u64) -> Binary64 {
    base.sum(lasting(samples))
}

/// The seconds `samples` samples last.
pub fn duration_of(samples: u64) -> (r: Binary64)
    ensures
        r == lasting(samples),
{
    Binary64::from_u64(samples).over(Binary64::from_u64(SAMPLE_RATE as u64))
}

/// Seconds one chunk covers.
pub fn chunk_seconds() -> (r: Binary64)
    ensures
        r == chunk_length(),
{
    duration_of(CHUNK as u64)
}

/// A timestamp in the stream's own unit, as seconds. `den` is always
/// positive, so a negative timestamp stays negative.
pub fn seconds(ticks: i64, num: i32, den: i32) -> (r: Binary64)
    ensures
        r == seconds_of(ticks as int, num as int, den as int),
{
    Binary64::from_i64(ticks).times(Binary64::from_i64(num as i64)).over(
        Binary64::from_i64(den as i64),
    )
}

/// Some samples last a finite time, never a negative one.
pub proof fn lemma_lasting(samples: u64)
    ensures
        lasting(samples).is_finite(),
        !lasting(samples).is_negative(),
        lasting(samples).value() >= 0,
        lasting(samples).pattern() == rounding::rounded(
            rounding::units(Binary64::of_integer(samples as int).pattern()) * rounding::one(),
            SAMPLE_RATE as nat * rounding::one(),
        ),
{
    rounding::lemma_units_zero();
    let x = Binary64::of_integer(samples as int);
    let rate = Binary64::of_integer(SAMPLE_RATE as int);
    let one = rounding::one();
    exact::lemma_integer_size(samples as int);
    exact::integers_are_exact(SAMPLE_RATE as int);
    lemma2_to64();
    lemma_pow2_pos(ONE_UNITS as nat);
    lemma_pow2_adds(64, ONE_UNITS as nat);
    let high = rounding::lemma_representable(1, ONE_UNITS as nat + 64);
    let num = rounding::units(x.pattern()) * one;
    let den = SAMPLE_RATE as nat * one;
    assert(num <= den * (0x1_0000_0000_0000_0000 * one)) by (nonlinear_arith)
        requires
            num == rounding::units(x.pattern()) * one,
            rounding::units(x.pattern()) <= 0x1_0000_0000_0000_0000 * one,
            den >= one,
    ;
    assert(den * rounding::units(0) == 0) by (nonlinear_arith)
        requires
            rounding::units(0) == 0,
    ;
    exact::lemma_rounded_between(num, den, 0, high);
}

/// More samples never last a shorter time.
pub proof fn lasting_is_monotone(a: u64, b: u64)
    requires
        a <= b,
    ensures
        lasting(b).ge(lasting(a)),
{
    lemma_lasting(a);
    lemma_lasting(b);
    exact::integers_keep_their_order(a as int, b as int);
    exact::lemma_integer_size(a as int);
    exact::lemma_integer_size(b as int);
    let one = rounding::one();
    lemma_pow2_pos(ONE_UNITS as nat);
    let (x, y) = (
        rounding::units(Binary64::of_integer(a as int).pattern()),
        rounding::units(Binary64::of_integer(b as int).pattern()),
    );
    let den = SAMPLE_RATE as nat * one;
    assert((x * one) * den <= (y * one) * den) by (nonlinear_arith)
        requires
            x <= y,
    ;
    rounding::lemma_rounded_monotone(x * one, den, y * one, den);
    let (p, q) = (lasting(a).pattern(), lasting(b).pattern());
    if p < q {
        rounding::lemma_units_ordered(p, q);
    }
}

/// The clock never runs back: a later sample falls on no earlier a second.
pub proof fn the_clock_moves_forward(base: Binary64, a: u64, b: u64)
    requires
        !base.is_nan(),
        a <= b,
    ensures
        second_at(base, b).ge(second_at(base, a)),
{
    lasting_is_monotone(a, b);
    lemma_lasting(a);
    lemma_lasting(b);
    if base.is_finite() {
        exact::lemma_sum_value(base, lasting(a));
        exact::lemma_sum_value(base, lasting(b));
    }
    exact::sum_is_monotone(base, lasting(a), lasting(b));
}

/// A clock that starts at zero is right to the last bit for as long as the
/// count fits 53 bits, which is 17 thousand years: every second it tells is
/// the number nearest to the samples divided by the rate.
pub proof fn the_clock_does_not_drift(samples: u64)
    requires
        samples <= 2 * BINADE,
    ensures
        second_at(Binary64 { bits: 0 }, samples) == Binary64::of(
            false,
            rounding::rounded(samples as nat * rounding::one(), SAMPLE_RATE as nat),
        ),
{
    exact::integer_quotients_round_once(samples as int, SAMPLE_RATE as int);
    lemma_lasting(samples);
    exact::adding_to_zero(lasting(samples));
}

/// A chunk lasts the number nearest to 32 thousandths of a second.
pub proof fn a_chunk_lasts_32_ms()
    ensures
        chunk_length() == Binary64::of_integer(32).quotient(Binary64::of_integer(1000)),
{
    let one = rounding::one();
    exact::integer_quotients_round_once(CHUNK as int, SAMPLE_RATE as int);
    exact::integer_quotients_round_once(32, 1000);
    assert((32 * one) * 16 == 512 * one);
    rounding::lemma_rounded_reduced(32 * one, 1000, 16);
}

/// The magnitude of an integer.
pub open spec fn magnitude(n: int) -> nat {
    (if n < 0 {
        -n
    } else {
        n
    }) as nat
}

/// A timestamp of ordinary size is rounded only once: the second it falls on
/// is the number nearest to the exact quotient.
pub proof fn seconds_round_once(ticks: i64, num: i32, den: i32)
    requires
        den > 0,
        -2 * BINADE <= ticks <= 2 * BINADE,
        -2 * BINADE <= ticks * num <= 2 * BINADE,
    ensures
        seconds_of(ticks as int, num as int, den as int) == Binary64::of(
            (ticks < 0) != (num < 0),
            rounding::rounded(magnitude(ticks * num) * rounding::one(), den as nat),
        ),
{
    rounding::lemma_units_zero();
    let (x, y, z) = (
        Binary64::of_integer(ticks as int),
        Binary64::of_integer(num as int),
        Binary64::of_integer(den as int),
    );
    let one = rounding::one();
    exact::integers_are_exact(ticks as int);
    exact::integers_are_exact(num as int);
    exact::integers_are_exact(den as int);
    lemma_pow2_pos(ONE_UNITS as nat);
    lemma_magnitude(ticks as int, x);
    lemma_magnitude(num as int, y);
    lemma_magnitude(den as int, z);
    let (a, b) = (magnitude(ticks as int), magnitude(num as int));
    let m = magnitude(ticks * num);
    assert(m == a * b) by (nonlinear_arith)
        requires
            a == if ticks < 0 {
                -ticks
            } else {
                ticks as int
            },
            b == if num < 0 {
                -num
            } else {
                num as int
            },
            m == if ticks * num < 0 {
                -(ticks * num)
            } else {
                ticks * num
            },
    ;
    assert((a * one) * (b * one) == (m * one) * one) by (nonlinear_arith)
        requires
            m == a * b,
    ;
    assert(1 * one == one);
    rounding::lemma_rounded_reduced(m * one, 1, one);
    let p = rounding::lemma_representable(m, ONE_UNITS as nat);
    rounding::lemma_nearest_exact(m * one, 1, p);
    rounding::lemma_rounded_is(m * one, 1, p);
    exact::lemma_of((ticks < 0) != (num < 0), p);
    assert(den * one > 0) by (nonlinear_arith)
        requires
            den > 0,
            one > 0,
    ;
    rounding::lemma_rounded_reduced(m * one, den as nat, one);
}

proof fn lemma_magnitude(n: int, x: Binary64)
    requires
        x.value() == n * rounding::one(),
        x.is_negative() == (n < 0),
    ensures
        rounding::units(x.pattern()) == magnitude(n) * rounding::one(),
{
    let one = rounding::one() as int;
    assert(n < 0 ==> -(n * one) == (-n) * one) by (nonlinear_arith);
}

/// A timestamp's second has the timestamp's sign: before the start of the
/// stream stays before it, and zero stays zero.
pub proof fn seconds_keep_their_sign(ticks: i64, num: i32, den: i32)
    requires
        num > 0,
        den > 0,
    ensures
        seconds_of(ticks as int, num as int, den as int).is_finite(),
        ticks < 0 ==> seconds_of(ticks as int, num as int, den as int).value() < 0,
        ticks == 0 ==> seconds_of(ticks as int, num as int, den as int).value() == 0,
        ticks > 0 ==> seconds_of(ticks as int, num as int, den as int).value() > 0,
{
    rounding::lemma_units_zero();
    let (x, y, z) = (
        Binary64::of_integer(ticks as int),
        Binary64::of_integer(num as int),
        Binary64::of_integer(den as int),
    );
    let one = rounding::one();
    lemma2_to64();
    lemma_pow2_pos(ONE_UNITS as nat);
    lemma_pow2_adds(64, ONE_UNITS as nat);
    lemma_pow2_adds(128, ONE_UNITS as nat);
    lemma_pow2_adds(64, 64);
    lemma_pow2_adds(64, (ONE_UNITS - 64) as nat);
    exact::lemma_integer_size(ticks as int);
    exact::lemma_integer_size(num as int);
    exact::lemma_integer_size(den as int);
    let big = 0x1_0000_0000_0000_0000nat;
    let (u, v, d) = (
        rounding::units(x.pattern()),
        rounding::units(y.pattern()),
        rounding::units(z.pattern()),
    );
    // The product stays between one and two to the 128, or is zero.
    let low = rounding::lemma_representable(if ticks == 0 {
        0
    } else {
        1
    }, ONE_UNITS as nat);
    let high = rounding::lemma_representable(1, ONE_UNITS as nat + 128);
    assert(0 * one == 0);
    assert(ticks != 0 ==> one * one <= u * v) by (nonlinear_arith)
        requires
            ticks != 0 ==> u >= one,
            v >= one,
    ;
    assert(u * v <= (big * one) * (big * one)) by (nonlinear_arith)
        requires
            u <= big * one,
            v <= big * one,
    ;
    assert((big * one) * (big * one) == one * ((big * big) * one)) by (nonlinear_arith);
    assert(ticks == 0 ==> one * rounding::units(low) == 0) by (nonlinear_arith)
        requires
            ticks == 0 ==> rounding::units(low) == 0,
    ;
    exact::lemma_rounded_between(u * v, one, low, high);
    let p = rounding::rounded(u * v, one);
    if low < p {
        rounding::lemma_units_ordered(low, p);
    }
    if p < high {
        rounding::lemma_units_ordered(p, high);
    }
    if ticks == 0 {
        assert(u * v == 0) by (nonlinear_arith)
            requires
                u == 0,
        ;
        rounding::lemma_nearest_exact(0, one, 0);
        rounding::lemma_rounded_is(0, one, 0);
    }
    exact::lemma_of(ticks < 0, p);
    // The quotient stays above two to the minus 64.
    let n = rounding::units(p);
    let floor = rounding::lemma_representable(if ticks == 0 {
        0
    } else {
        1
    }, (ONE_UNITS - 64) as nat);
    let small = pow2((ONE_UNITS - 64) as nat);
    assert(0 * small == 0);
    assert(ticks != 0 ==> d * small <= n * one) by (nonlinear_arith)
        requires
            ticks != 0 ==> n >= one,
            d <= big * one,
            one == big * small,
    ;
    assert(ticks == 0 ==> d * rounding::units(floor) == 0) by (nonlinear_arith)
        requires
            ticks == 0 ==> rounding::units(floor) == 0,
    ;
    assert(n * one <= d * ((big * big) * one)) by (nonlinear_arith)
        requires
            n <= (big * big) * one,
            d >= one,
    ;
    assert(d > 0);
    exact::lemma_rounded_between(n * one, d, floor, high);
    let q = rounding::rounded(n * one, d);
    if ticks != 0 {
        lemma_pow2_pos((ONE_UNITS - 64) as nat);
        assert(floor > 0) by {
            if floor == 0 {
                assert(rounding::units(0) == 0);
            }
        }
        rounding::lemma_units_ordered(0, q);
    } else {
        assert(n * one == 0) by (nonlinear_arith)
            requires
                n == 0,
        ;
        assert(d * rounding::units(0) == 0) by (nonlinear_arith)
            requires
                rounding::units(0) == 0,
        ;
        rounding::lemma_nearest_exact(0, d, 0);
        rounding::lemma_rounded_is(0, d, 0);
    }
    exact::lemma_of(ticks < 0, q);
}

/// The sign and the pattern of the second a timestamp falls on.
proof fn lemma_second(ticks: int, num: int, den: int)
    requires
        -0x1_0000_0000_0000_0000 <= ticks <= 0x1_0000_0000_0000_0000,
        -0x1_0000_0000_0000_0000 <= num <= 0x1_0000_0000_0000_0000,
        -0x1_0000_0000_0000_0000 <= den <= 0x1_0000_0000_0000_0000,
        den != 0,
    ensures
        ({
            let s = seconds_of(ticks, num, den);
            let x = rounding::units(Binary64::of_integer(ticks).pattern());
            let y = rounding::units(Binary64::of_integer(num).pattern());
            let z = rounding::units(Binary64::of_integer(den).pattern());
            let p = rounding::rounded(x * y, rounding::one());
            &&& z > 0
            &&& p <= INFINITE
            &&& s.pattern() <= INFINITE
            &&& s.pattern() == if p == INFINITE {
                INFINITE as nat
            } else {
                rounding::rounded(rounding::units(p) * rounding::one(), z)
            }
            &&& s.is_negative() == (((ticks < 0) != (num < 0)) != (den < 0))
        }),
{
    rounding::lemma_units_zero();
    lemma_pow2_pos(ONE_UNITS as nat);
    exact::lemma_integer_size(ticks);
    exact::lemma_integer_size(num);
    exact::lemma_integer_size(den);
    let (x, y, z) = (
        Binary64::of_integer(ticks),
        Binary64::of_integer(num),
        Binary64::of_integer(den),
    );
    let n = rounding::units(x.pattern()) * rounding::units(y.pattern());
    rounding::lemma_rounded_exists(n, rounding::one());
    let p = rounding::rounded(n, rounding::one());
    exact::lemma_of((ticks < 0) != (num < 0), p);
    rounding::lemma_rounded_exists(
        rounding::units(p) * rounding::one(),
        rounding::units(z.pattern()),
    );
    let q = rounding::rounded(
        rounding::units(p) * rounding::one(),
        rounding::units(z.pattern()),
    );
    exact::lemma_of(((ticks < 0) != (num < 0)) != (den < 0), q);
    exact::lemma_of(((ticks < 0) != (num < 0)) != (den < 0), INFINITE as nat);
}

/// An integer and its negative have one pattern.
proof fn lemma_opposite_integers(n: int)
    ensures
        Binary64::of_integer(-n).pattern() == Binary64::of_integer(n).pattern(),
{
    let one = rounding::one() as int;
    assert((-n) * one == -(n * one)) by (nonlinear_arith);
    exact::lemma_nearest(n * one);
    exact::lemma_nearest((-n) * one);
}

/// As far before the start as after it: the second of a negated timestamp is
/// the negated second. Zero is its own negative and stays the same zero.
pub proof fn seconds_mirror_their_timestamps(ticks: i64, num: i32, den: i32)
    requires
        den != 0,
    ensures
        ({
            let there = seconds_of(ticks as int, num as int, den as int);
            let back = seconds_of(-ticks, num as int, den as int);
            &&& !there.is_nan()
            &&& ticks != 0 ==> back == there.opposite()
            &&& back.value() == -there.value()
        }),
{
    rounding::lemma_units_zero();
    lemma_opposite_integers(ticks as int);
    lemma_second(ticks as int, num as int, den as int);
    lemma_second(-ticks, num as int, den as int);
    if ticks == 0 {
        exact::lemma_integer_size(0);
        lemma_pow2_pos(ONE_UNITS as nat);
        let y = rounding::units(Binary64::of_integer(num as int).pattern());
        let z = rounding::units(Binary64::of_integer(den as int).pattern());
        assert(0 * y == 0 && 0 * rounding::one() == 0);
        assert(rounding::one() * rounding::units(0) == 0 && z * rounding::units(0) == 0)
            by (nonlinear_arith)
            requires
                rounding::units(0) == 0,
        ;
        rounding::lemma_nearest_exact(0, rounding::one(), 0);
        rounding::lemma_rounded_is(0, rounding::one(), 0);
        rounding::lemma_nearest_exact(0, z, 0);
        rounding::lemma_rounded_is(0, z, 0);
    } else {
        let there = seconds_of(ticks as int, num as int, den as int);
        let back = seconds_of(-ticks, num as int, den as int);
        exact::lemma_of(!there.is_negative(), there.pattern());
        assert(back.bits == there.opposite().bits);
    }
}

/// Counting on from the start, a later timestamp has no smaller a pattern.
proof fn lemma_seconds_grow(a: int, b: int, num: int, den: int)
    requires
        0 <= a <= b <= 0x1_0000_0000_0000_0000,
        0 <= num <= 0x1_0000_0000_0000_0000,
        0 < den <= 0x1_0000_0000_0000_0000,
    ensures
        rounding::units(seconds_of(a, num, den).pattern()) <= rounding::units(
            seconds_of(b, num, den).pattern(),
        ),
{
    let one = rounding::one();
    lemma_pow2_pos(ONE_UNITS as nat);
    lemma_second(a, num, den);
    lemma_second(b, num, den);
    exact::integers_keep_their_order(a, b);
    exact::lemma_integer_size(a);
    exact::lemma_integer_size(b);
    let (x, w) = (
        rounding::units(Binary64::of_integer(a).pattern()),
        rounding::units(Binary64::of_integer(b).pattern()),
    );
    let y = rounding::units(Binary64::of_integer(num).pattern());
    let z = rounding::units(Binary64::of_integer(den).pattern());
    assert((x * y) * one <= (w * y) * one) by (nonlinear_arith)
        requires
            x <= w,
    ;
    rounding::lemma_rounded_monotone(x * y, one, w * y, one);
    let (p, q) = (rounding::rounded(x * y, one), rounding::rounded(w * y, one));
    if p < q {
        rounding::lemma_units_ordered(p, q);
    }
    let (m, n) = (rounding::units(p), rounding::units(q));
    assert((m * one) * z <= (n * one) * z) by (nonlinear_arith)
        requires
            m <= n,
    ;
    rounding::lemma_rounded_monotone(m * one, z, n * one, z);
    let (u, v) = (seconds_of(a, num, den).pattern(), seconds_of(b, num, den).pattern());
    if u < v {
        rounding::lemma_units_ordered(u, v);
    }
}

/// A later timestamp never falls on an earlier second.
pub proof fn seconds_keep_their_order(a: i64, b: i64, num: i32, den: i32)
    requires
        a <= b,
        num >= 0,
        den > 0,
    ensures
        seconds_of(b as int, num as int, den as int).ge(
            seconds_of(a as int, num as int, den as int),
        ),
{
    lemma_second(a as int, num as int, den as int);
    lemma_second(b as int, num as int, den as int);
    if a >= 0 {
        lemma_seconds_grow(a as int, b as int, num as int, den as int);
    } else if b < 0 {
        lemma_seconds_grow(-b, -a, num as int, den as int);
        seconds_mirror_their_timestamps(a, num, den);
        seconds_mirror_their_timestamps(b, num, den);
        lemma_second(-a, num as int, den as int);
        lemma_second(-b, num as int, den as int);
    }
}

/// The step from a number to the next one up is a power of two. The step
/// before it is as large, or half as large where a new binade starts.
proof fn lemma_steps(p: nat) -> (t: nat)
    ensures
        rounding::units(p + 1) - rounding::units(p) == pow2(t),
        p > 0 ==> {
            let before = rounding::units(p) - rounding::units((p - 1) as nat);
            ||| before == pow2(t)
            ||| 2 * before == pow2(t) && rounding::units(p) == BINADE * pow2(t)
        },
        forall|e: nat| 53 <= e && rounding::units(p) < #[trigger] pow2(e) ==> t + 53 <= e,
{
    let (q, t) = rounding::lemma_pattern_on_grid(p);
    rounding::lemma_units_on_grid(q, t);
    rounding::lemma_units_on_grid(q + 1, t);
    assert((q + 1) + t * (BINADE as nat) == p + 1);
    assert((q + 1) * pow2(t) - q * pow2(t) == pow2(t)) by (nonlinear_arith);
    if p > 0 {
        let (r, s) = rounding::lemma_pattern_on_grid((p - 1) as nat);
        rounding::lemma_units_on_grid(r, s);
        rounding::lemma_units_on_grid(r + 1, s);
        assert((r + 1) + s * (BINADE as nat) == p);
        assert((r + 1) * pow2(s) - r * pow2(s) == pow2(s)) by (nonlinear_arith);
        assert(s <= t) by {
            if s > t {
                assert(p <= s * (BINADE as nat) + (BINADE as nat) - 1 || r + 1 > BINADE);
            }
        }
        if s < t {
            assert(t == s + 1 && q == BINADE);
            lemma_pow2_unfold(t);
        }
    }
    assert forall|e: nat| 53 <= e && rounding::units(p) < #[trigger] pow2(e) implies t + 53
        <= e by {
        if t > 0 && t + 53 > e {
            lemma2_to64_rest();
            lemma_pow2_adds(52, t);
            assert(q * pow2(t) >= pow2(52) * pow2(t)) by (nonlinear_arith)
                requires
                    q >= pow2(52),
            ;
            if e < t + 52 {
                lemma_pow2_strictly_increases(e, t + 52);
            }
        }
    }
    t
}

/// Rounding is off by half a step at most.
proof fn lemma_rounding_error(num: nat, den: nat, e: nat)
    requires
        den > 0,
        53 <= e,
        num < den * pow2(e),
        rounding::rounded(num, den) < INFINITE,
    ensures
        ({
            let near = den * rounding::units(rounding::rounded(num, den));
            let step = den * pow2((e - 53) as nat);
            &&& 2 * (near - num) <= step
            &&& 2 * (num - near) <= step
        }),
{
    rounding::lemma_units_zero();
    let p = rounding::rounded(num, den);
    let top = (e - 53) as nat;
    let step = den * pow2(top);
    rounding::lemma_rounded_exists(num, den);
    let here = rounding::units(p);
    lemma_pow2_pos(top);
    assert(step > 0) by (nonlinear_arith)
        requires
            step == den * pow2(top),
            den > 0,
            pow2(top) > 0,
    ;
    if den * here <= num {
        let t = lemma_steps(p);
        let next = rounding::units(p + 1);
        assert(here < pow2(e)) by (nonlinear_arith)
            requires
                den * here < den * pow2(e),
                den > 0,
        ;
        if t < top {
            lemma_pow2_strictly_increases(t, top);
        }
        assert(den * (here + next) == 2 * (den * here) + den * (next - here)) by (nonlinear_arith);
        assert(den * (next - here) <= step) by (nonlinear_arith)
            requires
                next - here <= pow2(top),
                step == den * pow2(top),
                den > 0,
        ;
    } else {
        assert(p > 0) by {
            assert(den * rounding::units(0) == 0) by (nonlinear_arith)
                requires
                    rounding::units(0) == 0,
            ;
        }
        let back = (p - 1) as nat;
        let before = rounding::units(back);
        let t = lemma_steps(back);
        rounding::lemma_units_step(back);
        assert(den * before < den * here) by (nonlinear_arith)
            requires
                before < here,
                den > 0,
        ;
        assert(den * (before + here) == den * before + den * here) by (nonlinear_arith);
        assert(before < pow2(e)) by (nonlinear_arith)
            requires
                den * before < den * pow2(e),
                den > 0,
        ;
        if t < top {
            lemma_pow2_strictly_increases(t, top);
        }
        assert(den * (before + here) == 2 * (den * here) - den * (here - before))
            by (nonlinear_arith);
        assert(den * (here - before) <= step) by (nonlinear_arith)
            requires
                here - before <= pow2(top),
                step == den * pow2(top),
                den > 0,
        ;
    }
}

/// Two chunks on, the clock has moved by more than a chunk and then some, in
/// steps of two to the minus 14.
proof fn lemma_lasting_gap(samples: u64)
    requires
        samples + 2 * CHUNK <= 2 * BINADE,
    ensures
        ({
            let fine = pow2(1060);
            &&& rounding::one() == 16384 * fine
            &&& lasting((samples + 2 * CHUNK) as u64).value() - lasting(samples).value()
                >= 1046 * fine
            &&& 0 <= chunk_length().value() <= 528 * fine
        }),
{
    rounding::lemma_units_zero();
    let fine = pow2(1060);
    let one = rounding::one();
    let later = (samples + 2 * CHUNK) as u64;
    let rate = SAMPLE_RATE as nat;
    lemma2_to64();
    lemma2_to64_rest();
    lemma_pow2_pos(1060);
    lemma_pow2_adds(14, 1060);
    lemma_pow2_adds(1, 1060);
    lemma_pow2_adds(40, ONE_UNITS as nat);
    lemma_pow2_adds(4, 1060);
    exact::integer_quotients_round_once(samples as int, rate as int);
    exact::integer_quotients_round_once(later as int, rate as int);
    exact::integer_quotients_round_once(CHUNK as int, rate as int);
    lemma_lasting(samples);
    lemma_lasting(later);
    lemma_lasting(CHUNK as u64);
    let (a, b) = (samples as nat * one, later as nat * one);
    rounding::lemma_rounded_exists(a, rate);
    rounding::lemma_rounded_exists(b, rate);
    exact::lemma_of(false, rounding::rounded(a, rate));
    exact::lemma_of(false, rounding::rounded(b, rate));
    assert(later as nat * one < rate * (0x100_0000_0000 * one)) by (nonlinear_arith)
        requires
            later <= 0x20_0000_0000_0000,
            rate == 16_000,
            one > 0,
    ;
    assert(samples as nat * one <= later as nat * one) by (nonlinear_arith)
        requires
            samples <= later,
    ;
    lemma_rounding_error(a, rate, 1114);
    lemma_rounding_error(b, rate, 1114);
    assert(b == a + 1024 * one) by (nonlinear_arith)
        requires
            a == samples as nat * one,
            b == later as nat * one,
            later == samples + 1024,
    ;
    // 33/1024 is a little more than 512/16000.
    let c = CHUNK as nat * one;
    let high = rounding::lemma_representable(33, 1064);
    assert(rate * rounding::units(0) == 0);
    exact::lemma_rounded_between(c, rate, 0, high);
    let p = rounding::rounded(c, rate);
    exact::lemma_of(false, p);
    if p < high {
        rounding::lemma_units_ordered(p, high);
    }
}

/// Where steps are much larger than a chunk, adding a chunk to a number
/// rounds back to it.
proof fn lemma_far_apart(s: Binary64, more: int)
    requires
        s.is_finite(),
        0 <= more,
        !s.is_negative() ==> 2 * more < rounding::units(s.pattern() + 1) - rounding::units(
            s.pattern(),
        ),
        s.is_negative() ==> s.pattern() > 0 && 2 * more < rounding::units(s.pattern())
            - rounding::units((s.pattern() - 1) as nat),
    ensures
        Binary64::nearest(s.value() + more).value() == s.value(),
{
    let p = s.pattern();
    let here = rounding::units(p);
    exact::nearest_is_exact(s);
    exact::lemma_nearest(s.value() + more);
    if !s.is_negative() {
        let moved = (here + more) as nat;
        assert(1 * here == here && 1 * rounding::units(p + 1) == rounding::units(p + 1));
        rounding::lemma_nearest_between(moved, 1, p);
        rounding::lemma_rounded_is(moved, 1, p);
        exact::lemma_of(false, p);
    } else if more > 0 {
        let back = (p - 1) as nat;
        let moved = (here - more) as nat;
        assert(1 * here == here && 1 * rounding::units(back) == rounding::units(back));
        rounding::lemma_nearest_between(moved, 1, back);
        rounding::lemma_rounded_is(moved, 1, p);
        exact::lemma_of(true, p);
    }
}

/// Rounding goes up by more than half a chunk only where steps are larger
/// than two chunks.
proof fn lemma_rounded_far_up(x: int, s: Binary64)
    requires
        s.is_finite(),
        s.value() == Binary64::nearest(x).value(),
        s.value() - x >= 518 * pow2(1060),
        x < s.value(),
        s.value() != -(0x2_0000_0000_0000 * rounding::one()),
    ensures
        ({
            let p = s.pattern();
            let step = 2048 * pow2(1060);
            &&& !s.is_negative() ==> rounding::units(p + 1) - rounding::units(p) >= step
            &&& s.is_negative() ==> p > 0 && rounding::units(p) - rounding::units((p - 1) as nat)
                >= step
        }),
{
    rounding::lemma_units_zero();
    exact::lemma_nearest(x);
    exact::lemma_finite_bounds(s);
    let near = Binary64::nearest(x);
    let p = near.pattern();
    crate::binary64::lemma_order(near, s);
    rounding::lemma_rounded_exists((if x < 0 {
        -x
    } else {
        x
    }) as nat, 1);
    let here = rounding::units(p);
    lemma2_to64();
    lemma2_to64_rest();
    lemma_pow2_pos(1060);
    lemma_pow2_adds(10, 1060);
    lemma_pow2_adds(11, 1060);
    lemma_pow2_adds(12, 1060);
    lemma_pow2_adds(52, 1071);
    lemma_pow2_adds(49, ONE_UNITS as nat);
    let t = lemma_steps(p);
    if t < 1070 {
        lemma_pow2_strictly_increases(t, 1070);
    }
    if t > 1072 {
        lemma_pow2_strictly_increases(1072, t);
    }
}

/// Whether the clock from `base` does not stand exactly at minus two to the
/// 49 seconds, reached from before. Steps halve there: those into it can
/// round up by more than a chunk, while those out of it are smaller than a
/// chunk.
pub open spec fn steps_evenly(base: Binary64, samples: u64) -> bool {
    let edge = -(0x2_0000_0000_0000 * rounding::one());
    base.value() >= edge || second_at(base, samples).value() != edge
}

/// On one clock a chunk ends before the chunk after the next begins, or just
/// then. Rounding can set a chunk's end a hair past the next one's start, so
/// no more than this holds of neighbours.
pub proof fn a_chunk_ends_before_the_next_but_one(base: Binary64, samples: u64)
    requires
        !base.is_nan(),
        steps_evenly(base, samples),
        samples + 2 * CHUNK <= 2 * BINADE,
    ensures
        second_at(base, (samples + 2 * CHUNK) as u64).ge(
            second_at(base, samples).sum(chunk_length()),
        ),
{
    rounding::lemma_units_zero();
    let later = (samples + 2 * CHUNK) as u64;
    let (q1, q2, c) = (lasting(samples), lasting(later), chunk_length());
    let (s1, s2) = (second_at(base, samples), second_at(base, later));
    lemma_lasting(samples);
    lemma_lasting(later);
    lemma_lasting(CHUNK as u64);
    lemma_lasting_gap(samples);
    the_clock_moves_forward(base, samples, later);
    exact::lemma_finite_bounds(s1);
    exact::lemma_finite_bounds(s2);
    if base.is_finite() && s1.is_finite() {
        let (x1, x2) = (base.value() + q1.value(), base.value() + q2.value());
        exact::lemma_sum_value(base, q1);
        exact::lemma_sum_value(base, q2);
        exact::lemma_sum_value(s1, c);
        if s1.value() + c.value() <= x2 {
            exact::nearest_is_monotone(s1.value() + c.value(), x2);
        } else {
            // The clock rounded far up, so numbers lie far apart here, and
            // adding a chunk does not reach halfway to the next.
            lemma_pow2_pos(1060);
            lemma_rounded_far_up(x1, s1);
            lemma_far_apart(s1, c.value());
        }
    }
}

/// What the clock's numbers are made of: samples over 16000 in a second, 512
/// of them in a chunk, added to where the clock started.
pub proof fn the_clock_counts_samples(base: Binary64, samples: u64)
    ensures
        CHUNK == 512,
        SAMPLE_RATE == 16_000,
        lasting(samples) == Binary64::of_integer(samples as int).quotient(
            Binary64::of_integer(16_000),
        ),
        chunk_length() == Binary64::of_integer(512).quotient(Binary64::of_integer(16_000)),
        second_at(base, samples) == base.sum(
            Binary64::of_integer(samples as int).quotient(Binary64::of_integer(16_000)),
        ),
{
}

/// What a timestamp's second is made of: so many ticks, each `num` over `den`
/// seconds long.
pub proof fn a_timestamp_counts_ticks(ticks: int, num: int, den: int)
    ensures
        seconds_of(ticks, num, den) == Binary64::of_integer(ticks).product(
            Binary64::of_integer(num),
        ).quotient(Binary64::of_integer(den)),
{
}

/// Samples last the closest number to their exact share of a second.
pub proof fn a_duration_is_closest(samples: u64, c: Binary64)
    requires
        samples <= 2 * BINADE,
        !c.is_nan(),
    ensures
        closest::gap(
            lasting(samples).value() * 16_000,
            samples * rounding::one(),
        ) <= closest::gap(c.value() * 16_000, samples * rounding::one()),
{
    let one = rounding::one() as int;
    lemma_pow2_pos(ONE_UNITS as nat);
    let (x, rate) = (
        Binary64::of_integer(samples as int),
        Binary64::of_integer(SAMPLE_RATE as int),
    );
    exact::integers_are_exact(samples as int);
    exact::integers_are_exact(SAMPLE_RATE as int);
    assert(16_000 * one > 0);
    closest::a_quotient_is_closest(x, rate, c);
    lemma_scaled_gap(lasting(samples).value() * 16_000, samples * one, one);
    lemma_scaled_gap(c.value() * 16_000, samples * one, one);
    let (u, w) = (lasting(samples).value(), c.value());
    assert(u * (16_000 * one) == (u * 16_000) * one) by (nonlinear_arith);
    assert(w * (16_000 * one) == (w * 16_000) * one) by (nonlinear_arith);
    lemma_gap_order(
        closest::gap(u * 16_000, samples * one),
        closest::gap(w * 16_000, samples * one),
        one,
    );
}

/// Gaps scale with what they lie between.
proof fn lemma_scaled_gap(a: int, b: int, by: int)
    requires
        by > 0,
    ensures
        closest::gap(a * by, b * by) == closest::gap(a, b) * by,
{
    assert((a - b) * by == a * by - b * by && (b - a) * by == b * by - a * by) by (nonlinear_arith);
    assert(a < b ==> a * by < b * by) by (nonlinear_arith)
        requires
            by > 0,
    ;
    assert(a >= b ==> a * by >= b * by) by (nonlinear_arith)
        requires
            by > 0,
    ;
}

proof fn lemma_gap_order(a: int, b: int, by: int)
    requires
        by > 0,
        a * by <= b * by,
    ensures
        a <= b,
{
    assert(a <= b) by (nonlinear_arith)
        requires
            by > 0,
            a * by <= b * by,
    ;
}

/// A timestamp of ordinary size falls on the closest number to its exact
/// second.
pub proof fn a_timestamp_is_closest(ticks: i64, num: i32, den: i32, c: Binary64)
    requires
        den > 0,
        -2 * BINADE <= ticks <= 2 * BINADE,
        -2 * BINADE <= ticks * num <= 2 * BINADE,
        !c.is_nan(),
    ensures
        ({
            let s = seconds_of(ticks as int, num as int, den as int);
            closest::gap(s.value() * den, (ticks * num) * rounding::one()) <= closest::gap(
                c.value() * den,
                (ticks * num) * rounding::one(),
            )
        }),
{
    rounding::lemma_units_zero();
    let one = rounding::one() as int;
    lemma_pow2_pos(ONE_UNITS as nat);
    let negative = (ticks < 0) != (num < 0);
    let m = magnitude(ticks * num);
    let p = rounding::rounded(m * rounding::one(), den as nat);
    seconds_round_once(ticks, num, den);
    closest::rounded_is_closest(m * rounding::one(), den as nat, c.pattern());
    closest::rounded_is_closest(m * rounding::one(), den as nat, 0);
    exact::lemma_of(negative, p);
    let (u, w, d) = (rounding::units(p) as int, rounding::units(c.pattern()) as int, den as int);
    assert((-u) * d == -(d * u) && u * d == d * u) by (nonlinear_arith);
    assert((-w) * d == -(d * w) && w * d == d * w) by (nonlinear_arith);
    assert(d * w >= 0) by (nonlinear_arith)
        requires
            d > 0,
            w >= 0,
    ;
    assert(d * 0 == 0);
    let n = ticks * num;
    assert((-(m as int)) * one == -(m * one)) by (nonlinear_arith);
    assert(m * one >= 0) by (nonlinear_arith)
        requires
            m >= 0,
            one > 0,
    ;
    assert(n < 0 ==> negative) by (nonlinear_arith)
        requires
            n == ticks * num,
            negative == ((ticks < 0) != (num < 0)),
    ;
    assert(n > 0 ==> !negative) by (nonlinear_arith)
        requires
            n == ticks * num,
            negative == ((ticks < 0) != (num < 0)),
    ;
    if n == 0 {
        assert(m * one == 0);
    }
}

/// The bits of a chunk's 32 thousandths of a second.
pub proof fn a_chunks_length_in_bits()
    ensures
        chunk_length().bits == 0x3fa0_624d_d2f1_a9fc,
{
    lemma2_to64_rest();
    exact::lemma_quotient_bits(512, 16_000, 0x10_624d_d2f1_a9fc, 1017);
}

} // verus!
