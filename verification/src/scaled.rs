//! Rounding carried out: from a mantissa and an exponent to the pattern of
//! the nearest binary64 number.

use crate::rounding::{self, BINADE, INFINITE};
use vstd::arithmetic::div_mod::*;
use vstd::arithmetic::mul::*;
use vstd::arithmetic::power2::*;
use vstd::prelude::*;

verus! {

/// Exponents are counted up from this far below one unit, so that none of
/// them is negative.
pub const SCALE: u64 = 1200;

/// Whether the quotient `num / den` units is `m` times two to the
/// `x - SCALE`, or, with `more`, lies strictly between that and `m + 1` times
/// the same power.
pub open spec fn brackets(num: nat, den: nat, m: nat, x: nat, more: bool) -> bool {
    let step = den * pow2(x);
    let scaled = num * pow2(SCALE as nat);
    if more {
        m * step < scaled < (m + 1) * step
    } else {
        scaled == m * step
    }
}

/// Two to the power `k`.
pub(crate) fn power_of_two(k: u64) -> (p: u128)
    requires
        k < 127,
    ensures
        p == pow2(k as nat),
        p <= 0x4000_0000_0000_0000_0000_0000_0000_0000u128,
{
    let mut p: u128 = 1;
    let mut i: u64 = 0;
    proof {
        lemma2_to64();
        lemma_pow2_126();
    }
    while i < k
        invariant
            i <= k < 127,
            p == pow2(i as nat),
            pow2(126) == 0x4000_0000_0000_0000_0000_0000_0000_0000u128,
        decreases k - i,
    {
        proof {
            lemma_pow2_unfold((i + 1) as nat);
            if i + 1 < 126 {
                lemma_pow2_strictly_increases((i + 1) as nat, 126);
            }
        }
        p = p * 2;
        i = i + 1;
    }
    proof {
        if k < 126 {
            lemma_pow2_strictly_increases(k as nat, 126);
        }
    }
    p
}

proof fn lemma_pow2_126()
    ensures
        pow2(126) == 0x4000_0000_0000_0000_0000_0000_0000_0000u128,
        pow2(127) == 0x8000_0000_0000_0000_0000_0000_0000_0000u128,
{
    lemma2_to64();
    lemma2_to64_rest();
    lemma_pow2_adds(63, 63);
    lemma_pow2_adds(63, 64);
    assert(0x8000_0000_0000_0000 * 0x8000_0000_0000_0000
        == 0x4000_0000_0000_0000_0000_0000_0000_0000) by (nonlinear_arith);
    assert(0x8000_0000_0000_0000 * 0x1_0000_0000_0000_0000
        == 0x8000_0000_0000_0000_0000_0000_0000_0000) by (nonlinear_arith);
}

/// How many binary digits `m` has.
pub(crate) fn bit_length(m: u128) -> (l: u64)
    requires
        0 < m < 0x8000_0000_0000_0000_0000_0000_0000_0000u128,
    ensures
        1 <= l <= 127,
        pow2((l - 1) as nat) <= m < pow2(l as nat),
{
    let mut l: u64 = 0;
    let mut rest: u128 = m;
    proof {
        lemma2_to64();
        lemma_pow2_126();
    }
    while rest > 0
        invariant
            0 <= l <= 127,
            0 < m < pow2(127),
            rest * pow2(l as nat) <= m < (rest + 1) * pow2(l as nat),
            rest == 0 ==> l >= 1 && pow2((l - 1) as nat) <= m,
        decreases rest,
    {
        let ghost before = rest;
        let ghost w = pow2(l as nat);
        let ghost half = rest / 2;
        proof {
            if l == 127 {
                assert(m >= before * w >= w) by (nonlinear_arith)
                    requires
                        before * w <= m,
                        before >= 1,
                ;
            }
            lemma_pow2_unfold((l + 1) as nat);
            assert(half * (2 * w) <= before * w) by (nonlinear_arith)
                requires
                    half * 2 <= before,
            ;
            assert((before + 1) * w <= (half + 1) * (2 * w)) by (nonlinear_arith)
                requires
                    before + 1 <= 2 * (half + 1),
            ;
            assert(w <= m) by (nonlinear_arith)
                requires
                    before * w <= m,
                    before >= 1,
            ;
        }
        rest = rest / 2;
        l = l + 1;
    }
    proof {
        assert(1 * pow2(l as nat) == pow2(l as nat));
    }
    l
}

/// The quotient lies from `q` up to, and short of, `q + 1` steps of its
/// binade, so it lies between that pattern and the next.
proof fn lemma_floor_pattern(num: nat, den: nat, q: nat, t: nat)
    requires
        den > 0,
        q < 2 * BINADE,
        t == 0 || q >= BINADE,
        q * (den * pow2(SCALE as nat + t)) <= num * pow2(SCALE as nat),
        num * pow2(SCALE as nat) < (q + 1) * (den * pow2(SCALE as nat + t)),
    ensures
        den * rounding::units(q + t * (BINADE as nat)) <= num,
        num < den * rounding::units(q + t * (BINADE as nat) + 1),
{
    let scale = pow2(SCALE as nat);
    let p = q + t * (BINADE as nat);
    lemma_pow2_pos(SCALE as nat);
    lemma_pow2_adds(SCALE as nat, t);
    rounding::lemma_units_on_grid(q, t);
    rounding::lemma_units_on_grid(q + 1, t);
    assert((q + 1) + t * (BINADE as nat) == p + 1);
    lemma_regroup(q, den, scale, pow2(t));
    lemma_regroup(q + 1, den, scale, pow2(t));
    lemma_mul_inequality_converse((den * rounding::units(p)) as int, num as int, scale as int);
    lemma_mul_strict_inequality_converse(num as int, (den * rounding::units(p + 1)) as int, scale as int);
}

proof fn lemma_regroup(q: nat, den: nat, scale: nat, power: nat)
    ensures
        q * (den * (scale * power)) == (den * (q * power)) * scale,
{
    assert(q * (den * (scale * power)) == (den * (q * power)) * scale) by (nonlinear_arith);
}

/// Doubled and scaled, the point halfway to the next pattern.
proof fn lemma_midpoint(num: nat, den: nat, q: nat, t: nat)
    requires
        q < 2 * BINADE,
        t == 0 || q >= BINADE,
    ensures
        ({
            let p = q + t * (BINADE as nat);
            let midpoint = den * (rounding::units(p) + rounding::units(p + 1));
            let scaled = (2 * q + 1) * (den * pow2(SCALE as nat + t));
            &&& 2 * num < midpoint <==> 2 * (num * pow2(SCALE as nat)) < scaled
            &&& 2 * num == midpoint <==> 2 * (num * pow2(SCALE as nat)) == scaled
        }),
{
    let scale = pow2(SCALE as nat);
    let p = q + t * (BINADE as nat);
    let midpoint = den * (rounding::units(p) + rounding::units(p + 1));
    lemma_pow2_pos(SCALE as nat);
    lemma_pow2_adds(SCALE as nat, t);
    rounding::lemma_units_on_grid(q, t);
    rounding::lemma_units_on_grid(q + 1, t);
    assert((q + 1) + t * (BINADE as nat) == p + 1);
    assert(q * pow2(t) + (q + 1) * pow2(t) == (2 * q + 1) * pow2(t)) by (nonlinear_arith);
    lemma_regroup(2 * q + 1, den, scale, pow2(t));
    let scaled = (2 * q + 1) * (den * pow2(SCALE as nat + t));
    assert(scaled == midpoint * scale);
    assert(2 * (num * scale) == (2 * num) * scale) by (nonlinear_arith);
    if 2 * num < midpoint {
        lemma_mul_strict_inequality((2 * num) as int, midpoint as int, scale as int);
    }
    if (2 * num) * scale < midpoint * scale {
        lemma_mul_strict_inequality_converse((2 * num) as int, midpoint as int, scale as int);
    }
    if 2 * num > midpoint {
        lemma_mul_strict_inequality(midpoint as int, (2 * num) as int, scale as int);
    }
}

/// A full mantissa this far up weighs at least what infinity does.
proof fn lemma_past_infinity(num: nat, den: nat, q: nat, t: nat)
    requires
        den > 0,
        q >= BINADE,
        t >= 2046,
        q * (den * pow2(SCALE as nat + t)) <= num * pow2(SCALE as nat),
    ensures
        rounding::is_nearest(num, den, INFINITE as nat),
{
    let scale = pow2(SCALE as nat);
    lemma_pow2_pos(SCALE as nat);
    lemma_pow2_adds(SCALE as nat, t);
    lemma_regroup(q, den, scale, pow2(t));
    lemma_mul_inequality_converse((den * (q * pow2(t))) as int, num as int, scale as int);
    rounding::lemma_units_on_grid(BINADE as nat, 2046);
    assert((BINADE as nat) + 2046 * (BINADE as nat) == INFINITE);
    let b = BINADE as nat;
    if t > 2046 {
        lemma_pow2_strictly_increases(2046, t);
    }
    assert(b * pow2(2046) <= q * pow2(t)) by (nonlinear_arith)
        requires
            b <= q,
            pow2(2046) <= pow2(t),
    ;
    assert(den * (b * pow2(2046)) <= den * (q * pow2(t))) by (nonlinear_arith)
        requires
            b * pow2(2046) <= q * pow2(t),
    ;
    rounding::lemma_nearest_infinite(num, den);
}

/// A mantissa with no bits to drop moves up onto the grid of its binade.
fn round_up_shift(m: u128, x: u64, top: u64, l: u64, Ghost(num): Ghost<nat>, Ghost(den): Ghost<
    nat,
>) -> (r: u64)
    requires
        den > 0,
        SCALE <= top < x < 10000,
        1 <= l <= 127,
        pow2((l - 1) as nat) <= m < pow2(l as nat),
        l + x <= 53 + top,
        top > SCALE ==> top == l + x - 53,
        brackets(num, den, m as nat, x as nat, false),
    ensures
        r == rounding::rounded(num, den),
        r <= INFINITE,
{
    let shift: u64 = x - top;
    let ghost t = (top - SCALE) as nat;
    let ghost s = shift as nat;
    let power: u128 = power_of_two(shift);
    proof {
        lemma2_to64_rest();
        lemma_pow2_pos(s);
        lemma_pow2_adds(l as nat, s);
        lemma_pow2_adds((l - 1) as nat, s);
        if l + s < 53 {
            lemma_pow2_strictly_increases(l as nat + s, 53);
        }
        assert(m * pow2(s) < pow2(l as nat) * pow2(s)) by (nonlinear_arith)
            requires
                m < pow2(l as nat),
                pow2(s) > 0,
        ;
        assert(pow2((l - 1) as nat) * pow2(s) <= m * pow2(s)) by (nonlinear_arith)
            requires
                pow2((l - 1) as nat) <= m,
        ;
    }
    let q: u128 = m * power;
    proof {
        lemma_pow2_adds(top as nat, s);
        assert(m * (den * (pow2(top as nat) * power)) == (m * power) * (den * pow2(top as nat)))
            by (nonlinear_arith);
        assert(SCALE as nat + t == top as nat);
    }
    if top - SCALE >= 2046 {
        proof {
            lemma_past_infinity(num, den, q as nat, t);
            rounding::lemma_rounded_is(num, den, INFINITE as nat);
        }
        return INFINITE;
    }
    let r: u64 = q as u64 + (top - SCALE) * BINADE;
    proof {
        let step = den * pow2(top as nat);
        lemma_pow2_pos(top as nat);
        assert(step > 0) by (nonlinear_arith)
            requires
                step == den * pow2(top as nat),
                den > 0,
                pow2(top as nat) > 0,
        ;
        assert(q * step < (q + 1) * step) by (nonlinear_arith)
            requires
                step > 0,
        ;
        lemma_floor_pattern(num, den, q as nat, t);
        lemma_midpoint(num, den, q as nat, t);
        assert(2 * (q * step) < (2 * q + 1) * step) by (nonlinear_arith)
            requires
                step > 0,
        ;
        rounding::lemma_nearest_between(num, den, r as nat);
        rounding::lemma_rounded_is(num, den, r as nat);
    }
    r
}

/// Dividing `m` by `power` finds the whole steps the quotient holds.
proof fn lemma_dropped(
    num: nat,
    den: nat,
    m: nat,
    x: nat,
    more: bool,
    s: nat,
    q: nat,
    rest: nat,
)
    requires
        den > 0,
        m == q * pow2(s) + rest,
        rest < pow2(s),
        brackets(num, den, m, x, more),
    ensures
        q * (den * pow2(x + s)) <= num * pow2(SCALE as nat),
        num * pow2(SCALE as nat) < (q + 1) * (den * pow2(x + s)),
        s == 0 && !more ==> num * pow2(SCALE as nat) == q * (den * pow2(x + s)),
        s > 0 ==> ({
            let half = pow2((s - 1) as nat);
            let doubled = 2 * (num * pow2(SCALE as nat));
            let midpoint = (2 * q + 1) * (den * pow2(x + s));
            &&& doubled < midpoint <==> rest < half
            &&& doubled == midpoint <==> rest == half && !more
        }),
{
    let step = den * pow2(x);
    let scaled = num * pow2(SCALE as nat);
    let wide = pow2(s);
    lemma_pow2_pos(x);
    lemma_pow2_adds(x, s);
    assert(step > 0) by (nonlinear_arith)
        requires
            step == den * pow2(x),
            den > 0,
            pow2(x) > 0,
    ;
    assert(den * (pow2(x) * wide) == wide * step) by (nonlinear_arith)
        requires
            step == den * pow2(x),
    ;
    assert(m * step == q * (wide * step) + rest * step) by (nonlinear_arith)
        requires
            m == q * wide + rest,
    ;
    assert((m + 1) * step == m * step + step) by (nonlinear_arith);
    assert((q + 1) * (wide * step) == q * (wide * step) + wide * step) by (nonlinear_arith);
    assert(rest * step + step <= wide * step) by (nonlinear_arith)
        requires
            rest + 1 <= wide,
    ;
    assert(rest * step >= 0) by (nonlinear_arith);
    if s == 0 {
        lemma2_to64();
        assert(rest * step == 0) by (nonlinear_arith)
            requires
                rest == 0,
        ;
    } else {
        let half = pow2((s - 1) as nat);
        lemma_pow2_unfold(s);
        assert((2 * q + 1) * (wide * step) == 2 * (q * (wide * step)) + 2 * (half * step))
            by (nonlinear_arith)
            requires
                wide == 2 * half,
        ;
        if rest < half {
            assert(rest * step + step <= half * step) by (nonlinear_arith)
                requires
                    rest + 1 <= half,
            ;
        } else if rest > half {
            assert(half * step + step <= rest * step) by (nonlinear_arith)
                requires
                    half + 1 <= rest,
            ;
        }
    }
}

/// `m` cut `shift` bits up: what stays, what is dropped, and half of the
/// lowest bit that stays.
fn split(m: u128, shift: u64) -> (r: (u128, u128, u128))
    requires
        m < 0x8000_0000_0000_0000_0000_0000_0000_0000u128,
        shift < 128,
    ensures
        m == r.0 * pow2(shift as nat) + r.1,
        r.1 < pow2(shift as nat),
        shift > 0 ==> r.2 == pow2((shift - 1) as nat),
{
    proof {
        lemma2_to64();
        lemma_pow2_126();
        lemma_pow2_pos(shift as nat);
        if shift > 0 {
            lemma_pow2_unfold(shift as nat);
        }
        assert(m * 1 == m && 0 * pow2(127) == 0);
    }
    if shift == 0 {
        (m, 0, 0)
    } else if shift == 127 {
        (0, m, power_of_two(126))
    } else {
        let power: u128 = power_of_two(shift);
        proof {
            lemma_fundamental_div_mod(m as int, power as int);
            lemma_mul_is_commutative(m as int / power as int, power as int);
        }
        (m / power, m % power, power / 2)
    }
}

/// What stays has 53 bits at most, and all 53 when just the rest is dropped.
proof fn lemma_kept_bits(m: nat, l: nat, s: nat, q: nat, rest: nat)
    requires
        1 <= l <= 53 + s,
        pow2((l - 1) as nat) <= m < pow2(l),
        m == q * pow2(s) + rest,
        rest < pow2(s),
    ensures
        q < 2 * BINADE,
        l == 53 + s ==> q >= BINADE,
{
    lemma2_to64_rest();
    lemma_pow2_adds((53 + s - l) as nat, l);
    lemma_pow2_adds(53, s);
    lemma_pow2_pos((53 + s - l) as nat);
    assert(pow2(l) <= pow2(53) * pow2(s)) by (nonlinear_arith)
        requires
            pow2((53 + s - l) as nat) >= 1,
            pow2(53) * pow2(s) == pow2((53 + s - l) as nat) * pow2(l),
    ;
    assert(q < pow2(53)) by (nonlinear_arith)
        requires
            q * pow2(s) <= m,
            m < pow2(l),
            pow2(l) <= pow2(53) * pow2(s),
    ;
    if l == 53 + s {
        lemma_pow2_adds(52, s);
        assert((q + 1) * pow2(s) == q * pow2(s) + pow2(s)) by (nonlinear_arith);
        assert(q + 1 > pow2(52)) by (nonlinear_arith)
            requires
                pow2(52) * pow2(s) <= m,
                m < (q + 1) * pow2(s),
        ;
    }
}

/// A mantissa with bits to drop rounds onto the grid of its binade.
fn round_down_shift(
    m: u128,
    x: u64,
    top: u64,
    l: u64,
    more: bool,
    Ghost(num): Ghost<nat>,
    Ghost(den): Ghost<nat>,
) -> (r: u64)
    requires
        den > 0,
        SCALE <= top,
        x <= top < 10000,
        1 <= l <= 127,
        pow2((l - 1) as nat) <= m < pow2(l as nat),
        l + x <= 53 + top,
        top > SCALE ==> top == l + x - 53,
        more ==> x < top,
        brackets(num, den, m as nat, x as nat, more),
    ensures
        r == rounding::rounded(num, den),
        r <= INFINITE,
{
    let shift: u64 = top - x;
    let ghost s = shift as nat;
    let ghost t = (top - SCALE) as nat;
    proof {
        lemma2_to64();
        lemma2_to64_rest();
        lemma_pow2_126();
        lemma_pow2_pos(s);
        if l < 127 {
            lemma_pow2_strictly_increases(l as nat, 127);
        }
    }
    if shift >= 128 {
        // All of it lies under half a unit.
        proof {
            assert(top == SCALE);
            lemma_pow2_strictly_increases(127, s);
            if s > 128 {
                lemma_pow2_strictly_increases(127, (s - 1) as nat);
            }
            assert(0 * pow2(s) == 0);
            lemma_dropped(num, den, m as nat, x as nat, more, s, 0, m as nat);
            lemma_floor_pattern(num, den, 0, 0);
            lemma_midpoint(num, den, 0, 0);
            rounding::lemma_nearest_between(num, den, 0);
            rounding::lemma_rounded_is(num, den, 0);
        }
        return 0;
    }
    let (q, rest, half): (u128, u128, u128) = split(m, shift);
    proof {
        lemma_dropped(num, den, m as nat, x as nat, more, s, q as nat, rest as nat);
        assert(x as nat + s == SCALE as nat + t);
        lemma_kept_bits(m as nat, l as nat, s, q as nat, rest as nat);
    }
    if top - SCALE >= 2046 {
        proof {
            lemma_past_infinity(num, den, q as nat, t);
            rounding::lemma_rounded_is(num, den, INFINITE as nat);
        }
        return INFINITE;
    }
    let floor: u64 = q as u64 + (top - SCALE) * BINADE;
    let up: bool = shift > 0 && (rest > half || (rest == half && (more || q % 2 == 1)));
    proof {
        lemma_floor_pattern(num, den, q as nat, t);
        lemma_midpoint(num, den, q as nat, t);
        rounding::lemma_nearest_between(num, den, floor as nat);
        assert(floor % 2 == q % 2);
        if s == 0 {
            let step = den * pow2(top as nat);
            lemma_pow2_pos(top as nat);
            assert(step > 0) by (nonlinear_arith)
                requires
                    step == den * pow2(top as nat),
                    den > 0,
                    pow2(top as nat) > 0,
            ;
            assert(2 * (q * step) < (2 * q + 1) * step) by (nonlinear_arith)
                requires
                    step > 0,
            ;
        }
    }
    if up {
        proof {
            rounding::lemma_rounded_is(num, den, floor as nat + 1);
        }
        floor + 1
    } else {
        proof {
            rounding::lemma_rounded_is(num, den, floor as nat);
        }
        floor
    }
}

/// The pattern nearest to `num / den` units, which `m`, `x` and `more`
/// bracket. With `more` the mantissa has bits to spare.
pub(crate) fn round_scaled(
    m: u128,
    x: u64,
    more: bool,
    Ghost(num): Ghost<nat>,
    Ghost(den): Ghost<nat>,
) -> (r: u64)
    requires
        den > 0,
        m < 0x8000_0000_0000_0000_0000_0000_0000_0000u128,
        x < 9000,
        more ==> m >= 0x40_0000_0000_0000u128,
        brackets(num, den, m as nat, x as nat, more),
    ensures
        r == rounding::rounded(num, den),
        r <= INFINITE,
{
    if m == 0 {
        proof {
            rounding::lemma_units_zero();
            lemma_pow2_pos(SCALE as nat);
            assert(0 * (den * pow2(x as nat)) == 0);
            assert(num == 0) by (nonlinear_arith)
                requires
                    num * pow2(SCALE as nat) == 0,
                    pow2(SCALE as nat) > 0,
            ;
            assert(den * rounding::units(0) == 0) by (nonlinear_arith)
                requires
                    rounding::units(0) == 0,
            ;
            rounding::lemma_nearest_exact(num, den, 0);
            rounding::lemma_rounded_is(num, den, 0);
        }
        return 0;
    }
    let l: u64 = bit_length(m);
    let top: u64 = if l + x > 53 + SCALE {
        l + x - 53
    } else {
        SCALE
    };
    proof {
        if more && l <= 54 {
            lemma2_to64_rest();
            if l < 54 {
                lemma_pow2_strictly_increases(l as nat, 54);
            }
        }
    }
    if top < x {
        round_up_shift(m, x, top, l, Ghost(num), Ghost(den))
    } else {
        round_down_shift(m, x, top, l, more, Ghost(num), Ghost(den))
    }
}

} // verus!
