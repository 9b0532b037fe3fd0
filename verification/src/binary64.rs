//! Double-precision numbers as the bits they are stored in, with the IEEE 754
//! operations the detector needs. Each operation returns the exact result
//! rounded to the nearest number, ties to even.

use crate::rounding::{self, BINADE, INFINITE, ONE_UNITS};
use crate::scaled::{self, SCALE};
use vstd::arithmetic::div_mod::*;
use vstd::arithmetic::mul::*;
use vstd::arithmetic::power2::*;
use vstd::prelude::*;

verus! {

/// The sign bit's weight, and the number of patterns under it.
pub const SIGN: u64 = 0x8000_0000_0000_0000;

/// The one not-a-number that operations return.
pub const NOT_A_NUMBER: u64 = 0x7ff8_0000_0000_0000;

/// A binary64 number. `==` compares as IEEE 754 does: zeros of either sign
/// are equal, and not-a-number equals nothing.
#[derive(Clone, Copy, Debug)]
pub struct Binary64 {
    pub bits: u64,
}

impl Binary64 {
    /// The bits under the sign.
    pub open spec fn pattern(self) -> nat {
        (self.bits % SIGN) as nat
    }

    pub open spec fn is_negative(self) -> bool {
        self.bits >= SIGN
    }

    pub open spec fn is_nan(self) -> bool {
        self.pattern() > INFINITE
    }

    pub open spec fn is_infinite(self) -> bool {
        self.pattern() == INFINITE
    }

    pub open spec fn is_finite(self) -> bool {
        self.pattern() < INFINITE
    }

    pub open spec fn is_zero(self) -> bool {
        self.pattern() == 0
    }

    /// The exact value of a finite number, in units. Infinities weigh more
    /// than any finite number.
    pub open spec fn value(self) -> int {
        let magnitude = rounding::units(self.pattern()) as int;
        if self.is_negative() {
            -magnitude
        } else {
            magnitude
        }
    }

    /// The number with this sign over this pattern.
    pub open spec fn of(negative: bool, pattern: nat) -> Binary64 {
        Binary64 {
            bits: (pattern + if negative {
                SIGN as nat
            } else {
                0
            }) as u64,
        }
    }

    pub open spec fn nan() -> Binary64 {
        Binary64 { bits: NOT_A_NUMBER }
    }

    pub open spec fn opposite(self) -> Binary64 {
        Binary64::of(!self.is_negative(), self.pattern())
    }

    /// `value` units, rounded.
    pub open spec fn nearest(value: int) -> Binary64 {
        if value < 0 {
            Binary64::of(true, rounding::rounded((-value) as nat, 1))
        } else {
            Binary64::of(false, rounding::rounded(value as nat, 1))
        }
    }

    /// What `self + other` is.
    pub open spec fn sum(self, other: Binary64) -> Binary64 {
        if self.is_nan() || other.is_nan() {
            Binary64::nan()
        } else if self.is_infinite() && other.is_infinite() && self.is_negative()
            != other.is_negative() {
            Binary64::nan()
        } else if self.is_infinite() {
            self
        } else if other.is_infinite() {
            other
        } else if self.value() + other.value() == 0 {
            // An exact zero is negative only when both addends are.
            Binary64::of(self.is_negative() && other.is_negative(), 0)
        } else {
            Binary64::nearest(self.value() + other.value())
        }
    }

    /// What `self - other` is.
    pub open spec fn difference(self, other: Binary64) -> Binary64 {
        self.sum(other.opposite())
    }

    /// What `self * other` is.
    pub open spec fn product(self, other: Binary64) -> Binary64 {
        let negative = self.is_negative() != other.is_negative();
        if self.is_nan() || other.is_nan() {
            Binary64::nan()
        } else if self.is_infinite() || other.is_infinite() {
            if self.is_zero() || other.is_zero() {
                Binary64::nan()
            } else {
                Binary64::of(negative, INFINITE as nat)
            }
        } else {
            Binary64::of(
                negative,
                rounding::rounded(
                    rounding::units(self.pattern()) * rounding::units(other.pattern()),
                    rounding::one(),
                ),
            )
        }
    }

    /// What `self / other` is.
    pub open spec fn quotient(self, other: Binary64) -> Binary64 {
        let negative = self.is_negative() != other.is_negative();
        if self.is_nan() || other.is_nan() {
            Binary64::nan()
        } else if self.is_infinite() {
            if other.is_infinite() {
                Binary64::nan()
            } else {
                Binary64::of(negative, INFINITE as nat)
            }
        } else if other.is_infinite() {
            Binary64::of(negative, 0)
        } else if other.is_zero() {
            if self.is_zero() {
                Binary64::nan()
            } else {
                Binary64::of(negative, INFINITE as nat)
            }
        } else {
            Binary64::of(
                negative,
                rounding::rounded(
                    rounding::units(self.pattern()) * rounding::one(),
                    rounding::units(other.pattern()),
                ),
            )
        }
    }

    /// The number an integer converts to.
    pub open spec fn of_integer(n: int) -> Binary64 {
        Binary64::nearest(n * rounding::one())
    }

    /// Whether `self >= other`; false when either is not a number.
    pub open spec fn ge(self, other: Binary64) -> bool {
        !self.is_nan() && !other.is_nan() && self.value() >= other.value()
    }

    /// Whether `self < other`; false when either is not a number.
    pub open spec fn lt(self, other: Binary64) -> bool {
        !self.is_nan() && !other.is_nan() && self.value() < other.value()
    }

    /// Whether `self` and `other` are equal numbers.
    pub open spec fn equals(self, other: Binary64) -> bool {
        !self.is_nan() && !other.is_nan() && self.value() == other.value()
    }

    /// The number these bits spell.
    pub fn from_bits(bits: u64) -> (r: Binary64)
        ensures
            r == (Binary64 { bits }),
    {
        Binary64 { bits }
    }

    /// The bits this number is stored in.
    pub fn to_bits(self) -> (bits: u64)
        ensures
            bits == self.bits,
    {
        self.bits
    }

    fn magnitude(self) -> (p: u64)
        ensures
            p == self.pattern(),
            p < SIGN,
    {
        self.bits % SIGN
    }

    fn with_sign(negative: bool, pattern: u64) -> (r: Binary64)
        requires
            pattern < SIGN,
        ensures
            r == Binary64::of(negative, pattern as nat),
            r.pattern() == pattern,
            r.is_negative() == negative,
    {
        if negative {
            Binary64 { bits: pattern + SIGN }
        } else {
            Binary64 { bits: pattern }
        }
    }

    /// Place in the order of numbers, with both zeros at one place.
    fn rank(self) -> (r: i64)
        ensures
            r == if self.is_negative() {
                -(self.pattern() as int)
            } else {
                self.pattern() as int
            },
    {
        let pattern: i64 = self.magnitude() as i64;
        if self.bits >= SIGN {
            -pattern
        } else {
            pattern
        }
    }

    /// `self >= other`.
    pub fn at_least(self, other: Binary64) -> (r: bool)
        ensures
            r == self.ge(other),
    {
        if self.magnitude() > INFINITE || other.magnitude() > INFINITE {
            return false;
        }
        proof {
            lemma_order(self, other);
        }
        self.rank() >= other.rank()
    }

    /// `self < other`.
    pub fn less(self, other: Binary64) -> (r: bool)
        ensures
            r == self.lt(other),
    {
        if self.magnitude() > INFINITE || other.magnitude() > INFINITE {
            return false;
        }
        proof {
            lemma_order(self, other);
        }
        self.rank() < other.rank()
    }

    /// `-self`.
    pub fn negated(self) -> (r: Binary64)
        ensures
            r == self.opposite(),
    {
        Binary64::with_sign(self.bits < SIGN, self.magnitude())
    }
}

impl PartialEq for Binary64 {
    fn eq(&self, other: &Binary64) -> (r: bool) {
        if self.magnitude() > INFINITE || other.magnitude() > INFINITE {
            return false;
        }
        proof {
            lemma_order(*self, *other);
        }
        self.rank() == other.rank()
    }
}

impl vstd::std_specs::cmp::PartialEqSpecImpl for Binary64 {
    open spec fn obeys_eq_spec() -> bool {
        true
    }

    open spec fn eq_spec(&self, other: &Binary64) -> bool {
        self.equals(*other)
    }
}

/// Signed patterns are ordered as the values they stand for.
pub proof fn lemma_order(a: Binary64, b: Binary64)
    ensures
        ({
            let rank_a = if a.is_negative() {
                -(a.pattern() as int)
            } else {
                a.pattern() as int
            };
            let rank_b = if b.is_negative() {
                -(b.pattern() as int)
            } else {
                b.pattern() as int
            };
            &&& rank_a < rank_b <==> a.value() < b.value()
            &&& rank_a == rank_b <==> a.value() == b.value()
        }),
{
    let (p, q) = (a.pattern(), b.pattern());
    rounding::lemma_units_zero();
    if p < q {
        rounding::lemma_units_ordered(p, q);
    }
    if q < p {
        rounding::lemma_units_ordered(q, p);
    }
    if p > 0 {
        rounding::lemma_units_ordered(0, p);
    }
    if q > 0 {
        rounding::lemma_units_ordered(0, q);
    }
}

/// A finite pattern's mantissa and exponent.
fn parts(pattern: u64) -> (r: (u64, u64))
    requires
        pattern < INFINITE,
    ensures
        rounding::units(pattern as nat) == r.0 * pow2(r.1 as nat),
        r.0 < 2 * BINADE,
        r.1 <= 2045,
        r.1 > 0 ==> r.0 >= BINADE,
        r.0 == 0 <==> pattern == 0,
        pattern == r.0 + r.1 * BINADE,
{
    let exponent: u64 = pattern / BINADE;
    let fraction: u64 = pattern % BINADE;
    proof {
        reveal(rounding::units);
        lemma2_to64();
    }
    if exponent == 0 {
        proof {
            assert(fraction * 1 == fraction);
        }
        (fraction, 0)
    } else {
        (BINADE + fraction, exponent - 1)
    }
}

/// A whole number of steps, scaled, is itself.
proof fn lemma_brackets_whole(m: nat, e: nat)
    ensures
        scaled::brackets(m * pow2(e), 1, m, e + SCALE as nat, false),
{
    lemma_pow2_adds(e, SCALE as nat);
    lemma_mul_is_associative(m as int, pow2(e) as int, pow2(SCALE as nat) as int);
    assert(1 * pow2(e + SCALE as nat) == pow2(e + SCALE as nat));
}

/// Two magnitudes added.
fn add_patterns(p: u64, q: u64) -> (r: u64)
    requires
        q <= p < INFINITE,
    ensures
        r == rounding::rounded(
            rounding::units(p as nat) + rounding::units(q as nat),
            1,
        ),
        r <= INFINITE,
{
    let (ma, ea) = parts(p);
    let (mb, eb) = parts(q);
    let ghost sum = rounding::units(p as nat) + rounding::units(q as nat);
    let gap: u64 = ea - eb;
    proof {
        lemma2_to64();
    }
    if gap <= 64 {
        let power: u128 = scaled::power_of_two(gap);
        proof {
            if gap < 64 {
                lemma_pow2_strictly_increases(gap as nat, 64);
            }
            assert(ma * power <= 0x20_0000_0000_0000 * 0x1_0000_0000_0000_0000)
                by (nonlinear_arith)
                requires
                    ma <= 0x20_0000_0000_0000,
                    power <= 0x1_0000_0000_0000_0000,
            ;
        }
        let m: u128 = ma as u128 * power + mb as u128;
        proof {
            lemma_pow2_adds(gap as nat, eb as nat);
            lemma_mul_is_associative(ma as int, power as int, pow2(eb as nat) as int);
            lemma_mul_is_distributive_add_other_way(
                pow2(eb as nat) as int,
                ma * power,
                mb as int,
            );
            lemma_brackets_whole(m as nat, eb as nat);
        }
        scaled::round_scaled(m, eb + SCALE, false, Ghost(sum), Ghost(1))
    } else {
        let (kept, dropped) = align(mb, gap - 64);
        let base: u128 = ma as u128 * 0x1_0000_0000_0000_0000u128;
        let m: u128 = base + kept as u128;
        proof {
            lemma_brackets_aligned(
                ma as nat,
                ea as nat,
                mb as nat,
                eb as nat,
                kept as nat,
                dropped as nat,
            );
        }
        scaled::round_scaled(m, ea - 64 + SCALE, dropped > 0, Ghost(sum), Ghost(1))
    }
}

/// A mantissa moved down `k` bits: what stays of it and what drops out.
fn align(m: u64, k: u64) -> (r: (u64, u64))
    requires
        m < 2 * BINADE,
    ensures
        m == r.0 * pow2(k as nat) + r.1,
        r.1 < pow2(k as nat),
        r.0 <= m,
{
    proof {
        lemma2_to64();
        lemma2_to64_rest();
        lemma_pow2_pos(k as nat);
    }
    if k >= 64 {
        proof {
            if k > 64 {
                lemma_pow2_strictly_increases(64, k as nat);
            }
            assert(0 * pow2(k as nat) == 0);
        }
        (0, m)
    } else {
        let power: u128 = scaled::power_of_two(k);
        let kept: u128 = m as u128 / power;
        let dropped: u128 = m as u128 % power;
        proof {
            lemma_fundamental_div_mod(m as int, power as int);
            lemma_mul_is_commutative(kept as int, power as int);
            assert(kept <= kept * power) by (nonlinear_arith)
                requires
                    power >= 1,
            ;
        }
        (kept as u64, dropped as u64)
    }
}

/// Far apart, the smaller number only reaches the mantissa's lower bits.
proof fn lemma_brackets_aligned(ma: nat, ea: nat, mb: nat, eb: nat, kept: nat, dropped: nat)
    requires
        ea > eb + 64,
        mb == kept * pow2((ea - eb - 64) as nat) + dropped,
        dropped < pow2((ea - eb - 64) as nat),
    ensures
        ({
            let x = (ea - 64 + SCALE) as nat;
            let base = ma * 0x1_0000_0000_0000_0000;
            let a = ma * pow2(ea);
            let b = mb * pow2(eb);
            &&& scaled::brackets(a + b, 1, base + kept, x, dropped > 0)
            &&& a >= b && base > kept ==> if dropped > 0 {
                scaled::brackets((a - b) as nat, 1, (base - kept - 1) as nat, x, true)
            } else {
                scaled::brackets((a - b) as nat, 1, (base - kept) as nat, x, false)
            }
        }),
{
    let k = (ea - eb - 64) as nat;
    let low = (ea - 64) as nat;
    let x = low + SCALE as nat;
    let base = ma * 0x1_0000_0000_0000_0000;
    let a = ma * pow2(ea);
    let b = mb * pow2(eb);
    let scale = pow2(SCALE as nat);
    let fine = pow2(eb + SCALE as nat);
    let step = pow2(x);
    lemma2_to64();
    lemma_pow2_adds(64, low);
    lemma_pow2_adds(low, SCALE as nat);
    lemma_pow2_adds(eb, SCALE as nat);
    lemma_pow2_adds(k, eb + SCALE as nat);
    lemma_pow2_pos(eb + SCALE as nat);
    assert(k + (eb + SCALE as nat) == x);
    assert(64 + low == ea);
    let wide = pow2(k);
    assert(1 * step == step);
    // `a` is a whole number of steps, and `b` is `kept` of them and a part.
    assert(a * scale == base * step) by (nonlinear_arith)
        requires
            a == ma * (0x1_0000_0000_0000_0000 * pow2(low)),
            base == ma * 0x1_0000_0000_0000_0000,
            step == pow2(low) * scale,
    ;
    assert(b * scale == kept * step + dropped * fine) by (nonlinear_arith)
        requires
            b == mb * pow2(eb),
            fine == pow2(eb) * scale,
            mb == kept * wide + dropped,
            step == wide * fine,
    ;
    assert(dropped * fine < step) by (nonlinear_arith)
        requires
            dropped < wide,
            step == wide * fine,
            fine > 0,
    ;
    assert(dropped > 0 ==> dropped * fine > 0) by (nonlinear_arith)
        requires
            fine > 0,
    ;
    assert(dropped == 0 ==> dropped * fine == 0) by (nonlinear_arith);
    assert((a + b) * scale == a * scale + b * scale) by (nonlinear_arith);
    assert((base + kept) * step == base * step + kept * step) by (nonlinear_arith);
    assert((base + kept + 1) * step == base * step + kept * step + step) by (nonlinear_arith);
    if a >= b && base > kept {
        let c = (a - b) as nat;
        assert(c * scale == a * scale - b * scale) by (nonlinear_arith)
            requires
                c == a - b,
        ;
        let whole = (base - kept) as nat;
        assert(whole * step == base * step - kept * step) by (nonlinear_arith)
            requires
                whole == base - kept,
        ;
        let less = (whole - 1) as nat;
        assert(less * step == whole * step - step) by (nonlinear_arith)
            requires
                less == whole - 1,
        ;
        assert(less + 1 == whole);
    }
}

/// The smaller of two magnitudes taken from the larger.
fn subtract_patterns(p: u64, q: u64) -> (r: u64)
    requires
        q <= p < INFINITE,
    ensures
        rounding::units(q as nat) <= rounding::units(p as nat),
        r == rounding::rounded(
            (rounding::units(p as nat) - rounding::units(q as nat)) as nat,
            1,
        ),
        r <= INFINITE,
{
    let (ma, ea) = parts(p);
    let (mb, eb) = parts(q);
    let gap: u64 = ea - eb;
    proof {
        lemma2_to64();
        if q < p {
            rounding::lemma_units_ordered(q as nat, p as nat);
        }
    }
    let ghost rest = (rounding::units(p as nat) - rounding::units(q as nat)) as nat;
    if gap <= 64 {
        let power: u128 = scaled::power_of_two(gap);
        proof {
            if gap < 64 {
                lemma_pow2_strictly_increases(gap as nat, 64);
            }
            lemma_pow2_pos(eb as nat);
            lemma_pow2_pos(gap as nat);
            assert(ma * power <= 0x20_0000_0000_0000 * 0x1_0000_0000_0000_0000)
                by (nonlinear_arith)
                requires
                    ma <= 0x20_0000_0000_0000,
                    power <= 0x1_0000_0000_0000_0000,
            ;
            lemma_pow2_adds(gap as nat, eb as nat);
            lemma_mul_is_associative(ma as int, power as int, pow2(eb as nat) as int);
            lemma_mul_inequality_converse(mb as int, ma * power, pow2(eb as nat) as int);
        }
        let m: u128 = ma as u128 * power - mb as u128;
        proof {
            lemma_mul_is_distributive_sub_other_way(
                pow2(eb as nat) as int,
                ma * power,
                mb as int,
            );
            lemma_brackets_whole(m as nat, eb as nat);
        }
        scaled::round_scaled(m, eb + SCALE, false, Ghost(rest), Ghost(1))
    } else {
        let (kept, dropped) = align(mb, gap - 64);
        let base: u128 = ma as u128 * 0x1_0000_0000_0000_0000u128;
        let m: u128 = if dropped > 0 {
            base - kept as u128 - 1
        } else {
            base - kept as u128
        };
        proof {
            lemma_brackets_aligned(
                ma as nat,
                ea as nat,
                mb as nat,
                eb as nat,
                kept as nat,
                dropped as nat,
            );
        }
        scaled::round_scaled(m, ea - 64 + SCALE, dropped > 0, Ghost(rest), Ghost(1))
    }
}

/// A mantissa moved up until it fills its 53 bits.
fn normalized(m: u64) -> (r: (u64, u64))
    requires
        0 < m < 2 * BINADE,
    ensures
        r.0 == m * pow2(r.1 as nat),
        BINADE <= r.0 < 2 * BINADE,
        r.1 <= 52,
{
    let l: u64 = scaled::bit_length(m as u128);
    proof {
        lemma2_to64();
        lemma2_to64_rest();
        if l > 53 {
            if l > 54 {
                lemma_pow2_strictly_increases(53, (l - 1) as nat);
            }
        }
    }
    let k: u64 = 53 - l;
    let power: u128 = scaled::power_of_two(k);
    proof {
        lemma_pow2_pos(k as nat);
        lemma_pow2_adds(l as nat, k as nat);
        lemma_pow2_adds((l - 1) as nat, k as nat);
        assert(m * power < pow2(l as nat) * pow2(k as nat)) by (nonlinear_arith)
            requires
                m < pow2(l as nat),
                power == pow2(k as nat),
                power > 0,
        ;
        assert(pow2((l - 1) as nat) * pow2(k as nat) <= m * power) by (nonlinear_arith)
            requires
                pow2((l - 1) as nat) <= m,
                power == pow2(k as nat),
        ;
        assert(power <= m * power) by (nonlinear_arith)
            requires
                m >= 1,
        ;
    }
    (m * power as u64, k)
}

/// Two magnitudes multiplied.
fn multiply_patterns(p: u64, q: u64) -> (r: u64)
    requires
        p < INFINITE,
        q < INFINITE,
    ensures
        r == rounding::rounded(
            rounding::units(p as nat) * rounding::units(q as nat),
            rounding::one(),
        ),
        r <= INFINITE,
{
    let (ma, ea) = parts(p);
    let (mb, eb) = parts(q);
    proof {
        assert(ma * mb <= 0x20_0000_0000_0000 * 0x20_0000_0000_0000) by (nonlinear_arith)
            requires
                ma <= 0x20_0000_0000_0000,
                mb <= 0x20_0000_0000_0000,
        ;
    }
    let m: u128 = ma as u128 * mb as u128;
    let x: u64 = ea + eb + (SCALE - ONE_UNITS);
    let ghost num = rounding::units(p as nat) * rounding::units(q as nat);
    proof {
        let (wa, wb, one, scale) = (
            pow2(ea as nat),
            pow2(eb as nat),
            rounding::one(),
            pow2(SCALE as nat),
        );
        lemma_pow2_pos(ONE_UNITS as nat);
        lemma_pow2_adds(ea as nat, eb as nat);
        lemma_pow2_adds(ONE_UNITS as nat, x as nat);
        lemma_pow2_adds((ea + eb) as nat, SCALE as nat);
        assert(ONE_UNITS as nat + x as nat == (ea + eb) as nat + SCALE as nat);
        assert(num * scale == m * (one * pow2(x as nat))) by (nonlinear_arith)
            requires
                num == (ma * wa) * (mb * wb),
                m == ma * mb,
                one * pow2(x as nat) == (wa * wb) * scale,
        ;
    }
    scaled::round_scaled(m, x, false, Ghost(num), Ghost(rounding::one()))
}

/// One magnitude divided by another.
fn divide_patterns(p: u64, q: u64) -> (r: u64)
    requires
        p < INFINITE,
        0 < q < INFINITE,
    ensures
        r == rounding::rounded(
            rounding::units(p as nat) * rounding::one(),
            rounding::units(q as nat),
        ),
        r <= INFINITE,
{
    let (ma, ea) = parts(p);
    let (mb, eb) = parts(q);
    let ghost num = rounding::units(p as nat) * rounding::one();
    let ghost den = rounding::units(q as nat);
    proof {
        rounding::lemma_units_ordered(0, q as nat);
    }
    if ma == 0 {
        proof {
            assert(num == 0) by (nonlinear_arith)
                requires
                    num == (ma * pow2(ea as nat)) * rounding::one(),
                    ma == 0,
            ;
            assert(den * rounding::units(0) == 0) by (nonlinear_arith)
                requires
                    rounding::units(0) == 0,
            ;
            rounding::lemma_nearest_exact(num, den, 0);
            rounding::lemma_rounded_is(num, den, 0);
        }
        return 0;
    }
    let (full, k) = normalized(ma);
    let wide: u128 = full as u128 * 0x1_0000_0000_0000_0000u128;
    let m: u128 = wide / mb as u128;
    let rest: u128 = wide % mb as u128;
    // The quotient has 64 bits or more, and the exponent stays above zero.
    let x: u64 = ea + SCALE + ONE_UNITS - eb - 64 - k;
    proof {
        lemma_fundamental_div_mod(wide as int, mb as int);
        assert(m >= 0x40_0000_0000_0000) by (nonlinear_arith)
            requires
                wide == mb * m + rest,
                rest < mb,
                mb < 0x20_0000_0000_0000,
                wide >= 0x10_0000_0000_0000 * 0x1_0000_0000_0000_0000,
        ;
        assert(m <= wide) by (nonlinear_arith)
            requires
                wide == mb * m + rest,
                mb >= 1,
                rest >= 0,
        ;
        let scale = pow2(SCALE as nat);
        let one = rounding::one();
        let (wa, wb, wk, wx) = (
            pow2(ea as nat),
            pow2(eb as nat),
            pow2(k as nat),
            pow2(x as nat),
        );
        let fine = wb * wx;
        lemma2_to64();
        lemma_pow2_adds(eb as nat, x as nat);
        lemma_pow2_adds(k as nat, 64);
        lemma_pow2_adds((k + 64) as nat, (eb + x) as nat);
        lemma_pow2_adds(ea as nat, ONE_UNITS as nat);
        lemma_pow2_adds((ea + ONE_UNITS) as nat, SCALE as nat);
        lemma_pow2_pos((eb + x) as nat);
        assert((k + 64) as nat + (eb + x) as nat == (ea + ONE_UNITS) as nat + SCALE as nat);
        assert(num * scale == wide * fine) by (nonlinear_arith)
            requires
                num == (ma * wa) * one,
                wide == (ma * wk) * 0x1_0000_0000_0000_0000,
                (wk * 0x1_0000_0000_0000_0000) * fine == (wa * one) * scale,
        ;
        assert(den * wx == mb * fine) by (nonlinear_arith)
            requires
                den == mb * wb,
                fine == wb * wx,
        ;
        assert(wide * fine == m * (mb * fine) + rest * fine) by (nonlinear_arith)
            requires
                wide == mb * m + rest,
        ;
        assert((m + 1) * (mb * fine) == m * (mb * fine) + mb * fine) by (nonlinear_arith);
        assert(rest * fine < mb * fine) by (nonlinear_arith)
            requires
                rest < mb,
                fine > 0,
        ;
        assert(rest > 0 ==> rest * fine > 0) by (nonlinear_arith)
            requires
                fine > 0,
        ;
        assert(rest == 0 ==> rest * fine == 0) by (nonlinear_arith);
    }
    scaled::round_scaled(m, x, rest > 0, Ghost(num), Ghost(den))
}

impl Binary64 {
    /// `self + other`.
    pub fn plus(self, other: Binary64) -> (r: Binary64)
        ensures
            r == self.sum(other),
    {
        let (p, q): (u64, u64) = (self.magnitude(), other.magnitude());
        let (np, nq): (bool, bool) = (self.bits >= SIGN, other.bits >= SIGN);
        if p > INFINITE || q > INFINITE || (p == INFINITE && q == INFINITE && np != nq) {
            return Binary64 { bits: NOT_A_NUMBER };
        }
        if p == INFINITE {
            return self;
        }
        if q == INFINITE {
            return other;
        }
        proof {
            lemma_order(self, other);
            lemma_order(self, other.opposite());
            if p > 0 {
                rounding::lemma_units_ordered(0, p as nat);
            }
            if q > 0 {
                rounding::lemma_units_ordered(0, q as nat);
            }
        }
        if np == nq {
            let r: u64 = if q <= p {
                add_patterns(p, q)
            } else {
                add_patterns(q, p)
            };
            proof {
                lemma_rounded_zero();
            }
            Binary64::with_sign(np, r)
        } else if p == q {
            Binary64::with_sign(false, 0)
        } else if q < p {
            Binary64::with_sign(np, subtract_patterns(p, q))
        } else {
            Binary64::with_sign(nq, subtract_patterns(q, p))
        }
    }

    /// `self - other`.
    pub fn minus(self, other: Binary64) -> (r: Binary64)
        ensures
            r == self.difference(other),
    {
        self.plus(other.negated())
    }

    /// `self * other`.
    pub fn times(self, other: Binary64) -> (r: Binary64)
        ensures
            r == self.product(other),
    {
        let (p, q): (u64, u64) = (self.magnitude(), other.magnitude());
        let negative: bool = (self.bits >= SIGN) != (other.bits >= SIGN);
        if p > INFINITE || q > INFINITE {
            return Binary64 { bits: NOT_A_NUMBER };
        }
        if p == INFINITE || q == INFINITE {
            if p == 0 || q == 0 {
                return Binary64 { bits: NOT_A_NUMBER };
            }
            return Binary64::with_sign(negative, INFINITE);
        }
        Binary64::with_sign(negative, multiply_patterns(p, q))
    }

    /// `self / other`.
    pub fn over(self, other: Binary64) -> (r: Binary64)
        ensures
            r == self.quotient(other),
    {
        let (p, q): (u64, u64) = (self.magnitude(), other.magnitude());
        let negative: bool = (self.bits >= SIGN) != (other.bits >= SIGN);
        if p > INFINITE || q > INFINITE || (p == INFINITE && q == INFINITE) || (p == 0 && q == 0) {
            return Binary64 { bits: NOT_A_NUMBER };
        }
        if p == INFINITE || q == 0 {
            return Binary64::with_sign(negative, INFINITE);
        }
        if q == INFINITE {
            return Binary64::with_sign(negative, 0);
        }
        Binary64::with_sign(negative, divide_patterns(p, q))
    }

    /// An unsigned integer as the nearest number.
    pub fn from_u64(n: u64) -> (r: Binary64)
        ensures
            r == Binary64::of_integer(n as int),
    {
        proof {
            lemma_brackets_whole(n as nat, ONE_UNITS as nat);
        }
        let ghost num = n as nat * rounding::one();
        let r: u64 = scaled::round_scaled(
            n as u128,
            ONE_UNITS + SCALE,
            false,
            Ghost(num),
            Ghost(1),
        );
        Binary64::with_sign(false, r)
    }

    /// A signed integer as the nearest number.
    pub fn from_i64(n: i64) -> (r: Binary64)
        ensures
            r == Binary64::of_integer(n as int),
    {
        if n >= 0 {
            return Binary64::from_u64(n as u64);
        }
        let magnitude: u64 = (-(n as i128)) as u64;
        proof {
            lemma_pow2_pos(ONE_UNITS as nat);
            let one = rounding::one() as int;
            assert(-(n * one) == magnitude * one && n * one < 0) by (nonlinear_arith)
                requires
                    magnitude == -n,
                    n < 0,
                    one > 0,
            ;
            rounding::lemma_rounded_exists((magnitude * one) as nat, 1);
        }
        Binary64::from_u64(magnitude).negated()
    }
}

/// Nothing rounds to zero.
proof fn lemma_rounded_zero()
    ensures
        rounding::rounded(0, 1) == 0,
{
    rounding::lemma_units_zero();
    rounding::lemma_nearest_exact(0, 1, 0);
    rounding::lemma_rounded_is(0, 1, 0);
}

} // verus!
