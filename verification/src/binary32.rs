//! Single-precision numbers as the bits they are stored in: what samples and
//! tensors are made of. They are carried, laid out as bytes and widened,
//! never computed with.

use crate::binary64::{Binary64, NOT_A_NUMBER, SIGN};
use crate::rounding::{self, INFINITE};
use crate::scaled::{self, SCALE};
use vstd::arithmetic::mul::*;
use vstd::arithmetic::power2::*;
use vstd::prelude::*;

verus! {

/// The sign bit's weight.
pub const SIGN_32: u32 = 0x8000_0000;

/// The pattern of infinity.
pub const INFINITE_32: u32 = 0x7f80_0000;

/// Patterns in one binade: two to the fraction's 23 bits.
pub const BINADE_32: u32 = 0x80_0000;

/// Binary64 units in the smallest positive binary32 number, as a power of
/// two.
pub const UNIT_32: u64 = 925;

/// A binary32 number, as its bits.
#[derive(Clone, Copy, Debug, PartialEq, Eq, Structural)]
pub struct Binary32 {
    pub bits: u32,
}

impl Binary32 {
    pub open spec fn pattern(self) -> nat {
        (self.bits % SIGN_32) as nat
    }

    pub open spec fn is_negative(self) -> bool {
        self.bits >= SIGN_32
    }

    /// The exact magnitude of a finite number, in binary64 units.
    pub open spec fn magnitude(self) -> nat {
        let exponent = self.pattern() / (BINADE_32 as nat);
        let fraction = self.pattern() % (BINADE_32 as nat);
        let small = if exponent == 0 {
            fraction
        } else {
            (BINADE_32 as nat + fraction) * pow2((exponent - 1) as nat)
        };
        small * pow2(UNIT_32 as nat)
    }

    /// The same number in double precision.
    pub open spec fn widened(self) -> Binary64 {
        if self.pattern() > INFINITE_32 {
            Binary64::nan()
        } else if self.pattern() == INFINITE_32 {
            Binary64::of(self.is_negative(), INFINITE as nat)
        } else {
            Binary64::of(self.is_negative(), rounding::rounded(self.magnitude(), 1))
        }
    }

    /// The number these bits spell.
    pub fn from_bits(bits: u32) -> (r: Binary32)
        ensures
            r == (Binary32 { bits }),
    {
        Binary32 { bits }
    }

    /// The bits this number is stored in.
    pub fn to_bits(self) -> (bits: u32)
        ensures
            bits == self.bits,
    {
        self.bits
    }

    /// The same number in double precision.
    pub fn widen(self) -> (r: Binary64)
        ensures
            r == self.widened(),
    {
        let pattern: u32 = self.bits % SIGN_32;
        let sign: u64 = if self.bits >= SIGN_32 {
            SIGN
        } else {
            0
        };
        if pattern > INFINITE_32 {
            return Binary64 { bits: NOT_A_NUMBER };
        }
        if pattern == INFINITE_32 {
            return Binary64 { bits: INFINITE + sign };
        }
        let exponent: u32 = pattern / BINADE_32;
        let fraction: u32 = pattern % BINADE_32;
        let (m, e): (u32, u32) = if exponent == 0 {
            (fraction, 0)
        } else {
            (BINADE_32 + fraction, exponent - 1)
        };
        let x: u64 = e as u64 + UNIT_32 + SCALE;
        proof {
            lemma2_to64();
            lemma_pow2_adds(e as nat, UNIT_32 as nat);
            lemma_pow2_adds(e as nat + UNIT_32 as nat, SCALE as nat);
            let (we, wu, scale) = (pow2(e as nat), pow2(UNIT_32 as nat), pow2(SCALE as nat));
            assert(e == 0 ==> m * we == m) by (nonlinear_arith)
                requires
                    e == 0 ==> we == 1,
            ;
            assert(self.magnitude() == (m * we) * wu);
            assert(((m * we) * wu) * scale == m * (1 * ((we * wu) * scale))) by (nonlinear_arith);
        }
        let r: u64 = scaled::round_scaled(
            m as u128,
            x,
            false,
            Ghost(self.magnitude()),
            Ghost(1),
        );
        Binary64 { bits: r + sign }
    }
}

/// Widening loses nothing: the wider number has the very value.
pub proof fn widening_is_exact(x: Binary32)
    requires
        x.pattern() < INFINITE_32,
    ensures
        x.widened().is_finite(),
        x.widened().is_negative() == x.is_negative(),
        rounding::units(x.widened().pattern()) == x.magnitude(),
{
    let exponent = x.pattern() / (BINADE_32 as nat);
    let fraction = x.pattern() % (BINADE_32 as nat);
    let (m, e): (nat, nat) = if exponent == 0 {
        (fraction, 0)
    } else {
        ((BINADE_32 as nat + fraction), (exponent - 1) as nat)
    };
    lemma2_to64();
    lemma_pow2_adds(e, UNIT_32 as nat);
    let t = e + UNIT_32 as nat;
    assert(e == 0 ==> m * pow2(e) == m) by (nonlinear_arith)
        requires
            e == 0 ==> pow2(e) == 1,
    ;
    assert(x.magnitude() == (m * pow2(e)) * pow2(UNIT_32 as nat));
    lemma_mul_is_associative(m as int, pow2(e) as int, pow2(UNIT_32 as nat) as int);
    let p = rounding::lemma_representable(m, t);
    rounding::lemma_nearest_exact(x.magnitude(), 1, p);
    rounding::lemma_rounded_is(x.magnitude(), 1, p);
}

/// What single-precision bits come to in double precision: the top one the
/// sign, eight the binade, and the rest the place in it. The smallest of these
/// numbers is two to the 925 of the smallest double-precision ones.
pub proof fn widening_keeps_what_the_bits_spell(x: Binary32)
    ensures
        ({
            let (wide, bits) = (x.widened(), x.bits % 0x8000_0000);
            let (binade, place) = (bits / 0x80_0000, x.bits % 0x80_0000);
            let small = if binade == 0 {
                place as int
            } else {
                (0x80_0000 + place) * pow2((binade - 1) as nat)
            };
            &&& wide.is_nan() <==> bits > 0x7f80_0000
            &&& wide.is_infinite() <==> bits == 0x7f80_0000
            &&& !wide.is_nan() ==> (wide.is_negative() <==> x.bits >= 0x8000_0000)
            &&& bits < 0x7f80_0000 ==> wide.value() == if x.bits >= 0x8000_0000 {
                -(small * pow2(925))
            } else {
                small * pow2(925)
            }
        }),
{
    assert(x.bits % 0x80_0000 == x.pattern() % 0x80_0000);
    if x.pattern() < INFINITE_32 {
        widening_is_exact(x);
    }
}

/// The number four bytes spell, lowest first.
pub open spec fn word(bytes: Seq<u8>, at: int) -> Binary32 {
    Binary32 {
        bits: (bytes[at] + 0x100 * bytes[at + 1] + 0x1_0000 * bytes[at + 2] + 0x100_0000 * bytes[at
            + 3]) as u32,
    }
}

/// The numbers a run of bytes spells. Up to three bytes at the end that make
/// no number are passed over.
pub open spec fn floats_of(bytes: Seq<u8>) -> Seq<Binary32> {
    Seq::new((bytes.len() / 4) as nat, |i: int| word(bytes, 4 * i))
}

/// One byte of a number, lowest first.
pub open spec fn byte(x: Binary32, place: int) -> u8 {
    let bits = x.bits;
    if place == 0 {
        (bits % 0x100) as u8
    } else if place == 1 {
        (bits / 0x100 % 0x100) as u8
    } else if place == 2 {
        (bits / 0x1_0000 % 0x100) as u8
    } else {
        (bits / 0x100_0000) as u8
    }
}

/// The bytes that spell a run of numbers.
pub open spec fn bytes_of(values: Seq<Binary32>) -> Seq<u8> {
    Seq::new(4 * values.len(), |i: int| byte(values[i / 4], i % 4))
}

/// Floats as the little-endian bytes a tensor carries.
pub fn to_bytes(values: &[Binary32]) -> (r: Vec<u8>)
    ensures
        r@ == bytes_of(values@),
{
    let mut r: Vec<u8> = Vec::new();
    let mut i: usize = 0;
    while i < values.len()
        invariant
            i <= values@.len(),
            r@ == bytes_of(values@.take(i as int)),
        decreases values.len() - i,
    {
        let bits: u32 = values[i].bits;
        r.push((bits % 0x100) as u8);
        r.push((bits / 0x100 % 0x100) as u8);
        r.push((bits / 0x1_0000 % 0x100) as u8);
        r.push((bits / 0x100_0000) as u8);
        i = i + 1;
        assert(r@ =~= bytes_of(values@.take(i as int)));
    }
    assert(values@.take(i as int) =~= values@);
    r
}

/// A tensor's bytes back as floats.
pub fn to_floats(bytes: &[u8]) -> (r: Vec<Binary32>)
    ensures
        r@ == floats_of(bytes@),
{
    let mut r: Vec<Binary32> = Vec::new();
    let mut i: usize = 0;
    while bytes.len() - i >= 4
        invariant
            i <= bytes@.len(),
            i == 4 * r@.len(),
            forall|j: int| 0 <= j < r@.len() ==> r@[j] == word(bytes@, 4 * j),
        decreases bytes.len() - i,
    {
        let bits: u32 = bytes[i] as u32 + 0x100 * (bytes[i + 1] as u32) + 0x1_0000 * (bytes[i
            + 2] as u32) + 0x100_0000 * (bytes[i + 3] as u32);
        r.push(Binary32 { bits });
        i = i + 4;
    }
    assert(r@ =~= floats_of(bytes@));
    r
}

/// A number's four bytes make the number.
proof fn lemma_bytes_word(x: Binary32)
    ensures
        x.bits == byte(x, 0) + 0x100 * byte(x, 1) + 0x1_0000 * byte(x, 2) + 0x100_0000 * byte(x, 3),
{
}

/// Floats survive the trip through a tensor's bytes.
pub proof fn floats_survive_bytes(values: Seq<Binary32>)
    ensures
        floats_of(bytes_of(values)) == values,
{
    let bytes = bytes_of(values);
    assert forall|i: int| 0 <= i < values.len() implies #[trigger] floats_of(bytes)[i]
        == values[i] by {
        let x = values[i];
        lemma_bytes_word(x);
        assert(bytes[4 * i] == byte(x, 0));
        assert(bytes[4 * i + 1] == byte(x, 1));
        assert(bytes[4 * i + 2] == byte(x, 2));
        assert(bytes[4 * i + 3] == byte(x, 3));
    }
    assert(floats_of(bytes) =~= values);
}

proof fn lemma_word_bytes(bytes: Seq<u8>, at: int)
    ensures
        byte(word(bytes, at), 0) == bytes[at],
        byte(word(bytes, at), 1) == bytes[at + 1],
        byte(word(bytes, at), 2) == bytes[at + 2],
        byte(word(bytes, at), 3) == bytes[at + 3],
{
    let (a, b, c, d) = (bytes[at], bytes[at + 1], bytes[at + 2], bytes[at + 3]);
    let bits = a + 0x100 * b + 0x1_0000 * c + 0x100_0000 * d;
    assert(bits / 0x100 == b + 0x100 * c + 0x1_0000 * d);
    assert(bits / 0x1_0000 == c + 0x100 * d);
}

/// Whole numbers of bytes survive the trip through floats.
pub proof fn bytes_survive_floats(bytes: Seq<u8>)
    requires
        bytes.len() % 4 == 0,
    ensures
        bytes_of(floats_of(bytes)) == bytes,
{
    let values = floats_of(bytes);
    assert forall|i: int| 0 <= i < bytes.len() implies #[trigger] bytes_of(values)[i]
        == bytes[i] by {
        let at = 4 * (i / 4);
        assert(values[i / 4] == word(bytes, at));
        lemma_word_bytes(bytes, at);
        if i % 4 == 0 {
            assert(i == at);
        } else if i % 4 == 1 {
            assert(i == at + 1);
        } else if i % 4 == 2 {
            assert(i == at + 2);
        } else {
            assert(i == at + 3);
        }
    }
    assert(bytes_of(values) =~= bytes);
}

/// Numbers are read off bytes in order, four bytes to each, the lowest first.
/// Bytes left over at the end spell nothing.
pub proof fn bytes_are_read_in_order(bytes: Seq<u8>, i: int)
    requires
        0 <= i < floats_of(bytes).len(),
    ensures
        4 * floats_of(bytes).len() <= bytes.len() < 4 * floats_of(bytes).len() + 4,
        floats_of(bytes)[i].bits == bytes[4 * i] + 256 * bytes[4 * i + 1] + 65536 * bytes[4 * i + 2]
            + 16777216 * bytes[4 * i + 3],
{
}

/// How many numbers a run of bytes spells.
pub proof fn four_bytes_make_a_number(bytes: Seq<u8>)
    ensures
        floats_of(bytes).len() == bytes.len() / 4,
{
}

/// Numbers are written as bytes in order, four bytes to each, the lowest
/// first.
pub proof fn bytes_are_written_in_order(values: Seq<Binary32>, i: int)
    requires
        0 <= i < values.len(),
    ensures
        bytes_of(values).len() == 4 * values.len(),
        values[i].bits == bytes_of(values)[4 * i] + 256 * bytes_of(values)[4 * i + 1] + 65536
            * bytes_of(values)[4 * i + 2] + 16777216 * bytes_of(values)[4 * i + 3],
{
    let bytes = bytes_of(values);
    lemma_bytes_word(values[i]);
    assert(bytes[4 * i] == byte(values[i], 0));
    assert(bytes[4 * i + 1] == byte(values[i], 1));
    assert(bytes[4 * i + 2] == byte(values[i], 2));
    assert(bytes[4 * i + 3] == byte(values[i], 3));
}

/// Bytes left over at the end change nothing.
pub proof fn leftover_bytes_spell_nothing(bytes: Seq<u8>)
    ensures
        floats_of(bytes.take(4 * (bytes.len() / 4) as int)) == floats_of(bytes),
        bytes_of(floats_of(bytes)) == bytes.take(4 * (bytes.len() / 4) as int),
{
    let whole = bytes.take(4 * (bytes.len() / 4) as int);
    assert forall|i: int| 0 <= i < bytes.len() / 4 implies #[trigger] word(whole, 4 * i) == word(
        bytes,
        4 * i,
    ) by {
        assert(whole[4 * i] == bytes[4 * i]);
        assert(whole[4 * i + 1] == bytes[4 * i + 1]);
        assert(whole[4 * i + 2] == bytes[4 * i + 2]);
        assert(whole[4 * i + 3] == bytes[4 * i + 3]);
    }
    assert(floats_of(whole) =~= floats_of(bytes));
    bytes_survive_floats(whole);
}

} // verus!
