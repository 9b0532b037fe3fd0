use vad::binary32::{to_bytes, to_floats, Binary32};
use vad::binary64::Binary64;

fn number(x: f64) -> Binary64 {
    Binary64::from_bits(x.to_bits())
}

/// The operation's result must be the machine's own, bit for bit, except that
/// any not-a-number stands for any other.
fn agree(ours: Binary64, machine: f64, what: &str) {
    if machine.is_nan() {
        assert!(f64::from_bits(ours.to_bits()).is_nan(), "{what}");
    } else {
        assert_eq!(ours.to_bits(), machine.to_bits(), "{what}");
    }
}

/// A fixed sequence of well-mixed words.
struct Words(u64);

impl Words {
    fn next(&mut self) -> u64 {
        self.0 = self.0.wrapping_add(0x9e37_79b9_7f4a_7c15);
        let mut z = self.0;
        z = (z ^ (z >> 30)).wrapping_mul(0xbf58_476d_1ce4_e5b9);
        z = (z ^ (z >> 27)).wrapping_mul(0x94d0_49bb_1331_11eb);
        z ^ (z >> 31)
    }
}

fn corners() -> Vec<f64> {
    let mut found = vec![
        0.0,
        1.0,
        0.1,
        0.5,
        0.032,
        3.0,
        16000.0,
        1e-300,
        1e300,
        f64::MAX,
        f64::MIN_POSITIVE,
        f64::MIN_POSITIVE / 2.0,
        f64::from_bits(1),
        f64::from_bits(3),
        f64::from_bits(0x000f_ffff_ffff_ffff),
        f64::EPSILON,
        9007199254740992.0,
        9007199254740993.0,
        f64::INFINITY,
        f64::NAN,
    ];
    let negated: Vec<f64> = found.iter().map(|x| -x).collect();
    found.extend(negated);
    found
}

fn all_operations(x: f64, y: f64) {
    let (a, b) = (number(x), number(y));
    agree(a.plus(b), x + y, &format!("{x:?} + {y:?}"));
    agree(a.minus(b), x - y, &format!("{x:?} - {y:?}"));
    agree(a.times(b), x * y, &format!("{x:?} * {y:?}"));
    agree(a.over(b), x / y, &format!("{x:?} / {y:?}"));
    assert_eq!(a.at_least(b), x >= y, "{x:?} >= {y:?}");
    assert_eq!(a.less(b), x < y, "{x:?} < {y:?}");
    assert_eq!(a == b, x == y, "{x:?} == {y:?}");
}

#[test]
fn operations_on_corner_numbers_are_the_machines_own() {
    for x in corners() {
        for y in corners() {
            all_operations(x, y);
        }
    }
}

#[test]
fn operations_on_any_bits_are_the_machines_own() {
    let mut words = Words(7);
    for _ in 0..100_000 {
        all_operations(f64::from_bits(words.next()), f64::from_bits(words.next()));
    }
}

#[test]
fn operations_on_near_numbers_are_the_machines_own() {
    let mut words = Words(11);
    for _ in 0..100_000 {
        let x = f64::from_bits(words.next());
        let shift = words.next() % 130;
        let y_bits = (words.next() & 0x800f_ffff_ffff_ffff)
            | (x.to_bits() & 0x7ff0_0000_0000_0000).wrapping_sub(shift << 52) & 0x7ff0_0000_0000_0000;
        all_operations(x, f64::from_bits(y_bits));
        all_operations(f64::from_bits(y_bits), x);
    }
}

#[test]
fn integers_convert_as_the_machine_converts_them() {
    let mut words = Words(13);
    for n in [0, 1, -1, i64::MAX, i64::MIN, 9007199254740993, -9007199254740993] {
        agree(Binary64::from_i64(n), n as f64, "signed");
        agree(Binary64::from_u64(n as u64), n as u64 as f64, "unsigned");
    }
    for _ in 0..20_000 {
        let n = words.next() >> (words.next() % 64);
        agree(Binary64::from_u64(n), n as f64, "unsigned");
        agree(Binary64::from_i64(n as i64), n as i64 as f64, "signed");
    }
}

#[test]
fn widening_keeps_every_value() {
    let mut words = Words(17);
    for bits in [0u32, 1, 0x8000_0001, 0x007f_ffff, 0x0080_0000, 0x7f7f_ffff, 0x7f80_0000, 0xff80_0000, 0x7fc0_0000] {
        agree(Binary32::from_bits(bits).widen(), f64::from(f32::from_bits(bits)), "widen");
    }
    for _ in 0..50_000 {
        let bits = words.next() as u32;
        agree(Binary32::from_bits(bits).widen(), f64::from(f32::from_bits(bits)), "widen");
    }
}

#[test]
fn negating_flips_the_sign_alone() {
    for x in corners() {
        agree(number(x).negated(), -x, "negated");
    }
}

#[test]
fn floats_survive_the_trip_through_a_tensors_bytes() {
    let values: Vec<Binary32> = [0.0f32, -1.0, 0.5, f32::MIN_POSITIVE]
        .iter()
        .map(|v| Binary32::from_bits(v.to_bits()))
        .collect();
    assert_eq!(to_floats(&to_bytes(&values)), values);
}

#[test]
fn a_tensors_bytes_are_little_endian() {
    let values = [1.5f32, -2.25];
    let ours: Vec<Binary32> = values.iter().map(|v| Binary32::from_bits(v.to_bits())).collect();
    let machine: Vec<u8> = values.iter().flat_map(|v| v.to_le_bytes()).collect();
    assert_eq!(to_bytes(&ours), machine);
}

#[test]
fn bytes_that_make_no_float_are_passed_over() {
    assert_eq!(to_floats(&[0, 0, 128, 63, 9, 9, 9]), vec![Binary32::from_bits(1.0f32.to_bits())]);
    assert_eq!(to_floats(&[1, 2, 3]), Vec::new());
}
