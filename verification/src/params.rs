//! The three settings, their defaults, and what they may be.

use crate::binary64::Binary64;
use crate::exact;
use crate::rounding::{self, ONE_UNITS};
use crate::text;
use vstd::arithmetic::power2::*;
use vstd::prelude::*;
use vstd::string::*;

verus! {

/// What turns scores into spans.
#[derive(Clone, Copy, Debug, PartialEq)]
pub struct Params {
    /// The score a chunk counts as speech at.
    pub threshold: Binary64,
    /// The shortest span kept, in seconds.
    pub min_speech: Binary64,
    /// How much quiet closes a span, in seconds.
    pub min_silence: Binary64,
}

/// Why settings were refused.
#[derive(Debug)]
pub enum ParamsError {
    /// The text does not spell settings, for the reason given.
    Unreadable(String),
    /// This threshold lies outside zero to one.
    NotAProbability(Binary64),
    /// This shortest span is negative.
    NegativeSpeech(Binary64),
    /// This closing quiet is negative.
    NegativeSilence(Binary64),
}

/// The number nearest to `num / den`.
pub open spec fn fraction(num: int, den: int) -> Binary64 {
    Binary64::of_integer(num).quotient(Binary64::of_integer(den))
}

impl Params {
    /// One half, a quarter of a second and a tenth of one.
    pub open spec fn defaults() -> Params {
        Params { threshold: fraction(1, 2), min_speech: fraction(1, 4), min_silence: fraction(1, 10) }
    }
}

/// Whether a threshold is a probability: not below zero, not above one, and
/// a number.
pub open spec fn is_probability(threshold: Binary64) -> bool {
    threshold.ge(Binary64::of_integer(0)) && Binary64::of_integer(1).ge(threshold)
}

/// Whether a duration is below zero.
pub open spec fn is_below_zero(seconds: Binary64) -> bool {
    seconds.lt(Binary64::of_integer(0))
}

/// The settings in force once `read` has been read from the host's text.
/// Blank text, which is never read, stands for the defaults.
pub open spec fn settled(read: Option<Result<Params, String>>) -> Result<Params, ParamsError> {
    let parsed = match read {
        None => Ok(Params::defaults()),
        Some(read) => read,
    };
    match parsed {
        Err(reason) => Err(ParamsError::Unreadable(reason)),
        Ok(params) => if !is_probability(params.threshold) {
            Err(ParamsError::NotAProbability(params.threshold))
        } else if is_below_zero(params.min_speech) {
            Err(ParamsError::NegativeSpeech(params.min_speech))
        } else if is_below_zero(params.min_silence) {
            Err(ParamsError::NegativeSilence(params.min_silence))
        } else {
            Ok(params)
        },
    }
}

/// Silero's own recommended cut between speech and everything else.
pub fn default_threshold() -> (r: Binary64)
    ensures
        r == fraction(1, 2),
{
    Binary64::from_u64(1).over(Binary64::from_u64(2))
}

/// Shorter than a spoken syllable, so what survives is somebody talking
/// rather than a door or a drum hit the model guessed at.
pub fn default_min_speech() -> (r: Binary64)
    ensures
        r == fraction(1, 4),
{
    Binary64::from_u64(1).over(Binary64::from_u64(4))
}

/// A breath mid-sentence is well under this, a turn between speakers is over
/// it, so a sentence stays one span and two speakers do not become one.
pub fn default_min_silence() -> (r: Binary64)
    ensures
        r == fraction(1, 10),
{
    Binary64::from_u64(1).over(Binary64::from_u64(10))
}

impl Default for Params {
    fn default() -> (r: Params)
        ensures
            r == Params::defaults(),
    {
        Params {
            threshold: default_threshold(),
            min_speech: default_min_speech(),
            min_silence: default_min_silence(),
        }
    }
}

/// The text that spells the settings, without white space around it; nothing
/// when there is no more than white space, which stands for the defaults.
pub fn params_text<'a>(params: &'a str) -> (r: Option<&'a str>)
    ensures
        r is None <==> text::trimmed(params@).len() == 0,
        r matches Some(written) ==> written@ == text::trimmed(params@),
{
    let trimmed: &'a str = text::trim(params);
    if trimmed.is_empty() {
        None
    } else {
        Some(trimmed)
    }
}

/// Settles what reading the text found: `None` when there was no text to
/// read, and otherwise the settings it spells or why it spells none.
pub fn parse_params(read: Option<Result<Params, String>>) -> (r: Result<Params, ParamsError>)
    ensures
        r == settled(read),
        read matches Some(Ok(params)) ==> (r matches Ok(kept) ==> kept == params),
        read matches Some(Ok(params)) ==> (r is Ok <==> !params.threshold.is_nan() && 0
            <= params.threshold.value() <= rounding::one() && (params.min_speech.is_nan()
            || params.min_speech.value() >= 0) && (params.min_silence.is_nan()
            || params.min_silence.value() >= 0)),
{
    proof {
        good_settings_come_back_unchanged(read->0->Ok_0);
    }
    let parsed: Params = match read {
        None => Params::default(),
        Some(Ok(params)) => params,
        Some(Err(reason)) => return Err(ParamsError::Unreadable(reason)),
    };
    let zero: Binary64 = Binary64::from_u64(0);
    let one: Binary64 = Binary64::from_u64(1);
    if !(parsed.threshold.at_least(zero) && one.at_least(parsed.threshold)) {
        return Err(ParamsError::NotAProbability(parsed.threshold));
    }
    if parsed.min_speech.less(zero) {
        return Err(ParamsError::NegativeSpeech(parsed.min_speech));
    }
    if parsed.min_silence.less(zero) {
        return Err(ParamsError::NegativeSilence(parsed.min_silence));
    }
    Ok(parsed)
}

/// Whether `found` is what reading the host's text finds: nothing in blank
/// text, which `read` never sees, and otherwise what `read` makes of the text
/// without the white space around it.
pub open spec fn finds<R: FnOnce(&str) -> Result<Params, String>>(
    params: Seq<char>,
    read: R,
    found: Option<Result<Params, String>>,
) -> bool {
    match found {
        None => text::trimmed(params).len() == 0,
        Some(result) => text::trimmed(params).len() > 0 && exists|written: &str|
            written@ == text::trimmed(params) && #[trigger] read.ensures((written,), result),
    }
}

/// Reads the host's text, unless it is blank.
pub fn read_text<R: FnOnce(&str) -> Result<Params, String>>(params: &str, read: R) -> (r: Option<
    Result<Params, String>,
>)
    requires
        forall|written: &str|
            written@ == text::trimmed(params@) && written@.len() > 0 ==> #[trigger] read.requires(
                (written,),
            ),
    ensures
        finds(params@, read, r),
        r is None <==> text::trimmed(params@).len() == 0,
        r matches Some(result) ==> exists|written: &str|
            written@ == text::trimmed(params@) && #[trigger] read.ensures((written,), result),
{
    match params_text(params) {
        None => None,
        Some(written) => Some(read(written)),
    }
}

/// Settles the host's text: the defaults where it is blank, and otherwise
/// what `read` makes of it.
pub fn read_params<R: FnOnce(&str) -> Result<Params, String>>(params: &str, read: R) -> (r: Result<
    Params,
    ParamsError,
>)
    requires
        forall|written: &str|
            written@ == text::trimmed(params@) && written@.len() > 0 ==> #[trigger] read.requires(
                (written,),
            ),
    ensures
        text::trimmed(params@).len() == 0 ==> r == settled(None),
        text::trimmed(params@).len() > 0 ==> exists|written: &str, found: Result<Params, String>|
            written@ == text::trimmed(params@) && #[trigger] read.ensures((written,), found) && r
                == settled(Some(found)),
{
    parse_params(read_text(params, read))
}

impl ParamsError {
    /// What the refusal says, with the offending number written as `value`.
    pub open spec fn said(self, value: Seq<char>) -> Seq<char> {
        match self {
            ParamsError::Unreadable(reason) => "speech: bad params: "@ + reason@,
            ParamsError::NotAProbability(_) => "speech: threshold is a probability, and "@ + value
                + " is not between 0 and 1"@,
            ParamsError::NegativeSpeech(_) => "speech: min_speech is seconds, and "@ + value
                + " is negative"@,
            ParamsError::NegativeSilence(_) => "speech: min_silence is seconds, and "@ + value
                + " is negative"@,
        }
    }

    /// The number that was refused, when it was one.
    pub fn value(&self) -> (r: Option<Binary64>)
        ensures
            r == match *self {
                ParamsError::Unreadable(_) => None::<Binary64>,
                ParamsError::NotAProbability(value) => Some(value),
                ParamsError::NegativeSpeech(value) => Some(value),
                ParamsError::NegativeSilence(value) => Some(value),
            },
    {
        match self {
            ParamsError::Unreadable(_) => None,
            ParamsError::NotAProbability(value) => Some(*value),
            ParamsError::NegativeSpeech(value) => Some(*value),
            ParamsError::NegativeSilence(value) => Some(*value),
        }
    }

    /// What the refusal says, with the offending number written as `value`.
    pub fn message(&self, value: &str) -> (r: String)
        ensures
            r@ == self.said(value@),
    {
        match self {
            ParamsError::Unreadable(reason) => {
                let mut r: String = "speech: bad params: ".to_owned();
                r.append(reason.as_str());
                r
            },
            ParamsError::NotAProbability(_) => text::join(
                "speech: threshold is a probability, and ",
                value,
                " is not between 0 and 1",
            ),
            ParamsError::NegativeSpeech(_) => text::join(
                "speech: min_speech is seconds, and ",
                value,
                " is negative",
            ),
            ParamsError::NegativeSilence(_) => text::join(
                "speech: min_silence is seconds, and ",
                value,
                " is negative",
            ),
        }
    }
}

/// The defaults are good settings.
pub proof fn the_defaults_are_good()
    ensures
        settled(None) == Ok::<Params, ParamsError>(Params::defaults()),
{
    let one = rounding::one();
    lemma_pow2_pos(ONE_UNITS as nat);
    exact::integers_are_exact(0);
    exact::integers_are_exact(1);
    assert(0 * one == 0 && 1 * one == one);
    lemma_fraction(2);
    lemma_fraction(4);
    lemma_fraction(10);
}

/// One part in `den` lies between zero and one.
proof fn lemma_fraction(den: int)
    requires
        1 <= den <= 100,
    ensures
        !fraction(1, den).is_nan(),
        0 <= fraction(1, den).value() <= rounding::one(),
{
    rounding::lemma_units_zero();
    let one = rounding::one();
    exact::integer_quotients_round_once(1, den);
    let high = rounding::lemma_representable(1, ONE_UNITS as nat);
    let d = den as nat;
    lemma_pow2_pos(ONE_UNITS as nat);
    assert(d * rounding::units(0) == 0) by (nonlinear_arith)
        requires
            rounding::units(0) == 0,
    ;
    assert(1 * one <= d * (1 * one)) by (nonlinear_arith)
        requires
            d >= 1,
    ;
    exact::lemma_rounded_between(one, d, 0, high);
    let p = rounding::rounded(one, d);
    if p < high {
        rounding::lemma_units_ordered(p, high);
    }
    exact::lemma_of(false, p);
}

/// The defaults in bits: one half, a quarter, and the number closest to a
/// tenth.
pub proof fn the_defaults_in_bits()
    ensures
        Params::defaults().threshold.bits == 0x3fe0_0000_0000_0000,
        Params::defaults().min_speech.bits == 0x3fd0_0000_0000_0000,
        Params::defaults().min_silence.bits == 0x3fb9_9999_9999_999a,
        fraction(1, 2).bits == 0x3fe0_0000_0000_0000,
        fraction(1, 4).bits == 0x3fd0_0000_0000_0000,
        fraction(1, 10).bits == 0x3fb9_9999_9999_999a,
{
    lemma2_to64();
    lemma2_to64_rest();
    exact::lemma_half_bits(1021, 2);
    exact::lemma_half_bits(1020, 4);
    exact::lemma_quotient_bits(1, 10, 0x19_9999_9999_999a, 1018);
}

/// Good settings come back as they were written: a threshold from zero to one,
/// and durations that are not below zero. Anything else is refused for the
/// first of the three that is wrong, naming the number that is.
pub proof fn good_settings_come_back_unchanged(params: Params)
    ensures
        ({
            let probable = !params.threshold.is_nan() && 0 <= params.threshold.value()
                <= rounding::one();
            let too_short = !params.min_speech.is_nan() && params.min_speech.value() < 0;
            let too_quiet = !params.min_silence.is_nan() && params.min_silence.value() < 0;
            settled(Some(Ok(params))) == if !probable {
                Err::<Params, ParamsError>(ParamsError::NotAProbability(params.threshold))
            } else if too_short {
                Err(ParamsError::NegativeSpeech(params.min_speech))
            } else if too_quiet {
                Err(ParamsError::NegativeSilence(params.min_silence))
            } else {
                Ok(params)
            }
        }),
{
    exact::integers_are_exact(0);
    exact::integers_are_exact(1);
    assert(0 * rounding::one() == 0 && 1 * rounding::one() == rounding::one());
}

/// Text that cannot be read is refused for the reason it cannot, and no text
/// at all stands for one half, a quarter of a second and a tenth of one.
pub proof fn what_is_not_read_is_refused_or_default(reason: String)
    ensures
        settled(Some(Err(reason))) == Err::<Params, ParamsError>(ParamsError::Unreadable(reason)),
        settled(None) == Ok::<Params, ParamsError>(
            Params {
                threshold: Binary64 { bits: 0x3fe0_0000_0000_0000 },
                min_speech: Binary64 { bits: 0x3fd0_0000_0000_0000 },
                min_silence: Binary64 { bits: 0x3fb9_9999_9999_999a },
            },
        ),
{
    the_defaults_are_good();
    the_defaults_in_bits();
}

/// What each refusal says.
pub proof fn refusals_say_what_was_wrong(error: ParamsError, value: Seq<char>)
    ensures
        error.said(value) == match error {
            ParamsError::Unreadable(reason) => "speech: bad params: "@ + reason@,
            ParamsError::NotAProbability(_) => "speech: threshold is a probability, and "@ + value
                + " is not between 0 and 1"@,
            ParamsError::NegativeSpeech(_) => "speech: min_speech is seconds, and "@ + value
                + " is negative"@,
            ParamsError::NegativeSilence(_) => "speech: min_silence is seconds, and "@ + value
                + " is negative"@,
        },
{
}

} // verus!
