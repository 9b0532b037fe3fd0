//! What the module tells the host about itself, and which streams it takes.

use crate::clock::{CHUNK, SAMPLE_RATE};
use crate::params::{self, Params, ParamsError};
use crate::text;
use vstd::prelude::*;
use vstd::string::*;

verus! {

/// Chunks one window covers: a second and a bit of audio.
pub const CHUNKS_PER_WINDOW: usize = 32;

/// Samples one window covers: a whole number of chunks, so that no chunk
/// straddles a call.
pub const WINDOW: u32 = 16_384;

/// The module's name.
pub const NAME: &'static str = "speech";

pub const VERSION: &'static str = "0.1.0";

/// The one sample format the module takes.
pub const SAMPLE_FORMAT: &'static str = "f32";

pub const PARAMS_SCHEMA: &'static str =
    r#"{"type":"object","properties":{"threshold":{"type":"number","minimum":0,"maximum":1,"default":0.5},"min_speech":{"type":"number","minimum":0,"default":0.25},"min_silence":{"type":"number","minimum":0,"default":0.1}},"additionalProperties":false}"#;

pub const ROWS_SCHEMA: &'static str =
    r#"{"type":"object","properties":{"text":{"type":"string"},"start_t":{"type":"number"},"end_t":{"type":"number"}},"required":["text","start_t","end_t"],"additionalProperties":false}"#;

/// What any module tells of itself.
pub struct Meta {
    pub name: String,
    pub version: String,
    pub params_schema: String,
    pub rows_schema: String,
    pub pixel_formats: Vec<String>,
    pub sample_formats: Vec<String>,
    pub sample_rates: Vec<u32>,
    pub channel_counts: Vec<u32>,
    pub rows_language: Vec<String>,
}

/// What a module that works a window at a time tells of itself.
pub struct WindowMeta {
    pub meta: Meta,
    pub window: u32,
    pub stride: u32,
    pub pure: bool,
    pub one_to_one: bool,
    pub reads_rows: bool,
    pub forwards_rows: bool,
    pub inputs: u32,
}

/// What an audio stream's samples are like.
pub struct AudioFormat {
    pub sample_fmt: String,
    pub sample_rate: u32,
    pub channels: u32,
}

/// What a stream carries.
pub enum Format {
    Audio(AudioFormat),
    Video,
}

/// Why a stream was refused.
pub enum InitError {
    /// The stream is not one the module listens to, as the message says.
    Format(String),
    /// The settings were refused.
    Params(ParamsError),
}

/// What the module tells the host of itself.
pub fn describe() -> (r: WindowMeta)
    ensures
        r.meta.name@ == NAME@,
        r.meta.version@ == VERSION@,
        r.meta.params_schema@ == PARAMS_SCHEMA@,
        r.meta.rows_schema@ == ROWS_SCHEMA@,
        r.meta.pixel_formats@.len() == 0,
        r.meta.sample_formats@.len() == 1,
        r.meta.sample_formats@[0]@ == SAMPLE_FORMAT@,
        r.meta.sample_rates@ == seq![SAMPLE_RATE],
        r.meta.channel_counts@ == seq![1u32],
        r.meta.rows_language@.len() == 0,
        r.window == WINDOW,
        r.stride == WINDOW,
        !r.pure,
        r.one_to_one,
        !r.reads_rows,
        !r.forwards_rows,
        r.inputs == 1,
{
    let meta: Meta = Meta {
        name: NAME.to_owned(),
        version: VERSION.to_owned(),
        params_schema: PARAMS_SCHEMA.to_owned(),
        rows_schema: ROWS_SCHEMA.to_owned(),
        // An audio module, so it names no pixel formats.
        pixel_formats: Vec::new(),
        sample_formats: vec![SAMPLE_FORMAT.to_owned()],
        // What the model was trained on, and the host conforms to it.
        sample_rates: vec![SAMPLE_RATE],
        channel_counts: vec![1],
        // The rows say that speech is there, not what language it is in, so
        // there is nothing here to tag a track with.
        rows_language: Vec::new(),
    };
    assert(meta.sample_rates@ =~= seq![SAMPLE_RATE]);
    assert(meta.channel_counts@ =~= seq![1u32]);
    WindowMeta {
        meta,
        window: WINDOW,
        stride: WINDOW,
        // The model's own state and the span being built both carry from one
        // call to the next.
        pure: false,
        // The samples pass through as they arrived.
        one_to_one: true,
        reads_rows: false,
        // What leaves is this module's own spans and nothing else.
        forwards_rows: false,
        // One stream in: the audio it listens to.
        inputs: 1,
    }
}

/// What is said of a stream that is not one to listen to, in the order the
/// questions are asked.
pub open spec fn objection(format: Format) -> Option<Seq<char>> {
    match format {
        Format::Video => Some("speech listens to samples, and this stream is video"@),
        Format::Audio(audio) => if audio.sample_fmt@ != SAMPLE_FORMAT@ {
            Some("speech does not accept sample format "@ + audio.sample_fmt@)
        } else if audio.sample_rate != SAMPLE_RATE {
            Some(
                "speech listens at 16000 Hz, and this instance is "@ + text::decimal(
                    audio.sample_rate as nat,
                ) + " Hz"@,
            )
        } else if audio.channels != 1 {
            Some(
                "speech listens in mono, and this instance has "@ + text::decimal(
                    audio.channels as nat,
                ) + " channels"@,
            )
        } else {
            None
        },
    }
}

/// Whether a stream is one to listen to, and otherwise why not.
pub fn check_format(format: &Format) -> (r: Result<(), String>)
    ensures
        match r {
            Ok(_) => objection(*format) is None,
            Err(message) => objection(*format) == Some(message@),
        },
{
    match format {
        Format::Video => Err("speech listens to samples, and this stream is video".to_owned()),
        Format::Audio(audio) => {
            if audio.sample_fmt != SAMPLE_FORMAT.to_owned() {
                let mut r: String = "speech does not accept sample format ".to_owned();
                r.append(audio.sample_fmt.as_str());
                return Err(r);
            }
            if audio.sample_rate != SAMPLE_RATE {
                return Err(
                    text::join(
                        "speech listens at 16000 Hz, and this instance is ",
                        text::decimal_text(audio.sample_rate as u64).as_str(),
                        " Hz",
                    ),
                );
            }
            if audio.channels != 1 {
                return Err(
                    text::join(
                        "speech listens in mono, and this instance has ",
                        text::decimal_text(audio.channels as u64).as_str(),
                        " channels",
                    ),
                );
            }
            Ok(())
        },
    }
}

/// Settles everything that comes before the graph is loaded: first whether
/// the stream is one to listen to, then the settings.
pub fn init(format: &Format, read: Option<Result<Params, String>>) -> (r: Result<
    Params,
    InitError,
>)
    ensures
        match r {
            Ok(settled) => objection(*format) is None && params::settled(read) == Ok::<
                Params,
                ParamsError,
            >(settled),
            Err(InitError::Format(message)) => objection(*format) == Some(message@),
            Err(InitError::Params(error)) => objection(*format) is None && params::settled(read)
                == Err::<Params, ParamsError>(error),
        },
{
    match check_format(format) {
        Err(message) => Err(InitError::Format(message)),
        Ok(_) => match params::parse_params(read) {
            Err(error) => Err(InitError::Params(error)),
            Ok(settled) => Ok(settled),
        },
    }
}

/// A window is a whole number of chunks, so no chunk straddles a call.
pub proof fn a_window_is_whole_chunks()
    ensures
        WINDOW == CHUNK * CHUNKS_PER_WINDOW,
        WINDOW as int % CHUNK as int == 0,
{
}

/// The streams that are taken are the ones the description names.
pub proof fn takes_what_it_describes(meta: Meta, format: Format)
    requires
        meta.sample_formats@.len() == 1,
        meta.sample_formats@[0]@ == SAMPLE_FORMAT@,
        meta.sample_rates@ == seq![SAMPLE_RATE],
        meta.channel_counts@ == seq![1u32],
    ensures
        objection(format) is None <==> (format matches Format::Audio(audio) && {
            &&& exists|i: int|
                0 <= i < meta.sample_formats@.len() && (#[trigger] meta.sample_formats@[i])@
                    == audio.sample_fmt@
            &&& meta.sample_rates@.contains(audio.sample_rate)
            &&& meta.channel_counts@.contains(audio.channels)
        }),
{
    assert(meta.sample_rates@[0] == SAMPLE_RATE);
    assert(meta.channel_counts@[0] == 1);
}

/// A stream is taken exactly when it is mono audio in 32-bit floats at 16 kHz.
/// The first thing that is not as it should be is the one that is told: what
/// the stream is, its format, its rate, its channels.
pub proof fn only_mono_floats_at_16_khz_are_taken(format: Format)
    ensures
        match format {
            Format::Video => objection(format) == Some(
                "speech listens to samples, and this stream is video"@,
            ),
            Format::Audio(audio) => {
                &&& objection(format) is None <==> audio.sample_fmt@ == "f32"@ && audio.sample_rate
                    == 16_000 && audio.channels == 1
                &&& audio.sample_fmt@ != "f32"@ ==> objection(format) == Some(
                    "speech does not accept sample format "@ + audio.sample_fmt@,
                )
                &&& audio.sample_fmt@ == "f32"@ && audio.sample_rate != 16_000 ==> objection(format)
                    == Some(
                    "speech listens at 16000 Hz, and this instance is "@ + text::decimal(
                        audio.sample_rate as nat,
                    ) + " Hz"@,
                )
                &&& audio.sample_fmt@ == "f32"@ && audio.sample_rate == 16_000 && audio.channels
                    != 1 ==> objection(format) == Some(
                    "speech listens in mono, and this instance has "@ + text::decimal(
                        audio.channels as nat,
                    ) + " channels"@,
                )
            },
        },
{
}

/// What the description is made of.
pub proof fn the_description_in_words()
    ensures
        NAME@ == "speech"@,
        VERSION@ == "0.1.0"@,
        SAMPLE_FORMAT@ == "f32"@,
        WINDOW == 16_384,
        CHUNKS_PER_WINDOW == 32,
        PARAMS_SCHEMA@ == r#"{"type":"object","properties":{"threshold":{"type":"number","minimum":0,"maximum":1,"default":0.5},"min_speech":{"type":"number","minimum":0,"default":0.25},"min_silence":{"type":"number","minimum":0,"default":0.1}},"additionalProperties":false}"#@,
        ROWS_SCHEMA@ == r#"{"type":"object","properties":{"text":{"type":"string"},"start_t":{"type":"number"},"end_t":{"type":"number"}},"required":["text","start_t","end_t"],"additionalProperties":false}"#@,
{
}

} // verus!
