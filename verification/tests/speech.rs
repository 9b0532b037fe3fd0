use std::cell::RefCell;

use vad::binary32::{to_bytes, to_floats, Binary32};
use vad::calls::{self, OpenError, Payload};
use vad::graph::{
    context_failed, failed, load_failed, request, ErrorCode, Failure, Input, Output, TensorType,
    STATE_LEN,
};
use vad::module::{check_format, describe, init, AudioFormat, Format, InitError, WINDOW};
use vad::params::{params_text, parse_params, read_params, read_text, Params, ParamsError};
use vad::session::{open, set_params, Opened, Processed, Row, Window};
use vad::text::{decimal_text, is_white_space, trim};
use vad::{Binary64, Chunk, Span, CHUNK};

fn number(x: f64) -> Binary64 {
    Binary64::from_bits(x.to_bits())
}

fn machine(x: Binary64) -> f64 {
    f64::from_bits(x.to_bits())
}

fn settings(threshold: f64, min_speech: f64, min_silence: f64) -> Params {
    Params {
        threshold: number(threshold),
        min_speech: number(min_speech),
        min_silence: number(min_silence),
    }
}

/// The settings with one of them written out.
fn with_threshold(threshold: f64) -> Option<Result<Params, String>> {
    Some(Ok(Params { threshold: number(threshold), ..Params::default() }))
}

fn floats(values: &[f32]) -> Vec<Binary32> {
    values.iter().map(|v| Binary32::from_bits(v.to_bits())).collect()
}

/// What a graph returns that hears speech this probable and leaves this
/// state.
fn outputs(probability: f32, state: f32) -> Result<Vec<Output>, Failure> {
    Ok(vec![
        Output { name: "stateN".to_string(), data: to_bytes(&floats(&[state; STATE_LEN])) },
        Output { name: "output".to_string(), data: to_bytes(&floats(&[probability])) },
    ])
}

fn audio(sample_fmt: &str, sample_rate: u32, channels: u32) -> Format {
    Format::Audio(AudioFormat { sample_fmt: sample_fmt.to_string(), sample_rate, channels })
}

#[test]
fn no_params_at_all_are_the_defaults() {
    for written in ["", "  "] {
        assert!(params_text(written).is_none());
    }
    // `{}` names no parameter, so all of them keep their defaults.
    assert_eq!(params_text("{}"), Some("{}"));
    for read in [None, Some(Ok(Params::default()))] {
        let parsed = parse_params(read).expect("the defaults");
        assert_eq!(machine(parsed.threshold), 0.5);
        assert_eq!(machine(parsed.min_speech), 0.25);
        assert_eq!(machine(parsed.min_silence), 0.1);
    }
}

#[test]
fn each_parameter_can_be_set_on_its_own() {
    let parsed = parse_params(with_threshold(0.8)).expect("one of them");
    assert_eq!(machine(parsed.threshold), 0.8);
    assert_eq!(machine(parsed.min_speech), 0.25, "the rest keep their defaults");
}

#[test]
fn a_threshold_outside_a_probability_is_refused() {
    assert!(parse_params(with_threshold(1.5)).is_err());
    assert!(parse_params(with_threshold(-0.1)).is_err());
}

#[test]
fn a_negative_duration_is_refused() {
    assert!(parse_params(Some(Ok(settings(0.5, -1.0, 0.1)))).is_err());
    assert!(parse_params(Some(Ok(settings(0.5, 0.25, -0.5)))).is_err());
}

#[test]
fn a_window_is_a_whole_number_of_chunks() {
    // No chunk straddles a call, which is what lets the state advance a
    // window at a time without anything held over.
    assert_eq!(WINDOW as usize % CHUNK, 0);
}

#[test]
fn a_span_becomes_a_row_of_its_own_seconds() {
    let row = Row::from(Span { start_t: number(1.5), end_t: number(2.25) });
    assert_eq!(row.text, "speech");
    assert_eq!(machine(row.start_t), 1.5);
    assert_eq!(machine(row.end_t), 2.25);
}

#[test]
fn a_refusal_says_what_was_refused() {
    let said = |read: Option<Result<Params, String>>| {
        let error = parse_params(read).expect_err("refused");
        let value = error.value().map(|v| machine(v).to_string()).unwrap_or_default();
        error.message(&value)
    };
    assert_eq!(
        said(with_threshold(1.5)),
        "speech: threshold is a probability, and 1.5 is not between 0 and 1"
    );
    assert_eq!(
        said(Some(Ok(settings(0.5, -1.0, -1.0)))),
        "speech: min_speech is seconds, and -1 is negative"
    );
    assert_eq!(
        said(Some(Ok(settings(0.5, 0.25, -0.5)))),
        "speech: min_silence is seconds, and -0.5 is negative"
    );
    assert_eq!(
        said(Some(Err("expected value at line 1 column 1".to_string()))),
        "speech: bad params: expected value at line 1 column 1"
    );
}

#[test]
fn the_edges_of_a_probability_are_probabilities() {
    assert!(parse_params(with_threshold(0.0)).is_ok());
    assert!(parse_params(with_threshold(-0.0)).is_ok());
    assert!(parse_params(with_threshold(1.0)).is_ok());
    assert!(parse_params(Some(Ok(settings(1.0, 0.0, -0.0)))).is_ok());
    assert!(matches!(
        parse_params(with_threshold(f64::NAN)),
        Err(ParamsError::NotAProbability(_))
    ));
}

#[test]
fn white_space_is_what_unicode_says_it_is() {
    for n in 0..=0x10ffff {
        if let Some(c) = char::from_u32(n) {
            assert_eq!(is_white_space(c), c.is_whitespace(), "U+{n:04X}");
        }
    }
}

#[test]
fn settings_are_read_without_the_space_around_them() {
    for written in ["", " ", "\t\n", "a", " a b ", "\u{a0}{}\u{3000}", "  x", "x  ", "\u{2003}\u{feff}"] {
        assert_eq!(trim(written), written.trim(), "{written:?}");
    }
    assert_eq!(params_text(" {\"threshold\":1}\n"), Some("{\"threshold\":1}"));
}

#[test]
fn numbers_are_written_in_decimal() {
    for n in [0, 7, 10, 255, 256, 48_000, u64::MAX] {
        assert_eq!(decimal_text(n), n.to_string());
    }
}

#[test]
fn the_module_describes_itself() {
    let told = describe();
    assert_eq!(told.meta.name, "speech");
    assert_eq!(told.meta.version, "0.1.0");
    assert_eq!(told.meta.sample_formats, vec!["f32".to_string()]);
    assert_eq!(told.meta.sample_rates, vec![16_000]);
    assert_eq!(told.meta.channel_counts, vec![1]);
    assert!(told.meta.pixel_formats.is_empty());
    assert!(told.meta.rows_language.is_empty());
    assert!(told.meta.params_schema.contains("\"min_silence\":{\"type\":\"number\",\"minimum\":0,\"default\":0.1}"));
    assert!(told.meta.rows_schema.ends_with("\"required\":[\"text\",\"start_t\",\"end_t\"],\"additionalProperties\":false}"));
    assert_eq!((told.window, told.stride, told.inputs), (16_384, 16_384, 1));
    assert!(!told.pure && told.one_to_one && !told.reads_rows && !told.forwards_rows);
}

#[test]
fn only_the_described_stream_is_taken() {
    let refused = |format: Format| check_format(&format).expect_err("refused");
    assert!(check_format(&audio("f32", 16_000, 1)).is_ok());
    assert_eq!(refused(Format::Video), "speech listens to samples, and this stream is video");
    assert_eq!(refused(audio("s16", 8_000, 2)), "speech does not accept sample format s16");
    assert_eq!(
        refused(audio("f32", 48_000, 2)),
        "speech listens at 16000 Hz, and this instance is 48000 Hz"
    );
    assert_eq!(
        refused(audio("f32", 16_000, 2)),
        "speech listens in mono, and this instance has 2 channels"
    );
}

#[test]
fn the_stream_is_questioned_before_the_settings() {
    assert!(matches!(init(&Format::Video, with_threshold(9.0)), Err(InitError::Format(_))));
    assert!(matches!(
        init(&audio("f32", 16_000, 1), with_threshold(9.0)),
        Err(InitError::Params(ParamsError::NotAProbability(_)))
    ));
    let settled = init(&audio("f32", 16_000, 1), with_threshold(0.75)).unwrap_or_else(|_| panic!("taken"));
    assert_eq!(machine(settled.threshold), 0.75);
}

#[test]
fn a_failure_is_spelled_out() {
    let spelled = [
        (ErrorCode::InvalidArgument, "invalid-argument"),
        (ErrorCode::InvalidEncoding, "invalid-encoding"),
        (ErrorCode::Timeout, "timeout"),
        (ErrorCode::RuntimeError, "runtime-error"),
        (ErrorCode::UnsupportedOperation, "unsupported-operation"),
        (ErrorCode::TooLarge, "too-large"),
        (ErrorCode::NotFound, "not-found"),
        (ErrorCode::Security, "security"),
        (ErrorCode::Unknown, "unknown"),
    ];
    for (code, word) in spelled {
        let error = Failure { code, data: "no such graph".to_string() };
        assert_eq!(
            failed("load-by-name(\"speech\")", &error),
            format!("speech: load-by-name(\"speech\"): {word} (no such graph)")
        );
    }
}

#[test]
fn the_graph_is_asked_for_three_tensors() {
    let (state, samples) = (floats(&[0.25; STATE_LEN]), floats(&[-1.0; CHUNK]));
    let asked = request(&state, &samples);
    assert_eq!(asked.len(), 3);
    assert_eq!((asked[0].name, asked[1].name, asked[2].name), ("input", "state", "sr"));
    assert_eq!(asked[0].dimensions, vec![1, 512]);
    assert_eq!(asked[1].dimensions, vec![2, 1, 128]);
    assert!(asked[2].dimensions.is_empty());
    assert_eq!((asked[0].kind, asked[2].kind), (TensorType::Fp32, TensorType::I64));
    assert_eq!(to_floats(&asked[0].data), samples);
    assert_eq!(to_floats(&asked[1].data), state);
    assert_eq!(asked[2].data, 16_000i64.to_le_bytes().to_vec());
}

#[test]
fn an_answer_moves_the_state_on() {
    let mut state = floats(&[0.0; STATE_LEN]);
    let found = vad::graph::probability(&mut state, outputs(0.1, 3.5)).expect("an answer");
    assert_eq!(machine(found), f64::from(0.1f32));
    assert_eq!(state, floats(&[3.5; STATE_LEN]));
}

#[test]
fn an_answer_that_makes_no_sense_is_refused() {
    let named = |name: &str, values: &[f32]| Output {
        name: name.to_string(),
        data: to_bytes(&floats(values)),
    };
    let blank = floats(&[0.0; STATE_LEN]);
    let mut refused = |computed: Result<Vec<Output>, Failure>| {
        let mut state = blank.clone();
        let message = vad::graph::probability(&mut state, computed).expect_err("refused");
        (message, state == blank)
    };
    assert_eq!(
        refused(Err(Failure { code: ErrorCode::Timeout, data: "late".to_string() })),
        ("speech: compute: timeout (late)".to_string(), true)
    );
    assert_eq!(
        refused(Ok(vec![named("output", &[0.5])])),
        ("speech: the graph returned no tensor named stateN".to_string(), true)
    );
    assert_eq!(
        refused(Ok(vec![named("stateN", &[1.0; 12]), named("output", &[0.5])])),
        ("speech: the graph returned 12 state value(s), expected 256".to_string(), true)
    );
    // From here on the state was good, and has moved on.
    assert_eq!(
        refused(Ok(vec![named("stateN", &[1.0; STATE_LEN])])),
        ("speech: the graph returned no tensor named output".to_string(), false)
    );
    assert_eq!(
        refused(Ok(vec![named("output", &[]), named("stateN", &[1.0; STATE_LEN])])),
        ("speech: the graph returned no probability".to_string(), false)
    );
}

#[test]
fn the_first_tensor_of_a_name_is_the_one() {
    let mut state = floats(&[0.0; STATE_LEN]);
    let mut computed = outputs(0.75, 1.0).unwrap_or_else(|_| panic!("outputs"));
    computed.extend(outputs(0.25, 2.0).unwrap_or_else(|_| panic!("outputs")));
    let found = vad::graph::probability(&mut state, Ok(computed)).expect("an answer");
    assert_eq!(machine(found), 0.75);
    assert_eq!(state, floats(&[1.0; STATE_LEN]));
}

/// Payloads of whole chunks, one after another, each chunk as likely to be
/// speech as listed.
fn listen(opened: &mut Opened, payloads: &[(i64, Vec<f32>)], last: bool) -> Processed {
    let mut window = Window::new();
    for (pts, probabilities) in payloads {
        let bytes = to_bytes(&floats(&vec![0.0; CHUNK * probabilities.len()]));
        let chunks: Vec<Chunk> = opened.payload(&mut window, *pts, &bytes);
        assert_eq!(chunks.len(), probabilities.len());
        for (chunk, p) in chunks.iter().zip(probabilities) {
            opened.answer(&mut window, chunk, outputs(*p, *p)).expect("an answer");
        }
    }
    opened.close(window, last)
}

#[test]
fn payloads_pass_and_spans_ride_them() {
    let mut opened = Opened::new((1, 16_000), &Params::default());
    let loud = vec![0.9; 16];
    let quiet = vec![0.1; 16];
    let out = listen(
        &mut opened,
        &[(16_000, loud.clone()), (24_192, quiet), (32_384, loud)],
        true,
    );
    let pts: Vec<i64> = out.frames.iter().map(|frame| frame.pts).collect();
    assert_eq!(pts, vec![16_000, 24_192, 32_384]);
    let rows: Vec<usize> = out.frames.iter().map(|frame| frame.rows.len()).collect();
    assert_eq!(rows, vec![0, 1, 1], "the first closes in the quiet, the second at the end");
    let first = out.frames[1].rows[0];
    assert_eq!(first.text, "speech");
    assert_eq!(machine(first.start_t), 1.0);
    assert!((machine(first.end_t) - 1.512).abs() < 1e-12);
    let second = out.frames[2].rows[0];
    assert_eq!(machine(second.start_t), 32_384.0 / 16_000.0);
    assert!(out.trailing.is_empty());
}

#[test]
fn a_span_with_no_payload_to_ride_trails_the_stream() {
    let mut opened = Opened::new((1, 16_000), &Params::default());
    let out = listen(&mut opened, &[(0, vec![0.9; 32])], false);
    assert!(out.frames[0].rows.is_empty());
    let out = listen(&mut opened, &[], true);
    assert!(out.frames.is_empty());
    assert_eq!(out.trailing.len(), 1);
    assert_eq!(machine(out.trailing[0].start_t), 0.0);
    let out = listen(&mut opened, &[], true);
    assert!(out.trailing.is_empty(), "a stream ends once");
}

#[test]
fn a_payloads_own_timestamp_sets_the_clock_unless_samples_are_held_back() {
    let mut opened = Opened::new((1, 1_000), &Params::default());
    let mut window = Window::new();
    let piece = to_bytes(&floats(&[0.0; 500]));
    assert!(opened.payload(&mut window, 2_000, &piece).is_empty());
    // The next payload finishes that chunk, which started with the first.
    let chunks = opened.payload(&mut window, 9_000, &piece);
    assert_eq!(chunks.len(), 1);
    assert_eq!(machine(chunks[0].at), 2.0);
    let rest = to_bytes(&floats(&[0.0; 24]));
    assert_eq!(opened.payload(&mut window, 9_500, &rest).len(), 1);
    // Nothing is held back any more, so the stamp is believed again.
    let chunks = opened.payload(&mut window, 10_000, &to_bytes(&floats(&[0.0; CHUNK])));
    assert_eq!(machine(chunks[0].at), 10.0);
}

#[test]
fn the_state_starts_blank_and_carries_on() {
    let mut opened = Opened::new((1, 16_000), &Params::default());
    let mut window = Window::new();
    let chunks = opened.payload(&mut window, 0, &to_bytes(&floats(&[0.5; CHUNK])));
    assert_eq!(to_floats(&opened.request(&chunks[0])[1].data), floats(&[0.0; STATE_LEN]));
    assert_eq!(to_floats(&opened.request(&chunks[0])[0].data), floats(&[0.5; CHUNK]));
    opened.answer(&mut window, &chunks[0], outputs(0.2, 7.0)).expect("an answer");
    assert_eq!(to_floats(&opened.request(&chunks[0])[1].data), floats(&[7.0; STATE_LEN]));
    assert!(opened
        .answer(&mut window, &chunks[0], Ok(Vec::new()))
        .is_err());
}

#[test]
fn good_settings_reach_the_open_stream_and_bad_ones_do_not() {
    let mut opened = Some(Opened::new((1, 16_000), &Params::default()));
    if let Some(stream) = opened.as_mut() {
        listen(stream, &[(0, vec![0.6; 32])], false);
    }
    assert!(set_params(&mut opened, with_threshold(2.0)).is_err());
    // Everything is too short to keep from now on.
    assert!(set_params(&mut opened, Some(Ok(settings(0.5, 100.0, 0.1)))).is_ok());
    let stream = opened.as_mut().expect("still open");
    let out = listen(stream, &[(16_384, vec![0.1; 32])], true);
    assert!(out.frames[0].rows.is_empty());

    let mut closed: Option<Opened> = None;
    assert!(set_params(&mut closed, None).is_ok());
    assert!(closed.is_none());
}

/// A payload of whole chunks, each chunk filled with one of these values.
fn payload(pts: i64, fills: &[f32]) -> Payload {
    let samples: Vec<f32> = fills.iter().flat_map(|fill| [*fill; CHUNK]).collect();
    Payload { pts, bytes: to_bytes(&floats(&samples)) }
}

/// One call with these payloads.
fn run_call(
    opened: &mut Opened,
    payloads: &[Payload],
    compute: impl Fn(Vec<Input>) -> Result<Vec<Output>, Failure>,
    last: bool,
) -> Result<Processed, String> {
    let fetch = |index: u32| {
        let payload = &payloads[index as usize];
        Payload { pts: payload.pts, bytes: payload.bytes.clone() }
    };
    opened.process(payloads.len() as u32, fetch, compute, last)
}

/// The state that goes with the next chunk of a stream.
fn next_state(opened: &Opened) -> Vec<Binary32> {
    let chunk = Chunk { samples: floats(&[0.0; CHUNK]), at: number(0.0) };
    to_floats(&opened.request(&chunk)[1].data)
}

#[test]
fn the_graph_is_asked_about_every_chunk_in_order_across_calls() {
    let mut opened = Some(Opened::new((1, 16_000), &Params::default()));
    // What was asked: the chunk's first sample, and the state's first value.
    let asked: RefCell<Vec<(f32, f32)>> = RefCell::new(Vec::new());
    let first = |data: &[u8]| f32::from_bits(to_floats(data)[0].to_bits());
    let compute = |inputs: Vec<Input>| {
        let (fill, state) = (first(&inputs[0].data), first(&inputs[1].data));
        asked.borrow_mut().push((fill, state));
        outputs(0.1, fill + 100.0)
    };
    let stream = opened.as_mut().expect("open");
    let arriving = [payload(0, &[1.0, 2.0]), payload(1024, &[3.0])];
    let out = run_call(stream, &arriving, compute, false).expect("answers");
    assert_eq!(out.frames.len(), 2);
    assert!(set_params(&mut opened, with_threshold(0.9)).is_ok());
    let stream = opened.as_mut().expect("open");
    // Half a chunk is not asked about until the rest of it has come.
    let mut half = payload(1536, &[4.0]);
    half.bytes.truncate(CHUNK * 2);
    run_call(stream, &[half], compute, false).expect("nothing to ask");
    let mut rest = payload(1792, &[4.0, 5.0]);
    rest.bytes.drain(..CHUNK * 2);
    run_call(stream, &[rest], compute, true).expect("answers");
    assert_eq!(
        *asked.borrow(),
        vec![(1.0, 0.0), (2.0, 101.0), (3.0, 102.0), (4.0, 103.0), (5.0, 104.0)]
    );
}

#[test]
fn a_call_passes_its_payloads_and_closes_the_stream() {
    let mut opened = Opened::new((1, 16_000), &Params::default());
    let hears = |inputs: Vec<Input>| {
        let fill = f32::from_bits(to_floats(&inputs[0].data)[0].to_bits());
        outputs(fill, 0.0)
    };
    let arriving = [payload(16_000, &[0.9; 16]), payload(24_192, &[0.1; 16])];
    let out = run_call(&mut opened, &arriving, hears, false).expect("answers");
    let rows: Vec<(i64, usize)> =
        out.frames.iter().map(|frame| (frame.pts, frame.rows.len())).collect();
    assert_eq!(rows, vec![(16_000, 0), (24_192, 1)]);
    assert_eq!(machine(out.frames[1].rows[0].start_t), 1.0);
    run_call(&mut opened, &[payload(32_384, &[0.9; 16])], hears, false).expect("answers");
    let out = run_call(&mut opened, &[], hears, true).expect("nothing to ask");
    assert!(out.frames.is_empty());
    assert_eq!(out.trailing.len(), 1);
    assert_eq!(machine(out.trailing[0].start_t), 32_384.0 / 16_000.0);
}

#[test]
fn a_graph_that_fails_ends_the_call() {
    let mut opened = Opened::new((1, 16_000), &Params::default());
    let asked: RefCell<usize> = RefCell::new(0);
    let fails_third = |_: Vec<Input>| {
        *asked.borrow_mut() += 1;
        if *asked.borrow() < 3 {
            outputs(0.9, *asked.borrow() as f32)
        } else {
            Err(Failure { code: ErrorCode::Timeout, data: "late".to_string() })
        }
    };
    let fetched: RefCell<Vec<u32>> = RefCell::new(Vec::new());
    let fetch = |index: u32| {
        fetched.borrow_mut().push(index);
        payload(i64::from(index) * 1024, &[0.0; 2])
    };
    let message = opened.process(4, fetch, fails_third, true).err().expect("refused");
    assert_eq!(*fetched.borrow(), vec![0, 1], "nothing is fetched before its turn");
    assert_eq!(message, "speech: compute: timeout (late)");
    assert_eq!(*asked.borrow(), 3, "nothing is asked after a failure");
    assert_eq!(next_state(&opened), floats(&[2.0; STATE_LEN]));
}

#[test]
fn a_well_formed_state_is_kept_even_when_the_answer_is_refused() {
    let mut opened = Opened::new((1, 16_000), &Params::default());
    let silent = |_: Vec<Input>| {
        Ok(vec![Output { name: "stateN".to_string(), data: to_bytes(&floats(&[5.0; STATE_LEN])) }])
    };
    assert!(run_call(&mut opened, &[payload(0, &[0.0])], silent, false).is_err());
    assert_eq!(next_state(&opened), floats(&[5.0; STATE_LEN]));
    let short = |_: Vec<Input>| {
        Ok(vec![Output { name: "stateN".to_string(), data: to_bytes(&floats(&[6.0; 3])) }])
    };
    assert!(run_call(&mut opened, &[payload(512, &[0.0])], short, false).is_err());
    assert_eq!(next_state(&opened), floats(&[5.0; STATE_LEN]));
}

#[test]
fn closing_and_retuning_leave_the_state_alone() {
    let mut opened = Opened::new((1, 16_000), &Params::default());
    listen(&mut opened, &[(0, vec![0.75])], false);
    opened.retune(&settings(0.9, 0.0, 0.0));
    assert_eq!(next_state(&opened), floats(&[0.75; STATE_LEN]));
    listen(&mut opened, &[], true);
    assert_eq!(next_state(&opened), floats(&[0.75; STATE_LEN]));
}

#[test]
fn opening_again_leaves_nothing_of_the_stream_before() {
    let mut opened = None;
    open(&mut opened, (1, 16_000), &Params::default());
    let stream = opened.as_mut().expect("open");
    // A span open, a state returned and half a chunk held back.
    listen(stream, &[(16_000, vec![0.9; 32])], false);
    stream.payload(&mut Window::new(), 0, &to_bytes(&floats(&[0.0; 256])));
    open(&mut opened, (1, 1_000), &settings(0.5, 0.0, 0.1));
    let stream = opened.as_mut().expect("open");
    assert_eq!(next_state(stream), floats(&[0.0; STATE_LEN]));
    assert!(listen(stream, &[], true).trailing.is_empty());
    let chunks = stream.payload(&mut Window::new(), 3_000, &to_bytes(&floats(&[0.0; CHUNK])));
    assert_eq!(chunks.len(), 1);
    assert_eq!(machine(chunks[0].at), 3.0);
}

#[test]
fn a_second_init_replaces_the_stream_or_leaves_it_as_it_is() {
    let mut opened: Option<Opened> = None;
    let good = audio("f32", 16_000, 1);
    let asked: RefCell<Vec<&str>> = RefCell::new(Vec::new());
    let load = |name: &'static str| {
        asked.borrow_mut().push(name);
        Ok(7)
    };
    let prepare = |graph: &i32| Ok(graph + 1);
    let loaded = calls::init(&mut opened, &good, (1, 16_000), None, load, prepare);
    assert_eq!(loaded.ok(), Some((7, 8)));
    assert_eq!(*asked.borrow(), vec!["speech"]);
    listen(opened.as_mut().expect("open"), &[(16_000, vec![0.9; 32])], false);

    // Refused for its format, its settings and its graph in turn. The graph is
    // asked for only once the others are good.
    let bad = audio("s16", 16_000, 1);
    let error = calls::init(&mut opened, &bad, (1, 1_000), with_threshold(2.0), load, prepare)
        .expect_err("refused for its format");
    assert!(matches!(error, OpenError::Refused(InitError::Format(_))));
    assert_eq!(error.message(""), "speech does not accept sample format s16");
    assert!(error.value().is_none());
    let error = calls::init(&mut opened, &good, (1, 1_000), with_threshold(2.0), load, prepare)
        .expect_err("refused for its settings");
    assert!(matches!(error, OpenError::Refused(InitError::Params(_))));
    assert_eq!(error.value().map(machine), Some(2.0));
    assert_eq!(
        error.message("2"),
        "speech: threshold is a probability, and 2 is not between 0 and 1"
    );
    assert_eq!(asked.borrow().len(), 1);
    let missing = |_: &'static str| {
        Err::<i32, Failure>(Failure { code: ErrorCode::NotFound, data: "none".to_string() })
    };
    let error = calls::init(&mut opened, &good, (1, 1_000), None, missing, prepare)
        .expect_err("refused for its graph");
    assert!(matches!(error, OpenError::Load(_)));
    assert_eq!(error.message(""), "speech: load-by-name(\"speech\"): not-found (none)");
    let stuck = |_: &i32| {
        Err::<i32, Failure>(Failure { code: ErrorCode::TooLarge, data: "big".to_string() })
    };
    let error = calls::init(&mut opened, &good, (1, 1_000), None, load, stuck)
        .expect_err("refused for its session");
    assert!(matches!(error, OpenError::Context(_)));
    assert_eq!(error.message(""), "speech: init-execution-context: too-large (big)");
    let stream = opened.as_mut().expect("still open");
    assert_eq!(next_state(stream), floats(&[0.9; STATE_LEN]));
    let out = listen(stream, &[], true);
    assert_eq!(machine(out.trailing[0].start_t), 1.0);

    assert!(calls::init(&mut opened, &good, (1, 1_000), None, load, prepare).is_ok());
    let stream = opened.as_mut().expect("open");
    assert_eq!(next_state(stream), floats(&[0.0; STATE_LEN]));
    assert!(listen(stream, &[], true).trailing.is_empty());
}

#[test]
fn the_rows_do_not_depend_on_how_a_stream_is_cut_into_calls() {
    let fills: Vec<f32> = (0..96).map(|i| if i % 24 < 14 { 0.8 } else { 0.2 }).collect();
    let hears = |inputs: Vec<Input>| {
        let fill = f32::from_bits(to_floats(&inputs[0].data)[0].to_bits());
        outputs(fill, 0.0)
    };
    let rows = |per_call: usize| -> Vec<(u64, u64)> {
        let mut opened = Opened::new((1, 16_000), &Params::default());
        let mut all: Vec<Row> = Vec::new();
        let payloads: Vec<(usize, &[f32])> = fills.chunks(8).enumerate().collect();
        let calls: Vec<&[(usize, &[f32])]> = payloads.chunks(per_call).collect();
        for (index, call) in calls.iter().enumerate() {
            let arriving: Vec<Payload> =
                call.iter().map(|(i, fills)| payload((i * 8 * CHUNK) as i64, fills)).collect();
            let last = index + 1 == calls.len();
            let out = run_call(&mut opened, &arriving, hears, last).expect("answers");
            assert_eq!(out.frames.len(), arriving.len());
            all.extend(out.frames.iter().flat_map(|frame| frame.rows.iter().copied()));
            all.extend(out.trailing);
        }
        all.iter().map(|row| (row.start_t.to_bits(), row.end_t.to_bits())).collect()
    };
    let whole = rows(12);
    assert_eq!(whole.len(), 4);
    assert_eq!(f64::from_bits(whole[1].0), 24.0 * CHUNK as f64 / 16_000.0);
    for per_call in [1, 2, 5] {
        assert_eq!(rows(per_call), whole);
    }
}

#[test]
fn a_graph_that_cannot_be_had_is_spelled_out() {
    let error = Failure { code: ErrorCode::NotFound, data: "no graph".to_string() };
    let what = format!("load-by-name({:?})", vad::graph::MODEL);
    assert_eq!(load_failed(&error), failed(&what, &error));
    assert_eq!(load_failed(&error), "speech: load-by-name(\"speech\"): not-found (no graph)");
    assert_eq!(context_failed(&error), "speech: init-execution-context: not-found (no graph)");
}

#[test]
fn blank_text_is_never_read_and_other_text_is_read_trimmed() {
    let seen: RefCell<Vec<String>> = RefCell::new(Vec::new());
    let read = |written: &str| {
        seen.borrow_mut().push(written.to_string());
        if written == "loud" {
            Ok(settings(0.75, 0.5, 0.25))
        } else {
            Err("what is this".to_string())
        }
    };
    for blank in ["", "  ", "\u{3000}\n\t"] {
        assert!(read_text(blank, read).is_none());
        let parsed = read_params(blank, read).expect("the defaults");
        assert_eq!(machine(parsed.threshold), 0.5);
    }
    assert!(seen.borrow().is_empty());
    let parsed = read_params(" loud\n", read).expect("settings");
    assert_eq!(machine(parsed.threshold), 0.75);
    assert_eq!(machine(parsed.min_silence), 0.25);
    assert!(matches!(read_text("\tquiet ", read), Some(Err(_))));
    let error = read_params("quiet", read).expect_err("unreadable");
    assert_eq!(error.message(""), "speech: bad params: what is this");
    assert_eq!(*seen.borrow(), vec!["loud", "quiet", "quiet"]);
    assert!(read_params("x", |_: &str| Ok(settings(1.5, 0.0, 0.0))).is_err());
}

#[test]
fn an_open_span_runs_on_under_other_settings() {
    let mut opened = Some(Opened::new((1, 16_000), &Params::default()));
    let hears = |inputs: Vec<Input>| {
        let fill = f32::from_bits(to_floats(&inputs[0].data)[0].to_bits());
        outputs(fill, 0.0)
    };
    let stream = opened.as_mut().expect("open");
    // Too short to keep so far, and open when the settings change.
    let out = run_call(stream, &[payload(0, &[0.6; 4])], hears, false).expect("answers");
    assert!(out.frames[0].rows.is_empty());
    assert!(set_params(&mut opened, Some(Ok(settings(0.9, 0.1, 0.2)))).is_ok());
    let stream = opened.as_mut().expect("open");
    // What was speech before is quiet now, and closes the span.
    let out = run_call(stream, &[payload(2048, &[0.6; 8])], hears, false).expect("answers");
    assert_eq!(out.frames[0].rows.len(), 1, "long enough under the shorter minimum");
    assert_eq!(machine(out.frames[0].rows[0].start_t), 0.0);
    assert_eq!(machine(out.frames[0].rows[0].end_t), 0.096 + 0.032);
    let out = run_call(stream, &[payload(6144, &[0.95; 8])], hears, true).expect("answers");
    assert_eq!(out.frames[0].rows.len(), 1);
    assert_eq!(machine(out.frames[0].rows[0].start_t), 6144.0 / 16_000.0);
}
