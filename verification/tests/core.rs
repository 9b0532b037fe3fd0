use vad::{chunk_seconds, seconds, Binary64, Chunker, Span, Spans, CHUNK, SAMPLE_RATE};

fn number(x: f64) -> Binary64 {
    Binary64::from_bits(x.to_bits())
}

fn machine(x: Binary64) -> f64 {
    f64::from_bits(x.to_bits())
}

/// The length of one chunk, in seconds.
fn length() -> f64 {
    machine(chunk_seconds())
}

/// The bytes a host hands over for these samples.
fn bytes(samples: &[f32]) -> Vec<u8> {
    samples.iter().flat_map(|s| s.to_le_bytes()).collect()
}

/// A tone at `hz`, which is what a burst of speech stands in for here:
/// the chunker never looks at the values, only counts them.
fn tone(count: usize, hz: f64) -> Vec<f32> {
    (0..count)
        .map(|i| (std::f64::consts::TAU * hz * i as f64 / f64::from(SAMPLE_RATE)).sin() as f32)
        .collect()
}

/// Every chunk the feeds produce, as (first sample, start second).
fn chunks_of(chunker: &mut Chunker, feeds: &[Vec<f32>]) -> Vec<(f32, f64)> {
    let mut seen = Vec::new();
    for feed in feeds {
        for chunk in chunker.feed(&bytes(feed)) {
            seen.push((f32::from_bits(chunk.samples[0].to_bits()), machine(chunk.at)));
        }
    }
    seen
}

fn settings(threshold: f64, min_speech: f64, min_silence: f64) -> Spans {
    Spans::new(number(threshold), number(min_speech), number(min_silence))
}

/// A span in the machine's own numbers.
struct Found {
    start_t: f64,
    end_t: f64,
    duration: f64,
}

fn found(span: Span) -> Found {
    Found {
        start_t: machine(span.start_t),
        end_t: machine(span.end_t),
        duration: machine(span.duration()),
    }
}

/// Chunk probabilities pushed in order from second zero, and the spans
/// that came out including whatever the end of the stream closed.
fn spans_of(spans: &mut Spans, probabilities: &[f64]) -> Vec<Found> {
    let mut all: Vec<Found> = Vec::new();
    for (index, p) in probabilities.iter().enumerate() {
        if let Some(span) = spans.push(number(*p), number(index as f64 * length())) {
            all.push(found(span));
        }
    }
    all.extend(spans.finish().map(found));
    all
}

/// `count` chunks at `probability`.
fn run(count: usize, probability: f64) -> Vec<f64> {
    vec![probability; count]
}

#[test]
fn a_timestamp_becomes_seconds_in_the_streams_own_unit() {
    assert_eq!(machine(seconds(16_000, 1, 16_000)), 1.0);
    assert_eq!(machine(seconds(48_000, 1, 48_000)), 1.0);
    assert_eq!(machine(seconds(0, 1, 16_000)), 0.0);
    // A frame rate's unit, which an audio instance may still be counted
    // in when the container says so.
    assert!((machine(seconds(30, 1, 25)) - 1.2).abs() < 1e-12);
}

#[test]
fn samples_are_handed_on_a_whole_chunk_at_a_time() {
    let mut chunker = Chunker::new();
    let seen = chunks_of(&mut chunker, &[tone(CHUNK * 3, 440.0)]);
    assert_eq!(seen.len(), 3);
    for (index, (_, at)) in seen.iter().enumerate() {
        assert!(
            (at - index as f64 * length()).abs() < 1e-12,
            "chunk {index} starts at {at}"
        );
    }
}

#[test]
fn a_remainder_waits_for_the_samples_that_finish_it() {
    let mut chunker = Chunker::new();
    assert_eq!(
        chunks_of(&mut chunker, &[tone(CHUNK + 100, 440.0)]).len(),
        1
    );
    assert!(!chunker.aligned(), "100 samples are held back");

    // The next feed brings the 412 that finish the chunk they started.
    let seen = chunks_of(&mut chunker, &[tone(CHUNK - 100, 440.0)]);
    assert_eq!(seen.len(), 1);
    assert!(
        (seen[0].1 - length()).abs() < 1e-12,
        "and it starts where the first one ended"
    );
    assert!(chunker.aligned());
}

#[test]
fn a_chunk_carries_the_samples_that_went_in() {
    // Each chunk's first sample marks which one it is.
    let mut samples = tone(CHUNK * 2, 440.0);
    samples[0] = -1.0;
    samples[CHUNK] = -2.0;
    let mut chunker = Chunker::new();
    let seen = chunks_of(&mut chunker, &[samples]);
    assert_eq!(seen[0].0, -1.0);
    assert_eq!(seen[1].0, -2.0);
}

#[test]
fn the_clock_starts_where_the_stream_is_seeked_to() {
    let mut chunker = Chunker::new();
    chunker.seek(number(12.5));
    let seen = chunks_of(&mut chunker, &[tone(CHUNK * 2, 440.0)]);
    assert!((seen[0].1 - 12.5).abs() < 1e-12);
    assert!((seen[1].1 - (12.5 + length())).abs() < 1e-12);
    assert!((machine(chunker.end()) - (12.5 + 2.0 * length())).abs() < 1e-12);
}

#[test]
fn the_end_counts_the_samples_still_held_back() {
    let mut chunker = Chunker::new();
    chunks_of(&mut chunker, &[tone(CHUNK + 160, 440.0)]);
    // A chunk handed on plus 160 samples, which is 10 ms at 16 kHz.
    assert!((machine(chunker.end()) - (length() + 0.01)).abs() < 1e-12);
}

#[test]
fn an_hours_worth_of_chunks_is_still_timed_exactly() {
    // Adding a chunk's length up per chunk would drift; counting samples
    // does not. 112500 chunks is an hour.
    let mut chunker = Chunker::new();
    let mut last = 0.0;
    let quiet = bytes(&vec![0.0; CHUNK]);
    for _ in 0..112_500 {
        for chunk in chunker.feed(&quiet) {
            last = machine(chunk.at);
        }
    }
    let expected = (112_499 * CHUNK) as f64 / f64::from(SAMPLE_RATE);
    assert!(
        (last - expected).abs() < 1e-9,
        "the last chunk is at {last}"
    );
}

#[test]
fn a_run_of_speech_becomes_one_span_at_its_own_times() {
    let mut spans = settings(0.5, 0.25, 0.1);
    // Ten quiet chunks, twenty loud, ten quiet.
    let found = spans_of(
        &mut spans,
        &[run(10, 0.1), run(20, 0.9), run(10, 0.1)].concat(),
    );
    assert_eq!(found.len(), 1);
    assert!((found[0].start_t - 10.0 * length()).abs() < 1e-12);
    assert!((found[0].end_t - 30.0 * length()).abs() < 1e-12);
}

#[test]
fn a_chunk_at_the_threshold_counts_as_speech() {
    let mut spans = settings(0.5, 0.0, 0.1);
    let found = spans_of(&mut spans, &[run(10, 0.5), run(10, 0.0)].concat());
    assert_eq!(found.len(), 1, "0.5 is not below 0.5");

    let mut spans = settings(0.5, 0.0, 0.1);
    let found = spans_of(&mut spans, &[run(10, 0.499), run(10, 0.0)].concat());
    assert!(found.is_empty(), "and 0.499 is");
}

#[test]
fn a_gap_shorter_than_the_minimum_silence_does_not_split_a_span() {
    // 0.1 s of silence closes a span, and two chunks is 64 ms.
    let mut spans = settings(0.5, 0.25, 0.1);
    let found = spans_of(
        &mut spans,
        &[run(20, 0.9), run(2, 0.1), run(20, 0.9), run(10, 0.1)].concat(),
    );
    assert_eq!(found.len(), 1, "the sentence stayed whole");
    assert!((found[0].start_t - 0.0).abs() < 1e-12);
    assert!((found[0].end_t - 42.0 * length()).abs() < 1e-12);
}

#[test]
fn a_gap_at_the_minimum_silence_does_split_it() {
    // Four chunks is 128 ms, which is past 0.1 s.
    let mut spans = settings(0.5, 0.25, 0.1);
    let found = spans_of(
        &mut spans,
        &[run(20, 0.9), run(4, 0.1), run(20, 0.9), run(10, 0.1)].concat(),
    );
    assert_eq!(found.len(), 2);
    assert!(
        (found[0].end_t - 20.0 * length()).abs() < 1e-12,
        "the first span ends at its last voiced chunk, not where the \
         silence was counted out"
    );
    assert!((found[1].start_t - 24.0 * length()).abs() < 1e-12);
}

#[test]
fn a_burst_shorter_than_the_minimum_speech_is_dropped() {
    // 0.25 s is just under eight chunks, so four is a burst.
    let mut spans = settings(0.5, 0.25, 0.1);
    let found = spans_of(
        &mut spans,
        &[run(4, 0.9), run(10, 0.1), run(20, 0.9), run(10, 0.1)].concat(),
    );
    assert_eq!(found.len(), 1, "only the sentence survived");
    assert!((found[0].start_t - 14.0 * length()).abs() < 1e-12);
}

#[test]
fn a_burst_the_gaps_add_up_to_survives() {
    // Four voiced chunks, a short gap, four more: neither run is long
    // enough alone, and the span they make is.
    let mut spans = settings(0.5, 0.25, 0.1);
    let found = spans_of(
        &mut spans,
        &[run(4, 0.9), run(2, 0.1), run(4, 0.9), run(10, 0.1)].concat(),
    );
    assert_eq!(found.len(), 1);
    assert!((found[0].duration - 10.0 * length()).abs() < 1e-12);
}

#[test]
fn speech_running_to_the_end_of_the_stream_still_closes() {
    let mut spans = settings(0.5, 0.25, 0.1);
    let found = spans_of(&mut spans, &[run(10, 0.1), run(20, 0.9)].concat());
    assert_eq!(found.len(), 1);
    assert!(
        (found[0].end_t - 30.0 * length()).abs() < 1e-12,
        "closed at its last voiced chunk"
    );
}

#[test]
fn a_burst_at_the_end_of_the_stream_is_dropped_like_any_other() {
    let mut spans = settings(0.5, 0.25, 0.1);
    assert!(spans_of(&mut spans, &[run(10, 0.1), run(3, 0.9)].concat()).is_empty());
}

#[test]
fn silence_alone_produces_nothing() {
    let mut spans = settings(0.5, 0.25, 0.1);
    assert!(spans_of(&mut spans, &run(100, 0.02)).is_empty());
}

#[test]
fn the_spans_of_a_stream_never_overlap_and_stay_in_order() {
    let mut spans = settings(0.5, 0.25, 0.1);
    let found = spans_of(
        &mut spans,
        &[
            run(20, 0.9),
            run(10, 0.1),
            run(20, 0.8),
            run(10, 0.0),
            run(20, 0.99),
        ]
        .concat(),
    );
    assert_eq!(found.len(), 3);
    for pair in found.windows(2) {
        assert!(pair[0].end_t <= pair[1].start_t, "{} > {}", pair[0].end_t, pair[1].start_t);
    }
}

#[test]
fn the_thresholds_are_the_callers_to_move() {
    // The same probabilities, read strictly: nothing is speech.
    let probabilities = [run(20, 0.6), run(10, 0.1)].concat();
    let mut lenient = settings(0.5, 0.25, 0.1);
    assert_eq!(spans_of(&mut lenient, &probabilities).len(), 1);
    let mut strict = settings(0.9, 0.25, 0.1);
    assert!(spans_of(&mut strict, &probabilities).is_empty());
}

#[test]
fn a_chunk_lasts_thirty_two_milliseconds() {
    assert_eq!(length(), 512.0 / 16000.0);
}

#[test]
fn seconds_are_the_machines_own() {
    let cases: [(i64, i32, i32); 9] = [
        (1, 1, 3),
        (-1, 1, 3),
        (i64::MAX, i32::MAX, 1),
        (i64::MIN, 1, i32::MAX),
        (123_456_789_012_345, 1001, 30_000),
        (-90_000, 1, 90_000),
        (7, -2, 5),
        (5, 1, 0),
        (-5, 1, 0),
    ];
    for (ticks, num, den) in cases {
        let expected = ticks as f64 * f64::from(num) / f64::from(den);
        assert_eq!(seconds(ticks, num, den).to_bits(), expected.to_bits(), "{ticks} {num} {den}");
    }
    assert!(machine(seconds(0, 1, 0)).is_nan());
}

#[test]
fn a_negative_timestamp_stays_negative() {
    assert!(machine(seconds(-1, 1, i32::MAX)) < 0.0);
    assert!(machine(seconds(i64::MIN, i32::MAX, 1)) < 0.0);
}

#[test]
fn a_long_clock_is_right_to_the_last_bit() {
    let mut chunker = Chunker::default();
    let feed = bytes(&vec![0.0; CHUNK * 7 + 13]);
    let mut handed: u64 = 0;
    for _ in 0..200 {
        for chunk in chunker.feed(&feed) {
            assert_eq!(machine(chunk.at), handed as f64 / 16000.0);
            handed += 512;
        }
    }
    assert_eq!(handed, 200 * (CHUNK as u64 * 7 + 13) / 512 * 512);
    assert_eq!(machine(chunker.end()), (200 * (512 * 7 + 13)) as f64 / 16000.0);
}

#[test]
fn pieces_make_the_same_chunks_as_the_whole() {
    let samples = tone(CHUNK * 5 + 77, 313.0);
    let mut whole = Chunker::new();
    whole.seek(number(3.25));
    let expected = chunks_of(&mut whole, &[samples.clone()]);
    let mut pieces = Chunker::new();
    pieces.seek(number(3.25));
    let cut: Vec<Vec<f32>> = samples.chunks(101).map(|piece| piece.to_vec()).collect();
    assert_eq!(chunks_of(&mut pieces, &cut), expected);
    assert_eq!(machine(pieces.end()), machine(whole.end()));
}

#[test]
fn every_sample_goes_through_in_order() {
    let samples = tone(CHUNK * 3 + 5, 97.0);
    let mut chunker = Chunker::new();
    let mut through: Vec<u32> = Vec::new();
    for piece in samples.chunks(700) {
        for chunk in chunker.feed(&bytes(piece)) {
            assert_eq!(chunk.samples.len(), CHUNK);
            through.extend(chunk.samples.iter().map(|s| s.to_bits()));
        }
    }
    let sent: Vec<u32> = samples.iter().map(|s| s.to_bits()).collect();
    assert_eq!(through, sent[..CHUNK * 3].to_vec());
}

#[test]
fn whole_windows_leave_nothing_held_back() {
    let mut chunker = Chunker::new();
    assert_eq!(chunker.feed(&bytes(&tone(16_384, 440.0))).len(), 32);
    assert!(chunker.aligned());
}

#[test]
fn a_feed_of_nothing_changes_nothing() {
    let mut chunker = Chunker::new();
    chunker.seek(number(9.0));
    assert!(chunker.feed(&[]).is_empty());
    assert!(chunker.aligned());
    assert_eq!(machine(chunker.end()), 9.0);
}

#[test]
fn retuning_leaves_the_open_span_alone() {
    let mut spans = settings(0.5, 0.25, 0.1);
    for index in 0..20 {
        assert!(spans.push(number(0.6), number(index as f64 * length())).is_none());
    }
    // What was speech is quiet now, and the span closes under the new rules.
    spans.retune(number(0.9), number(0.25), number(0.03));
    let closed = spans.push(number(0.6), number(20.0 * length())).map(found);
    let closed = closed.expect("one quiet chunk is enough");
    assert_eq!(closed.start_t, 0.0);
    assert_eq!(closed.end_t, 19.0 * length() + length());
}

#[test]
fn an_open_span_is_kept_by_the_shortest_span_in_force_when_it_closes() {
    let mut spans = settings(0.5, 0.25, 0.1);
    assert!(spans.push(number(0.9), number(0.0)).is_none());
    spans.retune(number(0.5), number(0.0), number(0.1));
    assert!(spans.finish().is_some());
}

#[test]
fn a_stream_ends_once() {
    let mut spans = settings(0.5, 0.0, 0.1);
    assert!(spans.push(number(0.9), number(0.0)).is_none());
    assert!(spans.finish().is_some());
    assert!(spans.finish().is_none());
}

#[test]
fn what_is_not_a_number_is_never_speech() {
    let mut spans = settings(0.5, 0.0, 0.1);
    assert!(spans.push(number(f64::NAN), number(0.0)).is_none());
    assert!(spans.finish().is_none());
    let mut spans = settings(f64::NAN, 0.0, 0.1);
    assert!(spans.push(number(1.0), number(0.0)).is_none());
    assert!(spans.finish().is_none());
}

#[test]
fn no_minimum_silence_closes_on_the_first_quiet_chunk() {
    let mut spans = settings(0.5, 0.0, 0.0);
    assert!(spans.push(number(0.9), number(0.0)).is_none());
    let closed = spans.push(number(0.1), number(length())).map(found).expect("closed");
    assert_eq!((closed.start_t, closed.end_t), (0.0, length()));
}

#[test]
fn the_spans_are_the_ones_the_machine_would_find() {
    // The rules once more in the machine's numbers, on a clock with an
    // awkward start.
    let (threshold, min_speech, min_silence) = (0.5, 0.128, 0.096);
    let base = 1.0 / 3.0;
    let mut state: u64 = 42;
    let mut spans = settings(threshold, min_speech, min_silence);
    let mut open: Option<(f64, f64)> = None;
    let mut both = 0;
    for index in 0..20_000u64 {
        state = state.wrapping_mul(6364136223846793005).wrapping_add(1442695040888963407);
        let p = (state >> 40) as f64 / (1u64 << 24) as f64;
        let at = base + (index * 512) as f64 / 16000.0;
        let end = at + 512.0 / 16000.0;
        let mut expected = None;
        if p >= threshold {
            open = Some((open.map_or(at, |o| o.0), end));
        } else if let Some((start, voiced_to)) = open {
            if end - voiced_to >= min_silence {
                open = None;
                if voiced_to - start >= min_speech {
                    expected = Some((start, voiced_to));
                }
            }
        }
        let got = spans.push(number(p), number(at)).map(found).map(|f| (f.start_t, f.end_t));
        assert_eq!(got, expected, "chunk {index}");
        both += usize::from(got.is_some());
    }
    assert!(both > 100);
}

#[test]
fn spans_compare_as_numbers_do() {
    let zero = Span { start_t: number(0.0), end_t: number(1.0) };
    let minus = Span { start_t: number(-0.0), end_t: number(1.0) };
    let lost = Span { start_t: number(f64::NAN), end_t: number(1.0) };
    assert!(zero == minus);
    assert!(lost != lost);
}

#[test]
fn chunks_on_one_clock_move_forward_and_clear_the_next_but_one() {
    for base in [
        0.0,
        1.0 / 3.0,
        86_400.25,
        562_949_953_421_312.0,
        -1.0 / 3.0,
        -5.0,
        -86_400.25,
        -562_949_953_421_312.0,
    ] {
        let mut chunker = Chunker::new();
        chunker.seek(number(base));
        let ats: Vec<f64> = chunker
            .feed(&bytes(&vec![0.0; CHUNK * 300]))
            .iter()
            .map(|chunk| machine(chunk.at))
            .collect();
        assert_eq!(ats.len(), 300);
        assert_eq!(ats[0], base);
        for i in 0..298 {
            assert!(ats[i] <= ats[i + 1]);
            assert!(ats[i] + length() <= ats[i + 2]);
        }
    }
}

#[test]
fn every_chunk_of_speech_lies_in_a_span_when_none_is_too_short() {
    let mut spans = settings(0.5, 0.0, 0.07);
    let mut state: u64 = 5;
    let mut probabilities = Vec::new();
    for _ in 0..500 {
        state = state.wrapping_mul(6364136223846793005).wrapping_add(1442695040888963407);
        probabilities.push((state >> 40) as f64 / (1u64 << 24) as f64 * 0.7);
    }
    let found = spans_of(&mut spans, &probabilities);
    assert!(found.len() > 5);
    for (index, p) in probabilities.iter().enumerate() {
        let at = index as f64 * length();
        let inside = found.iter().any(|span| span.start_t <= at && at < span.end_t);
        assert!(*p < 0.5 || inside, "chunk {index}");
    }
    for span in &found {
        assert!(span.start_t <= span.end_t);
        let first = (span.start_t / length()).round() as usize;
        let last = (span.end_t / length()).round() as usize - 1;
        assert!(probabilities[first] >= 0.5 && probabilities[last] >= 0.5);
    }
}

#[test]
fn where_steps_halve_a_chunk_can_run_past_the_next_but_one() {
    // The clock crosses minus two to the 49 seconds: the steps before it are
    // an eighth of a second and the steps after it a sixteenth.
    let edge = -562_949_953_421_312.0;
    let mut chunker = Chunker::new();
    chunker.seek(number(edge - 0.125));
    let ats: Vec<f64> = chunker
        .feed(&bytes(&vec![0.0; CHUNK * 5]))
        .iter()
        .map(|chunk| machine(chunk.at))
        .collect();
    let late = (0..3).find(|i| ats[*i] + length() > ats[i + 2]).expect("one of them");
    assert_eq!(ats[late], edge);
}

#[test]
fn seconds_mirror_their_timestamps() {
    for (ticks, num, den) in [(1, 1, 3), (90_000, 1001, 30_000), (i64::MAX, 7, 48_000), (5, -1, 3)]
    {
        let there = machine(seconds(ticks, num, den));
        assert_eq!(machine(seconds(-ticks, num, den)).to_bits(), (-there).to_bits());
    }
    // Zero is its own negative.
    assert_eq!(seconds(0, 1, 3).to_bits(), 0);
}

#[test]
fn seconds_keep_the_order_of_their_timestamps() {
    let stamps = [i64::MIN, i64::MIN + 1, -90_001, -90_000, -1, 0, 1, 2, 90_000, i64::MAX];
    for (num, den) in [(1, 3), (1, 90_000), (1001, 30_000), (i32::MAX, 1), (0, 7)] {
        for pair in stamps.windows(2) {
            let (before, after) = (seconds(pair[0], num, den), seconds(pair[1], num, den));
            assert!(machine(before) <= machine(after), "{pair:?} {num} {den}");
        }
    }
}

/// Five hundred probabilities, of which about a third reach one half.
fn murmur() -> Vec<f64> {
    let mut state: u64 = 77;
    let mut probabilities = Vec::new();
    for _ in 0..500 {
        state = state.wrapping_mul(6364136223846793005).wrapping_add(1442695040888963407);
        probabilities.push((state >> 40) as f64 / (1u64 << 24) as f64 * 0.75);
    }
    probabilities
}

#[test]
fn the_spans_are_the_groups_that_are_long_enough() {
    let (threshold, min_speech, min_silence) = (0.5, 0.25, 0.1);
    let probabilities = murmur();
    // Speech is parted where the quiet in between reaches `min_silence`.
    let end = |i: usize| i as f64 * length() + length();
    let mut groups: Vec<(usize, usize)> = Vec::new();
    for i in 0..probabilities.len() {
        if probabilities[i] < threshold {
            continue;
        }
        match groups.last_mut() {
            Some((_, last)) if (*last + 1..i).all(|c| end(c) - end(*last) < min_silence) => {
                *last = i;
            }
            _ => groups.push((i, i)),
        }
    }
    let kept: Vec<(f64, f64)> = groups
        .iter()
        .map(|(first, last)| (*first as f64 * length(), end(*last)))
        .filter(|(start, end)| end - start >= min_speech)
        .collect();
    assert!(kept.len() > 5 && kept.len() < groups.len());
    let mut spans = settings(threshold, min_speech, min_silence);
    let found: Vec<(f64, f64)> = spans_of(&mut spans, &probabilities)
        .iter()
        .map(|span| (span.start_t, span.end_t))
        .collect();
    assert_eq!(found, kept);
}

#[test]
fn a_larger_minimum_speech_keeps_the_longer_spans() {
    let probabilities = murmur();
    let ends = |min_speech: f64| -> Vec<(f64, f64, f64)> {
        spans_of(&mut settings(0.5, min_speech, 0.1), &probabilities)
            .iter()
            .map(|span| (span.start_t, span.end_t, span.duration))
            .collect()
    };
    let longer: Vec<(f64, f64, f64)> =
        ends(0.1).into_iter().filter(|span| span.2 >= 0.3).collect();
    assert!(!longer.is_empty() && longer.len() < ends(0.1).len());
    assert_eq!(ends(0.3), longer);
}

#[test]
fn a_higher_threshold_stays_within_the_spans_there_were() {
    let probabilities = murmur();
    let loose = spans_of(&mut settings(0.45, 0.1, 0.1), &probabilities);
    let strict = spans_of(&mut settings(0.6, 0.1, 0.1), &probabilities);
    assert!(!strict.is_empty());
    for inner in &strict {
        assert!(loose
            .iter()
            .any(|outer| outer.start_t <= inner.start_t && inner.end_t <= outer.end_t));
    }
}
