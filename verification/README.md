# vad

Voice activity detection with Silero VAD: the decisions between the audio and
the spans of speech in it, written in Verus and proved.

The model scores 32 ms at a time; three parameters turn scores into spans.
`threshold` is the score a chunk counts as speech at, 0.5 by default.
`min_silence` is how much quiet closes a span, 0.1 s, so a breath mid-sentence
carries across. `min_speech` is the shortest span kept, 0.25 s, so a door or a
drum hit never becomes a cue.

## Layout

- `src/rounding.rs`, `src/scaled.rs`, `src/binary64.rs`, `src/binary32.rs`:
  IEEE 754 numbers as bit patterns. Each operation is proved to return the
  number nearest to the exact result, ties to even.
- `src/exact.rs`: how results are ordered, and when they are exact.
- `src/clock.rs`: timestamps, samples and seconds.
- `src/chunker.rs`: samples cut into chunks.
- `src/spans.rs`: probabilities turned into spans.
- `src/groups.rs`: which chunks of a stream make up its spans.
- `src/graph.rs`: what the model is asked, and what its answers mean.
- `src/params.rs`, `src/text.rs`: the settings and the texts around them.
- `src/module.rs`: what the host is told, and which streams are taken.
- `src/session.rs`: one stream from payloads to rows, step by step.
- `src/calls.rs`: opening a stream, and a whole call on it.
- `src/streams.rs`: what holds over all the calls on a stream.
- `app/`: the module around the library: JSON and the host's graph.

Each module states what its functions return in their contracts, and the
properties of the whole as public proof functions.
