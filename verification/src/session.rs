//! A stream being listened to: the audio passes through untouched and each
//! span of speech leaves as a row beside it.
//!
//! Here a stream takes one step at a time: a payload arrives, the graph is
//! asked about a chunk and answers, the window closes. The order of the steps
//! is up to `calls`.

use crate::binary32::{self, Binary32};
use crate::binary64::Binary64;
use crate::chunker::{self, Chunk, Chunker, Cut, Cutting};
use crate::clock;
use crate::graph::{self, Failure, Input, Output, STATE_LEN};
use crate::params::{self, Params, ParamsError};
use crate::spans::{Heard, Listening, Span, Spans};
use vstd::prelude::*;

verus! {

/// What a span's `text` says: the model hears that somebody is talking, not
/// what they said.
pub const SPEECH: &'static str = "speech";

/// One span of speech, as the row it becomes.
#[derive(Clone, Copy, Debug)]
pub struct Row {
    pub text: &'static str,
    pub start_t: Binary64,
    pub end_t: Binary64,
}

/// The row a span becomes: its own seconds, and the word for what was heard.
pub open spec fn row_of(span: Span) -> Row {
    Row { text: SPEECH, start_t: span.start_t, end_t: span.end_t }
}

impl From<Span> for Row {
    fn from(span: Span) -> (r: Row) {
        Row { text: SPEECH, start_t: span.start_t, end_t: span.end_t }
    }
}

impl vstd::std_specs::convert::FromSpecImpl<Span> for Row {
    open spec fn obeys_from_spec() -> bool {
        true
    }

    open spec fn from_spec(span: Span) -> Row {
        row_of(span)
    }
}

/// One payload on its way out, as it arrived, with the rows of the spans that
/// closed on it.
pub struct OutFrame {
    pub pts: i64,
    pub rows: Vec<Row>,
}

/// A payload on its way out, as values.
pub struct Passed {
    pub pts: i64,
    pub rows: Seq<Row>,
}

impl View for OutFrame {
    type V = Passed;

    open spec fn view(&self) -> Passed {
        Passed { pts: self.pts, rows: self.rows@ }
    }
}

/// What leaves when a window closes.
pub struct Processed {
    pub frames: Vec<OutFrame>,
    pub trailing: Vec<Row>,
}

/// The payloads of the window being worked on.
pub struct Window {
    frames: Vec<OutFrame>,
}

impl View for Window {
    type V = Seq<Passed>;

    closed spec fn view(&self) -> Seq<Passed> {
        self.frames@.map_values(|frame: OutFrame| frame@)
    }
}

impl Window {
    /// A window with no payloads yet.
    pub fn new() -> (r: Window)
        ensures
            r@ == Seq::<Passed>::empty(),
    {
        let r: Window = Window { frames: Vec::new() };
        assert(r@ =~= Seq::<Passed>::empty());
        r
    }
}

/// What `init` settled, and what carries from one chunk to the next.
pub struct Opened {
    /// The unit this stream's timestamps are counted in.
    time_base: (i32, i32),
    chunker: Chunker,
    spans: Spans,
    /// The model's recurrent state, threaded from one chunk to the next.
    state: Vec<Binary32>,
}

/// What an `Opened` holds.
pub struct Session {
    pub time_base: (i32, i32),
    pub cutting: Cutting,
    pub listening: Listening,
    pub state: Seq<Binary32>,
}

impl View for Opened {
    type V = Session;

    closed spec fn view(&self) -> Session {
        Session {
            time_base: self.time_base,
            cutting: self.chunker@,
            listening: self.spans@,
            state: self.state@,
        }
    }
}

/// What the model expects at the head of a stream.
pub open spec fn blank_state() -> Seq<Binary32> {
    Seq::new(STATE_LEN as nat, |i: int| Binary32 { bits: 0 })
}

impl Session {
    /// A stream about to start.
    pub open spec fn starting(time_base: (i32, i32), params: Params) -> Session {
        Session {
            time_base,
            cutting: Cutting {
                pending: Seq::empty(),
                base: Binary64 { bits: 0 },
                consumed: 0,
            },
            listening: Listening::fresh(params.threshold, params.min_speech, params.min_silence),
            state: blank_state(),
        }
    }

    /// The same stream under other settings. A span already open runs on.
    pub open spec fn retuned(self, params: Params) -> Session {
        Session {
            listening: Listening {
                threshold: params.threshold,
                min_speech: params.min_speech,
                min_silence: params.min_silence,
                ..self.listening
            },
            ..self
        }
    }

    /// The clock once a payload stamped `pts` arrives: taken from the payload
    /// when nothing is held back, and otherwise left to run.
    pub open spec fn set_by(self, pts: i64) -> Cutting {
        if self.cutting.pending.len() == 0 {
            Cutting {
                base: clock::seconds_of(
                    pts as int,
                    self.time_base.0 as int,
                    self.time_base.1 as int,
                ),
                consumed: 0,
                ..self.cutting
            }
        } else {
            self.cutting
        }
    }

    /// The chunks a payload completes.
    pub open spec fn cuts(self, pts: i64, bytes: Seq<u8>) -> Seq<Cut> {
        self.set_by(pts).cuts(binary32::floats_of(bytes))
    }

    /// What is held once a payload's chunks have gone.
    pub open spec fn after_payload(self, pts: i64, bytes: Seq<u8>) -> Session {
        Session { cutting: self.set_by(pts).after(binary32::floats_of(bytes)), ..self }
    }

    /// What stands after the graph's answer for the chunk at `at`.
    pub open spec fn after_answer(
        self,
        at: Binary64,
        computed: Result<Vec<Output>, Failure>,
    ) -> Session {
        Session {
            state: graph::state_after(self.state, computed),
            listening: match graph::answered(computed) {
                Ok(found) => self.listening.after(found, at),
                Err(_) => self.listening,
            },
            ..self
        }
    }

    /// What stands once a window has closed. The end of the stream closes what
    /// is open; nothing else does.
    pub open spec fn closed(self, last: bool) -> Session {
        if last {
            Session { listening: self.listening.shut(), ..self }
        } else {
            self
        }
    }

    /// The span that closing a window closes.
    pub open spec fn left(self, last: bool) -> Option<Span> {
        if last {
            self.listening.closing()
        } else {
            None
        }
    }

    /// The span the graph's answer closes.
    pub open spec fn emits(
        self,
        at: Binary64,
        computed: Result<Vec<Output>, Failure>,
    ) -> Option<Span> {
        match graph::answered(computed) {
            Ok(found) => self.listening.emits(found, at),
            Err(_) => None,
        }
    }
}

/// A window's payloads with one more row on the last of them.
pub open spec fn with_row(frames: Seq<Passed>, closed: Option<Span>) -> Seq<Passed> {
    match closed {
        None => frames,
        Some(span) => frames.update(
            frames.len() - 1,
            Passed {
                rows: frames.last().rows.push(row_of(span)),
                ..frames.last()
            },
        ),
    }
}

/// What leaves of a window that the end of the stream closes with this span
/// left, or that closes with none: the payloads, and what trails them.
pub open spec fn closed_with(frames: Seq<Passed>, left: Option<Span>) -> (Seq<Passed>, Seq<Row>) {
    if frames.len() > 0 {
        (with_row(frames, left), Seq::empty())
    } else {
        match left {
            Some(span) => (frames, seq![row_of(span)]),
            None => (frames, Seq::empty()),
        }
    }
}

impl Opened {
    /// A stream about to start.
    pub fn new(time_base: (i32, i32), params: &Params) -> (r: Opened)
        ensures
            r@ == Session::starting(time_base, *params),
            r@.time_base == time_base,
            r@.listening.threshold == params.threshold,
            r@.listening.min_speech == params.min_speech,
            r@.listening.min_silence == params.min_silence,
            r@.listening.open is None,
            r@.cutting.pending.len() == 0,
            r@.state.len() == 256,
            forall|i: int| 0 <= i < 256 ==> (#[trigger] r@.state[i]).bits == 0,
    {
        let mut state: Vec<Binary32> = Vec::with_capacity(STATE_LEN);
        while state.len() < STATE_LEN
            invariant
                state@.len() <= STATE_LEN,
                state@ =~= blank_state().take(state@.len() as int),
            decreases STATE_LEN - state@.len(),
        {
            state.push(Binary32::from_bits(0));
        }
        assert(state@ =~= blank_state());
        Opened {
            time_base,
            chunker: Chunker::new(),
            spans: Spans::new(params.threshold, params.min_speech, params.min_silence),
            state,
        }
    }

    /// Puts other settings in force. The audio behind an open span is gone,
    /// so there is nothing to remeasure.
    pub fn retune(&mut self, params: &Params)
        ensures
            final(self)@ == old(self)@.retuned(*params),
            final(self)@.listening.threshold == params.threshold,
            final(self)@.listening.min_speech == params.min_speech,
            final(self)@.listening.min_silence == params.min_silence,
            final(self)@.listening.open == old(self)@.listening.open,
            final(self)@.time_base == old(self)@.time_base,
            final(self)@.cutting == old(self)@.cutting,
            final(self)@.state == old(self)@.state,
    {
        self.spans.retune(params.threshold, params.min_speech, params.min_silence);
    }

    /// A payload arrives. Returns the chunks to ask the graph about, oldest
    /// first.
    pub fn payload(&mut self, window: &mut Window, pts: i64, bytes: &[u8]) -> (r: Vec<Chunk>)
        ensures
            final(self)@ == old(self)@.after_payload(pts, bytes@),
            final(window)@ == old(window)@.push(Passed { pts, rows: Seq::empty() }),
            r@.len() == old(self)@.cuts(pts, bytes@).len(),
            forall|i: int|
                0 <= i < r@.len() ==> (#[trigger] r@[i])@ == old(self)@.cuts(pts, bytes@)[i],
    {
        // Every window arrives whole, so the clock is taken from the
        // payload's own timestamp rather than accumulated.
        if self.chunker.aligned() {
            self.chunker.seek(clock::seconds(pts, self.time_base.0, self.time_base.1));
        }
        let frame: OutFrame = OutFrame { pts, rows: Vec::new() };
        assert(frame@.rows =~= Seq::<Row>::empty());
        window.frames.push(frame);
        assert(window@ =~= old(window)@.push(Passed { pts, rows: Seq::empty() }));
        self.chunker.feed(bytes)
    }

    /// The tensors the graph takes for a chunk.
    pub fn request(&self, chunk: &Chunk) -> (r: Vec<Input>)
        ensures
            r@.len() == 3,
            forall|i: int|
                0 <= i < 3 ==> (#[trigger] r@[i])@ == graph::asked(self@.state, chunk@.samples)[i],
            binary32::floats_of(r@[0].data@) == chunk.samples@,
            binary32::floats_of(r@[1].data@) == self@.state,
    {
        graph::request(self.state.as_slice(), chunk.samples.as_slice())
    }

    /// The graph's answer for a chunk. A span that this chunk closed leaves on
    /// the payload at hand. An answer that makes no sense is refused with a
    /// message.
    pub fn answer(
        &mut self,
        window: &mut Window,
        chunk: &Chunk,
        computed: Result<Vec<Output>, Failure>,
    ) -> (r: Result<(), String>)
        requires
            old(window)@.len() > 0,
        ensures
            final(self)@ == old(self)@.after_answer(chunk.at, computed),
            final(window)@ == with_row(old(window)@, old(self)@.emits(chunk.at, computed)),
            match r {
                Ok(_) => graph::answered(computed) is Ok,
                Err(message) => graph::answered(computed) == Err::<Binary64, Seq<char>>(message@),
            },
    {
        match graph::probability(&mut self.state, computed) {
            Err(message) => Err(message),
            Ok(found) => {
                if let Some(span) = self.spans.push(found, chunk.at) {
                    window.add_row(span);
                }
                Ok(())
            },
        }
    }

    /// The window closes. The end of the stream closes whatever is still
    /// open. It rides the last payload when there is one, and trails the
    /// stream when the final call carried no samples at all.
    pub fn close(&mut self, window: Window, last: bool) -> (r: Processed)
        ensures
            final(self)@ == old(self)@.closed(last),
            ({
                let frames = r.frames@.map_values(|frame: OutFrame| frame@);
                (frames, r.trailing@) == closed_with(window@, old(self)@.left(last))
            }),
    {
        let mut window: Window = window;
        let mut trailing: Vec<Row> = Vec::new();
        assert(trailing@ =~= Seq::<Row>::empty());
        if last {
            if let Some(span) = self.spans.finish() {
                if window.frames.len() > 0 {
                    window.add_row(span);
                } else {
                    trailing.push(Row::from(span));
                    assert(trailing@ =~= seq![row_of(span)]);
                }
            }
        }
        assert(window@ =~= window.frames@.map_values(|frame: OutFrame| frame@));
        Processed { frames: window.frames, trailing }
    }
}

impl Window {
    /// One more row on the last payload.
    fn add_row(&mut self, span: Span)
        requires
            old(self)@.len() > 0,
        ensures
            final(self)@ == with_row(old(self)@, Some(span)),
    {
        let ghost before = self@;
        let frame: Option<OutFrame> = self.frames.pop();
        if let Some(frame) = frame {
            assert(frame@ == before.last());
            let mut rows: Vec<Row> = frame.rows;
            rows.push(Row::from(span));
            self.frames.push(OutFrame { pts: frame.pts, rows });
            assert(self@ =~= with_row(before, Some(span)));
        }
    }
}

/// Starts a stream. Nothing of one that was open before is left.
pub fn open(opened: &mut Option<Opened>, time_base: (i32, i32), settled: &Params)
    ensures
        *final(opened) matches Some(after) && after@ == Session::starting(time_base, *settled),
        *final(opened) matches Some(after) && after@.time_base == time_base
            && after@.listening.threshold == settled.threshold && after@.listening.min_speech
            == settled.min_speech && after@.listening.min_silence == settled.min_silence
            && after@.listening.open is None && after@.cutting.pending.len() == 0,
{
    *opened = Some(Opened::new(time_base, settled));
}

/// Puts other settings in force on the stream that is open, if one is and
/// the settings are good.
pub fn set_params(opened: &mut Option<Opened>, read: Option<Result<Params, String>>) -> (r: Result<
    (),
    ParamsError,
>)
    ensures
        match params::settled(read) {
            Err(error) => r == Err::<(), ParamsError>(error) && *final(opened) == *old(opened),
            Ok(settled) => r is Ok && match *old(opened) {
                None => *final(opened) is None,
                Some(before) => *final(opened) matches Some(after) && after@ == before@.retuned(
                    settled,
                ),
            },
        },
{
    match params::parse_params(read) {
        Err(error) => Err(error),
        Ok(settled) => {
            let taken: Option<Opened> = opened.take();
            if let Some(stream) = taken {
                let mut stream: Opened = stream;
                stream.retune(&settled);
                *opened = Some(stream);
            }
            Ok(())
        },
    }
}

/// One thing that happens to a stream while a window is worked on.
pub enum Step {
    /// A payload arrives.
    Payload { pts: i64, bytes: Seq<u8> },
    /// The graph answers for the chunk at `at`.
    Answer { at: Binary64, computed: Result<Vec<Output>, Failure> },
}

impl Session {
    /// What stands after one step.
    pub open spec fn after(self, step: Step) -> Session {
        match step {
            Step::Payload { pts, bytes } => self.after_payload(pts, bytes),
            Step::Answer { at, computed } => self.after_answer(at, computed),
        }
    }

    /// What stands after these steps.
    pub open spec fn after_all(self, steps: Seq<Step>) -> Session
        decreases steps.len(),
    {
        if steps.len() == 0 {
            self
        } else {
            self.after_all(steps.drop_last()).after(steps.last())
        }
    }

    /// The window's payloads after these steps, from `frames` before them.
    pub open spec fn window_after(self, frames: Seq<Passed>, steps: Seq<Step>) -> Seq<Passed>
        decreases steps.len(),
    {
        if steps.len() == 0 {
            frames
        } else {
            let before = self.window_after(frames, steps.drop_last());
            match steps.last() {
                Step::Payload { pts, bytes } => before.push(Passed { pts, rows: Seq::empty() }),
                Step::Answer { at, computed } => with_row(
                    before,
                    self.after_all(steps.drop_last()).emits(at, computed),
                ),
            }
        }
    }
}

/// The timestamps of the payloads among these steps.
pub open spec fn stamps(steps: Seq<Step>) -> Seq<i64>
    decreases steps.len(),
{
    if steps.len() == 0 {
        Seq::empty()
    } else {
        match steps.last() {
            Step::Payload { pts, .. } => stamps(steps.drop_last()).push(pts),
            Step::Answer { .. } => stamps(steps.drop_last()),
        }
    }
}

/// The chunks these steps give a probability for.
pub open spec fn heard_in(steps: Seq<Step>) -> Seq<Heard>
    decreases steps.len(),
{
    if steps.len() == 0 {
        Seq::empty()
    } else {
        match steps.last() {
            Step::Payload { .. } => heard_in(steps.drop_last()),
            Step::Answer { at, computed } => match graph::answered(computed) {
                Ok(probability) => heard_in(steps.drop_last()).push(Heard { probability, at }),
                Err(_) => heard_in(steps.drop_last()),
            },
        }
    }
}

/// All the rows on these payloads, first to last.
pub open spec fn rows_on(frames: Seq<Passed>) -> Seq<Row>
    decreases frames.len(),
{
    if frames.len() == 0 {
        Seq::empty()
    } else {
        rows_on(frames.drop_last()) + frames.last().rows
    }
}

/// The rows these spans become.
pub open spec fn rows_for(spans: Seq<Span>) -> Seq<Row> {
    spans.map_values(|span: Span| row_of(span))
}

proof fn lemma_with_row(frames: Seq<Passed>, closed: Option<Span>)
    requires
        frames.len() > 0,
    ensures
        with_row(frames, closed).len() == frames.len(),
        forall|i: int|
            0 <= i < frames.len() ==> (#[trigger] with_row(frames, closed)[i]).pts
                == frames[i].pts,
        rows_on(with_row(frames, closed)) == rows_on(frames) + match closed {
            Some(span) => seq![row_of(span)],
            None => Seq::empty(),
        },
{
    let after = with_row(frames, closed);
    match closed {
        Some(span) => {
            assert(after.drop_last() =~= frames.drop_last());
            assert(rows_on(after) =~= rows_on(frames) + seq![row_of(span)]);
        },
        None => {
            assert(rows_on(frames) + Seq::<Row>::empty() =~= rows_on(frames));
        },
    }
}

/// The timestamps on these payloads.
pub open spec fn stamps_on(frames: Seq<Passed>) -> Seq<i64> {
    frames.map_values(|frame: Passed| frame.pts)
}

/// A payload's step adds its timestamp and no row.
proof fn lemma_payload_step(session: Session, frames: Seq<Passed>, steps: Seq<Step>)
    requires
        steps.len() > 0,
        steps.last() is Payload,
    ensures
        ({
            let before = session.window_after(frames, steps.drop_last());
            let after = session.window_after(frames, steps);
            &&& stamps_on(after) == stamps_on(before).push(steps.last()->Payload_pts)
            &&& rows_on(after) == rows_on(before)
            &&& after.len() > 0
            &&& heard_in(steps) == heard_in(steps.drop_last())
            &&& session.after_all(steps).listening == session.after_all(
                steps.drop_last(),
            ).listening
        }),
{
    let before = session.window_after(frames, steps.drop_last());
    let after = session.window_after(frames, steps);
    assert(after.drop_last() =~= before);
    assert(rows_on(before) + Seq::<Row>::empty() =~= rows_on(before));
    assert(stamps_on(after) =~= stamps_on(before).push(steps.last()->Payload_pts));
}

/// An answer's step adds the row of the span it closes and no timestamp.
proof fn lemma_answer_step(session: Session, frames: Seq<Passed>, steps: Seq<Step>)
    requires
        steps.len() > 0,
        steps.last() is Answer,
        session.window_after(frames, steps.drop_last()).len() > 0,
        session.after_all(steps.drop_last()).listening == session.listening.having_heard(
            heard_in(steps.drop_last()),
        ),
    ensures
        ({
            let before = session.window_after(frames, steps.drop_last());
            let after = session.window_after(frames, steps);
            let (earlier, now) = (
                session.listening.closed_by(heard_in(steps.drop_last())),
                session.listening.closed_by(heard_in(steps)),
            );
            &&& stamps_on(after) == stamps_on(before)
            &&& after.len() == before.len()
            &&& session.after_all(steps).listening == session.listening.having_heard(
                heard_in(steps),
            )
            &&& match session.after_all(steps.drop_last()).emits(
                steps.last()->at,
                steps.last()->computed,
            ) {
                Some(span) => now == earlier.push(span) && rows_on(after) == rows_on(before).push(
                    row_of(span),
                ),
                None => now == earlier && rows_on(after) == rows_on(before),
            }
        }),
{
    let before = session.window_after(frames, steps.drop_last());
    let after = session.window_after(frames, steps);
    let (at, computed) = (steps.last()->at, steps.last()->computed);
    let closed = session.after_all(steps.drop_last()).emits(at, computed);
    lemma_with_row(before, closed);
    assert(stamps_on(after) =~= stamps_on(before));
    if let Ok(probability) = graph::answered(computed) {
        let heard = heard_in(steps.drop_last()).push(Heard { probability, at });
        assert(heard.drop_last() =~= heard_in(steps.drop_last()));
        assert(heard.last() == (Heard { probability, at }));
    }
    match closed {
        Some(span) => {
            assert(rows_on(after) =~= rows_on(before).push(row_of(span)));
        },
        None => {
            assert(rows_on(after) =~= rows_on(before));
        },
    }
}

/// What goes into a window comes out of it: one payload out for each payload
/// in, in order and with its own timestamp, and on them one row for each span
/// that closed, in the order they closed. The window holds a payload before
/// the first answer.
pub proof fn a_window_passes_everything_on(
    session: Session,
    frames: Seq<Passed>,
    steps: Seq<Step>,
)
    requires
        frames.len() > 0 || steps.len() == 0 || steps[0] is Payload,
    ensures
        ({
            let after = session.window_after(frames, steps);
            &&& stamps_on(after) == stamps_on(frames) + stamps(steps)
            &&& rows_on(after) == rows_on(frames) + rows_for(
                session.listening.closed_by(heard_in(steps)),
            )
            &&& session.after_all(steps).listening == session.listening.having_heard(
                heard_in(steps),
            )
            &&& steps.len() > 0 ==> after.len() > 0
        }),
    decreases steps.len(),
{
    let after = session.window_after(frames, steps);
    if steps.len() == 0 {
        assert(stamps_on(frames) + stamps(steps) =~= stamps_on(frames));
        assert(rows_on(frames) + rows_for(session.listening.closed_by(heard_in(steps)))
            =~= rows_on(frames));
    } else {
        let earlier = steps.drop_last();
        a_window_passes_everything_on(session, frames, earlier);
        let spans = session.listening.closed_by(heard_in(earlier));
        if steps.last() is Payload {
            lemma_payload_step(session, frames, steps);
            assert(stamps_on(after) =~= stamps_on(frames) + stamps(steps));
        } else {
            lemma_answer_step(session, frames, steps);
            if let Some(span) = session.after_all(earlier).emits(
                steps.last()->at,
                steps.last()->computed,
            ) {
                assert(rows_for(spans.push(span)) =~= rows_for(spans).push(row_of(span)));
                assert(rows_on(after) =~= rows_on(frames) + rows_for(spans.push(span)));
            }
        }
    }
}

/// When a stream ends with its window, its rows are its spans: everything
/// that closed on the way and what the end of the stream closed, each once
/// and in order, on the payloads or, when there were none, after them.
pub proof fn the_rows_are_the_spans(session: Session, steps: Seq<Step>)
    requires
        steps.len() == 0 || steps[0] is Payload,
    ensures
        ({
            let left = session.after_all(steps).listening.closing();
            let (frames, trailing) = closed_with(session.window_after(Seq::empty(), steps), left);
            &&& stamps_on(frames) == stamps(steps)
            &&& rows_on(frames) + trailing == rows_for(
                session.listening.spans_of(heard_in(steps)),
            )
            &&& frames.len() > 0 ==> trailing.len() == 0
        }),
{
    let none = Seq::<Passed>::empty();
    a_window_passes_everything_on(session, none, steps);
    let window = session.window_after(none, steps);
    let left = session.after_all(steps).listening.closing();
    let (frames, trailing) = closed_with(window, left);
    let spans = session.listening.closed_by(heard_in(steps));
    assert(stamps_on(none) + stamps(steps) =~= stamps(steps));
    assert(rows_on(none) + rows_for(spans) =~= rows_for(spans));
    if window.len() > 0 {
        lemma_with_row(window, left);
        assert(stamps_on(frames) =~= stamps_on(window));
    }
    match left {
        Some(span) => {
            assert(rows_for(spans.push(span)) =~= rows_for(spans).push(row_of(span)));
            assert(rows_on(frames) + trailing =~= rows_for(spans).push(row_of(span)));
        },
        None => {
            assert(rows_on(frames) + trailing =~= rows_for(spans));
        },
    }
}

/// Windows leave the clock to the payloads: when a payload is a whole number
/// of chunks and nothing was held back before it, nothing is held back after
/// it, and the next payload's own timestamp is believed again.
pub proof fn whole_payloads_keep_their_own_time(
    session: Session,
    pts: i64,
    bytes: Seq<u8>,
    next: i64,
)
    requires
        session.cutting.pending.len() == 0,
        bytes.len() % (4 * clock::CHUNK as nat) == 0,
    ensures
        ({
            let after = session.after_payload(pts, bytes);
            &&& after.cutting.pending.len() == 0
            &&& after.set_by(next).base == clock::seconds_of(
                next as int,
                session.time_base.0 as int,
                session.time_base.1 as int,
            )
        }),
{
    let fed = binary32::floats_of(bytes);
    assert(bytes.len() % 2048 == 0);
    assert(fed.len() % 512 == 0);
    chunker::whole_chunks_stay_aligned(session.set_by(pts), fed);
}

/// One thing that happens to a stream, within a window or between windows.
pub enum Event {
    /// A step of the window at hand.
    Step(Step),
    /// Other settings come into force.
    Retune(Params),
    /// The window closes, and the stream with it if it was the last.
    Close { last: bool },
}

impl Session {
    /// What stands after one event.
    pub open spec fn after_event(self, event: Event) -> Session {
        match event {
            Event::Step(step) => self.after(step),
            Event::Retune(params) => self.retuned(params),
            Event::Close { last } => self.closed(last),
        }
    }

    /// What stands after these events.
    pub open spec fn after_events(self, events: Seq<Event>) -> Session
        decreases events.len(),
    {
        if events.len() == 0 {
            self
        } else {
            self.after_events(events.drop_last()).after_event(events.last())
        }
    }
}

/// What the graph answered among these events.
pub open spec fn answers_in(events: Seq<Event>) -> Seq<Result<Vec<Output>, Failure>>
    decreases events.len(),
{
    if events.len() == 0 {
        Seq::empty()
    } else {
        match events.last() {
            Event::Step(Step::Answer { computed, .. }) => answers_in(events.drop_last()).push(
                computed,
            ),
            _ => answers_in(events.drop_last()),
        }
    }
}

/// The state is the last one the graph returned, and zeros before it has
/// returned any. Payloads, other settings and closing windows leave it alone.
pub proof fn the_state_is_the_last_returned(
    time_base: (i32, i32),
    params: Params,
    events: Seq<Event>,
)
    ensures
        Session::starting(time_base, params).after_events(events).state == graph::last_returned(
            blank_state(),
            answers_in(events),
        ),
    decreases events.len(),
{
    if events.len() > 0 {
        the_state_is_the_last_returned(time_base, params, events.drop_last());
        if let Event::Step(Step::Answer { computed, .. }) = events.last() {
            let before = answers_in(events.drop_last());
            assert(before.push(computed).drop_last() =~= before);
        }
    }
}

/// The state handed to the graph always has the length it expects.
pub proof fn the_state_keeps_its_length(session: Session, events: Seq<Event>)
    requires
        session.state.len() == STATE_LEN,
    ensures
        session.after_events(events).state.len() == STATE_LEN,
    decreases events.len(),
{
    if events.len() > 0 {
        the_state_keeps_its_length(session, events.drop_last());
    }
}

/// A stream starts listening under exactly the settings given, with nothing
/// open, nothing held back, its clock at zero and a state of zeros.
pub proof fn a_stream_starts_under_its_settings(time_base: (i32, i32), params: Params)
    ensures
        ({
            let start = Session::starting(time_base, params);
            &&& start.time_base == time_base
            &&& start.listening.threshold == params.threshold
            &&& start.listening.min_speech == params.min_speech
            &&& start.listening.min_silence == params.min_silence
            &&& start.listening.open is None
            &&& start.cutting.pending.len() == 0
            &&& start.cutting.base.bits == 0
            &&& start.cutting.consumed == 0
            &&& start.state.len() == 256
            &&& forall|i: int| 0 <= i < 256 ==> (#[trigger] start.state[i]).bits == 0
        }),
{
}

/// Other settings come into force exactly as given. What is open, held back or
/// carried stays as it is.
pub proof fn other_settings_come_into_force_as_given(session: Session, params: Params)
    ensures
        ({
            let after = session.retuned(params);
            &&& after.listening.threshold == params.threshold
            &&& after.listening.min_speech == params.min_speech
            &&& after.listening.min_silence == params.min_silence
            &&& after.listening.open == session.listening.open
            &&& after.time_base == session.time_base
            &&& after.cutting == session.cutting
            &&& after.state == session.state
        }),
{
}

/// What a payload completes: chunk `i` holds the samples from 512 times `i` on
/// of those held back and those that arrive. It starts that many samples after
/// the second of the payload's own timestamp when nothing was held back, and
/// where the clock has got to otherwise.
pub proof fn a_payload_completes_chunks_in_order(
    session: Session,
    pts: i64,
    bytes: Seq<u8>,
    i: int,
)
    requires
        0 <= i < session.cuts(pts, bytes).len(),
    ensures
        ({
            let cut = session.cuts(pts, bytes)[i];
            let all = session.cutting.pending + binary32::floats_of(bytes);
            let aligned = session.cutting.pending.len() == 0;
            let base = if aligned {
                Binary64::of_integer(pts as int).product(
                    Binary64::of_integer(session.time_base.0 as int),
                ).quotient(Binary64::of_integer(session.time_base.1 as int))
            } else {
                session.cutting.base
            };
            let before = if aligned {
                0
            } else {
                session.cutting.consumed as int
            };
            let count = (before + 512 * i) % 0x1_0000_0000_0000_0000;
            &&& cut.samples.len() == 512
            &&& forall|j: int| 0 <= j < 512 ==> (#[trigger] cut.samples[j]) == all[512 * i + j]
            &&& cut.at == base.sum(
                Binary64::of_integer(count).quotient(Binary64::of_integer(16_000)),
            )
        }),
{
    let set = session.set_by(pts);
    let fed = binary32::floats_of(bytes);
    chunker::chunks_hold_the_samples_in_order(set, fed, i);
}

/// What a payload leaves held back: what makes no chunk, in order. A span, the
/// state and the unit of time are as they were.
pub proof fn a_payload_leaves_what_makes_no_chunk(session: Session, pts: i64, bytes: Seq<u8>)
    ensures
        ({
            let after = session.after_payload(pts, bytes);
            let all = session.cutting.pending + binary32::floats_of(bytes);
            let n = session.cuts(pts, bytes).len();
            &&& n == all.len() / 512
            &&& after.cutting.pending.len() == all.len() % 512
            &&& forall|j: int|
                0 <= j < after.cutting.pending.len() ==> (#[trigger] after.cutting.pending[j])
                    == all[512 * n + j]
            &&& session.cutting.pending.len() > 0 ==> after.cutting.base == session.cutting.base
                && after.cutting.consumed == (session.cutting.consumed + 512 * n)
                % 0x1_0000_0000_0000_0000
            &&& session.cutting.pending.len() == 0 ==> after.cutting.base == Binary64::of_integer(
                pts as int,
            ).product(Binary64::of_integer(session.time_base.0 as int)).quotient(
                Binary64::of_integer(session.time_base.1 as int),
            ) && after.cutting.consumed == (512 * n) % 0x1_0000_0000_0000_0000
            &&& after.time_base == session.time_base
            &&& after.listening == session.listening
            &&& after.state == session.state
        }),
{
    chunker::what_makes_no_chunk_is_held_back(session.set_by(pts), binary32::floats_of(bytes));
}

/// What an answer does: a probability is heard at the chunk's own second, and
/// closes the span it closes there; a refused answer is not heard at all. The
/// state returned, if one is, is carried on either way.
pub proof fn an_answer_is_heard_at_its_chunk(
    session: Session,
    at: Binary64,
    computed: Result<Vec<Output>, Failure>,
)
    ensures
        ({
            let after = session.after_answer(at, computed);
            &&& after.time_base == session.time_base
            &&& after.cutting == session.cutting
            &&& after.state == match graph::returned_state(computed) {
                Some(state) => state,
                None => session.state,
            }
            &&& graph::answered(computed) matches Ok(probability) ==> {
                &&& after.listening == session.listening.after(probability, at)
                &&& session.emits(at, computed) == session.listening.emits(probability, at)
            }
            &&& graph::answered(computed) is Err ==> {
                &&& after.listening == session.listening
                &&& session.emits(at, computed) is None
            }
        }),
{
}

/// A span's row says `speech`, and has the span's own seconds.
pub proof fn a_row_has_its_spans_seconds(span: Span)
    ensures
        SPEECH@ == "speech"@,
        row_of(span).text@ == "speech"@,
        row_of(span).start_t == span.start_t,
        row_of(span).end_t == span.end_t,
{
}

/// A row goes last on the last payload, and nothing else changes.
pub proof fn a_row_rides_the_last_payload(frames: Seq<Passed>, span: Span)
    requires
        frames.len() > 0,
    ensures
        ({
            let after = with_row(frames, Some(span));
            let last = frames.len() - 1;
            &&& with_row(frames, None) == frames
            &&& after.len() == frames.len()
            &&& forall|k: int| 0 <= k < last ==> #[trigger] after[k] == frames[k]
            &&& after[last].pts == frames[last].pts
            &&& after[last].rows.len() == frames[last].rows.len() + 1
            &&& forall|j: int|
                0 <= j < frames[last].rows.len() ==> #[trigger] after[last].rows[j]
                    == frames[last].rows[j]
            &&& after[last].rows.last().text@ == "speech"@
            &&& after[last].rows.last().start_t == span.start_t
            &&& after[last].rows.last().end_t == span.end_t
        }),
{
}

/// What the end of a stream closes rides the last payload, and trails the
/// stream when there is none. A window that closes in between adds nothing.
pub proof fn what_is_left_rides_or_trails(session: Session, frames: Seq<Passed>, last: bool)
    ensures
        ({
            let left = session.listening.closing();
            let (out, trailing) = closed_with(frames, session.left(last));
            &&& !last || left is None ==> out == frames && trailing.len() == 0
            &&& last && frames.len() > 0 ==> out == with_row(frames, left) && trailing.len() == 0
            &&& last && frames.len() == 0 ==> out.len() == 0 && (left matches Some(span) ==> {
                &&& trailing.len() == 1
                &&& trailing[0].text@ == "speech"@
                &&& trailing[0].start_t == span.start_t
                &&& trailing[0].end_t == span.end_t
            })
        }),
{
}

/// Closing a window ends what is open at the end of the stream, and changes
/// nothing else.
pub proof fn closing_a_window_ends_what_is_open(session: Session, last: bool)
    ensures
        ({
            let after = session.closed(last);
            &&& last ==> after.listening.open is None
            &&& !last ==> after.listening.open == session.listening.open
            &&& after.listening.threshold == session.listening.threshold
            &&& after.listening.min_speech == session.listening.min_speech
            &&& after.listening.min_silence == session.listening.min_silence
            &&& after.time_base == session.time_base
            &&& after.cutting == session.cutting
            &&& after.state == session.state
        }),
{
}

/// A window goes step by step: a payload comes out with its own timestamp and
/// no row yet, and an answer's row rides the payload at hand.
pub proof fn a_window_goes_step_by_step(
    session: Session,
    frames: Seq<Passed>,
    steps: Seq<Step>,
    step: Step,
)
    ensures
        session.after_all(Seq::empty()) == session,
        session.window_after(frames, Seq::empty()) == frames,
        ({
            let (now, before) = (session.after_all(steps), session.window_after(frames, steps));
            let (next, after) = (
                session.after_all(steps.push(step)),
                session.window_after(frames, steps.push(step)),
            );
            match step {
                Step::Payload { pts, bytes } => {
                    &&& next == now.after_payload(pts, bytes)
                    &&& after.len() == before.len() + 1
                    &&& after.drop_last() == before
                    &&& after.last().pts == pts
                    &&& after.last().rows.len() == 0
                },
                Step::Answer { at, computed } => {
                    &&& next == now.after_answer(at, computed)
                    &&& after == match now.emits(at, computed) {
                        Some(span) => with_row(before, Some(span)),
                        None => before,
                    }
                },
            }
        }),
{
    assert(steps.push(step).drop_last() =~= steps);
    if let Step::Payload { pts, bytes } = step {
        assert(session.window_after(frames, steps.push(step)).drop_last() =~= session.window_after(
            frames,
            steps,
        ));
    }
}

/// A payload on its way out, as values, is what it holds.
pub proof fn a_frame_is_what_it_holds(frame: OutFrame)
    ensures
        frame@.pts == frame.pts,
        frame@.rows == frame.rows@,
{
}

/// Spans become rows one for one and in order, each with its own seconds.
pub proof fn spans_become_rows_in_order(spans: Seq<Span>, i: int)
    requires
        0 <= i < spans.len(),
    ensures
        rows_for(spans).len() == spans.len(),
        rows_for(spans)[i].text@ == "speech"@,
        rows_for(spans)[i].start_t == spans[i].start_t,
        rows_for(spans)[i].end_t == spans[i].end_t,
{
}

} // verus!
