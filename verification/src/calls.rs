//! The calls a host makes on a stream, from start to end.
//!
//! What the host does comes in as functions to call: loading the graph,
//! fetching a payload, and asking the graph about a chunk.

use crate::binary32::{self, Binary32};
use crate::binary64::Binary64;
use crate::chunker::{self, Chunk, Cut};
use crate::clock::CHUNK;
use crate::graph::{self, Failure, Given, Input, Output, TensorType, MODEL};
use crate::module::{self, Format, InitError};
use crate::params::{self, Params, ParamsError};
use crate::session::{self, Opened, OutFrame, Passed, Processed, Session, Step, Window};
use crate::spans::{Heard, Span};
use vstd::prelude::*;

verus! {

/// Why a stream could not be opened.
pub enum OpenError {
    /// The stream or its settings were refused.
    Refused(InitError),
    /// The graph could not be loaded.
    Load(Failure),
    /// No session could be built on the graph.
    Context(Failure),
}

impl OpenError {
    /// What the refusal says, with a number that was refused written as
    /// `value`.
    pub open spec fn said(self, value: Seq<char>) -> Seq<char> {
        match self {
            OpenError::Refused(InitError::Format(message)) => message@,
            OpenError::Refused(InitError::Params(error)) => error.said(value),
            OpenError::Load(error) => graph::failure_said(
                "load-by-name(\"speech\")"@,
                error.code,
                error.data@,
            ),
            OpenError::Context(error) => graph::failure_said(
                "init-execution-context"@,
                error.code,
                error.data@,
            ),
        }
    }

    /// The number that was refused, when it was one.
    pub fn value(&self) -> (r: Option<Binary64>)
        ensures
            r == match *self {
                OpenError::Refused(InitError::Params(ParamsError::NotAProbability(value)))
                | OpenError::Refused(InitError::Params(ParamsError::NegativeSpeech(value)))
                | OpenError::Refused(InitError::Params(ParamsError::NegativeSilence(value))) =>
                    Some(value),
                _ => None::<Binary64>,
            },
    {
        match self {
            OpenError::Refused(InitError::Params(error)) => error.value(),
            _ => None,
        }
    }

    /// What the refusal says, with a number that was refused written as
    /// `value`.
    pub fn message(&self, value: &str) -> (r: String)
        ensures
            r@ == self.said(value@),
    {
        match self {
            OpenError::Refused(InitError::Format(message)) => message.as_str().to_owned(),
            OpenError::Refused(InitError::Params(error)) => error.message(value),
            OpenError::Load(error) => graph::load_failed(error),
            OpenError::Context(error) => graph::context_failed(error),
        }
    }
}

/// Whether the graph is asked for at all: only once the stream and its
/// settings are good.
pub open spec fn wants_graph(format: Format, read: Option<Result<Params, String>>) -> bool {
    module::objection(format) is None && params::settled(read) is Ok
}

/// Opens a stream: the format first, then the settings, then the graph, which
/// `load` loads by its one name and `prepare` builds a session on. A stream
/// that was open before is replaced; where anything is refused it stays as it
/// is.
pub fn init<
    G,
    C,
    L: FnOnce(&'static str) -> Result<G, Failure>,
    P: FnOnce(&G) -> Result<C, Failure>,
>(
    opened: &mut Option<Opened>,
    format: &Format,
    time_base: (i32, i32),
    read: Option<Result<Params, String>>,
    load: L,
    prepare: P,
) -> (r: Result<(G, C), OpenError>)
    requires
        wants_graph(*format, read) ==> load.requires((MODEL,)),
        wants_graph(*format, read) ==> forall|graph: G|
            load.ensures((MODEL,), Ok(graph)) ==> #[trigger] prepare.requires((&graph,)),
    ensures
        match r {
            Ok((graph, context)) => {
                &&& module::objection(*format) is None
                &&& params::settled(read) matches Ok(settled) && *final(opened) matches Some(after)
                    && after@ == Session::starting(time_base, settled) && after@.time_base
                    == time_base && after@.listening.threshold == settled.threshold
                    && after@.listening.min_speech == settled.min_speech
                    && after@.listening.min_silence == settled.min_silence
                    && after@.listening.open is None && after@.cutting.pending.len() == 0
                &&& load.ensures((MODEL,), Ok(graph))
                &&& prepare.ensures((&graph,), Ok(context))
            },
            Err(_) => *final(opened) == *old(opened),
        },
        match r {
            Ok(_) => true,
            Err(OpenError::Refused(InitError::Format(message))) => module::objection(*format)
                == Some(message@),
            Err(OpenError::Refused(InitError::Params(error))) => module::objection(*format) is None
                && params::settled(read) == Err::<Params, ParamsError>(error),
            Err(OpenError::Load(error)) => wants_graph(*format, read) && load.ensures(
                (MODEL,),
                Err(error),
            ),
            Err(OpenError::Context(error)) => wants_graph(*format, read) && exists|graph: G|
                load.ensures((MODEL,), Ok(graph)) && #[trigger] prepare.ensures(
                    (&graph,),
                    Err(error),
                ),
        },
{
    match module::init(format, read) {
        Err(error) => Err(OpenError::Refused(error)),
        Ok(settled) => match load(MODEL) {
            Err(error) => Err(OpenError::Load(error)),
            Ok(graph) => match prepare(&graph) {
                Err(error) => Err(OpenError::Context(error)),
                Ok(context) => {
                    session::open(opened, time_base, &settled);
                    Ok((graph, context))
                },
            },
        },
    }
}

/// One payload of a window.
pub struct Payload {
    pub pts: i64,
    pub bytes: Vec<u8>,
}

/// One payload of a window, as values.
pub struct Arrived {
    pub pts: i64,
    pub bytes: Seq<u8>,
}

impl View for Payload {
    type V = Arrived;

    open spec fn view(&self) -> Arrived {
        Arrived { pts: self.pts, bytes: self.bytes@ }
    }
}

/// The payloads of a window, as values.
pub open spec fn arrived(payloads: Seq<Payload>) -> Seq<Arrived> {
    payloads.map_values(|payload: Payload| payload@)
}

/// One question to the graph, and the answer that was used.
pub struct Exchange {
    pub asked: Vec<Input>,
    pub computed: Result<Vec<Output>, Failure>,
}

impl Exchange {
    /// Whether these tensors are what was asked.
    pub open spec fn asks(self, given: Seq<Given>) -> bool {
        self.asked@.map_values(|input: Input| input@) == given
    }
}

/// The answers alone.
pub open spec fn answers_of(talk: Seq<Exchange>) -> Seq<Result<Vec<Output>, Failure>> {
    talk.map_values(|exchange: Exchange| exchange.computed)
}

impl Session {
    /// What is held once these payloads' chunks have gone.
    pub open spec fn fed(self, payloads: Seq<Arrived>) -> Session
        decreases payloads.len(),
    {
        if payloads.len() == 0 {
            self
        } else {
            let last = payloads.last();
            self.fed(payloads.drop_last()).after_payload(last.pts, last.bytes)
        }
    }

    /// The chunks these payloads complete, oldest first.
    pub open spec fn chunks_of(self, payloads: Seq<Arrived>) -> Seq<Cut>
        decreases payloads.len(),
    {
        if payloads.len() == 0 {
            Seq::empty()
        } else {
            let before = payloads.drop_last();
            let last = payloads.last();
            self.chunks_of(before) + self.fed(before).cuts(last.pts, last.bytes)
        }
    }

    /// What happens when these payloads arrive and the graph gives these
    /// answers: after each payload come the answers for its chunks.
    pub open spec fn steps_for(
        self,
        payloads: Seq<Arrived>,
        answers: Seq<Result<Vec<Output>, Failure>>,
    ) -> Seq<Step>
        decreases payloads.len(),
    {
        if payloads.len() == 0 {
            Seq::empty()
        } else {
            let before = payloads.drop_last();
            let last = payloads.last();
            let known = self.chunks_of(before).len();
            let cuts = self.fed(before).cuts(last.pts, last.bytes);
            let count = if answers.len() <= known {
                0
            } else if answers.len() - known <= cuts.len() {
                answers.len() - known
            } else {
                cuts.len() as int
            };
            self.steps_for(before, answers).push(
                Step::Payload { pts: last.pts, bytes: last.bytes },
            ) + Seq::new(
                count as nat,
                |i: int| Step::Answer { at: cuts[i].at, computed: answers[known + i] },
            )
        }
    }

    /// Whether this is the talk with the graph that counts when these payloads
    /// arrive: one answer used for each whole chunk, in order, to a question
    /// that hands over the chunk and the state last returned, until an answer
    /// is refused.
    pub open spec fn talks(self, payloads: Seq<Arrived>, talk: Seq<Exchange>) -> bool {
        let cuts = self.chunks_of(payloads);
        &&& talk.len() <= cuts.len()
        &&& forall|j: int|
            0 <= j < talk.len() ==> (#[trigger] talk[j]).asks(
                graph::asked(
                    graph::last_returned(self.state, answers_of(talk).take(j)),
                    cuts[j].samples,
                ),
            )
        &&& forall|j: int|
            0 <= j < talk.len() - 1 ==> graph::answered((#[trigger] talk[j]).computed) is Ok
        &&& talk.len() < cuts.len() ==> talk.len() > 0 && graph::answered(
            talk.last().computed,
        ) is Err
    }

    /// Whether there is an answer for every chunk of these payloads, and none
    /// of them refused.
    pub open spec fn completes(self, payloads: Seq<Arrived>, talk: Seq<Exchange>) -> bool {
        &&& talk.len() == self.chunks_of(payloads).len()
        &&& forall|j: int|
            0 <= j < talk.len() ==> graph::answered((#[trigger] talk[j]).computed) is Ok
    }

    /// What stands after a call with these payloads and this talk.
    pub open spec fn after_talk(
        self,
        payloads: Seq<Arrived>,
        talk: Seq<Exchange>,
        last: bool,
    ) -> Session {
        self.after_all(self.steps_for(payloads, answers_of(talk))).closed(last)
    }

    /// What leaves after such a call: the payloads, and what trails them.
    pub open spec fn leaves(
        self,
        payloads: Seq<Arrived>,
        talk: Seq<Exchange>,
        last: bool,
    ) -> (Seq<Passed>, Seq<session::Row>) {
        let steps = self.steps_for(payloads, answers_of(talk));
        session::closed_with(
            self.window_after(Seq::empty(), steps),
            self.after_all(steps).left(last),
        )
    }

    /// Whether `after` stands once the last answer of `talk` was refused: the
    /// chunk it was for is one of the last payload's, and nothing came after.
    pub open spec fn breaks_off(
        self,
        payloads: Seq<Arrived>,
        talk: Seq<Exchange>,
        after: Session,
    ) -> bool {
        &&& payloads.len() > 0
        &&& self.chunks_of(payloads.drop_last()).len() < talk.len()
        &&& after == self.after_all(self.steps_for(payloads, answers_of(talk)))
    }
}

impl Session {
    /// Whether a call with these payloads and this talk ends with `r`, leaving
    /// `after`.
    pub open spec fn ends(
        self,
        payloads: Seq<Arrived>,
        talk: Seq<Exchange>,
        last: bool,
        r: Result<Processed, String>,
        after: Session,
    ) -> bool {
        &&& after.state == graph::last_returned(self.state, answers_of(talk))
        &&& match r {
            Ok(processed) => {
                let frames = processed.frames@.map_values(|frame: OutFrame| frame@);
                &&& self.completes(payloads, talk)
                &&& after == self.after_talk(payloads, talk, last)
                &&& (frames, processed.trailing@) == self.leaves(payloads, talk, last)
            },
            Err(message) => {
                &&& talk.len() > 0
                &&& graph::answered(talk.last().computed) == Err::<Binary64, Seq<char>>(message@)
                &&& self.breaks_off(payloads, talk, after)
            },
        }
    }
}

/// Whether each of these answers is one that `compute` gave.
pub open spec fn computed_by<F: Fn(Vec<Input>) -> Result<Vec<Output>, Failure>>(
    compute: F,
    talk: Seq<Exchange>,
) -> bool {
    forall|j: int|
        0 <= j < talk.len() ==> compute.ensures(((#[trigger] talk[j]).asked,), talk[j].computed)
}

/// Whether each of these payloads is one that `fetch` gave, counted from zero.
pub open spec fn fetched_by<P: Fn(u32) -> Payload>(fetch: P, payloads: Seq<Payload>) -> bool {
    forall|i: int|
        0 <= i < payloads.len() ==> fetch.ensures((i as u32,), #[trigger] payloads[i])
}

/// What happens while some payloads arrive depends on the answers for their
/// own chunks only.
proof fn lemma_own_answers(
    session: Session,
    payloads: Seq<Arrived>,
    a: Seq<Result<Vec<Output>, Failure>>,
    b: Seq<Result<Vec<Output>, Failure>>,
)
    requires
        session.chunks_of(payloads).len() <= a.len(),
        session.chunks_of(payloads).len() <= b.len(),
        forall|j: int|
            0 <= j < session.chunks_of(payloads).len() ==> #[trigger] a[j] == #[trigger] b[j],
    ensures
        session.steps_for(payloads, a) == session.steps_for(payloads, b),
    decreases payloads.len(),
{
    if payloads.len() > 0 {
        lemma_own_answers(session, payloads.drop_last(), a, b);
        assert(session.steps_for(payloads, a) =~= session.steps_for(payloads, b));
    }
}

/// One more answer is one more step.
proof fn lemma_one_more_answer(
    session: Session,
    payloads: Seq<Arrived>,
    answers: Seq<Result<Vec<Output>, Failure>>,
    next: Result<Vec<Output>, Failure>,
)
    requires
        payloads.len() > 0,
        session.chunks_of(payloads.drop_last()).len() <= answers.len(),
        answers.len() < session.chunks_of(payloads).len(),
    ensures
        session.steps_for(payloads, answers.push(next)) == session.steps_for(
            payloads,
            answers,
        ).push(
            Step::Answer { at: session.chunks_of(payloads)[answers.len() as int].at, computed: next },
        ),
{
    let before = payloads.drop_last();
    lemma_own_answers(session, before, answers, answers.push(next));
    assert(session.steps_for(payloads, answers.push(next)) =~= session.steps_for(
        payloads,
        answers,
    ).push(
        Step::Answer { at: session.chunks_of(payloads)[answers.len() as int].at, computed: next },
    ));
}

/// One more payload is one more step, until its chunks are answered for.
proof fn lemma_one_more_payload(
    session: Session,
    payloads: Seq<Arrived>,
    answers: Seq<Result<Vec<Output>, Failure>>,
)
    requires
        payloads.len() > 0,
        answers.len() == session.chunks_of(payloads.drop_last()).len(),
    ensures
        session.steps_for(payloads, answers) == session.steps_for(
            payloads.drop_last(),
            answers,
        ).push(Step::Payload { pts: payloads.last().pts, bytes: payloads.last().bytes }),
{
    assert(session.steps_for(payloads, answers) =~= session.steps_for(
        payloads.drop_last(),
        answers,
    ).push(Step::Payload { pts: payloads.last().pts, bytes: payloads.last().bytes }));
}

impl Session {
    /// Whether `now` and `window` stand once these payloads have arrived and
    /// the graph has been talked to so far.
    #[verifier::opaque]
    spec fn reaches(
        self,
        payloads: Seq<Arrived>,
        talk: Seq<Exchange>,
        now: Session,
        window: Seq<Passed>,
    ) -> bool {
        let steps = self.steps_for(payloads, answers_of(talk));
        &&& now == self.after_all(steps)
        &&& window == self.window_after(Seq::empty(), steps)
        &&& now.state == graph::last_returned(self.state, answers_of(talk))
        &&& now.cutting == self.fed(payloads).cutting
        &&& now.time_base == self.fed(payloads).time_base
    }

    /// Whether the graph was asked, with each chunk, for what `talks` says.
    #[verifier::opaque]
    spec fn asks_well(self, payloads: Seq<Arrived>, talk: Seq<Exchange>) -> bool {
        let cuts = self.chunks_of(payloads);
        &&& talk.len() <= cuts.len()
        &&& forall|j: int|
            0 <= j < talk.len() ==> (#[trigger] talk[j]).asks(
                graph::asked(
                    graph::last_returned(self.state, answers_of(talk).take(j)),
                    cuts[j].samples,
                ),
            )
    }
}

/// Whether none of these answers was refused.
#[verifier::opaque]
spec fn goes_well(talk: Seq<Exchange>) -> bool {
    forall|j: int| 0 <= j < talk.len() ==> graph::answered((#[trigger] talk[j]).computed) is Ok
}

/// One more payload arrives.
proof fn lemma_payload_arrives(
    start: Session,
    payloads: Seq<Arrived>,
    talk: Seq<Exchange>,
    now: Session,
    window: Seq<Passed>,
)
    requires
        payloads.len() > 0,
        start.reaches(payloads.drop_last(), talk, now, window),
        talk.len() == start.chunks_of(payloads.drop_last()).len(),
    ensures
        ({
            let last = payloads.last();
            &&& start.reaches(
                payloads,
                talk,
                now.after_payload(last.pts, last.bytes),
                window.push(Passed { pts: last.pts, rows: Seq::empty() }),
            )
            &&& now.cuts(last.pts, last.bytes) == start.fed(payloads.drop_last()).cuts(
                last.pts,
                last.bytes,
            )
        }),
{
    reveal(Session::reaches);
    let last = payloads.last();
    let answers = answers_of(talk);
    lemma_one_more_payload(start, payloads, answers);
    let steps = start.steps_for(payloads.drop_last(), answers);
    let step = Step::Payload { pts: last.pts, bytes: last.bytes };
    assert(steps.push(step).drop_last() =~= steps);
}

/// What was asked stays asked when one more payload arrives.
proof fn lemma_asked_before(start: Session, payloads: Seq<Arrived>, talk: Seq<Exchange>)
    requires
        payloads.len() > 0,
        start.asks_well(payloads.drop_last(), talk),
    ensures
        start.asks_well(payloads, talk),
{
    reveal(Session::asks_well);
    let (some, all) = (start.chunks_of(payloads.drop_last()), start.chunks_of(payloads));
    assert forall|j: int| 0 <= j < talk.len() implies (#[trigger] talk[j]).asks(
        graph::asked(
            graph::last_returned(start.state, answers_of(talk).take(j)),
            all[j].samples,
        ),
    ) by {
        assert(all[j] == some[j]);
    }
}

/// What was asked stays asked when the graph is asked once more.
proof fn lemma_asked_once_more(
    start: Session,
    payloads: Seq<Arrived>,
    talk: Seq<Exchange>,
    next: Exchange,
)
    requires
        start.asks_well(payloads, talk),
        talk.len() < start.chunks_of(payloads).len(),
        next.asks(
            graph::asked(
                graph::last_returned(start.state, answers_of(talk)),
                start.chunks_of(payloads)[talk.len() as int].samples,
            ),
        ),
    ensures
        start.asks_well(payloads, talk.push(next)),
{
    reveal(Session::asks_well);
    let cuts = start.chunks_of(payloads);
    let more = talk.push(next);
    assert forall|j: int| 0 <= j < more.len() implies (#[trigger] more[j]).asks(
        graph::asked(
            graph::last_returned(start.state, answers_of(more).take(j)),
            cuts[j].samples,
        ),
    ) by {
        if j < talk.len() {
            assert(answers_of(more).take(j) =~= answers_of(talk).take(j));
            assert(talk[j].asks(
                graph::asked(
                    graph::last_returned(start.state, answers_of(talk).take(j)),
                    cuts[j].samples,
                ),
            ));
        } else {
            assert(answers_of(more).take(j) =~= answers_of(talk));
        }
    }
}

/// The graph gives one more answer.
proof fn lemma_answer_arrives(
    start: Session,
    payloads: Seq<Arrived>,
    talk: Seq<Exchange>,
    now: Session,
    window: Seq<Passed>,
    next: Exchange,
)
    requires
        payloads.len() > 0,
        start.reaches(payloads, talk, now, window),
        start.chunks_of(payloads.drop_last()).len() <= talk.len(),
        talk.len() < start.chunks_of(payloads).len(),
    ensures
        now.state == graph::last_returned(start.state, answers_of(talk)),
        ({
            let at = start.chunks_of(payloads)[talk.len() as int].at;
            start.reaches(
                payloads,
                talk.push(next),
                now.after_answer(at, next.computed),
                session::with_row(window, now.emits(at, next.computed)),
            )
        }),
{
    reveal(Session::reaches);
    let at = start.chunks_of(payloads)[talk.len() as int].at;
    let answers = answers_of(talk);
    assert(answers_of(talk.push(next)) =~= answers.push(next.computed));
    lemma_one_more_answer(start, payloads, answers, next.computed);
    let steps = start.steps_for(payloads, answers);
    let step = Step::Answer { at, computed: next.computed };
    assert(steps.push(step).drop_last() =~= steps);
    assert(answers.push(next.computed).drop_last() =~= answers);
}

/// Talk that goes well, up to a last answer that is refused, is as it should
/// be.
#[verifier::spinoff_prover]
proof fn lemma_talks(start: Session, payloads: Seq<Arrived>, talk: Seq<Exchange>)
    requires
        start.asks_well(payloads, talk),
        talk.len() > 0 ==> goes_well(talk.drop_last()),
        talk.len() < start.chunks_of(payloads).len() ==> talk.len() > 0 && graph::answered(
            talk.last().computed,
        ) is Err,
    ensures
        start.talks(payloads, talk),
{
    reveal(Session::asks_well);
    assert forall|j: int| 0 <= j < talk.len() - 1 implies graph::answered(
        (#[trigger] talk[j]).computed,
    ) is Ok by {
        lemma_went_well(talk.drop_last(), j);
    }
}

/// Each answer of talk that goes well is a good one.
proof fn lemma_went_well(talk: Seq<Exchange>, j: int)
    requires
        goes_well(talk),
        0 <= j < talk.len(),
    ensures
        graph::answered(talk[j].computed) is Ok,
{
    reveal(goes_well);
}

/// Talk that goes well went well before its last answer.
proof fn lemma_went_well_before(talk: Seq<Exchange>)
    requires
        goes_well(talk),
        talk.len() > 0,
    ensures
        goes_well(talk.drop_last()),
        graph::answered(talk.last().computed) is Ok,
{
    reveal(goes_well);
    let said = talk.drop_last();
    assert forall|j: int| 0 <= j < said.len() implies graph::answered(
        (#[trigger] said[j]).computed,
    ) is Ok by {
        assert(said[j] == talk[j]);
    }
    assert(talk[talk.len() - 1] == talk.last());
}

/// A refused answer ends the call.
#[verifier::spinoff_prover]
proof fn lemma_breaks_off(
    start: Session,
    payloads: Seq<Arrived>,
    talk: Seq<Exchange>,
    now: Session,
    window: Seq<Passed>,
)
    requires
        payloads.len() > 0,
        start.reaches(payloads, talk, now, window),
        start.chunks_of(payloads.drop_last()).len() < talk.len(),
    ensures
        start.breaks_off(payloads, talk, now),
        now.state == graph::last_returned(start.state, answers_of(talk)),
{
    reveal(Session::reaches);
}

/// Once every chunk has been answered for, the window closes.
#[verifier::spinoff_prover]
proof fn lemma_completes(
    start: Session,
    payloads: Seq<Arrived>,
    talk: Seq<Exchange>,
    now: Session,
    window: Seq<Passed>,
    last: bool,
)
    requires
        start.reaches(payloads, talk, now, window),
        talk.len() == start.chunks_of(payloads).len(),
        goes_well(talk),
    ensures
        start.completes(payloads, talk),
        now.closed(last) == start.after_talk(payloads, talk, last),
        session::closed_with(window, now.left(last)) == start.leaves(payloads, talk, last),
        now.closed(last).state == graph::last_returned(start.state, answers_of(talk)),
{
    reveal(Session::reaches);
    assert forall|j: int| 0 <= j < talk.len() implies graph::answered(
        (#[trigger] talk[j]).computed,
    ) is Ok by {
        lemma_went_well(talk, j);
    }
}

impl Opened {
    /// Asks the graph about one chunk and takes its answer.
    fn ask<F: Fn(Vec<Input>) -> Result<Vec<Output>, Failure>>(
        &mut self,
        window: &mut Window,
        chunk: &Chunk,
        compute: &F,
        Ghost(start): Ghost<Session>,
        Ghost(payloads): Ghost<Seq<Arrived>>,
        Ghost(talk): Ghost<Seq<Exchange>>,
    ) -> (r: (Result<(), String>, Ghost<Exchange>))
        requires
            old(window)@.len() > 0,
            forall|inputs: Vec<Input>| compute.requires((inputs,)),
            payloads.len() > 0,
            start.reaches(payloads, talk, old(self)@, old(window)@),
            start.asks_well(payloads, talk),
            goes_well(talk),
            start.chunks_of(payloads.drop_last()).len() <= talk.len(),
            talk.len() < start.chunks_of(payloads).len(),
            chunk@ == start.chunks_of(payloads)[talk.len() as int],
        ensures
            final(window)@.len() > 0,
            compute.ensures((r.1@.asked,), r.1@.computed),
            start.reaches(payloads, talk.push(r.1@), final(self)@, final(window)@),
            start.asks_well(payloads, talk.push(r.1@)),
            match r.0 {
                Ok(_) => goes_well(talk.push(r.1@)),
                Err(message) => graph::answered(r.1@.computed) == Err::<Binary64, Seq<char>>(
                    message@,
                ),
            },
    {
        let ghost (before, frames) = (self@, window@);
        let inputs: Vec<Input> = self.request(chunk);
        let ghost asked = inputs;
        assert(asked@.map_values(|input: Input| input@) =~= graph::asked(
            before.state,
            chunk@.samples,
        ));
        let computed: Result<Vec<Output>, Failure> = compute(inputs);
        let ghost next = Exchange { asked, computed };
        let r: Result<(), String> = self.answer(window, chunk, computed);
        proof {
            lemma_answer_arrives(start, payloads, talk, before, frames, next);
            lemma_asked_once_more(start, payloads, talk, next);
            reveal(goes_well);
        }
        (r, Ghost(next))
    }

    /// Asks the graph about the chunks of the payload at hand, and takes its
    /// answers, until one is refused.
    fn ask_about<F: Fn(Vec<Input>) -> Result<Vec<Output>, Failure>>(
        &mut self,
        window: &mut Window,
        chunks: &Vec<Chunk>,
        compute: &F,
        Ghost(start): Ghost<Session>,
        Ghost(payloads): Ghost<Seq<Arrived>>,
        Ghost(talk): Ghost<Seq<Exchange>>,
    ) -> (r: (Result<(), String>, Ghost<Seq<Exchange>>))
        requires
            old(window)@.len() > 0,
            forall|inputs: Vec<Input>| compute.requires((inputs,)),
            payloads.len() > 0,
            start.reaches(payloads, talk, old(self)@, old(window)@),
            start.asks_well(payloads, talk),
            goes_well(talk),
            computed_by(*compute, talk),
            talk.len() == start.chunks_of(payloads.drop_last()).len(),
            talk.len() + chunks@.len() == start.chunks_of(payloads).len(),
            forall|j: int|
                0 <= j < chunks@.len() ==> (#[trigger] chunks@[j])@ == start.chunks_of(
                    payloads,
                )[talk.len() + j],
        ensures
            computed_by(*compute, r.1@),
            start.reaches(payloads, r.1@, final(self)@, final(window)@),
            start.asks_well(payloads, r.1@),
            match r.0 {
                Ok(_) => goes_well(r.1@) && r.1@.len() == start.chunks_of(payloads).len(),
                Err(message) => {
                    &&& talk.len() < r.1@.len() <= start.chunks_of(payloads).len()
                    &&& goes_well(r.1@.drop_last())
                    &&& graph::answered(r.1@.last().computed) == Err::<Binary64, Seq<char>>(
                        message@,
                    )
                },
            },
    {
        let ghost known = talk.len();
        let ghost mut said = talk;
        let mut i: usize = 0;
        while i < chunks.len()
            invariant
                i <= chunks@.len(),
                said.len() == known + i,
                known == talk.len(),
                known == start.chunks_of(payloads.drop_last()).len(),
                known + chunks@.len() == start.chunks_of(payloads).len(),
                forall|j: int|
                    0 <= j < chunks@.len() ==> (#[trigger] chunks@[j])@ == start.chunks_of(
                        payloads,
                    )[known + j],
                window@.len() > 0,
                payloads.len() > 0,
                start.reaches(payloads, said, self@, window@),
                start.asks_well(payloads, said),
                goes_well(said),
                computed_by(*compute, said),
                forall|inputs: Vec<Input>| compute.requires((inputs,)),
            decreases chunks@.len() - i,
        {
            assert(chunks@[i as int]@ == start.chunks_of(payloads)[known + i]);
            let (r, Ghost(next)) = self.ask(
                window,
                &chunks[i],
                compute,
                Ghost(start),
                Ghost(payloads),
                Ghost(said),
            );
            proof {
                assert(said.push(next).drop_last() =~= said);
                said = said.push(next);
            }
            if let Err(message) = r {
                return (Err(message), Ghost(said));
            }
            i = i + 1;
        }
        (Ok(()), Ghost(said))
    }

    /// One call: `count` payloads arrive, each fetched when its turn comes, the
    /// graph is asked about every chunk they complete, and the window closes.
    /// A graph that fails, or whose answer makes no sense, ends the call with
    /// a message. Of what `fetch` and `compute` are asked, the contract speaks
    /// of the payloads and the answers that are used.
    pub fn process<P: Fn(u32) -> Payload, F: Fn(Vec<Input>) -> Result<Vec<Output>, Failure>>(
        &mut self,
        count: u32,
        fetch: P,
        compute: F,
        last: bool,
    ) -> (r: Result<Processed, String>)
        requires
            forall|i: u32| i < count ==> #[trigger] fetch.requires((i,)),
            forall|inputs: Vec<Input>| compute.requires((inputs,)),
        ensures
            exists|payloads: Seq<Payload>, talk: Seq<Exchange>|
                {
                    &&& #[trigger] old(self)@.talks(arrived(payloads), talk)
                    &&& fetched_by(fetch, payloads)
                    &&& computed_by(compute, talk)
                    &&& payloads.len() <= count
                    &&& r is Ok ==> payloads.len() == count
                    &&& old(self)@.ends(arrived(payloads), talk, last, r, final(self)@)
                },
    {
        let ghost start = self@;
        let ghost mut got = Seq::<Payload>::empty();
        let ghost mut talk = Seq::<Exchange>::empty();
        let mut window: Window = Window::new();
        proof {
            reveal(Session::reaches);
            reveal(Session::asks_well);
            reveal(goes_well);
            assert(arrived(got) =~= Seq::empty());
            assert(answers_of(talk) =~= Seq::empty());
        }
        let mut k: u32 = 0;
        while k < count
            invariant
                k <= count,
                start == old(self)@,
                got.len() == k,
                fetched_by(fetch, got),
                talk.len() == start.chunks_of(arrived(got)).len(),
                start.reaches(arrived(got), talk, self@, window@),
                start.asks_well(arrived(got), talk),
                goes_well(talk),
                computed_by(compute, talk),
                forall|i: u32| i < count ==> #[trigger] fetch.requires((i,)),
                forall|inputs: Vec<Input>| compute.requires((inputs,)),
            decreases count - k,
        {
            let payload: Payload = fetch(k);
            let ghost some = arrived(got.push(payload));
            proof {
                assert(some.drop_last() =~= arrived(got));
                assert(some.last() == payload@);
                lemma_payload_arrives(start, some, talk, self@, window@);
                lemma_asked_before(start, some, talk);
                got = got.push(payload);
            }
            let chunks: Vec<Chunk> = self.payload(
                &mut window,
                payload.pts,
                payload.bytes.as_slice(),
            );
            let (r, Ghost(said)) = self.ask_about(
                &mut window,
                &chunks,
                &compute,
                Ghost(start),
                Ghost(some),
                Ghost(talk),
            );
            if let Err(message) = r {
                proof {
                    lemma_talks(start, some, said);
                    lemma_breaks_off(start, some, said, self@, window@);
                }
                return Err(message);
            }
            proof {
                talk = said;
            }
            k = k + 1;
        }
        proof {
            if talk.len() > 0 {
                lemma_went_well_before(talk);
            }
            lemma_talks(start, arrived(got), talk);
            lemma_completes(start, arrived(got), talk, self@, window@, last);
        }
        Ok(self.close(window, last))
    }
}

/// The samples of these payloads, one after another.
pub open spec fn samples_in(payloads: Seq<Arrived>) -> Seq<Binary32>
    decreases payloads.len(),
{
    if payloads.len() == 0 {
        Seq::empty()
    } else {
        samples_in(payloads.drop_last()) + binary32::floats_of(payloads.last().bytes)
    }
}

/// The samples of chunks put together are theirs put together.
pub(crate) proof fn lemma_samples_of(a: Seq<Cut>, b: Seq<Cut>)
    ensures
        chunker::samples_of(a + b) == chunker::samples_of(a) + chunker::samples_of(b),
    decreases b.len(),
{
    if b.len() == 0 {
        assert(a + b =~= a);
        assert(chunker::samples_of(a) + chunker::samples_of(b) =~= chunker::samples_of(a));
    } else {
        lemma_samples_of(a, b.drop_last());
        assert((a + b).drop_last() =~= a + b.drop_last());
        assert(chunker::samples_of(a + b) =~= chunker::samples_of(a) + chunker::samples_of(b));
    }
}

/// What was cut and what waits, put together before and after more arrives.
pub(crate) proof fn lemma_rejoined<A>(
    done: Seq<A>,
    waiting: Seq<A>,
    held: Seq<A>,
    fed: Seq<A>,
    cut: Seq<A>,
    left: Seq<A>,
    more: Seq<A>,
)
    requires
        done + waiting == held + fed,
        cut + left == waiting + more,
    ensures
        (done + cut) + left == held + (fed + more),
{
    assert((done + cut) + left =~= done + (cut + left));
    assert(done + (waiting + more) =~= (done + waiting) + more);
    assert((held + fed) + more =~= held + (fed + more));
}

/// Every sample of a call's payloads goes into one chunk, in order, or waits
/// for the samples that finish its chunk.
pub proof fn payloads_go_through_in_order(session: Session, payloads: Seq<Arrived>)
    ensures
        chunker::samples_of(session.chunks_of(payloads)) + session.fed(payloads).cutting.pending
            == session.cutting.pending + samples_in(payloads),
        forall|j: int|
            0 <= j < session.chunks_of(payloads).len() ==> (#[trigger] session.chunks_of(
                payloads,
            )[j]).samples.len() == CHUNK,
    decreases payloads.len(),
{
    if payloads.len() == 0 {
        assert(Seq::<Binary32>::empty() + session.cutting.pending =~= session.cutting.pending
            + Seq::<Binary32>::empty());
    } else {
        let before = payloads.drop_last();
        let last = payloads.last();
        payloads_go_through_in_order(session, before);
        let now = session.fed(before);
        let set = now.set_by(last.pts);
        let fed = binary32::floats_of(last.bytes);
        chunker::samples_go_through_in_order(set, fed);
        chunker::chunks_are_whole(set, fed);
        lemma_samples_of(session.chunks_of(before), set.cuts(fed));
        lemma_rejoined(
            chunker::samples_of(session.chunks_of(before)),
            now.cutting.pending,
            session.cutting.pending,
            samples_in(before),
            chunker::samples_of(set.cuts(fed)),
            set.after(fed).pending,
            fed,
        );
    }
}

/// Answers carry the state on from wherever it stood.
pub proof fn the_state_carries_over(
    state: Seq<Binary32>,
    a: Seq<Result<Vec<Output>, Failure>>,
    b: Seq<Result<Vec<Output>, Failure>>,
)
    ensures
        graph::last_returned(state, a + b) == graph::last_returned(
            graph::last_returned(state, a),
            b,
        ),
    decreases b.len(),
{
    if b.len() == 0 {
        assert(a + b =~= a);
    } else {
        the_state_carries_over(state, a, b.drop_last());
        assert((a + b).drop_last() =~= a + b.drop_last());
    }
}

/// What a call reaches.
#[verifier::spinoff_prover]
proof fn lemma_call_reaches(session: Session, payloads: Seq<Arrived>, talk: Seq<Exchange>)
    requires
        payloads.len() == 0 ==> talk.len() == 0,
        payloads.len() > 0 ==> session.chunks_of(payloads.drop_last()).len() <= talk.len()
            <= session.chunks_of(payloads).len(),
    ensures
        ({
            let steps = session.steps_for(payloads, answers_of(talk));
            session.reaches(
                payloads,
                talk,
                session.after_all(steps),
                session.window_after(Seq::empty(), steps),
            )
        }),
    decreases payloads.len(), talk.len(),
{
    reveal(Session::reaches);
    if payloads.len() == 0 {
        assert(answers_of(talk) =~= Seq::empty());
    } else {
        let before = payloads.drop_last();
        if talk.len() == session.chunks_of(before).len() {
            lemma_call_reaches(session, before, talk);
            let steps = session.steps_for(before, answers_of(talk));
            lemma_payload_arrives(
                session,
                payloads,
                talk,
                session.after_all(steps),
                session.window_after(Seq::empty(), steps),
            );
        } else {
            let said = talk.drop_last();
            lemma_call_reaches(session, payloads, said);
            let steps = session.steps_for(payloads, answers_of(said));
            lemma_answer_arrives(
                session,
                payloads,
                said,
                session.after_all(steps),
                session.window_after(Seq::empty(), steps),
                talk.last(),
            );
            assert(said.push(talk.last()) =~= talk);
        }
    }
}

/// What a call that goes through leaves: the samples that wait, and the state
/// last returned.
pub(crate) proof fn lemma_call_leaves(
    session: Session,
    payloads: Seq<Arrived>,
    talk: Seq<Exchange>,
    last: bool,
)
    requires
        session.completes(payloads, talk),
    ensures
        ({
            let after = session.after_talk(payloads, talk, last);
            &&& after.state == graph::last_returned(session.state, answers_of(talk))
            &&& after.cutting == session.fed(payloads).cutting
            &&& after.time_base == session.fed(payloads).time_base
        }),
{
    lemma_call_reaches(session, payloads, talk);
    reveal(Session::reaches);
}

/// The timestamps of these payloads.
pub open spec fn stamps_of(payloads: Seq<Arrived>) -> Seq<i64> {
    payloads.map_values(|payload: Arrived| payload.pts)
}

/// What was heard: each of these chunks as probable as the graph answered.
pub open spec fn heard_of(cuts: Seq<Cut>, talk: Seq<Exchange>) -> Seq<Heard> {
    Seq::new(
        talk.len(),
        |j: int|
            Heard {
                probability: graph::answered(talk[j].computed)->Ok_0,
                at: cuts[j].at,
            },
    )
}

impl Session {
    /// Whether the steps of a call bring its payloads and its answers, payloads
    /// first.
    #[verifier::opaque]
    spec fn brings(self, payloads: Seq<Arrived>, talk: Seq<Exchange>) -> bool {
        let steps = self.steps_for(payloads, answers_of(talk));
        &&& session::stamps(steps) == stamps_of(payloads)
        &&& session::heard_in(steps) == heard_of(self.chunks_of(payloads), talk)
        &&& steps.len() > 0 <==> payloads.len() > 0
        &&& steps.len() > 0 ==> steps[0] is Payload
    }
}

/// One more payload brings its timestamp.
#[verifier::spinoff_prover]
proof fn lemma_payload_brings(session: Session, payloads: Seq<Arrived>, talk: Seq<Exchange>)
    requires
        payloads.len() > 0,
        talk.len() == session.chunks_of(payloads.drop_last()).len(),
        session.brings(payloads.drop_last(), talk),
    ensures
        session.brings(payloads, talk),
{
    reveal(Session::brings);
    let before = payloads.drop_last();
    lemma_one_more_payload(session, payloads, answers_of(talk));
    let steps = session.steps_for(before, answers_of(talk));
    let step = Step::Payload { pts: payloads.last().pts, bytes: payloads.last().bytes };
    assert(steps.push(step).drop_last() =~= steps);
    assert(stamps_of(payloads) =~= stamps_of(before).push(payloads.last().pts));
    assert(heard_of(session.chunks_of(payloads), talk) =~= heard_of(
        session.chunks_of(before),
        talk,
    ));
}

/// One more answer brings what was heard.
#[verifier::spinoff_prover]
proof fn lemma_answer_brings(
    session: Session,
    payloads: Seq<Arrived>,
    talk: Seq<Exchange>,
    next: Exchange,
)
    requires
        payloads.len() > 0,
        session.chunks_of(payloads.drop_last()).len() <= talk.len(),
        talk.len() < session.chunks_of(payloads).len(),
        session.brings(payloads, talk),
        graph::answered(next.computed) is Ok,
    ensures
        session.brings(payloads, talk.push(next)),
{
    reveal(Session::brings);
    let cuts = session.chunks_of(payloads);
    let at = cuts[talk.len() as int].at;
    let probability = graph::answered(next.computed)->Ok_0;
    lemma_one_more_answer(session, payloads, answers_of(talk), next.computed);
    assert(answers_of(talk).push(next.computed) =~= answers_of(talk.push(next)));
    let steps = session.steps_for(payloads, answers_of(talk));
    assert(steps.push(Step::Answer { at, computed: next.computed }).drop_last() =~= steps);
    assert(heard_of(cuts, talk.push(next)) =~= heard_of(cuts, talk).push(
        Heard { probability, at },
    ));
}

/// The steps of a call bring its payloads and its answers.
proof fn lemma_call_brings(session: Session, payloads: Seq<Arrived>, talk: Seq<Exchange>)
    requires
        payloads.len() == 0 ==> talk.len() == 0,
        payloads.len() > 0 ==> session.chunks_of(payloads.drop_last()).len() <= talk.len()
            <= session.chunks_of(payloads).len(),
        goes_well(talk),
    ensures
        session.brings(payloads, talk),
    decreases payloads.len(), talk.len(),
{
    if payloads.len() == 0 {
        reveal(Session::brings);
        assert(stamps_of(payloads) =~= Seq::empty());
        assert(heard_of(session.chunks_of(payloads), talk) =~= Seq::empty());
    } else if talk.len() == session.chunks_of(payloads.drop_last()).len() {
        lemma_call_brings(session, payloads.drop_last(), talk);
        lemma_payload_brings(session, payloads, talk);
    } else {
        let said = talk.drop_last();
        lemma_went_well_before(talk);
        lemma_call_brings(session, payloads, said);
        lemma_answer_brings(session, payloads, said, talk.last());
        assert(said.push(talk.last()) =~= talk);
    }
}

/// A call passes its payloads on, one out for each in, and on them, or after
/// them when there are none, one row for each span that its chunks close; at
/// the end of the stream also for what is still open.
pub proof fn a_call_passes_everything_on(
    session: Session,
    payloads: Seq<Arrived>,
    talk: Seq<Exchange>,
    last: bool,
)
    requires
        session.completes(payloads, talk),
    ensures
        ({
            let (frames, trailing) = session.leaves(payloads, talk, last);
            let heard = heard_of(session.chunks_of(payloads), talk);
            &&& session::stamps_on(frames) == stamps_of(payloads)
            &&& session::rows_on(frames) + trailing == session::rows_for(
                if last {
                    session.listening.spans_of(heard)
                } else {
                    session.listening.closed_by(heard)
                },
            )
            &&& session.after_talk(payloads, talk, last).listening == if last {
                session.listening.having_heard(heard).shut()
            } else {
                session.listening.having_heard(heard)
            }
            &&& payloads.len() > 0 ==> trailing.len() == 0
        }),
{
    assert(goes_well(talk)) by {
        reveal(goes_well);
    }
    lemma_call_brings(session, payloads, talk);
    reveal(Session::brings);
    let steps = session.steps_for(payloads, answers_of(talk));
    let none = Seq::<Passed>::empty();
    session::a_window_passes_everything_on(session, none, steps);
    if last {
        session::the_rows_are_the_spans(session, steps);
    } else {
        let (frames, trailing) = session.leaves(payloads, talk, last);
        let spans = session.listening.closed_by(session::heard_in(steps));
        assert(session::stamps_on(none) + session::stamps(steps) =~= session::stamps(steps));
        assert(session::rows_on(none) + session::rows_for(spans) =~= session::rows_for(spans));
        assert(session::rows_on(frames) + trailing =~= session::rows_on(frames));
    }
}

/// What each refusal to open a stream says.
pub proof fn refusals_to_open_say_why(error: OpenError, value: Seq<char>)
    ensures
        error.said(value) == match error {
            OpenError::Refused(InitError::Format(message)) => message@,
            OpenError::Refused(InitError::Params(error)) => error.said(value),
            OpenError::Load(error) => "speech: load-by-name(\"speech\"): "@ + error.code.spelling()
                + " ("@ + error.data@ + ")"@,
            OpenError::Context(error) => "speech: init-execution-context: "@
                + error.code.spelling() + " ("@ + error.data@ + ")"@,
        },
{
    reveal_strlit("speech: ");
    reveal_strlit(": ");
    reveal_strlit("load-by-name(\"speech\")");
    reveal_strlit("speech: load-by-name(\"speech\"): ");
    reveal_strlit("init-execution-context");
    reveal_strlit("speech: init-execution-context: ");
    assert("speech: "@ + "load-by-name(\"speech\")"@ + ": "@
        =~= "speech: load-by-name(\"speech\"): "@);
    assert("speech: "@ + "init-execution-context"@ + ": "@
        =~= "speech: init-execution-context: "@);
}

/// The graph is asked for exactly when nothing speaks against the stream and
/// its settings are good.
pub proof fn only_good_streams_want_the_graph(format: Format, read: Option<Result<Params, String>>)
    ensures
        wants_graph(format, read) <==> module::objection(format) is None && params::settled(
            read,
        ) is Ok,
{
}

/// A payload as values is what it holds, and payloads are taken in order.
pub proof fn payloads_are_what_they_hold(payloads: Seq<Payload>, i: int)
    requires
        0 <= i < payloads.len(),
    ensures
        arrived(payloads).len() == payloads.len(),
        arrived(payloads)[i].pts == payloads[i].pts,
        arrived(payloads)[i].bytes == payloads[i].bytes@,
        payloads[i]@.pts == payloads[i].pts,
        payloads[i]@.bytes == payloads[i].bytes@,
{
}

/// Payload `i` is what `fetch` gives for `i`.
pub proof fn payloads_are_fetched_by_their_place<P: Fn(u32) -> Payload>(
    fetch: P,
    payloads: Seq<Payload>,
    i: int,
)
    requires
        fetched_by(fetch, payloads),
        0 <= i < payloads.len(),
    ensures
        fetch.ensures((i as u32,), payloads[i]),
{
}

/// Each answer is what `compute` gives for the question it answers.
pub proof fn answers_are_computed_from_their_questions<
    F: Fn(Vec<Input>) -> Result<Vec<Output>, Failure>,
>(compute: F, talk: Seq<Exchange>, j: int)
    requires
        computed_by(compute, talk),
        0 <= j < talk.len(),
    ensures
        compute.ensures((talk[j].asked,), talk[j].computed),
        answers_of(talk).len() == talk.len(),
        answers_of(talk)[j] == talk[j].computed,
{
}

/// Payloads go one after another: each completes its chunks from what the ones
/// before it left.
pub proof fn payloads_go_one_after_another(
    session: Session,
    payloads: Seq<Arrived>,
    next: Arrived,
)
    ensures
        session.fed(Seq::empty()) == session,
        session.chunks_of(Seq::empty()) == Seq::<Cut>::empty(),
        session.fed(payloads.push(next)) == session.fed(payloads).after_payload(
            next.pts,
            next.bytes,
        ),
        session.chunks_of(payloads.push(next)) == session.chunks_of(payloads) + session.fed(
            payloads,
        ).cuts(next.pts, next.bytes),
{
    assert(payloads.push(next).drop_last() =~= payloads);
}

/// The tensors of a question, as the host gets them.
pub(crate) proof fn lemma_asks(exchange: Exchange, state: Seq<Binary32>, samples: Seq<Binary32>)
    requires
        exchange.asks(graph::asked(state, samples)),
    ensures
        exchange.asked@.len() == 3,
        exchange.asked@[0].name@ == "input"@,
        exchange.asked@[0].dimensions@ == seq![1u32, 512],
        exchange.asked@[0].kind == TensorType::Fp32,
        binary32::floats_of(exchange.asked@[0].data@) == samples,
        exchange.asked@[0].data@.len() == 4 * samples.len(),
        exchange.asked@[1].name@ == "state"@,
        exchange.asked@[1].dimensions@ == seq![2u32, 1, 128],
        exchange.asked@[1].kind == TensorType::Fp32,
        exchange.asked@[1].data@ == binary32::bytes_of(state),
        binary32::floats_of(exchange.asked@[1].data@) == state,
        exchange.asked@[2].name@ == "sr"@,
        exchange.asked@[2].dimensions@.len() == 0,
        exchange.asked@[2].kind == TensorType::I64,
        exchange.asked@[2].data@ == seq![0x80u8, 0x3e, 0, 0, 0, 0, 0, 0],
{
    graph::questions_spell_what_they_ask(state, samples);
    let views = exchange.asked@.map_values(|input: Input| input@);
    assert(views[0] == exchange.asked@[0]@);
    assert(views[1] == exchange.asked@[1]@);
    assert(views[2] == exchange.asked@[2]@);
}

/// Question `j` of a call is about chunk `j`: under the names the graph knows
/// them by, it spells that chunk's samples in order and the state last
/// returned.
pub proof fn questions_are_about_their_chunks(
    session: Session,
    payloads: Seq<Arrived>,
    talk: Seq<Exchange>,
    j: int,
)
    requires
        session.talks(payloads, talk),
        0 <= j < talk.len(),
    ensures
        ({
            let asked = talk[j].asked@;
            let chunk = session.chunks_of(payloads)[j];
            let state = graph::last_returned(
                session.state,
                Seq::new(j as nat, |i: int| talk[i].computed),
            );
            &&& talk.len() <= session.chunks_of(payloads).len()
            &&& asked.len() == 3
            &&& asked[0].name@ == "input"@
            &&& asked[0].dimensions@ == seq![1u32, 512]
            &&& asked[0].kind == TensorType::Fp32
            &&& binary32::floats_of(asked[0].data@) == chunk.samples
            &&& asked[1].name@ == "state"@
            &&& asked[1].dimensions@ == seq![2u32, 1, 128]
            &&& asked[1].kind == TensorType::Fp32
            &&& binary32::floats_of(asked[1].data@) == state
            &&& asked[2].name@ == "sr"@
            &&& asked[2].dimensions@.len() == 0
            &&& asked[2].kind == TensorType::I64
            &&& asked[2].data@ == seq![0x80u8, 0x3e, 0, 0, 0, 0, 0, 0]
        }),
{
    let before = answers_of(talk).take(j);
    assert(before =~= Seq::new(j as nat, |i: int| talk[i].computed));
    lemma_asks(
        talk[j],
        graph::last_returned(session.state, before),
        session.chunks_of(payloads)[j].samples,
    );
}

/// The state goes back to the graph byte for byte: what question `j` hands
/// over is what the first tensor named `stateN` of the answer before it held.
pub proof fn the_state_goes_back_byte_for_byte(
    session: Session,
    payloads: Seq<Arrived>,
    talk: Seq<Exchange>,
    j: int,
)
    requires
        session.talks(payloads, talk),
        0 < j < talk.len(),
    ensures
        talk[j - 1].computed matches Ok(outputs) && exists|i: int| #[trigger]
            graph::is_first(outputs@, "stateN"@, i) && talk[j].asked@[1].data@
                == outputs@[i].data@.take(1024),
{
    let before = answers_of(talk).take(j);
    lemma_asks(
        talk[j],
        graph::last_returned(session.state, before),
        session.chunks_of(payloads)[j].samples,
    );
    assert(before.last() == talk[j - 1].computed);
    assert(graph::answered(talk[j - 1].computed) is Ok);
    lemma_returned(session.state, before);
}

/// A good answer's state is the first `stateN` tensor's bytes.
pub(crate) proof fn lemma_returned(
    state: Seq<Binary32>,
    answers: Seq<Result<Vec<Output>, Failure>>,
)
    requires
        answers.len() > 0,
        graph::answered(answers.last()) is Ok,
    ensures
        answers.last() matches Ok(outputs) && exists|i: int| #[trigger]
            graph::is_first(outputs@, "stateN"@, i) && binary32::bytes_of(
                graph::last_returned(state, answers),
            ) == outputs@[i].data@.take(1024),
{
    if let Ok(outputs) = answers.last() {
        graph::tensors_go_by_their_names(outputs@, "stateN"@);
        let i = choose|i: int| #[trigger] graph::is_first(outputs@, "stateN"@, i);
        graph::the_returned_state_is_carried_as_it_is(state, outputs, i);
    }
}

/// What a call that goes through gives back: one payload out for each in, with
/// its own timestamp, and the row of every span that closed. Every chunk has
/// an answer that was not refused. The state last returned and what makes no
/// chunk are carried on.
pub proof fn what_a_call_gives_back(
    session: Session,
    payloads: Seq<Arrived>,
    talk: Seq<Exchange>,
    last: bool,
    processed: Processed,
    after: Session,
)
    requires
        session.ends(payloads, talk, last, Ok(processed), after),
    ensures
        ({
            let heard = heard_of(session.chunks_of(payloads), talk);
            let spans = if last {
                session.listening.spans_of(heard)
            } else {
                session.listening.closed_by(heard)
            };
            let frames = processed.frames@.map_values(|frame: OutFrame| frame@);
            &&& talk.len() == session.chunks_of(payloads).len()
            &&& forall|j: int|
                0 <= j < talk.len() ==> graph::answered((#[trigger] talk[j]).computed) is Ok
            &&& processed.frames@.len() == payloads.len()
            &&& forall|k: int|
                0 <= k < payloads.len() ==> (#[trigger] processed.frames@[k]).pts
                    == payloads[k].pts
            &&& session::rows_on(frames) + processed.trailing@ == session::rows_for(spans)
            &&& payloads.len() > 0 ==> processed.trailing@.len() == 0
            &&& after.listening == if last {
                session.listening.having_heard(heard).shut()
            } else {
                session.listening.having_heard(heard)
            }
            &&& after.state == graph::last_returned(
                session.state,
                Seq::new(talk.len(), |j: int| talk[j].computed),
            )
            &&& after.cutting == session.fed(payloads).cutting
            &&& after.time_base == session.time_base
        }),
{
    a_call_passes_everything_on(session, payloads, talk, last);
    lemma_call_leaves(session, payloads, talk, last);
    lemma_fed_keeps(session, payloads);
    assert(answers_of(talk) =~= Seq::new(talk.len(), |j: int| talk[j].computed));
    let frames = processed.frames@.map_values(|frame: OutFrame| frame@);
    assert(session::stamps_on(frames).len() == stamps_of(payloads).len());
    assert forall|k: int| 0 <= k < payloads.len() implies (#[trigger] processed.frames@[k]).pts
        == payloads[k].pts by {
        assert(session::stamps_on(frames)[k] == stamps_of(payloads)[k]);
        assert(frames[k] == processed.frames@[k]@);
    }
}

/// Feeding payloads leaves the unit of time, the span and the state alone.
proof fn lemma_fed_keeps(session: Session, payloads: Seq<Arrived>)
    ensures
        session.fed(payloads).time_base == session.time_base,
    decreases payloads.len(),
{
    if payloads.len() > 0 {
        lemma_fed_keeps(session, payloads.drop_last());
    }
}

/// What a call that breaks off gives back: the message of its last answer,
/// which alone was refused. The chunks before it have been heard, and the
/// state last returned and what makes no chunk are carried on.
pub proof fn what_a_broken_call_gives_back(
    session: Session,
    payloads: Seq<Arrived>,
    talk: Seq<Exchange>,
    last: bool,
    message: String,
    after: Session,
)
    requires
        session.talks(payloads, talk),
        session.ends(payloads, talk, last, Err(message), after),
    ensures
        talk.len() > 0,
        graph::answered(talk.last().computed) == Err::<Binary64, Seq<char>>(message@),
        forall|j: int|
            0 <= j < talk.len() - 1 ==> graph::answered((#[trigger] talk[j]).computed) is Ok,
        session.chunks_of(payloads.drop_last()).len() < talk.len() <= session.chunks_of(
            payloads,
        ).len(),
        after.listening == session.listening.having_heard(
            heard_of(session.chunks_of(payloads), talk.drop_last()),
        ),
        after.state == graph::last_returned(
            session.state,
            Seq::new(talk.len(), |j: int| talk[j].computed),
        ),
        after.cutting == session.fed(payloads).cutting,
        after.time_base == session.time_base,
{
    assert(answers_of(talk) =~= Seq::new(talk.len(), |j: int| talk[j].computed));
    lemma_call_reaches(session, payloads, talk);
    lemma_fed_keeps(session, payloads);
    assert(after.cutting == session.fed(payloads).cutting && after.time_base == session.fed(
        payloads,
    ).time_base) by {
        reveal(Session::reaches);
    }
    lemma_heard_before_refusal(session, payloads, talk);
}

/// A refused answer is not heard.
#[verifier::spinoff_prover]
proof fn lemma_heard_before_refusal(session: Session, payloads: Seq<Arrived>, talk: Seq<Exchange>)
    requires
        payloads.len() > 0,
        session.talks(payloads, talk),
        session.chunks_of(payloads.drop_last()).len() < talk.len(),
        graph::answered(talk.last().computed) is Err,
    ensures
        session.after_all(session.steps_for(payloads, answers_of(talk))).listening
            == session.listening.having_heard(
            heard_of(session.chunks_of(payloads), talk.drop_last()),
        ),
{
    let said = talk.drop_last();
    assert(goes_well(said)) by {
        reveal(goes_well);
        assert forall|j: int| 0 <= j < said.len() implies graph::answered(
            (#[trigger] said[j]).computed,
        ) is Ok by {
            assert(said[j] == talk[j]);
        }
    }
    lemma_call_brings(session, payloads, said);
    lemma_one_more_answer(session, payloads, answers_of(said), talk.last().computed);
    assert(answers_of(said).push(talk.last().computed) =~= answers_of(talk));
    let steps = session.steps_for(payloads, answers_of(said));
    let all = session.steps_for(payloads, answers_of(talk));
    assert(all.drop_last() =~= steps);
    reveal(Session::brings);
    session::a_window_passes_everything_on(session, Seq::empty(), steps);
}

/// What is heard of a chunk: the probability the graph answered for it, at the
/// second it starts.
pub proof fn chunks_are_heard_as_answered(cuts: Seq<Cut>, talk: Seq<Exchange>, j: int)
    requires
        0 <= j < talk.len(),
        graph::answered(talk[j].computed) is Ok,
    ensures
        heard_of(cuts, talk).len() == talk.len(),
        heard_of(cuts, talk)[j].at == cuts[j].at,
        graph::answered(talk[j].computed) == Ok::<Binary64, Seq<char>>(
            heard_of(cuts, talk)[j].probability,
        ),
{
}

/// Steps in a row are the first of them and then the rest.
proof fn lemma_steps_split(session: Session, frames: Seq<Passed>, a: Seq<Step>, b: Seq<Step>)
    ensures
        session.after_all(a + b) == session.after_all(a).after_all(b),
        session.window_after(frames, a + b) == session.after_all(a).window_after(
            session.window_after(frames, a),
            b,
        ),
    decreases b.len(),
{
    if b.len() == 0 {
        assert(a + b =~= a);
    } else {
        lemma_steps_split(session, frames, a, b.drop_last());
        assert((a + b).drop_last() =~= a + b.drop_last());
    }
}

/// Payloads that have passed already stay as they are.
proof fn lemma_passed_stay(
    session: Session,
    passed: Seq<Passed>,
    frames: Seq<Passed>,
    steps: Seq<Step>,
)
    requires
        frames.len() > 0 || steps.len() == 0 || steps[0] is Payload,
    ensures
        session.window_after(passed + frames, steps) == passed + session.window_after(
            frames,
            steps,
        ),
        steps.len() > 0 ==> session.window_after(frames, steps).len() > 0,
    decreases steps.len(),
{
    if steps.len() > 0 {
        let earlier = steps.drop_last();
        lemma_passed_stay(session, passed, frames, earlier);
        let before = session.window_after(frames, earlier);
        match steps.last() {
            Step::Payload { pts, bytes } => {
                let next = Passed { pts, rows: Seq::empty() };
                assert((passed + before).push(next) =~= passed + before.push(next));
            },
            Step::Answer { at, computed } => {
                lemma_row_after(passed, before, session.after_all(earlier).emits(at, computed));
            },
        }
    }
}

/// A row rides the last of all payloads.
proof fn lemma_row_after(passed: Seq<Passed>, frames: Seq<Passed>, closed: Option<Span>)
    requires
        frames.len() > 0,
    ensures
        session::with_row(passed + frames, closed) == passed + session::with_row(frames, closed),
{
    assert(session::with_row(passed + frames, closed) =~= passed + session::with_row(
        frames,
        closed,
    ));
}

/// A call is its payloads one by one: with one more payload, what the call
/// gives back is what it gave back without it, followed by what a call with
/// that payload alone gives back.
pub proof fn a_call_is_its_payloads_one_by_one(
    session: Session,
    payloads: Seq<Arrived>,
    next: Arrived,
    talk: Seq<Exchange>,
    more: Seq<Exchange>,
    last: bool,
)
    requires
        session.completes(payloads, talk),
        session.after_talk(payloads, talk, false).completes(seq![next], more),
    ensures
        ({
            let now = session.after_talk(payloads, talk, false);
            let (all, said) = (payloads.push(next), talk + more);
            &&& session.completes(all, said)
            &&& session.after_talk(all, said, last) == now.after_talk(seq![next], more, last)
            &&& session.leaves(all, said, last).0 == session.leaves(payloads, talk, false).0
                + now.leaves(seq![next], more, last).0
            &&& session.leaves(all, said, last).1 == now.leaves(seq![next], more, last).1
        }),
{
    let now = session.after_talk(payloads, talk, false);
    let (all, said) = (payloads.push(next), talk + more);
    let none = Seq::<Passed>::empty();
    let one = seq![next];
    lemma_call_leaves(session, payloads, talk, false);
    lemma_one_payload(now, next, more);
    assert(all.drop_last() =~= payloads);
    assert(now.set_by(next.pts) == session.fed(payloads).set_by(next.pts));
    assert forall|j: int| 0 <= j < said.len() implies graph::answered(
        (#[trigger] said[j]).computed,
    ) is Ok by {
        if j < talk.len() {
            assert(said[j] == talk[j]);
        } else {
            assert(said[j] == more[j - talk.len()]);
        }
    }
    let (a, b) = (answers_of(talk), answers_of(more));
    assert(answers_of(said) =~= a + b);
    lemma_own_answers(session, payloads, a + b, a);
    let (first, rest) = (session.steps_for(payloads, a), now.steps_for(one, b));
    assert(session.steps_for(all, a + b) =~= first + rest);
    lemma_steps_split(session, none, first, rest);
    let passed = session.window_after(none, first);
    assert(passed + none =~= passed);
    lemma_passed_stay(now, passed, none, rest);
    let window = now.window_after(none, rest);
    lemma_row_after(passed, window, now.after_all(rest).left(last));
}

/// The steps of one payload.
proof fn lemma_one_payload(session: Session, next: Arrived, talk: Seq<Exchange>)
    requires
        session.completes(seq![next], talk),
    ensures
        ({
            let steps = session.steps_for(seq![next], answers_of(talk));
            let cuts = session.cuts(next.pts, next.bytes);
            &&& session.chunks_of(seq![next]) == cuts
            &&& steps == seq![Step::Payload { pts: next.pts, bytes: next.bytes }] + Seq::new(
                talk.len(),
                |i: int| Step::Answer { at: cuts[i].at, computed: talk[i].computed },
            )
        }),
{
    let one = seq![next];
    assert(one.drop_last() =~= Seq::empty());
    assert(session.chunks_of(one.drop_last()) =~= Seq::empty());
    assert(session.chunks_of(one) =~= session.cuts(next.pts, next.bytes));
    let cuts = session.cuts(next.pts, next.bytes);
    assert(session.steps_for(one.drop_last(), answers_of(talk)) =~= Seq::empty());
    assert(session.steps_for(one, answers_of(talk)) =~= seq![
        Step::Payload { pts: next.pts, bytes: next.bytes },
    ] + Seq::new(
        talk.len(),
        |i: int| Step::Answer { at: cuts[i].at, computed: talk[i].computed },
    ));
}

/// Rows ride the payload they closed on: a call with one payload gives that
/// payload back, and on it a row for each span its chunks close, in order, and
/// at the end of the stream one for what is still open.
pub proof fn rows_ride_the_payload_they_closed_on(
    session: Session,
    next: Arrived,
    talk: Seq<Exchange>,
    last: bool,
)
    requires
        session.completes(seq![next], talk),
    ensures
        ({
            let (frames, trailing) = session.leaves(seq![next], talk, last);
            let heard = heard_of(session.cuts(next.pts, next.bytes), talk);
            &&& frames.len() == 1
            &&& frames[0].pts == next.pts
            &&& frames[0].rows == session::rows_for(
                if last {
                    session.listening.spans_of(heard)
                } else {
                    session.listening.closed_by(heard)
                },
            )
            &&& trailing.len() == 0
        }),
{
    let one = seq![next];
    lemma_one_payload(session, next, talk);
    a_call_passes_everything_on(session, one, talk, last);
    let (frames, trailing) = session.leaves(one, talk, last);
    assert(session::stamps_on(frames).len() == stamps_of(one).len());
    assert(session::stamps_on(frames)[0] == stamps_of(one)[0]);
    assert(frames.drop_last() =~= Seq::empty());
    assert(session::rows_on(frames.drop_last()) =~= Seq::empty());
    assert(session::rows_on(frames) + trailing =~= frames[0].rows);
}

} // verus!
