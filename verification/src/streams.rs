//! Whole streams: any number of calls, one after another.

use crate::binary32::{self, Binary32};
use crate::calls::{self, Arrived, Exchange};
use crate::chunker::{self, Cut};
use crate::clock::CHUNK;
use crate::graph;
use crate::params::Params;
use crate::session::{self, Row, Session};
use crate::spans::{self, Heard, Listening, Span};
use vstd::prelude::*;

verus! {

/// One call on an open stream, and the talk with the graph that it went by.
pub enum Call {
    Process { payloads: Seq<Arrived>, talk: Seq<Exchange>, last: bool },
    SetParams(Params),
}

impl Session {
    /// What stands after a call.
    pub open spec fn after_call(self, call: Call) -> Session {
        match call {
            Call::Process { payloads, talk, last } => self.after_talk(payloads, talk, last),
            Call::SetParams(params) => self.retuned(params),
        }
    }

    /// Whether a call goes through like this.
    pub open spec fn takes(self, call: Call) -> bool {
        match call {
            Call::Process { payloads, talk, .. } => self.talks(payloads, talk) && self.completes(
                payloads,
                talk,
            ),
            Call::SetParams(_) => true,
        }
    }

    /// What stands after these calls.
    pub open spec fn after_calls(self, calls: Seq<Call>) -> Session
        decreases calls.len(),
    {
        if calls.len() == 0 {
            self
        } else {
            self.after_calls(calls.drop_last()).after_call(calls.last())
        }
    }

    /// Whether these calls go through like this, one after another.
    pub open spec fn takes_all(self, calls: Seq<Call>) -> bool
        decreases calls.len(),
    {
        calls.len() > 0 ==> self.takes_all(calls.drop_last()) && self.after_calls(
            calls.drop_last(),
        ).takes(calls.last())
    }

    /// The chunks these calls complete, oldest first.
    pub open spec fn chunks_in(self, calls: Seq<Call>) -> Seq<Cut>
        decreases calls.len(),
    {
        if calls.len() == 0 {
            Seq::empty()
        } else {
            let before = self.chunks_in(calls.drop_last());
            match calls.last() {
                Call::Process { payloads, .. } => before + self.after_calls(
                    calls.drop_last(),
                ).chunks_of(payloads),
                Call::SetParams(_) => before,
            }
        }
    }
}

/// The questions to the graph during these calls whose answers were used, and
/// those answers.
pub open spec fn talk_in(calls: Seq<Call>) -> Seq<Exchange>
    decreases calls.len(),
{
    if calls.len() == 0 {
        Seq::empty()
    } else {
        match calls.last() {
            Call::Process { talk, .. } => talk_in(calls.drop_last()) + talk,
            Call::SetParams(_) => talk_in(calls.drop_last()),
        }
    }
}

/// All samples that arrived during these calls.
pub open spec fn samples_over(calls: Seq<Call>) -> Seq<Binary32>
    decreases calls.len(),
{
    if calls.len() == 0 {
        Seq::empty()
    } else {
        match calls.last() {
            Call::Process { payloads, .. } => samples_over(calls.drop_last()) + calls::samples_in(
                payloads,
            ),
            Call::SetParams(_) => samples_over(calls.drop_last()),
        }
    }
}

/// Over any calls, every sample that arrived goes into one whole chunk, in
/// the order of the stream, or still waits for the samples that finish its
/// chunk.
pub proof fn calls_go_through_in_order(session: Session, calls: Seq<Call>)
    requires
        session.takes_all(calls),
    ensures
        chunker::samples_of(session.chunks_in(calls)) + session.after_calls(calls).cutting.pending
            == session.cutting.pending + samples_over(calls),
        forall|j: int|
            0 <= j < session.chunks_in(calls).len() ==> (#[trigger] session.chunks_in(
                calls,
            )[j]).samples.len() == CHUNK,
    decreases calls.len(),
{
    if calls.len() == 0 {
        assert(Seq::<Binary32>::empty() + session.cutting.pending =~= session.cutting.pending
            + Seq::<Binary32>::empty());
    } else {
        let earlier = calls.drop_last();
        calls_go_through_in_order(session, earlier);
        let now = session.after_calls(earlier);
        if let Call::Process { payloads, talk, last } = calls.last() {
            calls::lemma_call_leaves(now, payloads, talk, last);
            calls::payloads_go_through_in_order(now, payloads);
            calls::lemma_samples_of(session.chunks_in(earlier), now.chunks_of(payloads));
            calls::lemma_rejoined(
                chunker::samples_of(session.chunks_in(earlier)),
                now.cutting.pending,
                session.cutting.pending,
                samples_over(earlier),
                chunker::samples_of(now.chunks_of(payloads)),
                now.fed(payloads).cutting.pending,
                calls::samples_in(payloads),
            );
        }
    }
}

/// The state after some calls is the last one returned during them.
proof fn lemma_state_carried(session: Session, calls: Seq<Call>)
    requires
        session.takes_all(calls),
    ensures
        session.after_calls(calls).state == graph::last_returned(
            session.state,
            calls::answers_of(talk_in(calls)),
        ),
        talk_in(calls).len() == session.chunks_in(calls).len(),
    decreases calls.len(),
{
    if calls.len() == 0 {
        assert(calls::answers_of(talk_in(calls)) =~= Seq::empty());
    } else {
        let earlier = calls.drop_last();
        lemma_state_carried(session, earlier);
        let now = session.after_calls(earlier);
        if let Call::Process { payloads, talk, last } = calls.last() {
            calls::lemma_call_leaves(now, payloads, talk, last);
            assert(calls::answers_of(talk_in(calls)) =~= calls::answers_of(talk_in(earlier)) + calls::answers_of(talk));
            calls::the_state_carries_over(
                session.state,
                calls::answers_of(talk_in(earlier)),
                calls::answers_of(talk),
            );
        }
    }
}

/// What is asked with chunk `j` of a run.
#[verifier::spinoff_prover]
proof fn lemma_asked_over(session: Session, calls: Seq<Call>, j: int)
    requires
        session.takes_all(calls),
        0 <= j < talk_in(calls).len(),
    ensures
        talk_in(calls).len() == session.chunks_in(calls).len(),
        talk_in(calls)[j].asks(
            graph::asked(
                graph::last_returned(session.state, calls::answers_of(talk_in(calls)).take(j)),
                session.chunks_in(calls)[j].samples,
            ),
        ),
        graph::answered(talk_in(calls)[j].computed) is Ok,
    decreases calls.len(),
{
    if calls.len() > 0 {
        let earlier = calls.drop_last();
        let now = session.after_calls(earlier);
        let (said, all) = (talk_in(earlier), talk_in(calls));
        lemma_state_carried(session, earlier);
        lemma_state_carried(session, calls);
        if j < said.len() {
            lemma_asked_over(session, earlier, j);
            assert(all[j] == said[j]);
            assert(calls::answers_of(all).take(j) =~= calls::answers_of(said).take(j));
        } else if let Call::Process { payloads, talk, last } = calls.last() {
            let i = j - said.len();
            assert(all[j] == talk[i]);
            assert(calls::answers_of(all).take(j) =~= calls::answers_of(said) + calls::answers_of(talk).take(i));
            calls::the_state_carries_over(
                session.state,
                calls::answers_of(said),
                calls::answers_of(talk).take(i),
            );
        }
    }
}

/// Over any calls on a stream, with other settings put in force in between or
/// not, one answer of the graph is used for each whole chunk, in the order of
/// the stream. With the first chunk goes a state of zeros, and with every
/// other the state returned for the one before it.
pub proof fn the_graph_is_asked_in_order(
    time_base: (i32, i32),
    params: Params,
    calls: Seq<Call>,
    j: int,
)
    requires
        Session::starting(time_base, params).takes_all(calls),
        0 <= j < talk_in(calls).len(),
    ensures
        ({
            let chunks = Session::starting(time_base, params).chunks_in(calls);
            let talk = talk_in(calls);
            &&& talk.len() == chunks.len()
            &&& j == 0 ==> talk[0].asks(graph::asked(session::blank_state(), chunks[0].samples))
            &&& j > 0 ==> (graph::returned_state(talk[j - 1].computed) matches Some(state)
                && talk[j].asks(graph::asked(state, chunks[j].samples)))
        }),
{
    let start = Session::starting(time_base, params);
    let talk = talk_in(calls);
    lemma_asked_over(start, calls, j);
    let before = calls::answers_of(talk).take(j);
    if j > 0 {
        lemma_asked_over(start, calls, j - 1);
        assert(before.last() == talk[j - 1].computed);
    } else {
        assert(before =~= Seq::empty());
    }
}

impl Session {
    /// The timestamps that leave during these calls.
    pub open spec fn stamps_out(self, calls: Seq<Call>) -> Seq<i64>
        decreases calls.len(),
    {
        if calls.len() == 0 {
            Seq::empty()
        } else {
            let before = self.stamps_out(calls.drop_last());
            match calls.last() {
                Call::Process { payloads, talk, last } => before + session::stamps_on(
                    self.after_calls(calls.drop_last()).leaves(payloads, talk, last).0,
                ),
                Call::SetParams(_) => before,
            }
        }
    }

    /// The rows that leave during these calls, on payloads or after them.
    pub open spec fn rows_out(self, calls: Seq<Call>) -> Seq<Row>
        decreases calls.len(),
    {
        if calls.len() == 0 {
            Seq::empty()
        } else {
            let before = self.rows_out(calls.drop_last());
            match calls.last() {
                Call::Process { payloads, talk, last } => {
                    let (frames, trailing) = self.after_calls(calls.drop_last()).leaves(
                        payloads,
                        talk,
                        last,
                    );
                    before + (session::rows_on(frames) + trailing)
                },
                Call::SetParams(_) => before,
            }
        }
    }

    /// What is heard during these calls.
    pub open spec fn heard_over(self, calls: Seq<Call>) -> Seq<Heard> {
        calls::heard_of(self.chunks_in(calls), talk_in(calls))
    }
}

/// The timestamps that arrive during these calls.
pub open spec fn stamps_over(calls: Seq<Call>) -> Seq<i64>
    decreases calls.len(),
{
    if calls.len() == 0 {
        Seq::empty()
    } else {
        match calls.last() {
            Call::Process { payloads, .. } => stamps_over(calls.drop_last()) + calls::stamps_of(
                payloads,
            ),
            Call::SetParams(_) => stamps_over(calls.drop_last()),
        }
    }
}

/// Payloads leave as they arrive, one for one and in order.
pub proof fn every_payload_passes_through(session: Session, calls: Seq<Call>)
    requires
        session.takes_all(calls),
    ensures
        session.stamps_out(calls) == stamps_over(calls),
    decreases calls.len(),
{
    if calls.len() > 0 {
        let earlier = calls.drop_last();
        every_payload_passes_through(session, earlier);
        if let Call::Process { payloads, talk, last } = calls.last() {
            calls::a_call_passes_everything_on(
                session.after_calls(earlier),
                payloads,
                talk,
                last,
            );
        }
    }
}

impl Session {
    /// What is being listened for after these calls, and the span that is
    /// open: each call hears its chunks and the last one of a stream closes
    /// what is open, while other settings leave an open span to run on.
    pub open spec fn listening_over(self, calls: Seq<Call>) -> Listening
        decreases calls.len(),
    {
        if calls.len() == 0 {
            self.listening
        } else {
            let before = self.listening_over(calls.drop_last());
            match calls.last() {
                Call::Process { payloads, talk, last } => {
                    let chunks = self.after_calls(calls.drop_last()).chunks_of(payloads);
                    let after = before.having_heard(calls::heard_of(chunks, talk));
                    if last {
                        after.shut()
                    } else {
                        after
                    }
                },
                Call::SetParams(params) => Listening {
                    threshold: params.threshold,
                    min_speech: params.min_speech,
                    min_silence: params.min_silence,
                    open: before.open,
                },
            }
        }
    }

    /// The spans these calls close, each under the settings in force at the
    /// time.
    pub open spec fn spans_over(self, calls: Seq<Call>) -> Seq<Span>
        decreases calls.len(),
    {
        if calls.len() == 0 {
            Seq::empty()
        } else {
            let before = self.spans_over(calls.drop_last());
            match calls.last() {
                Call::Process { payloads, talk, last } => {
                    let chunks = self.after_calls(calls.drop_last()).chunks_of(payloads);
                    let heard = calls::heard_of(chunks, talk);
                    let listening = self.listening_over(calls.drop_last());
                    before + if last {
                        listening.spans_of(heard)
                    } else {
                        listening.closed_by(heard)
                    }
                },
                Call::SetParams(_) => before,
            }
        }
    }
}

/// Over any calls, with other settings put in force in between or not, every
/// span that closes leaves as one row, in order.
pub proof fn every_span_becomes_one_row(session: Session, calls: Seq<Call>)
    requires
        session.takes_all(calls),
    ensures
        session.rows_out(calls) == session::rows_for(session.spans_over(calls)),
        session.after_calls(calls).listening == session.listening_over(calls),
    decreases calls.len(),
{
    if calls.len() == 0 {
        assert(session::rows_for(session.spans_over(calls)) =~= Seq::empty());
    } else {
        let earlier = calls.drop_last();
        every_span_becomes_one_row(session, earlier);
        if let Call::Process { payloads, talk, last } = calls.last() {
            let now = session.after_calls(earlier);
            calls::a_call_passes_everything_on(now, payloads, talk, last);
            let heard = calls::heard_of(now.chunks_of(payloads), talk);
            lemma_rows_for(
                session.spans_over(earlier),
                if last {
                    now.listening.spans_of(heard)
                } else {
                    now.listening.closed_by(heard)
                },
            );
        }
    }
}

/// Whether these calls bring payloads only, none of them the stream's last.
pub open spec fn goes_on(calls: Seq<Call>) -> bool {
    forall|i: int|
        0 <= i < calls.len() ==> ((#[trigger] calls[i]) matches Call::Process { last, .. } && !last)
}

/// What is heard with one more call.
proof fn lemma_heard_more(session: Session, calls: Seq<Call>)
    requires
        session.takes_all(calls),
        calls.len() > 0,
        calls.last() is Process,
    ensures
        session.heard_over(calls) == session.heard_over(calls.drop_last()) + calls::heard_of(
            session.after_calls(calls.drop_last()).chunks_of(calls.last()->payloads),
            calls.last()->talk,
        ),
{
    let earlier = calls.drop_last();
    lemma_state_carried(session, earlier);
    lemma_state_carried(session, calls);
    assert(session.heard_over(calls) =~= session.heard_over(earlier) + calls::heard_of(
        session.after_calls(earlier).chunks_of(calls.last()->payloads),
        calls.last()->talk,
    ));
}

/// While the stream goes on under its settings, the spans its calls close are
/// those of all that was heard.
proof fn lemma_spans_so_far(session: Session, calls: Seq<Call>)
    requires
        session.takes_all(calls),
        goes_on(calls),
    ensures
        session.spans_over(calls) == session.listening.closed_by(session.heard_over(calls)),
        session.listening_over(calls) == session.listening.having_heard(
            session.heard_over(calls),
        ),
    decreases calls.len(),
{
    if calls.len() == 0 {
        assert(session.heard_over(calls) =~= Seq::empty());
    } else {
        let earlier = calls.drop_last();
        assert forall|i: int| 0 <= i < earlier.len() implies ((#[trigger] earlier[i]) matches
            Call::Process { last, .. } && !last) by {
            assert(earlier[i] == calls[i]);
        }
        lemma_spans_so_far(session, earlier);
        assert(calls[calls.len() - 1] is Process);
        let (payloads, talk) = (calls.last()->payloads, calls.last()->talk);
        lemma_heard_more(session, calls);
        spans::hearing_in_pieces(
            session.listening,
            session.heard_over(earlier),
            calls::heard_of(session.after_calls(earlier).chunks_of(payloads), talk),
        );
    }
}

/// The rows of spans put together are theirs put together.
proof fn lemma_rows_for(a: Seq<Span>, b: Seq<Span>)
    ensures
        session::rows_for(a + b) == session::rows_for(a) + session::rows_for(b),
{
    assert(session::rows_for(a + b) =~= session::rows_for(a) + session::rows_for(b));
}

/// The rows of a whole stream are its spans, each once and in order, however
/// the stream was cut into calls: while its settings stay, what leaves from
/// the first call to the last is one row for each span of all that was heard.
pub proof fn the_rows_of_a_stream_are_its_spans(
    time_base: (i32, i32),
    params: Params,
    calls: Seq<Call>,
)
    requires
        Session::starting(time_base, params).takes_all(calls),
        calls.len() > 0,
        goes_on(calls.drop_last()),
        calls.last() matches Call::Process { last, .. } && last,
    ensures
        ({
            let start = Session::starting(time_base, params);
            start.rows_out(calls) == session::rows_for(
                start.listening.spans_of(start.heard_over(calls)),
            )
        }),
        ({
            let start = Session::starting(time_base, params);
            let listening = Listening {
                threshold: params.threshold,
                min_speech: params.min_speech,
                min_silence: params.min_silence,
                open: None,
            };
            start.rows_out(calls) == session::rows_for(
                listening.spans_of(start.heard_over(calls)),
            )
        }),
{
    let start = Session::starting(time_base, params);
    let earlier = calls.drop_last();
    let (payloads, talk) = (calls.last()->payloads, calls.last()->talk);
    every_span_becomes_one_row(start, calls);
    lemma_spans_so_far(start, earlier);
    lemma_heard_more(start, calls);
    let heard = calls::heard_of(start.after_calls(earlier).chunks_of(payloads), talk);
    spans::hearing_in_pieces(start.listening, start.heard_over(earlier), heard);
    assert(start.listening.spans_of(start.heard_over(calls)) =~= start.spans_over(calls));
}

/// The state goes back to the graph byte for byte, within a call and from one
/// call to the next: the first question hands over 1024 bytes of zero, and
/// every other what the first tensor named `stateN` of the answer before it
/// held.
pub proof fn the_state_goes_back_across_calls(
    time_base: (i32, i32),
    params: Params,
    calls: Seq<Call>,
    j: int,
)
    requires
        Session::starting(time_base, params).takes_all(calls),
        0 <= j < talk_in(calls).len(),
    ensures
        ({
            let talk = talk_in(calls);
            let handed = talk[j].asked@[1].data@;
            &&& talk[j].asked@[1].name@ == "state"@
            &&& j == 0 ==> handed.len() == 1024 && forall|i: int|
                0 <= i < 1024 ==> #[trigger] handed[i] == 0
            &&& j > 0 ==> (talk[j - 1].computed matches Ok(outputs) && exists|i: int| #[trigger]
                graph::is_first(outputs@, "stateN"@, i) && handed == outputs@[i].data@.take(
                    1024,
                ))
        }),
{
    let start = Session::starting(time_base, params);
    let talk = talk_in(calls);
    lemma_asked_over(start, calls, j);
    let before = calls::answers_of(talk).take(j);
    let state = graph::last_returned(start.state, before);
    calls::lemma_asks(talk[j], state, start.chunks_in(calls)[j].samples);
    if j > 0 {
        lemma_asked_over(start, calls, j - 1);
        assert(before.last() == talk[j - 1].computed);
        calls::lemma_returned(start.state, before);
    } else {
        assert(before =~= Seq::empty());
        let bytes = binary32::bytes_of(state);
        assert forall|i: int| 0 <= i < 1024 implies #[trigger] bytes[i] == 0 by {
            assert(state[i / 4].bits == 0);
        }
    }
}

/// The samples that questions hand to the graph, one after another.
pub open spec fn samples_asked(talk: Seq<Exchange>) -> Seq<Binary32>
    decreases talk.len(),
{
    if talk.len() == 0 {
        Seq::empty()
    } else {
        samples_asked(talk.drop_last()) + binary32::floats_of(talk.last().asked@[0].data@)
    }
}

/// The graph hears the stream: over any calls, the samples that questions hand
/// to it, one question after another, are the samples that arrived, in order,
/// up to those that still wait for the rest of their chunk.
pub proof fn the_graph_hears_the_stream(session: Session, calls: Seq<Call>)
    requires
        session.takes_all(calls),
    ensures
        samples_asked(talk_in(calls)) + session.after_calls(calls).cutting.pending
            == session.cutting.pending + samples_over(calls),
        session.cutting.pending.len() < 512 ==> session.after_calls(calls).cutting.pending.len()
            < 512,
{
    calls_go_through_in_order(session, calls);
    lemma_state_carried(session, calls);
    lemma_samples_asked(session, calls, talk_in(calls).len() as int);
    let (talk, chunks) = (talk_in(calls), session.chunks_in(calls));
    assert(talk.take(talk.len() as int) =~= talk);
    assert(chunks.take(talk.len() as int) =~= chunks);
    if session.cutting.pending.len() < 512 {
        lemma_waits(session, calls);
    }
}

proof fn lemma_samples_asked(session: Session, calls: Seq<Call>, n: int)
    requires
        session.takes_all(calls),
        0 <= n <= talk_in(calls).len(),
        talk_in(calls).len() == session.chunks_in(calls).len(),
    ensures
        samples_asked(talk_in(calls).take(n)) == chunker::samples_of(
            session.chunks_in(calls).take(n),
        ),
    decreases n,
{
    let (talk, chunks) = (talk_in(calls), session.chunks_in(calls));
    if n > 0 {
        lemma_samples_asked(session, calls, n - 1);
        lemma_asked_over(session, calls, n - 1);
        calls::lemma_asks(
            talk[n - 1],
            graph::last_returned(session.state, calls::answers_of(talk).take(n - 1)),
            chunks[n - 1].samples,
        );
        assert(talk.take(n).drop_last() =~= talk.take(n - 1));
        assert(chunks.take(n).drop_last() =~= chunks.take(n - 1));
    }
}

/// Less than a chunk ever waits.
proof fn lemma_waits(session: Session, calls: Seq<Call>)
    requires
        session.takes_all(calls),
        session.cutting.pending.len() < 512,
    ensures
        session.after_calls(calls).cutting.pending.len() < 512,
    decreases calls.len(),
{
    if calls.len() > 0 {
        let earlier = calls.drop_last();
        lemma_waits(session, earlier);
        let now = session.after_calls(earlier);
        if let Call::Process { payloads, talk, last } = calls.last() {
            calls::lemma_call_leaves(now, payloads, talk, last);
            lemma_fed_waits(now, payloads);
        }
    }
}

proof fn lemma_fed_waits(session: Session, payloads: Seq<Arrived>)
    requires
        session.cutting.pending.len() < 512,
    ensures
        session.fed(payloads).cutting.pending.len() < 512,
    decreases payloads.len(),
{
    if payloads.len() > 0 {
        let before = payloads.drop_last();
        lemma_fed_waits(session, before);
        session::a_payload_leaves_what_makes_no_chunk(
            session.fed(before),
            payloads.last().pts,
            payloads.last().bytes,
        );
    }
}

} // verus!
