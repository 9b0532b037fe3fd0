//! Per-chunk probabilities turned into spans of speech.

use crate::binary64::Binary64;
use crate::clock;
use crate::closest;
use crate::exact;
use crate::rounding::BINADE;
use vstd::prelude::*;

verus! {

/// One span of speech, in seconds from the start of the stream.
#[derive(Debug, Clone, Copy, PartialEq)]
pub struct Span {
    pub start_t: Binary64,
    pub end_t: Binary64,
}

impl Span {
    /// How long the span lasts, in seconds.
    pub open spec fn length(self) -> Binary64 {
        self.end_t.difference(self.start_t)
    }

    pub fn duration(&self) -> (r: Binary64)
        ensures
            r == self.length(),
            r == self.end_t.difference(self.start_t),
    {
        self.end_t.minus(self.start_t)
    }
}

/// A span being built: where it began and where its last voiced chunk ended.
struct Open {
    start: Binary64,
    voiced_to: Binary64,
}

/// Chunk probabilities in, spans out.
///
/// A chunk at or above `threshold` is speech. A span opens on the first such
/// chunk and closes once `min_silence` seconds have passed since its last
/// one, so a quiet moment mid-sentence carries the span across rather than
/// splitting it. A span whose voiced extent is shorter than `min_speech` is
/// dropped, which is what keeps a stray loud chunk out of the rows.
pub struct Spans {
    threshold: Binary64,
    min_speech: Binary64,
    min_silence: Binary64,
    open: Option<Open>,
}

/// What a `Spans` knows: its settings, and the span being built as it would
/// stand if it closed now.
pub struct Listening {
    pub threshold: Binary64,
    pub min_speech: Binary64,
    pub min_silence: Binary64,
    pub open: Option<Span>,
}

impl Listening {
    /// Settings in force with nothing open.
    pub open spec fn fresh(
        threshold: Binary64,
        min_speech: Binary64,
        min_silence: Binary64,
    ) -> Listening {
        Listening { threshold, min_speech, min_silence, open: None }
    }

    /// Whether a chunk this probable counts as speech.
    pub open spec fn voiced(self, probability: Binary64) -> bool {
        probability.ge(self.threshold)
    }

    /// Nothing open any more.
    pub open spec fn shut(self) -> Listening {
        Listening { open: None, ..self }
    }

    /// The open span, if it is long enough to be one.
    pub open spec fn closing(self) -> Option<Span> {
        match self.open {
            Some(span) => if span.length().ge(self.min_speech) {
                Some(span)
            } else {
                None
            },
            None => None,
        }
    }

    /// Whether a quiet chunk ending at `end_t` has been quiet for long enough
    /// to close what is open.
    pub open spec fn silent_by(self, end_t: Binary64) -> bool {
        match self.open {
            Some(span) => !end_t.difference(span.end_t).lt(self.min_silence),
            None => false,
        }
    }

    /// What stands after one more chunk.
    pub open spec fn after(self, probability: Binary64, start_t: Binary64) -> Listening {
        let end_t = start_t.sum(clock::chunk_length());
        if self.voiced(probability) {
            let start = match self.open {
                Some(span) => span.start_t,
                None => start_t,
            };
            Listening { open: Some(Span { start_t: start, end_t }), ..self }
        } else if self.silent_by(end_t) {
            self.shut()
        } else {
            self
        }
    }

    /// The span that one more chunk closes.
    pub open spec fn emits(self, probability: Binary64, start_t: Binary64) -> Option<Span> {
        let end_t = start_t.sum(clock::chunk_length());
        if !self.voiced(probability) && self.silent_by(end_t) {
            self.closing()
        } else {
            None
        }
    }
}

impl View for Spans {
    type V = Listening;

    closed spec fn view(&self) -> Listening {
        Listening {
            threshold: self.threshold,
            min_speech: self.min_speech,
            min_silence: self.min_silence,
            open: match self.open {
                Some(open) => Some(Span { start_t: open.start, end_t: open.voiced_to }),
                None => None,
            },
        }
    }
}

impl Spans {
    pub fn new(threshold: Binary64, min_speech: Binary64, min_silence: Binary64) -> (r: Spans)
        ensures
            r@ == Listening::fresh(threshold, min_speech, min_silence),
            r@.threshold == threshold,
            r@.min_speech == min_speech,
            r@.min_silence == min_silence,
            r@.open is None,
    {
        Spans { threshold, min_speech, min_silence, open: None }
    }

    /// Moves the thresholds without disturbing the span being built, which
    /// goes on under whatever is in force when it closes.
    pub fn retune(&mut self, threshold: Binary64, min_speech: Binary64, min_silence: Binary64)
        ensures
            final(self)@ == (Listening { threshold, min_speech, min_silence, ..old(self)@ }),
    {
        self.threshold = threshold;
        self.min_speech = min_speech;
        self.min_silence = min_silence;
    }

    /// One chunk's probability and the second it starts at, oldest first.
    /// Answers with a span when this chunk is what closed one.
    pub fn push(&mut self, probability: Binary64, start_t: Binary64) -> (r: Option<Span>)
        ensures
            final(self)@ == old(self)@.after(probability, start_t),
            r == old(self)@.emits(probability, start_t),
            old(self)@.open is None ==> (final(self)@.open is Some <==> !probability.is_nan()
                && !old(self)@.threshold.is_nan() && probability.value()
                >= old(self)@.threshold.value()),
    {
        let end_t: Binary64 = start_t.plus(clock::chunk_seconds());
        if probability.at_least(self.threshold) {
            let start: Binary64 = match &self.open {
                Some(open) => open.start,
                None => start_t,
            };
            self.open = Some(Open { start, voiced_to: end_t });
            return None;
        }
        match &self.open {
            None => None,
            Some(open) => {
                if end_t.minus(open.voiced_to).less(self.min_silence) {
                    None
                } else {
                    self.close()
                }
            },
        }
    }

    /// The end of the stream closes whatever is still open, at its last
    /// voiced chunk rather than at the stream's end.
    pub fn finish(&mut self) -> (r: Option<Span>)
        ensures
            final(self)@ == old(self)@.shut(),
            r == old(self)@.closing(),
    {
        self.close()
    }

    /// The open span, if it is long enough to be one.
    fn close(&mut self) -> (r: Option<Span>)
        ensures
            final(self)@ == old(self)@.shut(),
            r == old(self)@.closing(),
    {
        let open: Option<Open> = self.open.take();
        match open {
            None => None,
            Some(open) => {
                let span: Span = Span { start_t: open.start, end_t: open.voiced_to };
                if span.duration().at_least(self.min_speech) {
                    Some(span)
                } else {
                    None
                }
            },
        }
    }
}

/// One chunk as it was heard.
pub struct Heard {
    pub probability: Binary64,
    pub at: Binary64,
}

impl Heard {
    /// Where the chunk ends.
    pub open spec fn end(self) -> Binary64 {
        self.at.sum(clock::chunk_length())
    }
}

impl Listening {
    /// What stands once all of these chunks have been heard, oldest first.
    pub open spec fn having_heard(self, heard: Seq<Heard>) -> Listening
        decreases heard.len(),
    {
        if heard.len() == 0 {
            self
        } else {
            self.having_heard(heard.drop_last()).after(heard.last().probability, heard.last().at)
        }
    }

    /// The spans these chunks close, oldest first.
    pub open spec fn closed_by(self, heard: Seq<Heard>) -> Seq<Span>
        decreases heard.len(),
    {
        if heard.len() == 0 {
            Seq::empty()
        } else {
            let before = self.closed_by(heard.drop_last());
            match self.having_heard(heard.drop_last()).emits(
                heard.last().probability,
                heard.last().at,
            ) {
                Some(span) => before.push(span),
                None => before,
            }
        }
    }

    /// The spans of a stream that ends after these chunks.
    pub open spec fn spans_of(self, heard: Seq<Heard>) -> Seq<Span> {
        match self.having_heard(heard).closing() {
            Some(span) => self.closed_by(heard).push(span),
            None => self.closed_by(heard),
        }
    }

    /// Whether `span` runs from the start of chunk `i` to the end of chunk
    /// `k`, both of them speech.
    pub open spec fn runs(self, heard: Seq<Heard>, span: Span, i: int, k: int) -> bool {
        &&& 0 <= i <= k < heard.len()
        &&& self.voiced(heard[i].probability)
        &&& self.voiced(heard[k].probability)
        &&& span.start_t == heard[i].at
        &&& span.end_t == heard[k].end()
    }
}

/// Which chunks each span starts and ends with: those of the closed spans,
/// and those of the one still open.
struct Places {
    closed: Seq<(int, int)>,
    open: (int, int),
}

impl Listening {
    /// Whether the closed span `a` is long enough, lies where `places` says,
    /// and ended before the last chunk heard.
    spec fn closed_at(self, heard: Seq<Heard>, places: Places, a: int) -> bool {
        let (first, last) = places.closed[a];
        let span = self.closed_by(heard)[a];
        &&& self.runs(heard, span, first, last)
        &&& last + 1 < heard.len()
        &&& span.length().ge(self.min_speech)
    }

    /// Whether every span lies where `places` says, each after a chunk that
    /// belongs to none.
    spec fn placed(self, heard: Seq<Heard>, places: Places) -> bool {
        &&& places.closed.len() == self.closed_by(heard).len()
        &&& forall|a: int|
            0 <= a < places.closed.len() ==> #[trigger] self.closed_at(heard, places, a)
        &&& forall|a: int, b: int|
            0 <= a < b < places.closed.len() ==> (#[trigger] places.closed[a]).1 + 2 <= (
            #[trigger] places.closed[b]).0
        &&& self.having_heard(heard).open matches Some(span) ==> {
            &&& self.runs(heard, span, places.open.0, places.open.1)
            &&& forall|a: int|
                0 <= a < places.closed.len() ==> (#[trigger] places.closed[a]).1 + 2
                    <= places.open.0
        }
    }
}

/// Hearing chunks changes no setting.
pub(crate) proof fn lemma_settings_stay(l: Listening, heard: Seq<Heard>)
    ensures
        l.having_heard(heard).threshold == l.threshold,
        l.having_heard(heard).min_speech == l.min_speech,
        l.having_heard(heard).min_silence == l.min_silence,
    decreases heard.len(),
{
    if heard.len() > 0 {
        lemma_settings_stay(l, heard.drop_last());
    }
}

/// A span stays where it is when one more chunk is heard.
proof fn lemma_runs_on(l: Listening, heard: Seq<Heard>, span: Span, i: int, k: int)
    requires
        heard.len() > 0,
        l.runs(heard.drop_last(), span, i, k),
    ensures
        l.runs(heard, span, i, k),
{
}

/// Finds the chunks each span starts and ends with.
proof fn lemma_places(l: Listening, heard: Seq<Heard>) -> (places: Places)
    requires
        l.open is None,
    ensures
        l.placed(heard, places),
    decreases heard.len(),
{
    if heard.len() == 0 {
        Places { closed: Seq::empty(), open: (0, 0) }
    } else {
        let before = heard.drop_last();
        let n = before.len() as int;
        let old_places = lemma_places(l, before);
        let now = l.having_heard(before);
        let chunk = heard.last();
        lemma_settings_stay(l, before);
        let voiced = now.voiced(chunk.probability);
        let emitted = now.emits(chunk.probability, chunk.at);
        let places = if voiced {
            Places {
                closed: old_places.closed,
                open: (if now.open is Some {
                    old_places.open.0
                } else {
                    n
                }, n),
            }
        } else if emitted is Some {
            Places { closed: old_places.closed.push(old_places.open), open: old_places.open }
        } else {
            old_places
        };
        let (count, spans) = (old_places.closed.len() as int, l.closed_by(before));
        assert(l.closed_by(heard) == if emitted is Some {
            spans.push(emitted->0)
        } else {
            spans
        });
        if now.open is Some {
            lemma_runs_on(l, heard, now.open->0, old_places.open.0, old_places.open.1);
        }
        assert forall|a: int| 0 <= a < places.closed.len() implies #[trigger] l.closed_at(
            heard,
            places,
            a,
        ) by {
            if a < count {
                assert(l.closed_at(before, old_places, a));
                let (first, last) = old_places.closed[a];
                lemma_runs_on(l, heard, spans[a], first, last);
                assert(l.closed_by(heard)[a] == spans[a]);
            } else {
                assert(emitted == now.open);
                assert(l.closed_by(heard)[a] == now.open->0);
            }
        }
        assert forall|a: int| 0 <= a < count implies (#[trigger] places.closed[a]).1 + 2 <= n by {
            assert(l.closed_at(before, old_places, a));
        }
        if voiced {
            let open = l.having_heard(heard).open->0;
            assert(l.runs(heard, open, places.open.0, n));
        }
        places
    }
}

/// The settings, and what is open, say how the next chunks go; nothing else
/// does. Hearing chunks one after another is hearing them all.
pub proof fn hearing_in_pieces(l: Listening, a: Seq<Heard>, b: Seq<Heard>)
    ensures
        l.having_heard(a + b) == l.having_heard(a).having_heard(b),
        l.closed_by(a + b) == l.closed_by(a) + l.having_heard(a).closed_by(b),
    decreases b.len(),
{
    if b.len() == 0 {
        assert(a + b =~= a);
        assert(l.closed_by(a) + l.having_heard(a).closed_by(b) =~= l.closed_by(a));
    } else {
        hearing_in_pieces(l, a, b.drop_last());
        assert((a + b).drop_last() =~= a + b.drop_last());
        assert(l.closed_by(a + b) =~= l.closed_by(a) + l.having_heard(a).closed_by(b));
    }
}

/// Every span of a stream starts where a chunk of speech starts and ends
/// where one ends, and none of them is shorter than the shortest kept.
pub proof fn spans_are_speech(l: Listening, heard: Seq<Heard>, a: int)
    requires
        l.open is None,
        0 <= a < l.spans_of(heard).len(),
    ensures
        exists|i: int, k: int| #[trigger] l.runs(heard, l.spans_of(heard)[a], i, k),
        l.spans_of(heard)[a].length().ge(l.min_speech),
{
    let places = lemma_places(l, heard);
    if a < places.closed.len() {
        assert(l.closed_at(heard, places, a));
        let (first, last) = places.closed[a];
        assert(l.runs(heard, l.spans_of(heard)[a], first, last));
    } else {
        lemma_settings_stay(l, heard);
        assert(l.runs(heard, l.spans_of(heard)[a], places.open.0, places.open.1));
    }
}

/// The spans of a stream never overlap and stay in order, as long as each
/// chunk ends before the next but one begins, or just then. Two spans have a
/// quiet chunk between them, so neighbouring chunks may overlap.
pub proof fn spans_never_overlap(l: Listening, heard: Seq<Heard>, a: int, b: int)
    requires
        l.open is None,
        forall|i: int, j: int|
            0 <= i && i + 2 <= j < heard.len() ==> (#[trigger] heard[j]).at.ge(
                (#[trigger] heard[i]).end(),
            ),
        0 <= a < b < l.spans_of(heard).len(),
    ensures
        l.spans_of(heard)[b].start_t.ge(l.spans_of(heard)[a].end_t),
{
    let places = lemma_places(l, heard);
    assert(l.closed_at(heard, places, a));
    if b < places.closed.len() {
        assert(l.closed_at(heard, places, b));
    }
    let first = places.closed[a];
    let second = if b < places.closed.len() {
        places.closed[b]
    } else {
        places.open
    };
    assert(l.runs(heard, l.spans_of(heard)[a], first.0, first.1));
    assert(l.runs(heard, l.spans_of(heard)[b], second.0, second.1));
    assert(heard[second.0].at.ge(heard[first.1].end()));
}

/// Chunks that follow each other on one clock, which the spans of such a
/// stream then do too.
pub proof fn spans_on_one_clock_never_overlap(
    l: Listening,
    heard: Seq<Heard>,
    base: Binary64,
    a: int,
    b: int,
)
    requires
        l.open is None,
        !base.is_nan(),
        heard.len() * clock::CHUNK <= 2 * BINADE,
        forall|i: int|
            0 <= i < heard.len() ==> (#[trigger] heard[i]).at == clock::second_at(
                base,
                (i * clock::CHUNK) as u64,
            ) && clock::steps_evenly(base, (i * clock::CHUNK) as u64),
        0 <= a < b < l.spans_of(heard).len(),
    ensures
        l.spans_of(heard)[b].start_t.ge(l.spans_of(heard)[a].end_t),
{
    assert forall|i: int, j: int| 0 <= i && i + 2 <= j < heard.len() implies (
    #[trigger] heard[j]).at.ge((#[trigger] heard[i]).end()) by {
        let samples = (i * clock::CHUNK) as u64;
        let (near, far) = ((samples + 2 * clock::CHUNK) as u64, (j * clock::CHUNK) as u64);
        assert(heard[i].at == clock::second_at(base, samples));
        clock::a_chunk_ends_before_the_next_but_one(base, samples);
        clock::the_clock_moves_forward(base, near, far);
    }
    spans_never_overlap(l, heard, a, b);
}

/// Whether no chunk starts before an earlier one.
pub open spec fn in_order(heard: Seq<Heard>) -> bool {
    forall|i: int, j: int|
        0 <= i <= j < heard.len() ==> (#[trigger] heard[j]).at.ge((#[trigger] heard[i]).at)
}

/// No span ends before it starts, as long as no chunk starts before an
/// earlier one.
pub proof fn spans_run_forward(l: Listening, heard: Seq<Heard>, a: int)
    requires
        l.open is None,
        in_order(heard),
        0 <= a < l.spans_of(heard).len(),
    ensures
        l.spans_of(heard)[a].end_t.ge(l.spans_of(heard)[a].start_t),
{
    spans_are_speech(l, heard, a);
    let span = l.spans_of(heard)[a];
    let (i, k) = choose|i: int, k: int| #[trigger] l.runs(heard, span, i, k);
    assert(heard[k].at.ge(heard[i].at));
    clock::lemma_lasting(clock::CHUNK as u64);
    exact::adding_never_goes_back(heard[k].at, clock::chunk_length());
}

/// Silence alone produces nothing.
pub proof fn silence_alone_produces_nothing(l: Listening, heard: Seq<Heard>)
    requires
        l.open is None,
        forall|i: int|
            0 <= i < heard.len() ==> !l.voiced((#[trigger] heard[i]).probability),
    ensures
        l.having_heard(heard) == l,
        l.spans_of(heard) == Seq::<Span>::empty(),
    decreases heard.len(),
{
    if heard.len() > 0 {
        silence_alone_produces_nothing(l, heard.drop_last());
        assert(heard.drop_last() =~= heard.take(heard.len() - 1));
    }
}

/// A run of speech is one span at its own times: from the start of its first
/// chunk to the end of its last, unless that is too short to keep.
pub proof fn a_run_of_speech_is_one_span(l: Listening, heard: Seq<Heard>)
    requires
        l.open is None,
        heard.len() > 0,
        forall|i: int|
            0 <= i < heard.len() ==> l.voiced((#[trigger] heard[i]).probability),
    ensures
        ({
            let span = Span { start_t: heard[0].at, end_t: heard.last().end() };
            &&& l.closed_by(heard) == Seq::<Span>::empty()
            &&& l.having_heard(heard) == (Listening { open: Some(span), ..l })
            &&& l.spans_of(heard) == if span.length().ge(l.min_speech) {
                seq![span]
            } else {
                Seq::empty()
            }
        }),
    decreases heard.len(),
{
    let before = heard.drop_last();
    if before.len() > 0 {
        a_run_of_speech_is_one_span(l, before);
    } else {
        assert(l.having_heard(before) == l);
        assert(l.closed_by(before) == Seq::<Span>::empty());
    }
    let span = Span { start_t: heard[0].at, end_t: heard.last().end() };
    assert(Seq::<Span>::empty().push(span) =~= seq![span]);
}

/// Quiet that lasts less than `min_silence` leaves what is open as it is.
pub proof fn a_short_quiet_changes_nothing(l: Listening, quiet: Seq<Heard>)
    requires
        l.open is Some,
        forall|i: int|
            0 <= i < quiet.len() ==> !l.voiced((#[trigger] quiet[i]).probability) && !l.silent_by(
                quiet[i].end(),
            ),
    ensures
        l.having_heard(quiet) == l,
        l.closed_by(quiet) == Seq::<Span>::empty(),
    decreases quiet.len(),
{
    if quiet.len() > 0 {
        a_short_quiet_changes_nothing(l, quiet.drop_last());
        assert(quiet.drop_last() =~= quiet.take(quiet.len() - 1));
    }
}

/// A gap shorter than `min_silence` does not split a span: speech after it
/// goes on with the span that was open.
pub proof fn a_short_gap_does_not_split(l: Listening, quiet: Seq<Heard>, speech: Heard)
    requires
        l.open is Some,
        forall|i: int|
            0 <= i < quiet.len() ==> !l.voiced((#[trigger] quiet[i]).probability) && !l.silent_by(
                quiet[i].end(),
            ),
        l.voiced(speech.probability),
    ensures
        l.closed_by(quiet.push(speech)) == Seq::<Span>::empty(),
        l.having_heard(quiet.push(speech)) == (Listening {
            open: Some(Span { start_t: l.open->0.start_t, end_t: speech.end() }),
            ..l
        }),
{
    a_short_quiet_changes_nothing(l, quiet);
    assert(quiet.push(speech).drop_last() =~= quiet);
}

/// A gap that reaches `min_silence` does: the chunk that reaches it closes
/// the span at its last voiced chunk, not where the silence was counted out.
pub proof fn a_long_gap_splits(l: Listening, quiet: Seq<Heard>, last: Heard)
    requires
        l.open is Some,
        forall|i: int|
            0 <= i < quiet.len() ==> !l.voiced((#[trigger] quiet[i]).probability) && !l.silent_by(
                quiet[i].end(),
            ),
        !l.voiced(last.probability),
        l.silent_by(last.end()),
    ensures
        l.having_heard(quiet.push(last)) == l.shut(),
        l.closed_by(quiet.push(last)) == if l.open->0.length().ge(l.min_speech) {
            seq![l.open->0]
        } else {
            Seq::empty()
        },
{
    a_short_quiet_changes_nothing(l, quiet);
    assert(quiet.push(last).drop_last() =~= quiet);
    assert(Seq::<Span>::empty().push(l.open->0) =~= seq![l.open->0]);
}

/// A stricter threshold hears no chunk that a looser one does not.
pub proof fn a_stricter_threshold_hears_no_more(
    strict: Listening,
    loose: Listening,
    probability: Binary64,
)
    requires
        strict.threshold.ge(loose.threshold),
        strict.voiced(probability),
    ensures
        loose.voiced(probability),
{
}

/// What the end of the stream closed stays closed.
pub proof fn a_stream_ends_once(l: Listening)
    ensures
        l.shut().closing() is None,
        l.shut().shut() == l.shut(),
{
}

/// A chunk is speech exactly when its probability is a number no smaller than
/// the threshold. With nothing open that is just when a span opens, from the
/// chunk's start to its end.
pub proof fn speech_is_at_or_above_the_threshold(l: Listening, probability: Binary64, at: Binary64)
    requires
        l.open is None,
    ensures
        l.emits(probability, at) is None,
        l.after(probability, at).open == if !probability.is_nan() && !l.threshold.is_nan()
            && probability.value() >= l.threshold.value() {
            Some(
                Span {
                    start_t: at,
                    end_t: at.sum(
                        Binary64::of_integer(512).quotient(Binary64::of_integer(16_000)),
                    ),
                },
            )
        } else {
            None
        },
{
}

/// Speech while a span is open moves its end to the end of the chunk, leaves
/// its start, and closes nothing.
pub proof fn speech_moves_the_end_on(l: Listening, probability: Binary64, at: Binary64, open: Span)
    requires
        l.open == Some(open),
        !probability.is_nan(),
        !l.threshold.is_nan(),
        probability.value() >= l.threshold.value(),
    ensures
        l.emits(probability, at) is None,
        l.after(probability, at).open == Some(
            Span {
                start_t: open.start_t,
                end_t: at.sum(Binary64::of_integer(512).quotient(Binary64::of_integer(16_000))),
            },
        ),
{
}

/// Quiet while a span is open leaves it open as it is as long as less than
/// `min_silence` has passed between its end and the end of the chunk. After
/// that the span is closed, and answered with exactly when it lasts no less
/// than `min_speech`.
pub proof fn quiet_closes_after_min_silence(
    l: Listening,
    probability: Binary64,
    at: Binary64,
    open: Span,
)
    requires
        l.open == Some(open),
        probability.is_nan() || l.threshold.is_nan() || probability.value()
            < l.threshold.value(),
    ensures
        ({
            let end_t = at.sum(Binary64::of_integer(512).quotient(Binary64::of_integer(16_000)));
            let quiet = end_t.difference(open.end_t);
            let lasted = open.end_t.difference(open.start_t);
            if !quiet.is_nan() && !l.min_silence.is_nan() && quiet.value()
                < l.min_silence.value() {
                &&& l.after(probability, at).open == Some(open)
                &&& l.emits(probability, at) is None
            } else {
                &&& l.after(probability, at).open is None
                &&& l.emits(probability, at) == if !lasted.is_nan() && !l.min_speech.is_nan()
                    && lasted.value() >= l.min_speech.value() {
                    Some(open)
                } else {
                    None
                }
            }
        }),
{
}

/// The end of the stream answers with the open span exactly when there is one
/// that lasts no less than `min_speech`, and leaves none open.
pub proof fn the_end_answers_with_what_is_long_enough(l: Listening)
    ensures
        l.shut().open is None,
        l.open is None ==> l.closing() is None,
        l.open matches Some(open) ==> {
            let lasted = open.end_t.difference(open.start_t);
            l.closing() == if !lasted.is_nan() && !l.min_speech.is_nan() && lasted.value()
                >= l.min_speech.value() {
                Some(open)
            } else {
                None
            }
        },
{
}

/// Nothing that is heard, nor the end of a stream, changes a setting.
pub proof fn hearing_leaves_the_settings(l: Listening, probability: Binary64, at: Binary64)
    ensures
        ({
            let after = l.after(probability, at);
            &&& after.threshold == l.threshold
            &&& after.min_speech == l.min_speech
            &&& after.min_silence == l.min_silence
            &&& l.shut().threshold == l.threshold
            &&& l.shut().min_speech == l.min_speech
            &&& l.shut().min_silence == l.min_silence
        }),
{
}

/// Settings are the ones they are given as.
pub proof fn settings_are_as_given(
    threshold: Binary64,
    min_speech: Binary64,
    min_silence: Binary64,
)
    ensures
        ({
            let l = Listening::fresh(threshold, min_speech, min_silence);
            &&& l.threshold == threshold
            &&& l.min_speech == min_speech
            &&& l.min_silence == min_silence
            &&& l.open is None
        }),
{
}

/// A span lasts the closest number to the time between its ends.
pub proof fn a_span_lasts_from_start_to_end(span: Span, c: Binary64)
    requires
        span.start_t.is_finite(),
        span.end_t.is_finite(),
        !c.is_nan(),
    ensures
        ({
            let exact = span.end_t.value() - span.start_t.value();
            closest::gap(span.length().value(), exact) <= closest::gap(c.value(), exact)
        }),
{
    closest::a_difference_is_closest(span.end_t, span.start_t, c);
}

/// Hearing chunks in a row is hearing each of them after the ones before it,
/// and the spans of a stream are those that close on the way and the one that
/// its end closes.
pub proof fn a_stream_is_heard_chunk_by_chunk(l: Listening, heard: Seq<Heard>, next: Heard)
    ensures
        l.having_heard(Seq::empty()) == l,
        l.closed_by(Seq::empty()) == Seq::<Span>::empty(),
        l.having_heard(heard.push(next)) == l.having_heard(heard).after(
            next.probability,
            next.at,
        ),
        l.closed_by(heard.push(next)) == match l.having_heard(heard).emits(
            next.probability,
            next.at,
        ) {
            Some(span) => l.closed_by(heard).push(span),
            None => l.closed_by(heard),
        },
        l.spans_of(heard) == match l.having_heard(heard).closing() {
            Some(span) => l.closed_by(heard).push(span),
            None => l.closed_by(heard),
        },
{
    assert(heard.push(next).drop_last() =~= heard);
}

} // verus!
