//! Samples cut into the chunks the model takes.

use crate::binary32::{self, Binary32};
use crate::binary64::Binary64;
use crate::clock::{self, CHUNK};
use vstd::prelude::*;

verus! {

/// One chunk of samples and the second it starts at.
pub struct Chunk {
    pub samples: Vec<Binary32>,
    pub at: Binary64,
}

/// A chunk's samples and the second it starts at, as values.
pub struct Cut {
    pub samples: Seq<Binary32>,
    pub at: Binary64,
}

impl View for Chunk {
    type V = Cut;

    open spec fn view(&self) -> Cut {
        Cut { samples: self.samples@, at: self.at }
    }
}

/// Samples arriving in whatever pieces the host cuts, handed on in the fixed
/// chunks the model takes.
///
/// The clock is counted in samples rather than added up per chunk, so a long
/// stream's last span is timed as exactly as its first.
pub struct Chunker {
    /// Samples not yet a whole chunk.
    pending: Vec<Binary32>,
    /// The second `consumed` is counted from.
    base: Binary64,
    /// Samples handed on since `base`. The count starts over after two to the
    /// 64 of them, which is 36 million years of sound.
    consumed: u64,
}

/// What a `Chunker` holds.
pub struct Cutting {
    pub pending: Seq<Binary32>,
    pub base: Binary64,
    pub consumed: u64,
}

/// A count of samples moved on by `more`.
pub open spec fn counted(samples: u64, more: nat) -> u64 {
    ((samples + more) % 0x1_0000_0000_0000_0000) as u64
}

impl Cutting {
    /// The samples on hand once `fed` have arrived.
    pub open spec fn on_hand(self, fed: Seq<Binary32>) -> Seq<Binary32> {
        self.pending + fed
    }

    /// How many whole chunks `fed` completes.
    pub open spec fn completes(self, fed: Seq<Binary32>) -> nat {
        self.on_hand(fed).len() / (CHUNK as nat)
    }

    /// The chunks `fed` completes, oldest first, each with the second its
    /// first sample falls on.
    pub open spec fn cuts(self, fed: Seq<Binary32>) -> Seq<Cut> {
        Seq::new(
            self.completes(fed),
            |i: int|
                Cut {
                    samples: self.on_hand(fed).subrange(i * CHUNK, i * CHUNK + CHUNK),
                    at: clock::second_at(self.base, counted(self.consumed, (i * CHUNK) as nat)),
                },
        )
    }

    /// What is held once `fed` has arrived and its chunks have gone.
    pub open spec fn after(self, fed: Seq<Binary32>) -> Cutting {
        let gone = self.completes(fed) * (CHUNK as nat);
        Cutting {
            pending: self.on_hand(fed).skip(gone as int),
            base: self.base,
            consumed: counted(self.consumed, gone),
        }
    }
}

impl View for Chunker {
    type V = Cutting;

    closed spec fn view(&self) -> Cutting {
        Cutting { pending: self.pending@, base: self.base, consumed: self.consumed }
    }
}

impl Default for Chunker {
    fn default() -> (r: Chunker)
        ensures
            r@ == (Cutting { pending: Seq::empty(), base: Binary64 { bits: 0 }, consumed: 0 }),
    {
        Chunker::new()
    }
}

impl Chunker {
    pub fn new() -> (r: Chunker)
        ensures
            r@ == (Cutting { pending: Seq::empty(), base: Binary64 { bits: 0 }, consumed: 0 }),
    {
        Chunker { pending: Vec::new(), base: Binary64::from_bits(0), consumed: 0 }
    }

    /// Whether nothing is held back, which is when a payload's own timestamp
    /// may be believed over the count kept here.
    pub fn aligned(&self) -> (r: bool)
        ensures
            r == (self@.pending.len() == 0),
    {
        self.pending.len() == 0
    }

    /// Moves the clock onto `seconds`. Only meaningful while aligned.
    pub fn seek(&mut self, seconds: Binary64)
        ensures
            final(self)@ == (Cutting { base: seconds, consumed: 0, ..old(self)@ }),
    {
        self.base = seconds;
        self.consumed = 0;
    }

    /// The second sample `offset` sits at, counted from `base`.
    fn at(&self, offset: u64) -> (r: Binary64)
        ensures
            r == clock::second_at(self@.base, offset),
    {
        self.base.plus(clock::duration_of(offset))
    }

    /// The second the samples fed so far run out at, whole chunk or not.
    pub fn end(&self) -> (r: Binary64)
        ensures
            r == clock::second_at(self@.base, counted(self@.consumed, self@.pending.len())),
            r == self@.base.sum(
                Binary64::of_integer(
                    ((self@.consumed + self@.pending.len()) % 0x1_0000_0000_0000_0000) as int,
                ).quotient(Binary64::of_integer(16_000)),
            ),
    {
        self.at(self.consumed.wrapping_add(self.pending.len() as u64))
    }

    /// Mono samples as the host lays them out. Every whole chunk they
    /// complete is handed on with the second that chunk starts at; a
    /// remainder waits for the samples that finish it.
    pub fn feed(&mut self, bytes: &[u8]) -> (r: Vec<Chunk>)
        ensures
            final(self)@ == old(self)@.after(binary32::floats_of(bytes@)),
            r@.len() == old(self)@.completes(binary32::floats_of(bytes@)),
            forall|i: int|
                0 <= i < r@.len() ==> (#[trigger] r@[i])@ == old(self)@.cuts(
                    binary32::floats_of(bytes@),
                )[i],
    {
        let mut fed: Vec<Binary32> = binary32::to_floats(bytes);
        let ghost all = self@.on_hand(fed@);
        self.pending.append(&mut fed);
        let mut chunks: Vec<Chunk> = Vec::new();
        let mut taken: usize = 0;
        while self.pending.len() - taken >= CHUNK
            invariant
                self.pending@ == all,
                self.base == old(self)@.base,
                taken == chunks@.len() * CHUNK,
                taken <= all.len(),
                self.consumed == counted(old(self)@.consumed, taken as nat),
                all == old(self)@.on_hand(binary32::floats_of(bytes@)),
                forall|i: int|
                    0 <= i < chunks@.len() ==> (#[trigger] chunks@[i])@ == old(self)@.cuts(
                        binary32::floats_of(bytes@),
                    )[i],
            decreases all.len() - taken,
        {
            let mut samples: Vec<Binary32> = Vec::with_capacity(CHUNK);
            let mut i: usize = 0;
            while i < CHUNK
                invariant
                    self.pending@ == all,
                    i <= CHUNK,
                    taken + CHUNK <= self.pending.len(),
                    samples@ == all.subrange(taken as int, taken + i),
                decreases CHUNK - i,
            {
                samples.push(self.pending[taken + i]);
                i = i + 1;
                assert(samples@ =~= all.subrange(taken as int, taken + i));
            }
            let at: Binary64 = self.at(self.consumed);
            chunks.push(Chunk { samples, at });
            self.consumed = self.consumed.wrapping_add(CHUNK as u64);
            taken = taken + CHUNK;
        }
        let mut rest: Vec<Binary32> = Vec::with_capacity(CHUNK);
        let mut i: usize = taken;
        while i < self.pending.len()
            invariant
                self.pending@ == all,
                taken <= i <= all.len(),
                rest@ == all.subrange(taken as int, i as int),
            decreases all.len() - i,
        {
            rest.push(self.pending[i]);
            i = i + 1;
            assert(rest@ =~= all.subrange(taken as int, i as int));
        }
        self.pending = rest;
        assert(all.subrange(taken as int, all.len() as int) =~= all.skip(taken as int));
        chunks
    }
}

/// The samples of these chunks, one after another.
pub open spec fn samples_of(cuts: Seq<Cut>) -> Seq<Binary32>
    decreases cuts.len(),
{
    if cuts.len() == 0 {
        Seq::empty()
    } else {
        samples_of(cuts.drop_last()) + cuts.last().samples
    }
}

/// Counting on from a count is counting on by both.
proof fn lemma_counted(samples: u64, a: nat, b: nat)
    ensures
        counted(counted(samples, a), b) == counted(samples, a + b),
{
}

/// Every chunk is whole, and less than one is held back.
pub proof fn chunks_are_whole(c: Cutting, fed: Seq<Binary32>)
    ensures
        forall|i: int|
            0 <= i < c.cuts(fed).len() ==> (#[trigger] c.cuts(fed)[i]).samples.len() == CHUNK,
        c.after(fed).pending.len() < CHUNK,
{
    let n = c.completes(fed) as int;
    assert forall|i: int| 0 <= i < n implies (#[trigger] c.cuts(fed)[i]).samples.len()
        == CHUNK by {
        assert(i * CHUNK + CHUNK <= n * CHUNK);
    }
}

/// Nothing is lost, repeated or moved: the samples held back and fed are the
/// samples handed on, followed by the samples now held back.
pub proof fn samples_go_through_in_order(c: Cutting, fed: Seq<Binary32>)
    ensures
        samples_of(c.cuts(fed)) + c.after(fed).pending == c.pending + fed,
{
    let all = c.on_hand(fed);
    let n = c.completes(fed);
    lemma_samples_of_prefix(c, fed, n);
    assert(c.cuts(fed).take(n as int) =~= c.cuts(fed));
    assert(all.take((n * CHUNK) as int) + all.skip((n * CHUNK) as int) =~= all);
}

proof fn lemma_samples_of_prefix(c: Cutting, fed: Seq<Binary32>, n: nat)
    requires
        n <= c.completes(fed),
    ensures
        samples_of(c.cuts(fed).take(n as int)) == c.on_hand(fed).take((n * CHUNK) as int),
    decreases n,
{
    let all = c.on_hand(fed);
    let cuts = c.cuts(fed);
    if n == 0 {
        assert(all.take(0) =~= Seq::<Binary32>::empty());
    } else {
        let before = (n - 1) as nat;
        lemma_samples_of_prefix(c, fed, before);
        assert(cuts.take(n as int).drop_last() =~= cuts.take(before as int));
        assert(n * CHUNK <= all.len());
        assert(all.take((before * CHUNK) as int) + all.subrange(
            before * CHUNK,
            before * CHUNK + CHUNK,
        ) =~= all.take((n * CHUNK) as int));
    }
}

/// It does not matter in what pieces the samples arrive: feeding one piece
/// and then another hands on the same chunks at the same seconds, and holds
/// back the same samples, as feeding them together.
pub proof fn pieces_do_not_matter(c: Cutting, a: Seq<Binary32>, b: Seq<Binary32>)
    ensures
        c.after(a).after(b) == c.after(a + b),
        c.cuts(a) + c.after(a).cuts(b) == c.cuts(a + b),
{
    let size = CHUNK as nat;
    let mid = c.after(a);
    let (all, left) = (c.on_hand(a + b), mid.on_hand(b));
    let (n, m) = (c.completes(a), mid.completes(b));
    let gone = (n * size) as int;
    assert(gone <= c.on_hand(a).len());
    assert(left =~= all.skip(gone));
    assert(all.len() == n * size + left.len());
    assert(c.completes(a + b) == n + m);
    assert((n + m) * size == n * size + m * size) by (nonlinear_arith);
    assert(left.skip((m * size) as int) =~= all.skip(((n + m) * size) as int));
    lemma_counted(c.consumed, n * size, m * size);
    assert(mid.after(b) == c.after(a + b));
    assert forall|i: int| 0 <= i < n + m implies (c.cuts(a) + mid.cuts(b))[i] == c.cuts(
        a + b,
    )[i] by {
        let cut = c.cuts(a + b)[i];
        if i < n {
            assert(i * CHUNK + CHUNK <= n * size);
            assert(c.on_hand(a).subrange(i * CHUNK, i * CHUNK + CHUNK) =~= all.subrange(
                i * CHUNK,
                i * CHUNK + CHUNK,
            ));
        } else {
            let j = i - n;
            assert(j * CHUNK + CHUNK <= m * size);
            assert(n * size + j * CHUNK == i * CHUNK);
            assert(left.subrange(j * CHUNK, j * CHUNK + CHUNK) =~= all.subrange(
                i * CHUNK,
                i * CHUNK + CHUNK,
            ));
            lemma_counted(c.consumed, n * size, (j * CHUNK) as nat);
        }
    }
    assert(c.cuts(a) + mid.cuts(b) =~= c.cuts(a + b));
}

/// The same of the bytes that spell the samples, when the first piece ends
/// between two samples.
pub proof fn bytes_split_between_samples(a: Seq<u8>, b: Seq<u8>)
    requires
        a.len() % 4 == 0,
    ensures
        binary32::floats_of(a + b) == binary32::floats_of(a) + binary32::floats_of(b),
{
    let (x, y) = (binary32::floats_of(a), binary32::floats_of(b));
    assert forall|i: int| 0 <= i < x.len() + y.len() implies #[trigger] (x + y)[i]
        == binary32::word(a + b, 4 * i) by {
        if i >= x.len() {
            let j = i - x.len();
            assert(4 * i == a.len() + 4 * j);
        }
    }
    assert(binary32::floats_of(a + b) =~= x + y);
}

/// Whole chunks leave nothing held back, so a window after a window starts
/// aligned.
pub proof fn whole_chunks_stay_aligned(c: Cutting, fed: Seq<Binary32>)
    requires
        c.pending.len() == 0,
        fed.len() % CHUNK as nat == 0,
    ensures
        c.after(fed).pending.len() == 0,
{
}

/// The end counts every sample fed, handed on or held back.
pub proof fn the_end_counts_every_sample(c: Cutting, fed: Seq<Binary32>)
    ensures
        counted(c.after(fed).consumed, c.after(fed).pending.len()) == counted(
            c.consumed,
            c.pending.len() + fed.len(),
        ),
{
    let gone = c.completes(fed) * (CHUNK as nat);
    lemma_counted(c.consumed, gone, c.after(fed).pending.len());
}

/// A chunk starts no earlier than the one before it.
pub proof fn chunks_come_in_order(c: Cutting, fed: Seq<Binary32>, i: int, j: int)
    requires
        !c.base.is_nan(),
        c.consumed + c.on_hand(fed).len() <= u64::MAX,
        0 <= i <= j < c.cuts(fed).len(),
    ensures
        c.cuts(fed)[j].at.ge(c.cuts(fed)[i].at),
{
    assert(i * CHUNK <= j * CHUNK <= c.on_hand(fed).len());
    clock::the_clock_moves_forward(
        c.base,
        counted(c.consumed, (i * CHUNK) as nat),
        counted(c.consumed, (j * CHUNK) as nat),
    );
}

/// Where every sample goes: chunk `i` holds the samples from 512 times `i` on,
/// in order, of those held back and those fed, and starts that many samples
/// after the clock did; the rest is held back.
pub proof fn chunks_hold_the_samples_in_order(c: Cutting, fed: Seq<Binary32>, i: int)
    requires
        0 <= i < c.cuts(fed).len(),
    ensures
        c.cuts(fed)[i].samples.len() == 512,
        forall|j: int|
            0 <= j < 512 ==> (#[trigger] c.cuts(fed)[i].samples[j]) == (c.pending + fed)[512 * i
                + j],
        c.cuts(fed)[i].at == c.base.sum(
            Binary64::of_integer((c.consumed + 512 * i) % 0x1_0000_0000_0000_0000).quotient(
                Binary64::of_integer(16_000),
            ),
        ),
{
    chunks_are_whole(c, fed);
    let n = c.cuts(fed).len() as int;
    assert(512 * i + 512 <= 512 * n <= (c.pending + fed).len());
}

/// How many chunks there are, and what is held back: what is left of the
/// samples once every whole chunk has gone, on the same clock.
pub proof fn what_makes_no_chunk_is_held_back(c: Cutting, fed: Seq<Binary32>)
    ensures
        ({
            let (all, n) = (c.pending + fed, c.cuts(fed).len());
            let after = c.after(fed);
            &&& n == all.len() / 512
            &&& after.pending.len() == all.len() % 512
            &&& forall|j: int|
                0 <= j < after.pending.len() ==> (#[trigger] after.pending[j]) == all[512 * n + j]
            &&& after.base == c.base
            &&& after.consumed == (c.consumed + 512 * n) % 0x1_0000_0000_0000_0000
        }),
{
}

/// A chunk as values is its samples and its start.
pub proof fn a_chunk_is_what_it_holds(chunk: Chunk)
    ensures
        chunk@.samples == chunk.samples@,
        chunk@.at == chunk.at,
{
}

} // verus!
