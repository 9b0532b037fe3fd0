//! Which chunks belong together, and the spans they make.

use crate::binary64::Binary64;
use crate::clock;
use crate::exact;
use crate::spans::{self, Heard, Listening, Span};
use vstd::prelude::*;

verus! {

/// The stretch from the start of chunk `first` to the end of chunk `last`.
pub open spec fn extent(heard: Seq<Heard>, first: int, last: int) -> Span {
    Span { start_t: heard[first].at, end_t: heard[last].end() }
}

/// The first and the last chunk of a group.
pub struct Group {
    pub first: int,
    pub last: int,
}

/// The stretches of groups of chunks.
pub open spec fn extents(heard: Seq<Heard>, groups: Seq<Group>) -> Seq<Span> {
    Seq::new(groups.len(), |a: int| extent(heard, groups[a].first, groups[a].last))
}

impl Listening {
    /// Whether chunk `j` is speech.
    pub open spec fn speech(self, heard: Seq<Heard>, j: int) -> bool {
        0 <= j < heard.len() && self.voiced(heard[j].probability)
    }

    /// Whether chunk `w` is the next of speech after chunk `u`.
    pub open spec fn next_speech(self, heard: Seq<Heard>, u: int, w: int) -> bool {
        &&& u < w
        &&& self.speech(heard, u)
        &&& self.speech(heard, w)
        &&& forall|j: int| u < j < w ==> !#[trigger] self.speech(heard, j)
    }

    /// Whether the time from the end of chunk `u` to the end of chunk `c`
    /// reaches `min_silence`.
    pub open spec fn long_quiet(self, heard: Seq<Heard>, u: int, c: int) -> bool {
        !heard[c].end().difference(heard[u].end()).lt(self.min_silence)
    }

    /// Whether the quiet between chunks `u` and `w` parts them.
    pub open spec fn parted(self, heard: Seq<Heard>, u: int, w: int) -> bool {
        exists|c: int| u < c < w && #[trigger] self.long_quiet(heard, u, c)
    }

    /// Whether no quiet within chunks `first` to `last` parts them.
    pub open spec fn together(self, heard: Seq<Heard>, first: int, last: int) -> bool {
        forall|u: int, w: int|
            first <= u && w <= last && #[trigger] self.next_speech(heard, u, w) ==> !self.parted(
                heard,
                u,
                w,
            )
    }

    /// Whether chunk `first` is parted from the speech before it, if there is
    /// any.
    pub open spec fn starts_group(self, heard: Seq<Heard>, first: int) -> bool {
        forall|u: int| #[trigger]
            self.next_speech(heard, u, first) ==> self.parted(heard, u, first)
    }

    /// Whether chunk `last` is parted from the speech after it, if there is
    /// any.
    pub open spec fn ends_group(self, heard: Seq<Heard>, last: int) -> bool {
        forall|w: int| #[trigger] self.next_speech(heard, last, w) ==> self.parted(heard, last, w)
    }

    /// Whether the speech from chunk `first` to chunk `last` is a group: held
    /// together within, and parted from what comes before and after.
    pub open spec fn is_group(self, heard: Seq<Heard>, first: int, last: int) -> bool {
        &&& first <= last
        &&& self.speech(heard, first)
        &&& self.speech(heard, last)
        &&& self.together(heard, first, last)
        &&& self.starts_group(heard, first)
        &&& self.ends_group(heard, last)
    }

    /// Whether these are all the groups there are, in order.
    pub open spec fn are_groups(self, heard: Seq<Heard>, groups: Seq<Group>) -> bool {
        &&& forall|a: int|
            0 <= a < groups.len() ==> self.is_group(
                heard,
                (#[trigger] groups[a]).first,
                groups[a].last,
            )
        &&& forall|a: int, b: int|
            0 <= a < b < groups.len() ==> (#[trigger] groups[a]).last < (#[trigger] groups[b]).first
        &&& forall|first: int, last: int| #[trigger]
            self.is_group(heard, first, last) ==> groups.contains(Group { first, last })
    }

    /// Whether a stretch is long enough to be kept.
    pub open spec fn keeps(self) -> spec_fn(Span) -> bool {
        |span: Span| span.length().ge(self.min_speech)
    }
}

/// The last speech up to chunk `to`.
proof fn lemma_speech_upto(l: Listening, heard: Seq<Heard>, from: int, to: int) -> (u: int)
    requires
        from <= to,
        l.speech(heard, from),
    ensures
        from <= u <= to,
        l.speech(heard, u),
        forall|j: int| u < j <= to ==> !#[trigger] l.speech(heard, j),
    decreases to - from,
{
    if exists|j: int| from < j <= to && l.speech(heard, j) {
        let j = choose|j: int| from < j <= to && l.speech(heard, j);
        lemma_speech_upto(l, heard, j, to)
    } else {
        from
    }
}

/// The first speech from chunk `from` on.
proof fn lemma_speech_from(l: Listening, heard: Seq<Heard>, from: int, to: int) -> (w: int)
    requires
        from <= to,
        l.speech(heard, to),
    ensures
        from <= w <= to,
        l.speech(heard, w),
        forall|j: int| from <= j < w ==> !#[trigger] l.speech(heard, j),
    decreases to - from,
{
    if exists|j: int| from <= j < to && l.speech(heard, j) {
        let j = choose|j: int| from <= j < to && l.speech(heard, j);
        lemma_speech_from(l, heard, from, j)
    } else {
        to
    }
}

/// Groups that share a chunk are one.
proof fn lemma_one_group(
    l: Listening,
    heard: Seq<Heard>,
    first: int,
    last: int,
    start: int,
    end: int,
)
    requires
        l.is_group(heard, first, last),
        l.is_group(heard, start, end),
        start <= first <= end,
    ensures
        first == start,
        last == end,
{
    if start < first {
        let u = lemma_speech_upto(l, heard, start, first - 1);
        assert(l.next_speech(heard, u, first));
    }
    if last < end {
        let w = lemma_speech_from(l, heard, last + 1, end);
        assert(l.next_speech(heard, last, w));
    }
    if end < last {
        let w = lemma_speech_from(l, heard, end + 1, last);
        assert(l.next_speech(heard, end, w));
    }
}

/// The groups among the first chunks of a stream: those that quiet has ended,
/// and the one that may still go on.
struct Groups {
    ended: Seq<Group>,
    open: Option<Group>,
}

impl Listening {
    /// Whether chunk `last` is followed, among the first `n` chunks, by quiet
    /// that parts it from whatever comes.
    spec fn quiet_after(self, heard: Seq<Heard>, last: int, n: int) -> bool {
        exists|c: int|
            last < c < n && #[trigger] self.long_quiet(heard, last, c) && forall|j: int|
                last < j <= c ==> !#[trigger] self.speech(heard, j)
    }

    /// Whether the speech from `first` to `last` is a group as far as what
    /// comes before its end says.
    spec fn group_so_far(self, heard: Seq<Heard>, group: Group) -> bool {
        &&& group.first <= group.last
        &&& self.speech(heard, group.first)
        &&& self.speech(heard, group.last)
        &&& self.together(heard, group.first, group.last)
        &&& self.starts_group(heard, group.first)
    }

    /// Whether the open group goes up to chunk `n`, with no quiet that parts
    /// it.
    spec fn still_open(self, heard: Seq<Heard>, n: int, group: Group) -> bool {
        &&& self.group_so_far(heard, group)
        &&& group.last < n
        &&& forall|j: int| group.last < j < n ==> !#[trigger] self.speech(heard, j)
        &&& forall|c: int| group.last < c < n ==> !#[trigger] self.long_quiet(heard, group.last, c)
    }

    /// Whether chunk `j` lies in one of these groups.
    spec fn grouped(self, groups: Groups, j: int) -> bool {
        ||| exists|a: int|
            0 <= a < groups.ended.len() && (#[trigger] groups.ended[a]).first <= j
                <= groups.ended[a].last
        ||| groups.open is Some && groups.open->0.first <= j <= groups.open->0.last
    }

    /// Whether `groups` are those among the first `n` chunks.
    spec fn groups_by(self, heard: Seq<Heard>, n: int, groups: Groups) -> bool {
        &&& forall|a: int|
            0 <= a < groups.ended.len() ==> self.group_so_far(heard, #[trigger] groups.ended[a])
        &&& forall|a: int|
            0 <= a < groups.ended.len() ==> self.quiet_after(
                heard,
                (#[trigger] groups.ended[a]).last,
                n,
            )
        &&& forall|a: int, b: int|
            0 <= a < b < groups.ended.len() ==> (#[trigger] groups.ended[a]).last < (
            #[trigger] groups.ended[b]).first
        &&& groups.open matches Some(open) ==> {
            &&& self.still_open(heard, n, open)
            &&& forall|a: int|
                0 <= a < groups.ended.len() ==> (#[trigger] groups.ended[a]).last < open.first
        }
        &&& forall|j: int|
            0 <= j < n && #[trigger] self.speech(heard, j) ==> self.grouped(groups, j)
    }

    /// Whether hearing the first `n` chunks closed the groups that ended, and
    /// left the open one open.
    spec fn matches_groups(self, heard: Seq<Heard>, n: int, groups: Groups) -> bool {
        &&& self.closed_by(heard.take(n)) == extents(heard, groups.ended).filter(self.keeps())
        &&& self.having_heard(heard.take(n)).open == match groups.open {
            Some(open) => Some(extent(heard, open.first, open.last)),
            None => None,
        }
    }
}

/// One more group adds its stretch, if that is long enough.
proof fn lemma_one_more(l: Listening, heard: Seq<Heard>, groups: Seq<Group>, g: Group)
    ensures
        extents(heard, groups.push(g)).filter(l.keeps()) == if l.keeps()(
            extent(heard, g.first, g.last),
        ) {
            extents(heard, groups).filter(l.keeps()).push(extent(heard, g.first, g.last))
        } else {
            extents(heard, groups).filter(l.keeps())
        },
{
    reveal(Seq::filter);
    let all = extents(heard, groups.push(g));
    assert(all.drop_last() =~= extents(heard, groups));
    assert(all.last() == extent(heard, g.first, g.last));
}

/// Speech goes on with the open group, or starts one.
proof fn lemma_group_goes_on(l: Listening, heard: Seq<Heard>, n: int, groups: Groups) -> (next:
    Groups)
    requires
        l.groups_by(heard, n, groups),
        0 <= n,
        l.speech(heard, n),
    ensures
        l.groups_by(heard, n + 1, next),
        next.ended == groups.ended,
        next.open == Some(
            match groups.open {
                Some(open) => Group { first: open.first, last: n },
                None => Group { first: n, last: n },
            },
        ),
{
    let open = match groups.open {
        Some(open) => Group { first: open.first, last: n },
        None => Group { first: n, last: n },
    };
    let next = Groups { ended: groups.ended, open: Some(open) };
    assert(l.together(heard, open.first, n)) by {
        assert forall|u: int, w: int|
            open.first <= u && w <= n && #[trigger] l.next_speech(heard, u, w) implies !l.parted(
            heard,
            u,
            w,
        ) by {
            if groups.open is Some {
                let k = groups.open->0.last;
                assert(l.speech(heard, k) && l.speech(heard, w) && l.speech(heard, u));
                if w <= k {
                    assert(l.together(heard, open.first, k));
                } else {
                    assert(w == n && u == k);
                }
            }
        }
    }
    assert(l.starts_group(heard, open.first)) by {
        if groups.open is None {
            assert forall|u: int| #[trigger] l.next_speech(heard, u, n) implies l.parted(
                heard,
                u,
                n,
            ) by {
                assert(l.speech(heard, u) && l.grouped(groups, u));
                let a = choose|a: int|
                    0 <= a < groups.ended.len() && (#[trigger] groups.ended[a]).first <= u
                        <= groups.ended[a].last;
                let k = groups.ended[a].last;
                assert(l.group_so_far(heard, groups.ended[a]) && l.speech(heard, k));
                assert(l.quiet_after(heard, k, n));
                assert(k == u);
            }
        }
    }
    assert forall|a: int| 0 <= a < next.ended.len() implies l.quiet_after(
        heard,
        (#[trigger] next.ended[a]).last,
        n + 1,
    ) && next.ended[a].last < open.first by {
        assert(l.quiet_after(heard, groups.ended[a].last, n));
    }
    assert forall|j: int| 0 <= j < n + 1 && #[trigger] l.speech(heard, j) implies l.grouped(
        next,
        j,
    ) by {
        if j < n {
            assert(l.grouped(groups, j));
            if exists|a: int|
                0 <= a < groups.ended.len() && (#[trigger] groups.ended[a]).first <= j
                    <= groups.ended[a].last {
                let a = choose|a: int|
                    0 <= a < groups.ended.len() && (#[trigger] groups.ended[a]).first <= j
                        <= groups.ended[a].last;
                assert(next.ended[a].first <= j <= next.ended[a].last);
            }
        }
    }
    next
}

/// Quiet ends the open group once it is long, and changes nothing else.
proof fn lemma_group_ends(l: Listening, heard: Seq<Heard>, n: int, groups: Groups) -> (next: Groups)
    requires
        l.groups_by(heard, n, groups),
        0 <= n,
        !l.speech(heard, n),
    ensures
        l.groups_by(heard, n + 1, next),
        ({
            let ends = groups.open is Some && l.long_quiet(heard, groups.open->0.last, n);
            &&& next.ended == if ends {
                groups.ended.push(groups.open->0)
            } else {
                groups.ended
            }
            &&& next.open == if ends {
                None
            } else {
                groups.open
            }
        }),
{
    let ends = groups.open is Some && l.long_quiet(heard, groups.open->0.last, n);
    let next = Groups {
        ended: if ends {
            groups.ended.push(groups.open->0)
        } else {
            groups.ended
        },
        open: if ends {
            None
        } else {
            groups.open
        },
    };
    let count = groups.ended.len() as int;
    assert forall|a: int| 0 <= a < next.ended.len() implies l.quiet_after(
        heard,
        (#[trigger] next.ended[a]).last,
        n + 1,
    ) by {
        if a < count {
            assert(l.quiet_after(heard, groups.ended[a].last, n));
        } else {
            assert(l.still_open(heard, n, next.ended[a]));
            assert(l.long_quiet(heard, next.ended[a].last, n));
        }
    }
    assert forall|j: int| 0 <= j < n + 1 && #[trigger] l.speech(heard, j) implies l.grouped(
        next,
        j,
    ) by {
        assert(l.grouped(groups, j));
        if exists|a: int|
            0 <= a < groups.ended.len() && (#[trigger] groups.ended[a]).first <= j
                <= groups.ended[a].last {
            let a = choose|a: int|
                0 <= a < groups.ended.len() && (#[trigger] groups.ended[a]).first <= j
                    <= groups.ended[a].last;
            assert(next.ended[a].first <= j <= next.ended[a].last);
        } else if ends {
            assert(next.ended[count].first <= j <= next.ended[count].last);
        }
    }
    next
}

/// Finds the groups among the first `n` chunks.
proof fn lemma_groups(l: Listening, heard: Seq<Heard>, n: int) -> (groups: Groups)
    requires
        l.open is None,
        0 <= n <= heard.len(),
    ensures
        l.groups_by(heard, n, groups),
        l.matches_groups(heard, n, groups),
    decreases n,
{
    if n == 0 {
        let groups = Groups { ended: Seq::empty(), open: None };
        assert(heard.take(0) =~= Seq::empty());
        assert(extents(heard, groups.ended) =~= Seq::empty());
        reveal(Seq::filter);
        groups
    } else {
        let m = n - 1;
        let before = lemma_groups(l, heard, m);
        assert(heard.take(n).drop_last() =~= heard.take(m));
        assert(heard.take(n).last() == heard[m]);
        spans::lemma_settings_stay(l, heard.take(m));
        if l.speech(heard, m) {
            lemma_group_goes_on(l, heard, m, before)
        } else {
            if before.open is Some {
                lemma_one_more(l, heard, before.ended, before.open->0);
            }
            lemma_group_ends(l, heard, m, before)
        }
    }
}

/// Finds all groups of a stream.
proof fn lemma_all_groups(l: Listening, heard: Seq<Heard>) -> (groups: Seq<Group>)
    requires
        l.open is None,
    ensures
        l.are_groups(heard, groups),
        l.spans_of(heard) == extents(heard, groups).filter(l.keeps()),
        forall|j: int| #[trigger]
            l.speech(heard, j) ==> exists|a: int|
                0 <= a < groups.len() && (#[trigger] groups[a]).first <= j <= groups[a].last,
{
    let n = heard.len() as int;
    let found = lemma_groups(l, heard, n);
    assert(heard.take(n) =~= heard);
    spans::lemma_settings_stay(l, heard);
    let groups = match found.open {
        Some(open) => found.ended.push(open),
        None => found.ended,
    };
    if found.open is Some {
        lemma_one_more(l, heard, found.ended, found.open->0);
    }
    assert forall|a: int| 0 <= a < groups.len() implies l.is_group(
        heard,
        (#[trigger] groups[a]).first,
        groups[a].last,
    ) by {
        let last = groups[a].last;
        if a < found.ended.len() {
            assert(l.group_so_far(heard, found.ended[a]));
            assert(l.quiet_after(heard, found.ended[a].last, n));
        }
        assert forall|w: int| #[trigger] l.next_speech(heard, last, w) implies l.parted(
            heard,
            last,
            w,
        ) by {
            assert(l.speech(heard, w));
        }
    }
    assert forall|j: int| #[trigger] l.speech(heard, j) implies exists|a: int|
        0 <= a < groups.len() && (#[trigger] groups[a]).first <= j <= groups[a].last by {
        let a = lemma_grouped(l, found, groups, j);
        assert(groups[a].first <= j);
    }
    assert forall|first: int, last: int| #[trigger] l.is_group(
        heard,
        first,
        last,
    ) implies groups.contains(Group { first, last }) by {
        assert(l.speech(heard, first));
        let a = lemma_grouped(l, found, groups, first);
        assert(l.is_group(heard, groups[a].first, groups[a].last));
        lemma_one_group(l, heard, first, last, groups[a].first, groups[a].last);
        assert(groups[a] == Group { first, last });
    }
    groups
}

/// The place of the group a chunk lies in.
proof fn lemma_grouped(l: Listening, found: Groups, groups: Seq<Group>, j: int) -> (a: int)
    requires
        l.grouped(found, j),
        groups == match found.open {
            Some(open) => found.ended.push(open),
            None => found.ended,
        },
    ensures
        0 <= a < groups.len(),
        groups[a].first <= j <= groups[a].last,
{
    if exists|a: int|
        0 <= a < found.ended.len() && (#[trigger] found.ended[a]).first <= j <= found.ended[a].last {
        choose|a: int|
            0 <= a < found.ended.len() && (#[trigger] found.ended[a]).first <= j <= found.ended[a].last
    } else {
        found.ended.len() as int
    }
}

/// What is kept was there.
proof fn lemma_filter_from<A>(all: Seq<A>, keep: spec_fn(A) -> bool, b: int) -> (a: int)
    requires
        0 <= b < all.filter(keep).len(),
    ensures
        0 <= a < all.len(),
        all[a] == all.filter(keep)[b],
        keep(all[a]),
    decreases all.len(),
{
    reveal(Seq::filter);
    if all.len() > 0 {
        let rest = all.drop_last();
        if b < rest.filter(keep).len() {
            lemma_filter_from(rest, keep, b)
        } else {
            all.len() - 1
        }
    } else {
        0
    }
}

/// The spans of a stream are its groups of speech, in order: parted wherever
/// the quiet reaches `min_silence`, and kept where they reach `min_speech`.
pub proof fn spans_are_the_groups(l: Listening, heard: Seq<Heard>) -> (groups: Seq<Group>)
    requires
        l.open is None,
    ensures
        l.are_groups(heard, groups),
        l.spans_of(heard) == extents(heard, groups).filter(l.keeps()),
{
    lemma_all_groups(l, heard)
}

/// No speech is lost: every chunk of speech belongs to a group, and lies in a
/// span unless that whole group is shorter than `min_speech`.
pub proof fn no_speech_is_lost(l: Listening, heard: Seq<Heard>, j: int) -> (group: Group)
    requires
        l.open is None,
        l.speech(heard, j),
    ensures
        l.is_group(heard, group.first, group.last),
        group.first <= j <= group.last,
        ({
            let span = extent(heard, group.first, group.last);
            span.length().ge(l.min_speech) ==> l.spans_of(heard).contains(span)
        }),
{
    let groups = lemma_all_groups(l, heard);
    let a = choose|a: int|
        0 <= a < groups.len() && (#[trigger] groups[a]).first <= j <= groups[a].last;
    let all = extents(heard, groups);
    if l.keeps()(all[a]) {
        all.lemma_filter_contains(l.keeps(), a);
    }
    groups[a]
}

/// A larger `min_speech` keeps, of the same spans, exactly those that reach
/// it.
pub proof fn a_larger_min_speech_keeps_the_longer(
    l: Listening,
    min_speech: Binary64,
    heard: Seq<Heard>,
)
    requires
        min_speech.ge(l.min_speech),
    ensures
        ({
            let pickier = Listening { min_speech, ..l };
            pickier.spans_of(heard) == l.spans_of(heard).filter(pickier.keeps())
        }),
{
    let pickier = Listening { min_speech, ..l };
    lemma_pickier_so_far(l, min_speech, heard);
    spans::lemma_settings_stay(l, heard);
    spans::lemma_settings_stay(pickier, heard);
    if l.having_heard(heard).closing() is Some {
        lemma_filter_push(l.closed_by(heard), pickier.keeps(), l.having_heard(heard).open->0);
    }
}

/// One more item is kept, or not, after what was kept before.
proof fn lemma_filter_push<A>(all: Seq<A>, keep: spec_fn(A) -> bool, item: A)
    ensures
        all.push(item).filter(keep) == if keep(item) {
            all.filter(keep).push(item)
        } else {
            all.filter(keep)
        },
{
    reveal(Seq::filter);
    assert(all.push(item).drop_last() =~= all);
}

proof fn lemma_pickier_so_far(l: Listening, min_speech: Binary64, heard: Seq<Heard>)
    requires
        min_speech.ge(l.min_speech),
    ensures
        ({
            let pickier = Listening { min_speech, ..l };
            &&& pickier.having_heard(heard).open == l.having_heard(heard).open
            &&& pickier.closed_by(heard) == l.closed_by(heard).filter(pickier.keeps())
        }),
    decreases heard.len(),
{
    let pickier = Listening { min_speech, ..l };
    if heard.len() == 0 {
        reveal(Seq::filter);
    } else {
        let before = heard.drop_last();
        let chunk = heard.last();
        lemma_pickier_so_far(l, min_speech, before);
        spans::lemma_settings_stay(l, before);
        spans::lemma_settings_stay(pickier, before);
        let now = l.having_heard(before);
        if now.emits(chunk.probability, chunk.at) is Some {
            lemma_filter_push(l.closed_by(before), pickier.keeps(), now.open->0);
        }
    }
}

/// Chunks in order end in order.
proof fn lemma_ends_in_order(heard: Seq<Heard>, i: int, j: int)
    requires
        spans::in_order(heard),
        0 <= i <= j < heard.len(),
    ensures
        heard[j].end().ge(heard[i].end()),
        heard[j].end().ge(heard[i].at),
{
    let c = clock::chunk_length();
    assert(heard[j].at.ge(heard[i].at));
    clock::lemma_lasting(clock::CHUNK as u64);
    exact::adding_never_goes_back(heard[i].at, c);
    exact::adding_never_goes_back(heard[j].at, c);
    exact::sum_is_monotone_in_the_first(heard[i].at, heard[j].at, c);
}

/// Speech that holds together still does when a looser threshold hears more
/// of it: it lies within one of the looser groups.
proof fn lemma_looser_group(
    strict: Listening,
    loose: Listening,
    heard: Seq<Heard>,
    group: Group,
    outer: Group,
)
    requires
        strict.is_group(heard, group.first, group.last),
        strict.threshold.ge(loose.threshold),
        strict.min_silence == loose.min_silence,
        spans::in_order(heard),
        loose.is_group(heard, outer.first, outer.last),
        outer.first <= group.first <= outer.last,
    ensures
        group.last <= outer.last,
{
    let k = outer.last;
    if k < group.last {
        assert(loose.speech(heard, group.last));
        let w = lemma_speech_from(loose, heard, k + 1, group.last);
        assert(loose.next_speech(heard, k, w));
        let c = choose|c: int| k < c < w && #[trigger] loose.long_quiet(heard, k, c);
        // The strict speech around chunk `c`, on either side.
        let u = lemma_speech_upto(strict, heard, group.first, k);
        let v = lemma_speech_from(strict, heard, k + 1, group.last);
        assert(loose.speech(heard, v));
        assert(w <= v);
        assert(strict.next_speech(heard, u, v));
        assert(!strict.parted(heard, u, v));
        assert(!strict.long_quiet(heard, u, c));
        lemma_ends_in_order(heard, u, k);
        lemma_ends_in_order(heard, k, c);
        exact::lemma_shorter_within(
            heard[k].end(),
            heard[c].end(),
            heard[u].end(),
            strict.min_silence,
        );
    }
}

/// Raising the threshold gives only spans that lie within those there were,
/// as long as no chunk starts before an earlier one.
pub proof fn a_higher_threshold_stays_within(
    l: Listening,
    threshold: Binary64,
    heard: Seq<Heard>,
    a: int,
) -> (b: int)
    requires
        l.open is None,
        threshold.ge(l.threshold),
        spans::in_order(heard),
        0 <= a < (Listening { threshold, ..l }).spans_of(heard).len(),
    ensures
        0 <= b < l.spans_of(heard).len(),
        ({
            let inner = (Listening { threshold, ..l }).spans_of(heard)[a];
            let outer = l.spans_of(heard)[b];
            &&& inner.start_t.ge(outer.start_t)
            &&& outer.end_t.ge(inner.end_t)
        }),
{
    let strict = Listening { threshold, ..l };
    let (narrow, wide) = (lemma_all_groups(strict, heard), lemma_all_groups(l, heard));
    let x = lemma_filter_from(extents(heard, narrow), strict.keeps(), a);
    let group = narrow[x];
    assert(strict.is_group(heard, group.first, group.last));
    assert(l.speech(heard, group.first));
    let y = choose|y: int|
        0 <= y < wide.len() && (#[trigger] wide[y]).first <= group.first <= wide[y].last;
    let outer = wide[y];
    assert(l.is_group(heard, outer.first, outer.last));
    lemma_looser_group(strict, l, heard, group, outer);
    lemma_ends_in_order(heard, group.first, group.last);
    lemma_ends_in_order(heard, group.last, outer.last);
    assert(heard[group.first].at.ge(heard[outer.first].at));
    let all = extents(heard, wide);
    exact::lemma_longer_around(
        heard[group.first].at,
        heard[group.last].end(),
        heard[outer.first].at,
        heard[outer.last].end(),
        l.min_speech,
    );
    all.lemma_filter_contains(l.keeps(), y);
    choose|b: int| 0 <= b < l.spans_of(heard).len() && l.spans_of(heard)[b] == all[y]
}

} // verus!
