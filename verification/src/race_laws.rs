//! What arbitration promises of whole runs of frames, in any interleaving of
//! the sources.

use crate::arbitration::{Ruling, Stamp};
use vstd::prelude::*;

verus! {

/// A frame as the race sees it: who sent it, how it orders, when it arrived.
pub ghost struct Arrival {
    pub id: usize,
    pub stamp: Stamp,
    pub now: u64,
}

/// The state after a run of frames.
pub open spec fn replay(
    r: crate::arbitration::RaceView,
    frames: Seq<Arrival>,
    open_reset: bool,
) -> crate::arbitration::RaceView
    decreases frames.len(),
{
    if frames.len() == 0 {
        r
    } else {
        let before = replay(r, frames.drop_last(), open_reset);
        let f = frames.last();
        before.judged(f.id, f.stamp, f.now, open_reset).0
    }
}

/// The state just before frame `i` of a run.
pub open spec fn before(
    r: crate::arbitration::RaceView,
    frames: Seq<Arrival>,
    open_reset: bool,
    i: int,
) -> crate::arbitration::RaceView {
    replay(r, frames.take(i), open_reset)
}

/// The ruling on frame `i` of a run.
pub open spec fn ruling(
    r: crate::arbitration::RaceView,
    frames: Seq<Arrival>,
    open_reset: bool,
    i: int,
) -> Ruling {
    before(r, frames, open_reset, i).judged(
        frames[i].id,
        frames[i].stamp,
        frames[i].now,
        open_reset,
    ).1
}

/// Whether frame `i` of a run goes out.
pub open spec fn goes_out(
    r: crate::arbitration::RaceView,
    frames: Seq<Arrival>,
    open_reset: bool,
    i: int,
) -> bool {
    ruling(r, frames, open_reset, i).delivers()
}

/// How many of the first `n` frames of a run go out.
pub open spec fn forwarded(
    r: crate::arbitration::RaceView,
    frames: Seq<Arrival>,
    open_reset: bool,
    n: int,
) -> nat
    decreases n,
{
    if n <= 0 {
        0
    } else {
        forwarded(r, frames, open_reset, n - 1) + if goes_out(r, frames, open_reset, n - 1) {
            1nat
        } else {
            0nat
        }
    }
}

proof fn lemma_step(
    r: crate::arbitration::RaceView,
    frames: Seq<Arrival>,
    open_reset: bool,
    i: int,
)
    requires
        0 <= i < frames.len(),
    ensures
        before(r, frames, open_reset, i + 1) == before(r, frames, open_reset, i).judged(
            frames[i].id,
            frames[i].stamp,
            frames[i].now,
            open_reset,
        ).0,
{
    assert(frames.take(i + 1).drop_last() =~= frames.take(i));
}

// ---------------------------------------------------------------------------
// Order
// ---------------------------------------------------------------------------

/// The runs in which stamps are comparable throughout: either no frame is
/// carried by one source end to end, or no frame is a bare point and a stream
/// that nobody leads has no history. Every channel's frames form such runs.
pub open spec fn ordered_run(r: crate::arbitration::RaceView, frames: Seq<Arrival>) -> bool {
    ||| forall|i: int| 0 <= i < frames.len() ==> !((#[trigger] frames[i]).stamp is Sticky)
    ||| {
        &&& r.leader is None ==> r.last == 0
        &&& forall|i: int| 0 <= i < frames.len() ==> !((#[trigger] frames[i]).stamp is Point)
    }
}

proof fn lemma_last_grows(
    r: crate::arbitration::RaceView,
    frames: Seq<Arrival>,
    open_reset: bool,
    i: int,
    j: int,
)
    requires
        0 <= i <= j <= frames.len(),
        ordered_run(r, frames),
    ensures
        before(r, frames, open_reset, i).last <= before(r, frames, open_reset, j).last,
        (forall|k: int| 0 <= k < frames.len() ==> !((#[trigger] frames[k]).stamp is Sticky)) || (
        before(r, frames, open_reset, j).leader is None ==> before(
            r,
            frames,
            open_reset,
            j,
        ).last == 0),
    decreases j,
{
    if j == 0 {
        assert(frames.take(0) =~= Seq::<Arrival>::empty());
    } else {
        lemma_step(r, frames, open_reset, j - 1);
        if i == j {
            lemma_last_grows(r, frames, open_reset, j - 1, j - 1);
        } else {
            lemma_last_grows(r, frames, open_reset, i, j - 1);
        }
    }
}

/// What went out carries the newest stamp seen so far.
proof fn lemma_goes_out_is_newest(
    r: crate::arbitration::RaceView,
    frames: Seq<Arrival>,
    open_reset: bool,
    i: int,
)
    requires
        0 <= i < frames.len(),
        goes_out(r, frames, open_reset, i),
    ensures
        before(r, frames, open_reset, i + 1).last == frames[i].stamp.value(),
{
    lemma_step(r, frames, open_reset, i);
}

/// The stamps that go out never go back: a client is never walked backwards.
pub proof fn law_stamps_never_go_back(
    r: crate::arbitration::RaceView,
    frames: Seq<Arrival>,
    open_reset: bool,
    i: int,
    j: int,
)
    requires
        ordered_run(r, frames),
        0 <= i < j < frames.len(),
        goes_out(r, frames, open_reset, i),
        goes_out(r, frames, open_reset, j),
    ensures
        frames[i].stamp.value() <= frames[j].stamp.value(),
{
    lemma_goes_out_is_newest(r, frames, open_reset, i);
    lemma_goes_out_is_newest(r, frames, open_reset, j);
    lemma_last_grows(r, frames, open_reset, i + 1, j + 1);
}

/// Newest wins: on a channel of points every stamp goes out at most once, and
/// in rising order.
pub proof fn law_points_go_out_once(
    r: crate::arbitration::RaceView,
    frames: Seq<Arrival>,
    open_reset: bool,
    i: int,
    j: int,
)
    requires
        forall|k: int| 0 <= k < frames.len() ==> (#[trigger] frames[k]).stamp is Point,
        0 <= i < j < frames.len(),
        goes_out(r, frames, open_reset, i),
        goes_out(r, frames, open_reset, j),
    ensures
        frames[i].stamp.value() < frames[j].stamp.value(),
{
    lemma_goes_out_is_newest(r, frames, open_reset, i);
    lemma_last_grows(r, frames, open_reset, i + 1, j);
    lemma_step(r, frames, open_reset, j);
}

proof fn lemma_last_point(
    r: crate::arbitration::RaceView,
    frames: Seq<Arrival>,
    open_reset: bool,
    n: int,
)
    requires
        forall|k: int| 0 <= k < frames.len() ==> (#[trigger] frames[k]).stamp is Point,
        0 <= n <= frames.len(),
    ensures
        ({
            let last = before(r, frames, open_reset, n).last;
            &&& r.last <= last
            &&& forall|j: int| 0 <= j < n ==> (#[trigger] frames[j]).stamp.value() <= last
            &&& last == r.last || exists|j: int|
                0 <= j < n && (#[trigger] frames[j]).stamp.value() == last
        }),
    decreases n,
{
    if n == 0 {
        assert(frames.take(0) =~= Seq::<Arrival>::empty());
    } else {
        lemma_last_point(r, frames, open_reset, n - 1);
        lemma_step(r, frames, open_reset, n - 1);
        let f = frames[n - 1];
        let earlier = before(r, frames, open_reset, n - 1).last;
        if f.stamp.value() <= earlier && earlier != r.last {
            let j = choose|j: int|
                0 <= j < n - 1 && (#[trigger] frames[j]).stamp.value() == earlier;
            assert(frames[j].stamp.value() == before(r, frames, open_reset, n).last);
        }
    }
}

/// Newest wins, and nothing newer is ever held back: over any run of points, from
/// any sources, a frame goes out exactly when its number is greater than the mark the
/// run started from and than every number before it.
pub proof fn law_every_newer_point_goes_out(
    r: crate::arbitration::RaceView,
    frames: Seq<Arrival>,
    open_reset: bool,
    i: int,
)
    requires
        forall|k: int| 0 <= k < frames.len() ==> (#[trigger] frames[k]).stamp is Point,
        0 <= i < frames.len(),
    ensures
        goes_out(r, frames, open_reset, i) <==> frames[i].stamp.value() > r.last && forall|j: int|
            0 <= j < i ==> (#[trigger] frames[j]).stamp.value() < frames[i].stamp.value(),
        goes_out(r, frames, open_reset, i) ==> ruling(r, frames, open_reset, i) == Ruling::Win
            && before(r, frames, open_reset, i + 1).last == frames[i].stamp.value(),
{
    lemma_last_point(r, frames, open_reset, i);
    lemma_step(r, frames, open_reset, i);
}

// ---------------------------------------------------------------------------
// One source per stamp, one source per stream
// ---------------------------------------------------------------------------

proof fn lemma_leader_of_stamp(
    r: crate::arbitration::RaceView,
    frames: Seq<Arrival>,
    open_reset: bool,
    i: int,
    j: int,
)
    requires
        forall|k: int| 0 <= k < frames.len() ==> (#[trigger] frames[k]).stamp is Lead,
        0 <= i <= j <= frames.len(),
        before(r, frames, open_reset, i).last == before(r, frames, open_reset, j).last,
    ensures
        before(r, frames, open_reset, i).leader == before(r, frames, open_reset, j).leader,
    decreases j,
{
    if i < j {
        lemma_step(r, frames, open_reset, j - 1);
        lemma_last_grows(r, frames, open_reset, i, j - 1);
        lemma_last_grows(r, frames, open_reset, j - 1, j);
        lemma_leader_of_stamp(r, frames, open_reset, i, j - 1);
    }
}

/// One source carries a stamp: two frames of one stamp that both go out come
/// from the same source.
pub proof fn law_one_source_per_stamp(
    r: crate::arbitration::RaceView,
    frames: Seq<Arrival>,
    open_reset: bool,
    i: int,
    j: int,
)
    requires
        forall|k: int| 0 <= k < frames.len() ==> (#[trigger] frames[k]).stamp is Lead,
        0 <= i < j < frames.len(),
        goes_out(r, frames, open_reset, i),
        goes_out(r, frames, open_reset, j),
        frames[i].stamp.value() == frames[j].stamp.value(),
    ensures
        frames[i].id == frames[j].id,
{
    lemma_goes_out_is_newest(r, frames, open_reset, i);
    lemma_goes_out_is_newest(r, frames, open_reset, j);
    lemma_step(r, frames, open_reset, i);
    lemma_step(r, frames, open_reset, j);
    lemma_leader_of_stamp(r, frames, open_reset, i + 1, j + 1);
}

proof fn lemma_stream_keeps_leader(
    r: crate::arbitration::RaceView,
    frames: Seq<Arrival>,
    leader: usize,
    j: int,
)
    requires
        r.leader == Some(leader),
        0 <= j <= frames.len(),
        forall|k: int|
            0 <= k < frames.len() ==> (#[trigger] frames[k]).stamp is Sticky
                || frames[k].stamp is Snapshot,
    ensures
        before(r, frames, false, j).leader == Some(leader),
    decreases j,
{
    if j == 0 {
        assert(frames.take(0) =~= Seq::<Arrival>::empty());
    } else {
        lemma_stream_keeps_leader(r, frames, leader, j - 1);
        lemma_step(r, frames, false, j - 1);
    }
}

/// One source carries the whole stream: while it is followed nothing goes out
/// but its own frames, whatever the others send, snapshots included.
pub proof fn law_one_source_per_stream(
    r: crate::arbitration::RaceView,
    frames: Seq<Arrival>,
    leader: usize,
    i: int,
)
    requires
        r.leader == Some(leader),
        0 <= i < frames.len(),
        forall|k: int|
            0 <= k < frames.len() ==> (#[trigger] frames[k]).stamp is Sticky
                || frames[k].stamp is Snapshot,
        goes_out(r, frames, false, i),
    ensures
        frames[i].id == leader,
        before(r, frames, false, i + 1).leader == Some(leader),
{
    lemma_stream_keeps_leader(r, frames, leader, i);
    lemma_stream_keeps_leader(r, frames, leader, i + 1);
}

/// A stream that nobody leads is taken by the first source in play that speaks.
pub proof fn law_first_to_speak_takes_the_stream(
    r: crate::arbitration::RaceView,
    id: usize,
    v: u64,
    now: u64,
    open_reset: bool,
)
    requires
        r.leader is None,
        !r.written_off.contains(crate::arbitration::bit_index(id as int)),
    ensures
        r.judged(id, Stamp::Sticky(v), now, open_reset).1 == Ruling::Win,
        r.judged(id, Stamp::Sticky(v), now, open_reset).0.leader == Some(id),
{
}

/// Who leads after `n` frames of a run of leads: the source of the first frame to
/// carry the newest number.
spec fn opened_by(frames: Seq<Arrival>, n: int, j: int) -> bool {
    &&& 0 <= j < n
    &&& forall|k: int|
        0 <= k < j ==> (#[trigger] frames[k]).stamp.value() < frames[j].stamp.value()
    &&& forall|k: int|
        0 <= k < n ==> (#[trigger] frames[k]).stamp.value() <= frames[j].stamp.value()
}

proof fn lemma_lead_opened(
    r: crate::arbitration::RaceView,
    frames: Seq<Arrival>,
    open_reset: bool,
    n: int,
) -> (j: int)
    requires
        r.last == 0,
        forall|k: int|
            0 <= k < frames.len() ==> (#[trigger] frames[k]).stamp is Lead
                && frames[k].stamp.value() > 0,
        0 <= n <= frames.len(),
    ensures
        n == 0 ==> before(r, frames, open_reset, n) == r,
        n > 0 ==> opened_by(frames, n, j) && before(r, frames, open_reset, n).last
            == frames[j].stamp.value() && before(r, frames, open_reset, n).leader == Some(
            frames[j].id,
        ),
    decreases n,
{
    if n == 0 {
        assert(frames.take(0) =~= Seq::<Arrival>::empty());
        0
    } else {
        let was = lemma_lead_opened(r, frames, open_reset, n - 1);
        lemma_step(r, frames, open_reset, n - 1);
        if frames[n - 1].stamp.value() > before(r, frames, open_reset, n - 1).last {
            n - 1
        } else {
            was
        }
    }
}

/// Over any run on a channel where one source carries a stamp, on a race with no
/// history: a frame goes out exactly when nothing newer came before it and the first
/// frame of its number came from the same source, if there was one.
pub proof fn law_stamp_is_carried_by_its_opener(
    r: crate::arbitration::RaceView,
    frames: Seq<Arrival>,
    open_reset: bool,
    i: int,
)
    requires
        r.last == 0,
        forall|k: int|
            0 <= k < frames.len() ==> (#[trigger] frames[k]).stamp is Lead
                && frames[k].stamp.value() > 0,
        0 <= i < frames.len(),
    ensures
        ({
            let v = frames[i].stamp.value();
            goes_out(r, frames, open_reset, i) <==> {
                &&& forall|j: int| 0 <= j < i ==> (#[trigger] frames[j]).stamp.value() <= v
                &&& forall|j: int|
                    0 <= j < i && (#[trigger] frames[j]).stamp.value() == v && (forall|k: int|
                        0 <= k < j ==> (#[trigger] frames[k]).stamp.value() != v) ==> frames[j].id
                        == frames[i].id
            }
        }),
{
    let o = lemma_lead_opened(r, frames, open_reset, i);
    lemma_step(r, frames, open_reset, i);
    let v = frames[i].stamp.value();
    if i > 0 {
        if v == frames[o].stamp.value() {
            assert(forall|k: int| 0 <= k < o ==> (#[trigger] frames[k]).stamp.value() != v);
            assert forall|j: int|
                0 <= j < i && (#[trigger] frames[j]).stamp.value() == v && (forall|k: int|
                    0 <= k < j ==> (#[trigger] frames[k]).stamp.value() != v) implies j == o by {
                if o < j {
                    assert(frames[o].stamp.value() != v);
                }
            }
        } else if v > frames[o].stamp.value() {
            assert forall|j: int| 0 <= j < i implies (#[trigger] frames[j]).stamp.value() < v by {}
        } else {
            assert(frames[o].stamp.value() > v);
        }
    }
}

proof fn lemma_stream_taken(
    r: crate::arbitration::RaceView,
    frames: Seq<Arrival>,
    open_reset: bool,
    n: int,
)
    requires
        r.leader is None,
        r.written_off.is_empty(),
        forall|k: int| 0 <= k < frames.len() ==> (#[trigger] frames[k]).stamp is Sticky,
        0 <= n <= frames.len(),
    ensures
        ({
            let b = before(r, frames, open_reset, n);
            &&& b.written_off.is_empty()
            &&& n == 0 ==> b == r
            &&& n > 0 ==> {
                &&& b.leader == Some(frames[0].id)
                &&& forall|j: int|
                    0 <= j < n && (#[trigger] frames[j]).id == frames[0].id
                        ==> frames[j].stamp.value() <= b.last
                &&& exists|j: int|
                    0 <= j < n && (#[trigger] frames[j]).id == frames[0].id
                        && frames[j].stamp.value() == b.last
            }
        }),
    decreases n,
{
    if n == 0 {
        assert(frames.take(0) =~= Seq::<Arrival>::empty());
    } else {
        lemma_stream_taken(r, frames, open_reset, n - 1);
        lemma_step(r, frames, open_reset, n - 1);
        if n > 1 {
            let b = before(r, frames, open_reset, n - 1);
            let j = choose|j: int|
                0 <= j < n - 1 && (#[trigger] frames[j]).id == frames[0].id
                    && frames[j].stamp.value() == b.last;
            if frames[n - 1].id == frames[0].id && frames[n - 1].stamp.value() >= b.last {
                assert(frames[n - 1].stamp.value() == before(r, frames, open_reset, n).last);
            } else {
                assert(frames[j].stamp.value() == before(r, frames, open_reset, n).last);
            }
        } else {
            assert(frames[0].stamp.value() == before(r, frames, open_reset, n).last);
        }
    }
}

/// Over any run on a channel where one source carries the whole stream, on a race
/// that nobody leads and with every source in play: a frame goes out exactly when it
/// comes from the source that spoke first and nothing newer came from that source
/// before.
pub proof fn law_stream_is_carried_by_the_first(
    r: crate::arbitration::RaceView,
    frames: Seq<Arrival>,
    open_reset: bool,
    i: int,
)
    requires
        r.leader is None,
        r.written_off.is_empty(),
        forall|k: int| 0 <= k < frames.len() ==> (#[trigger] frames[k]).stamp is Sticky,
        0 <= i < frames.len(),
    ensures
        goes_out(r, frames, open_reset, i) <==> frames[i].id == frames[0].id && forall|j: int|
            0 <= j < i && (#[trigger] frames[j]).id == frames[0].id ==> frames[j].stamp.value()
                <= frames[i].stamp.value(),
{
    lemma_stream_taken(r, frames, open_reset, i);
    lemma_step(r, frames, open_reset, i);
}

// ---------------------------------------------------------------------------
// Positions within a block
// ---------------------------------------------------------------------------

/// A run of messages of one open block, from sources that are in play.
pub open spec fn block_run(r: crate::arbitration::RaceView, frames: Seq<Arrival>) -> bool {
    &&& r.wf()
    &&& forall|k: int|
        0 <= k < frames.len() ==> (#[trigger] frames[k]).stamp == Stamp::Block(r.last)
            && !r.written_off.contains(crate::arbitration::bit_index(frames[k].id as int))
}

/// How many of the first `n` frames come from source `id`.
pub open spec fn messages_from(frames: Seq<Arrival>, id: usize, n: int) -> nat
    decreases n,
{
    if n <= 0 {
        0
    } else {
        messages_from(frames, id, n - 1) + if frames[n - 1].id == id {
            1nat
        } else {
            0nat
        }
    }
}

proof fn lemma_block_run(
    r: crate::arbitration::RaceView,
    frames: Seq<Arrival>,
    open_reset: bool,
    n: int,
)
    requires
        block_run(r, frames),
        0 <= n <= frames.len(),
    ensures
        before(r, frames, open_reset, n).wf(),
        before(r, frames, open_reset, n).last == r.last,
        before(r, frames, open_reset, n).written_off == r.written_off,
        r.sampled.subset_of(before(r, frames, open_reset, n).sampled),
    decreases n,
{
    if n == 0 {
        assert(frames.take(0) =~= Seq::<Arrival>::empty());
    } else {
        lemma_block_run(r, frames, open_reset, n - 1);
        lemma_step(r, frames, open_reset, n - 1);
    }
}

/// Every position of a block goes out exactly once and in order: a frame goes
/// out exactly when it is its source's next position beyond all that went out
/// before, and then precisely that next position is filled.
pub proof fn law_positions_go_out_in_order(
    r: crate::arbitration::RaceView,
    frames: Seq<Arrival>,
    open_reset: bool,
    i: int,
)
    requires
        block_run(r, frames),
        0 <= i < frames.len(),
    ensures
        ({
            let old_sent = before(r, frames, open_reset, i).sent;
            let new_sent = before(r, frames, open_reset, i + 1).sent;
            let position = before(r, frames, open_reset, i).next_count(frames[i].id);
            if goes_out(r, frames, open_reset, i) {
                position == old_sent + 1 && new_sent == old_sent + 1
            } else {
                position <= old_sent && new_sent == old_sent
            }
        }),
{
    lemma_block_run(r, frames, open_reset, i);
    lemma_step(r, frames, open_reset, i);
    assert(before(r, frames, open_reset, i).counts[frames[i].id as int] <= before(
        r,
        frames,
        open_reset,
        i,
    ).sent);
}

/// The number of messages of a block that went out is the number that went out
/// before plus the frames of the run that went out, and a source's count is the
/// number of messages it delivered, as long as its counter does not run full.
pub proof fn law_counts_are_exact(
    r: crate::arbitration::RaceView,
    frames: Seq<Arrival>,
    open_reset: bool,
    id: usize,
    n: int,
)
    requires
        block_run(r, frames),
        0 <= n <= frames.len(),
        r.counts[id as int] + messages_from(frames, id, n) <= u32::MAX,
    ensures
        before(r, frames, open_reset, n).sent == r.sent + forwarded(r, frames, open_reset, n),
        before(r, frames, open_reset, n).counts[id as int] == r.counts[id as int] + messages_from(
            frames,
            id,
            n,
        ),
    decreases n,
{
    if n == 0 {
        assert(frames.take(0) =~= Seq::<Arrival>::empty());
    } else {
        law_counts_are_exact(r, frames, open_reset, id, n - 1);
        law_positions_go_out_in_order(r, frames, open_reset, n - 1);
        lemma_block_run(r, frames, open_reset, n - 1);
        lemma_step(r, frames, open_reset, n - 1);
    }
}

/// The counter is the failover: whoever is still delivering completes the
/// block. As soon as a source has delivered as many messages of the block as
/// went out, every further one of its messages goes out.
pub proof fn law_block_is_completed_by_the_living(
    r: crate::arbitration::RaceView,
    frames: Seq<Arrival>,
    open_reset: bool,
    id: usize,
    i: int,
)
    requires
        block_run(r, frames),
        forall|k: int| 0 <= k < frames.len() ==> (#[trigger] frames[k]).id == id,
        0 <= i < frames.len(),
        r.counts[id as int] + i + 1 <= u32::MAX,
    ensures
        goes_out(r, frames, open_reset, i) <==> r.counts[id as int] + i + 1 > r.sent,
    decreases i,
{
    lemma_alone(r, frames, open_reset, id, i);
    law_positions_go_out_in_order(r, frames, open_reset, i);
}

proof fn lemma_alone(
    r: crate::arbitration::RaceView,
    frames: Seq<Arrival>,
    open_reset: bool,
    id: usize,
    n: int,
)
    requires
        block_run(r, frames),
        forall|k: int| 0 <= k < frames.len() ==> (#[trigger] frames[k]).id == id,
        0 <= n <= frames.len(),
        r.counts[id as int] + n <= u32::MAX,
    ensures
        before(r, frames, open_reset, n).counts[id as int] == r.counts[id as int] + n,
        before(r, frames, open_reset, n).sent == if r.counts[id as int] + n > r.sent {
            r.counts[id as int] + n
        } else {
            r.sent as int
        },
    decreases n,
{
    assert(r.counts[id as int] <= r.sent);
    if n == 0 {
        assert(frames.take(0) =~= Seq::<Arrival>::empty());
    } else {
        lemma_alone(r, frames, open_reset, id, n - 1);
        lemma_block_run(r, frames, open_reset, n - 1);
        lemma_step(r, frames, open_reset, n - 1);
        assert(frames[n - 1].id == id);
    }
}

/// Lateness is sampled once per source and block: two frames of one block that
/// are both charged a sample come from sources with different bits.
pub proof fn law_one_sample_per_source(
    r: crate::arbitration::RaceView,
    frames: Seq<Arrival>,
    open_reset: bool,
    i: int,
    j: int,
)
    requires
        block_run(r, frames),
        0 <= i < j < frames.len(),
        ruling(r, frames, open_reset, i) is Late,
        ruling(r, frames, open_reset, j) is Late,
    ensures
        crate::arbitration::bit_index(frames[i].id as int) != crate::arbitration::bit_index(
            frames[j].id as int,
        ),
{
    lemma_block_run(r, frames, open_reset, i);
    lemma_step(r, frames, open_reset, i);
    let later = frames.skip(i + 1);
    let mid = before(r, frames, open_reset, i + 1);
    lemma_block_run(r, frames, open_reset, i + 1);
    assert forall|k: int| 0 <= k < later.len() implies (#[trigger] later[k]).stamp == Stamp::Block(
        mid.last,
    ) && !mid.written_off.contains(crate::arbitration::bit_index(later[k].id as int)) by {
        assert(later[k] == frames[k + i + 1]);
    }
    lemma_block_run(mid, later, open_reset, j - i - 1);
    lemma_resume(r, frames, open_reset, i + 1, j);
    lemma_block_run(r, frames, open_reset, j);
}

/// Replaying a run in two parts gives what replaying it at once gives.
proof fn lemma_resume(
    r: crate::arbitration::RaceView,
    frames: Seq<Arrival>,
    open_reset: bool,
    i: int,
    j: int,
)
    requires
        0 <= i <= j <= frames.len(),
    ensures
        before(before(r, frames, open_reset, i), frames.skip(i), open_reset, j - i) == before(
            r,
            frames,
            open_reset,
            j,
        ),
    decreases j,
{
    if i == j {
        assert(frames.skip(i).take(0) =~= Seq::<Arrival>::empty());
    } else {
        lemma_resume(r, frames, open_reset, i, j - 1);
        lemma_step(r, frames, open_reset, j - 1);
        lemma_step(before(r, frames, open_reset, i), frames.skip(i), open_reset, j - 1 - i);
        assert(frames.skip(i)[j - 1 - i] == frames[j - 1]);
    }
}

// ---------------------------------------------------------------------------
// Blocks one after the other
// ---------------------------------------------------------------------------

/// A run of messages of any blocks, in any order, on a race that has no block open,
/// from sources that are in play.
pub open spec fn block_history(r: crate::arbitration::RaceView, frames: Seq<Arrival>) -> bool {
    &&& r.wf()
    &&& r.last == 0
    &&& forall|k: int|
        0 <= k < frames.len() ==> (#[trigger] frames[k]).stamp is Block && frames[k].stamp.value()
            > 0 && !r.written_off.contains(crate::arbitration::bit_index(frames[k].id as int))
}

/// The newest block among the first `n` frames, or zero where there is none.
pub open spec fn newest(frames: Seq<Arrival>, n: int) -> u64
    decreases n,
{
    if n <= 0 {
        0
    } else if frames[n - 1].stamp.value() > newest(frames, n - 1) {
        frames[n - 1].stamp.value()
    } else {
        newest(frames, n - 1)
    }
}

/// How many of the first `n` frames are messages of block `h` from source `id`.
pub open spec fn messages_of(frames: Seq<Arrival>, id: usize, h: u64, n: int) -> nat
    decreases n,
{
    if n <= 0 {
        0
    } else {
        messages_of(frames, id, h, n - 1) + if frames[n - 1].id == id && frames[n - 1].stamp.value()
            == h {
            1nat
        } else {
            0nat
        }
    }
}

/// How many of the first `n` frames are messages of block `h` that go out.
pub open spec fn forwarded_of(
    r: crate::arbitration::RaceView,
    frames: Seq<Arrival>,
    open_reset: bool,
    h: u64,
    n: int,
) -> nat
    decreases n,
{
    if n <= 0 {
        0
    } else {
        forwarded_of(r, frames, open_reset, h, n - 1) + if frames[n - 1].stamp.value() == h
            && goes_out(r, frames, open_reset, n - 1) {
            1nat
        } else {
            0nat
        }
    }
}

/// Whether no source sends so many messages of one block that its counter runs full.
pub open spec fn counters_hold(frames: Seq<Arrival>) -> bool {
    forall|id: usize, h: u64| #[trigger]
        messages_of(frames, id, h, frames.len() as int) <= u32::MAX
}

proof fn lemma_unopened(
    r: crate::arbitration::RaceView,
    frames: Seq<Arrival>,
    open_reset: bool,
    h: u64,
    n: int,
)
    requires
        h > newest(frames, n),
    ensures
        forwarded_of(r, frames, open_reset, h, n) == 0,
        forall|id: usize| #[trigger] messages_of(frames, id, h, n) == 0,
    decreases n,
{
    if n > 0 {
        lemma_unopened(r, frames, open_reset, h, n - 1);
        assert forall|id: usize| #[trigger] messages_of(frames, id, h, n) == 0 by {
            assert(messages_of(frames, id, h, n - 1) == 0);
        }
    }
}

proof fn lemma_messages_grow(frames: Seq<Arrival>, id: usize, h: u64, i: int, j: int)
    requires
        i <= j,
    ensures
        messages_of(frames, id, h, i) <= messages_of(frames, id, h, j),
    decreases j - i,
{
    if i < j {
        lemma_messages_grow(frames, id, h, i, j - 1);
    }
}

/// Whatever was sent before, the open block is the newest one.
proof fn lemma_newest_is_open(
    r: crate::arbitration::RaceView,
    frames: Seq<Arrival>,
    open_reset: bool,
    n: int,
)
    requires
        block_history(r, frames),
        0 <= n <= frames.len(),
    ensures
        before(r, frames, open_reset, n).wf(),
        before(r, frames, open_reset, n).written_off == r.written_off,
        before(r, frames, open_reset, n).last == newest(frames, n),
    decreases n,
{
    if n == 0 {
        assert(frames.take(0) =~= Seq::<Arrival>::empty());
    } else {
        lemma_newest_is_open(r, frames, open_reset, n - 1);
        lemma_step(r, frames, open_reset, n - 1);
    }
}

/// What the state says of the open block after `n` frames of a run.
spec fn block_state(
    r: crate::arbitration::RaceView,
    frames: Seq<Arrival>,
    open_reset: bool,
    n: int,
) -> bool {
    let b = before(r, frames, open_reset, n);
    let h = newest(frames, n);
    &&& n > 0 ==> h > 0
    &&& n > 0 ==> b.sent == forwarded_of(r, frames, open_reset, h, n)
    &&& n > 0 ==> forall|id: usize| #[trigger]
        messages_of(frames, id, h, n) == b.counts[id as int]
    &&& n > 0 ==> exists|id: usize| #[trigger] messages_of(frames, id, h, n) == b.sent
}

proof fn lemma_block_state(
    r: crate::arbitration::RaceView,
    frames: Seq<Arrival>,
    open_reset: bool,
    n: int,
)
    requires
        block_history(r, frames),
        counters_hold(frames),
        0 <= n <= frames.len(),
    ensures
        block_state(r, frames, open_reset, n),
    decreases n,
{
    if n > 0 {
        lemma_newest_is_open(r, frames, open_reset, n - 1);
        lemma_newest_is_open(r, frames, open_reset, n);
        lemma_block_state(r, frames, open_reset, n - 1);
        lemma_step(r, frames, open_reset, n - 1);
        let b = before(r, frames, open_reset, n - 1);
        let after = before(r, frames, open_reset, n);
        let f = frames[n - 1];
        let h = newest(frames, n);
        lemma_messages_grow(frames, f.id, h, n, frames.len() as int);
        if f.stamp.value() > b.last {
            lemma_unopened(r, frames, open_reset, h, n - 1);
            assert forall|id: usize| #[trigger] messages_of(frames, id, h, n)
                == after.counts[id as int] by {
                assert(messages_of(frames, id, h, n - 1) == 0);
            }
            assert(messages_of(frames, f.id, h, n) == after.sent);
        } else {
            assert(n - 1 > 0);
            assert(messages_of(frames, f.id, h, n - 1) == b.counts[f.id as int]);
            let longest = choose|id: usize| #[trigger] messages_of(frames, id, h, n - 1) == b.sent;
            assert(messages_of(frames, longest, h, n - 1) == b.sent);
            assert forall|id: usize| #[trigger] messages_of(frames, id, h, n)
                == after.counts[id as int] by {
                assert(messages_of(frames, id, h, n - 1) == b.counts[id as int]);
            }
            assert(messages_of(frames, f.id, h, n) == after.sent || messages_of(
                frames,
                longest,
                h,
                n,
            ) == after.sent);
        }
    }
}

/// Over any run of blocks, however the sources interleave: a message goes out
/// exactly when its block is newer than every block before it, or is the newest
/// block and the message is its source's next position beyond all that went out
/// of that block. A message of an older block is stale and leaves the race as it is.
/// However long the run, only the messages of one source in one block must be within
/// what its counter holds.
pub proof fn law_every_position_of_every_block_goes_out_once(
    r: crate::arbitration::RaceView,
    frames: Seq<Arrival>,
    open_reset: bool,
    i: int,
)
    requires
        block_history(r, frames),
        counters_hold(frames),
        0 <= i < frames.len(),
    ensures
        ({
            let h = frames[i].stamp.value();
            let seen = newest(frames, i);
            &&& goes_out(r, frames, open_reset, i) <==> h > seen || (h == seen && messages_of(
                frames,
                frames[i].id,
                h,
                i + 1,
            ) > forwarded_of(r, frames, open_reset, h, i))
            &&& ruling(r, frames, open_reset, i) == Ruling::Win <==> h > seen
            &&& ruling(r, frames, open_reset, i) == Ruling::Stale <==> h < seen
            &&& h < seen ==> before(r, frames, open_reset, i + 1) == before(
                r,
                frames,
                open_reset,
                i,
            )
        }),
{
    lemma_newest_is_open(r, frames, open_reset, i);
    lemma_block_state(r, frames, open_reset, i);
    lemma_step(r, frames, open_reset, i);
    let h = frames[i].stamp.value();
    lemma_messages_grow(frames, frames[i].id, h, i + 1, frames.len() as int);
    if h == newest(frames, i) {
        assert(i > 0);
        assert(messages_of(frames, frames[i].id, h, i) == before(r, frames, open_reset, i).counts[
            frames[i].id as int
        ]);
    }
}

/// As long as a block is the newest, exactly as many of its messages have gone out
/// as the source that has sent most of them has sent.
pub proof fn law_block_is_as_long_as_its_longest_source(
    r: crate::arbitration::RaceView,
    frames: Seq<Arrival>,
    open_reset: bool,
    n: int,
)
    requires
        block_history(r, frames),
        counters_hold(frames),
        0 < n <= frames.len(),
    ensures
        forall|id: usize| #[trigger]
            messages_of(frames, id, newest(frames, n), n) <= forwarded_of(
                r,
                frames,
                open_reset,
                newest(frames, n),
                n,
            ),
        exists|id: usize| #[trigger]
            messages_of(frames, id, newest(frames, n), n) == forwarded_of(
                r,
                frames,
                open_reset,
                newest(frames, n),
                n,
            ),
{
    lemma_newest_is_open(r, frames, open_reset, n);
    lemma_block_state(r, frames, open_reset, n);
    let b = before(r, frames, open_reset, n);
    assert forall|id: usize| #[trigger] messages_of(frames, id, newest(frames, n), n)
        <= b.sent by {
        assert(b.counts[id as int] <= b.sent);
    }
}

proof fn lemma_newest_grows(frames: Seq<Arrival>, i: int, j: int)
    requires
        i <= j,
    ensures
        newest(frames, i) <= newest(frames, j),
    decreases j - i,
{
    if i < j {
        lemma_newest_grows(frames, i, j - 1);
    }
}

proof fn lemma_samples_stay(
    r: crate::arbitration::RaceView,
    frames: Seq<Arrival>,
    open_reset: bool,
    i: int,
    j: int,
)
    requires
        block_history(r, frames),
        0 < i <= j <= frames.len(),
        newest(frames, i) == newest(frames, j),
    ensures
        before(r, frames, open_reset, i).sampled.subset_of(
            before(r, frames, open_reset, j).sampled,
        ),
    decreases j,
{
    if i < j {
        lemma_newest_grows(frames, i, j - 1);
        lemma_newest_grows(frames, j - 1, j);
        lemma_samples_stay(r, frames, open_reset, i, j - 1);
        lemma_newest_is_open(r, frames, open_reset, j - 1);
        lemma_step(r, frames, open_reset, j - 1);
    }
}

/// Over any run of blocks no source is charged more than one sample of lateness for
/// a block: two messages of one block that are both charged come from sources with
/// different bits.
pub proof fn law_one_sample_per_source_and_block(
    r: crate::arbitration::RaceView,
    frames: Seq<Arrival>,
    open_reset: bool,
    i: int,
    j: int,
)
    requires
        block_history(r, frames),
        0 <= i < j < frames.len(),
        frames[i].stamp.value() == frames[j].stamp.value(),
        ruling(r, frames, open_reset, i) is Late,
        ruling(r, frames, open_reset, j) is Late,
    ensures
        crate::arbitration::bit_index(frames[i].id as int) != crate::arbitration::bit_index(
            frames[j].id as int,
        ),
        frames[i].id != frames[j].id,
{
    lemma_newest_is_open(r, frames, open_reset, i);
    lemma_newest_is_open(r, frames, open_reset, j);
    lemma_step(r, frames, open_reset, i);
    lemma_samples_stay(r, frames, open_reset, i + 1, j);
}

// ---------------------------------------------------------------------------
// Sources written off
// ---------------------------------------------------------------------------

/// Nothing but a snapshot from the source itself puts it back in play, and
/// until then none of its block messages and none of its increments goes out, nor
/// does any of them change the state.
pub proof fn law_written_off_until_snapshot(
    r: crate::arbitration::RaceView,
    frames: Seq<Arrival>,
    open_reset: bool,
    id: usize,
    n: int,
)
    requires
        r.written_off.contains(crate::arbitration::bit_index(id as int)),
        0 <= n <= frames.len(),
        forall|k: int|
            0 <= k < frames.len() ==> !((#[trigger] frames[k]).stamp is Snapshot
                && crate::arbitration::bit_index(frames[k].id as int)
                == crate::arbitration::bit_index(id as int)),
    ensures
        before(r, frames, open_reset, n).written_off.contains(
            crate::arbitration::bit_index(id as int),
        ),
        n < frames.len() && frames[n].id == id && (frames[n].stamp is Block
            || frames[n].stamp is Sticky) ==> ruling(r, frames, open_reset, n) == Ruling::Stale
            && before(r, frames, open_reset, n + 1) == before(r, frames, open_reset, n),
    decreases n,
{
    if n == 0 {
        assert(frames.take(0) =~= Seq::<Arrival>::empty());
    } else {
        law_written_off_until_snapshot(r, frames, open_reset, id, n - 1);
        lemma_step(r, frames, open_reset, n - 1);
    }
    if n < frames.len() {
        lemma_step(r, frames, open_reset, n);
    }
}

/// A snapshot clears its own source and no other, whatever becomes of it.
pub proof fn law_snapshot_clears_its_source(
    r: crate::arbitration::RaceView,
    id: usize,
    v: u64,
    now: u64,
    open_reset: bool,
)
    ensures
        r.judged(id, Stamp::Snapshot(v), now, open_reset).0.written_off == r.written_off.remove(
            crate::arbitration::bit_index(id as int),
        ),
{
}

/// After the leader of a stream is lost, any source that is in play can drive
/// it again, however far behind the lost one it is.
pub proof fn law_survivor_takes_over(
    r: crate::arbitration::RaceView,
    lost: usize,
    id: usize,
    v: u64,
    now: u64,
    open_reset: bool,
)
    requires
        v > 0,
        !r.written_off.contains(crate::arbitration::bit_index(id as int)),
        crate::arbitration::bit_index(id as int) != crate::arbitration::bit_index(lost as int),
    ensures
        r.orphaned(lost).judged(id, Stamp::Block(v), now, open_reset).1 == Ruling::Win,
        r.orphaned(lost).judged(id, Stamp::Sticky(v), now, open_reset).1 == Ruling::Win,
        r.orphaned(lost).judged(id, Stamp::Snapshot(v), now, open_reset).1 == Ruling::Win,
        r.orphaned(lost).judged(lost, Stamp::Block(v), now, open_reset).1 == Ruling::Stale,
        r.orphaned(lost).judged(lost, Stamp::Sticky(v), now, open_reset).1 == Ruling::Stale,
{
}

/// A source that answers with a snapshot on a stream that nobody carries is in
/// play again and its increments go out; no other source is put back in play, and
/// a stream that somebody carries is left as it is.
pub proof fn law_adopted_source_is_in_play(
    r: crate::arbitration::RaceView,
    id: usize,
    v: u64,
    now: u64,
    open_reset: bool,
)
    ensures
        r.leader is None ==> r.adopted(id).leader == Some(id) && r.adopted(id).written_off
            == r.written_off.remove(crate::arbitration::bit_index(id as int)),
        r.leader is None && v > r.last ==> r.adopted(id).judged(
            id,
            Stamp::Sticky(v),
            now,
            open_reset,
        ).1 == Ruling::Win,
        r.leader is Some ==> r.adopted(id) == r,
{
}

/// After the source that carried whole books is lost, the next book of any source
/// that is in play goes out, however far behind the lost one it is, and that
/// source carries the stream from there.
pub proof fn law_released_stream_is_taken_up(
    r: crate::arbitration::RaceView,
    id: usize,
    v: u64,
    now: u64,
    open_reset: bool,
)
    requires
        !r.written_off.contains(crate::arbitration::bit_index(id as int)),
    ensures
        r.released().leader is None,
        r.released().written_off == r.written_off,
        r.released().judged(id, Stamp::Sticky(v), now, open_reset).1 == Ruling::Win,
        r.released().judged(id, Stamp::Sticky(v), now, open_reset).0.leader == Some(id),
{
}

} // verus!
