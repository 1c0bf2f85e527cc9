//! What a ruling on a single frame means, whatever the race has been through.

use crate::arbitration::{Ruling, Stamp};
use vstd::prelude::*;

verus! {

/// A frame goes out exactly when it is the first of its stamp or a further message
/// of the open one; it is ordered by the number that its stamp carries.
pub proof fn law_what_goes_out(ns: u64, v: u64)
    ensures
        Ruling::Win.delivers(),
        Ruling::Further.delivers(),
        !Ruling::Late(ns).delivers(),
        !Ruling::Repeat.delivers(),
        !Ruling::Stale.delivers(),
        Stamp::Point(v).value() == v,
        Stamp::Block(v).value() == v,
        Stamp::Lead(v).value() == v,
        Stamp::Sticky(v).value() == v,
        Stamp::Snapshot(v).value() == v,
{
}

/// Up to sixty-four sources are told apart; the ones beyond share a mark with the
/// source sixty-four before them.
pub proof fn law_sources_are_told_apart(a: usize, b: usize)
    ensures
        a != b && a < 64 && b < 64 ==> crate::arbitration::bit_index(a as int)
            != crate::arbitration::bit_index(b as int),
        a == b + 64 ==> crate::arbitration::bit_index(a as int) == crate::arbitration::bit_index(
            b as int,
        ),
{
}

/// A race that has seen nothing follows nobody, has written nobody off, and rules
/// the first frame of any kind, from any source, a win as soon as its number is not
/// zero.
pub proof fn law_first_frame_wins(since: u64, id: usize, stamp: Stamp, now: u64, open_reset: bool)
    requires
        stamp.value() > 0,
    ensures
        crate::arbitration::RaceView::fresh(since).wf(),
        crate::arbitration::RaceView::fresh(since).last == 0,
        crate::arbitration::RaceView::fresh(since).leader is None,
        crate::arbitration::RaceView::fresh(since).written_off.is_empty(),
        crate::arbitration::RaceView::fresh(since).judged(id, stamp, now, open_reset).1
            == Ruling::Win,
{
}

/// Newest wins: a newer point goes out and becomes the mark, from whichever source it
/// comes; an equal one is a slower copy and an older one is stale, and neither
/// changes anything.
pub proof fn law_newer_point_wins(
    r: crate::arbitration::RaceView,
    id: usize,
    v: u64,
    now: u64,
    open_reset: bool,
)
    ensures
        ({
            let (after, ruling) = r.judged(id, Stamp::Point(v), now, open_reset);
            &&& v > r.last <==> ruling == Ruling::Win
            &&& v == r.last <==> ruling is Late
            &&& v < r.last <==> ruling == Ruling::Stale
            &&& v > r.last ==> after.last == v && after.seen_at == now && after.leader == r.leader
            &&& v <= r.last ==> after == r
        }),
{
}

/// One source carries a stamp: a newer one goes out and is its sender's; of the open
/// one only the frames of the source that opened it go out.
pub proof fn law_newer_lead_wins(
    r: crate::arbitration::RaceView,
    id: usize,
    v: u64,
    now: u64,
    open_reset: bool,
)
    ensures
        ({
            let (after, ruling) = r.judged(id, Stamp::Lead(v), now, open_reset);
            &&& v > r.last <==> ruling == Ruling::Win
            &&& v == r.last && r.leader == Some(id) <==> ruling == Ruling::Further
            &&& v == r.last && r.leader != Some(id) <==> ruling is Late
            &&& v < r.last <==> ruling == Ruling::Stale
            &&& v > r.last ==> after.last == v && after.seen_at == now && after.leader == Some(id)
            &&& v <= r.last ==> after == r
        }),
{
}

/// One source carries the whole stream: what the followed source sends goes out
/// unless it is older than what it sent before, what any other sends does not, and a
/// stream that nobody carries is taken by the first source in play.
pub proof fn law_followed_source_goes_out(
    r: crate::arbitration::RaceView,
    id: usize,
    v: u64,
    now: u64,
    open_reset: bool,
)
    requires
        !r.written_off.contains(crate::arbitration::bit_index(id as int)),
    ensures
        ({
            let (after, ruling) = r.judged(id, Stamp::Sticky(v), now, open_reset);
            &&& ruling.delivers() <==> r.leader is None || (r.leader == Some(id) && v >= r.last)
            &&& r.leader == Some(id) ==> (ruling == Ruling::Win <==> v > r.last)
            &&& r.leader == Some(id) ==> (ruling == Ruling::Stale <==> v < r.last)
            &&& r.leader is Some && r.leader != Some(id) <==> ruling is Late
            &&& ruling.delivers() ==> after.last == v && after.seen_at == now && after.leader
                == Some(id)
            &&& !ruling.delivers() ==> after == r
        }),
{
}

/// A snapshot is a reset: where its source may reset the stream, a newer one goes
/// out, its source leads, and counting starts over from it. Where it may not, or the
/// snapshot is no newer, nothing goes out and the race goes on as it was. Either way
/// its source is in play from then on.
pub proof fn law_snapshot_starts_over(
    r: crate::arbitration::RaceView,
    id: usize,
    other: usize,
    v: u64,
    now: u64,
    open_reset: bool,
)
    ensures
        ({
            let (after, ruling) = r.judged(id, Stamp::Snapshot(v), now, open_reset);
            let may = open_reset || r.leader is None || r.leader == Some(id);
            &&& ruling == Ruling::Win <==> may && v > r.last
            &&& ruling == Ruling::Stale <==> !(may && v > r.last)
            &&& !after.written_off.contains(crate::arbitration::bit_index(id as int))
            &&& ruling == Ruling::Win ==> {
                &&& after.last == v
                &&& after.seen_at == now
                &&& after.leader == Some(id)
                &&& after.sent == 1
                &&& after.counts[id as int] == 1
                &&& other != id ==> after.counts[other as int] == 0
                &&& after.sampled == Set::<int>::empty().insert(
                    crate::arbitration::bit_index(id as int),
                )
            }
            &&& ruling == Ruling::Stale ==> {
                &&& after.last == r.last
                &&& after.seen_at == r.seen_at
                &&& after.leader == r.leader
                &&& after.sent == r.sent
                &&& after.counts == r.counts
                &&& after.sampled == r.sampled
            }
        }),
{
}

/// A newer block is opened by whoever sends its first message, an older one is stale,
/// and a message of the open block is its source's next position: it goes out exactly
/// when that position has not. One that does not is charged as late once per source.
pub proof fn law_next_position_goes_out(
    r: crate::arbitration::RaceView,
    id: usize,
    other: usize,
    v: u64,
    now: u64,
    open_reset: bool,
)
    requires
        r.wf(),
        r.counts[id as int] < u32::MAX,
        !r.written_off.contains(crate::arbitration::bit_index(id as int)),
        other != id,
    ensures
        ({
            let (after, ruling) = r.judged(id, Stamp::Block(v), now, open_reset);
            let bit = crate::arbitration::bit_index(id as int);
            &&& ruling == Ruling::Win <==> v > r.last
            &&& ruling == Ruling::Stale <==> v < r.last
            &&& ruling == Ruling::Further <==> v == r.last && r.counts[id as int] == r.sent
            &&& ruling is Late <==> v == r.last && r.counts[id as int] < r.sent
                && !r.sampled.contains(bit)
            &&& ruling == Ruling::Repeat <==> v == r.last && r.counts[id as int] < r.sent
                && r.sampled.contains(bit)
            &&& v > r.last ==> {
                &&& after.last == v
                &&& after.seen_at == now
                &&& after.leader == Some(id)
                &&& after.sent == 1
                &&& after.counts[id as int] == 1
                &&& after.counts[other as int] == 0
                &&& after.sampled == Set::<int>::empty().insert(bit)
            }
            &&& v < r.last ==> after == r
            &&& v == r.last ==> {
                &&& after.last == r.last
                &&& after.seen_at == r.seen_at
                &&& after.counts[id as int] == r.counts[id as int] + 1
                &&& after.counts[other as int] == r.counts[other as int]
                &&& after.sent == r.sent + (if ruling == Ruling::Further {
                    1int
                } else {
                    0int
                })
                &&& after.leader == if ruling == Ruling::Further {
                    Some(id)
                } else {
                    r.leader
                }
                &&& after.sampled == if ruling is Late {
                    r.sampled.insert(bit)
                } else {
                    r.sampled
                }
            }
            &&& after.written_off == r.written_off
        }),
{
    assert(r.counts[id as int] <= r.sent);
}

/// A frame is late by the time since its stamp was first seen, and not at all where
/// the clock has gone back since; that moment is set by each frame that opens a stamp
/// and, on a stream that one source carries, by each that goes out.
pub proof fn law_lateness_counts_from_the_first(
    r: crate::arbitration::RaceView,
    id: usize,
    stamp: Stamp,
    now: u64,
    open_reset: bool,
)
    ensures
        ({
            let (after, ruling) = r.judged(id, stamp, now, open_reset);
            &&& ruling matches Ruling::Late(ns) ==> if now >= r.seen_at {
                ns == now - r.seen_at
            } else {
                ns == 0
            }
            &&& after.seen_at == if ruling == Ruling::Win || (stamp is Sticky && ruling
                == Ruling::Further) {
                now
            } else {
                r.seen_at
            }
        }),
{
}

/// Nothing but a snapshot changes who is written off.
pub proof fn law_frames_write_nobody_off(
    r: crate::arbitration::RaceView,
    id: usize,
    stamp: Stamp,
    now: u64,
    open_reset: bool,
)
    ensures
        !(stamp is Snapshot) ==> r.judged(id, stamp, now, open_reset).0.written_off
            == r.written_off,
        r.judged(id, stamp, now, open_reset).0.written_off.subset_of(r.written_off),
{
}

/// The loss of a leader writes off the source that was lost and no other, and leaves
/// a stream that anybody in play may open again; letting go of a stream of whole books
/// writes nobody off.
pub proof fn law_loss_leaves_nobody_leading(
    r: crate::arbitration::RaceView,
    lost: usize,
    bit: int,
)
    ensures
        r.orphaned(lost).leader is None,
        r.orphaned(lost).last == 0,
        r.orphaned(lost).sampled.is_empty(),
        r.orphaned(lost).written_off.contains(bit) <==> r.written_off.contains(bit) || bit
            == crate::arbitration::bit_index(lost as int),
        r.orphaned(lost).counts == r.counts && r.orphaned(lost).sent == r.sent,
        r.released().leader is None,
        r.released().last == 0,
        r.released().written_off == r.written_off,
        r.released().counts == r.counts && r.released().sent == r.sent,
        r.adopted(lost).last == r.last,
        r.adopted(lost).counts == r.counts && r.adopted(lost).sent == r.sent,
{
}

} // verus!
