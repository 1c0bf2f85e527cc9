//! What the operations on one subscription do to the clients that follow it, to those
//! that wait, and to what is held back for them.

use crate::arbitration::Stamp;
use vstd::prelude::*;

verus! {

/// What is handed over behind a snapshot is the backlog without the frames up to the
/// snapshot's height, in the backlog's own order.
pub proof fn law_backlog_is_replayed_in_order(held: Seq<(u64, Seq<char>)>, height: u64)
    ensures
        crate::entry::above(held, height) == held.filter(
            |h: (u64, Seq<char>)| h.0 > height,
        ).map_values(|h: (u64, Seq<char>)| h.1),
    decreases held.len(),
{
    reveal(Seq::filter);
    let newer = |h: (u64, Seq<char>)| h.0 > height;
    let text = |h: (u64, Seq<char>)| h.1;
    if held.len() > 0 {
        law_backlog_is_replayed_in_order(held.drop_last(), height);
        assert(crate::entry::above(held, height) =~= held.filter(newer).map_values(text));
    } else {
        assert(crate::entry::above(held, height) =~= held.filter(newer).map_values(text));
    }
}

/// A snapshot that is newer than everything held back is handed over alone, and one
/// that is older than all of it is followed by all of it.
pub proof fn law_snapshot_covers_what_is_not_newer(held: Seq<(u64, Seq<char>)>, height: u64)
    ensures
        (forall|i: int| 0 <= i < held.len() ==> (#[trigger] held[i]).0 <= height)
            ==> crate::entry::above(held, height).len() == 0,
        (forall|i: int| 0 <= i < held.len() ==> (#[trigger] held[i]).0 > height)
            ==> crate::entry::above(held, height) == held.map_values(|h: (u64, Seq<char>)| h.1),
    decreases held.len(),
{
    if held.len() > 0 {
        let rest = held.drop_last();
        law_snapshot_covers_what_is_not_newer(rest, height);
        assert(forall|i: int| 0 <= i < rest.len() ==> rest[i] == #[trigger] held[i]);
        assert(held[held.len() - 1] == held.last());
        if forall|i: int| 0 <= i < held.len() ==> (#[trigger] held[i]).0 <= height {
            assert forall|i: int| 0 <= i < rest.len() implies (#[trigger] rest[i]).0 <= height by {
                assert(rest[i] == held[i]);
            }
        }
        if forall|i: int| 0 <= i < held.len() ==> (#[trigger] held[i]).0 > height {
            assert forall|i: int| 0 <= i < rest.len() implies (#[trigger] rest[i]).0 > height by {
                assert(rest[i] == held[i]);
            }
            assert(crate::entry::above(held, height) =~= held.map_values(
                |h: (u64, Seq<char>)| h.1,
            ));
        }
    } else {
        assert(crate::entry::above(held, height) =~= held.map_values(|h: (u64, Seq<char>)| h.1));
    }
}

/// The bytes of a backlog are those of its frames together, each encoded as it goes
/// over the wire.
pub proof fn law_backlog_bytes_add_up(
    held: Seq<(u64, Seq<char>)>,
    stamp: u64,
    payload: Seq<char>,
)
    ensures
        crate::entry::total_bytes(seq![]) == 0,
        crate::entry::total_bytes(held.push((stamp, payload))) == crate::entry::total_bytes(held)
            + vstd::utf8::encode_utf8(payload).len(),
{
    assert(held.push((stamp, payload)).drop_last() =~= held);
}

/// A frame that goes out costs a waiting client its place exactly when it makes its
/// backlog outgrow sixty-four mebibytes. Whoever keeps its place has the frame held
/// back behind what was held before, whoever loses it is named, and a frame that does
/// not go out changes nothing for anybody.
pub proof fn law_only_overflow_costs_a_place(
    e: crate::entry::EntryView,
    id: usize,
    stamp: Stamp,
    payload: Seq<char>,
    now: u64,
    open_reset: bool,
    client: u64,
)
    requires
        e.wf(),
        e.waits(client),
    ensures
        ({
            let after = e.after_frame(id, stamp, payload, now, open_reset);
            let out = e.ruling(id, stamp, now, open_reset).delivers();
            let more = e.backlog(client).push((stamp.value(), payload));
            let fits = crate::entry::total_bytes(more) <= 64 * 1024 * 1024;
            let named = e.overflowed(id, stamp, payload, now, open_reset);
            &&& out && fits ==> after.waits(client) && after.backlog(client) == more
                && !named.contains(client)
            &&& out && !fits ==> !after.waits(client) && named.contains(client)
            &&& !out ==> after.waits(client) && after.backlog(client) == e.backlog(client)
                && named.len() == 0
        }),
{
    let ids = crate::entry::parked_ids(e.pending);
    let i = ids.index_of(client);
    assert(ids[i] == client);
    lemma_kept_and_evicted(e.pending, stamp.value(), payload, i);
}

/// Nobody is named as having lost its place who was not waiting, and nobody waits
/// after a frame who did not wait before it.
pub proof fn law_a_frame_parks_nobody(
    e: crate::entry::EntryView,
    id: usize,
    stamp: Stamp,
    payload: Seq<char>,
    now: u64,
    open_reset: bool,
    client: u64,
)
    requires
        !e.waits(client),
    ensures
        !e.after_frame(id, stamp, payload, now, open_reset).waits(client),
        !e.overflowed(id, stamp, payload, now, open_reset).contains(client),
        e.after_frame(id, stamp, payload, now, open_reset).subscribers == e.subscribers,
        e.after_frame(id, stamp, payload, now, open_reset).pinned == e.pinned,
        e.after_frame(id, stamp, payload, now, open_reset).upstream_subscribed
            == e.upstream_subscribed,
{
    lemma_strangers(e.pending, stamp.value(), payload, client);
}

proof fn lemma_strangers(
    pending: Seq<crate::entry::PendingView>,
    stamp: u64,
    payload: Seq<char>,
    client: u64,
)
    requires
        !crate::entry::parked_ids(pending).contains(client),
    ensures
        !crate::entry::parked_ids(crate::entry::kept(pending, stamp, payload)).contains(client),
        !crate::entry::evicted(pending, stamp, payload).contains(client),
    decreases pending.len(),
{
    let ids = crate::entry::parked_ids(pending);
    if pending.len() > 0 {
        let rest = pending.drop_last();
        assert(crate::entry::parked_ids(rest) =~= ids.drop_last());
        assert(ids[pending.len() - 1] == pending.last().client);
        assert forall|i: int| 0 <= i < ids.drop_last().len() implies ids.drop_last()[i]
            != client by {
            assert(ids[i] != client);
        }
        lemma_strangers(rest, stamp, payload, client);
        let k = crate::entry::kept(rest, stamp, payload);
        let v = crate::entry::evicted(rest, stamp, payload);
        let p = pending.last().holding(stamp, payload);
        assert(crate::entry::parked_ids(k.push(p)) =~= crate::entry::parked_ids(k).push(p.client));
        assert(p.client != client);
        assert forall|i: int| 0 <= i < k.len() + 1 implies crate::entry::parked_ids(k).push(
            p.client,
        )[i] != client by {
            if i < k.len() {
                assert(crate::entry::parked_ids(k).contains(crate::entry::parked_ids(k)[i]));
            }
        }
        assert forall|i: int| 0 <= i < v.len() + 1 implies v.push(p.client)[i] != client by {
            if i < v.len() {
                assert(v.contains(v[i]));
            }
        }
    }
}

proof fn lemma_kept_and_evicted(
    pending: Seq<crate::entry::PendingView>,
    stamp: u64,
    payload: Seq<char>,
    i: int,
)
    requires
        crate::entry::parked_ids(pending).no_duplicates(),
        0 <= i < pending.len(),
    ensures
        ({
            let client = pending[i].client;
            let more = pending[i].held.push((stamp, payload));
            let kept = crate::entry::kept(pending, stamp, payload);
            let ids = crate::entry::parked_ids(kept);
            let fits = crate::entry::total_bytes(more) <= 64 * 1024 * 1024;
            &&& fits ==> ids.contains(client) && kept[ids.index_of(client)].held == more
                && !crate::entry::evicted(pending, stamp, payload).contains(client)
            &&& !fits ==> !ids.contains(client) && crate::entry::evicted(
                pending,
                stamp,
                payload,
            ).contains(client)
            &&& ids.no_duplicates()
        }),
    decreases pending.len(),
{
    let all = crate::entry::parked_ids(pending);
    let rest = pending.drop_last();
    let client = pending[i].client;
    assert(crate::entry::parked_ids(rest) =~= all.drop_last());
    let k = crate::entry::kept(rest, stamp, payload);
    let v = crate::entry::evicted(rest, stamp, payload);
    let last = pending.last();
    let p = last.holding(stamp, payload);
    assert(crate::entry::parked_ids(k.push(p)) =~= crate::entry::parked_ids(k).push(p.client));
    assert(all[pending.len() - 1] == last.client);
    assert(!crate::entry::parked_ids(rest).contains(last.client)) by {
        assert(!all.drop_last().contains(all.last()));
    }
    lemma_strangers(rest, stamp, payload, last.client);
    if rest.len() > 0 {
        lemma_kept_and_evicted(rest, stamp, payload, 0);
    } else {
        assert(crate::entry::parked_ids(k) =~= seq![]);
    }
    let kept = crate::entry::kept(pending, stamp, payload);
    let ids = crate::entry::parked_ids(kept);
    assert(ids.no_duplicates());
    if i == pending.len() - 1 {
        if p.fits() {
            assert(ids[k.len() as int] == client);
            assert(ids.contains(client));
            assert(ids.index_of(client) == k.len());
        } else {
            assert(v.push(p.client)[v.len() as int] == client);
        }
    } else {
        lemma_kept_and_evicted(rest, stamp, payload, i);
        assert(rest[i] == pending[i]);
        assert(all[i] == client && client != last.client);
        let was = crate::entry::parked_ids(k);
        if was.contains(client) {
            let j = was.index_of(client);
            assert(ids[j] == client);
            assert(ids.contains(client));
            assert(ids.index_of(client) == j);
            assert(kept[j] == k[j]);
        } else {
            assert forall|j: int| 0 <= j < ids.len() implies ids[j] != client by {
                if j < was.len() {
                    assert(ids[j] == was[j]);
                    assert(was.contains(was[j]));
                }
            }
            let j = v.index_of(client);
            assert(v.push(p.client)[j] == client);
        }
        if !v.contains(client) {
            assert forall|j: int| 0 <= j < v.len() + 1 implies v.push(p.client)[j] != client by {
                if j < v.len() {
                    assert(v.contains(v[j]));
                }
            }
        }
    }
}

/// A client that subscribes follows at once, unless the stream is incremental and
/// already running: then it waits, with nothing held back yet. Nobody else is moved,
/// the race is left alone, and the stream is asked for from then on.
pub proof fn law_joining_follows_or_waits(
    e: crate::entry::EntryView,
    client: u64,
    incremental: bool,
    other: u64,
)
    requires
        e.wf(),
        !e.has(client),
        other != client,
    ensures
        ({
            let after = e.joined(client, incremental);
            let must_wait = incremental && e.upstream_subscribed;
            &&& after.follows(client) == !must_wait
            &&& after.waits(client) == must_wait
            &&& must_wait ==> after.backlog(client).len() == 0
            &&& after.follows(other) == e.follows(other)
            &&& after.waits(other) == e.waits(other)
            &&& e.waits(other) ==> after.backlog(other) == e.backlog(other)
            &&& after.race == e.race
            &&& after.pinned == e.pinned
            &&& after.upstream_subscribed
        }),
{
    let after = e.joined(client, incremental);
    e.lemma_joined_wf(client, incremental);
    let ids = crate::entry::parked_ids(e.pending);
    assert(!e.follows(client) && !e.waits(client));
    if incremental && e.upstream_subscribed {
        let more = crate::entry::parked_ids(after.pending);
        assert(more =~= ids.push(client));
        lemma_pushed(ids, client, client);
        lemma_pushed(ids, client, other);
        assert(more[ids.len() as int] == client);
        assert(more.index_of(client) == ids.len());
        if e.waits(other) {
            let i = ids.index_of(other);
            assert(more[i] == other);
            assert(more.index_of(other) == i);
        }
    } else {
        lemma_pushed(e.subscribers, client, client);
        lemma_pushed(e.subscribers, client, other);
    }
}

proof fn lemma_pushed(s: Seq<u64>, x: u64, c: u64)
    ensures
        s.push(x).contains(c) <==> s.contains(c) || c == x,
{
    if s.contains(c) {
        assert(s.push(x)[s.index_of(c)] == c);
    }
    if c == x {
        assert(s.push(x)[s.len() as int] == c);
    }
    if s.push(x).contains(c) && c != x {
        assert(s[s.push(x).index_of(c)] == c);
    }
}

/// A client that leaves is attached in no way any more; everybody else stays as
/// attached as before, in the same order, with the same backlog.
pub proof fn law_leaving_removes_one(e: crate::entry::EntryView, client: u64)
    ensures
        ({
            let after = e.left(client);
            &&& after.subscribers == e.subscribers.filter(|c: u64| c != client)
            &&& after.pending == e.pending.filter(
                |p: crate::entry::PendingView| p.client != client,
            )
            &&& after.race == e.race
            &&& after.pinned == e.pinned
            &&& after.upstream_subscribed == e.upstream_subscribed
        }),
{
    lemma_without_filters(e.subscribers, client);
    lemma_parked_without_filters(e.pending, client);
}

proof fn lemma_without_filters(s: Seq<u64>, client: u64)
    ensures
        crate::entry::without(s, client) == s.filter(|c: u64| c != client),
    decreases s.len(),
{
    reveal(Seq::filter);
    if s.len() > 0 {
        lemma_without_filters(s.drop_last(), client);
    } else {
        assert(crate::entry::without(s, client) =~= s.filter(|c: u64| c != client));
    }
}

proof fn lemma_parked_without_filters(s: Seq<crate::entry::PendingView>, client: u64)
    ensures
        crate::entry::parked_without(s, client) == s.filter(
            |p: crate::entry::PendingView| p.client != client,
        ),
    decreases s.len(),
{
    reveal(Seq::filter);
    if s.len() > 0 {
        lemma_parked_without_filters(s.drop_last(), client);
    } else {
        assert(crate::entry::parked_without(s, client) =~= s.filter(
            |p: crate::entry::PendingView| p.client != client,
        ));
    }
}

/// An entry is given up upstream exactly when it is asked for, not held open, and
/// nobody is attached to it in either way.
pub proof fn law_abandoned_when_nobody_is_left(e: crate::entry::EntryView)
    ensures
        e.abandoned() <==> e.upstream_subscribed && !e.pinned && forall|c: u64|
            !#[trigger] e.has(c),
{
    let ids = crate::entry::parked_ids(e.pending);
    if e.subscribers.len() > 0 {
        assert(e.follows(e.subscribers[0]));
        assert(e.has(e.subscribers[0]));
    }
    if e.pending.len() > 0 {
        assert(ids[0] == e.pending[0].client);
        assert(e.waits(ids[0]));
        assert(e.has(ids[0]));
    }
}

/// A waiting client that gets its snapshot follows from then on and waits no more;
/// one that is given up on does neither. Nobody else is moved, no other backlog is
/// touched, and the race is left alone.
pub proof fn law_one_client_stops_waiting(e: crate::entry::EntryView, client: u64, other: u64)
    requires
        e.wf(),
        e.waits(client),
        other != client,
    ensures
        ({
            let there = e.attached(client);
            let gone = e.given_up(client);
            &&& there.follows(client) && !there.waits(client)
            &&& !gone.follows(client) && !gone.waits(client)
            &&& there.follows(other) == e.follows(other)
            &&& gone.follows(other) == e.follows(other)
            &&& there.waits(other) == e.waits(other)
            &&& gone.waits(other) == e.waits(other)
            &&& e.waits(other) ==> there.backlog(other) == e.backlog(other)
                && gone.backlog(other) == e.backlog(other)
            &&& there.race == e.race && gone.race == e.race
            &&& there.pinned == e.pinned && gone.pinned == e.pinned
            &&& there.upstream_subscribed == e.upstream_subscribed
            &&& gone.upstream_subscribed == e.upstream_subscribed
        }),
{
    e.lemma_attached_wf(client);
    e.lemma_given_up_wf(client);
    let ids = crate::entry::parked_ids(e.pending);
    let at = ids.index_of(client);
    let left = crate::entry::parked_ids(e.pending.remove(at));
    assert(left =~= ids.remove(at));
    lemma_pushed(e.subscribers, client, client);
    lemma_pushed(e.subscribers, client, other);
    assert(!(e.follows(client) && e.waits(client)));
    assert forall|i: int| 0 <= i < left.len() implies left[i] != client by {
        if i < at {
            assert(left[i] == ids[i]);
        } else {
            assert(left[i] == ids[i + 1]);
        }
    }
    if left.contains(other) {
        let j = left.index_of(other);
        assert(ids[if j < at {
            j
        } else {
            j + 1
        }] == other);
    }
    if ids.contains(other) {
        let i = ids.index_of(other);
        let j = if i < at {
            i
        } else {
            i - 1
        };
        assert(left[j] == other);
        assert(left.no_duplicates());
        assert(left.index_of(other) == j);
        assert(e.pending.remove(at)[j] == e.pending[i]);
    }
}

/// When the leader is lost everybody who followed waits, with nothing held back yet,
/// behind those who waited before, whose backlogs stay as they are.
pub proof fn law_parked_followers_start_empty(
    e: crate::entry::EntryView,
    id: usize,
    client: u64,
)
    requires
        e.wf(),
    ensures
        ({
            let after = e.orphaned(id);
            &&& after.subscribers.len() == 0
            &&& e.follows(client) ==> after.waits(client) && after.backlog(client).len() == 0
            &&& e.waits(client) ==> after.waits(client) && after.backlog(client) == e.backlog(
                client,
            )
            &&& after.waits(client) ==> e.has(client)
            &&& after.race == e.race.orphaned(id)
            &&& after.pinned == e.pinned
            &&& after.upstream_subscribed == e.upstream_subscribed
        }),
{
    let after = e.orphaned(id);
    e.lemma_orphaned_wf(id);
    assert(after.has(client) <==> e.has(client));
    let was = crate::entry::parked_ids(e.pending);
    let ids = crate::entry::parked_ids(after.pending);
    assert(ids =~= was + e.subscribers);
    assert(ids.no_duplicates());
    if e.follows(client) {
        let i = e.subscribers.index_of(client);
        assert(ids[was.len() + i] == client);
        assert(ids.index_of(client) == was.len() + i);
        assert(after.pending[was.len() + i] == crate::entry::PendingView::empty(client));
    }
    if e.waits(client) {
        let i = was.index_of(client);
        assert(ids[i] == client);
        assert(ids.index_of(client) == i);
        assert(after.pending[i] == e.pending[i]);
    }
}

/// A waiting client is handed the snapshot first, and behind it, in the order in which
/// they came, the frames that were held back for it and are newer.
pub proof fn law_snapshot_goes_first(held: Seq<(u64, Seq<char>)>, height: u64, snapshot: Seq<char>)
    ensures
        ({
            let all = crate::entry::handed_over(held, height, snapshot);
            &&& all.len() > 0
            &&& all[0] == snapshot
            &&& all.skip(1) == held.filter(|h: (u64, Seq<char>)| h.0 > height).map_values(
                |h: (u64, Seq<char>)| h.1,
            )
        }),
{
    law_backlog_is_replayed_in_order(held, height);
    let all = crate::entry::handed_over(held, height, snapshot);
    assert(all.skip(1) =~= crate::entry::above(held, height));
}

/// What may be read of a subscription tells who is attached to it, and in which of the two
/// ways.
pub proof fn law_summary_tells_who_is_attached(
    s: crate::entry::EntrySummary,
    e: crate::entry::EntryView,
    client: u64,
)
    requires
        s.describes(e),
    ensures
        e.has(client) <==> s.following@.contains(client) || s.waiting@.contains(client),
        e.waits(client) <==> s.waiting@.contains(client),
        e.follows(client) <==> s.following@.contains(client),
        s.following@.len() == e.subscribers.len(),
        s.waiting@.len() == e.pending.len(),
        s.leader == e.race.leader,
        s.pinned == e.pinned,
        s.upstream_subscribed == e.upstream_subscribed,
{
}

/// A list of texts is read one for one, in order.
pub proof fn law_texts_are_read_one_for_one(v: Seq<String>, i: int)
    ensures
        crate::entry::texts(v).len() == v.len(),
        0 <= i < v.len() ==> crate::entry::texts(v)[i] == v[i]@,
{
}

} // verus!
