//! What holds of the registry as a whole, over any number of calls.

use crate::arbitration::Stamp;
use crate::state::Update;
use vstd::prelude::*;

verus! {

/// A frame for one key: who sent it, its stamp, its text, and when it came.
pub ghost struct Arrived {
    pub id: usize,
    pub stamp: Stamp,
    pub payload: Seq<char>,
    pub now: u64,
}

/// An entry after a run of frames.
pub open spec fn after_frames(
    e: crate::entry::EntryView,
    frames: Seq<Arrived>,
    open_reset: bool,
) -> crate::entry::EntryView
    decreases frames.len(),
{
    if frames.len() == 0 {
        e
    } else {
        let f = frames.last();
        after_frames(e, frames.drop_last(), open_reset).after_frame(
            f.id,
            f.stamp,
            f.payload,
            f.now,
            open_reset,
        )
    }
}

/// The frames of a run that went out, in order, each with its stamp.
pub open spec fn went_out(
    e: crate::entry::EntryView,
    frames: Seq<Arrived>,
    open_reset: bool,
) -> Seq<(u64, Seq<char>)>
    decreases frames.len(),
{
    if frames.len() == 0 {
        seq![]
    } else {
        let f = frames.last();
        let before = after_frames(e, frames.drop_last(), open_reset);
        let out = went_out(e, frames.drop_last(), open_reset);
        if before.ruling(f.id, f.stamp, f.now, open_reset).delivers() {
            out.push((f.stamp.value(), f.payload))
        } else {
            out
        }
    }
}

/// A frame that is held back for a client lands at the end of its backlog.
proof fn lemma_kept_backlog(
    pending: Seq<crate::entry::PendingView>,
    stamp: u64,
    payload: Seq<char>,
    i: int,
)
    requires
        crate::entry::parked_ids(pending).no_duplicates(),
        0 <= i < crate::entry::kept(pending, stamp, payload).len(),
    ensures
        ({
            let kept = crate::entry::kept(pending, stamp, payload);
            exists|j: int|
                0 <= j < pending.len() && (#[trigger] pending[j]).holding(stamp, payload)
                    == kept[i]
        }),
    decreases pending.len(),
{
    let kept = crate::entry::kept(pending, stamp, payload);
    let rest = pending.drop_last();
    let p = pending.last().holding(stamp, payload);
    assert(crate::entry::parked_ids(rest) =~= crate::entry::parked_ids(pending).drop_last());
    if p.fits() && i == kept.len() - 1 {
        assert(pending[pending.len() - 1].holding(stamp, payload) == kept[i]);
    } else {
        lemma_kept_backlog(rest, stamp, payload, i);
        let j = choose|j: int|
            0 <= j < rest.len() && (#[trigger] rest[j]).holding(stamp, payload)
                == crate::entry::kept(rest, stamp, payload)[i];
        assert(pending[j].holding(stamp, payload) == kept[i]);
    }
}

proof fn lemma_backlog_of(e: crate::entry::EntryView, client: u64, i: int)
    requires
        e.wf(),
        0 <= i < e.pending.len(),
        e.pending[i].client == client,
    ensures
        e.waits(client),
        e.backlog(client) == e.pending[i].held,
{
    let ids = crate::entry::parked_ids(e.pending);
    assert(ids[i] == client);
    assert(ids.contains(client));
    let j = ids.index_of(client);
    assert(ids[j] == client);
}

proof fn lemma_one_frame(e: crate::entry::EntryView, f: Arrived, client: u64, open_reset: bool)
    requires
        e.wf(),
        e.after_frame(f.id, f.stamp, f.payload, f.now, open_reset).waits(client),
    ensures
        e.waits(client),
        e.after_frame(f.id, f.stamp, f.payload, f.now, open_reset).backlog(client) == if e.ruling(
            f.id,
            f.stamp,
            f.now,
            open_reset,
        ).delivers() {
            e.backlog(client).push((f.stamp.value(), f.payload))
        } else {
            e.backlog(client)
        },
{
    let after = e.after_frame(f.id, f.stamp, f.payload, f.now, open_reset);
    e.lemma_after_frame_wf(f.id, f.stamp, f.payload, f.now, open_reset);
    let ids = crate::entry::parked_ids(after.pending);
    let i = ids.index_of(client);
    assert(ids[i] == client && after.pending[i].client == client);
    lemma_backlog_of(after, client, i);
    if e.ruling(f.id, f.stamp, f.now, open_reset).delivers() {
        lemma_kept_backlog(e.pending, f.stamp.value(), f.payload, i);
        let j = choose|j: int|
            0 <= j < e.pending.len() && (#[trigger] e.pending[j]).holding(
                f.stamp.value(),
                f.payload,
            ) == after.pending[i];
        lemma_backlog_of(e, client, j);
    } else {
        assert(after.pending == e.pending);
        lemma_backlog_of(e, client, i);
    }
}

/// A run of frames leaves an entry well formed.
proof fn lemma_run_wf(e: crate::entry::EntryView, frames: Seq<Arrived>, open_reset: bool)
    requires
        e.wf(),
    ensures
        after_frames(e, frames, open_reset).wf(),
    decreases frames.len(),
{
    if frames.len() > 0 {
        let f = frames.last();
        lemma_run_wf(e, frames.drop_last(), open_reset);
        after_frames(e, frames.drop_last(), open_reset).lemma_after_frame_wf(
            f.id,
            f.stamp,
            f.payload,
            f.now,
            open_reset,
        );
    }
}

/// Nothing is lost while a client waits: for as long as it does, its backlog
/// grows by exactly the frames that go out, in order.
pub proof fn law_waiting_client_misses_nothing(
    e: crate::entry::EntryView,
    frames: Seq<Arrived>,
    client: u64,
    open_reset: bool,
)
    requires
        e.wf(),
        after_frames(e, frames, open_reset).waits(client),
    ensures
        e.waits(client),
        after_frames(e, frames, open_reset).backlog(client) == e.backlog(client) + went_out(
            e,
            frames,
            open_reset,
        ),
    decreases frames.len(),
{
    if frames.len() == 0 {
        assert(e.backlog(client) =~= e.backlog(client) + went_out(e, frames, open_reset));
    } else {
        let f = frames.last();
        let rest = frames.drop_last();
        lemma_run_wf(e, rest, open_reset);
        let mid = after_frames(e, rest, open_reset);
        lemma_one_frame(mid, f, client, open_reset);
        law_waiting_client_misses_nothing(e, rest, client, open_reset);
        assert(after_frames(e, frames, open_reset).backlog(client) =~= e.backlog(client)
            + went_out(e, frames, open_reset));
    }
}

/// A late joiner sees its snapshot first, then every frame that went out since
/// it joined and is newer than the snapshot, in the order in which they went out,
/// and is sent every frame after that: the stream it gets has no hole.
pub proof fn law_late_joiner_gets_an_unbroken_stream(
    e: crate::entry::EntryView,
    client: u64,
    frames: Seq<Arrived>,
    height: u64,
    next: Arrived,
    open_reset: bool,
)
    requires
        e.wf(),
        !e.has(client),
        e.upstream_subscribed,
        after_frames(e.joined(client, true), frames, open_reset).waits(client),
    ensures
        ({
            let there = after_frames(e.joined(client, true), frames, open_reset);
            let attached = there.attached(client);
            &&& crate::entry::above(there.backlog(client), height) == crate::entry::above(
                went_out(e.joined(client, true), frames, open_reset),
                height,
            )
            &&& crate::entry::above(there.backlog(client), height) == went_out(
                e.joined(client, true),
                frames,
                open_reset,
            ).filter(|f: (u64, Seq<char>)| f.0 > height).map_values(|f: (u64, Seq<char>)| f.1)
            &&& attached.wf()
            &&& attached.ruling(next.id, next.stamp, next.now, open_reset).delivers()
                ==> attached.recipients(next.id, next.stamp, next.now, open_reset).contains(client)
        }),
{
    let joined = e.joined(client, true);
    let there = after_frames(joined, frames, open_reset);
    e.lemma_joined_wf(client, true);
    law_waiting_client_misses_nothing(joined, frames, client, open_reset);
    assert(!e.waits(client)) by {
        assert(!e.has(client));
    }
    let at = e.pending.len() as int;
    assert(joined.pending[at].client == client);
    lemma_backlog_of(joined, client, at);
    assert(joined.backlog(client) =~= seq![]);
    assert(there.backlog(client) =~= went_out(joined, frames, open_reset));
    crate::entry_laws::law_backlog_is_replayed_in_order(
        went_out(joined, frames, open_reset),
        height,
    );
    lemma_run_wf(joined, frames, open_reset);
    there.lemma_attached_wf(client);
    assert(there.attached(client).follows(client));
}

/// The first subscriber to a key is never made to wait: the snapshot that opens
/// the stream is its own.
pub proof fn law_first_subscriber_is_never_parked(
    s: crate::state::StateView,
    client: u64,
    key: crate::key::Key,
    now: u64,
)
    requires
        s.wf(),
        s.clients.dom().contains(client),
        s.outcome(client, key) is Fresh,
    ensures
        s.subscribed(client, key, now).subs[key].follows(client),
        !s.subscribed(client, key, now).subs[key].waits(client),
        s.subscribed(client, key, now).subs[key].upstream_subscribed,
        s.subscribed(client, key, now).outbox == s.outbox.push(crate::wire::subscribe_text(key)),
{
    let e = s.entry(key, now);
    lemma_entry_wf(s, key, now);
    lemma_not_attached(s, client, key, now);
    e.lemma_joined_wf(client, key.incremental());
    assert(e.joined(client, key.incremental()).subscribers =~= e.subscribers.push(client));
    assert(e.subscribers.push(client)[e.subscribers.len() as int] == client);
    assert(e.joined(client, key.incremental()).follows(client));
}

/// A client that joins an incremental stream that is already running is sent
/// nothing before its snapshot, whatever frame comes next.
pub proof fn law_late_joiner_is_parked(
    s: crate::state::StateView,
    client: u64,
    key: crate::key::Key,
    now: u64,
    next: Arrived,
)
    requires
        s.wf(),
        s.clients.dom().contains(client),
        s.outcome(client, key) is Joined,
        key.incremental(),
    ensures
        ({
            let e = s.subscribed(client, key, now).subs[key];
            &&& e.waits(client)
            &&& !e.follows(client)
            &&& !e.recipients(
                next.id,
                next.stamp,
                next.now,
                crate::state::StateView::open_reset(key),
            ).contains(client)
            &&& s.subscribed(client, key, now).outbox == s.outbox
        }),
{
    let e = s.entry(key, now);
    lemma_entry_wf(s, key, now);
    lemma_not_attached(s, client, key, now);
    e.lemma_joined_wf(client, true);
    let after = e.joined(client, true);
    assert(!e.waits(client)) by {
        assert(!e.has(client));
    }
    lemma_backlog_of(after, client, e.pending.len() as int);
    assert(!(after.follows(client) && after.waits(client)));
}

proof fn lemma_entry_wf(s: crate::state::StateView, key: crate::key::Key, now: u64)
    requires
        s.wf(),
    ensures
        s.entry(key, now).wf(),
{
    if !s.subs.dom().contains(key) {
        let e = crate::entry::EntryView::fresh(now);
        assert(crate::entry::parked_ids(seq![]) =~= seq![]);
        assert forall|c: u64| !(#[trigger] e.follows(c) && e.waits(c)) by {}
    }
}

proof fn lemma_not_attached(
    s: crate::state::StateView,
    client: u64,
    key: crate::key::Key,
    now: u64,
)
    requires
        s.wf(),
        !s.linked(key, client),
    ensures
        !s.entry(key, now).has(client),
{
    if s.subs.dom().contains(key) {
        if s.subs[key].has(client) {
            assert(s.linked(key, client));
        }
    } else {
        assert(crate::entry::parked_ids(seq![]) =~= seq![]);
    }
}

/// When the only client attached to a key leaves it, the sources are told and
/// the entry goes, unless the key is held open.
pub proof fn law_last_to_leave_unsubscribes(
    s: crate::state::StateView,
    client: u64,
    key: crate::key::Key,
)
    requires
        s.wf(),
        s.subs.dom().contains(key),
        s.subs[key].has(client),
        forall|c: u64| #[trigger] s.subs[key].has(c) ==> c == client,
        !s.subs[key].pinned,
    ensures
        !s.detached(client, key).subs.dom().contains(key),
        s.detached(client, key).outbox == s.outbox.push(crate::wire::unsubscribe_text(key)),
{
    let e = s.subs[key];
    let left = e.left(client);
    e.lemma_left_wf(client);
    if left.subscribers.len() > 0 {
        let c = left.subscribers[0];
        assert(left.follows(c));
        assert(left.has(c));
    }
    if left.pending.len() > 0 {
        let ids = crate::entry::parked_ids(left.pending);
        let c = ids[0];
        assert(left.waits(c));
        assert(left.has(c));
    }
    lemma_attached_is_upstream(e, client);
}

proof fn lemma_attached_is_upstream(e: crate::entry::EntryView, client: u64)
    requires
        e.wf(),
        e.has(client),
    ensures
        e.upstream_subscribed,
{
    if e.follows(client) {
        assert(e.subscribers.len() > 0);
    } else {
        assert(crate::entry::parked_ids(e.pending).len() > 0);
    }
}

/// While anybody else is attached to a key, one client's leaving tells the
/// sources nothing and takes nobody else along.
pub proof fn law_leaving_disturbs_nobody_else(
    s: crate::state::StateView,
    client: u64,
    other: u64,
    key: crate::key::Key,
)
    requires
        s.wf(),
        s.subs.dom().contains(key),
        s.subs[key].has(other),
        other != client,
    ensures
        s.detached(client, key).subs.dom().contains(key),
        s.detached(client, key).subs[key].has(other),
        s.detached(client, key).subs[key].upstream_subscribed,
        s.detached(client, key).outbox == s.outbox,
{
    let e = s.subs[key];
    e.lemma_left_wf(client);
    assert(e.left(client).has(other));
    lemma_attached_is_upstream(e.left(client), other);
    if e.left(client).follows(other) {
        assert(e.left(client).subscribers.len() > 0);
    } else {
        assert(crate::entry::parked_ids(e.left(client).pending).len() > 0);
    }
}

/// A key that is held open outlives every client.
pub proof fn law_pinned_probe_outlives_its_clients(
    s: crate::state::StateView,
    client: u64,
    key: crate::key::Key,
)
    requires
        s.wf(),
        s.subs.dom().contains(key),
        s.subs[key].pinned,
    ensures
        s.cleaned(client).subs.dom().contains(key),
        s.cleaned(client).subs[key].pinned,
        s.cleaned(client).subs[key].upstream_subscribed,
{
    if s.clients.dom().contains(client) {
        let start = crate::state::StateView { clients: s.clients.remove(client), ..s };
        assert(s.subs[key].wf());
        lemma_pinned_stays(start, client, s.clients[client].subscriptions, key);
    }
}

proof fn lemma_pinned_stays(
    s: crate::state::StateView,
    client: u64,
    keys: Seq<crate::key::Key>,
    key: crate::key::Key,
)
    requires
        s.subs.dom().contains(key),
        s.subs[key].pinned,
        s.subs[key].upstream_subscribed,
    ensures
        s.detached_from(client, keys).subs.dom().contains(key),
        s.detached_from(client, keys).subs[key].pinned,
        s.detached_from(client, keys).subs[key].upstream_subscribed,
    decreases keys.len(),
{
    if keys.len() > 0 {
        lemma_pinned_stays(s, client, keys.drop_last(), key);
    }
}

/// A client that has disconnected is attached to nothing, and nobody else has
/// been detached from anything.
pub proof fn law_disconnected_client_is_gone(
    s: crate::state::StateView,
    client: u64,
    other: u64,
    key: crate::key::Key,
)
    requires
        s.wf(),
        other != client,
    ensures
        !s.cleaned(client).clients.dom().contains(client),
        s.cleaned(client).subs.dom().contains(key) ==> !s.cleaned(client).subs[key].has(client),
        s.subs.dom().contains(key) && s.subs[key].has(other) ==> s.cleaned(
            client,
        ).subs.dom().contains(key) && s.cleaned(client).subs[key].has(other),
{
    let after = s.cleaned(client);
    crate::state::lemma_cleaned_wf(s, client);
    if s.clients.dom().contains(client) {
        let start = crate::state::StateView { clients: s.clients.remove(client), ..s };
        lemma_clients_kept(start, client, s.clients[client].subscriptions);
        if s.subs.dom().contains(key) && s.subs[key].has(other) {
            lemma_other_stays(start, client, s.clients[client].subscriptions, other, key);
        }
    }
    if after.subs.dom().contains(key) && after.subs[key].has(client) {
        assert(after.linked(key, client));
    }
}

proof fn lemma_clients_kept(s: crate::state::StateView, client: u64, keys: Seq<crate::key::Key>)
    ensures
        s.detached_from(client, keys).clients == s.clients,
    decreases keys.len(),
{
    if keys.len() > 0 {
        lemma_clients_kept(s, client, keys.drop_last());
    }
}

proof fn lemma_other_stays(
    s: crate::state::StateView,
    client: u64,
    keys: Seq<crate::key::Key>,
    other: u64,
    key: crate::key::Key,
)
    requires
        forall|k: crate::key::Key| #[trigger] s.subs.dom().contains(k) ==> s.subs[k].wf(),
        s.subs.dom().contains(key),
        s.subs[key].has(other),
        other != client,
    ensures
        ({
            let after = s.detached_from(client, keys);
            &&& forall|k: crate::key::Key| #[trigger]
                after.subs.dom().contains(k) ==> after.subs[k].wf()
            &&& after.subs.dom().contains(key)
            &&& after.subs[key].has(other)
        }),
    decreases keys.len(),
{
    if keys.len() > 0 {
        lemma_other_stays(s, client, keys.drop_last(), other, key);
        let mid = s.detached_from(client, keys.drop_last());
        let k = keys.last();
        if mid.subs.dom().contains(k) {
            mid.subs[k].lemma_left_wf(client);
            if k == key {
                let left = mid.subs[key].left(client);
                assert(left.has(other));
                if left.follows(other) {
                    assert(left.subscribers.len() > 0);
                } else {
                    assert(crate::entry::parked_ids(left.pending).len() > 0);
                }
            }
        }
    }
}

/// Unsubscribing undoes subscribing: on a key that nobody had asked for, the two
/// together leave the subscriptions and the client as they were, and the sources
/// are told once of each.
pub proof fn law_unsubscribe_undoes_subscribe(
    s: crate::state::StateView,
    client: u64,
    key: crate::key::Key,
    now: u64,
)
    requires
        s.wf(),
        s.clients.dom().contains(client),
        !s.clients[client].holds(key),
        !s.subs.dom().contains(key),
    ensures
        ({
            let after = s.subscribed(client, key, now).unsubscribed(client, key);
            &&& after.subs == s.subs
            &&& after.clients == s.clients
            &&& after.sources == s.sources
            &&& after.outbox == s.outbox + seq![
                crate::wire::subscribe_text(key),
                crate::wire::unsubscribe_text(key),
            ]
        }),
{
    let mid = s.subscribed(client, key, now);
    let after = mid.unsubscribed(client, key);
    let record = s.clients[client];
    let list = record.subscriptions.push(key);
    let at = list.index_of(key);
    assert(list[record.subscriptions.len() as int] == key);
    assert(list.contains(key));
    if at < record.subscriptions.len() {
        assert(record.subscriptions[at] == key);
        assert(record.holds(key));
    }
    assert(list.remove(at) =~= record.subscriptions);
    assert(after.clients =~= s.clients);
    let e = crate::entry::EntryView::fresh(now).joined(client, key.incremental());
    assert(!crate::entry::EntryView::fresh(now).follows(client));
    assert(e.subscribers =~= seq![client]);
    assert(e.pending =~= seq![]);
    let left = e.left(client);
    assert(seq![client].drop_last() =~= seq![]);
    assert(crate::entry::without(seq![], client) =~= seq![]);
    assert(crate::entry::without(seq![client], client) =~= seq![]);
    assert(left.subscribers =~= seq![]);
    assert(left.pending =~= seq![]);
    assert(left.abandoned());
    assert(after.subs =~= s.subs);
    assert(after.outbox =~= s.outbox + seq![
        crate::wire::subscribe_text(key),
        crate::wire::unsubscribe_text(key),
    ]);
}

/// Streams do not mix: a frame for one key changes no other key's entry. Two
/// clients that ask for different aggregation parameters are two keys.
pub proof fn law_streams_do_not_mix(
    s: crate::state::StateView,
    src: int,
    key: crate::key::Key,
    other: crate::key::Key,
    f: Arrived,
)
    requires
        key != other,
    ensures
        ({
            let after = s.updated(src, key, f.stamp, f.payload, f.now);
            &&& after.subs.dom().contains(other) == s.subs.dom().contains(other)
            &&& s.subs.dom().contains(other) ==> after.subs[other] == s.subs[other]
            &&& after.clients == s.clients
            &&& after.outbox == s.outbox
        }),
{
}

/// Contents are never compared: two frames that differ in their text alone are
/// ruled on alike, go to the same clients, and leave the race and the counters of
/// the sources alike.
pub proof fn law_contents_are_never_compared(
    s: crate::state::StateView,
    src: int,
    key: crate::key::Key,
    f: Arrived,
    other: Seq<char>,
    u: Update,
    w: Update,
)
    requires
        s.says(u, src, key, f.stamp, f.payload, f.now),
        s.says(w, src, key, f.stamp, other, f.now),
    ensures
        u.ruling == w.ruling,
        u.recipients@ == w.recipients@,
        ({
            let a = s.updated(src, key, f.stamp, f.payload, f.now);
            let b = s.updated(src, key, f.stamp, other, f.now);
            &&& a.subs[key].race == b.subs[key].race
            &&& a.sources == b.sources
        }),
{
}

/// An update that goes out goes to everybody who follows, once each and to nobody
/// else; one that does not goes to nobody.
pub proof fn law_update_reaches_every_follower_once(
    e: crate::entry::EntryView,
    f: Arrived,
    client: u64,
    open_reset: bool,
)
    requires
        e.wf(),
    ensures
        ({
            let to = e.recipients(f.id, f.stamp, f.now, open_reset);
            &&& to.no_duplicates()
            &&& to.contains(client) <==> e.follows(client) && e.ruling(
                f.id,
                f.stamp,
                f.now,
                open_reset,
            ).delivers()
        }),
{
}

/// Subscriptions add up: subscribing to one key keeps whatever the client was
/// subscribed to, leaves every other client and every other key alone, and takes
/// nobody off the key.
pub proof fn law_subscriptions_add_up(
    s: crate::state::StateView,
    client: u64,
    key: crate::key::Key,
    now: u64,
    held: crate::key::Key,
    other: u64,
)
    requires
        s.wf(),
        s.clients.dom().contains(client),
    ensures
        ({
            let after = s.subscribed(client, key, now);
            &&& after.clients.dom() == s.clients.dom()
            &&& after.clients[client].holds(key)
            &&& s.clients[client].holds(held) ==> after.clients[client].holds(held)
            &&& other != client ==> after.clients[other] == s.clients[other]
            &&& held != key ==> after.subs.dom().contains(held) == s.subs.dom().contains(held)
                && after.subs[held] == s.subs[held]
            &&& s.subs.dom().contains(key) && s.subs[key].has(other) ==> after.subs[key].has(other)
        }),
{
    let record = s.clients[client];
    let after = s.subscribed(client, key, now);
    assert(after.clients.dom() =~= s.clients.dom());
    if !record.holds(key) {
        let more = record.with_key(key);
        assert(more.subscriptions[record.subscriptions.len() as int] == key);
        assert(more.holds(key));
        if record.holds(held) {
            assert(more.subscriptions[record.subscriptions.index_of(held)] == held);
            assert(more.holds(held));
        }
        if s.subs.dom().contains(key) && s.subs[key].has(other) {
            lemma_joined_keeps(s.subs[key], client, key.incremental(), other);
        }
    }
}

proof fn lemma_joined_keeps(
    e: crate::entry::EntryView,
    client: u64,
    incremental: bool,
    other: u64,
)
    requires
        e.has(other),
    ensures
        e.joined(client, incremental).has(other),
{
    let after = e.joined(client, incremental);
    if e.follows(other) {
        assert(after.subscribers[e.subscribers.index_of(other)] == other);
    } else {
        let ids = crate::entry::parked_ids(e.pending);
        let i = ids.index_of(other);
        assert(crate::entry::parked_ids(after.pending)[i] == ids[i]);
    }
}

/// Only incremental channels write a source off: on any other, there is no mark
/// that could keep a source out.
pub proof fn law_only_incremental_channels_write_off(
    s: crate::state::StateView,
    key: crate::key::Key,
    id: usize,
)
    requires
        s.wf(),
        s.subs.dom().contains(key),
        !key.incremental(),
    ensures
        !s.subs[key].race.written_off.contains(crate::arbitration::bit_index(id as int)),
{
}

/// The loss of a source costs nobody its subscription: everybody stays attached
/// to what it was attached to, everybody who followed an incremental stream that
/// the source led now waits, and on every other channel everybody goes on following
/// or waiting as before. Of those nothing changes but that a stream of whole books
/// that the source carried is carried by nobody.
pub proof fn law_source_loss_parks_its_followers(
    subs: Map<crate::key::Key, crate::entry::EntryView>,
    key: crate::key::Key,
    id: usize,
    client: u64,
)
    requires
        subs.dom().contains(key),
        subs[key].wf(),
    ensures
        crate::state::resynced(subs, id).dom() == subs.dom(),
        crate::state::resynced(subs, id)[key].has(client) == subs[key].has(client),
        crate::state::lost(key, subs[key], id) && subs[key].has(client)
            ==> crate::state::resynced(subs, id)[key].waits(client),
        !crate::state::lost(key, subs[key], id) ==> crate::state::resynced(subs, id)[key]
            == (crate::entry::EntryView {
            race: crate::state::resynced(subs, id)[key].race,
            ..subs[key]
        }),
        crate::state::freed(key, subs[key], id) ==> crate::state::resynced(subs, id)[key].race
            == subs[key].race.released(),
        !crate::state::lost(key, subs[key], id) && !crate::state::freed(key, subs[key], id)
            ==> crate::state::resynced(subs, id)[key] == subs[key],
        key.single_sourced() ==> crate::state::resynced(subs, id)[key].race.leader != Some(id),
{
    subs[key].lemma_orphaned_wf(id);
    subs[key].lemma_released_wf();
    assert(crate::state::resynced(subs, id).dom() =~= subs.dom());
    let after = subs[key].orphaned(id);
    assert(after.has(client) <==> subs[key].has(client));
    assert(subs[key].has(client) <==> after.waits(client));
}

/// A dead source never blocks a stream of whole books: after the loss of the source
/// that carried it nobody carries it and no source is written off, so that the next
/// book of any source, whatever its stamp, goes out to everybody who followed the
/// stream, and that source carries it from there.
pub proof fn law_lost_book_is_taken_up(
    s: crate::state::StateView,
    key: crate::key::Key,
    lost: usize,
    id: usize,
    v: u64,
    now: u64,
)
    requires
        s.wf(),
        s.subs.dom().contains(key),
        crate::state::freed(key, s.subs[key], lost),
    ensures
        ({
            let after = crate::state::resynced(s.subs, lost)[key];
            let reset = crate::state::StateView::open_reset(key);
            &&& after.race.leader is None
            &&& after.race.written_off.is_empty()
            &&& after.ruling(id, Stamp::Sticky(v), now, reset) == crate::arbitration::Ruling::Win
            &&& after.recipients(id, Stamp::Sticky(v), now, reset) == s.subs[key].subscribers
            &&& after.race.judged(id, Stamp::Sticky(v), now, reset).0.leader == Some(id)
        }),
{
}

/// Everybody who is parked by the loss of a source, and nobody else, gets a
/// snapshot fetched: the work lists each follower of each stream that the source
/// led.
pub proof fn law_everyone_parked_is_rebuilt(
    subs: Map<crate::key::Key, crate::entry::EntryView>,
    ks: Seq<crate::key::Key>,
    id: usize,
    key: crate::key::Key,
    client: u64,
)
    requires
        crate::state::lists(ks, subs.dom()),
    ensures
        crate::state::resync_work(subs, ks, id).contains((key, client)) <==> subs.dom().contains(
            key,
        ) && crate::state::lost(key, subs[key], id) && subs[key].follows(client),
{
    lemma_work_contains(subs, ks, id, key, client);
    assert(ks.contains(key) <==> subs.dom().contains(key));
}

proof fn lemma_work_contains(
    subs: Map<crate::key::Key, crate::entry::EntryView>,
    ks: Seq<crate::key::Key>,
    id: usize,
    key: crate::key::Key,
    client: u64,
)
    ensures
        crate::state::resync_work(subs, ks, id).contains((key, client)) <==> ks.contains(key)
            && crate::state::lost(key, subs[key], id) && subs[key].follows(client),
    decreases ks.len(),
{
    let work = crate::state::resync_work(subs, ks, id);
    if ks.len() == 0 {
        assert(work =~= seq![]);
    } else {
        let rest = ks.drop_last();
        let k = ks.last();
        lemma_work_contains(subs, rest, id, key, client);
        let before = crate::state::resync_work(subs, rest, id);
        let more = crate::state::rebuilds(k, subs[k].subscribers);
        assert(ks.contains(key) <==> rest.contains(key) || key == k) by {
            if rest.contains(key) {
                let i = rest.index_of(key);
                assert(ks[i] == key);
            }
            if key == k {
                assert(ks[ks.len() - 1] == key);
            }
            if ks.contains(key) && key != k {
                let i = ks.index_of(key);
                assert(rest[i] == key);
            }
        }
        assert(more.contains((key, client)) <==> key == k && subs[k].follows(client)) by {
            if more.contains((key, client)) {
                let i = more.index_of((key, client));
                assert(subs[k].subscribers[i] == client);
            }
            if key == k && subs[k].follows(client) {
                let i = subs[k].subscribers.index_of(client);
                assert(more[i] == (key, client));
            }
        }
        if crate::state::lost(k, subs[k], id) {
            assert((before + more).contains((key, client)) <==> before.contains((key, client))
                || more.contains((key, client))) by {
                if before.contains((key, client)) {
                    let i = before.index_of((key, client));
                    assert((before + more)[i] == (key, client));
                }
                if more.contains((key, client)) {
                    let i = more.index_of((key, client));
                    assert((before + more)[before.len() + i] == (key, client));
                }
                if (before + more).contains((key, client)) {
                    let i = (before + more).index_of((key, client));
                    if i < before.len() {
                        assert(before[i] == (key, client));
                    } else {
                        assert(more[i - before.len()] == (key, client));
                    }
                }
            }
        }
    }
}

/// A quiet market is not mistaken for dead sources: while no source at all has
/// delivered within the limit, none counts as lost. A source that counts as lost
/// is connected, has delivered before, has not within the limit, and some other
/// source has.
pub proof fn law_quiet_market_is_no_fault(sources: Seq<crate::state::SourceView>, limit: u64)
    ensures
        !crate::state::anyone_delivers(sources, limit) ==> crate::state::odd_ones_out(
            sources,
            limit,
        ).len() == 0,
        forall|i: int|
            0 <= i < crate::state::odd_ones_out(sources, limit).len() ==> exists|a: int, b: int|
                #![trigger sources[a], sources[b]]
                0 <= a < sources.len() && 0 <= b < sources.len() && sources[a].id
                    == #[trigger] crate::state::odd_ones_out(sources, limit)[i]
                    && sources[a].silent(limit) && sources[b].delivers(limit),
{
    let ids = crate::state::odd_ones_out(sources, limit);
    assert forall|i: int| 0 <= i < ids.len() implies exists|a: int, b: int|
        #![trigger sources[a], sources[b]]
        0 <= a < sources.len() && 0 <= b < sources.len() && sources[a].id == #[trigger] ids[i]
            && sources[a].silent(limit) && sources[b].delivers(limit) by {
        lemma_silent_ids(sources, limit, i);
        let b = choose|b: int| 0 <= b < sources.len() && (#[trigger] sources[b]).delivers(limit);
        let a = choose|a: int|
            0 <= a < sources.len() && (#[trigger] sources[a]).id == ids[i] && sources[a].silent(
                limit,
            );
        assert(sources[a].silent(limit) && sources[b].delivers(limit));
    }
}

proof fn lemma_silent_ids(sources: Seq<crate::state::SourceView>, limit: u64, i: int)
    requires
        0 <= i < crate::state::silent_ids(sources, limit).len(),
    ensures
        exists|a: int|
            0 <= a < sources.len() && (#[trigger] sources[a]).id == crate::state::silent_ids(
                sources,
                limit,
            )[i] && sources[a].silent(limit),
    decreases sources.len(),
{
    let ids = crate::state::silent_ids(sources, limit);
    let rest = sources.drop_last();
    if sources.last().silent(limit) && i == ids.len() - 1 {
        assert(sources[sources.len() - 1].id == ids[i]);
    } else {
        lemma_silent_ids(rest, limit, i);
        let a = choose|a: int|
            0 <= a < rest.len() && (#[trigger] rest[a]).id == crate::state::silent_ids(
                rest,
                limit,
            )[i] && rest[a].silent(limit);
        assert(sources[a] == rest[a]);
    }
}

/// The keys among `ks` that are asked for upstream, in the same order.
pub open spec fn live(
    subs: Map<crate::key::Key, crate::entry::EntryView>,
    ks: Seq<crate::key::Key>,
) -> Seq<crate::key::Key>
    decreases ks.len(),
{
    if ks.len() == 0 {
        seq![]
    } else if subs[ks.last()].upstream_subscribed {
        live(subs, ks.drop_last()).push(ks.last())
    } else {
        live(subs, ks.drop_last())
    }
}

/// A source that has just connected is asked for everything that is live, each
/// key once, and for nothing else.
pub proof fn law_reconnect_resubscribes_everything(
    subs: Map<crate::key::Key, crate::entry::EntryView>,
    ks: Seq<crate::key::Key>,
)
    requires
        crate::state::lists(ks, subs.dom()),
    ensures
        crate::state::requests(subs, ks) == live(subs, ks).map_values(
            |k: crate::key::Key| crate::wire::subscribe_text(k),
        ),
        live(subs, ks).no_duplicates(),
        forall|k: crate::key::Key| #[trigger]
            live(subs, ks).contains(k) <==> subs.dom().contains(k) && subs[k].upstream_subscribed,
{
    lemma_live(subs, ks);
    assert forall|k: crate::key::Key| #[trigger]
        live(subs, ks).contains(k) <==> subs.dom().contains(k) && subs[k].upstream_subscribed by {
        assert(ks.contains(k) <==> subs.dom().contains(k));
    }
}

proof fn lemma_live(
    subs: Map<crate::key::Key, crate::entry::EntryView>,
    ks: Seq<crate::key::Key>,
)
    requires
        ks.no_duplicates(),
    ensures
        crate::state::requests(subs, ks) == live(subs, ks).map_values(
            |k: crate::key::Key| crate::wire::subscribe_text(k),
        ),
        live(subs, ks).no_duplicates(),
        forall|k: crate::key::Key| #[trigger]
            live(subs, ks).contains(k) <==> ks.contains(k) && subs[k].upstream_subscribed,
    decreases ks.len(),
{
    let all = live(subs, ks);
    if ks.len() > 0 {
        let rest = ks.drop_last();
        let last = ks.last();
        lemma_live(subs, rest);
        let before = live(subs, rest);
        assert forall|k: crate::key::Key| #[trigger] ks.contains(k) <==> rest.contains(k) || k
            == last by {
            if rest.contains(k) {
                let i = rest.index_of(k);
                assert(ks[i] == k);
            }
            if k == last {
                assert(ks[ks.len() - 1] == k);
            }
            if ks.contains(k) && k != last {
                let i = ks.index_of(k);
                assert(rest[i] == k);
            }
        }
        assert(!rest.contains(last));
        assert(!before.contains(last));
        assert forall|k: crate::key::Key| #[trigger]
            all.contains(k) <==> ks.contains(k) && subs[k].upstream_subscribed by {
            if subs[last].upstream_subscribed {
                if before.contains(k) {
                    let i = before.index_of(k);
                    assert(all[i] == k);
                }
                if k == last {
                    assert(all[all.len() - 1] == k);
                }
                if all.contains(k) && k != last {
                    let i = all.index_of(k);
                    assert(before[i] == k);
                    assert(before.contains(k));
                }
            }
            assert(before.contains(k) <==> rest.contains(k) && subs[k].upstream_subscribed);
        }
    } else {
        assert(all =~= seq![]);
    }
    assert(crate::state::requests(subs, ks) =~= all.map_values(
        |k: crate::key::Key| crate::wire::subscribe_text(k),
    ));
}

// ---------------------------------------------------------------------------
// Runs of blocks
// ---------------------------------------------------------------------------

/// A frame that a source sends: which source it is, its stamp, its text, and when it
/// came.
pub ghost struct Sent {
    pub src: int,
    pub stamp: Stamp,
    pub payload: Seq<char>,
    pub now: u64,
}

/// The state after a run of frames for one key.
pub open spec fn after_updates(
    s: crate::state::StateView,
    key: crate::key::Key,
    frames: Seq<Sent>,
) -> crate::state::StateView
    decreases frames.len(),
{
    if frames.len() == 0 {
        s
    } else {
        let f = frames.last();
        after_updates(s, key, frames.drop_last()).updated(f.src, key, f.stamp, f.payload, f.now)
    }
}

/// The run as the race sees it.
pub open spec fn arrivals(s: crate::state::StateView, frames: Seq<Sent>) -> Seq<
    crate::race_laws::Arrival,
> {
    frames.map_values(
        |f: Sent|
            crate::race_laws::Arrival { id: s.sources[f.src].id, stamp: f.stamp, now: f.now },
    )
}

proof fn lemma_updates(
    s: crate::state::StateView,
    key: crate::key::Key,
    frames: Seq<Sent>,
    n: int,
)
    requires
        s.subs.dom().contains(key),
        0 <= n <= frames.len(),
        forall|k: int| 0 <= k < frames.len() ==> 0 <= (#[trigger] frames[k]).src < s.sources.len(),
    ensures
        ({
            let b = after_updates(s, key, frames.take(n));
            &&& b.subs.dom().contains(key)
            &&& b.subs[key].race == crate::race_laws::before(
                s.subs[key].race,
                arrivals(s, frames),
                crate::state::StateView::open_reset(key),
                n,
            )
            &&& b.subs[key].subscribers == s.subs[key].subscribers
            &&& b.sources.len() == s.sources.len()
            &&& forall|j: int| 0 <= j < s.sources.len() ==> (#[trigger] b.sources[j]).id
                == s.sources[j].id
        }),
    decreases n,
{
    let all = arrivals(s, frames);
    if n == 0 {
        assert(frames.take(0) =~= Seq::<Sent>::empty());
        assert(all.take(0) =~= Seq::<crate::race_laws::Arrival>::empty());
    } else {
        lemma_updates(s, key, frames, n - 1);
        assert(frames.take(n).drop_last() =~= frames.take(n - 1));
        assert(all.take(n).drop_last() =~= all.take(n - 1));
        assert(0 <= frames[n - 1].src < s.sources.len());
    }
}

/// Over any run of blocks on a key that has no block open, from any sources in any
/// interleaving: a client that follows the key is sent a message exactly when its
/// block is newer than every block before it, or is the newest block and the message
/// is its source's next position beyond all that went out of that block. So, as long
/// as a block is the newest, as many of its messages have gone out as the source that
/// has sent most of them has sent. A message of an older block counts as one stale
/// frame of its source and changes nothing else, and of all the messages of one block
/// a source is charged with at most one duplicate.
pub proof fn law_follower_gets_every_block_once(
    s: crate::state::StateView,
    key: crate::key::Key,
    frames: Seq<Sent>,
    client: u64,
    i: int,
)
    requires
        s.subs.dom().contains(key),
        s.subs[key].follows(client),
        forall|k: int| 0 <= k < frames.len() ==> 0 <= (#[trigger] frames[k]).src < s.sources.len(),
        crate::race_laws::block_history(s.subs[key].race, arrivals(s, frames)),
        crate::race_laws::counters_hold(arrivals(s, frames)),
        0 <= i < frames.len(),
    ensures
        ({
            let r = s.subs[key].race;
            let all = arrivals(s, frames);
            let reset = crate::state::StateView::open_reset(key);
            let b = after_updates(s, key, frames.take(i));
            let f = frames[i];
            let id = s.sources[f.src].id;
            let h = f.stamp.value();
            let seen = crate::race_laws::newest(all, i);
            let ruling = b.subs[key].ruling(id, f.stamp, f.now, reset);
            let after = b.updated(f.src, key, f.stamp, f.payload, f.now);
            let open = crate::race_laws::newest(all, i + 1);
            let out = crate::race_laws::forwarded_of(r, all, reset, open, i + 1);
            &&& ruling == crate::race_laws::ruling(r, all, reset, i)
            &&& b.subs[key].recipients(id, f.stamp, f.now, reset).contains(client) <==> h > seen
                || (h == seen && crate::race_laws::messages_of(all, id, h, i + 1)
                > crate::race_laws::forwarded_of(r, all, reset, h, i))
            &&& forall|other: usize| #[trigger]
                crate::race_laws::messages_of(all, other, open, i + 1) <= out
            &&& exists|other: usize| #[trigger]
                crate::race_laws::messages_of(all, other, open, i + 1) == out
            &&& h < seen ==> after == (crate::state::StateView {
                sources: b.sources.update(
                    f.src,
                    crate::state::SourceView {
                        stats: b.sources[f.src].stats.ruled(crate::arbitration::Ruling::Stale),
                        ..b.sources[f.src]
                    },
                ),
                ..b
            })
            &&& after.sources[f.src].stats == b.sources[f.src].stats.ruled(ruling)
            &&& ruling is Late ==> forall|j: int|
                0 <= j < i && (#[trigger] frames[j]).stamp == f.stamp && s.sources[frames[j].src].id
                    == id ==> !(crate::race_laws::ruling(r, all, reset, j) is Late)
        }),
{
    let r = s.subs[key].race;
    let all = arrivals(s, frames);
    let reset = crate::state::StateView::open_reset(key);
    let b = after_updates(s, key, frames.take(i));
    let f = frames[i];
    let id = s.sources[f.src].id;
    lemma_updates(s, key, frames, i);
    assert(b.sources[f.src].id == id);
    assert(all[i].stamp == f.stamp && all[i].id == id && all[i].now == f.now);
    crate::race_laws::law_every_position_of_every_block_goes_out_once(r, all, reset, i);
    crate::race_laws::law_block_is_as_long_as_its_longest_source(r, all, reset, i + 1);
    let ruling = b.subs[key].ruling(id, f.stamp, f.now, reset);
    assert(ruling == crate::race_laws::ruling(r, all, reset, i));
    if f.stamp.value() < crate::race_laws::newest(all, i) {
        assert(all.take(i + 1).drop_last() =~= all.take(i));
        let after = b.updated(f.src, key, f.stamp, f.payload, f.now);
        assert(after.subs =~= b.subs);
    }
    if ruling is Late {
        assert forall|j: int|
            0 <= j < i && (#[trigger] frames[j]).stamp == f.stamp && s.sources[frames[j].src].id
                == id implies !(crate::race_laws::ruling(r, all, reset, j) is Late) by {
            assert(all[j].stamp == frames[j].stamp);
            if crate::race_laws::ruling(r, all, reset, j) is Late {
                crate::race_laws::law_one_sample_per_source_and_block(r, all, reset, j, i);
            }
        }
    }
}

} // verus!
