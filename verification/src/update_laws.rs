//! What one call changes in the registry, and what it leaves alone.

use crate::arbitration::{Ruling, Stamp};
use crate::state::{SubscribeOutcome, Update};
use vstd::prelude::*;

verus! {

/// A frame is ruled on by the race of its own key, which starts from nothing where
/// nobody has asked for it yet; any source may reset an `l4Book`, and on every other
/// channel only the one that is followed. If it goes out it is sent to all who follow
/// the key, and they must not miss it exactly where the channel is incremental.
pub proof fn law_frame_is_ruled_on_by_its_race(
    s: crate::state::StateView,
    u: Update,
    src: int,
    key: crate::key::Key,
    stamp: Stamp,
    payload: Seq<char>,
    now: u64,
)
    requires
        s.says(u, src, key, stamp, payload, now),
    ensures
        ({
            let race = if s.subs.dom().contains(key) {
                s.subs[key].race
            } else {
                crate::arbitration::RaceView::fresh(now)
            };
            let judged = race.judged(s.sources[src].id, stamp, now, key is L4Book);
            let after = s.updated(src, key, stamp, payload, now);
            &&& u.ruling == judged.1
            &&& after.subs[key].race == judged.0
            &&& u.incremental == (key is L4Book || key is L2Diff)
            &&& judged.1 is Win || judged.1 is Further ==> (if s.subs.dom().contains(key) {
                u.recipients@ == s.subs[key].subscribers
            } else {
                u.recipients@.len() == 0
            })
            &&& !(judged.1 is Win || judged.1 is Further) ==> u.recipients@.len() == 0
                && u.overflowed@.len() == 0
        }),
{
}

/// A frame changes the counters of the source that sent it, as its ruling says, and of
/// no other; it changes no client, no request, and nothing else of any source.
pub proof fn law_frame_is_charged_to_its_source(
    s: crate::state::StateView,
    u: Update,
    src: int,
    other: int,
    key: crate::key::Key,
    stamp: Stamp,
    payload: Seq<char>,
    now: u64,
)
    requires
        s.says(u, src, key, stamp, payload, now),
        0 <= src < s.sources.len(),
        0 <= other < s.sources.len(),
        other != src,
    ensures
        ({
            let after = s.updated(src, key, stamp, payload, now);
            let was = s.sources[src];
            let is = after.sources[src];
            &&& after.sources.len() == s.sources.len()
            &&& after.sources[other] == s.sources[other]
            &&& is.id == was.id && is.url == was.url
            &&& is.stats == was.stats.ruled(u.ruling)
            &&& was.stats.totals.wins < u64::MAX ==> is.stats.totals.wins == was.stats.totals.wins
                + (if u.ruling is Win {
                1int
            } else {
                0int
            })
            &&& was.stats.totals.stale < u64::MAX ==> is.stats.totals.stale
                == was.stats.totals.stale + (if u.ruling is Stale {
                1int
            } else {
                0int
            })
            &&& was.stats.totals.duplicates < u64::MAX ==> is.stats.totals.duplicates
                == was.stats.totals.duplicates + (if u.ruling is Late {
                1int
            } else {
                0int
            })
            &&& after.clients == s.clients
            &&& after.outbox == s.outbox
            &&& after.max_age == s.max_age
            &&& after.next_client_id == s.next_client_id
        }),
{
}

/// Every client gets an id of its own, starts subscribed to nothing, and disturbs
/// nobody.
pub proof fn law_clients_get_ids_of_their_own(
    s: crate::state::StateView,
    ip: Seq<char>,
    now: u64,
    other: u64,
)
    requires
        s.wf(),
        s.next_client_id < u64::MAX,
    ensures
        ({
            let after = s.registered(ip, now);
            let id = s.next_client_id;
            &&& !s.clients.dom().contains(id)
            &&& after.clients.dom().contains(id)
            &&& after.clients[id].id == id
            &&& after.clients[id].ip == ip
            &&& after.clients[id].connected_at == now
            &&& after.clients[id].subscriptions.len() == 0
            &&& after.clients[id].bytes_sent == 0 && after.clients[id].dropped == 0
            &&& after.next_client_id == id + 1
            &&& other != id ==> after.clients.dom().contains(other) == s.clients.dom().contains(
                other,
            ) && after.clients[other] == s.clients[other]
            &&& after.subs == s.subs
            &&& after.sources == s.sources
            &&& after.outbox == s.outbox
        }),
{
}

/// Subscribing again to what a client already has changes nothing. The first
/// subscription to a key asks every source for it, once; a later one asks for nothing
/// and, unless the stream is incremental, is served at once.
pub proof fn law_subscribing_asks_once(
    s: crate::state::StateView,
    client: u64,
    key: crate::key::Key,
    now: u64,
)
    requires
        s.wf(),
        s.clients.dom().contains(client),
    ensures
        ({
            let after = s.subscribed(client, key, now);
            let running = s.subs.dom().contains(key) && s.subs[key].upstream_subscribed;
            let held = s.clients[client].subscriptions.contains(key);
            &&& held <==> s.outcome(client, key) == SubscribeOutcome::Duplicate
            &&& !held && running <==> s.outcome(client, key) == SubscribeOutcome::Joined
            &&& !held && !running <==> s.outcome(client, key) == SubscribeOutcome::Fresh
            &&& held ==> after == s
            &&& !held ==> {
                &&& after.clients[client].subscriptions
                    == s.clients[client].subscriptions.push(key)
                &&& after.subs.dom().contains(key)
                &&& after.subs[key].upstream_subscribed
                &&& running && (key is L4Book || key is L2Diff) ==> after.subs[key].waits(client)
                    && !after.subs[key].follows(client)
                &&& !(running && (key is L4Book || key is L2Diff)) ==> after.subs[key].follows(
                    client,
                ) && !after.subs[key].waits(client)
                &&& running ==> after.outbox == s.outbox
                &&& !running ==> after.outbox == s.outbox.push(crate::wire::subscribe_text(key))
            }
            &&& after.sources == s.sources
            &&& after.max_age == s.max_age
            &&& after.next_client_id == s.next_client_id
        }),
{
    if !s.clients[client].holds(key) {
        let e = s.entry(key, now);
        if s.subs.dom().contains(key) {
            if e.has(client) {
                assert(s.linked(key, client));
            }
        } else {
            assert(crate::entry::parked_ids(seq![]) =~= seq![]);
            assert forall|c: u64| !(#[trigger] e.follows(c) && e.waits(c)) by {}
        }
        let other = if client == 0 {
            1u64
        } else {
            0u64
        };
        crate::entry_laws::law_joining_follows_or_waits(e, client, key.incremental(), other);
    }
}

/// A client that unsubscribes from a key no longer lists it and is attached to it in
/// no way; what else it lists stays, and so does every other client and every other
/// key.
pub proof fn law_unsubscribing_detaches(
    s: crate::state::StateView,
    client: u64,
    key: crate::key::Key,
    held: crate::key::Key,
    other: u64,
)
    requires
        s.wf(),
        s.clients.dom().contains(client),
        s.clients[client].holds(key),
        held != key,
        other != client,
    ensures
        ({
            let after = s.unsubscribed(client, key);
            &&& !after.clients[client].holds(key)
            &&& after.clients[client].holds(held) == s.clients[client].holds(held)
            &&& after.clients[other] == s.clients[other]
            &&& after.clients.dom() == s.clients.dom()
            &&& after.subs.dom().contains(key) ==> !after.subs[key].has(client)
            &&& after.subs.dom().contains(held) == s.subs.dom().contains(held)
            &&& s.subs.dom().contains(held) ==> after.subs[held] == s.subs[held]
            &&& s.subs.dom().contains(key) && s.subs[key].follows(other)
                ==> after.subs.dom().contains(key) && after.subs[key].follows(other)
            &&& s.subs.dom().contains(key) && s.subs[key].waits(other)
                ==> after.subs.dom().contains(key) && after.subs[key].waits(other)
            &&& after.sources == s.sources
        }),
{
    let list = s.clients[client].subscriptions;
    let at = list.index_of(key);
    let left = list.remove(at);
    let after = s.unsubscribed(client, key);
    assert(s.clients[client].wf());
    assert forall|i: int| 0 <= i < left.len() implies left[i] != key by {
        if i < at {
            assert(left[i] == list[i]);
        } else {
            assert(left[i] == list[i + 1]);
        }
    }
    if list.contains(held) {
        let i = list.index_of(held);
        assert(left[if i < at {
            i
        } else {
            i - 1
        }] == held);
    }
    if left.contains(held) {
        let i = left.index_of(held);
        assert(list[if i < at {
            i
        } else {
            i + 1
        }] == held);
    }
    assert(after.clients.dom() =~= s.clients.dom());
    if s.subs.dom().contains(key) {
        let e = s.subs[key];
        let gone = e.left(client);
        e.lemma_left_wf(client);
        crate::entry::lemma_without(e.subscribers, client);
        crate::entry_laws::law_leaving_removes_one(e, client);
        lemma_parked_filter(e.pending, client, client);
        lemma_parked_filter(e.pending, client, other);
        crate::entry_laws::law_abandoned_when_nobody_is_left(gone);
        assert(!gone.follows(client) && !gone.waits(client));
        if gone.follows(other) || gone.waits(other) {
            assert(gone.has(other));
        }
    }
}

proof fn lemma_parked_filter(pending: Seq<crate::entry::PendingView>, client: u64, c: u64)
    ensures
        ({
            let kept = pending.filter(|p: crate::entry::PendingView| p.client != client);
            crate::entry::parked_ids(kept).contains(c) <==> crate::entry::parked_ids(
                pending,
            ).contains(c) && c != client
        }),
    decreases pending.len(),
{
    reveal(Seq::filter);
    let pred = |p: crate::entry::PendingView| p.client != client;
    let kept = pending.filter(pred);
    let ids = crate::entry::parked_ids(pending);
    let left = crate::entry::parked_ids(kept);
    if pending.len() > 0 {
        let rest = pending.drop_last();
        lemma_parked_filter(rest, client, c);
        assert(ids =~= crate::entry::parked_ids(rest).push(pending.last().client));
        lemma_pushed(crate::entry::parked_ids(rest), pending.last().client, c);
        if pred(pending.last()) {
            assert(left =~= crate::entry::parked_ids(rest.filter(pred)).push(
                pending.last().client,
            ));
            lemma_pushed(crate::entry::parked_ids(rest.filter(pred)), pending.last().client, c);
        }
    } else {
        assert(left =~= seq![]);
        assert(ids =~= seq![]);
    }
}

proof fn lemma_pushed(s: Seq<u64>, x: u64, c: u64)
    ensures
        s.push(x).contains(c) <==> s.contains(c) || c == x,
{
    if s.contains(c) {
        assert(s.push(x)[s.index_of(c)] == c);
    }
    if c == x {
        assert(s.push(x)[s.len() as int] == c);
    }
    if s.push(x).contains(c) && c != x {
        assert(s[s.push(x).index_of(c)] == c);
    }
}

/// A key that is held open is asked for, once, and keeps its race and everybody who is
/// attached to it.
pub proof fn law_pinning_asks_once(
    s: crate::state::StateView,
    key: crate::key::Key,
    now: u64,
    other: crate::key::Key,
)
    requires
        other != key,
    ensures
        ({
            let after = s.pinned(key, now);
            let running = s.subs.dom().contains(key) && s.subs[key].upstream_subscribed;
            &&& after.subs.dom().contains(key)
            &&& after.subs[key].pinned
            &&& after.subs[key].upstream_subscribed
            &&& s.subs.dom().contains(key) ==> after.subs[key].subscribers
                == s.subs[key].subscribers && after.subs[key].pending == s.subs[key].pending
                && after.subs[key].race == s.subs[key].race
            &&& !s.subs.dom().contains(key) ==> after.subs[key].subscribers.len() == 0
                && after.subs[key].pending.len() == 0
            &&& running ==> after.outbox == s.outbox
            &&& !running ==> after.outbox == s.outbox.push(crate::wire::subscribe_text(key))
            &&& after.subs.dom().contains(other) == s.subs.dom().contains(other)
            &&& after.subs[other] == s.subs[other]
            &&& after.clients == s.clients
            &&& after.sources == s.sources
        }),
{
}

/// The snapshot of a waiting client concerns that client and that key alone. On a
/// stream that one source carries and nobody does, the source that sent it carries it
/// from then on; on any other channel it makes no difference who sent it.
pub proof fn law_snapshot_concerns_one_client(
    s: crate::state::StateView,
    client: u64,
    key: crate::key::Key,
    source: usize,
    other: crate::key::Key,
    someone: u64,
)
    requires
        s.wf(),
        s.waits(client, key),
        other != key,
        someone != client,
    ensures
        ({
            let after = s.delivered_from(client, key, source);
            let plain = s.delivered(client, key);
            let gone = s.given_up(client, key);
            &&& after.subs[key].follows(client) && !after.subs[key].waits(client)
            &&& plain.subs[key].follows(client) && !plain.subs[key].waits(client)
            &&& !gone.subs[key].follows(client) && !gone.subs[key].waits(client)
            &&& after.subs[key].follows(someone) == s.subs[key].follows(someone)
            &&& after.subs[key].waits(someone) == s.subs[key].waits(someone)
            &&& plain.subs[key].race == s.subs[key].race
            &&& gone.subs[key].race == s.subs[key].race
            &&& (key is L2Book || key is L2Diff) && s.subs[key].race.leader is None
                ==> after.subs[key].race.leader == Some(source)
            &&& !(key is L2Book || key is L2Diff) || s.subs[key].race.leader is Some ==> after
                == plain
            &&& after.subs[other] == s.subs[other]
            &&& plain.subs[other] == s.subs[other]
            &&& gone.subs[other] == s.subs[other]
            &&& after.clients == s.clients && plain.clients == s.clients && gone.clients
                == s.clients
            &&& after.sources == s.sources && plain.sources == s.sources && gone.sources
                == s.sources
            &&& after.outbox == s.outbox && plain.outbox == s.outbox && gone.outbox == s.outbox
        }),
{
    let e = s.subs[key];
    crate::entry_laws::law_one_client_stops_waiting(e, client, someone);
    let there = e.attached(client);
    if key.single_sourced() {
        assert(there.adopted(source).subscribers == there.subscribers);
        assert(there.adopted(source).pending == there.pending);
        if e.race.leader is Some {
            assert(there.adopted(source) == there);
        }
    }
}

/// After the loss of several sources none of them leads an incremental stream or
/// carries a whole one, no key is gone, and everybody is attached to what it was
/// attached to.
pub proof fn law_lost_sources_lead_nothing(
    subs: Map<crate::key::Key, crate::entry::EntryView>,
    ids: Seq<usize>,
    key: crate::key::Key,
    client: u64,
)
    requires
        subs.dom().contains(key),
        subs[key].wf(),
    ensures
        ({
            let after = crate::state::resynced_all(subs, ids);
            &&& after.dom() == subs.dom()
            &&& after[key].wf()
            &&& after[key].has(client) == subs[key].has(client)
            &&& key is L4Book || key is L2Diff || key is L2Book ==> forall|i: int|
                0 <= i < ids.len() ==> after[key].race.leader != Some(#[trigger] ids[i])
            &&& !(key is L4Book || key is L2Diff || key is L2Book) ==> after[key] == subs[key]
            &&& (forall|i: int| 0 <= i < ids.len() ==> subs[key].race.leader != Some(
                #[trigger] ids[i],
            )) ==> after[key] == subs[key]
        }),
    decreases ids.len(),
{
    let after = crate::state::resynced_all(subs, ids);
    if ids.len() > 0 {
        let rest = ids.drop_last();
        law_lost_sources_lead_nothing(subs, rest, key, client);
        let mid = crate::state::resynced_all(subs, rest);
        let id = ids.last();
        assert(after.dom() =~= mid.dom());
        mid[key].lemma_orphaned_wf(id);
        mid[key].lemma_released_wf();
        assert(mid[key].orphaned(id).has(client) <==> mid[key].has(client));
        assert(mid[key].released().has(client) <==> mid[key].has(client));
        assert(after[key].race.leader is None || after[key].race.leader == mid[key].race.leader);
        assert forall|i: int| 0 <= i < ids.len() && (key is L4Book || key is L2Diff
            || key is L2Book) implies after[key].race.leader != Some(#[trigger] ids[i]) by {
            if i < rest.len() {
                assert(rest[i] == ids[i]);
            }
        }
        if forall|i: int| 0 <= i < ids.len() ==> subs[key].race.leader != Some(
            #[trigger] ids[i],
        ) {
            assert forall|i: int| 0 <= i < rest.len() implies subs[key].race.leader != Some(
                #[trigger] rest[i],
            ) by {
                assert(rest[i] == ids[i]);
            }
            assert(ids[ids.len() - 1] == id);
        }
    }
}

/// Everybody who is to be rebuilt is so once.
pub proof fn law_rebuild_work_names_nobody_twice(
    subs: Map<crate::key::Key, crate::entry::EntryView>,
    ks: Seq<crate::key::Key>,
    id: usize,
)
    requires
        ks.no_duplicates(),
        forall|i: int| 0 <= i < ks.len() ==> subs[#[trigger] ks[i]].subscribers.no_duplicates(),
    ensures
        crate::state::resync_work(subs, ks, id).no_duplicates(),
        forall|j: int|
            0 <= j < crate::state::resync_work(subs, ks, id).len() ==> ks.contains(
                (#[trigger] crate::state::resync_work(subs, ks, id)[j]).0,
            ),
    decreases ks.len(),
{
    let work = crate::state::resync_work(subs, ks, id);
    if ks.len() > 0 {
        let rest = ks.drop_last();
        let k = ks.last();
        assert forall|i: int| 0 <= i < rest.len() implies subs[
            #[trigger] rest[i]
        ].subscribers.no_duplicates() by {
            assert(rest[i] == ks[i]);
        }
        law_rebuild_work_names_nobody_twice(subs, rest, id);
        let before = crate::state::resync_work(subs, rest, id);
        let more = crate::state::rebuilds(k, subs[k].subscribers);
        assert(ks[ks.len() - 1] == k);
        assert forall|j: int| 0 <= j < work.len() implies ks.contains(
            (#[trigger] work[j]).0,
        ) by {
            if j < before.len() {
                assert(work[j] == before[j]);
                assert(rest.contains(before[j].0));
                let i = rest.index_of(before[j].0);
                assert(ks[i] == before[j].0);
            } else {
                assert(work[j] == more[j - before.len()]);
            }
        }
        assert forall|a: int, b: int| 0 <= a < b < work.len() implies work[a] != work[b] by {
            if b < before.len() {
                assert(work[a] == before[a] && work[b] == before[b]);
            } else {
                assert(work[b] == more[b - before.len()]);
                if a < before.len() {
                    assert(work[a] == before[a]);
                    assert(rest.contains(before[a].0));
                    let i = rest.index_of(before[a].0);
                    assert(ks[i] == before[a].0);
                } else {
                    assert(work[a] == more[a - before.len()]);
                    assert(subs[k].subscribers[a - before.len()] != subs[k].subscribers[b
                        - before.len()]);
                }
            }
        }
    }
}

/// While any source delivers, the sources named as silent are those that are
/// connected, have delivered before, and have not for longer than the limit, in
/// configured order and every one of them; while none does, nobody is named.
pub proof fn law_silent_sources_are_named(sources: Seq<crate::state::SourceView>, limit: u64)
    ensures
        ({
            let late = |s: crate::state::SourceView|
                s.stats.connected && s.stats.totals.packets > 0 && s.stats.idle_for()
                    is Some && s.stats.idle_for()->0 > limit;
            let alive = exists|i: int|
                0 <= i < sources.len() && (#[trigger] sources[i]).stats.idle_for() is Some
                    && sources[i].stats.idle_for()->0 <= limit;
            let named = crate::state::odd_ones_out(sources, limit);
            &&& alive ==> named == sources.filter(late).map_values(
                |s: crate::state::SourceView| s.id,
            )
            &&& !alive ==> named.len() == 0
        }),
{
    let alive = exists|i: int|
        0 <= i < sources.len() && (#[trigger] sources[i]).stats.idle_for() is Some
            && sources[i].stats.idle_for()->0 <= limit;
    if alive {
        let i = choose|i: int|
            0 <= i < sources.len() && (#[trigger] sources[i]).stats.idle_for() is Some
                && sources[i].stats.idle_for()->0 <= limit;
        assert(sources[i].delivers(limit));
        lemma_silent_filter(sources, limit);
    } else if crate::state::anyone_delivers(sources, limit) {
        let i = choose|i: int| 0 <= i < sources.len() && (#[trigger] sources[i]).delivers(limit);
        assert(sources[i].stats.idle_for() is Some && sources[i].stats.idle_for()->0 <= limit);
    }
}

proof fn lemma_silent_filter(sources: Seq<crate::state::SourceView>, limit: u64)
    ensures
        crate::state::silent_ids(sources, limit) == sources.filter(
            |s: crate::state::SourceView|
                s.stats.connected && s.stats.totals.packets > 0 && s.stats.idle_for()
                    is Some && s.stats.idle_for()->0 > limit,
        ).map_values(|s: crate::state::SourceView| s.id),
    decreases sources.len(),
{
    reveal(Seq::filter);
    let late = |s: crate::state::SourceView|
        s.stats.connected && s.stats.totals.packets > 0 && s.stats.idle_for() is Some
            && s.stats.idle_for()->0 > limit;
    let name = |s: crate::state::SourceView| s.id;
    if sources.len() > 0 {
        lemma_silent_filter(sources.drop_last(), limit);
    }
    assert(crate::state::silent_ids(sources, limit) =~= sources.filter(late).map_values(name));
}

/// A silent source is bounced in its sixth window of silence and then once in sixty
/// windows, and never in between.
pub proof fn law_bounces_are_rare(windows: u64, k: nat)
    ensures
        windows < 6 ==> !crate::state::bounce_due(windows),
        windows == 6 + 60 * k ==> crate::state::bounce_due(windows),
        6 + 60 * k < windows < 6 + 60 * (k + 1) ==> !crate::state::bounce_due(windows),
{
    if windows >= 6 {
        let d = windows - 6;
        assert(d == 60 * k ==> d % 60 == 0) by (nonlinear_arith);
        assert(60 * k < d < 60 * (k + 1) ==> d % 60 != 0) by (nonlinear_arith);
    }
}

/// The windows of silence of a source are those of the first source of that id.
pub proof fn law_windows_are_those_of_the_source(
    sources: Seq<crate::state::SourceView>,
    id: usize,
    at: int,
)
    requires
        0 <= at < sources.len(),
        sources[at].id == id,
        forall|i: int| 0 <= i < at ==> (#[trigger] sources[i]).id != id,
    ensures
        crate::state::windows_of(sources, id) == sources[at].stats.silent_windows,
    decreases sources.len(),
{
    if at > 0 {
        let rest = sources.skip(1);
        assert(sources[0].id != id);
        assert forall|i: int| 0 <= i < at - 1 implies (#[trigger] rest[i]).id != id by {
            assert(rest[i] == sources[i + 1]);
        }
        assert(rest[at - 1] == sources[at]);
        law_windows_are_those_of_the_source(rest, id, at - 1);
    }
}

/// At the close of a window every source's counters roll over, and nothing else
/// changes.
pub proof fn law_all_windows_close_together(s: crate::state::StateView, i: int)
    requires
        0 <= i < s.sources.len(),
    ensures
        s.rolled().sources.len() == s.sources.len(),
        s.rolled().sources[i].stats == s.sources[i].stats.rolled(),
        s.rolled().sources[i].id == s.sources[i].id,
        s.rolled().sources[i].url == s.sources[i].url,
        s.rolled().subs == s.subs,
        s.rolled().clients == s.clients,
        s.rolled().outbox == s.outbox,
{
}

/// A leader is lost to those who hold increments of its stream and to nobody else.
pub proof fn law_only_increments_are_lost(
    key: crate::key::Key,
    e: crate::entry::EntryView,
    id: usize,
)
    ensures
        crate::state::lost(key, e, id) <==> (key is L4Book || key is L2Diff) && e.race.leader
            == Some(id),
        crate::state::freed(key, e, id) <==> key is L2Book && e.race.leader == Some(id),
        crate::state::lost(key, e, id) ==> crate::state::without_source(key, e, id)
            == e.orphaned(id),
        crate::state::freed(key, e, id) ==> crate::state::without_source(key, e, id)
            == e.released(),
{
}

/// A source that loses its connection is down, has one more disconnect, and leads no
/// incremental stream and carries no whole one; the other sources and the clients are
/// left alone, and nobody is detached.
pub proof fn law_loss_concerns_one_source(
    s: crate::state::StateView,
    src: int,
    other: int,
    key: crate::key::Key,
    client: u64,
)
    requires
        0 <= src < s.sources.len(),
        0 <= other < s.sources.len(),
        other != src,
        s.sources[src].stats.disconnects < u64::MAX,
        s.subs.dom().contains(key),
        s.subs[key].wf(),
    ensures
        ({
            let after = s.without_connection(src);
            &&& after.sources.len() == s.sources.len()
            &&& !after.sources[src].stats.connected
            &&& after.sources[src].stats.disconnects == s.sources[src].stats.disconnects + 1
            &&& after.sources[src].stats.totals == s.sources[src].stats.totals
            &&& after.sources[src].id == s.sources[src].id
            &&& after.sources[src].url == s.sources[src].url
            &&& after.sources[other] == s.sources[other]
            &&& after.clients == s.clients
            &&& after.outbox == s.outbox
            &&& after.max_age == s.max_age
            &&& after.next_client_id == s.next_client_id
            &&& after.subs.dom() == s.subs.dom()
            &&& after.subs[key].has(client) == s.subs[key].has(client)
            &&& key is L4Book || key is L2Diff || key is L2Book ==> after.subs[key].race.leader
                != Some(s.sources[src].id)
            &&& s.subs[key].race.leader != Some(s.sources[src].id) ==> after.subs[key]
                == s.subs[key]
        }),
{
    let ids = seq![s.sources[src].id];
    law_lost_sources_lead_nothing(s.subs, ids, key, client);
    assert(ids.drop_last() =~= seq![]);
    reveal_with_fuel(crate::state::resynced_all, 2);
    assert(crate::state::resynced_all(s.subs, ids) == crate::state::resynced(
        s.subs,
        s.sources[src].id,
    ));
    assert(ids[0] == s.sources[src].id);
}

/// What is sent to a client is added to its bytes, and a frame that found no room is one
/// more drop; nobody else's counters move, and a client that has left is not brought
/// back.
pub proof fn law_client_counters_are_its_own(
    s: crate::state::StateView,
    client: u64,
    other: u64,
    bytes: u64,
)
    requires
        other != client,
    ensures
        ({
            let was = s.clients[client];
            let sent = s.with_client(client, was.with_sent(bytes));
            let full = s.with_client(client, was.with_dropped());
            &&& sent.clients.dom() == s.clients.dom() && full.clients.dom() == s.clients.dom()
            &&& s.clients.dom().contains(client) && was.bytes_sent + bytes <= u64::MAX
                ==> sent.clients[client].bytes_sent == was.bytes_sent + bytes
            &&& s.clients.dom().contains(client) && was.dropped < u64::MAX
                ==> full.clients[client].dropped == was.dropped + 1
            &&& s.clients.dom().contains(client) ==> {
                &&& sent.clients[client].dropped == was.dropped
                &&& full.clients[client].bytes_sent == was.bytes_sent
                &&& sent.clients[client].id == was.id && full.clients[client].id == was.id
                &&& sent.clients[client].ip == was.ip && full.clients[client].ip == was.ip
                &&& sent.clients[client].subscriptions == was.subscriptions
                &&& full.clients[client].subscriptions == was.subscriptions
                &&& sent.clients[client].connected_at == was.connected_at
                &&& full.clients[client].connected_at == was.connected_at
            }
            &&& s.clients.dom().contains(other) ==> sent.clients[other] == s.clients[other]
                && full.clients[other] == s.clients[other]
            &&& sent.sources == s.sources && full.sources == s.sources
            &&& sent.subs == s.subs && full.subs == s.subs
            &&& sent.outbox == s.outbox && full.outbox == s.outbox
        }),
{
    let was = s.clients[client];
    if s.clients.dom().contains(client) {
        assert(s.clients.insert(client, was.with_sent(bytes)).dom() =~= s.clients.dom());
        assert(s.clients.insert(client, was.with_dropped()).dom() =~= s.clients.dom());
    }
}

/// A client that misses a frame is hung up on exactly when the stream is one of
/// increments: of any other the next frame makes up for it.
pub proof fn law_a_hole_in_increments_is_final()
    ensures
        crate::state::must_hang_up(true),
        !crate::state::must_hang_up(false),
{
}

/// Everybody who followed increments of a stream that the lost source led is rebuilt, and
/// nobody else is.
pub proof fn law_loss_is_made_up_for(
    work: Seq<(crate::key::Key, u64)>,
    subs: Map<crate::key::Key, crate::entry::EntryView>,
    id: usize,
    key: crate::key::Key,
    client: u64,
)
    requires
        crate::state::is_rebuilt(work, subs, id),
    ensures
        work.contains((key, client)) <==> subs.dom().contains(key) && (key is L4Book
            || key is L2Diff) && subs[key].race.leader == Some(id) && subs[key].follows(client),
{
    let ks = choose|ks: Seq<crate::key::Key>|
        crate::state::lists(ks, subs.dom()) && work == #[trigger] crate::state::resync_work(
            subs,
            ks,
            id,
        );
    crate::state_laws::law_everyone_parked_is_rebuilt(subs, ks, id, key, client);
}

/// A source that comes up is asked for everything that is subscribed upstream and for
/// nothing else.
pub proof fn law_new_connections_ask_for_everything(
    r: Seq<Seq<char>>,
    subs: Map<crate::key::Key, crate::entry::EntryView>,
    text: Seq<char>,
)
    requires
        crate::state::is_asked(r, subs),
    ensures
        r.contains(text) <==> exists|key: crate::key::Key|
            subs.dom().contains(key) && subs[key].upstream_subscribed
                && #[trigger] crate::wire::subscribe_text(key) == text,
{
    let ks = choose|ks: Seq<crate::key::Key>|
        crate::state::lists(ks, subs.dom()) && r == #[trigger] crate::state::requests(subs, ks);
    lemma_requests_among(subs, ks, text);
    assert(forall|k: crate::key::Key| ks.contains(k) <==> subs.dom().contains(k));
}

proof fn lemma_requests_among(
    subs: Map<crate::key::Key, crate::entry::EntryView>,
    ks: Seq<crate::key::Key>,
    text: Seq<char>,
)
    ensures
        crate::state::requests(subs, ks).contains(text) <==> exists|key: crate::key::Key|
            ks.contains(key) && subs[key].upstream_subscribed
                && #[trigger] crate::wire::subscribe_text(key) == text,
    decreases ks.len(),
{
    let all = crate::state::requests(subs, ks);
    if ks.len() > 0 {
        let rest = ks.drop_last();
        let last = ks.last();
        lemma_requests_among(subs, rest, text);
        let some = crate::state::requests(subs, rest);
        assert(ks[ks.len() - 1] == last);
        if all.contains(text) {
            let i = all.index_of(text);
            if i < some.len() {
                assert(some[i] == text);
                let key = choose|key: crate::key::Key|
                    rest.contains(key) && subs[key].upstream_subscribed
                        && #[trigger] crate::wire::subscribe_text(key) == text;
                assert(ks[rest.index_of(key)] == key);
            } else {
                assert(crate::wire::subscribe_text(last) == text);
            }
        }
        if exists|key: crate::key::Key|
            ks.contains(key) && subs[key].upstream_subscribed
                && #[trigger] crate::wire::subscribe_text(key) == text {
            let key = choose|key: crate::key::Key|
                ks.contains(key) && subs[key].upstream_subscribed
                    && #[trigger] crate::wire::subscribe_text(key) == text;
            let i = ks.index_of(key);
            if i < rest.len() {
                assert(rest[i] == key);
                assert(some.contains(text));
                let j = some.index_of(text);
                assert(all[j] == text);
            } else {
                assert(all[all.len() - 1] == text);
            }
        }
    }
}

/// At the close of a window every source's counters roll over. Each source named as
/// silent is connected, has delivered before but not in more than five windows, while
/// another has within five; it leads nothing afterwards, and it is to be reconnected in
/// its sixth window of silence and once in sixty after that. Whoever is named, no client
/// is detached.
pub proof fn law_tick_names_the_silent(
    before: crate::state::StateView,
    r: Seq<crate::state::Silence>,
    after: crate::state::StateView,
    at: int,
    key: crate::key::Key,
    client: u64,
)
    requires
        crate::state::ticked(before, r, after),
        before.subs.dom().contains(key),
        before.subs[key].wf(),
    ensures
        after.sources.len() == before.sources.len(),
        forall|i: int|
            0 <= i < before.sources.len() ==> (#[trigger] after.sources[i]).stats
                == before.sources[i].stats.rolled() && after.sources[i].id == before.sources[i].id,
        after.clients == before.clients,
        after.outbox == before.outbox,
        after.max_age == before.max_age,
        after.next_client_id == before.next_client_id,
        after.subs.dom() == before.subs.dom(),
        after.subs[key].has(client) == before.subs[key].has(client),
        0 <= at < r.len() && (key is L4Book || key is L2Diff || key is L2Book)
            ==> after.subs[key].race.leader != Some(r[at].source),
        (exists|i: int|
            0 <= i < after.sources.len() && (#[trigger] after.sources[i]).stats.idle_for() is Some
                && after.sources[i].stats.idle_for()->0 <= 5) ==> r.map_values(
            |s: crate::state::Silence| s.source,
        ) == after.sources.filter(
            |s: crate::state::SourceView|
                s.stats.connected && s.stats.totals.packets > 0 && s.stats.idle_for() is Some
                    && s.stats.idle_for()->0 > 5,
        ).map_values(|s: crate::state::SourceView| s.id),
        !(exists|i: int|
            0 <= i < after.sources.len() && (#[trigger] after.sources[i]).stats.idle_for() is Some
                && after.sources[i].stats.idle_for()->0 <= 5) ==> r.len() == 0 && after.subs
            == before.subs,
        0 <= at < r.len() ==> {
            let windows = crate::state::windows_of(after.sources, r[at].source);
            r[at].reconnect <==> windows >= 6 && (windows - 6) % 60 == 0
        },
        0 <= at < r.len() ==> {
            let left = crate::state::resynced_all(
                before.subs,
                r.take(at).map_values(|s: crate::state::Silence| s.source),
            );
            crate::state::jobs(r[at].work@).contains((key, client)) <==> (key is L4Book
                || key is L2Diff) && left[key].race.leader == Some(r[at].source)
                && left[key].follows(client)
        },
{
    let ids = crate::state::odd_ones_out(after.sources, 5);
    law_silent_sources_are_named(after.sources, 5);
    law_lost_sources_lead_nothing(before.subs, ids, key, client);
    assert(r.map_values(|s: crate::state::Silence| s.source) =~= ids) by {
        assert forall|i: int| 0 <= i < r.len() implies (#[trigger] r[i]).source == ids[i] by {
            assert(crate::state::silence_is(
                r[i],
                ids[i],
                after.sources,
                crate::state::resynced_all(before.subs, ids.take(i)),
            ));
        }
    }
    if 0 <= at < r.len() {
        assert(crate::state::silence_is(
            r[at],
            ids[at],
            after.sources,
            crate::state::resynced_all(before.subs, ids.take(at)),
        ));
        assert(ids[at] == r[at].source);
        let before_it = r.take(at).map_values(|s: crate::state::Silence| s.source);
        assert(before_it =~= ids.take(at)) by {
            assert forall|i: int| 0 <= i < at implies before_it[i] == #[trigger] ids[i] by {
                assert(crate::state::silence_is(
                    r[i],
                    ids[i],
                    after.sources,
                    crate::state::resynced_all(before.subs, ids.take(i)),
                ));
            }
        }
        law_lost_sources_lead_nothing(before.subs, ids.take(at), key, client);
        law_loss_is_made_up_for(
            crate::state::jobs(r[at].work@),
            crate::state::resynced_all(before.subs, ids.take(at)),
            ids[at],
            key,
            client,
        );
    }
}

/// A state starts with its sources as they are given, with nobody connected, nothing
/// subscribed and nothing to send.
pub proof fn law_states_start_idle(
    sources: Seq<crate::state::SourceView>,
    max_age: Option<u64>,
    client: u64,
    key: crate::key::Key,
)
    ensures
        ({
            let s = crate::state::StateView::fresh(sources, max_age);
            &&& s.sources == sources
            &&& s.max_age == max_age
            &&& !s.clients.dom().contains(client)
            &&& !s.subs.dom().contains(key)
            &&& s.outbox.len() == 0
            &&& s.next_client_id == 1
        }),
{
}

/// Requests are taken once: what was waiting to be sent is gone afterwards, and nothing
/// else is touched.
pub proof fn law_requests_are_taken_once(s: crate::state::StateView)
    ensures
        s.emptied().outbox.len() == 0,
        s.emptied().sources == s.sources,
        s.emptied().subs == s.subs,
        s.emptied().clients == s.clients,
        s.emptied().max_age == s.max_age,
        s.emptied().next_client_id == s.next_client_id,
        s.outbox.len() == 0 ==> s.emptied() == s,
{
    if s.outbox.len() == 0 {
        assert(s.emptied().outbox =~= s.outbox);
    }
}

/// To unsubscribe from what is not held changes nothing, nor does giving up on a client
/// that is not waiting; else the subscription is no longer held, and the client no longer
/// waits.
pub proof fn law_only_what_is_held_is_let_go(
    s: crate::state::StateView,
    client: u64,
    key: crate::key::Key,
)
    requires
        s.wf(),
        s.clients.dom().contains(client),
    ensures
        !s.clients[client].holds(key) ==> s.unsubscribed_if_held(client, key) == s,
        s.clients[client].holds(key) ==> s.unsubscribed_if_held(client, key) == s.unsubscribed(
            client,
            key,
        ),
        !s.unsubscribed_if_held(client, key).clients[client].holds(key),
        !s.waits(client, key) ==> s.given_up_if_waiting(client, key) == s,
        !s.given_up_if_waiting(client, key).waits(client, key),
{
    if s.waits(client, key) {
        let other = if client == 0 {
            1u64
        } else {
            0u64
        };
        crate::entry_laws::law_one_client_stops_waiting(s.subs[key], client, other);
    }
}

/// What is to be rebuilt is listed client by client, each with the key that it waits on,
/// in the order of the work.
pub proof fn law_jobs_are_the_work(work: Seq<(crate::key::SubKey, u64)>, i: int)
    ensures
        crate::state::jobs(work).len() == work.len(),
        0 <= i < work.len() ==> crate::state::jobs(work)[i] == (work[i].0@, work[i].1),
{
}

} // verus!
