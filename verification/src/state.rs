//! The shared state: who is connected, who is subscribed to what, and what each
//! source has been up to.
//!
//! [`AppState`] makes every decision; nothing here touches a socket. What must
//! be said upstream is left in an outbox, and each call says whom to send a
//! frame to, whom to hang up on, and for whom to fetch a snapshot.

use crate::arbitration::{Ruling, Stamp};
use crate::client::Client;
use crate::entry::{EntrySummary, SubEntry};
use crate::key::{KeyParts, SubKey};
use crate::registry;
use crate::stats::SourceStats;
use crate::wire::SubRequest;
use dashmap::DashMap;
use vstd::prelude::*;

verus! {

/// How many frames may wait in one client's outbound queue.
///
/// Sized for `l4Book`, which does not trickle: a single block can burst several
/// hundred messages at once, and on an incremental channel a queue that overruns
/// costs the client its connection rather than one frame.
pub const CLIENT_QUEUE: usize = 65536;

/// An upstream data connection, one per configured endpoint.
pub struct Source {
    pub id: usize,
    pub url: String,
    pub stats: SourceStats,
}

/// What a `Source` denotes.
#[verifier::ext_equal]
pub ghost struct SourceView {
    pub id: usize,
    pub url: Seq<char>,
    pub stats: crate::stats::StatsView,
}

impl View for Source {
    type V = SourceView;

    open spec fn view(&self) -> SourceView {
        SourceView { id: self.id, url: self.url@, stats: self.stats@ }
    }
}

impl Source {
    /// A source that has not connected yet.
    pub fn new(id: usize, url: String) -> (s: Source)
        ensures
            s@ == (SourceView { id, url: url@, stats: crate::stats::StatsView::fresh() }),
            s@.stats.wf(),
    {
        Source { id, url, stats: SourceStats::new() }
    }
}

/// What happened when a client subscribed.
#[derive(Clone, Copy, Debug, PartialEq, Eq, Structural)]
pub enum SubscribeOutcome {
    /// First subscriber: the upstream subscribe was just issued, so the stream
    /// begins fresh for this client.
    Fresh,
    /// Joined a stream that was already running.
    Joined,
    /// The client was already subscribed to exactly this; nothing changed.
    Duplicate,
}

/// What to do about a frame that was ruled on.
pub struct Update {
    pub ruling: Ruling,
    /// Whether a client that cannot take the frame must be hung up on.
    pub incremental: bool,
    /// Whom to send the frame to.
    pub recipients: Vec<u64>,
    /// Waiting clients whose backlog outgrew the cap. They must be hung up on.
    pub overflowed: Vec<u64>,
}

/// Everything the proxy knows.
pub struct AppState {
    /// Refuse to forward a frame whose block time is older than this, in
    /// milliseconds.
    max_age: Option<u64>,
    sources: Vec<Source>,
    subs: DashMap<KeyParts, SubEntry>,
    clients: DashMap<u64, Client>,
    next_client_id: u64,
    /// Requests that every source is still to be sent.
    outbox: Vec<String>,
}

/// What an `AppState` denotes.
#[verifier::ext_equal]
pub ghost struct StateView {
    pub max_age: Option<u64>,
    pub sources: Seq<SourceView>,
    pub subs: Map<crate::key::Key, crate::entry::EntryView>,
    pub clients: Map<u64, crate::client::ClientView>,
    pub next_client_id: u64,
    pub outbox: Seq<Seq<char>>,
}

/// The entries of a map of subscriptions, by key.
pub open spec fn subs_view(
    held: Map<(u8, Seq<char>, Option<u32>, Option<usize>, Option<u64>), SubEntry>,
) -> Map<crate::key::Key, crate::entry::EntryView> {
    Map::new(
        |k: crate::key::Key| held.dom().contains(k.parts()),
        |k: crate::key::Key| held[k.parts()]@,
    )
}

impl View for AppState {
    type V = StateView;

    closed spec fn view(&self) -> StateView {
        StateView {
            max_age: self.max_age,
            sources: self.sources@.map_values(|s: Source| s@),
            subs: subs_view(registry::subs_held(self.subs)),
            clients: registry::clients_held(self.clients).map_values(|c: Client| c@),
            next_client_id: self.next_client_id,
            outbox: crate::entry::texts(self.outbox@),
        }
    }
}

/// On a channel that is not incremental no source is written off: it has no
/// snapshots, so that a mark there could never be cleared.
pub open spec fn unmarked(key: crate::key::Key, e: crate::entry::EntryView) -> bool {
    !key.incremental() ==> forall|r: int| !#[trigger] e.race.written_off.contains(r)
}

impl StateView {
    /// Whoever is attached to a subscription is connected, and lists that
    /// subscription among its own.
    pub open spec fn linked(self, key: crate::key::Key, client: u64) -> bool {
        self.clients.dom().contains(client) && self.clients[client].holds(key)
    }

    /// Every entry and every counter is well formed, whatever is asked for
    /// upstream can be shown, only incremental channels write a source off, every
    /// client is filed under its own id and the ids
    /// given out so far lie below the next one, and whoever is attached to a
    /// subscription is connected and lists it, `gone` excepted.
    pub open spec fn wf_but(self, gone: Option<u64>) -> bool {
        &&& forall|i: int|
            0 <= i < self.sources.len() ==> (#[trigger] self.sources[i]).id < usize::MAX
                && self.sources[i].stats.wf()
        &&& forall|k: crate::key::Key| #[trigger]
            self.subs.dom().contains(k) ==> self.subs[k].wf() && (self.subs[k].upstream_subscribed
                ==> k.can_label()) && unmarked(k, self.subs[k])
        &&& forall|k: crate::key::Key, c: u64|
            self.subs.dom().contains(k) && #[trigger] self.subs[k].has(c) && gone != Some(c)
                ==> self.linked(k, c)
        &&& forall|c: u64| #[trigger]
            self.clients.dom().contains(c) ==> self.clients[c].wf() && self.clients[c].id == c && c
                < self.next_client_id
    }

    /// The state is well formed.
    pub open spec fn wf(self) -> bool {
        self.wf_but(None)
    }

    /// The entry of a key, or the one it would start with.
    pub open spec fn entry(self, key: crate::key::Key, now: u64) -> crate::entry::EntryView {
        if self.subs.dom().contains(key) {
            self.subs[key]
        } else {
            crate::entry::EntryView::fresh(now)
        }
    }

    /// The state with one more client.
    pub open spec fn registered(self, ip: Seq<char>, now: u64) -> StateView {
        StateView {
            clients: self.clients.insert(
                self.next_client_id,
                crate::client::ClientView::fresh(self.next_client_id, ip, now),
            ),
            next_client_id: (self.next_client_id + 1) as u64,
            ..self
        }
    }

    /// What comes of a client's subscribing.
    pub open spec fn outcome(self, client: u64, key: crate::key::Key) -> SubscribeOutcome {
        if self.clients[client].holds(key) {
            SubscribeOutcome::Duplicate
        } else if self.subs.dom().contains(key) && self.subs[key].upstream_subscribed {
            SubscribeOutcome::Joined
        } else {
            SubscribeOutcome::Fresh
        }
    }

    /// The state after a client has subscribed. The first subscription to a key
    /// is passed on to every source.
    pub open spec fn subscribed(self, client: u64, key: crate::key::Key, now: u64) -> StateView {
        let outcome = self.outcome(client, key);
        if outcome is Duplicate {
            self
        } else {
            StateView {
                subs: self.subs.insert(
                    key,
                    self.entry(key, now).joined(client, key.incremental()),
                ),
                clients: self.clients.insert(client, self.clients[client].with_key(key)),
                outbox: if outcome is Fresh {
                    self.outbox.push(crate::wire::subscribe_text(key))
                } else {
                    self.outbox
                },
                ..self
            }
        }
    }

    /// The state once a key is held open.
    pub open spec fn pinned(self, key: crate::key::Key, now: u64) -> StateView {
        let e = self.entry(key, now);
        StateView {
            subs: self.subs.insert(
                key,
                crate::entry::EntryView { pinned: true, upstream_subscribed: true, ..e },
            ),
            outbox: if e.upstream_subscribed {
                self.outbox
            } else {
                self.outbox.push(crate::wire::subscribe_text(key))
            },
            ..self
        }
    }

    /// The state once a client is detached from a key. When the last one leaves,
    /// the sources are told and the entry goes.
    pub open spec fn detached(self, client: u64, key: crate::key::Key) -> StateView {
        if !self.subs.dom().contains(key) {
            self
        } else if self.subs[key].left(client).abandoned() {
            StateView {
                subs: self.subs.remove(key),
                outbox: self.outbox.push(crate::wire::unsubscribe_text(key)),
                ..self
            }
        } else {
            StateView { subs: self.subs.insert(key, self.subs[key].left(client)), ..self }
        }
    }

    /// The state after a client has unsubscribed from a key that it held.
    pub open spec fn unsubscribed(self, client: u64, key: crate::key::Key) -> StateView {
        StateView {
            clients: self.clients.insert(client, self.clients[client].without_key(key)),
            ..self
        }.detached(client, key)
    }

    /// The state once a client is detached from each of some keys.
    pub open spec fn detached_from(self, client: u64, keys: Seq<crate::key::Key>) -> StateView
        decreases keys.len(),
    {
        if keys.len() == 0 {
            self
        } else {
            self.detached_from(client, keys.drop_last()).detached(client, keys.last())
        }
    }

    /// The state without a client.
    pub open spec fn cleaned(self, client: u64) -> StateView {
        if self.clients.dom().contains(client) {
            StateView { clients: self.clients.remove(client), ..self }.detached_from(
                client,
                self.clients[client].subscriptions,
            )
        } else {
            self
        }
    }

    /// Whether any source may reset the stream with a snapshot, or only the one
    /// that is followed.
    pub open spec fn open_reset(key: crate::key::Key) -> bool {
        key is L4Book
    }

    /// Whether `u` says what to do about a frame from the source at position
    /// `src`.
    pub open spec fn says(
        self,
        u: Update,
        src: int,
        key: crate::key::Key,
        stamp: Stamp,
        payload: Seq<char>,
        now: u64,
    ) -> bool {
        let e = self.entry(key, now);
        let id = self.sources[src].id;
        let reset = StateView::open_reset(key);
        &&& u.ruling == e.ruling(id, stamp, now, reset)
        &&& u.incremental == key.incremental()
        &&& u.recipients@ == e.recipients(id, stamp, now, reset)
        &&& u.overflowed@ == e.overflowed(id, stamp, payload, now, reset)
    }

    /// The state after a frame from the source at position `src`.
    pub open spec fn updated(
        self,
        src: int,
        key: crate::key::Key,
        stamp: Stamp,
        payload: Seq<char>,
        now: u64,
    ) -> StateView {
        let e = self.entry(key, now);
        let id = self.sources[src].id;
        let reset = StateView::open_reset(key);
        StateView {
            subs: self.subs.insert(key, e.after_frame(id, stamp, payload, now, reset)),
            sources: self.sources.update(
                src,
                SourceView {
                    stats: self.sources[src].stats.ruled(e.ruling(id, stamp, now, reset)),
                    ..self.sources[src]
                },
            ),
            ..self
        }
    }
}

// ---------------------------------------------------------------------------
// The two maps
// ---------------------------------------------------------------------------

impl AppState {
    /// The keys of the subscription map are keys, and its entries are in order.
    closed spec fn raw(&self) -> bool {
        let held = registry::subs_held(self.subs);
        &&& forall|p: (u8, Seq<char>, Option<u32>, Option<usize>, Option<u64>)| #[trigger]
            held.dom().contains(p) ==> crate::key::are_parts(p) && held[p].inv()
    }

    /// The state is well formed, inside and out.
    pub closed spec fn inv(&self) -> bool {
        self.raw() && self@.wf()
    }

    /// A state in order denotes a well-formed state.
    pub proof fn lemma_inv(&self)
        requires
            self.inv(),
        ensures
            self@.wf(),
    {
    }

    /// Take the entry of a key out of the map.
    fn take_entry(&mut self, key: &SubKey) -> (r: Option<SubEntry>)
        requires
            old(self).raw(),
        ensures
            final(self).raw(),
            final(self)@ == (StateView { subs: old(self)@.subs.remove(key@), ..old(self)@ }),
            match r {
                Some(e) => old(self)@.subs.dom().contains(key@) && e@ == old(self)@.subs[key@]
                    && e.inv(),
                None => !old(self)@.subs.dom().contains(key@),
            },
    {
        let ghost before = self@.subs;
        let r = registry::subs_remove(&mut self.subs, &key.to_parts());
        proof {
            assert forall|k: crate::key::Key| #[trigger] k.parts() == key@.parts() implies k == key@ by {
                crate::key::law_parts_identify_the_key(k);
                crate::key::law_parts_identify_the_key(key@);
            }
            assert(self@.subs =~= before.remove(key@));
        }
        r
    }

    /// Put the entry of a key into the map.
    fn put_entry(&mut self, key: &SubKey, e: SubEntry)
        requires
            old(self).raw(),
            e.inv(),
        ensures
            final(self).raw(),
            final(self)@ == (StateView { subs: old(self)@.subs.insert(key@, e@), ..old(self)@ }),
    {
        let ghost before = self@.subs;
        let _ = registry::subs_insert(&mut self.subs, key.to_parts(), e);
        proof {
            crate::key::law_parts_identify_the_key(key@);
            assert forall|k: crate::key::Key| #[trigger] k.parts() == key@.parts() implies k == key@ by {
                crate::key::law_parts_identify_the_key(k);
            }
            assert(self@.subs =~= before.insert(key@, e@));
        }
    }

    /// Take a client out of the map.
    fn take_client(&mut self, client: u64) -> (r: Option<Client>)
        requires
            old(self).raw(),
        ensures
            final(self).raw(),
            final(self)@ == (StateView { clients: old(self)@.clients.remove(client), ..old(self)@ }),
            match r {
                Some(c) => old(self)@.clients.dom().contains(client) && c@
                    == old(self)@.clients[client],
                None => !old(self)@.clients.dom().contains(client),
            },
    {
        let ghost before = self@.clients;
        let r = registry::clients_remove(&mut self.clients, client);
        assert(self@.clients =~= before.remove(client));
        r
    }

    /// Put a client into the map.
    fn put_client(&mut self, id: u64, client: Client)
        requires
            old(self).raw(),
        ensures
            final(self).raw(),
            final(self)@ == (StateView {
                clients: old(self)@.clients.insert(id, client@),
                ..old(self)@
            }),
    {
        let ghost before = self@.clients;
        let _ = registry::clients_insert(&mut self.clients, id, client);
        assert(self@.clients =~= before.insert(id, client@));
    }

    /// Leave a request for every source.
    fn broadcast_ctrl(&mut self, req: &SubRequest<'_>)
        requires
            old(self).raw(),
        ensures
            final(self).raw(),
            final(self)@ == (StateView {
                outbox: old(self)@.outbox.push(req.text()),
                ..old(self)@
            }),
    {
        let ghost before = self@.outbox;
        self.outbox.push(req.json());
        assert(self@.outbox =~= before.push(req.text()));
    }
}

// ---------------------------------------------------------------------------
// Clients and their subscriptions
// ---------------------------------------------------------------------------

impl AppState {
    /// A state with nobody connected and nothing subscribed.
    pub fn new(sources: Vec<Source>, max_age: Option<u64>) -> (s: AppState)
        requires
            forall|i: int|
                0 <= i < sources@.len() ==> (#[trigger] sources@[i]).id < usize::MAX
                    && sources@[i].stats@.wf(),
        ensures
            s.inv(),
            s@ == StateView::fresh(sources@.map_values(|s: Source| s@), max_age),
    {
        let s = AppState {
            max_age,
            sources,
            subs: registry::subs_new(),
            clients: registry::clients_new(),
            next_client_id: 1,
            outbox: Vec::new(),
        };
        proof {
            assert(s@.subs =~= Map::empty());
            assert(s@.clients =~= Map::empty());
            assert(s@.outbox =~= seq![]);
            assert forall|i: int| 0 <= i < s@.sources.len() implies (
            #[trigger] s@.sources[i]).id < usize::MAX && s@.sources[i].stats.wf() by {
                assert(s@.sources[i] == sources@[i]@);
            }
        }
        s
    }

    /// Register a new client and return its id.
    pub fn register_client(&mut self, ip: String, now: u64) -> (id: u64)
        requires
            old(self).inv(),
            old(self)@.next_client_id < u64::MAX,
        ensures
            final(self).inv(),
            id == old(self)@.next_client_id,
            final(self)@ == old(self)@.registered(ip@, now),
    {
        let ghost before = self@;
        let id = self.next_client_id;
        let client = Client::new(id, ip, now);
        self.next_client_id = id + 1;
        self.put_client(id, client);
        proof {
            assert forall|k: crate::key::Key, c: u64|
                self@.subs.dom().contains(k) && #[trigger] self@.subs[k].has(c) implies self@.linked(
                k,
                c,
            ) by {
                assert(before.subs[k].has(c));
                assert(before.linked(k, c));
            }
        }
        id
    }

    /// Subscribe a client to `key`. On the first subscription to a key, the
    /// subscription is passed on to every upstream source.
    pub fn subscribe(&mut self, client: u64, key: SubKey, now: u64) -> (outcome: SubscribeOutcome)
        requires
            old(self).inv(),
            old(self)@.clients.dom().contains(client),
            key@.can_label(),
        ensures
            final(self).inv(),
            outcome == old(self)@.outcome(client, key@),
            final(self)@ == old(self)@.subscribed(client, key@, now),
    {
        let ghost before = self@;
        let mut record = match self.take_client(client) {
            Some(c) => c,
            None => {
                return SubscribeOutcome::Duplicate;
            },
        };
        let news = record.add_key(&key);
        self.put_client(client, record);
        if !news {
            assert(self@.clients =~= before.clients);
            return SubscribeOutcome::Duplicate;
        }
        let mut entry = match self.take_entry(&key) {
            Some(e) => e,
            None => SubEntry::new(now),
        };
        proof {
            entry.lemma_inv();
            assert(entry@ == before.entry(key@, now));
            assert(!entry@.has(client)) by {
                if entry@.has(client) {
                    if before.subs.dom().contains(key@) {
                        assert(before.subs[key@].has(client));
                        assert(before.linked(key@, client));
                    } else {
                        assert(crate::entry::parked_ids(seq![]) =~= seq![]);
                    }
                }
            }
            entry@.lemma_joined_wf(client, key@.incremental());
        }
        let need_upstream = entry.join(client, key.is_incremental());
        self.put_entry(&key, entry);
        proof {
            let after = self@;
            assert(after.subs =~= before.subs.insert(
                key@,
                before.entry(key@, now).joined(client, key@.incremental()),
            ));
            assert(after.clients =~= before.clients.insert(
                client,
                before.clients[client].with_key(key@),
            ));
            lemma_joined_links(before, after, client, key@);
        }
        if need_upstream {
            self.broadcast_ctrl(&SubRequest::Subscribe { subscription: &key });
            SubscribeOutcome::Fresh
        } else {
            SubscribeOutcome::Joined
        }
    }
}

proof fn lemma_joined_links(before: StateView, after: StateView, client: u64, key: crate::key::Key)
    requires
        before.wf(),
        before.clients.dom().contains(client),
        !before.clients[client].holds(key),
        key.can_label(),
        after.clients == before.clients.insert(client, before.clients[client].with_key(key)),
        after.subs == before.subs.insert(key, after.subs[key]),
        after.subs[key].wf(),
        unmarked(key, after.subs[key]),
        forall|c: u64| #[trigger]
            after.subs[key].has(c) ==> c == client || (before.subs.dom().contains(key)
                && before.subs[key].has(c)),
        after.sources == before.sources,
        after.next_client_id == before.next_client_id,
    ensures
        after.wf(),
{
    let record = before.clients[client];
    assert forall|k: crate::key::Key| record.holds(k) || k == key implies #[trigger] record.with_key(
        key,
    ).holds(k) by {
        if record.holds(k) {
            let i = record.subscriptions.index_of(k);
            assert(record.subscriptions.push(key)[i] == k);
        } else {
            assert(record.subscriptions.push(key)[record.subscriptions.len() as int] == key);
        }
    }
    assert forall|k: crate::key::Key, c: u64|
        after.subs.dom().contains(k) && #[trigger] after.subs[k].has(c) implies after.linked(
        k,
        c,
    ) by {
        if k != key || c != client {
            assert(before.subs.dom().contains(k) && before.subs[k].has(c));
            assert(before.linked(k, c));
        }
        if c == client {
            assert(record.with_key(key).holds(k));
        }
    }
}

/// An entry that is replaced by one that nobody new is attached to leaves the
/// state well formed.
proof fn lemma_entry_changed(
    before: StateView,
    after: StateView,
    key: crate::key::Key,
    gone: Option<u64>,
)
    requires
        before.wf_but(gone),
        after.subs == before.subs.insert(key, after.subs[key]),
        after.subs[key].wf(),
        unmarked(key, after.subs[key]),
        after.subs[key].upstream_subscribed ==> key.can_label(),
        forall|c: u64| #[trigger]
            after.subs[key].has(c) ==> before.subs.dom().contains(key) && before.subs[key].has(c),
        after.clients == before.clients,
        after.next_client_id == before.next_client_id,
        after.sources == before.sources,
    ensures
        after.wf_but(gone),
{
    assert forall|k: crate::key::Key, c: u64|
        after.subs.dom().contains(k) && #[trigger] after.subs[k].has(c) && gone != Some(
            c,
        ) implies after.linked(k, c) by {
        assert(before.subs.dom().contains(k) && before.subs[k].has(c));
        assert(before.linked(k, c));
    }
}

impl AppState {
    /// Hold a subscription open forever, with no client behind it.
    ///
    /// The arbitration counters are how the sources get compared against each
    /// other, and they only move while something is streaming. One cheap
    /// subscription keeps them moving with no clients connected.
    pub fn pin(&mut self, key: SubKey, now: u64)
        requires
            old(self).inv(),
            key@.can_label(),
        ensures
            final(self).inv(),
            final(self)@ == old(self)@.pinned(key@, now),
    {
        let ghost before = self@;
        let mut entry = match self.take_entry(&key) {
            Some(e) => e,
            None => SubEntry::new(now),
        };
        let ghost was = entry@;
        let need_upstream = entry.pin();
        proof {
            entry.lemma_inv();
        }
        self.put_entry(&key, entry);
        proof {
            let e = crate::entry::EntryView { pinned: true, upstream_subscribed: true, ..was };
            assert(self@.subs =~= before.subs.insert(key@, e));
            assert forall|c: u64| #[trigger] e.has(c) implies before.subs.dom().contains(key@)
                && before.subs[key@].has(c) by {
                assert(was.follows(c) == e.follows(c));
                assert(was.waits(c) == e.waits(c));
                if !before.subs.dom().contains(key@) {
                    lemma_fresh_is_empty(now, c);
                }
            }
            lemma_entry_changed(before, self@, key@, None);
        }
        if need_upstream {
            self.broadcast_ctrl(&SubRequest::Subscribe { subscription: &key });
        }
    }

    /// Detach a client from one key, dropping the upstream subscription once the
    /// last one is gone.
    fn detach(&mut self, client: u64, key: &SubKey)
        requires
            old(self).raw(),
        ensures
            final(self).raw(),
            final(self)@ == old(self)@.detached(client, key@),
    {
        let ghost before = self@;
        if let Some(mut entry) = self.take_entry(key) {
            let abandoned = entry.leave(client);
            if abandoned {
                self.broadcast_ctrl(&SubRequest::Unsubscribe { subscription: key });
            } else {
                self.put_entry(key, entry);
                assert(self@.subs =~= before.subs.insert(key@, before.subs[key@].left(client)));
            }
        } else {
            assert(self@.subs =~= before.subs);
        }
    }

    /// Unsubscribe a client from `key` at its own request. Returns whether it was
    /// subscribed.
    pub fn unsubscribe(&mut self, client: u64, key: &SubKey) -> (held: bool)
        requires
            old(self).inv(),
            old(self)@.clients.dom().contains(client),
        ensures
            final(self).inv(),
            held == old(self)@.clients[client].holds(key@),
            final(self)@ == old(self)@.unsubscribed_if_held(client, key@),
    {
        let ghost before = self@;
        let mut record = match self.take_client(client) {
            Some(c) => c,
            None => {
                return false;
            },
        };
        let held = record.drop_key(key);
        self.put_client(client, record);
        if !held {
            assert(self@.clients =~= before.clients);
            return false;
        }
        proof {
            assert(self@.clients =~= before.clients.insert(
                client,
                before.clients[client].without_key(key@),
            ));
            lemma_unlisted(before, self@, client, key@);
        }
        let ghost mid = self@;
        self.detach(client, key);
        proof {
            lemma_detached_wf(mid, client, key@, Some(client));
            lemma_relinked(before, mid, self@, client, key@);
        }
        true
    }

    /// Remove a client and detach it from every key it was subscribed to.
    pub fn cleanup_client(&mut self, client: u64)
        requires
            old(self).inv(),
        ensures
            final(self).inv(),
            final(self)@ == old(self)@.cleaned(client),
    {
        let ghost before = self@;
        let record = match self.take_client(client) {
            Some(c) => c,
            None => {
                assert(self@.clients =~= before.clients);
                return;
            },
        };
        let keys = record.subscriptions();
        let ghost all = crate::client::keys_of(keys@);
        let ghost start = self@;
        let mut i: usize = 0;
        assert(all.take(0) =~= seq![]);
        while i < keys.len()
            invariant
                i <= keys.len(),
                all == crate::client::keys_of(keys@),
                self.raw(),
                self@ == start.detached_from(client, all.take(i as int)),
            decreases keys.len() - i,
        {
            assert(all[i as int] == keys@[i as int]@);
            assert(all.take(i + 1).drop_last() =~= all.take(i as int));
            self.detach(client, &keys[i]);
            i = i + 1;
        }
        proof {
            assert(all.take(keys@.len() as int) =~= all);
            lemma_cleaned_wf(before, client);
        }
    }
}

/// Detaching a client leaves the state well formed.
proof fn lemma_detached_wf(s: StateView, client: u64, key: crate::key::Key, gone: Option<u64>)
    requires
        s.wf_but(gone),
    ensures
        s.detached(client, key).wf_but(gone),
{
    let after = s.detached(client, key);
    if s.subs.dom().contains(key) {
        s.subs[key].lemma_left_wf(client);
        if s.subs[key].left(client).abandoned() {
            assert forall|k: crate::key::Key, c: u64|
                after.subs.dom().contains(k) && #[trigger] after.subs[k].has(c) && gone != Some(
                    c,
                ) implies after.linked(k, c) by {
                assert(s.subs.dom().contains(k) && s.subs[k].has(c));
                assert(s.linked(k, c));
            }
        } else {
            lemma_entry_changed(s, after, key, gone);
        }
    }
}

/// A client's disconnecting leaves the state well formed.
pub proof fn lemma_cleaned_wf(s: StateView, client: u64)
    requires
        s.wf(),
    ensures
        s.cleaned(client).wf(),
{
    if s.clients.dom().contains(client) {
        let all = s.clients[client].subscriptions;
        let start = StateView { clients: s.clients.remove(client), ..s };
        assert forall|k: crate::key::Key, c: u64|
            start.subs.dom().contains(k) && #[trigger] start.subs[k].has(c) && Some(client) != Some(
                c,
            ) implies start.linked(k, c) by {
            assert(s.linked(k, c));
        }
        assert forall|k: crate::key::Key|
            #[trigger] start.subs.dom().contains(k) && start.subs[k].has(
                client,
            ) implies all.contains(k) by {
            assert(s.linked(k, client));
        }
        lemma_detached_from(start, client, all, all.len() as int);
        assert(all.take(all.len() as int) =~= all);
        assert(all.skip(all.len() as int) =~= seq![]);
        let after = s.cleaned(client);
        assert forall|k: crate::key::Key, c: u64|
            after.subs.dom().contains(k) && #[trigger] after.subs[k].has(c) implies after.linked(
            k,
            c,
        ) by {
            assert(c != client);
        }
    }
}

proof fn lemma_detached_from(start: StateView, client: u64, all: Seq<crate::key::Key>, n: int)
    requires
        start.wf_but(Some(client)),
        0 <= n <= all.len(),
        forall|k: crate::key::Key|
            #[trigger] start.subs.dom().contains(k) && start.subs[k].has(client) ==> all.contains(k),
    ensures
        start.detached_from(client, all.take(n)).wf_but(Some(client)),
        forall|k: crate::key::Key|
            #[trigger] start.detached_from(client, all.take(n)).subs.dom().contains(k)
                && start.detached_from(client, all.take(n)).subs[k].has(client) ==> all.skip(
                n,
            ).contains(k),
    decreases n,
{
    if n == 0 {
        assert(all.take(0) =~= seq![]);
        assert(all.skip(0) =~= all);
    } else {
        lemma_detached_from(start, client, all, n - 1);
        let mid = start.detached_from(client, all.take(n - 1));
        assert(all.take(n).drop_last() =~= all.take(n - 1));
        assert(all.take(n).last() == all[n - 1]);
        lemma_detached_wf(mid, client, all[n - 1], Some(client));
        lemma_one_less(mid, mid.detached(client, all[n - 1]), client, all, n - 1);
    }
}

proof fn lemma_fresh_is_empty(now: u64, c: u64)
    ensures
        !crate::entry::EntryView::fresh(now).has(c),
        crate::entry::EntryView::fresh(now).wf(),
{
    let e = crate::entry::EntryView::fresh(now);
    assert(crate::entry::parked_ids(seq![]) =~= seq![]);
    assert forall|c: u64| !(#[trigger] e.follows(c) && e.waits(c)) by {}
}

/// Only `client` may be attached to something that it does not list, once a key
/// has been struck from its list.
proof fn lemma_unlisted(before: StateView, after: StateView, client: u64, key: crate::key::Key)
    requires
        before.wf(),
        before.clients.dom().contains(client),
        before.clients[client].holds(key),
        after == (StateView {
            clients: before.clients.insert(client, before.clients[client].without_key(key)),
            ..before
        }),
        before.clients[client].without_key(key).wf(),
    ensures
        after.wf_but(Some(client)),
{
    assert forall|k: crate::key::Key, c: u64|
        after.subs.dom().contains(k) && #[trigger] after.subs[k].has(c) && Some(client) != Some(
            c,
        ) implies after.linked(k, c) by {
        assert(before.linked(k, c));
    }
}

/// Once the client is detached from the key too, its list is complete again.
proof fn lemma_relinked(
    before: StateView,
    mid: StateView,
    after: StateView,
    client: u64,
    key: crate::key::Key,
)
    requires
        before.wf(),
        before.clients.dom().contains(client),
        before.clients[client].holds(key),
        mid == (StateView {
            clients: before.clients.insert(client, before.clients[client].without_key(key)),
            ..before
        }),
        after == mid.detached(client, key),
        after.wf_but(Some(client)),
    ensures
        after.wf(),
{
    let record = before.clients[client];
    let at = record.subscriptions.index_of(key);
    if before.subs.dom().contains(key) {
        before.subs[key].lemma_left_wf(client);
    }
    assert forall|k: crate::key::Key, c: u64|
        after.subs.dom().contains(k) && #[trigger] after.subs[k].has(c) implies after.linked(
        k,
        c,
    ) by {
        if c == client {
            if k == key {
                assert(after.subs[k] == before.subs[key].left(client));
                assert(false);
            }
            assert(before.subs[k].has(c));
            assert(before.linked(k, c));
            let i = record.subscriptions.index_of(k);
            if i < at {
                assert(record.subscriptions.remove(at)[i] == k);
            } else {
                assert(record.subscriptions.remove(at)[i - 1] == k);
            }
        }
    }
}

/// Detaching a client from one key leaves it attached to the others at most.
proof fn lemma_one_less(
    mid: StateView,
    after: StateView,
    client: u64,
    all: Seq<crate::key::Key>,
    i: int,
)
    requires
        mid.wf_but(Some(client)),
        0 <= i < all.len(),
        after == mid.detached(client, all[i]),
        forall|k: crate::key::Key|
            #[trigger] mid.subs.dom().contains(k) && mid.subs[k].has(client) ==> all.skip(
                i,
            ).contains(k),
    ensures
        forall|k: crate::key::Key|
            #[trigger] after.subs.dom().contains(k) && after.subs[k].has(client) ==> all.skip(
                i + 1,
            ).contains(k),
{
    let key = all[i];
    if mid.subs.dom().contains(key) {
        mid.subs[key].lemma_left_wf(client);
    }
    assert forall|k: crate::key::Key|
        #[trigger] after.subs.dom().contains(k) && after.subs[k].has(client) implies all.skip(
        i + 1,
    ).contains(k) by {
        if k == key {
            assert(after.subs[k] == mid.subs[key].left(client));
            assert(false);
        }
        assert(mid.subs.dom().contains(k) && mid.subs[k].has(client));
        let j = all.skip(i).index_of(k);
        assert(all.skip(i)[j] == k);
        assert(j != 0);
        assert(all.skip(i + 1)[j - 1] == k);
    }
}

// ---------------------------------------------------------------------------
// Frames
// ---------------------------------------------------------------------------

impl AppState {
    /// Handle a fresh frame for `key` from the source at position `src`: apply the
    /// arbitration rule for its stamp, and say whom it goes to.
    pub fn on_update(
        &mut self,
        src: usize,
        key: SubKey,
        stamp: Stamp,
        payload: &str,
        now: u64,
    ) -> (u: Update)
        requires
            old(self).inv(),
            src < old(self)@.sources.len(),
        ensures
            final(self).inv(),
            final(self)@ == old(self)@.updated(src as int, key@, stamp, payload@, now),
            old(self)@.says(u, src as int, key@, stamp, payload@, now),
    {
        let ghost before = self@;
        assert(before.sources[src as int] == self.sources@[src as int]@);
        let id = self.sources[src].id;
        let incremental = key.is_incremental();
        let open_reset = match &key {
            SubKey::L4Book { .. } => true,
            _ => false,
        };
        let mut entry = match self.take_entry(&key) {
            Some(e) => e,
            None => SubEntry::new(now),
        };
        let ghost was = entry@;
        proof {
            entry.lemma_inv();
            was.lemma_after_frame_wf(id, stamp, payload@, now, open_reset);
        }
        let (ruling, overflowed) = entry.on_frame(id, stamp, payload, now, open_reset);
        let recipients = if ruling.delivers() {
            entry.subscribers()
        } else {
            Vec::new()
        };
        assert(recipients@ =~= was.recipients(id, stamp, now, open_reset));
        let ghost is = entry@;
        self.put_entry(&key, entry);
        proof {
            assert(self@.subs =~= before.subs.insert(key@, is));
            assert forall|c: u64| #[trigger] is.has(c) implies before.subs.dom().contains(key@)
                && before.subs[key@].has(c) by {
                assert(was.has(c));
                if !before.subs.dom().contains(key@) {
                    lemma_fresh_is_empty(now, c);
                }
            }
            lemma_entry_changed(before, self@, key@, None);
        }
        self.note_ruling(src, ruling);
        Update { ruling, incremental, recipients, overflowed }
    }

    /// Count a ruling on a frame from the source at position `src`.
    fn note_ruling(&mut self, src: usize, ruling: Ruling)
        requires
            old(self).inv(),
            src < old(self)@.sources.len(),
        ensures
            final(self).inv(),
            final(self)@ == (StateView {
                sources: old(self)@.sources.update(
                    src as int,
                    SourceView {
                        stats: old(self)@.sources[src as int].stats.ruled(ruling),
                        ..old(self)@.sources[src as int]
                    },
                ),
                ..old(self)@
            }),
    {
        let ghost before = self@;
        assert(before.sources[src as int] == self.sources@[src as int]@);
        self.sources[src].stats.record_ruling(ruling);
        proof {
            assert(self@.sources =~= before.sources.update(
                src as int,
                self.sources@[src as int]@,
            ));
            lemma_source_changed(before, self@, src as int);
        }
    }

    /// Hand a freshly fetched snapshot to a waiting client and attach it to the
    /// live stream. Returns what the client must now be sent: the snapshot, then
    /// the frames held back above its height. What was held at or below that
    /// height is already baked into the snapshot.
    pub fn deliver_snapshot(
        &mut self,
        key: &SubKey,
        client: u64,
        height: u64,
        snapshot: &str,
    ) -> (r: Option<Vec<String>>)
        requires
            old(self).inv(),
        ensures
            final(self).inv(),
            match r {
                Some(v) => old(self)@.waits(client, key@) && final(self)@ == old(self)@.delivered(
                    client,
                    key@,
                ) && crate::entry::texts(v@) == crate::entry::handed_over(
                    old(self)@.subs[key@].backlog(client),
                    height,
                    snapshot@,
                ),
                None => !old(self)@.waits(client, key@) && final(self)@ == old(self)@,
            },
    {
        self.hand_over(key, client, None, height, snapshot)
    }

    /// As [`AppState::deliver_snapshot`], where the snapshot is known to come from
    /// source `source`. On a stream that one source carries throughout and nobody
    /// carries yet, that source carries it from now on, so that the increments
    /// come from the node the book was taken from.
    pub fn deliver_snapshot_from(
        &mut self,
        key: &SubKey,
        client: u64,
        source: usize,
        height: u64,
        snapshot: &str,
    ) -> (r: Option<Vec<String>>)
        requires
            old(self).inv(),
        ensures
            final(self).inv(),
            match r {
                Some(v) => old(self)@.waits(client, key@) && final(self)@
                    == old(self)@.delivered_from(client, key@, source) && crate::entry::texts(v@)
                    == crate::entry::handed_over(
                    old(self)@.subs[key@].backlog(client),
                    height,
                    snapshot@,
                ),
                None => !old(self)@.waits(client, key@) && final(self)@ == old(self)@,
            },
    {
        if key.single_sourced() {
            self.hand_over(key, client, Some(source), height, snapshot)
        } else {
            self.hand_over(key, client, None, height, snapshot)
        }
    }

    fn hand_over(
        &mut self,
        key: &SubKey,
        client: u64,
        adopt: Option<usize>,
        height: u64,
        snapshot: &str,
    ) -> (r: Option<Vec<String>>)
        requires
            old(self).inv(),
        ensures
            final(self).inv(),
            match r {
                Some(v) => old(self)@.waits(client, key@) && final(self)@ == (StateView {
                    subs: old(self)@.subs.insert(
                        key@,
                        match adopt {
                            Some(id) => old(self)@.subs[key@].attached(client).adopted(id),
                            None => old(self)@.subs[key@].attached(client),
                        },
                    ),
                    ..old(self)@
                }) && crate::entry::texts(v@) == crate::entry::handed_over(
                    old(self)@.subs[key@].backlog(client),
                    height,
                    snapshot@,
                ),
                None => !old(self)@.waits(client, key@) && final(self)@ == old(self)@,
            },
    {
        let ghost before = self@;
        let mut entry = match self.take_entry(key) {
            Some(e) => e,
            None => {
                assert(self@.subs =~= before.subs);
                return None;
            },
        };
        let ghost was = entry@;
        proof {
            entry.lemma_inv();
            if was.waits(client) {
                was.lemma_attached_wf(client);
            }
        }
        let r = entry.attach(client, height, snapshot);
        let ghost there = entry@;
        if r.is_some() {
            if let Some(id) = adopt {
                entry.adopt(id);
            }
        }
        let ghost is = entry@;
        proof {
            entry.lemma_inv();
            assert forall|c: u64| #[trigger] is.has(c) implies before.subs.dom().contains(key@)
                && before.subs[key@].has(c) by {
                assert(is.follows(c) == there.follows(c));
                assert(is.waits(c) == there.waits(c));
                assert(there.has(c));
            }
        }
        self.put_entry(key, entry);
        proof {
            assert(self@.subs =~= before.subs.insert(key@, is));
            lemma_entry_changed(before, self@, key@, None);
            if r is None {
                assert(self@.subs =~= before.subs);
            }
        }
        r
    }

    /// Give up on a waiting client. Serving an incremental stream with no
    /// snapshot under it would look fine and be silently wrong. Returns whether
    /// the client was waiting, and must be hung up on.
    pub fn fail_pending(&mut self, key: &SubKey, client: u64) -> (hang_up: bool)
        requires
            old(self).inv(),
        ensures
            final(self).inv(),
            hang_up == old(self)@.waits(client, key@),
            final(self)@ == old(self)@.given_up_if_waiting(client, key@),
    {
        let ghost before = self@;
        let mut entry = match self.take_entry(key) {
            Some(e) => e,
            None => {
                assert(self@.subs =~= before.subs);
                return false;
            },
        };
        let ghost was = entry@;
        proof {
            entry.lemma_inv();
            if was.waits(client) {
                was.lemma_given_up_wf(client);
            }
        }
        let hang_up = entry.give_up(client);
        let ghost is = entry@;
        proof {
            entry.lemma_inv();
        }
        self.put_entry(key, entry);
        proof {
            assert(self@.subs =~= before.subs.insert(key@, is));
            assert forall|c: u64| #[trigger] is.has(c) implies before.subs.dom().contains(key@)
                && before.subs[key@].has(c) by {}
            lemma_entry_changed(before, self@, key@, None);
            if !hang_up {
                assert(self@.subs =~= before.subs);
            }
        }
        hang_up
    }
}

impl StateView {
    /// Whether a client waits for a snapshot of `key`.
    pub open spec fn waits(self, client: u64, key: crate::key::Key) -> bool {
        self.subs.dom().contains(key) && self.subs[key].waits(client)
    }

    /// The state once a waiting client has its snapshot.
    pub open spec fn delivered(self, client: u64, key: crate::key::Key) -> StateView {
        StateView { subs: self.subs.insert(key, self.subs[key].attached(client)), ..self }
    }

    /// The state once a waiting client has its snapshot, taken from `source`.
    pub open spec fn delivered_from(
        self,
        client: u64,
        key: crate::key::Key,
        source: usize,
    ) -> StateView {
        if key.single_sourced() {
            StateView {
                subs: self.subs.insert(key, self.subs[key].attached(client).adopted(source)),
                ..self
            }
        } else {
            self.delivered(client, key)
        }
    }

    /// The state once a waiting client has been given up on.
    pub open spec fn given_up(self, client: u64, key: crate::key::Key) -> StateView {
        StateView { subs: self.subs.insert(key, self.subs[key].given_up(client)), ..self }
    }
}

/// New counters for one source leave the state well formed.
proof fn lemma_source_changed(before: StateView, after: StateView, src: int)
    requires
        before.wf(),
        0 <= src < before.sources.len(),
        after.sources == before.sources.update(src, after.sources[src]),
        after.sources[src].id == before.sources[src].id,
        after.sources[src].stats.wf(),
        after.subs == before.subs,
        after.clients == before.clients,
        after.next_client_id == before.next_client_id,
    ensures
        after.wf(),
{
    assert forall|k: crate::key::Key, c: u64|
        after.subs.dom().contains(k) && #[trigger] after.subs[k].has(c) implies after.linked(
        k,
        c,
    ) by {
        assert(before.subs[k].has(c));
        assert(before.linked(k, c));
    }
}

// ---------------------------------------------------------------------------
// Sources: silence, loss and return
// ---------------------------------------------------------------------------

/// Windows of silence before a connection is bounced once.
pub const SILENT_RECONNECT_FIRST: u64 = 6;

/// How many windows later it is bounced again, and again after that.
pub const SILENT_RECONNECT_EVERY: u64 = 60;

/// Clients to fetch a snapshot for, each with the key it waits on.
pub open spec fn jobs(v: Seq<(SubKey, u64)>) -> Seq<(crate::key::Key, u64)> {
    v.map_values(|j: (SubKey, u64)| (j.0@, j.1))
}

/// Whether `ks` lists the keys of `d`, each once, in whatever order.
pub open spec fn lists(ks: Seq<crate::key::Key>, d: Set<crate::key::Key>) -> bool {
    &&& ks.no_duplicates()
    &&& forall|k: crate::key::Key| #[trigger] ks.contains(k) <==> d.contains(k)
}

/// Whether the loss of source `id` leaves the followers of an entry with half of
/// something: the stream is incremental, and that source was leading it.
pub open spec fn lost(key: crate::key::Key, e: crate::entry::EntryView, id: usize) -> bool {
    key.incremental() && e.race.leader == Some(id)
}

/// Whether the loss of source `id` leaves nobody to carry an entry whose frames are
/// whole books: that source carried it, and any other may take it up.
pub open spec fn freed(key: crate::key::Key, e: crate::entry::EntryView, id: usize) -> bool {
    key.single_sourced() && !key.incremental() && e.race.leader == Some(id)
}

/// An entry after the loss of source `id`.
pub open spec fn without_source(
    key: crate::key::Key,
    e: crate::entry::EntryView,
    id: usize,
) -> crate::entry::EntryView {
    if lost(key, e, id) {
        e.orphaned(id)
    } else if freed(key, e, id) {
        e.released()
    } else {
        e
    }
}

/// The followers of one entry, each to be rebuilt.
pub open spec fn rebuilds(key: crate::key::Key, clients: Seq<u64>) -> Seq<(crate::key::Key, u64)> {
    clients.map_values(|c: u64| (key, c))
}

/// Whom to rebuild after the loss of source `id`, going through the keys `ks`.
pub open spec fn resync_work(
    subs: Map<crate::key::Key, crate::entry::EntryView>,
    ks: Seq<crate::key::Key>,
    id: usize,
) -> Seq<(crate::key::Key, u64)>
    decreases ks.len(),
{
    if ks.len() == 0 {
        seq![]
    } else {
        let rest = resync_work(subs, ks.drop_last(), id);
        if lost(ks.last(), subs[ks.last()], id) {
            rest + rebuilds(ks.last(), subs[ks.last()].subscribers)
        } else {
            rest
        }
    }
}

/// The entries after the loss of source `id`.
pub open spec fn resynced(subs: Map<crate::key::Key, crate::entry::EntryView>, id: usize) -> Map<
    crate::key::Key,
    crate::entry::EntryView,
> {
    Map::new(
        |k: crate::key::Key| subs.dom().contains(k),
        |k: crate::key::Key| without_source(k, subs[k], id),
    )
}

/// The entries after the loss of source `id`, as far as the keys `ks` go.
spec fn resynced_in(
    subs: Map<crate::key::Key, crate::entry::EntryView>,
    ks: Seq<crate::key::Key>,
    id: usize,
) -> Map<crate::key::Key, crate::entry::EntryView> {
    Map::new(
        |k: crate::key::Key| subs.dom().contains(k),
        |k: crate::key::Key|
            if ks.contains(k) {
                without_source(k, subs[k], id)
            } else {
                subs[k]
            },
    )
}

/// Whether this is the work that the loss of source `id` leaves behind, the keys taken in
/// some order.
pub open spec fn is_rebuilt(
    work: Seq<(crate::key::Key, u64)>,
    subs: Map<crate::key::Key, crate::entry::EntryView>,
    id: usize,
) -> bool {
    exists|ks: Seq<crate::key::Key>|
        lists(ks, subs.dom()) && work == #[trigger] resync_work(subs, ks, id)
}

/// Whether these are the subscribe requests of all keys that are asked for upstream, the
/// keys taken in some order.
pub open spec fn is_asked(
    r: Seq<Seq<char>>,
    subs: Map<crate::key::Key, crate::entry::EntryView>,
) -> bool {
    exists|ks: Seq<crate::key::Key>| lists(ks, subs.dom()) && r == #[trigger] requests(subs, ks)
}

/// The subscribe requests of the keys among `ks` that are asked for upstream.
pub open spec fn requests(
    subs: Map<crate::key::Key, crate::entry::EntryView>,
    ks: Seq<crate::key::Key>,
) -> Seq<Seq<char>>
    decreases ks.len(),
{
    if ks.len() == 0 {
        seq![]
    } else if subs[ks.last()].upstream_subscribed {
        requests(subs, ks.drop_last()).push(crate::wire::subscribe_text(ks.last()))
    } else {
        requests(subs, ks.drop_last())
    }
}

impl SourceView {
    /// Whether the source has delivered within `limit` seconds.
    pub open spec fn delivers(self, limit: u64) -> bool {
        match self.stats.idle_for() {
            Some(idle) => idle <= limit,
            None => false,
        }
    }

    /// Whether the source is connected, has delivered once, and has not within
    /// `limit` seconds.
    pub open spec fn silent(self, limit: u64) -> bool {
        match self.stats.idle_for() {
            Some(idle) => self.stats.connected && idle > limit,
            None => false,
        }
    }
}

/// Whether any source has delivered within `limit` seconds.
pub open spec fn anyone_delivers(sources: Seq<SourceView>, limit: u64) -> bool {
    exists|i: int| 0 <= i < sources.len() && (#[trigger] sources[i]).delivers(limit)
}

/// The ids of the sources that are silent, in order.
pub open spec fn silent_ids(sources: Seq<SourceView>, limit: u64) -> Seq<usize>
    decreases sources.len(),
{
    if sources.len() == 0 {
        seq![]
    } else if sources.last().silent(limit) {
        silent_ids(sources.drop_last(), limit).push(sources.last().id)
    } else {
        silent_ids(sources.drop_last(), limit)
    }
}

/// Sources that have gone quiet while others keep delivering.
pub open spec fn odd_ones_out(sources: Seq<SourceView>, limit: u64) -> Seq<usize> {
    if anyone_delivers(sources, limit) {
        silent_ids(sources, limit)
    } else {
        seq![]
    }
}

/// Whether a source that has been silent for this many windows is to be bounced
/// now: once after a while, and rarely after that.
pub open spec fn bounce_due(windows: u64) -> bool {
    windows >= SILENT_RECONNECT_FIRST && (windows - SILENT_RECONNECT_FIRST)
        % SILENT_RECONNECT_EVERY as int == 0
}

/// Whether a source that has been silent for this many windows is to be bounced
/// now.
pub fn reconnect_due(windows: u64) -> (due: bool)
    ensures
        due == bounce_due(windows),
{
    windows == SILENT_RECONNECT_FIRST || (windows > SILENT_RECONNECT_FIRST && (windows
        - SILENT_RECONNECT_FIRST) % SILENT_RECONNECT_EVERY == 0)
}

impl AppState {
    /// The sources, in the order in which they were configured.
    pub fn sources(&self) -> (r: &Vec<Source>)
        ensures
            r@.map_values(|s: Source| s@) == self@.sources,
    {
        &self.sources
    }

    /// Sources that have gone quiet while others keep delivering.
    ///
    /// Judged relatively on purpose. A source whose node has died keeps its
    /// websocket open and simply stops speaking, so silence is the only signal
    /// there is; but a quiet market silences every source at once, and that is
    /// not a fault. Requiring somebody else to still be delivering separates the
    /// two.
    pub fn silent_sources(&self, limit: u64) -> (ids: Vec<usize>)
        ensures
            ids@ == odd_ones_out(self@.sources, limit),
    {
        let ghost all = self@.sources;
        let mut anyone = false;
        let mut i: usize = 0;
        while i < self.sources.len()
            invariant
                i <= self.sources.len(),
                all == self.sources@.map_values(|s: Source| s@),
                anyone == exists|j: int| 0 <= j < i && (#[trigger] all[j]).delivers(limit),
            decreases self.sources.len() - i,
        {
            assert(all[i as int] == self.sources@[i as int]@);
            if let Some(idle) = self.sources[i].stats.idle_for() {
                if idle <= limit {
                    assert(all[i as int].delivers(limit));
                    anyone = true;
                }
            }
            i = i + 1;
        }
        let mut ids: Vec<usize> = Vec::new();
        if !anyone {
            assert(ids@ =~= seq![]);
            return ids;
        }
        let mut i: usize = 0;
        while i < self.sources.len()
            invariant
                i <= self.sources.len(),
                all == self.sources@.map_values(|s: Source| s@),
                ids@ == silent_ids(all.take(i as int), limit),
            decreases self.sources.len() - i,
        {
            assert(all[i as int] == self.sources@[i as int]@);
            assert(all.take(i + 1).drop_last() =~= all.take(i as int));
            if self.sources[i].stats.connected() {
                if let Some(idle) = self.sources[i].stats.idle_for() {
                    if idle > limit {
                        ids.push(self.sources[i].id);
                    }
                }
            }
            i = i + 1;
        }
        assert(all.take(all.len() as int) =~= all);
        ids
    }

    /// The keys of all subscriptions, in whatever order.
    pub fn keys(&self) -> (r: Vec<SubKey>)
        requires
            self.inv(),
        ensures
            lists(crate::client::keys_of(r@), self@.subs.dom()),
    {
        let parts = registry::subs_keys(&self.subs);
        let ghost held = registry::subs_held(self.subs);
        let ghost orig = parts@;
        let mut r: Vec<SubKey> = Vec::new();
        for p in it: parts
            invariant
                it.seq() == orig,
                held == registry::subs_held(self.subs),
                self.raw(),
                forall|i: int| 0 <= i < orig.len() ==> held.dom().contains((#[trigger] orig[i])@),
                r@.len() == it.index(),
                forall|i: int|
                    0 <= i < it.index() ==> (#[trigger] r@[i])@.parts() == orig[i]@,
        {
            assert(held.dom().contains(orig[it.index()]@));
            r.push(SubKey::of_parts(p));
        }
        proof {
            let ks = crate::client::keys_of(r@);
            assert forall|i: int, j: int| 0 <= i < j < ks.len() implies ks[i] != ks[j] by {
                assert(r@[i]@.parts() == orig[i]@ && r@[j]@.parts() == orig[j]@);
            }
            assert forall|k: crate::key::Key| #[trigger]
                ks.contains(k) <==> self@.subs.dom().contains(k) by {
                if ks.contains(k) {
                    let i = ks.index_of(k);
                    assert(r@[i]@.parts() == orig[i]@);
                }
                if self@.subs.dom().contains(k) {
                    assert(held.dom().contains(k.parts()));
                    let i = choose|i: int| 0 <= i < orig.len() && (#[trigger] orig[i])@ == k.parts();
                    assert(r@[i]@.parts() == k.parts());
                    crate::key::law_parts_identify_the_key(k);
                    crate::key::law_parts_identify_the_key(r@[i]@);
                    assert(ks[i] == k);
                }
            }
        }
        r
    }

    /// A source that was leading streams has gone away. The followers of an
    /// incremental one may be holding half a block, and the increments of another
    /// node were computed against another book. Those of a stream of whole books
    /// need nothing but somebody else to carry it.
    ///
    /// Park the clients of the former, let go of the latter, and return the
    /// snapshots that must be fetched to rebuild whoever was parked.
    pub fn resync_after_source_loss(&mut self, source_id: usize) -> (work: Vec<(SubKey, u64)>)
        requires
            old(self).inv(),
        ensures
            final(self).inv(),
            final(self)@ == (StateView {
                subs: resynced(old(self)@.subs, source_id),
                ..old(self)@
            }),
            is_rebuilt(jobs(work@), old(self)@.subs, source_id),
    {
        let ghost before = self@;
        let keys = self.keys();
        let ghost ks = crate::client::keys_of(keys@);
        let mut work: Vec<(SubKey, u64)> = Vec::new();
        let mut i: usize = 0;
        proof {
            assert(ks.take(0) =~= seq![]);
            assert(jobs(work@) =~= resync_work(before.subs, ks.take(0), source_id));
            assert(before.subs =~= resynced_in(before.subs, ks.take(0), source_id));
        }
        while i < keys.len()
            invariant
                i <= keys.len(),
                ks == crate::client::keys_of(keys@),
                lists(ks, before.subs.dom()),
                self.inv(),
                self@ == (StateView {
                    subs: resynced_in(before.subs, ks.take(i as int), source_id),
                    ..before
                }),
                jobs(work@) == resync_work(before.subs, ks.take(i as int), source_id),
            decreases keys.len() - i,
        {
            let ghost mid = self@;
            let ghost done = ks.take(i as int);
            let ghost key = ks[i as int];
            proof {
                assert(key == keys@[i as int]@);
                assert(ks.contains(key));
                assert(!done.contains(key));
                assert(ks.take(i + 1).drop_last() =~= done);
                assert(mid.subs[key] == before.subs[key]);
                assert forall|k: crate::key::Key| #[trigger]
                    ks.take(i + 1).contains(k) <==> done.contains(k) || k == key by {
                    if done.contains(k) {
                        let j = done.index_of(k);
                        assert(ks.take(i + 1)[j] == k);
                    }
                    if k == key {
                        assert(ks.take(i + 1)[i as int] == k);
                    }
                    if ks.take(i + 1).contains(k) && k != key {
                        let j = ks.take(i + 1).index_of(k);
                        assert(done[j] == k);
                    }
                }
            }
            let mut orphaned = false;
            let incremental = keys[i].is_incremental();
            if incremental || keys[i].single_sourced() {
                if let Some(mut entry) = self.take_entry(&keys[i]) {
                    let ghost was = entry@;
                    proof {
                        entry.lemma_inv();
                    }
                    if entry.leader() == Some(source_id) {
                        if incremental {
                            proof {
                                was.lemma_orphaned_wf(source_id);
                            }
                            let clients = entry.orphan(source_id);
                            push_jobs(&mut work, &keys[i], &clients);
                            orphaned = true;
                        } else {
                            proof {
                                was.lemma_released_wf();
                            }
                            entry.release();
                        }
                    }
                    let ghost is = entry@;
                    self.put_entry(&keys[i], entry);
                    proof {
                        assert(self@.subs =~= mid.subs.insert(key, is));
                        lemma_entry_changed(mid, self@, key, None);
                    }
                }
            }
            proof {
                assert(orphaned == lost(key, before.subs[key], source_id));
                assert(self@.subs =~= resynced_in(before.subs, ks.take(i + 1), source_id));
            }
            i = i + 1;
        }
        proof {
            assert(ks.take(ks.len() as int) =~= ks);
            assert(resynced_in(before.subs, ks, source_id) =~= resynced(before.subs, source_id));
            assert(lists(ks, before.subs.dom()) && jobs(work@) == resync_work(
                before.subs,
                ks,
                source_id,
            ));
        }
        work
    }

    /// Subscribe requests for everything currently live upstream, to be sent to a
    /// source that has just connected.
    pub fn subscribed_requests(&self) -> (r: Vec<String>)
        requires
            self.inv(),
        ensures
            is_asked(crate::entry::texts(r@), self@.subs),
    {
        let keys = self.keys();
        let ghost ks = crate::client::keys_of(keys@);
        let mut r: Vec<String> = Vec::new();
        let mut i: usize = 0;
        assert(ks.take(0) =~= seq![]);
        assert(crate::entry::texts(r@) =~= requests(self@.subs, ks.take(0)));
        while i < keys.len()
            invariant
                i <= keys.len(),
                ks == crate::client::keys_of(keys@),
                lists(ks, self@.subs.dom()),
                crate::entry::texts(r@) == requests(self@.subs, ks.take(i as int)),
            decreases keys.len() - i,
        {
            let ghost sent = crate::entry::texts(r@);
            proof {
                assert(ks[i as int] == keys@[i as int]@);
                assert(ks.contains(ks[i as int]));
                assert(ks.take(i + 1).drop_last() =~= ks.take(i as int));
            }
            if let Some(e) = self.entry(&keys[i]) {
                if e.upstream_subscribed {
                    r.push(SubRequest::Subscribe { subscription: &keys[i] }.json());
                    assert(crate::entry::texts(r@) =~= sent.push(
                        crate::wire::subscribe_text(ks[i as int]),
                    ));
                }
            }
            i = i + 1;
        }
        assert(ks.take(ks.len() as int) =~= ks);
        assert(lists(ks, self@.subs.dom()) && crate::entry::texts(r@) == requests(self@.subs, ks));
        r
    }

    /// What there is to read of the entry of a key.
    pub fn entry(&self, key: &SubKey) -> (r: Option<EntrySummary>)
        ensures
            r is Some <==> self@.subs.dom().contains(key@),
            r matches Some(s) ==> s.describes(self@.subs[key@]),
    {
        registry::subs_get(&self.subs, &key.to_parts())
    }
}

/// Add one job per client.
fn push_jobs(work: &mut Vec<(SubKey, u64)>, key: &SubKey, clients: &Vec<u64>)
    ensures
        jobs(final(work)@) == jobs(old(work)@) + rebuilds(key@, clients@),
{
    let ghost before = jobs(work@);
    let mut i: usize = 0;
    assert(before =~= before + rebuilds(key@, clients@.take(0)));
    while i < clients.len()
        invariant
            i <= clients.len(),
            jobs(work@) == before + rebuilds(key@, clients@.take(i as int)),
        decreases clients.len() - i,
    {
        let ghost so_far = jobs(work@);
        work.push((key.clone(), clients[i]));
        assert(jobs(work@) =~= so_far.push((key@, clients@[i as int])));
        assert(rebuilds(key@, clients@.take(i + 1)) =~= rebuilds(key@, clients@.take(i as int)).push(
            (key@, clients@[i as int]),
        ));
        i = i + 1;
        assert(jobs(work@) =~= before + rebuilds(key@, clients@.take(i as int)));
    }
    assert(clients@.take(clients@.len() as int) =~= clients@);
}

impl StateView {
    /// The state with new counters for the source at position `src`.
    pub open spec fn with_stats(self, src: int, stats: crate::stats::StatsView) -> StateView {
        StateView {
            sources: self.sources.update(src, SourceView { stats, ..self.sources[src] }),
            ..self
        }
    }

    /// The counters of the source at position `src`.
    pub open spec fn stats(self, src: int) -> crate::stats::StatsView {
        self.sources[src].stats
    }

    /// A state with nobody connected and nothing subscribed.
    pub open spec fn fresh(sources: Seq<SourceView>, max_age: Option<u64>) -> StateView {
        StateView {
            max_age,
            sources,
            subs: Map::empty(),
            clients: Map::empty(),
            next_client_id: 1,
            outbox: seq![],
        }
    }

    /// The state once the requests that were waiting have been taken.
    pub open spec fn emptied(self) -> StateView {
        StateView { outbox: seq![], ..self }
    }

    /// The state once a client is unsubscribed from `key`, if it was subscribed.
    pub open spec fn unsubscribed_if_held(self, client: u64, key: crate::key::Key) -> StateView {
        if self.clients[client].holds(key) {
            self.unsubscribed(client, key)
        } else {
            self
        }
    }

    /// The state once a client is given up on, if it was waiting.
    pub open spec fn given_up_if_waiting(self, client: u64, key: crate::key::Key) -> StateView {
        if self.waits(client, key) {
            self.given_up(client, key)
        } else {
            self
        }
    }

    /// The state once the source at position `src` has lost its connection.
    pub open spec fn without_connection(self, src: int) -> StateView {
        StateView {
            subs: resynced(self.subs, self.sources[src].id),
            ..self.with_stats(src, self.stats(src).went_down())
        }
    }

    /// The state with another record of a client, if it is connected.
    pub open spec fn with_client(
        self,
        client: u64,
        record: crate::client::ClientView,
    ) -> StateView {
        if self.clients.dom().contains(client) {
            StateView { clients: self.clients.insert(client, record), ..self }
        } else {
            self
        }
    }

    /// The state at the close of a window.
    pub open spec fn rolled(self) -> StateView {
        StateView {
            sources: self.sources.map_values(
                |s: SourceView| SourceView { stats: s.stats.rolled(), ..s },
            ),
            ..self
        }
    }
}

/// How many windows in a row the first source with this id has been silent for.
pub open spec fn windows_of(sources: Seq<SourceView>, id: usize) -> u64
    decreases sources.len(),
{
    if sources.len() == 0 {
        0
    } else if sources[0].id == id {
        sources[0].stats.silent_windows
    } else {
        windows_of(sources.skip(1), id)
    }
}

/// The entries after the loss of several sources, one after the other.
pub open spec fn resynced_all(
    subs: Map<crate::key::Key, crate::entry::EntryView>,
    ids: Seq<usize>,
) -> Map<crate::key::Key, crate::entry::EntryView>
    decreases ids.len(),
{
    if ids.len() == 0 {
        subs
    } else {
        resynced(resynced_all(subs, ids.drop_last()), ids.last())
    }
}

/// What to do about a source that is silent while others deliver.
pub struct Silence {
    pub source: usize,
    /// Snapshots to fetch for the clients that followed it.
    pub work: Vec<(SubKey, u64)>,
    /// Whether its connection is to be bounced. The silence may be a dead node,
    /// or a subscription lost on a socket that stayed up; only the second is
    /// recoverable and nothing here can tell them apart.
    pub reconnect: bool,
}

impl AppState {
    /// Count a frame from the source at position `src`, routed or not.
    pub fn record_packet(&mut self, src: usize)
        requires
            old(self).inv(),
            src < old(self)@.sources.len(),
        ensures
            final(self).inv(),
            final(self)@ == old(self)@.with_stats(src as int, old(self)@.stats(src as int).packet()),
    {
        let ghost before = self@;
        assert(before.sources[src as int] == self.sources@[src as int]@);
        self.sources[src].stats.record_packet();
        proof {
            assert(self@.sources =~= before.sources.update(
                src as int,
                self.sources@[src as int]@,
            ));
            lemma_source_changed(before, self@, src as int);
        }
    }

    /// Count a frame refused for being older than the freshness limit.
    pub fn refuse_old(&mut self, src: usize)
        requires
            old(self).inv(),
            src < old(self)@.sources.len(),
        ensures
            final(self).inv(),
            final(self)@ == old(self)@.with_stats(
                src as int,
                old(self)@.stats(src as int).refused_old(),
            ),
    {
        let ghost before = self@;
        assert(before.sources[src as int] == self.sources@[src as int]@);
        self.sources[src].stats.record_too_old();
        proof {
            assert(self@.sources =~= before.sources.update(
                src as int,
                self.sources@[src as int]@,
            ));
            lemma_source_changed(before, self@, src as int);
        }
    }

    /// Count a frame refused for being stamped in the future.
    pub fn refuse_future(&mut self, src: usize)
        requires
            old(self).inv(),
            src < old(self)@.sources.len(),
        ensures
            final(self).inv(),
            final(self)@ == old(self)@.with_stats(
                src as int,
                old(self)@.stats(src as int).refused_future(),
            ),
    {
        let ghost before = self@;
        assert(before.sources[src as int] == self.sources@[src as int]@);
        self.sources[src].stats.record_from_future();
        proof {
            assert(self@.sources =~= before.sources.update(
                src as int,
                self.sources@[src as int]@,
            ));
            lemma_source_changed(before, self@, src as int);
        }
    }

    /// The source at position `src` has connected. Returns the requests that
    /// subscribe it to everything currently live.
    pub fn source_connected(&mut self, src: usize) -> (r: Vec<String>)
        requires
            old(self).inv(),
            src < old(self)@.sources.len(),
        ensures
            final(self).inv(),
            final(self)@ == old(self)@.with_stats(
                src as int,
                old(self)@.stats(src as int).came_up(),
            ),
            is_asked(crate::entry::texts(r@), old(self)@.subs),
    {
        let ghost before = self@;
        assert(before.sources[src as int] == self.sources@[src as int]@);
        self.sources[src].stats.record_connect();
        proof {
            assert(self@.sources =~= before.sources.update(
                src as int,
                self.sources@[src as int]@,
            ));
            lemma_source_changed(before, self@, src as int);
        }
        self.subscribed_requests()
    }

    /// The source at position `src` has lost its connection. Whoever followed an
    /// incremental stream that it was leading now has an incomplete book and must be
    /// rebuilt from a fresh snapshot: returns whom.
    pub fn source_lost(&mut self, src: usize) -> (work: Vec<(SubKey, u64)>)
        requires
            old(self).inv(),
            src < old(self)@.sources.len(),
        ensures
            final(self).inv(),
            final(self)@ == old(self)@.without_connection(src as int),
            is_rebuilt(jobs(work@), old(self)@.subs, old(self)@.sources[src as int].id),
    {
        let ghost before = self@;
        assert(before.sources[src as int] == self.sources@[src as int]@);
        let id = self.sources[src].id;
        self.sources[src].stats.record_disconnect();
        proof {
            assert(self@.sources =~= before.sources.update(
                src as int,
                self.sources@[src as int]@,
            ));
            lemma_source_changed(before, self@, src as int);
        }
        self.resync_after_source_loss(id)
    }

    /// Close a window on every source.
    fn roll_windows(&mut self)
        requires
            old(self).inv(),
        ensures
            final(self).inv(),
            final(self)@ == old(self)@.rolled(),
    {
        let ghost before = self@;
        let ghost rolled = before.rolled().sources;
        let mut i: usize = 0;
        assert(before.sources =~= rolled.take(0) + before.sources.skip(0));
        while i < self.sources.len()
            invariant
                i <= self.sources.len(),
                self.sources@.len() == before.sources.len(),
                self.inv(),
                rolled == before.rolled().sources,
                self@ == (StateView {
                    sources: rolled.take(i as int) + before.sources.skip(i as int),
                    ..before
                }),
            decreases self.sources.len() - i,
        {
            let ghost mid = self@;
            assert(mid.sources[i as int] == self.sources@[i as int]@);
            assert(mid.sources[i as int] == before.sources[i as int]);
            self.sources[i].stats.roll_window();
            proof {
                assert(self@.sources =~= mid.sources.update(i as int, self.sources@[i as int]@));
                lemma_source_changed(mid, self@, i as int);
                assert(self@.sources =~= rolled.take(i + 1) + before.sources.skip(i + 1));
            }
            i = i + 1;
        }
        assert(self@.sources =~= rolled);
    }

    /// How many windows in a row the first source with this id has been silent.
    fn silent_for(&self, id: usize) -> (w: u64)
        ensures
            w == windows_of(self@.sources, id),
    {
        let ghost all = self@.sources;
        let mut i: usize = 0;
        assert(all.skip(0) =~= all);
        while i < self.sources.len()
            invariant
                i <= self.sources.len(),
                all == self.sources@.map_values(|s: Source| s@),
                windows_of(all, id) == windows_of(all.skip(i as int), id),
            decreases self.sources.len() - i,
        {
            assert(all.skip(i as int)[0] == self.sources@[i as int]@);
            if self.sources[i].id == id {
                return self.sources[i].stats.silent_windows();
            }
            assert(all.skip(i as int).skip(1) =~= all.skip(i + 1));
            i = i + 1;
        }
        0
    }

    /// Close a window on every source, and notice sources that have gone quiet
    /// without dropping their socket. Left alone, one that was leading an open
    /// block would strand its clients holding half of it, and one that carried a
    /// stream of whole books would keep every other source off it.
    pub fn tick(&mut self) -> (r: Vec<Silence>)
        requires
            old(self).inv(),
        ensures
            final(self).inv(),
            ticked(old(self)@, r@, final(self)@),
    {
        let ghost before = self@;
        self.roll_windows();
        let ghost sources = self@.sources;
        let silent = self.silent_sources(crate::stats::SILENCE_LIMIT);
        let ghost ids = silent@;
        let mut r: Vec<Silence> = Vec::new();
        let mut i: usize = 0;
        assert(ids.take(0) =~= seq![]);
        while i < silent.len()
            invariant
                i <= silent.len(),
                ids == silent@,
                self.inv(),
                self@ == (StateView {
                    sources,
                    subs: resynced_all(before.subs, ids.take(i as int)),
                    ..before
                }),
                r@.len() == i,
                forall|j: int|
                    0 <= j < i ==> silence_is(
                        #[trigger] r@[j],
                        ids[j],
                        sources,
                        resynced_all(before.subs, ids.take(j)),
                    ),
            decreases silent.len() - i,
        {
            let id = silent[i];
            let work = self.resync_after_source_loss(id);
            let reconnect = reconnect_due(self.silent_for(id));
            proof {
                assert(ids.take(i + 1).drop_last() =~= ids.take(i as int));
                assert(ids.take(i + 1).last() == id);
            }
            r.push(Silence { source: id, work, reconnect });
            i = i + 1;
        }
        assert(ids.take(ids.len() as int) =~= ids);
        r
    }
}

/// Whether `after` is the state once a window has closed, and `r` what to do about the
/// sources that are silent while others deliver.
pub open spec fn ticked(before: StateView, r: Seq<Silence>, after: StateView) -> bool {
    let sources = before.rolled().sources;
    let ids = odd_ones_out(sources, crate::stats::SILENCE_LIMIT);
    &&& after == (StateView { sources, subs: resynced_all(before.subs, ids), ..before })
    &&& r.len() == ids.len()
    &&& forall|i: int|
        0 <= i < r.len() ==> silence_is(
            #[trigger] r[i],
            ids[i],
            sources,
            resynced_all(before.subs, ids.take(i)),
        )
}

/// Whether `s` says what to do about the silence of source `id`, given the
/// entries as they were when its turn came.
pub open spec fn silence_is(
    s: Silence,
    id: usize,
    sources: Seq<SourceView>,
    subs: Map<crate::key::Key, crate::entry::EntryView>,
) -> bool {
    &&& s.source == id
    &&& s.reconnect == bounce_due(windows_of(sources, id))
    &&& is_rebuilt(jobs(s.work@), subs, id)
}

// ---------------------------------------------------------------------------
// What leaves the state, and what is counted on the way out
// ---------------------------------------------------------------------------

/// Whether a client that could not take a frame must be hung up on: a hole in a stream
/// of increments is permanent.
pub open spec fn must_hang_up(incremental: bool) -> bool {
    incremental
}

impl AppState {
    /// Take the requests that every source is to be sent now.
    pub fn take_ctrl(&mut self) -> (r: Vec<String>)
        requires
            old(self).inv(),
        ensures
            final(self).inv(),
            crate::entry::texts(r@) == old(self)@.outbox,
            final(self)@ == old(self)@.emptied(),
    {
        let ghost before = self@;
        let mut r: Vec<String> = Vec::new();
        core::mem::swap(&mut r, &mut self.outbox);
        proof {
            assert(self@.outbox =~= seq![]);
            lemma_outbox_changed(before, self@);
        }
        r
    }

    /// Count bytes of payload sent to a client.
    pub fn sent(&mut self, client: u64, bytes: u64)
        requires
            old(self).inv(),
        ensures
            final(self).inv(),
            final(self)@ == old(self)@.with_client(
                client,
                old(self)@.clients[client].with_sent(bytes),
            ),
    {
        let ghost before = self@;
        match self.take_client(client) {
            Some(mut c) => {
                c.count_sent(bytes);
                self.put_client(client, c);
                proof {
                    assert(self@.clients =~= before.clients.insert(client, c@));
                    lemma_client_changed(before, self@, client);
                }
            },
            None => {
                assert(self@.clients =~= before.clients);
            },
        }
    }

    /// A client's queue had no room for a frame. On a self-contained channel the
    /// frame is dropped and counted; on an incremental one a hole is permanent,
    /// so the client must be hung up on as well. Returns whether it must.
    pub fn queue_full(&mut self, client: u64, incremental: bool) -> (hang_up: bool)
        requires
            old(self).inv(),
        ensures
            final(self).inv(),
            hang_up == must_hang_up(incremental),
            final(self)@ == old(self)@.with_client(
                client,
                old(self)@.clients[client].with_dropped(),
            ),
    {
        let ghost before = self@;
        match self.take_client(client) {
            Some(mut c) => {
                c.count_dropped();
                self.put_client(client, c);
                proof {
                    assert(self@.clients =~= before.clients.insert(client, c@));
                    lemma_client_changed(before, self@, client);
                }
            },
            None => {
                assert(self@.clients =~= before.clients);
            },
        }
        incremental
    }

    /// The connected clients, in whatever order.
    pub fn client_ids(&self) -> (r: Vec<u64>)
        ensures
            r@.no_duplicates(),
            forall|id: u64| #[trigger] r@.contains(id) <==> self@.clients.dom().contains(id),
    {
        registry::clients_ids(&self.clients)
    }

    /// A copy of a client's record.
    pub fn client(&self, id: u64) -> (r: Option<Client>)
        ensures
            r is Some <==> self@.clients.dom().contains(id),
            r matches Some(c) ==> c@ == self@.clients[id],
    {
        registry::clients_get(&self.clients, id)
    }

    /// The oldest block time that is still forwarded, in milliseconds back.
    pub fn max_age(&self) -> (r: Option<u64>)
        ensures
            r == self@.max_age,
    {
        self.max_age
    }

    /// The id that the next client will get.
    pub fn next_client_id(&self) -> (id: u64)
        ensures
            id == self@.next_client_id,
    {
        self.next_client_id
    }
}

proof fn lemma_outbox_changed(before: StateView, after: StateView)
    requires
        before.wf(),
        after == (StateView { outbox: after.outbox, ..before }),
    ensures
        after.wf(),
{
    assert forall|k: crate::key::Key, c: u64|
        after.subs.dom().contains(k) && #[trigger] after.subs[k].has(c) implies after.linked(
        k,
        c,
    ) by {
        assert(before.subs[k].has(c));
        assert(before.linked(k, c));
    }
}

proof fn lemma_client_changed(before: StateView, after: StateView, client: u64)
    requires
        before.wf(),
        before.clients.dom().contains(client),
        after == (StateView {
            clients: before.clients.insert(client, after.clients[client]),
            ..before
        }),
        after.clients[client].id == client,
        after.clients[client].subscriptions == before.clients[client].subscriptions,
    ensures
        after.wf(),
{
    assert forall|k: crate::key::Key, c: u64|
        after.subs.dom().contains(k) && #[trigger] after.subs[k].has(c) implies after.linked(
        k,
        c,
    ) by {
        assert(before.subs[k].has(c));
        assert(before.linked(k, c));
    }
}

} // verus!
