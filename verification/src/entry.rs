//! One subscription: its race, the clients that follow it, and the clients that
//! wait for a snapshot before they may.

use crate::arbitration::{Race, Ruling, Stamp};
use vstd::prelude::*;

verus! {

/// Cap on what is held back for one client awaiting its snapshot, in bytes of
/// payload.
pub const PENDING_MAX_BYTES: usize = 67108864;

// ---------------------------------------------------------------------------
// Parked clients
// ---------------------------------------------------------------------------

/// A frame held back: its stamp and its text.
struct Held {
    stamp: u64,
    payload: String,
}

/// A client waiting for its own snapshot before it may join an incremental
/// stream. Live frames pile up here meanwhile so that nothing is lost between
/// the snapshot's height and the moment the client is attached.
pub struct Pending {
    client: u64,
    held: Vec<Held>,
    bytes: usize,
}

/// What a `Pending` denotes: who waits, and the frames held back, oldest first.
#[verifier::ext_equal]
pub ghost struct PendingView {
    pub client: u64,
    pub held: Seq<(u64, Seq<char>)>,
}

/// The size of a text in bytes.
pub open spec fn byte_len(s: Seq<char>) -> nat {
    vstd::utf8::encode_utf8(s).len()
}

/// The payload bytes of a sequence of frames.
pub open spec fn total_bytes(held: Seq<(u64, Seq<char>)>) -> nat
    decreases held.len(),
{
    if held.len() == 0 {
        0
    } else {
        total_bytes(held.drop_last()) + byte_len(held.last().1)
    }
}

/// The texts of the frames stamped above `height`, in order.
pub open spec fn above(held: Seq<(u64, Seq<char>)>, height: u64) -> Seq<Seq<char>>
    decreases held.len(),
{
    if held.len() == 0 {
        seq![]
    } else if held.last().0 > height {
        above(held.drop_last(), height).push(held.last().1)
    } else {
        above(held.drop_last(), height)
    }
}

/// What a waiting client is handed with a snapshot taken at `height`: the snapshot, and
/// then what was held back above it.
pub open spec fn handed_over(
    held: Seq<(u64, Seq<char>)>,
    height: u64,
    snapshot: Seq<char>,
) -> Seq<Seq<char>> {
    seq![snapshot] + above(held, height)
}

impl View for Pending {
    type V = PendingView;

    closed spec fn view(&self) -> PendingView {
        PendingView {
            client: self.client,
            held: self.held@.map_values(|h: Held| (h.stamp, h.payload@)),
        }
    }
}

impl PendingView {
    /// A client just parked.
    pub open spec fn empty(client: u64) -> PendingView {
        PendingView { client, held: seq![] }
    }

    /// One more frame held back.
    pub open spec fn holding(self, stamp: u64, payload: Seq<char>) -> PendingView {
        PendingView { held: self.held.push((stamp, payload)), ..self }
    }

    /// Whether the backlog is within the cap.
    pub open spec fn fits(self) -> bool {
        total_bytes(self.held) <= PENDING_MAX_BYTES
    }
}

impl Pending {
    /// The running total is right and within the cap.
    closed spec fn inv(&self) -> bool {
        self.bytes == total_bytes(self@.held) && self.bytes <= PENDING_MAX_BYTES
    }

    fn new(client: u64) -> (p: Pending)
        ensures
            p@ == PendingView::empty(client),
            p.inv(),
    {
        let p = Pending { client, held: Vec::new(), bytes: 0 };
        assert(p@.held =~= seq![]);
        p
    }

    /// Hold one more frame back, unless the backlog outgrows the cap.
    fn hold(&mut self, stamp: u64, payload: &str) -> (fits: bool)
        requires
            old(self).inv(),
        ensures
            fits == old(self)@.holding(stamp, payload@).fits(),
            fits ==> final(self)@ == old(self)@.holding(stamp, payload@),
            fits ==> final(self).inv(),
            final(self)@.client == old(self)@.client,
    {
        let ghost before = self@;
        let n = payload.as_bytes().len();
        assert(before.holding(stamp, payload@).held.drop_last() =~= before.held);
        if n > PENDING_MAX_BYTES - self.bytes {
            return false;
        }
        self.bytes = self.bytes + n;
        self.held.push(Held { stamp, payload: payload.to_owned() });
        assert(self@.held =~= before.holding(stamp, payload@).held);
        true
    }
}

/// The parked clients after a frame has been held back for each of them, without
/// those whose backlog outgrew the cap.
pub open spec fn kept(pending: Seq<PendingView>, stamp: u64, payload: Seq<char>) -> Seq<PendingView>
    decreases pending.len(),
{
    if pending.len() == 0 {
        seq![]
    } else {
        let p = pending.last().holding(stamp, payload);
        if p.fits() {
            kept(pending.drop_last(), stamp, payload).push(p)
        } else {
            kept(pending.drop_last(), stamp, payload)
        }
    }
}

/// The parked clients whose backlog a frame makes outgrow the cap.
pub open spec fn evicted(pending: Seq<PendingView>, stamp: u64, payload: Seq<char>) -> Seq<u64>
    decreases pending.len(),
{
    if pending.len() == 0 {
        seq![]
    } else {
        let p = pending.last().holding(stamp, payload);
        if p.fits() {
            evicted(pending.drop_last(), stamp, payload)
        } else {
            evicted(pending.drop_last(), stamp, payload).push(p.client)
        }
    }
}

/// `clients` without `client`.
pub open spec fn without(clients: Seq<u64>, client: u64) -> Seq<u64>
    decreases clients.len(),
{
    if clients.len() == 0 {
        seq![]
    } else if clients.last() == client {
        without(clients.drop_last(), client)
    } else {
        without(clients.drop_last(), client).push(clients.last())
    }
}

/// The parked clients other than `client`.
pub open spec fn parked_without(pending: Seq<PendingView>, client: u64) -> Seq<PendingView>
    decreases pending.len(),
{
    if pending.len() == 0 {
        seq![]
    } else if pending.last().client == client {
        parked_without(pending.drop_last(), client)
    } else {
        parked_without(pending.drop_last(), client).push(pending.last())
    }
}

/// The clients that are parked, in the order in which they were.
pub open spec fn parked_ids(pending: Seq<PendingView>) -> Seq<u64> {
    pending.map_values(|p: PendingView| p.client)
}

/// Clients just parked, one after the other.
pub open spec fn newly_parked(clients: Seq<u64>) -> Seq<PendingView> {
    clients.map_values(|c: u64| PendingView::empty(c))
}

// ---------------------------------------------------------------------------
// Entries
// ---------------------------------------------------------------------------

/// Per-subscription arbitration state and the clients subscribed to it.
pub struct SubEntry {
    race: Race,
    /// Whether the upstream sources have been asked for this.
    upstream_subscribed: bool,
    subscribers: Vec<u64>,
    /// Held open with no subscribers, as a permanent latency probe.
    pinned: bool,
    /// Clients held back until their snapshot arrives.
    pending: Vec<Pending>,
}

/// What a `SubEntry` denotes.
#[verifier::ext_equal]
pub ghost struct EntryView {
    pub race: crate::arbitration::RaceView,
    pub upstream_subscribed: bool,
    pub subscribers: Seq<u64>,
    pub pinned: bool,
    pub pending: Seq<PendingView>,
}

impl View for SubEntry {
    type V = EntryView;

    closed spec fn view(&self) -> EntryView {
        EntryView {
            race: self.race@,
            upstream_subscribed: self.upstream_subscribed,
            subscribers: self.subscribers@,
            pinned: self.pinned,
            pending: self.pending@.map_values(|p: Pending| p@),
        }
    }
}

impl EntryView {
    /// An entry nobody has asked for yet.
    pub open spec fn fresh(now: u64) -> EntryView {
        EntryView {
            race: crate::arbitration::RaceView::fresh(now),
            upstream_subscribed: false,
            subscribers: seq![],
            pinned: false,
            pending: seq![],
        }
    }

    /// Whether `client` follows the stream.
    pub open spec fn follows(self, client: u64) -> bool {
        self.subscribers.contains(client)
    }

    /// Whether `client` waits for a snapshot.
    pub open spec fn waits(self, client: u64) -> bool {
        parked_ids(self.pending).contains(client)
    }

    /// Whether `client` is attached in either way.
    pub open spec fn has(self, client: u64) -> bool {
        self.follows(client) || self.waits(client)
    }

    /// Nobody is listed twice, nobody both follows and waits, no backlog is over
    /// the cap, and whatever somebody listens to is asked for upstream.
    pub open spec fn wf(self) -> bool {
        &&& self.race.wf()
        &&& self.subscribers.no_duplicates()
        &&& parked_ids(self.pending).no_duplicates()
        &&& forall|c: u64| !(#[trigger] self.follows(c) && self.waits(c))
        &&& forall|i: int| 0 <= i < self.pending.len() ==> (#[trigger] self.pending[i]).fits()
        &&& self.subscribers.len() > 0 || self.pending.len() > 0 || self.pinned
            ==> self.upstream_subscribed
    }

    /// The ruling on a frame.
    pub open spec fn ruling(self, id: usize, stamp: Stamp, now: u64, open_reset: bool) -> Ruling {
        self.race.judged(id, stamp, now, open_reset).1
    }

    /// The entry after a frame: the race moves on, and a frame that goes out is
    /// held back for everybody who waits.
    pub open spec fn after_frame(
        self,
        id: usize,
        stamp: Stamp,
        payload: Seq<char>,
        now: u64,
        open_reset: bool,
    ) -> EntryView {
        let (race, ruling) = self.race.judged(id, stamp, now, open_reset);
        EntryView {
            race,
            pending: if ruling.delivers() {
                kept(self.pending, stamp.value(), payload)
            } else {
                self.pending
            },
            ..self
        }
    }

    /// Who is sent a frame directly.
    pub open spec fn recipients(
        self,
        id: usize,
        stamp: Stamp,
        now: u64,
        open_reset: bool,
    ) -> Seq<u64> {
        if self.ruling(id, stamp, now, open_reset).delivers() {
            self.subscribers
        } else {
            seq![]
        }
    }

    /// Whose backlog a frame makes outgrow the cap.
    pub open spec fn overflowed(
        self,
        id: usize,
        stamp: Stamp,
        payload: Seq<char>,
        now: u64,
        open_reset: bool,
    ) -> Seq<u64> {
        if self.ruling(id, stamp, now, open_reset).delivers() {
            evicted(self.pending, stamp.value(), payload)
        } else {
            seq![]
        }
    }

    /// The entry after `client` has subscribed: it waits on an incremental
    /// stream that is already running, and follows at once otherwise.
    pub open spec fn joined(self, client: u64, incremental: bool) -> EntryView {
        if self.upstream_subscribed && incremental {
            EntryView {
                pending: if self.waits(client) {
                    self.pending
                } else {
                    self.pending.push(PendingView::empty(client))
                },
                ..self
            }
        } else {
            EntryView {
                subscribers: if self.follows(client) {
                    self.subscribers
                } else {
                    self.subscribers.push(client)
                },
                upstream_subscribed: true,
                ..self
            }
        }
    }

    /// The entry without `client`.
    pub open spec fn left(self, client: u64) -> EntryView {
        EntryView {
            subscribers: without(self.subscribers, client),
            pending: parked_without(self.pending, client),
            ..self
        }
    }

    /// Whether the upstream need no longer be asked for this.
    pub open spec fn abandoned(self) -> bool {
        self.subscribers.len() == 0 && self.pending.len() == 0 && self.upstream_subscribed
            && !self.pinned
    }

    /// The backlog of a client that waits.
    pub open spec fn backlog(self, client: u64) -> Seq<(u64, Seq<char>)> {
        self.pending[parked_ids(self.pending).index_of(client)].held
    }

    /// The entry once a waiting client has its snapshot.
    pub open spec fn attached(self, client: u64) -> EntryView {
        EntryView {
            subscribers: self.subscribers.push(client),
            pending: self.pending.remove(parked_ids(self.pending).index_of(client)),
            ..self
        }
    }

    /// The entry once a waiting client has been given up on.
    pub open spec fn given_up(self, client: u64) -> EntryView {
        EntryView {
            pending: self.pending.remove(parked_ids(self.pending).index_of(client)),
            ..self
        }
    }

    /// The entry once the source that led it is gone: all who followed it wait.
    pub open spec fn orphaned(self, id: usize) -> EntryView {
        EntryView {
            race: self.race.orphaned(id),
            subscribers: seq![],
            pending: self.pending + newly_parked(self.subscribers),
            ..self
        }
    }

    /// The entry once the source that carried its whole books is gone: nobody
    /// carries it, and all who followed it still do.
    pub open spec fn released(self) -> EntryView {
        EntryView { race: self.race.released(), ..self }
    }
}

// ---------------------------------------------------------------------------
// Lists of clients
// ---------------------------------------------------------------------------

proof fn lemma_kept(pending: Seq<PendingView>, stamp: u64, payload: Seq<char>)
    requires
        parked_ids(pending).no_duplicates(),
    ensures
        parked_ids(kept(pending, stamp, payload)).no_duplicates(),
        forall|c: u64| #[trigger]
            parked_ids(kept(pending, stamp, payload)).contains(c) ==> parked_ids(pending).contains(
                c,
            ),
        forall|i: int|
            0 <= i < kept(pending, stamp, payload).len() ==> (#[trigger] kept(
                pending,
                stamp,
                payload,
            )[i]).fits(),
        kept(pending, stamp, payload).len() <= pending.len(),
    decreases pending.len(),
{
    if pending.len() > 0 {
        let rest = pending.drop_last();
        assert(parked_ids(rest) =~= parked_ids(pending).drop_last());
        lemma_kept(rest, stamp, payload);
        let p = pending.last().holding(stamp, payload);
        let k = kept(rest, stamp, payload);
        assert(parked_ids(k.push(p)) =~= parked_ids(k).push(p.client));
        assert(parked_ids(pending).last() == p.client);
        assert(!parked_ids(rest).contains(p.client));
        assert(!parked_ids(k).contains(p.client));
        assert forall|c: u64| #[trigger]
            parked_ids(kept(pending, stamp, payload)).contains(c) implies parked_ids(
            pending,
        ).contains(c) by {
            if c == p.client {
                assert(parked_ids(pending)[pending.len() - 1] == c);
            } else {
                if p.fits() {
                    let i = parked_ids(k).push(p.client).index_of(c);
                    assert(parked_ids(k)[i] == c);
                    assert(parked_ids(k).contains(c));
                }
                assert(parked_ids(rest).contains(c));
                let j = parked_ids(rest).index_of(c);
                assert(parked_ids(pending)[j] == c);
            }
        }
    }
}

/// A client is removed, the others stay, and nobody is listed twice.
pub proof fn lemma_without(clients: Seq<u64>, client: u64)
    ensures
        forall|c: u64| #[trigger]
            without(clients, client).contains(c) <==> clients.contains(c) && c != client,
        clients.no_duplicates() ==> without(clients, client).no_duplicates(),
    decreases clients.len(),
{
    if clients.len() > 0 {
        let rest = clients.drop_last();
        lemma_without(rest, client);
        let w = without(rest, client);
        assert forall|c: u64| #[trigger]
            without(clients, client).contains(c) <==> clients.contains(c) && c != client by {
            if clients.contains(c) && c != client {
                let i = clients.index_of(c);
                if i < rest.len() {
                    assert(rest[i] == c);
                    assert(w.contains(c));
                    let j = w.index_of(c);
                    if clients.last() != client {
                        assert(w.push(clients.last())[j] == c);
                    }
                } else {
                    assert(w.push(clients.last())[w.len() as int] == c);
                }
            }
            if without(clients, client).contains(c) {
                if clients.last() != client {
                    let j = without(clients, client).index_of(c);
                    if j < w.len() {
                        assert(w[j] == c);
                        assert(w.contains(c));
                    }
                } else {
                    assert(w.contains(c));
                }
                if w.contains(c) {
                    let i = rest.index_of(c);
                    assert(clients[i] == c);
                }
            }
        }
        if clients.no_duplicates() {
            assert(!rest.contains(clients.last()));
            assert(!w.contains(clients.last()));
        }
    } else {
        assert(without(clients, client) =~= seq![]);
    }
}

proof fn lemma_parked_without(pending: Seq<PendingView>, client: u64)
    ensures
        parked_ids(parked_without(pending, client)) == without(parked_ids(pending), client),
        forall|i: int|
            0 <= i < parked_without(pending, client).len() ==> pending.contains(
                #[trigger] parked_without(pending, client)[i],
            ),
    decreases pending.len(),
{
    if pending.len() > 0 {
        let rest = pending.drop_last();
        lemma_parked_without(rest, client);
        assert(parked_ids(pending).drop_last() =~= parked_ids(rest));
        assert(parked_ids(parked_without(pending, client)) =~= without(
            parked_ids(pending),
            client,
        ));
        assert forall|i: int|
            0 <= i < parked_without(pending, client).len() implies pending.contains(
            #[trigger] parked_without(pending, client)[i],
        ) by {
            let x = parked_without(pending, client)[i];
            if i < parked_without(rest, client).len() {
                assert(x == parked_without(rest, client)[i]);
                assert(rest.contains(x));
                let j = rest.index_of(x);
                assert(pending[j] == x);
            } else {
                assert(pending[pending.len() - 1] == x);
            }
        }
    } else {
        assert(parked_ids(parked_without(pending, client)) =~= without(
            parked_ids(pending),
            client,
        ));
    }
}

impl EntryView {
    /// A frame leaves an entry well formed.
    pub proof fn lemma_after_frame_wf(
        self,
        id: usize,
        stamp: Stamp,
        payload: Seq<char>,
        now: u64,
        open_reset: bool,
    )
        requires
            self.wf(),
        ensures
            self.after_frame(id, stamp, payload, now, open_reset).wf(),
            forall|c: u64| #[trigger]
                self.after_frame(id, stamp, payload, now, open_reset).has(c) ==> self.has(c),
    {
        lemma_kept(self.pending, stamp.value(), payload);
        let after = self.after_frame(id, stamp, payload, now, open_reset);
        assert forall|c: u64| !(#[trigger] after.follows(c) && after.waits(c)) by {
            assert(after.follows(c) == self.follows(c));
            assert(after.waits(c) ==> self.waits(c));
        }
        assert forall|c: u64| #[trigger] after.has(c) implies self.has(c) by {
            assert(after.follows(c) == self.follows(c));
            assert(after.waits(c) ==> self.waits(c));
        }
        assert(after.race.wf());
    }

    /// A client that leaves leaves an entry well formed, and is gone from it.
    pub proof fn lemma_left_wf(self, client: u64)
        requires
            self.wf(),
        ensures
            self.left(client).wf(),
            forall|c: u64| #[trigger] self.left(client).has(c) <==> self.has(c) && c != client,
    {
        lemma_without(self.subscribers, client);
        lemma_without(parked_ids(self.pending), client);
        lemma_parked_without(self.pending, client);
        let after = self.left(client);
        assert forall|c: u64| #[trigger] after.has(c) <==> self.has(c) && c != client by {
            assert(after.follows(c) <==> self.follows(c) && c != client);
            assert(after.waits(c) <==> self.waits(c) && c != client);
        }
        assert forall|c: u64| !(#[trigger] after.follows(c) && after.waits(c)) by {
            assert(after.follows(c) ==> self.follows(c));
            assert(after.waits(c) ==> self.waits(c));
        }
        assert forall|i: int| 0 <= i < after.pending.len() implies (
        #[trigger] after.pending[i]).fits() by {
            assert(self.pending.contains(after.pending[i]));
            let j = self.pending.index_of(after.pending[i]);
            assert(self.pending[j].fits());
        }
        if after.subscribers.len() > 0 {
            assert(after.subscribers.contains(after.subscribers[0]));
            assert(self.subscribers.contains(after.subscribers[0]));
        }
        if after.pending.len() > 0 {
            assert(self.pending.contains(after.pending[0]));
        }
    }

    /// A client that joins leaves an entry well formed, and is in it.
    pub proof fn lemma_joined_wf(self, client: u64, incremental: bool)
        requires
            self.wf(),
            !self.has(client),
        ensures
            self.joined(client, incremental).wf(),
            forall|c: u64| #[trigger]
                self.joined(client, incremental).has(c) <==> self.has(c) || c == client,
    {
        let after = self.joined(client, incremental);
        if self.upstream_subscribed && incremental {
            let p = PendingView::empty(client);
            assert(parked_ids(self.pending.push(p)) =~= parked_ids(self.pending).push(client));
            assert forall|c: u64| #[trigger] after.has(c) <==> self.has(c) || c == client by {
                lemma_push_contains(parked_ids(self.pending), client, c);
                assert(after.follows(c) == self.follows(c));
            }
            assert forall|c: u64| !(#[trigger] after.follows(c) && after.waits(c)) by {
                lemma_push_contains(parked_ids(self.pending), client, c);
                assert(after.follows(c) == self.follows(c));
                assert(!(self.follows(c) && self.waits(c)));
            }
        } else {
            assert forall|c: u64| #[trigger] after.has(c) <==> self.has(c) || c == client by {
                lemma_push_contains(self.subscribers, client, c);
                assert(after.waits(c) == self.waits(c));
            }
            assert forall|c: u64| !(#[trigger] after.follows(c) && after.waits(c)) by {
                lemma_push_contains(self.subscribers, client, c);
                assert(after.waits(c) == self.waits(c));
                assert(!(self.follows(c) && self.waits(c)));
            }
        }
    }

    /// A client that has its snapshot follows, and no longer waits.
    pub proof fn lemma_attached_wf(self, client: u64)
        requires
            self.wf(),
            self.waits(client),
        ensures
            self.attached(client).wf(),
            self.attached(client).follows(client),
            forall|c: u64| #[trigger] self.attached(client).has(c) <==> self.has(c),
    {
        let ids = parked_ids(self.pending);
        let at = ids.index_of(client);
        let after = self.attached(client);
        assert(parked_ids(after.pending) =~= ids.remove(at));
        assert forall|c: u64| #[trigger] after.waits(c) <==> self.waits(c) && c != client by {
            lemma_remove_contains(ids, at, c);
        }
        assert(!self.follows(client)) by {
            assert(!(self.follows(client) && self.waits(client)));
        }
        assert forall|c: u64| #[trigger] after.follows(c) <==> self.follows(c) || c == client by {
            lemma_push_contains(self.subscribers, client, c);
        }
        assert forall|c: u64| #[trigger] after.has(c) <==> self.has(c) by {
            assert(after.follows(c) <==> self.follows(c) || c == client);
            assert(after.waits(c) <==> self.waits(c) && c != client);
        }
        assert forall|c: u64| !(#[trigger] after.follows(c) && after.waits(c)) by {
            assert(after.follows(c) <==> self.follows(c) || c == client);
            assert(after.waits(c) <==> self.waits(c) && c != client);
            assert(!(self.follows(c) && self.waits(c)));
        }
        assert(after.subscribers.no_duplicates()) by {
            assert(!self.subscribers.contains(client));
        }
        assert forall|i: int| 0 <= i < after.pending.len() implies (
        #[trigger] after.pending[i]).fits() by {
            if i < at {
                assert(after.pending[i] == self.pending[i]);
            } else {
                assert(after.pending[i] == self.pending[i + 1]);
            }
        }
        assert(self.pending.len() > 0);
    }

    /// A client that is given up on is gone.
    pub proof fn lemma_given_up_wf(self, client: u64)
        requires
            self.wf(),
            self.waits(client),
        ensures
            self.given_up(client).wf(),
            forall|c: u64| #[trigger]
                self.given_up(client).has(c) <==> self.has(c) && c != client,
    {
        let ids = parked_ids(self.pending);
        let at = ids.index_of(client);
        let after = self.given_up(client);
        assert(parked_ids(after.pending) =~= ids.remove(at));
        assert forall|c: u64| #[trigger] after.waits(c) <==> self.waits(c) && c != client by {
            lemma_remove_contains(ids, at, c);
        }
        assert forall|c: u64| #[trigger] after.has(c) <==> self.has(c) && c != client by {
            assert(after.follows(c) == self.follows(c));
            assert(after.waits(c) <==> self.waits(c) && c != client);
            assert(!(self.follows(client) && self.waits(client)));
        }
        assert forall|c: u64| !(#[trigger] after.follows(c) && after.waits(c)) by {
            assert(after.follows(c) == self.follows(c));
            assert(after.waits(c) ==> self.waits(c));
        }
        assert forall|i: int| 0 <= i < after.pending.len() implies (
        #[trigger] after.pending[i]).fits() by {
            if i < at {
                assert(after.pending[i] == self.pending[i]);
            } else {
                assert(after.pending[i] == self.pending[i + 1]);
            }
        }
        assert(self.pending.len() > 0);
    }

    /// When the stream is let go of everybody stays where it is.
    pub proof fn lemma_released_wf(self)
        requires
            self.wf(),
        ensures
            self.released().wf(),
            forall|c: u64| #[trigger] self.released().follows(c) <==> self.follows(c),
            forall|c: u64| #[trigger] self.released().waits(c) <==> self.waits(c),
            forall|c: u64| #[trigger] self.released().has(c) <==> self.has(c),
    {
        let after = self.released();
        assert forall|c: u64| !(#[trigger] after.follows(c) && after.waits(c)) by {
            assert(self.follows(c) == after.follows(c));
            assert(self.waits(c) == after.waits(c));
        }
        assert forall|c: u64| #[trigger] after.has(c) <==> self.has(c) by {
            assert(self.follows(c) == after.follows(c));
        }
    }

    /// When the leader is lost everybody waits, nobody is lost.
    pub proof fn lemma_orphaned_wf(self, id: usize)
        requires
            self.wf(),
        ensures
            self.orphaned(id).wf(),
            forall|c: u64| #[trigger] self.orphaned(id).has(c) <==> self.has(c),
            forall|c: u64| self.has(c) <==> #[trigger] self.orphaned(id).waits(c),
    {
        let after = self.orphaned(id);
        let ids = parked_ids(self.pending);
        assert(parked_ids(newly_parked(self.subscribers)) =~= self.subscribers);
        assert(parked_ids(after.pending) =~= ids + self.subscribers);
        assert forall|c: u64| self.has(c) <==> #[trigger] after.waits(c) by {
            if self.follows(c) {
                let i = self.subscribers.index_of(c);
                assert((ids + self.subscribers)[ids.len() + i] == c);
            }
            if self.waits(c) {
                let i = ids.index_of(c);
                assert((ids + self.subscribers)[i] == c);
            }
        }
        assert forall|c: u64| !#[trigger] after.follows(c) by {}
        assert forall|c: u64| #[trigger] after.has(c) <==> self.has(c) by {
            assert(after.follows(c) || !after.follows(c));
            assert(self.has(c) <==> after.waits(c));
        }
        assert((ids + self.subscribers).no_duplicates()) by {
            assert forall|i: int, j: int|
                0 <= i < ids.len() && 0 <= j < self.subscribers.len() implies ids[i]
                != self.subscribers[j] by {
                assert(self.follows(self.subscribers[j]));
                assert(ids.contains(ids[i]));
                assert(!(self.follows(ids[i]) && self.waits(ids[i])));
            }
        }
        assert forall|i: int| 0 <= i < after.pending.len() implies (
        #[trigger] after.pending[i]).fits() by {
            if i < self.pending.len() {
                assert(after.pending[i] == self.pending[i]);
            } else {
                assert(after.pending[i].held =~= seq![]);
            }
        }
    }
}

proof fn lemma_push_contains(s: Seq<u64>, x: u64, c: u64)
    ensures
        s.push(x).contains(c) <==> s.contains(c) || c == x,
{
    if s.contains(c) {
        let i = s.index_of(c);
        assert(s.push(x)[i] == c);
    }
    if c == x {
        assert(s.push(x)[s.len() as int] == c);
    }
    if s.push(x).contains(c) && c != x {
        let i = s.push(x).index_of(c);
        assert(s[i] == c);
    }
}

proof fn lemma_remove_contains(s: Seq<u64>, at: int, c: u64)
    requires
        s.no_duplicates(),
        0 <= at < s.len(),
    ensures
        s.remove(at).contains(c) <==> s.contains(c) && c != s[at],
        s.remove(at).no_duplicates(),
{
    if s.contains(c) && c != s[at] {
        let i = s.index_of(c);
        if i < at {
            assert(s.remove(at)[i] == c);
        } else {
            assert(s.remove(at)[i - 1] == c);
        }
    }
    if s.remove(at).contains(c) {
        let i = s.remove(at).index_of(c);
        if i < at {
            assert(s[i] == c);
        } else {
            assert(s[i + 1] == c);
        }
    }
}

// ---------------------------------------------------------------------------
// Operations
// ---------------------------------------------------------------------------

/// The texts of a backlog.
pub open spec fn texts(v: Seq<String>) -> Seq<Seq<char>> {
    v.map_values(|s: String| s@)
}

fn copy_ids(ids: &Vec<u64>) -> (r: Vec<u64>)
    ensures
        r@ == ids@,
{
    let mut r: Vec<u64> = Vec::new();
    let mut i: usize = 0;
    while i < ids.len()
        invariant
            i <= ids.len(),
            r@ == ids@.take(i as int),
        decreases ids.len() - i,
    {
        r.push(ids[i]);
        i = i + 1;
        assert(ids@.take(i as int) =~= ids@.take(i - 1).push(ids@[i - 1]));
    }
    assert(ids@.take(ids@.len() as int) =~= ids@);
    r
}

fn has_id(ids: &Vec<u64>, client: u64) -> (b: bool)
    ensures
        b == ids@.contains(client),
{
    let mut i: usize = 0;
    while i < ids.len()
        invariant
            i <= ids.len(),
            forall|j: int| 0 <= j < i ==> ids@[j] != client,
        decreases ids.len() - i,
    {
        if ids[i] == client {
            return true;
        }
        i = i + 1;
    }
    false
}

fn drop_id(ids: &Vec<u64>, client: u64) -> (r: Vec<u64>)
    ensures
        r@ == without(ids@, client),
{
    let mut r: Vec<u64> = Vec::new();
    let mut i: usize = 0;
    while i < ids.len()
        invariant
            i <= ids.len(),
            r@ == without(ids@.take(i as int), client),
        decreases ids.len() - i,
    {
        assert(ids@.take(i + 1).drop_last() =~= ids@.take(i as int));
        if ids[i] != client {
            r.push(ids[i]);
        }
        i = i + 1;
    }
    assert(ids@.take(ids@.len() as int) =~= ids@);
    r
}

/// Where `client` waits, if it does.
fn find_parked(pending: &Vec<Pending>, client: u64) -> (at: Option<usize>)
    ensures
        ({
            let ids = parked_ids(pending@.map_values(|p: Pending| p@));
            match at {
                Some(i) => i < pending@.len() && ids.contains(client) && (ids.no_duplicates()
                    ==> i == ids.index_of(client)) && pending@[i as int]@.client == client,
                None => !ids.contains(client),
            }
        }),
{
    let ghost ids = parked_ids(pending@.map_values(|p: Pending| p@));
    let mut i: usize = 0;
    while i < pending.len()
        invariant
            i <= pending.len(),
            ids == parked_ids(pending@.map_values(|p: Pending| p@)),
            forall|j: int| 0 <= j < i ==> ids[j] != client,
        decreases pending.len() - i,
    {
        assert(ids[i as int] == pending@[i as int]@.client);
        if pending[i].client == client {
            assert(ids[i as int] == client);
            assert(ids.contains(client));
            return Some(i);
        }
        i = i + 1;
    }
    None
}

impl SubEntry {
    /// The entry is well formed, and the running totals of its backlogs are
    /// right.
    pub closed spec fn inv(&self) -> bool {
        &&& self@.wf()
        &&& forall|i: int| 0 <= i < self.pending@.len() ==> (#[trigger] self.pending@[i]).inv()
    }

    /// The entry is well formed.
    pub proof fn lemma_inv(&self)
        requires
            self.inv(),
        ensures
            self@.wf(),
    {
    }

    /// An entry nobody has asked for yet.
    pub(crate) fn new(now: u64) -> (e: SubEntry)
        ensures
            e@ == EntryView::fresh(now),
            e.inv(),
    {
        let e = SubEntry {
            race: Race::new(now),
            upstream_subscribed: false,
            subscribers: Vec::new(),
            pinned: false,
            pending: Vec::new(),
        };
        assert(e@.pending =~= seq![]);
        assert(e@.subscribers =~= seq![]);
        assert forall|c: u64| !(#[trigger] e@.follows(c) && e@.waits(c)) by {}
        e
    }

    /// The source that leads the open stamp, or carries the stream.
    pub fn leader(&self) -> (id: Option<usize>)
        ensures
            id == self@.race.leader,
    {
        self.race.leader()
    }

    /// Whether `client` waits for a snapshot.
    pub fn is_rebuilding(&self, client: u64) -> (b: bool)
        ensures
            b == self@.waits(client),
    {
        find_parked(&self.pending, client).is_some()
    }

    /// The clients that follow the stream.
    pub(crate) fn subscribers(&self) -> (r: Vec<u64>)
        ensures
            r@ == self@.subscribers,
    {
        copy_ids(&self.subscribers)
    }

    /// Rule on a frame, and hold it back for everybody who waits if it goes out.
    /// Returns the ruling and the clients whose backlog outgrew the cap.
    pub(crate) fn on_frame(
        &mut self,
        id: usize,
        stamp: Stamp,
        payload: &str,
        now: u64,
        open_reset: bool,
    ) -> (r: (Ruling, Vec<u64>))
        requires
            old(self).inv(),
            id < usize::MAX,
        ensures
            final(self).inv(),
            final(self)@ == old(self)@.after_frame(id, stamp, payload@, now, open_reset),
            r.0 == old(self)@.ruling(id, stamp, now, open_reset),
            r.1@ == old(self)@.overflowed(id, stamp, payload@, now, open_reset),
    {
        let ghost before = self@;
        proof {
            before.lemma_after_frame_wf(id, stamp, payload@, now, open_reset);
        }
        let ruling = self.race.judge(id, stamp, now, open_reset);
        let mut gone: Vec<u64> = Vec::new();
        if ruling.delivers() {
            let v = stamp.value();
            let mut parked: Vec<Pending> = Vec::new();
            core::mem::swap(&mut parked, &mut self.pending);
            let ghost all = parked@.map_values(|p: Pending| p@);
            let ghost orig = parked@;
            assert(all == before.pending);
            let mut keep: Vec<Pending> = Vec::new();
            for p in it: parked
                invariant
                    it.seq() == orig,
                    all == orig.map_values(|p: Pending| p@),
                    forall|i: int| 0 <= i < orig.len() ==> (#[trigger] orig[i]).inv(),
                    keep@.map_values(|p: Pending| p@) == kept(all.take(it.index()), v, payload@),
                    gone@ == evicted(all.take(it.index()), v, payload@),
                    forall|i: int| 0 <= i < keep@.len() ==> (#[trigger] keep@[i]).inv(),
            {
                let ghost k = it.index();
                assert(all.take(k + 1).drop_last() =~= all.take(k));
                assert(all.take(k + 1).last() == p@);
                let ghost kept_before = keep@;
                let mut p = p;
                if p.hold(v, payload) {
                    keep.push(p);
                    assert(keep@.map_values(|p: Pending| p@) =~= kept_before.map_values(
                        |p: Pending| p@,
                    ).push(p@));
                } else {
                    gone.push(p.client);
                }
            }
            assert(all.take(all.len() as int) =~= all);
            self.pending = keep;
        } else {
            assert(gone@ =~= seq![]);
        }
        (ruling, gone)
    }

    /// Add `client`. Returns whether the upstream must now be asked for this.
    pub(crate) fn join(&mut self, client: u64, incremental: bool) -> (need_upstream: bool)
        requires
            old(self).inv(),
            !old(self)@.has(client),
        ensures
            final(self).inv(),
            final(self)@ == old(self)@.joined(client, incremental),
            need_upstream == !old(self)@.upstream_subscribed,
    {
        let ghost before = self@;
        proof {
            before.lemma_joined_wf(client, incremental);
        }
        let need_upstream = !self.upstream_subscribed;
        if !need_upstream && incremental {
            assert(!before.waits(client));
            let ghost parked = self.pending@;
            self.pending.push(Pending::new(client));
            assert(self@.pending =~= before.pending.push(PendingView::empty(client)));
        } else {
            assert(!before.follows(client));
            self.subscribers.push(client);
        }
        self.upstream_subscribed = true;
        need_upstream
    }

    /// Hold the entry open. Returns whether the upstream must now be asked.
    pub(crate) fn pin(&mut self) -> (need_upstream: bool)
        requires
            old(self).inv(),
        ensures
            final(self).inv(),
            final(self)@ == (EntryView {
                pinned: true,
                upstream_subscribed: true,
                ..old(self)@
            }),
            need_upstream == !old(self)@.upstream_subscribed,
    {
        let ghost before = self@;
        let need_upstream = !self.upstream_subscribed;
        self.pinned = true;
        self.upstream_subscribed = true;
        assert forall|c: u64| !(#[trigger] self@.follows(c) && self@.waits(c)) by {
            assert(before.follows(c) == self@.follows(c));
            assert(before.waits(c) == self@.waits(c));
        }
        need_upstream
    }

    /// Remove `client`. Returns whether nobody listens any more.
    pub(crate) fn leave(&mut self, client: u64) -> (abandoned: bool)
        requires
            old(self).inv(),
        ensures
            final(self).inv(),
            final(self)@ == old(self)@.left(client),
            abandoned == old(self)@.left(client).abandoned(),
    {
        let ghost before = self@;
        proof {
            before.lemma_left_wf(client);
        }
        self.subscribers = drop_id(&self.subscribers, client);
        let mut parked: Vec<Pending> = Vec::new();
        core::mem::swap(&mut parked, &mut self.pending);
        let ghost all = parked@.map_values(|p: Pending| p@);
        let ghost orig = parked@;
        let mut keep: Vec<Pending> = Vec::new();
        for p in it: parked
            invariant
                it.seq() == orig,
                all == orig.map_values(|p: Pending| p@),
                forall|i: int| 0 <= i < orig.len() ==> (#[trigger] orig[i]).inv(),
                keep@.map_values(|p: Pending| p@) == parked_without(all.take(it.index()), client),
                forall|i: int| 0 <= i < keep@.len() ==> (#[trigger] keep@[i]).inv(),
        {
            let ghost k = it.index();
            assert(all.take(k + 1).drop_last() =~= all.take(k));
            assert(all.take(k + 1).last() == p@);
            let ghost kept_before = keep@;
            if p.client != client {
                keep.push(p);
                assert(keep@.map_values(|p: Pending| p@) =~= kept_before.map_values(
                    |p: Pending| p@,
                ).push(p@));
            }
        }
        assert(all.take(all.len() as int) =~= all);
        self.pending = keep;
        self.subscribers.len() == 0 && self.pending.len() == 0 && self.upstream_subscribed
            && !self.pinned
    }

    /// Attach a waiting client that got a snapshot taken at `height`. Returns
    /// what it must be sent: the snapshot, then everything held above it.
    pub(crate) fn attach(&mut self, client: u64, height: u64, snapshot: &str) -> (r: Option<
        Vec<String>,
    >)
        requires
            old(self).inv(),
        ensures
            final(self).inv(),
            match r {
                Some(backlog) => old(self)@.waits(client) && final(self)@ == old(self)@.attached(
                    client,
                ) && texts(backlog@) == handed_over(old(self)@.backlog(client), height, snapshot@),
                None => !old(self)@.waits(client) && final(self)@ == old(self)@,
            },
    {
        let ghost before = self@;
        match find_parked(&self.pending, client) {
            None => None,
            Some(at) => {
                proof {
                    before.lemma_attached_wf(client);
                }
                let ghost parked = self.pending@;
                let p = self.pending.remove(at);
                assert(self@.pending =~= before.pending.remove(at as int));
                assert forall|i: int| 0 <= i < self.pending@.len() implies (
                #[trigger] self.pending@[i]).inv() by {
                    if i < at {
                        assert(self.pending@[i] == parked[i]);
                    } else {
                        assert(self.pending@[i] == parked[i + 1]);
                    }
                }
                let mut backlog: Vec<String> = Vec::new();
                backlog.push(snapshot.to_owned());
                let ghost held = p@.held;
                assert(held == before.backlog(client));
                let Pending { client: _, held: frames, bytes: _ } = p;
                let ghost orig = frames@;
                assert(texts(backlog@) =~= seq![snapshot@] + above(held.take(0), height));
                for h in it: frames
                    invariant
                        it.seq() == orig,
                        held == orig.map_values(|h: Held| (h.stamp, h.payload@)),
                        texts(backlog@) == seq![snapshot@] + above(held.take(it.index()), height),
                {
                    let ghost k = it.index();
                    assert(held.take(k + 1).drop_last() =~= held.take(k));
                    assert(held.take(k + 1).last() == (h.stamp, h.payload@));
                    let ghost sent = texts(backlog@);
                    if h.stamp > height {
                        backlog.push(h.payload);
                        assert(texts(backlog@) =~= sent.push(h.payload@));
                        assert(texts(backlog@) =~= seq![snapshot@] + above(
                            held.take(k + 1),
                            height,
                        ));
                    }
                }
                assert(held.take(held.len() as int) =~= held);
                self.subscribers.push(client);
                Some(backlog)
            },
        }
    }

    /// Give up on a waiting client. Returns whether it was waiting.
    pub(crate) fn give_up(&mut self, client: u64) -> (waited: bool)
        requires
            old(self).inv(),
        ensures
            final(self).inv(),
            waited == old(self)@.waits(client),
            final(self)@ == if waited {
                old(self)@.given_up(client)
            } else {
                old(self)@
            },
    {
        let ghost before = self@;
        match find_parked(&self.pending, client) {
            None => false,
            Some(at) => {
                proof {
                    before.lemma_given_up_wf(client);
                }
                let ghost parked = self.pending@;
                let _ = self.pending.remove(at);
                assert(self@.pending =~= before.pending.remove(at as int));
                assert forall|i: int| 0 <= i < self.pending@.len() implies (
                #[trigger] self.pending@[i]).inv() by {
                    if i < at {
                        assert(self.pending@[i] == parked[i]);
                    } else {
                        assert(self.pending@[i] == parked[i + 1]);
                    }
                }
                true
            },
        }
    }

    /// Park everybody who follows a stream whose leader, source `id`, is gone.
    /// Returns who was parked.
    pub(crate) fn orphan(&mut self, id: usize) -> (clients: Vec<u64>)
        requires
            old(self).inv(),
        ensures
            final(self).inv(),
            final(self)@ == old(self)@.orphaned(id),
            clients@ == old(self)@.subscribers,
    {
        let ghost before = self@;
        proof {
            before.lemma_orphaned_wf(id);
        }
        self.race.orphan(id);
        let mut clients: Vec<u64> = Vec::new();
        core::mem::swap(&mut clients, &mut self.subscribers);
        let mut i: usize = 0;
        assert(newly_parked(clients@.take(0)) =~= seq![]);
        assert(before.pending + newly_parked(clients@.take(0)) =~= before.pending);
        while i < clients.len()
            invariant
                i <= clients.len(),
                clients@ == before.subscribers,
                self@ == (EntryView {
                    race: before.race.orphaned(id),
                    subscribers: seq![],
                    pending: before.pending + newly_parked(clients@.take(i as int)),
                    ..before
                }),
                forall|j: int| 0 <= j < self.pending@.len() ==> (#[trigger] self.pending@[j]).inv(),
            decreases clients.len() - i,
        {
            let ghost parked = self@.pending;
            self.pending.push(Pending::new(clients[i]));
            assert(self@.pending =~= parked.push(PendingView::empty(clients@[i as int])));
            assert(newly_parked(clients@.take(i + 1)) =~= newly_parked(
                clients@.take(i as int),
            ).push(PendingView::empty(clients@[i as int])));
            i = i + 1;
            assert(self@.pending =~= before.pending + newly_parked(clients@.take(i as int)));
        }
        assert(clients@.take(clients@.len() as int) =~= clients@);
        clients
    }

    /// Let go of the source that carried the stream and is gone.
    pub(crate) fn release(&mut self)
        requires
            old(self).inv(),
        ensures
            final(self).inv(),
            final(self)@ == old(self)@.released(),
    {
        proof {
            self@.lemma_released_wf();
        }
        self.race.release();
    }

    /// Let source `id` carry the stream if nobody does.
    pub(crate) fn adopt(&mut self, id: usize)
        requires
            old(self).inv(),
        ensures
            final(self).inv(),
            final(self)@ == old(self)@.adopted(id),
    {
        let ghost before = self@;
        self.race.adopt(id);
        assert forall|c: u64| !(#[trigger] self@.follows(c) && self@.waits(c)) by {
            assert(before.follows(c) == self@.follows(c));
            assert(before.waits(c) == self@.waits(c));
        }
    }
}

impl EntryView {
    /// The entry once source `id` carries the stream, if nobody did.
    pub open spec fn adopted(self, id: usize) -> EntryView {
        EntryView { race: self.race.adopted(id), ..self }
    }
}

// ---------------------------------------------------------------------------
// Looking in from outside
// ---------------------------------------------------------------------------

/// What the rest of the program may read of an entry.
pub struct EntrySummary {
    pub upstream_subscribed: bool,
    pub pinned: bool,
    /// The source that leads the open stamp, or carries the stream.
    pub leader: Option<usize>,
    /// The clients that follow the stream.
    pub following: Vec<u64>,
    /// The clients that wait for a snapshot.
    pub waiting: Vec<u64>,
}

impl EntrySummary {
    /// Whether this is what there is to read of `e`.
    pub open spec fn describes(&self, e: EntryView) -> bool {
        &&& self.upstream_subscribed == e.upstream_subscribed
        &&& self.pinned == e.pinned
        &&& self.leader == e.race.leader
        &&& self.following@ == e.subscribers
        &&& self.waiting@ == parked_ids(e.pending)
    }

    /// Whether `client` waits for a snapshot.
    pub fn is_rebuilding(&self, client: u64) -> (b: bool)
        ensures
            b == self.waiting@.contains(client),
    {
        has_id(&self.waiting, client)
    }
}

impl SubEntry {
    /// What the rest of the program may read of the entry.
    pub(crate) fn summary(&self) -> (s: EntrySummary)
        ensures
            s.describes(self@),
    {
        let mut waiting: Vec<u64> = Vec::new();
        let mut i: usize = 0;
        while i < self.pending.len()
            invariant
                i <= self.pending.len(),
                waiting@ == parked_ids(self@.pending).take(i as int),
                self@.pending == self.pending@.map_values(|p: Pending| p@),
            decreases self.pending.len() - i,
        {
            waiting.push(self.pending[i].client);
            i = i + 1;
            assert(parked_ids(self@.pending).take(i as int) =~= parked_ids(self@.pending).take(
                i - 1,
            ).push(self.pending@[i - 1]@.client));
        }
        assert(parked_ids(self@.pending).take(self.pending@.len() as int) =~= parked_ids(
            self@.pending,
        ));
        EntrySummary {
            upstream_subscribed: self.upstream_subscribed,
            pinned: self.pinned,
            leader: self.race.leader(),
            following: copy_ids(&self.subscribers),
            waiting,
        }
    }
}

} // verus!
