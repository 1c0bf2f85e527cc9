//! Connected clients and what they ask for.

use crate::key::SubKey;
use crate::state::{AppState, SubscribeOutcome};
use crate::wire;
use vstd::prelude::*;

verus! {

/// A connected downstream client.
pub struct Client {
    id: u64,
    ip: String,
    /// What it is subscribed to, each key once.
    subscriptions: Vec<SubKey>,
    bytes_sent: u64,
    /// Frames it lost because its queue was full.
    dropped: u64,
    /// When it connected, in nanoseconds of the caller's clock.
    connected_at: u64,
}

/// What a `Client` denotes.
#[verifier::ext_equal]
pub ghost struct ClientView {
    pub id: u64,
    pub ip: Seq<char>,
    pub subscriptions: Seq<crate::key::Key>,
    pub bytes_sent: u64,
    pub dropped: u64,
    pub connected_at: u64,
}

/// What a list of keys denotes.
pub open spec fn keys_of(v: Seq<SubKey>) -> Seq<crate::key::Key> {
    v.map_values(|k: SubKey| k@)
}

impl View for Client {
    type V = ClientView;

    closed spec fn view(&self) -> ClientView {
        ClientView {
            id: self.id,
            ip: self.ip@,
            subscriptions: keys_of(self.subscriptions@),
            bytes_sent: self.bytes_sent,
            dropped: self.dropped,
            connected_at: self.connected_at,
        }
    }
}

impl ClientView {
    /// A client that has just connected.
    pub open spec fn fresh(id: u64, ip: Seq<char>, now: u64) -> ClientView {
        ClientView {
            id,
            ip,
            subscriptions: seq![],
            bytes_sent: 0,
            dropped: 0,
            connected_at: now,
        }
    }

    /// Nothing is subscribed to twice, and everything can be shown.
    pub open spec fn wf(self) -> bool {
        &&& self.subscriptions.no_duplicates()
        &&& forall|i: int|
            0 <= i < self.subscriptions.len() ==> (#[trigger] self.subscriptions[i]).can_label()
    }

    /// Whether the client is subscribed to `key`.
    pub open spec fn holds(self, key: crate::key::Key) -> bool {
        self.subscriptions.contains(key)
    }

    /// The client once `n` more bytes have been sent to it.
    pub open spec fn with_sent(self, n: u64) -> ClientView {
        ClientView { bytes_sent: crate::stats::counted(self.bytes_sent, n), ..self }
    }

    /// The client once its queue had no room for one more frame.
    pub open spec fn with_dropped(self) -> ClientView {
        ClientView { dropped: crate::stats::counted(self.dropped, 1), ..self }
    }

    /// The client with one more subscription.
    pub open spec fn with_key(self, key: crate::key::Key) -> ClientView {
        ClientView { subscriptions: self.subscriptions.push(key), ..self }
    }

    /// The client with one subscription less.
    pub open spec fn without_key(self, key: crate::key::Key) -> ClientView {
        ClientView {
            subscriptions: self.subscriptions.remove(self.subscriptions.index_of(key)),
            ..self
        }
    }
}

impl Client {
    /// A client that has just connected.
    pub(crate) fn new(id: u64, ip: String, now: u64) -> (c: Client)
        ensures
            c@ == ClientView::fresh(id, ip@, now),
            c@.wf(),
    {
        let c = Client {
            id,
            ip,
            subscriptions: Vec::new(),
            bytes_sent: 0,
            dropped: 0,
            connected_at: now,
        };
        assert(c@.subscriptions =~= seq![]);
        c
    }

    /// The client's id.
    pub fn id(&self) -> (id: u64)
        ensures
            id == self@.id,
    {
        self.id
    }

    /// The client's address.
    pub fn ip(&self) -> (ip: &str)
        ensures
            ip@ == self@.ip,
    {
        self.ip.as_str()
    }

    /// What the client is subscribed to, in the order in which it asked.
    pub fn subscriptions(&self) -> (v: Vec<SubKey>)
        ensures
            keys_of(v@) == self@.subscriptions,
    {
        copy_keys(&self.subscriptions)
    }

    /// Bytes of payload sent to the client.
    pub fn bytes_sent(&self) -> (n: u64)
        ensures
            n == self@.bytes_sent,
    {
        self.bytes_sent
    }

    /// Frames the client lost because its queue was full.
    pub fn dropped(&self) -> (n: u64)
        ensures
            n == self@.dropped,
    {
        self.dropped
    }

    /// When the client connected, in nanoseconds of the caller's clock.
    pub fn connected_at(&self) -> (t: u64)
        ensures
            t == self@.connected_at,
    {
        self.connected_at
    }

    /// A copy of the client.
    pub(crate) fn copied(&self) -> (c: Client)
        ensures
            c@ == self@,
    {
        Client {
            id: self.id,
            ip: self.ip.clone(),
            subscriptions: copy_keys(&self.subscriptions),
            bytes_sent: self.bytes_sent,
            dropped: self.dropped,
            connected_at: self.connected_at,
        }
    }

    /// Subscribe to `key`. Returns whether that is news.
    pub(crate) fn add_key(&mut self, key: &SubKey) -> (added: bool)
        requires
            old(self)@.wf(),
            key@.can_label(),
        ensures
            added == !old(self)@.holds(key@),
            final(self)@ == if added {
                old(self)@.with_key(key@)
            } else {
                old(self)@
            },
            final(self)@.wf(),
    {
        let ghost before = self@;
        match find_key(&self.subscriptions, key) {
            Some(_) => false,
            None => {
                self.subscriptions.push(key.clone());
                assert(self@.subscriptions =~= before.subscriptions.push(key@));
                true
            },
        }
    }

    /// Unsubscribe from `key`. Returns whether the client was subscribed.
    pub(crate) fn drop_key(&mut self, key: &SubKey) -> (dropped: bool)
        requires
            old(self)@.wf(),
        ensures
            dropped == old(self)@.holds(key@),
            final(self)@ == if dropped {
                old(self)@.without_key(key@)
            } else {
                old(self)@
            },
            final(self)@.wf(),
    {
        let ghost before = self@;
        match find_key(&self.subscriptions, key) {
            None => false,
            Some(at) => {
                assert(before.subscriptions[at as int] == key@);
                let _ = self.subscriptions.remove(at);
                assert(self@.subscriptions =~= before.subscriptions.remove(at as int));
                true
            },
        }
    }

    /// Count bytes sent to the client.
    pub(crate) fn count_sent(&mut self, n: u64)
        ensures
            final(self)@ == old(self)@.with_sent(n),
    {
        self.bytes_sent = self.bytes_sent.wrapping_add(n);
    }

    /// Count a frame that the client's queue had no room for.
    pub(crate) fn count_dropped(&mut self)
        ensures
            final(self)@ == old(self)@.with_dropped(),
    {
        self.dropped = self.dropped.wrapping_add(1);
    }
}

fn copy_keys(keys: &Vec<SubKey>) -> (r: Vec<SubKey>)
    ensures
        keys_of(r@) == keys_of(keys@),
{
    let mut r: Vec<SubKey> = Vec::new();
    let mut i: usize = 0;
    while i < keys.len()
        invariant
            i <= keys.len(),
            keys_of(r@) == keys_of(keys@).take(i as int),
        decreases keys.len() - i,
    {
        let ghost before = keys_of(r@);
        r.push(keys[i].clone());
        assert(keys_of(r@) =~= before.push(keys@[i as int]@));
        i = i + 1;
        assert(keys_of(keys@).take(i as int) =~= keys_of(keys@).take(i - 1).push(
            keys@[i - 1]@,
        ));
    }
    assert(keys_of(keys@).take(keys@.len() as int) =~= keys_of(keys@));
    r
}

/// Where `key` stands in a list, if it does.
fn find_key(keys: &Vec<SubKey>, key: &SubKey) -> (at: Option<usize>)
    ensures
        match at {
            Some(i) => i < keys@.len() && keys@[i as int]@ == key@ && keys_of(keys@).contains(key@)
                && (keys_of(keys@).no_duplicates() ==> i == keys_of(keys@).index_of(key@)),
            None => !keys_of(keys@).contains(key@),
        },
{
    let mut i: usize = 0;
    while i < keys.len()
        invariant
            i <= keys.len(),
            forall|j: int| 0 <= j < i ==> (#[trigger] keys_of(keys@)[j]) != key@,
        decreases keys.len() - i,
    {
        assert(keys_of(keys@)[i as int] == keys@[i as int]@);
        if keys[i] == *key {
            assert(keys_of(keys@).contains(key@));
            return Some(i);
        }
        i = i + 1;
    }
    None
}

// ---------------------------------------------------------------------------
// Requests
// ---------------------------------------------------------------------------

/// A request frame from a client.
pub enum ClientMessage {
    Subscribe { subscription: SubKey },
    Unsubscribe { subscription: SubKey },
    Ping,
}

impl ClientMessage {
    /// Whether the key that the client wants to subscribe to can be shown.
    pub open spec fn can_label(self) -> bool {
        match self {
            ClientMessage::Subscribe { subscription } => subscription@.normalized().can_label(),
            _ => true,
        }
    }
}

/// What comes of a request.
pub enum Reply {
    /// Send this back.
    Pong(String),
    /// The channel cannot be streamed correctly, for this reason.
    Refused(SubKey, &'static str),
    /// Subscribed. Send the acknowledgement back, and fetch a snapshot for the
    /// client if `fetch` says so.
    Subscribed { key: SubKey, outcome: SubscribeOutcome, ack: String, fetch: bool },
    /// Unsubscribed. Send the acknowledgement back.
    Unsubscribed { key: SubKey, ack: String },
    /// The client does not hold the key.
    NotHeld(SubKey),
}

/// Why a channel is refused, if it is.
pub open spec fn refusal(key: crate::key::Key) -> Option<Seq<char>> {
    if key is BookDiffs {
        Some(
            "bookDiffs carries no sequence to arbitrate on; subscribe to l4Book for the same diffs"@,
        )
    } else {
        None
    }
}

/// Channels that cannot be streamed correctly, refused loudly rather than served
/// wrong. `bookDiffs` frames carry no time, height or sequence of any kind, so
/// there is nothing to order two sources by; `l4Book` carries the same diffs
/// wrapped in a block height.
pub fn unsupported(key: &SubKey) -> (reason: Option<&'static str>)
    ensures
        reason is Some <==> refusal(key@) is Some,
        reason matches Some(r) ==> refusal(key@) == Some(r@),
{
    match key {
        SubKey::BookDiffs { .. } => Some(
            "bookDiffs carries no sequence to arbitrate on; subscribe to l4Book for the same diffs",
        ),
        _ => None,
    }
}

/// Whether `reply` is what a request gets, and `after` what it leaves behind.
pub open spec fn answers(
    before: crate::state::StateView,
    client: u64,
    msg: ClientMessage,
    now: u64,
    reply: Reply,
    after: crate::state::StateView,
) -> bool {
    match msg {
        ClientMessage::Ping => {
            &&& after == before
            &&& reply matches Reply::Pong(text) && text@ == "{\"channel\":\"pong\"}"@
        },
        ClientMessage::Subscribe { subscription } => {
            let key = subscription@.normalized();
            match refusal(key) {
                Some(reason) => {
                    &&& after == before
                    &&& reply matches Reply::Refused(k, r) && k@ == key && r@ == reason
                },
                None => {
                    &&& after == before.subscribed(client, key, now)
                    &&& reply matches Reply::Subscribed { key: k, outcome, ack, fetch } && k@ == key
                        && outcome == before.outcome(client, key) && ack@ == crate::wire::ack_text(
                        "subscribe"@,
                        key,
                    ) && fetch == (outcome is Joined && key.incremental())
                },
            }
        },
        ClientMessage::Unsubscribe { subscription } => {
            let key = subscription@.normalized();
            if before.clients[client].holds(key) {
                &&& after == before.unsubscribed(client, key)
                &&& reply matches Reply::Unsubscribed { key: k, ack } && k@ == key && ack@
                    == crate::wire::ack_text("unsubscribe"@, key)
            } else {
                &&& after == before
                &&& reply matches Reply::NotHeld(k) && k@ == key
            }
        },
    }
}

impl AppState {
    /// Act on a request from a client.
    pub fn handle_request(&mut self, client: u64, msg: ClientMessage, now: u64) -> (reply: Reply)
        requires
            old(self).inv(),
            old(self)@.clients.dom().contains(client),
            msg.can_label(),
        ensures
            final(self).inv(),
            answers(old(self)@, client, msg, now, reply, final(self)@),
    {
        match msg {
            ClientMessage::Ping => Reply::Pong("{\"channel\":\"pong\"}".to_owned()),
            ClientMessage::Subscribe { subscription } => {
                let key = subscription.normalized();
                if let Some(reason) = unsupported(&key) {
                    return Reply::Refused(key, reason);
                }
                let outcome = self.subscribe(client, key.clone(), now);
                let ack = wire::ack("subscribe", &key);
                // Joining an incremental stream mid-flight means the snapshot
                // that opened it is long gone. Until one is fetched the client is
                // parked and its frames are held back.
                let fetch = match outcome {
                    SubscribeOutcome::Joined => key.is_incremental(),
                    _ => false,
                };
                Reply::Subscribed { key, outcome, ack, fetch }
            },
            ClientMessage::Unsubscribe { subscription } => {
                let key = subscription.normalized();
                if self.unsubscribe(client, &key) {
                    let ack = wire::ack("unsubscribe", &key);
                    Reply::Unsubscribed { key, ack }
                } else {
                    Reply::NotHeld(key)
                }
            },
        }
    }
}

} // verus!
