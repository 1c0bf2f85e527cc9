//! What a client is told, and what is said over the wire.

use crate::client::{ClientMessage, Reply};
use crate::key::SubKey;
use crate::state::SubscribeOutcome;
use vstd::prelude::*;

verus! {

/// A ping is answered and changes nothing.
pub proof fn law_ping_is_answered(
    before: crate::state::StateView,
    client: u64,
    now: u64,
    reply: Reply,
    after: crate::state::StateView,
)
    requires
        crate::client::answers(before, client, ClientMessage::Ping, now, reply, after),
    ensures
        after == before,
        reply matches Reply::Pong(text) && text@ == "{\"channel\":\"pong\"}"@,
{
}

/// A request to subscribe is refused exactly when it is for `bookDiffs`, and then
/// nothing changes. Any other subscribes the client under the one spelling of its key,
/// is acknowledged under that spelling, and has a snapshot fetched exactly when the
/// client joins an incremental stream that is already running: then it waits for it.
pub proof fn law_subscribing_is_answered(
    before: crate::state::StateView,
    client: u64,
    wanted: SubKey,
    now: u64,
    reply: Reply,
    after: crate::state::StateView,
)
    requires
        before.wf(),
        before.clients.dom().contains(client),
        crate::client::answers(
            before,
            client,
            ClientMessage::Subscribe { subscription: wanted },
            now,
            reply,
            after,
        ),
    ensures
        wanted@ is BookDiffs <==> reply is Refused,
        reply is Refused ==> after == before,
        !(wanted@ is BookDiffs) ==> {
            let key = wanted@.normalized();
            &&& after == before.subscribed(client, key, now)
            &&& after.clients[client].holds(key)
            &&& reply matches Reply::Subscribed { key: k, outcome, ack, fetch } && {
                &&& k@ == key
                &&& outcome == before.outcome(client, key)
                &&& ack@ == crate::wire::ack_text("subscribe"@, key)
                &&& fetch <==> outcome == SubscribeOutcome::Joined && (key is L4Book
                    || key is L2Diff)
                &&& fetch ==> after.subs[key].waits(client)
                &&& !fetch && outcome != SubscribeOutcome::Duplicate
                    ==> after.subs[key].follows(client)
            }
        },
{
    if !(wanted@ is BookDiffs) {
        let key = wanted@.normalized();
        crate::update_laws::law_subscribing_asks_once(before, client, key, now);
        let list = before.clients[client].subscriptions;
        assert(list.push(key)[list.len() as int] == key);
    }
}

/// A request to unsubscribe is acknowledged exactly when the client holds the key, under
/// its one spelling, and then it no longer does; else nothing changes.
pub proof fn law_unsubscribing_is_answered(
    before: crate::state::StateView,
    client: u64,
    given: SubKey,
    now: u64,
    reply: Reply,
    after: crate::state::StateView,
)
    requires
        before.wf(),
        before.clients.dom().contains(client),
        crate::client::answers(
            before,
            client,
            ClientMessage::Unsubscribe { subscription: given },
            now,
            reply,
            after,
        ),
    ensures
        ({
            let key = given@.normalized();
            let held = before.clients[client].holds(key);
            &&& held <==> reply is Unsubscribed
            &&& !held <==> reply is NotHeld
            &&& !held ==> after == before
            &&& held ==> after == before.unsubscribed(client, key)
                && !after.clients[client].holds(key)
            &&& reply matches Reply::Unsubscribed { key: k, ack } ==> k@ == key && ack@
                == crate::wire::ack_text("unsubscribe"@, key)
        }),
{
    let key = given@.normalized();
    if before.clients[client].holds(key) {
        let other = if key is Bbo {
            crate::key::Key::Trades { coin: seq![] }
        } else {
            crate::key::Key::Bbo { coin: seq![] }
        };
        let someone = if client == 0 {
            1u64
        } else {
            0u64
        };
        crate::update_laws::law_unsubscribing_detaches(before, client, key, other, someone);
    }
}

/// A request names what is asked of the upstream and which subscription, and an
/// acknowledgement what was asked of the proxy and which.
pub proof fn law_requests_say_what_is_asked(key: crate::key::Key, method: Seq<char>)
    ensures
        crate::wire::subscribe_text(key) == "{\"method\":\"subscribe\",\"subscription\":"@
            + key.json() + "}"@,
        crate::wire::unsubscribe_text(key) == "{\"method\":\"unsubscribe\",\"subscription\":"@
            + key.json() + "}"@,
        crate::wire::ack_text(method, key)
            == "{\"channel\":\"subscriptionResponse\",\"data\":{\"method\":\""@ + method
            + "\",\"subscription\":"@ + key.sorted_json() + "}}"@,
{
}

/// A subscription is spelled as its channel and its coin, or its user, followed by
/// whatever aggregation was asked for.
pub proof fn law_subscription_is_spelled_out(
    key: crate::key::Key,
    coin: Seq<char>,
    sf: u32,
    n: usize,
    m: u64,
)
    ensures
        key is OrderUpdates ==> key.json() == "{\"type\":\""@ + key.channel() + "\",\"user\":"@
            + crate::wire::json_text(key.name()) + "}"@,
        key is Trades || key is Bbo || key is L4Book || key is BookDiffs ==> key.json()
            == "{\"type\":\""@ + key.channel() + "\",\"coin\":"@ + crate::wire::json_text(
            key.name(),
        ) + "}"@,
        (crate::key::Key::L2Book {
            coin,
            n_sig_figs: Some(sf),
            n_levels: Some(n),
            mantissa: Some(m),
        }).json() == "{\"type\":\""@ + "l2Book"@ + "\",\"coin\":"@ + crate::wire::json_text(coin)
            + (",\"nSigFigs\":"@ + crate::text::digits(sf as nat) + (",\"nLevels\":"@
            + crate::text::digits(n as nat)) + (",\"mantissa\":"@ + crate::text::digits(m as nat)))
            + "}"@,
        (crate::key::Key::L2Diff {
            coin,
            n_sig_figs: None,
            n_levels: None,
            mantissa: None,
        }).json() == "{\"type\":\""@ + "l2Diff"@ + "\",\"coin\":"@ + crate::wire::json_text(coin)
            + "}"@,
{
    let plain = crate::key::Key::L2Diff { coin, n_sig_figs: None, n_levels: None, mantissa: None };
    assert(plain.json() =~= "{\"type\":\""@ + "l2Diff"@ + "\",\"coin\":"@
        + crate::wire::json_text(coin) + "}"@);
    if key is OrderUpdates {
        assert(key.json() =~= "{\"type\":\""@ + key.channel() + "\",\"user\":"@
            + crate::wire::json_text(key.name()) + "}"@);
    }
    if key is Trades || key is Bbo || key is L4Book || key is BookDiffs {
        assert(key.json() =~= "{\"type\":\""@ + key.channel() + "\",\"coin\":"@
            + crate::wire::json_text(key.name()) + "}"@);
    }
}

/// Text is quoted character by character: a quote and a backslash get one before them,
/// and every sign from the space on stands for itself.
pub proof fn law_quoting_is_by_character(c: char, s: Seq<char>)
    ensures
        crate::wire::json_text(s) == seq!['"'] + crate::wire::json_body(s) + seq!['"'],
        crate::wire::json_body(seq![c] + s) == crate::wire::escaped_json(c)
            + crate::wire::json_body(s),
        c == '"' || c == '\\' ==> crate::wire::escaped_json(c) == seq!['\\', c],
        c >= ' ' && c != '"' && c != '\\' ==> crate::wire::escaped_json(c) == seq![c],
        c < ' ' ==> crate::wire::escaped_json(c)[0] == '\\',
{
    assert((seq![c] + s).drop_first() =~= s);
}

/// What a hexadecimal digit counts, and more than any number if it is none.
pub open spec fn hex_value(c: char) -> nat {
    if '0' <= c <= '9' {
        (c as nat - 48) as nat
    } else if 'a' <= c <= 'f' {
        (c as nat - 87) as nat
    } else {
        16777216
    }
}

/// The character that a piece of a JSON string stands for, by its number: itself, or what
/// the letter behind the backslash is short for, or the number behind the letter.
pub open spec fn read_back(e: Seq<char>) -> nat {
    if e.len() == 1 {
        e[0] as nat
    } else if e[1] == 'b' {
        8
    } else if e[1] == 't' {
        9
    } else if e[1] == 'n' {
        10
    } else if e[1] == 'f' {
        12
    } else if e[1] == 'r' {
        13
    } else if e[1] == 'u' {
        4096 * hex_value(e[2]) + 256 * hex_value(e[3]) + 16 * hex_value(e[4]) + hex_value(e[5])
    } else {
        e[1] as nat
    }
}

/// Whoever reads a JSON string gets the character back that was written.
pub proof fn law_json_reads_back(c: char)
    ensures
        read_back(crate::wire::escaped_json(c)) == c as nat,
        crate::wire::escaped_json(c).len() == 1 <==> c >= ' ' && c != '"' && c != '\\',
        crate::wire::escaped_json(c).len() > 1 ==> crate::wire::escaped_json(c)[0] == '\\',
{
    let n = c as nat;
    if n < 32 {
        assert(n == 16 * (n / 16) + n % 16);
        assert(n / 16 <= 1);
    }
}

/// Each parameter of an aggregation that is given is spelled out, by itself, and one that
/// is not is left out: in the order of the upstream's own requests, and in the alphabet's
/// in an acknowledgement.
pub proof fn law_parameters_are_spelled_out_one_by_one(
    coin: Seq<char>,
    sf: Option<u32>,
    n: Option<usize>,
    m: Option<u64>,
)
    ensures
        ({
            let a = match sf {
                Some(v) => ",\"nSigFigs\":"@ + crate::text::digits(v as nat),
                None => seq![],
            };
            let b = match n {
                Some(v) => ",\"nLevels\":"@ + crate::text::digits(v as nat),
                None => seq![],
            };
            let c = match m {
                Some(v) => ",\"mantissa\":"@ + crate::text::digits(v as nat),
                None => seq![],
            };
            &&& (crate::key::Key::L2Book { coin, n_sig_figs: sf, n_levels: n, mantissa: m }).json()
                == "{\"type\":\""@ + "l2Book"@ + "\",\"coin\":"@ + crate::wire::json_text(coin) + (
            a + b + c) + "}"@
            &&& (crate::key::Key::L2Book { coin, n_sig_figs: sf, n_levels: n, mantissa: m }).sorted_json()
                == "{\"coin\":"@ + crate::wire::json_text(coin) + c + b + a + ",\"type\":\""@
                + "l2Book"@ + "\"}"@
            &&& (crate::key::Key::L2Diff { coin, n_sig_figs: sf, n_levels: n, mantissa: m }).json()
                == "{\"type\":\""@ + "l2Diff"@ + "\",\"coin\":"@ + crate::wire::json_text(coin) + (
            a + b + c) + "}"@
            &&& (crate::key::Key::L2Diff { coin, n_sig_figs: sf, n_levels: n, mantissa: m }).sorted_json()
                == "{\"coin\":"@ + crate::wire::json_text(coin) + c + b + a + ",\"type\":\""@
                + "l2Diff"@ + "\"}"@
        }),
{
}

/// In an acknowledgement the fields of a subscription without parameters stand in the
/// alphabet's order too.
pub proof fn law_acknowledged_fields_are_sorted(key: crate::key::Key)
    ensures
        key is OrderUpdates ==> key.sorted_json() == "{\"type\":\""@ + "orderUpdates"@
            + "\",\"user\":"@ + crate::wire::json_text(key.name()) + "}"@,
        key is Trades || key is Bbo || key is L4Book || key is BookDiffs ==> key.sorted_json()
            == "{\"coin\":"@ + crate::wire::json_text(key.name()) + ",\"type\":\""@
            + key.channel() + "\"}"@,
{
}

} // verus!
