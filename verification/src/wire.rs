//! The JSON text exchanged with the upstream and with the clients: subscribe
//! and unsubscribe requests, acknowledgements.

use crate::key::{push_optional, wide_u32, wide_usize, SubKey};
use vstd::prelude::*;

verus! {

// ---------------------------------------------------------------------------
// JSON strings
// ---------------------------------------------------------------------------

/// A hexadecimal digit, in small letters.
pub open spec fn hex_char(d: nat) -> char {
    if d < 10 {
        ((48 + d) as u32) as char
    } else {
        ((87 + d) as u32) as char
    }
}

/// What one character becomes inside a JSON string.
pub open spec fn escaped_json(c: char) -> Seq<char> {
    let n = c as nat;
    if c == '"' {
        seq!['\\', '"']
    } else if c == '\\' {
        seq!['\\', '\\']
    } else if n == 8 {
        seq!['\\', 'b']
    } else if n == 9 {
        seq!['\\', 't']
    } else if n == 10 {
        seq!['\\', 'n']
    } else if n == 12 {
        seq!['\\', 'f']
    } else if n == 13 {
        seq!['\\', 'r']
    } else if n < 32 {
        seq!['\\', 'u', '0', '0', hex_char(n / 16), hex_char(n % 16)]
    } else {
        seq![c]
    }
}

/// The inside of the JSON string that stands for `s`.
pub open spec fn json_body(s: Seq<char>) -> Seq<char>
    decreases s.len(),
{
    if s.len() == 0 {
        seq![]
    } else {
        escaped_json(s.first()) + json_body(s.drop_first())
    }
}

/// The JSON string that stands for `s`, with its quotes.
pub open spec fn json_text(s: Seq<char>) -> Seq<char> {
    seq!['"'] + json_body(s) + seq!['"']
}

/// `serde_json::to_string` on text: the text between quotes, with quotes,
/// backslashes and control characters escaped and every other character as it
/// is. Serializing text does not fail.
#[verifier::external_body]
fn json_string(s: &str) -> (r: String)
    ensures
        r@ == json_text(s@),
{
    serde_json::to_string(s).expect("text is always serializable")
}

// ---------------------------------------------------------------------------
// Requests
// ---------------------------------------------------------------------------

impl crate::key::Key {
    /// The aggregation parameters, in the order in which requests carry them.
    pub open spec fn params_json(self) -> Seq<char> {
        match self {
            crate::key::Key::L2Book { n_sig_figs, n_levels, mantissa, .. } => crate::key::optional(
                ",\"nSigFigs\":"@,
                crate::key::nat_of_u32(n_sig_figs),
            ) + crate::key::optional(",\"nLevels\":"@, crate::key::nat_of_usize(n_levels))
                + crate::key::optional(",\"mantissa\":"@, crate::key::nat_of_u64(mantissa)),
            crate::key::Key::L2Diff { n_sig_figs, n_levels, mantissa, .. } => crate::key::optional(
                ",\"nSigFigs\":"@,
                crate::key::nat_of_u32(n_sig_figs),
            ) + crate::key::optional(",\"nLevels\":"@, crate::key::nat_of_usize(n_levels))
                + crate::key::optional(",\"mantissa\":"@, crate::key::nat_of_u64(mantissa)),
            _ => seq![],
        }
    }

    /// The name of the field that holds the coin or the user.
    pub open spec fn name_field(self) -> Seq<char> {
        if self is OrderUpdates {
            "\",\"user\":"@
        } else {
            "\",\"coin\":"@
        }
    }

    /// The subscription as a JSON object, the way the upstream spells it.
    pub open spec fn json(self) -> Seq<char> {
        "{\"type\":\""@ + self.channel() + self.name_field() + json_text(self.name())
            + self.params_json() + "}"@
    }

    /// The same object with its fields in alphabetical order.
    pub open spec fn sorted_json(self) -> Seq<char> {
        match self {
            crate::key::Key::OrderUpdates { user } => "{\"type\":\""@ + self.channel()
                + "\",\"user\":"@ + json_text(user) + "}"@,
            crate::key::Key::L2Book { coin, n_sig_figs, n_levels, mantissa } => "{\"coin\":"@
                + json_text(coin) + crate::key::optional(
                ",\"mantissa\":"@,
                crate::key::nat_of_u64(mantissa),
            ) + crate::key::optional(",\"nLevels\":"@, crate::key::nat_of_usize(n_levels))
                + crate::key::optional(",\"nSigFigs\":"@, crate::key::nat_of_u32(n_sig_figs))
                + ",\"type\":\""@ + self.channel() + "\"}"@,
            crate::key::Key::L2Diff { coin, n_sig_figs, n_levels, mantissa } => "{\"coin\":"@
                + json_text(coin) + crate::key::optional(
                ",\"mantissa\":"@,
                crate::key::nat_of_u64(mantissa),
            ) + crate::key::optional(",\"nLevels\":"@, crate::key::nat_of_usize(n_levels))
                + crate::key::optional(",\"nSigFigs\":"@, crate::key::nat_of_u32(n_sig_figs))
                + ",\"type\":\""@ + self.channel() + "\"}"@,
            _ => "{\"coin\":"@ + json_text(self.name()) + ",\"type\":\""@ + self.channel()
                + "\"}"@,
        }
    }
}

impl SubKey {
    /// The subscription as a JSON object, the way the upstream spells it.
    pub fn json(&self) -> (r: String)
        ensures
            r@ == self@.json(),
    {
        let mut s = "{\"type\":\"".to_owned();
        s.append(self.channel());
        match self {
            SubKey::OrderUpdates { .. } => s.append("\",\"user\":"),
            _ => s.append("\",\"coin\":"),
        }
        s.append(json_string(self.name()).as_str());
        match self {
            SubKey::L2Book { n_sig_figs, n_levels, mantissa, .. } => {
                push_optional(&mut s, ",\"nSigFigs\":", wide_u32(*n_sig_figs));
                push_optional(&mut s, ",\"nLevels\":", wide_usize(*n_levels));
                push_optional(&mut s, ",\"mantissa\":", *mantissa);
            },
            SubKey::L2Diff { n_sig_figs, n_levels, mantissa, .. } => {
                push_optional(&mut s, ",\"nSigFigs\":", wide_u32(*n_sig_figs));
                push_optional(&mut s, ",\"nLevels\":", wide_usize(*n_levels));
                push_optional(&mut s, ",\"mantissa\":", *mantissa);
            },
            _ => {},
        }
        s.append("}");
        assert(s@ =~= self@.json());
        s
    }

    /// The same object with its fields in alphabetical order.
    fn sorted_json(&self) -> (r: String)
        ensures
            r@ == self@.sorted_json(),
    {
        match self {
            SubKey::OrderUpdates { user } => {
                let mut s = "{\"type\":\"".to_owned();
                s.append(self.channel());
                s.append("\",\"user\":");
                s.append(json_string(user.as_str()).as_str());
                s.append("}");
                s
            },
            _ => {
                let mut s = "{\"coin\":".to_owned();
                s.append(json_string(self.name()).as_str());
                match self {
                    SubKey::L2Book { n_sig_figs, n_levels, mantissa, .. } => {
                        push_optional(&mut s, ",\"mantissa\":", *mantissa);
                        push_optional(&mut s, ",\"nLevels\":", wide_usize(*n_levels));
                        push_optional(&mut s, ",\"nSigFigs\":", wide_u32(*n_sig_figs));
                    },
                    SubKey::L2Diff { n_sig_figs, n_levels, mantissa, .. } => {
                        push_optional(&mut s, ",\"mantissa\":", *mantissa);
                        push_optional(&mut s, ",\"nLevels\":", wide_usize(*n_levels));
                        push_optional(&mut s, ",\"nSigFigs\":", wide_u32(*n_sig_figs));
                    },
                    _ => {},
                }
                s.append(",\"type\":\"");
                s.append(self.channel());
                s.append("\"}");
                s
            },
        }
    }
}

/// A `{"method":..,"subscription":..}` frame, for talking to the upstream.
pub enum SubRequest<'a> {
    Subscribe { subscription: &'a SubKey },
    Unsubscribe { subscription: &'a SubKey },
}

/// The text of a subscribe request.
pub open spec fn subscribe_text(key: crate::key::Key) -> Seq<char> {
    "{\"method\":\"subscribe\",\"subscription\":"@ + key.json() + "}"@
}

/// The text of an unsubscribe request.
pub open spec fn unsubscribe_text(key: crate::key::Key) -> Seq<char> {
    "{\"method\":\"unsubscribe\",\"subscription\":"@ + key.json() + "}"@
}

impl<'a> SubRequest<'a> {
    /// What the request says on the wire.
    pub open spec fn text(self) -> Seq<char> {
        match self {
            SubRequest::Subscribe { subscription } => subscribe_text(subscription@),
            SubRequest::Unsubscribe { subscription } => unsubscribe_text(subscription@),
        }
    }

    /// The request as JSON text.
    pub fn json(&self) -> (r: String)
        ensures
            r@ == self.text(),
    {
        match self {
            SubRequest::Subscribe { subscription } => {
                let mut s = "{\"method\":\"subscribe\",\"subscription\":".to_owned();
                s.append(subscription.json().as_str());
                s.append("}");
                s
            },
            SubRequest::Unsubscribe { subscription } => {
                let mut s = "{\"method\":\"unsubscribe\",\"subscription\":".to_owned();
                s.append(subscription.json().as_str());
                s.append("}");
                s
            },
        }
    }
}

/// The text that acknowledges a request, in the shape the upstream would use.
pub open spec fn ack_text(method: Seq<char>, key: crate::key::Key) -> Seq<char> {
    "{\"channel\":\"subscriptionResponse\",\"data\":{\"method\":\""@ + method
        + "\",\"subscription\":"@ + key.sorted_json() + "}}"@
}

/// Acknowledge a request in the same shape the upstream would.
pub(crate) fn ack(method: &str, key: &SubKey) -> (r: String)
    ensures
        r@ == ack_text(method@, key@),
{
    let mut s = "{\"channel\":\"subscriptionResponse\",\"data\":{\"method\":\"".to_owned();
    s.append(method);
    s.append("\",\"subscription\":");
    s.append(key.sorted_json().as_str());
    s.append("}}");
    s
}

} // verus!
