//! Subscription keys: what a client asks for and what a frame belongs to.

use crate::text;
use vstd::prelude::*;

verus! {

/// The upstream's `nLevels` when a client leaves it out.
///
/// It also rejects an explicit request for this depth, so no legitimate
/// subscription can carry it and folding it back to "left out" is unambiguous.
pub const DEFAULT_L2_LEVELS: usize = 20;

/// One subscription, spelled as the upstream spells it.
///
/// Identity is the whole value rather than a channel and a coin: two clients
/// that ask for different aggregation parameters are two streams, not one.
#[derive(Debug)]
pub enum SubKey {
    Trades { coin: String },
    L2Book {
        coin: String,
        n_sig_figs: Option<u32>,
        n_levels: Option<usize>,
        mantissa: Option<u64>,
    },
    /// The same book and the same parameters as `L2Book`, sent as one snapshot
    /// followed by only what changed.
    L2Diff {
        coin: String,
        n_sig_figs: Option<u32>,
        n_levels: Option<usize>,
        mantissa: Option<u64>,
    },
    L4Book { coin: String },
    Bbo { coin: String },
    OrderUpdates { user: String },
    BookDiffs { coin: String },
}

/// What a `SubKey` denotes: the same value with its text as characters.
pub ghost enum Key {
    Trades { coin: Seq<char> },
    L2Book {
        coin: Seq<char>,
        n_sig_figs: Option<u32>,
        n_levels: Option<usize>,
        mantissa: Option<u64>,
    },
    L2Diff {
        coin: Seq<char>,
        n_sig_figs: Option<u32>,
        n_levels: Option<usize>,
        mantissa: Option<u64>,
    },
    L4Book { coin: Seq<char> },
    Bbo { coin: Seq<char> },
    OrderUpdates { user: Seq<char> },
    BookDiffs { coin: Seq<char> },
}

impl View for SubKey {
    type V = Key;

    open spec fn view(&self) -> Key {
        match *self {
            SubKey::Trades { coin } => Key::Trades { coin: coin@ },
            SubKey::L2Book { coin, n_sig_figs, n_levels, mantissa } => Key::L2Book {
                coin: coin@,
                n_sig_figs,
                n_levels,
                mantissa,
            },
            SubKey::L2Diff { coin, n_sig_figs, n_levels, mantissa } => Key::L2Diff {
                coin: coin@,
                n_sig_figs,
                n_levels,
                mantissa,
            },
            SubKey::L4Book { coin } => Key::L4Book { coin: coin@ },
            SubKey::Bbo { coin } => Key::Bbo { coin: coin@ },
            SubKey::OrderUpdates { user } => Key::OrderUpdates { user: user@ },
            SubKey::BookDiffs { coin } => Key::BookDiffs { coin: coin@ },
        }
    }
}

impl PartialEq for SubKey {
    fn eq(&self, other: &Self) -> (r: bool) {
        match (self, other) {
            (SubKey::Trades { coin: a }, SubKey::Trades { coin: b }) => *a == *b,
            (SubKey::L4Book { coin: a }, SubKey::L4Book { coin: b }) => *a == *b,
            (SubKey::Bbo { coin: a }, SubKey::Bbo { coin: b }) => *a == *b,
            (SubKey::OrderUpdates { user: a }, SubKey::OrderUpdates { user: b }) => *a == *b,
            (SubKey::BookDiffs { coin: a }, SubKey::BookDiffs { coin: b }) => *a == *b,
            (
                SubKey::L2Book { coin: a, n_sig_figs: s, n_levels: l, mantissa: m },
                SubKey::L2Book { coin: b, n_sig_figs: t, n_levels: k, mantissa: n },
            ) => *a == *b && *s == *t && *l == *k && *m == *n,
            (
                SubKey::L2Diff { coin: a, n_sig_figs: s, n_levels: l, mantissa: m },
                SubKey::L2Diff { coin: b, n_sig_figs: t, n_levels: k, mantissa: n },
            ) => *a == *b && *s == *t && *l == *k && *m == *n,
            _ => false,
        }
    }
}

impl vstd::std_specs::cmp::PartialEqSpecImpl for SubKey {
    open spec fn obeys_eq_spec() -> bool {
        true
    }

    open spec fn eq_spec(&self, other: &Self) -> bool {
        self@ == other@
    }
}

impl Eq for SubKey {

}

impl Clone for SubKey {
    fn clone(&self) -> (r: Self)
        ensures
            r@ == self@,
    {
        match self {
            SubKey::Trades { coin } => SubKey::Trades { coin: coin.clone() },
            SubKey::L2Book { coin, n_sig_figs, n_levels, mantissa } => SubKey::L2Book {
                coin: coin.clone(),
                n_sig_figs: *n_sig_figs,
                n_levels: *n_levels,
                mantissa: *mantissa,
            },
            SubKey::L2Diff { coin, n_sig_figs, n_levels, mantissa } => SubKey::L2Diff {
                coin: coin.clone(),
                n_sig_figs: *n_sig_figs,
                n_levels: *n_levels,
                mantissa: *mantissa,
            },
            SubKey::L4Book { coin } => SubKey::L4Book { coin: coin.clone() },
            SubKey::Bbo { coin } => SubKey::Bbo { coin: coin.clone() },
            SubKey::OrderUpdates { user } => SubKey::OrderUpdates { user: user.clone() },
            SubKey::BookDiffs { coin } => SubKey::BookDiffs { coin: coin.clone() },
        }
    }
}

impl Key {
    /// The channel's name on the wire.
    pub open spec fn channel(self) -> Seq<char> {
        match self {
            Key::Trades { .. } => "trades"@,
            Key::L2Book { .. } => "l2Book"@,
            Key::L2Diff { .. } => "l2Diff"@,
            Key::L4Book { .. } => "l4Book"@,
            Key::Bbo { .. } => "bbo"@,
            Key::OrderUpdates { .. } => "orderUpdates"@,
            Key::BookDiffs { .. } => "bookDiffs"@,
        }
    }

    /// The coin, or the user on the one channel that is keyed by user.
    pub open spec fn name(self) -> Seq<char> {
        match self {
            Key::Trades { coin } => coin,
            Key::L2Book { coin, .. } => coin,
            Key::L2Diff { coin, .. } => coin,
            Key::L4Book { coin } => coin,
            Key::Bbo { coin } => coin,
            Key::OrderUpdates { user } => user,
            Key::BookDiffs { coin } => coin,
        }
    }

    /// Whether the channel streams increments against a prior snapshot.
    pub open spec fn incremental(self) -> bool {
        self is L4Book || self is L2Diff
    }

    /// Whether one source carries the whole stream.
    pub open spec fn single_sourced(self) -> bool {
        self is L2Book || self is L2Diff
    }

    /// The one spelling that a client request and an upstream frame share: user
    /// addresses in small letters, and the upstream's default depth left out.
    pub open spec fn normalized(self) -> Key {
        match self {
            Key::OrderUpdates { user } => Key::OrderUpdates { user: text::lowered(user) },
            Key::L2Book { coin, n_sig_figs, n_levels, mantissa } => Key::L2Book {
                coin,
                n_sig_figs,
                n_levels: without_default(n_levels),
                mantissa,
            },
            Key::L2Diff { coin, n_sig_figs, n_levels, mantissa } => Key::L2Diff {
                coin,
                n_sig_figs,
                n_levels: without_default(n_levels),
                mantissa,
            },
            other => other,
        }
    }

    /// Whether the key can be shortened for display: a long user address is cut
    /// after its first six and before its last four bytes, which must not fall
    /// inside a character.
    pub open spec fn can_label(self) -> bool {
        match self {
            Key::OrderUpdates { user } => {
                let bytes = vstd::utf8::encode_utf8(user);
                bytes.len() > 10 ==> {
                    &&& vstd::utf8::is_char_boundary(bytes, 6)
                    &&& vstd::utf8::is_char_boundary(bytes, bytes.len() - 4)
                }
            },
            _ => true,
        }
    }

    /// Compact one-line label.
    pub open spec fn label(self) -> Seq<char> {
        match self {
            Key::OrderUpdates { user } => "orderUpdates:"@ + short_user(user),
            Key::L2Book { coin, n_sig_figs, n_levels, mantissa } => "l2Book"@ + ":"@ + coin
                + depth_label(n_sig_figs, n_levels, mantissa),
            Key::L2Diff { coin, n_sig_figs, n_levels, mantissa } => "l2Diff"@ + ":"@ + coin
                + depth_label(n_sig_figs, n_levels, mantissa),
            _ => self.channel() + ":"@ + self.name(),
        }
    }
}

/// A requested depth, with the upstream's default read as "left out".
pub open spec fn without_default(n_levels: Option<usize>) -> Option<usize> {
    if n_levels == Some(DEFAULT_L2_LEVELS) {
        None
    } else {
        n_levels
    }
}

/// A user address as the stats page shows it.
pub open spec fn short_user(user: Seq<char>) -> Seq<char> {
    let bytes = vstd::utf8::encode_utf8(user);
    if bytes.len() > 10 {
        vstd::utf8::decode_utf8(bytes.take(6)) + "…"@ + vstd::utf8::decode_utf8(
            bytes.skip(bytes.len() - 4),
        )
    } else {
        user
    }
}

/// An optional number behind its prefix, or nothing.
pub open spec fn optional(prefix: Seq<char>, n: Option<nat>) -> Seq<char> {
    match n {
        Some(v) => prefix + text::digits(v),
        None => seq![],
    }
}

pub open spec fn nat_of_u32(n: Option<u32>) -> Option<nat> {
    match n {
        Some(v) => Some(v as nat),
        None => None,
    }
}

pub open spec fn nat_of_usize(n: Option<usize>) -> Option<nat> {
    match n {
        Some(v) => Some(v as nat),
        None => None,
    }
}

pub open spec fn nat_of_u64(n: Option<u64>) -> Option<nat> {
    match n {
        Some(v) => Some(v as nat),
        None => None,
    }
}

/// The aggregation parameters as the stats page shows them.
pub open spec fn depth_label(
    n_sig_figs: Option<u32>,
    n_levels: Option<usize>,
    mantissa: Option<u64>,
) -> Seq<char> {
    optional("/sf"@, nat_of_u32(n_sig_figs)) + optional("/n"@, nat_of_usize(n_levels)) + optional(
        "/m"@,
        nat_of_u64(mantissa),
    )
}

/// Append an optional number behind its prefix.
pub(crate) fn push_optional(out: &mut String, prefix: &str, n: Option<u64>)
    ensures
        final(out)@ == old(out)@ + optional(prefix@, nat_of_u64(n)),
{
    let ghost before = out@;
    match n {
        Some(v) => {
            out.append(prefix);
            out.append(text::decimal(v).as_str());
            assert(out@ =~= before + (prefix@ + text::digits(v as nat)));
        },
        None => {
            assert(out@ =~= before + Seq::<char>::empty());
        },
    }
}

pub(crate) fn wide_u32(n: Option<u32>) -> (r: Option<u64>)
    ensures
        nat_of_u64(r) == nat_of_u32(n),
{
    match n {
        Some(v) => Some(v as u64),
        None => None,
    }
}

pub(crate) fn wide_usize(n: Option<usize>) -> (r: Option<u64>)
    ensures
        nat_of_u64(r) == nat_of_usize(n),
{
    match n {
        Some(v) => Some(v as u64),
        None => None,
    }
}

fn fold_default(n_levels: Option<usize>) -> (r: Option<usize>)
    ensures
        r == without_default(n_levels),
{
    match n_levels {
        Some(n) => if n == DEFAULT_L2_LEVELS {
            None
        } else {
            Some(n)
        },
        None => None,
    }
}

impl SubKey {
    /// The channel's name on the wire.
    pub fn channel(&self) -> (r: &'static str)
        ensures
            r@ == self@.channel(),
    {
        match self {
            SubKey::Trades { .. } => "trades",
            SubKey::L2Book { .. } => "l2Book",
            SubKey::L2Diff { .. } => "l2Diff",
            SubKey::L4Book { .. } => "l4Book",
            SubKey::Bbo { .. } => "bbo",
            SubKey::OrderUpdates { .. } => "orderUpdates",
            SubKey::BookDiffs { .. } => "bookDiffs",
        }
    }

    /// The coin, or the user on the one channel that is keyed by user.
    pub fn name(&self) -> (r: &str)
        ensures
            r@ == self@.name(),
    {
        match self {
            SubKey::Trades { coin } => coin.as_str(),
            SubKey::L2Book { coin, .. } => coin.as_str(),
            SubKey::L2Diff { coin, .. } => coin.as_str(),
            SubKey::L4Book { coin } => coin.as_str(),
            SubKey::Bbo { coin } => coin.as_str(),
            SubKey::OrderUpdates { user } => user.as_str(),
            SubKey::BookDiffs { coin } => coin.as_str(),
        }
    }

    /// The one spelling of a key that a client request and an upstream frame
    /// both arrive at. Were the two to disagree, the frames would route to an
    /// entry with no subscribers: the client would be acknowledged and then hear
    /// nothing at all.
    pub fn normalized(self) -> (r: SubKey)
        ensures
            r@ == self@.normalized(),
    {
        match self {
            SubKey::OrderUpdates { user } => SubKey::OrderUpdates {
                user: text::to_ascii_lowercase(user.as_str()),
            },
            SubKey::L2Book { coin, n_sig_figs, n_levels, mantissa } => SubKey::L2Book {
                coin,
                n_sig_figs,
                n_levels: fold_default(n_levels),
                mantissa,
            },
            SubKey::L2Diff { coin, n_sig_figs, n_levels, mantissa } => SubKey::L2Diff {
                coin,
                n_sig_figs,
                n_levels: fold_default(n_levels),
                mantissa,
            },
            other => other,
        }
    }

    /// Whether the channel streams increments against a prior snapshot, so that
    /// a dropped or out-of-order frame corrupts the client's book for good.
    pub fn is_incremental(&self) -> (r: bool)
        ensures
            r == self@.incremental(),
    {
        match self {
            SubKey::L4Book { .. } => true,
            SubKey::L2Diff { .. } => true,
            _ => false,
        }
    }

    /// Whether one source carries the whole stream rather than a stamp or a
    /// position within one.
    pub fn single_sourced(&self) -> (r: bool)
        ensures
            r == self@.single_sourced(),
    {
        match self {
            SubKey::L2Book { .. } => true,
            SubKey::L2Diff { .. } => true,
            _ => false,
        }
    }

    /// Whether `label` can be called on this key.
    pub fn can_label(&self) -> (r: bool)
        ensures
            r == self@.can_label(),
    {
        match self {
            SubKey::OrderUpdates { user } => {
                let n = user.as_str().as_bytes().len();
                n <= 10 || (user.as_str().is_char_boundary(6) && user.as_str().is_char_boundary(
                    n - 4,
                ))
            },
            _ => true,
        }
    }

    /// Compact one-line label for the stats page.
    pub fn label(&self) -> (r: String)
        requires
            self@.can_label(),
        ensures
            r@ == self@.label(),
    {
        let mut s = self.channel().to_owned();
        s.append(":");
        match self {
            SubKey::OrderUpdates { user } => {
                let n = user.as_str().as_bytes().len();
                proof {
                    reveal_strlit("orderUpdates");
                    reveal_strlit(":");
                    reveal_strlit("orderUpdates:");
                    assert("orderUpdates"@ + ":"@ =~= "orderUpdates:"@);
                }
                if n > 10 {
                    let (head, _) = user.as_str().split_at(6);
                    let (_, tail) = user.as_str().split_at(n - 4);
                    s.append(head);
                    s.append("…");
                    s.append(tail);
                    proof {
                        broadcast use vstd::utf8::encode_utf8_decode_utf8;

                        let bytes = vstd::utf8::encode_utf8(user@);
                        assert(vstd::utf8::encode_utf8(head@) =~= bytes.take(6));
                        assert(vstd::utf8::encode_utf8(tail@) =~= bytes.skip(bytes.len() - 4));
                        assert(head@ == vstd::utf8::decode_utf8(bytes.take(6)));
                        assert(tail@ == vstd::utf8::decode_utf8(bytes.skip(bytes.len() - 4)));
                        assert(s@ =~= "orderUpdates:"@ + short_user(user@));
                    }
                } else {
                    s.append(user.as_str());
                    assert(s@ =~= "orderUpdates:"@ + short_user(user@));
                }
                s
            },
            SubKey::L2Book { coin, n_sig_figs, n_levels, mantissa } => {
                s.append(coin.as_str());
                push_optional(&mut s, "/sf", wide_u32(*n_sig_figs));
                push_optional(&mut s, "/n", wide_usize(*n_levels));
                push_optional(&mut s, "/m", *mantissa);
                assert(s@ =~= self@.label());
                s
            },
            SubKey::L2Diff { coin, n_sig_figs, n_levels, mantissa } => {
                s.append(coin.as_str());
                push_optional(&mut s, "/sf", wide_u32(*n_sig_figs));
                push_optional(&mut s, "/n", wide_usize(*n_levels));
                push_optional(&mut s, "/m", *mantissa);
                assert(s@ =~= self@.label());
                s
            },
            _ => {
                s.append(self.name());
                s
            },
        }
    }
}

// ---------------------------------------------------------------------------
// Keys as plain tuples
// ---------------------------------------------------------------------------

/// A key taken apart: which channel, its name, and the aggregation parameters.
/// This is the form in which keys are hashed.
pub type KeyParts = (u8, String, Option<u32>, Option<usize>, Option<u64>);

impl Key {
    /// The key taken apart.
    pub open spec fn parts(self) -> (u8, Seq<char>, Option<u32>, Option<usize>, Option<u64>) {
        match self {
            Key::Trades { coin } => (0, coin, None, None, None),
            Key::L2Book { coin, n_sig_figs, n_levels, mantissa } => (
                1,
                coin,
                n_sig_figs,
                n_levels,
                mantissa,
            ),
            Key::L2Diff { coin, n_sig_figs, n_levels, mantissa } => (
                2,
                coin,
                n_sig_figs,
                n_levels,
                mantissa,
            ),
            Key::L4Book { coin } => (3, coin, None, None, None),
            Key::Bbo { coin } => (4, coin, None, None, None),
            Key::OrderUpdates { user } => (5, user, None, None, None),
            Key::BookDiffs { coin } => (6, coin, None, None, None),
        }
    }
}

/// Whether these are the parts of some key.
pub open spec fn are_parts(p: (u8, Seq<char>, Option<u32>, Option<usize>, Option<u64>)) -> bool {
    &&& p.0 <= 6
    &&& p.0 != 1 && p.0 != 2 ==> p.2 is None && p.3 is None && p.4 is None
}

/// The key put together again.
pub open spec fn from_parts(p: (u8, Seq<char>, Option<u32>, Option<usize>, Option<u64>)) -> Key {
    if p.0 == 0 {
        Key::Trades { coin: p.1 }
    } else if p.0 == 1 {
        Key::L2Book { coin: p.1, n_sig_figs: p.2, n_levels: p.3, mantissa: p.4 }
    } else if p.0 == 2 {
        Key::L2Diff { coin: p.1, n_sig_figs: p.2, n_levels: p.3, mantissa: p.4 }
    } else if p.0 == 3 {
        Key::L4Book { coin: p.1 }
    } else if p.0 == 4 {
        Key::Bbo { coin: p.1 }
    } else if p.0 == 5 {
        Key::OrderUpdates { user: p.1 }
    } else {
        Key::BookDiffs { coin: p.1 }
    }
}

/// A key is its parts and nothing else: putting the parts together again gives
/// the key back, so two keys with the same parts are the same.
pub proof fn law_parts_identify_the_key(k: Key)
    ensures
        from_parts(k.parts()) == k,
        are_parts(k.parts()),
{
}

/// Distinct keys stay distinct unless they spell the same subscription: two keys
/// share a normal form only if they differ in nothing but the case of a user
/// address or the spelling of the default depth.
pub proof fn law_normalized_keeps_parameters(a: Key, b: Key)
    requires
        a.normalized() == b.normalized(),
    ensures
        a.channel() == b.channel(),
        a.parts().2 == b.parts().2,
        without_default(a.parts().3) == without_default(b.parts().3),
        a.parts().4 == b.parts().4,
        text::lowered(a.name()) == text::lowered(b.name()),
        !(a is OrderUpdates) ==> a.name() == b.name(),
{
}

/// Normalizing twice is normalizing once.
pub proof fn law_normalized_is_idempotent(k: Key)
    ensures
        k.normalized().normalized() == k.normalized(),
{
    if let Key::OrderUpdates { user } = k {
        text::lemma_lowered_idempotent(user);
    }
}

impl SubKey {
    /// The key taken apart.
    pub(crate) fn to_parts(&self) -> (p: KeyParts)
        ensures
            p@ == self@.parts(),
    {
        match self {
            SubKey::Trades { coin } => (0, coin.clone(), None, None, None),
            SubKey::L2Book { coin, n_sig_figs, n_levels, mantissa } => (
                1,
                coin.clone(),
                *n_sig_figs,
                *n_levels,
                *mantissa,
            ),
            SubKey::L2Diff { coin, n_sig_figs, n_levels, mantissa } => (
                2,
                coin.clone(),
                *n_sig_figs,
                *n_levels,
                *mantissa,
            ),
            SubKey::L4Book { coin } => (3, coin.clone(), None, None, None),
            SubKey::Bbo { coin } => (4, coin.clone(), None, None, None),
            SubKey::OrderUpdates { user } => (5, user.clone(), None, None, None),
            SubKey::BookDiffs { coin } => (6, coin.clone(), None, None, None),
        }
    }

    /// The key put together again.
    pub(crate) fn of_parts(p: KeyParts) -> (k: SubKey)
        requires
            are_parts(p@),
        ensures
            k@ == from_parts(p@),
            k@.parts() == p@,
    {
        let (tag, name, n_sig_figs, n_levels, mantissa) = p;
        if tag == 0 {
            SubKey::Trades { coin: name }
        } else if tag == 1 {
            SubKey::L2Book { coin: name, n_sig_figs, n_levels, mantissa }
        } else if tag == 2 {
            SubKey::L2Diff { coin: name, n_sig_figs, n_levels, mantissa }
        } else if tag == 3 {
            SubKey::L4Book { coin: name }
        } else if tag == 4 {
            SubKey::Bbo { coin: name }
        } else if tag == 5 {
            SubKey::OrderUpdates { user: name }
        } else {
            SubKey::BookDiffs { coin: name }
        }
    }
}

} // verus!
