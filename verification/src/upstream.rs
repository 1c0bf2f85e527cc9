//! Frames from the upstream sources: which subscription a frame belongs to, how
//! it is ordered, whether it is fresh enough to count, and what becomes of it.

use crate::arbitration::Stamp;
use crate::key::SubKey;
use crate::state::{AppState, Source, Update};
use crate::stats::SourceStats;
use crate::text;
use vstd::prelude::*;

verus! {

/// How far ahead of the clock a frame's block time may be before it is refused,
/// in milliseconds.
///
/// One frame stamped further ahead than this would pin the key's high-water mark
/// there and silence every real frame until wall time caught up.
pub const FUTURE_LIMIT: u64 = 5000;

// ---------------------------------------------------------------------------
// Frames
// ---------------------------------------------------------------------------

/// What routing and ordering need of an upstream frame. Everything else, the
/// levels and the order bodies, is left in the text.
pub enum Frame {
    Bbo(CoinTime),
    L2Book(L2Head),
    Trades(Vec<TradeHead>),
    OrderUpdates(Vec<OrderUpdateHead>),
    L4Book(L4Frame),
    L2Diff(L2DiffFrame),
    Error(String),
}

pub struct CoinTime {
    pub coin: String,
    pub time: u64,
}

pub struct L2Head {
    pub coin: String,
    pub time: u64,
    pub n_sig_figs: Option<u32>,
    pub n_levels: Option<usize>,
    pub mantissa: Option<u64>,
}

pub struct TradeHead {
    pub coin: String,
    pub tid: u64,
}

pub struct OrderUpdateHead {
    pub user: String,
    pub height: u64,
}

pub struct CoinOnly {
    pub coin: String,
}

/// `l2Diff` opens with a snapshot and goes on with increments. Both carry the
/// same head.
pub enum L2DiffFrame {
    Snapshot(L2DiffHead),
    Updates(L2DiffHead),
}

pub struct L2DiffHead {
    pub coin: String,
    pub height: u64,
    pub n_sig_figs: Option<u32>,
    pub n_levels: Option<usize>,
    pub mantissa: Option<u64>,
}

/// `l4Book` opens with a snapshot and goes on with increments.
pub enum L4Frame {
    Snapshot { coin: String, height: u64 },
    Updates(L4Updates),
}

pub struct L4Updates {
    pub height: u64,
    pub order_statuses: Vec<StatusHead>,
    pub book_diffs: Vec<CoinOnly>,
}

pub struct StatusHead {
    pub order: CoinOnly,
}

// ---------------------------------------------------------------------------
// Routing
// ---------------------------------------------------------------------------

/// The newest trade id of a batch.
pub open spec fn newest_trade(v: Seq<TradeHead>) -> u64
    decreases v.len(),
{
    if v.len() == 0 {
        0
    } else if v.last().tid > newest_trade(v.drop_last()) {
        v.last().tid
    } else {
        newest_trade(v.drop_last())
    }
}

/// The greatest height of a batch.
pub open spec fn newest_height(v: Seq<OrderUpdateHead>) -> u64
    decreases v.len(),
{
    if v.len() == 0 {
        0
    } else if v.last().height > newest_height(v.drop_last()) {
        v.last().height
    } else {
        newest_height(v.drop_last())
    }
}

impl L2DiffHead {
    /// The subscription that the frame belongs to.
    pub open spec fn spec_key(self) -> crate::key::Key {
        crate::key::Key::L2Diff {
            coin: self.coin@,
            n_sig_figs: self.n_sig_figs,
            n_levels: self.n_levels,
            mantissa: self.mantissa,
        }
    }

    /// The subscription that the frame belongs to.
    fn key(self) -> (k: SubKey)
        ensures
            k@ == self.spec_key(),
    {
        SubKey::L2Diff {
            coin: self.coin,
            n_sig_figs: self.n_sig_figs,
            n_levels: self.n_levels,
            mantissa: self.mantissa,
        }
    }
}

impl L4Updates {
    /// The coin, which the frame does not carry itself: one of its two arrays is
    /// filled, and its elements do.
    pub open spec fn coin(self) -> Option<Seq<char>> {
        if self.order_statuses@.len() > 0 {
            Some(self.order_statuses@[0].order.coin@)
        } else if self.book_diffs@.len() > 0 {
            Some(self.book_diffs@[0].coin@)
        } else {
            None
        }
    }
}

/// The subscription a frame names, as the frame spells it, and the value it is
/// ordered by.
pub open spec fn routed_raw(frame: Frame) -> Option<(crate::key::Key, Stamp)> {
    match frame {
        Frame::Bbo(d) => Some((crate::key::Key::Bbo { coin: d.coin@ }, Stamp::Lead(d.time))),
        Frame::L2Book(d) => Some(
            (
                crate::key::Key::L2Book {
                    coin: d.coin@,
                    n_sig_figs: d.n_sig_figs,
                    n_levels: d.n_levels,
                    mantissa: d.mantissa,
                },
                Stamp::Sticky(d.time),
            ),
        ),
        Frame::Trades(v) => if v@.len() == 0 {
            None
        } else {
            Some(
                (crate::key::Key::Trades { coin: v@[0].coin@ }, Stamp::Point(newest_trade(v@))),
            )
        },
        Frame::OrderUpdates(v) => if v@.len() == 0 {
            None
        } else {
            Some(
                (
                    crate::key::Key::OrderUpdates { user: text::lowered(v@[0].user@) },
                    Stamp::Block(newest_height(v@)),
                ),
            )
        },
        Frame::L4Book(L4Frame::Snapshot { coin, height }) => Some(
            (crate::key::Key::L4Book { coin: coin@ }, Stamp::Snapshot(height)),
        ),
        Frame::L4Book(L4Frame::Updates(u)) => match u.coin() {
            Some(coin) => Some((crate::key::Key::L4Book { coin }, Stamp::Block(u.height))),
            None => None,
        },
        Frame::L2Diff(L2DiffFrame::Snapshot(d)) => Some(
            (d.spec_key(), Stamp::Snapshot(d.height)),
        ),
        Frame::L2Diff(L2DiffFrame::Updates(d)) => Some((d.spec_key(), Stamp::Sticky(d.height))),
        Frame::Error(_) => None,
    }
}

/// The subscription a frame belongs to, and the value it is ordered by.
pub open spec fn routed(frame: Frame) -> Option<(crate::key::Key, Stamp)> {
    match routed_raw(frame) {
        Some((key, stamp)) => Some((key.normalized(), stamp)),
        None => None,
    }
}

/// What a routed frame denotes.
pub open spec fn route_view(r: Option<(SubKey, Stamp)>) -> Option<(crate::key::Key, Stamp)> {
    match r {
        Some((key, stamp)) => Some((key@, stamp)),
        None => None,
    }
}

/// A frame is filed under a normal key: the same spelling that a client's request
/// is brought to before it is acted on.
pub proof fn law_routed_keys_are_normal(frame: Frame)
    ensures
        routed(frame) matches Some((key, _)) ==> key.normalized() == key,
{
    if let Some((key, _)) = routed_raw(frame) {
        crate::key::law_normalized_is_idempotent(key);
    }
}

/// A batch is ordered by the newest id in it, so however two sources cut their
/// batches, a short one does not look newer than a long one that covers it.
pub proof fn law_batches_order_by_their_newest(v: Seq<TradeHead>, w: Seq<TradeHead>)
    requires
        forall|i: int|
            0 <= i < w.len() ==> exists|j: int|
                0 <= j < v.len() && (#[trigger] v[j]).tid == (#[trigger] w[i]).tid,
    ensures
        newest_trade(w) <= newest_trade(v),
        forall|i: int| 0 <= i < v.len() ==> (#[trigger] v[i]).tid <= newest_trade(v),
{
    lemma_newest_trade(v);
    lemma_newest_trade(w);
}

proof fn lemma_newest_trade(v: Seq<TradeHead>)
    ensures
        forall|i: int| 0 <= i < v.len() ==> (#[trigger] v[i]).tid <= newest_trade(v),
        v.len() > 0 ==> exists|i: int| 0 <= i < v.len() && (#[trigger] v[i]).tid == newest_trade(v),
    decreases v.len(),
{
    if v.len() > 0 {
        let rest = v.drop_last();
        lemma_newest_trade(rest);
        assert forall|i: int| 0 <= i < v.len() implies (#[trigger] v[i]).tid <= newest_trade(v) by {
            if i < rest.len() {
                assert(rest[i] == v[i]);
            }
        }
        if v.last().tid > newest_trade(rest) || rest.len() == 0 {
            assert(v[v.len() - 1].tid == newest_trade(v));
        } else {
            let i = choose|i: int| 0 <= i < rest.len() && (#[trigger] rest[i]).tid == newest_trade(
                rest,
            );
            assert(v[i].tid == newest_trade(v));
        }
    }
}

/// Derive the subscription a frame belongs to, and the value it is ordered by.
///
/// The key must come out identical to the one built from the client's own
/// request, or the frame lands in a subscription nobody is listening to.
pub fn route(frame: Frame) -> (r: Option<(SubKey, Stamp)>)
    ensures
        route_view(r) == routed(frame),
{
    match route_raw(frame) {
        Some((key, stamp)) => Some((key.normalized(), stamp)),
        None => None,
    }
}

fn route_raw(frame: Frame) -> (r: Option<(SubKey, Stamp)>)
    ensures
        route_view(r) == routed_raw(frame),
{
    match frame {
        // `time` is the block's time, not the update's, and the upstream
        // suppresses a frame that repeats the last one it sent on that
        // connection: how many frames a block has is not a property of the data,
        // so its positions cannot be raced.
        Frame::Bbo(d) => Some((SubKey::Bbo { coin: d.coin }, Stamp::Lead(d.time))),
        // Every frame is a whole book, so nothing breaks when the source changes;
        // but a book that stays with one node beats one a few milliseconds
        // fresher.
        Frame::L2Book(d) => Some(
            (
                SubKey::L2Book {
                    coin: d.coin,
                    n_sig_figs: d.n_sig_figs,
                    n_levels: d.n_levels,
                    mantissa: d.mantissa,
                },
                Stamp::Sticky(d.time),
            ),
        ),
        // Batched channels: the batch is ordered by the newest id it carries.
        // Two sources may cut batches differently.
        Frame::Trades(v) => {
            if v.len() == 0 {
                return None;
            }
            let mut tid: u64 = 0;
            let mut i: usize = 0;
            assert(v@.take(0) =~= seq![]);
            while i < v.len()
                invariant
                    i <= v.len(),
                    tid == newest_trade(v@.take(i as int)),
                decreases v.len() - i,
            {
                assert(v@.take(i + 1).drop_last() =~= v@.take(i as int));
                if v[i].tid > tid {
                    tid = v[i].tid;
                }
                i = i + 1;
            }
            assert(v@.take(v@.len() as int) =~= v@);
            Some((SubKey::Trades { coin: v[0].coin.clone() }, Stamp::Point(tid)))
        },
        // A block arrives as many batches all stamped with its one height.
        Frame::OrderUpdates(v) => {
            if v.len() == 0 {
                return None;
            }
            let mut height: u64 = 0;
            let mut i: usize = 0;
            assert(v@.take(0) =~= seq![]);
            while i < v.len()
                invariant
                    i <= v.len(),
                    height == newest_height(v@.take(i as int)),
                decreases v.len() - i,
            {
                assert(v@.take(i + 1).drop_last() =~= v@.take(i as int));
                if v[i].height > height {
                    height = v[i].height;
                }
                i = i + 1;
            }
            assert(v@.take(v@.len() as int) =~= v@);
            let user = text::to_ascii_lowercase(v[0].user.as_str());
            Some((SubKey::OrderUpdates { user }, Stamp::Block(height)))
        },
        Frame::L4Book(L4Frame::Snapshot { coin, height }) => Some(
            (SubKey::L4Book { coin }, Stamp::Snapshot(height)),
        ),
        // An increment means something only against the book it was computed
        // from, so one source carries the stream from end to end.
        Frame::L2Diff(L2DiffFrame::Snapshot(d)) => {
            let height = d.height;
            Some((d.key(), Stamp::Snapshot(height)))
        },
        Frame::L2Diff(L2DiffFrame::Updates(d)) => {
            let height = d.height;
            Some((d.key(), Stamp::Sticky(height)))
        },
        Frame::L4Book(L4Frame::Updates(u)) => {
            if u.order_statuses.len() > 0 {
                let coin = u.order_statuses[0].order.coin.clone();
                Some((SubKey::L4Book { coin }, Stamp::Block(u.height)))
            } else if u.book_diffs.len() > 0 {
                let coin = u.book_diffs[0].coin.clone();
                Some((SubKey::L4Book { coin }, Stamp::Block(u.height)))
            } else {
                None
            }
        },
        Frame::Error(_) => None,
    }
}

// ---------------------------------------------------------------------------
// Block time
// ---------------------------------------------------------------------------

/// Whether `"time":` stands at byte `i`.
pub open spec fn time_key_at(b: Seq<u8>, i: int) -> bool {
    &&& 0 <= i
    &&& i + 7 <= b.len()
    &&& b[i] == 34
    &&& b[i + 1] == 116
    &&& b[i + 2] == 105
    &&& b[i + 3] == 109
    &&& b[i + 4] == 101
    &&& b[i + 5] == 34
    &&& b[i + 6] == 58
}

/// Whether the first `"time":` stands at byte `i`.
pub open spec fn first_time_key_at(b: Seq<u8>, i: int) -> bool {
    time_key_at(b, i) && forall|j: int| 0 <= j < i ==> !#[trigger] time_key_at(b, j)
}

/// Whether a byte is an ASCII digit.
pub open spec fn is_digit(c: u8) -> bool {
    48 <= c <= 57
}

/// Where the run of digits that starts at byte `j` ends.
pub open spec fn digits_end(b: Seq<u8>, j: int) -> int
    decreases b.len() - j,
{
    if 0 <= j < b.len() && is_digit(b[j]) {
        digits_end(b, j + 1)
    } else {
        j
    }
}

/// The number that a run of digits spells.
pub open spec fn number(b: Seq<u8>) -> nat
    decreases b.len(),
{
    if b.len() == 0 {
        0
    } else {
        number(b.drop_last()) * 10 + (b.last() - 48) as nat
    }
}

/// The block time that a frame's text carries: the number right behind the first
/// `"time":`, if there is one and it fits.
pub open spec fn block_time(b: Seq<u8>) -> Option<u64> {
    if exists|i: int| first_time_key_at(b, i) {
        let at = choose|i: int| first_time_key_at(b, i);
        let j = at + 7;
        let n = number(b.subrange(j, digits_end(b, j)));
        if digits_end(b, j) > j && n <= u64::MAX {
            Some(n as u64)
        } else {
            None
        }
    } else {
        None
    }
}

proof fn lemma_first_time_key(b: Seq<u8>, i: int)
    requires
        first_time_key_at(b, i),
    ensures
        block_time(b) == ({
            let j = i + 7;
            let n = number(b.subrange(j, digits_end(b, j)));
            if digits_end(b, j) > j && n <= u64::MAX {
                Some(n as u64)
            } else {
                None
            }
        }),
{
    let at = choose|i: int| first_time_key_at(b, i);
    assert(first_time_key_at(b, at));
    if at < i {
        assert(!time_key_at(b, at));
    }
    if i < at {
        assert(!time_key_at(b, i));
    }
}

proof fn lemma_digits_end(b: Seq<u8>, j: int)
    requires
        0 <= j <= b.len(),
    ensures
        j <= digits_end(b, j) <= b.len(),
        forall|i: int| j <= i < digits_end(b, j) ==> is_digit(#[trigger] b[i]),
    decreases b.len() - j,
{
    if j < b.len() && is_digit(b[j]) {
        lemma_digits_end(b, j + 1);
    }
}

/// A longer run of digits does not spell a smaller number.
proof fn lemma_number_grows(b: Seq<u8>, n: int)
    requires
        0 <= n <= b.len(),
        forall|i: int| 0 <= i < b.len() ==> is_digit(#[trigger] b[i]),
    ensures
        number(b.take(n)) <= number(b),
    decreases b.len() - n,
{
    if n < b.len() {
        lemma_number_grows(b, n + 1);
        assert(b.take(n + 1).drop_last() =~= b.take(n));
        assert(is_digit(b[n]));
    } else {
        assert(b.take(n) =~= b);
    }
}

/// The block time a frame carries, in unix milliseconds.
///
/// The first `"time":` in a frame is the top-level one, while the `time` fields
/// nested inside order statuses are date strings, so requiring digits settles
/// it.
pub fn block_time_ms(text: &str) -> (t: Option<u64>)
    ensures
        t == block_time(vstd::utf8::encode_utf8(text@)),
{
    let b = text.as_bytes();
    let n = b.len();
    let mut i: usize = 0;
    while i < n && !(n - i >= 7 && b[i] == 34 && b[i + 1] == 116 && b[i + 2] == 105 && b[i + 3]
        == 109 && b[i + 4] == 101 && b[i + 5] == 34 && b[i + 6] == 58)
        invariant
            i <= n,
            n == b@.len(),
            forall|j: int| 0 <= j < i ==> !#[trigger] time_key_at(b@, j),
        decreases n - i,
    {
        i = i + 1;
    }
    if i >= n {
        proof {
            assert forall|j: int| !#[trigger] first_time_key_at(b@, j) by {
                assert(!time_key_at(b@, j));
            }
        }
        return None;
    }
    let j: usize = i + 7;
    proof {
        assert(time_key_at(b@, i as int));
        lemma_first_time_key(b@, i as int);
        lemma_digits_end(b@, j as int);
    }
    let ghost end = digits_end(b@, j as int);
    let ghost run = b@.subrange(j as int, end);
    let mut k: usize = j;
    let mut t: u64 = 0;
    assert(run.take(0) =~= seq![]);
    while k < n && 48 <= b[k] && b[k] <= 57
        invariant
            b@ == vstd::utf8::encode_utf8(text@),
            n == b@.len(),
            j <= k <= n,
            end == digits_end(b@, j as int),
            end == digits_end(b@, k as int),
            j <= end <= n,
            run == b@.subrange(j as int, end),
            forall|i: int| j <= i < end ==> is_digit(#[trigger] b@[i]),
            k <= end,
            t == number(run.take(k - j)),
            block_time(b@) == if end > j && number(run) <= u64::MAX {
                Some(number(run) as u64)
            } else {
                None
            },
        decreases n - k,
    {
        proof {
            lemma_digits_end(b@, k + 1);
            assert(run.take(k + 1 - j).drop_last() =~= run.take(k - j));
            assert(run.take(k + 1 - j).last() == b@[k as int]);
            assert forall|i: int| 0 <= i < run.len() implies is_digit(#[trigger] run[i]) by {
                assert(run[i] == b@[j + i]);
            }
            lemma_number_grows(run, k + 1 - j);
        }
        let d: u64 = (b[k] - 48) as u64;
        if t > 1844674407370955161 {
            return None;
        }
        match (t * 10).checked_add(d) {
            Some(v) => {
                t = v;
            },
            None => {
                return None;
            },
        }
        k = k + 1;
    }
    assert(k == end);
    assert(run.take(run.len() as int) =~= run);
    if k == j {
        None
    } else {
        Some(t)
    }
}

// ---------------------------------------------------------------------------
// Freshness
// ---------------------------------------------------------------------------

/// Whether a frame is fresh enough to count.
#[derive(Clone, Copy, Debug, PartialEq, Eq, Structural)]
pub enum Freshness {
    Fresh,
    /// Stamped this many milliseconds ahead of the clock.
    FromFuture(u64),
    /// Stamped this many milliseconds behind the clock, which is over the limit.
    TooOld(u64),
}

/// Whether a frame stamped `t` is fresh enough at `now`. A frame without a time
/// is.
pub open spec fn freshness_at(t: Option<u64>, now: u64, max_age: Option<u64>) -> Freshness {
    match t {
        None => Freshness::Fresh,
        Some(t) => if t > now + FUTURE_LIMIT {
            Freshness::FromFuture((t - now) as u64)
        } else {
            match max_age {
                Some(max) => if now > t + max {
                    Freshness::TooOld((now - t) as u64)
                } else {
                    Freshness::Fresh
                },
                None => Freshness::Fresh,
            }
        },
    }
}

/// Whether a frame stamped `t` is fresh enough at `now`, both in unix
/// milliseconds.
///
/// Ordering is judged relative to what has already been forwarded, and on a key
/// with no history the first frame to arrive wins however old it is. The limit
/// on frames from the future holds whether or not there is one on old ones.
pub fn freshness(t: Option<u64>, now: u64, max_age: Option<u64>) -> (f: Freshness)
    ensures
        f == freshness_at(t, now, max_age),
{
    match t {
        None => Freshness::Fresh,
        Some(t) => {
            if t > now && t - now > FUTURE_LIMIT {
                return Freshness::FromFuture(t - now);
            }
            match max_age {
                Some(max) => if now > t && now - t > max {
                    Freshness::TooOld(now - t)
                } else {
                    Freshness::Fresh
                },
                None => Freshness::Fresh,
            }
        },
    }
}

// ---------------------------------------------------------------------------
// What becomes of a frame
// ---------------------------------------------------------------------------

/// What became of a frame.
pub enum Handled {
    /// The upstream rejected a request, for this reason.
    Rejected(String),
    /// The frame belongs to no subscription.
    Unrouted,
    /// Refused: stamped this many milliseconds ahead of the clock.
    FromFuture(SubKey, u64),
    /// Refused: this many milliseconds old.
    TooOld(SubKey, u64),
    /// Ruled on.
    Ruled(Update),
}

/// Whether `h` is what becomes of a frame from the source at position `src`, and
/// `after` what it leaves behind.
pub open spec fn handles(
    before: crate::state::StateView,
    src: int,
    frame: Frame,
    text: Seq<char>,
    now: u64,
    unix_ms: u64,
    h: Handled,
    after: crate::state::StateView,
) -> bool {
    let stats = before.stats(src);
    match routed(frame) {
        None => {
            &&& after == before
            &&& match frame {
                Frame::Error(msg) => h matches Handled::Rejected(m) && m@ == msg@,
                _ => h is Unrouted,
            }
        },
        Some((key, stamp)) => match freshness_at(
            block_time(vstd::utf8::encode_utf8(text)),
            unix_ms,
            before.max_age,
        ) {
            Freshness::FromFuture(ahead) => {
                &&& h matches Handled::FromFuture(k, ms) && k@ == key && ms == ahead
                &&& after == before.with_stats(src, stats.refused_future())
            },
            Freshness::TooOld(age) => {
                &&& h matches Handled::TooOld(k, ms) && k@ == key && ms == age
                &&& after == before.with_stats(src, stats.refused_old())
            },
            Freshness::Fresh => {
                &&& after == before.updated(src, key, stamp, text, now)
                &&& h matches Handled::Ruled(u) && before.says(u, src, key, stamp, text, now)
            },
        },
    }
}

impl AppState {
    /// Apply a frame from the source at position `src`, of which `text` is the
    /// whole and `frame` the head. `now` is the caller's clock in nanoseconds,
    /// `unix_ms` the time of day.
    pub fn handle_frame(
        &mut self,
        src: usize,
        frame: Frame,
        text: &str,
        now: u64,
        unix_ms: u64,
    ) -> (h: Handled)
        requires
            old(self).inv(),
            src < old(self)@.sources.len(),
        ensures
            final(self).inv(),
            handles(old(self)@, src as int, frame, text@, now, unix_ms, h, final(self)@),
    {
        let frame = match frame {
            Frame::Error(msg) => {
                return Handled::Rejected(msg);
            },
            other => other,
        };
        match route(frame) {
            None => Handled::Unrouted,
            Some((key, stamp)) => match freshness(block_time_ms(text), unix_ms, self.max_age()) {
                Freshness::FromFuture(ahead) => {
                    self.refuse_future(src);
                    Handled::FromFuture(key, ahead)
                },
                Freshness::TooOld(age) => {
                    self.refuse_old(src);
                    Handled::TooOld(key, age)
                },
                Freshness::Fresh => Handled::Ruled(self.on_update(src, key, stamp, text, now)),
            },
        }
    }
}

// ---------------------------------------------------------------------------
// Private snapshots
// ---------------------------------------------------------------------------

/// How a source ranks for a snapshot: by how long it has been silent, and last
/// if it never delivered.
pub open spec fn staleness(s: crate::state::SourceView) -> u64 {
    match s.stats.idle_for() {
        Some(idle) => idle,
        None => u64::MAX,
    }
}

/// Whether any connected source has delivered lately.
pub open spec fn any_fresh(sources: Seq<crate::state::SourceView>) -> bool {
    exists|i: int|
        0 <= i < sources.len() && (#[trigger] sources[i]).stats.connected && staleness(sources[i])
            <= crate::stats::SILENCE_LIMIT
}

/// Whether the source at position `i` may be asked for a snapshot: it is
/// connected, and not quiet while another delivers.
pub open spec fn eligible(sources: Seq<crate::state::SourceView>, i: int) -> bool {
    &&& 0 <= i < sources.len()
    &&& sources[i].stats.connected
    &&& any_fresh(sources) ==> staleness(sources[i]) <= crate::stats::SILENCE_LIMIT
}

/// Whether position `i` is asked before position `j`: the fresher source first,
/// in configured order among equals.
pub open spec fn asked_before(sources: Seq<crate::state::SourceView>, i: int, j: int) -> bool {
    staleness(sources[i]) < staleness(sources[j]) || (staleness(sources[i]) == staleness(sources[j])
        && i < j)
}

/// Whether `ps` holds exactly the eligible positions, in the order in which they
/// are asked.
pub open spec fn is_ranking(sources: Seq<crate::state::SourceView>, ps: Seq<usize>) -> bool {
    &&& forall|i: int, j: int|
        0 <= i < j < ps.len() ==> asked_before(
            sources,
            #[trigger] ps[i] as int,
            #[trigger] ps[j] as int,
        )
    &&& forall|p: usize| #[trigger] ps.contains(p) <==> eligible(sources, p as int)
}

/// Where to go for a snapshot: each candidate's id and address.
pub open spec fn addresses(
    sources: Seq<crate::state::SourceView>,
    ps: Seq<usize>,
) -> Seq<(usize, Seq<char>)> {
    ps.map_values(|p: usize| (sources[p as int].id, sources[p as int].url))
}

/// What a list of candidates denotes.
pub open spec fn candidates_view(v: Seq<(usize, String)>) -> Seq<(usize, Seq<char>)> {
    v.map_values(|c: (usize, String)| (c.0, c.1@))
}

fn rank(stats: &SourceStats) -> (r: u64)
    ensures
        r == match stats@.idle_for() {
            Some(idle) => idle,
            None => u64::MAX,
        },
{
    match stats.idle_for() {
        Some(idle) => idle,
        None => u64::MAX,
    }
}

impl AppState {
    /// Where to fetch a private snapshot, best first.
    ///
    /// A source whose node has died still answers, with a book frozen at its last
    /// block: perfectly well formed and silently wrong to build on. A quiet
    /// source is only asked when none of them is delivering, which means the
    /// market is quiet and every book is equally current.
    pub fn snapshot_candidates(&self) -> (r: Vec<(usize, String)>)
        ensures
            exists|ps: Seq<usize>|
                is_ranking(self@.sources, ps) && candidates_view(r@) == #[trigger] addresses(
                    self@.sources,
                    ps,
                ),
    {
        let ghost all = self@.sources;
        let sources = self.sources();
        let n = sources.len();
        let mut fresh = false;
        let mut i: usize = 0;
        while i < n
            invariant
                i <= n,
                n == sources@.len(),
                all == sources@.map_values(|s: Source| s@),
                fresh == exists|j: int|
                    0 <= j < i && (#[trigger] all[j]).stats.connected && staleness(all[j])
                        <= crate::stats::SILENCE_LIMIT,
            decreases n - i,
        {
            assert(all[i as int] == sources@[i as int]@);
            if sources[i].stats.connected() && rank(&sources[i].stats)
                <= crate::stats::SILENCE_LIMIT {
                fresh = true;
            }
            i = i + 1;
        }
        assert(fresh == any_fresh(all));
        let mut ps: Vec<usize> = Vec::new();
        let mut i: usize = 0;
        while i < n
            invariant
                i <= n,
                n == sources@.len(),
                all == sources@.map_values(|s: Source| s@),
                fresh == any_fresh(all),
                forall|a: int, b: int|
                    0 <= a < b < ps@.len() ==> asked_before(
                        all,
                        #[trigger] ps@[a] as int,
                        #[trigger] ps@[b] as int,
                    ),
                forall|p: usize| #[trigger] ps@.contains(p) <==> p < i && eligible(all, p as int),
            decreases n - i,
        {
            assert(all[i as int] == sources@[i as int]@);
            let r = rank(&sources[i].stats);
            if sources[i].stats.connected() && (!fresh || r <= crate::stats::SILENCE_LIMIT) {
                let mut at: usize = 0;
                proof {
                    assert forall|a: int| 0 <= a < ps@.len() implies (#[trigger] ps@[a]) < i
                        && ps@[a] < n by {
                        assert(ps@.contains(ps@[a]));
                    }
                }
                while at < ps.len() && rank(&sources[ps[at]].stats) <= r
                    invariant
                        i < n,
                        n == sources@.len(),
                        all == sources@.map_values(|s: Source| s@),
                        at <= ps@.len(),
                        r == staleness(all[i as int]),
                        forall|p: usize| #[trigger]
                            ps@.contains(p) <==> p < i && eligible(all, p as int),
                        forall|a: int|
                            0 <= a < ps@.len() ==> (#[trigger] ps@[a]) < i && ps@[a] < n,
                        forall|a: int|
                            0 <= a < at ==> staleness(all[#[trigger] ps@[a] as int]) <= r,
                    decreases ps.len() - at,
                {
                    assert(all[ps@[at as int] as int] == sources@[ps@[at as int] as int]@);
                    at = at + 1;
                }
                let ghost was = ps@;
                proof {
                    assert forall|a: int| 0 <= a < was.len() implies (#[trigger] was[a]) < i by {
                        assert(was.contains(was[a]));
                    }
                    if at < was.len() {
                        assert(all[was[at as int] as int] == sources@[was[at as int] as int]@);
                    }
                }
                ps.insert(at, i);
                proof {
                    lemma_inserted(all, was, ps@, at as int, i);
                }
            }
            i = i + 1;
        }
        let mut r: Vec<(usize, String)> = Vec::new();
        let mut k: usize = 0;
        assert(candidates_view(r@) =~= addresses(all, ps@.take(0)));
        while k < ps.len()
            invariant
                k <= ps.len(),
                n == sources@.len(),
                all == sources@.map_values(|s: Source| s@),
                forall|p: usize| #[trigger] ps@.contains(p) ==> p < n,
                candidates_view(r@) == addresses(all, ps@.take(k as int)),
            decreases ps.len() - k,
        {
            let p = ps[k];
            assert(ps@.contains(p));
            assert(all[p as int] == sources@[p as int]@);
            let ghost before = candidates_view(r@);
            r.push((sources[p].id, sources[p].url.clone()));
            assert(candidates_view(r@) =~= before.push((all[p as int].id, all[p as int].url)));
            assert(addresses(all, ps@.take(k + 1)) =~= addresses(all, ps@.take(k as int)).push(
                (all[p as int].id, all[p as int].url),
            ));
            k = k + 1;
        }
        assert(ps@.take(ps@.len() as int) =~= ps@);
        assert(is_ranking(all, ps@) && candidates_view(r@) == addresses(all, ps@));
        r
    }
}

proof fn lemma_inserted(
    all: Seq<crate::state::SourceView>,
    was: Seq<usize>,
    is: Seq<usize>,
    at: int,
    i: usize,
)
    requires
        0 <= at <= was.len(),
        is == was.insert(at, i),
        forall|a: int, b: int|
            0 <= a < b < was.len() ==> asked_before(
                all,
                #[trigger] was[a] as int,
                #[trigger] was[b] as int,
            ),
        forall|a: int| 0 <= a < was.len() ==> (#[trigger] was[a]) < i,
        forall|a: int|
            0 <= a < at ==> staleness(all[#[trigger] was[a] as int]) <= staleness(all[i as int]),
        at < was.len() ==> staleness(all[was[at] as int]) > staleness(all[i as int]),
    ensures
        forall|a: int, b: int|
            0 <= a < b < is.len() ==> asked_before(
                all,
                #[trigger] is[a] as int,
                #[trigger] is[b] as int,
            ),
        forall|p: usize| #[trigger] is.contains(p) <==> was.contains(p) || p == i,
{
    assert forall|a: int, b: int| 0 <= a < b < is.len() implies asked_before(
        all,
        #[trigger] is[a] as int,
        #[trigger] is[b] as int,
    ) by {
        if a < at && b == at {
            assert(is[a] == was[a]);
        } else if a == at && b > at {
            assert(is[b] == was[b - 1]);
            if b - 1 > at {
                assert(asked_before(all, was[at] as int, was[b - 1] as int));
            }
        } else {
            let x = if a < at { a } else { a - 1 };
            let y = if b < at { b } else { b - 1 };
            assert(is[a] == was[x] && is[b] == was[y]);
            assert(asked_before(all, was[x] as int, was[y] as int));
        }
    }
    assert forall|p: usize| #[trigger] is.contains(p) <==> was.contains(p) || p == i by {
        if was.contains(p) {
            let a = was.index_of(p);
            if a < at {
                assert(is[a] == p);
            } else {
                assert(is[a + 1] == p);
            }
        }
        if p == i {
            assert(is[at] == p);
        }
        if is.contains(p) && p != i {
            let a = is.index_of(p);
            if a < at {
                assert(was[a] == p);
            } else {
                assert(was[a - 1] == p);
            }
        }
    }
}

/// Of two rankings of the same sources, the one is the other.
pub proof fn law_ranking_is_unique(
    sources: Seq<crate::state::SourceView>,
    ps: Seq<usize>,
    qs: Seq<usize>,
)
    requires
        is_ranking(sources, ps),
        is_ranking(sources, qs),
    ensures
        ps == qs,
{
    let before = |i: usize, j: usize| asked_before(sources, i as int, j as int);
    assert forall|p: usize| #[trigger] ps.contains(p) <==> qs.contains(p) by {
        assert(qs.contains(p) <==> eligible(sources, p as int));
    }
    assert forall|a: int, b: int| 0 <= a < b < ps.len() implies #[trigger] before(
        ps[a],
        ps[b],
    ) by {
        assert(asked_before(sources, ps[a] as int, ps[b] as int));
    }
    assert forall|a: int, b: int| 0 <= a < b < qs.len() implies #[trigger] before(
        qs[a],
        qs[b],
    ) by {
        assert(asked_before(sources, qs[a] as int, qs[b] as int));
    }
    crate::order::lemma_ranked_unique(before, ps, qs);
}

/// Whether a frame is the snapshot that was asked for, and at what height it was
/// taken.
pub open spec fn snapshot_height(frame: Frame, key: crate::key::Key) -> Option<u64> {
    match routed(frame) {
        Some((found, Stamp::Snapshot(height))) => if found == key {
            Some(height)
        } else {
            None
        },
        _ => None,
    }
}

/// Whether a frame is the snapshot of `key` that was asked for, and at what
/// height it was taken. Asked of the routing rather than channel by channel, so
/// that every incremental channel is covered.
pub fn snapshot_for(frame: Frame, key: &SubKey) -> (height: Option<u64>)
    ensures
        height == snapshot_height(frame, key@),
{
    match route(frame) {
        Some((found, stamp)) => match stamp {
            Stamp::Snapshot(height) => if found == *key {
                Some(height)
            } else {
                None
            },
            _ => None,
        },
        None => None,
    }
}

// ---------------------------------------------------------------------------
// The connection to a source
// ---------------------------------------------------------------------------

/// How long to wait before the first attempt to reconnect, in milliseconds.
pub const RECONNECT_MIN: u64 = 250;

/// The longest wait between two attempts, in milliseconds.
pub const RECONNECT_MAX: u64 = 10000;

/// How long to wait for a snapshot before giving up on a source, in seconds.
pub const SNAPSHOT_TIMEOUT: u64 = 120;

/// The largest message that is taken from a source. An `l4Book` snapshot runs to
/// tens of megabytes.
pub const MAX_MESSAGE: usize = 268435456;

/// Twice the wait, up to the longest.
pub open spec fn doubled(wait: u64) -> u64 {
    if 2 * wait < RECONNECT_MAX {
        (2 * wait) as u64
    } else {
        RECONNECT_MAX
    }
}

/// The wait between two attempts to connect.
pub struct Backoff {
    wait: u64,
}

impl View for Backoff {
    type V = u64;

    closed spec fn view(&self) -> u64 {
        self.wait
    }
}

impl Backoff {
    /// The wait is within its bounds.
    pub open spec fn wf(&self) -> bool {
        RECONNECT_MIN <= self@ <= RECONNECT_MAX
    }

    /// Before the first attempt.
    pub fn new() -> (b: Backoff)
        ensures
            b@ == RECONNECT_MIN,
            b.wf(),
    {
        Backoff { wait: RECONNECT_MIN }
    }

    /// An attempt has connected: start over.
    pub fn connected(&mut self)
        ensures
            final(self)@ == RECONNECT_MIN,
            final(self).wf(),
    {
        self.wait = RECONNECT_MIN;
    }

    /// How long to wait now. The next wait is twice as long, up to the longest.
    pub fn next(&mut self) -> (wait: u64)
        requires
            old(self).wf(),
        ensures
            wait == old(self)@,
            final(self)@ == doubled(old(self)@),
            final(self).wf(),
    {
        let wait = self.wait;
        self.wait = if 2 * wait < RECONNECT_MAX {
            2 * wait
        } else {
            RECONNECT_MAX
        };
        wait
    }
}

/// The wait after `n` attempts in a row that did not connect.
pub open spec fn wait_after(n: nat) -> u64
    decreases n,
{
    if n == 0 {
        RECONNECT_MIN
    } else {
        doubled(wait_after((n - 1) as nat))
    }
}

/// The wait never leaves its bounds, never shrinks while attempts fail, and stays
/// at the longest from the sixth failure on.
pub proof fn law_backoff_is_capped(n: nat)
    ensures
        RECONNECT_MIN <= wait_after(n) <= RECONNECT_MAX,
        wait_after(n) <= wait_after(n + 1),
        n >= 6 ==> wait_after(n) == RECONNECT_MAX,
    decreases n,
{
    if n > 0 {
        law_backoff_is_capped((n - 1) as nat);
    }
    if n == 6 {
        reveal_with_fuel(wait_after, 7);
    }
}

/// What can happen on an open connection to a source.
#[derive(Clone, Copy, Debug, PartialEq, Eq, Structural)]
pub enum LinkEvent {
    /// A text message has arrived.
    Text,
    /// A binary message has arrived.
    Binary,
    /// The source wants to know whether the connection is alive.
    Ping,
    /// A message of another kind has arrived.
    Other,
    /// The source closes the connection, or it has ended.
    Closed,
    /// Reading has failed.
    ReadError,
    /// There is a request to send.
    Request,
    /// The source has been silent too long.
    Bounce,
}

/// What to do about it.
#[derive(Clone, Copy, Debug, PartialEq, Eq, Structural)]
pub enum LinkAction {
    /// Count the message and apply it.
    Apply,
    /// Count the message.
    Count,
    /// Answer that it is.
    Pong,
    /// Nothing.
    Ignore,
    /// Send the request.
    Send,
    /// Give the connection up.
    Leave,
}

/// What to do about an event on an open connection to a source.
pub open spec fn action_on(event: LinkEvent) -> LinkAction {
    match event {
        LinkEvent::Text => LinkAction::Apply,
        LinkEvent::Binary => LinkAction::Count,
        LinkEvent::Ping => LinkAction::Pong,
        LinkEvent::Other => LinkAction::Ignore,
        LinkEvent::Closed => LinkAction::Leave,
        LinkEvent::ReadError => LinkAction::Leave,
        LinkEvent::Request => LinkAction::Send,
        LinkEvent::Bounce => LinkAction::Leave,
    }
}

/// What to do about an event on an open connection to a source.
pub fn link_action(event: LinkEvent) -> (action: LinkAction)
    ensures
        action == action_on(event),
{
    match event {
        LinkEvent::Text => LinkAction::Apply,
        LinkEvent::Binary => LinkAction::Count,
        LinkEvent::Ping => LinkAction::Pong,
        LinkEvent::Other => LinkAction::Ignore,
        LinkEvent::Request => LinkAction::Send,
        _ => LinkAction::Leave,
    }
}

/// What to do next in the search for a snapshot.
#[derive(Clone, Copy, Debug, PartialEq, Eq, Structural)]
pub enum Search {
    /// Ask the candidate at this position.
    Ask(usize),
    /// Hand over what was answered.
    Deliver,
    /// Nobody has one.
    GiveUp,
}

/// What to do next once `tried` of the candidates have been asked.
pub open spec fn next_step(candidates: usize, tried: usize, answered: bool) -> Search {
    if answered {
        Search::Deliver
    } else if tried < candidates {
        Search::Ask(tried)
    } else {
        Search::GiveUp
    }
}

/// What to do next once `tried` of the candidates have been asked, and whether the
/// last of them has answered: they are asked in turn until one does.
pub fn after_answer(candidates: usize, tried: usize, answered: bool) -> (next: Search)
    requires
        tried <= candidates,
    ensures
        next == next_step(candidates, tried, answered),
{
    if answered {
        Search::Deliver
    } else if tried < candidates {
        Search::Ask(tried)
    } else {
        Search::GiveUp
    }
}

} // verus!
