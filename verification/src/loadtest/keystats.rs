//! Everything measured about one subscription on one stream.

use crate::arbitration::Stamp;
use crate::text;
use crate::upstream;
use vstd::prelude::*;

verus! {

/// Gaps are kept up to this many.
pub const MAX_GAPS: usize = 10000;

/// Stalls and ordering violations are counted all, and kept up to this many:
/// only a handful are ever shown.
pub const MAX_KEPT: usize = 64;

/// Fewer gaps than this say nothing of a subscription's habits.
pub const MIN_GAPS: usize = 32;

/// The stall threshold is derived anew once in this many messages.
pub const LIMIT_EVERY: u32 = 256;

/// No silence shorter than this is a stall, in nanoseconds.
pub const MIN_STALL: u64 = 250000000;

pub const NANOS_PER_SEC: u64 = 1000000000;

// ---------------------------------------------------------------------------
// Quantiles
// ---------------------------------------------------------------------------

/// Whether `v` is in ascending order.
pub open spec fn ascending(v: Seq<u64>) -> bool {
    forall|i: int, j: int| 0 <= i <= j < v.len() ==> v[i] <= v[j]
}

/// Whether `x` stands at the `p`-th hundredth of `v`: some ascending arrangement
/// of `v` has it there.
pub open spec fn is_quantile(v: Seq<u64>, p: nat, x: u64) -> bool {
    exists|s: Seq<u64>| #[trigger]
        ascending(s) && s.to_multiset() == v.to_multiset() && v.len() > 0 && x == s[(v.len() - 1)
            * p / 100]
}

/// `<[u64]>::sort_unstable`: the same values in ascending order.
#[verifier::external_body]
fn sort_ascending(v: &mut Vec<u64>)
    ensures
        ascending(final(v)@),
        final(v)@.to_multiset() == old(v)@.to_multiset(),
        final(v)@.len() == old(v)@.len(),
{
    v.sort_unstable()
}

/// Two ascending arrangements of the same values are the same, so there is one
/// value only at each hundredth.
pub proof fn law_quantile_is_unique(v: Seq<u64>, p: nat, x: u64, y: u64)
    requires
        is_quantile(v, p, x),
        is_quantile(v, p, y),
    ensures
        x == y,
{
    let le = |a: u64, b: u64| a <= b;
    let s = choose|s: Seq<u64>| #[trigger]
        ascending(s) && s.to_multiset() == v.to_multiset() && v.len() > 0 && x == s[(v.len() - 1)
            * p / 100];
    let t = choose|s: Seq<u64>| #[trigger]
        ascending(s) && s.to_multiset() == v.to_multiset() && v.len() > 0 && y == s[(v.len() - 1)
            * p / 100];
    assert(vstd::relations::total_ordering(le));
    assert(vstd::relations::sorted_by(s, le));
    assert(vstd::relations::sorted_by(t, le));
    vstd::seq_lib::lemma_sorted_unique(s, t, le);
}

/// The value at the `p`-th hundredth.
fn quantile(v: Vec<u64>, p: u64) -> (x: u64)
    requires
        v@.len() > 0,
        p <= 100,
    ensures
        is_quantile(v@, p as nat, x),
{
    let ghost orig = v@;
    let mut v = v;
    sort_ascending(&mut v);
    let n = v.len();
    proof {
        assert(0 <= (n - 1) * p <= (n - 1) * 100) by (nonlinear_arith)
            requires
                n >= 1,
                p <= 100,
        ;
        assert((n - 1) * p / 100 <= n - 1) by (nonlinear_arith)
            requires
                n >= 1,
                p <= 100,
        ;
        assert((n - 1) * p / 100 >= 0) by (nonlinear_arith)
            requires
                n >= 1,
                p <= 100,
        ;
    }
    let at: u128 = (n as u128 - 1) * (p as u128) / 100;
    let x = v[at as usize];
    assert(ascending(v@) && v@.to_multiset() == orig.to_multiset() && orig.len() > 0 && x
        == v@[(orig.len() - 1) * (p as nat) / 100]);
    x
}

// ---------------------------------------------------------------------------
// One subscription on one stream
// ---------------------------------------------------------------------------

/// Everything measured about one subscription on one stream. Times are in
/// nanoseconds of the caller's clock.
pub struct KeyStats {
    msgs: u64,
    bytes: u64,
    last_at: Option<u64>,
    gaps: Vec<u64>,
    /// When each stall began, since the start of the run, and its length.
    stalls: Vec<(u64, u64)>,
    stall_count: u64,
    violations: Vec<String>,
    violation_count: u64,
    /// The stall threshold, and how many messages since it was last derived.
    limit: Option<u64>,
    since_limit: u32,
    last_seq: Option<u64>,
    /// Messages per elapsed second.
    per_second: Vec<u32>,
    /// How old each message was on arrival, in milliseconds.
    ages_ms: Vec<u32>,
}

/// What a `KeyStats` denotes.
#[verifier::ext_equal]
pub ghost struct KeyView {
    pub msgs: u64,
    pub bytes: u64,
    pub last_at: Option<u64>,
    pub gaps: Seq<u64>,
    pub stalls: Seq<(u64, u64)>,
    pub stall_count: u64,
    pub violations: Seq<Seq<char>>,
    pub violation_count: u64,
    pub limit: Option<u64>,
    pub since_limit: u32,
    pub last_seq: Option<u64>,
    pub per_second: Seq<u32>,
    pub ages_ms: Seq<u32>,
}

impl View for KeyStats {
    type V = KeyView;

    closed spec fn view(&self) -> KeyView {
        KeyView {
            msgs: self.msgs,
            bytes: self.bytes,
            last_at: self.last_at,
            gaps: self.gaps@,
            stalls: self.stalls@,
            stall_count: self.stall_count,
            violations: crate::entry::texts(self.violations@),
            violation_count: self.violation_count,
            limit: self.limit,
            since_limit: self.since_limit,
            last_seq: self.last_seq,
            per_second: self.per_second@,
            ages_ms: self.ages_ms@,
        }
    }
}

/// From `earlier` to `later`, or nothing if it is the other way round.
pub open spec fn elapsed(earlier: u64, later: u64) -> u64 {
    if later >= earlier {
        (later - earlier) as u64
    } else {
        0
    }
}

/// A list of counters with one more event counted at `i`, made longer if need be.
pub open spec fn bumped(v: Seq<u32>, i: int) -> Seq<u32> {
    let wide = if i < v.len() {
        v
    } else {
        v + Seq::new((i + 1 - v.len()) as nat, |k: int| 0u32)
    };
    wide.update(
        i,
        if wide[i] == u32::MAX {
            0
        } else {
            (wide[i] + 1) as u32
        },
    )
}

/// `v` with `x` at the end, unless it is full.
pub open spec fn kept_in<T>(v: Seq<T>, x: T, cap: usize) -> Seq<T> {
    if v.len() < cap {
        v.push(x)
    } else {
        v
    }
}

/// A scaled quantile as a stall threshold.
pub open spec fn as_limit(scaled: Option<u64>) -> Option<u64> {
    match scaled {
        Some(q) => Some(
            if q > MIN_STALL {
                q
            } else {
                MIN_STALL
            },
        ),
        None => None,
    }
}

impl KeyView {
    /// Before the first message.
    pub open spec fn fresh() -> KeyView {
        KeyView {
            msgs: 0,
            bytes: 0,
            last_at: None,
            gaps: seq![],
            stalls: seq![],
            stall_count: 0,
            violations: seq![],
            violation_count: 0,
            limit: None,
            since_limit: 0,
            last_seq: None,
            per_second: seq![],
            ages_ms: seq![],
        }
    }

    /// Whether the stall threshold is derived anew with the next message.
    pub open spec fn limit_due(self) -> bool {
        self.last_at is Some && self.since_limit >= LIMIT_EVERY - 1
    }

    /// The same with a silence taken note of, if it counts as a stall.
    pub open spec fn with_gap(self, prev: u64, start: u64, gap: u64) -> KeyView {
        let stalled = match self.limit {
            Some(limit) => gap > limit,
            None => false,
        };
        if stalled {
            KeyView {
                stall_count: crate::stats::counted(self.stall_count, 1),
                stalls: kept_in(self.stalls, (elapsed(start, prev), gap), MAX_KEPT),
                ..self
            }
        } else {
            self
        }
    }

    /// The same after a message of `len` bytes at `now`. Where the threshold is due,
    /// it is derived from `scaled`.
    pub open spec fn noted(self, now: u64, start: u64, len: usize, scaled: Option<u64>) -> KeyView {
        let counted = KeyView {
            msgs: crate::stats::counted(self.msgs, 1),
            bytes: crate::stats::counted(self.bytes, len as u64),
            per_second: bumped(self.per_second, (elapsed(start, now) / NANOS_PER_SEC) as int),
            ..self
        };
        let measured = match self.last_at {
            Some(prev) => {
                let gap = elapsed(prev, now);
                let judged = if self.limit_due() {
                    KeyView { since_limit: 0, limit: as_limit(scaled), ..counted }
                } else {
                    KeyView { since_limit: (self.since_limit + 1) as u32, ..counted }
                };
                let judged = judged.with_gap(prev, start, gap);
                KeyView { gaps: kept_in(judged.gaps, gap, MAX_GAPS), ..judged }
            },
            None => counted,
        };
        KeyView { last_at: Some(now), ..measured }
    }

    /// The same once the gap still open at the end of the run is closed.
    pub open spec fn closed(self, end: u64, start: u64) -> KeyView {
        match self.last_at {
            Some(prev) => self.with_gap(prev, start, elapsed(prev, end)),
            None => self,
        }
    }

    /// The same after a frame has been ordered against what came before. A
    /// snapshot is a reset rather than an increment; going back is a violation,
    /// and a gap is not.
    pub open spec fn ordered(self, stamp: Stamp, label: Seq<char>) -> KeyView {
        if stamp is Snapshot {
            KeyView { last_seq: None, ..self }
        } else {
            let v = stamp.value();
            let next = KeyView { last_seq: Some(v), ..self };
            match self.last_seq {
                Some(prev) => if v < prev {
                    KeyView {
                        violation_count: crate::stats::counted(self.violation_count, 1),
                        violations: kept_in(
                            self.violations,
                            violation_text(label, prev, v),
                            MAX_KEPT,
                        ),
                        ..next
                    }
                } else {
                    next
                },
                None => next,
            }
        }
    }
}

/// How a step back is shown.
pub open spec fn violation_text(label: Seq<char>, prev: u64, v: u64) -> Seq<char> {
    label + ": "@ + text::digits(prev as nat) + " -> "@ + text::digits(v as nat)
}

/// How old a message is: `None` if it has no time, or one that is ahead of the
/// clock.
pub open spec fn age_of(t: Option<u64>, now_ms: u64) -> Option<u32> {
    match t {
        Some(t) => if now_ms < t {
            None
        } else if now_ms - t < u32::MAX {
            Some((now_ms - t) as u32)
        } else {
            Some((u32::MAX - 1) as u32)
        },
        None => None,
    }
}

impl KeyStats {
    /// The counter of messages since the threshold was derived is within bounds.
    pub closed spec fn inv(&self) -> bool {
        self.since_limit < LIMIT_EVERY
    }

    /// Before the first message.
    pub fn new() -> (k: KeyStats)
        ensures
            k@ == KeyView::fresh(),
            k.inv(),
    {
        let k = KeyStats {
            msgs: 0,
            bytes: 0,
            last_at: None,
            gaps: Vec::new(),
            stalls: Vec::new(),
            stall_count: 0,
            violations: Vec::new(),
            violation_count: 0,
            limit: None,
            since_limit: 0,
            last_seq: None,
            per_second: Vec::new(),
            ages_ms: Vec::new(),
        };
        assert(k@ =~= KeyView::fresh());
        k
    }

    pub fn msgs(&self) -> (n: u64)
        ensures
            n == self@.msgs,
    {
        self.msgs
    }

    pub fn bytes(&self) -> (n: u64)
        ensures
            n == self@.bytes,
    {
        self.bytes
    }

    pub fn stall_count(&self) -> (n: u64)
        ensures
            n == self@.stall_count,
    {
        self.stall_count
    }

    pub fn violation_count(&self) -> (n: u64)
        ensures
            n == self@.violation_count,
    {
        self.violation_count
    }

    /// A sample of the stalls: when each began, since the start of the run, and
    /// its length.
    pub fn stalls(&self) -> (v: &Vec<(u64, u64)>)
        ensures
            v@ == self@.stalls,
    {
        &self.stalls
    }

    /// A sample of the ordering violations.
    pub fn violations(&self) -> (v: &Vec<String>)
        ensures
            crate::entry::texts(v@) == self@.violations,
    {
        &self.violations
    }

    /// Messages per elapsed second.
    pub fn per_second(&self) -> (v: &Vec<u32>)
        ensures
            v@ == self@.per_second,
    {
        &self.per_second
    }

    /// How old each message was on arrival, in milliseconds.
    pub fn ages_ms(&self) -> (v: &Vec<u32>)
        ensures
            v@ == self@.ages_ms,
    {
        &self.ages_ms
    }

    /// Whether the stall threshold is derived anew with the next message.
    ///
    /// It cannot be a constant: a busy book ticks every half a millisecond,
    /// trades on an illiquid coin every few seconds. Each subscription is judged
    /// against its own habits, but not derived per message.
    pub fn limit_due(&self) -> (b: bool)
        ensures
            b == self@.limit_due(),
    {
        self.last_at.is_some() && self.since_limit >= LIMIT_EVERY - 1
    }

    /// Take note of a silence that began at `prev`, if it counts as a stall.
    fn note_gap(&mut self, prev: u64, start: u64, gap: u64)
        requires
            old(self).inv(),
        ensures
            final(self)@ == old(self)@.with_gap(prev, start, gap),
            final(self).inv(),
    {
        let stalled = match self.limit {
            Some(limit) => gap > limit,
            None => false,
        };
        if stalled {
            self.stall_count = self.stall_count.wrapping_add(1);
            if self.stalls.len() < MAX_KEPT {
                self.stalls.push((prev.saturating_sub(start), gap));
            }
        }
    }

    /// Take note of a message of `len` bytes that arrived at `now`. Where
    /// [`KeyStats::limit_due`] says so, the stall threshold is derived from
    /// `scaled`: the ninety-ninth hundredth of the gaps times the tolerated
    /// factor.
    pub fn note(&mut self, now: u64, start: u64, len: usize, scaled: Option<u64>)
        requires
            old(self).inv(),
            elapsed(start, now) / NANOS_PER_SEC < usize::MAX,
        ensures
            final(self)@ == old(self)@.noted(now, start, len, scaled),
            final(self).inv(),
    {
        let ghost before = self@;
        self.msgs = self.msgs.wrapping_add(1);
        self.bytes = self.bytes.wrapping_add(len as u64);

        let sec: usize = (now.saturating_sub(start) / NANOS_PER_SEC) as usize;
        if self.per_second.len() <= sec {
            self.per_second.resize(sec + 1, 0);
        }
        let n = self.per_second[sec].wrapping_add(1);
        self.per_second.set(sec, n);
        assert(self.per_second@ =~= bumped(before.per_second, sec as int));

        if let Some(prev) = self.last_at {
            let gap = now.saturating_sub(prev);
            if self.since_limit >= LIMIT_EVERY - 1 {
                self.since_limit = 0;
                self.limit = match scaled {
                    Some(q) => Some(
                        if q > MIN_STALL {
                            q
                        } else {
                            MIN_STALL
                        },
                    ),
                    None => None,
                };
            } else {
                self.since_limit = self.since_limit + 1;
            }
            self.note_gap(prev, start, gap);
            if self.gaps.len() < MAX_GAPS {
                self.gaps.push(gap);
            }
        }
        self.last_at = Some(now);
    }

    /// Close the gap still open when the run ended. A stream that fell silent and
    /// never came back would otherwise read as perfectly healthy.
    pub fn close(&mut self, end: u64, start: u64)
        requires
            old(self).inv(),
        ensures
            final(self)@ == old(self)@.closed(end, start),
            final(self).inv(),
    {
        if let Some(prev) = self.last_at {
            let gap = end.saturating_sub(prev);
            self.note_gap(prev, start, gap);
        }
    }

    /// A quantile of the observed gaps, to set the stall threshold by.
    ///
    /// Not the median: on an illiquid market the gaps come in bursts within one
    /// block and long silences until the next, and a median sits in the burst.
    pub fn gap_quantile(&self, p: u64) -> (q: Option<u64>)
        requires
            p <= 100,
        ensures
            is_habit(self@.gaps, p as nat, q),
    {
        if self.gaps.len() < MIN_GAPS {
            return None;
        }
        Some(quantile(copied(&self.gaps), p))
    }

    /// Take note of how old a message was on arrival. One stamped ahead of the
    /// clock means that the clocks are not shared, which the whole measure depends
    /// on, and is left out.
    pub fn note_age(&mut self, text: &str, now_ms: u64) -> (age: Option<u32>)
        requires
            old(self).inv(),
        ensures
            age == age_of(
                crate::upstream::block_time(vstd::utf8::encode_utf8(text@)),
                now_ms,
            ),
            final(self)@ == (KeyView {
                ages_ms: match age {
                    Some(a) => old(self)@.ages_ms.push(a),
                    None => old(self)@.ages_ms,
                },
                ..old(self)@
            }),
            final(self).inv(),
    {
        match upstream::block_time_ms(text) {
            None => None,
            Some(t) => {
                if now_ms < t {
                    return None;
                }
                let d: u64 = now_ms - t;
                let age: u32 = if d < u32::MAX as u64 {
                    d as u32
                } else {
                    u32::MAX - 1
                };
                self.ages_ms.push(age);
                Some(age)
            },
        }
    }

    /// The age at the given hundredth, in milliseconds.
    pub fn age_pct(&self, p: u64) -> (q: Option<u32>)
        requires
            p <= 100,
        ensures
            is_age_quantile(self@.ages_ms, p as nat, q),
    {
        age_quantile(&self.ages_ms, p)
    }

    /// Order a frame against what came before.
    pub fn order(&mut self, stamp: Stamp, label: &str)
        requires
            old(self).inv(),
        ensures
            final(self)@ == old(self)@.ordered(stamp, label@),
            final(self).inv(),
    {
        let ghost before = self@;
        if let Stamp::Snapshot(_) = stamp {
            self.last_seq = None;
            return;
        }
        let v = stamp.value();
        if let Some(prev) = self.last_seq {
            if v < prev {
                self.violation_count = self.violation_count.wrapping_add(1);
                if self.violations.len() < MAX_KEPT {
                    let mut s = label.to_owned();
                    s.append(": ");
                    s.append(text::decimal(prev).as_str());
                    s.append(" -> ");
                    s.append(text::decimal(v).as_str());
                    self.violations.push(s);
                    assert(crate::entry::texts(self.violations@) =~= before.violations.push(s@));
                }
            }
        }
        self.last_seq = Some(v);
    }
}

/// Whether `q` is a quantile of the gaps, if there are enough of them.
pub open spec fn is_habit(gaps: Seq<u64>, p: nat, q: Option<u64>) -> bool {
    match q {
        Some(x) => gaps.len() >= MIN_GAPS && is_quantile(gaps, p, x),
        None => gaps.len() < MIN_GAPS,
    }
}

/// Whether `q` is a quantile of the ages, if there are any.
pub open spec fn is_age_quantile(ages: Seq<u32>, p: nat, q: Option<u32>) -> bool {
    match q {
        Some(x) => is_quantile(widened(ages), p, x as u64),
        None => ages.len() == 0,
    }
}

/// The same numbers, with room to grow.
pub open spec fn widened(v: Seq<u32>) -> Seq<u64> {
    v.map_values(|x: u32| x as u64)
}

fn copied(v: &Vec<u64>) -> (r: Vec<u64>)
    ensures
        r@ == v@,
{
    let mut r: Vec<u64> = Vec::new();
    let mut i: usize = 0;
    while i < v.len()
        invariant
            i <= v.len(),
            r@ == v@.take(i as int),
        decreases v.len() - i,
    {
        r.push(v[i]);
        i = i + 1;
        assert(v@.take(i as int) =~= v@.take(i - 1).push(v@[i - 1]));
    }
    assert(v@.take(v@.len() as int) =~= v@);
    r
}

/// The age at the given hundredth of some ages, in milliseconds.
pub fn age_quantile(ages: &Vec<u32>, p: u64) -> (q: Option<u32>)
    requires
        p <= 100,
    ensures
        is_age_quantile(ages@, p as nat, q),
{
    if ages.len() == 0 {
        return None;
    }
    let mut r: Vec<u64> = Vec::new();
    let mut i: usize = 0;
    while i < ages.len()
        invariant
            i <= ages.len(),
            r@ == widened(ages@).take(i as int),
        decreases ages.len() - i,
    {
        r.push(ages[i] as u64);
        i = i + 1;
        assert(widened(ages@).take(i as int) =~= widened(ages@).take(i - 1).push(
            ages@[i - 1] as u64,
        ));
    }
    assert(widened(ages@).take(ages@.len() as int) =~= widened(ages@));
    let x = quantile(r, p);
    proof {
        lemma_quantile_is_one(widened(ages@), p as nat, x);
    }
    Some(x as u32)
}

/// A quantile is one of the values.
proof fn lemma_quantile_is_one(v: Seq<u64>, p: nat, x: u64)
    requires
        is_quantile(v, p, x),
        p <= 100,
    ensures
        v.contains(x),
{
    broadcast use vstd::seq_lib::group_to_multiset_ensures;

    let s = choose|s: Seq<u64>| #[trigger]
        ascending(s) && s.to_multiset() == v.to_multiset() && v.len() > 0 && x == s[(v.len() - 1)
            * p / 100];
    let n = v.len() as int;
    let at = (n - 1) * p / 100;
    assert(s.len() == v.len()) by {
        assert(s.to_multiset().len() == s.len());
        assert(v.to_multiset().len() == v.len());
    }
    assert(0 <= at < n) by (nonlinear_arith)
        requires
            n >= 1,
            0 <= p <= 100,
            at == (n - 1) * p / 100,
    ;
    assert(s.contains(s[at]));
    assert(s.to_multiset().count(x) > 0);
}

/// A stream that fell silent and never came back is counted as stalled: the gap
/// that is still open at the end of the run is judged like any other.
pub proof fn law_silence_until_the_end_is_a_stall(k: KeyView, end: u64, start: u64)
    requires
        k.last_at is Some,
        k.limit is Some,
        elapsed(k.last_at->0, end) > k.limit->0,
    ensures
        k.closed(end, start).stall_count == crate::stats::counted(k.stall_count, 1),
{
}

/// Only going back is a violation: frames whose stamps never fall, however far
/// they jump, leave the count as it is, and so does the first frame after a
/// snapshot, whatever its stamp.
pub proof fn law_only_going_back_is_a_violation(k: KeyView, stamp: Stamp, label: Seq<char>)
    ensures
        k.ordered(stamp, label).violation_count != k.violation_count ==> k.last_seq is Some
            && stamp.value() < k.last_seq->0 && !(stamp is Snapshot),
        k.last_seq is Some && stamp.value() < k.last_seq->0 && !(stamp is Snapshot) ==> k.ordered(
            stamp,
            label,
        ).violation_count == crate::stats::counted(k.violation_count, 1),
{
}

} // verus!
