//! Everything measured on one stream.

use crate::arbitration::Stamp;
use crate::key::SubKey;
use crate::loadtest::compare;
use crate::loadtest::compare::Comparison;
use crate::loadtest::keystats::KeyStats;
use crate::loadtest::report;
use std::collections::hash_map::DefaultHasher;
use std::hash::Hasher;
use vstd::prelude::*;
#[allow(unused_imports)]
use vstd::std_specs::hash::DefaultHasherAdditionalSpecFns;

verus! {

/// Everything measured on one stream. Times are in nanoseconds of the caller's
/// clock.
pub struct StreamStats {
    /// The labels of the subscriptions seen so far, each once,
    labels: Vec<String>,
    /// and what was measured about each.
    keys: Vec<KeyStats>,
    rejected: u64,
    /// Per elapsed second, the ages of the messages summed up, and their number.
    /// A subscribe storm and a sick upstream produce similar totals and are told
    /// apart only by when the damage was done.
    age_by_sec: Vec<(u64, u32)>,
    /// When and why a connection ended before the run was over.
    ended: Vec<(u64, String)>,
}

/// What a `StreamStats` denotes.
#[verifier::ext_equal]
pub ghost struct StreamView {
    pub labels: Seq<Seq<char>>,
    pub keys: Seq<crate::loadtest::keystats::KeyView>,
    pub rejected: u64,
    pub age_by_sec: Seq<(u64, u32)>,
    pub ended: Seq<(u64, Seq<char>)>,
}

impl View for StreamStats {
    type V = StreamView;

    closed spec fn view(&self) -> StreamView {
        StreamView {
            labels: crate::entry::texts(self.labels@),
            keys: self.keys@.map_values(|k: KeyStats| k@),
            rejected: self.rejected,
            age_by_sec: self.age_by_sec@,
            ended: self.ended@.map_values(|e: (u64, String)| (e.0, e.1@)),
        }
    }
}

/// A message on a stream, as far as it is measured.
pub ghost struct Message {
    pub label: Seq<char>,
    pub stamp: Stamp,
    pub text: Seq<char>,
    pub len: usize,
    pub now: u64,
    pub now_ms: u64,
    pub scaled: Option<u64>,
}

impl Message {
    /// A message that belongs to `key`.
    pub open spec fn of(
        key: crate::key::Key,
        stamp: Stamp,
        text: Seq<char>,
        now: u64,
        now_ms: u64,
        scaled: Option<u64>,
    ) -> Message {
        Message {
            label: key.label(),
            stamp,
            text,
            len: vstd::utf8::encode_utf8(text).len() as usize,
            now,
            now_ms,
            scaled,
        }
    }

    /// How old the message was on arrival, in milliseconds.
    pub open spec fn age(self) -> Option<u32> {
        crate::loadtest::keystats::age_of(
            crate::upstream::block_time(vstd::utf8::encode_utf8(self.text)),
            self.now_ms,
        )
    }

    /// What is measured about a subscription, with the message added.
    pub open spec fn added_to(
        self,
        k: crate::loadtest::keystats::KeyView,
        start: u64,
    ) -> crate::loadtest::keystats::KeyView {
        let k = k.noted(self.now, start, self.len, self.scaled).ordered(self.stamp, self.label);
        crate::loadtest::keystats::KeyView {
            ages_ms: match self.age() {
                Some(a) => k.ages_ms.push(a),
                None => k.ages_ms,
            },
            ..k
        }
    }
}

/// The ages by second, with one more message of age `age` at second `i`.
pub open spec fn with_age(v: Seq<(u64, u32)>, i: int, age: u32) -> Seq<(u64, u32)> {
    let wide = if i < v.len() {
        v
    } else {
        v + Seq::new((i + 1 - v.len()) as nat, |k: int| (0u64, 0u32))
    };
    wide.update(
        i,
        (
            crate::stats::counted(wide[i].0, age as u64),
            if wide[i].1 == u32::MAX {
                0
            } else {
                (wide[i].1 + 1) as u32
            },
        ),
    )
}

fn add_age(v: &mut Vec<(u64, u32)>, sec: usize, age: u32)
    requires
        sec < usize::MAX,
    ensures
        final(v)@ == with_age(old(v)@, sec as int, age),
{
    let ghost short = v@;
    assert(v@ =~= short + Seq::new(0, |k: int| (0u64, 0u32)));
    while v.len() <= sec
        invariant
            sec < usize::MAX,
            short.len() <= v@.len(),
            v@.len() <= sec + 1 || v@.len() == short.len(),
            v@ == short + Seq::new((v@.len() - short.len()) as nat, |k: int| (0u64, 0u32)),
        decreases sec + 1 - v.len(),
    {
        v.push((0, 0));
        assert(v@ =~= short + Seq::new((v@.len() - short.len()) as nat, |k: int| (0u64, 0u32)));
    }
    let (sum, n) = v[sec];
    v.set(sec, (sum.wrapping_add(age as u64), n.wrapping_add(1)));
    assert(v@ =~= with_age(short, sec as int, age));
}

impl StreamView {
    /// Every label is listed once, and has its figures.
    pub open spec fn wf(self) -> bool {
        self.labels.no_duplicates() && self.labels.len() == self.keys.len()
    }

    /// Before the first message.
    pub open spec fn fresh() -> StreamView {
        StreamView {
            labels: seq![],
            keys: seq![],
            rejected: 0,
            age_by_sec: seq![],
            ended: seq![],
        }
    }

    /// The stream after an error that the upstream reported.
    pub open spec fn with_rejection(self) -> StreamView {
        StreamView { rejected: crate::stats::counted(self.rejected, 1), ..self }
    }

    /// The stream once the gaps still open at the end of the run are closed.
    pub open spec fn closed(self, end: u64, start: u64) -> StreamView {
        StreamView {
            keys: self.keys.map_values(
                |k: crate::loadtest::keystats::KeyView| k.closed(end, start),
            ),
            ..self
        }
    }

    /// Whether `q` is the quantile that the stall threshold under a label is due to be
    /// set by, if it is due and there are gaps enough.
    pub open spec fn is_due(self, label: Seq<char>, q: Option<u64>) -> bool {
        let k = self.keys[self.labels.index_of(label)];
        if self.labels.contains(label) && k.limit_due() {
            crate::loadtest::keystats::is_habit(k.gaps, 99, q)
        } else {
            q is None
        }
    }

    /// The stream once a connection has ended `at` into a run of `length`.
    pub open spec fn with_end(self, at: u64, length: u64, reason: Seq<char>) -> StreamView {
        if report::is_early(at, length) {
            StreamView { ended: self.ended.push((at, reason)), ..self }
        } else {
            self
        }
    }

    /// The stream after a message.
    pub open spec fn with_message(self, m: Message, start: u64) -> StreamView {
        let sec = (crate::loadtest::keystats::elapsed(start, m.now)
            / crate::loadtest::keystats::NANOS_PER_SEC) as int;
        let aged = StreamView {
            age_by_sec: match m.age() {
                Some(age) => with_age(self.age_by_sec, sec, age),
                None => self.age_by_sec,
            },
            ..self
        };
        if self.labels.contains(m.label) {
            let i = self.labels.index_of(m.label);
            StreamView { keys: self.keys.update(i, m.added_to(self.keys[i], start)), ..aged }
        } else {
            StreamView {
                labels: self.labels.push(m.label),
                keys: self.keys.push(
                    m.added_to(crate::loadtest::keystats::KeyView::fresh(), start),
                ),
                ..aged
            }
        }
    }
}

/// Where `label` stands in a list, if it does.
pub(crate) fn find_label(labels: &Vec<String>, label: &String) -> (at: Option<usize>)
    ensures
        match at {
            Some(i) => i < labels@.len() && labels@[i as int]@ == label@ && crate::entry::texts(
                labels@,
            ).contains(label@) && (crate::entry::texts(labels@).no_duplicates() ==> i
                == crate::entry::texts(labels@).index_of(label@)),
            None => !crate::entry::texts(labels@).contains(label@),
        },
{
    let ghost all = crate::entry::texts(labels@);
    let mut i: usize = 0;
    while i < labels.len()
        invariant
            i <= labels.len(),
            all == crate::entry::texts(labels@),
            forall|j: int| 0 <= j < i ==> #[trigger] all[j] != label@,
        decreases labels.len() - i,
    {
        assert(all[i as int] == labels@[i as int]@);
        if labels[i] == *label {
            assert(all.contains(label@));
            return Some(i);
        }
        i = i + 1;
    }
    None
}

/// Whether `i` is the last place at which a label stands.
pub open spec fn last_at(labels: Seq<Seq<char>>, label: Seq<char>, i: int) -> bool {
    0 <= i < labels.len() && labels[i] == label && forall|j: int|
        i < j < labels.len() ==> #[trigger] labels[j] != label
}

/// Whether `i` is the place of a label among those asked for, the last if there
/// are several, or [`compare::NO_KEY`] if it is not among them.
pub open spec fn is_key_index(labels: Seq<Seq<char>>, label: Seq<char>, i: u32) -> bool {
    if labels.contains(label) {
        i != compare::NO_KEY && last_at(labels, label, i as int)
    } else {
        i == compare::NO_KEY
    }
}

/// The place of a label among those asked for, the last if there are several, or
/// [`compare::NO_KEY`] if it is not among them.
pub fn key_index(labels: &Vec<String>, label: &String) -> (i: u32)
    requires
        labels@.len() <= compare::NO_KEY,
    ensures
        is_key_index(crate::entry::texts(labels@), label@, i),
{
    let ghost all = crate::entry::texts(labels@);
    let mut k: usize = labels.len();
    while k > 0
        invariant
            k <= labels.len(),
            labels@.len() <= compare::NO_KEY,
            all == crate::entry::texts(labels@),
            forall|j: int| k <= j < all.len() ==> #[trigger] all[j] != label@,
        decreases k,
    {
        k = k - 1;
        assert(all[k as int] == labels@[k as int]@);
        if labels[k] == *label {
            assert(all.contains(label@));
            return k as u32;
        }
    }
    compare::NO_KEY
}

impl StreamStats {
    /// The figures are in order.
    pub closed spec fn inv(&self) -> bool {
        &&& self@.wf()
        &&& forall|i: int| 0 <= i < self.keys@.len() ==> (#[trigger] self.keys@[i]).inv()
    }

    /// What the figures keep.
    pub proof fn lemma_inv(&self)
        requires
            self.inv(),
        ensures
            self@.wf(),
    {
    }

    /// Before the first message.
    pub fn new() -> (s: StreamStats)
        ensures
            s.inv(),
            s@ == StreamView::fresh(),
    {
        let s = StreamStats {
            labels: Vec::new(),
            keys: Vec::new(),
            rejected: 0,
            age_by_sec: Vec::new(),
            ended: Vec::new(),
        };
        assert(s@.labels =~= seq![]);
        assert(s@.keys =~= seq![]);
        assert(s@.ended =~= seq![]);
        s
    }

    /// The labels of the subscriptions seen so far.
    pub fn labels(&self) -> (v: &Vec<String>)
        ensures
            crate::entry::texts(v@) == self@.labels,
    {
        &self.labels
    }

    /// What was measured about each of them.
    pub fn keys(&self) -> (v: &Vec<KeyStats>)
        ensures
            v@.map_values(|k: KeyStats| k@) == self@.keys,
    {
        &self.keys
    }

    /// Errors that the upstream reported.
    pub fn rejected(&self) -> (n: u64)
        ensures
            n == self@.rejected,
    {
        self.rejected
    }

    /// Per elapsed second, the ages of the messages summed up, and their number.
    pub fn age_by_sec(&self) -> (v: &Vec<(u64, u32)>)
        ensures
            v@ == self@.age_by_sec,
    {
        &self.age_by_sec
    }

    /// When and why a connection ended before the run was over.
    pub fn ended(&self) -> (v: &Vec<(u64, String)>)
        ensures
            v@.map_values(|e: (u64, String)| (e.0, e.1@)) == self@.ended,
    {
        &self.ended
    }

    /// Count an error that the upstream reported.
    pub fn reject(&mut self)
        requires
            old(self).inv(),
        ensures
            final(self).inv(),
            final(self)@ == old(self)@.with_rejection(),
    {
        self.rejected = self.rejected.wrapping_add(1);
    }

    /// Take note of a connection that ended `at` into a run of `length`, if it
    /// ended early.
    pub fn note_end(&mut self, at: u64, length: u64, reason: String)
        requires
            old(self).inv(),
        ensures
            final(self).inv(),
            final(self)@ == old(self)@.with_end(at, length, reason@),
    {
        let ghost before = self@;
        if report::ended_early(at, length) {
            self.ended.push((at, reason));
            assert(self@.ended =~= before.ended.push((at, reason@)));
        }
    }

    /// Close the gaps still open when the run ended.
    pub fn close(&mut self, end: u64, start: u64)
        requires
            old(self).inv(),
        ensures
            final(self).inv(),
            final(self)@ == old(self)@.closed(end, start),
    {
        let ghost before = self@;
        let ghost target = before.keys.map_values(
            |k: crate::loadtest::keystats::KeyView| k.closed(end, start),
        );
        let mut i: usize = 0;
        assert(self@.keys =~= target.take(0) + before.keys.skip(0));
        while i < self.keys.len()
            invariant
                i <= self.keys.len(),
                self.keys@.len() == before.keys.len(),
                self.inv(),
                target == before.keys.map_values(
                    |k: crate::loadtest::keystats::KeyView| k.closed(end, start),
                ),
                self@ == (StreamView {
                    keys: target.take(i as int) + before.keys.skip(i as int),
                    ..before
                }),
            decreases self.keys.len() - i,
        {
            let ghost mid = self@.keys;
            let ghost were = self.keys@;
            assert(mid[i as int] == self.keys@[i as int]@);
            self.keys[i].close(end, start);
            proof {
                assert(self@.keys =~= mid.update(i as int, self.keys@[i as int]@));
                assert(self@.keys =~= target.take(i + 1) + before.keys.skip(i + 1));
                assert forall|k: int| 0 <= k < self.keys@.len() implies (
                #[trigger] self.keys@[k]).inv() by {
                    if k != i {
                        assert(self.keys@[k] == were[k]);
                    }
                }
            }
            i = i + 1;
        }
        assert(self@.keys =~= target);
    }

    /// The ninety-ninth hundredth of the gaps of a subscription, if its stall
    /// threshold is due and there are gaps enough.
    pub fn quantile_due(&self, key: &SubKey) -> (q: Option<u64>)
        requires
            self.inv(),
            key@.can_label(),
        ensures
            self@.is_due(key@.label(), q),
    {
        match find_label(&self.labels, &key.label()) {
            Some(i) => {
                assert(self@.keys[i as int] == self.keys@[i as int]@);
                if self.keys[i].limit_due() {
                    self.keys[i].gap_quantile(99)
                } else {
                    None
                }
            },
            None => None,
        }
    }

    /// Take note of a message that belongs to `key`. `now` is the caller's clock,
    /// `now_ms` the time of day; `scaled` is what [`StreamStats::quantile_due`]
    /// said, times the tolerated factor. Returns how old the message was, in
    /// milliseconds.
    pub fn on_message(
        &mut self,
        key: &SubKey,
        stamp: Stamp,
        text: &str,
        now: u64,
        start: u64,
        now_ms: u64,
        scaled: Option<u64>,
    ) -> (age: Option<u32>)
        requires
            old(self).inv(),
            key@.can_label(),
            crate::loadtest::keystats::elapsed(start, now)
                / crate::loadtest::keystats::NANOS_PER_SEC < usize::MAX,
        ensures
            final(self).inv(),
            age == Message::of(key@, stamp, text@, now, now_ms, scaled).age(),
            final(self)@ == old(self)@.with_message(
                Message::of(key@, stamp, text@, now, now_ms, scaled),
                start,
            ),
    {
        let label = key.label();
        let len = text.as_bytes().len();
        let ghost m = Message::of(key@, stamp, text@, now, now_ms, scaled);
        let ghost before = self@;
        let ghost were = self.keys@;
        let at = find_label(&self.labels, &label);
        let age = match at {
            Some(i) => {
                assert(before.keys[i as int] == self.keys@[i as int]@);
                self.keys[i].note(now, start, len, scaled);
                self.keys[i].order(stamp, label.as_str());
                let age = self.keys[i].note_age(text, now_ms);
                proof {
                    assert(self@.keys =~= before.keys.update(
                        i as int,
                        m.added_to(before.keys[i as int], start),
                    ));
                    assert forall|k: int| 0 <= k < self.keys@.len() implies (
                    #[trigger] self.keys@[k]).inv() by {
                        if k != i {
                            assert(self.keys@[k] == were[k]);
                        }
                    }
                }
                age
            },
            None => {
                let mut k = KeyStats::new();
                k.note(now, start, len, scaled);
                k.order(stamp, label.as_str());
                let age = k.note_age(text, now_ms);
                self.labels.push(label);
                self.keys.push(k);
                proof {
                    assert(self@.labels =~= before.labels.push(m.label));
                    assert(self@.keys =~= before.keys.push(
                        m.added_to(crate::loadtest::keystats::KeyView::fresh(), start),
                    ));
                    assert(self@.labels.no_duplicates());
                }
                age
            },
        };
        if let Some(a) = age {
            let sec: usize = (now.saturating_sub(start)
                / crate::loadtest::keystats::NANOS_PER_SEC) as usize;
            add_age(&mut self.age_by_sec, sec, a);
        }
        proof {
            assert(self@ =~= before.with_message(m, start));
        }
        age
    }
}

/// What identifies a message: the standard hash of its bytes, closed by the byte that
/// no text holds.
pub open spec fn message_hash(text: Seq<char>) -> u64 {
    DefaultHasher::spec_finish(seq![vstd::utf8::encode_utf8(text), seq![255u8]])
}

/// What identifies a message.
pub fn hash_of(text: &str) -> (h: u64)
    ensures
        h == message_hash(text@),
{
    let end: [u8; 1] = [255];
    let mut hasher = DefaultHasher::new();
    hasher.write(text.as_bytes());
    hasher.write(&end);
    proof {
        assert(hasher@ =~~= seq![vstd::utf8::encode_utf8(text@), seq![255u8]]);
    }
    hasher.finish()
}

/// Whether `after` is the comparison once a message was carried by the stream in `slot`,
/// filed under the place of its label among those asked for.
pub open spec fn compares(
    m: Message,
    labels: Seq<Seq<char>>,
    slot: usize,
    before: compare::CompareView,
    after: compare::CompareView,
) -> bool {
    exists|i: u32|
        is_key_index(labels, m.label, i) && after == #[trigger] before.recorded(
            slot,
            message_hash(m.text),
            i,
            m.stamp,
            m.now,
            m.age(),
        )
}

/// Take note of a message that one stream carried, on that stream and in the
/// comparison. `labels` are those of the subscriptions asked for.
pub fn measure(
    stream: &mut StreamStats,
    comparison: &mut Comparison,
    labels: &Vec<String>,
    slot: usize,
    key: &SubKey,
    stamp: Stamp,
    text: &str,
    now: u64,
    start: u64,
    now_ms: u64,
    scaled: Option<u64>,
)
    requires
        old(stream).inv(),
        old(comparison).inv(),
        labels@.len() <= old(comparison)@.newest.len(),
        labels@.len() <= compare::NO_KEY,
        slot < old(comparison)@.slots.used(),
        key@.can_label(),
        crate::loadtest::keystats::elapsed(start, now) / crate::loadtest::keystats::NANOS_PER_SEC
            < usize::MAX,
    ensures
        final(stream).inv(),
        final(comparison).inv(),
        final(stream)@ == old(stream)@.with_message(
            Message::of(key@, stamp, text@, now, now_ms, scaled),
            start,
        ),
        compares(
            Message::of(key@, stamp, text@, now, now_ms, scaled),
            crate::entry::texts(labels@),
            slot,
            old(comparison)@,
            final(comparison)@,
        ),
{
    let age = stream.on_message(key, stamp, text, now, start, now_ms, scaled);
    let i = key_index(labels, &key.label());
    comparison.record(slot, hash_of(text), i, stamp, now, age);
}

/// What became of a text on a stream.
#[derive(Clone, Copy, Debug, PartialEq, Eq, Structural)]
pub enum Observed {
    /// The upstream reports an error.
    Rejected,
    /// It belongs to no subscription.
    Unrouted,
    /// It was measured.
    Measured,
}

/// Whether `o` is what became of a text, and `after` the stream and the comparison once
/// it was taken note of. `times` are the clock, its reading at the start of the run and
/// the time of day.
pub open spec fn observes(
    o: Observed,
    routed: Option<(crate::key::Key, Stamp)>,
    text: Seq<char>,
    labels: Seq<Seq<char>>,
    slot: usize,
    times: (u64, u64, u64),
    scaled: Option<u64>,
    before: (StreamView, compare::CompareView),
    after: (StreamView, compare::CompareView),
) -> bool {
    if report::is_error(vstd::utf8::encode_utf8(text)) {
        &&& o is Rejected
        &&& after.0 == before.0.with_rejection()
        &&& after.1 == before.1
    } else {
        match routed {
            None => {
                &&& o is Unrouted
                &&& after == before
            },
            Some((key, stamp)) => {
                let m = Message::of(key, stamp, text, times.0, times.2, scaled);
                &&& o is Measured
                &&& after.0 == before.0.with_message(m, times.1)
                &&& compares(m, labels, slot, before.1, after.1)
            },
        }
    }
}

/// Take note of a text that one stream carried. `routed` is the subscription that
/// it belongs to and its stamp, if it belongs to any; the other arguments are those
/// of [`measure`]. An error that the upstream reports is counted and nothing more.
pub fn observe(
    stream: &mut StreamStats,
    comparison: &mut Comparison,
    labels: &Vec<String>,
    slot: usize,
    routed: Option<(SubKey, Stamp)>,
    text: &str,
    now: u64,
    start: u64,
    now_ms: u64,
    scaled: Option<u64>,
) -> (o: Observed)
    requires
        old(stream).inv(),
        old(comparison).inv(),
        labels@.len() <= old(comparison)@.newest.len(),
        labels@.len() <= compare::NO_KEY,
        slot < old(comparison)@.slots.used(),
        routed matches Some((key, _)) ==> key@.can_label(),
        crate::loadtest::keystats::elapsed(start, now) / crate::loadtest::keystats::NANOS_PER_SEC
            < usize::MAX,
    ensures
        final(stream).inv(),
        final(comparison).inv(),
        observes(
            o,
            crate::upstream::route_view(routed),
            text@,
            crate::entry::texts(labels@),
            slot,
            (now, start, now_ms),
            scaled,
            (old(stream)@, old(comparison)@),
            (final(stream)@, final(comparison)@),
        ),
{
    if report::reports_error(text) {
        stream.reject();
        return Observed::Rejected;
    }
    match routed {
        None => Observed::Unrouted,
        Some((key, stamp)) => {
            measure(
                stream,
                comparison,
                labels,
                slot,
                &key,
                stamp,
                text,
                now,
                start,
                now_ms,
                scaled,
            );
            Observed::Measured
        },
    }
}

} // verus!
