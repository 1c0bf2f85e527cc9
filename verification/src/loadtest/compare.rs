//! How the streams compare: which of them carried a message and when, and what
//! that says of the proxy.
//!
//! Slot 0 is the proxy; the slots from 1 on are the nodes it is compared with, in
//! order; the last is a second connection to the first of those nodes, where one
//! is opened.

use crate::arbitration::Stamp;
use crate::loadtest::maps;
use dashmap::DashMap;
use vstd::prelude::*;

verus! {

/// The proxy, the comparison nodes, and the twin, together.
pub const MAX_SLOTS: usize = 8;

/// One bucket per millisecond, and the last one is everything beyond.
pub const AGE_BUCKETS: usize = 120001;

/// Stands for a subscription that is not among those asked for.
pub const NO_KEY: u32 = 4294967295;

/// Stands for the age of a message that a stream never had, or that carried no
/// time.
pub const NO_AGE: u32 = 4294967295;

// ---------------------------------------------------------------------------
// Which stream is which
// ---------------------------------------------------------------------------

/// Which slots are in use.
#[derive(Clone, Copy, Debug, PartialEq, Eq, Structural)]
pub struct Slots {
    /// How many nodes the proxy is compared with.
    pub nodes: usize,
    /// Whether the first of them has a twin.
    pub twin: bool,
}

impl Slots {
    /// Everything fits, and a twin has somebody to be the twin of.
    pub open spec fn wf(self) -> bool {
        self.nodes + 1 + (if self.twin {
            1int
        } else {
            0int
        }) <= MAX_SLOTS && (self.twin ==> self.nodes > 0)
    }

    /// How many slots are in use.
    pub open spec fn spec_used(self) -> usize {
        (self.nodes + 1 + (if self.twin {
            1int
        } else {
            0int
        })) as usize
    }

    /// How many slots are in use.
    #[verifier::when_used_as_spec(spec_used)]
    pub fn used(self) -> (n: usize)
        requires
            self.wf(),
        ensures
            n == self.used(),
    {
        if self.twin {
            self.nodes + 2
        } else {
            self.nodes + 1
        }
    }

    /// The slot of the twin.
    pub open spec fn twin_slot(self) -> int {
        self.nodes + 1
    }
}

/// Which slots a run uses: `Err` with their number if that is too many.
pub open spec fn planned_slots(nodes: usize, noise_floor: bool) -> Result<Slots, u128> {
    let twin = noise_floor && nodes > 0;
    let n = nodes + 1 + (if twin {
        1int
    } else {
        0int
    });
    if n > MAX_SLOTS {
        Err(n as u128)
    } else {
        Ok(Slots { nodes, twin })
    }
}

/// Which slots a run uses: `Err` with their number if that is too many. A twin is
/// only opened where there is a node to compare with.
pub fn plan_slots(nodes: usize, noise_floor: bool) -> (r: Result<Slots, u128>)
    ensures
        r == planned_slots(nodes, noise_floor),
        r matches Ok(s) ==> s.wf(),
{
    let twin = noise_floor && nodes > 0;
    let n: u128 = nodes as u128 + 1 + if twin {
        1
    } else {
        0
    };
    if n > MAX_SLOTS as u128 {
        Err(n)
    } else {
        Ok(Slots { nodes, twin })
    }
}

// ---------------------------------------------------------------------------
// Messages and stamps
// ---------------------------------------------------------------------------

/// Where a message was seen and when it was seen first there, plus what it was.
pub struct Seen {
    at: Vec<Option<u64>>,
    ages: Vec<u32>,
    born: u64,
    key: u32,
    seq: u64,
    born_max: u64,
}

/// What a `Seen` denotes.
#[verifier::ext_equal]
pub ghost struct SeenView {
    /// When each stream first had it.
    pub at: Seq<Option<u64>>,
    /// How old it was there, in milliseconds. Taken per message, so that streams
    /// can be compared over the messages that all of them delivered: a stream
    /// that stalls loses exactly its oldest samples.
    pub ages: Seq<u32>,
    /// When it first appeared anywhere.
    pub born: u64,
    pub key: u32,
    pub seq: u64,
    /// The highest stamp that the proxy had delivered for the subscription at that
    /// moment.
    pub born_max: u64,
}

impl View for Seen {
    type V = SeenView;

    closed spec fn view(&self) -> SeenView {
        SeenView {
            at: self.at@,
            ages: self.ages@,
            born: self.born,
            key: self.key,
            seq: self.seq,
            born_max: self.born_max,
        }
    }
}

impl SeenView {
    /// There is one place per slot.
    pub open spec fn wf(self) -> bool {
        self.at.len() == MAX_SLOTS && self.ages.len() == MAX_SLOTS
    }

    /// A message that nobody has had yet.
    pub open spec fn fresh(now: u64, key: u32, seq: u64, born_max: u64) -> SeenView {
        SeenView {
            at: Seq::new(MAX_SLOTS as nat, |i: int| None),
            ages: Seq::new(MAX_SLOTS as nat, |i: int| NO_AGE),
            born: now,
            key,
            seq,
            born_max,
        }
    }

    /// The same once a stream has had it. Only the first time counts.
    pub open spec fn had_by(self, slot: int, now: u64, age: Option<u32>) -> SeenView {
        if self.at[slot] is Some {
            self
        } else {
            SeenView {
                at: self.at.update(slot, Some(now)),
                ages: match age {
                    Some(a) => self.ages.update(slot, a),
                    None => self.ages,
                },
                ..self
            }
        }
    }

    /// The earliest that one of the first `n` nodes had it.
    pub open spec fn earliest(self, n: int) -> Option<u64>
        decreases n,
    {
        if n <= 0 {
            None
        } else {
            match (self.earliest(n - 1), self.at[n]) {
                (Some(a), Some(b)) => Some(
                    if b < a {
                        b
                    } else {
                        a
                    },
                ),
                (None, b) => b,
                (a, None) => a,
            }
        }
    }

    /// Whether every one of the first `n` streams had it, and knew its age.
    pub open spec fn aged_on_all(self, n: int) -> bool {
        forall|s: int| 0 <= s < n ==> #[trigger] self.ages[s] != NO_AGE
    }
}

impl Seen {
    fn new(now: u64, key: u32, seq: u64, born_max: u64) -> (e: Seen)
        ensures
            e@ == SeenView::fresh(now, key, seq, born_max),
            e@.wf(),
    {
        let mut at: Vec<Option<u64>> = Vec::new();
        let mut ages: Vec<u32> = Vec::new();
        let mut i: usize = 0;
        while i < MAX_SLOTS
            invariant
                i <= MAX_SLOTS,
                at@.len() == i,
                ages@.len() == i,
                forall|j: int| 0 <= j < i ==> at@[j] is None,
                forall|j: int| 0 <= j < i ==> ages@[j] == NO_AGE,
            decreases MAX_SLOTS - i,
        {
            at.push(None);
            ages.push(NO_AGE);
            i = i + 1;
        }
        let e = Seen { at, ages, born: now, key, seq, born_max };
        assert(e@ =~= SeenView::fresh(now, key, seq, born_max));
        e
    }

    fn had(&mut self, slot: usize, now: u64, age: Option<u32>)
        requires
            old(self)@.wf(),
            slot < MAX_SLOTS,
        ensures
            final(self)@ == old(self)@.had_by(slot as int, now, age),
            final(self)@.wf(),
    {
        if self.at[slot].is_none() {
            self.at.set(slot, Some(now));
            if let Some(a) = age {
                self.ages.set(slot, a);
            }
        }
    }

    fn earliest(&self, n: usize) -> (t: Option<u64>)
        requires
            self@.wf(),
            n < MAX_SLOTS,
        ensures
            t == self@.earliest(n as int),
    {
        let mut t: Option<u64> = None;
        let mut s: usize = 1;
        while s <= n
            invariant
                1 <= s <= n + 1,
                n < MAX_SLOTS,
                self@.wf(),
                t == self@.earliest(s - 1),
            decreases n + 1 - s,
        {
            t = match (t, self.at[s]) {
                (Some(a), Some(b)) => Some(
                    if b < a {
                        b
                    } else {
                        a
                    },
                ),
                (None, b) => b,
                (a, None) => a,
            };
            s = s + 1;
        }
        t
    }

    fn aged_on_all(&self, n: usize) -> (b: bool)
        requires
            self@.wf(),
            n <= MAX_SLOTS,
        ensures
            b == self@.aged_on_all(n as int),
    {
        let mut s: usize = 0;
        while s < n
            invariant
                s <= n,
                n <= MAX_SLOTS,
                self@.wf(),
                forall|k: int| 0 <= k < s ==> #[trigger] self@.ages[k] != NO_AGE,
            decreases n - s,
        {
            if self.ages[s] == NO_AGE {
                assert(self@.ages[s as int] == NO_AGE);
                return false;
            }
            s = s + 1;
        }
        true
    }
}

/// How many messages each stream carried for one stamp of one subscription.
///
/// A message that is missing from one stream may be a batch cut differently or
/// one lost in a stall; counting messages per stamp tells the two apart.
pub struct Block {
    born: u64,
    n: Vec<u32>,
    raced: bool,
}

/// What a `Block` denotes.
#[verifier::ext_equal]
pub ghost struct BlockView {
    pub born: u64,
    pub n: Seq<u32>,
    /// Whether the stamp's channel races positions across sources. The same
    /// disagreement breaks the assumption of a raced channel, and is the very
    /// reason that another is not raced.
    pub raced: bool,
}

impl View for Block {
    type V = BlockView;

    closed spec fn view(&self) -> BlockView {
        BlockView { born: self.born, n: self.n@, raced: self.raced }
    }
}

impl BlockView {
    /// There is one count per slot.
    pub open spec fn wf(self) -> bool {
        self.n.len() == MAX_SLOTS
    }

    /// A stamp that nobody has carried yet.
    pub open spec fn fresh(now: u64, raced: bool) -> BlockView {
        BlockView { born: now, n: Seq::new(MAX_SLOTS as nat, |i: int| 0u32), raced }
    }

    /// The same with one more message.
    pub open spec fn carried_by(self, slot: int) -> BlockView {
        BlockView {
            n: self.n.update(
                slot,
                if self.n[slot] == u32::MAX {
                    0
                } else {
                    (self.n[slot] + 1) as u32
                },
            ),
            ..self
        }
    }

    /// Whether every one of the first `n` streams carried it.
    pub open spec fn on_all(self, n: int) -> bool {
        forall|s: int| 0 <= s < n ==> #[trigger] self.n[s] != 0
    }

    /// The most messages that one of the first `n` nodes carried.
    pub open spec fn best(self, n: int) -> u32
        decreases n,
    {
        if n <= 0 {
            0
        } else if self.n[n] > self.best(n - 1) {
            self.n[n]
        } else {
            self.best(n - 1)
        }
    }
}

impl Block {
    fn new(now: u64, raced: bool) -> (b: Block)
        ensures
            b@ == BlockView::fresh(now, raced),
            b@.wf(),
    {
        let mut n: Vec<u32> = Vec::new();
        n.resize(MAX_SLOTS, 0);
        let b = Block { born: now, n, raced };
        assert(b@ =~= BlockView::fresh(now, raced));
        b
    }

    fn carry(&mut self, slot: usize)
        requires
            old(self)@.wf(),
            slot < MAX_SLOTS,
        ensures
            final(self)@ == old(self)@.carried_by(slot as int),
            final(self)@.wf(),
    {
        let n = self.n[slot].wrapping_add(1);
        self.n.set(slot, n);
    }

    fn on_all(&self, n: usize) -> (b: bool)
        requires
            self@.wf(),
            n <= MAX_SLOTS,
        ensures
            b == self@.on_all(n as int),
    {
        let mut s: usize = 0;
        while s < n
            invariant
                s <= n,
                n <= MAX_SLOTS,
                self@.wf(),
                forall|k: int| 0 <= k < s ==> #[trigger] self@.n[k] != 0,
            decreases n - s,
        {
            if self.n[s] == 0 {
                assert(self@.n[s as int] == 0);
                return false;
            }
            s = s + 1;
        }
        true
    }

    /// How many messages the proxy carried, in slot 0.
    pub(crate) fn by_proxy(&self) -> (n: u32)
        ensures
            self@.n.len() > 0 ==> n == self@.n[0],
    {
        if self.n.len() > 0 {
            self.n[0]
        } else {
            0
        }
    }

    fn best(&self, n: usize) -> (m: u32)
        requires
            self@.wf(),
            n < MAX_SLOTS,
        ensures
            m == self@.best(n as int),
    {
        let mut m: u32 = 0;
        let mut s: usize = 1;
        while s <= n
            invariant
                1 <= s <= n + 1,
                n < MAX_SLOTS,
                self@.wf(),
                m == self@.best(s - 1),
            decreases n + 1 - s,
        {
            if self.n[s] > m {
                m = self.n[s];
            }
            s = s + 1;
        }
        m
    }
}

// ---------------------------------------------------------------------------
// The verdict
// ---------------------------------------------------------------------------

/// How stamps were cut, on the channels of one mode.
#[derive(Clone, Copy, Debug, PartialEq, Eq, Structural)]
pub struct Cut {
    /// Stamps that every stream carried.
    pub seen: u64,
    /// Of those, where two connections to one node had as many messages, or not.
    pub same_agree: u64,
    pub same_differ: u64,
    /// And where two different nodes had.
    pub cross_agree: u64,
    pub cross_differ: u64,
}

/// What the comparison has concluded so far.
#[derive(Clone, Copy, Debug, PartialEq, Eq, Structural)]
pub struct Verdict {
    pub matched: u64,
    /// A node had it, the proxy did not, and had nothing newer either. This is the
    /// number that matters.
    pub lost: u64,
    /// A node had it, the proxy did not, but had already delivered something newer
    /// when it appeared. Discarding it is correct.
    pub stale_dropped: u64,
    /// A node had it, the proxy did not, but delivered another copy of the same
    /// stamp.
    pub superseded: u64,
    /// A node had it, the proxy never carried that stamp, but had delivered a newer
    /// one by the time of judgement.
    pub skipped: u64,
    /// The proxy had it, no node did.
    pub invented: u64,
    /// Microseconds by which the proxy trailed the first node to deliver.
    pub behind_us: u64,
    pub behind_n: u64,
    /// Microseconds by which it led.
    pub ahead_us: u64,
    pub ahead_n: u64,
    /// Arrived too near the end to judge.
    pub undecided: u64,
    /// Spread between two connections to the same node.
    pub noise_us: u64,
    pub noise_n: u64,
    pub noise_max_us: u64,
    /// Which of those two connections got there first.
    pub twin_first: u64,
    pub twin_second: u64,
    /// Messages carried by both of them, and by only one.
    pub twin_both: u64,
    pub node_only: u64,
    pub twin_only: u64,
    /// Stamps where the proxy carried fewer messages than the best node, and by how
    /// many in total.
    pub short: u64,
    pub short_frames: u64,
    /// On the channels where one source carries a stamp or a stream.
    pub led: Cut,
    /// On the channels where positions are raced.
    pub raced: Cut,
}

/// A counter with one more event.
pub open spec fn plus(c: u64) -> u64 {
    crate::stats::counted(c, 1)
}

/// The time between two moments, in whole microseconds.
pub open spec fn micros_between(a: u64, b: u64) -> u64 {
    if a >= b {
        ((a - b) / 1000) as u64
    } else {
        ((b - a) / 1000) as u64
    }
}

impl Verdict {
    /// Nothing concluded yet.
    pub open spec fn spec_zero() -> Verdict {
        let none = Cut {
            seen: 0,
            same_agree: 0,
            same_differ: 0,
            cross_agree: 0,
            cross_differ: 0,
        };
        Verdict {
            matched: 0,
            lost: 0,
            stale_dropped: 0,
            superseded: 0,
            skipped: 0,
            invented: 0,
            behind_us: 0,
            behind_n: 0,
            ahead_us: 0,
            ahead_n: 0,
            undecided: 0,
            noise_us: 0,
            noise_n: 0,
            noise_max_us: 0,
            twin_first: 0,
            twin_second: 0,
            twin_both: 0,
            node_only: 0,
            twin_only: 0,
            short: 0,
            short_frames: 0,
            led: none,
            raced: none,
        }
    }

    /// Nothing concluded yet.
    #[verifier::when_used_as_spec(spec_zero)]
    pub fn zero() -> (v: Verdict)
        ensures
            v == Verdict::zero(),
    {
        let none = Cut {
            seen: 0,
            same_agree: 0,
            same_differ: 0,
            cross_agree: 0,
            cross_differ: 0,
        };
        Verdict {
            matched: 0,
            lost: 0,
            stale_dropped: 0,
            superseded: 0,
            skipped: 0,
            invented: 0,
            behind_us: 0,
            behind_n: 0,
            ahead_us: 0,
            ahead_n: 0,
            undecided: 0,
            noise_us: 0,
            noise_n: 0,
            noise_max_us: 0,
            twin_first: 0,
            twin_second: 0,
            twin_both: 0,
            node_only: 0,
            twin_only: 0,
            short: 0,
            short_frames: 0,
            led: none,
            raced: none,
        }
    }

    /// The same once a message has been compared between the two connections to
    /// one node: `b` is when the node's own had it, `a` when its twin had.
    pub open spec fn with_twin(self, b: Option<u64>, a: Option<u64>) -> Verdict {
        match (b, a) {
            (Some(b), Some(a)) => {
                let d = micros_between(a, b);
                Verdict {
                    twin_both: plus(self.twin_both),
                    noise_us: crate::stats::counted(self.noise_us, d),
                    noise_n: plus(self.noise_n),
                    noise_max_us: if d > self.noise_max_us {
                        d
                    } else {
                        self.noise_max_us
                    },
                    twin_first: if a < b {
                        plus(self.twin_first)
                    } else {
                        self.twin_first
                    },
                    twin_second: if a < b {
                        self.twin_second
                    } else {
                        plus(self.twin_second)
                    },
                    ..self
                }
            },
            (Some(_), None) => Verdict { node_only: plus(self.node_only), ..self },
            (None, Some(_)) => Verdict { twin_only: plus(self.twin_only), ..self },
            (None, None) => self,
        }
    }

    /// The same once a message has been compared between the proxy and the nodes.
    pub open spec fn with_message(
        self,
        ours: Option<u64>,
        theirs: Option<u64>,
        stale: bool,
        carried: bool,
        ahead: bool,
    ) -> Verdict {
        match (ours, theirs) {
            (Some(o), Some(t)) => {
                let matched = Verdict { matched: plus(self.matched), ..self };
                if o >= t {
                    Verdict {
                        behind_us: crate::stats::counted(self.behind_us, micros_between(o, t)),
                        behind_n: plus(self.behind_n),
                        ..matched
                    }
                } else {
                    Verdict {
                        ahead_us: crate::stats::counted(self.ahead_us, micros_between(t, o)),
                        ahead_n: plus(self.ahead_n),
                        ..matched
                    }
                }
            },
            (None, Some(_)) => if stale {
                Verdict { stale_dropped: plus(self.stale_dropped), ..self }
            } else if carried {
                Verdict { superseded: plus(self.superseded), ..self }
            } else if ahead {
                Verdict { skipped: plus(self.skipped), ..self }
            } else {
                Verdict { lost: plus(self.lost), ..self }
            },
            (Some(_), None) => Verdict { invented: plus(self.invented), ..self },
            (None, None) => self,
        }
    }

    /// The same once a stamp that every stream carried has been compared.
    pub open spec fn with_block(self, b: BlockView, slots: Slots) -> Verdict {
        let best = b.best(slots.nodes as int);
        let shown = if b.n[0] < best {
            Verdict {
                short: plus(self.short),
                short_frames: crate::stats::counted(self.short_frames, (best - b.n[0]) as u64),
                ..self
            }
        } else {
            self
        };
        if b.raced {
            Verdict { raced: self.raced.with_block(b, slots), ..shown }
        } else {
            Verdict { led: self.led.with_block(b, slots), ..shown }
        }
    }

    fn note_twin(&mut self, b: Option<u64>, a: Option<u64>)
        ensures
            *final(self) == old(self).with_twin(b, a),
    {
        match (b, a) {
            (Some(b), Some(a)) => {
                self.twin_both = self.twin_both.wrapping_add(1);
                let d: u64 = if a >= b {
                    (a - b) / 1000
                } else {
                    (b - a) / 1000
                };
                self.noise_us = self.noise_us.wrapping_add(d);
                self.noise_n = self.noise_n.wrapping_add(1);
                if d > self.noise_max_us {
                    self.noise_max_us = d;
                }
                if a < b {
                    self.twin_first = self.twin_first.wrapping_add(1);
                } else {
                    self.twin_second = self.twin_second.wrapping_add(1);
                }
            },
            (Some(_), None) => {
                self.node_only = self.node_only.wrapping_add(1);
            },
            (None, Some(_)) => {
                self.twin_only = self.twin_only.wrapping_add(1);
            },
            (None, None) => {},
        }
    }

    fn note_message(
        &mut self,
        ours: Option<u64>,
        theirs: Option<u64>,
        stale: bool,
        carried: bool,
        ahead: bool,
    )
        ensures
            *final(self) == old(self).with_message(ours, theirs, stale, carried, ahead),
    {
        match (ours, theirs) {
            (Some(o), Some(t)) => {
                self.matched = self.matched.wrapping_add(1);
                if o >= t {
                    self.behind_us = self.behind_us.wrapping_add((o - t) / 1000);
                    self.behind_n = self.behind_n.wrapping_add(1);
                } else {
                    self.ahead_us = self.ahead_us.wrapping_add((t - o) / 1000);
                    self.ahead_n = self.ahead_n.wrapping_add(1);
                }
            },
            (None, Some(_)) => {
                // Four different things, and only the last is a hole.
                if stale {
                    self.stale_dropped = self.stale_dropped.wrapping_add(1);
                } else if carried {
                    self.superseded = self.superseded.wrapping_add(1);
                } else if ahead {
                    self.skipped = self.skipped.wrapping_add(1);
                } else {
                    self.lost = self.lost.wrapping_add(1);
                }
            },
            (Some(_), None) => {
                self.invented = self.invented.wrapping_add(1);
            },
            (None, None) => {},
        }
    }

    fn note_block(&mut self, b: &Block, slots: Slots)
        requires
            b@.wf(),
            slots.wf(),
        ensures
            *final(self) == old(self).with_block(b@, slots),
    {
        let best = b.best(slots.nodes);
        let ours = b.n[0];
        if ours < best {
            self.short = self.short.wrapping_add(1);
            self.short_frames = self.short_frames.wrapping_add((best - ours) as u64);
        }
        if b.raced {
            self.raced.note_block(b, slots);
        } else {
            self.led.note_block(b, slots);
        }
    }
}

impl Cut {
    /// The same with one more stamp that every stream carried.
    pub open spec fn with_block(self, b: BlockView, slots: Slots) -> Cut {
        let same = b.n[1] == b.n[slots.twin_slot()];
        let cross = b.n[1] == b.n[2];
        Cut {
            seen: plus(self.seen),
            same_agree: if slots.twin && same {
                plus(self.same_agree)
            } else {
                self.same_agree
            },
            same_differ: if slots.twin && !same {
                plus(self.same_differ)
            } else {
                self.same_differ
            },
            cross_agree: if slots.nodes > 1 && cross {
                plus(self.cross_agree)
            } else {
                self.cross_agree
            },
            cross_differ: if slots.nodes > 1 && !cross {
                plus(self.cross_differ)
            } else {
                self.cross_differ
            },
        }
    }

    fn note_block(&mut self, b: &Block, slots: Slots)
        requires
            b@.wf(),
            slots.wf(),
        ensures
            *final(self) == old(self).with_block(b@, slots),
    {
        self.seen = self.seen.wrapping_add(1);
        if slots.twin {
            if b.n[1] == b.n[slots.nodes + 1] {
                self.same_agree = self.same_agree.wrapping_add(1);
            } else {
                self.same_differ = self.same_differ.wrapping_add(1);
            }
        }
        if slots.nodes > 1 {
            if b.n[1] == b.n[2] {
                self.cross_agree = self.cross_agree.wrapping_add(1);
            } else {
                self.cross_differ = self.cross_differ.wrapping_add(1);
            }
        }
    }
}

// ---------------------------------------------------------------------------
// The comparison
// ---------------------------------------------------------------------------

/// Messages and stamps that are still being compared, and what the others have
/// come to. Times are in nanoseconds of the caller's clock.
pub struct Comparison {
    slots: Slots,
    /// How long a message is kept before it is judged.
    window: u64,
    seen: DashMap<u64, Seen>,
    blocks: DashMap<(u32, u64), Block>,
    /// The highest stamp that the proxy has delivered, per subscription.
    newest: Vec<u64>,
    verdict: Verdict,
    /// Per stream, how many of the messages that every stream delivered were how
    /// old.
    ages: Vec<Vec<u32>>,
}

/// What a `Comparison` denotes.
#[verifier::ext_equal]
pub ghost struct CompareView {
    pub slots: Slots,
    pub window: u64,
    pub seen: Map<u64, SeenView>,
    pub blocks: Map<(u32, u64), BlockView>,
    pub newest: Seq<u64>,
    pub verdict: Verdict,
    pub ages: Seq<Seq<u32>>,
}

impl View for Comparison {
    type V = CompareView;

    closed spec fn view(&self) -> CompareView {
        CompareView {
            slots: self.slots,
            window: self.window,
            seen: maps::seen_held(self.seen).map_values(|e: Seen| e@),
            blocks: maps::blocks_held(self.blocks).map_values(|b: Block| b@),
            newest: self.newest@,
            verdict: self.verdict,
            ages: self.ages@.map_values(|h: Vec<u32>| h@),
        }
    }
}

/// Whether something born at `born` is still within the window.
pub open spec fn young(born: u64, now: u64, window: u64) -> bool {
    crate::loadtest::keystats::elapsed(born, now) < window
}

/// The bucket of an age.
pub open spec fn age_bucket(age: u32) -> int {
    if age < AGE_BUCKETS - 1 {
        age as int
    } else {
        AGE_BUCKETS - 1
    }
}

/// Per stream, one more message of the age it had there.
pub open spec fn charged(ages: Seq<Seq<u32>>, e: SeenView) -> Seq<Seq<u32>> {
    Seq::new(
        ages.len(),
        |s: int| crate::loadtest::keystats::bumped(ages[s], age_bucket(e.ages[s])),
    )
}

/// How the stamps of a mode are counted: `None` where each message has its own.
pub open spec fn counted_stamp(stamp: Stamp) -> Option<(u64, bool)> {
    match stamp {
        Stamp::Block(h) => Some((h, true)),
        Stamp::Lead(h) => Some((h, false)),
        Stamp::Sticky(h) => Some((h, false)),
        Stamp::Point(_) => None,
        Stamp::Snapshot(_) => None,
    }
}

impl CompareView {
    /// The slots fit, and there is one place for each of them everywhere.
    pub open spec fn wf(self) -> bool {
        &&& self.slots.wf()
        &&& forall|k: u64| #[trigger]
            self.seen.dom().contains(k) ==> self.seen[k].wf() && (self.seen[k].key == NO_KEY
                || self.seen[k].key < self.newest.len())
        &&& forall|k: (u32, u64)| #[trigger]
            self.blocks.dom().contains(k) ==> self.blocks[k].wf()
        &&& self.ages.len() == self.slots.used()
        &&& forall|s: int|
            0 <= s < self.ages.len() ==> (#[trigger] self.ages[s]).len() == AGE_BUCKETS
    }

    /// Nothing compared yet.
    pub open spec fn fresh(slots: Slots, subs: usize, window: u64) -> CompareView {
        CompareView {
            slots,
            window,
            seen: Map::empty(),
            blocks: Map::empty(),
            newest: Seq::new(subs as nat, |i: int| 0u64),
            verdict: Verdict::zero(),
            ages: Seq::new(
                slots.used() as nat,
                |s: int| Seq::new(AGE_BUCKETS as nat, |i: int| 0u32),
            ),
        }
    }

    /// The highest stamp that the proxy has delivered, after a message.
    pub open spec fn newest_after(self, slot: usize, key: u32, v: u64) -> Seq<u64> {
        if slot == 0 && key != NO_KEY && v > self.newest[key as int] {
            self.newest.update(key as int, v)
        } else {
            self.newest
        }
    }

    /// The record of a message, or the one it would start with.
    pub open spec fn entry(self, hash: u64, now: u64, key: u32, v: u64) -> SeenView {
        if self.seen.dom().contains(hash) {
            self.seen[hash]
        } else {
            SeenView::fresh(
                now,
                key,
                v,
                if key == NO_KEY {
                    0
                } else {
                    self.newest[key as int]
                },
            )
        }
    }

    /// The stamps after a message.
    pub open spec fn blocks_after(self, slot: usize, key: u32, stamp: Stamp, now: u64) -> Map<
        (u32, u64),
        BlockView,
    > {
        match counted_stamp(stamp) {
            Some((h, raced)) => if key == NO_KEY {
                self.blocks
            } else {
                let b = if self.blocks.dom().contains((key, h)) {
                    self.blocks[(key, h)]
                } else {
                    BlockView::fresh(now, raced)
                };
                self.blocks.insert((key, h), b.carried_by(slot as int))
            },
            None => self.blocks,
        }
    }

    /// The comparison after a message on one stream.
    pub open spec fn recorded(
        self,
        slot: usize,
        hash: u64,
        key: u32,
        stamp: Stamp,
        now: u64,
        age: Option<u32>,
    ) -> CompareView {
        let ahead = CompareView { newest: self.newest_after(slot, key, stamp.value()), ..self };
        CompareView {
            seen: self.seen.insert(
                hash,
                ahead.entry(hash, now, key, stamp.value()).had_by(slot as int, now, age),
            ),
            blocks: self.blocks_after(slot, key, stamp, now),
            ..ahead
        }
    }

    /// Whether the proxy had already delivered something newer when a message
    /// appeared.
    pub open spec fn was_stale(e: SeenView) -> bool {
        e.key != NO_KEY && e.born_max > e.seq
    }

    /// Whether the proxy carried the stamp of a message.
    pub open spec fn carried(self, e: SeenView) -> bool {
        e.key != NO_KEY && self.blocks.dom().contains((e.key, e.seq)) && self.blocks[(
            e.key,
            e.seq,
        )].n[0] > 0
    }

    /// Whether the proxy has by now delivered something newer than a message.
    pub open spec fn went_past(self, e: SeenView) -> bool {
        e.key != NO_KEY && self.newest[e.key as int] > e.seq
    }

    /// The comparison once a message has left it.
    pub open spec fn judged(self, e: SeenView, now: u64, finishing: bool) -> CompareView {
        if young(e.born, now, self.window) {
            if finishing {
                CompareView {
                    verdict: Verdict { undecided: plus(self.verdict.undecided), ..self.verdict },
                    ..self
                }
            } else {
                self
            }
        } else {
            let v = if self.slots.twin {
                self.verdict.with_twin(e.at[1], e.at[self.slots.twin_slot()])
            } else {
                self.verdict
            };
            CompareView {
                verdict: v.with_message(
                    e.at[0],
                    e.earliest(self.slots.nodes as int),
                    CompareView::was_stale(e),
                    self.carried(e),
                    self.went_past(e),
                ),
                ages: if e.aged_on_all(self.slots.used() as int) {
                    charged(self.ages, e)
                } else {
                    self.ages
                },
                ..self
            }
        }
    }

    /// Whether a message or a stamp stays.
    pub open spec fn stays(self, born: u64, now: u64, finishing: bool) -> bool {
        young(born, now, self.window) && !finishing
    }

    /// The comparison once the messages `ks` have been gone through.
    pub open spec fn swept_seen(self, ks: Seq<u64>, now: u64, finishing: bool) -> CompareView
        decreases ks.len(),
    {
        if ks.len() == 0 {
            self
        } else {
            let e = self.seen[ks.last()];
            let rest = self.swept_seen(ks.drop_last(), now, finishing);
            let left = rest.judged(e, now, finishing);
            if self.stays(e.born, now, finishing) {
                left
            } else {
                CompareView { seen: left.seen.remove(ks.last()), ..left }
            }
        }
    }

    /// The comparison once the stamps `ks` have been gone through.
    pub open spec fn swept_blocks(
        self,
        ks: Seq<(u32, u64)>,
        now: u64,
        finishing: bool,
    ) -> CompareView
        decreases ks.len(),
    {
        if ks.len() == 0 {
            self
        } else {
            let b = self.blocks[ks.last()];
            let rest = self.swept_blocks(ks.drop_last(), now, finishing);
            if self.stays(b.born, now, finishing) {
                rest
            } else {
                CompareView {
                    blocks: rest.blocks.remove(ks.last()),
                    verdict: if !young(b.born, now, self.window) && b.on_all(
                        self.slots.used() as int,
                    ) {
                        rest.verdict.with_block(b, self.slots)
                    } else {
                        rest.verdict
                    },
                    ..rest
                }
            }
        }
    }
}

/// Whether `ks` lists what is in `d`, each once, in whatever order.
pub open spec fn lists_hashes(ks: Seq<u64>, d: Set<u64>) -> bool {
    ks.no_duplicates() && forall|k: u64| #[trigger] ks.contains(k) <==> d.contains(k)
}

/// Whether `ks` lists what is in `d`, each once, in whatever order.
pub open spec fn lists_stamps(ks: Seq<(u32, u64)>, d: Set<(u32, u64)>) -> bool {
    ks.no_duplicates() && forall|k: (u32, u64)| #[trigger] ks.contains(k) <==> d.contains(k)
}

impl Comparison {
    /// The comparison is well formed.
    pub closed spec fn inv(&self) -> bool {
        self@.wf()
    }

    /// Nothing compared yet, for runs over `subs` subscriptions.
    pub fn new(slots: Slots, subs: usize, window: u64) -> (c: Comparison)
        requires
            slots.wf(),
        ensures
            c.inv(),
            c@ == CompareView::fresh(slots, subs, window),
    {
        let mut newest: Vec<u64> = Vec::new();
        newest.resize(subs, 0);
        let used = slots.used();
        let mut ages: Vec<Vec<u32>> = Vec::new();
        let mut s: usize = 0;
        while s < used
            invariant
                s <= used,
                ages@.len() == s,
                forall|k: int|
                    0 <= k < s ==> (#[trigger] ages@[k])@ == Seq::new(
                        AGE_BUCKETS as nat,
                        |i: int| 0u32,
                    ),
            decreases used - s,
        {
            let mut h: Vec<u32> = Vec::new();
            h.resize(AGE_BUCKETS, 0);
            assert(h@ =~= Seq::new(AGE_BUCKETS as nat, |i: int| 0u32));
            ages.push(h);
            s = s + 1;
        }
        let c = Comparison {
            slots,
            window,
            seen: maps::seen_new(),
            blocks: maps::blocks_new(),
            newest,
            verdict: Verdict::zero(),
            ages,
        };
        proof {
            assert(c@.seen =~= Map::empty());
            assert(c@.blocks =~= Map::empty());
            assert(c@.newest =~= Seq::new(subs as nat, |i: int| 0u64));
            assert(c@.ages =~= Seq::new(
                slots.used() as nat,
                |s: int| Seq::new(AGE_BUCKETS as nat, |i: int| 0u32),
            ));
        }
        c
    }

    /// What the comparison has concluded so far.
    pub fn verdict(&self) -> (v: Verdict)
        ensures
            v == self@.verdict,
    {
        self.verdict
    }

    /// Per stream, how many of the messages that every stream delivered were how
    /// old, in milliseconds.
    pub fn ages(&self) -> (v: &Vec<Vec<u32>>)
        ensures
            v@.map_values(|h: Vec<u32>| h@) == self@.ages,
    {
        &self.ages
    }

    /// How many messages are still being compared.
    pub fn pending(&self) -> (n: usize)
        ensures
            n == self@.seen.dom().len(),
    {
        assert(self@.seen.dom() =~= maps::seen_held(self.seen).dom());
        maps::seen_len(&self.seen)
    }

    fn take_seen(&mut self, hash: u64) -> (r: Option<Seen>)
        ensures
            final(self)@ == (CompareView { seen: old(self)@.seen.remove(hash), ..old(self)@ }),
            match r {
                Some(e) => old(self)@.seen.dom().contains(hash) && e@ == old(self)@.seen[hash],
                None => !old(self)@.seen.dom().contains(hash),
            },
    {
        let ghost before = self@.seen;
        let r = maps::seen_remove(&mut self.seen, hash);
        assert(self@.seen =~= before.remove(hash));
        r
    }

    fn put_seen(&mut self, hash: u64, e: Seen)
        ensures
            final(self)@ == (CompareView { seen: old(self)@.seen.insert(hash, e@), ..old(self)@ }),
    {
        let ghost before = self@.seen;
        let _ = maps::seen_insert(&mut self.seen, hash, e);
        assert(self@.seen =~= before.insert(hash, e@));
    }

    fn take_block(&mut self, key: (u32, u64)) -> (r: Option<Block>)
        ensures
            final(self)@ == (CompareView { blocks: old(self)@.blocks.remove(key), ..old(self)@ }),
            match r {
                Some(b) => old(self)@.blocks.dom().contains(key) && b@ == old(self)@.blocks[key],
                None => !old(self)@.blocks.dom().contains(key),
            },
    {
        let ghost before = self@.blocks;
        let r = maps::blocks_remove(&mut self.blocks, key);
        assert(self@.blocks =~= before.remove(key));
        r
    }

    fn put_block(&mut self, key: (u32, u64), b: Block)
        ensures
            final(self)@ == (CompareView {
                blocks: old(self)@.blocks.insert(key, b@),
                ..old(self)@
            }),
    {
        let ghost before = self@.blocks;
        let _ = maps::blocks_insert(&mut self.blocks, key, b);
        assert(self@.blocks =~= before.insert(key, b@));
    }

    /// Take note of a message on one stream: `hash` identifies its bytes, `key` is
    /// the place of its subscription among those asked for.
    pub fn record(
        &mut self,
        slot: usize,
        hash: u64,
        key: u32,
        stamp: Stamp,
        now: u64,
        age: Option<u32>,
    )
        requires
            old(self).inv(),
            slot < old(self)@.slots.used(),
            key == NO_KEY || key < old(self)@.newest.len(),
        ensures
            final(self).inv(),
            final(self)@ == old(self)@.recorded(slot, hash, key, stamp, now, age),
    {
        let ghost before = self@;
        let v = stamp.value();
        if slot == 0 && key != NO_KEY && v > self.newest[key as usize] {
            self.newest.set(key as usize, v);
        }
        assert(self@.newest == before.newest_after(slot, key, v));
        let mut e = match self.take_seen(hash) {
            Some(e) => e,
            None => {
                let born_max: u64 = if key == NO_KEY {
                    0
                } else {
                    self.newest[key as usize]
                };
                Seen::new(now, key, v, born_max)
            },
        };
        e.had(slot, now, age);
        self.put_seen(hash, e);
        assert(self@.seen =~= before.seen.insert(hash, e@));
        let counted = match stamp {
            Stamp::Block(h) => Some((h, true)),
            Stamp::Lead(h) => Some((h, false)),
            Stamp::Sticky(h) => Some((h, false)),
            _ => None,
        };
        if let Some((h, raced)) = counted {
            if key != NO_KEY {
                let mut b = match self.take_block((key, h)) {
                    Some(b) => b,
                    None => Block::new(now, raced),
                };
                b.carry(slot);
                self.put_block((key, h), b);
                assert(self@.blocks =~= before.blocks.insert((key, h), b@));
            }
        }
        assert(self@ =~= before.recorded(slot, hash, key, stamp, now, age));
    }

    /// Whether the proxy carried the stamp of a message.
    fn carried(&self, e: &Seen) -> (b: bool)
        requires
            self@.wf(),
        ensures
            b == self@.carried(e@),
    {
        if e.key == NO_KEY {
            return false;
        }
        match maps::blocks_get(&self.blocks, (e.key, e.seq)) {
            Some(n) => {
                assert(self@.blocks.dom().contains((e.key, e.seq)));
                n > 0
            },
            None => false,
        }
    }

    /// Per stream, count one more message of the age it had there.
    fn charge(&mut self, e: &Seen)
        requires
            old(self)@.wf(),
            e@.wf(),
        ensures
            final(self)@ == (CompareView { ages: charged(old(self)@.ages, e@), ..old(self)@ }),
    {
        let ghost before = self@;
        let ghost target = charged(before.ages, e@);
        let used = self.ages.len();
        let mut s: usize = 0;
        assert(self@.ages =~= target.take(0) + before.ages.skip(0));
        while s < used
            invariant
                s <= used,
                used == before.ages.len(),
                self.ages@.len() == used,
                used <= MAX_SLOTS,
                e@.wf(),
                before.wf(),
                target == charged(before.ages, e@),
                self@ == (CompareView {
                    ages: target.take(s as int) + before.ages.skip(s as int),
                    ..before
                }),
            decreases used - s,
        {
            let ghost mid = self@.ages;
            assert(mid[s as int] == before.ages[s as int]);
            assert(mid[s as int] == self.ages@[s as int]@);
            let age = e.ages[s];
            let at: usize = if (age as usize) < AGE_BUCKETS - 1 {
                age as usize
            } else {
                AGE_BUCKETS - 1
            };
            let n = self.ages[s][at].wrapping_add(1);
            let mut row: Vec<u32> = Vec::new();
            core::mem::swap(&mut row, &mut self.ages[s]);
            row.set(at, n);
            self.ages.set(s, row);
            proof {
                assert(row@ =~= target[s as int]);
                assert(self@.ages =~= mid.update(s as int, row@));
                assert(self@.ages =~= target.take(s + 1) + before.ages.skip(s + 1));
            }
            s = s + 1;
        }
        assert(self@.ages =~= target);
    }

    /// Judge a message that leaves the comparison.
    fn judge(&mut self, e: &Seen, now: u64, finishing: bool)
        requires
            old(self)@.wf(),
            e@.wf(),
            e@.key == NO_KEY || e@.key < old(self)@.newest.len(),
        ensures
            final(self)@ == old(self)@.judged(e@, now, finishing),
            final(self)@.wf(),
    {
        if now.saturating_sub(e.born) < self.window {
            // On the last pass these are discarded unjudged: the streams stop at
            // slightly different moments, and a message still in flight has not
            // had its chance to appear everywhere.
            if finishing {
                self.verdict.undecided = self.verdict.undecided.wrapping_add(1);
            }
            return;
        }
        let ghost before = self@;
        let carried = self.carried(e);
        if self.slots.twin {
            self.verdict.note_twin(e.at[1], e.at[self.slots.nodes + 1]);
        }
        let theirs = e.earliest(self.slots.nodes);
        let stale = e.key != NO_KEY && e.born_max > e.seq;
        let ahead = e.key != NO_KEY && self.newest[e.key as usize] > e.seq;
        self.verdict.note_message(e.at[0], theirs, stale, carried, ahead);
        // A stream that stalled is missing exactly its oldest samples, so ages are
        // compared over the messages that every stream carried.
        if e.aged_on_all(self.slots.used()) {
            assert(self@ =~= (CompareView { verdict: self.verdict, ..before }));
            self.charge(e);
        }
        assert(self@ =~= before.judged(e@, now, finishing));
    }

    /// Let everything that has been kept for the whole window leave the
    /// comparison, and judge it. By then every stream that was going to carry it
    /// has had its chance. On the last pass, when `finishing`, everything leaves.
    pub fn sweep(&mut self, now: u64, finishing: bool)
        requires
            old(self).inv(),
        ensures
            final(self).inv(),
            exists|ks: Seq<u64>, bs: Seq<(u32, u64)>|
                lists_hashes(ks, old(self)@.seen.dom()) && lists_stamps(
                    bs,
                    old(self)@.blocks.dom(),
                ) && final(self)@ == (#[trigger] old(self)@.swept_seen(
                    ks,
                    now,
                    finishing,
                ).swept_blocks(bs, now, finishing)),
    {
        let ghost before = self@;
        let hashes = maps::seen_keys(&self.seen);
        let ghost ks = hashes@;
        assert(lists_hashes(ks, before.seen.dom()));
        let mut i: usize = 0;
        proof {
            assert(ks.take(0) =~= seq![]);
            assert forall|j: int| 0 <= j < ks.len() implies before.seen.dom().contains(
                #[trigger] ks[j],
            ) by {
                assert(ks.contains(ks[j]));
            }
        }
        while i < hashes.len()
            invariant
                i <= hashes.len(),
                ks == hashes@,
                lists_hashes(ks, before.seen.dom()),
                before.wf(),
                self@.wf(),
                self@ == before.swept_seen(ks.take(i as int), now, finishing),
                self@.blocks == before.blocks,
                self@.newest == before.newest,
                self@.slots == before.slots,
                self@.window == before.window,
                forall|j: int|
                    i <= j < ks.len() ==> self@.seen.dom().contains(#[trigger] ks[j])
                        && self@.seen[ks[j]] == before.seen[ks[j]],
            decreases hashes.len() - i,
        {
            let ghost mid = self@;
            assert(ks.take(i + 1).drop_last() =~= ks.take(i as int));
            assert(ks.contains(ks[i as int]));
            assert(self@.seen.dom().contains(ks[i as int]));
            if let Some(e) = self.take_seen(hashes[i]) {
                assert(self@.wf());
                let ghost out = self@;
                self.judge(&e, now, finishing);
                let keep = now.saturating_sub(e.born) < self.window && !finishing;
                if keep {
                    self.put_seen(hashes[i], e);
                    assert(self@.seen =~= mid.seen);
                }
                proof {
                    assert(e@ == before.seen[ks[i as int]]);
                    assert(self@ =~= before.swept_seen(ks.take(i + 1), now, finishing));
                }
            }
            i = i + 1;
        }
        assert(ks.take(ks.len() as int) =~= ks);
        let ghost between = self@;
        let stamps = maps::blocks_keys(&self.blocks);
        let ghost bs = stamps@;
        assert(lists_stamps(bs, before.blocks.dom()));
        let mut i: usize = 0;
        proof {
            assert(bs.take(0) =~= seq![]);
            assert forall|j: int| 0 <= j < bs.len() implies between.blocks.dom().contains(
                #[trigger] bs[j],
            ) by {
                assert(bs.contains(bs[j]));
            }
        }
        while i < stamps.len()
            invariant
                i <= stamps.len(),
                bs == stamps@,
                lists_stamps(bs, between.blocks.dom()),
                between.wf(),
                self@.wf(),
                self@ == between.swept_blocks(bs.take(i as int), now, finishing),
                self@.slots == between.slots,
                self@.window == between.window,
                forall|j: int|
                    i <= j < bs.len() ==> self@.blocks.dom().contains(#[trigger] bs[j])
                        && self@.blocks[bs[j]] == between.blocks[bs[j]],
            decreases stamps.len() - i,
        {
            let ghost mid = self@;
            assert(bs.take(i + 1).drop_last() =~= bs.take(i as int));
            assert(bs.contains(bs[i as int]));
            assert(self@.blocks.dom().contains(bs[i as int]));
            if let Some(b) = self.take_block(stamps[i]) {
                let fresh = now.saturating_sub(b.born) < self.window;
                if fresh && !finishing {
                    self.put_block(stamps[i], b);
                    assert(self@.blocks =~= mid.blocks);
                } else if !fresh && b.on_all(self.slots.used()) {
                    self.verdict.note_block(&b, self.slots);
                }
                proof {
                    assert(b@ == between.blocks[bs[i as int]]);
                    assert(self@ =~= between.swept_blocks(bs.take(i + 1), now, finishing));
                }
            }
            i = i + 1;
        }
        proof {
            assert(bs.take(bs.len() as int) =~= bs);
            assert(self@ == before.swept_seen(ks, now, finishing).swept_blocks(bs, now, finishing));
        }
    }
}

} // verus!
