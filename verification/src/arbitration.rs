//! Which copy of a frame goes out.
//!
//! Contents are never compared. A frame carries one number, its stamp, and the
//! channel says how stamps order: see [`Stamp`]. A [`Race`] is the state of that
//! contest for one subscription, and [`Race::judge`] rules on one frame.

use vstd::prelude::*;

verus! {

/// How an incoming frame orders against the frames already seen for its key.
#[derive(Clone, Copy, Debug, PartialEq, Eq, Structural)]
pub enum Stamp {
    /// A self-contained message carrying a monotonic stamp. Newest wins;
    /// anything older is stale and anything equal is a slower source's copy.
    Point(u64),
    /// One message out of a block. Positions within a block are raced
    /// individually: number k goes out as soon as any source reaches it.
    ///
    /// Only sound where every node cuts a block into the same messages in the
    /// same order.
    Block(u64),
    /// A self-contained snapshot sharing its stamp with the ones that follow
    /// it, where the sources do not agree on how many there are. The first
    /// source to open a stamp carries it to the end.
    Lead(u64),
    /// One source carries the whole stream, not merely one stamp: an increment
    /// only means anything against the book it was computed from. Another takes
    /// over when that source is lost.
    Sticky(u64),
    /// A full snapshot at a block height. A reset rather than an increment, and
    /// the only thing that puts a source back in play after it was written off.
    Snapshot(u64),
}

/// What becomes of a frame. The five outcomes exclude one another.
#[derive(Clone, Copy, Debug, PartialEq, Eq, Structural)]
pub enum Ruling {
    /// Goes out, and is the first to carry its stamp.
    Win,
    /// Goes out, as a further message of the stamp already open.
    Further,
    /// A slower source's copy, this many nanoseconds late.
    Late(u64),
    /// A slower source's copy whose lateness was already sampled for this stamp.
    Repeat,
    /// Older than what has gone out, or not usable at all.
    Stale,
}

impl Stamp {
    /// The number the frame is ordered by.
    pub open spec fn spec_value(self) -> u64 {
        match self {
            Stamp::Point(v) => v,
            Stamp::Block(v) => v,
            Stamp::Lead(v) => v,
            Stamp::Sticky(v) => v,
            Stamp::Snapshot(v) => v,
        }
    }

    /// The number the frame is ordered by.
    #[verifier::when_used_as_spec(spec_value)]
    pub fn value(self) -> (v: u64)
        ensures
            v == self.value(),
    {
        match self {
            Stamp::Point(v) => v,
            Stamp::Block(v) => v,
            Stamp::Lead(v) => v,
            Stamp::Sticky(v) => v,
            Stamp::Snapshot(v) => v,
        }
    }
}

impl Ruling {
    /// Whether the frame goes out.
    pub open spec fn spec_delivers(self) -> bool {
        self is Win || self is Further
    }

    /// Whether the frame goes out.
    #[verifier::when_used_as_spec(spec_delivers)]
    pub fn delivers(self) -> (b: bool)
        ensures
            b == self.delivers(),
    {
        match self {
            Ruling::Win => true,
            Ruling::Further => true,
            _ => false,
        }
    }
}

// ---------------------------------------------------------------------------
// Sets of sources, one bit each
// ---------------------------------------------------------------------------

/// The bit that stands for a source. Sources beyond 64 share bits.
pub open spec fn bit_index(id: int) -> int {
    id % 64
}

/// Whether bit `r` of `mask` is set.
pub open spec fn has_bit(mask: u64, r: int) -> bool {
    mask & (1u64 << (r as u64)) != 0
}

/// The bits that are set in `mask`.
pub open spec fn bits_of(mask: u64) -> Set<int> {
    Set::new(|r: int| 0 <= r < 64 && has_bit(mask, r))
}

proof fn lemma_bits(mask: u64, a: u64)
    requires
        a < 64,
    ensures
        bits_of(mask | (1u64 << a)) == bits_of(mask).insert(a as int),
        bits_of(mask & !(1u64 << a)) == bits_of(mask).remove(a as int),
        bits_of(1u64 << a) == Set::<int>::empty().insert(a as int),
        bits_of(0) == Set::<int>::empty(),
        (mask & (1u64 << a) != 0) == bits_of(mask).contains(a as int),
{
    assert forall|r: int| 0 <= r < 64 implies #[trigger] has_bit(mask | (1u64 << a), r) == (
    has_bit(mask, r) || r == a) by {
        let b = r as u64;
        assert((mask | (1u64 << a)) & (1u64 << b) != 0 <==> (mask & (1u64 << b) != 0 || b == a))
            by (bit_vector)
            requires
                a < 64,
                b < 64,
        ;
    }
    assert forall|r: int| 0 <= r < 64 implies #[trigger] has_bit(mask & !(1u64 << a), r) == (
    has_bit(mask, r) && r != a) by {
        let b = r as u64;
        assert((mask & !(1u64 << a)) & (1u64 << b) != 0 <==> (mask & (1u64 << b) != 0 && b != a))
            by (bit_vector)
            requires
                a < 64,
                b < 64,
        ;
    }
    assert forall|r: int| 0 <= r < 64 implies #[trigger] has_bit(1u64 << a, r) == (r == a) by {
        let b = r as u64;
        assert((1u64 << a) & (1u64 << b) != 0 <==> b == a) by (bit_vector)
            requires
                a < 64,
                b < 64,
        ;
    }
    assert forall|r: int| 0 <= r < 64 implies !#[trigger] has_bit(0, r) by {
        let b = r as u64;
        assert(0u64 & (1u64 << b) == 0) by (bit_vector);
    }
    assert(bits_of(mask | (1u64 << a)) =~= bits_of(mask).insert(a as int));
    assert(bits_of(mask & !(1u64 << a)) =~= bits_of(mask).remove(a as int));
    assert(bits_of(1u64 << a) =~= Set::<int>::empty().insert(a as int));
    assert(bits_of(0) =~= Set::<int>::empty());
}

/// Bit for a source in the masks. Sources beyond 64 share bits, which costs a
/// little accuracy in the delay sampling and nothing in correctness.
fn source_bit(id: usize) -> (b: u64)
    ensures
        b == 1u64 << (bit_index(id as int) as u64),
{
    1u64 << ((id % 64) as u64)
}

// ---------------------------------------------------------------------------
// The race
// ---------------------------------------------------------------------------

/// The state of the contest for one subscription.
pub struct Race {
    /// Newest stamp seen across all sources.
    last: u64,
    /// When `last` was first observed, in nanoseconds of the caller's clock.
    last_seen_at: u64,
    /// The source that leads the open stamp, or carries the stream.
    leader: Option<usize>,
    /// Sources already charged one delay sample for the open block.
    sampled: u64,
    /// How many messages of the open block have gone out.
    sent: u32,
    /// Messages each source has delivered for the open block, by source id.
    seen: Vec<u32>,
    /// Sources written off after going silent. Their increments are ignored
    /// until they send a snapshot again.
    written_off: u64,
}

/// What a `Race` denotes.
#[verifier::ext_equal]
pub ghost struct RaceView {
    pub last: u64,
    pub seen_at: u64,
    pub leader: Option<usize>,
    /// Bits of the sources already sampled for the open block.
    pub sampled: Set<int>,
    /// Messages of the open block that have gone out.
    pub sent: u32,
    /// Messages of the open block that each source has delivered.
    pub counts: Map<int, u32>,
    /// Bits of the sources whose increments are ignored.
    pub written_off: Set<int>,
}

/// No source has delivered anything.
pub open spec fn no_counts() -> Map<int, u32> {
    Map::new(|id: int| true, |id: int| 0u32)
}

impl View for Race {
    type V = RaceView;

    closed spec fn view(&self) -> RaceView {
        RaceView {
            last: self.last,
            seen_at: self.last_seen_at,
            leader: self.leader,
            sampled: bits_of(self.sampled),
            sent: self.sent,
            counts: Map::new(
                |id: int| true,
                |id: int|
                    if 0 <= id < self.seen@.len() {
                        self.seen@[id]
                    } else {
                        0u32
                    },
            ),
            written_off: bits_of(self.written_off),
        }
    }
}

impl RaceView {
    /// The state before any frame.
    pub open spec fn fresh(now: u64) -> RaceView {
        RaceView {
            last: 0,
            seen_at: now,
            leader: None,
            sampled: Set::empty(),
            sent: 0,
            counts: no_counts(),
            written_off: Set::empty(),
        }
    }

    /// Every source is counted, and none has got further than what went out.
    pub open spec fn wf(self) -> bool {
        &&& forall|id: int| #[trigger] self.counts.dom().contains(id)
        &&& forall|id: int| #[trigger] self.counts[id] <= self.sent
    }

    /// How long ago the newest stamp was first seen.
    pub open spec fn lag(self, now: u64) -> u64 {
        if now >= self.seen_at {
            (now - self.seen_at) as u64
        } else {
            0
        }
    }

    /// A newer stamp opens.
    pub open spec fn advanced(self, v: u64, now: u64) -> RaceView {
        RaceView { last: v, seen_at: now, ..self }
    }

    /// A newer block opens, `id` having supplied its first message.
    pub open spec fn opened(self, id: usize, v: u64, now: u64) -> RaceView {
        RaceView {
            last: v,
            seen_at: now,
            leader: Some(id),
            sampled: Set::empty().insert(bit_index(id as int)),
            sent: 1,
            counts: no_counts().insert(id as int, 1),
            written_off: self.written_off,
        }
    }

    /// Messages of the open block from `id`, counting one more.
    pub open spec fn next_count(self, id: usize) -> u32 {
        if self.counts[id as int] == u32::MAX {
            0
        } else {
            (self.counts[id as int] + 1) as u32
        }
    }

    /// Newest wins.
    pub open spec fn point(self, v: u64, now: u64) -> (RaceView, Ruling) {
        if v > self.last {
            (self.advanced(v, now), Ruling::Win)
        } else if v == self.last {
            (self, Ruling::Late(self.lag(now)))
        } else {
            (self, Ruling::Stale)
        }
    }

    /// One source carries a stamp.
    pub open spec fn lead(self, id: usize, v: u64, now: u64) -> (RaceView, Ruling) {
        if v > self.last {
            (RaceView { leader: Some(id), ..self.advanced(v, now) }, Ruling::Win)
        } else if v < self.last {
            (self, Ruling::Stale)
        } else if self.leader == Some(id) {
            (self, Ruling::Further)
        } else {
            (self, Ruling::Late(self.lag(now)))
        }
    }

    /// One source carries the whole stream, and never one that is written off.
    pub open spec fn sticky(self, id: usize, v: u64, now: u64) -> (RaceView, Ruling) {
        if self.written_off.contains(bit_index(id as int)) {
            (self, Ruling::Stale)
        } else if self.leader is None {
            (RaceView { leader: Some(id), ..self.advanced(v, now) }, Ruling::Win)
        } else if self.leader != Some(id) {
            (self, Ruling::Late(self.lag(now)))
        } else if v > self.last {
            (self.advanced(v, now), Ruling::Win)
        } else if v == self.last {
            (self.advanced(v, now), Ruling::Further)
        } else {
            (self, Ruling::Stale)
        }
    }

    /// A reset, from the source that is followed, from anyone when nobody is
    /// followed, or from anyone on a channel where any source may reset.
    pub open spec fn snapshot(self, id: usize, v: u64, now: u64, open_reset: bool) -> (
        RaceView,
        Ruling,
    ) {
        let cleared = RaceView {
            written_off: self.written_off.remove(bit_index(id as int)),
            ..self
        };
        let ours = open_reset || self.leader is None || self.leader == Some(id);
        if ours && v > self.last {
            (cleared.opened(id, v, now), Ruling::Win)
        } else {
            (cleared, Ruling::Stale)
        }
    }

    /// Positions within one stamp are raced.
    pub open spec fn block(self, id: usize, v: u64, now: u64) -> (RaceView, Ruling) {
        if self.written_off.contains(bit_index(id as int)) {
            (self, Ruling::Stale)
        } else if v > self.last {
            (self.opened(id, v, now), Ruling::Win)
        } else if v < self.last {
            (self, Ruling::Stale)
        } else {
            let n = self.next_count(id);
            let counted = RaceView { counts: self.counts.insert(id as int, n), ..self };
            if n > self.sent {
                (RaceView { sent: n, leader: Some(id), ..counted }, Ruling::Further)
            } else if self.sampled.contains(bit_index(id as int)) {
                (counted, Ruling::Repeat)
            } else {
                (
                    RaceView { sampled: self.sampled.insert(bit_index(id as int)), ..counted },
                    Ruling::Late(self.lag(now)),
                )
            }
        }
    }

    /// The ruling on one frame, and the state after it.
    pub open spec fn judged(self, id: usize, stamp: Stamp, now: u64, open_reset: bool) -> (
        RaceView,
        Ruling,
    ) {
        match stamp {
            Stamp::Point(v) => self.point(v, now),
            Stamp::Lead(v) => self.lead(id, v, now),
            Stamp::Sticky(v) => self.sticky(id, v, now),
            Stamp::Snapshot(v) => self.snapshot(id, v, now, open_reset),
            Stamp::Block(v) => self.block(id, v, now),
        }
    }

    /// The state after the loss of the source that was leading: nobody leads,
    /// the lost source is written off, and its height is let go of.
    pub open spec fn orphaned(self, id: usize) -> RaceView {
        RaceView {
            last: 0,
            leader: None,
            sampled: Set::empty(),
            written_off: self.written_off.insert(bit_index(id as int)),
            ..self
        }
    }

    /// The state after the loss of the source that carried a stream of whole
    /// books: nobody leads and its height is let go of. Any source may carry on,
    /// so none is written off.
    pub open spec fn released(self) -> RaceView {
        RaceView { last: 0, leader: None, ..self }
    }

    /// The state once `id`, which has just sent a snapshot, carries the stream
    /// that nobody carried: it is no longer written off.
    pub open spec fn adopted(self, id: usize) -> RaceView {
        if self.leader is None {
            RaceView {
                leader: Some(id),
                written_off: self.written_off.remove(bit_index(id as int)),
                ..self
            }
        } else {
            self
        }
    }
}

impl Race {
    /// The state before any frame.
    pub fn new(now: u64) -> (r: Race)
        ensures
            r@ == RaceView::fresh(now),
            r@.wf(),
    {
        let r = Race {
            last: 0,
            last_seen_at: now,
            leader: None,
            sampled: 0,
            sent: 0,
            seen: Vec::new(),
            written_off: 0,
        };
        proof {
            lemma_bits(0, 0);
            assert(r@.counts =~= no_counts());
        }
        r
    }

    /// The source that leads the open stamp, or carries the stream.
    pub fn leader(&self) -> (id: Option<usize>)
        ensures
            id == self@.leader,
    {
        self.leader
    }

    /// How long ago the newest stamp was first seen.
    fn lag(&self, now: u64) -> (d: u64)
        ensures
            d == self@.lag(now),
    {
        now.saturating_sub(self.last_seen_at)
    }

    /// Count one more message of the open block from `id`, returning that
    /// source's running total for the block.
    fn bump_block_count(&mut self, id: usize) -> (n: u32)
        requires
            id < usize::MAX,
        ensures
            n == old(self)@.next_count(id),
            final(self)@ == (RaceView {
                counts: old(self)@.counts.insert(id as int, n),
                ..old(self)@
            }),
    {
        let ghost before = self@;
        if self.seen.len() <= id {
            self.seen.resize(id + 1, 0);
            assert(self@.counts =~= before.counts);
        }
        let n = self.seen[id].wrapping_add(1);
        self.seen.set(id, n);
        assert(self@.counts =~= before.counts.insert(id as int, n));
        n
    }

    /// Start a new block, with `id` having supplied its first message.
    fn open_block(&mut self, id: usize, v: u64, now: u64)
        requires
            id < usize::MAX,
        ensures
            final(self)@ == old(self)@.opened(id, v, now),
    {
        proof {
            lemma_bits(0, bit_index(id as int) as u64);
        }
        self.last = v;
        self.last_seen_at = now;
        self.leader = Some(id);
        self.sampled = source_bit(id);
        self.seen.clear();
        self.sent = 1;
        assert(self@.counts =~= no_counts());
        self.bump_block_count(id);
    }

    /// Rule on one frame from source `id`.
    ///
    /// `open_reset` says whether any source may reset the stream with a
    /// snapshot, or only the one that is followed.
    pub fn judge(&mut self, id: usize, stamp: Stamp, now: u64, open_reset: bool) -> (ruling: Ruling)
        requires
            old(self)@.wf(),
            id < usize::MAX,
        ensures
            final(self)@ == old(self)@.judged(id, stamp, now, open_reset).0,
            ruling == old(self)@.judged(id, stamp, now, open_reset).1,
            final(self)@.wf(),
    {
        proof {
            lemma_bits(self.written_off, bit_index(id as int) as u64);
            lemma_bits(self.sampled, bit_index(id as int) as u64);
        }
        match stamp {
            Stamp::Point(v) => {
                if v > self.last {
                    self.last = v;
                    self.last_seen_at = now;
                    Ruling::Win
                } else if v == self.last {
                    Ruling::Late(self.lag(now))
                } else {
                    Ruling::Stale
                }
            },
            Stamp::Lead(v) => {
                if v > self.last {
                    self.last = v;
                    self.last_seen_at = now;
                    self.leader = Some(id);
                    Ruling::Win
                } else if v < self.last {
                    Ruling::Stale
                } else if self.leader == Some(id) {
                    // The leader's own next snapshot of the same stamp, and a
                    // fresher one than what went out before.
                    Ruling::Further
                } else {
                    Ruling::Late(self.lag(now))
                }
            },
            Stamp::Sticky(v) => {
                if self.written_off & source_bit(id) != 0 {
                    // Its increments belong to a book that nobody holds any more.
                    return Ruling::Stale;
                }
                match self.leader {
                    // Nobody is leading: the first source to speak takes the stream
                    // and keeps it. This is also the path back after a loss.
                    None => {
                        self.last = v;
                        self.last_seen_at = now;
                        self.leader = Some(id);
                        Ruling::Win
                    },
                    Some(leader) => if leader != id {
                        // Computed against a different book: not a race to win.
                        Ruling::Late(self.lag(now))
                    } else if v > self.last {
                        self.last = v;
                        self.last_seen_at = now;
                        Ruling::Win
                    } else if v == self.last {
                        // A further flush of the same block is a further increment
                        // on the same book, not a repeat.
                        self.last_seen_at = now;
                        Ruling::Further
                    } else {
                        Ruling::Stale
                    },
                }
            },
            Stamp::Snapshot(v) => {
                self.written_off = self.written_off & !source_bit(id);
                let ours = open_reset || match self.leader {
                    None => true,
                    Some(leader) => leader == id,
                };
                if ours && v > self.last {
                    self.open_block(id, v, now);
                    Ruling::Win
                } else {
                    Ruling::Stale
                }
            },
            Stamp::Block(v) => {
                if self.written_off & source_bit(id) != 0 {
                    Ruling::Stale
                } else if v > self.last {
                    self.open_block(id, v, now);
                    Ruling::Win
                } else if v < self.last {
                    Ruling::Stale
                } else {
                    // Whoever reaches a position first supplies it. Nothing
                    // waits on the source that opened the block.
                    let n = self.bump_block_count(id);
                    proof {
                        lemma_bits(self.sampled, bit_index(id as int) as u64);
                    }
                    if n > self.sent {
                        self.sent = n;
                        self.leader = Some(id);
                        Ruling::Further
                    } else if self.sampled & source_bit(id) == 0 {
                        self.sampled = self.sampled | source_bit(id);
                        Ruling::Late(self.lag(now))
                    } else {
                        Ruling::Repeat
                    }
                }
            },
        }
    }

    /// Let go of source `id`, which was leading and has gone away.
    pub fn orphan(&mut self, id: usize)
        requires
            old(self)@.wf(),
        ensures
            final(self)@ == old(self)@.orphaned(id),
            final(self)@.wf(),
    {
        proof {
            lemma_bits(self.written_off, bit_index(id as int) as u64);
        }
        self.leader = None;
        self.sampled = 0;
        self.written_off = self.written_off | source_bit(id);
        self.last = 0;
    }

    /// Let go of a source that carried whole books and has gone away.
    pub fn release(&mut self)
        requires
            old(self)@.wf(),
        ensures
            final(self)@ == old(self)@.released(),
            final(self)@.wf(),
    {
        self.leader = None;
        self.last = 0;
    }

    /// Let `id`, which has just sent a snapshot, carry the stream if nobody does.
    pub fn adopt(&mut self, id: usize)
        requires
            old(self)@.wf(),
        ensures
            final(self)@ == old(self)@.adopted(id),
            final(self)@.wf(),
    {
        proof {
            lemma_bits(self.written_off, bit_index(id as int) as u64);
        }
        if self.leader.is_none() {
            self.leader = Some(id);
            self.written_off = self.written_off & !source_bit(id);
        }
    }
}

} // verus!
