//! Per-source statistics: counters, the delay histogram, and the windows in
//! which a source's silence is observed.

use crate::arbitration::Ruling;
use vstd::prelude::*;

verus! {

/// How often `SourceStats::roll_window` is called, in seconds, and therefore
/// the resolution at which a source's silence is observed.
pub const WINDOW: u64 = 5;

/// How long a source may go without delivering before it is treated as gone, in
/// seconds. Only meaningful relative to the other sources: a quiet market
/// silences all of them at once, which is not a fault.
pub const SILENCE_LIMIT: u64 = 5;

/// Number of buckets of the delay histogram.
pub const NUM_BUCKETS: usize = 11;

/// The number of values of a 64-bit counter.
pub const COUNTER_SPAN: u128 = 0x1_0000_0000_0000_0000;

/// A counter after `n` more events. Counters wrap.
pub open spec fn counted(c: u64, n: u64) -> u64 {
    if c + n <= u64::MAX {
        (c + n) as u64
    } else {
        (c + n - COUNTER_SPAN) as u64
    }
}

/// Upper edge (exclusive, microseconds) of a histogram bucket. The last bucket
/// has none.
pub open spec fn bucket_edge(i: int) -> int {
    if i == 0 {
        500
    } else if i == 1 {
        1_000
    } else if i == 2 {
        2_000
    } else if i == 3 {
        5_000
    } else if i == 4 {
        10_000
    } else if i == 5 {
        20_000
    } else if i == 6 {
        50_000
    } else if i == 7 {
        100_000
    } else if i == 8 {
        200_000
    } else {
        500_000
    }
}

/// Whether a delay belongs in bucket `i`.
pub open spec fn in_bucket(us: u64, i: int) -> bool {
    &&& 0 <= i < NUM_BUCKETS
    &&& i > 0 ==> bucket_edge(i - 1) <= us
    &&& i < NUM_BUCKETS - 1 ==> us < bucket_edge(i)
}

/// A delay belongs in one bucket only.
pub proof fn law_one_bucket_per_delay(us: u64, i: int, j: int)
    requires
        in_bucket(us, i),
        in_bucket(us, j),
    ensures
        i == j,
{
}

/// The bucket that a delay belongs in.
pub fn bucket_of(us: u64) -> (i: usize)
    ensures
        in_bucket(us, i as int),
{
    if us < 500 {
        0
    } else if us < 1_000 {
        1
    } else if us < 2_000 {
        2
    } else if us < 5_000 {
        3
    } else if us < 10_000 {
        4
    } else if us < 20_000 {
        5
    } else if us < 50_000 {
        6
    } else if us < 100_000 {
        7
    } else if us < 200_000 {
        8
    } else if us < 500_000 {
        9
    } else {
        10
    }
}

/// The counters that are also reported per window.
#[derive(Clone, Copy, Debug, PartialEq, Eq, Structural)]
pub struct Totals {
    pub packets: u64,
    pub wins: u64,
    pub duplicates: u64,
    pub stale: u64,
    pub delay_sum_us: u64,
    pub delay_count: u64,
}

impl Totals {
    /// Nothing counted.
    pub open spec fn spec_zero() -> Totals {
        Totals {
            packets: 0,
            wins: 0,
            duplicates: 0,
            stale: 0,
            delay_sum_us: 0,
            delay_count: 0,
        }
    }

    /// Nothing counted.
    #[verifier::when_used_as_spec(spec_zero)]
    pub fn zero() -> (t: Totals)
        ensures
            t == Totals::zero(),
    {
        Totals { packets: 0, wins: 0, duplicates: 0, stale: 0, delay_sum_us: 0, delay_count: 0 }
    }

    /// What was counted since `earlier`.
    pub open spec fn spec_since(self, earlier: Totals) -> Totals {
        Totals {
            packets: grown(self.packets, earlier.packets),
            wins: grown(self.wins, earlier.wins),
            duplicates: grown(self.duplicates, earlier.duplicates),
            stale: grown(self.stale, earlier.stale),
            delay_sum_us: grown(self.delay_sum_us, earlier.delay_sum_us),
            delay_count: grown(self.delay_count, earlier.delay_count),
        }
    }

    /// What was counted since `earlier`.
    #[verifier::when_used_as_spec(spec_since)]
    pub fn since(self, earlier: Totals) -> (t: Totals)
        ensures
            t == self.since(earlier),
    {
        Totals {
            packets: self.packets.saturating_sub(earlier.packets),
            wins: self.wins.saturating_sub(earlier.wins),
            duplicates: self.duplicates.saturating_sub(earlier.duplicates),
            stale: self.stale.saturating_sub(earlier.stale),
            delay_sum_us: self.delay_sum_us.saturating_sub(earlier.delay_sum_us),
            delay_count: self.delay_count.saturating_sub(earlier.delay_count),
        }
    }
}

/// By how much a counter has grown; nothing if it has wrapped meanwhile.
pub open spec fn grown(now: u64, earlier: u64) -> u64 {
    if now >= earlier {
        (now - earlier) as u64
    } else {
        0
    }
}

/// Statistics for a single upstream data connection.
pub struct SourceStats {
    connected: bool,
    disconnects: u64,
    /// Frames refused outright for being older than the freshness limit, as
    /// opposed to stale ones, which are only older than what was forwarded.
    too_old: u64,
    /// Frames refused for being stamped in the future.
    from_future: u64,
    totals: Totals,
    /// Consecutive windows in which this source delivered nothing.
    silent_windows: u64,
    /// The totals when the last window closed.
    prev: Totals,
    /// What the last window counted.
    window: Totals,
    hist: Vec<u64>,
}

/// What a `SourceStats` denotes.
#[verifier::ext_equal]
pub ghost struct StatsView {
    pub connected: bool,
    pub disconnects: u64,
    pub too_old: u64,
    pub from_future: u64,
    pub totals: Totals,
    pub silent_windows: u64,
    pub prev: Totals,
    pub window: Totals,
    pub hist: Seq<u64>,
}

impl View for SourceStats {
    type V = StatsView;

    closed spec fn view(&self) -> StatsView {
        StatsView {
            connected: self.connected,
            disconnects: self.disconnects,
            too_old: self.too_old,
            from_future: self.from_future,
            totals: self.totals,
            silent_windows: self.silent_windows,
            prev: self.prev,
            window: self.window,
            hist: self.hist@,
        }
    }
}

impl StatsView {
    /// A source that has not connected yet.
    pub open spec fn fresh() -> StatsView {
        StatsView {
            connected: false,
            disconnects: 0,
            too_old: 0,
            from_future: 0,
            totals: Totals::zero(),
            silent_windows: 0,
            prev: Totals::zero(),
            window: Totals::zero(),
            hist: Seq::new(NUM_BUCKETS as nat, |i: int| 0u64),
        }
    }

    /// There is one counter per bucket.
    pub open spec fn wf(self) -> bool {
        self.hist.len() == NUM_BUCKETS
    }

    /// How long the source has been silent, in seconds, or `None` if it never
    /// delivered at all.
    pub open spec fn idle_for(self) -> Option<u64> {
        if self.totals.packets == 0 {
            None
        } else {
            Some((WINDOW * (self.silent_windows % 0x1_0000_0000)) as u64)
        }
    }

    /// The source's socket is up.
    pub open spec fn came_up(self) -> StatsView {
        StatsView { connected: true, ..self }
    }

    /// The source's socket has gone down.
    pub open spec fn went_down(self) -> StatsView {
        StatsView { connected: false, disconnects: counted(self.disconnects, 1), ..self }
    }

    /// One more frame refused for being too old.
    pub open spec fn refused_old(self) -> StatsView {
        StatsView { too_old: counted(self.too_old, 1), ..self }
    }

    /// One more frame refused for being stamped in the future.
    pub open spec fn refused_future(self) -> StatsView {
        StatsView { from_future: counted(self.from_future, 1), ..self }
    }

    /// One more frame from the source.
    pub open spec fn packet(self) -> StatsView {
        StatsView {
            totals: Totals { packets: counted(self.totals.packets, 1), ..self.totals },
            ..self
        }
    }

    /// A slower copy, `us` microseconds late.
    pub open spec fn delayed(self, us: u64) -> StatsView {
        let i = choose|i: int| in_bucket(us, i);
        StatsView {
            totals: Totals {
                duplicates: counted(self.totals.duplicates, 1),
                delay_sum_us: counted(self.totals.delay_sum_us, us),
                delay_count: counted(self.totals.delay_count, 1),
                ..self.totals
            },
            hist: self.hist.update(i, counted(self.hist[i], 1)),
            ..self
        }
    }

    /// The close of a window.
    pub open spec fn rolled(self) -> StatsView {
        let window = self.totals.since(self.prev);
        StatsView {
            silent_windows: if window.packets == 0 {
                counted(self.silent_windows, 1)
            } else {
                0
            },
            prev: self.totals,
            window,
            ..self
        }
    }
}

impl SourceStats {
    /// A source that has not connected yet.
    pub fn new() -> (s: SourceStats)
        ensures
            s@ == StatsView::fresh(),
            s@.wf(),
    {
        let mut hist: Vec<u64> = Vec::new();
        hist.resize(NUM_BUCKETS, 0);
        let s = SourceStats {
            connected: false,
            disconnects: 0,
            too_old: 0,
            from_future: 0,
            totals: Totals::zero(),
            silent_windows: 0,
            prev: Totals::zero(),
            window: Totals::zero(),
            hist,
        };
        assert(s@.hist =~= StatsView::fresh().hist);
        s
    }

    /// Whether the source's socket is up.
    pub fn connected(&self) -> (b: bool)
        ensures
            b == self@.connected,
    {
        self.connected
    }

    /// How often the source's socket has gone down.
    pub fn disconnects(&self) -> (n: u64)
        ensures
            n == self@.disconnects,
    {
        self.disconnects
    }

    /// Frames refused for being older than the freshness limit.
    pub fn too_old(&self) -> (n: u64)
        ensures
            n == self@.too_old,
    {
        self.too_old
    }

    /// Frames refused for being stamped in the future.
    pub fn from_future(&self) -> (n: u64)
        ensures
            n == self@.from_future,
    {
        self.from_future
    }

    /// What was counted since the start.
    pub fn totals(&self) -> (t: Totals)
        ensures
            t == self@.totals,
    {
        self.totals
    }

    /// Consecutive windows with no data. Zero means it delivered in the last
    /// one.
    pub fn silent_windows(&self) -> (n: u64)
        ensures
            n == self@.silent_windows,
    {
        self.silent_windows
    }

    /// What the last window counted.
    pub fn window(&self) -> (t: Totals)
        ensures
            t == self@.window,
    {
        self.window
    }

    /// The count of bucket `i` of the delay histogram.
    pub fn bucket(&self, i: usize) -> (n: u64)
        requires
            self@.wf(),
            i < NUM_BUCKETS,
        ensures
            n == self@.hist[i as int],
    {
        self.hist[i]
    }

    /// How long this source has been silent, in seconds, or `None` if it never
    /// delivered at all: "never" must not read as "long ago", since a source
    /// that has yet to say anything cannot have been leading a block.
    ///
    /// Rounded down to whole windows: zero means it delivered during the most
    /// recent one.
    pub fn idle_for(&self) -> (d: Option<u64>)
        ensures
            d == self@.idle_for(),
    {
        if self.totals.packets == 0 {
            None
        } else {
            Some(WINDOW * (self.silent_windows % 0x1_0000_0000))
        }
    }

    /// The source's socket is up.
    pub fn record_connect(&mut self)
        ensures
            final(self)@ == old(self)@.came_up(),
    {
        self.connected = true;
    }

    /// The source's socket has gone down.
    pub fn record_disconnect(&mut self)
        ensures
            final(self)@ == old(self)@.went_down(),
    {
        self.connected = false;
        self.disconnects = self.disconnects.wrapping_add(1);
    }

    /// Count a frame refused for being older than the freshness limit.
    pub fn record_too_old(&mut self)
        ensures
            final(self)@ == old(self)@.refused_old(),
    {
        self.too_old = self.too_old.wrapping_add(1);
    }

    /// Count a frame refused for being stamped in the future.
    pub fn record_from_future(&mut self)
        ensures
            final(self)@ == old(self)@.refused_future(),
    {
        self.from_future = self.from_future.wrapping_add(1);
    }

    /// Count a frame from the source, routed or not.
    pub fn record_packet(&mut self)
        ensures
            final(self)@ == old(self)@.packet(),
    {
        self.totals.packets = self.totals.packets.wrapping_add(1);
    }

    /// Count a slower copy, `ns` nanoseconds late. Delays are kept in whole
    /// microseconds.
    pub fn record_delay(&mut self, ns: u64)
        requires
            old(self)@.wf(),
        ensures
            final(self)@ == old(self)@.delayed(ns / 1000),
            final(self)@.wf(),
    {
        let us: u64 = ns / 1000;
        self.totals.duplicates = self.totals.duplicates.wrapping_add(1);
        self.totals.delay_sum_us = self.totals.delay_sum_us.wrapping_add(us);
        self.totals.delay_count = self.totals.delay_count.wrapping_add(1);
        let idx = bucket_of(us);
        proof {
            let i = choose|i: int| in_bucket(us, i);
            law_one_bucket_per_delay(us, i, idx as int);
        }
        let n = self.hist[idx].wrapping_add(1);
        self.hist.set(idx, n);
    }

    /// Count a frame that was the first to carry its stamp.
    pub fn record_win(&mut self)
        ensures
            final(self)@ == (StatsView {
                totals: Totals {
                    wins: counted(old(self)@.totals.wins, 1),
                    ..old(self)@.totals
                },
                ..old(self)@
            }),
    {
        self.totals.wins = self.totals.wins.wrapping_add(1);
    }

    /// Count a frame that was older than what had gone out.
    pub fn record_stale(&mut self)
        ensures
            final(self)@ == (StatsView {
                totals: Totals {
                    stale: counted(old(self)@.totals.stale, 1),
                    ..old(self)@.totals
                },
                ..old(self)@
            }),
    {
        self.totals.stale = self.totals.stale.wrapping_add(1);
    }

    /// Close a window: keep what it counted, and note whether the source was
    /// silent in it.
    pub fn roll_window(&mut self)
        ensures
            final(self)@ == old(self)@.rolled(),
    {
        let window = self.totals.since(self.prev);
        if window.packets == 0 {
            self.silent_windows = self.silent_windows.wrapping_add(1);
        } else {
            self.silent_windows = 0;
        }
        self.prev = self.totals;
        self.window = window;
    }
}

impl StatsView {
    /// The counters after a ruling on one of the source's frames.
    pub open spec fn ruled(self, ruling: crate::arbitration::Ruling) -> StatsView {
        match ruling {
            crate::arbitration::Ruling::Win => StatsView {
                totals: Totals { wins: counted(self.totals.wins, 1), ..self.totals },
                ..self
            },
            crate::arbitration::Ruling::Late(ns) => self.delayed(ns / 1000),
            crate::arbitration::Ruling::Stale => StatsView {
                totals: Totals { stale: counted(self.totals.stale, 1), ..self.totals },
                ..self
            },
            _ => self,
        }
    }
}

impl SourceStats {
    /// Count a ruling on one of the source's frames.
    pub fn record_ruling(&mut self, ruling: Ruling)
        requires
            old(self)@.wf(),
        ensures
            final(self)@ == old(self)@.ruled(ruling),
            final(self)@.wf(),
    {
        match ruling {
            Ruling::Win => self.record_win(),
            Ruling::Late(ns) => self.record_delay(ns),
            Ruling::Stale => self.record_stale(),
            _ => {},
        }
    }
}

impl Default for SourceStats {
    fn default() -> (s: SourceStats)
        ensures
            s@ == StatsView::fresh(),
            s@.wf(),
    {
        SourceStats::new()
    }
}

/// The sum of the buckets of a histogram.
pub open spec fn hist_sum(hist: Seq<u64>) -> int
    decreases hist.len(),
{
    if hist.len() == 0 {
        0
    } else {
        hist_sum(hist.drop_last()) + hist.last()
    }
}

proof fn lemma_hist_update(hist: Seq<u64>, i: int, v: u64)
    requires
        0 <= i < hist.len(),
    ensures
        hist_sum(hist.update(i, v)) == hist_sum(hist) - hist[i] + v,
    decreases hist.len(),
{
    if i == hist.len() - 1 {
        assert(hist.update(i, v).drop_last() =~= hist.drop_last());
    } else {
        assert(hist.update(i, v).drop_last() =~= hist.drop_last().update(i, v));
        lemma_hist_update(hist.drop_last(), i, v);
    }
}

/// Every delay lands in the histogram: each recorded delay raises the sum of
/// the buckets and the sample count alike, so the two stay equal up to
/// wrapping.
pub proof fn law_histogram_counts_every_delay(s: StatsView, us: u64)
    requires
        s.wf(),
        (hist_sum(s.hist) - s.totals.delay_count) % (COUNTER_SPAN as int) == 0,
    ensures
        (hist_sum(s.delayed(us).hist) - s.delayed(us).totals.delay_count) % (COUNTER_SPAN as int)
            == 0,
        s.delayed(us).wf(),
{
    let i = choose|i: int| in_bucket(us, i);
    assert(exists|i: int| in_bucket(us, i)) by {
        lemma_some_bucket(us);
    }
    lemma_hist_update(s.hist, i, counted(s.hist[i], 1));
    let m = COUNTER_SPAN as int;
    let d = hist_sum(s.hist) - s.totals.delay_count;
    let e = hist_sum(s.delayed(us).hist) - s.delayed(us).totals.delay_count;
    assert(e == d || e == d + m || e == d - m);
    assert(d % m == 0 ==> (d + m) % m == 0 && (d - m) % m == 0) by (nonlinear_arith)
        requires
            m == 0x1_0000_0000_0000_0000,
    ;
}

proof fn lemma_some_bucket(us: u64)
    ensures
        exists|i: int| in_bucket(us, i),
{
    let i: int = if us < 500 {
        0
    } else if us < 1_000 {
        1
    } else if us < 2_000 {
        2
    } else if us < 5_000 {
        3
    } else if us < 10_000 {
        4
    } else if us < 20_000 {
        5
    } else if us < 50_000 {
        6
    } else if us < 100_000 {
        7
    } else if us < 200_000 {
        8
    } else if us < 500_000 {
        9
    } else {
        10
    };
    assert(in_bucket(us, i));
}

/// A window reports what was counted in it, and the next one starts from there.
pub proof fn law_windows_tile(s: StatsView)
    ensures
        s.rolled().prev == s.totals,
        s.rolled().rolled().window == Totals::zero(),
        s.rolled().totals == s.totals,
{
}

} // verus!
