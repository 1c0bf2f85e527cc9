//! What the counters of a source count.

use crate::arbitration::Ruling;
use crate::stats::Totals;
use vstd::prelude::*;

verus! {

/// A counter goes up by what is counted and starts over from zero when it is full;
/// what it has grown by since is the difference, as long as it has not.
pub proof fn law_counters_add_up(c: u64, n: u64)
    ensures
        c + n <= u64::MAX ==> crate::stats::counted(c, n) == c + n,
        c + n > u64::MAX ==> crate::stats::counted(c, n) == c + n - u64::MAX - 1,
        c + n <= u64::MAX ==> crate::stats::grown(crate::stats::counted(c, n), c) == n,
        c + n > u64::MAX ==> crate::stats::grown(crate::stats::counted(c, n), c) == 0,
{
}

/// A delay is filed under the first of the half millisecond, one, two, five, ten,
/// twenty, fifty, one hundred, two hundred and five hundred milliseconds that it lies
/// below, and last of all if it lies below none of them.
pub proof fn law_delays_are_filed_by_size(us: u64, i: int)
    ensures
        crate::stats::in_bucket(us, i) ==> 0 <= i <= 10,
        crate::stats::in_bucket(us, 0) <==> us < 500,
        crate::stats::in_bucket(us, 1) <==> 500 <= us < 1000,
        crate::stats::in_bucket(us, 2) <==> 1000 <= us < 2000,
        crate::stats::in_bucket(us, 3) <==> 2000 <= us < 5000,
        crate::stats::in_bucket(us, 4) <==> 5000 <= us < 10000,
        crate::stats::in_bucket(us, 5) <==> 10000 <= us < 20000,
        crate::stats::in_bucket(us, 6) <==> 20000 <= us < 50000,
        crate::stats::in_bucket(us, 7) <==> 50000 <= us < 100000,
        crate::stats::in_bucket(us, 8) <==> 100000 <= us < 200000,
        crate::stats::in_bucket(us, 9) <==> 200000 <= us < 500000,
        crate::stats::in_bucket(us, 10) <==> 500000 <= us,
{
}

/// A slower copy is one more duplicate, adds its own delay to the sum, and lands in
/// the one bucket that its delay belongs in; nothing else is counted.
pub proof fn law_late_copy_is_charged_its_delay(
    s: crate::stats::StatsView,
    us: u64,
    at: int,
    other: int,
)
    requires
        s.wf(),
        crate::stats::in_bucket(us, at),
        0 <= other < s.hist.len(),
        other != at,
    ensures
        ({
            let after = s.delayed(us);
            &&& after.totals.duplicates == s.totals.duplicates + 1 || s.totals.duplicates
                == u64::MAX
            &&& after.totals.delay_count == s.totals.delay_count + 1 || s.totals.delay_count
                == u64::MAX
            &&& s.totals.delay_sum_us + us <= u64::MAX ==> after.totals.delay_sum_us
                == s.totals.delay_sum_us + us
            &&& after.hist[at] == s.hist[at] + 1 || s.hist[at] == u64::MAX
            &&& after.hist[other] == s.hist[other]
            &&& after.totals.packets == s.totals.packets
            &&& after.totals.wins == s.totals.wins
            &&& after.totals.stale == s.totals.stale
            &&& after.connected == s.connected
            &&& after.disconnects == s.disconnects
            &&& after.too_old == s.too_old
            &&& after.from_future == s.from_future
            &&& after.silent_windows == s.silent_windows
            &&& after.prev == s.prev
            &&& after.window == s.window
        }),
{
    let i = choose|i: int| crate::stats::in_bucket(us, i);
    crate::stats::law_one_bucket_per_delay(us, i, at);
}

/// A frame that opens a stamp is one win of its source, one that is older than what
/// went out is one stale frame, a slower copy is charged its delay in whole
/// microseconds, and any other changes no counter.
pub proof fn law_rulings_are_counted(s: crate::stats::StatsView, ns: u64)
    ensures
        s.totals.wins < u64::MAX ==> s.ruled(Ruling::Win) == (crate::stats::StatsView {
            totals: Totals { wins: (s.totals.wins + 1) as u64, ..s.totals },
            ..s
        }),
        s.totals.stale < u64::MAX ==> s.ruled(Ruling::Stale) == (crate::stats::StatsView {
            totals: Totals { stale: (s.totals.stale + 1) as u64, ..s.totals },
            ..s
        }),
        s.ruled(Ruling::Late(ns)) == s.delayed((ns as int / 1000) as u64),
        s.ruled(Ruling::Further) == s,
        s.ruled(Ruling::Repeat) == s,
{
}

/// A frame from a source is one more packet of it and nothing else.
pub proof fn law_every_frame_is_a_packet(s: crate::stats::StatsView)
    ensures
        s.totals.packets < u64::MAX ==> s.packet() == (crate::stats::StatsView {
            totals: Totals { packets: (s.totals.packets + 1) as u64, ..s.totals },
            ..s
        }),
{
}

/// A window reports, counter by counter, what was added since the one before closed.
/// The totals and the histogram stay, and a window without a packet is one more silent
/// one, while any packet ends the silence.
pub proof fn law_window_reports_the_growth(s: crate::stats::StatsView)
    requires
        s.prev.packets <= s.totals.packets,
        s.prev.wins <= s.totals.wins,
        s.prev.duplicates <= s.totals.duplicates,
        s.prev.stale <= s.totals.stale,
        s.prev.delay_sum_us <= s.totals.delay_sum_us,
        s.prev.delay_count <= s.totals.delay_count,
    ensures
        ({
            let after = s.rolled();
            &&& s.prev.packets + after.window.packets == s.totals.packets
            &&& s.prev.wins + after.window.wins == s.totals.wins
            &&& s.prev.duplicates + after.window.duplicates == s.totals.duplicates
            &&& s.prev.stale + after.window.stale == s.totals.stale
            &&& s.prev.delay_sum_us + after.window.delay_sum_us == s.totals.delay_sum_us
            &&& s.prev.delay_count + after.window.delay_count == s.totals.delay_count
            &&& after.prev == s.totals
            &&& after.totals == s.totals
            &&& after.hist == s.hist
            &&& after.connected == s.connected
            &&& after.disconnects == s.disconnects
            &&& after.too_old == s.too_old
            &&& after.from_future == s.from_future
            &&& s.totals.packets > s.prev.packets <==> after.silent_windows == 0
                && after.window.packets > 0
            &&& s.totals.packets == s.prev.packets && s.silent_windows < u64::MAX
                ==> after.silent_windows == s.silent_windows + 1
        }),
{
}

/// Two windows in a row report together what was added over both.
pub proof fn law_windows_add_up(
    s: crate::stats::StatsView,
    later: crate::stats::StatsView,
)
    requires
        s.prev.packets <= s.totals.packets <= later.totals.packets,
        s.prev.wins <= s.totals.wins <= later.totals.wins,
        s.prev.duplicates <= s.totals.duplicates <= later.totals.duplicates,
        s.prev.stale <= s.totals.stale <= later.totals.stale,
        later.prev == s.rolled().prev,
    ensures
        s.rolled().window.packets + later.rolled().window.packets == later.totals.packets
            - s.prev.packets,
        s.rolled().window.wins + later.rolled().window.wins == later.totals.wins - s.prev.wins,
        s.rolled().window.duplicates + later.rolled().window.duplicates == later.totals.duplicates
            - s.prev.duplicates,
        s.rolled().window.stale + later.rolled().window.stale == later.totals.stale
            - s.prev.stale,
{
}

/// A source that never delivered has no time of silence; any other has been silent
/// for five seconds per window without a packet.
pub proof fn law_silence_is_measured_in_windows(s: crate::stats::StatsView)
    ensures
        s.idle_for() is None <==> s.totals.packets == 0,
        s.totals.packets > 0 && s.silent_windows < 0x1_0000_0000 ==> s.idle_for() == Some(
            (5 * s.silent_windows) as u64,
        ),
        s.totals.packets > s.prev.packets ==> s.rolled().idle_for() == Some(0u64),
{
}

/// A source starts out down, with nothing counted in any way.
pub proof fn law_sources_start_from_nothing(i: int)
    ensures
        ({
            let s = crate::stats::StatsView::fresh();
            &&& !s.connected
            &&& s.disconnects == 0 && s.too_old == 0 && s.from_future == 0 && s.silent_windows == 0
            &&& s.totals.packets == 0 && s.totals.wins == 0 && s.totals.duplicates == 0
            &&& s.totals.stale == 0 && s.totals.delay_sum_us == 0 && s.totals.delay_count == 0
            &&& s.prev == s.totals && s.window == s.totals
            &&& 0 <= i < s.hist.len() ==> s.hist[i] == 0
            &&& s.hist.len() == 11
        }),
{
}

/// A source is connected from the moment its socket comes up to the moment it goes down.
/// Each time it goes down is one more disconnect, and nothing else is.
pub proof fn law_every_loss_is_a_disconnect(s: crate::stats::StatsView)
    requires
        s.disconnects < u64::MAX,
    ensures
        s.came_up().connected,
        !s.went_down().connected,
        s.came_up().disconnects == s.disconnects,
        s.went_down().disconnects == s.disconnects + 1,
        s.came_up().went_down().disconnects == s.went_down().disconnects,
        s.connected ==> s.came_up() == s && s.went_down().came_up() == (crate::stats::StatsView {
            disconnects: (s.disconnects + 1) as u64,
            ..s
        }),
{
}

/// A frame whose time is off is counted on the side that it is off to, once, and
/// nowhere else: it is no packet, wins nothing and files no delay.
pub proof fn law_refusals_are_counted_apart(s: crate::stats::StatsView)
    requires
        s.too_old < u64::MAX,
        s.from_future < u64::MAX,
    ensures
        s.refused_old().too_old == s.too_old + 1,
        s.refused_old().from_future == s.from_future,
        s.refused_future().from_future == s.from_future + 1,
        s.refused_future().too_old == s.too_old,
        forall|after: crate::stats::StatsView|
            after == s.refused_old() || after == s.refused_future() ==> {
                &&& (#[trigger] after.totals) == s.totals
                &&& after.hist == s.hist
                &&& after.connected == s.connected
                &&& after.disconnects == s.disconnects
                &&& after.silent_windows == s.silent_windows
                &&& after.prev == s.prev
                &&& after.window == s.window
            },
        s.refused_old().refused_future() == s.refused_future().refused_old(),
{
}

} // verus!
