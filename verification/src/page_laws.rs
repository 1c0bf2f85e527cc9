//! What the statistics page shows.

use crate::page::{Averages, Figures, Traffic};
use crate::probes::{Metric, Probe, ProbePeer, RacePeer, RaceReport};
use vstd::prelude::*;

verus! {

// ---------------------------------------------------------------------------
// Sources
// ---------------------------------------------------------------------------

/// What stands before the figures of a source in the table of the last window: its
/// number, its address, and its state.
pub open spec fn window_head(s: crate::state::SourceView) -> Seq<char> {
    "<tr><td class=nd>node"@ + crate::text::digits(s.id as nat + 1) + "</td><td>"@
        + crate::text::escaped_page(s.url) + "</td><td class="@ + crate::page::state_class(s.stats)
        + ">"@ + crate::page::state_name(s.stats) + "</td><td>"@
}

/// The figures of a window, as they stand in a row.
pub open spec fn window_cells(
    packets: nat,
    wins: nat,
    dups: nat,
    stale: nat,
    avg: Seq<char>,
) -> Seq<char> {
    crate::text::digits(packets) + "</td><td class=win>"@ + crate::text::digits(wins)
        + "</td><td>"@ + crate::text::digits(dups) + "</td><td>"@ + crate::text::digits(stale)
        + "</td><td>"@ + avg + "</td></tr>"@
}

/// The table of the last window shows what the last window counted: by how much the
/// packets, wins, duplicates and stale frames of a source have grown between the last
/// two ticks, whatever its totals are.
pub proof fn law_window_row_shows_the_growth(s: crate::state::SourceView, avg: Seq<char>)
    requires
        s.stats.prev.packets <= s.stats.totals.packets,
        s.stats.prev.wins <= s.stats.totals.wins,
        s.stats.prev.duplicates <= s.stats.totals.duplicates,
        s.stats.prev.stale <= s.stats.totals.stale,
    ensures
        ({
            let after = crate::state::SourceView { stats: s.stats.rolled(), ..s };
            crate::page::window_row(after, avg) == window_head(after) + window_cells(
                (s.stats.totals.packets - s.stats.prev.packets) as nat,
                (s.stats.totals.wins - s.stats.prev.wins) as nat,
                (s.stats.totals.duplicates - s.stats.prev.duplicates) as nat,
                (s.stats.totals.stale - s.stats.prev.stale) as nat,
                avg,
            )
        }),
{
    let after = crate::state::SourceView { stats: s.stats.rolled(), ..s };
    lemma_window_row(after, avg);
}

proof fn lemma_window_row(s: crate::state::SourceView, avg: Seq<char>)
    ensures
        crate::page::window_row(s, avg) == window_head(s) + window_cells(
            s.stats.window.packets as nat,
            s.stats.window.wins as nat,
            s.stats.window.duplicates as nat,
            s.stats.window.stale as nat,
            avg,
        ),
{
    assert(crate::page::window_row(s, avg) =~= window_head(s) + window_cells(
        s.stats.window.packets as nat,
        s.stats.window.wins as nat,
        s.stats.window.duplicates as nat,
        s.stats.window.stale as nat,
        avg,
    ));
}

/// After a window in which nothing was counted every figure of its row is nought,
/// whatever was counted before.
pub proof fn law_idle_window_shows_noughts(s: crate::state::SourceView, avg: Seq<char>)
    requires
        s.stats.totals == s.stats.prev,
    ensures
        ({
            let after = crate::state::SourceView { stats: s.stats.rolled(), ..s };
            crate::page::window_row(after, avg) == window_head(after) + window_cells(
                0,
                0,
                0,
                0,
                avg,
            )
        }),
{
    law_window_row_shows_the_growth(s, avg);
}

/// The table of totals shows, for each source, its number counted from one, its
/// address, its state, when it last delivered, and what was counted since the start,
/// with the frames that were refused either way together.
pub proof fn law_total_row_shows_the_totals(s: crate::state::SourceView, avg: Seq<char>)
    requires
        s.stats.too_old + s.stats.from_future <= u64::MAX,
    ensures
        ({
            let t = s.stats.totals;
            let show = |n: nat| crate::text::grouped(crate::text::digits(n));
            let refused = (s.stats.too_old + s.stats.from_future) as nat;
            crate::page::total_row(s, avg) == "<tr><td class=nd>node"@ + crate::text::digits(
                s.id as nat + 1,
            ) + "</td><td>"@ + crate::text::escaped_page(s.url) + "</td><td class="@
                + crate::page::state_class(s.stats) + ">"@ + crate::page::state_name(s.stats)
                + "</td><td>"@ + crate::page::last_data(s.stats) + "</td><td>"@ + show(
                t.packets as nat,
            ) + "</td><td>"@ + show(s.stats.disconnects as nat) + "</td><td class=num>"@ + show(
                t.wins as nat,
            ) + "</td><td class=num>"@ + show(t.duplicates as nat) + "</td><td class=num>"@ + show(
                t.stale as nat,
            ) + "</td><td class="@ + (if refused > 0 {
                "over"@
            } else {
                "num"@
            }) + ">"@ + show(refused) + "</td><td>"@ + avg + "</td><td class=hist>"@
                + crate::page::hist_row(s.stats.hist) + "</td></tr>"@
        }),
{
}

/// A source is down while it is not connected, idle while it is connected but has been
/// silent for more than five seconds after having delivered, and up otherwise; when it
/// last delivered is marked exactly when that is longer ago than five seconds.
pub proof fn law_state_tells_silence_from_loss(s: crate::stats::StatsView)
    ensures
        ({
            let silent = s.totals.packets > 0 && s.idle_for() is Some && s.idle_for()->0 > 5;
            &&& !s.connected ==> crate::page::state_name(s) == "DOWN"@ && crate::page::state_class(
                s,
            ) == "down"@
            &&& s.connected && silent ==> crate::page::state_name(s) == "IDLE"@
                && crate::page::state_class(s) == "idle"@
            &&& s.connected && !silent ==> crate::page::state_name(s) == "UP"@
                && crate::page::state_class(s) == "up"@
            &&& s.totals.packets == 0 ==> crate::page::last_data(s) == "&mdash;"@
            &&& silent ==> crate::page::last_data(s) == "<span class=over>"@ + crate::text::digits(
                s.idle_for()->0 as nat,
            ) + "s ago</span>"@
            &&& s.totals.packets > 0 && !silent ==> crate::page::last_data(s)
                == crate::text::digits(s.idle_for()->0 as nat) + ".0s ago"@
        }),
{
}

/// The histogram of a source shows each bucket that holds anything, in order, under its
/// upper edge and with its count, and a dash if none does.
pub proof fn law_histogram_shows_what_is_held(hist: Seq<u64>, n: int)
    requires
        0 <= n,
    ensures
        crate::page::hist_cells(hist, 0).len() == 0,
        hist[n] == 0 ==> crate::page::hist_cells(hist, n + 1) == crate::page::hist_cells(hist, n),
        hist[n] > 0 ==> crate::page::hist_cells(hist, n + 1) == crate::page::hist_cells(hist, n) + (
        "<span class=b>"@ + crate::page::bucket_label(n) + ":"@ + crate::text::digits(
            hist[n] as nat,
        ) + "</span> "@),
        (forall|i: int| 0 <= i < 11 ==> #[trigger] hist[i] == 0) ==> crate::page::hist_row(hist)
            == "&mdash;"@,
        (exists|i: int| 0 <= i < 11 && #[trigger] hist[i] > 0) ==> crate::page::hist_row(hist)
            == crate::page::hist_cells(hist, 11),
{
    lemma_hist_empty(hist, 11);
    if exists|i: int| 0 <= i < 11 && #[trigger] hist[i] > 0 {
        let i = choose|i: int| 0 <= i < 11 && #[trigger] hist[i] > 0;
        lemma_hist_some(hist, i, 11);
    }
}

proof fn lemma_hist_empty(hist: Seq<u64>, n: int)
    requires
        0 <= n <= 11,
    ensures
        (forall|i: int| 0 <= i < 11 ==> #[trigger] hist[i] == 0) ==> crate::page::hist_cells(
            hist,
            n,
        ).len() == 0,
    decreases n,
{
    if n > 0 {
        lemma_hist_empty(hist, n - 1);
    }
}

proof fn lemma_hist_some(hist: Seq<u64>, i: int, n: int)
    requires
        0 <= i < n,
        hist[i] > 0,
    ensures
        crate::page::hist_cells(hist, n).len() > 0,
    decreases n,
{
    if i < n - 1 {
        lemma_hist_some(hist, i, n - 1);
    } else {
        crate::text::lemma_digits_nonempty(hist[i] as nat);
    }
}

/// The label of each bucket but the last is its upper edge in milliseconds.
pub proof fn law_buckets_are_named_by_their_edge()
    ensures
        crate::page::bucket_label(0) == "<0.5ms"@ && crate::stats::bucket_edge(0) == 500,
        crate::page::bucket_label(1) == "<1ms"@ && crate::stats::bucket_edge(1) == 1000,
        crate::page::bucket_label(2) == "<2ms"@ && crate::stats::bucket_edge(2) == 2000,
        crate::page::bucket_label(3) == "<5ms"@ && crate::stats::bucket_edge(3) == 5000,
        crate::page::bucket_label(4) == "<10ms"@ && crate::stats::bucket_edge(4) == 10000,
        crate::page::bucket_label(5) == "<20ms"@ && crate::stats::bucket_edge(5) == 20000,
        crate::page::bucket_label(6) == "<50ms"@ && crate::stats::bucket_edge(6) == 50000,
        crate::page::bucket_label(7) == "<100ms"@ && crate::stats::bucket_edge(7) == 100000,
        crate::page::bucket_label(8) == "<200ms"@ && crate::stats::bucket_edge(8) == 200000,
        crate::page::bucket_label(9) == "<500ms"@ && crate::stats::bucket_edge(9) == 500000,
        crate::page::bucket_label(10) == ">=500ms"@,
{
}

/// Each source has a row in either table, in configured order, with the average that was
/// worked out for it: since the start in the one, in the last window in the other.
pub proof fn law_every_source_has_its_rows(
    sources: Seq<crate::state::SourceView>,
    averages: Seq<Averages>,
    s: crate::state::SourceView,
)
    ensures
        crate::page::total_rows(seq![], averages).len() == 0,
        crate::page::window_rows(seq![], averages).len() == 0,
        crate::page::total_rows(sources.push(s), averages) == crate::page::total_rows(
            sources,
            averages,
        ) + crate::page::total_row(s, averages[sources.len() as int].total@),
        crate::page::window_rows(sources.push(s), averages) == crate::page::window_rows(
            sources,
            averages,
        ) + crate::page::window_row(s, averages[sources.len() as int].window@),
{
    assert(sources.push(s).drop_last() =~= sources);
}

// ---------------------------------------------------------------------------
// Clients
// ---------------------------------------------------------------------------

/// A subscription that a client waits on is shown as being rebuilt. Where one source
/// carries the stream its number, counted from one, is shown, or that there is none;
/// where sources race nobody is named.
pub proof fn law_subscriptions_show_their_source(
    subs: Map<crate::key::Key, crate::entry::EntryView>,
    key: crate::key::Key,
    client: u64,
)
    requires
        subs.dom().contains(key),
    ensures
        ({
            let shown = crate::page::subscription_label(subs, key, client);
            let waits = subs[key].waits(client);
            let carried = key is L2Book || key is L2Diff;
            &&& waits ==> shown == key.label() + " (rebuilding)"@
            &&& !waits && !carried ==> shown == key.label()
            &&& !waits && carried && subs[key].race.leader is None ==> shown == key.label()
                + " (no source)"@
            &&& !waits && carried && subs[key].race.leader is Some ==> shown == key.label()
                + " (node"@ + crate::text::digits(subs[key].race.leader->0 as nat + 1) + ")"@
        }),
{
}

/// The row of a client shows its id, its address, each of its subscriptions, what was
/// sent to it, what it lost, and for how many whole seconds it has been connected.
pub proof fn law_client_row_shows_the_client(
    subs: Map<crate::key::Key, crate::entry::EntryView>,
    c: crate::client::ClientView,
    traffic: Seq<char>,
    now: u64,
)
    requires
        c.connected_at <= now,
    ensures
        crate::page::client_row(subs, c, traffic, now) == "<tr><td>"@ + crate::text::digits(
            c.id as nat,
        ) + "</td><td>"@ + crate::text::escaped_page(c.ip) + "</td><td>"@ + crate::page::label_list(
            c.subscriptions.map_values(
                |k: crate::key::Key| crate::page::subscription_label(subs, k, c.id),
            ),
        ) + "</td><td>"@ + traffic + "</td><td>"@ + crate::text::digits(c.dropped as nat)
            + "</td><td>"@ + crate::text::digits(((now - c.connected_at) / 1000000000) as nat)
            + "s</td></tr>"@,
{
}

/// Each client has a row of its own, with its own traffic.
pub proof fn law_every_client_has_its_row(
    s: crate::state::StateView,
    clients: Seq<Traffic>,
    t: Traffic,
    now: u64,
)
    ensures
        crate::page::client_rows(s, seq![], now).len() == 0,
        crate::page::client_rows(s, clients.push(t), now) == crate::page::client_rows(
            s,
            clients,
            now,
        ) + crate::page::client_row(s.subs, s.clients[t.client], t.text@, now),
{
    assert(clients.push(t).drop_last() =~= clients);
}

/// Labels are listed in order and set apart by commas, with their markup spelled out; no
/// label is a dash.
pub proof fn law_labels_are_listed_in_order(labels: Seq<Seq<char>>)
    ensures
        labels.len() == 0 ==> crate::page::label_list(labels) == "&mdash;"@,
        labels.len() > 0 ==> crate::page::label_list(labels) == crate::text::escaped_page(
            crate::order::listed(crate::order::in_order(labels)),
        ),
{
}

/// What is asked for upstream is every key that is, once each, the ones that are held
/// open marked.
pub proof fn law_upstream_shows_what_is_asked_for(
    subs: Map<crate::key::Key, crate::entry::EntryView>,
    ks: Seq<crate::key::Key>,
)
    ensures
        crate::page::upstream_labels(subs, ks) == ks.filter(
            |k: crate::key::Key| subs[k].upstream_subscribed,
        ).map_values(
            |k: crate::key::Key|
                if subs[k].pinned {
                    k.label() + " (probe)"@
                } else {
                    k.label()
                },
        ),
    decreases ks.len(),
{
    reveal(Seq::filter);
    let asked = |k: crate::key::Key| subs[k].upstream_subscribed;
    let named = |k: crate::key::Key|
        if subs[k].pinned {
            k.label() + " (probe)"@
        } else {
            k.label()
        };
    if ks.len() > 0 {
        law_upstream_shows_what_is_asked_for(subs, ks.drop_last());
    }
    assert(crate::page::upstream_labels(subs, ks) =~= ks.filter(asked).map_values(named));
}

// ---------------------------------------------------------------------------
// The page
// ---------------------------------------------------------------------------

/// The page begins with how many sources, clients and subscriptions there are, and then
/// shows the totals, the last window, the block-lag probe, the clients and the race, one
/// after the other.
pub proof fn law_page_shows_every_section(
    s: crate::state::StateView,
    f: Figures,
    labels: Seq<Seq<char>>,
)
    ensures
        crate::page::page(s, f, labels) == crate::page::PAGE_HEAD@ + "<h1>WSARB</h1>\n"@ + (
        "<p class=sum>"@ + crate::text::digits(s.sources.len()) + " sources &middot; "@
            + crate::text::digits(s.clients.dom().len()) + " clients &middot; "@
            + crate::text::digits(labels.len()) + " subscriptions upstream: "@
            + crate::page::label_list(labels) + "</p>\n"@) + crate::page::totals_table(s, f)
            + crate::page::window_table(s, f) + crate::page::probe_table(f.probe)
            + crate::page::clients_table(s, f) + crate::probes::race_section(f.race, f.probe)
            + crate::page::RACE_TIMER_JS@ + crate::page::probe_script(f.probe)
            + "</body></html>"@,
{
}

/// Each table has a column for each figure of its rows, and holds the rows of what it is
/// named after.
pub proof fn law_tables_hold_their_rows(s: crate::state::StateView, f: Figures)
    ensures
        crate::page::totals_table(s, f)
            == "<div class='cap c1'>Data connections &mdash; cumulative since start</div>\n<table>\n"@
            + "<tr><th>node</th><th>endpoint</th><th>state</th><th>last data</th><th>packets</th><th>disc</th><th>wins</th><th>dups</th><th>stale</th><th>too old</th><th>avg delay (ms)</th><th>delay histogram</th></tr>\n"@
            + crate::page::total_rows(s.sources, f.averages@) + "</table>\n"@,
        crate::page::window_table(s, f)
            == "<div class='cap c1'>Data connections &mdash; last 5s window</div>\n<table>\n"@
            + "<tr><th>node</th><th>endpoint</th><th>state</th><th>packets/5s</th><th>wins/5s</th><th>dups/5s</th><th>stale/5s</th><th>avg delay (ms)</th></tr>\n"@
            + crate::page::window_rows(s.sources, f.averages@) + "</table>\n"@,
        s.clients.dom().len() > 0 ==> crate::page::clients_table(s, f)
            == "<div class='cap c3'>Client connections</div>\n<table>\n"@
            + "<tr><th>id</th><th>ip</th><th>subscriptions</th><th>traffic sent</th><th>dropped</th><th>age</th></tr>\n"@
            + crate::page::client_rows(s, f.clients@, f.now) + "</table>\n"@,
        s.clients.dom().len() == 0 ==> crate::page::clients_table(s, f)
            == "<div class='cap c3'>Client connections</div>\n<table>\n"@
            + "<tr><th>id</th><th>ip</th><th>subscriptions</th><th>traffic sent</th><th>dropped</th><th>age</th></tr>\n"@
            + "<tr><td colspan=6 class=sum>no clients</td></tr>\n"@ + "</table>\n"@,
{
}

/// An amount of bytes is shown in the unit that leaves at least one and fewer than a
/// thousand and twenty-four before the point, as far as the units go.
pub proof fn law_bytes_are_shown_in_their_unit(n: u64)
    ensures
        ({
            let u = crate::page::unit_of(n);
            &&& u <= 4
            &&& u == 0 <==> n < 1024
            &&& u == 1 <==> 1024 <= n < 1024 * 1024
            &&& u == 2 <==> 1024 * 1024 <= n < 1024 * 1024 * 1024
            &&& u == 3 <==> 1024 * 1024 * 1024 <= n < 1024 * 1024 * 1024 * 1024
        }),
{
}

// ---------------------------------------------------------------------------
// What the probes measured
// ---------------------------------------------------------------------------

/// A figure of the probe is marked exactly when it is over its limit: two hundred for
/// the median, a thousand for the ninety-ninth hundredth, a hundred for the spread.
pub proof fn law_probe_marks_what_is_over(p: ProbePeer, last: Seq<char>, m: Metric, limit: u64)
    ensures
        m.ceil > limit ==> crate::probes::metric_cell(m, limit) == "<td class=over>"@ + m.text@
            + "</td>"@,
        m.ceil <= limit ==> crate::probes::metric_cell(m, limit) == "<td>"@ + m.text@ + "</td>"@,
        crate::probes::probe_row(p, last) == "<tr><td class=nd>"@ + crate::text::escaped_page(
            p.node@,
        ) + "</td><td>"@ + crate::text::escaped_page(p.peer@) + "</td><td>"@
            + crate::text::escaped_page(p.location@) + "</td>"@ + crate::probes::metric_cell(
            p.p50,
            200,
        ) + "<td>"@ + p.p95.text@ + "</td>"@ + crate::probes::metric_cell(p.p99, 1000)
            + crate::probes::metric_cell(p.stdev, 100) + "<td class=sum>"@
            + crate::text::escaped_page(last) + "</td></tr>"@,
{
}

/// Each peer of the probe has a row, in order, with the time of day at which the probe
/// ran; without a peer, or without a probe, the table says so.
pub proof fn law_every_probed_peer_has_its_row(
    peers: Seq<ProbePeer>,
    p: ProbePeer,
    last: Seq<char>,
    probe: Probe,
)
    ensures
        crate::probes::probe_peer_rows(seq![], last).len() == 0,
        crate::probes::probe_peer_rows(peers.push(p), last) == crate::probes::probe_peer_rows(
            peers,
            last,
        ) + crate::probes::probe_row(p, last),
        probe.peers is Some && probe.peers->0@.len() > 0 ==> crate::probes::probe_rows(Some(probe))
            == crate::probes::probe_peer_rows(
            probe.peers->0@,
            crate::probes::time_of_day(probe.updated@),
        ),
        probe.peers is None || probe.peers->0@.len() == 0 ==> crate::probes::probe_rows(
            Some(probe),
        ) == "<tr><td colspan=8 class=sum>no probe data</td></tr>"@,
{
    assert(peers.push(p).drop_last() =~= peers);
}

/// The time of day of a date, a `T`, a time and a `Z` is the time, and a text without a
/// `T` stands for itself.
pub proof fn law_time_of_day_is_behind_the_date(date: Seq<char>, time: Seq<char>)
    requires
        !date.contains('T'),
        !time.contains('T'),
        !time.contains('Z'),
        !date.contains('Z'),
    ensures
        crate::probes::time_of_day(date.push('T') + time.push('Z')) == time,
        crate::probes::time_of_day(date.push('T') + time) == time,
        crate::probes::time_of_day(date) == date,
{
    reveal_with_fuel(crate::probes::without_z, 2);
    lemma_behind(date, time.push('Z'));
    lemma_behind(date, time);
    assert(forall|i: int| 0 <= i < time.len() ==> time.contains(#[trigger] time[i]));
    assert(forall|i: int| 0 <= i < date.len() ==> date.contains(#[trigger] date[i]));
    lemma_until(time);
    assert forall|i: int| 0 <= i < time.push('Z').len() implies #[trigger] time.push('Z')[i]
        != 'T' by {
        if i < time.len() {
            assert(time.push('Z')[i] == time[i]);
        }
    }
    lemma_until(time.push('Z'));
    assert(time.push('Z').drop_last() =~= time);
    if time.len() > 0 {
        assert(time.contains(time.last()));
    }
    if date.len() > 0 {
        assert(date.contains(date.last()));
    }
    lemma_no_t(date);
}

proof fn lemma_behind(date: Seq<char>, rest: Seq<char>)
    requires
        !date.contains('T'),
    ensures
        crate::probes::behind_t(date.push('T') + rest) == Some(rest),
    decreases date.len(),
{
    let s = date.push('T') + rest;
    if date.len() == 0 {
        assert(s[0] == 'T');
        assert(s.skip(1) =~= rest);
    } else {
        assert(date.contains(date[0]));
        assert(s[0] == date[0]);
        let d = date.skip(1);
        assert forall|i: int| 0 <= i < d.len() implies d[i] != 'T' by {
            assert(date.contains(date[i + 1]));
        }
        assert(s.skip(1) =~= d.push('T') + rest);
        lemma_behind(d, rest);
    }
}

proof fn lemma_no_t(date: Seq<char>)
    requires
        !date.contains('T'),
    ensures
        crate::probes::behind_t(date) is None,
    decreases date.len(),
{
    if date.len() > 0 {
        assert(date.contains(date[0]));
        let d = date.skip(1);
        assert forall|i: int| 0 <= i < d.len() implies d[i] != 'T' by {
            assert(date.contains(date[i + 1]));
        }
        lemma_no_t(d);
    }
}

proof fn lemma_until(s: Seq<char>)
    requires
        forall|i: int| 0 <= i < s.len() ==> #[trigger] s[i] != 'T',
    ensures
        crate::probes::until_t(s) == s,
    decreases s.len(),
{
    if s.len() > 0 {
        let r = s.skip(1);
        assert forall|i: int| 0 <= i < r.len() implies #[trigger] r[i] != 'T' by {
            assert(r[i] == s[i + 1]);
        }
        lemma_until(r);
        assert(seq![s[0]] + r =~= s);
    } else {
        assert(crate::probes::until_t(s) =~= s);
    }
}

/// Where any peer streams, one of them led most often; where any lag counts, one is the
/// least. A lag counts when its peer streams, from ten samples on.
pub proof fn law_race_has_its_leaders(peers: Seq<RacePeer>, i: int)
    ensures
        crate::probes::is_leads_leader(peers, i) ==> {
            &&& 0 <= i < peers.len()
            &&& peers[i].streaming
            &&& forall|j: int|
                0 <= j < peers.len() && (#[trigger] peers[j]).streaming ==> peers[j].leads
                    <= peers[i].leads
        },
        crate::probes::is_lag_leader(peers, i) ==> {
            &&& 0 <= i < peers.len()
            &&& peers[i].streaming && peers[i].lag_n >= 10 && peers[i].lag_rank is Some
            &&& forall|j: int|
                0 <= j < peers.len() && (#[trigger] peers[j]).streaming && peers[j].lag_n >= 10
                    && peers[j].lag_rank is Some ==> peers[j].lag_rank->0 >= peers[i].lag_rank->0
        },
        (exists|j: int| 0 <= j < peers.len() && (#[trigger] peers[j]).streaming) ==> exists|j: int|
            crate::probes::is_leads_leader(peers, j),
        (exists|j: int|
            0 <= j < peers.len() && (#[trigger] peers[j]).streaming && peers[j].lag_n >= 10
                && peers[j].lag_rank is Some) ==> exists|j: int|
            crate::probes::is_lag_leader(peers, j),
{
    if crate::probes::is_lag_leader(peers, i) {
        assert forall|j: int|
            0 <= j < peers.len() && (#[trigger] peers[j]).streaming && peers[j].lag_n >= 10
                && peers[j].lag_rank is Some implies peers[j].lag_rank->0
            >= peers[i].lag_rank->0 by {
            assert(crate::probes::lag_counts(peers[j]));
        }
    }
    if exists|j: int| 0 <= j < peers.len() && (#[trigger] peers[j]).streaming {
        let j = choose|j: int| 0 <= j < peers.len() && (#[trigger] peers[j]).streaming;
        lemma_leads_leader(peers, j);
    }
    if exists|j: int|
        0 <= j < peers.len() && (#[trigger] peers[j]).streaming && peers[j].lag_n >= 10
            && peers[j].lag_rank is Some {
        let j = choose|j: int|
            0 <= j < peers.len() && (#[trigger] peers[j]).streaming && peers[j].lag_n >= 10
                && peers[j].lag_rank is Some;
        assert(crate::probes::lag_counts(peers[j]));
        lemma_lag_leader(peers, j);
    }
}

proof fn lemma_leads_leader(peers: Seq<RacePeer>, at: int)
    requires
        0 <= at < peers.len(),
        peers[at].streaming,
    ensures
        exists|j: int| crate::probes::is_leads_leader(peers, j),
    decreases u64::MAX - peers[at].leads, at,
{
    if !crate::probes::is_leads_leader(peers, at) {
        let j = choose|j: int|
            0 <= j < peers.len() && (#[trigger] peers[j]).streaming && !(if j < at {
                peers[j].leads < peers[at].leads
            } else {
                peers[j].leads <= peers[at].leads
            });
        lemma_leads_leader(peers, j);
    }
}

proof fn lemma_lag_leader(peers: Seq<RacePeer>, at: int)
    requires
        0 <= at < peers.len(),
        crate::probes::lag_counts(peers[at]),
    ensures
        exists|j: int| crate::probes::is_lag_leader(peers, j),
    decreases peers[at].lag_rank->0, at,
{
    if !crate::probes::is_lag_leader(peers, at) {
        let j = choose|j: int|
            0 <= j < peers.len() && crate::probes::lag_counts(#[trigger] peers[j]) && !(if j < at {
                peers[j].lag_rank->0 > peers[at].lag_rank->0
            } else {
                peers[j].lag_rank->0 >= peers[at].lag_rank->0
            });
        lemma_lag_leader(peers, j);
    }
}

/// The rows of the race go from the peer that led most often to the one that led least,
/// every peer once.
pub proof fn law_race_rows_go_by_leads(peers: Seq<RacePeer>, order: Seq<usize>, a: int, b: int)
    requires
        crate::probes::is_race_order(peers, order),
        0 <= a < b < order.len(),
        peers.len() <= usize::MAX,
    ensures
        order[a] != order[b],
        peers[order[a] as int].leads >= peers[order[b] as int].leads,
        peers[order[a] as int].leads == peers[order[b] as int].leads ==> order[a] < order[b],
        forall|p: usize| p < peers.len() ==> #[trigger] order.contains(p),
{
}

/// The row of a peer shows its name, its state, how often it led, its lag over how many
/// samples, and how often it reconnected. It is red once it has been bad for five days
/// and labelled from seven on, else green for the peer that led most often; its name is
/// marked where a node has it now, its lag where it is the least.
pub proof fn law_race_row_shows_the_peer(peers: Seq<RacePeer>, i: int, probe: Option<Probe>)
    ensures
        ({
            let p = peers[i];
            let class = if p.bad_days >= 5 {
                " class=badrow"@
            } else if crate::probes::is_leads_leader(peers, i) {
                " class=greenrow"@
            } else {
                ""@
            };
            let name = if crate::probes::is_node_peer(probe, p.peer@) {
                " class=nodecell"@
            } else {
                ""@
            };
            let lag = if crate::probes::is_lag_leader(peers, i) {
                " class=limecell"@
            } else {
                ""@
            };
            let state = if p.bad_days >= 7 {
                crate::text::escaped_page(p.state@) + " <span class=badlabel>BAD "@
                    + crate::text::digits(p.bad_days as nat) + "d</span>"@
            } else {
                crate::text::escaped_page(p.state@)
            };
            crate::probes::race_row(peers, i, probe) == "<tr"@ + class + "><td"@ + name + ">"@
                + crate::text::escaped_page(p.peer@) + "</td><td class="@ + (if p.streaming {
                "up"@
            } else {
                "down"@
            }) + ">"@ + state + "</td><td>"@ + crate::text::digits(p.leads as nat) + "</td><td"@
                + lag + ">"@ + p.lag@ + "</td><td>"@ + crate::text::digits(p.lag_n as nat)
                + "</td><td>"@ + crate::text::digits(p.recon as nat) + "</td></tr>"@
        }),
{
}

/// Each place of the order is one row of the race.
pub proof fn law_race_rows_follow_the_order(
    peers: Seq<RacePeer>,
    order: Seq<usize>,
    p: usize,
    probe: Option<Probe>,
)
    ensures
        crate::probes::race_rows(peers, seq![], probe).len() == 0,
        crate::probes::race_rows(peers, order.push(p), probe) == crate::probes::race_rows(
            peers,
            order,
            probe,
        ) + crate::probes::race_row(peers, p as int, probe),
{
    assert(order.push(p).drop_last() =~= order);
}

/// A peer is some node's now exactly when the probe lists it, and no peer without a name
/// is.
pub proof fn law_node_peers_are_probed(probe: Option<Probe>, peer: Seq<char>)
    ensures
        peer.len() == 0 ==> !crate::probes::is_node_peer(probe, peer),
        probe is None ==> !crate::probes::is_node_peer(probe, peer),
        probe is Some && probe->0.peers is Some && peer.len() > 0 ==> (crate::probes::is_node_peer(
            probe,
            peer,
        ) <==> exists|i: int|
            0 <= i < probe->0.peers->0@.len() && (#[trigger] probe->0.peers->0@[i]).peer@ == peer),
{
}

/// The race is shown with the time of its last run and the rows of its peers in order,
/// or with a note where there are none.
pub proof fn law_race_section_shows_the_rows(race: RaceReport, probe: Option<Probe>)
    ensures
        ({
            let section = crate::probes::race_section(Some(race), probe);
            let rows = match race.peers {
                Some(peers) => crate::probes::race_rows(
                    peers@,
                    crate::probes::race_order(peers@),
                    probe,
                ),
                None => "<tr><td colspan=6 class=sum>no peers</td></tr>"@,
            };
            let end = rows + "</table>\n"@;
            section.len() > end.len() && section.skip(section.len() - end.len()) == end
        }),
        crate::probes::race_section(None, probe)
            == "<div class='cap c2'>Peer race &mdash; no data (run start-race.sh)</div>\n"@,
{
    let section = crate::probes::race_section(Some(race), probe);
    let rows = match race.peers {
        Some(peers) => crate::probes::race_rows(
            peers@,
            crate::probes::race_order(peers@),
            probe,
        ),
        None => "<tr><td colspan=6 class=sum>no peers</td></tr>"@,
    };
    let end = rows + "</table>\n"@;
    reveal_strlit("<div class=legend>");
    assert(section.skip(section.len() - end.len()) =~= end);
}

/// With a report of the probe there is a countdown to its next run, counted down to the
/// time that the report gives; without one the page says so, and runs nothing. The rows of
/// the report close the table either way.
pub proof fn law_probe_counts_down_to_its_next_run(probe: Option<crate::probes::Probe>)
    ensures
        probe is None ==> crate::page::probe_timer(probe) == "<span class=sum>no data</span>"@
            && crate::page::probe_script(probe) == ""@,
        probe matches Some(v) ==> crate::page::probe_timer(probe)
            == "<span id=probe-timer></span>"@ && crate::page::probe_script(probe)
            == crate::page::PROBE_TIMER_BEFORE@ + v.next_run@ + crate::page::PROBE_TIMER_AFTER@,
        ({
            let table = crate::page::probe_table(probe);
            let end = crate::probes::probe_rows(probe) + "</table>\n"@;
            &&& table.len() >= end.len()
            &&& table.skip(table.len() - end.len()) == end
        }),
        ({
            let table = crate::page::probe_table(probe);
            let start =
                "<div class='cap c2'>Peers &mdash; block-lag probe (updated every 5 min &middot; "@
                + crate::page::probe_timer(probe);
            &&& table.len() >= start.len()
            &&& table.take(start.len() as int) == start
        }),
{
    let table = crate::page::probe_table(probe);
    let end = crate::probes::probe_rows(probe) + "</table>\n"@;
    let start =
        "<div class='cap c2'>Peers &mdash; block-lag probe (updated every 5 min &middot; "@
        + crate::page::probe_timer(probe);
    assert(table.skip(table.len() - end.len()) =~= end);
    assert(table.take(start.len() as int) =~= start);
}

} // verus!
