//! Texts, counters and the statistics page.

use wsarb::arbitration::{Ruling, Stamp};
use wsarb::key::SubKey;
use wsarb::order::{join, sort};
use wsarb::page::{
    byte_unit, hist_row_html, render_page, Averages, Figures, Traffic, PAGE_HEAD, PROBE_TIMER_AFTER,
    PROBE_TIMER_BEFORE, RACE_TIMER_JS,
};
use wsarb::probes::{clock_time, Metric, Probe, ProbePeer, RacePeer, RaceReport};
use wsarb::state::{AppState, Source};
use wsarb::stats::{bucket_of, SourceStats, Totals};
use wsarb::text::{decimal, group, html_escape, ordinal, to_ascii_lowercase, truncate};

fn strings(v: &[&str]) -> Vec<String> {
    v.iter().map(|s| s.to_string()).collect()
}

#[test]
fn numbers_are_written_out() {
    assert_eq!(decimal(0), "0");
    assert_eq!(decimal(1203), "1203");
    assert_eq!(decimal(u64::MAX), "18446744073709551615");
    assert_eq!(ordinal(0), "1");
    assert_eq!(ordinal(usize::MAX - 1), usize::MAX.to_string());
}

#[test]
fn thousands_are_set_apart() {
    assert_eq!(group(0), "0");
    assert_eq!(group(999), "999");
    assert_eq!(group(1000), "1 000");
    assert_eq!(group(1234567), "1 234 567");
    assert_eq!(group(u64::MAX), "18 446 744 073 709 551 615");
}

#[test]
fn markup_is_escaped() {
    assert_eq!(html_escape("a<b>&c"), "a&lt;b&gt;&amp;c");
    assert_eq!(html_escape("&lt;"), "&amp;lt;");
    assert_eq!(html_escape("plain é"), "plain é");
    assert!(!html_escape("<script>").contains(['<', '>']));
}

#[test]
fn only_ascii_letters_change_their_case() {
    assert_eq!(to_ascii_lowercase("0xABÉz"), "0xabÉz");
}

#[test]
fn long_texts_are_cut_between_characters() {
    assert_eq!(truncate("short"), "short");
    let exact = "x".repeat(200);
    assert_eq!(truncate(&exact), exact);
    assert_eq!(truncate(&"x".repeat(201)), format!("{}…", "x".repeat(200)));
    // 199 bytes and then a character of two: it is left out whole.
    let odd = format!("{}é", "x".repeat(199));
    assert_eq!(truncate(&odd), format!("{}…", "x".repeat(199)));
}

#[test]
fn texts_are_sorted_by_their_bytes_and_joined() {
    let sorted = sort(strings(&["b", "a", "é", "ab", "a", "Z"]));
    assert_eq!(sorted, strings(&["Z", "a", "a", "ab", "b", "é"]));
    assert_eq!(join(&sorted), "Z, a, a, ab, b, é");
    assert_eq!(join(&Vec::new()), "");
    assert_eq!(join(&strings(&["one"])), "one");
}

#[test]
fn delays_fall_into_one_bucket_each() {
    let edges = [500, 1_000, 2_000, 5_000, 10_000, 20_000, 50_000, 100_000, 200_000, 500_000];
    for (i, edge) in edges.iter().enumerate() {
        assert_eq!(bucket_of(edge - 1), i);
        assert_eq!(bucket_of(*edge), i + 1);
    }
    assert_eq!(bucket_of(0), 0);
    assert_eq!(bucket_of(u64::MAX), 10);
}

#[test]
fn the_histogram_counts_every_delay() {
    let mut s = SourceStats::new();
    assert_eq!(hist_row_html(&s), "&mdash;");
    for ns in [0, 499_999, 500_000, 1_500_000, 700_000_000] {
        s.record_delay(ns);
    }
    let t = s.totals();
    assert_eq!((t.duplicates, t.delay_count), (5, 5));
    assert_eq!(t.delay_sum_us, 499 + 500 + 1500 + 700_000);
    assert_eq!((0..11).map(|i| s.bucket(i)).sum::<u64>(), 5);
    assert_eq!(
        hist_row_html(&s),
        "<span class=b><0.5ms:2</span> <span class=b><1ms:1</span> <span class=b><2ms:1</span> <span class=b>>=500ms:1</span> "
    );
}

#[test]
fn windows_tile_the_totals() {
    let mut s = SourceStats::default();
    s.record_packet();
    s.record_win();
    s.roll_window();
    let first = s.window();
    s.record_packet();
    s.record_packet();
    s.record_stale();
    s.record_delay(2_000);
    s.roll_window();
    let second = s.window();
    let total = s.totals();
    assert_eq!(first.packets + second.packets, total.packets);
    assert_eq!((first.wins, second.wins, total.wins), (1, 0, 1));
    assert_eq!((second.stale, second.duplicates), (1, 1));
    assert_eq!((second.delay_sum_us, second.delay_count), (2, 1));
    let rest = total.since(first);
    assert_eq!((rest.packets, rest.wins, rest.stale), (2, 0, 1));
    let none = Totals::zero().since(total);
    assert_eq!((none.packets, none.wins), (0, 0));
}

#[test]
fn rulings_are_counted_by_their_kind() {
    let mut s = SourceStats::new();
    for r in [Ruling::Win, Ruling::Further, Ruling::Late(1_000_000), Ruling::Repeat, Ruling::Stale] {
        s.record_ruling(r);
    }
    let t = s.totals();
    assert_eq!((t.packets, t.wins, t.duplicates, t.stale, t.delay_sum_us), (0, 1, 1, 1, 1000));
}

#[test]
fn amounts_have_their_unit() {
    assert_eq!(byte_unit(0), 0);
    assert_eq!(byte_unit(1023), 0);
    assert_eq!(byte_unit(1024), 1);
    assert_eq!(byte_unit(1048575), 1);
    assert_eq!(byte_unit(1048576), 2);
    assert_eq!(byte_unit(1 << 30), 3);
    assert_eq!(byte_unit(1 << 40), 4);
    assert_eq!(byte_unit(u64::MAX), 4);
}

#[test]
fn the_time_of_day_stands_alone() {
    assert_eq!(clock_time("2025-01-02T03:04:05Z"), "03:04:05");
    assert_eq!(clock_time("03:04:05ZZ"), "03:04:05");
    assert_eq!(clock_time("aTbTc"), "b");
    assert_eq!(clock_time("T"), "");
    assert_eq!(clock_time(""), "");
    assert_eq!(clock_time("xTZZ"), "");
}

fn averages(n: usize) -> Vec<Averages> {
    (0..n).map(|i| Averages { total: format!("{i}.1"), window: format!("{i}.2") }).collect()
}

fn bare(n: usize) -> Figures {
    Figures { now: 0, averages: averages(n), clients: Vec::new(), probe: None, race: None }
}

#[test]
fn the_page_of_an_idle_proxy() {
    let state = AppState::new(vec![Source::new(0, "ws://a?x=1&y".into())], None);
    let expected = [
        PAGE_HEAD,
        "<h1>WSARB</h1>\n",
        "<p class=sum>1 sources &middot; 0 clients &middot; 0 subscriptions upstream: &mdash;</p>\n",
        "<div class='cap c1'>Data connections &mdash; cumulative since start</div>\n<table>\n",
        "<tr><th>node</th><th>endpoint</th><th>state</th><th>last data</th><th>packets</th><th>disc</th><th>wins</th><th>dups</th><th>stale</th><th>too old</th><th>avg delay (ms)</th><th>delay histogram</th></tr>\n",
        "<tr><td class=nd>node1</td><td>ws://a?x=1&amp;y</td><td class=down>DOWN</td><td>&mdash;</td><td>0</td><td>0</td><td class=num>0</td><td class=num>0</td><td class=num>0</td><td class=num>0</td><td>0.1</td><td class=hist>&mdash;</td></tr>",
        "</table>\n",
        "<div class='cap c1'>Data connections &mdash; last 5s window</div>\n<table>\n",
        "<tr><th>node</th><th>endpoint</th><th>state</th><th>packets/5s</th><th>wins/5s</th><th>dups/5s</th><th>stale/5s</th><th>avg delay (ms)</th></tr>\n",
        "<tr><td class=nd>node1</td><td>ws://a?x=1&amp;y</td><td class=down>DOWN</td><td>0</td><td class=win>0</td><td>0</td><td>0</td><td>0.2</td></tr>",
        "</table>\n",
        "<div class='cap c2'>Peers &mdash; block-lag probe (updated every 5 min &middot; <span class=sum>no data</span>)</div>\n",
        "<div class='sum' style='margin:-.2em 0 .5em;font-size:11px'>racer view &mdash; a node's own peer can stream even if shown backoff here</div>\n<table>\n",
        "<tr><th>node</th><th>peer</th><th>location</th><th>p50</th><th>p95</th><th>p99</th><th>stdev</th><th>last run (UTC+0)</th></tr>\n",
        "<tr><td colspan=8 class=sum>no probe data (is hl_probe_json.sh running?)</td></tr>",
        "</table>\n",
        "<div class='cap c3'>Client connections</div>\n<table>\n",
        "<tr><th>id</th><th>ip</th><th>subscriptions</th><th>traffic sent</th><th>dropped</th><th>age</th></tr>\n",
        "<tr><td colspan=6 class=sum>no clients</td></tr>\n",
        "</table>\n",
        "<div class='cap c2'>Peer race &mdash; no data (run start-race.sh)</div>\n",
        RACE_TIMER_JS,
        "</body></html>",
    ]
    .concat();
    assert_eq!(render_page(&state, &bare(1)), expected);
    assert!(PAGE_HEAD.starts_with("<!doctype html><html><head><meta charset=utf-8>\n<meta http-equiv=refresh content=2>\n<title>WSARB stats</title>\n<style>\nbody{"));
    assert!(PAGE_HEAD.ends_with(".badlabel{color:#fff;font-weight:bold}\n</style></head><body>\n"));
}

#[test]
fn the_page_shows_who_carries_what() {
    let mut state = AppState::new(
        vec![Source::new(0, "ws://a".into()), Source::new(1, "ws://b".into())],
        None,
    );
    let diff = SubKey::L2Diff { coin: "BTC".into(), n_sig_figs: None, n_levels: None, mantissa: None };
    let book = SubKey::L2Book { coin: "<x>".into(), n_sig_figs: Some(3), n_levels: None, mantissa: None };
    let raced = SubKey::L4Book { coin: "ETH".into() };
    state.pin(SubKey::Bbo { coin: "BTC".into() }, 0);
    let c = state.register_client("10.0.0.1".into(), 0);
    state.subscribe(c, diff.clone(), 0);
    state.subscribe(c, book, 0);
    state.subscribe(c, raced.clone(), 0);
    state.on_update(1, diff.clone(), Stamp::Snapshot(1), "s", 0);
    let late = state.register_client("10.0.0.2".into(), 1_000_000_000);
    state.subscribe(late, raced, 1_000_000_000);
    state.sent(c, 7);
    state.queue_full(c, false);

    state.source_connected(0);
    state.record_packet(0);
    for _ in 0..1234 {
        state.record_packet(1);
    }
    state.tick();
    state.source_connected(1);
    for _ in 0..3 {
        state.record_packet(0);
        state.tick();
    }
    state.refuse_future(1);

    let traffic = |client: u64, text: &str| Traffic { client, text: text.into() };
    let figures = Figures {
        now: 61_999_999_999,
        averages: averages(2),
        clients: vec![traffic(c, "7 B"), traffic(late, "0 B")],
        probe: None,
        race: None,
    };
    let page = render_page(&state, &figures);
    assert!(page.contains("<p class=sum>2 sources &middot; 2 clients &middot; 4 subscriptions upstream: bbo:BTC (probe), l2Book:&lt;x&gt;/sf3, l2Diff:BTC, l4Book:ETH</p>\n"));
    // The tick has parked the follower of the silent leader on the diff stream.
    assert!(page.contains("<tr><td>1</td><td>10.0.0.1</td><td>l2Book:&lt;x&gt;/sf3 (no source), l2Diff:BTC (rebuilding), l4Book:ETH</td><td>7 B</td><td>1</td><td>61s</td></tr>"));
    assert!(page.contains("<tr><td>2</td><td>10.0.0.2</td><td>l4Book:ETH (rebuilding)</td><td>0 B</td><td>0</td><td>60s</td></tr>"));
    assert!(page.contains("<td>ws://a</td><td class=up>UP</td><td>0.0s ago</td><td>4</td>"));
    assert!(page.contains("<td>ws://b</td><td class=idle>IDLE</td><td><span class=over>15s ago</span></td><td>1 234</td><td>0</td><td class=num>1</td><td class=num>0</td><td class=num>0</td><td class=over>1</td><td>1.1</td>"));

    state.deliver_snapshot_from(&diff, c, 0, 5, "s");
    let page = render_page(&state, &figures);
    assert!(page.contains("l2Diff:BTC (node1)"));
}

#[test]
fn the_page_is_the_same_in_any_order() {
    let coins = ["d", "a", "c", "b", "e"];
    let shown = |order: [usize; 5]| {
        let mut state = AppState::new(Vec::new(), None);
        for i in order {
            state.pin(SubKey::Bbo { coin: coins[i].into() }, 0);
        }
        render_page(&state, &bare(0))
    };
    let page = shown([0, 1, 2, 3, 4]);
    assert!(page.contains("5 subscriptions upstream: bbo:a (probe), bbo:b (probe), bbo:c (probe), bbo:d (probe), bbo:e (probe)</p>"));
    assert_eq!(page, shown([4, 3, 2, 1, 0]));
    assert_eq!(page, shown([2, 0, 4, 1, 3]));
}

#[test]
fn a_client_without_subscriptions_has_a_dash() {
    let mut state = AppState::new(Vec::new(), None);
    let c = state.register_client("<ip>".into(), 0);
    let mut figures = bare(0);
    figures.clients.push(Traffic { client: c, text: "0 B".into() });
    let page = render_page(&state, &figures);
    assert!(page.contains("<tr><td>1</td><td>&lt;ip&gt;</td><td>&mdash;</td><td>0 B</td><td>0</td><td>0s</td></tr>"));
    assert!(!page.contains("no clients"));
}

fn metric(text: &str, ceil: u64) -> Metric {
    Metric { text: text.into(), ceil }
}

fn probe() -> Probe {
    Probe {
        updated: "2025-01-02T03:04:05Z".into(),
        next_run: "2025-01-02T03:09:05Z".into(),
        peers: Some(vec![ProbePeer {
            node: "n<1>".into(),
            peer: "1.1.1.1".into(),
            location: "Tokyo".into(),
            p50: metric("200", 200),
            p95: metric("&mdash;", 0),
            p99: metric("1000.5", 1001),
            stdev: metric("99.9", 100),
        }]),
    }
}

#[test]
fn the_probe_marks_what_is_over_its_limit() {
    let state = AppState::new(Vec::new(), None);
    let mut figures = bare(0);
    figures.probe = Some(probe());
    let page = render_page(&state, &figures);
    assert!(page.contains("<tr><td class=nd>n&lt;1&gt;</td><td>1.1.1.1</td><td>Tokyo</td><td>200</td><td>&mdash;</td><td class=over>1000.5</td><td>99.9</td><td class=sum>03:04:05</td></tr>"));
    assert!(page.contains("(updated every 5 min &middot; <span id=probe-timer></span>)"));
    let timer = format!("{PROBE_TIMER_BEFORE}2025-01-02T03:09:05Z{PROBE_TIMER_AFTER}</body></html>");
    assert!(page.ends_with(&timer));
    assert!(page.contains("var next = Date.parse(\"2025-01-02T03:09:05Z\");\n  function upd(){"));

    for peers in [None, Some(Vec::new())] {
        figures.probe = Some(Probe { peers, ..probe() });
        let page = render_page(&state, &figures);
        assert!(page.contains("<tr><td colspan=8 class=sum>no probe data</td></tr>"));
    }
}

fn racer(peer: &str, streaming: bool, leads: u64, rank: Option<u64>, lag_n: u64, bad_days: u64) -> RacePeer {
    RacePeer {
        peer: peer.into(),
        state: "s&t".into(),
        streaming,
        leads,
        lag: "1.5".into(),
        lag_rank: rank,
        lag_n,
        recon: 3,
        bad_days,
    }
}

#[test]
fn the_race_marks_its_leaders() {
    let state = AppState::new(Vec::new(), None);
    let mut figures = bare(0);
    figures.probe = Some(probe());
    figures.race = Some(RaceReport {
        updated: "<now>".into(),
        peers: Some(vec![
            racer("1.1.1.1", true, 5, Some(9), 10, 0),
            racer("2.2.2.2", true, 7, Some(1), 9, 0),
            racer("3.3.3.3", false, 9, Some(0), 50, 7),
            racer("4.4.4.4", true, 7, Some(8), 10, 4),
            racer("5.5.5.5", false, 0, None, 0, 5),
        ]),
    });
    let page = render_page(&state, &figures);
    assert!(page.contains("<div class='cap c2'>Peer race &mdash; last run: <span id=race-elapsed data-updated=\"&lt;now&gt;\"></span></div>\n<div class=legend>"));
    let rows = [
        "<tr class=badrow><td>3.3.3.3</td><td class=down>s&amp;t <span class=badlabel>BAD 7d</span></td><td>9</td><td>1.5</td><td>50</td><td>3</td></tr>",
        "<tr class=greenrow><td>2.2.2.2</td><td class=up>s&amp;t</td><td>7</td><td>1.5</td><td>9</td><td>3</td></tr>",
        "<tr><td>4.4.4.4</td><td class=up>s&amp;t</td><td>7</td><td class=limecell>1.5</td><td>10</td><td>3</td></tr>",
        "<tr><td class=nodecell>1.1.1.1</td><td class=up>s&amp;t</td><td>5</td><td>1.5</td><td>10</td><td>3</td></tr>",
        "<tr class=badrow><td>5.5.5.5</td><td class=down>s&amp;t</td><td>0</td><td>1.5</td><td>0</td><td>3</td></tr>",
    ]
    .concat();
    assert!(page.contains(&rows));

    figures.race = Some(RaceReport { updated: "".into(), peers: None });
    assert!(render_page(&state, &figures).contains("<tr><td colspan=6 class=sum>no peers</td></tr></table>\n"));
}
