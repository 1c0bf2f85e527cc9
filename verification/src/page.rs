//! The statistics page.
//!
//! Everything here is text built from the shared state and from figures that the
//! caller has worked out: averages and amounts of traffic as they are to be
//! shown, and what outside probes have measured.

use crate::client::Client;
use crate::key::SubKey;
use crate::order;
use crate::probes::{Probe, RaceReport};
use crate::state::{AppState, Source};
use crate::stats::SourceStats;
use crate::text;
use vstd::prelude::*;

verus! {

/// How the page begins.
pub const PAGE_HEAD: &'static str = r#"<!doctype html><html><head><meta charset=utf-8>
<meta http-equiv=refresh content=2>
<title>WSARB stats</title>
<style>
body{font:13px/1.4 monospace;margin:1.5em;color:#ddd;background:#111}
h1{margin:0 0 .2em}
.cap{margin:1.2em 0 .4em;font-size:13px}
.c1{color:#8ab4f8}.c2{color:#ffb74d}.c3{color:#81c784}
table{border-collapse:collapse;width:100%}
th,td{border:1px solid #333;padding:3px 7px;text-align:left}
th{background:#1c1c1c}
.up{color:#4caf50;font-weight:bold}
.down{color:#e53935;font-weight:bold}
.idle{color:#ffb74d;font-weight:bold}
.b{color:#8ab4f8;white-space:nowrap}
.nd{color:#8ab4f8}
.win{color:#4caf50;font-weight:bold}
.num{min-width:8.5em;white-space:nowrap}
.hist{white-space:normal;word-break:break-word}
.sum{color:#999}
.legend{margin:.4em 0}
.sq{display:inline-block;width:11px;height:11px;border-radius:2px;vertical-align:middle;margin-right:4px}
.greenrow{background:rgba(76,175,80,.22)}
.bluerow{background:rgba(33,150,243,.22)}
.limecell{background:rgba(174,234,0,.38);font-weight:bold}
.nodecell{background:rgba(0,206,209,.40);font-weight:bold}
.over{color:#e53935;font-weight:bold}
.badrow{background:rgba(229,57,53,.30)}
.badrow td.down{color:#fff;font-weight:bold}
.badlabel{color:#fff;font-weight:bold}
</style></head><body>
"#;

/// Counts up from the last run of the peer race.
pub const RACE_TIMER_JS: &'static str = r#"<script>
(function(){
  var el = document.getElementById('race-elapsed');
  if(!el) return;
  var upd = Date.parse(el.getAttribute('data-updated'));
  function tick(){
    if(isNaN(upd)){ el.textContent='?'; return; }
    var secs = Math.floor((Date.now()-upd)/1000);
    if(secs<0) secs=0;
    var h=Math.floor(secs/3600), m=Math.floor((secs%3600)/60), s=secs%60;
    function pad(n){return (n<10?'0':'')+n;}
    el.textContent = pad(h)+':'+pad(m)+':'+pad(s)+' ago';
  }
  tick(); setInterval(tick,1000);
})();
</script>"#;

/// Counts down to the next run of the block-lag probe; the time of that run
/// stands between this
pub const PROBE_TIMER_BEFORE: &'static str = r#"<script>
(function(){
  var next = Date.parse(""#;

/// and this.
pub const PROBE_TIMER_AFTER: &'static str = r#"");
  function upd(){
    var el = document.getElementById('probe-timer');
    if(!el || isNaN(next)) return;
    var rem = Math.round((next - Date.now())/1000);
    if(rem >= 0){
      var m=Math.floor(rem/60), s=rem%60;
      el.textContent='expected next in '+m+':'+(s<10?'0':'')+s; el.style.color='#999';
    } else {
      var a=-rem, m=Math.floor(a/60), s=a%60;
      el.textContent='overdue by '+m+':'+(s<10?'0':'')+s; el.style.color='#e53935';
    }
  }
  upd(); setInterval(upd,1000);
})();
</script>"#;

// ---------------------------------------------------------------------------
// What the caller supplies
// ---------------------------------------------------------------------------

/// The average lateness of one source as it is shown, in milliseconds.
pub struct Averages {
    /// Since the start.
    pub total: String,
    /// In the last window.
    pub window: String,
}

/// The traffic of one client as it is shown.
pub struct Traffic {
    pub client: u64,
    pub text: String,
}

/// What the page shows besides the shared state.
pub struct Figures {
    /// The caller's clock, in nanoseconds.
    pub now: u64,
    /// One entry per source, in order.
    pub averages: Vec<Averages>,
    /// One entry per client, in the order in which the clients are shown.
    pub clients: Vec<Traffic>,
    pub probe: Option<Probe>,
    pub race: Option<RaceReport>,
}

// ---------------------------------------------------------------------------
// Sources
// ---------------------------------------------------------------------------

/// Whether a source is connected but no longer delivering.
pub open spec fn quiet(s: crate::stats::StatsView) -> bool {
    s.connected && match s.idle_for() {
        Some(idle) => idle > crate::stats::SILENCE_LIMIT,
        None => false,
    }
}

/// How the state of a source is marked. A live socket is not the same as live
/// data: when a source's own node dies it keeps the connection and simply stops
/// speaking.
pub open spec fn state_class(s: crate::stats::StatsView) -> Seq<char> {
    if !s.connected {
        "down"@
    } else if quiet(s) {
        "idle"@
    } else {
        "up"@
    }
}

/// What the state of a source is called.
pub open spec fn state_name(s: crate::stats::StatsView) -> Seq<char> {
    if !s.connected {
        "DOWN"@
    } else if quiet(s) {
        "IDLE"@
    } else {
        "UP"@
    }
}

/// When a source last delivered.
pub open spec fn last_data(s: crate::stats::StatsView) -> Seq<char> {
    match s.idle_for() {
        None => "&mdash;"@,
        Some(idle) => if idle > crate::stats::SILENCE_LIMIT {
            "<span class=over>"@ + text::digits(idle as nat) + "s ago</span>"@
        } else {
            text::digits(idle as nat) + ".0s ago"@
        },
    }
}

/// What bucket `i` of the histogram is called.
pub open spec fn bucket_label(i: int) -> Seq<char> {
    if i == 0 {
        "<0.5ms"@
    } else if i == 1 {
        "<1ms"@
    } else if i == 2 {
        "<2ms"@
    } else if i == 3 {
        "<5ms"@
    } else if i == 4 {
        "<10ms"@
    } else if i == 5 {
        "<20ms"@
    } else if i == 6 {
        "<50ms"@
    } else if i == 7 {
        "<100ms"@
    } else if i == 8 {
        "<200ms"@
    } else if i == 9 {
        "<500ms"@
    } else {
        ">=500ms"@
    }
}

/// The cells of the first `n` buckets that hold anything.
pub open spec fn hist_cells(hist: Seq<u64>, n: int) -> Seq<char>
    decreases n,
{
    if n <= 0 {
        seq![]
    } else if hist[n - 1] > 0 {
        hist_cells(hist, n - 1) + ("<span class=b>"@ + bucket_label(n - 1) + ":"@ + text::digits(
            hist[n - 1] as nat,
        ) + "</span> "@)
    } else {
        hist_cells(hist, n - 1)
    }
}

/// The histogram of a source.
pub open spec fn hist_row(hist: Seq<u64>) -> Seq<char> {
    if hist_cells(hist, crate::stats::NUM_BUCKETS as int).len() == 0 {
        "&mdash;"@
    } else {
        hist_cells(hist, crate::stats::NUM_BUCKETS as int)
    }
}

/// Frames that were refused for their time, whichever way.
pub open spec fn refused(s: crate::stats::StatsView) -> u64 {
    crate::stats::counted(s.too_old, s.from_future)
}

/// How the count of refused frames is marked.
pub open spec fn refused_class(s: crate::stats::StatsView) -> Seq<char> {
    if refused(s) > 0 {
        "over"@
    } else {
        "num"@
    }
}

/// The row of a source in the table of totals.
pub open spec fn total_row(s: crate::state::SourceView, avg: Seq<char>) -> Seq<char> {
    "<tr><td class=nd>node"@ + text::digits(s.id as nat + 1) + "</td><td>"@ + text::escaped_page(
        s.url,
    ) + "</td><td class="@ + state_class(s.stats) + ">"@ + state_name(s.stats) + "</td><td>"@
        + last_data(s.stats) + "</td><td>"@ + text::grouped(
        text::digits(s.stats.totals.packets as nat),
    ) + "</td><td>"@ + text::grouped(text::digits(s.stats.disconnects as nat))
        + "</td><td class=num>"@ + text::grouped(text::digits(s.stats.totals.wins as nat))
        + "</td><td class=num>"@ + text::grouped(text::digits(s.stats.totals.duplicates as nat))
        + "</td><td class=num>"@ + text::grouped(text::digits(s.stats.totals.stale as nat))
        + "</td><td class="@ + refused_class(s.stats) + ">"@ + text::grouped(
        text::digits(refused(s.stats) as nat),
    ) + "</td><td>"@ + avg + "</td><td class=hist>"@ + hist_row(s.stats.hist) + "</td></tr>"@
}

/// The row of a source in the table of the last window.
pub open spec fn window_row(s: crate::state::SourceView, avg: Seq<char>) -> Seq<char> {
    "<tr><td class=nd>node"@ + text::digits(s.id as nat + 1) + "</td><td>"@ + text::escaped_page(
        s.url,
    ) + "</td><td class="@ + state_class(s.stats) + ">"@ + state_name(s.stats) + "</td><td>"@
        + text::digits(s.stats.window.packets as nat) + "</td><td class=win>"@ + text::digits(
        s.stats.window.wins as nat,
    ) + "</td><td>"@ + text::digits(s.stats.window.duplicates as nat) + "</td><td>"@ + text::digits(
        s.stats.window.stale as nat,
    ) + "</td><td>"@ + avg + "</td></tr>"@
}

/// The rows of the table of totals.
pub open spec fn total_rows(sources: Seq<crate::state::SourceView>, averages: Seq<Averages>) -> Seq<
    char,
>
    decreases sources.len(),
{
    if sources.len() == 0 {
        seq![]
    } else {
        total_rows(sources.drop_last(), averages) + total_row(
            sources.last(),
            averages[sources.len() - 1].total@,
        )
    }
}

/// The rows of the table of the last window.
pub open spec fn window_rows(
    sources: Seq<crate::state::SourceView>,
    averages: Seq<Averages>,
) -> Seq<char>
    decreases sources.len(),
{
    if sources.len() == 0 {
        seq![]
    } else {
        window_rows(sources.drop_last(), averages) + window_row(
            sources.last(),
            averages[sources.len() - 1].window@,
        )
    }
}

fn is_quiet(s: &SourceStats) -> (b: bool)
    ensures
        b == quiet(s@),
{
    s.connected() && match s.idle_for() {
        Some(idle) => idle > crate::stats::SILENCE_LIMIT,
        None => false,
    }
}

fn state_class_of(s: &SourceStats) -> (r: &'static str)
    ensures
        r@ == state_class(s@),
{
    if !s.connected() {
        "down"
    } else if is_quiet(s) {
        "idle"
    } else {
        "up"
    }
}

fn state_name_of(s: &SourceStats) -> (r: &'static str)
    ensures
        r@ == state_name(s@),
{
    if !s.connected() {
        "DOWN"
    } else if is_quiet(s) {
        "IDLE"
    } else {
        "UP"
    }
}

fn last_data_of(s: &SourceStats) -> (r: String)
    ensures
        r@ == last_data(s@),
{
    match s.idle_for() {
        None => "&mdash;".to_owned(),
        Some(idle) => if idle > crate::stats::SILENCE_LIMIT {
            let mut r = "<span class=over>".to_owned();
            r.append(text::decimal(idle).as_str());
            r.append("s ago</span>");
            r
        } else {
            let mut r = text::decimal(idle);
            r.append(".0s ago");
            r
        },
    }
}

fn bucket_label_of(i: usize) -> (r: &'static str)
    ensures
        r@ == bucket_label(i as int),
{
    if i == 0 {
        "<0.5ms"
    } else if i == 1 {
        "<1ms"
    } else if i == 2 {
        "<2ms"
    } else if i == 3 {
        "<5ms"
    } else if i == 4 {
        "<10ms"
    } else if i == 5 {
        "<20ms"
    } else if i == 6 {
        "<50ms"
    } else if i == 7 {
        "<100ms"
    } else if i == 8 {
        "<200ms"
    } else if i == 9 {
        "<500ms"
    } else {
        ">=500ms"
    }
}

/// The histogram of a source.
pub fn hist_row_html(s: &SourceStats) -> (r: String)
    requires
        s@.wf(),
    ensures
        r@ == hist_row(s@.hist),
{
    let mut cells = String::new();
    let mut any = false;
    let mut i: usize = 0;
    assert(cells@ =~= hist_cells(s@.hist, 0));
    while i < crate::stats::NUM_BUCKETS
        invariant
            i <= crate::stats::NUM_BUCKETS,
            s@.wf(),
            cells@ == hist_cells(s@.hist, i as int),
            any == (cells@.len() > 0),
        decreases crate::stats::NUM_BUCKETS - i,
    {
        let v = s.bucket(i);
        if v > 0 {
            let mut cell = "<span class=b>".to_owned();
            cell.append(bucket_label_of(i));
            cell.append(":");
            cell.append(text::decimal(v).as_str());
            cell.append("</span> ");
            proof {
                reveal_strlit("</span> ");
            }
            cells.append(cell.as_str());
            any = true;
        }
        i = i + 1;
    }
    if any {
        cells
    } else {
        "&mdash;".to_owned()
    }
}

fn refused_class_of(n: u64) -> (r: &'static str)
    ensures
        r@ == if n > 0 {
            "over"@
        } else {
            "num"@
        },
{
    if n > 0 {
        "over"
    } else {
        "num"
    }
}

fn total_row_text(s: &Source, avg: &str) -> (r: String)
    requires
        s@.stats.wf(),
    ensures
        r@ == total_row(s@, avg@),
{
    let t = s.stats.totals();
    let refused = s.stats.too_old().wrapping_add(s.stats.from_future());
    let mut r = "<tr><td class=nd>node".to_owned();
    r.append(text::ordinal(s.id).as_str());
    r.append("</td><td>");
    r.append(text::html_escape(s.url.as_str()).as_str());
    r.append("</td><td class=");
    r.append(state_class_of(&s.stats));
    r.append(">");
    r.append(state_name_of(&s.stats));
    r.append("</td><td>");
    r.append(last_data_of(&s.stats).as_str());
    r.append("</td><td>");
    r.append(text::group(t.packets).as_str());
    r.append("</td><td>");
    r.append(text::group(s.stats.disconnects()).as_str());
    r.append("</td><td class=num>");
    r.append(text::group(t.wins).as_str());
    r.append("</td><td class=num>");
    r.append(text::group(t.duplicates).as_str());
    r.append("</td><td class=num>");
    r.append(text::group(t.stale).as_str());
    r.append("</td><td class=");
    // Anything here means a node handed out data from the past or the future,
    // which is worth noticing.
    r.append(refused_class_of(refused));
    r.append(">");
    r.append(text::group(refused).as_str());
    r.append("</td><td>");
    r.append(avg);
    r.append("</td><td class=hist>");
    r.append(hist_row_html(&s.stats).as_str());
    r.append("</td></tr>");
    r
}

fn window_row_text(s: &Source, avg: &str) -> (r: String)
    ensures
        r@ == window_row(s@, avg@),
{
    let t = s.stats.window();
    let mut r = "<tr><td class=nd>node".to_owned();
    r.append(text::ordinal(s.id).as_str());
    r.append("</td><td>");
    r.append(text::html_escape(s.url.as_str()).as_str());
    r.append("</td><td class=");
    r.append(state_class_of(&s.stats));
    r.append(">");
    r.append(state_name_of(&s.stats));
    r.append("</td><td>");
    r.append(text::decimal(t.packets).as_str());
    r.append("</td><td class=win>");
    r.append(text::decimal(t.wins).as_str());
    r.append("</td><td>");
    r.append(text::decimal(t.duplicates).as_str());
    r.append("</td><td>");
    r.append(text::decimal(t.stale).as_str());
    r.append("</td><td>");
    r.append(avg);
    r.append("</td></tr>");
    r
}

fn total_rows_text(sources: &Vec<Source>, averages: &Vec<Averages>) -> (r: String)
    requires
        averages@.len() == sources@.len(),
        forall|i: int| 0 <= i < sources@.len() ==> (#[trigger] sources@[i])@.stats.wf(),
    ensures
        r@ == total_rows(sources@.map_values(|s: Source| s@), averages@),
{
    let ghost all = sources@.map_values(|s: Source| s@);
    let mut r = String::new();
    let mut i: usize = 0;
    assert(r@ =~= total_rows(all.take(0), averages@));
    while i < sources.len()
        invariant
            i <= sources.len(),
            averages@.len() == sources@.len(),
            forall|i: int| 0 <= i < sources@.len() ==> (#[trigger] sources@[i])@.stats.wf(),
            all == sources@.map_values(|s: Source| s@),
            r@ == total_rows(all.take(i as int), averages@),
        decreases sources.len() - i,
    {
        assert(all.take(i + 1).drop_last() =~= all.take(i as int));
        assert(all.take(i + 1).last() == sources@[i as int]@);
        r.append(total_row_text(&sources[i], averages[i].total.as_str()).as_str());
        i = i + 1;
    }
    assert(all.take(all.len() as int) =~= all);
    r
}

fn window_rows_text(sources: &Vec<Source>, averages: &Vec<Averages>) -> (r: String)
    requires
        averages@.len() == sources@.len(),
    ensures
        r@ == window_rows(sources@.map_values(|s: Source| s@), averages@),
{
    let ghost all = sources@.map_values(|s: Source| s@);
    let mut r = String::new();
    let mut i: usize = 0;
    assert(r@ =~= window_rows(all.take(0), averages@));
    while i < sources.len()
        invariant
            i <= sources.len(),
            averages@.len() == sources@.len(),
            all == sources@.map_values(|s: Source| s@),
            r@ == window_rows(all.take(i as int), averages@),
        decreases sources.len() - i,
    {
        assert(all.take(i + 1).drop_last() =~= all.take(i as int));
        assert(all.take(i + 1).last() == sources@[i as int]@);
        r.append(window_row_text(&sources[i], averages[i].window.as_str()).as_str());
        i = i + 1;
    }
    assert(all.take(all.len() as int) =~= all);
    r
}

// ---------------------------------------------------------------------------
// Subscriptions and clients
// ---------------------------------------------------------------------------

/// How a client's subscription is shown. On a stream that one source carries,
/// that source is the whole answer to whose book the client is seeing; on a raced
/// channel the leader changes every block, so naming one would misrepresent it.
pub open spec fn subscription_label(
    subs: Map<crate::key::Key, crate::entry::EntryView>,
    key: crate::key::Key,
    client: u64,
) -> Seq<char> {
    if !subs.dom().contains(key) {
        key.label()
    } else if subs[key].waits(client) {
        key.label() + " (rebuilding)"@
    } else if !key.single_sourced() {
        key.label()
    } else {
        match subs[key].race.leader {
            Some(id) => key.label() + " (node"@ + text::digits(id as nat + 1) + ")"@,
            None => key.label() + " (no source)"@,
        }
    }
}

/// How a client's subscriptions are shown, one by one.
pub open spec fn subscription_labels(
    subs: Map<crate::key::Key, crate::entry::EntryView>,
    keys: Seq<crate::key::Key>,
    client: u64,
) -> Seq<Seq<char>> {
    keys.map_values(|k: crate::key::Key| subscription_label(subs, k, client))
}

/// A list of labels, in order, or a dash if there is none.
pub open spec fn label_list(labels: Seq<Seq<char>>) -> Seq<char> {
    if labels.len() == 0 {
        "&mdash;"@
    } else {
        text::escaped_page(order::listed(order::in_order(labels)))
    }
}

/// How long a client has been connected, in whole seconds.
pub open spec fn age(c: crate::client::ClientView, now: u64) -> nat {
    if now >= c.connected_at {
        ((now - c.connected_at) / 1000000000) as nat
    } else {
        0
    }
}

/// The row of a client.
pub open spec fn client_row(
    subs: Map<crate::key::Key, crate::entry::EntryView>,
    c: crate::client::ClientView,
    traffic: Seq<char>,
    now: u64,
) -> Seq<char> {
    "<tr><td>"@ + text::digits(c.id as nat) + "</td><td>"@ + text::escaped_page(c.ip)
        + "</td><td>"@ + label_list(subscription_labels(subs, c.subscriptions, c.id)) + "</td><td>"@
        + traffic + "</td><td>"@ + text::digits(c.dropped as nat) + "</td><td>"@ + text::digits(
        age(c, now),
    ) + "s</td></tr>"@
}

/// The clients whose traffic is given.
pub open spec fn shown_ids(clients: Seq<Traffic>) -> Seq<u64> {
    clients.map_values(|t: Traffic| t.client)
}

/// Whether the traffic of each client of `d` is given, once and of nobody else.
pub open spec fn shows_each(clients: Seq<Traffic>, d: Set<u64>) -> bool {
    &&& shown_ids(clients).no_duplicates()
    &&& forall|id: u64| #[trigger] shown_ids(clients).contains(id) <==> d.contains(id)
}

/// The rows of the clients.
pub open spec fn client_rows(
    s: crate::state::StateView,
    clients: Seq<Traffic>,
    now: u64,
) -> Seq<char>
    decreases clients.len(),
{
    if clients.len() == 0 {
        seq![]
    } else {
        let t = clients.last();
        client_rows(s, clients.drop_last(), now) + client_row(
            s.subs,
            s.clients[t.client],
            t.text@,
            now,
        )
    }
}

/// How a subscription is shown in the list of what is asked for upstream. The
/// probe has no client behind it, so it is marked rather than left to read as
/// somebody's forgotten subscription.
pub open spec fn upstream_label(key: crate::key::Key, e: crate::entry::EntryView) -> Seq<char> {
    if e.pinned {
        key.label() + " (probe)"@
    } else {
        key.label()
    }
}

/// What is asked for upstream, going through the keys `ks`.
pub open spec fn upstream_labels(
    subs: Map<crate::key::Key, crate::entry::EntryView>,
    ks: Seq<crate::key::Key>,
) -> Seq<Seq<char>>
    decreases ks.len(),
{
    if ks.len() == 0 {
        seq![]
    } else if subs[ks.last()].upstream_subscribed {
        upstream_labels(subs, ks.drop_last()).push(upstream_label(ks.last(), subs[ks.last()]))
    } else {
        upstream_labels(subs, ks.drop_last())
    }
}

/// How one subscription of a client is shown.
fn subscription_label_of(state: &AppState, key: &SubKey, client: u64) -> (r: String)
    requires
        key@.can_label(),
    ensures
        r@ == subscription_label(state@.subs, key@, client),
{
    let mut r = key.label();
    if let Some(e) = state.entry(key) {
        if e.is_rebuilding(client) {
            r.append(" (rebuilding)");
        } else if key.single_sourced() {
            match e.leader {
                Some(id) => {
                    r.append(" (node");
                    r.append(text::ordinal(id).as_str());
                    r.append(")");
                },
                None => {
                    r.append(" (no source)");
                },
            }
        }
    }
    r
}

fn label_list_of(labels: Vec<String>) -> (r: String)
    ensures
        r@ == label_list(crate::entry::texts(labels@)),
{
    if labels.len() == 0 {
        return "&mdash;".to_owned();
    }
    let sorted = order::sort(labels);
    text::html_escape(order::join(&sorted).as_str())
}

fn client_row_text(state: &AppState, c: &Client, traffic: &str, now: u64) -> (r: String)
    requires
        c@.wf(),
    ensures
        r@ == client_row(state@.subs, c@, traffic@, now),
{
    let keys = c.subscriptions();
    let id = c.id();
    let ghost all = crate::client::keys_of(keys@);
    let mut labels: Vec<String> = Vec::new();
    let mut i: usize = 0;
    assert(crate::entry::texts(labels@) =~= subscription_labels(state@.subs, all.take(0), id));
    while i < keys.len()
        invariant
            i <= keys.len(),
            all == crate::client::keys_of(keys@),
            forall|i: int| 0 <= i < all.len() ==> (#[trigger] all[i]).can_label(),
            crate::entry::texts(labels@) == subscription_labels(
                state@.subs,
                all.take(i as int),
                id,
            ),
        decreases keys.len() - i,
    {
        assert(all[i as int] == keys@[i as int]@);
        let ghost before = crate::entry::texts(labels@);
        let label = subscription_label_of(state, &keys[i], id);
        labels.push(label);
        assert(crate::entry::texts(labels@) =~= before.push(label@));
        i = i + 1;
        assert(subscription_labels(state@.subs, all.take(i as int), id) =~= subscription_labels(
            state@.subs,
            all.take(i - 1),
            id,
        ).push(label@));
    }
    assert(all.take(all.len() as int) =~= all);
    let mut r = "<tr><td>".to_owned();
    r.append(text::decimal(id).as_str());
    r.append("</td><td>");
    r.append(text::html_escape(c.ip()).as_str());
    r.append("</td><td>");
    r.append(label_list_of(labels).as_str());
    r.append("</td><td>");
    r.append(traffic);
    r.append("</td><td>");
    r.append(text::decimal(c.dropped()).as_str());
    r.append("</td><td>");
    r.append(text::decimal(now.saturating_sub(c.connected_at()) / 1000000000).as_str());
    r.append("s</td></tr>");
    r
}

/// The rows of the clients.
fn client_rows_text(state: &AppState, clients: &Vec<Traffic>, now: u64) -> (rows: String)
    requires
        state.inv(),
        shows_each(clients@, state@.clients.dom()),
    ensures
        rows@ == client_rows(state@, clients@, now),
{
    proof {
        state.lemma_inv();
    }
    let mut rows = String::new();
    let mut i: usize = 0;
    assert(rows@ =~= client_rows(state@, clients@.take(0), now));
    while i < clients.len()
        invariant
            i <= clients.len(),
            state@.wf(),
            shows_each(clients@, state@.clients.dom()),
            rows@ == client_rows(state@, clients@.take(i as int), now),
        decreases clients.len() - i,
    {
        proof {
            assert(clients@.take(i + 1).drop_last() =~= clients@.take(i as int));
            assert(shown_ids(clients@)[i as int] == clients@[i as int].client);
            assert(shown_ids(clients@).contains(clients@[i as int].client));
        }
        if let Some(c) = state.client(clients[i].client) {
            let row = client_row_text(state, &c, clients[i].text.as_str(), now);
            rows.append(row.as_str());
        }
        i = i + 1;
    }
    assert(clients@.take(clients@.len() as int) =~= clients@);
    rows
}

proof fn lemma_shown_once(clients: Seq<Traffic>, d: Set<u64>)
    requires
        shows_each(clients, d),
    ensures
        d.len() == clients.len(),
{
    shown_ids(clients).unique_seq_to_set();
    assert(shown_ids(clients).to_set() =~= d);
}

/// What is asked for upstream.
fn upstream_labels_of(state: &AppState) -> (r: Vec<String>)
    requires
        state.inv(),
    ensures
        exists|ks: Seq<crate::key::Key>|
            crate::state::lists(ks, state@.subs.dom()) && crate::entry::texts(r@)
                == #[trigger] upstream_labels(state@.subs, ks),
{
    proof {
        state.lemma_inv();
    }
    let keys = state.keys();
    let ghost ks = crate::client::keys_of(keys@);
    let mut r: Vec<String> = Vec::new();
    let mut i: usize = 0;
    assert(crate::entry::texts(r@) =~= upstream_labels(state@.subs, ks.take(0)));
    while i < keys.len()
        invariant
            i <= keys.len(),
            state@.wf(),
            ks == crate::client::keys_of(keys@),
            crate::state::lists(ks, state@.subs.dom()),
            crate::entry::texts(r@) == upstream_labels(state@.subs, ks.take(i as int)),
        decreases keys.len() - i,
    {
        let ghost before = crate::entry::texts(r@);
        proof {
            assert(ks[i as int] == keys@[i as int]@);
            assert(ks.contains(ks[i as int]));
            assert(ks.take(i + 1).drop_last() =~= ks.take(i as int));
        }
        if let Some(e) = state.entry(&keys[i]) {
            if e.upstream_subscribed {
                let mut label = keys[i].label();
                if e.pinned {
                    label.append(" (probe)");
                }
                r.push(label);
                assert(crate::entry::texts(r@) =~= before.push(label@));
            }
        }
        i = i + 1;
    }
    assert(ks.take(ks.len() as int) =~= ks);
    assert(crate::state::lists(ks, state@.subs.dom()) && crate::entry::texts(r@)
        == upstream_labels(state@.subs, ks));
    r
}

// ---------------------------------------------------------------------------
// The page
// ---------------------------------------------------------------------------

/// The line under the title.
pub open spec fn summary(s: crate::state::StateView, f: Figures, labels: Seq<Seq<char>>) -> Seq<
    char,
> {
    "<p class=sum>"@ + text::digits(s.sources.len()) + " sources &middot; "@ + text::digits(
        s.clients.dom().len(),
    ) + " clients &middot; "@ + text::digits(labels.len()) + " subscriptions upstream: "@
        + label_list(labels) + "</p>\n"@
}

/// The table of totals.
pub open spec fn totals_table(s: crate::state::StateView, f: Figures) -> Seq<char> {
    "<div class='cap c1'>Data connections &mdash; cumulative since start</div>\n<table>\n"@
        + "<tr><th>node</th><th>endpoint</th><th>state</th><th>last data</th><th>packets</th><th>disc</th><th>wins</th><th>dups</th><th>stale</th><th>too old</th><th>avg delay (ms)</th><th>delay histogram</th></tr>\n"@
        + total_rows(s.sources, f.averages@) + "</table>\n"@
}

/// The table of the last window.
pub open spec fn window_table(s: crate::state::StateView, f: Figures) -> Seq<char> {
    "<div class='cap c1'>Data connections &mdash; last 5s window</div>\n<table>\n"@
        + "<tr><th>node</th><th>endpoint</th><th>state</th><th>packets/5s</th><th>wins/5s</th><th>dups/5s</th><th>stale/5s</th><th>avg delay (ms)</th></tr>\n"@
        + window_rows(s.sources, f.averages@) + "</table>\n"@
}

/// Where the countdown to the next run of the probe is shown.
pub open spec fn probe_timer(probe: Option<Probe>) -> Seq<char> {
    match probe {
        Some(_) => "<span id=probe-timer></span>"@,
        None => "<span class=sum>no data</span>"@,
    }
}

/// The table of the block-lag probe.
pub open spec fn probe_table(probe: Option<Probe>) -> Seq<char> {
    "<div class='cap c2'>Peers &mdash; block-lag probe (updated every 5 min &middot; "@ + probe_timer(
        probe,
    ) + ")</div>\n<div class='sum' style='margin:-.2em 0 .5em;font-size:11px'>racer view &mdash; a node's own peer can stream even if shown backoff here</div>\n<table>\n"@
        + "<tr><th>node</th><th>peer</th><th>location</th><th>p50</th><th>p95</th><th>p99</th><th>stdev</th><th>last run (UTC+0)</th></tr>\n"@
        + crate::probes::probe_rows(probe) + "</table>\n"@
}

/// The table of the clients.
pub open spec fn clients_table(s: crate::state::StateView, f: Figures) -> Seq<char> {
    "<div class='cap c3'>Client connections</div>\n<table>\n"@
        + "<tr><th>id</th><th>ip</th><th>subscriptions</th><th>traffic sent</th><th>dropped</th><th>age</th></tr>\n"@
        + (if s.clients.dom().len() == 0 {
        "<tr><td colspan=6 class=sum>no clients</td></tr>\n"@
    } else {
        client_rows(s, f.clients@, f.now)
    }) + "</table>\n"@
}

/// The countdown to the next run of the probe.
pub open spec fn probe_script(probe: Option<Probe>) -> Seq<char> {
    match probe {
        Some(v) => PROBE_TIMER_BEFORE@ + v.next_run@ + PROBE_TIMER_AFTER@,
        None => ""@,
    }
}

/// The whole page, given what is asked for upstream.
pub open spec fn page(s: crate::state::StateView, f: Figures, labels: Seq<Seq<char>>) -> Seq<char> {
    PAGE_HEAD@ + "<h1>WSARB</h1>\n"@ + summary(s, f, labels) + totals_table(s, f) + window_table(
        s,
        f,
    ) + probe_table(f.probe) + clients_table(s, f) + crate::probes::race_section(f.race, f.probe)
        + RACE_TIMER_JS@ + probe_script(f.probe) + "</body></html>"@
}

fn totals_table_text(state: &AppState, f: &Figures) -> (r: String)
    requires
        state.inv(),
        f.averages@.len() == state@.sources.len(),
    ensures
        r@ == totals_table(state@, *f),
{
    let sources = state.sources();
    proof {
        state.lemma_inv();
        assert forall|i: int| 0 <= i < sources@.len() implies (
        #[trigger] sources@[i])@.stats.wf() by {
            assert(state@.sources[i] == sources@[i]@);
        }
    }
    let mut r =
        "<div class='cap c1'>Data connections &mdash; cumulative since start</div>\n<table>\n".to_owned();
    r.append(
        "<tr><th>node</th><th>endpoint</th><th>state</th><th>last data</th><th>packets</th><th>disc</th><th>wins</th><th>dups</th><th>stale</th><th>too old</th><th>avg delay (ms)</th><th>delay histogram</th></tr>\n",
    );
    r.append(total_rows_text(sources, &f.averages).as_str());
    r.append("</table>\n");
    r
}

fn window_table_text(state: &AppState, f: &Figures) -> (r: String)
    requires
        f.averages@.len() == state@.sources.len(),
    ensures
        r@ == window_table(state@, *f),
{
    let mut r =
        "<div class='cap c1'>Data connections &mdash; last 5s window</div>\n<table>\n".to_owned();
    r.append(
        "<tr><th>node</th><th>endpoint</th><th>state</th><th>packets/5s</th><th>wins/5s</th><th>dups/5s</th><th>stale/5s</th><th>avg delay (ms)</th></tr>\n",
    );
    r.append(window_rows_text(state.sources(), &f.averages).as_str());
    r.append("</table>\n");
    r
}

fn probe_table_text(probe: &Option<Probe>) -> (r: String)
    ensures
        r@ == probe_table(*probe),
{
    let timer = match probe {
        Some(_) => "<span id=probe-timer></span>",
        None => "<span class=sum>no data</span>",
    };
    let mut r =
        "<div class='cap c2'>Peers &mdash; block-lag probe (updated every 5 min &middot; ".to_owned();
    r.append(timer);
    r.append(
        ")</div>\n<div class='sum' style='margin:-.2em 0 .5em;font-size:11px'>racer view &mdash; a node's own peer can stream even if shown backoff here</div>\n<table>\n",
    );
    r.append(
        "<tr><th>node</th><th>peer</th><th>location</th><th>p50</th><th>p95</th><th>p99</th><th>stdev</th><th>last run (UTC+0)</th></tr>\n",
    );
    crate::probes::push_probe_rows(&mut r, probe);
    r.append("</table>\n");
    r
}

fn probe_script_text(probe: &Option<Probe>) -> (r: String)
    ensures
        r@ == probe_script(*probe),
{
    match probe {
        Some(v) => {
            let mut r = PROBE_TIMER_BEFORE.to_owned();
            r.append(v.next_run.as_str());
            r.append(PROBE_TIMER_AFTER);
            r
        },
        None => "".to_owned(),
    }
}

/// Render the statistics page. `f` gives the averages of each source and the traffic
/// of each client that is connected.
pub fn render_page(state: &AppState, f: &Figures) -> (r: String)
    requires
        state.inv(),
        f.averages@.len() == state@.sources.len(),
        shows_each(f.clients@, state@.clients.dom()),
    ensures
        exists|ks: Seq<crate::key::Key>|
            crate::state::lists(ks, state@.subs.dom()) && r@ == page(
                state@,
                *f,
                #[trigger] upstream_labels(state@.subs, ks),
            ),
{
    let labels = upstream_labels_of(state);
    let ghost shown = crate::entry::texts(labels@);
    let n_labels = labels.len();
    let client_rows = client_rows_text(state, &f.clients, f.now);
    let n_clients = f.clients.len();
    proof {
        lemma_shown_once(f.clients@, state@.clients.dom());
    }
    let mut line = "<p class=sum>".to_owned();
    line.append(text::decimal(state.sources().len() as u64).as_str());
    line.append(" sources &middot; ");
    line.append(text::decimal(n_clients as u64).as_str());
    line.append(" clients &middot; ");
    line.append(text::decimal(n_labels as u64).as_str());
    line.append(" subscriptions upstream: ");
    line.append(label_list_of(labels).as_str());
    line.append("</p>\n");
    assert(line@ == summary(state@, *f, shown));

    let mut clients = "<div class='cap c3'>Client connections</div>\n<table>\n".to_owned();
    clients.append(
        "<tr><th>id</th><th>ip</th><th>subscriptions</th><th>traffic sent</th><th>dropped</th><th>age</th></tr>\n",
    );
    if n_clients == 0 {
        clients.append("<tr><td colspan=6 class=sum>no clients</td></tr>\n");
    } else {
        clients.append(client_rows.as_str());
    }
    clients.append("</table>\n");
    assert(clients@ == clients_table(state@, *f));

    let mut r = PAGE_HEAD.to_owned();
    r.append("<h1>WSARB</h1>\n");
    r.append(line.as_str());
    r.append(totals_table_text(state, f).as_str());
    r.append(window_table_text(state, f).as_str());
    r.append(probe_table_text(&f.probe).as_str());
    r.append(clients.as_str());
    crate::probes::render_race_section(&mut r, &f.race, &f.probe);
    r.append(RACE_TIMER_JS);
    r.append(probe_script_text(&f.probe).as_str());
    r.append("</body></html>");
    assert(r@ == page(state@, *f, shown));
    r
}

/// One more key among those gone through.
spec fn label_step(subs: Map<crate::key::Key, crate::entry::EntryView>) -> spec_fn(
    vstd::multiset::Multiset<Seq<char>>,
    crate::key::Key,
) -> vstd::multiset::Multiset<Seq<char>> {
    |m: vstd::multiset::Multiset<Seq<char>>, k: crate::key::Key|
        if subs[k].upstream_subscribed {
            m.insert(upstream_label(k, subs[k]))
        } else {
            m
        }
}

proof fn lemma_labels_are_folded(
    subs: Map<crate::key::Key, crate::entry::EntryView>,
    ks: Seq<crate::key::Key>,
)
    ensures
        upstream_labels(subs, ks).to_multiset() == ks.fold_left(
            vstd::multiset::Multiset::empty(),
            label_step(subs),
        ),
    decreases ks.len(),
{
    broadcast use vstd::seq_lib::group_to_multiset_ensures;

    if ks.len() == 0 {
        assert(upstream_labels(subs, ks).to_multiset() =~= vstd::multiset::Multiset::empty());
    } else {
        lemma_labels_are_folded(subs, ks.drop_last());
    }
}

/// The page is the same in whatever order the subscriptions are gone through.
pub proof fn law_page_is_the_same_in_any_order(
    s: crate::state::StateView,
    f: Figures,
    ks: Seq<crate::key::Key>,
    ls: Seq<crate::key::Key>,
)
    requires
        crate::state::lists(ks, s.subs.dom()),
        crate::state::lists(ls, s.subs.dom()),
    ensures
        page(s, f, upstream_labels(s.subs, ks)) == page(s, f, upstream_labels(s.subs, ls)),
{
    let none = vstd::multiset::Multiset::<Seq<char>>::empty();
    let step = label_step(s.subs);
    assert forall|m: vstd::multiset::Multiset<Seq<char>>, x: crate::key::Key, y: crate::key::Key|
        #[trigger] step(step(m, x), y) == step(step(m, y), x) by {
        assert(step(step(m, x), y) =~= step(step(m, y), x));
    }
    assert forall|k: crate::key::Key| ks.contains(k) <==> #[trigger] ls.contains(k) by {
        assert(ks.contains(k) <==> s.subs.dom().contains(k));
    }
    order::lemma_any_order(none, ks, ls, step);
    lemma_labels_are_folded(s.subs, ks);
    lemma_labels_are_folded(s.subs, ls);
    order::lemma_same_in_order(upstream_labels(s.subs, ks), upstream_labels(s.subs, ls));
}

// ---------------------------------------------------------------------------
// Amounts of traffic
// ---------------------------------------------------------------------------

/// Which unit an amount of bytes is shown in: how often it can be divided by 1024
/// before it falls below that, four times at most.
pub open spec fn unit_of(n: u64) -> nat {
    if n < 1024 {
        0
    } else if n < 1048576 {
        1
    } else if n < 1073741824 {
        2
    } else if n < 1099511627776 {
        3
    } else {
        4
    }
}

/// Which unit an amount of bytes is shown in: bytes, KiB, MiB, GiB or TiB, from
/// nought to four.
pub fn byte_unit(n: u64) -> (u: usize)
    ensures
        u == unit_of(n),
{
    let mut v = n;
    let mut u: usize = 0;
    while v >= 1024 && u < 4
        invariant
            u <= 4,
            u == 0 ==> v == n,
            u == 1 ==> v == n / 1024,
            u == 2 ==> v == n / 1024 / 1024,
            u == 3 ==> v == n / 1024 / 1024 / 1024,
            u == 4 ==> v == n / 1024 / 1024 / 1024 / 1024,
            u <= unit_of(n),
        decreases 4 - u,
    {
        v = v / 1024;
        u = u + 1;
    }
    u
}

} // verus!
