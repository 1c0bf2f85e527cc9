//! The two sections of the page that show what outside probes have measured: the
//! block lag of the peers, and their race.

use crate::text;
use vstd::prelude::*;

verus! {

// ---------------------------------------------------------------------------
// The block-lag probe
// ---------------------------------------------------------------------------

/// A measured figure: how it is shown, and its value rounded up to a whole
/// number.
pub struct Metric {
    pub text: String,
    pub ceil: u64,
}

/// What the block-lag probe says of one peer.
pub struct ProbePeer {
    pub node: String,
    pub peer: String,
    pub location: String,
    pub p50: Metric,
    pub p95: Metric,
    pub p99: Metric,
    pub stdev: Metric,
}

/// What the block-lag probe has measured.
pub struct Probe {
    /// When it ran, as a date and a time of day.
    pub updated: String,
    /// When it will run again.
    pub next_run: String,
    pub peers: Option<Vec<ProbePeer>>,
}

/// Figures above these are shown in red.
pub const P50_LIMIT: u64 = 200;

pub const P99_LIMIT: u64 = 1000;

pub const STDEV_LIMIT: u64 = 100;

/// The cell of a figure, in red if it is over its limit.
pub open spec fn metric_cell(m: Metric, limit: u64) -> Seq<char> {
    if m.ceil > limit {
        "<td class=over>"@ + m.text@ + "</td>"@
    } else {
        "<td>"@ + m.text@ + "</td>"@
    }
}

fn push_metric(out: &mut String, m: &Metric, limit: u64)
    ensures
        final(out)@ == old(out)@ + metric_cell(*m, limit),
{
    let ghost before = out@;
    if m.ceil > limit {
        out.append("<td class=over>");
    } else {
        out.append("<td>");
    }
    out.append(m.text.as_str());
    out.append("</td>");
    assert(out@ =~= before + metric_cell(*m, limit));
}

/// Everything up to the first `T`.
pub open spec fn until_t(s: Seq<char>) -> Seq<char>
    decreases s.len(),
{
    if s.len() == 0 || s[0] == 'T' {
        seq![]
    } else {
        seq![s[0]] + until_t(s.skip(1))
    }
}

/// Everything behind the first `T`, if there is one.
pub open spec fn behind_t(s: Seq<char>) -> Option<Seq<char>>
    decreases s.len(),
{
    if s.len() == 0 {
        None
    } else if s[0] == 'T' {
        Some(s.skip(1))
    } else {
        behind_t(s.skip(1))
    }
}

/// Without any `Z` at the end.
pub open spec fn without_z(s: Seq<char>) -> Seq<char>
    decreases s.len(),
{
    if s.len() > 0 && s.last() == 'Z' {
        without_z(s.drop_last())
    } else {
        s
    }
}

/// The time of day of a date and a time: what stands between the first `T` and
/// the next, or the whole if there is none, without a trailing `Z`.
pub open spec fn time_of_day(s: Seq<char>) -> Seq<char> {
    match behind_t(s) {
        Some(rest) => without_z(until_t(rest)),
        None => without_z(s),
    }
}

/// `n` times the letter `Z`.
spec fn zs(n: nat) -> Seq<char> {
    Seq::new(n, |i: int| 'Z')
}

proof fn lemma_without_zs(s: Seq<char>, n: nat)
    requires
        s.len() > 0 ==> s.last() != 'Z',
    ensures
        without_z(s + zs(n)) == s,
    decreases n,
{
    if n == 0 {
        assert(s + zs(n) =~= s);
    } else {
        assert((s + zs(n)).drop_last() =~= s + zs((n - 1) as nat));
        lemma_without_zs(s, (n - 1) as nat);
    }
}

/// Drop every `Z` at the end.
fn trim_z(s: &str) -> (r: String)
    ensures
        r@ == without_z(s@),
{
    let mut r = String::new();
    let mut held = String::new();
    assert(s@.take(0) =~= seq![] + zs(0));
    assert(held@ =~= zs(0));
    for c in it: s.chars()
        invariant
            it.seq() == s@,
            s@.take(it.index()) == r@ + held@,
            held@ == zs(held@.len()),
            r@.len() > 0 ==> r@.last() != 'Z',
    {
        let ghost k = it.index();
        assert(s@.take(k + 1) =~= s@.take(k).push(c));
        let ghost was = held@;
        if c == 'Z' {
            text::push_char(&mut held, c);
            assert(held@ =~= zs(held@.len()));
            assert(s@.take(k + 1) =~= r@ + held@);
        } else {
            r.append(held.as_str());
            held = String::new();
            text::push_char(&mut r, c);
            assert(held@ =~= zs(0));
            assert(s@.take(k + 1) =~= r@ + held@);
        }
    }
    proof {
        assert(s@.take(s@.len() as int) =~= s@);
        lemma_without_zs(r@, held@.len());
    }
    r
}

proof fn lemma_until_t(s: Seq<char>, k: int)
    requires
        0 <= k <= s.len(),
        forall|i: int| 0 <= i < k ==> s[i] != 'T',
        k == s.len() || s[k] == 'T',
    ensures
        until_t(s) == s.take(k),
    decreases k,
{
    if k > 0 {
        lemma_until_t(s.skip(1), k - 1);
        assert(s.take(k) =~= seq![s[0]] + s.skip(1).take(k - 1));
    } else {
        assert(s.take(0) =~= seq![]);
    }
}

proof fn lemma_behind_t(s: Seq<char>, k: int)
    requires
        0 <= k <= s.len(),
        forall|i: int| 0 <= i < k ==> s[i] != 'T',
        k == s.len() || s[k] == 'T',
    ensures
        behind_t(s) == if k == s.len() {
            None
        } else {
            Some(s.skip(k + 1))
        },
    decreases k,
{
    if k > 0 {
        lemma_behind_t(s.skip(1), k - 1);
        if k < s.len() {
            assert(s.skip(1).skip(k) =~= s.skip(k + 1));
        }
    }
}

/// The time of day of a date and a time.
pub fn clock_time(s: &str) -> (r: String)
    ensures
        r@ == time_of_day(s@),
{
    let mut found = false;
    let mut over = false;
    let mut part = String::new();
    let ghost mut first: int = 0;
    let ghost mut last: int = 0;
    for c in it: s.chars()
        invariant
            it.seq() == s@,
            0 <= first <= last <= it.index(),
            forall|i: int| 0 <= i < first ==> s@[i] != 'T',
            !found ==> first == it.index() && last == first && !over && part@ == Seq::<
                char,
            >::empty(),
            found ==> first < last && s@[first] == 'T' && part@ == s@.subrange(first + 1, last),
            found ==> forall|i: int| first < i < last ==> s@[i] != 'T',
            found && !over ==> last == it.index(),
            over ==> found && last < it.index() && s@[last] == 'T',
    {
        let ghost k = it.index();
        if c == 'T' {
            if found {
                over = true;
            } else {
                found = true;
                proof {
                    last = k + 1;
                }
                assert(part@ =~= s@.subrange(first + 1, last));
            }
        } else if !found {
            proof {
                first = k + 1;
                last = k + 1;
            }
        } else if !over {
            let ghost was = part@;
            text::push_char(&mut part, c);
            proof {
                last = k + 1;
                assert(part@ =~= s@.subrange(first + 1, last));
            }
        }
    }
    proof {
        lemma_behind_t(s@, first);
        if found {
            let rest = s@.skip(first + 1);
            lemma_until_t(rest, last - first - 1);
            assert(rest.take(last - first - 1) =~= s@.subrange(first + 1, last));
        }
    }
    if found {
        trim_z(part.as_str())
    } else {
        trim_z(s)
    }
}

/// The row of one peer.
pub open spec fn probe_row(p: ProbePeer, last: Seq<char>) -> Seq<char> {
    "<tr><td class=nd>"@ + text::escaped_page(p.node@) + "</td><td>"@ + text::escaped_page(p.peer@)
        + "</td><td>"@ + text::escaped_page(p.location@) + "</td>"@ + metric_cell(p.p50, P50_LIMIT)
        + "<td>"@ + p.p95.text@ + "</td>"@ + metric_cell(p.p99, P99_LIMIT) + metric_cell(
        p.stdev,
        STDEV_LIMIT,
    ) + "<td class=sum>"@ + text::escaped_page(last) + "</td></tr>"@
}

/// The rows of the peers.
pub open spec fn probe_peer_rows(peers: Seq<ProbePeer>, last: Seq<char>) -> Seq<char>
    decreases peers.len(),
{
    if peers.len() == 0 {
        seq![]
    } else {
        probe_peer_rows(peers.drop_last(), last) + probe_row(peers.last(), last)
    }
}

/// The rows of the block-lag table.
pub open spec fn probe_rows(probe: Option<Probe>) -> Seq<char> {
    match probe {
        None =>
            "<tr><td colspan=8 class=sum>no probe data (is hl_probe_json.sh running?)</td></tr>"@,
        Some(v) => match v.peers {
            Some(peers) => if peers@.len() > 0 {
                probe_peer_rows(peers@, time_of_day(v.updated@))
            } else {
                "<tr><td colspan=8 class=sum>no probe data</td></tr>"@
            },
            None => "<tr><td colspan=8 class=sum>no probe data</td></tr>"@,
        },
    }
}

fn push_probe_row(out: &mut String, p: &ProbePeer, last: &str)
    ensures
        final(out)@ == old(out)@ + probe_row(*p, last@),
{
    let ghost before = out@;
    out.append("<tr><td class=nd>");
    out.append(text::html_escape(p.node.as_str()).as_str());
    out.append("</td><td>");
    out.append(text::html_escape(p.peer.as_str()).as_str());
    out.append("</td><td>");
    out.append(text::html_escape(p.location.as_str()).as_str());
    out.append("</td>");
    push_metric(out, &p.p50, P50_LIMIT);
    out.append("<td>");
    out.append(p.p95.text.as_str());
    out.append("</td>");
    push_metric(out, &p.p99, P99_LIMIT);
    push_metric(out, &p.stdev, STDEV_LIMIT);
    out.append("<td class=sum>");
    out.append(text::html_escape(last).as_str());
    out.append("</td></tr>");
    assert(out@ =~= before + probe_row(*p, last@));
}

/// Append the rows of the block-lag table.
pub(crate) fn push_probe_rows(out: &mut String, probe: &Option<Probe>)
    ensures
        final(out)@ == old(out)@ + probe_rows(*probe),
{
    match probe {
        None => {
            out.append(
                "<tr><td colspan=8 class=sum>no probe data (is hl_probe_json.sh running?)</td></tr>",
            );
        },
        Some(v) => match &v.peers {
            Some(peers) => {
                if peers.len() == 0 {
                    out.append("<tr><td colspan=8 class=sum>no probe data</td></tr>");
                    return;
                }
                let last = clock_time(v.updated.as_str());
                let ghost before = out@;
                let mut i: usize = 0;
                assert(out@ =~= before + probe_peer_rows(peers@.take(0), last@));
                while i < peers.len()
                    invariant
                        i <= peers.len(),
                        out@ == before + probe_peer_rows(peers@.take(i as int), last@),
                    decreases peers.len() - i,
                {
                    assert(peers@.take(i + 1).drop_last() =~= peers@.take(i as int));
                    push_probe_row(out, &peers[i], last.as_str());
                    i = i + 1;
                    assert(out@ =~= before + probe_peer_rows(peers@.take(i as int), last@));
                }
                assert(peers@.take(peers@.len() as int) =~= peers@);
            },
            None => {
                out.append("<tr><td colspan=8 class=sum>no probe data</td></tr>");
            },
        },
    }
}

// ---------------------------------------------------------------------------
// The peer race
// ---------------------------------------------------------------------------

/// What the race says of one peer.
pub struct RacePeer {
    pub peer: String,
    pub state: String,
    pub streaming: bool,
    /// Blocks it delivered first.
    pub leads: u64,
    /// How its average lag is shown.
    pub lag: String,
    /// Where its average lag ranks, smaller for less lag; `None` if it cannot
    /// count as the least.
    pub lag_rank: Option<u64>,
    /// Samples behind the average.
    pub lag_n: u64,
    pub recon: u64,
    /// For how many whole days it has been bad.
    pub bad_days: u64,
}

/// What the race has measured.
pub struct RaceReport {
    pub updated: String,
    pub peers: Option<Vec<RacePeer>>,
}

/// Fewer samples than this do not make an average.
pub const RACE_LAG_N_MIN: u64 = 10;

/// A peer that has been bad this long is shown in red,
pub const BAD_DAYS_RED: u64 = 5;

/// and this long, labelled as well.
pub const BAD_DAYS_LABEL: u64 = 7;

/// Whether `i` is the streaming peer that led most often, the first of several.
pub open spec fn is_leads_leader(peers: Seq<RacePeer>, i: int) -> bool {
    &&& 0 <= i < peers.len()
    &&& peers[i].streaming
    &&& forall|j: int|
        0 <= j < peers.len() && (#[trigger] peers[j]).streaming ==> if j < i {
            peers[j].leads < peers[i].leads
        } else {
            peers[j].leads <= peers[i].leads
        }
}

/// Whether a peer's lag counts.
pub open spec fn lag_counts(p: RacePeer) -> bool {
    p.streaming && p.lag_n >= RACE_LAG_N_MIN && p.lag_rank is Some
}

/// Whether `i` is the peer with the least lag that counts, the first of several.
pub open spec fn is_lag_leader(peers: Seq<RacePeer>, i: int) -> bool {
    &&& 0 <= i < peers.len()
    &&& lag_counts(peers[i])
    &&& forall|j: int|
        0 <= j < peers.len() && lag_counts(#[trigger] peers[j]) ==> if j < i {
            peers[j].lag_rank->0 > peers[i].lag_rank->0
        } else {
            peers[j].lag_rank->0 >= peers[i].lag_rank->0
        }
}

/// The order of the rows: by how often a peer led, most often first, in the given
/// order among equals.
pub open spec fn is_race_order(peers: Seq<RacePeer>, order: Seq<usize>) -> bool {
    &&& forall|a: int, b: int|
        #![trigger order[a], order[b]]
        0 <= a < b < order.len() ==> {
            ||| peers[order[a] as int].leads > peers[order[b] as int].leads
            ||| (peers[order[a] as int].leads == peers[order[b] as int].leads && order[a]
                < order[b])
        }
    &&& forall|p: usize| #[trigger] order.contains(p) <==> p < peers.len()
}

/// Whether a node currently has this peer: the block-lag probe shows each node's
/// live peer.
pub open spec fn is_node_peer(probe: Option<Probe>, peer: Seq<char>) -> bool {
    peer.len() > 0 && match probe {
        Some(v) => match v.peers {
            Some(peers) => exists|i: int|
                0 <= i < peers@.len() && (#[trigger] peers@[i]).peer@ == peer,
            None => false,
        },
        None => false,
    }
}

/// How the row of one peer is marked.
pub open spec fn race_row_class(peers: Seq<RacePeer>, i: int) -> Seq<char> {
    if peers[i].bad_days >= BAD_DAYS_RED {
        " class=badrow"@
    } else if is_leads_leader(peers, i) {
        " class=greenrow"@
    } else {
        ""@
    }
}

/// How the peer's own cell is marked.
pub open spec fn race_peer_class(p: RacePeer, probe: Option<Probe>) -> Seq<char> {
    if is_node_peer(probe, p.peer@) {
        " class=nodecell"@
    } else {
        ""@
    }
}

/// How the cell of the lag is marked.
pub open spec fn race_lag_class(peers: Seq<RacePeer>, i: int) -> Seq<char> {
    if is_lag_leader(peers, i) {
        " class=limecell"@
    } else {
        ""@
    }
}

/// What the cell of the state says.
pub open spec fn race_state(p: RacePeer) -> Seq<char> {
    if p.bad_days >= BAD_DAYS_LABEL {
        text::escaped_page(p.state@) + " <span class=badlabel>BAD "@ + text::digits(
            p.bad_days as nat,
        ) + "d</span>"@
    } else {
        text::escaped_page(p.state@)
    }
}

/// How the cell of the state is marked.
pub open spec fn race_state_class(p: RacePeer) -> Seq<char> {
    if p.streaming {
        "up"@
    } else {
        "down"@
    }
}

/// The row of one peer.
pub open spec fn race_row(peers: Seq<RacePeer>, i: int, probe: Option<Probe>) -> Seq<char> {
    "<tr"@ + race_row_class(peers, i) + "><td"@ + race_peer_class(peers[i], probe) + ">"@
        + text::escaped_page(peers[i].peer@) + "</td><td class="@ + race_state_class(peers[i])
        + ">"@ + race_state(peers[i]) + "</td><td>"@ + text::digits(peers[i].leads as nat)
        + "</td><td"@ + race_lag_class(peers, i) + ">"@ + peers[i].lag@ + "</td><td>"@
        + text::digits(peers[i].lag_n as nat) + "</td><td>"@ + text::digits(
        peers[i].recon as nat,
    ) + "</td></tr>"@
}

/// The rows of the peers, in the given order.
pub open spec fn race_rows(peers: Seq<RacePeer>, order: Seq<usize>, probe: Option<Probe>) -> Seq<
    char,
>
    decreases order.len(),
{
    if order.len() == 0 {
        seq![]
    } else {
        race_rows(peers, order.drop_last(), probe) + race_row(peers, order.last() as int, probe)
    }
}

/// The order of the rows.
pub open spec fn race_order(peers: Seq<RacePeer>) -> Seq<usize> {
    choose|order: Seq<usize>| is_race_order(peers, order)
}

/// There is one order of the rows only.
pub proof fn law_race_order_is_unique(peers: Seq<RacePeer>, order: Seq<usize>)
    requires
        is_race_order(peers, order),
    ensures
        order == race_order(peers),
{
    let other = race_order(peers);
    let before = |i: usize, j: usize|
        peers[i as int].leads > peers[j as int].leads || (peers[i as int].leads
            == peers[j as int].leads && i < j);
    assert forall|p: usize| #[trigger] order.contains(p) <==> other.contains(p) by {
        assert(other.contains(p) <==> p < peers.len());
    }
    assert forall|a: int, b: int| 0 <= a < b < order.len() implies #[trigger] before(
        order[a],
        order[b],
    ) by {}
    assert forall|a: int, b: int| 0 <= a < b < other.len() implies #[trigger] before(
        other[a],
        other[b],
    ) by {}
    crate::order::lemma_ranked_unique(before, order, other);
}

/// There is an order of the rows, whatever the peers are.
pub proof fn law_race_order_exists(peers: Seq<RacePeer>)
    ensures
        is_race_order(peers, race_order(peers)),
{
    let n: int = if peers.len() <= usize::MAX {
        peers.len() as int
    } else {
        usize::MAX + 1
    };
    let order = lemma_ordered(peers, n);
    assert(is_race_order(peers, order)) by {
        let some = peers.take(n);
        assert forall|a: int| 0 <= a < order.len() implies some[(
        #[trigger] order[a]) as int].leads == peers[order[a] as int].leads by {
            assert(order.contains(order[a]));
        }
    }
    law_race_order_is_unique(peers, order);
}

/// The place of a row among those before it.
proof fn lemma_place(peers: Seq<RacePeer>, was: Seq<usize>, i: usize, from: int) -> (at: int)
    requires
        0 <= from <= was.len(),
        forall|a: int|
            0 <= a < from ==> peers[#[trigger] was[a] as int].leads >= peers[i as int].leads,
    ensures
        0 <= at <= was.len(),
        forall|a: int|
            0 <= a < at ==> peers[#[trigger] was[a] as int].leads >= peers[i as int].leads,
        at < was.len() ==> peers[was[at] as int].leads < peers[i as int].leads,
    decreases was.len() - from,
{
    if from < was.len() && peers[was[from] as int].leads >= peers[i as int].leads {
        lemma_place(peers, was, i, from + 1)
    } else {
        from
    }
}

proof fn lemma_ordered(peers: Seq<RacePeer>, n: int) -> (order: Seq<usize>)
    requires
        0 <= n <= peers.len(),
        n <= usize::MAX + 1,
    ensures
        is_race_order(peers.take(n), order),
    decreases n,
{
    if n == 0 {
        Seq::empty()
    } else {
        let i = (n - 1) as usize;
        let was = lemma_ordered(peers, n - 1);
        assert forall|a: int| 0 <= a < was.len() implies (#[trigger] was[a]) < i by {
            assert(was.contains(was[a]));
        }
        let at = lemma_place(peers, was, i, 0);
        lemma_race_inserted(peers, was, was.insert(at, i), at, i);
        was.insert(at, i)
    }
}

/// The section of the race.
pub open spec fn race_section(race: Option<RaceReport>, probe: Option<Probe>) -> Seq<char> {
    match race {
        None =>
            "<div class='cap c2'>Peer race &mdash; no data (run start-race.sh)</div>\n"@,
        Some(v) =>
            "<div class='cap c2'>Peer race &mdash; last run: <span id=race-elapsed data-updated=\""@
            + text::escaped_page(v.updated@) + "\"></span></div>\n"@ + "<div class=legend>"@
            + "<span class=sq style='background:#4caf50'></span> leads &mdash; delivers a block first &nbsp;&nbsp;"@
            + "<span class=sq style='background:#aeea00'></span> avg_lag &mdash; winner by delay &nbsp;&nbsp;"@
            + "<span class=sq style='background:#00ced1'></span> current connect &mdash; node's live peer &nbsp;&nbsp;"@
            + "<span class=sq style='background:#e53935'></span> bad peer 5+ days"@
            + "</div>\n<table>\n"@
            + "<tr><th>peer</th><th>state</th><th>leads</th><th>avg_lag (ms)</th><th>lag_n</th><th>recon</th></tr>\n"@
            + (match v.peers {
            Some(peers) => race_rows(peers@, race_order(peers@), probe),
            None => "<tr><td colspan=6 class=sum>no peers</td></tr>"@,
        }) + "</table>\n"@,
    }
}

/// The streaming peer that led most often, if any streams.
fn leads_leader(peers: &Vec<RacePeer>) -> (at: Option<usize>)
    ensures
        match at {
            Some(i) => is_leads_leader(peers@, i as int),
            None => forall|i: int| !is_leads_leader(peers@, i),
        },
{
    let mut at: Option<usize> = None;
    let mut i: usize = 0;
    while i < peers.len()
        invariant
            i <= peers.len(),
            match at {
                Some(k) => k < i && is_leads_leader(peers@.take(i as int), k as int),
                None => forall|j: int| 0 <= j < i ==> !(#[trigger] peers@[j]).streaming,
            },
        decreases peers.len() - i,
    {
        let ghost seen = peers@.take(i + 1);
        assert(seen.drop_last() =~= peers@.take(i as int));
        assert forall|j: int| 0 <= j < i implies #[trigger] seen[j] == peers@.take(i as int)[j] by {}
        if peers[i].streaming {
            let better = match at {
                Some(k) => peers[i].leads > peers[k].leads,
                None => true,
            };
            if better {
                at = Some(i);
            }
        }
        i = i + 1;
    }
    proof {
        assert(peers@.take(peers@.len() as int) =~= peers@);
    }
    at
}

/// The peer with the least lag that counts, if any counts.
fn lag_leader(peers: &Vec<RacePeer>) -> (at: Option<usize>)
    ensures
        match at {
            Some(i) => is_lag_leader(peers@, i as int),
            None => forall|i: int| !is_lag_leader(peers@, i),
        },
{
    let mut at: Option<usize> = None;
    let mut least: u64 = 0;
    let mut i: usize = 0;
    while i < peers.len()
        invariant
            i <= peers.len(),
            match at {
                Some(k) => k < i && is_lag_leader(peers@.take(i as int), k as int)
                    && peers@[k as int].lag_rank == Some(least),
                None => forall|j: int| 0 <= j < i ==> !lag_counts(#[trigger] peers@[j]),
            },
        decreases peers.len() - i,
    {
        let ghost seen = peers@.take(i + 1);
        assert forall|j: int| 0 <= j < i implies #[trigger] seen[j] == peers@.take(i as int)[j] by {}
        if peers[i].streaming && peers[i].lag_n >= RACE_LAG_N_MIN {
            if let Some(rank) = peers[i].lag_rank {
                let better = match at {
                    Some(_) => rank < least,
                    None => true,
                };
                if better {
                    at = Some(i);
                    least = rank;
                }
            }
        }
        i = i + 1;
    }
    proof {
        assert(peers@.take(peers@.len() as int) =~= peers@);
    }
    at
}

/// The order of the rows.
fn order_by_leads(peers: &Vec<RacePeer>) -> (order: Vec<usize>)
    ensures
        order@ == race_order(peers@),
        is_race_order(peers@, order@),
{
    let mut order: Vec<usize> = Vec::new();
    let mut i: usize = 0;
    while i < peers.len()
        invariant
            i <= peers.len(),
            is_race_order(peers@.take(i as int), order@),
        decreases peers.len() - i,
    {
        let ghost old_peers = peers@.take(i as int);
        let ghost new_peers = peers@.take(i + 1);
        let ghost was = order@;
        proof {
            assert forall|a: int| 0 <= a < was.len() implies (#[trigger] was[a]) < i by {
                assert(was.contains(was[a]));
            }
        }
        let mut at: usize = 0;
        while at < order.len() && peers[order[at]].leads >= peers[i].leads
            invariant
                i < peers.len(),
                at <= order.len(),
                order@ == was,
                forall|a: int| 0 <= a < was.len() ==> (#[trigger] was[a]) < i,
                forall|a: int|
                    0 <= a < at ==> peers@[#[trigger] was[a] as int].leads
                        >= peers@[i as int].leads,
            decreases order.len() - at,
        {
            at = at + 1;
        }
        order.insert(at, i);
        proof {
            lemma_race_inserted(peers@, was, order@, at as int, i);
        }
        i = i + 1;
    }
    proof {
        assert(peers@.take(peers@.len() as int) =~= peers@);
        law_race_order_is_unique(peers@, order@);
    }
    order
}

proof fn lemma_race_inserted(
    peers: Seq<RacePeer>,
    was: Seq<usize>,
    is: Seq<usize>,
    at: int,
    i: usize,
)
    requires
        i < peers.len(),
        0 <= at <= was.len(),
        is == was.insert(at, i),
        is_race_order(peers.take(i as int), was),
        forall|a: int| 0 <= a < was.len() ==> (#[trigger] was[a]) < i,
        forall|a: int|
            0 <= a < at ==> peers[#[trigger] was[a] as int].leads >= peers[i as int].leads,
        at < was.len() ==> peers[was[at] as int].leads < peers[i as int].leads,
    ensures
        is_race_order(peers.take(i + 1), is),
{
    let old_peers = peers.take(i as int);
    let new_peers = peers.take(i + 1);
    assert forall|a: int, b: int|
        #![trigger is[a], is[b]]
        0 <= a < b < is.len() implies {
        ||| new_peers[is[a] as int].leads > new_peers[is[b] as int].leads
        ||| (new_peers[is[a] as int].leads == new_peers[is[b] as int].leads && is[a] < is[b])
    } by {
        if a < at && b == at {
            assert(is[a] == was[a]);
        } else if a == at && b > at {
            assert(is[b] == was[b - 1]);
            if b - 1 > at {
                assert(old_peers[was[at] as int].leads >= old_peers[was[b - 1] as int].leads);
            }
        } else {
            let x = if a < at { a } else { a - 1 };
            let y = if b < at { b } else { b - 1 };
            assert(is[a] == was[x] && is[b] == was[y]);
            assert(old_peers[was[x] as int].leads >= old_peers[was[y] as int].leads);
        }
    }
    assert forall|p: usize| #[trigger] is.contains(p) <==> p < new_peers.len() by {
        if p == i {
            assert(is[at] == p);
        } else if was.contains(p) {
            let a = was.index_of(p);
            if a < at {
                assert(is[a] == p);
            } else {
                assert(is[a + 1] == p);
            }
        }
        if is.contains(p) && p != i {
            let a = is.index_of(p);
            if a < at {
                assert(was[a] == p);
            } else {
                assert(was[a - 1] == p);
            }
            assert(was.contains(p));
        }
    }
}

fn lists_peer(peers: &Vec<ProbePeer>, peer: &String) -> (b: bool)
    ensures
        b == exists|i: int| 0 <= i < peers@.len() && (#[trigger] peers@[i]).peer@ == peer@,
{
    let mut i: usize = 0;
    while i < peers.len()
        invariant
            i <= peers.len(),
            forall|j: int| 0 <= j < i ==> (#[trigger] peers@[j]).peer@ != peer@,
        decreases peers.len() - i,
    {
        if peers[i].peer == *peer {
            assert(peers@[i as int].peer@ == peer@);
            return true;
        }
        i = i + 1;
    }
    false
}

/// Whether a node currently has this peer.
fn has_node_peer(probe: &Option<Probe>, peer: &String) -> (b: bool)
    ensures
        b == is_node_peer(*probe, peer@),
{
    proof {
        lemma_no_bytes(peer@);
    }
    if peer.as_str().as_bytes().len() == 0 {
        return false;
    }
    match probe {
        Some(v) => match &v.peers {
            Some(peers) => lists_peer(peers, peer),
            None => false,
        },
        None => false,
    }
}

proof fn lemma_no_bytes(s: Seq<char>)
    ensures
        vstd::utf8::encode_utf8(s).len() == 0 <==> s.len() == 0,
{
    if s.len() > 0 {
        vstd::utf8::encode_utf8_first_scalar(s);
    }
}

fn race_row_text(
    peers: &Vec<RacePeer>,
    i: usize,
    green: Option<usize>,
    lime: Option<usize>,
    probe: &Option<Probe>,
) -> (out: String)
    requires
        i < peers@.len(),
        (green == Some(i)) == is_leads_leader(peers@, i as int),
        (lime == Some(i)) == is_lag_leader(peers@, i as int),
    ensures
        out@ == race_row(peers@, i as int, *probe),
{
    let p = &peers[i];
    let row_class = if p.bad_days >= BAD_DAYS_RED {
        " class=badrow"
    } else if green == Some(i) {
        " class=greenrow"
    } else {
        ""
    };
    assert(row_class@ == race_row_class(peers@, i as int));
    let peer_class = if has_node_peer(probe, &p.peer) {
        " class=nodecell"
    } else {
        ""
    };
    assert(peer_class@ == race_peer_class(*p, *probe));
    let lag_class = if lime == Some(i) {
        " class=limecell"
    } else {
        ""
    };
    assert(lag_class@ == race_lag_class(peers@, i as int));
    let state_class = if p.streaming {
        "up"
    } else {
        "down"
    };
    assert(state_class@ == race_state_class(*p));
    let mut state = text::html_escape(p.state.as_str());
    if p.bad_days >= BAD_DAYS_LABEL {
        state.append(" <span class=badlabel>BAD ");
        state.append(text::decimal(p.bad_days).as_str());
        state.append("d</span>");
    }
    assert(state@ == race_state(*p));
    let mut out = "<tr".to_owned();
    out.append(row_class);
    out.append("><td");
    out.append(peer_class);
    out.append(">");
    out.append(text::html_escape(p.peer.as_str()).as_str());
    out.append("</td><td class=");
    out.append(state_class);
    out.append(">");
    out.append(state.as_str());
    out.append("</td><td>");
    out.append(text::decimal(p.leads).as_str());
    out.append("</td><td");
    out.append(lag_class);
    out.append(">");
    out.append(p.lag.as_str());
    out.append("</td><td>");
    out.append(text::decimal(p.lag_n).as_str());
    out.append("</td><td>");
    out.append(text::decimal(p.recon).as_str());
    out.append("</td></tr>");
    out
}

/// Append the section of the race.
pub(crate) fn render_race_section(
    out: &mut String,
    race: &Option<RaceReport>,
    probe: &Option<Probe>,
)
    ensures
        final(out)@ == old(out)@ + race_section(*race, *probe),
{
    let ghost before = out@;
    let v = match race {
        None => {
            out.append("<div class='cap c2'>Peer race &mdash; no data (run start-race.sh)</div>\n");
            return;
        },
        Some(v) => v,
    };
    out.append(
        "<div class='cap c2'>Peer race &mdash; last run: <span id=race-elapsed data-updated=\"",
    );
    out.append(text::html_escape(v.updated.as_str()).as_str());
    out.append("\"></span></div>\n");
    out.append("<div class=legend>");
    out.append(
        "<span class=sq style='background:#4caf50'></span> leads &mdash; delivers a block first &nbsp;&nbsp;",
    );
    out.append(
        "<span class=sq style='background:#aeea00'></span> avg_lag &mdash; winner by delay &nbsp;&nbsp;",
    );
    out.append(
        "<span class=sq style='background:#00ced1'></span> current connect &mdash; node's live peer &nbsp;&nbsp;",
    );
    out.append("<span class=sq style='background:#e53935'></span> bad peer 5+ days");
    out.append("</div>\n<table>\n");
    out.append(
        "<tr><th>peer</th><th>state</th><th>leads</th><th>avg_lag (ms)</th><th>lag_n</th><th>recon</th></tr>\n",
    );
    match &v.peers {
        Some(peers) => push_race_rows(out, peers, probe),
        None => out.append("<tr><td colspan=6 class=sum>no peers</td></tr>"),
    }
    out.append("</table>\n");
    assert(out@ =~= before + race_section(*race, *probe));
}

fn push_race_rows(out: &mut String, peers: &Vec<RacePeer>, probe: &Option<Probe>)
    ensures
        final(out)@ == old(out)@ + race_rows(peers@, race_order(peers@), *probe),
{
    let ghost before = out@;
    let green = leads_leader(peers);
    let lime = lag_leader(peers);
    let order = order_by_leads(peers);
    proof {
        assert forall|a: int| 0 <= a < order@.len() implies (#[trigger] order@[a]) < peers@.len() by {
            assert(order@.contains(order@[a]));
        }
        lemma_leaders_unique(peers@);
        assert forall|i: usize| (green == Some(i)) == #[trigger] is_leads_leader(
            peers@,
            i as int,
        ) by {}
        assert forall|i: usize| (lime == Some(i)) == #[trigger] is_lag_leader(
            peers@,
            i as int,
        ) by {}
    }
    let mut k: usize = 0;
    assert(out@ =~= before + race_rows(peers@, order@.take(0), *probe));
    while k < order.len()
        invariant
            k <= order.len(),
            forall|a: int| 0 <= a < order@.len() ==> (#[trigger] order@[a]) < peers@.len(),
            forall|i: usize| (green == Some(i)) == #[trigger] is_leads_leader(peers@, i as int),
            forall|i: usize| (lime == Some(i)) == #[trigger] is_lag_leader(peers@, i as int),
            out@ == before + race_rows(peers@, order@.take(k as int), *probe),
        decreases order.len() - k,
    {
        let i = order[k];
        assert(is_leads_leader(peers@, i as int) == (green == Some(i)));
        assert(is_lag_leader(peers@, i as int) == (lime == Some(i)));
        assert(order@.take(k + 1).drop_last() =~= order@.take(k as int));
        out.append(race_row_text(peers, i, green, lime, probe).as_str());
        k = k + 1;
        assert(out@ =~= before + race_rows(peers@, order@.take(k as int), *probe));
    }
    assert(order@.take(order@.len() as int) =~= order@);
}

proof fn lemma_leaders_unique(peers: Seq<RacePeer>)
    ensures
        forall|i: int, j: int| #[trigger]
            is_leads_leader(peers, i) && #[trigger] is_leads_leader(peers, j) ==> i == j,
        forall|i: int, j: int| #[trigger]
            is_lag_leader(peers, i) && #[trigger] is_lag_leader(peers, j) ==> i == j,
{
}

} // verus!
