//! What a load test measures, and what it concludes.

use std::collections::hash_map::DefaultHasher;
use std::hash::{Hash, Hasher};
use wsarb::arbitration::Stamp;
use wsarb::key::SubKey;
use wsarb::loadtest::compare::{plan_slots, Comparison, Slots, Verdict, AGE_BUCKETS, NO_KEY};
use wsarb::loadtest::keystats::{age_quantile, KeyStats};
use wsarb::loadtest::plan::{coins_of, fan_out, parse_sub, plan_subs, PlanError};
use wsarb::loadtest::report::{
    climb, ended_early, heat_cells, held, is_shared, mean_ages, pct_of, reports_error, Cell, Climb,
};
use wsarb::loadtest::stream::{hash_of, key_index, measure, observe, Observed, StreamStats};
use wsarb::loadtest::summary::{
    age_rows, all_counts, alive, alone_stalls, framing, matched, notes, passed, reads_elsewhere,
    shown_strips, spread, standing, tally, AgeRow, Findings, Framing, Matched, Note, Standing,
};

const SEC: u64 = 1_000_000_000;
const MS: u64 = 1_000_000;

fn strings(v: &[&str]) -> Vec<String> {
    v.iter().map(|s| s.to_string()).collect()
}

// ---------------------------------------------------------------------------
// The plan

#[test]
fn subscriptions_are_parsed() {
    let bbo = |coin: &str| SubKey::Bbo { coin: coin.into() };
    assert_eq!(parse_sub("bbo:BTC", 20), Some(bbo("BTC")));
    assert_eq!(parse_sub("bbo:a:b", 20), Some(bbo("a:b")));
    assert_eq!(parse_sub("bbo:", 20), Some(bbo("")));
    assert_eq!(
        parse_sub("l2Book:BTC", 20),
        Some(SubKey::L2Book { coin: "BTC".into(), n_sig_figs: None, n_levels: None, mantissa: None })
    );
    assert_eq!(
        parse_sub("l2Diff:BTC", 50),
        Some(SubKey::L2Diff { coin: "BTC".into(), n_sig_figs: None, n_levels: Some(50), mantissa: None })
    );
    assert_eq!(parse_sub("l4Book:BTC", 50), Some(SubKey::L4Book { coin: "BTC".into() }));
    assert_eq!(parse_sub("trades:BTC", 20), Some(SubKey::Trades { coin: "BTC".into() }));
    assert_eq!(parse_sub("bookDiffs:BTC", 20), Some(SubKey::BookDiffs { coin: "BTC".into() }));
    assert_eq!(parse_sub("orderUpdates:0xAB", 20), Some(SubKey::OrderUpdates { user: "0xab".into() }));
    assert_eq!(parse_sub("bbo", 20), None);
    assert_eq!(parse_sub("", 20), None);
    assert_eq!(parse_sub("Bbo:BTC", 20), None);
    assert_eq!(parse_sub(":BTC", 20), None);
}

#[test]
fn a_list_of_coins_has_blanks_and_comments() {
    let list = "BTC\n\n  ETH \r\n# no\n   # nor this\n\u{a0}SOL\u{3000}\nA B\n";
    assert_eq!(coins_of(list), strings(&["BTC", "ETH", "SOL", "A B"]));
    assert_eq!(coins_of(""), Vec::<String>::new());
    assert_eq!(coins_of("last"), strings(&["last"]));
    assert_eq!(coins_of("a#b"), strings(&["a#b"]));
}

#[test]
fn lines_are_trimmed_as_the_standard_library_trims() {
    for c in '\0'..='\u{3100}' {
        let line = format!("{c}x{c}");
        let want: Vec<String> = line
            .lines()
            .map(|l| l.trim())
            .filter(|l| !l.is_empty() && !l.starts_with('#'))
            .map(|l| l.to_string())
            .collect();
        assert_eq!(coins_of(&line), want, "{:x}", c as u32);
    }
}

#[test]
fn a_run_is_planned() {
    let plan = plan_subs("bbo", &strings(&["BTC", "ETH"]), &strings(&["l4Book:SOL"]), 20).unwrap();
    assert_eq!(
        plan,
        vec![
            SubKey::Bbo { coin: "BTC".into() },
            SubKey::Bbo { coin: "ETH".into() },
            SubKey::L4Book { coin: "SOL".into() },
        ]
    );
    assert_eq!(plan_subs("nope", &strings(&["BTC"]), &strings(&["bad"]), 20), Err(PlanError::UnknownChannel));
    assert_eq!(
        plan_subs("nope", &Vec::new(), &strings(&["bbo:BTC", "bad", "worse"]), 20),
        Err(PlanError::BadSub(1))
    );
    assert_eq!(plan_subs("bbo", &Vec::new(), &Vec::new(), 20), Err(PlanError::Nothing));
}

#[test]
fn subscriptions_are_spread_over_connections() {
    assert_eq!(fan_out(10, 3), vec![(0, 4), (4, 8), (8, 10)]);
    assert_eq!(fan_out(10, 0), vec![(0, 10)]);
    assert_eq!(fan_out(2, 5), vec![(0, 1), (1, 2)]);
    assert_eq!(fan_out(6, 4), vec![(0, 2), (2, 4), (4, 6)]);
    assert_eq!(fan_out(usize::MAX, 1), vec![(0, usize::MAX)]);
}

#[test]
fn streams_have_their_slots() {
    assert_eq!(plan_slots(0, true), Ok(Slots { nodes: 0, twin: false }));
    assert_eq!(plan_slots(2, true), Ok(Slots { nodes: 2, twin: true }));
    assert_eq!(plan_slots(2, true).unwrap().used(), 4);
    assert_eq!(plan_slots(7, false).unwrap().used(), 8);
    assert_eq!(plan_slots(7, true), Err(9));
    assert_eq!(plan_slots(8, false), Err(9));
    assert_eq!(plan_slots(usize::MAX, true), Err(usize::MAX as u128 + 2));
}

// ---------------------------------------------------------------------------
// One subscription

#[test]
fn quantiles_are_taken_from_the_sorted_values() {
    let mut ages: Vec<u32> = (0..101).rev().collect();
    assert_eq!(age_quantile(&ages, 50), Some(50));
    assert_eq!(age_quantile(&ages, 95), Some(95));
    assert_eq!(age_quantile(&ages, 99), Some(99));
    ages.truncate(2); // 100, 99
    assert_eq!(age_quantile(&ages, 99), Some(99));
    assert_eq!(age_quantile(&Vec::new(), 50), None);
    // The place is rounded down, as a float would be.
    for n in 1..2000usize {
        let v: Vec<u32> = (0..n as u32).rev().collect();
        for (p, f) in [(50, 0.50), (95, 0.95), (99, 0.99)] {
            let at = (((n - 1) as f64) * f) as usize;
            assert_eq!(age_quantile(&v, p), Some(at as u32));
        }
    }
}

#[test]
fn percentiles_are_read_off_a_histogram() {
    assert_eq!(pct_of(&vec![0, 0, 0], 50), 0);
    assert_eq!(pct_of(&vec![0, 3, 0, 1], 50), 1);
    assert_eq!(pct_of(&vec![0, 3, 0, 1], 99), 1);
    assert_eq!(pct_of(&vec![0, 3, 0, 1], 100), 3);
    assert_eq!(pct_of(&vec![1, 1], 50), 0);
    assert_eq!(held(&vec![0, 3, 0, 1]), 4);
}

#[test]
fn a_gap_far_beyond_the_habit_is_a_stall() {
    let mut k = KeyStats::new();
    let mut now = 0;
    for _ in 0..257 {
        let scaled = if k.limit_due() { k.gap_quantile(99).map(|q| q * 5) } else { None };
        k.note(now, 0, 10, scaled);
        now += 100 * MS;
    }
    assert_eq!((k.msgs(), k.bytes(), k.stall_count()), (257, 2570, 0));
    assert_eq!(k.per_second()[0], 10);
    // The habit is a tenth of a second, and five times that is tolerated.
    now += 400 * MS;
    k.note(now, 0, 1, None);
    assert_eq!(k.stall_count(), 0);
    let last = now;
    now += 501 * MS;
    k.note(now, 0, 1, None);
    assert_eq!(k.stalls(), &vec![(last, 501 * MS)]);
    // A stream that never came back is closed by the end of the run.
    k.close(now + 500 * MS, 0);
    assert_eq!(k.stall_count(), 1);
    k.close(now + 2 * SEC, 0);
    assert_eq!(k.stall_count(), 2);
}

#[test]
fn no_threshold_is_below_a_quarter_of_a_second() {
    let mut k = KeyStats::new();
    for i in 0..257u64 {
        k.note(i * MS, 0, 1, if k.limit_due() { Some(5 * MS) } else { None });
    }
    k.close(256 * MS + 250 * MS, 0);
    assert_eq!(k.stall_count(), 0);
    k.close(256 * MS + 251 * MS, 0);
    assert_eq!(k.stall_count(), 1);
}

#[test]
fn only_going_back_is_a_violation() {
    let mut k = KeyStats::new();
    for stamp in [Stamp::Block(5), Stamp::Block(5), Stamp::Block(90), Stamp::Snapshot(1), Stamp::Block(2)] {
        k.order(stamp, "x");
    }
    assert_eq!(k.violation_count(), 0);
    k.order(Stamp::Lead(1), "l4Book:BTC");
    assert_eq!(k.violations(), &strings(&["l4Book:BTC: 2 -> 1"]));
    for v in (0..70u64).rev() {
        k.order(Stamp::Point(v + 1000), "y");
    }
    // The first of those went forward; the sample stops at its cap.
    assert_eq!((k.violation_count(), k.violations().len()), (70, 64));
}

#[test]
fn ages_are_measured_by_the_frame_itself() {
    let mut k = KeyStats::new();
    assert_eq!(k.note_age("{\"time\":100}", 150), Some(50));
    assert_eq!(k.note_age("{\"time\":200}", 150), None);
    assert_eq!(k.note_age("{}", 150), None);
    assert_eq!(k.note_age("{\"time\":0}", u64::MAX), Some(u32::MAX - 1));
    assert_eq!(k.ages_ms(), &vec![50, u32::MAX - 1]);
    assert_eq!(k.age_pct(50), Some(50));
}

// ---------------------------------------------------------------------------
// The comparison

fn compared(nodes: usize, twin: bool) -> Comparison {
    Comparison::new(Slots { nodes, twin }, 2, 10 * SEC)
}

#[test]
fn every_message_has_one_fate() {
    let mut c = compared(1, false);
    let at = |s: u64| s * SEC;
    // Both had it, the proxy two milliseconds later.
    c.record(1, 1, 0, Stamp::Point(10), at(1), None);
    c.record(0, 1, 0, Stamp::Point(10), at(1) + 2 * MS, None);
    // Both had it, the proxy first.
    c.record(0, 2, 0, Stamp::Point(11), at(2), None);
    c.record(1, 2, 0, Stamp::Point(11), at(2) + MS, None);
    // The node replayed something the proxy had moved past.
    c.record(1, 3, 0, Stamp::Point(5), at(3), None);
    // The proxy sent another copy of this stamp.
    c.record(1, 4, 1, Stamp::Lead(7), at(4), None);
    c.record(0, 5, 1, Stamp::Lead(7), at(4), None);
    // It never carried this one, but something newer.
    c.record(1, 6, 1, Stamp::Lead(8), at(5), None);
    c.record(0, 7, 1, Stamp::Lead(9), at(5), None);
    // It never had this one, nor anything newer.
    c.record(1, 8, 1, Stamp::Lead(20), at(6), None);
    assert_eq!(c.pending(), 8);
    c.sweep(at(10), false);
    assert_eq!(c.verdict(), Verdict::zero());
    c.sweep(at(30), false);
    let v = c.verdict();
    assert_eq!((v.matched, v.behind_n, v.behind_us, v.ahead_n, v.ahead_us), (2, 1, 2000, 1, 1000));
    assert_eq!((v.stale_dropped, v.superseded, v.skipped, v.lost, v.invented), (1, 1, 1, 1, 2));
    assert_eq!(v.undecided, 0);
    assert_eq!(c.pending(), 0);
}

#[test]
fn the_order_of_a_sweep_does_not_matter() {
    // The maps hand out their contents in an order of their own, and each in
    // another.
    let swept = || {
        let mut c = compared(2, true);
        for i in 0..200u64 {
            for slot in 0..4usize {
                if i % (slot as u64 + 2) != 0 {
                    let at = i * SEC / 10 + slot as u64 * 700 * MS * (i % 3);
                    c.record(slot, i, (i % 2) as u32, Stamp::Lead(i / 2), at, Some((i % 7) as u32));
                }
            }
        }
        c.sweep(15 * SEC, false);
        c
    };
    let one = swept();
    assert!(one.pending() > 0);
    assert!(one.verdict().matched > 0 && one.verdict().noise_n > 0 && one.verdict().led.seen > 0);
    for _ in 0..5 {
        let other = swept();
        assert_eq!(one.verdict(), other.verdict());
        assert_eq!(one.ages(), other.ages());
        assert_eq!(one.pending(), other.pending());
    }
}

#[test]
fn the_last_pass_leaves_nothing() {
    let mut c = compared(1, false);
    c.record(1, 1, NO_KEY, Stamp::Point(1), SEC, None);
    c.record(1, 2, 0, Stamp::Block(1), 25 * SEC, None);
    c.sweep(30 * SEC, true);
    let v = c.verdict();
    assert_eq!((v.lost, v.undecided), (1, 1));
    assert_eq!(c.pending(), 0);
    c.sweep(60 * SEC, true);
    assert_eq!(c.verdict(), v);
}

#[test]
fn the_twin_sets_the_floor() {
    let mut c = compared(1, true);
    c.record(1, 1, 0, Stamp::Point(1), 0, None);
    c.record(2, 1, 0, Stamp::Point(1), 3000, None);
    c.record(2, 2, 0, Stamp::Point(2), 0, None);
    c.record(1, 2, 0, Stamp::Point(2), 7999, None);
    c.record(1, 3, 0, Stamp::Point(3), 0, None);
    c.record(2, 4, 0, Stamp::Point(4), 0, None);
    c.sweep(10 * SEC + 7999, false);
    let v = c.verdict();
    assert_eq!((v.twin_both, v.node_only, v.twin_only), (2, 1, 1));
    assert_eq!((v.noise_us, v.noise_n, v.noise_max_us), (10, 2, 7));
    assert_eq!((v.twin_first, v.twin_second), (1, 1));
    // What only the twin had is nobody's loss.
    assert_eq!(v.lost, 3);
}

#[test]
fn stamps_are_counted_where_every_stream_had_them() {
    let mut c = compared(2, true);
    let mut hash = 0;
    let mut put = |c: &mut Comparison, slot: usize, stamp: Stamp, n: usize| {
        for _ in 0..n {
            hash += 1;
            c.record(slot, hash, 0, stamp, 0, None);
        }
    };
    for (slot, n) in [(0, 2), (1, 3), (2, 5), (3, 3)] {
        put(&mut c, slot, Stamp::Block(1), n);
    }
    for (slot, n) in [(0, 4), (1, 4), (2, 4), (3, 1)] {
        put(&mut c, slot, Stamp::Sticky(1000), n);
    }
    // One stream had nothing of this stamp.
    for (slot, n) in [(0, 1), (1, 1), (3, 1)] {
        put(&mut c, slot, Stamp::Block(2), n);
    }
    c.sweep(10 * SEC, false);
    let v = c.verdict();
    assert_eq!((v.raced.seen, v.led.seen), (1, 1));
    assert_eq!((v.raced.same_agree, v.raced.same_differ), (1, 0));
    assert_eq!((v.raced.cross_agree, v.raced.cross_differ), (0, 1));
    assert_eq!((v.led.same_agree, v.led.same_differ), (0, 1));
    assert_eq!((v.led.cross_agree, v.led.cross_differ), (1, 0));
    assert_eq!((v.short, v.short_frames), (1, 3));
}

#[test]
fn ages_are_compared_over_what_every_stream_had() {
    let mut c = compared(1, false);
    c.record(0, 1, 0, Stamp::Point(1), 0, Some(5));
    c.record(1, 1, 0, Stamp::Point(1), 0, Some(200_000));
    c.record(0, 2, 0, Stamp::Point(2), 0, Some(7));
    c.record(1, 2, 0, Stamp::Point(2), 0, None);
    c.record(0, 3, 0, Stamp::Point(3), 0, Some(9));
    c.sweep(10 * SEC, false);
    let ages = c.ages();
    assert_eq!((ages.len(), ages[0].len()), (2, AGE_BUCKETS));
    assert_eq!((held(&ages[0]), held(&ages[1])), (1, 1));
    assert_eq!((ages[0][5], ages[1][AGE_BUCKETS - 1]), (1, 1));
}

// ---------------------------------------------------------------------------
// Streams

fn l4(coin: &str) -> SubKey {
    SubKey::L4Book { coin: coin.into() }
}

#[test]
fn a_message_is_measured_on_its_stream_and_in_the_comparison() {
    let mut stream = StreamStats::new();
    let mut c = compared(1, false);
    let labels = strings(&["l4Book:BTC", "l4Book:ETH"]);
    let text = "{\"time\":1000}";
    measure(&mut stream, &mut c, &labels, 0, &l4("ETH"), Stamp::Block(3), text, SEC, 0, 1030, None);
    measure(&mut stream, &mut c, &labels, 0, &l4("SOL"), Stamp::Block(3), "{}", 2 * SEC, 0, 1030, None);
    assert_eq!(stream.labels(), &strings(&["l4Book:ETH", "l4Book:SOL"]));
    assert_eq!(stream.keys()[0].bytes(), text.len() as u64);
    assert_eq!(stream.keys()[0].ages_ms(), &vec![30]);
    assert_eq!(stream.age_by_sec(), &vec![(0, 0), (30, 1)]);
    assert_eq!(c.pending(), 2);
    c.sweep(60 * SEC, true);
    assert_eq!(c.verdict().invented, 2);
    assert_eq!(stream.quantile_due(&l4("ETH")), None);
    stream.reject();
    stream.note_end(5 * SEC, 10 * SEC, "closed by peer".into());
    stream.note_end(8 * SEC, 10 * SEC, "winding down".into());
    assert_eq!(stream.rejected(), 1);
    assert_eq!(stream.ended(), &vec![(5 * SEC, "closed by peer".to_string())]);
    assert!(ended_early(7 * SEC, 9 * SEC + 1));
    assert!(!ended_early(7 * SEC, 9 * SEC));
    assert!(!ended_early(u64::MAX, 0));
}

#[test]
fn every_text_on_a_stream_is_observed() {
    let mut s = StreamStats::new();
    let mut c = compared(1, false);
    let labels = strings(&["l4Book:BTC"]);
    let routed = || Some((l4("BTC"), Stamp::Block(1)));
    let mut see = |s: &mut StreamStats, routed, text: &str| {
        observe(s, &mut c, &labels, 0, routed, text, 0, 0, 0, None)
    };
    assert_eq!(see(&mut s, routed(), r#"{"channel":"error"}"#), Observed::Rejected);
    assert_eq!(see(&mut s, None, "{}"), Observed::Unrouted);
    assert!(s.keys().is_empty());
    assert_eq!(see(&mut s, routed(), "{}"), Observed::Measured);
    assert_eq!((s.rejected(), s.keys().len(), s.keys()[0].msgs()), (1, 1, 1));
    // The same bytes are the same message, other bytes are another.
    assert_eq!(see(&mut s, routed(), "{}"), Observed::Measured);
    assert_eq!(see(&mut s, routed(), "{ }"), Observed::Measured);
    assert_eq!(c.pending(), 2);
}

#[test]
fn a_message_is_identified_by_its_standard_hash() {
    for text in ["", "a", "l4Book", "{\"px\":\"64000\"}", "\u{00b7}\u{1f980}"] {
        let mut h = DefaultHasher::new();
        text.hash(&mut h);
        assert_eq!(hash_of(text), h.finish());
    }
    assert_ne!(hash_of("a"), hash_of("b"));
    assert_ne!(hash_of(""), hash_of("\0"));
}

#[test]
fn a_label_asked_for_twice_counts_as_the_last() {
    let labels = strings(&["a", "b", "a"]);
    assert_eq!(key_index(&labels, &"a".to_string()), 2);
    assert_eq!(key_index(&labels, &"b".to_string()), 1);
    assert_eq!(key_index(&labels, &"c".to_string()), NO_KEY);
}

#[test]
fn errors_are_told_by_their_beginning() {
    assert!(reports_error(r#"{"channel":"error","data":"no"}"#));
    assert!(!reports_error(r#"{"channel":"erro"#));
    assert!(!reports_error(r#"{"channel":"bbo","data":"error"}"#));
    assert!(!reports_error(""));
}

#[test]
fn silence_only_means_something_if_others_had_data() {
    let cells = heat_cells(&vec![0, 3, 0, 0, 1], 7, &vec![true, true, true, false, true, true]);
    assert_eq!(
        cells,
        vec![
            Cell::NotYet,
            Cell::Active(3),
            Cell::Broken,
            Cell::Quiet,
            Cell::Active(1),
            Cell::Broken,
            Cell::Quiet,
        ]
    );
    assert_eq!(heat_cells(&Vec::new(), 2, &vec![true, true]), vec![Cell::NotYet, Cell::NotYet]);
}

#[test]
fn ages_are_averaged_over_ten_seconds() {
    let mut v: Vec<(u64, u32)> = vec![(0, 0); 10];
    v.extend([(100, 4), (50, 1)]);
    assert_eq!(mean_ages(&v), vec![None, Some(30)]);
    assert_eq!(mean_ages(&Vec::new()), Vec::<Option<u64>>::new());
}

#[test]
fn an_age_that_only_climbs_is_told_from_a_bad_patch() {
    assert_eq!(climb(&vec![100, 0, 0, 3000]), Some(Climb { head: 100, tail: 3000, per: 966 }));
    assert_eq!(climb(&vec![0, 9000, 9000, 2001]), Some(Climb { head: 0, tail: 2001, per: 667 }));
    assert_eq!(climb(&vec![0, 0, 0, 2000]), None);
    assert_eq!(climb(&vec![1000, 0, 0, 3000]), None);
    assert_eq!(climb(&vec![1, 2, 9999]), None);
}

#[test]
fn stalls_within_two_seconds_are_one() {
    let others = vec![(10 * SEC, 1)];
    assert!(is_shared(8 * SEC + 1, &others));
    assert!(!is_shared(8 * SEC, &others));
    assert!(is_shared(12 * SEC - 1, &others));
    assert!(!is_shared(12 * SEC, &others));
    assert!(!is_shared(0, &Vec::new()));
}

// ---------------------------------------------------------------------------
// The report

/// A stream whose one subscription ticks every millisecond and then stalls twice.
fn stalling(coin: &str, first: u64, second: u64) -> StreamStats {
    let mut s = StreamStats::new();
    let key = l4(coin);
    let mut at = 0;
    let mut tick = |s: &mut StreamStats, now: u64, stamp: u64| {
        let due = s.quantile_due(&key);
        s.on_message(&key, Stamp::Block(stamp), "{}", now, 0, 0, due);
    };
    for i in 0..300u64 {
        at = i * MS;
        tick(&mut s, at, 100);
    }
    for gap in [first, second] {
        at += gap;
        tick(&mut s, at, 99);
    }
    s
}

#[test]
fn the_figures_of_a_stream_are_summed_up() {
    let s = stalling("BTC", 2 * SEC, SEC);
    let t = tally(s.keys());
    assert_eq!((t.msgs, t.bytes, t.stalls, t.violations), (302, 604, 2, 1));
    assert_eq!(alive(s.keys(), 5), vec![true, false, true, true, false]);
    assert_eq!(all_counts(s.keys(), 5), vec![300, 0, 1, 1, 0]);
    assert_eq!(
        notes(s.keys()),
        vec![
            Note::Stall { key: 0, at: 299 * MS, len: 2 * SEC },
            Note::Stall { key: 0, at: 299 * MS + 2 * SEC, len: SEC },
            Note::Violation { key: 0, which: 0 },
        ]
    );
    let none = tally(&Vec::new());
    assert_eq!((none.msgs, none.violations), (0, 0));
}

#[test]
fn no_more_notes_than_can_be_read() {
    let mut s = StreamStats::new();
    for coin in ["a", "b", "c", "d", "e"] {
        for stamp in [3, 2, 1, 0] {
            s.on_message(&l4(coin), Stamp::Block(stamp), "{}", 0, 0, 0, None);
        }
    }
    let shown = notes(s.keys());
    assert_eq!(shown.len(), 8);
    assert_eq!(shown[7], Note::Violation { key: 3, which: 1 });
    assert_eq!(tally(s.keys()).violations, 15);
}

#[test]
fn the_worst_strips_are_shown() {
    let few: Vec<(u64, u32)> = (0..12).map(|i| (i, 0)).collect();
    assert_eq!(shown_strips(&few), (0..12).collect::<Vec<usize>>());
    // Fourteen strips: two have to go, the last of the freshest without stalls.
    let mut many: Vec<(u64, u32)> = vec![(0, 5); 14];
    many[3] = (9, 0);
    many[13] = (0, 6);
    many[4] = (0, 4);
    let shown = shown_strips(&many);
    assert_eq!(shown, vec![0, 1, 2, 3, 5, 6, 7, 8, 9, 10, 11, 13]);
}

#[test]
fn the_table_of_ages() {
    let full: Vec<u32> = (0..200).collect();
    let rows = age_rows(&vec![full.clone(), Vec::new(), vec![7; 99], vec![3; 198], vec![3; 197]]);
    assert_eq!(
        rows,
        vec![
            AgeRow::Full { median: 99, p95: 189, p99: 197, n: 200, missing: None },
            AgeRow::Untimed,
            AgeRow::TooFew { n: 99, oldest: 7 },
            AgeRow::Full { median: 3, p95: 3, p99: 3, n: 198, missing: None },
            AgeRow::Full { median: 3, p95: 3, p99: 3, n: 197, missing: Some(3) },
        ]
    );
    // Without the proxy there is nothing to compare.
    assert_eq!(age_rows(&vec![vec![1], full.clone()]), vec![AgeRow::TooFew { n: 1, oldest: 1 }]);
    assert_eq!(age_rows(&vec![Vec::new(), full]).len(), 2);
    assert!(age_rows(&Vec::new()).is_empty());
}

#[test]
fn the_proxy_stands_against_the_best() {
    assert_eq!(standing(10, &vec![30, 7, 9], 0), Standing::Staler(3));
    assert_eq!(standing(5, &vec![30, 7, 9], 0), Standing::Fresher(2));
    assert_eq!(standing(7, &vec![30, 7, 9], 0), Standing::Level);
    assert_eq!(standing(10, &vec![7], 3), Standing::Level);
    assert_eq!(standing(11, &vec![7], 3), Standing::Staler(4));
    assert_eq!(standing(0, &vec![u32::MAX], 3), Standing::Fresher(u32::MAX));
}

#[test]
fn two_connections_to_one_node_give_the_floor() {
    assert_eq!([spread(7, 3), spread(3, 7), spread(5, 5)], [4, 4, 0]);
    assert_eq!(spread(0, u32::MAX), u32::MAX);
    // What is no further off than the floor counts for nothing.
    assert_eq!(standing(11, &vec![7], spread(3, 7)), Standing::Level);
}

#[test]
fn too_few_shared_messages_are_no_measure() {
    assert_eq!(matched(&vec![499, 0]), (499, Matched::TooFew));
    assert_eq!(matched(&vec![495, 5]), (500, Matched::Fair));
    assert_eq!(matched(&vec![494, 6]), (500, Matched::Floored));
}

#[test]
fn only_a_stall_of_its_own_counts_against_the_proxy() {
    let ours = stalling("BTC", 2 * SEC, SEC);
    // The node stalled with us at first, then went on.
    let node = stalling("BTC", SEC, 9 * SEC);
    let elsewhere = stalling("ETH", 2 * SEC, SEC);
    assert!(alone_stalls(&ours, &vec![node]).is_empty());
    assert_eq!(alone_stalls(&ours, &vec![elsewhere]), vec![(0, 0), (0, 1)]);
    let later = stalling("BTC", 4 * SEC, SEC);
    assert_eq!(alone_stalls(&later, &vec![stalling("BTC", SEC, SEC)]), vec![(0, 1)]);
}

#[test]
fn what_the_twin_says_of_inventions() {
    let mut v = Verdict::zero();
    assert_eq!(framing(&v), Framing::Unknown);
    v.twin_both = 10;
    assert_eq!(framing(&v), Framing::Clean);
    v.invented = 4;
    assert_eq!(framing(&v), Framing::Identical);
    v.node_only = 1;
    assert_eq!(framing(&v), Framing::Unsettled);
    v.twin_only = 1;
    assert_eq!(framing(&v), Framing::Explains);
    v.invented = 0;
    assert_eq!(framing(&v), Framing::Unsettled);

    v.matched = 20;
    v.invented = 1;
    assert!(!reads_elsewhere(&v));
    v.invented = 2;
    assert!(reads_elsewhere(&v));
}

#[test]
fn every_finding_fails_the_run() {
    let good = Findings { closed_early: false, violations: 0, climbing: false, alone: 0, lost: 0 };
    assert!(passed(&good));
    assert!(!passed(&Findings { closed_early: true, ..good }));
    assert!(!passed(&Findings { violations: 1, ..good }));
    assert!(!passed(&Findings { climbing: true, ..good }));
    assert!(!passed(&Findings { alone: 1, ..good }));
    assert!(!passed(&Findings { lost: 1, ..good }));
}
