//! The registry and the arbitration, driven the way the proxy drives them.

use serde_json::Value;
use std::collections::HashMap;
use wsarb::arbitration::{Ruling, Stamp};
use wsarb::client::{ClientMessage, Reply};
use wsarb::key::SubKey;
use wsarb::state::{reconnect_due, AppState, Source, SubscribeOutcome};
use wsarb::stats::WINDOW;
use wsarb::wire::SubRequest;

fn l2(coin: &str, sf: Option<u32>) -> SubKey {
    SubKey::L2Book { coin: coin.into(), n_sig_figs: sf, n_levels: None, mantissa: None }
}

fn l2diff(coin: &str) -> SubKey {
    SubKey::L2Diff { coin: coin.into(), n_sig_figs: None, n_levels: None, mantissa: None }
}

fn l4(coin: &str) -> SubKey {
    SubKey::L4Book { coin: coin.into() }
}

fn bbo(coin: &str) -> SubKey {
    SubKey::Bbo { coin: coin.into() }
}

fn text_field(v: &Value, name: &str) -> Option<String> {
    v.get(name).and_then(|x| x.as_str()).map(|s| s.to_string())
}

/// A subscription as a client spells it.
fn key_from(json: &str) -> Option<SubKey> {
    let v: Value = serde_json::from_str(json).ok()?;
    let coin = text_field(&v, "coin");
    let n_sig_figs = v.get("nSigFigs").and_then(|x| x.as_u64()).map(|n| n as u32);
    let n_levels = v.get("nLevels").and_then(|x| x.as_u64()).map(|n| n as usize);
    let mantissa = v.get("mantissa").and_then(|x| x.as_u64());
    match text_field(&v, "type")?.as_str() {
        "trades" => Some(SubKey::Trades { coin: coin? }),
        "l2Book" => Some(SubKey::L2Book { coin: coin?, n_sig_figs, n_levels, mantissa }),
        "l2Diff" => Some(SubKey::L2Diff { coin: coin?, n_sig_figs, n_levels, mantissa }),
        "l4Book" => Some(SubKey::L4Book { coin: coin? }),
        "bbo" => Some(SubKey::Bbo { coin: coin? }),
        "orderUpdates" => Some(SubKey::OrderUpdates { user: text_field(&v, "user")? }),
        "bookDiffs" => Some(SubKey::BookDiffs { coin: coin? }),
        _ => None,
    }
}

/// A proxy with its clients' queues: what has been sent and not yet read.
struct World {
    state: AppState,
    queues: HashMap<u64, Vec<String>>,
    clock: u64,
}

impl World {
    fn new(n: usize) -> World {
        let sources = (0..n).map(|id| Source::new(id, format!("ws://src{id}"))).collect();
        World { state: AppState::new(sources, None), queues: HashMap::new(), clock: 0 }
    }

    fn join(&mut self, ip: &str) -> u64 {
        self.state.register_client(ip.into(), self.clock)
    }

    fn subscribe(&mut self, client: u64, key: &SubKey) -> SubscribeOutcome {
        self.state.subscribe(client, key.clone(), self.clock)
    }

    fn frame(&mut self, src: usize, key: &SubKey, stamp: Stamp, payload: &str) -> Ruling {
        self.clock += 1_000_000;
        let u = self.state.on_update(src, key.clone(), stamp, payload, self.clock);
        for c in u.recipients {
            self.queues.entry(c).or_default().push(payload.to_string());
        }
        u.ruling
    }

    fn deliver(&mut self, key: &SubKey, client: u64, height: u64, snapshot: &str) {
        if let Some(texts) = self.state.deliver_snapshot(key, client, height, snapshot) {
            self.queues.entry(client).or_default().extend(texts);
        }
    }

    fn drain(&mut self, client: u64) -> Vec<String> {
        self.queues.remove(&client).unwrap_or_default()
    }

    fn wins(&self, src: usize) -> u64 {
        self.state.sources()[src].stats.totals().wins
    }

    fn stale(&self, src: usize) -> u64 {
        self.state.sources()[src].stats.totals().stale
    }

    fn duplicates(&self, src: usize) -> u64 {
        self.state.sources()[src].stats.totals().duplicates
    }
}

#[test]
fn l2book_params_are_part_of_identity() {
    assert_ne!(l2("BTC", None), l2("BTC", Some(3)));
    assert_eq!(l2("BTC", Some(3)), l2("BTC", Some(3)));
}

#[test]
fn subscription_round_trips_to_the_upstream_wire_format() {
    let key = key_from(r#"{"type":"l2Book","coin":"BTC"}"#).unwrap();
    assert_eq!(key, l2("BTC", None));
    assert_eq!(key.json(), r#"{"type":"l2Book","coin":"BTC"}"#);

    let req = SubRequest::Subscribe { subscription: &key }.json();
    assert_eq!(req, r#"{"method":"subscribe","subscription":{"type":"l2Book","coin":"BTC"}}"#);
}

#[test]
fn subscription_parameters_survive_the_round_trip() {
    for channel in ["l2Book", "l2Diff"] {
        let wire =
            format!(r#"{{"type":"{channel}","coin":"BTC","nSigFigs":3,"nLevels":1000,"mantissa":5}}"#);
        let key = key_from(&wire).expect(channel);
        assert_eq!(key.json(), wire, "{channel}");
    }
}

#[test]
fn every_channel_name_matches_the_upstream_spelling() {
    let cases = [
        (r#"{"type":"trades","coin":"BTC"}"#, "trades"),
        (r#"{"type":"l2Book","coin":"BTC"}"#, "l2Book"),
        (r#"{"type":"l4Book","coin":"BTC"}"#, "l4Book"),
        (r#"{"type":"bbo","coin":"BTC"}"#, "bbo"),
        (r#"{"type":"bookDiffs","coin":"BTC"}"#, "bookDiffs"),
        (r#"{"type":"orderUpdates","user":"0xabc"}"#, "orderUpdates"),
    ];
    for (json, channel) in cases {
        let key = key_from(json).unwrap_or_else(|| panic!("{json}"));
        assert_eq!(key.channel(), channel);
        assert_eq!(key.json(), json);
    }
}

#[test]
fn l2book_optional_params_survive_the_round_trip() {
    let json = r#"{"type":"l2Book","coin":"BTC","nSigFigs":3,"nLevels":50,"mantissa":5}"#;
    let key = key_from(json).unwrap();
    assert_eq!(
        key,
        SubKey::L2Book { coin: "BTC".into(), n_sig_figs: Some(3), n_levels: Some(50), mantissa: Some(5) }
    );
    assert_eq!(key.json(), json);
}

#[test]
fn user_addresses_key_case_insensitively() {
    let typed = key_from(r#"{"type":"orderUpdates","user":"0xABCdef"}"#).unwrap();
    let from_frame = SubKey::OrderUpdates { user: "0xabcdef".into() };
    assert_eq!(typed.normalized(), from_frame);
}

#[test]
fn the_leader_carries_the_whole_stream_not_just_a_stamp() {
    let mut w = World::new(2);
    let key = l2diff("BTC");
    let c = w.join("t");
    w.subscribe(c, &key);

    w.frame(0, &key, Stamp::Sticky(10), "10-a");
    w.frame(1, &key, Stamp::Sticky(10), "10-b"); // other book
    w.frame(0, &key, Stamp::Sticky(10), "10-a2"); // same stamp, next flush
    w.frame(1, &key, Stamp::Sticky(11), "11-b"); // ahead, still not ours
    w.frame(0, &key, Stamp::Sticky(11), "11-a");
    w.frame(0, &key, Stamp::Sticky(10), "10-a3"); // a replayed

    assert_eq!(w.drain(c), vec!["10-a", "10-a2", "11-a"]);
    assert_eq!(w.wins(1), 0);
    assert_eq!(w.stale(0), 1);
}

#[test]
fn a_reconnecting_source_does_not_steal_a_healthy_stream() {
    let mut w = World::new(2);
    let key = l2diff("BTC");
    let c = w.join("t");
    w.subscribe(c, &key);

    w.frame(0, &key, Stamp::Snapshot(10), "snap-a");
    w.frame(0, &key, Stamp::Sticky(11), "11-a");

    // B reconnects and snapshots, a block ahead of the leader.
    w.frame(1, &key, Stamp::Snapshot(12), "snap-b");
    w.frame(1, &key, Stamp::Sticky(13), "13-b");
    w.frame(0, &key, Stamp::Sticky(12), "12-a");

    assert_eq!(w.drain(c), vec!["snap-a", "11-a", "12-a"]);
    assert_eq!(w.wins(1), 0);
}

#[test]
fn losing_the_leader_parks_l2diff_clients_for_a_rebuild() {
    let mut w = World::new(2);
    let key = l2diff("BTC");
    let c = w.join("t");
    w.subscribe(c, &key);

    w.frame(0, &key, Stamp::Snapshot(10), "snap-a");
    w.frame(0, &key, Stamp::Sticky(12), "12-a");
    assert_eq!(w.drain(c), vec!["snap-a", "12-a"]);

    let work = w.state.resync_after_source_loss(0);
    assert_eq!(work.len(), 1);
    assert_eq!(work[0].0, key);

    // Parked until it has a snapshot of its own.
    w.frame(1, &key, Stamp::Snapshot(11), "snap-b");
    w.frame(1, &key, Stamp::Sticky(12), "12-b");
    assert!(w.drain(c).is_empty());
}

#[test]
fn one_source_carries_a_stamp_to_the_end() {
    let mut w = World::new(2);
    let key = l2("BTC", None);
    let c = w.join("t");
    w.subscribe(c, &key);

    w.frame(0, &key, Stamp::Lead(10), "10-a1"); // a takes stamp 10
    w.frame(1, &key, Stamp::Lead(10), "10-b1"); // b's own view, dropped
    w.frame(0, &key, Stamp::Lead(10), "10-a2"); // a's fresher snapshot
    w.frame(1, &key, Stamp::Lead(11), "11-b1"); // b takes stamp 11
    w.frame(0, &key, Stamp::Lead(11), "11-a1"); // a trails now
    w.frame(0, &key, Stamp::Lead(10), "10-a3"); // stale

    assert_eq!(w.drain(c), vec!["10-a1", "10-a2", "11-b1"]);
    assert_eq!(w.wins(0), 1);
    assert_eq!(w.wins(1), 1);
    assert_eq!(w.stale(0), 1);
}

#[test]
fn a_block_never_repeats_or_reorders_a_position() {
    let mut w = World::new(2);
    let key = l4("BTC");
    let c = w.join("t");
    w.subscribe(c, &key);

    w.frame(0, &key, Stamp::Block(10), "10-a1"); // a opens block 10
    w.frame(1, &key, Stamp::Block(10), "10-b1"); // b trails, dropped
    w.frame(0, &key, Stamp::Block(10), "10-a2"); // a continues
    w.frame(1, &key, Stamp::Block(11), "11-b1"); // b opens block 11
    w.frame(0, &key, Stamp::Block(11), "11-a1"); // a trails, dropped
    w.frame(0, &key, Stamp::Block(10), "10-a3"); // stale

    assert_eq!(w.drain(c), vec!["10-a1", "10-a2", "11-b1"]);
    assert_eq!(w.wins(0), 1);
    assert_eq!(w.wins(1), 1);
    assert_eq!(w.stale(0), 1);
}

#[test]
fn a_block_is_completed_by_whoever_is_still_alive() {
    let mut w = World::new(2);
    let key = l4("BTC");
    let c = w.join("t");
    w.subscribe(c, &key);

    w.frame(0, &key, Stamp::Block(10), "m1");
    w.frame(0, &key, Stamp::Block(10), "m2");
    w.frame(1, &key, Stamp::Block(10), "m1");
    w.frame(1, &key, Stamp::Block(10), "m2");
    assert_eq!(w.drain(c), vec!["m1", "m2"]);

    // Now `a` dies mid-block. `b` carries the block on from position three.
    w.frame(1, &key, Stamp::Block(10), "m3");
    w.frame(1, &key, Stamp::Block(10), "m4");
    assert_eq!(w.drain(c), vec!["m3", "m4"]);
}

#[test]
fn a_late_joiner_gets_its_snapshot_before_the_frames_held_behind_it() {
    let mut w = World::new(1);
    let key = l4("BTC");

    let first = w.join("first");
    assert_eq!(w.subscribe(first, &key), SubscribeOutcome::Fresh);

    w.frame(0, &key, Stamp::Block(10), "b10");

    // Joining mid-stream parks the client: it must see nothing live yet.
    let late = w.join("late");
    assert_eq!(w.subscribe(late, &key), SubscribeOutcome::Joined);

    w.frame(0, &key, Stamp::Block(11), "b11");
    w.frame(0, &key, Stamp::Block(12), "b12");
    assert!(w.drain(late).is_empty(), "held back until the snapshot lands");

    // Snapshot taken at height 11: block 11 is already baked into it and would be
    // applied twice, block 12 is not.
    w.deliver(&key, late, 11, "snap@11");
    assert_eq!(w.drain(late), vec!["snap@11", "b12"]);

    // ...and the client that was there first saw an unbroken stream.
    assert_eq!(w.drain(first), vec!["b10", "b11", "b12"]);
}

#[test]
fn a_quiet_market_is_not_mistaken_for_dead_sources() {
    let mut w = World::new(2);
    for src in 0..2 {
        w.state.source_connected(src);
    }
    // Silence is observed one window at a time, so the limit is one window.
    let limit = WINDOW;

    // Nobody has delivered at all yet: startup, or simply no subscribers.
    w.state.tick();
    assert!(w.state.silent_sources(limit).is_empty());

    // Both delivered, then both fell quiet together. That is the market, not a
    // fault.
    w.state.record_packet(0);
    w.state.record_packet(1);
    w.state.tick();
    w.state.tick();
    w.state.tick();
    assert!(w.state.silent_sources(limit).is_empty());

    // Only source 0 is still delivering, so source 1 really is the odd one.
    w.state.record_packet(0);
    w.state.tick();
    assert_eq!(w.state.silent_sources(limit), vec![1]);
}

#[test]
fn a_first_subscriber_is_never_parked() {
    let mut w = World::new(1);
    let key = l4("BTC");
    let c = w.join("t");

    // The upstream snapshot that opens the stream is this client's own.
    assert_eq!(w.subscribe(c, &key), SubscribeOutcome::Fresh);
    w.frame(0, &key, Stamp::Snapshot(10), "snap");
    assert_eq!(w.drain(c), vec!["snap"]);
}

#[test]
fn a_stalled_source_cannot_drag_clients_forward_after_a_resync() {
    let mut w = World::new(2);
    let key = l4("BTC");
    let c = w.join("t");
    w.subscribe(c, &key);

    // `a` is ahead and leading. `b` lags far behind.
    w.frame(0, &key, Stamp::Snapshot(1000), "snap@1000");
    w.frame(0, &key, Stamp::Block(1001), "a-1001");
    assert_eq!(w.drain(c), vec!["snap@1000", "a-1001"]);

    // `a` stalls. Its client is parked and rebuilt from `b`'s book at 950.
    let work = w.state.resync_after_source_loss(0);
    assert_eq!(work.len(), 1);
    w.deliver(&key, c, 950, "snap@950");
    assert_eq!(w.drain(c), vec!["snap@950"]);

    // `b` must now be able to drive the stream.
    w.frame(1, &key, Stamp::Block(951), "b-951");
    assert_eq!(w.drain(c), vec!["b-951"]);

    // `a` comes back mid-stream, far ahead of where the client now sits.
    w.frame(0, &key, Stamp::Block(1002), "a-1002");
    assert!(w.drain(c).is_empty());

    // ...until it snapshots again, which is a reset the client can act on.
    w.frame(0, &key, Stamp::Snapshot(1003), "snap@1003");
    assert_eq!(w.drain(c), vec!["snap@1003"]);
}

#[test]
fn bbo_updates_sharing_a_timestamp_all_reach_the_client() {
    let mut w = World::new(2);
    let key = bbo("BTC");
    let c = w.join("t");
    w.subscribe(c, &key);

    w.frame(0, &key, Stamp::Block(1000), "u1");
    w.frame(0, &key, Stamp::Block(1000), "u2");
    w.frame(0, &key, Stamp::Block(1000), "u3");
    assert_eq!(w.drain(c), vec!["u1", "u2", "u3"]);

    // The other source's copies of the same three are duplicates.
    w.frame(1, &key, Stamp::Block(1000), "u1");
    w.frame(1, &key, Stamp::Block(1000), "u2");
    assert!(w.drain(c).is_empty());

    // ...but it takes over the moment it passes what has gone out.
    w.frame(1, &key, Stamp::Block(1000), "u3");
    w.frame(1, &key, Stamp::Block(1000), "u4");
    assert_eq!(w.drain(c), vec!["u4"]);
}

#[test]
fn bbo_is_never_treated_as_incremental() {
    assert!(!SubKey::Bbo { coin: "BTC".into() }.is_incremental());

    let mut w = World::new(2);
    let key = bbo("BTC");
    let c = w.join("t");
    w.subscribe(c, &key);
    w.frame(0, &key, Stamp::Block(1000), "u1");

    assert!(w.state.resync_after_source_loss(0).is_empty(), "bbo must not be resynced");
}

#[test]
fn a_pinned_probe_outlives_its_clients() {
    let mut w = World::new(1);
    let key = bbo("BTC");
    w.state.pin(key.clone(), 0);

    let c = w.join("t");
    w.subscribe(c, &key);
    w.state.cleanup_client(c);

    // The probe exists to keep the arbitration counters moving with nobody
    // connected, so the last client leaving must not take it down.
    assert!(w.state.entry(&key).is_some_and(|e| e.upstream_subscribed));
    assert_eq!(w.state.subscribed_requests().len(), 1);
}

// ---------------------------------------------------------------------------

#[test]
fn every_ruling_has_its_frame() {
    let mut w = World::new(2);
    let trades = SubKey::Trades { coin: "BTC".into() };
    assert_eq!(w.frame(0, &trades, Stamp::Point(5), "x"), Ruling::Win);
    assert_eq!(w.frame(1, &trades, Stamp::Point(5), "x"), Ruling::Late(1_000_000));
    assert_eq!(w.frame(1, &trades, Stamp::Point(4), "x"), Ruling::Stale);
    let book = l4("BTC");
    assert_eq!(w.frame(0, &book, Stamp::Block(5), "x"), Ruling::Win);
    assert_eq!(w.frame(0, &book, Stamp::Block(5), "x"), Ruling::Further);
    assert_eq!(w.frame(1, &book, Stamp::Block(5), "x"), Ruling::Late(2_000_000));
    assert_eq!(w.frame(1, &book, Stamp::Block(5), "x"), Ruling::Repeat);
    // One sample per source per block, and each repeat of a point its own.
    assert_eq!(w.duplicates(1), 2);
    let t = w.state.sources()[1].stats.totals();
    assert_eq!((t.delay_sum_us, t.delay_count), (3000, 2));
    assert_eq!(w.state.sources()[1].stats.bucket(2), 1); // 1 ms, below 2 ms
    assert_eq!(w.state.sources()[1].stats.bucket(3), 1); // 2 ms, below 5 ms
}

#[test]
fn the_first_subscription_reaches_every_source_and_the_last_leaving_takes_it_back() {
    let mut w = World::new(2);
    let key = l2("BTC", Some(3));
    let (a, b) = (w.join("a"), w.join("b"));
    assert_eq!(w.subscribe(a, &key), SubscribeOutcome::Fresh);
    assert_eq!(w.subscribe(a, &key), SubscribeOutcome::Duplicate);
    assert_eq!(w.subscribe(b, &key), SubscribeOutcome::Joined);
    let sub = r#"{"method":"subscribe","subscription":{"type":"l2Book","coin":"BTC","nSigFigs":3}}"#;
    assert_eq!(w.state.take_ctrl(), vec![sub.to_string()]);

    assert!(w.state.unsubscribe(a, &key));
    assert!(!w.state.unsubscribe(a, &key));
    assert!(w.state.take_ctrl().is_empty());
    assert!(w.state.entry(&key).is_some());

    w.state.cleanup_client(b);
    let unsub = r#"{"method":"unsubscribe","subscription":{"type":"l2Book","coin":"BTC","nSigFigs":3}}"#;
    assert_eq!(w.state.take_ctrl(), vec![unsub.to_string()]);
    assert!(w.state.entry(&key).is_none());
    assert!(w.state.client(b).is_none());
    assert_eq!(w.state.client_ids(), vec![a]);
}

#[test]
fn contents_are_never_compared() {
    let run = |texts: [&str; 6]| -> Vec<Ruling> {
        let mut w = World::new(2);
        let key = l4("BTC");
        let frames = [(0, 5), (1, 5), (1, 5), (0, 5), (1, 6), (0, 5)];
        frames
            .iter()
            .zip(texts)
            .map(|((src, stamp), text)| w.frame(*src, &key, Stamp::Block(*stamp), text))
            .collect()
    };
    assert_eq!(run(["a", "b", "c", "d", "e", "f"]), run(["x", "x", "x", "x", "x", "x"]));
}

#[test]
fn subscriptions_add_up() {
    let mut w = World::new(1);
    let (a, b) = (w.join("a"), w.join("b"));
    w.subscribe(b, &bbo("BTC"));
    let keys = [bbo("BTC"), l4("BTC"), l2("ETH", None)];
    for (n, key) in keys.iter().enumerate() {
        w.subscribe(a, key);
        assert_eq!(w.state.client(a).unwrap().subscriptions(), keys[..=n].to_vec());
    }
    assert_eq!(w.state.entry(&bbo("BTC")).unwrap().following, vec![b, a]);
    // An update reaches every follower, once.
    let u = w.state.on_update(0, bbo("BTC"), Stamp::Lead(1), "x", 0);
    assert_eq!(u.recipients, vec![b, a]);
    let u = w.state.on_update(0, bbo("BTC"), Stamp::Lead(0), "x", 0);
    assert!(u.recipients.is_empty());
}

#[test]
fn only_incremental_channels_write_a_source_off() {
    let mut w = World::new(2);
    let orders = SubKey::OrderUpdates { user: "0x1".into() };
    for key in [&orders, &l4("BTC")] {
        w.frame(0, key, Stamp::Block(5), "x");
    }
    w.state.source_lost(0);
    assert_eq!(w.frame(0, &orders, Stamp::Block(6), "x"), Ruling::Win);
    assert_eq!(w.frame(0, &l4("BTC"), Stamp::Block(6), "x"), Ruling::Stale);
}

#[test]
fn different_parameters_are_different_streams() {
    let mut w = World::new(1);
    let (plain, banded) = (l2("BTC", None), l2("BTC", Some(3)));
    let (a, b) = (w.join("a"), w.join("b"));
    w.subscribe(a, &plain);
    w.subscribe(b, &banded);
    w.frame(0, &plain, Stamp::Sticky(1), "plain");
    w.frame(0, &banded, Stamp::Sticky(1), "banded");
    assert_eq!(w.drain(a), vec!["plain"]);
    assert_eq!(w.drain(b), vec!["banded"]);
    let mut requests = w.state.subscribed_requests();
    requests.sort();
    assert_eq!(
        requests,
        vec![
            r#"{"method":"subscribe","subscription":{"type":"l2Book","coin":"BTC","nSigFigs":3}}"#,
            r#"{"method":"subscribe","subscription":{"type":"l2Book","coin":"BTC"}}"#,
        ]
    );
    assert_eq!(w.state.keys().len(), 2);
}

#[test]
fn a_sticky_frame_is_held_for_those_who_wait() {
    let mut w = World::new(1);
    let key = l2diff("BTC");
    let first = w.join("first");
    w.subscribe(first, &key);
    w.frame(0, &key, Stamp::Snapshot(10), "snap");
    let late = w.join("late");
    w.subscribe(late, &key);
    w.frame(0, &key, Stamp::Sticky(11), "11");
    w.frame(0, &key, Stamp::Sticky(12), "12");
    w.deliver(&key, late, 11, "snap@11");
    assert_eq!(w.drain(late), vec!["snap@11", "12"]);
    w.frame(0, &key, Stamp::Sticky(13), "13");
    assert_eq!(w.drain(late), vec!["13"]);
}

#[test]
fn whoever_answers_carries_a_stream_that_nobody_carries() {
    let mut w = World::new(2);
    let key = l2diff("BTC");
    let c = w.join("t");
    w.subscribe(c, &key);
    w.frame(0, &key, Stamp::Snapshot(10), "snap-a");
    assert_eq!(w.state.source_lost(0).len(), 1);
    assert_eq!(w.state.entry(&key).unwrap().leader, None);
    let sent = w.state.deliver_snapshot_from(&key, c, 1, 9, "snap-b").unwrap();
    assert_eq!(sent, vec!["snap-b"]);
    assert_eq!(w.state.entry(&key).unwrap().leader, Some(1));
    // The other source does not take it: its increments are of another book.
    w.frame(0, &key, Stamp::Sticky(20), "20-a");
    assert_eq!(w.drain(c), vec!["snap-a"]);
    w.frame(1, &key, Stamp::Sticky(10), "10-b");
    assert_eq!(w.drain(c), vec!["10-b"]);

    // A raced stream has nobody to carry it.
    let book = l4("BTC");
    w.subscribe(c, &book);
    w.frame(0, &book, Stamp::Snapshot(10), "x");
    w.state.resync_after_source_loss(0);
    w.state.deliver_snapshot_from(&book, c, 1, 9, "y").unwrap();
    assert_eq!(w.state.entry(&book).unwrap().leader, None);
}

#[test]
fn a_dead_source_never_blocks_a_stream_of_whole_books() {
    let mut w = World::new(3);
    let key = l2("BTC", None);
    let c = w.join("t");
    w.subscribe(c, &key);
    assert_eq!(w.frame(0, &key, Stamp::Sticky(10), "10-a"), Ruling::Win);
    // Nobody is parked and nothing has to be fetched: a book is whole.
    assert!(w.state.resync_after_source_loss(0).is_empty());
    assert_eq!(w.state.entry(&key).unwrap().leader, None);
    assert!(!w.state.entry(&key).unwrap().is_rebuilding(c));
    assert_eq!(w.frame(1, &key, Stamp::Sticky(11), "11-b"), Ruling::Win);
    assert_eq!(w.drain(c), vec!["10-a", "11-b"]);
    // From there that source carries it, and the lost one is not written off.
    assert!(matches!(w.frame(0, &key, Stamp::Sticky(12), "12-a"), Ruling::Late(_)));
    assert!(w.state.source_lost(1).is_empty());
    assert_eq!(w.frame(0, &key, Stamp::Sticky(9), "9-a"), Ruling::Win);
    assert_eq!(w.drain(c), vec!["9-a"]);
    // The loss of a source that does not carry it changes nothing.
    w.state.source_lost(2);
    assert_eq!(w.state.entry(&key).unwrap().leader, Some(0));
}

#[test]
fn a_silent_source_lets_go_of_a_stream_of_whole_books() {
    let mut w = World::new(2);
    let (key, top) = (l2("BTC", None), bbo("BTC"));
    let c = w.join("t");
    w.subscribe(c, &key);
    w.subscribe(c, &top);
    w.frame(0, &key, Stamp::Sticky(10), "10-a");
    w.frame(0, &top, Stamp::Lead(10), "top-a");
    for src in 0..2 {
        w.state.source_connected(src);
        w.state.record_packet(src);
    }
    assert!(w.state.tick().is_empty());
    for _ in 0..3 {
        w.state.record_packet(1);
        w.state.tick();
    }
    assert_eq!(w.state.entry(&key).unwrap().leader, None);
    // Tops of book elect anew with each stamp and are left alone.
    assert_eq!(w.state.entry(&top).unwrap().leader, Some(0));
    assert_eq!(w.frame(1, &key, Stamp::Sticky(11), "11-b"), Ruling::Win);
    assert_eq!(w.drain(c), vec!["10-a", "top-a", "11-b"]);
}

#[test]
fn a_lost_source_stays_out_of_an_incremental_stream_until_it_sends_a_snapshot() {
    let mut w = World::new(2);
    let key = l2diff("BTC");
    let c = w.join("t");
    w.subscribe(c, &key);
    w.frame(0, &key, Stamp::Snapshot(10), "snap-a");
    w.state.resync_after_source_loss(0);
    w.deliver(&key, c, 9, "snap-b");
    // Its increments are of a book that the client no longer holds.
    assert_eq!(w.frame(0, &key, Stamp::Sticky(11), "11-a"), Ruling::Stale);
    assert_eq!(w.state.entry(&key).unwrap().leader, None);
    assert_eq!(w.drain(c), vec!["snap-a", "snap-b"]);
    assert_eq!(w.stale(0), 1);
    // With a snapshot of its own it is back.
    assert_eq!(w.frame(0, &key, Stamp::Snapshot(12), "snap-12"), Ruling::Win);
    assert_eq!(w.frame(0, &key, Stamp::Sticky(13), "13-a"), Ruling::Win);
    assert_eq!(w.drain(c), vec!["snap-12", "13-a"]);
}

#[test]
fn a_lost_source_that_answers_with_a_snapshot_is_in_play_again() {
    let mut w = World::new(2);
    let key = l2diff("BTC");
    let c = w.join("t");
    w.subscribe(c, &key);
    w.frame(0, &key, Stamp::Snapshot(10), "snap-a");
    w.state.resync_after_source_loss(0);
    assert_eq!(w.frame(0, &key, Stamp::Sticky(11), "11-a"), Ruling::Stale);
    w.state.deliver_snapshot_from(&key, c, 0, 12, "snap-12").unwrap();
    assert_eq!(w.state.entry(&key).unwrap().leader, Some(0));
    assert_eq!(w.frame(0, &key, Stamp::Sticky(13), "13-a"), Ruling::Win);
    assert_eq!(w.drain(c), vec!["snap-a", "13-a"]);
}

#[test]
fn every_position_of_every_block_reaches_a_follower_once() {
    let mut w = World::new(3);
    let key = l4("BTC");
    let c = w.join("t");
    w.subscribe(c, &key);
    let run: [(usize, u64, &str); 13] = [
        (0, 5, "5.1"),
        (1, 5, "late"),
        (0, 5, "5.2"),
        (2, 4, "old"),
        (1, 5, "repeat"),
        (1, 5, "5.3"),
        (2, 7, "7.1"),
        (0, 5, "old"),
        (0, 7, "late"),
        (2, 7, "7.2"),
        (0, 7, "repeat"),
        (0, 7, "7.3"),
        (1, 8, "8.1"),
    ];
    for (src, stamp, text) in run {
        let ruling = w.frame(src, &key, Stamp::Block(stamp), text);
        match text {
            "late" => assert!(matches!(ruling, Ruling::Late(_))),
            "repeat" => assert_eq!(ruling, Ruling::Repeat),
            "old" => assert_eq!(ruling, Ruling::Stale),
            _ => assert!(ruling == Ruling::Win || ruling == Ruling::Further),
        }
    }
    assert_eq!(w.drain(c), vec!["5.1", "5.2", "5.3", "7.1", "7.2", "7.3", "8.1"]);
    assert_eq!([w.duplicates(0), w.duplicates(1), w.duplicates(2)], [1, 1, 0]);
    assert_eq!([w.stale(0), w.stale(1), w.stale(2)], [1, 0, 1]);
}

#[test]
fn a_client_that_gets_no_snapshot_is_given_up_on() {
    let mut w = World::new(1);
    let key = l4("BTC");
    let (a, b) = (w.join("a"), w.join("b"));
    w.subscribe(a, &key);
    w.subscribe(b, &key);
    assert!(w.state.entry(&key).unwrap().is_rebuilding(b));
    assert!(!w.state.fail_pending(&key, a));
    assert!(w.state.fail_pending(&key, b));
    assert!(!w.state.fail_pending(&key, b));
    assert!(w.state.deliver_snapshot(&key, b, 1, "x").is_none());
    assert!(w.state.deliver_snapshot(&l4("ETH"), b, 1, "x").is_none());
}

#[test]
fn a_backlog_over_the_cap_costs_the_client_its_place() {
    let mut w = World::new(1);
    let key = l4("BTC");
    let (a, b) = (w.join("a"), w.join("b"));
    w.subscribe(a, &key);
    w.subscribe(b, &key);
    let big = "x".repeat(40 * 1024 * 1024);
    w.clock += 1;
    let u = w.state.on_update(0, key.clone(), Stamp::Block(1), &big, w.clock);
    assert!(u.overflowed.is_empty());
    assert_eq!(u.recipients, vec![a]);
    let u = w.state.on_update(0, key.clone(), Stamp::Block(2), &big, w.clock);
    assert_eq!(u.overflowed, vec![b]);
    assert!(u.incremental);
    assert!(!w.state.entry(&key).unwrap().is_rebuilding(b));
}

#[test]
fn a_full_queue_is_counted_and_fatal_only_on_an_incremental_channel() {
    let mut w = World::new(1);
    let c = w.join("t");
    assert!(!w.state.queue_full(c, false));
    assert!(w.state.queue_full(c, true));
    w.state.sent(c, 17);
    w.state.sent(c, 3);
    let record = w.state.client(c).unwrap();
    assert_eq!((record.dropped(), record.bytes_sent()), (2, 20));
    assert_eq!((record.id(), record.ip(), record.connected_at()), (c, "t", 0));
    assert_eq!(c, 1);
    assert_eq!(w.state.next_client_id(), 2);
}

#[test]
fn a_silent_source_is_bounced_once_and_then_rarely() {
    assert!(!reconnect_due(0));
    assert!(!reconnect_due(5));
    assert!(reconnect_due(6));
    assert!(!reconnect_due(7));
    assert!(!reconnect_due(60));
    assert!(reconnect_due(66));
    assert!(reconnect_due(126));
}

#[test]
fn a_tick_parks_the_followers_of_a_silent_leader() {
    let mut w = World::new(2);
    let key = l4("BTC");
    let c = w.join("t");
    w.subscribe(c, &key);
    for src in 0..2 {
        w.state.source_connected(src);
        w.state.record_packet(src);
    }
    w.frame(1, &key, Stamp::Snapshot(10), "snap");
    assert!(w.state.tick().is_empty());
    let mut bounced = Vec::new();
    for n in 1..=8u64 {
        w.state.record_packet(0);
        let silent = w.state.tick();
        // Within the limit for one window, over it from the second on.
        assert_eq!(silent.len(), usize::from(n >= 2));
        for s in silent {
            assert_eq!(s.source, 1);
            assert_eq!(s.work.len(), usize::from(n == 2));
            if n == 2 {
                assert_eq!(s.work[0], (l4("BTC"), c));
            }
            if s.reconnect {
                bounced.push(n);
            }
        }
    }
    assert_eq!(bounced, vec![6]);
    assert_eq!(w.state.sources()[1].stats.silent_windows(), 8);
    assert_eq!(w.state.sources()[1].stats.idle_for(), Some(40));
}

#[test]
fn windows_report_what_was_counted_in_them() {
    let mut w = World::new(1);
    assert_eq!(w.state.sources()[0].stats.idle_for(), None);
    for _ in 0..3 {
        w.state.record_packet(0);
    }
    w.state.tick();
    assert_eq!(w.state.sources()[0].stats.window().packets, 3);
    assert_eq!(w.state.sources()[0].stats.idle_for(), Some(0));
    w.state.record_packet(0);
    w.state.tick();
    assert_eq!(w.state.sources()[0].stats.window().packets, 1);
    assert_eq!(w.state.sources()[0].stats.totals().packets, 4);
    w.state.tick();
    assert_eq!(w.state.sources()[0].stats.window().packets, 0);
    assert_eq!(w.state.sources()[0].stats.silent_windows(), 1);
}

#[test]
fn a_lost_connection_is_counted() {
    let mut w = World::new(1);
    w.state.source_connected(0);
    assert!(w.state.sources()[0].stats.connected());
    w.state.source_lost(0);
    assert!(!w.state.sources()[0].stats.connected());
    assert_eq!(w.state.sources()[0].stats.disconnects(), 1);
}

#[test]
fn requests_are_answered() {
    let mut w = World::new(1);
    let c = w.join("t");
    match w.state.handle_request(c, ClientMessage::Ping, 0) {
        Reply::Pong(text) => assert_eq!(text, r#"{"channel":"pong"}"#),
        _ => panic!("a ping is answered"),
    }
    let subscribe = |coin: &str| ClientMessage::Subscribe { subscription: l4(coin) };
    match w.state.handle_request(c, subscribe("BTC"), 0) {
        Reply::Subscribed { key, outcome, ack, fetch } => {
            assert_eq!(key, l4("BTC"));
            assert_eq!(outcome, SubscribeOutcome::Fresh);
            assert!(!fetch);
            assert_eq!(
                ack,
                r#"{"channel":"subscriptionResponse","data":{"method":"subscribe","subscription":{"coin":"BTC","type":"l4Book"}}}"#
            );
        }
        _ => panic!("subscribed"),
    }
    let other = w.join("u");
    match w.state.handle_request(other, subscribe("BTC"), 0) {
        Reply::Subscribed { outcome, fetch, .. } => {
            assert_eq!(outcome, SubscribeOutcome::Joined);
            assert!(fetch);
        }
        _ => panic!("subscribed"),
    }
    // A whole book on every frame needs no snapshot.
    let whole = || ClientMessage::Subscribe {
        subscription: SubKey::L2Book { coin: "BTC".into(), n_sig_figs: None, n_levels: Some(20), mantissa: Some(2) },
    };
    w.state.handle_request(c, whole(), 0);
    match w.state.handle_request(other, whole(), 0) {
        Reply::Subscribed { key, outcome, ack, fetch } => {
            // The default depth is folded away.
            assert_eq!(
                key,
                SubKey::L2Book { coin: "BTC".into(), n_sig_figs: None, n_levels: None, mantissa: Some(2) }
            );
            assert_eq!(outcome, SubscribeOutcome::Joined);
            assert!(!fetch);
            assert_eq!(
                ack,
                r#"{"channel":"subscriptionResponse","data":{"method":"subscribe","subscription":{"coin":"BTC","mantissa":2,"type":"l2Book"}}}"#
            );
        }
        _ => panic!("subscribed"),
    }
    let refused = ClientMessage::Subscribe { subscription: SubKey::BookDiffs { coin: "BTC".into() } };
    match w.state.handle_request(c, refused, 0) {
        Reply::Refused(key, reason) => {
            assert_eq!(key, SubKey::BookDiffs { coin: "BTC".into() });
            assert_eq!(
                reason,
                "bookDiffs carries no sequence to arbitrate on; subscribe to l4Book for the same diffs"
            );
        }
        _ => panic!("refused"),
    }
    let leave = || ClientMessage::Unsubscribe { subscription: SubKey::OrderUpdates { user: "0xAB".into() } };
    match w.state.handle_request(c, leave(), 0) {
        Reply::NotHeld(key) => assert_eq!(key, SubKey::OrderUpdates { user: "0xab".into() }),
        _ => panic!("not held"),
    }
    w.state.handle_request(
        c,
        ClientMessage::Subscribe { subscription: SubKey::OrderUpdates { user: "0xaB".into() } },
        0,
    );
    match w.state.handle_request(c, leave(), 0) {
        Reply::Unsubscribed { ack, .. } => assert_eq!(
            ack,
            r#"{"channel":"subscriptionResponse","data":{"method":"unsubscribe","subscription":{"type":"orderUpdates","user":"0xab"}}}"#
        ),
        _ => panic!("unsubscribed"),
    }
}

#[test]
fn text_in_a_key_is_escaped_on_the_wire() {
    let key = SubKey::Bbo { coin: "a\"b\\c\n\u{1}é".into() };
    assert_eq!(key.json(), "{\"type\":\"bbo\",\"coin\":\"a\\\"b\\\\c\\n\\u0001é\"}");
    // The outside parser reads back what was written.
    let v: Value = serde_json::from_str(&key.json()).unwrap();
    assert_eq!(v.get("coin").and_then(|c| c.as_str()), Some("a\"b\\c\n\u{1}é"));
}

#[test]
fn every_character_is_spelled_in_json() {
    for c in ('\0'..='\u{2ff}').chain(['\u{7f}', '\u{2028}', '\u{10ffff}']) {
        let spelled = match c {
            '"' => "\\\"".to_string(),
            '\\' => "\\\\".to_string(),
            '\n' => "\\n".to_string(),
            '\r' => "\\r".to_string(),
            '\t' => "\\t".to_string(),
            '\u{8}' => "\\b".to_string(),
            '\u{c}' => "\\f".to_string(),
            c if (c as u32) < 32 => format!("\\u{:04x}", c as u32),
            c => c.to_string(),
        };
        let key = SubKey::Trades { coin: c.to_string() };
        assert_eq!(key.json(), format!("{{\"type\":\"trades\",\"coin\":\"{spelled}\"}}"));
    }
}

#[test]
fn distinct_subscriptions_have_distinct_texts() {
    let mut keys = vec![
        SubKey::Trades { coin: "a".into() },
        SubKey::Bbo { coin: "a".into() },
        SubKey::L4Book { coin: "a".into() },
        SubKey::BookDiffs { coin: "a".into() },
        SubKey::OrderUpdates { user: "a".into() },
        SubKey::Bbo { coin: "a\"".into() },
        SubKey::Bbo { coin: "a\\".into() },
        SubKey::Bbo { coin: "a\",\"nLevels\":1".into() },
    ];
    for n_sig_figs in [None, Some(1), Some(12)] {
        for n_levels in [None, Some(1), Some(2)] {
            for mantissa in [None, Some(1), Some(2)] {
                keys.push(SubKey::L2Book { coin: "a".into(), n_sig_figs, n_levels, mantissa });
                keys.push(SubKey::L2Diff { coin: "a".into(), n_sig_figs, n_levels, mantissa });
            }
        }
    }
    for (i, a) in keys.iter().enumerate() {
        for (j, b) in keys.iter().enumerate() {
            assert_eq!(a.json() == b.json(), i == j);
            let ask = SubRequest::Subscribe { subscription: a }.json();
            assert_eq!(ask == SubRequest::Subscribe { subscription: b }.json(), i == j);
            assert_ne!(ask, SubRequest::Unsubscribe { subscription: b }.json());
        }
        // The outside parser takes what is written, and reads the key back.
        assert_eq!(key_from(&a.json()).as_ref(), Some(a));
    }
}

#[test]
fn acknowledgements_are_spelled_as_the_outside_serialiser_spells_them() {
    let mut w = World::new(1);
    let c = w.join("t");
    for n_levels in [None, Some(7)] {
        let subscription =
            SubKey::L2Diff { coin: "é\"".into(), n_sig_figs: Some(5), n_levels, mantissa: Some(2) };
        match w.state.handle_request(c, ClientMessage::Subscribe { subscription }, 0) {
            Reply::Subscribed { ack, .. } => {
                let v: Value = serde_json::from_str(&ack).unwrap();
                assert_eq!(v.to_string(), ack);
            }
            _ => panic!("subscribed"),
        }
    }
}

#[test]
fn labels_are_short() {
    assert_eq!(bbo("BTC").label(), "bbo:BTC");
    assert_eq!(SubKey::OrderUpdates { user: "0x12345678".into() }.label(), "orderUpdates:0x12345678");
    assert_eq!(
        SubKey::OrderUpdates { user: "0x123456789abcdef".into() }.label(),
        "orderUpdates:0x1234…cdef"
    );
    assert_eq!(
        SubKey::L2Diff { coin: "BTC".into(), n_sig_figs: Some(3), n_levels: Some(50), mantissa: Some(5) }.label(),
        "l2Diff:BTC/sf3/n50/m5"
    );
    // A cut that would fall inside a character is not made.
    let odd = SubKey::OrderUpdates { user: "aaaaaéaaaaaa".into() };
    assert!(!odd.can_label());
    assert!(SubKey::OrderUpdates { user: "é".into() }.can_label());
}

#[test]
fn normal_forms_are_fixed_points() {
    let keys = [
        SubKey::OrderUpdates { user: "0xABCÉ".into() },
        SubKey::L2Book { coin: "BTC".into(), n_sig_figs: None, n_levels: Some(20), mantissa: None },
        SubKey::L2Diff { coin: "BTC".into(), n_sig_figs: Some(1), n_levels: Some(21), mantissa: None },
        l4("BTC"),
    ];
    for key in keys {
        let once = key.clone().normalized();
        assert_eq!(once.clone().normalized(), once);
    }
    assert_eq!(
        SubKey::OrderUpdates { user: "0xABCÉ".into() }.normalized(),
        SubKey::OrderUpdates { user: "0xabcÉ".into() }
    );
}
