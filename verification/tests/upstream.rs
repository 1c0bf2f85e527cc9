//! Frames as the sources send them: where they go, and whether they count.

use serde_json::Value;
use wsarb::arbitration::{Ruling, Stamp};
use wsarb::key::SubKey;
use wsarb::state::{AppState, Source};
use wsarb::upstream::{
    after_answer, block_time_ms, freshness, link_action, route, snapshot_for, Backoff, CoinOnly,
    CoinTime, Frame, Freshness, Handled, L2DiffFrame, L2DiffHead, L2Head, L4Frame, L4Updates,
    LinkAction, LinkEvent, OrderUpdateHead, Search, StatusHead, TradeHead, FUTURE_LIMIT,
};

fn text_of(v: &Value, name: &str) -> Option<String> {
    v.get(name).and_then(|x| x.as_str()).map(|s| s.to_string())
}

fn number_of(v: &Value, name: &str) -> Option<u64> {
    v.get(name).and_then(|x| x.as_u64())
}

fn diff_head(v: &Value) -> Option<L2DiffHead> {
    Some(L2DiffHead {
        coin: text_of(v, "coin")?,
        height: number_of(v, "height")?,
        n_sig_figs: number_of(v, "nSigFigs").map(|n| n as u32),
        n_levels: number_of(v, "nLevels").map(|n| n as usize),
        mantissa: number_of(v, "mantissa"),
    })
}

fn l4_frame(v: &Value) -> Option<L4Frame> {
    if let Some(s) = v.get("Snapshot") {
        return Some(L4Frame::Snapshot { coin: text_of(s, "coin")?, height: number_of(s, "height")? });
    }
    let u = v.get("Updates")?;
    let mut order_statuses = Vec::new();
    for s in u.get("order_statuses")?.as_array()? {
        order_statuses.push(StatusHead { order: CoinOnly { coin: text_of(s.get("order")?, "coin")? } });
    }
    let mut book_diffs = Vec::new();
    for d in u.get("book_diffs")?.as_array()? {
        book_diffs.push(CoinOnly { coin: text_of(d, "coin")? });
    }
    Some(L4Frame::Updates(L4Updates { height: number_of(u, "height")?, order_statuses, book_diffs }))
}

/// The head of a frame.
fn frame_of(text: &str) -> Option<Frame> {
    let v: Value = serde_json::from_str(text).ok()?;
    let data = v.get("data");
    match text_of(&v, "channel")?.as_str() {
        "bbo" => Some(Frame::Bbo(CoinTime { coin: text_of(data?, "coin")?, time: number_of(data?, "time")? })),
        "l2Book" => Some(Frame::L2Book(L2Head {
            coin: text_of(data?, "coin")?,
            time: number_of(data?, "time")?,
            n_sig_figs: number_of(data?, "nSigFigs").map(|n| n as u32),
            n_levels: number_of(data?, "nLevels").map(|n| n as usize),
            mantissa: number_of(data?, "mantissa"),
        })),
        "trades" => {
            let mut trades = Vec::new();
            for t in data?.as_array()? {
                trades.push(TradeHead { coin: text_of(t, "coin")?, tid: number_of(t, "tid")? });
            }
            Some(Frame::Trades(trades))
        }
        "orderUpdates" => {
            let mut updates = Vec::new();
            for u in data?.as_array()? {
                updates.push(OrderUpdateHead { user: text_of(u, "user")?, height: number_of(u, "height")? });
            }
            Some(Frame::OrderUpdates(updates))
        }
        "l4Book" => Some(Frame::L4Book(l4_frame(data?)?)),
        "l2Diff" => match (data?.get("Snapshot"), data?.get("Updates")) {
            (Some(s), _) => Some(Frame::L2Diff(L2DiffFrame::Snapshot(diff_head(s)?))),
            (_, Some(u)) => Some(Frame::L2Diff(L2DiffFrame::Updates(diff_head(u)?))),
            _ => None,
        },
        "error" => Some(Frame::Error(data?.as_str()?.to_string())),
        _ => None,
    }
}

fn key_of(text: &str) -> Option<(SubKey, u64, &'static str)> {
    let (key, stamp) = route(frame_of(text)?)?;
    Some(match stamp {
        Stamp::Point(v) => (key, v, "point"),
        Stamp::Block(v) => (key, v, "block"),
        Stamp::Snapshot(v) => (key, v, "snapshot"),
        Stamp::Lead(v) => (key, v, "lead"),
        Stamp::Sticky(v) => (key, v, "sticky"),
    })
}

fn unix_ms() -> u64 {
    std::time::SystemTime::now()
        .duration_since(std::time::UNIX_EPOCH)
        .map_or(0, |d| d.as_millis() as u64)
}

#[test]
fn l2diff_frames_route_by_key_and_kind() {
    // `nLevels` 20 is the upstream's own default, stamped into every frame it
    // sends back, so it has to fold away exactly as it does for l2Book.
    let snap = r#"{"channel":"l2Diff","data":{"Snapshot":{"coin":"BTC","time":1,"height":7,"nLevels":20,"levels":[[],[]]}}}"#;
    let (key, h, kind) = key_of(snap).unwrap();
    assert_eq!(key, SubKey::L2Diff { coin: "BTC".into(), n_sig_figs: None, n_levels: None, mantissa: None });
    assert_eq!((h, kind), (7, "snapshot"));

    let upd = r#"{"channel":"l2Diff","data":{"Updates":{"coin":"BTC","time":2,"height":8,"prevHeight":7,"nLevels":1000,"bids":{"upd":[],"del":[]},"asks":{"upd":[],"del":[]}}}}"#;
    let (key, h, kind) = key_of(upd).unwrap();
    assert_eq!(key, SubKey::L2Diff { coin: "BTC".into(), n_sig_figs: None, n_levels: Some(1000), mantissa: None });
    assert_eq!((h, kind), (8, "sticky"));
}

#[test]
fn a_stamp_in_the_future_is_refused() {
    let now = unix_ms();
    let ahead = format!(r#"{{"channel":"bbo","data":{{"coin":"BTC","time":{},"bid":null,"ask":null}}}}"#, now + 60_000);
    let t = block_time_ms(&ahead).expect("a numeric time");
    assert!(t > now && t - now > FUTURE_LIMIT);

    // A frame a couple of hundred milliseconds behind, the normal case, must not
    // trip it.
    let normal = format!(r#"{{"channel":"bbo","data":{{"coin":"BTC","time":{},"bid":null,"ask":null}}}}"#, now - 200);
    let t = block_time_ms(&normal).expect("a numeric time");
    assert!(t <= now);
}

#[test]
fn bbo_routes_by_coin_and_time() {
    let (key, stamp, kind) =
        key_of(r#"{"channel":"bbo","data":{"coin":"BTC","time":7,"bid":null,"ask":null}}"#).unwrap();
    assert_eq!(key, SubKey::Bbo { coin: "BTC".into() });
    assert_eq!(stamp, 7);
    // Led, not raced.
    assert_eq!(kind, "lead");
}

#[test]
fn l2book_frame_rebuilds_the_exact_subscription_key() {
    let plain = r#"{"channel":"l2Book","data":{"coin":"BTC","time":1,"nLevels":20,"levels":[[],[]]}}"#;
    let (key, _, _) = key_of(plain).unwrap();
    assert_eq!(key, SubKey::L2Book { coin: "BTC".into(), n_sig_figs: None, n_levels: None, mantissa: None });

    let banded = r#"{"channel":"l2Book","data":{"coin":"BTC","time":1,"nSigFigs":3,"nLevels":50,"mantissa":5,"levels":[[],[]]}}"#;
    let (key, _, kind) = key_of(banded).unwrap();
    assert_eq!(
        key,
        SubKey::L2Book { coin: "BTC".into(), n_sig_figs: Some(3), n_levels: Some(50), mantissa: Some(5) }
    );
    assert_eq!(kind, "sticky");
}

#[test]
fn trades_order_by_the_newest_id_in_the_batch() {
    let text = r#"{"channel":"trades","data":[
        {"coin":"BTC","side":"A","px":"1","sz":"1","time":10,"hash":"0x","tid":100,"users":["0x1","0x2"]},
        {"coin":"BTC","side":"A","px":"1","sz":"1","time":11,"hash":"0x","tid":300,"users":["0x1","0x2"]},
        {"coin":"BTC","side":"A","px":"1","sz":"1","time":12,"hash":"0x","tid":200,"users":["0x1","0x2"]}
    ]}"#;
    let (key, stamp, _) = key_of(text).unwrap();
    assert_eq!(key, SubKey::Trades { coin: "BTC".into() });
    assert_eq!(stamp, 300);
}

#[test]
fn order_updates_route_by_lowercased_user() {
    let text = r#"{"channel":"orderUpdates","data":[{"user":"0xABCD","time":1,"height":42,"order_status":{}}]}"#;
    let (key, stamp, kind) = key_of(text).unwrap();
    assert_eq!(key, SubKey::OrderUpdates { user: "0xabcd".into() });
    assert_eq!(stamp, 42);
    // `height` is the block's and every batch in it repeats it.
    assert_eq!(kind, "block");
}

#[test]
fn l4book_snapshot_routes_by_its_own_coin() {
    let text = r#"{"channel":"l4Book","data":{"Snapshot":{"coin":"BTC","time":1,"height":900,"levels":[[],[]]}}}"#;
    let (key, stamp, kind) = key_of(text).unwrap();
    assert_eq!(key, SubKey::L4Book { coin: "BTC".into() });
    assert_eq!(stamp, 900);
    // A snapshot is a reset, not an increment.
    assert_eq!(kind, "snapshot");
}

#[test]
fn l4book_updates_recover_the_coin_from_whichever_array_is_filled() {
    // Statuses branch: book_diffs is empty.
    let by_status = r#"{"channel":"l4Book","data":{"Updates":{"time":1,"height":901,
        "order_statuses":[{"time":"t","user":"0x1","status":"open","order":{"coin":"ETH","side":"B"}}],
        "book_diffs":[]}}}"#;
    let (key, stamp, kind) = key_of(by_status).unwrap();
    assert_eq!(key, SubKey::L4Book { coin: "ETH".into() });
    assert_eq!(stamp, 901);
    assert_eq!(kind, "block");

    // Diffs branch: order_statuses is empty.
    let by_diff = r#"{"channel":"l4Book","data":{"Updates":{"time":1,"height":902,
        "order_statuses":[],
        "book_diffs":[{"user":"0x1","oid":5,"px":"1","coin":"SOL","raw_book_diff":{}}]}}}"#;
    let (key, stamp, _) = key_of(by_diff).unwrap();
    assert_eq!(key, SubKey::L4Book { coin: "SOL".into() });
    assert_eq!(stamp, 902);
}

#[test]
fn frames_we_do_not_route_are_ignored_quietly() {
    assert!(key_of(r#"{"channel":"pong"}"#).is_none());
    assert!(key_of(
        r#"{"channel":"subscriptionResponse","data":{"method":"subscribe","subscription":{"type":"l2Book","coin":"BTC"}}}"#
    )
    .is_none());
}

// ---------------------------------------------------------------------------

#[test]
fn empty_batches_belong_to_nobody() {
    assert!(route(Frame::Trades(Vec::new())).is_none());
    assert!(route(Frame::OrderUpdates(Vec::new())).is_none());
    let neither = L4Updates { height: 1, order_statuses: Vec::new(), book_diffs: Vec::new() };
    assert!(route(Frame::L4Book(L4Frame::Updates(neither))).is_none());
    assert!(route(Frame::Error("no".into())).is_none());
}

#[test]
fn a_trade_batch_is_ordered_as_a_point() {
    let text = r#"{"channel":"trades","data":[{"coin":"ETH","tid":4}]}"#;
    assert_eq!(key_of(text), Some((SubKey::Trades { coin: "ETH".into() }, 4, "point")));
}

#[test]
fn the_block_time_is_the_first_numeric_time() {
    assert_eq!(block_time_ms(r#"{"time":12,"x":{"time":99}}"#), Some(12));
    // A date string settles nothing, and the search does not go on.
    assert_eq!(block_time_ms(r#"{"time":"t","y":{"time":99}}"#), None);
    assert_eq!(block_time_ms(r#"{"height":1}"#), None);
    assert_eq!(block_time_ms(""), None);
    assert_eq!(block_time_ms("\"time\":"), None);
    assert_eq!(block_time_ms("\"time\":7"), Some(7));
    assert_eq!(block_time_ms("\"time\":18446744073709551615}"), Some(u64::MAX));
    assert_eq!(block_time_ms("\"time\":18446744073709551616}"), None);
    assert_eq!(block_time_ms("\"time\":00018446744073709551615}"), Some(u64::MAX));
    assert_eq!(block_time_ms("é\"time\":5é"), Some(5));
    assert_eq!(block_time_ms("\"time\":-5"), None);
}

#[test]
fn freshness_is_judged_by_the_clock() {
    assert_eq!(freshness(None, 0, Some(0)), Freshness::Fresh);
    assert_eq!(freshness(Some(5000), 0, None), Freshness::Fresh);
    assert_eq!(freshness(Some(5001), 0, None), Freshness::FromFuture(5001));
    assert_eq!(freshness(Some(0), 5000, None), Freshness::Fresh);
    assert_eq!(freshness(Some(100), 1100, Some(1000)), Freshness::Fresh);
    assert_eq!(freshness(Some(100), 1101, Some(1000)), Freshness::TooOld(1001));
    assert_eq!(freshness(Some(u64::MAX), 1, Some(1)), Freshness::FromFuture(u64::MAX - 1));
    assert_eq!(freshness(Some(1), u64::MAX, Some(u64::MAX)), Freshness::Fresh);
}

fn proxy(n: usize, max_age: Option<u64>) -> AppState {
    AppState::new((0..n).map(|id| Source::new(id, format!("ws://src{id}"))).collect(), max_age)
}

fn bbo_frame(time: u64) -> (Frame, String) {
    (
        Frame::Bbo(CoinTime { coin: "BTC".into(), time }),
        format!(r#"{{"channel":"bbo","data":{{"coin":"BTC","time":{time},"bid":null,"ask":null}}}}"#),
    )
}

#[test]
fn every_fate_of_a_frame() {
    let mut state = proxy(1, Some(1000));
    let key = SubKey::Bbo { coin: "BTC".into() };

    match state.handle_frame(0, Frame::Error("Already subscribed".into()), "", 0, 0) {
        Handled::Rejected(msg) => assert_eq!(msg, "Already subscribed"),
        _ => panic!("rejected"),
    }
    assert!(matches!(state.handle_frame(0, Frame::Trades(Vec::new()), "", 0, 0), Handled::Unrouted));

    let (frame, text) = bbo_frame(100_000);
    match state.handle_frame(0, frame, &text, 0, 90_000) {
        Handled::FromFuture(k, ahead) => assert_eq!((k, ahead), (key.clone(), 10_000)),
        _ => panic!("from the future"),
    }
    let (frame, text) = bbo_frame(100_000);
    match state.handle_frame(0, frame, &text, 0, 101_001) {
        Handled::TooOld(k, age) => assert_eq!((k, age), (key.clone(), 1001)),
        _ => panic!("too old"),
    }
    // Neither has touched the key's ordering.
    let (frame, text) = bbo_frame(99_999);
    match state.handle_frame(0, frame, &text, 0, 100_500) {
        Handled::Ruled(u) => assert_eq!(u.ruling, Ruling::Win),
        _ => panic!("ruled on"),
    }
    let stats = &state.sources()[0].stats;
    assert_eq!((stats.from_future(), stats.too_old(), stats.totals().wins), (1, 1, 1));
}

#[test]
fn old_frames_count_where_no_limit_is_set() {
    let mut state = proxy(1, None);
    let (frame, text) = bbo_frame(1);
    assert!(matches!(state.handle_frame(0, frame, &text, 0, u64::MAX), Handled::Ruled(_)));
}

#[test]
fn a_snapshot_answers_only_the_key_that_was_asked_for() {
    let btc = SubKey::L4Book { coin: "BTC".into() };
    let snap = || Frame::L4Book(L4Frame::Snapshot { coin: "BTC".into(), height: 9 });
    assert_eq!(snapshot_for(snap(), &btc), Some(9));
    assert_eq!(snapshot_for(snap(), &SubKey::L4Book { coin: "ETH".into() }), None);
    let update = Frame::L4Book(L4Frame::Updates(L4Updates {
        height: 10,
        order_statuses: Vec::new(),
        book_diffs: vec![CoinOnly { coin: "BTC".into() }],
    }));
    assert_eq!(snapshot_for(update, &btc), None);
    assert_eq!(snapshot_for(Frame::Error("x".into()), &btc), None);
    let diff = Frame::L2Diff(L2DiffFrame::Snapshot(L2DiffHead {
        coin: "BTC".into(),
        height: 11,
        n_sig_figs: None,
        n_levels: Some(20),
        mantissa: None,
    }));
    let key = SubKey::L2Diff { coin: "BTC".into(), n_sig_figs: None, n_levels: None, mantissa: None };
    assert_eq!(snapshot_for(diff, &key), Some(11));
}

#[test]
fn the_freshest_source_is_asked_first() {
    let mut state = proxy(4, None);
    assert!(state.snapshot_candidates().is_empty());
    for src in [0, 1, 3] {
        state.source_connected(src);
    }
    // Nobody has delivered: every connected source, in order.
    let all = vec![(0, "ws://src0".to_string()), (1, "ws://src1".to_string()), (3, "ws://src3".to_string())];
    assert_eq!(state.snapshot_candidates(), all);

    // Source 1 delivers, then falls silent for three windows. Source 3 goes on,
    // and source 0 has just fallen silent.
    state.record_packet(1);
    state.record_packet(0);
    state.record_packet(3);
    state.tick();
    state.record_packet(0);
    state.record_packet(3);
    state.tick();
    state.record_packet(0);
    state.record_packet(3);
    state.tick();
    state.record_packet(3);
    state.tick();
    assert_eq!(
        state.snapshot_candidates(),
        vec![(3, "ws://src3".to_string()), (0, "ws://src0".to_string())]
    );
    // All silent: any book is as current as the next, the freshest still first.
    state.tick();
    state.tick();
    assert_eq!(
        state.snapshot_candidates(),
        vec![(3, "ws://src3".to_string()), (0, "ws://src0".to_string()), (1, "ws://src1".to_string())]
    );
}

#[test]
fn the_wait_doubles_up_to_the_longest() {
    let mut b = Backoff::new();
    let waits: Vec<u64> = (0..8).map(|_| b.next()).collect();
    assert_eq!(waits, vec![250, 500, 1000, 2000, 4000, 8000, 10000, 10000]);
    b.connected();
    assert_eq!(b.next(), 250);
}

#[test]
fn every_event_on_a_link_has_its_action() {
    let cases = [
        (LinkEvent::Text, LinkAction::Apply),
        (LinkEvent::Binary, LinkAction::Count),
        (LinkEvent::Ping, LinkAction::Pong),
        (LinkEvent::Other, LinkAction::Ignore),
        (LinkEvent::Closed, LinkAction::Leave),
        (LinkEvent::ReadError, LinkAction::Leave),
        (LinkEvent::Request, LinkAction::Send),
        (LinkEvent::Bounce, LinkAction::Leave),
    ];
    for (event, action) in cases {
        assert_eq!(link_action(event), action);
    }
}

#[test]
fn a_source_that_reconnects_subscribes_to_everything() {
    let mut state = proxy(2, None);
    let c = state.register_client("a".into(), 0);
    state.subscribe(c, SubKey::Bbo { coin: "BTC".into() }, 0);
    state.take_ctrl();
    assert_eq!(
        state.source_connected(1),
        vec![r#"{"method":"subscribe","subscription":{"type":"bbo","coin":"BTC"}}"#]
    );
    assert!(state.sources()[1].stats.connected());
    assert!(!state.sources()[0].stats.connected());
}

#[test]
fn candidates_are_asked_in_turn_until_one_answers() {
    assert_eq!(after_answer(0, 0, false), Search::GiveUp);
    // Nobody answers: each is asked once, in order.
    let mut asked = Vec::new();
    let mut tried = 0;
    while let Search::Ask(i) = after_answer(3, tried, false) {
        asked.push(i);
        tried = i + 1;
    }
    assert_eq!(asked, vec![0, 1, 2]);
    assert_eq!(after_answer(3, tried, false), Search::GiveUp);
    // The second answers, or the last.
    assert_eq!(after_answer(3, 2, true), Search::Deliver);
    assert_eq!(after_answer(3, 3, true), Search::Deliver);
}
