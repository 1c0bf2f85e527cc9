//! What a frame is taken to be: its subscription, its place in the order, and whether
//! it is recent enough; and whom to ask for a snapshot.

use crate::arbitration::Stamp;
use crate::upstream::{
    CoinTime, Frame, Freshness, Handled, L2DiffFrame, L2DiffHead, L2Head, L4Frame, L4Updates,
    LinkEvent, OrderUpdateHead, TradeHead,
};
use vstd::prelude::*;

verus! {

/// The number that a batch of order updates is ordered by is the greatest height in
/// it: no update of the batch is above it, and one of them has it.
pub proof fn law_updates_order_by_their_newest(v: Seq<OrderUpdateHead>)
    ensures
        forall|i: int|
            0 <= i < v.len() ==> (#[trigger] v[i]).height <= crate::upstream::newest_height(v),
        v.len() > 0 ==> exists|i: int|
            0 <= i < v.len() && (#[trigger] v[i]).height == crate::upstream::newest_height(v),
    decreases v.len(),
{
    if v.len() > 0 {
        let rest = v.drop_last();
        law_updates_order_by_their_newest(rest);
        assert forall|i: int| 0 <= i < v.len() implies (#[trigger] v[i]).height
            <= crate::upstream::newest_height(v) by {
            if i < rest.len() {
                assert(rest[i] == v[i]);
            }
        }
        if v.last().height > crate::upstream::newest_height(rest) || rest.len() == 0 {
            assert(v[v.len() - 1].height == crate::upstream::newest_height(v));
        } else {
            let i = choose|i: int|
                0 <= i < rest.len() && (#[trigger] rest[i]).height
                    == crate::upstream::newest_height(rest);
            assert(v[i].height == crate::upstream::newest_height(v));
        }
    }
}

/// The number that a batch of trades is ordered by is the greatest id in it: no trade
/// of the batch is above it, and one of them has it.
pub proof fn law_trades_order_by_their_newest(v: Seq<TradeHead>)
    ensures
        forall|i: int|
            0 <= i < v.len() ==> (#[trigger] v[i]).tid <= crate::upstream::newest_trade(v),
        v.len() > 0 ==> exists|i: int|
            0 <= i < v.len() && (#[trigger] v[i]).tid == crate::upstream::newest_trade(v),
    decreases v.len(),
{
    if v.len() > 0 {
        let rest = v.drop_last();
        law_trades_order_by_their_newest(rest);
        assert forall|i: int| 0 <= i < v.len() implies (#[trigger] v[i]).tid
            <= crate::upstream::newest_trade(v) by {
            if i < rest.len() {
                assert(rest[i] == v[i]);
            }
        }
        if v.last().tid > crate::upstream::newest_trade(rest) || rest.len() == 0 {
            assert(v[v.len() - 1].tid == crate::upstream::newest_trade(v));
        } else {
            let i = choose|i: int|
                0 <= i < rest.len() && (#[trigger] rest[i]).tid == crate::upstream::newest_trade(
                    rest,
                );
            assert(v[i].tid == crate::upstream::newest_trade(v));
        }
    }
}

/// A batch belongs to the coin, or the user, of its first element, and its number is
/// the greatest in it; an empty batch belongs nowhere. Trades are ordered one against
/// the other, the updates of a user are raced within a block.
pub proof fn law_batches_are_routed_by_their_first(
    trades: Vec<TradeHead>,
    updates: Vec<OrderUpdateHead>,
)
    ensures
        trades@.len() == 0 <==> crate::upstream::routed(Frame::Trades(trades)) is None,
        updates@.len() == 0 <==> crate::upstream::routed(Frame::OrderUpdates(updates)) is None,
        crate::upstream::routed(Frame::Trades(trades)) matches Some((key, stamp)) ==> {
            &&& key == (crate::key::Key::Trades { coin: trades@[0].coin@ })
            &&& stamp is Point
            &&& exists|i: int| 0 <= i < trades@.len() && (#[trigger] trades@[i]).tid
                == stamp.value()
            &&& forall|i: int|
                0 <= i < trades@.len() ==> (#[trigger] trades@[i]).tid <= stamp.value()
        },
        crate::upstream::routed(Frame::OrderUpdates(updates)) matches Some((key, stamp)) ==> {
            &&& key == (crate::key::Key::OrderUpdates {
                user: crate::text::lowered(updates@[0].user@),
            })
            &&& stamp is Block
            &&& exists|i: int| 0 <= i < updates@.len() && (#[trigger] updates@[i]).height
                == stamp.value()
            &&& forall|i: int|
                0 <= i < updates@.len() ==> (#[trigger] updates@[i]).height <= stamp.value()
        },
{
    law_trades_order_by_their_newest(trades@);
    law_updates_order_by_their_newest(updates@);
    if updates@.len() > 0 {
        crate::text::lemma_lowered_idempotent(updates@[0].user@);
    }
}

/// A top of book belongs to its coin and one source carries its time to the end; a
/// book belongs to its coin and its aggregation, and one source carries the stream.
pub proof fn law_books_are_routed_by_their_head(bbo: CoinTime, book: L2Head)
    ensures
        crate::upstream::routed(Frame::Bbo(bbo)) == Some(
            (crate::key::Key::Bbo { coin: bbo.coin@ }, Stamp::Lead(bbo.time)),
        ),
        crate::upstream::routed(Frame::L2Book(book)) matches Some((key, stamp)) && {
            &&& stamp == Stamp::Sticky(book.time)
            &&& key == (crate::key::Key::L2Book {
                coin: book.coin@,
                n_sig_figs: book.n_sig_figs,
                n_levels: if book.n_levels == Some(20usize) {
                    None
                } else {
                    book.n_levels
                },
                mantissa: book.mantissa,
            })
        },
{
}

/// A snapshot is a reset at its height and an increment is not: those of an `l2Diff`
/// are carried by one source, those of an `l4Book` are raced within their block. An
/// `l4Book` increment has its coin from its order statuses, or from its book changes
/// where there are none, and belongs nowhere without either. An error belongs nowhere.
pub proof fn law_increments_are_no_snapshots(
    head: L2DiffHead,
    coin: String,
    height: u64,
    u: L4Updates,
    message: String,
)
    ensures
        ({
            let key = crate::key::Key::L2Diff {
                coin: head.coin@,
                n_sig_figs: head.n_sig_figs,
                n_levels: if head.n_levels == Some(20usize) {
                    None
                } else {
                    head.n_levels
                },
                mantissa: head.mantissa,
            };
            &&& crate::upstream::routed(Frame::L2Diff(L2DiffFrame::Snapshot(head))) == Some(
                (key, Stamp::Snapshot(head.height)),
            )
            &&& crate::upstream::routed(Frame::L2Diff(L2DiffFrame::Updates(head))) == Some(
                (key, Stamp::Sticky(head.height)),
            )
        }),
        crate::upstream::routed(Frame::L4Book(L4Frame::Snapshot { coin, height })) == Some(
            (crate::key::Key::L4Book { coin: coin@ }, Stamp::Snapshot(height)),
        ),
        u.order_statuses@.len() > 0 ==> crate::upstream::routed(
            Frame::L4Book(L4Frame::Updates(u)),
        ) == Some(
            (
                crate::key::Key::L4Book { coin: u.order_statuses@[0].order.coin@ },
                Stamp::Block(u.height),
            ),
        ),
        u.order_statuses@.len() == 0 && u.book_diffs@.len() > 0 ==> crate::upstream::routed(
            Frame::L4Book(L4Frame::Updates(u)),
        ) == Some(
            (crate::key::Key::L4Book { coin: u.book_diffs@[0].coin@ }, Stamp::Block(u.height)),
        ),
        u.order_statuses@.len() == 0 && u.book_diffs@.len() == 0 ==> crate::upstream::routed(
            Frame::L4Book(L4Frame::Updates(u)),
        ) is None,
        crate::upstream::routed(Frame::Error(message)) is None,
{
}

/// A frame is the snapshot that was asked for exactly when it is routed to that very
/// key as a snapshot, at the height it carries.
pub proof fn law_snapshots_are_told_by_their_key(frame: Frame, key: crate::key::Key, height: u64)
    ensures
        crate::upstream::snapshot_height(frame, key) == Some(height) <==> crate::upstream::routed(
            frame,
        ) == Some((key, Stamp::Snapshot(height))),
{
}

/// A frame without a time is recent. One with a time is refused exactly when it lies
/// more than five seconds ahead of the clock, or when there is a limit and it lies
/// further back than that; it is told how far off it is.
pub proof fn law_only_the_recent_is_forwarded(t: u64, now: u64, max_age: Option<u64>)
    ensures
        crate::upstream::freshness_at(None, now, max_age) == Freshness::Fresh,
        ({
            let f = crate::upstream::freshness_at(Some(t), now, max_age);
            let ahead = t - now;
            let behind = now - t;
            &&& ahead > 5000 <==> f is FromFuture
            &&& max_age matches Some(max) ==> (behind > max <==> f is TooOld)
            &&& max_age is None ==> !(f is TooOld)
            &&& f matches Freshness::FromFuture(ms) ==> ms == ahead
            &&& f matches Freshness::TooOld(ms) ==> ms == behind
        }),
{
}

/// The number behind a time's name is read digit by digit, to the first byte that is
/// none.
pub proof fn law_numbers_are_read_in_base_ten(b: Seq<u8>, d: u8)
    requires
        48 <= d <= 57,
    ensures
        crate::upstream::number(seq![]) == 0,
        crate::upstream::number(b.push(d)) == 10 * crate::upstream::number(b) + (d - 48),
{
    assert(b.push(d).drop_last() =~= b);
}

/// A run of digits ends at the first byte that is not one, or with the text.
pub proof fn law_digits_end_at_the_first_other(b: Seq<u8>, j: int)
    requires
        0 <= j <= b.len(),
    ensures
        j <= crate::upstream::digits_end(b, j) <= b.len(),
        forall|k: int| j <= k < crate::upstream::digits_end(b, j) ==> 48 <= #[trigger] b[k] <= 57,
        crate::upstream::digits_end(b, j) < b.len() ==> !(48 <= b[crate::upstream::digits_end(
            b,
            j,
        )] <= 57),
    decreases b.len() - j,
{
    if j < b.len() && crate::upstream::is_digit(b[j]) {
        law_digits_end_at_the_first_other(b, j + 1);
    }
}

/// Whether `"time":` can be read at byte `i`.
pub open spec fn names_time(b: Seq<u8>, i: int) -> bool {
    &&& 0 <= i
    &&& i + 7 <= b.len()
    &&& b.subrange(i, i + 7) == seq![34u8, 116, 105, 109, 101, 34, 58]
}

proof fn lemma_names_time(b: Seq<u8>, i: int)
    ensures
        names_time(b, i) <==> crate::upstream::time_key_at(b, i),
{
    let name = seq![34u8, 116, 105, 109, 101, 34, 58];
    if 0 <= i && i + 7 <= b.len() {
        let there = b.subrange(i, i + 7);
        assert(there[0] == b[i] && there[1] == b[i + 1] && there[2] == b[i + 2] && there[3] == b[i
            + 3] && there[4] == b[i + 4] && there[5] == b[i + 5] && there[6] == b[i + 6]);
        if crate::upstream::time_key_at(b, i) {
            assert(there =~= name);
        }
    }
}

/// The time of a frame is the number that starts right behind the first `"time":` in
/// its text and goes on to the first byte that is no digit, whatever comes before and
/// after. There is one exactly when at least one digit stands there and the number
/// fits sixty-four bits.
pub proof fn law_time_is_behind_its_name(b: Seq<u8>, at: int, end: int)
    requires
        names_time(b, at),
        forall|i: int| 0 <= i < at ==> !#[trigger] names_time(b, i),
        at + 7 <= end <= b.len(),
        forall|k: int| at + 7 <= k < end ==> 48 <= #[trigger] b[k] <= 57,
        end < b.len() ==> !(48 <= b[end] <= 57),
    ensures
        ({
            let n = crate::upstream::number(b.subrange(at + 7, end));
            crate::upstream::block_time(b) == if end > at + 7 && n <= u64::MAX {
                Some(n as u64)
            } else {
                None
            }
        }),
{
    lemma_names_time(b, at);
    assert forall|j: int| 0 <= j < at implies !#[trigger] crate::upstream::time_key_at(b, j) by {
        lemma_names_time(b, j);
    }
    assert(crate::upstream::first_time_key_at(b, at));
    let found = choose|i: int| crate::upstream::first_time_key_at(b, i);
    assert(found == at) by {
        if found < at {
            assert(!crate::upstream::time_key_at(b, found));
        } else if at < found {
            assert(!crate::upstream::time_key_at(b, at));
        }
    }
    lemma_digits_run(b, at + 7, end);
}

proof fn lemma_digits_run(b: Seq<u8>, j: int, end: int)
    requires
        0 <= j <= end <= b.len(),
        forall|k: int| j <= k < end ==> 48 <= #[trigger] b[k] <= 57,
        end < b.len() ==> !(48 <= b[end] <= 57),
    ensures
        crate::upstream::digits_end(b, j) == end,
    decreases end - j,
{
    if j < end {
        lemma_digits_run(b, j + 1, end);
    }
}

/// A text that names no time has none.
pub proof fn law_no_name_no_time(b: Seq<u8>)
    requires
        forall|i: int| !#[trigger] names_time(b, i),
    ensures
        crate::upstream::block_time(b) is None,
{
    if exists|i: int| crate::upstream::first_time_key_at(b, i) {
        let i = choose|i: int| crate::upstream::first_time_key_at(b, i);
        lemma_names_time(b, i);
    }
}

/// Whom to ask for a snapshot: only connected sources; while one of them has delivered
/// within five seconds, only those that have; the ones that delivered last first, and
/// the ones that never did last.
pub proof fn law_snapshots_come_from_the_living(
    sources: Seq<crate::state::SourceView>,
    ps: Seq<usize>,
    i: int,
    j: int,
)
    requires
        crate::upstream::is_ranking(sources, ps),
        0 <= i < j < ps.len(),
    ensures
        ({
            let a = sources[ps[i] as int].stats;
            let b = sources[ps[j] as int].stats;
            &&& ps[i] < sources.len() && ps[j] < sources.len() && ps[i] != ps[j]
            &&& a.connected && b.connected
            &&& a.idle_for() is None ==> b.idle_for() is None || b.idle_for() == Some(u64::MAX)
            &&& a.idle_for() is Some && b.idle_for() is Some ==> a.idle_for()->0
                <= b.idle_for()->0
            &&& a.idle_for() == b.idle_for() ==> ps[i] < ps[j]
        }),
{
    assert(ps.contains(ps[i]));
    assert(ps.contains(ps[j]));
    assert(crate::upstream::asked_before(sources, ps[i] as int, ps[j] as int));
}

/// Every source that may be asked is among those asked, and no other.
pub proof fn law_every_living_source_is_asked(
    sources: Seq<crate::state::SourceView>,
    ps: Seq<usize>,
    p: usize,
)
    requires
        crate::upstream::is_ranking(sources, ps),
    ensures
        ({
            let delivering = |s: crate::state::SourceView|
                s.stats.connected && s.stats.idle_for() is Some && s.stats.idle_for()->0 <= 5;
            let any = exists|k: int| 0 <= k < sources.len() && delivering(#[trigger] sources[k]);
            ps.contains(p) <==> p < sources.len() && sources[p as int].stats.connected && (any
                ==> delivering(sources[p as int]))
        }),
{
    let delivering = |s: crate::state::SourceView|
        s.stats.connected && s.stats.idle_for() is Some && s.stats.idle_for()->0 <= 5;
    assert(ps.contains(p) <==> crate::upstream::eligible(sources, p as int));
    if exists|k: int| 0 <= k < sources.len() && delivering(#[trigger] sources[k]) {
        let k = choose|k: int| 0 <= k < sources.len() && delivering(#[trigger] sources[k]);
        assert(sources[k].stats.connected && crate::upstream::staleness(sources[k])
            <= crate::stats::SILENCE_LIMIT);
        assert(crate::upstream::any_fresh(sources));
    } else if crate::upstream::any_fresh(sources) {
        let k = choose|k: int|
            0 <= k < sources.len() && (#[trigger] sources[k]).stats.connected
                && crate::upstream::staleness(sources[k]) <= crate::stats::SILENCE_LIMIT;
        assert(delivering(sources[k]));
    }
}

/// What is asked is each source's own address, under its own id.
pub proof fn law_candidates_keep_their_address(
    sources: Seq<crate::state::SourceView>,
    ps: Seq<usize>,
    i: int,
)
    requires
        0 <= i < ps.len(),
    ensures
        crate::upstream::addresses(sources, ps).len() == ps.len(),
        crate::upstream::addresses(sources, ps)[i] == (
            sources[ps[i] as int].id,
            sources[ps[i] as int].url,
        ),
{
}

/// The wait between two attempts starts at a quarter of a second and doubles with each
/// one that fails, up to ten seconds.
pub proof fn law_waits_double(n: nat)
    ensures
        crate::upstream::wait_after(0) == 250,
        2 * crate::upstream::wait_after(n) <= 10000 ==> crate::upstream::wait_after(n + 1) == 2
            * crate::upstream::wait_after(n),
        2 * crate::upstream::wait_after(n) > 10000 ==> crate::upstream::wait_after(n + 1) == 10000,
{
}

/// A frame that belongs to no subscription leaves everything as it is. One whose time is
/// off is refused: it is counted once, for its source and for the side it is off to, and
/// neither goes out nor moves the mark of its key. Any other is ruled on under its key,
/// with its whole text.
pub proof fn law_refused_frames_move_nothing(
    before: crate::state::StateView,
    src: int,
    frame: Frame,
    text: Seq<char>,
    now: u64,
    unix_ms: u64,
    h: Handled,
    after: crate::state::StateView,
)
    requires
        0 <= src < before.sources.len(),
        before.sources[src].stats.from_future < u64::MAX,
        before.sources[src].stats.too_old < u64::MAX,
        crate::upstream::handles(before, src, frame, text, now, unix_ms, h, after),
    ensures
        crate::upstream::routed(frame) is None ==> after == before && (h is Rejected
            || h is Unrouted),
        frame is Error <==> h is Rejected,
        crate::upstream::routed(frame) matches Some((key, stamp)) ==> {
            let t = crate::upstream::block_time(vstd::utf8::encode_utf8(text));
            let future = t is Some && t->0 > unix_ms + 5000;
            let old = t is Some && before.max_age is Some && unix_ms > t->0 + before.max_age->0;
            let was = before.sources[src].stats;
            let is = after.sources[src].stats;
            &&& future <==> h is FromFuture
            &&& old <==> h is TooOld
            &&& !future && !old <==> h is Ruled
            &&& future || old ==> {
                &&& after.subs == before.subs
                &&& after.clients == before.clients
                &&& after.outbox == before.outbox
                &&& is.totals == was.totals && is.hist == was.hist
                &&& is.from_future - was.from_future == if future {
                    1int
                } else {
                    0int
                }
                &&& is.too_old - was.too_old == if future {
                    0int
                } else {
                    1int
                }
                &&& forall|i: int| 0 <= i < before.sources.len() && i != src ==> after.sources[i]
                    == #[trigger] before.sources[i]
            }
            &&& !future && !old ==> {
                &&& after == before.updated(src, key, stamp, text, now)
                &&& h matches Handled::Ruled(u) && before.says(u, src, key, stamp, text, now)
            }
        },
{
}

/// A text is applied and nothing else is, a binary frame is counted, a ping is answered,
/// what the proxy asks for is sent, and the connection is left when it is closed, when it
/// fails, and when it is to be made anew, and never otherwise.
pub proof fn law_each_event_has_its_answer(event: LinkEvent)
    ensures
        crate::upstream::action_on(event) is Apply <==> event is Text,
        crate::upstream::action_on(event) is Count <==> event is Binary,
        crate::upstream::action_on(event) is Pong <==> event is Ping,
        crate::upstream::action_on(event) is Send <==> event is Request,
        crate::upstream::action_on(event) is Leave <==> event is Closed || event is ReadError
            || event is Bounce,
        crate::upstream::action_on(event) is Ignore <==> event is Other,
{
}

/// The sources are asked for a snapshot one at a time, each one once, until one answers
/// or all have been asked.
pub proof fn law_sources_are_asked_in_turn(candidates: usize, tried: usize, answered: bool)
    requires
        tried <= candidates,
    ensures
        crate::upstream::next_step(candidates, tried, answered) is Deliver <==> answered,
        crate::upstream::next_step(candidates, tried, answered) is GiveUp <==> !answered && tried
            == candidates,
        crate::upstream::next_step(candidates, tried, answered) is Ask <==> !answered && tried
            < candidates,
        crate::upstream::next_step(candidates, tried, answered) is Ask ==> crate::upstream::next_step(
            candidates,
            tried,
            answered,
        )->Ask_0 == tried,
{
}

/// A snapshot is waited for two minutes at most. No message is taken that is longer than
/// a quarter of a gibibyte, which is four times what is held back for a client, and a
/// client's queue has room for a little over sixty-five thousand frames.
pub proof fn law_limits_of_the_links()
    ensures
        crate::upstream::SNAPSHOT_TIMEOUT == 2 * 60,
        4 * crate::upstream::MAX_MESSAGE == 1024 * 1024 * 1024,
        4 * crate::entry::PENDING_MAX_BYTES == crate::upstream::MAX_MESSAGE,
        crate::state::CLIENT_QUEUE == 256 * 256,
{
}

/// A candidate is read as its id and its address, one for one.
pub proof fn law_candidates_are_read_one_for_one(v: Seq<(usize, String)>, i: int)
    ensures
        crate::upstream::candidates_view(v).len() == v.len(),
        0 <= i < v.len() ==> crate::upstream::candidates_view(v)[i] == (v[i].0, v[i].1@),
{
}

} // verus!
