//! What holds of a comparison whatever the streams carry.

use crate::loadtest::compare::{Cut, Verdict};
use vstd::prelude::*;

verus! {

// ---------------------------------------------------------------------------
// Fates
// ---------------------------------------------------------------------------

/// The messages of the nodes that have been accounted for.
pub open spec fn accounted(v: Verdict) -> int {
    v.matched + v.lost + v.stale_dropped + v.superseded + v.skipped
}

/// Whether no counter is about to wrap.
pub open spec fn has_room(v: Verdict) -> bool {
    &&& v.matched < u64::MAX
    &&& v.lost < u64::MAX
    &&& v.stale_dropped < u64::MAX
    &&& v.superseded < u64::MAX
    &&& v.skipped < u64::MAX
    &&& v.invented < u64::MAX
}

/// Every message that a node had has exactly one fate, and only one that the proxy
/// neither carried nor had moved past, in any of the ways that are told apart, is
/// lost.
pub proof fn law_every_message_has_one_fate(
    v: Verdict,
    ours: Option<u64>,
    theirs: Option<u64>,
    stale: bool,
    carried: bool,
    ahead: bool,
)
    requires
        has_room(v),
    ensures
        ({
            let w = v.with_message(ours, theirs, stale, carried, ahead);
            &&& accounted(w) == accounted(v) + (if theirs is Some {
                1int
            } else {
                0int
            })
            &&& w.lost != v.lost <==> ours is None && theirs is Some && !stale && !carried && !ahead
            &&& w.invented != v.invented <==> ours is Some && theirs is None
        }),
{
}

/// The last pass leaves nothing behind: whatever is still being compared leaves.
pub proof fn law_last_pass_leaves_nothing(
    c: crate::loadtest::compare::CompareView,
    ks: Seq<u64>,
    bs: Seq<(u32, u64)>,
    now: u64,
)
    requires
        crate::loadtest::compare::lists_hashes(ks, c.seen.dom()),
        crate::loadtest::compare::lists_stamps(bs, c.blocks.dom()),
    ensures
        c.swept_seen(ks, now, true).swept_blocks(bs, now, true).seen.dom() == Set::<u64>::empty(),
        c.swept_seen(ks, now, true).swept_blocks(bs, now, true).blocks.dom() == Set::<
            (u32, u64),
        >::empty(),
{
    lemma_seen_leaves(c, ks, now);
    let mid = c.swept_seen(ks, now, true);
    lemma_blocks_leave(mid, bs, now);
    let end = mid.swept_blocks(bs, now, true);
    assert forall|k: u64| !#[trigger] end.seen.dom().contains(k) by {
        assert(ks.contains(k) <==> c.seen.dom().contains(k));
    }
    assert forall|k: (u32, u64)| !#[trigger] end.blocks.dom().contains(k) by {
        assert(bs.contains(k) <==> c.blocks.dom().contains(k));
    }
    assert(end.seen.dom() =~= Set::<u64>::empty());
    assert(end.blocks.dom() =~= Set::<(u32, u64)>::empty());
}

proof fn lemma_seen_leaves(c: crate::loadtest::compare::CompareView, ks: Seq<u64>, now: u64)
    ensures
        c.swept_seen(ks, now, true).blocks == c.blocks,
        forall|k: u64| #[trigger]
            c.swept_seen(ks, now, true).seen.dom().contains(k) <==> c.seen.dom().contains(k)
                && !ks.contains(k),
    decreases ks.len(),
{
    if ks.len() > 0 {
        let rest = ks.drop_last();
        lemma_seen_leaves(c, rest, now);
        assert forall|k: u64| #[trigger] ks.contains(k) <==> rest.contains(k) || k == ks.last() by {
            if rest.contains(k) {
                let i = rest.index_of(k);
                assert(ks[i] == k);
            }
            if k == ks.last() {
                assert(ks[ks.len() - 1] == k);
            }
            if ks.contains(k) && k != ks.last() {
                let i = ks.index_of(k);
                assert(rest[i] == k);
            }
        }
        assert forall|k: u64| #[trigger]
            c.swept_seen(ks, now, true).seen.dom().contains(k) <==> c.seen.dom().contains(k)
                && !ks.contains(k) by {
            assert(c.swept_seen(rest, now, true).seen.dom().contains(k) <==> c.seen.dom().contains(
                k,
            ) && !rest.contains(k));
        }
    }
}

proof fn lemma_blocks_leave(c: crate::loadtest::compare::CompareView, ks: Seq<(u32, u64)>, now: u64)
    ensures
        c.swept_blocks(ks, now, true).seen == c.seen,
        forall|k: (u32, u64)| #[trigger]
            c.swept_blocks(ks, now, true).blocks.dom().contains(k) <==> c.blocks.dom().contains(k)
                && !ks.contains(k),
    decreases ks.len(),
{
    if ks.len() > 0 {
        let rest = ks.drop_last();
        lemma_blocks_leave(c, rest, now);
        assert forall|k: (u32, u64)| #[trigger] ks.contains(k) <==> rest.contains(k) || k
            == ks.last() by {
            if rest.contains(k) {
                let i = rest.index_of(k);
                assert(ks[i] == k);
            }
            if k == ks.last() {
                assert(ks[ks.len() - 1] == k);
            }
            if ks.contains(k) && k != ks.last() {
                let i = ks.index_of(k);
                assert(rest[i] == k);
            }
        }
        assert forall|k: (u32, u64)| #[trigger]
            c.swept_blocks(ks, now, true).blocks.dom().contains(k) <==> c.blocks.dom().contains(k)
                && !ks.contains(k) by {
            assert(c.swept_blocks(rest, now, true).blocks.dom().contains(k)
                <==> c.blocks.dom().contains(k) && !rest.contains(k));
        }
    }
}

// ---------------------------------------------------------------------------
// The order of a sweep
// ---------------------------------------------------------------------------

/// One message leaves, or stays, in a sweep that began with `c`.
spec fn seen_step(
    c: crate::loadtest::compare::CompareView,
    now: u64,
    finishing: bool,
) -> spec_fn(
    crate::loadtest::compare::CompareView,
    u64,
) -> crate::loadtest::compare::CompareView {
    |acc: crate::loadtest::compare::CompareView, k: u64|
        {
            let e = c.seen[k];
            let left = acc.judged(e, now, finishing);
            if c.stays(e.born, now, finishing) {
                left
            } else {
                crate::loadtest::compare::CompareView { seen: left.seen.remove(k), ..left }
            }
        }
}

/// One stamp leaves, or stays, in a sweep that began with `c`.
spec fn block_step(
    c: crate::loadtest::compare::CompareView,
    now: u64,
    finishing: bool,
) -> spec_fn(
    crate::loadtest::compare::CompareView,
    (u32, u64),
) -> crate::loadtest::compare::CompareView {
    |acc: crate::loadtest::compare::CompareView, k: (u32, u64)|
        {
            let b = c.blocks[k];
            if c.stays(b.born, now, finishing) {
                acc
            } else {
                crate::loadtest::compare::CompareView {
                    blocks: acc.blocks.remove(k),
                    verdict: if !crate::loadtest::compare::young(b.born, now, c.window)
                        && b.on_all(c.slots.used() as int) {
                        acc.verdict.with_block(b, c.slots)
                    } else {
                        acc.verdict
                    },
                    ..acc
                }
            }
        }
}

proof fn lemma_counted_commutes(c: u64, a: u64, b: u64)
    ensures
        crate::stats::counted(crate::stats::counted(c, a), b) == crate::stats::counted(
            crate::stats::counted(c, b),
            a,
        ),
{
}

proof fn lemma_bumped_commutes(v: Seq<u32>, i: int, j: int)
    requires
        0 <= i,
        0 <= j,
    ensures
        crate::loadtest::keystats::bumped(crate::loadtest::keystats::bumped(v, i), j)
            == crate::loadtest::keystats::bumped(crate::loadtest::keystats::bumped(v, j), i),
{
    assert(crate::loadtest::keystats::bumped(crate::loadtest::keystats::bumped(v, i), j)
        =~= crate::loadtest::keystats::bumped(crate::loadtest::keystats::bumped(v, j), i));
}

proof fn lemma_charged_commutes(
    ages: Seq<Seq<u32>>,
    x: crate::loadtest::compare::SeenView,
    y: crate::loadtest::compare::SeenView,
)
    ensures
        crate::loadtest::compare::charged(crate::loadtest::compare::charged(ages, x), y)
            == crate::loadtest::compare::charged(crate::loadtest::compare::charged(ages, y), x),
{
    let one = crate::loadtest::compare::charged(crate::loadtest::compare::charged(ages, x), y);
    let two = crate::loadtest::compare::charged(crate::loadtest::compare::charged(ages, y), x);
    assert forall|s: int| 0 <= s < ages.len() implies #[trigger] one[s] == two[s] by {
        lemma_bumped_commutes(
            ages[s],
            crate::loadtest::compare::age_bucket(x.ages[s]),
            crate::loadtest::compare::age_bucket(y.ages[s]),
        );
    }
    assert(one =~= two);
}

proof fn lemma_twins_commute(
    v: Verdict,
    b: Option<u64>,
    a: Option<u64>,
    d: Option<u64>,
    c: Option<u64>,
)
    ensures
        v.with_twin(b, a).with_twin(d, c) == v.with_twin(d, c).with_twin(b, a),
{
    if b is Some && a is Some && d is Some && c is Some {
        lemma_counted_commutes(
            v.noise_us,
            crate::loadtest::compare::micros_between(a->0, b->0),
            crate::loadtest::compare::micros_between(c->0, d->0),
        );
    }
}

proof fn lemma_messages_commute(
    v: Verdict,
    o: Option<u64>,
    t: Option<u64>,
    stale: bool,
    carried: bool,
    ahead: bool,
    p: Option<u64>,
    u: Option<u64>,
    stale2: bool,
    carried2: bool,
    ahead2: bool,
)
    ensures
        v.with_message(o, t, stale, carried, ahead).with_message(p, u, stale2, carried2, ahead2)
            == v.with_message(p, u, stale2, carried2, ahead2).with_message(
            o,
            t,
            stale,
            carried,
            ahead,
        ),
{
    if o is Some && t is Some && p is Some && u is Some {
        lemma_counted_commutes(
            v.behind_us,
            crate::loadtest::compare::micros_between(o->0, t->0),
            crate::loadtest::compare::micros_between(p->0, u->0),
        );
        lemma_counted_commutes(
            v.ahead_us,
            crate::loadtest::compare::micros_between(t->0, o->0),
            crate::loadtest::compare::micros_between(u->0, p->0),
        );
    }
}

proof fn lemma_twin_and_message_commute(
    v: Verdict,
    b: Option<u64>,
    a: Option<u64>,
    o: Option<u64>,
    t: Option<u64>,
    stale: bool,
    carried: bool,
    ahead: bool,
)
    ensures
        v.with_twin(b, a).with_message(o, t, stale, carried, ahead) == v.with_message(
            o,
            t,
            stale,
            carried,
            ahead,
        ).with_twin(b, a),
{
}

/// What a message that is judged adds to the verdict.
spec fn added(
    acc: crate::loadtest::compare::CompareView,
    v: Verdict,
    e: crate::loadtest::compare::SeenView,
) -> Verdict {
    let w = if acc.slots.twin {
        v.with_twin(e.at[1], e.at[acc.slots.twin_slot()])
    } else {
        v
    };
    w.with_message(
        e.at[0],
        e.earliest(acc.slots.nodes as int),
        crate::loadtest::compare::CompareView::was_stale(e),
        acc.carried(e),
        acc.went_past(e),
    )
}

proof fn lemma_added_commutes(
    acc: crate::loadtest::compare::CompareView,
    v: Verdict,
    x: crate::loadtest::compare::SeenView,
    y: crate::loadtest::compare::SeenView,
)
    ensures
        added(acc, added(acc, v, x), y) == added(acc, added(acc, v, y), x),
{
    let slot = acc.slots.twin_slot();
    let nodes = acc.slots.nodes as int;
    let (xo, xt) = (x.at[0], x.earliest(nodes));
    let (yo, yt) = (y.at[0], y.earliest(nodes));
    let xs = crate::loadtest::compare::CompareView::was_stale(x);
    let ys = crate::loadtest::compare::CompareView::was_stale(y);
    let (xc, xp) = (acc.carried(x), acc.went_past(x));
    let (yc, yp) = (acc.carried(y), acc.went_past(y));
    if acc.slots.twin {
        let (xb, xa) = (x.at[1], x.at[slot]);
        let (yb, ya) = (y.at[1], y.at[slot]);
        lemma_twin_and_message_commute(v.with_twin(xb, xa), yb, ya, xo, xt, xs, xc, xp);
        lemma_twin_and_message_commute(v.with_twin(yb, ya), xb, xa, yo, yt, ys, yc, yp);
        lemma_twins_commute(v, xb, xa, yb, ya);
        let w = v.with_twin(xb, xa).with_twin(yb, ya);
        lemma_messages_commute(w, xo, xt, xs, xc, xp, yo, yt, ys, yc, yp);
    } else {
        lemma_messages_commute(v, xo, xt, xs, xc, xp, yo, yt, ys, yc, yp);
    }
}

proof fn lemma_undecided_commutes(
    acc: crate::loadtest::compare::CompareView,
    v: Verdict,
    e: crate::loadtest::compare::SeenView,
)
    ensures
        added(acc, Verdict { undecided: crate::loadtest::compare::plus(v.undecided), ..v }, e) == (
        Verdict {
            undecided: crate::loadtest::compare::plus(added(acc, v, e).undecided),
            ..added(acc, v, e)
        }),
{
}

proof fn lemma_judged_commutes(
    acc: crate::loadtest::compare::CompareView,
    x: crate::loadtest::compare::SeenView,
    y: crate::loadtest::compare::SeenView,
    now: u64,
    finishing: bool,
)
    ensures
        acc.judged(x, now, finishing).judged(y, now, finishing) == acc.judged(
            y,
            now,
            finishing,
        ).judged(x, now, finishing),
{
    let v = acc.verdict;
    lemma_added_commutes(acc, v, x, y);
    lemma_undecided_commutes(acc, v, x);
    lemma_undecided_commutes(acc, v, y);
    lemma_charged_commutes(acc.ages, x, y);
    let one = acc.judged(x, now, finishing);
    let two = acc.judged(y, now, finishing);
    assert(one.carried(y) == acc.carried(y) && one.went_past(y) == acc.went_past(y));
    assert(two.carried(x) == acc.carried(x) && two.went_past(x) == acc.went_past(x));
    if !crate::loadtest::compare::young(x.born, now, acc.window) {
        assert(one.verdict == added(acc, v, x));
        assert(two.judged(x, now, finishing).verdict == added(acc, two.verdict, x));
    }
    if !crate::loadtest::compare::young(y.born, now, acc.window) {
        assert(two.verdict == added(acc, v, y));
        assert(one.judged(y, now, finishing).verdict == added(acc, one.verdict, y));
    }
}

/// Judging a message does not look at which others are still there.
proof fn lemma_judged_alone(
    acc: crate::loadtest::compare::CompareView,
    seen: Map<u64, crate::loadtest::compare::SeenView>,
    e: crate::loadtest::compare::SeenView,
    now: u64,
    finishing: bool,
)
    ensures
        (crate::loadtest::compare::CompareView { seen, ..acc }).judged(e, now, finishing) == (
        crate::loadtest::compare::CompareView { seen, ..acc.judged(e, now, finishing) }),
        acc.judged(e, now, finishing).seen == acc.seen,
{
    let other = crate::loadtest::compare::CompareView { seen, ..acc };
    assert(other.carried(e) == acc.carried(e) && other.went_past(e) == acc.went_past(e));
}

/// What is still there once a message has left, or stayed.
spec fn still_seen(
    c: crate::loadtest::compare::CompareView,
    seen: Map<u64, crate::loadtest::compare::SeenView>,
    k: u64,
    now: u64,
    finishing: bool,
) -> Map<u64, crate::loadtest::compare::SeenView> {
    if c.stays(c.seen[k].born, now, finishing) {
        seen
    } else {
        seen.remove(k)
    }
}

proof fn lemma_seen_step(
    c: crate::loadtest::compare::CompareView,
    acc: crate::loadtest::compare::CompareView,
    k: u64,
    now: u64,
    finishing: bool,
)
    ensures
        seen_step(c, now, finishing)(acc, k) == (crate::loadtest::compare::CompareView {
            seen: still_seen(c, acc.seen, k, now, finishing),
            ..acc.judged(c.seen[k], now, finishing)
        }),
{
    lemma_judged_alone(acc, acc.seen, c.seen[k], now, finishing);
}

proof fn lemma_two_messages_commute(
    c: crate::loadtest::compare::CompareView,
    acc: crate::loadtest::compare::CompareView,
    x: u64,
    y: u64,
    now: u64,
    finishing: bool,
)
    ensures
        seen_step(c, now, finishing)(seen_step(c, now, finishing)(acc, x), y) == seen_step(
            c,
            now,
            finishing,
        )(seen_step(c, now, finishing)(acc, y), x),
{
    let (e, g) = (c.seen[x], c.seen[y]);
    let f = seen_step(c, now, finishing);
    let after_x = still_seen(c, acc.seen, x, now, finishing);
    let after_y = still_seen(c, acc.seen, y, now, finishing);
    lemma_seen_step(c, acc, x, now, finishing);
    lemma_seen_step(c, acc, y, now, finishing);
    lemma_seen_step(c, f(acc, x), y, now, finishing);
    lemma_seen_step(c, f(acc, y), x, now, finishing);
    lemma_judged_alone(acc.judged(e, now, finishing), after_x, g, now, finishing);
    lemma_judged_alone(acc.judged(g, now, finishing), after_y, e, now, finishing);
    lemma_judged_commutes(acc, e, g, now, finishing);
    assert(still_seen(c, after_x, y, now, finishing) =~= still_seen(c, after_y, x, now, finishing));
}

proof fn lemma_seen_steps_commute(
    c: crate::loadtest::compare::CompareView,
    now: u64,
    finishing: bool,
)
    ensures
        forall|acc: crate::loadtest::compare::CompareView, x: u64, y: u64|
            #![trigger seen_step(c, now, finishing)(seen_step(c, now, finishing)(acc, x), y)]
            seen_step(c, now, finishing)(seen_step(c, now, finishing)(acc, x), y) == seen_step(
                c,
                now,
                finishing,
            )(seen_step(c, now, finishing)(acc, y), x),
{
    assert forall|acc: crate::loadtest::compare::CompareView, x: u64, y: u64|
        #![trigger seen_step(c, now, finishing)(seen_step(c, now, finishing)(acc, x), y)]
        seen_step(c, now, finishing)(seen_step(c, now, finishing)(acc, x), y) == seen_step(
            c,
            now,
            finishing,
        )(seen_step(c, now, finishing)(acc, y), x) by {
        lemma_two_messages_commute(c, acc, x, y, now, finishing);
    }
}

proof fn lemma_cuts_commute(
    v: Cut,
    x: crate::loadtest::compare::BlockView,
    y: crate::loadtest::compare::BlockView,
    slots: crate::loadtest::compare::Slots,
)
    ensures
        v.with_block(x, slots).with_block(y, slots) == v.with_block(y, slots).with_block(x, slots),
{
}

proof fn lemma_blocks_commute(
    v: Verdict,
    x: crate::loadtest::compare::BlockView,
    y: crate::loadtest::compare::BlockView,
    slots: crate::loadtest::compare::Slots,
)
    ensures
        v.with_block(x, slots).with_block(y, slots) == v.with_block(y, slots).with_block(x, slots),
{
    lemma_cuts_commute(v.led, x, y, slots);
    lemma_cuts_commute(v.raced, x, y, slots);
    let nodes = slots.nodes as int;
    lemma_counted_commutes(
        v.short_frames,
        (x.best(nodes) - x.n[0]) as u64,
        (y.best(nodes) - y.n[0]) as u64,
    );
}

proof fn lemma_block_steps_commute(
    c: crate::loadtest::compare::CompareView,
    now: u64,
    finishing: bool,
)
    ensures
        forall|acc: crate::loadtest::compare::CompareView, x: (u32, u64), y: (u32, u64)|
            #![trigger block_step(c, now, finishing)(block_step(c, now, finishing)(acc, x), y)]
            block_step(c, now, finishing)(block_step(c, now, finishing)(acc, x), y) == block_step(
                c,
                now,
                finishing,
            )(block_step(c, now, finishing)(acc, y), x),
{
    let f = block_step(c, now, finishing);
    assert forall|acc: crate::loadtest::compare::CompareView, x: (u32, u64), y: (u32, u64)|
        #![trigger f(f(acc, x), y)]
        f(f(acc, x), y) == f(f(acc, y), x) by {
        lemma_blocks_commute(acc.verdict, c.blocks[x], c.blocks[y], c.slots);
        let one = f(f(acc, x), y);
        let two = f(f(acc, y), x);
        assert(one.blocks =~= two.blocks);
        assert(one =~= two);
    }
}

proof fn lemma_seen_is_folded(
    c: crate::loadtest::compare::CompareView,
    ks: Seq<u64>,
    now: u64,
    finishing: bool,
)
    ensures
        c.swept_seen(ks, now, finishing) == ks.fold_left(c, seen_step(c, now, finishing)),
        c.swept_seen(ks, now, finishing).blocks == c.blocks,
    decreases ks.len(),
{
    if ks.len() > 0 {
        lemma_seen_is_folded(c, ks.drop_last(), now, finishing);
    }
}

proof fn lemma_blocks_are_folded(
    c: crate::loadtest::compare::CompareView,
    ks: Seq<(u32, u64)>,
    now: u64,
    finishing: bool,
)
    ensures
        c.swept_blocks(ks, now, finishing) == ks.fold_left(c, block_step(c, now, finishing)),
    decreases ks.len(),
{
    if ks.len() > 0 {
        lemma_blocks_are_folded(c, ks.drop_last(), now, finishing);
    }
}

/// The order in which a sweep goes through messages and stamps does not matter:
/// whatever the maps hand out first, the sweep comes to the same.
pub proof fn law_sweep_has_one_outcome(
    c: crate::loadtest::compare::CompareView,
    ks: Seq<u64>,
    ls: Seq<u64>,
    bs: Seq<(u32, u64)>,
    ds: Seq<(u32, u64)>,
    now: u64,
    finishing: bool,
)
    requires
        crate::loadtest::compare::lists_hashes(ks, c.seen.dom()),
        crate::loadtest::compare::lists_hashes(ls, c.seen.dom()),
        crate::loadtest::compare::lists_stamps(bs, c.blocks.dom()),
        crate::loadtest::compare::lists_stamps(ds, c.blocks.dom()),
    ensures
        c.swept_seen(ks, now, finishing).swept_blocks(bs, now, finishing) == c.swept_seen(
            ls,
            now,
            finishing,
        ).swept_blocks(ds, now, finishing),
{
    lemma_seen_is_folded(c, ks, now, finishing);
    lemma_seen_is_folded(c, ls, now, finishing);
    lemma_seen_steps_commute(c, now, finishing);
    assert forall|k: u64| ks.contains(k) <==> #[trigger] ls.contains(k) by {
        assert(ks.contains(k) <==> c.seen.dom().contains(k));
    }
    crate::order::lemma_any_order(c, ks, ls, seen_step(c, now, finishing));
    let mid = c.swept_seen(ks, now, finishing);
    lemma_blocks_are_folded(mid, bs, now, finishing);
    lemma_blocks_are_folded(mid, ds, now, finishing);
    lemma_block_steps_commute(mid, now, finishing);
    assert forall|k: (u32, u64)| bs.contains(k) <==> #[trigger] ds.contains(k) by {
        assert(bs.contains(k) <==> c.blocks.dom().contains(k));
    }
    crate::order::lemma_any_order(mid, bs, ds, block_step(mid, now, finishing));
}

} // verus!
