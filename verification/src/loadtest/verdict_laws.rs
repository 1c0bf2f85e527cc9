//! What the figures of a comparison add up to.

use crate::arbitration::Stamp;
use crate::loadtest::compare::{Slots, Verdict};
use vstd::prelude::*;

verus! {

/// Each message that both the proxy and a node had adds its own lag: what the proxy had
/// later is added to what it trailed by, what it had earlier to what it led by, in whole
/// microseconds, and the other of the two stays. A message that only one side had adds
/// to neither.
pub proof fn law_matched_message_adds_its_lag(
    v: Verdict,
    ours: Option<u64>,
    theirs: Option<u64>,
    stale: bool,
    carried: bool,
    ahead: bool,
)
    ensures
        ({
            let w = v.with_message(ours, theirs, stale, carried, ahead);
            match (ours, theirs) {
                (Some(o), Some(t)) => {
                    &&& v.matched < u64::MAX ==> w.matched == v.matched + 1
                    &&& o >= t ==> {
                        &&& w.behind_us == v.behind_us + (o - t) / 1000 || w.behind_us
                            == v.behind_us + (o - t) / 1000 - u64::MAX - 1
                        &&& v.behind_us + (o - t) / 1000 <= u64::MAX ==> w.behind_us
                            == v.behind_us + (o - t) / 1000
                        &&& v.behind_n < u64::MAX ==> w.behind_n == v.behind_n + 1
                        &&& w.ahead_us == v.ahead_us && w.ahead_n == v.ahead_n
                    }
                    &&& o < t ==> {
                        &&& w.ahead_us == v.ahead_us + (t - o) / 1000 || w.ahead_us == v.ahead_us
                            + (t - o) / 1000 - u64::MAX - 1
                        &&& v.ahead_us + (t - o) / 1000 <= u64::MAX ==> w.ahead_us == v.ahead_us
                            + (t - o) / 1000
                        &&& v.ahead_n < u64::MAX ==> w.ahead_n == v.ahead_n + 1
                        &&& w.behind_us == v.behind_us && w.behind_n == v.behind_n
                    }
                },
                _ => {
                    &&& w.matched == v.matched
                    &&& w.behind_us == v.behind_us && w.behind_n == v.behind_n
                    &&& w.ahead_us == v.ahead_us && w.ahead_n == v.ahead_n
                },
            }
        }),
{
}

/// A message that a node had and the proxy had not is stale if the proxy was past it
/// when it appeared; else superseded if the proxy carried its stamp; else skipped if the
/// proxy has gone past it since; else lost. One that only the proxy had is invented. It
/// is counted as that and nothing else.
pub proof fn law_missing_message_is_told_apart(
    v: Verdict,
    t: u64,
    o: u64,
    stale: bool,
    carried: bool,
    ahead: bool,
)
    requires
        crate::loadtest::compare_laws::has_room(v),
    ensures
        ({
            let w = v.with_message(None, Some(t), stale, carried, ahead);
            &&& w.stale_dropped - v.stale_dropped == if stale {
                1int
            } else {
                0int
            }
            &&& w.superseded - v.superseded == if !stale && carried {
                1int
            } else {
                0int
            }
            &&& w.skipped - v.skipped == if !stale && !carried && ahead {
                1int
            } else {
                0int
            }
            &&& w.lost - v.lost == if !stale && !carried && !ahead {
                1int
            } else {
                0int
            }
            &&& w.matched == v.matched && w.invented == v.invented
            &&& w.undecided == v.undecided
            &&& w.twin_both == v.twin_both && w.node_only == v.node_only && w.twin_only
                == v.twin_only
            &&& w.short == v.short && w.short_frames == v.short_frames
            &&& w.led == v.led && w.raced == v.raced
        }),
        ({
            let w = v.with_message(Some(o), None, stale, carried, ahead);
            w == (Verdict { invented: (v.invented + 1) as u64, ..v })
        }),
        v.with_message(None, None, stale, carried, ahead) == v,
{
}

/// A message that both connections to one node had adds the time between the two to the
/// spread, is kept as the widest if it is, and counts for whichever of them had it
/// first; one that only one of them had counts for that one. What is known of the proxy
/// does not change.
pub proof fn law_twins_measure_the_spread(v: Verdict, b: u64, a: u64)
    ensures
        ({
            let w = v.with_twin(Some(b), Some(a));
            let d = if a >= b {
                (a - b) / 1000
            } else {
                (b - a) / 1000
            };
            &&& v.twin_both < u64::MAX ==> w.twin_both == v.twin_both + 1
            &&& v.noise_n < u64::MAX ==> w.noise_n == v.noise_n + 1
            &&& v.noise_us + d <= u64::MAX ==> w.noise_us == v.noise_us + d
            &&& w.noise_max_us >= v.noise_max_us && w.noise_max_us >= d
            &&& w.noise_max_us == v.noise_max_us || w.noise_max_us == d
            &&& a < b && v.twin_first < u64::MAX ==> w.twin_first == v.twin_first + 1
                && w.twin_second == v.twin_second
            &&& a >= b && v.twin_second < u64::MAX ==> w.twin_second == v.twin_second + 1
                && w.twin_first == v.twin_first
            &&& w.node_only == v.node_only && w.twin_only == v.twin_only
            &&& w.matched == v.matched && w.lost == v.lost && w.invented == v.invented
            &&& w.behind_us == v.behind_us && w.ahead_us == v.ahead_us
            &&& w.behind_n == v.behind_n && w.ahead_n == v.ahead_n
            &&& w.stale_dropped == v.stale_dropped && w.superseded == v.superseded && w.skipped
                == v.skipped
        }),
        v.node_only < u64::MAX ==> v.with_twin(Some(b), None) == (Verdict {
            node_only: (v.node_only + 1) as u64,
            ..v
        }),
        v.twin_only < u64::MAX ==> v.with_twin(None, Some(a)) == (Verdict {
            twin_only: (v.twin_only + 1) as u64,
            ..v
        }),
        v.with_twin(None, None) == v,
{
}

/// Nothing is concluded at the start of a run.
pub proof fn law_verdict_starts_from_nothing()
    ensures
        ({
            let v = Verdict::zero();
            &&& v.matched == 0 && v.lost == 0 && v.stale_dropped == 0 && v.superseded == 0
            &&& v.skipped == 0 && v.invented == 0 && v.undecided == 0
            &&& v.behind_us == 0 && v.behind_n == 0 && v.ahead_us == 0 && v.ahead_n == 0
            &&& v.noise_us == 0 && v.noise_n == 0 && v.noise_max_us == 0
            &&& v.twin_first == 0 && v.twin_second == 0 && v.twin_both == 0
            &&& v.node_only == 0 && v.twin_only == 0 && v.short == 0 && v.short_frames == 0
            &&& v.led.seen == 0 && v.raced.seen == 0
            &&& v.led.same_agree == 0 && v.led.same_differ == 0
            &&& v.led.cross_agree == 0 && v.led.cross_differ == 0
            &&& v.raced == v.led
        }),
{
}

/// The moment a message is compared by is the earliest at which any of the nodes had
/// it, the proxy and the twin left out; there is one exactly when some node did.
pub proof fn law_first_node_sets_the_time(e: crate::loadtest::compare::SeenView, n: int)
    requires
        0 <= n,
    ensures
        e.earliest(n) is None <==> forall|s: int| 1 <= s <= n ==> (#[trigger] e.at[s]) is None,
        e.earliest(n) matches Some(t) ==> {
            &&& exists|s: int| 1 <= s <= n && #[trigger] e.at[s] == Some(t)
            &&& forall|s: int| 1 <= s <= n && (#[trigger] e.at[s]) is Some ==> t <= e.at[s]->0
        },
    decreases n,
{
    if n > 0 {
        law_first_node_sets_the_time(e, n - 1);
        if e.earliest(n - 1) is Some {
            let t = e.earliest(n - 1)->0;
            let s = choose|s: int| 1 <= s <= n - 1 && #[trigger] e.at[s] == Some(t);
            assert(e.at[s] is Some);
        }
        if e.at[n] is Some {
            assert(e.at[n] == Some(e.at[n]->0));
        }
    }
}

/// Only the first time that a stream has a message counts, with the age it had then;
/// what other streams had, and when it first appeared, stays.
pub proof fn law_only_the_first_copy_counts(
    e: crate::loadtest::compare::SeenView,
    slot: int,
    other: int,
    now: u64,
    age: Option<u32>,
)
    requires
        e.wf(),
        0 <= slot < 8,
        0 <= other < 8,
        other != slot,
    ensures
        ({
            let after = e.had_by(slot, now, age);
            &&& e.at[slot] is Some ==> after == e
            &&& e.at[slot] is None ==> after.at[slot] == Some(now) && after.ages[slot] == (
            match age {
                Some(a) => a,
                None => e.ages[slot],
            })
            &&& after.at[other] == e.at[other]
            &&& after.ages[other] == e.ages[other]
            &&& after.born == e.born && after.key == e.key && after.seq == e.seq
            &&& after.born_max == e.born_max
            &&& after.wf()
        }),
{
}

/// A message that has just appeared was had by nobody, and its age is known nowhere.
pub proof fn law_messages_start_unseen(now: u64, key: u32, seq: u64, born_max: u64, slot: int)
    requires
        0 <= slot < 8,
    ensures
        ({
            let e = crate::loadtest::compare::SeenView::fresh(now, key, seq, born_max);
            &&& e.wf()
            &&& e.at[slot] is None
            &&& e.ages[slot] == u32::MAX
            &&& e.born == now && e.key == key && e.seq == seq && e.born_max == born_max
        }),
{
}

/// The best of the nodes on a stamp is the one that carried most messages of it.
pub proof fn law_best_node_carried_most(b: crate::loadtest::compare::BlockView, n: int)
    requires
        0 <= n,
    ensures
        forall|s: int| 1 <= s <= n ==> #[trigger] b.n[s] <= b.best(n),
        b.best(n) == 0 || exists|s: int| 1 <= s <= n && #[trigger] b.n[s] == b.best(n),
    decreases n,
{
    if n > 0 {
        law_best_node_carried_most(b, n - 1);
        if b.n[n] <= b.best(n - 1) && b.best(n - 1) > 0 {
            let s = choose|s: int| 1 <= s <= n - 1 && #[trigger] b.n[s] == b.best(n - 1);
            assert(b.n[s] == b.best(n));
        } else {
            assert(b.n[n] == b.best(n) || b.best(n) == 0);
        }
    }
}

/// One more message of a stamp on one stream is one more there and no other anywhere.
pub proof fn law_messages_of_a_stamp_are_counted(
    b: crate::loadtest::compare::BlockView,
    slot: int,
    other: int,
)
    requires
        b.wf(),
        0 <= slot < 8,
        0 <= other < 8,
        other != slot,
        b.n[slot] < u32::MAX,
    ensures
        b.carried_by(slot).n[slot] == b.n[slot] + 1,
        b.carried_by(slot).n[other] == b.n[other],
        b.carried_by(slot).born == b.born,
        b.carried_by(slot).raced == b.raced,
{
}

/// On a stamp that every stream carried the proxy is short exactly when some node
/// carried more of it, and by how many the best of them did. Two connections to one
/// node, and two nodes, agree where they carried as many, and are only held against each
/// other where there are two of them; raced channels and led ones are kept apart.
pub proof fn law_stamps_are_held_against_the_best(
    v: Verdict,
    b: crate::loadtest::compare::BlockView,
    slots: Slots,
)
    requires
        b.wf(),
        slots.wf(),
        v.short < u64::MAX,
        v.short_frames + u32::MAX <= u64::MAX,
        v.raced.seen < u64::MAX && v.led.seen < u64::MAX,
        v.raced.same_agree < u64::MAX && v.led.same_agree < u64::MAX,
        v.raced.same_differ < u64::MAX && v.led.same_differ < u64::MAX,
        v.raced.cross_agree < u64::MAX && v.led.cross_agree < u64::MAX,
        v.raced.cross_differ < u64::MAX && v.led.cross_differ < u64::MAX,
    ensures
        ({
            let w = v.with_block(b, slots);
            let best = b.best(slots.nodes as int);
            let was = if b.raced {
                v.raced
            } else {
                v.led
            };
            let is = if b.raced {
                w.raced
            } else {
                w.led
            };
            let same = b.n[1] == b.n[slots.nodes + 1];
            let cross = b.n[1] == b.n[2];
            let yes = |x: bool|
                if x {
                    1int
                } else {
                    0int
                };
            &&& w.short - v.short == yes(best > b.n[0])
            &&& best > b.n[0] ==> w.short_frames == v.short_frames + best - b.n[0]
            &&& best <= b.n[0] ==> w.short_frames == v.short_frames
            &&& is.seen == was.seen + 1
            &&& is.same_agree == was.same_agree + yes(slots.twin && same)
            &&& is.same_differ == was.same_differ + yes(slots.twin && !same)
            &&& is.cross_agree == was.cross_agree + yes(slots.nodes > 1 && cross)
            &&& is.cross_differ == was.cross_differ + yes(slots.nodes > 1 && !cross)
            &&& b.raced ==> w.led == v.led
            &&& !b.raced ==> w.raced == v.raced
            &&& w.matched == v.matched && w.lost == v.lost && w.invented == v.invented
            &&& w.behind_us == v.behind_us && w.ahead_us == v.ahead_us
        }),
{
}

/// The slots are the proxy, the nodes, and the twin behind them where there is one.
pub proof fn law_slots_are_laid_out(slots: Slots)
    requires
        slots.wf(),
    ensures
        slots.used() == slots.nodes + 1 + if slots.twin {
            1int
        } else {
            0int
        },
        slots.used() <= 8,
        slots.twin ==> slots.twin_slot() == slots.used() - 1,
        slots.twin ==> slots.nodes >= 1,
{
}

/// Something is still young while less than the window has passed since it appeared.
pub proof fn law_young_is_within_the_window(born: u64, now: u64, window: u64)
    ensures
        crate::loadtest::compare::young(born, now, window) <==> now < born && window > 0 || now
            >= born && now - born < window,
{
}

/// Each stream is charged with the age that the message had there, one bucket per
/// millisecond and everything from two minutes on together.
pub proof fn law_ages_are_charged_by_millisecond(
    ages: Seq<Seq<u32>>,
    e: crate::loadtest::compare::SeenView,
    s: int,
    bucket: int,
)
    requires
        0 <= s < ages.len(),
        ages[s].len() == 120001,
        0 <= bucket < 120001,
    ensures
        ({
            let after = crate::loadtest::compare::charged(ages, e);
            let hit = if e.ages[s] < 120000 {
                e.ages[s] as int
            } else {
                120000int
            };
            &&& after.len() == ages.len()
            &&& after[s].len() == 120001
            &&& bucket == hit && ages[s][bucket] < u32::MAX ==> after[s][bucket]
                == ages[s][bucket] + 1
            &&& bucket != hit ==> after[s][bucket] == ages[s][bucket]
        }),
{
}

/// Messages are counted per stamp where a stamp has several: raced on the channels of
/// blocks, led on those where one source carries a stamp or a stream.
pub proof fn law_stamps_with_several_messages_are_counted(h: u64)
    ensures
        crate::loadtest::compare::counted_stamp(Stamp::Block(h)) == Some((h, true)),
        crate::loadtest::compare::counted_stamp(Stamp::Lead(h)) == Some((h, false)),
        crate::loadtest::compare::counted_stamp(Stamp::Sticky(h)) == Some((h, false)),
        crate::loadtest::compare::counted_stamp(Stamp::Point(h)) is None,
        crate::loadtest::compare::counted_stamp(Stamp::Snapshot(h)) is None,
{
}

/// A message is noted once per stream, under its own hash, together with the newest
/// stamp that the proxy had delivered by then; of no other message anything changes. The
/// proxy's newest stamp moves on with what the proxy delivers and with nothing else, and
/// no conclusion is drawn yet.
pub proof fn law_recording_notes_one_message(
    c: crate::loadtest::compare::CompareView,
    slot: usize,
    hash: u64,
    other: u64,
    key: u32,
    stamp: Stamp,
    now: u64,
    age: Option<u32>,
)
    requires
        c.wf(),
        slot < 8,
        key < c.newest.len() && key != u32::MAX,
        other != hash,
    ensures
        ({
            let after = c.recorded(slot, hash, key, stamp, now, age);
            let newest = if slot == 0 && stamp.value() > c.newest[key as int] {
                stamp.value()
            } else {
                c.newest[key as int]
            };
            &&& after.newest[key as int] == newest
            &&& forall|k: int| 0 <= k < c.newest.len() && k != key ==> #[trigger] after.newest[k]
                == c.newest[k]
            &&& after.seen.dom().contains(hash)
            &&& after.seen[hash].at[slot as int] is Some
            &&& !c.seen.dom().contains(hash) ==> {
                &&& after.seen[hash].at[slot as int] == Some(now)
                &&& after.seen[hash].born == now
                &&& after.seen[hash].key == key
                &&& after.seen[hash].seq == stamp.value()
                &&& after.seen[hash].born_max == newest
            }
            &&& c.seen.dom().contains(hash) ==> after.seen[hash] == c.seen[hash].had_by(
                slot as int,
                now,
                age,
            )
            &&& after.seen.dom().contains(other) == c.seen.dom().contains(other)
            &&& after.seen[other] == c.seen[other]
            &&& after.verdict == c.verdict
            &&& after.ages == c.ages
            &&& after.slots == c.slots && after.window == c.window
        }),
{
}

/// A message of a channel that has several to a stamp is one more of its stamp on that
/// stream; of no other stamp anything changes.
pub proof fn law_recording_counts_its_stamp(
    c: crate::loadtest::compare::CompareView,
    slot: usize,
    key: u32,
    stamp: Stamp,
    now: u64,
    hash: u64,
    age: Option<u32>,
    other: (u32, u64),
)
    requires
        c.wf(),
        slot < 8,
        key < c.newest.len() && key != u32::MAX,
        other != (key, stamp.value()),
    ensures
        ({
            let after = c.recorded(slot, hash, key, stamp, now, age);
            let k = (key, stamp.value());
            let several = stamp is Block || stamp is Lead || stamp is Sticky;
            &&& several ==> after.blocks.dom().contains(k)
            &&& several && c.blocks.dom().contains(k) && c.blocks[k].n[slot as int] < u32::MAX
                ==> after.blocks[k].n[slot as int] == c.blocks[k].n[slot as int] + 1
                && after.blocks[k].born == c.blocks[k].born && after.blocks[k].raced
                == c.blocks[k].raced
            &&& several && !c.blocks.dom().contains(k) ==> after.blocks[k].n[slot as int] == 1
                && after.blocks[k].born == now && after.blocks[k].raced == (stamp is Block)
            &&& !several ==> after.blocks == c.blocks
            &&& after.blocks.dom().contains(other) == c.blocks.dom().contains(other)
            &&& after.blocks[other] == c.blocks[other]
        }),
{
}

/// Messages of subscriptions that were not asked for touch neither the proxy's newest
/// stamps nor the counts by stamp.
pub proof fn law_strange_messages_move_nothing(
    c: crate::loadtest::compare::CompareView,
    slot: usize,
    hash: u64,
    stamp: Stamp,
    now: u64,
    age: Option<u32>,
)
    ensures
        c.recorded(slot, hash, u32::MAX, stamp, now, age).newest == c.newest,
        c.recorded(slot, hash, u32::MAX, stamp, now, age).blocks == c.blocks,
{
}

/// A message that is still young is left for later, or counted as undecided at the end;
/// any other is judged by when the proxy and the first node had it, whether the proxy
/// was past it when it appeared, whether it carried its stamp, and whether it has gone
/// past it since. Ages are charged only where every stream in use knew them.
pub proof fn law_messages_are_judged_by_the_record(
    c: crate::loadtest::compare::CompareView,
    e: crate::loadtest::compare::SeenView,
    now: u64,
    finishing: bool,
)
    requires
        c.wf(),
        c.verdict.undecided < u64::MAX,
    ensures
        ({
            let after = c.judged(e, now, finishing);
            let young = now < e.born && c.window > 0 || now >= e.born && now - e.born < c.window;
            let known = e.key != u32::MAX;
            let first = e.earliest(c.slots.nodes as int);
            let carried = known && c.blocks.dom().contains((e.key, e.seq)) && c.blocks[(
                e.key,
                e.seq,
            )].n[0] > 0;
            let base = if c.slots.twin {
                c.verdict.with_twin(e.at[1], e.at[c.slots.nodes + 1])
            } else {
                c.verdict
            };
            &&& young && !finishing ==> after == c
            &&& young && finishing ==> after.verdict == (Verdict {
                undecided: (c.verdict.undecided + 1) as u64,
                ..c.verdict
            }) && after.ages == c.ages
            &&& !young ==> after.verdict == base.with_message(
                e.at[0],
                first,
                known && e.born_max > e.seq,
                carried,
                known && c.newest[e.key as int] > e.seq,
            )
            &&& !young && (exists|s: int|
                0 <= s < c.slots.used() && #[trigger] e.ages[s] == u32::MAX) ==> after.ages
                == c.ages
            &&& !young && (forall|s: int| 0 <= s < c.slots.used() ==> #[trigger] e.ages[s]
                != u32::MAX) ==> after.ages == crate::loadtest::compare::charged(c.ages, e)
            &&& after.seen == c.seen && after.blocks == c.blocks && after.newest == c.newest
            &&& after.slots == c.slots && after.window == c.window
        }),
{
}

/// By how many microseconds the proxy trailed the first node on a message that leaves
/// the comparison, and nothing where it did not or the message stays.
pub open spec fn lag_of(
    c: crate::loadtest::compare::CompareView,
    e: crate::loadtest::compare::SeenView,
    now: u64,
) -> int {
    match (e.at[0], e.earliest(c.slots.nodes as int)) {
        (Some(o), Some(t)) => if o >= t && !crate::loadtest::compare::young(
            e.born,
            now,
            c.window,
        ) {
            (o - t) / 1000
        } else {
            0
        },
        _ => 0,
    }
}

/// The same for what it led by.
pub open spec fn lead_of(
    c: crate::loadtest::compare::CompareView,
    e: crate::loadtest::compare::SeenView,
    now: u64,
) -> int {
    match (e.at[0], e.earliest(c.slots.nodes as int)) {
        (Some(o), Some(t)) => if o < t && !crate::loadtest::compare::young(
            e.born,
            now,
            c.window,
        ) {
            (t - o) / 1000
        } else {
            0
        },
        _ => 0,
    }
}

/// The lags of some messages, summed up.
pub open spec fn lags(
    c: crate::loadtest::compare::CompareView,
    ks: Seq<u64>,
    now: u64,
) -> int {
    ks.fold_left(0int, |sum: int, k: u64| sum + lag_of(c, c.seen[k], now))
}

/// The leads of some messages, summed up.
pub open spec fn leads(
    c: crate::loadtest::compare::CompareView,
    ks: Seq<u64>,
    now: u64,
) -> int {
    ks.fold_left(0int, |sum: int, k: u64| sum + lead_of(c, c.seen[k], now))
}

/// A sweep adds the lag of every message that leaves, and nothing else, to what the
/// proxy trailed by, and the lead of every one to what it led by.
pub proof fn law_sweep_sums_the_lags(
    c: crate::loadtest::compare::CompareView,
    ks: Seq<u64>,
    now: u64,
    finishing: bool,
)
    requires
        c.verdict.behind_us + lags(c, ks, now) <= u64::MAX,
        c.verdict.ahead_us + leads(c, ks, now) <= u64::MAX,
    ensures
        c.swept_seen(ks, now, finishing).verdict.behind_us == c.verdict.behind_us + lags(
            c,
            ks,
            now,
        ),
        c.swept_seen(ks, now, finishing).verdict.ahead_us == c.verdict.ahead_us + leads(
            c,
            ks,
            now,
        ),
{
    lemma_sweep_sums(c, ks, now, finishing);
}

proof fn lemma_sweep_sums(
    c: crate::loadtest::compare::CompareView,
    ks: Seq<u64>,
    now: u64,
    finishing: bool,
)
    requires
        c.verdict.behind_us + lags(c, ks, now) <= u64::MAX,
        c.verdict.ahead_us + leads(c, ks, now) <= u64::MAX,
    ensures
        ({
            let after = c.swept_seen(ks, now, finishing);
            &&& after.verdict.behind_us == c.verdict.behind_us + lags(c, ks, now)
            &&& after.verdict.ahead_us == c.verdict.ahead_us + leads(c, ks, now)
            &&& after.slots == c.slots
            &&& after.window == c.window
            &&& after.blocks == c.blocks
            &&& after.newest == c.newest
        }),
    decreases ks.len(),
{
    if ks.len() > 0 {
        let e = c.seen[ks.last()];
        assert(lags(c, ks, now) == lags(c, ks.drop_last(), now) + lag_of(c, e, now));
        assert(leads(c, ks, now) == leads(c, ks.drop_last(), now) + lead_of(c, e, now));
        lemma_sweep_sums(c, ks.drop_last(), now, finishing);
    }
}

/// A sweep that is not the last takes out exactly what is no longer young, messages and
/// stamps alike, and leaves the rest as it is.
pub proof fn law_sweep_keeps_the_young(
    c: crate::loadtest::compare::CompareView,
    ks: Seq<u64>,
    now: u64,
    k: u64,
)
    ensures
        ({
            let after = c.swept_seen(ks, now, false);
            &&& after.seen.dom().contains(k) <==> c.seen.dom().contains(k) && !(ks.contains(k)
                && !crate::loadtest::compare::young(c.seen[k].born, now, c.window))
            &&& after.seen.dom().contains(k) ==> after.seen[k] == c.seen[k]
            &&& after.blocks == c.blocks
            &&& after.newest == c.newest
            &&& after.slots == c.slots && after.window == c.window
        }),
    decreases ks.len(),
{
    if ks.len() > 0 {
        let rest = ks.drop_last();
        law_sweep_keeps_the_young(c, rest, now, k);
        if rest.contains(k) {
            assert(ks[rest.index_of(k)] == k);
        }
        if k == ks.last() {
            assert(ks[ks.len() - 1] == k);
        }
        if ks.contains(k) && k != ks.last() {
            assert(rest[ks.index_of(k)] == k);
        }
    }
}

/// The same of stamps: those that are no longer young leave, and are only held against
/// each other where every stream in use carried them.
pub proof fn law_sweep_keeps_young_stamps(
    c: crate::loadtest::compare::CompareView,
    ks: Seq<(u32, u64)>,
    now: u64,
    k: (u32, u64),
)
    ensures
        ({
            let after = c.swept_blocks(ks, now, false);
            &&& after.blocks.dom().contains(k) <==> c.blocks.dom().contains(k) && !(ks.contains(k)
                && !crate::loadtest::compare::young(c.blocks[k].born, now, c.window))
            &&& after.blocks.dom().contains(k) ==> after.blocks[k] == c.blocks[k]
            &&& after.seen == c.seen
            &&& after.newest == c.newest
            &&& after.ages == c.ages
            &&& after.slots == c.slots && after.window == c.window
            &&& after.verdict.matched == c.verdict.matched
            &&& after.verdict.lost == c.verdict.lost
            &&& after.verdict.behind_us == c.verdict.behind_us
            &&& after.verdict.ahead_us == c.verdict.ahead_us
        }),
    decreases ks.len(),
{
    if ks.len() > 0 {
        let rest = ks.drop_last();
        law_sweep_keeps_young_stamps(c, rest, now, k);
        if rest.contains(k) {
            assert(ks[rest.index_of(k)] == k);
        }
        if k == ks.last() {
            assert(ks[ks.len() - 1] == k);
        }
        if ks.contains(k) && k != ks.last() {
            assert(rest[ks.index_of(k)] == k);
        }
    }
}

/// A stamp that leaves is held against the best exactly when it is no longer young and
/// every stream in use carried a message of it.
pub proof fn law_only_common_stamps_are_compared(
    c: crate::loadtest::compare::CompareView,
    k: (u32, u64),
    now: u64,
    finishing: bool,
)
    requires
        c.wf(),
        c.blocks.dom().contains(k),
    ensures
        ({
            let b = c.blocks[k];
            let after = c.swept_blocks(seq![k], now, finishing);
            let common = forall|s: int| 0 <= s < c.slots.used() ==> #[trigger] b.n[s] > 0;
            let old = !crate::loadtest::compare::young(b.born, now, c.window);
            after.verdict == if old && common {
                c.verdict.with_block(b, c.slots)
            } else {
                c.verdict
            }
        }),
{
    let b = c.blocks[k];
    assert(seq![k].drop_last() =~= Seq::<(u32, u64)>::empty());
    assert(c.swept_blocks(Seq::<(u32, u64)>::empty(), now, finishing) == c);
    assert(seq![k].last() == k);
    assert(b.on_all(c.slots.used() as int) <==> forall|s: int|
        0 <= s < c.slots.used() ==> #[trigger] b.n[s] > 0);
}

/// A comparison starts with nothing seen, nothing counted and every subscription before
/// its first stamp; there is a histogram of ages for each stream, of one bucket per
/// millisecond up to two minutes, all of them empty.
pub proof fn law_comparisons_start_empty(slots: Slots, subs: usize, window: u64, i: int, a: int)
    requires
        slots.wf(),
    ensures
        ({
            let c = crate::loadtest::compare::CompareView::fresh(slots, subs, window);
            &&& c.slots == slots
            &&& c.window == window
            &&& c.seen.dom().is_empty()
            &&& c.blocks.dom().is_empty()
            &&& c.newest.len() == subs
            &&& 0 <= i < subs ==> c.newest[i] == 0
            &&& c.ages.len() == slots.nodes + 1 + (if slots.twin {
                1int
            } else {
                0int
            })
            &&& 0 <= i < c.ages.len() ==> c.ages[i].len() == 120001
            &&& 0 <= i < c.ages.len() && 0 <= a <= 120000 ==> c.ages[i][a] == 0
            &&& c.verdict.matched == 0 && c.verdict.lost == 0 && c.verdict.invented == 0
            &&& c.verdict.behind_us == 0 && c.verdict.ahead_us == 0
            &&& c.verdict.behind_n == 0 && c.verdict.ahead_n == 0
            &&& c.verdict.stale_dropped == 0 && c.verdict.superseded == 0
            &&& c.verdict.skipped == 0 && c.verdict.undecided == 0
            &&& c.verdict.noise_us == 0 && c.verdict.noise_n == 0 && c.verdict.noise_max_us == 0
            &&& c.verdict.twin_first == 0 && c.verdict.twin_second == 0
        }),
{
}

} // verus!
