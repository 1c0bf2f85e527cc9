//! What the figures of a report mean.

use crate::loadtest::compare::Verdict;
use crate::loadtest::report::Cell;
use crate::loadtest::stream::StreamStats;
use crate::loadtest::summary::{AgeRow, Findings, Framing, Matched, Note, Standing};
use vstd::prelude::*;

verus! {

// ---------------------------------------------------------------------------
// Figures
// ---------------------------------------------------------------------------

/// What a histogram holds is the sum of its buckets.
pub proof fn law_histogram_holds_its_buckets(hist: Seq<u32>, x: u32)
    ensures
        crate::loadtest::report::held_below(hist, 0) == 0,
        crate::loadtest::report::held_below(hist.push(x), hist.len() as int + 1)
            == crate::loadtest::report::held_below(hist, hist.len() as int) + x,
{
    lemma_held_prefix(hist, x, hist.len() as int);
}

proof fn lemma_held_prefix(hist: Seq<u32>, x: u32, n: int)
    requires
        0 <= n <= hist.len(),
    ensures
        crate::loadtest::report::held_below(hist.push(x), n)
            == crate::loadtest::report::held_below(hist, n),
    decreases n,
{
    if n > 0 {
        lemma_held_prefix(hist, x, n - 1);
    }
}

/// The bucket at a percentile is one that holds something, and so many hundredths of
/// the values lie before it: those in the buckets below are no more, those up to and
/// with it are more.
pub proof fn law_percentile_splits_the_histogram(hist: Seq<u32>, p: int, i: int)
    requires
        crate::loadtest::report::is_pct(hist, p, i),
    ensures
        0 <= i < hist.len(),
        hist[i] > 0,
        ({
            let total = crate::loadtest::report::held_below(hist, hist.len() as int);
            let before = crate::loadtest::report::held_below(hist, i);
            &&& before <= (total - 1) * p / 100
            &&& before + hist[i] > (total - 1) * p / 100
        }),
{
}

/// A second of a strip shows its messages where there are any; before the first of them
/// nothing had been asked for yet; and a silence after that is a fault exactly when
/// somebody else had data.
pub proof fn law_silence_is_a_fault_only_alone(counts: Seq<u32>, alive: Seq<bool>, i: int)
    requires
        0 <= i,
    ensures
        ({
            let cell = crate::loadtest::report::cell_at(counts, alive, i);
            let here = if i < counts.len() {
                counts[i]
            } else {
                0
            };
            let begun = exists|j: int|
                0 <= j <= i && j < counts.len() && #[trigger] counts[j] > 0;
            &&& here > 0 ==> cell == Cell::Active(here)
            &&& !begun ==> cell == Cell::NotYet
            &&& begun && here == 0 && i < alive.len() && alive[i] ==> cell == Cell::Broken
            &&& begun && here == 0 && !(i < alive.len() && alive[i]) ==> cell == Cell::Quiet
        }),
{
    let begun = exists|j: int| 0 <= j <= i && j < counts.len() && #[trigger] counts[j] > 0;
    if begun {
        let j = choose|j: int| 0 <= j <= i && j < counts.len() && #[trigger] counts[j] > 0;
        assert(crate::loadtest::report::count_at(counts, j) > 0);
    } else {
        assert forall|j: int| 0 <= j <= i implies #[trigger] crate::loadtest::report::count_at(
            counts,
            j,
        ) == 0 by {
            if j < counts.len() {
                assert(!(counts[j] > 0));
            }
        }
    }
}

/// The mean age over some seconds is all their ages divided by all their messages, and
/// there is none without a message.
pub proof fn law_mean_age_is_over_messages(v: Seq<(u64, u32)>, sum: u64, n: u32)
    requires
        crate::loadtest::report::age_sums(v).0 + sum <= u64::MAX,
        crate::loadtest::report::age_sums(v).1 + n <= u64::MAX,
    ensures
        crate::loadtest::report::age_sums(seq![]) == (0u64, 0u64),
        crate::loadtest::report::age_sums(v.push((sum, n))).0
            == crate::loadtest::report::age_sums(v).0 + sum,
        crate::loadtest::report::age_sums(v.push((sum, n))).1
            == crate::loadtest::report::age_sums(v).1 + n,
        crate::loadtest::report::age_sums(v).1 == 0 ==> crate::loadtest::report::mean_age(
            v,
        ) is None,
        crate::loadtest::report::age_sums(v).1 > 0 ==> crate::loadtest::report::mean_age(v)
            == Some(
            (crate::loadtest::report::age_sums(v).0 / crate::loadtest::report::age_sums(v).1),
        ),
{
    assert(v.push((sum, n)).drop_last() =~= v);
}

/// Ages are averaged over stretches of ten seconds, one behind the other: second `s`
/// belongs to stretch `s / 10`.
pub proof fn law_ages_are_averaged_over_ten_seconds(v: Seq<(u64, u32)>, s: int)
    requires
        0 <= s < v.len(),
    ensures
        ({
            let w = crate::loadtest::report::age_window(v, s / 10);
            &&& 0 <= s % 10 < w.len() <= 10
            &&& w[s % 10] == v[s]
        }),
{
    let i = s / 10;
    assert(i * 10 + s % 10 == s);
}

/// The sum of some ages is each of them added to the rest.
pub proof fn law_ages_are_summed(v: Seq<u64>, x: u64)
    ensures
        crate::loadtest::report::total(seq![]) == 0,
        crate::loadtest::report::total(v) + x <= u64::MAX ==> crate::loadtest::report::total(
            v.push(x),
        ) == crate::loadtest::report::total(v) + x,
{
    assert(v.push(x).drop_last() =~= v);
}

/// A run climbs when the mean age of its last quarter is over two seconds and over
/// three times that of its first, which counts for no less than a millisecond; by how
/// much per stretch is the difference over the stretches between the two.
pub proof fn law_climb_is_from_first_to_last_quarter(known: Seq<u64>)
    ensures
        ({
            let q = known.len() / 4;
            let c = crate::loadtest::report::climb_of(known);
            let head = crate::loadtest::report::total(known.take(q as int)) as int / (q as u64
                as int);
            let tail = crate::loadtest::report::total(known.skip(known.len() - q)) as int / (
            q as u64 as int);
            &&& known.len() < 4 ==> c is None
            &&& known.len() >= 4 && q <= u64::MAX ==> (c is Some <==> tail > 2000 && tail > 3
                * head && tail > 3)
            &&& known.len() >= 4 && q <= u64::MAX && c is Some ==> {
                &&& c->0.head == head
                &&& c->0.tail == tail
                &&& c->0.per == (tail - head) / (known.len() - q)
            }
        }),
{
}

/// A stall is shared when another stream has one that began less than two seconds from
/// it, before or after.
pub proof fn law_stalls_close_together_are_shared(at: u64, others: Seq<(u64, u64)>)
    ensures
        crate::loadtest::report::shared_stall(at, others) <==> exists|i: int|
            0 <= i < others.len() && (#[trigger] others[i]).0 < at + 2000000000 && at < others[i].0
                + 2000000000,
{
    if crate::loadtest::report::shared_stall(at, others) {
        let i = choose|i: int|
            0 <= i < others.len() && -crate::loadtest::report::NEAR < (#[trigger] others[i]).0 - at
                < crate::loadtest::report::NEAR;
        assert(others[i].0 < at + 2000000000 && at < others[i].0 + 2000000000);
    }
    if exists|i: int|
        0 <= i < others.len() && (#[trigger] others[i]).0 < at + 2000000000 && at < others[i].0
            + 2000000000 {
        let i = choose|i: int|
            0 <= i < others.len() && (#[trigger] others[i]).0 < at + 2000000000 && at < others[i].0
                + 2000000000;
        assert(-crate::loadtest::report::NEAR < others[i].0 - at < crate::loadtest::report::NEAR);
    }
}

/// Any text that begins as an error of the upstream is one, whatever follows, and a
/// shorter one is not.
pub proof fn law_errors_are_told_by_their_start(rest: Seq<u8>, b: Seq<u8>)
    ensures
        crate::loadtest::report::is_error(
            seq![123u8, 34, 99, 104, 97, 110, 110, 101, 108, 34, 58, 34, 101, 114, 114, 111, 114]
                + rest,
        ),
        b.len() < 17 ==> !crate::loadtest::report::is_error(b),
        crate::loadtest::report::is_error(b) ==> b.take(11) == seq![
            123u8,
            34,
            99,
            104,
            97,
            110,
            110,
            101,
            108,
            34,
            58,
        ],
{
    let start = seq![
        123u8,
        34,
        99,
        104,
        97,
        110,
        110,
        101,
        108,
        34,
        58,
        34,
        101,
        114,
        114,
        111,
        114,
    ];
    assert((start + rest).take(17) =~= start);
    if crate::loadtest::report::is_error(b) {
        assert(b.take(11) =~= b.take(17).take(11));
        assert(b.take(17).take(11) =~= start.take(11));
        assert(start.take(11) =~= seq![
            123u8,
            34,
            99,
            104,
            97,
            110,
            110,
            101,
            108,
            34,
            58,
        ]);
    }
}

// ---------------------------------------------------------------------------
// Summaries
// ---------------------------------------------------------------------------

/// A figure of all subscriptions is the sum over each of them.
pub proof fn law_totals_are_sums(
    keys: Seq<crate::loadtest::keystats::KeyView>,
    n: int,
    figure: spec_fn(crate::loadtest::keystats::KeyView) -> u64,
    i: int,
)
    requires
        0 <= n,
    ensures
        crate::loadtest::summary::summed(keys, 0, figure) == 0,
        crate::loadtest::summary::summed(keys, n + 1, figure)
            == crate::loadtest::summary::summed(keys, n, figure) + figure(keys[n]),
        crate::loadtest::summary::heard_count(keys, 0, i) == 0,
        crate::loadtest::summary::heard_count(keys, n + 1, i)
            == crate::loadtest::summary::heard_count(keys, n, i) + (if 0 <= i
            < keys[n].per_second.len() {
            keys[n].per_second[i] as int
        } else {
            0int
        }),
{
}

/// A second is alive exactly when some subscription had a message in it.
pub proof fn law_alive_when_anybody_was(
    keys: Seq<crate::loadtest::keystats::KeyView>,
    i: int,
)
    requires
        0 <= i,
    ensures
        crate::loadtest::summary::heard(keys, i) <==> exists|k: int|
            0 <= k < keys.len() && i < (#[trigger] keys[k]).per_second.len()
                && keys[k].per_second[i] > 0,
{
    if crate::loadtest::summary::heard(keys, i) {
        let k = choose|k: int|
            0 <= k < keys.len() && crate::loadtest::report::count_at(
                (#[trigger] keys[k]).per_second,
                i,
            ) > 0;
        assert(i < keys[k].per_second.len() && keys[k].per_second[i] > 0);
    }
    if exists|k: int|
        0 <= k < keys.len() && i < (#[trigger] keys[k]).per_second.len()
            && keys[k].per_second[i] > 0 {
        let k = choose|k: int|
            0 <= k < keys.len() && i < (#[trigger] keys[k]).per_second.len()
                && keys[k].per_second[i] > 0;
        assert(crate::loadtest::report::count_at(keys[k].per_second, i) > 0);
    }
}

/// More stalls are worse, then older data, then the earlier name; of two strips one is
/// worse.
pub proof fn law_stalls_come_first(strips: Seq<(u64, u32)>, a: int, b: int)
    ensures
        !crate::loadtest::summary::worse(strips, a, a),
        strips[a].0 > strips[b].0 ==> crate::loadtest::summary::worse(strips, a, b),
        strips[a].0 == strips[b].0 && strips[a].1 > strips[b].1
            ==> crate::loadtest::summary::worse(strips, a, b),
        strips[a] == strips[b] && a < b ==> crate::loadtest::summary::worse(strips, a, b),
        a != b ==> crate::loadtest::summary::worse(strips, a, b)
            != crate::loadtest::summary::worse(strips, b, a),
{
}

/// The strips that are shown are those that fewer than twelve are worse than, in the
/// order of their names.
pub proof fn law_twelve_strips_are_shown(strips: Seq<(u64, u32)>, n: int, b: int)
    requires
        0 <= n <= strips.len(),
        strips.len() <= usize::MAX,
    ensures
        ({
            let shown = crate::loadtest::summary::shown_of(strips, n);
            let worse = Seq::new(strips.len(), |i: int| i).filter(
                |i: int| crate::loadtest::summary::worse(strips, i, b),
            );
            &&& forall|i: int, j: int| 0 <= i < j < shown.len() ==> shown[i] < shown[j]
            &&& forall|i: int| 0 <= i < shown.len() ==> #[trigger] shown[i] < n
            &&& 0 <= b < n ==> (shown.contains(b as usize) <==> worse.len() < 12)
        }),
{
    lemma_shown(strips, n, b);
    lemma_worse_count(strips, b, strips.len() as int);
}

proof fn lemma_worse_count(strips: Seq<(u64, u32)>, b: int, n: int)
    requires
        0 <= n,
    ensures
        crate::loadtest::summary::worse_before(strips, b, n) == Seq::new(
            n as nat,
            |i: int| i,
        ).filter(|i: int| crate::loadtest::summary::worse(strips, i, b)).len(),
    decreases n,
{
    reveal(Seq::filter);
    if n > 0 {
        lemma_worse_count(strips, b, n - 1);
        assert(Seq::new(n as nat, |i: int| i).drop_last() =~= Seq::new(
            (n - 1) as nat,
            |i: int| i,
        ));
    }
}

proof fn lemma_shown(strips: Seq<(u64, u32)>, n: int, b: int)
    requires
        0 <= n <= strips.len(),
        strips.len() <= usize::MAX,
    ensures
        ({
            let shown = crate::loadtest::summary::shown_of(strips, n);
            &&& forall|i: int, j: int| 0 <= i < j < shown.len() ==> shown[i] < shown[j]
            &&& forall|i: int| 0 <= i < shown.len() ==> #[trigger] shown[i] < n
            &&& 0 <= b < n ==> (shown.contains(b as usize) <==> crate::loadtest::summary::is_shown(
                strips,
                b,
            ))
        }),
    decreases n,
{
    if n > 0 {
        lemma_shown(strips, n - 1, b);
        let was = crate::loadtest::summary::shown_of(strips, n - 1);
        let shown = crate::loadtest::summary::shown_of(strips, n);
        if crate::loadtest::summary::is_shown(strips, n - 1) {
            assert(shown[was.len() as int] == n - 1);
            assert forall|i: int, j: int| 0 <= i < j < shown.len() implies shown[i]
                < shown[j] by {
                assert(shown[i] == was[i]);
                if j < was.len() {
                    assert(shown[j] == was[j]);
                }
            }
            if 0 <= b < n - 1 {
                if was.contains(b as usize) {
                    assert(shown[was.index_of(b as usize)] == b);
                }
                if shown.contains(b as usize) {
                    let k = shown.index_of(b as usize);
                    assert(was[k] == b);
                }
            }
        }
        if b == n - 1 && was.contains(b as usize) {
            assert(was[was.index_of(b as usize)] < n - 1);
        }
    }
}

/// Of each subscription the first two stalls and the first two steps back are noted, in
/// that order, and of all of them no more than the first eight.
pub proof fn law_notes_are_the_first_of_each(
    k: crate::loadtest::keystats::KeyView,
    key: usize,
    notes: Seq<Note>,
    i: int,
)
    requires
        0 <= i,
    ensures
        ({
            let on = crate::loadtest::summary::notes_on(k, key);
            let stalls = if k.stalls.len() < 2 {
                k.stalls.len() as int
            } else {
                2int
            };
            let back = if k.violations.len() < 2 {
                k.violations.len() as int
            } else {
                2int
            };
            &&& on.len() == stalls + back
            &&& i < stalls ==> on[i] == (Note::Stall { key, at: k.stalls[i].0, len: k.stalls[i].1 })
            &&& stalls <= i < stalls + back ==> on[i] == (Note::Violation {
                key,
                which: (i - stalls) as usize,
            })
        }),
        crate::loadtest::summary::first_notes(notes).len() == if notes.len() < 8 {
            notes.len()
        } else {
            8
        },
        i < crate::loadtest::summary::first_notes(notes).len()
            ==> crate::loadtest::summary::first_notes(notes)[i] == notes[i],
{
}

/// The notes on all subscriptions are those on each, one after the other.
pub proof fn law_notes_follow_the_subscriptions(
    keys: Seq<crate::loadtest::keystats::KeyView>,
    n: int,
)
    requires
        0 <= n <= usize::MAX,
    ensures
        crate::loadtest::summary::all_notes(keys, 0).len() == 0,
        crate::loadtest::summary::all_notes(keys, n + 1) == crate::loadtest::summary::all_notes(
            keys,
            n,
        ) + crate::loadtest::summary::notes_on(keys[n], n as usize),
{
}

/// The fullest stream has as many samples as any and no fewer than all.
pub proof fn law_fullest_has_most_samples(ages: Seq<Vec<u32>>)
    ensures
        forall|i: int|
            0 <= i < ages.len() ==> (#[trigger] ages[i])@.len()
                <= crate::loadtest::summary::fullest(ages),
        ages.len() > 0 ==> exists|i: int|
            0 <= i < ages.len() && (#[trigger] ages[i])@.len()
                == crate::loadtest::summary::fullest(ages),
    decreases ages.len(),
{
    if ages.len() > 0 {
        let rest = ages.drop_last();
        law_fullest_has_most_samples(rest);
        assert forall|i: int| 0 <= i < ages.len() implies (#[trigger] ages[i])@.len()
            <= crate::loadtest::summary::fullest(ages) by {
            if i < rest.len() {
                assert(rest[i] == ages[i]);
            }
        }
        if ages.last()@.len() > crate::loadtest::summary::fullest(rest) || rest.len() == 0 {
            assert(ages[ages.len() - 1]@.len() == crate::loadtest::summary::fullest(ages));
        } else {
            let i = choose|i: int|
                0 <= i < rest.len() && (#[trigger] rest[i])@.len()
                    == crate::loadtest::summary::fullest(rest);
            assert(ages[i]@.len() == crate::loadtest::summary::fullest(ages));
        }
    }
}

/// What a stream is short of the fullest matters from one hundredth on.
pub proof fn law_short_streams_are_told(n: nat, most: nat)
    requires
        n <= most <= usize::MAX,
    ensures
        crate::loadtest::summary::missing_of(n, most) is Some <==> most - n > most / 100,
        crate::loadtest::summary::missing_of(n, most) matches Some(m) ==> m == most - n,
{
}

/// The row of a stream says how many samples it had and, from a hundred on, the ages at
/// the fiftieth, ninety-fifth and ninety-ninth hundredth of them.
pub proof fn law_rows_tell_the_ages(row: AgeRow, ages: Seq<u32>, most: nat)
    requires
        crate::loadtest::summary::is_row(row, ages, most),
    ensures
        row is Untimed <==> ages.len() == 0,
        row is TooFew <==> 0 < ages.len() < 100,
        row is Full <==> ages.len() >= 100,
        row matches AgeRow::TooFew { n, oldest } ==> n == ages.len()
            && crate::loadtest::keystats::is_quantile(
            ages.map_values(|x: u32| x as u64),
            99,
            oldest as u64,
        ),
        row matches AgeRow::Full { median, p95, p99, n, missing } ==> {
            let v = ages.map_values(|x: u32| x as u64);
            &&& n == ages.len()
            &&& crate::loadtest::keystats::is_quantile(v, 50, median as u64)
            &&& crate::loadtest::keystats::is_quantile(v, 95, p95 as u64)
            &&& crate::loadtest::keystats::is_quantile(v, 99, p99 as u64)
        },
{
}

/// How the proxy stands is by how much it is off the best, unless that is no more than
/// the floor, and turned round the other way for the best.
pub proof fn law_standing_is_the_difference(ours: u32, best: u32, floor: u32)
    ensures
        ({
            let s = crate::loadtest::summary::standing_of(ours, best, floor);
            &&& s matches Standing::Staler(d) ==> ours == best + d && d > floor
            &&& s matches Standing::Fresher(d) ==> best == ours + d && d > floor
            &&& s is Level ==> ours <= best + floor && best <= ours + floor
            &&& s is Staler <==> crate::loadtest::summary::standing_of(best, ours, floor)
                is Fresher
        }),
{
}

/// The stalls of a subscription that nobody else had are those, in order, that no other
/// stream had near on the same subscription.
pub proof fn law_stalls_alone_are_listed(
    others: Seq<StreamStats>,
    label: Seq<char>,
    stalls: Seq<(u64, u64)>,
    key: usize,
    n: int,
    i: usize,
)
    requires
        0 <= n <= stalls.len(),
        stalls.len() <= usize::MAX,
    ensures
        ({
            let alone = crate::loadtest::summary::alone_on(others, label, stalls, key, n);
            alone.contains((key, i)) <==> i < n && forall|s: int|
                0 <= s < others.len() ==> !({
                    let o = (#[trigger] others[s])@;
                    o.labels.contains(label) && crate::loadtest::report::shared_stall(
                        stalls[i as int].0,
                        o.keys[o.labels.index_of(label)].stalls,
                    )
                })
        }),
    decreases n,
{
    let alone = crate::loadtest::summary::alone_on(others, label, stalls, key, n);
    let mine = crate::loadtest::summary::had_alone(others, label, stalls[i as int].0);
    assert(mine <==> forall|s: int|
        0 <= s < others.len() ==> !crate::loadtest::summary::had_too(
            (#[trigger] others[s])@,
            label,
            stalls[i as int].0,
        ));
    if n > 0 {
        law_stalls_alone_are_listed(others, label, stalls, key, n - 1, i);
        let was = crate::loadtest::summary::alone_on(others, label, stalls, key, n - 1);
        if crate::loadtest::summary::had_alone(others, label, stalls[n - 1].0) {
            if was.contains((key, i)) {
                assert(alone[was.index_of((key, i))] == (key, i));
            }
            if i == n - 1 {
                assert(alone[was.len() as int] == (key, i));
            }
            if alone.contains((key, i)) && i != n - 1 {
                let k = alone.index_of((key, i));
                assert(was[k] == (key, i));
            }
        }
    }
}

/// The stalls that the proxy had alone are listed subscription by subscription.
pub proof fn law_stalls_alone_follow_the_subscriptions(
    ours: crate::loadtest::stream::StreamView,
    others: Seq<StreamStats>,
    n: int,
)
    requires
        0 <= n <= usize::MAX,
    ensures
        crate::loadtest::summary::alone_of(ours, others, 0).len() == 0,
        crate::loadtest::summary::alone_of(ours, others, n + 1)
            == crate::loadtest::summary::alone_of(ours, others, n)
            + crate::loadtest::summary::alone_on(
            others,
            ours.labels[n],
            ours.keys[n].stalls,
            n as usize,
            ours.keys[n].stalls.len() as int,
        ),
{
}

/// What two connections to one node say of the proxy: nothing where nothing was
/// compared; where they agree on everything, that what the proxy sent alone is its own;
/// where they disagree at least half as often, that it is the node's.
pub proof fn law_framing_is_read_off_the_twin(v: Verdict)
    ensures
        ({
            let f = crate::loadtest::summary::framing_of(v);
            let odd = v.node_only + v.twin_only;
            &&& f is Unknown <==> v.twin_both == 0 && odd == 0
            &&& f is Clean <==> v.twin_both > 0 && odd == 0 && v.invented == 0
            &&& f is Identical <==> v.twin_both > 0 && odd == 0 && v.invented > 0
            &&& f is Explains <==> odd > 0 && v.invented > 0 && 2 * odd >= v.invented
            &&& f is Unsettled <==> odd > 0 && (v.invented == 0 || 2 * odd < v.invented)
        }),
{
}

/// Any one fault fails a run, and a run without one passes.
pub proof fn law_one_fault_fails_the_run(f: Findings)
    ensures
        f.closed_early ==> !crate::loadtest::summary::is_pass(f),
        f.violations > 0 ==> !crate::loadtest::summary::is_pass(f),
        f.climbing ==> !crate::loadtest::summary::is_pass(f),
        f.alone > 0 ==> !crate::loadtest::summary::is_pass(f),
        f.lost > 0 ==> !crate::loadtest::summary::is_pass(f),
        !f.closed_early && f.violations == 0 && !f.climbing && f.alone == 0 && f.lost == 0
            ==> crate::loadtest::summary::is_pass(f),
{
}

/// Fewer than five hundred common messages are too few; more than one in a hundred off
/// the scale make the figures a lower bound; a proxy that sent alone more than one
/// twentieth of what was matched reads elsewhere.
pub proof fn law_figures_are_worth_their_samples(total: int, over: u32, v: Verdict)
    ensures
        total < 500 <==> crate::loadtest::summary::matched_worth(total, over) == Matched::TooFew,
        total >= 500 && 100 * over > total <==> crate::loadtest::summary::matched_worth(
            total,
            over,
        ) == Matched::Floored,
        crate::loadtest::summary::is_elsewhere(v) <==> 20 * v.invented > v.matched,
{
}

// ---------------------------------------------------------------------------
// The plan
// ---------------------------------------------------------------------------

/// A subscription is spelled as its channel, a colon, and its name, in which further
/// colons may stand; without a colon, or with no such channel, it is none.
pub proof fn law_subscriptions_are_channel_and_name(
    channel: Seq<char>,
    name: Seq<char>,
    levels: usize,
)
    requires
        !channel.contains(':'),
    ensures
        crate::loadtest::plan::parsed_sub(channel, levels) is None,
        crate::loadtest::plan::parsed_sub(channel.push(':') + name, levels)
            == crate::loadtest::plan::named_key(channel, name, levels),
        crate::loadtest::plan::named_key(channel, name, levels) matches Some(k) ==> k.channel()
            == channel && (k.name() == name || k is OrderUpdates && k.name()
            == crate::text::lowered(name)),
        crate::loadtest::plan::named_key(channel, name, levels) is Some <==> channel == "bbo"@
            || channel == "l2Book"@ || channel == "l2Diff"@ || channel == "l4Book"@ || channel
            == "trades"@ || channel == "bookDiffs"@ || channel == "orderUpdates"@,
        crate::loadtest::plan::named_key(channel, name, levels) matches Some(k) ==> (k is L2Book
            || k is L2Diff) ==> {
            &&& k.parts().2 is None && k.parts().4 is None
            &&& k.parts().3 == if levels == 20 {
                None
            } else {
                Some(levels)
            }
        },
{
    channel.index_of_first_ensures(':');
    let s = channel.push(':') + name;
    s.index_of_first_ensures(':');
    let at = channel.len() as int;
    assert(s[at] == ':');
    assert(s.contains(':'));
    let i = s.index_of_first(':')->0;
    if i < at {
        assert(s[i] == channel[i]);
        assert(channel.contains(channel[i]));
    }
    assert(i == at);
    assert(s.take(at) =~= channel);
    assert(s.skip(at + 1) =~= name);
}

/// A text is trimmed to what stands between its first and its last character that is no
/// white space.
pub proof fn law_trimming_takes_the_ends_off(s: Seq<char>)
    ensures
        ({
            let t = crate::loadtest::plan::trimmed(s);
            &&& t.len() > 0 ==> !crate::loadtest::plan::is_space(t[0])
                && !crate::loadtest::plan::is_space(t.last())
            &&& exists|a: int, b: int|
                #![trigger s.subrange(a, b)]
                0 <= a <= b <= s.len() && t == s.subrange(a, b) && (forall|k: int|
                    0 <= k < a ==> crate::loadtest::plan::is_space(#[trigger] s[k])) && (forall|
                    k: int,
                |
                    b <= k < s.len() ==> crate::loadtest::plan::is_space(#[trigger] s[k]))
        }),
{
    let a = lemma_front(s);
    let f = crate::loadtest::plan::trimmed_front(s);
    let n = lemma_back(f);
    let t = crate::loadtest::plan::trimmed(s);
    assert(t =~= s.subrange(a, a + n));
    assert forall|k: int| a + n <= k < s.len() implies crate::loadtest::plan::is_space(
        #[trigger] s[k],
    ) by {
        assert(f[k - a] == s[k]);
    }
    if t.len() > 0 {
        assert(t[0] == f[0]);
    }
    assert(0 <= a <= a + n <= s.len() && t == s.subrange(a, a + n));
}

proof fn lemma_front(s: Seq<char>) -> (a: int)
    ensures
        0 <= a <= s.len(),
        crate::loadtest::plan::trimmed_front(s) == s.skip(a),
        forall|k: int| 0 <= k < a ==> crate::loadtest::plan::is_space(#[trigger] s[k]),
        a < s.len() ==> !crate::loadtest::plan::is_space(s[a]),
    decreases s.len(),
{
    if s.len() > 0 && crate::loadtest::plan::is_space(s[0]) {
        let rest = s.skip(1);
        let a = lemma_front(rest);
        assert(rest.skip(a) =~= s.skip(a + 1));
        assert forall|k: int| 0 <= k < a + 1 implies crate::loadtest::plan::is_space(
            #[trigger] s[k],
        ) by {
            if k > 0 {
                assert(rest[k - 1] == s[k]);
            }
        }
        a + 1
    } else {
        assert(s.skip(0) =~= s);
        0
    }
}

proof fn lemma_back(s: Seq<char>) -> (n: int)
    ensures
        0 <= n <= s.len(),
        crate::loadtest::plan::trimmed_back(s) == s.take(n),
        forall|k: int| n <= k < s.len() ==> crate::loadtest::plan::is_space(#[trigger] s[k]),
        n > 0 ==> !crate::loadtest::plan::is_space(s[n - 1]),
    decreases s.len(),
{
    if s.len() > 0 && crate::loadtest::plan::is_space(s.last()) {
        let rest = s.drop_last();
        let n = lemma_back(rest);
        assert(rest.take(n) =~= s.take(n));
        assert forall|k: int| n <= k < s.len() implies crate::loadtest::plan::is_space(
            #[trigger] s[k],
        ) by {
            if k < rest.len() {
                assert(rest[k] == s[k]);
            }
        }
        n
    } else {
        assert(s.take(s.len() as int) =~= s);
        s.len() as int
    }
}

/// White space is what a keyboard makes, and no letter, digit or sign.
pub proof fn law_white_space_is_no_sign(c: char)
    ensures
        crate::loadtest::plan::is_space(' '),
        crate::loadtest::plan::is_space('\n'),
        crate::loadtest::plan::is_space('\r'),
        crate::loadtest::plan::is_space('\t'),
        '!' <= c <= '~' ==> !crate::loadtest::plan::is_space(c),
{
}

/// A text is its lines with a newline between two of them, and no line holds one.
pub proof fn law_lines_make_up_the_text(s: Seq<char>, c: char)
    ensures
        crate::loadtest::plan::lines(seq![]) == seq![Seq::<char>::empty()],
        crate::loadtest::plan::lines(s).len() > 0,
        crate::loadtest::plan::lines(s.push('\n')) == crate::loadtest::plan::lines(s).push(
            Seq::<char>::empty(),
        ),
        c != '\n' ==> crate::loadtest::plan::lines(s.push(c)).len()
            == crate::loadtest::plan::lines(s).len() && crate::loadtest::plan::lines(
            s.push(c),
        ).last() == crate::loadtest::plan::lines(s).last().push(c) && crate::loadtest::plan::lines(
            s.push(c),
        ).drop_last() == crate::loadtest::plan::lines(s).drop_last(),
{
    lemma_some_line(s);
    assert(s.push(c).drop_last() =~= s);
    assert(s.push('\n').drop_last() =~= s);
    let before = crate::loadtest::plan::lines(s);
    assert(crate::loadtest::plan::lines(seq![]) =~= seq![Seq::<char>::empty()]);
    if c != '\n' {
        assert(crate::loadtest::plan::lines(s.push(c)).drop_last() =~= before.drop_last());
    }
}

proof fn lemma_some_line(s: Seq<char>)
    ensures
        crate::loadtest::plan::lines(s).len() > 0,
    decreases s.len(),
{
    if s.len() > 0 {
        lemma_some_line(s.drop_last());
    }
}

/// The coins that some lines name are what is on the lines that are neither blank nor
/// begin with a number sign, trimmed, one for each and in order.
pub proof fn law_coins_are_the_lines_that_name_one(lines: Seq<Seq<char>>)
    ensures
        crate::loadtest::plan::coins_in(lines) == lines.filter(
            |line: Seq<char>|
                crate::loadtest::plan::trimmed(line).len() > 0 && crate::loadtest::plan::trimmed(
                    line,
                )[0] != '#',
        ).map_values(|line: Seq<char>| crate::loadtest::plan::trimmed(line)),
    decreases lines.len(),
{
    reveal(Seq::filter);
    let named = |line: Seq<char>|
        crate::loadtest::plan::trimmed(line).len() > 0 && crate::loadtest::plan::trimmed(line)[0]
            != '#';
    let short = |line: Seq<char>| crate::loadtest::plan::trimmed(line);
    if lines.len() > 0 {
        law_coins_are_the_lines_that_name_one(lines.drop_last());
    }
    assert(crate::loadtest::plan::coins_in(lines) =~= lines.filter(named).map_values(short));
}

/// Each connection carries no more subscriptions than it takes for all of them to have
/// one: so many would do, and one less would not.
pub proof fn law_connections_share_evenly(n: usize, connections: usize)
    requires
        n > 0,
        connections > 0,
    ensures
        crate::loadtest::plan::share(n, connections) * connections >= n,
        (crate::loadtest::plan::share(n, connections) - 1) * connections < n,
        crate::loadtest::plan::share(n, 0) == n,
{
    let d = connections as int;
    let m = n as int;
    let q = (m + d - 1) / d;
    assert(q * d >= m && (q - 1) * d < m) by (nonlinear_arith)
        requires
            q == (m + d - 1) / d,
            d > 0,
            m > 0,
    ;
}

/// A plan is the channel of the fan-out for each coin, in order, and then the
/// subscriptions that were spelled out, in order.
pub proof fn law_plan_keeps_the_order(
    keys: Seq<crate::key::Key>,
    channel: Seq<char>,
    coins: Seq<Seq<char>>,
    subs: Seq<Seq<char>>,
    levels: usize,
    i: int,
)
    requires
        crate::loadtest::plan::is_plan(keys, channel, coins, subs, levels),
        !channel.contains(':'),
    ensures
        keys.len() == coins.len() + subs.len(),
        0 <= i < coins.len() ==> keys[i].channel() == channel && Some(keys[i])
            == crate::loadtest::plan::named_key(channel, coins[i], levels),
        0 <= i < subs.len() ==> Some(keys[coins.len() + i]) == crate::loadtest::plan::parsed_sub(
            subs[i],
            levels,
        ),
{
    if 0 <= i < coins.len() {
        reveal_strlit(":");
        assert(":"@ =~= seq![':']);
        assert(channel + ":"@ + coins[i] =~= channel.push(':') + coins[i]);
        law_subscriptions_are_channel_and_name(channel, coins[i], levels);
        assert(crate::loadtest::plan::coin_sub(channel, coins[i], levels) == Some(keys[i]));
    }
}

/// A connection ended early if more than two seconds of the run were still to come.
pub proof fn law_early_is_two_seconds_before_the_end(at: u64, length: u64)
    ensures
        crate::loadtest::report::is_early(at, length) <==> length - at > 2000000000,
{
}

/// An end that is early is put down with its time and its reason behind the ones before
/// it; one that is not leaves no trace.
pub proof fn law_early_ends_are_put_down(
    s: crate::loadtest::stream::StreamView,
    at: u64,
    length: u64,
    reason: Seq<char>,
)
    ensures
        length - at <= 2000000000 ==> s.with_end(at, length, reason) == s,
        length - at > 2000000000 ==> {
            let after = s.with_end(at, length, reason);
            &&& after.ended.len() == s.ended.len() + 1
            &&& after.ended.last() == (at, reason)
            &&& after.ended.drop_last() == s.ended
            &&& (crate::loadtest::stream::StreamView { ended: s.ended, ..after }) == s
        },
{
    if length - at > 2000000000 {
        assert(s.with_end(at, length, reason).ended.drop_last() =~= s.ended);
    }
}

/// Every subscription is carried by a connection, and by one only; no connection is
/// empty, and none carries more than its share.
pub proof fn law_each_subscription_has_its_connection(
    r: Seq<(usize, usize)>,
    n: usize,
    connections: usize,
    k: usize,
)
    requires
        crate::loadtest::plan::is_fan_out(r, n, connections),
        n > 0,
        connections > 0,
        k < n,
    ensures
        exists|i: int| 0 <= i < r.len() && #[trigger] carries(r, i, k),
        forall|i: int, j: int|
            0 <= i < r.len() && 0 <= j < r.len() && #[trigger] carries(r, i, k)
                && #[trigger] carries(r, j, k) ==> i == j,
        forall|i: int|
            0 <= i < r.len() ==> (#[trigger] r[i]).0 < r[i].1 <= n && (r[i].1 - r[i].0)
                * connections < n + connections,
        r.len() <= connections,
{
    let share = crate::loadtest::plan::share(n, connections);
    law_connections_share_evenly(n, connections);
    let c = connections as int;
    assert(share > 0) by (nonlinear_arith)
        requires
            share * c >= n,
            n > 0,
            c > 0,
    ;
    lemma_connections_follow_each_other(r, n, connections, r.len() - 1);
    let last = r.len() - 1;
    let i = k as int / share;
    assert(i * share <= k < (i + 1) * share && 0 <= i) by (nonlinear_arith)
        requires
            i == k as int / share,
            share > 0,
            0 <= k,
    ;
    assert(r[last].0 == last * share);
    assert(r[last].1 == n);
    if i < last {
        lemma_connections_follow_each_other(r, n, connections, i);
        assert(r[i].1 - r[i].0 == share);
        assert((i + 1) * share == i * share + share) by (nonlinear_arith);
        assert(carries(r, i, k));
    } else {
        assert(i * share >= last * share) by (nonlinear_arith)
            requires
                i >= last,
                share > 0,
        ;
        assert(carries(r, last, k));
    }
    assert forall|a: int| 0 <= a < r.len() implies (#[trigger] r[a]).0 == a * share && r[a].0
        < r[a].1 && r[a].1 <= (a + 1) * share && r[a].1 <= n && (r[a].1 - r[a].0) * connections < n
        + connections by {
        lemma_connections_follow_each_other(r, n, connections, a);
        assert((a + 1) * share == a * share + share) by (nonlinear_arith);
        let w = r[a].1 - r[a].0;
        assert(w * c < n + c) by (nonlinear_arith)
            requires
                w <= share,
                (share - 1) * c < n,
                c > 0,
        ;
        if a < last {
            assert((a + 1) * share <= last * share) by (nonlinear_arith)
                requires
                    a < last,
                    share > 0,
            ;
        }
    }
    assert forall|a: int, b: int|
        0 <= a < r.len() && 0 <= b < r.len() && #[trigger] carries(r, a, k) && #[trigger] carries(
            r,
            b,
            k,
        ) implies a == b by {
        if a < b {
            assert((a + 1) * share <= b * share) by (nonlinear_arith)
                requires
                    a < b,
                    share > 0,
            ;
        }
        if b < a {
            assert((b + 1) * share <= a * share) by (nonlinear_arith)
                requires
                    b < a,
                    share > 0,
            ;
        }
    }
    assert(last < c) by (nonlinear_arith)
        requires
            last * share < n,
            share * c >= n,
            share > 0,
    ;
}

/// Whether connection `i` carries the subscription at place `k`.
pub open spec fn carries(r: Seq<(usize, usize)>, i: int, k: usize) -> bool {
    r[i].0 <= k < r[i].1
}

proof fn lemma_connections_follow_each_other(
    r: Seq<(usize, usize)>,
    n: usize,
    connections: usize,
    i: int,
)
    requires
        crate::loadtest::plan::is_fan_out(r, n, connections),
        0 <= i < r.len(),
    ensures
        r[i].0 == i * crate::loadtest::plan::share(n, connections),
    decreases i,
{
    let share = crate::loadtest::plan::share(n, connections);
    if i > 0 {
        lemma_connections_follow_each_other(r, n, connections, i - 1);
        assert(r[i - 1].1 - r[i - 1].0 == share);
        assert(i * share == (i - 1) * share + share) by (nonlinear_arith);
    } else {
        assert(0 * share == 0) by (nonlinear_arith);
    }
}

/// A comparison has room for eight feeds: the proxy, the nodes, and a second connection
/// to the first node if the noise is to be measured and there is a node to measure it on.
pub proof fn law_eight_feeds_fit(nodes: usize, noise_floor: bool)
    ensures
        ({
            let twin = if noise_floor && nodes > 0 {
                1int
            } else {
                0int
            };
            match crate::loadtest::compare::planned_slots(nodes, noise_floor) {
                Ok(s) => nodes + 1 + twin <= 8 && s.nodes == nodes && (s.twin <==> twin == 1),
                Err(needed) => nodes + 1 + twin > 8 && needed == nodes + 1 + twin,
            }
        }),
{
}

/// There is a plan exactly when every coin fits the channel, every subscription that was
/// spelled out makes sense, and there is one of either at least. A channel that does not
/// exist is told first, and then the first subscription that makes no sense.
pub proof fn law_plans_fail_at_the_first_fault(
    r: Result<Vec<crate::key::SubKey>, crate::loadtest::plan::PlanError>,
    channel: Seq<char>,
    names: Seq<Seq<char>>,
    specs: Seq<Seq<char>>,
    levels: usize,
    j: int,
)
    requires
        crate::loadtest::plan::planned(r, channel, names, specs, levels),
    ensures
        r is Ok ==> names.len() + specs.len() > 0,
        r is Ok && 0 <= j < names.len() ==> crate::loadtest::plan::coin_sub(
            channel,
            names[j],
            levels,
        ) is Some,
        r is Ok && 0 <= j < specs.len() ==> crate::loadtest::plan::parsed_sub(
            specs[j],
            levels,
        ) is Some,
        r matches Ok(v) ==> v@.len() == names.len() + specs.len(),
        r matches Err(e) ==> {
            &&& e is UnknownChannel <==> exists|i: int|
                0 <= i < names.len() && crate::loadtest::plan::coin_sub(
                    channel,
                    #[trigger] names[i],
                    levels,
                ) is None
            &&& e is Nothing ==> names.len() + specs.len() == 0
            &&& e is BadSub ==> e->BadSub_0 < specs.len() && crate::loadtest::plan::parsed_sub(
                specs[e->BadSub_0 as int],
                levels,
            ) is None
            &&& e is BadSub && 0 <= j < e->BadSub_0 ==> crate::loadtest::plan::parsed_sub(
                specs[j],
                levels,
            ) is Some
        },
{
    if r is Ok {
        let keys = crate::client::keys_of(r->Ok_0@);
        assert(keys.len() == r->Ok_0@.len());
        if 0 <= j < names.len() {
            assert(crate::loadtest::plan::coin_sub(channel, names[j], levels) == Some(keys[j]));
        }
        if 0 <= j < specs.len() {
            assert(crate::loadtest::plan::parsed_sub(specs[j], levels) == Some(
                keys[names.len() + j],
            ));
        }
    }
}

/// Every second is in one stretch of ten, and there are no more stretches than it takes;
/// each of them has its own mean.
pub proof fn law_every_second_is_averaged(
    r: Seq<Option<u64>>,
    v: Seq<(u64, u32)>,
    s: int,
)
    requires
        crate::loadtest::report::are_mean_ages(r, v),
    ensures
        10 * r.len() >= v.len(),
        10 * r.len() < v.len() + 10,
        0 <= s < v.len() ==> r[s / 10] == crate::loadtest::report::mean_age(
            v.subrange(
                10 * (s / 10),
                if 10 * (s / 10) + 10 <= v.len() {
                    10 * (s / 10) + 10
                } else {
                    v.len() as int
                },
            ),
        ),
{
    if 0 <= s < v.len() {
        assert(0 <= s / 10 < r.len());
        assert(r[s / 10] == crate::loadtest::report::mean_age(
            crate::loadtest::report::age_window(v, s / 10),
        ));
    }
}

/// The percentile of nothing is nought; of anything it is a bucket that holds something.
pub proof fn law_empty_histograms_read_nought(hist: Seq<u32>, p: int, i: int)
    requires
        crate::loadtest::report::is_percentile(hist, p, i),
    ensures
        crate::loadtest::report::held_below(hist, hist.len() as int) == 0 ==> i == 0,
        crate::loadtest::report::held_below(hist, hist.len() as int) > 0 ==> 0 <= i < hist.len()
            && hist[i] > 0 && crate::loadtest::report::held_below(hist, i) <= (
        crate::loadtest::report::held_below(hist, hist.len() as int) - 1) * p / 100
            < crate::loadtest::report::held_below(hist, i) + hist[i],
{
}

/// Each figure of the tally is that figure of every subscription, summed up: one more
/// subscription adds its own.
pub proof fn law_tally_adds_each_subscription(
    t: crate::loadtest::summary::Tally,
    u: crate::loadtest::summary::Tally,
    v: Seq<crate::loadtest::keystats::KeyView>,
    k: crate::loadtest::keystats::KeyView,
)
    requires
        t.sums_up(v),
        u.sums_up(v.push(k)),
    ensures
        u.msgs == t.msgs + k.msgs,
        u.bytes == t.bytes + k.bytes,
        u.stalls == t.stalls + k.stall_count,
        u.violations == t.violations + k.violation_count,
        v.len() == 0 ==> t.msgs == 0 && t.bytes == 0 && t.stalls == 0 && t.violations == 0,
{
    let n = v.len() as int;
    lemma_summed_so_far(v, k, n, |k: crate::loadtest::keystats::KeyView| k.msgs);
    lemma_summed_so_far(v, k, n, |k: crate::loadtest::keystats::KeyView| k.bytes);
    lemma_summed_so_far(v, k, n, |k: crate::loadtest::keystats::KeyView| k.stall_count);
    lemma_summed_so_far(v, k, n, |k: crate::loadtest::keystats::KeyView| k.violation_count);
}

proof fn lemma_summed_so_far(
    v: Seq<crate::loadtest::keystats::KeyView>,
    k: crate::loadtest::keystats::KeyView,
    n: int,
    figure: spec_fn(crate::loadtest::keystats::KeyView) -> u64,
)
    requires
        0 <= n <= v.len(),
    ensures
        crate::loadtest::summary::summed(v.push(k), n, figure) == crate::loadtest::summary::summed(
            v,
            n,
            figure,
        ),
    decreases n,
{
    if n > 0 {
        lemma_summed_so_far(v, k, n - 1, figure);
    }
}

/// The table has a row for each stream, in order, unless the proxy has fewer than a
/// hundred samples: then its row is the only one.
pub proof fn law_table_ends_with_a_proxy_of_few(
    rows: Seq<AgeRow>,
    ages: Seq<Vec<u32>>,
    i: int,
)
    requires
        crate::loadtest::summary::is_table(rows, ages),
    ensures
        ages.len() == 0 ==> rows.len() == 0,
        ages.len() > 0 && 0 < ages[0]@.len() < 100 ==> rows.len() == 1,
        ages.len() > 0 && !(0 < ages[0]@.len() < 100) ==> rows.len() == ages.len(),
        0 <= i < rows.len() ==> (rows[i] is Untimed <==> ages[i]@.len() == 0),
        0 <= i < rows.len() ==> (rows[i] is Full <==> ages[i]@.len() >= 100),
{
    if 0 <= i < rows.len() {
        law_rows_tell_the_ages(rows[i], ages[i]@, crate::loadtest::summary::fullest(ages) as nat);
    }
}

/// Two figures are as far apart as the greater is above the smaller, whichever is named
/// first.
pub proof fn law_distance_has_no_direction(a: u32, d: u32)
    requires
        a + d <= u32::MAX,
    ensures
        crate::loadtest::summary::distance((a + d) as u32, a) == d,
        crate::loadtest::summary::distance(a, (a + d) as u32) == d,
{
}

/// The proxy is held against the freshest of the others: it is staler if it is older than
/// that one by more than the floor, fresher if it is younger than every one of them by
/// more than the floor, and level otherwise.
pub proof fn law_proxy_is_held_against_the_freshest(
    s: Standing,
    ours: u32,
    others: Seq<u32>,
    floor: u32,
)
    requires
        crate::loadtest::summary::stands(s, ours, others, floor),
    ensures
        others.len() > 0,
        s is Staler <==> exists|i: int|
            0 <= i < others.len() && ours - (#[trigger] others[i]) > floor,
        s is Fresher <==> forall|i: int|
            0 <= i < others.len() ==> (#[trigger] others[i]) - ours > floor,
        s matches Standing::Staler(d) ==> (forall|i: int|
            0 <= i < others.len() ==> ours - (#[trigger] others[i]) <= d) && exists|i: int|
            0 <= i < others.len() && ours - (#[trigger] others[i]) == d,
        s matches Standing::Fresher(d) ==> (forall|i: int|
            0 <= i < others.len() ==> (#[trigger] others[i]) - ours >= d) && exists|i: int|
            0 <= i < others.len() && (#[trigger] others[i]) - ours == d,
{
    let best = choose|best: u32| #[trigger] crate::loadtest::summary::is_least(others, best);
    let at = others.index_of(best);
    assert(others[at] == best);
    assert(s == crate::loadtest::summary::standing_of(ours, best, floor));
}

} // verus!
