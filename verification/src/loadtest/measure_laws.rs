//! What is measured of one subscription on one stream.

use crate::arbitration::Stamp;
use std::collections::hash_map::DefaultHasher;
use vstd::prelude::*;
#[allow(unused_imports)]
use vstd::std_specs::hash::DefaultHasherAdditionalSpecFns;

verus! {

proof fn lemma_filtered_multiset(v: Seq<u64>, pred: spec_fn(u64) -> bool)
    ensures
        v.filter(pred).to_multiset() == v.to_multiset().filter(pred),
    decreases v.len(),
{
    broadcast use vstd::seq_lib::group_to_multiset_ensures;
    broadcast use vstd::multiset::group_multiset_axioms;

    reveal(Seq::filter);
    if v.len() == 0 {
        assert(v.filter(pred).to_multiset() =~= v.to_multiset().filter(pred));
    } else {
        let rest = v.drop_last();
        lemma_filtered_multiset(rest, pred);
        assert(rest.push(v.last()) =~= v);
        assert(v.to_multiset() =~= rest.to_multiset().insert(v.last()));
        if pred(v.last()) {
            assert(v.filter(pred).to_multiset() =~= rest.filter(pred).to_multiset().insert(
                v.last(),
            ));
        }
        assert(v.filter(pred).to_multiset() =~= v.to_multiset().filter(pred));
    }
}

proof fn lemma_filter_none(v: Seq<u64>, pred: spec_fn(u64) -> bool)
    requires
        forall|i: int| 0 <= i < v.len() ==> !pred(#[trigger] v[i]),
    ensures
        v.filter(pred).len() == 0,
    decreases v.len(),
{
    reveal(Seq::filter);
    if v.len() > 0 {
        assert forall|i: int| 0 <= i < v.drop_last().len() implies !pred(
            #[trigger] v.drop_last()[i],
        ) by {
            assert(!pred(v[i]));
        }
        lemma_filter_none(v.drop_last(), pred);
        assert(!pred(v[v.len() - 1]));
    }
}

proof fn lemma_filter_every(v: Seq<u64>, pred: spec_fn(u64) -> bool)
    requires
        forall|i: int| 0 <= i < v.len() ==> pred(#[trigger] v[i]),
    ensures
        v.filter(pred).len() == v.len(),
    decreases v.len(),
{
    reveal(Seq::filter);
    if v.len() > 0 {
        assert forall|i: int| 0 <= i < v.drop_last().len() implies pred(
            #[trigger] v.drop_last()[i],
        ) by {
            assert(pred(v[i]));
        }
        lemma_filter_every(v.drop_last(), pred);
        assert(pred(v[v.len() - 1]));
    }
}

/// The value at the `p`-th hundredth is one of the values, and stands where so many
/// hundredths of the others lie before it: no more values are smaller, and more are no
/// greater.
pub proof fn law_quantile_splits_the_values(v: Seq<u64>, p: nat, x: u64)
    requires
        crate::loadtest::keystats::is_quantile(v, p, x),
        p <= 100,
    ensures
        v.filter(|y: u64| y < x).len() <= (v.len() - 1) * p / 100,
        v.filter(|y: u64| y <= x).len() > (v.len() - 1) * p / 100,
        p == 0 ==> v.filter(|y: u64| y < x).len() == 0,
        p == 100 ==> v.filter(|y: u64| y <= x).len() == v.len(),
{
    broadcast use vstd::seq_lib::group_to_multiset_ensures;

    let n = v.len() as int;
    let at = (n - 1) * p / 100;
    let s = choose|s: Seq<u64>| #[trigger]
        crate::loadtest::keystats::ascending(s) && s.to_multiset() == v.to_multiset() && v.len() > 0
            && x == s[(v.len() - 1) * p / 100];
    assert(s.len() == v.len()) by {
        assert(s.to_multiset().len() == s.len());
        assert(v.to_multiset().len() == v.len());
    }
    assert(0 <= at < n) by (nonlinear_arith)
        requires
            n >= 1,
            0 <= p <= 100,
            at == (n - 1) * p / 100,
    ;
    let small = |y: u64| y < x;
    let upto = |y: u64| y <= x;
    lemma_filtered_multiset(v, small);
    lemma_filtered_multiset(s, small);
    lemma_filtered_multiset(v, upto);
    lemma_filtered_multiset(s, upto);
    assert(v.filter(small).len() == s.filter(small).len()) by {
        assert(v.filter(small).to_multiset().len() == v.filter(small).len());
        assert(s.filter(small).to_multiset().len() == s.filter(small).len());
    }
    assert(v.filter(upto).len() == s.filter(upto).len()) by {
        assert(v.filter(upto).to_multiset().len() == v.filter(upto).len());
        assert(s.filter(upto).to_multiset().len() == s.filter(upto).len());
    }
    let a = s.take(at);
    let b = s.skip(at);
    assert(s =~= a + b);
    Seq::filter_distributes_over_add(a, b, small);
    assert forall|i: int| 0 <= i < b.len() implies !small(#[trigger] b[i]) by {
        assert(s[at] <= s[at + i]);
    }
    lemma_filter_none(b, small);
    a.lemma_filter_len(small);
    let c = s.take(at + 1);
    let d = s.skip(at + 1);
    assert(s =~= c + d);
    Seq::filter_distributes_over_add(c, d, upto);
    assert forall|i: int| 0 <= i < c.len() implies upto(#[trigger] c[i]) by {
        assert(s[i] <= s[at]);
    }
    lemma_filter_every(c, upto);
    if p == 100 {
        assert(at == n - 1) by (nonlinear_arith)
            requires
                at == (n - 1) * p / 100,
                p == 100,
        ;
    }
    if p == 0 {
        assert(at == 0) by (nonlinear_arith)
            requires
                at == (n - 1) * p / 100,
                p == 0,
        ;
    }
}

/// A silence is a stall exactly when it is longer than the threshold, if there is one.
/// Stalls are counted all and the first sixty-four are kept, each with when it began,
/// from the start of the run, and how long it was; nothing else is touched.
pub proof fn law_long_silence_is_a_stall(
    k: crate::loadtest::keystats::KeyView,
    prev: u64,
    start: u64,
    gap: u64,
)
    requires
        k.stall_count < u64::MAX,
    ensures
        ({
            let after = k.with_gap(prev, start, gap);
            let stalled = k.limit is Some && gap > k.limit->0;
            let began = if prev >= start {
                (prev - start) as u64
            } else {
                0
            };
            &&& !stalled ==> after == k
            &&& stalled ==> after.stall_count == k.stall_count + 1
            &&& stalled && k.stalls.len() < 64 ==> after.stalls == k.stalls.push((began, gap))
            &&& stalled && k.stalls.len() >= 64 ==> after.stalls == k.stalls
            &&& after.msgs == k.msgs && after.bytes == k.bytes && after.last_at == k.last_at
            &&& after.gaps == k.gaps && after.limit == k.limit && after.since_limit
                == k.since_limit
            &&& after.violations == k.violations && after.violation_count == k.violation_count
            &&& after.last_seq == k.last_seq && after.per_second == k.per_second
            &&& after.ages_ms == k.ages_ms
        }),
{
}

/// A message is one more, of its own length, in the second of the run in which it came;
/// the time since the one before is one more gap, up to ten thousand of them; and it is
/// what the next silence is measured from.
pub proof fn law_message_is_counted_in_its_second(
    k: crate::loadtest::keystats::KeyView,
    now: u64,
    start: u64,
    len: usize,
    scaled: Option<u64>,
    other: int,
)
    requires
        k.msgs < u64::MAX,
        k.bytes + len <= u64::MAX,
        0 <= other,
        other != if now >= start {
            (now - start) / 1000000000
        } else {
            0
        },
    ensures
        ({
            let after = k.noted(now, start, len, scaled);
            let sec = if now >= start {
                (now - start) / 1000000000
            } else {
                0
            };
            let had = if sec < k.per_second.len() {
                k.per_second[sec] as int
            } else {
                0int
            };
            &&& after.msgs == k.msgs + 1
            &&& after.bytes == k.bytes + len
            &&& after.last_at == Some(now)
            &&& after.per_second.len() == if sec < k.per_second.len() {
                k.per_second.len() as int
            } else {
                sec + 1
            }
            &&& had < u32::MAX ==> after.per_second[sec] == had + 1
            &&& other < k.per_second.len() ==> after.per_second[other] == k.per_second[other]
            &&& k.per_second.len() <= other < after.per_second.len() ==> after.per_second[other]
                == 0
            &&& k.last_at is None ==> after.gaps == k.gaps && after.stall_count == k.stall_count
                && after.stalls == k.stalls && after.limit == k.limit && after.since_limit
                == k.since_limit
            &&& k.last_at is Some && k.gaps.len() < 10000 ==> after.gaps == k.gaps.push(
                if now >= k.last_at->0 {
                    (now - k.last_at->0) as u64
                } else {
                    0
                },
            )
            &&& k.gaps.len() >= 10000 ==> after.gaps == k.gaps
            &&& after.violations == k.violations && after.violation_count == k.violation_count
            &&& after.last_seq == k.last_seq
            &&& after.ages_ms == k.ages_ms
        }),
{
}

/// The threshold is derived anew once in two hundred and fifty-six messages and stays
/// in between. It is what was asked for, and never less than a quarter of a second; a
/// silence that a message ends is judged by the threshold as it then is.
pub proof fn law_threshold_is_derived_now_and_then(
    k: crate::loadtest::keystats::KeyView,
    now: u64,
    start: u64,
    len: usize,
    scaled: Option<u64>,
)
    requires
        k.last_at is Some,
        k.since_limit < 256,
        k.stall_count < u64::MAX,
    ensures
        ({
            let after = k.noted(now, start, len, scaled);
            let gap = if now >= k.last_at->0 {
                now - k.last_at->0
            } else {
                0
            };
            &&& k.limit_due() <==> k.since_limit == 255
            &&& !k.limit_due() ==> after.limit == k.limit && after.since_limit == k.since_limit + 1
            &&& k.limit_due() ==> after.since_limit == 0
            &&& k.limit_due() && scaled is None ==> after.limit is None
            &&& k.limit_due() && scaled is Some ==> after.limit == Some(
                if scaled->0 >= 250000000 {
                    scaled->0
                } else {
                    250000000u64
                },
            )
            &&& after.stall_count == k.stall_count + (if after.limit is Some && gap
                > after.limit->0 {
                1int
            } else {
                0int
            })
            &&& after.stalls == if after.limit is Some && gap > after.limit->0 && k.stalls.len()
                < 64 {
                k.stalls.push(
                    (
                        if k.last_at->0 >= start {
                            (k.last_at->0 - start) as u64
                        } else {
                            0
                        },
                        gap as u64,
                    ),
                )
            } else {
                k.stalls
            }
        }),
{
}

/// At the end of a run the silence since the last message is judged like any other, and
/// nothing else changes; without a message there is none.
pub proof fn law_last_silence_is_judged(
    k: crate::loadtest::keystats::KeyView,
    end: u64,
    start: u64,
)
    ensures
        k.last_at is None ==> k.closed(end, start) == k,
        k.last_at is Some && k.last_at->0 <= end ==> k.closed(end, start) == k.with_gap(
            k.last_at->0,
            start,
            (end - k.last_at->0) as u64,
        ),
        k.last_at is Some && k.last_at->0 > end ==> k.closed(end, start) == k.with_gap(
            k.last_at->0,
            start,
            0,
        ),
{
}

/// Order is held against the last number only: it is what the next is compared with,
/// whether it went back or not, and a snapshot starts over. Of steps back the first
/// sixty-four are kept, each as from where to where.
pub proof fn law_order_is_held_against_the_last(
    k: crate::loadtest::keystats::KeyView,
    stamp: Stamp,
    label: Seq<char>,
)
    ensures
        ({
            let after = k.ordered(stamp, label);
            let v = stamp.value();
            let back = !(stamp is Snapshot) && k.last_seq is Some && v < k.last_seq->0;
            &&& stamp is Snapshot ==> after.last_seq is None
            &&& !(stamp is Snapshot) ==> after.last_seq == Some(v)
            &&& !back ==> after.violations == k.violations && after.violation_count
                == k.violation_count
            &&& back && k.violation_count < u64::MAX ==> after.violation_count
                == k.violation_count + 1
            &&& back && k.violations.len() < 64 ==> after.violations == k.violations.push(
                label + ": "@ + crate::text::digits(k.last_seq->0 as nat) + " -> "@
                    + crate::text::digits(v as nat),
            )
            &&& back && k.violations.len() >= 64 ==> after.violations == k.violations
            &&& after.msgs == k.msgs && after.bytes == k.bytes && after.gaps == k.gaps
            &&& after.stalls == k.stalls && after.stall_count == k.stall_count
            &&& after.last_at == k.last_at && after.per_second == k.per_second
            &&& after.ages_ms == k.ages_ms && after.limit == k.limit
        }),
{
}

/// The age of a message is the time of day less its own time. One without a time, or
/// ahead of the clock, has none, and the largest number is left for that.
pub proof fn law_age_is_now_less_its_time(t: u64, now_ms: u64)
    ensures
        crate::loadtest::keystats::age_of(None, now_ms) is None,
        now_ms < t ==> crate::loadtest::keystats::age_of(Some(t), now_ms) is None,
        t <= now_ms < t + u32::MAX ==> crate::loadtest::keystats::age_of(Some(t), now_ms) == Some(
            (now_ms - t) as u32,
        ),
        now_ms >= t + u32::MAX ==> crate::loadtest::keystats::age_of(Some(t), now_ms) == Some(
            (u32::MAX - 1) as u32,
        ),
{
}

/// A subscription starts with nothing measured.
pub proof fn law_subscriptions_start_unmeasured()
    ensures
        ({
            let k = crate::loadtest::keystats::KeyView::fresh();
            &&& k.msgs == 0 && k.bytes == 0 && k.stall_count == 0 && k.violation_count == 0
            &&& k.last_at is None && k.limit is None && k.last_seq is None && k.since_limit == 0
            &&& k.gaps.len() == 0 && k.stalls.len() == 0 && k.violations.len() == 0
            &&& k.per_second.len() == 0 && k.ages_ms.len() == 0
        }),
{
}

/// The age of a message is added up in its second, and no other second changes.
pub proof fn law_ages_add_up_by_second(v: Seq<(u64, u32)>, i: int, age: u32, other: int)
    requires
        0 <= i,
        0 <= other,
        other != i,
    ensures
        ({
            let after = crate::loadtest::stream::with_age(v, i, age);
            let had = if i < v.len() {
                v[i]
            } else {
                (0u64, 0u32)
            };
            &&& after.len() == if i < v.len() {
                v.len() as int
            } else {
                i + 1
            }
            &&& had.0 + age <= u64::MAX ==> after[i].0 == had.0 + age
            &&& had.1 < u32::MAX ==> after[i].1 == had.1 + 1
            &&& other < v.len() ==> after[other] == v[other]
            &&& v.len() <= other < after.len() ==> after[other] == (0u64, 0u32)
        }),
{
}

/// A message counts for the subscription whose label it has, and for no other: a label
/// that is new is listed behind the rest, and its figures start from this message.
pub proof fn law_message_counts_for_its_label(
    s: crate::loadtest::stream::StreamView,
    m: crate::loadtest::stream::Message,
    start: u64,
    other: int,
)
    requires
        s.wf(),
        0 <= other < s.labels.len(),
        s.labels[other] != m.label,
    ensures
        ({
            let after = s.with_message(m, start);
            &&& after.wf()
            &&& after.labels.contains(m.label)
            &&& after.labels[other] == s.labels[other]
            &&& after.keys[other] == s.keys[other]
            &&& after.labels.len() == s.labels.len() + (if s.labels.contains(m.label) {
                0int
            } else {
                1int
            })
            &&& s.labels.contains(m.label) ==> after.keys[s.labels.index_of(m.label)]
                == m.added_to(s.keys[s.labels.index_of(m.label)], start)
            &&& !s.labels.contains(m.label) ==> after.keys.last() == m.added_to(
                crate::loadtest::keystats::KeyView::fresh(),
                start,
            )
            &&& after.rejected == s.rejected
            &&& after.ended == s.ended
            &&& m.age() is None ==> after.age_by_sec == s.age_by_sec
            &&& m.age() is Some ==> after.age_by_sec == crate::loadtest::stream::with_age(
                s.age_by_sec,
                if m.now >= start {
                    (m.now - start) / 1000000000
                } else {
                    0
                },
                m.age()->0,
            )
        }),
{
    let after = s.with_message(m, start);
    if !s.labels.contains(m.label) {
        assert(after.labels[s.labels.len() as int] == m.label);
        assert(after.labels.no_duplicates());
    }
}

/// What a message adds to its subscription: one message of its length, its place in
/// the order, and its age if it has one.
pub proof fn law_message_adds_length_order_and_age(
    m: crate::loadtest::stream::Message,
    k: crate::loadtest::keystats::KeyView,
    start: u64,
)
    requires
        k.msgs < u64::MAX,
        k.bytes + m.len <= u64::MAX,
    ensures
        ({
            let after = m.added_to(k, start);
            let noted = k.noted(m.now, start, m.len, m.scaled);
            let ordered = noted.ordered(m.stamp, m.label);
            &&& after.msgs == k.msgs + 1
            &&& after.bytes == k.bytes + m.len
            &&& after.last_at == Some(m.now)
            &&& after.gaps == noted.gaps && after.stalls == noted.stalls
            &&& after.stall_count == noted.stall_count && after.per_second == noted.per_second
            &&& after.last_seq == ordered.last_seq
            &&& after.violation_count == ordered.violation_count
            &&& after.violations == ordered.violations
            &&& after.ages_ms == match m.age() {
                Some(a) => k.ages_ms.push(a),
                None => k.ages_ms,
            }
        }),
{
}

/// A message is measured under the label of its subscription, by the bytes of its text,
/// and its age is that of the time in its text.
pub proof fn law_message_is_its_text(
    key: crate::key::Key,
    stamp: Stamp,
    text: Seq<char>,
    now: u64,
    now_ms: u64,
    scaled: Option<u64>,
)
    requires
        vstd::utf8::encode_utf8(text).len() <= usize::MAX,
    ensures
        ({
            let m = crate::loadtest::stream::Message::of(key, stamp, text, now, now_ms, scaled);
            let bytes = vstd::utf8::encode_utf8(text);
            &&& m.label == key.label()
            &&& m.stamp == stamp
            &&& m.len == bytes.len()
            &&& m.now == now
            &&& m.scaled == scaled
            &&& m.age() is Some <==> crate::upstream::block_time(bytes) is Some
                && crate::upstream::block_time(bytes)->0 <= now_ms
            &&& crate::upstream::block_time(bytes) matches Some(t) ==> (t <= now_ms < t
                + u32::MAX ==> m.age() == Some((now_ms - t) as u32))
        }),
{
}

/// Fewer than thirty-two gaps say nothing; of as many or more the quantile is one that
/// so many hundredths of them lie below.
pub proof fn law_habits_take_thirty_two_gaps(gaps: Seq<u64>, p: nat, q: Option<u64>)
    requires
        crate::loadtest::keystats::is_habit(gaps, p, q),
        p <= 100,
    ensures
        q is None <==> gaps.len() < 32,
        q matches Some(x) ==> gaps.filter(|y: u64| y < x).len() <= (gaps.len() - 1) * p / 100
            && gaps.filter(|y: u64| y <= x).len() > (gaps.len() - 1) * p / 100,
{
    if q is Some {
        law_quantile_splits_the_values(gaps, p, q->0);
    }
}

/// Some ages have a quantile unless there are none of them.
pub proof fn law_ages_have_quantiles(ages: Seq<u32>, p: nat, q: Option<u32>)
    requires
        crate::loadtest::keystats::is_age_quantile(ages, p, q),
        p <= 100,
    ensures
        q is None <==> ages.len() == 0,
        q matches Some(x) ==> {
            let v = ages.map_values(|a: u32| a as u64);
            &&& v.filter(|y: u64| y < x as u64).len() <= (ages.len() - 1) * p / 100
            &&& v.filter(|y: u64| y <= x as u64).len() > (ages.len() - 1) * p / 100
        },
{
    let v = ages.map_values(|a: u32| a as u64);
    assert(v =~= crate::loadtest::keystats::widened(ages));
    if q is Some {
        law_quantile_splits_the_values(v, p, q->0 as u64);
    }
}

/// A threshold is set by the ninety-ninth hundredth of the gaps of the subscription under
/// that label, when it is due and there are thirty-two gaps or more, and not otherwise.
pub proof fn law_thresholds_are_set_when_due(
    s: crate::loadtest::stream::StreamView,
    label: Seq<char>,
    q: Option<u64>,
    at: int,
)
    requires
        s.is_due(label, q),
        s.labels.no_duplicates(),
        s.keys.len() == s.labels.len(),
    ensures
        !s.labels.contains(label) ==> q is None,
        0 <= at < s.labels.len() && s.labels[at] == label ==> {
            let k = s.keys[at];
            &&& q is Some <==> k.limit_due() && k.gaps.len() >= 32
            &&& q matches Some(x) ==> crate::loadtest::keystats::is_quantile(k.gaps, 99, x)
        },
{
    if 0 <= at < s.labels.len() && s.labels[at] == label {
        assert(s.labels.contains(label));
        assert(s.labels.index_of(label) == at);
    }
}

/// A stream starts with nothing measured; an error that the upstream reports is one more
/// rejection and nothing else.
pub proof fn law_rejections_are_counted(s: crate::loadtest::stream::StreamView)
    requires
        s.rejected < u64::MAX,
    ensures
        crate::loadtest::stream::StreamView::fresh().labels.len() == 0,
        crate::loadtest::stream::StreamView::fresh().keys.len() == 0,
        crate::loadtest::stream::StreamView::fresh().rejected == 0,
        crate::loadtest::stream::StreamView::fresh().age_by_sec.len() == 0,
        crate::loadtest::stream::StreamView::fresh().ended.len() == 0,
        s.with_rejection().rejected == s.rejected + 1,
        s.with_rejection().labels == s.labels,
        s.with_rejection().keys == s.keys,
        s.with_rejection().age_by_sec == s.age_by_sec,
        s.with_rejection().ended == s.ended,
{
}

/// At the end of the run the gap that is still open is closed for every subscription, each
/// by itself, and nothing else of the stream changes.
pub proof fn law_every_subscription_is_closed(
    s: crate::loadtest::stream::StreamView,
    end: u64,
    start: u64,
    i: int,
)
    ensures
        s.closed(end, start).keys.len() == s.keys.len(),
        0 <= i < s.keys.len() ==> s.closed(end, start).keys[i] == s.keys[i].closed(end, start),
        s.closed(end, start).labels == s.labels,
        s.closed(end, start).rejected == s.rejected,
        s.closed(end, start).age_by_sec == s.age_by_sec,
        s.closed(end, start).ended == s.ended,
{
}

/// The place of a label is the last at which it was asked for; a label that was not is
/// given the number that stands for no place.
pub proof fn law_labels_are_found_where_asked_for_last(
    labels: Seq<Seq<char>>,
    label: Seq<char>,
    i: u32,
    j: int,
)
    requires
        crate::loadtest::stream::is_key_index(labels, label, i),
    ensures
        i == 4294967295 <==> !labels.contains(label),
        i != 4294967295 ==> i < labels.len() && labels[i as int] == label,
        i < j < labels.len() ==> labels[j] != label,
{
    if i < j < labels.len() && labels[j] == label {
        assert(labels.contains(label));
    }
}

/// An error is counted as one and compares nothing. A text that belongs to no
/// subscription leaves everything as it was. Any other is measured on its stream, under
/// the label of its subscription, and takes its place in the comparison under the label's
/// own place, by what its bytes hash to.
pub proof fn law_texts_are_sorted_before_they_are_measured(
    o: crate::loadtest::stream::Observed,
    routed: Option<(crate::key::Key, Stamp)>,
    text: Seq<char>,
    labels: Seq<Seq<char>>,
    slot: usize,
    times: (u64, u64, u64),
    scaled: Option<u64>,
    before: (crate::loadtest::stream::StreamView, crate::loadtest::compare::CompareView),
    after: (crate::loadtest::stream::StreamView, crate::loadtest::compare::CompareView),
)
    requires
        crate::loadtest::stream::observes(
            o,
            routed,
            text,
            labels,
            slot,
            times,
            scaled,
            before,
            after,
        ),
        before.0.rejected < u64::MAX,
    ensures
        ({
            let error = crate::loadtest::report::is_error(vstd::utf8::encode_utf8(text));
            &&& o is Rejected <==> error
            &&& o is Unrouted <==> !error && routed is None
            &&& o is Measured <==> !error && routed is Some
            &&& error ==> after.1 == before.1 && after.0.rejected == before.0.rejected + 1
                && after.0.keys == before.0.keys
            &&& !error && routed is None ==> after == before
            &&& !error && routed is Some ==> {
                let (key, stamp) = routed->0;
                let m = crate::loadtest::stream::Message::of(
                    key,
                    stamp,
                    text,
                    times.0,
                    times.2,
                    scaled,
                );
                &&& after.0 == before.0.with_message(m, times.1)
                &&& exists|i: u32|
                    crate::loadtest::stream::is_key_index(labels, key.label(), i)
                        && after.1 == #[trigger] before.1.recorded(
                        slot,
                        crate::loadtest::stream::message_hash(text),
                        i,
                        stamp,
                        times.0,
                        m.age(),
                    )
            }
        }),
{
}

/// A message is known by what the standard hash makes of the whole of its bytes, written
/// at once and followed by the byte that ends a text.
pub proof fn law_message_is_known_by_its_bytes(text: Seq<char>)
    ensures
        crate::loadtest::stream::message_hash(text) == DefaultHasher::spec_finish(
            Seq::new(
                2,
                |i: int|
                    if i == 0 {
                        vstd::utf8::encode_utf8(text)
                    } else {
                        seq![0xffu8]
                    },
            ),
        ),
{
    let parts = seq![vstd::utf8::encode_utf8(text), seq![255u8]];
    assert(parts =~= Seq::new(
        2,
        |i: int|
            if i == 0 {
                vstd::utf8::encode_utf8(text)
            } else {
                seq![0xffu8]
            },
    ));
}

} // verus!
