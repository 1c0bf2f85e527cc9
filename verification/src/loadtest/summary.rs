//! What the report of a run shows, and whether the run has passed.

use crate::loadtest::compare::Verdict;
use crate::loadtest::keystats;
use crate::loadtest::keystats::KeyStats;
use crate::loadtest::report;
use crate::loadtest::stream;
use crate::loadtest::stream::StreamStats;
use vstd::prelude::*;

verus! {

/// What was measured about some subscriptions.
pub open spec fn views(keys: Seq<KeyStats>) -> Seq<crate::loadtest::keystats::KeyView> {
    keys.map_values(|k: KeyStats| k@)
}

// ---------------------------------------------------------------------------
// Totals
// ---------------------------------------------------------------------------

/// What all subscriptions of a stream come to.
#[derive(Clone, Copy, Debug, PartialEq, Eq, Structural)]
pub struct Tally {
    pub msgs: u128,
    pub bytes: u128,
    pub stalls: u128,
    pub violations: u128,
}

/// One figure of the first `n` subscriptions, summed up.
pub open spec fn summed(
    keys: Seq<crate::loadtest::keystats::KeyView>,
    n: int,
    figure: spec_fn(crate::loadtest::keystats::KeyView) -> u64,
) -> int
    decreases n,
{
    if n <= 0 {
        0
    } else {
        summed(keys, n - 1, figure) + figure(keys[n - 1])
    }
}

impl Tally {
    /// Whether these are the figures of some subscriptions, summed up.
    pub open spec fn sums_up(self, v: Seq<crate::loadtest::keystats::KeyView>) -> bool {
        let n = v.len() as int;
        &&& self.msgs == summed(v, n, |k: crate::loadtest::keystats::KeyView| k.msgs)
        &&& self.bytes == summed(v, n, |k: crate::loadtest::keystats::KeyView| k.bytes)
        &&& self.stalls == summed(v, n, |k: crate::loadtest::keystats::KeyView| k.stall_count)
        &&& self.violations == summed(
            v,
            n,
            |k: crate::loadtest::keystats::KeyView| k.violation_count,
        )
    }
}

proof fn lemma_summed_fits(
    keys: Seq<crate::loadtest::keystats::KeyView>,
    n: int,
    figure: spec_fn(crate::loadtest::keystats::KeyView) -> u64,
)
    requires
        0 <= n <= usize::MAX,
    ensures
        0 <= summed(keys, n, figure) <= n * u64::MAX,
        n * u64::MAX <= u128::MAX,
    decreases n,
{
    if n > 0 {
        lemma_summed_fits(keys, n - 1, figure);
    }
    assert(n * u64::MAX == (n - 1) * u64::MAX + u64::MAX) by (nonlinear_arith);
    assert(n * u64::MAX <= u64::MAX * u64::MAX) by (nonlinear_arith)
        requires
            0 <= n <= u64::MAX,
    ;
}

/// What all subscriptions of a stream come to.
pub fn tally(keys: &Vec<KeyStats>) -> (t: Tally)
    ensures
        t.sums_up(views(keys@)),
{
    let ghost v = views(keys@);
    let ghost msgs = |k: crate::loadtest::keystats::KeyView| k.msgs;
    let ghost bytes = |k: crate::loadtest::keystats::KeyView| k.bytes;
    let ghost stalls = |k: crate::loadtest::keystats::KeyView| k.stall_count;
    let ghost violations = |k: crate::loadtest::keystats::KeyView| k.violation_count;
    let mut t = Tally { msgs: 0, bytes: 0, stalls: 0, violations: 0 };
    let mut i: usize = 0;
    while i < keys.len()
        invariant
            i <= keys.len(),
            v == views(keys@),
            msgs == (|k: crate::loadtest::keystats::KeyView| k.msgs),
            bytes == (|k: crate::loadtest::keystats::KeyView| k.bytes),
            stalls == (|k: crate::loadtest::keystats::KeyView| k.stall_count),
            violations == (|k: crate::loadtest::keystats::KeyView| k.violation_count),
            t.msgs == summed(v, i as int, msgs),
            t.bytes == summed(v, i as int, bytes),
            t.stalls == summed(v, i as int, stalls),
            t.violations == summed(v, i as int, violations),
        decreases keys.len() - i,
    {
        proof {
            lemma_summed_fits(v, i + 1, msgs);
            lemma_summed_fits(v, i + 1, bytes);
            lemma_summed_fits(v, i + 1, stalls);
            lemma_summed_fits(v, i + 1, violations);
            assert(v[i as int] == keys@[i as int]@);
        }
        t = Tally {
            msgs: t.msgs + keys[i].msgs() as u128,
            bytes: t.bytes + keys[i].bytes() as u128,
            stalls: t.stalls + keys[i].stall_count() as u128,
            violations: t.violations + keys[i].violation_count() as u128,
        };
        i = i + 1;
    }
    t
}

/// Whether any subscription had a message in second `i`.
pub open spec fn heard(keys: Seq<crate::loadtest::keystats::KeyView>, i: int) -> bool {
    exists|k: int|
        0 <= k < keys.len() && report::count_at((#[trigger] keys[k]).per_second, i) > 0
}

/// How many messages second `i` had, in the first `n` subscriptions.
pub open spec fn heard_count(keys: Seq<crate::loadtest::keystats::KeyView>, n: int, i: int) -> int
    decreases n,
{
    if n <= 0 {
        0
    } else {
        heard_count(keys, n - 1, i) + report::count_at(keys[n - 1].per_second, i)
    }
}

/// In which of the first `secs` seconds any subscription had a message.
pub fn alive(keys: &Vec<KeyStats>, secs: usize) -> (r: Vec<bool>)
    ensures
        r@ == Seq::new(secs as nat, |i: int| heard(views(keys@), i)),
{
    let ghost v = views(keys@);
    let mut r: Vec<bool> = Vec::new();
    let mut i: usize = 0;
    while i < secs
        invariant
            i <= secs,
            v == views(keys@),
            r@ == Seq::new(i as nat, |j: int| heard(v, j)),
        decreases secs - i,
    {
        let mut any = false;
        let mut k: usize = 0;
        while k < keys.len()
            invariant
                k <= keys.len(),
                v == views(keys@),
                any == exists|j: int|
                    0 <= j < k && report::count_at((#[trigger] v[j]).per_second, i as int) > 0,
            decreases keys.len() - k,
        {
            let counts = keys[k].per_second();
            assert(v[k as int] == keys@[k as int]@);
            if i < counts.len() && counts[i] > 0 {
                any = true;
            }
            k = k + 1;
        }
        let ghost was = r@;
        r.push(any);
        i = i + 1;
        assert(r@ =~= Seq::new(i as nat, |j: int| heard(v, j)));
    }
    r
}

/// Messages per second over all subscriptions, for the first `secs` seconds. The
/// counters wrap.
pub fn all_counts(keys: &Vec<KeyStats>, secs: usize) -> (r: Vec<u32>)
    ensures
        r@ == Seq::new(
            secs as nat,
            |i: int| (heard_count(views(keys@), keys@.len() as int, i) % 0x1_0000_0000) as u32,
        ),
{
    let ghost v = views(keys@);
    let ghost all = keys@.len() as int;
    let mut r: Vec<u32> = Vec::new();
    let mut i: usize = 0;
    while i < secs
        invariant
            i <= secs,
            v == views(keys@),
            all == keys@.len(),
            r@ == Seq::new(i as nat, |j: int| (heard_count(v, all, j) % 0x1_0000_0000) as u32),
        decreases secs - i,
    {
        let mut n: u32 = 0;
        let mut k: usize = 0;
        while k < keys.len()
            invariant
                k <= keys.len(),
                v == views(keys@),
                n == heard_count(v, k as int, i as int) % 0x1_0000_0000,
            decreases keys.len() - k,
        {
            let counts = keys[k].per_second();
            assert(v[k as int] == keys@[k as int]@);
            if i < counts.len() {
                n = n.wrapping_add(counts[i]);
            }
            k = k + 1;
        }
        r.push(n);
        i = i + 1;
        assert(r@ =~= Seq::new(
            i as nat,
            |j: int| (heard_count(v, all, j) % 0x1_0000_0000) as u32,
        ));
    }
    r
}

// ---------------------------------------------------------------------------
// What is shown
// ---------------------------------------------------------------------------

/// More strips than this are not readable.
pub const MAX_STRIPS: usize = 12;

/// Whether strip `a` is worse than strip `b`, both given by their stalls and
/// their median age in the order of their names: more stalls, then staler, then
/// first by name.
pub open spec fn worse(strips: Seq<(u64, u32)>, a: int, b: int) -> bool {
    ||| strips[a].0 > strips[b].0
    ||| strips[a].0 == strips[b].0 && strips[a].1 > strips[b].1
    ||| strips[a] == strips[b] && a < b
}

/// How many of the first `n` strips are worse than strip `b`.
pub open spec fn worse_before(strips: Seq<(u64, u32)>, b: int, n: int) -> nat
    decreases n,
{
    if n <= 0 {
        0
    } else if worse(strips, n - 1, b) {
        worse_before(strips, b, n - 1) + 1
    } else {
        worse_before(strips, b, n - 1)
    }
}

/// Whether strip `b` is among the worst that are shown.
pub open spec fn is_shown(strips: Seq<(u64, u32)>, b: int) -> bool {
    worse_before(strips, b, strips.len() as int) < MAX_STRIPS
}

/// Those of the first `n` strips that are shown.
pub open spec fn shown_of(strips: Seq<(u64, u32)>, n: int) -> Seq<usize>
    decreases n,
{
    if n <= 0 {
        seq![]
    } else if is_shown(strips, n - 1) {
        shown_of(strips, n - 1).push((n - 1) as usize)
    } else {
        shown_of(strips, n - 1)
    }
}

/// Which strips are shown, in the order of their names: all, or the worst if they
/// are too many.
pub fn shown_strips(strips: &Vec<(u64, u32)>) -> (r: Vec<usize>)
    ensures
        r@ == shown_of(strips@, strips@.len() as int),
{
    let mut r: Vec<usize> = Vec::new();
    let mut i: usize = 0;
    while i < strips.len()
        invariant
            i <= strips.len(),
            r@ == shown_of(strips@, i as int),
        decreases strips.len() - i,
    {
        let mut n: usize = 0;
        let mut k: usize = 0;
        while k < strips.len()
            invariant
                i < strips.len(),
                n <= k <= strips.len(),
                n == worse_before(strips@, i as int, k as int),
            decreases strips.len() - k,
        {
            let (stalls, age) = strips[k];
            let (of_stalls, of_age) = strips[i];
            if stalls > of_stalls || (stalls == of_stalls && age > of_age) || (stalls == of_stalls
                && age == of_age && k < i) {
                n = n + 1;
            }
            k = k + 1;
        }
        if n < MAX_STRIPS {
            r.push(i);
        }
        i = i + 1;
    }
    r
}

/// Up to so many strips, all are shown.
pub proof fn law_few_strips_are_all_shown(strips: Seq<(u64, u32)>, b: int)
    requires
        strips.len() <= MAX_STRIPS,
        0 <= b < strips.len(),
    ensures
        is_shown(strips, b),
{
    lemma_few_are_worse(strips, b, strips.len() as int);
}

proof fn lemma_few_are_worse(strips: Seq<(u64, u32)>, b: int, n: int)
    requires
        0 <= b,
        0 <= n,
    ensures
        worse_before(strips, b, n) <= n,
        b < n ==> worse_before(strips, b, n) < n,
    decreases n,
{
    if n > 0 {
        lemma_few_are_worse(strips, b, n - 1);
    }
}

/// What is shown is never less bad than what is not.
pub proof fn law_the_worst_are_shown(strips: Seq<(u64, u32)>, a: int, b: int)
    requires
        0 <= a < strips.len(),
        0 <= b < strips.len(),
        is_shown(strips, b),
        worse(strips, a, b),
    ensures
        is_shown(strips, a),
{
    lemma_worse_is_transitive(strips, a, b, strips.len() as int);
}

proof fn lemma_worse_is_transitive(strips: Seq<(u64, u32)>, a: int, b: int, n: int)
    requires
        0 <= n,
        worse(strips, a, b),
    ensures
        worse_before(strips, a, n) <= worse_before(strips, b, n),
    decreases n,
{
    if n > 0 {
        lemma_worse_is_transitive(strips, a, b, n - 1);
        assert(worse(strips, n - 1, a) ==> worse(strips, n - 1, b));
    }
}

/// More notes than this bury the strips.
pub const MAX_NOTES: usize = 8;

/// So many stalls, and so many violations, of one subscription are noted.
pub const NOTES_EACH: usize = 2;

/// Something worth noting about a stream.
#[derive(Clone, Copy, Debug, PartialEq, Eq, Structural)]
pub enum Note {
    /// Subscription `key` stalled, `at` nanoseconds into the run and for `len`.
    Stall { key: usize, at: u64, len: u64 },
    /// The violation at place `which` of subscription `key`.
    Violation { key: usize, which: usize },
}

/// How many of `n` are noted.
pub open spec fn noted_of(n: nat) -> nat {
    if n < NOTES_EACH {
        n
    } else {
        NOTES_EACH as nat
    }
}

/// What is worth noting about one subscription.
pub open spec fn notes_on(k: crate::loadtest::keystats::KeyView, key: usize) -> Seq<Note> {
    Seq::new(
        noted_of(k.stalls.len()),
        |i: int| Note::Stall { key, at: k.stalls[i].0, len: k.stalls[i].1 },
    ) + Seq::new(
        noted_of(k.violations.len()),
        |i: int| Note::Violation { key, which: i as usize },
    )
}

/// What is worth noting about the first `n` subscriptions.
pub open spec fn all_notes(keys: Seq<crate::loadtest::keystats::KeyView>, n: int) -> Seq<Note>
    decreases n,
{
    if n <= 0 {
        seq![]
    } else {
        all_notes(keys, n - 1) + notes_on(keys[n - 1], (n - 1) as usize)
    }
}

/// The notes that are shown.
pub open spec fn first_notes(notes: Seq<Note>) -> Seq<Note> {
    if notes.len() <= MAX_NOTES {
        notes
    } else {
        notes.take(MAX_NOTES as int)
    }
}

fn add_note(notes: &mut Vec<Note>, note: Note, Ghost(all): Ghost<Seq<Note>>)
    requires
        old(notes)@ == first_notes(all),
    ensures
        final(notes)@ == first_notes(all.push(note)),
{
    if notes.len() < MAX_NOTES {
        notes.push(note);
        assert(notes@ =~= first_notes(all.push(note)));
    } else {
        assert(all.take(MAX_NOTES as int) =~= all.push(note).take(MAX_NOTES as int));
        assert(all.len() == MAX_NOTES ==> all =~= all.take(MAX_NOTES as int));
    }
}

/// What is worth noting about the subscriptions of a stream, as far as it is
/// shown: the first stalls and the first violations of each, and no more than
/// [`MAX_NOTES`].
pub fn notes(keys: &Vec<KeyStats>) -> (r: Vec<Note>)
    ensures
        r@ == first_notes(all_notes(views(keys@), keys@.len() as int)),
{
    let ghost v = views(keys@);
    let mut r: Vec<Note> = Vec::new();
    let mut i: usize = 0;
    while i < keys.len()
        invariant
            i <= keys.len(),
            v == views(keys@),
            r@ == first_notes(all_notes(v, i as int)),
        decreases keys.len() - i,
    {
        let ghost before = all_notes(v, i as int);
        let ghost of_key = notes_on(v[i as int], i);
        assert(v[i as int] == keys@[i as int]@);
        let stalls = keys[i].stalls();
        let violations = keys[i].violations();
        assert(violations@.len() == crate::entry::texts(violations@).len());
        let mut k: usize = 0;
        assert(before + of_key.take(0) =~= before);
        while k < stalls.len() && k < NOTES_EACH
            invariant
                k <= stalls.len(),
                k <= NOTES_EACH,
                stalls@ == v[i as int].stalls,
                of_key == notes_on(v[i as int], i),
                r@ == first_notes(before + of_key.take(k as int)),
            decreases stalls.len() - k,
        {
            let (at, len) = stalls[k];
            add_note(
                &mut r,
                Note::Stall { key: i, at, len },
                Ghost(before + of_key.take(k as int)),
            );
            k = k + 1;
            assert(before + of_key.take(k as int) =~= (before + of_key.take(k - 1)).push(
                of_key[k - 1],
            ));
        }
        let ghost n = noted_of(stalls@.len());
        assert(k == n);
        let mut m: usize = 0;
        while m < violations.len() && m < NOTES_EACH
            invariant
                m <= violations.len(),
                m <= NOTES_EACH,
                n == noted_of(v[i as int].stalls.len()),
                violations@.len() == v[i as int].violations.len(),
                of_key == notes_on(v[i as int], i),
                r@ == first_notes(before + of_key.take(n + m)),
            decreases violations.len() - m,
        {
            add_note(
                &mut r,
                Note::Violation { key: i, which: m },
                Ghost(before + of_key.take(n + m)),
            );
            m = m + 1;
            assert(before + of_key.take(n + m) =~= (before + of_key.take(n + m - 1)).push(
                of_key[n + m - 1],
            ));
        }
        assert(of_key.take(n + m) =~= of_key);
        i = i + 1;
    }
    r
}

// ---------------------------------------------------------------------------
// The age of the data
// ---------------------------------------------------------------------------

/// Fewer samples than this are not a distribution.
pub const MIN_SAMPLES: usize = 100;

/// What the table of ages says of one stream. Ages are in milliseconds.
#[derive(Clone, Copy, Debug, PartialEq, Eq, Structural)]
pub enum AgeRow {
    /// No frame carried a time.
    Untimed,
    /// Too few did to compare.
    TooFew { n: usize, oldest: u32 },
    /// The percentiles over `n` samples. If `missing` is given, the stream had so
    /// many samples less than the fullest that they flatter it.
    Full { median: u32, p95: u32, p99: u32, n: usize, missing: Option<usize> },
}

/// The samples of the fullest stream.
pub open spec fn fullest(ages: Seq<Vec<u32>>) -> nat
    decreases ages.len(),
{
    if ages.len() == 0 {
        0
    } else if ages.last()@.len() > fullest(ages.drop_last()) {
        ages.last()@.len()
    } else {
        fullest(ages.drop_last())
    }
}

/// How many samples a stream is short of the fullest, if it matters.
pub open spec fn missing_of(n: nat, most: nat) -> Option<usize> {
    if most - n > most / 100 {
        Some((most - n) as usize)
    } else {
        None
    }
}

/// Whether `row` is what the table says of a stream.
pub open spec fn is_row(row: AgeRow, ages: Seq<u32>, most: nat) -> bool {
    let v = crate::loadtest::keystats::widened(ages);
    if ages.len() == 0 {
        row is Untimed
    } else if ages.len() < MIN_SAMPLES {
        row matches AgeRow::TooFew { n, oldest } && n == ages.len()
            && crate::loadtest::keystats::is_quantile(v, 99, oldest as u64)
    } else {
        row matches AgeRow::Full { median, p95, p99, n, missing } && n == ages.len() && missing
            == missing_of(ages.len(), most) && crate::loadtest::keystats::is_quantile(
            v,
            50,
            median as u64,
        ) && crate::loadtest::keystats::is_quantile(v, 95, p95 as u64)
            && crate::loadtest::keystats::is_quantile(v, 99, p99 as u64)
    }
}

fn fullest_of(ages: &Vec<Vec<u32>>) -> (n: usize)
    ensures
        n == fullest(ages@),
        forall|i: int| 0 <= i < ages@.len() ==> (#[trigger] ages@[i])@.len() <= n,
{
    let mut n: usize = 0;
    let mut i: usize = 0;
    while i < ages.len()
        invariant
            i <= ages.len(),
            n == fullest(ages@.take(i as int)),
            forall|k: int| 0 <= k < i ==> (#[trigger] ages@[k])@.len() <= n,
        decreases ages.len() - i,
    {
        if ages[i].len() > n {
            n = ages[i].len();
        }
        i = i + 1;
        assert(ages@.take(i as int).drop_last() =~= ages@.take(i - 1));
    }
    assert(ages@.take(ages@.len() as int) =~= ages@);
    n
}

fn age_row(ages: &Vec<u32>, most: usize) -> (row: AgeRow)
    requires
        ages@.len() <= most,
    ensures
        is_row(row, ages@, most as nat),
{
    let n = ages.len();
    match (
        keystats::age_quantile(ages, 50),
        keystats::age_quantile(ages, 95),
        keystats::age_quantile(ages, 99),
    ) {
        (Some(median), Some(p95), Some(p99)) => if n < MIN_SAMPLES {
            AgeRow::TooFew { n, oldest: p99 }
        } else {
            AgeRow::Full {
                median,
                p95,
                p99,
                n,
                missing: if most - n > most / 100 {
                    Some(most - n)
                } else {
                    None
                },
            }
        },
        _ => AgeRow::Untimed,
    }
}

/// Whether these are the rows of the table of ages. With too few samples of the first
/// stream the table ends there.
pub open spec fn is_table(rows: Seq<AgeRow>, ages: Seq<Vec<u32>>) -> bool {
    &&& rows.len() == if ages.len() > 0 && 0 < ages[0]@.len() < MIN_SAMPLES {
        1
    } else {
        ages.len()
    }
    &&& forall|i: int|
        0 <= i < rows.len() ==> is_row(#[trigger] rows[i], ages[i]@, fullest(ages))
}

/// What the table of ages says, stream by stream. The proxy comes first: with too
/// few samples of its own there is nothing to compare, and the table ends there.
pub fn age_rows(ages: &Vec<Vec<u32>>) -> (rows: Vec<AgeRow>)
    ensures
        is_table(rows@, ages@),
{
    let most = fullest_of(ages);
    let mut rows: Vec<AgeRow> = Vec::new();
    let mut i: usize = 0;
    while i < ages.len()
        invariant
            i <= ages.len(),
            rows@.len() == i,
            most == fullest(ages@),
            forall|k: int| 0 <= k < ages@.len() ==> (#[trigger] ages@[k])@.len() <= most,
            forall|k: int|
                0 <= k < i ==> is_row(#[trigger] rows@[k], ages@[k]@, fullest(ages@)),
            i > 0 ==> !(0 < ages@[0]@.len() < MIN_SAMPLES),
        decreases ages.len() - i,
    {
        let row = age_row(&ages[i], most);
        rows.push(row);
        if i == 0 {
            match row {
                AgeRow::TooFew { .. } => {
                    return rows;
                },
                _ => {},
            }
        }
        i = i + 1;
    }
    rows
}

/// How far two figures are apart.
pub open spec fn distance(a: u32, b: u32) -> int {
    if a >= b {
        a - b
    } else {
        b - a
    }
}

/// How far two figures are apart. Between two connections to one node that is the
/// floor: what is closer cannot be told apart.
pub fn spread(a: u32, b: u32) -> (d: u32)
    ensures
        d == distance(a, b),
{
    if a >= b {
        a - b
    } else {
        b - a
    }
}

/// How the proxy stands against the best of the others.
#[derive(Clone, Copy, Debug, PartialEq, Eq, Structural)]
pub enum Standing {
    /// Closer than can be told.
    Level,
    /// So many milliseconds staler.
    Staler(u32),
    /// So many milliseconds fresher.
    Fresher(u32),
}

/// The least of some figures.
pub open spec fn is_least(v: Seq<u32>, x: u32) -> bool {
    v.contains(x) && forall|i: int| 0 <= i < v.len() ==> x <= #[trigger] v[i]
}

/// How `ours` stands against `best`, when nothing up to `floor` counts.
pub open spec fn standing_of(ours: u32, best: u32, floor: u32) -> Standing {
    if ours - best > floor {
        Standing::Staler((ours - best) as u32)
    } else if best - ours > floor {
        Standing::Fresher((best - ours) as u32)
    } else {
        Standing::Level
    }
}

/// Whether `s` is how `ours` stands against the least of the others.
pub open spec fn stands(s: Standing, ours: u32, others: Seq<u32>, floor: u32) -> bool {
    &&& forall|best: u32| #[trigger]
        is_least(others, best) ==> s == standing_of(ours, best, floor)
    &&& exists|best: u32| #[trigger] is_least(others, best)
}

/// How `ours` stands against the best of the others, when nothing up to `floor`
/// counts.
pub fn standing(ours: u32, others: &Vec<u32>, floor: u32) -> (s: Standing)
    requires
        others@.len() > 0,
    ensures
        stands(s, ours, others@, floor),
{
    let mut best: u32 = others[0];
    let mut i: usize = 1;
    while i < others.len()
        invariant
            1 <= i <= others.len(),
            others@.contains(best),
            forall|k: int| 0 <= k < i ==> best <= #[trigger] others@[k],
        decreases others.len() - i,
    {
        if others[i] < best {
            best = others[i];
        }
        i = i + 1;
    }
    proof {
        assert(is_least(others@, best));
        assert forall|other: u32| #[trigger] is_least(others@, other) implies other == best by {
            let a = others@.index_of(other);
            let b = others@.index_of(best);
            assert(others@[a] == other && others@[b] == best);
        }
    }
    if ours > best && ours - best > floor {
        Standing::Staler(ours - best)
    } else if best > ours && best - ours > floor {
        Standing::Fresher(best - ours)
    } else {
        Standing::Level
    }
}

/// Fewer messages than this, carried by every stream, are too few to compare.
pub const MIN_MATCHED: u64 = 500;

/// What the ages over the messages that every stream carried are worth.
#[derive(Clone, Copy, Debug, PartialEq, Eq, Structural)]
pub enum Matched {
    /// The streams are not emitting the same bytes.
    TooFew,
    /// More than one in a hundred was older than the histogram reaches: the
    /// figures are a lower bound.
    Floored,
    Fair,
}

/// What the ages of `total` messages are worth, of which `over` were older than the
/// histogram reaches.
pub open spec fn matched_worth(total: int, over: u32) -> Matched {
    if total < MIN_MATCHED {
        Matched::TooFew
    } else if over * 100 > total {
        Matched::Floored
    } else {
        Matched::Fair
    }
}

/// How many messages every stream carried, and what their ages are worth.
pub fn matched(hist: &Vec<u32>) -> (r: (u64, Matched))
    requires
        0 < hist@.len() <= u32::MAX,
    ensures
        ({
            let total = report::held_below(hist@, hist@.len() as int);
            r.0 == total && r.1 == matched_worth(total, hist@.last())
        }),
{
    let total = report::held(hist);
    let over = hist[hist.len() - 1];
    let m = if total < MIN_MATCHED {
        Matched::TooFew
    } else if over as u64 * 100 > total {
        Matched::Floored
    } else {
        Matched::Fair
    };
    (total, m)
}

// ---------------------------------------------------------------------------
// The verdict
// ---------------------------------------------------------------------------

/// Whether stream `other` stalled on a subscription near `at` too.
pub open spec fn had_too(
    other: crate::loadtest::stream::StreamView,
    label: Seq<char>,
    at: u64,
) -> bool {
    other.labels.contains(label) && report::shared_stall(
        at,
        other.keys[other.labels.index_of(label)].stalls,
    )
}

/// Whether no other stream stalled on a subscription near `at`.
pub open spec fn had_alone(others: Seq<StreamStats>, label: Seq<char>, at: u64) -> bool {
    forall|s: int| 0 <= s < others.len() ==> !had_too((#[trigger] others[s])@, label, at)
}

/// Of the first `n` stalls of subscription `key`, those that no other stream had.
pub open spec fn alone_on(
    others: Seq<StreamStats>,
    label: Seq<char>,
    stalls: Seq<(u64, u64)>,
    key: usize,
    n: int,
) -> Seq<(usize, usize)>
    decreases n,
{
    if n <= 0 {
        seq![]
    } else if had_alone(others, label, stalls[n - 1].0) {
        alone_on(others, label, stalls, key, n - 1).push((key, (n - 1) as usize))
    } else {
        alone_on(others, label, stalls, key, n - 1)
    }
}

/// The stalls on the first `n` subscriptions that no other stream had.
pub open spec fn alone_of(
    ours: crate::loadtest::stream::StreamView,
    others: Seq<StreamStats>,
    n: int,
) -> Seq<(usize, usize)>
    decreases n,
{
    if n <= 0 {
        seq![]
    } else {
        alone_of(ours, others, n - 1) + alone_on(
            others,
            ours.labels[n - 1],
            ours.keys[n - 1].stalls,
            (n - 1) as usize,
            ours.keys[n - 1].stalls.len() as int,
        )
    }
}

fn is_alone(others: &Vec<StreamStats>, label: &String, at: u64) -> (b: bool)
    requires
        forall|s: int| 0 <= s < others@.len() ==> (#[trigger] others@[s]).inv(),
    ensures
        b == had_alone(others@, label@, at),
{
    let mut i: usize = 0;
    while i < others.len()
        invariant
            i <= others.len(),
            forall|s: int| 0 <= s < others@.len() ==> (#[trigger] others@[s]).inv(),
            forall|s: int| 0 <= s < i ==> !had_too((#[trigger] others@[s])@, label@, at),
        decreases others.len() - i,
    {
        let other = &others[i];
        proof {
            other.lemma_inv();
        }
        match stream::find_label(other.labels(), label) {
            Some(k) => {
                let keys = other.keys();
                assert(other@.keys == keys@.map_values(|k: KeyStats| k@));
                assert(other@.keys[k as int] == keys@[k as int]@);
                if report::is_shared(at, keys[k].stalls()) {
                    assert(had_too(others@[i as int]@, label@, at));
                    return false;
                }
            },
            None => {},
        }
        i = i + 1;
    }
    true
}

/// The stalls that the proxy had and no node did, each by its subscription and its
/// place there. A stall the nodes had too is the upstream's.
pub fn alone_stalls(ours: &StreamStats, others: &Vec<StreamStats>) -> (r: Vec<(usize, usize)>)
    requires
        ours.inv(),
        forall|s: int| 0 <= s < others@.len() ==> (#[trigger] others@[s]).inv(),
    ensures
        r@ == alone_of(ours@, others@, ours@.keys.len() as int),
{
    proof {
        ours.lemma_inv();
    }
    let labels = ours.labels();
    let keys = ours.keys();
    let mut r: Vec<(usize, usize)> = Vec::new();
    let mut i: usize = 0;
    assert(ours@.keys.len() == keys@.len());
    assert(ours@.labels.len() == labels@.len());
    while i < keys.len()
        invariant
            i <= keys.len(),
            keys@.len() == labels@.len(),
            crate::entry::texts(labels@) == ours@.labels,
            keys@.map_values(|k: KeyStats| k@) == ours@.keys,
            forall|s: int| 0 <= s < others@.len() ==> (#[trigger] others@[s]).inv(),
            r@ == alone_of(ours@, others@, i as int),
        decreases keys.len() - i,
    {
        assert(ours@.keys[i as int] == keys@[i as int]@);
        assert(ours@.labels[i as int] == labels@[i as int]@);
        let ghost before = r@;
        let ghost label = labels@[i as int]@;
        let stalls = keys[i].stalls();
        let mut k: usize = 0;
        while k < stalls.len()
            invariant
                k <= stalls.len(),
                i < labels@.len(),
                label == labels@[i as int]@,
                forall|s: int| 0 <= s < others@.len() ==> (#[trigger] others@[s]).inv(),
                r@ == before + alone_on(others@, label, stalls@, i, k as int),
            decreases stalls.len() - k,
        {
            let (at, _) = stalls[k];
            if is_alone(others, &labels[i], at) {
                r.push((i, k));
            }
            k = k + 1;
            assert(r@ =~= before + alone_on(others@, label, stalls@, i, k as int));
        }
        i = i + 1;
    }
    r
}

/// What frames that came down one connection to a node and not the other say of
/// those that the proxy sent and no node did.
#[derive(Clone, Copy, Debug, PartialEq, Eq, Structural)]
pub enum Framing {
    /// The two connections were not compared.
    Unknown,
    /// They agree, and the proxy sent nothing of its own.
    Clean,
    /// They agree, so the proxy is to blame.
    Identical,
    /// They disagree as often, so the node is.
    Explains,
    /// They disagree, but that does not settle it.
    Unsettled,
}

/// What the figures say of the framing.
pub open spec fn framing_of(v: Verdict) -> Framing {
    let odd = v.node_only + v.twin_only;
    if v.twin_both + odd == 0 {
        Framing::Unknown
    } else if odd == 0 && v.invented == 0 {
        Framing::Clean
    } else if odd == 0 {
        Framing::Identical
    } else if v.invented > 0 && odd * 2 >= v.invented {
        Framing::Explains
    } else {
        Framing::Unsettled
    }
}

/// What the figures say of the framing.
pub fn framing(v: &Verdict) -> (f: Framing)
    ensures
        f == framing_of(*v),
{
    let odd: u128 = v.node_only as u128 + v.twin_only as u128;
    if v.twin_both as u128 + odd == 0 {
        Framing::Unknown
    } else if odd == 0 && v.invented == 0 {
        Framing::Clean
    } else if odd == 0 {
        Framing::Identical
    } else if v.invented > 0 && odd * 2 >= v.invented as u128 {
        Framing::Explains
    } else {
        Framing::Unsettled
    }
}

/// Whether so much came from the proxy alone that it must be reading a source that
/// it was not compared with.
pub open spec fn is_elsewhere(v: Verdict) -> bool {
    v.invented * 20 > v.matched
}

/// Whether so much came from the proxy alone that it must be reading a source that
/// it was not compared with.
pub fn reads_elsewhere(v: &Verdict) -> (b: bool)
    ensures
        b == is_elsewhere(*v),
{
    v.invented as u128 * 20 > v.matched as u128
}

/// What was found out about the proxy in a run.
#[derive(Clone, Copy, Debug, PartialEq, Eq, Structural)]
pub struct Findings {
    /// It closed a connection before the run was over.
    pub closed_early: bool,
    /// Frames of it that went back.
    pub violations: u128,
    /// Its data grew ever older.
    pub climbing: bool,
    /// Stalls that it had and the nodes did not.
    pub alone: usize,
    /// Messages that a node had and it never made up for.
    pub lost: u64,
}

/// Whether the proxy has passed: it kept its connections, never went back, kept up
/// with the chain, stalled only with the nodes, and lost nothing.
pub open spec fn is_pass(f: Findings) -> bool {
    !f.closed_early && f.violations == 0 && !f.climbing && f.alone == 0 && f.lost == 0
}

/// Whether the proxy has passed: it kept its connections, never went back, kept up
/// with the chain, stalled only with the nodes, and lost nothing.
pub fn passed(f: &Findings) -> (b: bool)
    ensures
        b == is_pass(*f),
{
    !f.closed_early && f.violations == 0 && !f.climbing && f.alone == 0 && f.lost == 0
}

} // verus!
