//! What the figures of a run come to.

use vstd::prelude::*;

verus! {

// ---------------------------------------------------------------------------
// Percentiles of a histogram
// ---------------------------------------------------------------------------

/// What the first `n` buckets hold together.
pub open spec fn held_below(hist: Seq<u32>, n: int) -> int
    decreases n,
{
    if n <= 0 {
        0
    } else {
        held_below(hist, n - 1) + hist[n - 1]
    }
}

/// Whether bucket `i` holds the value at the `p`-th hundredth: as many values as
/// come before that one fit in the buckets up to it, and not in those below it.
pub open spec fn is_pct(hist: Seq<u32>, p: int, i: int) -> bool {
    let want = (held_below(hist, hist.len() as int) - 1) * p / 100;
    &&& 0 <= i < hist.len()
    &&& held_below(hist, i) <= want
    &&& want < held_below(hist, i + 1)
}

proof fn lemma_held_grows(hist: Seq<u32>, a: int, b: int)
    requires
        0 <= a <= b <= hist.len(),
    ensures
        0 <= held_below(hist, a) <= held_below(hist, b),
        held_below(hist, b) <= b * u32::MAX,
    decreases b,
{
    if b > 0 {
        if a < b {
            lemma_held_grows(hist, a, b - 1);
        } else {
            lemma_held_grows(hist, a - 1, b - 1);
        }
        assert(b * u32::MAX == (b - 1) * u32::MAX + u32::MAX) by (nonlinear_arith);
    }
}

/// What a histogram holds.
pub fn held(hist: &Vec<u32>) -> (total: u64)
    requires
        hist@.len() <= u32::MAX,
    ensures
        total == held_below(hist@, hist@.len() as int),
{
    let n = hist.len();
    let mut total: u64 = 0;
    let mut i: usize = 0;
    while i < n
        invariant
            i <= n,
            n == hist@.len(),
            n <= u32::MAX,
            total == held_below(hist@, i as int),
        decreases n - i,
    {
        proof {
            lemma_held_grows(hist@, 0, i + 1);
            assert((i + 1) * u32::MAX <= u32::MAX * u32::MAX) by (nonlinear_arith)
                requires
                    i + 1 <= u32::MAX,
            ;
        }
        total = total + hist[i] as u64;
        i = i + 1;
    }
    total
}

/// Whether `i` is the percentile read off a histogram; nought if it is empty.
pub open spec fn is_percentile(hist: Seq<u32>, p: int, i: int) -> bool {
    if held_below(hist, hist.len() as int) == 0 {
        i == 0
    } else {
        is_pct(hist, p, i)
    }
}

/// The percentile read off a histogram of one bucket per millisecond; nought if
/// it is empty.
pub fn pct_of(hist: &Vec<u32>, p: u64) -> (r: u32)
    requires
        hist@.len() <= u32::MAX,
        p <= 100,
    ensures
        is_percentile(hist@, p as int, r as int),
{
    let n = hist.len();
    let total = held(hist);
    if total == 0 {
        return 0;
    }
    proof {
        assert(0 <= (total - 1) * p <= (total - 1) * 100) by (nonlinear_arith)
            requires
                total >= 1,
                p <= 100,
        ;
        assert((total - 1) * p / 100 < total) by (nonlinear_arith)
            requires
                total >= 1,
                p <= 100,
        ;
    }
    let want: u128 = (total as u128 - 1) * (p as u128) / 100;
    let mut seen: u64 = 0;
    let mut i: usize = 0;
    while i < n
        invariant
            i <= n,
            n == hist@.len(),
            n <= u32::MAX,
            total == held_below(hist@, n as int),
            seen == held_below(hist@, i as int),
            seen <= want,
            want == (total - 1) * p / 100,
            want < total,
        decreases n - i,
    {
        proof {
            lemma_held_grows(hist@, i + 1, n as int);
        }
        seen = seen + hist[i] as u64;
        if seen as u128 > want {
            return i as u32;
        }
        i = i + 1;
    }
    0
}

// ---------------------------------------------------------------------------
// The heat strip
// ---------------------------------------------------------------------------

/// One second of a heat strip.
#[derive(Clone, Copy, Debug, PartialEq, Eq, Structural)]
pub enum Cell {
    /// Before the first message: the subscription had simply not been made yet.
    NotYet,
    /// Silence while somebody else had data.
    Broken,
    /// Silence everywhere.
    Quiet,
    /// This many messages.
    Active(u32),
}

/// How many messages there were in second `i`.
pub open spec fn count_at(counts: Seq<u32>, i: int) -> u32 {
    if 0 <= i < counts.len() {
        counts[i]
    } else {
        0
    }
}

/// What second `i` of a heat strip shows. Silence only means something if anybody
/// else had data.
pub open spec fn cell_at(counts: Seq<u32>, alive: Seq<bool>, i: int) -> Cell {
    if forall|j: int| 0 <= j <= i ==> #[trigger] count_at(counts, j) == 0 {
        Cell::NotYet
    } else if count_at(counts, i) > 0 {
        Cell::Active(count_at(counts, i))
    } else if i < alive.len() && alive[i] {
        Cell::Broken
    } else {
        Cell::Quiet
    }
}

/// The heat strip of `secs` seconds.
pub fn heat_cells(counts: &Vec<u32>, secs: usize, alive: &Vec<bool>) -> (r: Vec<Cell>)
    ensures
        r@ == Seq::new(secs as nat, |i: int| cell_at(counts@, alive@, i)),
{
    let mut r: Vec<Cell> = Vec::new();
    let mut begun = false;
    let mut i: usize = 0;
    while i < secs
        invariant
            i <= secs,
            r@.len() == i,
            forall|k: int| 0 <= k < i ==> #[trigger] r@[k] == cell_at(counts@, alive@, k),
            begun == exists|j: int| 0 <= j < i && #[trigger] count_at(counts@, j) > 0,
        decreases secs - i,
    {
        let n: u32 = if i < counts.len() {
            counts[i]
        } else {
            0
        };
        assert(n == count_at(counts@, i as int));
        if n > 0 {
            begun = true;
        }
        proof {
            if begun {
                let j = choose|j: int| 0 <= j <= i && #[trigger] count_at(counts@, j) > 0;
                assert(count_at(counts@, j) != 0);
            } else {
                assert forall|j: int| 0 <= j <= i implies #[trigger] count_at(
                    counts@,
                    j,
                ) == 0 by {}
            }
        }
        let cell = if !begun {
            Cell::NotYet
        } else if n > 0 {
            Cell::Active(n)
        } else if i < alive.len() && alive[i] {
            Cell::Broken
        } else {
            Cell::Quiet
        };
        r.push(cell);
        i = i + 1;
    }
    assert(r@ =~= Seq::new(secs as nat, |i: int| cell_at(counts@, alive@, i)));
    r
}

// ---------------------------------------------------------------------------
// Ages over the run
// ---------------------------------------------------------------------------

/// Ages are averaged over this many seconds.
pub const AGE_BUCKET_SECS: usize = 10;

/// The sum of the ages and of the messages of some seconds. Sums wrap.
pub open spec fn age_sums(v: Seq<(u64, u32)>) -> (u64, u64)
    decreases v.len(),
{
    if v.len() == 0 {
        (0, 0)
    } else {
        let rest = age_sums(v.drop_last());
        (
            crate::stats::counted(rest.0, v.last().0),
            crate::stats::counted(rest.1, v.last().1 as u64),
        )
    }
}

/// The mean age over some seconds: `None` if there was no message.
pub open spec fn mean_age(v: Seq<(u64, u32)>) -> Option<u64> {
    if age_sums(v).1 == 0 {
        None
    } else {
        Some((age_sums(v).0 / age_sums(v).1) as u64)
    }
}

/// The seconds of bucket `i`: ten of them, or what is left.
pub open spec fn age_window(v: Seq<(u64, u32)>, i: int) -> Seq<(u64, u32)> {
    let from = i * AGE_BUCKET_SECS;
    let to = if from + AGE_BUCKET_SECS <= v.len() {
        from + AGE_BUCKET_SECS
    } else {
        v.len() as int
    };
    v.subrange(from, to)
}

/// Whether `r` holds the mean age in each stretch of ten seconds.
pub open spec fn are_mean_ages(r: Seq<Option<u64>>, v: Seq<(u64, u32)>) -> bool {
    &&& r.len() == (v.len() + AGE_BUCKET_SECS - 1) / AGE_BUCKET_SECS as int
    &&& forall|i: int| 0 <= i < r.len() ==> #[trigger] r[i] == mean_age(age_window(v, i))
}

/// The mean age in each stretch of ten seconds, the last of which may be shorter.
pub fn mean_ages(v: &Vec<(u64, u32)>) -> (r: Vec<Option<u64>>)
    ensures
        are_mean_ages(r@, v@),
{
    let mut r: Vec<Option<u64>> = Vec::new();
    let n = v.len();
    let mut from: usize = 0;
    while from < n
        invariant
            n == v@.len(),
            from <= n,
            from < n ==> from == r@.len() * AGE_BUCKET_SECS,
            from == n ==> r@.len() == (n + AGE_BUCKET_SECS - 1) / AGE_BUCKET_SECS as int,
            forall|i: int| 0 <= i < r@.len() ==> #[trigger] r@[i] == mean_age(age_window(v@, i)),
        decreases n - from,
    {
        let to: usize = if n - from >= AGE_BUCKET_SECS {
            from + AGE_BUCKET_SECS
        } else {
            n
        };
        let ghost part = v@.subrange(from as int, to as int);
        assert(part == age_window(v@, r@.len() as int));
        let mut sum: u64 = 0;
        let mut count: u64 = 0;
        let mut k: usize = from;
        assert(part.take(0) =~= seq![]);
        while k < to
            invariant
                from <= k <= to <= n,
                n == v@.len(),
                part == v@.subrange(from as int, to as int),
                (sum, count) == age_sums(part.take(k - from)),
            decreases to - k,
        {
            assert(part.take(k + 1 - from).drop_last() =~= part.take(k - from));
            let (s, c) = v[k];
            sum = sum.wrapping_add(s);
            count = count.wrapping_add(c as u64);
            k = k + 1;
        }
        assert(part.take(part.len() as int) =~= part);
        let mean = if count > 0 {
            Some(sum / count)
        } else {
            None
        };
        r.push(mean);
        from = to;
    }
    r
}

/// The sum of some ages. Sums wrap.
pub open spec fn total(v: Seq<u64>) -> u64
    decreases v.len(),
{
    if v.len() == 0 {
        0
    } else {
        crate::stats::counted(total(v.drop_last()), v.last())
    }
}

/// An age that climbed from the first quarter of a run to its last and never came
/// back.
#[derive(Clone, Copy, Debug, PartialEq, Eq, Structural)]
pub struct Climb {
    pub head: u64,
    pub tail: u64,
    /// By how much per stretch.
    pub per: u64,
}

/// No age below this is worth failing over, in milliseconds.
pub const CLIMB_MIN: u64 = 2000;

/// Whether the mean age of the last quarter is over three times that of the first,
/// and over two seconds.
pub open spec fn climb_of(known: Seq<u64>) -> Option<Climb> {
    let q = known.len() / 4;
    if q == 0 {
        None
    } else {
        let head = total(known.take(q as int)) / (q as u64);
        let tail = total(known.skip(known.len() - q)) / (q as u64);
        let base = if head > 1 {
            head as int
        } else {
            1int
        };
        if tail > base * 3 && tail > CLIMB_MIN {
            Some(
                Climb {
                    head,
                    tail,
                    per: ((tail - head) / (known.len() - q) as int) as u64,
                },
            )
        } else {
            None
        }
    }
}

fn total_of(v: &Vec<u64>, from: usize, to: usize) -> (t: u64)
    requires
        from <= to <= v@.len(),
    ensures
        t == total(v@.subrange(from as int, to as int)),
{
    let ghost part = v@.subrange(from as int, to as int);
    let mut t: u64 = 0;
    let mut k: usize = from;
    assert(part.take(0) =~= seq![]);
    while k < to
        invariant
            from <= k <= to <= v@.len(),
            part == v@.subrange(from as int, to as int),
            t == total(part.take(k - from)),
        decreases to - k,
    {
        assert(part.take(k + 1 - from).drop_last() =~= part.take(k - from));
        t = t.wrapping_add(v[k]);
        k = k + 1;
    }
    assert(part.take(part.len() as int) =~= part);
    t
}

/// Whether the age only ever climbed. That is another fault than a bad patch: the
/// source is losing ground against the chain and never catching up.
pub fn climb(known: &Vec<u64>) -> (r: Option<Climb>)
    ensures
        r == climb_of(known@),
{
    let n = known.len();
    let q = n / 4;
    if q == 0 {
        return None;
    }
    assert(known@.subrange(0, q as int) =~= known@.take(q as int));
    assert(known@.subrange(n - q, n as int) =~= known@.skip(n - q));
    let head = total_of(known, 0, q) / (q as u64);
    let tail = total_of(known, n - q, n) / (q as u64);
    let base: u128 = if head > 1 {
        head as u128
    } else {
        1
    };
    if tail as u128 > base * 3 && tail > CLIMB_MIN {
        let per = (tail - head) / ((n - q) as u64);
        Some(Climb { head, tail, per })
    } else {
        None
    }
}

// ---------------------------------------------------------------------------
// Stalls and endings
// ---------------------------------------------------------------------------

/// Two stalls that began within this of each other are one, in nanoseconds.
pub const NEAR: u64 = 2000000000;

/// Whether one of `others` began near `at`.
pub open spec fn shared_stall(at: u64, others: Seq<(u64, u64)>) -> bool {
    exists|i: int|
        0 <= i < others.len() && -NEAR < (#[trigger] others[i]).0 - at < NEAR
}

/// Whether a stall that began at `at` was had by another stream too. A stall that
/// the nodes had as well is the upstream's.
pub fn is_shared(at: u64, others: &Vec<(u64, u64)>) -> (b: bool)
    ensures
        b == shared_stall(at, others@),
{
    let mut i: usize = 0;
    while i < others.len()
        invariant
            i <= others.len(),
            forall|j: int|
                0 <= j < i ==> !(-NEAR < (#[trigger] others@[j]).0 - at < NEAR),
        decreases others.len() - i,
    {
        let (o, _) = others[i];
        let d: u64 = if o >= at {
            o - at
        } else {
            at - o
        };
        if d < NEAR {
            assert(-NEAR < others@[i as int].0 - at < NEAR);
            return true;
        }
        i = i + 1;
    }
    false
}

/// A connection that ends this close to the end of a run is the run winding down,
/// in nanoseconds.
pub const WINDING_DOWN: u64 = 2000000000;

/// Whether a connection that ended `at` into a run of `length` nanoseconds ended
/// early.
pub open spec fn is_early(at: u64, length: u64) -> bool {
    at + WINDING_DOWN < length
}

/// Whether a connection that ended `at` into a run of `length` nanoseconds ended
/// early.
pub fn ended_early(at: u64, length: u64) -> (b: bool)
    ensures
        b == is_early(at, length),
{
    at < length && length - at > WINDING_DOWN
}

/// Whether a text is an error that the upstream reports.
pub open spec fn is_error(b: Seq<u8>) -> bool {
    b.len() >= 17 && b.take(17) == seq![
        123u8,
        34,
        99,
        104,
        97,
        110,
        110,
        101,
        108,
        34,
        58,
        34,
        101,
        114,
        114,
        111,
        114,
    ]
}

/// Whether a text is an error that the upstream reports: it begins with
/// `{"channel":"error`.
pub fn reports_error(text: &str) -> (r: bool)
    ensures
        r == is_error(vstd::utf8::encode_utf8(text@)),
{
    let b = text.as_bytes();
    if b.len() < 17 {
        return false;
    }
    let r = b[0] == 123 && b[1] == 34 && b[2] == 99 && b[3] == 104 && b[4] == 97 && b[5] == 110
        && b[6] == 110 && b[7] == 101 && b[8] == 108 && b[9] == 34 && b[10] == 58 && b[11] == 34
        && b[12] == 101 && b[13] == 114 && b[14] == 114 && b[15] == 111 && b[16] == 114;
    proof {
        let want = seq![
            123u8,
            34,
            99,
            104,
            97,
            110,
            110,
            101,
            108,
            34,
            58,
            34,
            101,
            114,
            114,
            111,
            114,
        ];
        if r {
            assert(b@.take(17) =~= want);
        } else if b@.take(17) == want {
            assert forall|i: int| 0 <= i < 17 implies b@[i] == #[trigger] want[i] by {
                assert(b@.take(17)[i] == b@[i]);
            }
            assert(b@[0] == want[0] && b@[1] == want[1] && b@[2] == want[2] && b@[3] == want[3]
                && b@[4] == want[4] && b@[5] == want[5] && b@[6] == want[6] && b@[7] == want[7]
                && b@[8] == want[8] && b@[9] == want[9] && b@[10] == want[10] && b@[11]
                == want[11] && b@[12] == want[12] && b@[13] == want[13] && b@[14] == want[14]
                && b@[15] == want[15] && b@[16] == want[16]);
        }
    }
    r
}

} // verus!
