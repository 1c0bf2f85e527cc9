//! Putting labels in order, and one after the other.

use vstd::prelude::*;

verus! {

/// Whether `a` comes before `b` or is the same, byte by byte.
pub open spec fn bytes_le(a: Seq<u8>, b: Seq<u8>) -> bool
    decreases a.len(),
{
    ||| a.len() == 0
    ||| (b.len() > 0 && a[0] < b[0])
    ||| (b.len() > 0 && a[0] == b[0] && bytes_le(a.skip(1), b.skip(1)))
}

/// The order of text: by its bytes.
pub open spec fn text_le() -> spec_fn(Seq<char>, Seq<char>) -> bool {
    |a: Seq<char>, b: Seq<char>|
        bytes_le(vstd::utf8::encode_utf8(a), vstd::utf8::encode_utf8(b))
}

/// The same texts in order.
pub open spec fn in_order(v: Seq<Seq<char>>) -> Seq<Seq<char>> {
    v.sort_by(text_le())
}

/// The texts one after the other, set apart by commas.
pub open spec fn listed(v: Seq<Seq<char>>) -> Seq<char>
    decreases v.len(),
{
    if v.len() == 0 {
        seq![]
    } else if v.len() == 1 {
        v[0]
    } else {
        listed(v.drop_last()) + ", "@ + v.last()
    }
}

proof fn lemma_bytes_reflexive(a: Seq<u8>)
    ensures
        bytes_le(a, a),
    decreases a.len(),
{
    if a.len() > 0 {
        lemma_bytes_reflexive(a.skip(1));
    }
}

proof fn lemma_bytes_antisymmetric(a: Seq<u8>, b: Seq<u8>)
    requires
        bytes_le(a, b),
        bytes_le(b, a),
    ensures
        a == b,
    decreases a.len(),
{
    if a.len() == 0 || b.len() == 0 {
        assert(a =~= b);
    } else {
        lemma_bytes_antisymmetric(a.skip(1), b.skip(1));
        assert(a =~= seq![a[0]] + a.skip(1));
        assert(b =~= seq![b[0]] + b.skip(1));
    }
}

proof fn lemma_bytes_transitive(a: Seq<u8>, b: Seq<u8>, c: Seq<u8>)
    requires
        bytes_le(a, b),
        bytes_le(b, c),
    ensures
        bytes_le(a, c),
    decreases a.len(),
{
    if a.len() > 0 && b.len() > 0 && c.len() > 0 && a[0] == b[0] && b[0] == c[0] {
        lemma_bytes_transitive(a.skip(1), b.skip(1), c.skip(1));
    }
}

proof fn lemma_bytes_total(a: Seq<u8>, b: Seq<u8>)
    ensures
        bytes_le(a, b) || bytes_le(b, a),
    decreases a.len(),
{
    if a.len() > 0 && b.len() > 0 && a[0] == b[0] {
        lemma_bytes_total(a.skip(1), b.skip(1));
    }
}

/// Texts are totally ordered.
pub proof fn lemma_text_order()
    ensures
        vstd::relations::total_ordering(text_le()),
{
    let le = text_le();
    assert forall|a: Seq<char>| #[trigger] le(a, a) by {
        lemma_bytes_reflexive(vstd::utf8::encode_utf8(a));
    }
    assert forall|a: Seq<char>, b: Seq<char>| #[trigger] le(a, b) && #[trigger] le(
        b,
        a,
    ) implies a == b by {
        lemma_bytes_antisymmetric(vstd::utf8::encode_utf8(a), vstd::utf8::encode_utf8(b));
        vstd::utf8::encode_utf8_decode_utf8(a);
        vstd::utf8::encode_utf8_decode_utf8(b);
    }
    assert forall|a: Seq<char>, b: Seq<char>, c: Seq<char>| #[trigger] le(a, b) && #[trigger] le(
        b,
        c,
    ) implies le(a, c) by {
        lemma_bytes_transitive(
            vstd::utf8::encode_utf8(a),
            vstd::utf8::encode_utf8(b),
            vstd::utf8::encode_utf8(c),
        );
    }
    assert forall|a: Seq<char>, b: Seq<char>| #[trigger] le(a, b) || #[trigger] le(b, a) by {
        lemma_bytes_total(vstd::utf8::encode_utf8(a), vstd::utf8::encode_utf8(b));
    }
}

/// Whether `a` comes before `b` or is the same.
fn is_le(a: &str, b: &str) -> (r: bool)
    ensures
        r == text_le()(a@, b@),
{
    let x = a.as_bytes();
    let y = b.as_bytes();
    let mut i: usize = 0;
    assert(x@.skip(0) =~= x@);
    assert(y@.skip(0) =~= y@);
    while i < x.len() && i < y.len() && x[i] == y[i]
        invariant
            i <= x@.len(),
            i <= y@.len(),
            bytes_le(x@, y@) == bytes_le(x@.skip(i as int), y@.skip(i as int)),
        decreases x@.len() - i,
    {
        assert(x@.skip(i as int).skip(1) =~= x@.skip(i + 1));
        assert(y@.skip(i as int).skip(1) =~= y@.skip(i + 1));
        i = i + 1;
    }
    i >= x.len() || (i < y.len() && x[i] < y[i])
}

/// Put texts in order.
pub fn sort(v: Vec<String>) -> (r: Vec<String>)
    ensures
        crate::entry::texts(r@) == in_order(crate::entry::texts(v@)),
{
    let ghost orig = v@;
    let ghost all = crate::entry::texts(orig);
    let ghost le = text_le();
    let mut r: Vec<String> = Vec::new();
    proof {
        lemma_text_order();
        assert(crate::entry::texts(r@) =~= all.take(0));
    }
    for s in it: v
        invariant
            it.seq() == orig,
            all == crate::entry::texts(orig),
            le == text_le(),
            vstd::relations::total_ordering(le),
            vstd::relations::sorted_by(crate::entry::texts(r@), le),
            crate::entry::texts(r@).to_multiset() == all.take(it.index()).to_multiset(),
    {
        let ghost k = it.index();
        let ghost before = crate::entry::texts(r@);
        let mut at: usize = 0;
        while at < r.len() && is_le(r[at].as_str(), s.as_str())
            invariant
                at <= r@.len(),
                before == crate::entry::texts(r@),
                le == text_le(),
                forall|i: int| 0 <= i < at ==> #[trigger] le(before[i], s@),
            decreases r.len() - at,
        {
            assert(before[at as int] == r@[at as int]@);
            at = at + 1;
        }
        proof {
            if at < before.len() {
                assert(before[at as int] == r@[at as int]@);
                assert(!le(before[at as int], s@));
            }
        }
        let ghost text = s@;
        r.insert(at, s);
        proof {
            let after = crate::entry::texts(r@);
            assert(after =~= before.insert(at as int, text));
            lemma_insert_sorted(before, at as int, text);
            lemma_insert_multiset(before, at as int, text);
            assert(all[k] == text);
            assert(all.take(k + 1) =~= all.take(k).push(text));
            broadcast use vstd::seq_lib::group_to_multiset_ensures;

        }
    }
    proof {
        assert(all.take(all.len() as int) =~= all);
        all.lemma_sort_by_ensures(le);
        vstd::seq_lib::lemma_sorted_unique(crate::entry::texts(r@), in_order(all), le);
    }
    r
}

proof fn lemma_insert_sorted(s: Seq<Seq<char>>, at: int, x: Seq<char>)
    requires
        vstd::relations::total_ordering(text_le()),
        vstd::relations::sorted_by(s, text_le()),
        0 <= at <= s.len(),
        forall|i: int| 0 <= i < at ==> #[trigger] text_le()(s[i], x),
        at < s.len() ==> !text_le()(s[at], x),
    ensures
        vstd::relations::sorted_by(s.insert(at, x), text_le()),
{
    let le = text_le();
    let t = s.insert(at, x);
    assert forall|i: int, j: int| 0 <= i < j < t.len() implies #[trigger] le(t[i], t[j]) by {
        if i < at && j == at {
            assert(le(s[i], x));
        } else if i == at {
            assert(le(x, s[at]) || le(s[at], x));
            if j - 1 > at {
                assert(le(s[at], s[j - 1]));
                assert(le(x, s[at]) && le(s[at], s[j - 1]));
            }
        } else {
            let a = if i < at { i } else { i - 1 };
            let b = if j < at { j } else { j - 1 };
            assert(le(s[a], s[b]));
        }
    }
}

proof fn lemma_insert_multiset(s: Seq<Seq<char>>, at: int, x: Seq<char>)
    requires
        0 <= at <= s.len(),
    ensures
        s.insert(at, x).to_multiset() == s.to_multiset().insert(x),
{
    broadcast use vstd::seq_lib::group_to_multiset_ensures;

    let left = s.take(at);
    let right = s.skip(at);
    assert(s =~= left + right);
    assert(s.insert(at, x) =~= left.push(x) + right);
    vstd::seq_lib::lemma_multiset_commutative(left, right);
    vstd::seq_lib::lemma_multiset_commutative(left.push(x), right);
    assert(s.insert(at, x).to_multiset() =~= s.to_multiset().insert(x));
}

/// Join texts, set apart by commas.
pub fn join(v: &Vec<String>) -> (r: String)
    ensures
        r@ == listed(crate::entry::texts(v@)),
{
    let ghost all = crate::entry::texts(v@);
    let mut r = String::new();
    let mut i: usize = 0;
    assert(all.take(0) =~= seq![]);
    assert(r@ =~= seq![]);
    while i < v.len()
        invariant
            i <= v@.len(),
            all == crate::entry::texts(v@),
            r@ == listed(all.take(i as int)),
        decreases v.len() - i,
    {
        let ghost before = r@;
        assert(all[i as int] == v@[i as int]@);
        assert(all.take(i + 1).drop_last() =~= all.take(i as int));
        if i > 0 {
            r.append(", ");
        }
        r.append(v[i].as_str());
        proof {
            if i == 0 {
                assert(all.take(1)[0] == v@[0]@);
                assert(r@ =~= all.take(1)[0]);
            }
        }
        i = i + 1;
    }
    assert(all.take(all.len() as int) =~= all);
    r
}

/// Two sequences of the same things in the same strict order are the same.
pub proof fn lemma_ranked_unique(
    before: spec_fn(usize, usize) -> bool,
    ps: Seq<usize>,
    qs: Seq<usize>,
)
    requires
        forall|x: usize, y: usize| #[trigger] before(x, y) ==> !before(y, x),
        forall|a: int, b: int| 0 <= a < b < ps.len() ==> #[trigger] before(ps[a], ps[b]),
        forall|a: int, b: int| 0 <= a < b < qs.len() ==> #[trigger] before(qs[a], qs[b]),
        forall|p: usize| #[trigger] ps.contains(p) <==> qs.contains(p),
    ensures
        ps == qs,
{
    if ps.len() > 0 {
        lemma_ranked_agree(before, ps, qs, ps.len() - 1);
    }
    if qs.len() > ps.len() {
        let q = qs[ps.len() as int];
        assert(qs.contains(q));
        assert(ps.contains(q));
        let a = ps.index_of(q);
        assert(qs[a] == ps[a]);
        assert(before(qs[a], qs[ps.len() as int]));
    }
    assert(ps =~= qs);
}

proof fn lemma_ranked_agree(
    before: spec_fn(usize, usize) -> bool,
    ps: Seq<usize>,
    qs: Seq<usize>,
    n: int,
)
    requires
        forall|x: usize, y: usize| #[trigger] before(x, y) ==> !before(y, x),
        forall|a: int, b: int| 0 <= a < b < ps.len() ==> #[trigger] before(ps[a], ps[b]),
        forall|a: int, b: int| 0 <= a < b < qs.len() ==> #[trigger] before(qs[a], qs[b]),
        forall|p: usize| #[trigger] ps.contains(p) <==> qs.contains(p),
        0 <= n < ps.len(),
    ensures
        n < qs.len(),
        forall|i: int| 0 <= i <= n ==> #[trigger] ps[i] == qs[i],
    decreases n,
{
    if n > 0 {
        lemma_ranked_agree(before, ps, qs, n - 1);
    }
    let p = ps[n];
    assert(ps.contains(p));
    let b = qs.index_of(p);
    if b < n {
        assert(ps[b] == qs[b]);
        assert(before(ps[b], ps[n]));
    }
    if b > n {
        let q = qs[n];
        assert(qs.contains(q));
        assert(ps.contains(q));
        let a = ps.index_of(q);
        if a < n {
            assert(ps[a] == qs[a]);
            assert(before(qs[a], qs[n]));
        } else if a > n {
            assert(before(ps[n], ps[a]));
            assert(before(qs[n], qs[b]));
        }
    }
}

// ---------------------------------------------------------------------------
// When the order does not matter
// ---------------------------------------------------------------------------

/// Folding over two lists of the same things, each once, comes to the same if the
/// order of two neighbours does not matter.
pub proof fn lemma_any_order<B, K>(b: B, ks: Seq<K>, ls: Seq<K>, f: spec_fn(B, K) -> B)
    requires
        forall|v: B, x: K, y: K| #[trigger] f(f(v, x), y) == f(f(v, y), x),
        ks.no_duplicates(),
        ls.no_duplicates(),
        forall|k: K| ks.contains(k) <==> #[trigger] ls.contains(k),
    ensures
        ks.fold_left(b, f) == ls.fold_left(b, f),
    decreases ks.len(),
{
    if ks.len() == 0 {
        if ls.len() > 0 {
            assert(ls.contains(ls[0]));
        }
        assert(ls =~= ks);
    } else {
        let x = ks.last();
        let rest = ks.drop_last();
        assert(ks.contains(x)) by {
            assert(ks[ks.len() - 1] == x);
        }
        assert(ls.contains(x));
        let i = ls.index_of(x);
        let others = ls.remove(i);
        lemma_last_to_go(b, ls, i, f);
        assert forall|k: K| rest.contains(k) <==> #[trigger] others.contains(k) by {
            if rest.contains(k) {
                let j = rest.index_of(k);
                assert(ks[j] == k);
                assert(ks.contains(k));
                assert(ls.contains(k));
                let m = ls.index_of(k);
                assert(k != x);
                assert(others[if m < i { m } else { m - 1 }] == k);
            }
            if others.contains(k) {
                let j = others.index_of(k);
                let m = if j < i { j } else { j + 1 };
                assert(ls[m] == k);
                assert(ls.contains(k));
                assert(k != x);
                assert(ks.contains(k));
                let n = ks.index_of(k);
                assert(rest[n] == k);
            }
        }
        assert(others.no_duplicates());
        lemma_any_order(b, rest, others, f);
        assert(others.push(x).drop_last() =~= others);
    }
}

/// The one at place `i` may as well come last.
proof fn lemma_last_to_go<B, K>(b: B, ls: Seq<K>, i: int, f: spec_fn(B, K) -> B)
    requires
        forall|v: B, x: K, y: K| #[trigger] f(f(v, x), y) == f(f(v, y), x),
        0 <= i < ls.len(),
    ensures
        ls.fold_left(b, f) == ls.remove(i).push(ls[i]).fold_left(b, f),
    decreases ls.len(),
{
    let x = ls[i];
    let moved = ls.remove(i).push(x);
    if i == ls.len() - 1 {
        assert(moved =~= ls);
    } else {
        let y = ls.last();
        let rest = ls.drop_last();
        lemma_last_to_go(b, rest, i, f);
        let others = rest.remove(i);
        assert(others.push(x).drop_last() =~= others);
        assert(ls.remove(i) =~= others.push(y));
        assert(others.push(y).drop_last() =~= others);
        assert(moved.drop_last() =~= others.push(y));
        let v = others.fold_left(b, f);
        assert(rest.fold_left(b, f) == f(v, x));
        assert(ls.fold_left(b, f) == f(f(v, x), y));
        assert(moved.fold_left(b, f) == f(f(v, y), x));
    }
}

/// Lists of the same texts are the same once they are in order.
pub proof fn lemma_same_in_order(v: Seq<Seq<char>>, w: Seq<Seq<char>>)
    requires
        v.to_multiset() == w.to_multiset(),
    ensures
        in_order(v) == in_order(w),
        v.len() == w.len(),
{
    broadcast use vstd::seq_lib::group_to_multiset_ensures;

    lemma_text_order();
    v.lemma_sort_by_ensures(text_le());
    w.lemma_sort_by_ensures(text_le());
    vstd::seq_lib::lemma_sorted_unique(in_order(v), in_order(w), text_le());
    assert(v.to_multiset().len() == v.len());
    assert(w.to_multiset().len() == w.len());
}

} // verus!
