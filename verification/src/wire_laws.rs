//! What the text of a request says of the subscription it is about.

use vstd::prelude::*;

verus! {

/// What is left of two equal texts behind a common beginning is equal.
proof fn lemma_strip(p: Seq<char>, x: Seq<char>, y: Seq<char>)
    requires
        p + x == p + y,
    ensures
        x == y,
{
    assert(x =~= (p + x).skip(p.len() as int));
    assert(y =~= (p + y).skip(p.len() as int));
}

proof fn lemma_hex(a: nat, b: nat)
    requires
        a < 16,
        b < 16,
        crate::wire::hex_char(a) == crate::wire::hex_char(b),
    ensures
        a == b,
{
}

/// No character's escape begins another's, so a text is read off its escapes one
/// by one.
proof fn lemma_escape(c: char, d: char, x: Seq<char>, y: Seq<char>)
    requires
        crate::wire::escaped_json(c) + x == crate::wire::escaped_json(d) + y,
    ensures
        c == d,
        x == y,
{
    let e = crate::wire::escaped_json(c);
    let f = crate::wire::escaped_json(d);
    let s = e + x;
    assert(s[0] == e[0]);
    assert(s[0] == f[0]);
    if e.len() > 1 {
        assert(s[1] == e[1]);
        assert(s[1] == f[1]);
        if e.len() > 2 {
            assert(f.len() > 2);
            assert(s[4] == e[4] && s[4] == f[4]);
            assert(s[5] == e[5] && s[5] == f[5]);
            lemma_hex(c as nat / 16, d as nat / 16);
            lemma_hex(c as nat % 16, d as nat % 16);
        }
    }
    assert(c == d);
    lemma_strip(e, x, y);
}

/// The first closing quote of a JSON string is its end.
proof fn lemma_body(a: Seq<char>, b: Seq<char>, x: Seq<char>, y: Seq<char>)
    requires
        crate::wire::json_body(a) + seq!['"'] + x == crate::wire::json_body(b) + seq!['"'] + y,
    ensures
        a == b,
        x == y,
    decreases a.len(),
{
    let s = crate::wire::json_body(a) + seq!['"'] + x;
    if a.len() == 0 && b.len() == 0 {
        assert(s =~= seq!['"'] + x);
        assert(crate::wire::json_body(b) + seq!['"'] + y =~= seq!['"'] + y);
        lemma_strip(seq!['"'], x, y);
        assert(a =~= b);
    } else if a.len() == 0 {
        assert(s[0] == '"');
        let f = crate::wire::escaped_json(b.first());
        assert((crate::wire::json_body(b) + seq!['"'] + y)[0] == f[0]);
        assert(false);
    } else if b.len() == 0 {
        let e = crate::wire::escaped_json(a.first());
        assert(s[0] == e[0]);
        assert((crate::wire::json_body(b) + seq!['"'] + y)[0] == '"');
        assert(false);
    } else {
        let e = crate::wire::escaped_json(a.first());
        let f = crate::wire::escaped_json(b.first());
        let rest_a = crate::wire::json_body(a.drop_first()) + seq!['"'] + x;
        let rest_b = crate::wire::json_body(b.drop_first()) + seq!['"'] + y;
        assert(s =~= e + rest_a);
        assert(crate::wire::json_body(b) + seq!['"'] + y =~= f + rest_b);
        lemma_escape(a.first(), b.first(), rest_a, rest_b);
        lemma_body(a.drop_first(), b.drop_first(), x, y);
        assert(a =~= seq![a.first()] + a.drop_first());
        assert(b =~= seq![b.first()] + b.drop_first());
    }
}

/// A text without quotes in it ends at the first quote.
proof fn lemma_until_quote(a: Seq<char>, b: Seq<char>, x: Seq<char>, y: Seq<char>)
    requires
        a + seq!['"'] + x == b + seq!['"'] + y,
        !a.contains('"'),
        !b.contains('"'),
    ensures
        a == b,
        x == y,
{
    let s = a + seq!['"'] + x;
    let t = b + seq!['"'] + y;
    assert(s[a.len() as int] == '"');
    assert(t[b.len() as int] == '"');
    if a.len() < b.len() {
        assert(t[a.len() as int] == b[a.len() as int]);
        assert(b.contains('"'));
    }
    if b.len() < a.len() {
        assert(s[b.len() as int] == a[b.len() as int]);
        assert(a.contains('"'));
    }
    assert forall|i: int| 0 <= i < a.len() implies a[i] == b[i] by {
        assert(s[i] == a[i]);
        assert(t[i] == b[i]);
    }
    assert(a =~= b);
    lemma_strip(a + seq!['"'], x, y);
}

/// The number that a run of digits stands for.
spec fn value(s: Seq<char>) -> nat
    decreases s.len(),
{
    if s.len() == 0 {
        0
    } else {
        value(s.drop_last()) * 10 + (s.last() as nat - 48) as nat
    }
}

spec fn is_digit_char(c: char) -> bool {
    48 <= c as nat && c as nat <= 57
}

proof fn lemma_digits(n: nat)
    ensures
        value(crate::text::digits(n)) == n,
        crate::text::digits(n).len() > 0,
        forall|i: int|
            0 <= i < crate::text::digits(n).len() ==> is_digit_char(
                #[trigger] crate::text::digits(n)[i],
            ),
    decreases n,
{
    let s = crate::text::digits(n);
    if n < 10 {
        assert(s.drop_last() =~= seq![]);
        assert(s.last() == crate::text::digit_char(n));
        assert(value(s.drop_last()) == 0);
    } else {
        lemma_digits(n / 10);
        assert(s.drop_last() =~= crate::text::digits(n / 10));
        assert(s.last() == crate::text::digit_char(n % 10));
        assert forall|i: int| 0 <= i < s.len() implies is_digit_char(#[trigger] s[i]) by {
            if i < s.len() - 1 {
                assert(s[i] == crate::text::digits(n / 10)[i]);
            }
        }
    }
}

/// A number ends where its digits do.
proof fn lemma_number_ends(a: nat, b: nat, x: Seq<char>, y: Seq<char>)
    requires
        crate::text::digits(a) + x == crate::text::digits(b) + y,
        x.len() > 0,
        y.len() > 0,
        !is_digit_char(x[0]),
        !is_digit_char(y[0]),
    ensures
        a == b,
        x == y,
{
    lemma_digits(a);
    lemma_digits(b);
    let d = crate::text::digits(a);
    let e = crate::text::digits(b);
    let s = d + x;
    let t = e + y;
    if d.len() < e.len() {
        assert(s[d.len() as int] == x[0]);
        assert(t[d.len() as int] == e[d.len() as int]);
    }
    if e.len() < d.len() {
        assert(t[e.len() as int] == y[0]);
        assert(s[e.len() as int] == d[e.len() as int]);
    }
    assert forall|i: int| 0 <= i < d.len() implies d[i] == e[i] by {
        assert(s[i] == d[i]);
        assert(t[i] == e[i]);
    }
    assert(d =~= e);
    lemma_strip(d, x, y);
}

/// Whether a text begins with another.
spec fn begins_with(s: Seq<char>, p: Seq<char>) -> bool {
    s.len() >= p.len() && s.take(p.len() as int) == p
}

/// An optional parameter is there or not, and its value is what it says.
proof fn lemma_optional(
    p: Seq<char>,
    m: Option<nat>,
    n: Option<nat>,
    x: Seq<char>,
    y: Seq<char>,
)
    requires
        crate::key::optional(p, m) + x == crate::key::optional(p, n) + y,
        x.len() > 0,
        y.len() > 0,
        !is_digit_char(x[0]),
        !is_digit_char(y[0]),
        !begins_with(x, p),
        !begins_with(y, p),
    ensures
        m == n,
        x == y,
{
    match (m, n) {
        (Some(a), Some(b)) => {
            let d = crate::text::digits(a);
            let e = crate::text::digits(b);
            assert(crate::key::optional(p, m) + x =~= p + (d + x));
            assert(crate::key::optional(p, n) + y =~= p + (e + y));
            lemma_strip(p, d + x, e + y);
            lemma_number_ends(a, b, x, y);
        },
        (Some(a), None) => {
            let s = crate::key::optional(p, m) + x;
            assert(s.take(p.len() as int) =~= p);
            assert(crate::key::optional(p, n) + y =~= y);
            assert(begins_with(y, p));
        },
        (None, Some(b)) => {
            let s = crate::key::optional(p, n) + y;
            assert(s.take(p.len() as int) =~= p);
            assert(crate::key::optional(p, m) + x =~= x);
            assert(begins_with(x, p));
        },
        (None, None) => {
            assert(crate::key::optional(p, m) + x =~= x);
            assert(crate::key::optional(p, n) + y =~= y);
        },
    }
}

/// What follows the depth: the mantissa and the end.
spec fn tail_text(m: Option<nat>) -> Seq<char> {
    crate::key::optional(",\"mantissa\":"@, m) + "}"@
}

/// What follows the significant figures.
spec fn levels_text(l: Option<nat>, m: Option<nat>) -> Seq<char> {
    crate::key::optional(",\"nLevels\":"@, l) + tail_text(m)
}

/// How such a text begins: with the end, or with a comma, a quote and an `m`.
proof fn lemma_tail_begins(m: Option<nat>)
    ensures
        tail_text(m).len() > 0,
        !is_digit_char(tail_text(m)[0]),
        !begins_with(tail_text(m), ",\"nLevels\":"@),
        !begins_with(tail_text(m), ",\"nSigFigs\":"@),
{
    reveal_strlit(",\"mantissa\":");
    reveal_strlit(",\"nLevels\":");
    reveal_strlit(",\"nSigFigs\":");
    reveal_strlit("}");
    let t = tail_text(m);
    match m {
        Some(n) => {
            assert(t[0] == ',');
            assert(t[2] == 'm');
            if begins_with(t, ",\"nLevels\":"@) {
                assert(t.take(",\"nLevels\":"@.len() as int)[2] == 'n');
            }
            if begins_with(t, ",\"nSigFigs\":"@) {
                assert(t.take(",\"nSigFigs\":"@.len() as int)[2] == 'n');
            }
        },
        None => {
            assert(t =~= "}"@);
        },
    }
}

proof fn lemma_levels_begin(l: Option<nat>, m: Option<nat>)
    ensures
        levels_text(l, m).len() > 0,
        !is_digit_char(levels_text(l, m)[0]),
        !begins_with(levels_text(l, m), ",\"nSigFigs\":"@),
{
    reveal_strlit(",\"nLevels\":");
    reveal_strlit(",\"nSigFigs\":");
    lemma_tail_begins(m);
    let t = levels_text(l, m);
    match l {
        Some(n) => {
            assert(t[0] == ',');
            assert(t[3] == 'L');
            if begins_with(t, ",\"nSigFigs\":"@) {
                assert(t.take(",\"nSigFigs\":"@.len() as int)[3] == 'S');
            }
        },
        None => {
            assert(t =~= tail_text(m));
        },
    }
}

/// The parameters of a request say what they are.
proof fn lemma_params(
    s: Option<nat>,
    l: Option<nat>,
    m: Option<nat>,
    t: Option<nat>,
    k: Option<nat>,
    n: Option<nat>,
)
    requires
        crate::key::optional(",\"nSigFigs\":"@, s) + levels_text(l, m) == crate::key::optional(
            ",\"nSigFigs\":"@,
            t,
        ) + levels_text(k, n),
    ensures
        s == t,
        l == k,
        m == n,
{
    lemma_levels_begin(l, m);
    lemma_levels_begin(k, n);
    lemma_optional(",\"nSigFigs\":"@, s, t, levels_text(l, m), levels_text(k, n));
    lemma_tail_begins(m);
    lemma_tail_begins(n);
    lemma_optional(",\"nLevels\":"@, l, k, tail_text(m), tail_text(n));
    reveal_strlit(",\"mantissa\":");
    reveal_strlit("}");
    assert("}"@[0] == '}');
    assert("}"@.len() == 1);
    lemma_optional(",\"mantissa\":"@, m, n, "}"@, "}"@);
}

proof fn lemma_channels(a: crate::key::Key, b: crate::key::Key)
    ensures
        !a.channel().contains('"'),
        a.channel() == b.channel() ==> a.parts().0 == b.parts().0,
{
    reveal_strlit("trades");
    reveal_strlit("l2Book");
    reveal_strlit("l2Diff");
    reveal_strlit("l4Book");
    reveal_strlit("bbo");
    reveal_strlit("orderUpdates");
    reveal_strlit("bookDiffs");
    if a.channel() == b.channel() {
        assert(a.channel()[0] == b.channel()[0]);
        assert(a.channel()[1] == b.channel()[1]);
        assert(a.channel()[2] == b.channel()[2]);
    }
}

/// What follows the name of a subscription.
spec fn end_text(k: crate::key::Key) -> Seq<char> {
    k.params_json() + "}"@
}

/// What follows the quote behind the channel.
spec fn rest_text(k: crate::key::Key) -> Seq<char> {
    k.name_field().skip(1) + (seq!['"'] + (crate::wire::json_body(k.name()) + seq!['"'] + end_text(
        k,
    )))
}

proof fn lemma_shape(k: crate::key::Key)
    ensures
        k.json() == "{\"type\":\""@ + (k.channel() + seq!['"'] + rest_text(k)),
{
    let field = k.name_field();
    let body = crate::wire::json_body(k.name());
    let quote = seq!['"'];
    reveal_strlit("\",\"user\":");
    reveal_strlit("\",\"coin\":");
    assert(field =~= quote + field.skip(1));
    assert(crate::wire::json_text(k.name()) + k.params_json() + "}"@ =~= quote + (body + quote
        + end_text(k)));
    let inner = crate::wire::json_text(k.name()) + k.params_json() + "}"@;
    assert(k.json() =~= "{\"type\":\""@ + k.channel() + field + inner);
    assert("{\"type\":\""@ + k.channel() + field + inner =~= "{\"type\":\""@ + (k.channel()
        + field + inner));
    assert(k.channel() + field + inner =~= k.channel() + quote + (field.skip(1) + inner));
}

proof fn lemma_regroup(x: Seq<char>, y: Seq<char>, z: Seq<char>, e: Seq<char>)
    ensures
        x + y + z + e == x + (y + (z + e)),
{
    assert(x + y + z + e =~= x + (y + (z + e)));
}

proof fn lemma_parameters_shape(k: crate::key::Key)
    requires
        k is L2Book || k is L2Diff,
    ensures
        end_text(k) == crate::key::optional(
            ",\"nSigFigs\":"@,
            crate::key::nat_of_u32(k.parts().2),
        ) + levels_text(
            crate::key::nat_of_usize(k.parts().3),
            crate::key::nat_of_u64(k.parts().4),
        ),
{
    lemma_regroup(
        crate::key::optional(",\"nSigFigs\":"@, crate::key::nat_of_u32(k.parts().2)),
        crate::key::optional(",\"nLevels\":"@, crate::key::nat_of_usize(k.parts().3)),
        crate::key::optional(",\"mantissa\":"@, crate::key::nat_of_u64(k.parts().4)),
        "}"@,
    );
}

proof fn lemma_same_parameters(a: crate::key::Key, b: crate::key::Key)
    requires
        a.parts().0 == b.parts().0,
        end_text(a) == end_text(b),
    ensures
        a.parts().2 == b.parts().2,
        a.parts().3 == b.parts().3,
        a.parts().4 == b.parts().4,
{
    let p = a.parts();
    let q = b.parts();
    if p.0 == 1 || p.0 == 2 {
        let (s, l, m) = (
            crate::key::nat_of_u32(p.2),
            crate::key::nat_of_usize(p.3),
            crate::key::nat_of_u64(p.4),
        );
        let (t, k, n) = (
            crate::key::nat_of_u32(q.2),
            crate::key::nat_of_usize(q.3),
            crate::key::nat_of_u64(q.4),
        );
        lemma_parameters_shape(a);
        lemma_parameters_shape(b);
        lemma_params(s, l, m, t, k, n);
    }
}

/// The text of a subscription says which it is: two subscriptions with the same
/// text are the same.
pub proof fn law_text_identifies_the_subscription(a: crate::key::Key, b: crate::key::Key)
    requires
        a.json() == b.json(),
    ensures
        a == b,
{
    let quote = seq!['"'];
    lemma_shape(a);
    lemma_shape(b);
    lemma_strip(
        "{\"type\":\""@,
        a.channel() + quote + rest_text(a),
        b.channel() + quote + rest_text(b),
    );
    lemma_channels(a, b);
    lemma_channels(b, a);
    lemma_until_quote(a.channel(), b.channel(), rest_text(a), rest_text(b));
    assert(a.name_field() == b.name_field());
    let body_a = crate::wire::json_body(a.name()) + quote + end_text(a);
    let body_b = crate::wire::json_body(b.name()) + quote + end_text(b);
    lemma_strip(a.name_field().skip(1), quote + body_a, quote + body_b);
    lemma_strip(quote, body_a, body_b);
    lemma_body(a.name(), b.name(), end_text(a), end_text(b));
    lemma_same_parameters(a, b);
    crate::key::law_parts_identify_the_key(a);
    crate::key::law_parts_identify_the_key(b);
}

/// So does the text of a request, and asking for something never reads as giving
/// it up.
pub proof fn law_requests_are_told_apart(a: crate::key::Key, b: crate::key::Key)
    ensures
        crate::wire::subscribe_text(a) == crate::wire::subscribe_text(b) ==> a == b,
        crate::wire::unsubscribe_text(a) == crate::wire::unsubscribe_text(b) ==> a == b,
        crate::wire::subscribe_text(a) != crate::wire::unsubscribe_text(b),
{
    let s = "{\"method\":\"subscribe\",\"subscription\":"@;
    let u = "{\"method\":\"unsubscribe\",\"subscription\":"@;
    reveal_strlit("{\"method\":\"subscribe\",\"subscription\":");
    reveal_strlit("{\"method\":\"unsubscribe\",\"subscription\":");
    reveal_strlit("}");
    if crate::wire::subscribe_text(a) == crate::wire::subscribe_text(b) {
        lemma_framed(s, a.json(), b.json());
        law_text_identifies_the_subscription(a, b);
    }
    if crate::wire::unsubscribe_text(a) == crate::wire::unsubscribe_text(b) {
        lemma_framed(u, a.json(), b.json());
        law_text_identifies_the_subscription(a, b);
    }
    assert(crate::wire::subscribe_text(a)[11] == 's');
    assert(crate::wire::unsubscribe_text(b)[11] == 'u');
}

proof fn lemma_framed(p: Seq<char>, x: Seq<char>, y: Seq<char>)
    requires
        p + x + "}"@ == p + y + "}"@,
    ensures
        x == y,
{
    reveal_strlit("}");
    let s = p + x + "}"@;
    assert((p + x + "}"@).drop_last() =~= p + x);
    assert((p + y + "}"@).drop_last() =~= p + y);
    lemma_strip(p, x, y);
}

} // verus!
