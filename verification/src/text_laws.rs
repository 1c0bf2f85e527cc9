//! What the texts that are built say.

use vstd::prelude::*;

verus! {

/// The number that a text of decimal digits spells.
pub open spec fn spelled(s: Seq<char>) -> int
    decreases s.len(),
{
    if s.len() == 0 {
        0
    } else {
        10 * spelled(s.drop_last()) + (s.last() as int - '0' as int)
    }
}

/// A number is spelled in decimal digits, without leading zeros, and reads as itself.
pub proof fn law_numbers_are_spelled_out(n: nat)
    ensures
        spelled(crate::text::digits(n)) == n,
        forall|i: int|
            0 <= i < crate::text::digits(n).len() ==> '0' <= #[trigger] crate::text::digits(n)[i]
                <= '9',
        crate::text::digits(n).len() > 0,
        n > 0 ==> crate::text::digits(n)[0] != '0',
    decreases n,
{
    let s = crate::text::digits(n);
    if n < 10 {
        assert(s.drop_last() =~= Seq::<char>::empty());
        assert(spelled(Seq::<char>::empty()) == 0);
        assert(s[0] as int == 48 + n);
    } else {
        law_numbers_are_spelled_out(n / 10);
        let t = crate::text::digits(n / 10);
        assert(s.drop_last() =~= t);
        assert(s.last() as int == 48 + n % 10);
        assert(s[0] == t[0]);
        assert forall|i: int| 0 <= i < s.len() implies '0' <= #[trigger] s[i] <= '9' by {
            if i < t.len() {
                assert(s[i] == t[i]);
            }
        }
    }
}

/// Grouping a number sets a space before every third digit from the right and changes
/// nothing else.
pub proof fn law_groups_are_of_three(s: Seq<char>, k: int)
    requires
        !s.contains(' '),
    ensures
        crate::text::grouped(s).filter(|c: char| c != ' ') == s,
        ({
            let g = crate::text::grouped(s);
            0 <= k < g.len() ==> (g[g.len() - 1 - k] == ' ' <==> k % 4 == 3)
        }),
    decreases s.len(),
{
    let g = crate::text::grouped(s);
    let pred = |c: char| c != ' ';
    assert(forall|i: int| 0 <= i < s.len() ==> s.contains(#[trigger] s[i]));
    if s.len() <= 3 {
        lemma_filter_all(s);
    } else {
        let head = s.take(s.len() - 3);
        let tail = s.skip(s.len() - 3);
        assert forall|i: int| 0 <= i < head.len() implies head[i] != ' ' by {
            assert(s.contains(s[i]));
        }
        assert forall|i: int| 0 <= i < tail.len() implies tail[i] != ' ' by {
            assert(s.contains(s[s.len() - 3 + i]));
        }
        law_groups_are_of_three(head, k - 4);
        let gh = crate::text::grouped(head);
        assert(g =~= gh.push(' ') + tail);
        Seq::filter_distributes_over_add(gh.push(' '), tail, pred);
        lemma_filter_all(tail);
        assert(gh.push(' ').filter(pred) == gh.filter(pred)) by {
            reveal(Seq::filter);
            assert(gh.push(' ').drop_last() =~= gh);
        }
        assert(g.filter(pred) =~= s);
        if 0 <= k < g.len() {
            if k < 3 {
                assert(g[g.len() - 1 - k] == tail[2 - k]);
            } else if k == 3 {
                assert(g[g.len() - 4] == ' ');
            } else {
                assert(g[g.len() - 1 - k] == gh[gh.len() - 1 - (k - 4)]);
            }
        }
    }
}

proof fn lemma_filter_all(s: Seq<char>)
    requires
        forall|i: int| 0 <= i < s.len() ==> s[i] != ' ',
    ensures
        s.filter(|c: char| c != ' ') == s,
    decreases s.len(),
{
    reveal(Seq::filter);
    if s.len() > 0 {
        assert forall|i: int| 0 <= i < s.drop_last().len() implies s.drop_last()[i] != ' ' by {
            assert(s[i] != ' ');
        }
        lemma_filter_all(s.drop_last());
        assert(s.drop_last().push(s.last()) =~= s);
    }
}

/// Lower-casing changes the twenty-six capital letters into their small ones, place by
/// place, and no other character.
pub proof fn law_only_capitals_are_lowered(s: Seq<char>, i: int)
    requires
        0 <= i < s.len(),
    ensures
        crate::text::lowered(s).len() == s.len(),
        'A' <= s[i] <= 'Z' ==> crate::text::lowered(s)[i] as int == s[i] as int - 'A' as int
            + 'a' as int,
        !('A' <= s[i] <= 'Z') ==> crate::text::lowered(s)[i] == s[i],
{
}

/// Text is escaped character by character: the two brackets and the ampersand are
/// spelled out and every other character stands for itself.
pub proof fn law_escaping_is_by_character(a: Seq<char>, b: Seq<char>, c: char)
    ensures
        crate::text::escaped_page(a + b) == crate::text::escaped_page(a)
            + crate::text::escaped_page(b),
        crate::text::escaped_page(seq!['<']) == seq!['&', 'l', 't', ';'],
        crate::text::escaped_page(seq!['>']) == seq!['&', 'g', 't', ';'],
        crate::text::escaped_page(seq!['&']) == seq!['&', 'a', 'm', 'p', ';'],
        c != '<' && c != '>' && c != '&' ==> crate::text::escaped_page(seq![c]) == seq![c],
    decreases b.len(),
{
    reveal_strlit("&amp;");
    reveal_strlit("&lt;");
    reveal_strlit("&gt;");
    lemma_escaped_one('<');
    lemma_escaped_one('>');
    lemma_escaped_one('&');
    lemma_escaped_one(c);
    if b.len() == 0 {
        assert(a + b =~= a);
        assert(crate::text::escaped_page(a) + crate::text::escaped_page(b)
            =~= crate::text::escaped_page(a));
    } else {
        law_escaping_is_by_character(a, b.drop_last(), c);
        assert((a + b).drop_last() =~= a + b.drop_last());
        assert(crate::text::escaped_page(a + b) =~= crate::text::escaped_page(a)
            + crate::text::escaped_page(b));
    }
}

proof fn lemma_escaped_one(c: char)
    ensures
        crate::text::escaped_page(seq![c]) == crate::text::escaped_html(c),
{
    assert(seq![c].drop_last() =~= Seq::<char>::empty());
    assert(crate::text::escaped_page(Seq::<char>::empty()) =~= Seq::<char>::empty());
    assert(crate::text::escaped_page(seq![c]) =~= crate::text::escaped_html(c));
}

/// A cut falls on the last place at or below the limit that is not inside a character.
pub proof fn law_cuts_spare_characters(bytes: Seq<u8>, end: int)
    requires
        0 <= end,
    ensures
        0 <= crate::text::boundary_below(bytes, end) <= end,
        crate::text::boundary_below(bytes, end) > 0 ==> vstd::utf8::is_char_boundary(
            bytes,
            crate::text::boundary_below(bytes, end),
        ),
        forall|k: int|
            crate::text::boundary_below(bytes, end) < k <= end
                ==> !#[trigger] vstd::utf8::is_char_boundary(bytes, k),
    decreases end,
{
    if end > 0 && !vstd::utf8::is_char_boundary(bytes, end) {
        law_cuts_spare_characters(bytes, end - 1);
    }
}

/// A text of up to two hundred bytes is logged whole; of a longer one only its start is,
/// and it is marked.
pub proof fn law_only_long_text_is_cut(s: Seq<char>)
    ensures
        vstd::utf8::encode_utf8(s).len() <= 200 ==> crate::text::truncated(s) == s,
        vstd::utf8::encode_utf8(s).len() > 200 ==> {
            let bytes = vstd::utf8::encode_utf8(s);
            let cut = crate::text::boundary_below(bytes, 200);
            crate::text::truncated(s) == vstd::utf8::decode_utf8(bytes.take(cut)) + "…"@
        },
{
}

/// A list names its texts one after the other, with a comma and a space between two.
pub proof fn law_lists_are_set_apart_by_commas(v: Seq<Seq<char>>, x: Seq<char>)
    ensures
        crate::order::listed(seq![]) == Seq::<char>::empty(),
        crate::order::listed(seq![x]) == x,
        v.len() > 0 ==> crate::order::listed(v.push(x)) == crate::order::listed(v) + seq![
            ',',
            ' ',
        ] + x,
{
    reveal_strlit(", ");
    assert(v.push(x).drop_last() =~= v);
    assert(", "@ =~= seq![',', ' ']);
}

/// Texts in order are the same texts, each as often, and none comes before a text that
/// it is greater than, byte by byte.
pub proof fn law_ordering_keeps_every_text(v: Seq<Seq<char>>, i: int, j: int)
    requires
        0 <= i <= j < v.len(),
    ensures
        crate::order::in_order(v).len() == v.len(),
        crate::order::in_order(v).to_multiset() == v.to_multiset(),
        crate::order::bytes_le(
            vstd::utf8::encode_utf8(crate::order::in_order(v)[i]),
            vstd::utf8::encode_utf8(crate::order::in_order(v)[j]),
        ),
{
    let le = crate::order::text_le();
    crate::order::lemma_text_order();
    v.lemma_sort_by_ensures(le);
    let w = crate::order::in_order(v);
    vstd::seq_lib::to_multiset_len(v);
    vstd::seq_lib::to_multiset_len(w);
    if i < j {
        assert(le(w[i], w[j]));
    } else {
        assert(le(w[i], w[i]));
    }
}

/// Bytes are compared like words in a dictionary: one text comes before another where
/// it is the start of it, or is smaller at the first place where they differ.
pub proof fn law_bytes_compare_like_words(a: Seq<u8>, b: Seq<u8>)
    ensures
        crate::order::bytes_le(a, b) <==> (a.len() <= b.len() && b.take(a.len() as int) == a) || (
        exists|i: int|
            0 <= i < a.len() && i < b.len() && a.take(i) == b.take(i) && #[trigger] a[i] < b[i]),
    decreases a.len(),
{
    if a.len() == 0 {
        assert(b.take(0) =~= a);
    } else if b.len() > 0 && a[0] == b[0] {
        let x = a.skip(1);
        let y = b.skip(1);
        law_bytes_compare_like_words(x, y);
        if x.len() <= y.len() && y.take(x.len() as int) == x {
            assert forall|k: int| 0 <= k < a.len() implies b.take(a.len() as int)[k]
                == #[trigger] a[k] by {
                if k > 0 {
                    assert(y.take(x.len() as int)[k - 1] == x[k - 1]);
                }
            }
            assert(b.take(a.len() as int) =~= a);
        }
        if a.len() <= b.len() && b.take(a.len() as int) == a {
            assert forall|k: int| 0 <= k < x.len() implies y.take(x.len() as int)[k]
                == #[trigger] x[k] by {
                assert(b.take(a.len() as int)[k + 1] == a[k + 1]);
            }
            assert(y.take(x.len() as int) =~= x);
        }
        if exists|i: int|
            0 <= i < x.len() && i < y.len() && x.take(i) == y.take(i) && #[trigger] x[i] < y[i] {
            let i = choose|i: int|
                0 <= i < x.len() && i < y.len() && x.take(i) == y.take(i) && #[trigger] x[i]
                    < y[i];
            assert forall|k: int| 0 <= k < i + 1 implies #[trigger] a.take(i + 1)[k]
                == b.take(i + 1)[k] by {
                if k > 0 {
                    assert(x.take(i)[k - 1] == y.take(i)[k - 1]);
                }
            }
            assert(a.take(i + 1) =~= b.take(i + 1));
            assert(a[i + 1] < b[i + 1]);
        }
        if exists|i: int|
            0 <= i < a.len() && i < b.len() && a.take(i) == b.take(i) && #[trigger] a[i] < b[i] {
            let i = choose|i: int|
                0 <= i < a.len() && i < b.len() && a.take(i) == b.take(i) && #[trigger] a[i]
                    < b[i];
            assert(i > 0);
            assert forall|k: int| 0 <= k < i - 1 implies #[trigger] x.take(i - 1)[k]
                == y.take(i - 1)[k] by {
                assert(a.take(i)[k + 1] == b.take(i)[k + 1]);
            }
            assert(x.take(i - 1) =~= y.take(i - 1));
            assert(x[i - 1] < y[i - 1]);
        }
    } else if b.len() > 0 {
        if a[0] < b[0] {
            assert(a.take(0) =~= b.take(0));
            assert(a[0] < b[0]);
        } else {
            if a.len() <= b.len() && b.take(a.len() as int) == a {
                assert(b.take(a.len() as int)[0] == a[0]);
            }
            if exists|i: int|
                0 <= i < a.len() && i < b.len() && a.take(i) == b.take(i) && #[trigger] a[i]
                    < b[i] {
                let i = choose|i: int|
                    0 <= i < a.len() && i < b.len() && a.take(i) == b.take(i) && #[trigger] a[i]
                        < b[i];
                if i > 0 {
                    assert(a.take(i)[0] == b.take(i)[0]);
                }
            }
        }
    }
}

/// Which channels stream increments, and which are carried by one source end to end.
pub proof fn law_channels_have_their_modes(k: crate::key::Key)
    ensures
        k.incremental() <==> k.channel() == "l4Book"@ || k.channel() == "l2Diff"@,
        k.single_sourced() <==> k.channel() == "l2Book"@ || k.channel() == "l2Diff"@,
{
    reveal_strlit("trades");
    reveal_strlit("l2Book");
    reveal_strlit("l2Diff");
    reveal_strlit("l4Book");
    reveal_strlit("bbo");
    reveal_strlit("orderUpdates");
    reveal_strlit("bookDiffs");
    assert("trades"@.len() == 6 && "trades"@[0] == 't');
    assert("l2Book"@[0] == 'l' && "l2Book"@[1] == '2' && "l2Book"@[2] == 'B');
    assert("l2Diff"@[0] == 'l' && "l2Diff"@[1] == '2' && "l2Diff"@[2] == 'D');
    assert("l4Book"@[0] == 'l' && "l4Book"@[1] == '4');
    assert("bbo"@[0] == 'b');
    assert("orderUpdates"@[0] == 'o');
    assert("bookDiffs"@[0] == 'b');
}

/// Asking for twenty levels is asking for no depth in particular, a user may be spelled
/// in capitals or not, and in every other respect a key stays as it is.
pub proof fn law_one_subscription_one_spelling(
    coin: Seq<char>,
    user: Seq<char>,
    n_sig_figs: Option<u32>,
    n_levels: Option<usize>,
    mantissa: Option<u64>,
)
    ensures
        ({
            let levels = if n_levels == Some(20usize) {
                None
            } else {
                n_levels
            };
            &&& (crate::key::Key::L2Book { coin, n_sig_figs, n_levels, mantissa }).normalized() == (
            crate::key::Key::L2Book { coin, n_sig_figs, n_levels: levels, mantissa })
            &&& (crate::key::Key::L2Diff { coin, n_sig_figs, n_levels, mantissa }).normalized() == (
            crate::key::Key::L2Diff { coin, n_sig_figs, n_levels: levels, mantissa })
        }),
        (crate::key::Key::OrderUpdates { user }).normalized() == (crate::key::Key::OrderUpdates {
            user: crate::text::lowered(user),
        }),
        (crate::key::Key::Trades { coin }).normalized() == (crate::key::Key::Trades { coin }),
        (crate::key::Key::Bbo { coin }).normalized() == (crate::key::Key::Bbo { coin }),
        (crate::key::Key::L4Book { coin }).normalized() == (crate::key::Key::L4Book { coin }),
        (crate::key::Key::BookDiffs { coin }).normalized() == (crate::key::Key::BookDiffs { coin }),
{
}

/// A label names the channel, the coin, and whatever aggregation was asked for; a user
/// of more than ten bytes is shown by its first six and last four.
pub proof fn law_labels_name_the_subscription(
    coin: Seq<char>,
    user: Seq<char>,
    sf: u32,
    n: usize,
    m: u64,
)
    ensures
        (crate::key::Key::Trades { coin }).label() == "trades"@ + ":"@ + coin,
        (crate::key::Key::Bbo { coin }).label() == "bbo"@ + ":"@ + coin,
        (crate::key::Key::L4Book { coin }).label() == "l4Book"@ + ":"@ + coin,
        (crate::key::Key::BookDiffs { coin }).label() == "bookDiffs"@ + ":"@ + coin,
        (crate::key::Key::L2Book {
            coin,
            n_sig_figs: None,
            n_levels: None,
            mantissa: None,
        }).label() == "l2Book"@ + ":"@ + coin,
        (crate::key::Key::L2Diff {
            coin,
            n_sig_figs: Some(sf),
            n_levels: Some(n),
            mantissa: Some(m),
        }).label() == "l2Diff"@ + ":"@ + coin + ("/sf"@ + crate::text::digits(sf as nat) + ("/n"@
            + crate::text::digits(n as nat)) + ("/m"@ + crate::text::digits(m as nat))),
        (crate::key::Key::L2Book {
            coin,
            n_sig_figs: Some(sf),
            n_levels: Some(n),
            mantissa: Some(m),
        }).label() == "l2Book"@ + ":"@ + coin + ("/sf"@ + crate::text::digits(sf as nat) + ("/n"@
            + crate::text::digits(n as nat)) + ("/m"@ + crate::text::digits(m as nat))),
        ({
            let bytes = vstd::utf8::encode_utf8(user);
            let label = (crate::key::Key::OrderUpdates { user }).label();
            &&& bytes.len() <= 10 ==> label == "orderUpdates:"@ + user
            &&& bytes.len() > 10 ==> label == "orderUpdates:"@ + (vstd::utf8::decode_utf8(
                bytes.take(6),
            ) + "…"@ + vstd::utf8::decode_utf8(bytes.skip(bytes.len() - 4)))
        }),
{
    let plain = crate::key::Key::L2Book { coin, n_sig_figs: None, n_levels: None, mantissa: None };
    assert(plain.label() =~= "l2Book"@ + ":"@ + coin);
}

/// A label shows each parameter of an aggregation that is given, and none that is not.
pub proof fn law_labels_show_what_is_given(
    coin: Seq<char>,
    sf: Option<u32>,
    n: Option<usize>,
    m: Option<u64>,
)
    ensures
        ({
            let a = match sf {
                Some(v) => "/sf"@ + crate::text::digits(v as nat),
                None => seq![],
            };
            let b = match n {
                Some(v) => "/n"@ + crate::text::digits(v as nat),
                None => seq![],
            };
            let c = match m {
                Some(v) => "/m"@ + crate::text::digits(v as nat),
                None => seq![],
            };
            &&& (crate::key::Key::L2Book { coin, n_sig_figs: sf, n_levels: n, mantissa: m }).label()
                == "l2Book"@ + ":"@ + coin + (a + b + c)
            &&& (crate::key::Key::L2Diff { coin, n_sig_figs: sf, n_levels: n, mantissa: m }).label()
                == "l2Diff"@ + ":"@ + coin + (a + b + c)
        }),
{
}

} // verus!
