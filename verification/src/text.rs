//! Text building: decimal numbers, digit grouping, HTML escaping, joining and
//! sorting of labels, and cutting long text short.

use vstd::prelude::*;

verus! {

// ---------------------------------------------------------------------------
// Decimal numbers
// ---------------------------------------------------------------------------

/// The character of one decimal digit.
pub open spec fn digit_char(d: nat) -> char {
    ((48 + d) as u32) as char
}

/// The decimal notation of `n`, without leading zeros.
pub open spec fn digits(n: nat) -> Seq<char>
    decreases n,
{
    if n < 10 {
        seq![digit_char(n)]
    } else {
        digits(n / 10).push(digit_char(n % 10))
    }
}

/// One decimal digit as text.
fn digit_text(d: u64) -> (s: &'static str)
    requires
        d < 10,
    ensures
        s@ == seq![digit_char(d as nat)],
{
    proof {
        reveal_strlit("0");
        reveal_strlit("1");
        reveal_strlit("2");
        reveal_strlit("3");
        reveal_strlit("4");
        reveal_strlit("5");
        reveal_strlit("6");
        reveal_strlit("7");
        reveal_strlit("8");
        reveal_strlit("9");
    }
    if d == 0 {
        "0"
    } else if d == 1 {
        "1"
    } else if d == 2 {
        "2"
    } else if d == 3 {
        "3"
    } else if d == 4 {
        "4"
    } else if d == 5 {
        "5"
    } else if d == 6 {
        "6"
    } else if d == 7 {
        "7"
    } else if d == 8 {
        "8"
    } else {
        "9"
    }
}

/// `n` in decimal notation.
pub fn decimal(n: u64) -> (s: String)
    ensures
        s@ == digits(n as nat),
    decreases n,
{
    if n < 10 {
        digit_text(n).to_owned()
    } else {
        let mut s = decimal(n / 10);
        s.append(digit_text(n % 10));
        s
    }
}

/// `n` in decimal notation.
fn wide_decimal(n: u128) -> (s: String)
    ensures
        s@ == digits(n as nat),
    decreases n,
{
    if n < 10 {
        digit_text(n as u64).to_owned()
    } else {
        let mut s = wide_decimal(n / 10);
        s.append(digit_text((n % 10) as u64));
        s
    }
}

/// The number of something counted from nought, counted from one instead.
pub fn ordinal(n: usize) -> (s: String)
    ensures
        s@ == digits(n as nat + 1),
{
    wide_decimal(n as u128 + 1)
}

/// Text of a number with a thousands separator: groups of three digits,
/// counted from the right, set apart by spaces.
pub open spec fn grouped(s: Seq<char>) -> Seq<char>
    decreases s.len(),
{
    if s.len() <= 3 {
        s
    } else {
        grouped(s.take(s.len() - 3)).push(' ') + s.skip(s.len() - 3)
    }
}

/// The last three digits of a number above 999 are its remainder by 1000,
/// padded with zeros, and the digits before them are its quotient.
proof fn lemma_split_thousands(n: nat)
    requires
        n >= 1000,
    ensures
        digits(n) == digits(n / 1000) + seq![
            digit_char(n % 1000 / 100),
            digit_char(n % 100 / 10),
            digit_char(n % 10),
        ],
        digits(n).len() > 3,
{
    reveal_with_fuel(digits, 4);
    assert(n / 10 / 10 / 10 == n / 1000);
    assert(n / 10 / 10 == n / 100);
    assert(n / 10 % 10 == n % 100 / 10);
    assert(n / 100 % 10 == n % 1000 / 100);
    assert(digits(n) =~= digits(n / 1000) + seq![
        digit_char(n % 1000 / 100),
        digit_char(n % 100 / 10),
        digit_char(n % 10),
    ]);
    lemma_digits_nonempty(n / 1000);
}

/// Decimal notation has at least one digit.
pub proof fn lemma_digits_nonempty(n: nat)
    ensures
        digits(n).len() > 0,
    decreases n,
{
    if n >= 10 {
        lemma_digits_nonempty(n / 10);
    }
}

/// `n` in decimal notation, its digits in groups of three.
pub fn group(n: u64) -> (s: String)
    ensures
        s@ == grouped(digits(n as nat)),
    decreases n,
{
    if n < 1000 {
        proof {
            reveal_with_fuel(digits, 4);
        }
        decimal(n)
    } else {
        let mut s = group(n / 1000);
        s.append(" ");
        s.append(digit_text(n % 1000 / 100));
        s.append(digit_text(n % 100 / 10));
        s.append(digit_text(n % 10));
        proof {
            reveal_strlit(" ");
            lemma_split_thousands(n as nat);
            let all = digits(n as nat);
            assert(all.take(all.len() - 3) =~= digits(n as nat / 1000));
            assert(s@ =~= grouped(all.take(all.len() - 3)).push(' ') + all.skip(all.len() - 3));
        }
        s
    }
}

// ---------------------------------------------------------------------------
// Characters
// ---------------------------------------------------------------------------

/// `String::push`: the character is appended, nothing else changes.
#[verifier::external_body]
pub(crate) fn push_char(s: &mut String, c: char)
    ensures
        final(s)@ == old(s)@.push(c),
{
    s.push(c)
}

/// `c` with an ASCII capital letter turned into its small letter.
pub open spec fn lower(c: char) -> char {
    if 'A' <= c && c <= 'Z' {
        (c as u32 + 32) as char
    } else {
        c
    }
}

/// `s` with every ASCII capital letter turned into its small letter.
pub open spec fn lowered(s: Seq<char>) -> Seq<char> {
    s.map_values(|c: char| lower(c))
}

fn lower_char(c: char) -> (r: char)
    ensures
        r == lower(c),
{
    if 'A' <= c && c <= 'Z' {
        (c as u8 + 32) as char
    } else {
        c
    }
}

/// ASCII lower-casing.
pub fn to_ascii_lowercase(s: &str) -> (r: String)
    ensures
        r@ == lowered(s@),
{
    let mut r = String::new();
    for c in it: s.chars()
        invariant
            it.seq() == s@,
            r@ == lowered(s@.take(it.index())),
    {
        push_char(&mut r, lower_char(c));
        assert(s@.take(it.index() + 1) =~= s@.take(it.index()).push(c));
    }
    assert(s@.take(s@.len() as int) =~= s@);
    r
}

/// Lower-casing twice changes nothing more.
pub proof fn lemma_lowered_idempotent(s: Seq<char>)
    ensures
        lowered(lowered(s)) == lowered(s),
{
    assert(lowered(lowered(s)) =~= lowered(s));
}

/// What one character becomes in the page: markup characters are spelled out.
pub open spec fn escaped_html(c: char) -> Seq<char> {
    if c == '&' {
        "&amp;"@
    } else if c == '<' {
        "&lt;"@
    } else if c == '>' {
        "&gt;"@
    } else {
        seq![c]
    }
}

/// `s` with its markup characters spelled out.
pub open spec fn escaped_page(s: Seq<char>) -> Seq<char>
    decreases s.len(),
{
    if s.len() == 0 {
        seq![]
    } else {
        escaped_page(s.drop_last()) + escaped_html(s.last())
    }
}

/// Escaped text holds no markup: neither bracket is left in it.
pub proof fn law_escaped_text_is_no_markup(s: Seq<char>)
    ensures
        !escaped_page(s).contains('<'),
        !escaped_page(s).contains('>'),
    decreases s.len(),
{
    reveal_strlit("&amp;");
    reveal_strlit("&lt;");
    reveal_strlit("&gt;");
    if s.len() > 0 {
        law_escaped_text_is_no_markup(s.drop_last());
        let head = escaped_page(s.drop_last());
        let tail = escaped_html(s.last());
        assert forall|i: int| 0 <= i < (head + tail).len() implies (#[trigger] (head + tail)[i])
            != '<' && (head + tail)[i] != '>' by {
            if i < head.len() {
                assert((head + tail)[i] == head[i]);
                assert(head.contains(head[i]));
            } else {
                assert((head + tail)[i] == tail[i - head.len()]);
            }
        }
    }
}

/// Spell out the characters that HTML reads as markup.
pub fn html_escape(s: &str) -> (r: String)
    ensures
        r@ == escaped_page(s@),
{
    let mut r = String::new();
    for c in it: s.chars()
        invariant
            it.seq() == s@,
            r@ == escaped_page(s@.take(it.index())),
    {
        let ghost before = r@;
        if c == '&' {
            r.append("&amp;");
        } else if c == '<' {
            r.append("&lt;");
        } else if c == '>' {
            r.append("&gt;");
        } else {
            push_char(&mut r, c);
        }
        assert(s@.take(it.index() + 1).drop_last() =~= s@.take(it.index()));
        assert(r@ =~= before + escaped_html(c));
    }
    assert(s@.take(s@.len() as int) =~= s@);
    r
}

// ---------------------------------------------------------------------------
// Cutting
// ---------------------------------------------------------------------------

/// The longest text that is logged whole, in bytes.
pub const TRUNCATE_MAX: usize = 200;

/// The last character boundary at or below `end`.
pub open spec fn boundary_below(bytes: Seq<u8>, end: int) -> int
    decreases end,
{
    if end <= 0 || vstd::utf8::is_char_boundary(bytes, end) {
        end
    } else {
        boundary_below(bytes, end - 1)
    }
}

/// The text as it is logged: cut at a character boundary if it is long.
pub open spec fn truncated(s: Seq<char>) -> Seq<char> {
    let bytes = vstd::utf8::encode_utf8(s);
    if bytes.len() <= TRUNCATE_MAX {
        s
    } else {
        vstd::utf8::decode_utf8(bytes.take(boundary_below(bytes, TRUNCATE_MAX as int))) + "…"@
    }
}

/// The text as it is logged: cut at a character boundary if it is long.
pub fn truncate(s: &str) -> (r: String)
    ensures
        r@ == truncated(s@),
{
    let n = s.as_bytes().len();
    if n <= TRUNCATE_MAX {
        return s.to_owned();
    }
    let ghost bytes = vstd::utf8::encode_utf8(s@);
    let mut end: usize = TRUNCATE_MAX;
    while end > 0 && !s.is_char_boundary(end)
        invariant
            end <= TRUNCATE_MAX,
            bytes == vstd::utf8::encode_utf8(s@),
            boundary_below(bytes, TRUNCATE_MAX as int) == boundary_below(bytes, end as int),
        decreases end,
    {
        end = end - 1;
    }
    proof {
        vstd::utf8::encode_utf8_valid_utf8(s@);
        assert(vstd::utf8::is_char_boundary(bytes, end as int));
    }
    let (head, _) = s.split_at(end);
    let mut r = head.to_owned();
    r.append("…");
    proof {
        broadcast use vstd::utf8::encode_utf8_decode_utf8;

        assert(vstd::utf8::encode_utf8(head@) =~= bytes.take(end as int));
    }
    r
}

} // verus!
