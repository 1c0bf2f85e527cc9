//! What a run sets out to do: which subscriptions, over which connections.

use crate::key::SubKey;
use crate::text;
use vstd::prelude::*;

verus! {

// ---------------------------------------------------------------------------
// What to subscribe to
// ---------------------------------------------------------------------------

/// The subscription that a channel and a name stand for, at the given depth. The
/// upstream refuses its own default depth when it is spelled out.
pub open spec fn named_key(channel: Seq<char>, name: Seq<char>, levels: usize) -> Option<
    crate::key::Key,
> {
    let n_levels = crate::key::without_default(Some(levels));
    if channel == "bbo"@ {
        Some(crate::key::Key::Bbo { coin: name })
    } else if channel == "l2Book"@ {
        Some(crate::key::Key::L2Book { coin: name, n_sig_figs: None, n_levels, mantissa: None })
    } else if channel == "l2Diff"@ {
        Some(crate::key::Key::L2Diff { coin: name, n_sig_figs: None, n_levels, mantissa: None })
    } else if channel == "l4Book"@ {
        Some(crate::key::Key::L4Book { coin: name })
    } else if channel == "trades"@ {
        Some(crate::key::Key::Trades { coin: name })
    } else if channel == "bookDiffs"@ {
        Some(crate::key::Key::BookDiffs { coin: name })
    } else if channel == "orderUpdates"@ {
        Some(crate::key::Key::OrderUpdates { user: text::lowered(name) })
    } else {
        None
    }
}

/// The subscription that `CHANNEL:NAME` stands for. What stands behind the first
/// colon is the name, colons and all.
pub open spec fn parsed_sub(s: Seq<char>, levels: usize) -> Option<crate::key::Key> {
    match s.index_of_first(':') {
        Some(i) => named_key(s.take(i), s.skip(i + 1), levels),
        None => None,
    }
}

/// What an optional key denotes.
pub open spec fn key_view(k: Option<SubKey>) -> Option<crate::key::Key> {
    match k {
        Some(k) => Some(k@),
        None => None,
    }
}

fn is_text(a: &String, b: &str) -> (r: bool)
    ensures
        r == (a@ == b@),
{
    *a == b.to_owned()
}

fn key_named(channel: &String, name: String, levels: usize) -> (k: Option<SubKey>)
    ensures
        key_view(k) == named_key(channel@, name@, levels),
{
    let n_levels = if levels != crate::key::DEFAULT_L2_LEVELS {
        Some(levels)
    } else {
        None
    };
    if is_text(channel, "bbo") {
        Some(SubKey::Bbo { coin: name })
    } else if is_text(channel, "l2Book") {
        Some(SubKey::L2Book { coin: name, n_sig_figs: None, n_levels, mantissa: None })
    } else if is_text(channel, "l2Diff") {
        Some(SubKey::L2Diff { coin: name, n_sig_figs: None, n_levels, mantissa: None })
    } else if is_text(channel, "l4Book") {
        Some(SubKey::L4Book { coin: name })
    } else if is_text(channel, "trades") {
        Some(SubKey::Trades { coin: name })
    } else if is_text(channel, "bookDiffs") {
        Some(SubKey::BookDiffs { coin: name })
    } else if is_text(channel, "orderUpdates") {
        Some(SubKey::OrderUpdates { user: text::to_ascii_lowercase(name.as_str()) })
    } else {
        None
    }
}

/// The subscription that `CHANNEL:NAME` stands for, at the given depth: `None`
/// if there is no colon or no such channel. What stands behind the first colon is
/// the name, colons and all.
pub fn parse_sub(spec_text: &str, levels: usize) -> (k: Option<SubKey>)
    ensures
        key_view(k) == parsed_sub(spec_text@, levels),
{
    let mut channel = String::new();
    let mut name = String::new();
    let mut found = false;
    let ghost mut at: int = 0;
    for c in it: spec_text.chars()
        invariant
            it.seq() == spec_text@,
            0 <= at <= it.index(),
            forall|j: int| 0 <= j < at ==> spec_text@[j] != ':',
            channel@ == spec_text@.take(at),
            !found ==> at == it.index(),
            found ==> at < it.index() && spec_text@[at] == ':' && name@ == spec_text@.subrange(
                at + 1,
                it.index(),
            ),
            !found ==> name@.len() == 0,
    {
        let ghost k = it.index();
        if found {
            text::push_char(&mut name, c);
            assert(name@ =~= spec_text@.subrange(at + 1, k + 1));
        } else if c == ':' {
            found = true;
            assert(name@ =~= spec_text@.subrange(at + 1, k + 1));
        } else {
            text::push_char(&mut channel, c);
            proof {
                at = k + 1;
                assert(channel@ =~= spec_text@.take(at));
            }
        }
    }
    proof {
        spec_text@.index_of_first_ensures(':');
        if found {
            assert(spec_text@.contains(':'));
            assert(name@ =~= spec_text@.skip(at + 1));
        } else {
            assert(!spec_text@.contains(':'));
        }
    }
    if !found {
        return None;
    }
    key_named(&channel, name, levels)
}

// ---------------------------------------------------------------------------
// Lists of coins
// ---------------------------------------------------------------------------

/// White space, of whatever script.
pub open spec fn is_space(c: char) -> bool {
    let n = c as u32;
    ||| 0x9 <= n <= 0xd
    ||| n == 0x20
    ||| n == 0x85
    ||| n == 0xa0
    ||| n == 0x1680
    ||| 0x2000 <= n <= 0x200a
    ||| n == 0x2028
    ||| n == 0x2029
    ||| n == 0x202f
    ||| n == 0x205f
    ||| n == 0x3000
}

/// Without white space at the front.
pub open spec fn trimmed_front(s: Seq<char>) -> Seq<char>
    decreases s.len(),
{
    if s.len() > 0 && is_space(s[0]) {
        trimmed_front(s.skip(1))
    } else {
        s
    }
}

/// Without white space at the back.
pub open spec fn trimmed_back(s: Seq<char>) -> Seq<char>
    decreases s.len(),
{
    if s.len() > 0 && is_space(s.last()) {
        trimmed_back(s.drop_last())
    } else {
        s
    }
}

/// Without white space at either end.
pub open spec fn trimmed(s: Seq<char>) -> Seq<char> {
    trimmed_back(trimmed_front(s))
}

/// The lines of a text: every newline begins another, and every other character
/// belongs to the line it stands in.
pub open spec fn lines(s: Seq<char>) -> Seq<Seq<char>>
    decreases s.len(),
{
    if s.len() == 0 {
        seq![seq![]]
    } else {
        let before = lines(s.drop_last());
        if s.last() == '\n' {
            before.push(seq![])
        } else {
            before.update(before.len() - 1, before.last().push(s.last()))
        }
    }
}

/// Whether a line names a coin: it is neither blank nor a comment.
pub open spec fn names_coin(line: Seq<char>) -> bool {
    trimmed(line).len() > 0 && trimmed(line)[0] != '#'
}

/// The coins that some lines name.
pub open spec fn coins_in(lines: Seq<Seq<char>>) -> Seq<Seq<char>>
    decreases lines.len(),
{
    if lines.len() == 0 {
        seq![]
    } else if names_coin(lines.last()) {
        coins_in(lines.drop_last()).push(trimmed(lines.last()))
    } else {
        coins_in(lines.drop_last())
    }
}

fn space(c: char) -> (b: bool)
    ensures
        b == is_space(c),
{
    let n = c as u32;
    (0x9 <= n && n <= 0xd) || n == 0x20 || n == 0x85 || n == 0xa0 || n == 0x1680 || (0x2000 <= n
        && n <= 0x200a) || n == 0x2028 || n == 0x2029 || n == 0x202f || n == 0x205f || n == 0x3000
}

spec fn all_space(s: Seq<char>) -> bool {
    forall|i: int| 0 <= i < s.len() ==> is_space(#[trigger] s[i])
}

proof fn lemma_trimmed_front(lead: Seq<char>, s: Seq<char>)
    requires
        all_space(lead),
        s.len() > 0 ==> !is_space(s[0]),
    ensures
        trimmed_front(lead + s) == s,
    decreases lead.len(),
{
    if lead.len() > 0 {
        assert((lead + s)[0] == lead[0]);
        assert((lead + s).skip(1) =~= lead.skip(1) + s);
        lemma_trimmed_front(lead.skip(1), s);
    } else {
        assert(lead + s =~= s);
    }
}

proof fn lemma_trimmed_back(s: Seq<char>, tail: Seq<char>)
    requires
        all_space(tail),
        s.len() > 0 ==> !is_space(s.last()),
    ensures
        trimmed_back(s + tail) == s,
    decreases tail.len(),
{
    if tail.len() > 0 {
        assert((s + tail).last() == tail.last());
        assert((s + tail).drop_last() =~= s + tail.drop_last());
        lemma_trimmed_back(s, tail.drop_last());
    } else {
        assert(s + tail =~= s);
    }
}

fn trim(s: &str) -> (r: String)
    ensures
        r@ == trimmed(s@),
{
    let mut r = String::new();
    let mut held = String::new();
    let mut begun = false;
    let ghost mut lead: Seq<char> = seq![];
    assert(s@.take(0) =~= lead + r@ + held@);
    for c in it: s.chars()
        invariant
            it.seq() == s@,
            s@.take(it.index()) == lead + r@ + held@,
            all_space(lead),
            all_space(held@),
            begun == (r@.len() > 0),
            begun ==> !is_space(r@[0]) && !is_space(r@.last()),
            !begun ==> held@.len() == 0,
    {
        let ghost k = it.index();
        assert(s@.take(k + 1) =~= s@.take(k).push(c));
        if !space(c) {
            let ghost was = r@ + held@;
            r.append(held.as_str());
            text::push_char(&mut r, c);
            held = String::new();
            begun = true;
            assert(r@ =~= was.push(c));
            assert(s@.take(k + 1) =~= lead + r@ + held@);
        } else if begun {
            text::push_char(&mut held, c);
            assert(s@.take(k + 1) =~= lead + r@ + held@);
        } else {
            proof {
                lead = lead.push(c);
                assert(s@.take(k + 1) =~= lead + r@ + held@);
            }
        }
    }
    proof {
        assert(s@.take(s@.len() as int) =~= s@);
        assert(s@ =~= lead + (r@ + held@));
        lemma_trimmed_front(lead, r@ + held@);
        lemma_trimmed_back(r@, held@);
    }
    r
}

/// The coins that some text names, one per line. Blank lines and lines that begin
/// with `#` name none.
pub fn coins_of(list: &str) -> (r: Vec<String>)
    ensures
        crate::entry::texts(r@) == coins_in(lines(list@)),
{
    let mut r: Vec<String> = Vec::new();
    let mut line = String::new();
    let ghost mut done: Seq<Seq<char>> = seq![];
    proof {
        assert(list@.take(0) =~= seq![]);
        assert(lines(list@.take(0)) =~= done.push(line@)) by {
            assert(line@ =~= seq![]);
        }
        assert(crate::entry::texts(r@) =~= seq![]);
    }
    for c in it: list.chars()
        invariant
            it.seq() == list@,
            lines(list@.take(it.index())) == done.push(line@),
            crate::entry::texts(r@) == coins_in(done),
    {
        let ghost k = it.index();
        assert(list@.take(k + 1).drop_last() =~= list@.take(k));
        assert(list@.take(k + 1).last() == c);
        if c == '\n' {
            add_coin(&mut r, line.as_str());
            proof {
                assert(done.push(line@).drop_last() =~= done);
                done = done.push(line@);
            }
            line = String::new();
            assert(lines(list@.take(k + 1)) =~= done.push(line@)) by {
                assert(line@ =~= seq![]);
            }
        } else {
            let ghost was = line@;
            text::push_char(&mut line, c);
            assert(done.push(was).update(done.len() as int, was.push(c)) =~= done.push(line@));
        }
    }
    add_coin(&mut r, line.as_str());
    proof {
        assert(list@.take(list@.len() as int) =~= list@);
        assert(done.push(line@).drop_last() =~= done);
    }
    r
}

/// Add the coin that a line names, if it names one.
fn add_coin(coins: &mut Vec<String>, line: &str)
    ensures
        crate::entry::texts(final(coins)@) == if names_coin(line@) {
            crate::entry::texts(old(coins)@).push(trimmed(line@))
        } else {
            crate::entry::texts(old(coins)@)
        },
{
    let ghost before = crate::entry::texts(coins@);
    let name = trim(line);
    if name.as_str().unicode_len() > 0 && name.as_str().get_char(0) != '#' {
        coins.push(name);
        assert(crate::entry::texts(coins@) =~= before.push(trimmed(line@)));
    }
}

// ---------------------------------------------------------------------------
// The plan
// ---------------------------------------------------------------------------

/// Why there is nothing to run.
#[derive(Clone, Copy, Debug, PartialEq, Eq, Structural)]
pub enum PlanError {
    /// There is no such channel to fan the coins across.
    UnknownChannel,
    /// The explicit subscription at this place makes no sense.
    BadSub(usize),
    /// There is nothing to subscribe to.
    Nothing,
}

/// The subscription to one coin of the fan-out.
pub open spec fn coin_sub(channel: Seq<char>, coin: Seq<char>, levels: usize) -> Option<
    crate::key::Key,
> {
    parsed_sub(channel + ":"@ + coin, levels)
}

/// What the subscriptions of a run are: those of the fan-out, and then the
/// explicit ones.
pub open spec fn is_plan(
    keys: Seq<crate::key::Key>,
    channel: Seq<char>,
    coins: Seq<Seq<char>>,
    subs: Seq<Seq<char>>,
    levels: usize,
) -> bool {
    &&& keys.len() == coins.len() + subs.len()
    &&& forall|i: int|
        0 <= i < coins.len() ==> coin_sub(channel, #[trigger] coins[i], levels) == Some(keys[i])
    &&& forall|i: int|
        0 <= i < subs.len() ==> parsed_sub(#[trigger] subs[i], levels) == Some(
            keys[coins.len() + i],
        )
}

/// Whether `r` is what comes of planning: the plan, or the first reason there is none.
pub open spec fn planned(
    r: Result<Vec<SubKey>, PlanError>,
    channel: Seq<char>,
    names: Seq<Seq<char>>,
    specs: Seq<Seq<char>>,
    levels: usize,
) -> bool {
    let coins_fit = forall|i: int|
        0 <= i < names.len() ==> coin_sub(channel, #[trigger] names[i], levels) is Some;
    match r {
        Ok(v) => v@.len() > 0 && is_plan(
            crate::client::keys_of(v@),
            channel,
            names,
            specs,
            levels,
        ),
        Err(PlanError::UnknownChannel) => !coins_fit,
        Err(PlanError::BadSub(i)) => {
            &&& coins_fit
            &&& i < specs.len() && parsed_sub(specs[i as int], levels) is None
            &&& forall|j: int| 0 <= j < i ==> parsed_sub(#[trigger] specs[j], levels) is Some
        },
        Err(PlanError::Nothing) => names.len() == 0 && specs.len() == 0,
    }
}

/// Everything to subscribe to: `channel` for each of the coins, and then the
/// explicit subscriptions.
pub fn plan_subs(channel: &str, coins: &Vec<String>, subs: &Vec<String>, levels: usize) -> (r:
    Result<Vec<SubKey>, PlanError>)
    ensures
        planned(
            r,
            channel@,
            crate::entry::texts(coins@),
            crate::entry::texts(subs@),
            levels,
        ),
{
    let ghost names = crate::entry::texts(coins@);
    let ghost specs = crate::entry::texts(subs@);
    let mut v: Vec<SubKey> = Vec::new();
    let mut i: usize = 0;
    while i < coins.len()
        invariant
            i <= coins.len(),
            names == crate::entry::texts(coins@),
            v@.len() == i,
            forall|k: int|
                0 <= k < i ==> coin_sub(channel@, #[trigger] names[k], levels) == Some(v@[k]@),
        decreases coins.len() - i,
    {
        let mut wanted = channel.to_owned();
        wanted.append(":");
        wanted.append(coins[i].as_str());
        assert(names[i as int] == coins@[i as int]@);
        match parse_sub(wanted.as_str(), levels) {
            Some(k) => {
                v.push(k);
            },
            None => {
                return Err(PlanError::UnknownChannel);
            },
        }
        i = i + 1;
    }
    let mut j: usize = 0;
    while j < subs.len()
        invariant
            j <= subs.len(),
            names == crate::entry::texts(coins@),
            specs == crate::entry::texts(subs@),
            v@.len() == names.len() + j,
            forall|k: int|
                0 <= k < names.len() ==> coin_sub(channel@, #[trigger] names[k], levels) == Some(
                    v@[k]@,
                ),
            forall|k: int|
                0 <= k < j ==> parsed_sub(#[trigger] specs[k], levels) == Some(
                    v@[names.len() + k]@,
                ),
        decreases subs.len() - j,
    {
        assert(specs[j as int] == subs@[j as int]@);
        match parse_sub(subs[j].as_str(), levels) {
            Some(k) => {
                v.push(k);
            },
            None => {
                return Err(PlanError::BadSub(j));
            },
        }
        j = j + 1;
    }
    if v.len() == 0 {
        return Err(PlanError::Nothing);
    }
    Ok(v)
}

// ---------------------------------------------------------------------------
// Connections
// ---------------------------------------------------------------------------

/// `n` divided by `d`, rounded up.
pub open spec fn divided_up(n: int, d: int) -> int {
    (n + d - 1) / d
}

/// How many subscriptions go over each connection.
pub open spec fn share(n: usize, connections: usize) -> int {
    divided_up(
        n as int,
        if connections > 0 {
            connections as int
        } else {
            1
        },
    )
}

/// Whether `r` spreads `n` subscriptions over the connections: as many over each as it
/// takes, one after the other, and the rest over the last.
pub open spec fn is_fan_out(r: Seq<(usize, usize)>, n: usize, connections: usize) -> bool {
    &&& r.len() > 0
    &&& r[0].0 == 0
    &&& r.last().1 == n
    &&& forall|i: int|
        0 <= i < r.len() - 1 ==> (#[trigger] r[i]).1 - r[i].0 == share(n, connections) && r[i
            + 1].0 == r[i].1
    &&& 0 < r.last().1 - r.last().0 <= share(n, connections)
}

/// Which subscriptions each connection carries, as the place of the first and the
/// one behind the last: as many over each as it takes, one after the other, and
/// the rest over the last.
pub fn fan_out(n: usize, connections: usize) -> (r: Vec<(usize, usize)>)
    requires
        n > 0,
    ensures
        is_fan_out(r@, n, connections),
{
    let d: usize = if connections > 0 {
        connections
    } else {
        1
    };
    let per = (n - 1) / d + 1;
    proof {
        assert((n + d - 1) / (d as int) == (n - 1) / (d as int) + 1) by (nonlinear_arith)
            requires
                n > 0,
                d > 0,
        ;
    }
    let mut r: Vec<(usize, usize)> = Vec::new();
    let mut at: usize = 0;
    while n - at > per
        invariant
            at < n,
            per == share(n, connections),
            per > 0,
            at == if r@.len() == 0 {
                0
            } else {
                r@.last().1
            },
            r@.len() > 0 ==> r@[0].0 == 0,
            forall|i: int|
                0 <= i < r@.len() ==> (#[trigger] r@[i]).1 - r@[i].0 == per && (i + 1 < r@.len()
                    ==> r@[i + 1].0 == r@[i].1),
        decreases n - at,
    {
        r.push((at, at + per));
        at = at + per;
    }
    r.push((at, n));
    r
}

} // verus!
