// Choosing who battles: the filter that makes the pool, and matchmaking.

use vstd::prelude::*;
use crate::groups::{Tags, keyword_tag};
use crate::text::{lower_of, split_by, split_on, has_sub, contains_text, trim_of, trimmed};
use crate::chara::Chara;
use crate::stats::{passing, passes_filter, filter_group_mut, lemma_passing_in_bounds};
use crate::session::strictly_increasing;
use rand::rngs::StdRng;
use rand::seq::IteratorRandom;

verus! {

/// Whether a filter token is negated by a leading `-`.
pub open spec fn is_negated(t: Seq<char>) -> bool {
    t.len() > 0 && t[0] == '-'
}

/// A token without its leading `-`.
pub open spec fn unsigned(t: Seq<char>) -> Seq<char> {
    if is_negated(t) {
        t.skip(1)
    } else {
        t
    }
}

/// The group that a filter token names, if it names one.
pub open spec fn token_tag(t: Seq<char>) -> Option<Tags> {
    keyword_tag(lower_of(unsigned(t)))
}

/// Whether a filter understands a token: an empty one, one that names a
/// group, or one that speaks of PC-98 duplicates, non-girls or nameless
/// characters.
pub open spec fn token_known(t: Seq<char>) -> bool {
    t.len() == 0 || has_sub(t, "pc98"@) || has_sub(t, "notgirl"@) || has_sub(t, "namel"@)
        || token_tag(t) is Some
}

/// The tags of a list of tokens: one for each token that names a group,
/// inclusive unless negated.
pub open spec fn filter_tags(ts: Seq<Seq<char>>) -> Seq<(Tags, bool)>
    decreases ts.len(),
{
    if ts.len() == 0 {
        Seq::empty()
    } else {
        let prev = filter_tags(ts.drop_last());
        match token_tag(ts.last()) {
            Some(tag) => prev.push((tag, !is_negated(ts.last()))),
            None => prev,
        }
    }
}

/// The flags of a list of tokens: PC-98 duplicates and non-girls are left
/// out unless a token asks for them; nameless characters stay in unless a
/// negated token leaves them out.
pub open spec fn filter_flags(ts: Seq<Seq<char>>) -> (bool, bool, bool)
    decreases ts.len(),
{
    if ts.len() == 0 {
        (false, false, true)
    } else {
        let (pc98, notgirl, nameless) = filter_flags(ts.drop_last());
        let t = ts.last();
        if token_tag(t) is Some {
            (pc98, notgirl, nameless)
        } else if has_sub(t, "pc98"@) {
            (pc98 || !is_negated(t), notgirl, nameless)
        } else if has_sub(t, "notgirl"@) {
            (pc98, notgirl || !is_negated(t), nameless)
        } else if has_sub(t, "namel"@) {
            (pc98, notgirl, nameless && !is_negated(t))
        } else {
            (pc98, notgirl, nameless)
        }
    }
}

/// The tokens that a filter does not understand.
pub open spec fn unknown_tokens(ts: Seq<Seq<char>>) -> Seq<Seq<char>>
    decreases ts.len(),
{
    if ts.len() == 0 {
        Seq::empty()
    } else if token_known(ts.last()) {
        unknown_tokens(ts.drop_last())
    } else {
        unknown_tokens(ts.drop_last()).push(ts.last())
    }
}

/// The group that a token names, if any.
fn tag_of_token(t: &str) -> (r: Option<Tags>)
    ensures
        r == token_tag(t@),
{
    let n = t.unicode_len();
    let rest = if n > 0 && t.get_char(0) == '-' {
        t.substring_char(1, n)
    } else {
        t
    };
    proof {
        if n > 0 && t@[0] == '-' {
            assert(rest@ =~= t@.skip(1));
        }
    }
    Tags::parse(rest)
}

/// Reads a filter line: its tokens are separated by single spaces. Returns
/// the tags it names (each inclusive unless negated by a leading `-`), its
/// flags (PC-98 duplicates, non-girls, nameless characters: whether each
/// is let in), and the tokens it does not understand.
pub fn parse_filter(line: String) -> (r: (Vec<(Tags, bool)>, [bool; 3], Vec<String>))
    ensures
        ({
            let ts = split_on(line@, ' ');
            &&& r.0@ == filter_tags(ts)
            &&& r.1[0] == filter_flags(ts).0
            &&& r.1[1] == filter_flags(ts).1
            &&& r.1[2] == filter_flags(ts).2
            &&& r.2@.map_values(|s: String| s@) == unknown_tokens(ts)
        }),
{
    let tokens = split_by(line.as_str(), ' ');
    let ghost ts = split_on(line@, ' ');
    let mut tags: Vec<(Tags, bool)> = Vec::new();
    let mut flags: [bool; 3] = [false, false, true];
    let mut unknown: Vec<String> = Vec::new();
    let mut i: usize = 0;
    while i < tokens.len()
        invariant
            tokens@.map_values(|t: &str| t@) == ts,
            i <= tokens@.len(),
            tags@ == filter_tags(ts.take(i as int)),
            flags[0] == filter_flags(ts.take(i as int)).0,
            flags[1] == filter_flags(ts.take(i as int)).1,
            flags[2] == filter_flags(ts.take(i as int)).2,
            unknown@.map_values(|s: String| s@) == unknown_tokens(ts.take(i as int)),
        decreases tokens@.len() - i,
    {
        let token = tokens[i];
        let ghost pre = ts.take(i as int);
        proof {
            assert(ts.take(i + 1).drop_last() == pre);
            assert(ts.take(i + 1).last() == token@);
        }
        let negated = token.unicode_len() > 0 && token.get_char(0) == '-';
        let tag = tag_of_token(token);
        let pc98 = contains_text(token, "pc98");
        let notgirl = contains_text(token, "notgirl");
        let namel = contains_text(token, "namel");
        match tag {
            Some(t) => {
                tags.push((t, !negated));
            },
            None => {
                if pc98 {
                    if !negated {
                        flags[0] = true;
                    }
                } else if notgirl {
                    if !negated {
                        flags[1] = true;
                    }
                } else if namel {
                    if negated {
                        flags[2] = false;
                    }
                }
            },
        }
        let known = token.unicode_len() == 0 || pc98 || notgirl || namel || tag.is_some();
        if !known {
            let ghost before = unknown@.map_values(|s: String| s@);
            unknown.push(String::from_str(token));
            assert(unknown@.map_values(|s: String| s@) =~= before.push(token@));
        }
        i = i + 1;
    }
    assert(ts.take(i as int) == ts);
    (tags, flags, unknown)
}

/// Whether a character gets past the flags of a filter: PC-98 duplicates,
/// non-girls and nameless characters stay out unless their flag lets them in.
pub open spec fn flags_admit(c: Chara, pc98: bool, notgirl: bool, nameless: bool) -> bool {
    !((!pc98 && c.flags[0]) || (!notgirl && c.flags[2]) || (!nameless && c.flags[1]))
}

/// The positions, among the first `n` of a roster, of the characters that
/// pass a filter's tags and flags, in increasing order.
pub open spec fn admitted(
    pool: Seq<Chara>,
    tags: Seq<(Tags, bool)>,
    flags: (bool, bool, bool),
    n: int,
) -> Seq<usize>
    decreases n,
{
    if n <= 0 {
        Seq::empty()
    } else if passes_filter(pool[n - 1], tags) && flags_admit(pool[n - 1], flags.0, flags.1, flags.2) {
        admitted(pool, tags, flags, n - 1).push((n - 1) as usize)
    } else {
        admitted(pool, tags, flags, n - 1)
    }
}

pub proof fn lemma_admitted_increasing(
    pool: Seq<Chara>,
    tags: Seq<(Tags, bool)>,
    flags: (bool, bool, bool),
    n: int,
)
    requires
        0 <= n <= pool.len(),
        n <= usize::MAX,
    ensures
        strictly_increasing(admitted(pool, tags, flags, n)),
        forall|j: int| 0 <= j < admitted(pool, tags, flags, n).len() ==> #[trigger] admitted(pool, tags, flags, n)[j] < n,
    decreases n,
{
    if n > 0 {
        lemma_admitted_increasing(pool, tags, flags, n - 1);
        let prev = admitted(pool, tags, flags, n - 1);
        let cur = admitted(pool, tags, flags, n);
        assert(((n - 1) as usize) as int == n - 1);
        if cur != prev {
            assert(cur == prev.push((n - 1) as usize));
            assert forall|j: int| 0 <= j < cur.len() implies #[trigger] cur[j] < n by {
                if j < prev.len() {
                    assert(prev[j] < n - 1);
                }
            }
            assert forall|a: int, b: int| 0 <= a < b < cur.len() implies cur[a] < cur[b] by {
                if b < prev.len() {
                    assert(prev[a] < prev[b]);
                } else {
                    assert(prev[a] < n - 1);
                }
            }
        }
    }
}

/// The pool that a filter line admits: the positions in the roster of the
/// characters that pass its tags and its flags, in increasing order.
pub fn bouncer(line: String, touhous: &Vec<Chara>) -> (r: Vec<usize>)
    ensures
        ({
            let ts = split_on(line@, ' ');
            r@ == admitted(touhous@, filter_tags(ts), filter_flags(ts), touhous@.len() as int)
        }),
        strictly_increasing(r@),
{
    let (tags, flags, _) = parse_filter(line);
    let ghost fl = (flags[0], flags[1], flags[2]);
    let candidates = filter_group_mut(tags, touhous);
    let ghost n = touhous@.len() as int;
    let _ = touhous.len();
    proof {
        lemma_passing_in_bounds(touhous@, tags@, n);
    }
    let mut kept: Vec<usize> = Vec::new();
    let mut k: usize = 0;
    let mut id: usize = 0;
    // walk the roster and the candidates together
    while id < touhous.len()
        invariant
            n == touhous@.len(),
            fl == (flags[0], flags[1], flags[2]),
            candidates@ == passing(touhous@, tags@, n),
            forall|j: int| 0 <= j < candidates@.len() ==> candidates@[j] < n,
            id <= n,
            k <= candidates@.len(),
            candidates@.take(k as int) == passing(touhous@, tags@, id as int),
            kept@ == admitted(touhous@, tags@, fl, id as int),
        decreases n - id,
    {
        proof {
            lemma_passing_prefix(touhous@, tags@, id as int, n);
        }
        let th = &touhous[id];
        if k < candidates.len() && candidates[k] == id {
            proof {
                assert(candidates@.take(k + 1int) == passing(touhous@, tags@, id + 1));
            }
            let c_ok = !((!flags[0] && th.is_pc98()) || (!flags[1] && th.is_not_girl()) || (!flags[2] && th.is_nameless()));
            if c_ok {
                kept.push(id);
            }
            k = k + 1;
        } else {
            proof {
                assert(candidates@.take(k as int) == passing(touhous@, tags@, id + 1));
            }
        }
        id = id + 1;
    }
    proof {
        lemma_admitted_increasing(touhous@, tags@, fl, n);
    }
    kept
}

/// How passing grows by one position: the prefix of the full list that
/// stands below `id + 1` is the list for `id + 1`.
proof fn lemma_passing_prefix(pool: Seq<Chara>, tags: Seq<(Tags, bool)>, id: int, n: int)
    requires
        0 <= id < n <= pool.len(),
        n <= usize::MAX,
    ensures
        ({
            let full = passing(pool, tags, n);
            let k = passing(pool, tags, id).len();
            &&& full.take(k as int) == passing(pool, tags, id)
            &&& k <= full.len()
            &&& passes_filter(pool[id], tags) ==> k < full.len() && full[k as int] == id
                && full.take(k + 1int) == passing(pool, tags, id + 1)
            &&& !passes_filter(pool[id], tags) ==> (k == full.len() || full[k as int] != id)
                && passing(pool, tags, id + 1) == passing(pool, tags, id)
        }),
    decreases n,
{
    assert(((id) as usize) as int == id);
    if n == id + 1 {
        let k = passing(pool, tags, id).len();
        if passes_filter(pool[id], tags) {
            assert(passing(pool, tags, n).take(k as int) == passing(pool, tags, id));
            assert(passing(pool, tags, n).take(k + 1int) == passing(pool, tags, n));
        } else {
            assert(passing(pool, tags, n).take(k as int) == passing(pool, tags, id));
        }
    } else {
        lemma_passing_prefix(pool, tags, id, n - 1);
        lemma_passing_in_bounds(pool, tags, n - 1);
        let prev = passing(pool, tags, n - 1);
        let full = passing(pool, tags, n);
        let k = passing(pool, tags, id).len();
        if passes_filter(pool[n - 1], tags) {
            assert(full == prev.push((n - 1) as usize));
            assert(full.take(k as int) == prev.take(k as int));
            if passes_filter(pool[id], tags) {
                assert(full.take(k + 1int) == prev.take(k + 1int));
            } else if k < full.len() && k == prev.len() {
                assert(full[k as int] == n - 1);
            }
        }
    }
}

/// Whether the character at a roster position has never battled.
pub open spec fn unseen(c: Chara) -> bool {
    c.hist.wins == 0 && c.hist.draw == 0 && c.hist.loss == 0
}

/// rand's seedable generator, carried through as it is.
#[verifier::external_type_specification]
#[verifier::external_body]
pub struct ExStdRng(StdRng);

/// Relies on rand's `IteratorRandom::choose`: one item of the list, drawn
/// at random, or nothing from an empty list.
#[verifier::external_body]
fn choose_one(items: &Vec<usize>, rng: &mut StdRng) -> (r: Option<usize>)
    ensures
        items@.len() == 0 <==> r is None,
        r is Some ==> items@.contains(r->0),
{
    items.iter().copied().choose(rng)
}

/// The pool positions of the characters that have never battled and that
/// this session has not yet picked for that reason.
pub fn unseen_candidates(touhous: &Vec<Chara>, pool: &Vec<usize>, picks: &Vec<bool>) -> (r: Vec<usize>)
    requires
        picks@.len() == pool@.len(),
        forall|p: int| 0 <= p < pool@.len() ==> (#[trigger] pool@[p]) < touhous@.len(),
    ensures
        forall|p: usize|
            p < pool@.len() ==> (#[trigger] r@.contains(p) <==> unseen(touhous@[pool@[p as int] as int]) && !picks@[p as int]),
        forall|j: int| 0 <= j < r@.len() ==> (#[trigger] r@[j]) < pool@.len(),
{
    let mut out: Vec<usize> = Vec::new();
    let mut p: usize = 0;
    while p < pool.len()
        invariant
            picks@.len() == pool@.len(),
            forall|q: int| 0 <= q < pool@.len() ==> (#[trigger] pool@[q]) < touhous@.len(),
            p <= pool@.len(),
            forall|q: usize|
                q < pool@.len() ==> (#[trigger] out@.contains(q) <==> q < p && unseen(touhous@[pool@[q as int] as int]) && !picks@[q as int]),
            forall|j: int| 0 <= j < out@.len() ==> (#[trigger] out@[j]) < p,
        decreases pool@.len() - p,
    {
        let h = &touhous[pool[p]].hist;
        let ghost before = out@;
        if h.wins == 0 && h.draw == 0 && h.loss == 0 && !picks[p] {
            out.push(p);
            proof {
                assert forall|x: usize| #[trigger] out@.contains(x) <==> before.contains(x) || x == p by {
                    if before.contains(x) {
                        let j = choose|j: int| 0 <= j < before.len() && before[j] == x;
                        assert(out@[j] == x);
                    }
                    if x == p {
                        assert(out@[before.len() as int] == x);
                    }
                    if out@.contains(x) {
                        let j = choose|j: int| 0 <= j < out@.len() && out@[j] == x;
                        if j < before.len() {
                            assert(before[j] == x);
                        }
                    }
                }
            }
        }
        proof {
            assert(!before.contains(p)) by {
                if before.contains(p) {
                    let j = choose|j: int| 0 <= j < before.len() && before[j] == p;
                    assert(before[j] < p);
                }
            }
        }
        p = p + 1;
    }
    out
}

/// Picks, at random, a pool member that has never battled and that the
/// session has not yet picked for that reason, and marks it picked; nothing
/// where there is none.
pub fn pick_unseen(touhous: &Vec<Chara>, pool: &Vec<usize>, picks: &mut Vec<bool>, rng: &mut StdRng) -> (r: Option<usize>)
    requires
        old(picks)@.len() == pool@.len(),
        forall|p: int| 0 <= p < pool@.len() ==> (#[trigger] pool@[p]) < touhous@.len(),
    ensures
        (r is None) <==> (forall|p: int| 0 <= p < pool@.len() ==> !(unseen(touhous@[#[trigger] pool@[p] as int]) && !old(picks)@[p])),
        r is Some ==> {
            let p = r->0 as int;
            &&& 0 <= p < pool@.len()
            &&& unseen(touhous@[pool@[p] as int])
            &&& !old(picks)@[p]
            &&& final(picks)@ == old(picks)@.update(p, true)
        },
        r is None ==> final(picks)@ == old(picks)@,
{
    let pool_len = pool.len();
    let candidates = unseen_candidates(touhous, pool, picks);
    let chosen = choose_one(&candidates, rng);
    match chosen {
        Some(p) => {
            proof {
                let j = choose|j: int| 0 <= j < candidates@.len() && candidates@[j] == p;
                assert(candidates@[j] < pool@.len());
                assert(candidates@.contains(p));
            }
            picks.set(p, true);
            Some(p)
        },
        None => {
            proof {
                assert forall|p: int| 0 <= p < pool@.len() implies !(unseen(touhous@[#[trigger] pool@[p] as int]) && !picks@[p]) by {
                    assert(candidates@.len() == 0);
                    assert(!candidates@.contains(p as usize));
                    assert(p < pool_len);
                    assert(p as usize as int == p);
                }
            }
            None
        },
    }
}

/// The pool positions that may face the member at `first`: every other
/// one, in order. The weights of the second draw go over this list, so a
/// character never faces itself.
pub fn second_candidates(pool_len: usize, first: usize) -> (r: Vec<usize>)
    requires
        first < pool_len,
    ensures
        r@.len() == pool_len - 1,
        forall|k: int| 0 <= k < r@.len() ==> (#[trigger] r@[k]) == if k < first { k } else { k + 1 },
        forall|k: int| 0 <= k < r@.len() ==> (#[trigger] r@[k]) != first && r@[k] < pool_len,
{
    let mut out: Vec<usize> = Vec::new();
    let mut p: usize = 0;
    while p < pool_len
        invariant
            first < pool_len,
            p <= pool_len,
            out@.len() == if p <= first { p as int } else { p - 1 },
            forall|k: int| 0 <= k < out@.len() ==> (#[trigger] out@[k]) == if k < first { k } else { k + 1 },
        decreases pool_len - p,
    {
        if p != first {
            out.push(p);
        }
        p = p + 1;
    }
    out
}

/// Whether a character is a decimal digit.
pub open spec fn is_digit(c: char) -> bool {
    '0' <= c <= '9'
}

/// The number that a run of decimal digits writes.
pub open spec fn digits_value(t: Seq<char>) -> nat
    decreases t.len(),
{
    if t.len() == 0 {
        0
    } else {
        10 * digits_value(t.drop_last()) + (t.last() as nat - '0' as nat) as nat
    }
}

/// The digits of a count: the token without a leading `+`.
pub open spec fn count_digits(t: Seq<char>) -> Seq<char> {
    if t.len() > 0 && t[0] == '+' {
        t.skip(1)
    } else {
        t
    }
}

/// The count that a token writes: one or more decimal digits, after an
/// optional `+`, whose value fits in `usize`.
pub open spec fn count_of(t: Seq<char>) -> Option<usize> {
    let d = count_digits(t);
    if d.len() > 0 && (forall|k: int| 0 <= k < d.len() ==> is_digit(#[trigger] d[k])) && digits_value(d)
        <= usize::MAX {
        Some(digits_value(d) as usize)
    } else {
        None
    }
}

proof fn lemma_digits_grow(t: Seq<char>, k: int)
    requires
        0 <= k <= t.len(),
        forall|j: int| 0 <= j < t.len() ==> is_digit(#[trigger] t[j]),
    ensures
        digits_value(t.take(k)) <= digits_value(t),
    decreases t.len() - k,
{
    if k < t.len() {
        lemma_digits_grow(t, k + 1);
        assert(t.take(k + 1).drop_last() == t.take(k));
    } else {
        assert(t.take(k) == t);
    }
}

/// The count that a token writes, if it writes one.
pub fn read_count(t: &str) -> (r: Option<usize>)
    ensures
        r == count_of(t@),
{
    let n = t.unicode_len();
    let start: usize = if n > 0 && t.get_char(0) == '+' {
        1
    } else {
        0
    };
    let ghost d = count_digits(t@);
    proof {
        if start == 1 {
            assert(d =~= t@.subrange(1, n as int));
        } else {
            assert(d =~= t@.subrange(0, n as int));
        }
    }
    if start >= n {
        return None;
    }
    let mut value: usize = 0;
    let mut i: usize = start;
    while i < n
        invariant
            start <= i <= n,
            n == t@.len(),
            d == count_digits(t@),
            d == t@.subrange(start as int, n as int),
            forall|j: int| 0 <= j < i - start ==> is_digit(#[trigger] d[j]),
            value == digits_value(d.take(i - start)),
        decreases n - i,
    {
        let c = t.get_char(i);
        let ghost k = i - start;
        proof {
            assert(d[k] == c);
            assert(d.take(k + 1).drop_last() == d.take(k));
            assert(d.take(k + 1).last() == c);
        }
        if c < '0' || c > '9' {
            assert(!is_digit(d[k]));
            return None;
        }
        let digit = (c as u32 - '0' as u32) as usize;
        proof {
            assert(digit == (c as nat - '0' as nat));
            assert(digits_value(d.take(k + 1)) == 10 * value + digit);
        }
        if value > (usize::MAX - digit) / 10 {
            proof {
                if forall|j: int| 0 <= j < d.len() ==> is_digit(#[trigger] d[j]) {
                    lemma_digits_grow(d, k + 1);
                    assert(10 * value + digit > usize::MAX) by (nonlinear_arith)
                        requires
                            value > (usize::MAX - digit) / 10,
                            digit <= 9,
                    ;
                }
            }
            return None;
        }
        proof {
            assert(10 * value + digit <= usize::MAX) by (nonlinear_arith)
                requires
                    value <= (usize::MAX - digit) / 10,
                    digit <= 9,
            ;
        }
        value = 10 * value + digit;
        i = i + 1;
    }
    assert(d.take(n - start) == d);
    Some(value)
}

/// Whether a token of the list command asks for a filter: it names a
/// group, or speaks of PC-98 duplicates, non-girls or nameless characters.
pub open spec fn asks_filter(t: Seq<char>) -> bool {
    token_tag(t) is Some || has_sub(unsigned(t), "pc98"@) || has_sub(unsigned(t), "notgirl"@) || has_sub(
        unsigned(t),
        "nameless"@,
    )
}

/// What the arguments of the list command ask for: how many entries (the
/// last count given, 25 without one), the filter tokens, and the name
/// tokens, each of these followed by a space.
pub open spec fn list_args_of(ts: Seq<Seq<char>>) -> (usize, Seq<char>, Seq<char>)
    decreases ts.len(),
{
    if ts.len() == 0 {
        (25, Seq::empty(), Seq::empty())
    } else {
        let (count, tags, names) = list_args_of(ts.drop_last());
        let t = ts.last();
        match count_of(t) {
            Some(c) => (c, tags, names),
            None => if asks_filter(t) {
                (count, tags + t + seq![' '], names)
            } else {
                (count, tags, names + t + seq![' '])
            },
        }
    }
}

/// Reads the arguments of the list command: the words after the command,
/// separated by single spaces.
pub fn list_args(line: &str) -> (r: (usize, String, String))
    ensures
        ({
            let ts = split_on(trim_of(line@), ' ');
            let want = list_args_of(ts.skip(1));
            r.0 == want.0 && r.1@ == want.1 && r.2@ == want.2
        }),
{
    let tokens = split_by(trimmed(line), ' ');
    let ghost ts = split_on(trim_of(line@), ' ');
    proof {
        crate::text::lemma_split_nonempty(trim_of(line@), ' ');
    }
    let mut count: usize = 25;
    let mut tags = String::new();
    let mut names = String::new();
    let mut i: usize = 1;
    proof {
        assert(ts.skip(1).take(0) =~= Seq::<Seq<char>>::empty());
    }
    while i < tokens.len()
        invariant
            tokens@.map_values(|t: &str| t@) == ts,
            1 <= i <= tokens@.len(),
            ({
                let want = list_args_of(ts.skip(1).take(i - 1));
                count == want.0 && tags@ == want.1 && names@ == want.2
            }),
        decreases tokens@.len() - i,
    {
        let token = tokens[i];
        proof {
            let pre = ts.skip(1).take(i - 1);
            let post = ts.skip(1).take(i as int);
            assert(post.drop_last() == pre);
            assert(post.last() == token@);
        }
        match read_count(token) {
            Some(c) => {
                count = c;
            },
            None => {
                let n = token.unicode_len();
                let rest = if n > 0 && token.get_char(0) == '-' {
                    token.substring_char(1, n)
                } else {
                    token
                };
                proof {
                    assert(rest@ == unsigned(token@));
                }
                let filter = tag_of_token(token).is_some() || contains_text(rest, "pc98") || contains_text(
                    rest,
                    "notgirl",
                ) || contains_text(rest, "nameless");
                if filter {
                    tags.append(token);
                    tags.append(" ");
                } else {
                    names.append(token);
                    names.append(" ");
                }
                proof {
                    reveal_strlit(" ");
                }
            },
        }
        i = i + 1;
    }
    assert(ts.skip(1).take(i - 1) == ts.skip(1));
    (count, tags, names)
}

} // verus!
