// Ranks within groups, and the filters that make the groups.

use vstd::prelude::*;
use crate::chara::{Chara, hidden};
use crate::groups::{Tags, is_stage};

verus! {

/// The characters that a pool of references points to.
pub open spec fn members(pool: Seq<&Chara>) -> Seq<Chara> {
    pool.map_values(|c: &Chara| *c)
}

/// How many shown characters of a pool are rated strictly above a key.
pub open spec fn count_above(pool: Seq<Chara>, key: u64) -> nat
    decreases pool.len(),
{
    if pool.len() == 0 {
        0
    } else {
        count_above(pool.drop_last(), key) + if !hidden(pool.last()) && pool.last().rank.rate > key {
            1nat
        } else {
            0nat
        }
    }
}

/// How many characters of a pool are shown in rankings.
pub open spec fn count_shown(pool: Seq<Chara>) -> nat
    decreases pool.len(),
{
    if pool.len() == 0 {
        0
    } else {
        count_shown(pool.drop_last()) + if !hidden(pool.last()) {
            1nat
        } else {
            0nat
        }
    }
}

/// The rank that a rating key has in a pool: one more than the number of
/// shown characters rated strictly above it, so that ties share a rank.
pub open spec fn rank_in(pool: Seq<Chara>, key: u64) -> nat {
    1 + count_above(pool, key)
}

pub proof fn lemma_counts_bounded(pool: Seq<Chara>, key: u64)
    ensures
        count_above(pool, key) <= count_shown(pool),
        count_shown(pool) <= pool.len(),
    decreases pool.len(),
{
    if pool.len() > 0 {
        lemma_counts_bounded(pool.drop_last(), key);
    }
}

/// The rank of a character among the shown characters of a pool, and how
/// many characters are shown.
pub fn rank_in_group(touhou: &Chara, pool: &Vec<&Chara>) -> (r: (usize, usize))
    requires
        pool@.len() < usize::MAX,
    ensures
        r.0 == rank_in(members(pool@), touhou.rank.rate),
        r.1 == count_shown(members(pool@)),
{
    let mut rank: usize = 1;
    let mut total: usize = 0;
    let benchmark = touhou.rank.rate;
    let mut i: usize = 0;
    while i < pool.len()
        invariant
            i <= pool@.len() < usize::MAX,
            benchmark == touhou.rank.rate,
            rank == 1 + count_above(members(pool@).take(i as int), benchmark),
            total == count_shown(members(pool@).take(i as int)),
        decreases pool@.len() - i,
    {
        proof {
            let s = members(pool@);
            assert(s.take(i + 1).drop_last() == s.take(i as int));
            lemma_counts_bounded(s.take(i as int), benchmark);
        }
        let th: &Chara = pool[i];
        if !th.dont_know() {
            total = total + 1;
            if th.rank.rate > benchmark {
                rank = rank + 1;
            }
        }
        i = i + 1;
    }
    assert(members(pool@).take(i as int) == members(pool@));
    (rank, total)
}

/// Whether a character passes the tags of one family (works, or stages):
/// it carries one of the family's inclusive tags, if there is any, and none
/// of its exclusive ones.
pub open spec fn passes_family(c: Chara, tags: Seq<(Tags, bool)>, stage: bool) -> bool {
    &&& ((forall|k: int| 0 <= k < tags.len() && is_stage(tags[k].0) == stage ==> !tags[k].1)
        || (exists|k: int|
        0 <= k < tags.len() && is_stage(tags[k].0) == stage && tags[k].1 && c.groups@.contains(
            tags[k].0,
        )))
    &&& forall|k: int|
        0 <= k < tags.len() && is_stage(tags[k].0) == stage && !tags[k].1
            ==> !c.groups@.contains(tags[k].0)
}

/// Whether a character passes a filter: it passes both families.
pub open spec fn passes_filter(c: Chara, tags: Seq<(Tags, bool)>) -> bool {
    passes_family(c, tags, false) && passes_family(c, tags, true)
}

/// The positions, among the first `n` of a pool, of the characters that pass
/// a filter, in increasing order.
pub open spec fn passing(pool: Seq<Chara>, tags: Seq<(Tags, bool)>, n: int) -> Seq<usize>
    decreases n,
{
    if n <= 0 {
        Seq::empty()
    } else if passes_filter(pool[n - 1], tags) {
        passing(pool, tags, n - 1).push((n - 1) as usize)
    } else {
        passing(pool, tags, n - 1)
    }
}

/// Whether a character passes a filter.
pub fn passes(th: &Chara, tags: &Vec<(Tags, bool)>) -> (r: bool)
    ensures
        r == passes_filter(*th, tags@),
{
    let mut incl = [false, false];
    let mut hit = [false, false];
    let mut excl = [false, false];
    let mut i: usize = 0;
    while i < tags.len()
        invariant
            i <= tags@.len(),
            forall|f: int|
                0 <= f < 2 ==> (incl[f] <==> exists|k: int|
                    0 <= k < i && is_stage(#[trigger] tags@[k].0) == (f == 1) && tags@[k].1),
            forall|f: int|
                0 <= f < 2 ==> (hit[f] <==> exists|k: int|
                    0 <= k < i && is_stage(#[trigger] tags@[k].0) == (f == 1) && tags@[k].1
                        && th.groups@.contains(tags@[k].0)),
            forall|f: int|
                0 <= f < 2 ==> (excl[f] <==> exists|k: int|
                    0 <= k < i && is_stage(#[trigger] tags@[k].0) == (f == 1) && !tags@[k].1
                        && th.groups@.contains(tags@[k].0)),
        decreases tags@.len() - i,
    {
        let (tag, inclusive) = tags[i];
        let f: usize = if tag.is_series_tag() {
            0
        } else {
            1
        };
        let has = th.has_tag(&tag);
        if inclusive {
            incl[f] = true;
            if has {
                hit[f] = true;
            }
        } else if has {
            excl[f] = true;
        }
        i = i + 1;
    }
    let r = (!incl[0] || hit[0]) && !excl[0] && (!incl[1] || hit[1]) && !excl[1];
    proof {
        assert(incl[0] == incl@[0]);
        if r != passes_filter(*th, tags@) {
            if !incl[0] {
                assert forall|k: int|
                    0 <= k < tags@.len() && is_stage(tags@[k].0) == false implies !tags@[k].1 by {
                    if tags@[k].1 {
                        assert(is_stage(tags@[k].0) == (0int == 1));
                    }
                }
            }
            if !incl[1] {
                assert forall|k: int|
                    0 <= k < tags@.len() && is_stage(tags@[k].0) == true implies !tags@[k].1 by {
                    if tags@[k].1 {
                        assert(is_stage(tags@[k].0) == (1int == 1));
                    }
                }
            }
            assert(false);
        }
    }
    r
}

/// The positions in a pool of the characters that pass a filter, in order.
pub fn filter_group_mut(tags: Vec<(Tags, bool)>, pool: &Vec<Chara>) -> (r: Vec<usize>)
    ensures
        r@ == passing(pool@, tags@, pool@.len() as int),
{
    let mut indices: Vec<usize> = Vec::new();
    let mut id: usize = 0;
    while id < pool.len()
        invariant
            id <= pool@.len(),
            indices@ == passing(pool@, tags@, id as int),
        decreases pool@.len() - id,
    {
        if passes(&pool[id], &tags) {
            indices.push(id);
        }
        id = id + 1;
    }
    indices
}

/// The characters of a pool that pass a filter, in order.
pub fn filter_group<'a>(tags: Vec<(Tags, bool)>, pool: &'a Vec<Chara>) -> (r: Vec<&'a Chara>)
    ensures
        members(r@) == passing(pool@, tags@, pool@.len() as int).map_values(
            |i: usize| pool@[i as int],
        ),
{
    let ghost idx = passing(pool@, tags@, pool@.len() as int);
    let indices = filter_group_mut(tags, pool);
    let _ = pool.len();
    proof {
        lemma_passing_in_bounds(pool@, tags@, pool@.len() as int);
    }
    let mut filtered: Vec<&Chara> = Vec::new();
    let mut k: usize = 0;
    while k < indices.len()
        invariant
            indices@ == idx,
            k <= idx.len(),
            forall|j: int| 0 <= j < idx.len() ==> idx[j] < pool@.len(),
            filtered@.len() == k,
            forall|j: int| 0 <= j < k ==> *filtered@[j] == pool@[idx[j] as int],
        decreases idx.len() - k,
    {
        filtered.push(&pool[indices[k]]);
        k = k + 1;
    }
    assert(members(filtered@) =~= idx.map_values(|i: usize| pool@[i as int]));
    filtered
}

pub proof fn lemma_passing_in_bounds(pool: Seq<Chara>, tags: Seq<(Tags, bool)>, n: int)
    requires
        n <= pool.len(),
        n <= usize::MAX,
    ensures
        forall|j: int| 0 <= j < passing(pool, tags, n).len() ==> passing(pool, tags, n)[j] < n,
    decreases n,
{
    if n > 0 {
        lemma_passing_in_bounds(pool, tags, n - 1);
        let prev = passing(pool, tags, n - 1);
        assert(((n - 1) as usize) as int == n - 1);
        if passes_filter(pool[n - 1], tags) {
            let cur = prev.push((n - 1) as usize);
            assert forall|j: int| 0 <= j < cur.len() implies #[trigger] cur[j] < n by {
                if j < prev.len() {
                    assert(prev[j] < n - 1);
                }
            }
        }
    }
}

/// Whether the character at position `i` of a pool ranks before the one at
/// `j`: it is rated higher, or as high and stands earlier in the pool.
pub open spec fn precedes(pool: Seq<Chara>, i: int, j: int) -> bool {
    pool[i].rank.rate > pool[j].rank.rate || (pool[i].rank.rate == pool[j].rank.rate && i < j)
}

/// A ranking of a pool: the positions of all its shown characters, each
/// once, best first, characters rated alike in the order of the pool.
pub open spec fn is_ranking(pool: Seq<Chara>, order: Seq<usize>) -> bool {
    &&& forall|k: int|
        0 <= k < order.len() ==> (#[trigger] order[k]) < pool.len() && !hidden(pool[order[k] as int])
    &&& forall|i: int|
        0 <= i < pool.len() && !hidden(#[trigger] pool[i]) ==> exists|k: int|
            0 <= k < order.len() && order[k] == i
    &&& forall|a: int, b: int|
        0 <= a < b < order.len() ==> precedes(pool, #[trigger] order[a] as int, #[trigger] order[b] as int)
}

/// A pool has one ranking only: any two rankings of it are the same list.
pub proof fn lemma_ranking_unique(pool: Seq<Chara>, o1: Seq<usize>, o2: Seq<usize>)
    requires
        is_ranking(pool, o1),
        is_ranking(pool, o2),
    ensures
        o1 == o2,
{
    let n = if o1.len() < o2.len() { o1.len() } else { o2.len() };
    assert forall|k: int| 0 <= k < n implies o1[k] == o2[k] by {
        lemma_ranking_prefix(pool, o1, o2, k);
    }
    if o1.len() != o2.len() {
        if o1.len() > o2.len() {
            lemma_longer_ranking(pool, o2, o1);
        } else {
            lemma_longer_ranking(pool, o1, o2);
        }
    }
    assert(o1 =~= o2);
}

proof fn lemma_ranking_prefix(pool: Seq<Chara>, o1: Seq<usize>, o2: Seq<usize>, k: int)
    requires
        is_ranking(pool, o1),
        is_ranking(pool, o2),
        0 <= k < o1.len(),
        k < o2.len(),
    ensures
        o1[k] == o2[k],
    decreases k,
{
    assert forall|j: int| 0 <= j < k implies o1[j] == o2[j] by {
        lemma_ranking_prefix(pool, o1, o2, j);
    }
    let x = o1[k];
    let y = o2[k];
    if x != y {
        assert(!hidden(pool[x as int]));
        let p = choose|p: int| 0 <= p < o2.len() && o2[p] == x;
        assert(!hidden(pool[y as int]));
        let q = choose|q: int| 0 <= q < o1.len() && o1[q] == y;
        if p < k {
            assert(o1[p] == o2[p]);
            assert(precedes(pool, o1[p] as int, o1[k] as int));
        }
        if q < k {
            assert(o2[q] == o1[q]);
            assert(precedes(pool, o2[q] as int, o2[k] as int));
        }
        assert(p > k && q > k);
        assert(precedes(pool, o2[k] as int, o2[p] as int));
        assert(precedes(pool, o1[k] as int, o1[q] as int));
    }
}

proof fn lemma_longer_ranking(pool: Seq<Chara>, short: Seq<usize>, long: Seq<usize>)
    requires
        is_ranking(pool, short),
        is_ranking(pool, long),
        short.len() <= long.len(),
        forall|k: int| 0 <= k < short.len() ==> short[k] == long[k],
    ensures
        short.len() == long.len(),
{
    if short.len() < long.len() {
        let m = short.len() as int;
        let x = long[m];
        assert(!hidden(pool[x as int]));
        let p = choose|p: int| 0 <= p < short.len() && short[p] == x;
        assert(long[p] == x);
        assert(precedes(pool, long[p] as int, long[m] as int));
    }
}

/// The ranking of the shown characters of a pool (a stable sort by
/// rating, best first).
pub fn ranking_order(pool: &Vec<&Chara>) -> (r: Vec<usize>)
    ensures
        is_ranking(members(pool@), r@),
{
    let ghost s = members(pool@);
    let mut order: Vec<usize> = Vec::new();
    let mut i: usize = 0;
    while i < pool.len()
        invariant
            s == members(pool@),
            i <= pool@.len(),
            forall|k: int|
                0 <= k < order@.len() ==> (#[trigger] order@[k]) < i && !hidden(s[order@[k] as int]),
            forall|x: int|
                0 <= x < i && !hidden(#[trigger] s[x]) ==> exists|k: int|
                    0 <= k < order@.len() && order@[k] == x,
            forall|a: int, b: int|
                0 <= a < b < order@.len() ==> precedes(s, #[trigger] order@[a] as int, #[trigger] order@[b] as int),
        decreases pool@.len() - i,
    {
        if !pool[i].dont_know() {
            let key = pool[i].rank.rate;
            let mut p: usize = 0;
            while p < order.len() && pool[order[p]].rank.rate >= key
                invariant
                    s == members(pool@),
                    i < pool@.len(),
                    key == s[i as int].rank.rate,
                    p <= order@.len(),
                    forall|k: int| 0 <= k < order@.len() ==> (#[trigger] order@[k]) < i,
                    forall|k: int| 0 <= k < p ==> s[(#[trigger] order@[k]) as int].rank.rate >= key,
                decreases order@.len() - p,
            {
                p = p + 1;
            }
            let ghost old_order = order@;
            proof {
                old_order.insert_ensures(p as int, i);
                if p < old_order.len() {
                    assert(s[old_order[p as int] as int].rank.rate < key);
                    assert forall|k: int| p <= k < old_order.len() implies s[(#[trigger] old_order[k]) as int].rank.rate < key by {
                        if k > p {
                            assert(precedes(s, old_order[p as int] as int, old_order[k] as int));
                        }
                    }
                }
            }
            order.insert(p, i);
            proof {
                let o = order@;
                assert forall|a: int, b: int| 0 <= a < b < o.len() implies precedes(s, #[trigger] o[a] as int, #[trigger] o[b] as int) by {
                    if b < p {
                        assert(o[a] == old_order[a] && o[b] == old_order[b]);
                    } else if b == p {
                        assert(o[a] == old_order[a]);
                    } else if a == p {
                        assert(o[b] == old_order[b - 1]);
                    } else if a < p {
                        assert(o[a] == old_order[a] && o[b] == old_order[b - 1]);
                    } else {
                        assert(o[a] == old_order[a - 1] && o[b] == old_order[b - 1]);
                    }
                }
                assert forall|x: int| 0 <= x < i + 1 && !hidden(#[trigger] s[x]) implies exists|k: int|
                    0 <= k < o.len() && o[k] == x by {
                    if x == i {
                        assert(o[p as int] == x);
                    } else {
                        let k0 = choose|k: int| 0 <= k < old_order.len() && old_order[k] == x;
                        if k0 < p {
                            assert(o[k0] == x);
                        } else {
                            assert(o[k0 + 1] == x);
                        }
                    }
                }
                assert forall|k: int| 0 <= k < o.len() implies (#[trigger] o[k]) < i + 1 && !hidden(s[o[k] as int]) by {
                    if k < p {
                        assert(o[k] == old_order[k]);
                    } else if k > p {
                        assert(o[k] == old_order[k - 1]);
                    }
                }
            }
        }
        i = i + 1;
    }
    order
}

/// Where the slice of three around the character at position `n` of a
/// ranking of `m` starts: the top three for the first, the bottom three
/// for the last, else the neighbours on each side.
pub open spec fn slice_start(m: int, n: int) -> int {
    if n == 0 {
        0
    } else if n == m - 1 {
        m - 3
    } else {
        n - 1
    }
}

/// The part of a ranking that the slice around a character shows: all of
/// it where it holds three or fewer; else the slice of three around the
/// first character in it of the same name, and nothing where there is none.
pub open spec fn slice_of(pool: Seq<Chara>, order: Seq<usize>, name: Seq<char>) -> Seq<usize> {
    if order.len() <= 3 {
        order
    } else if exists|n: int| 0 <= n < order.len() && pool[order[n] as int].name@ == name {
        let n = choose|n: int|
            0 <= n < order.len() && pool[order[n] as int].name@ == name && forall|j: int|
                0 <= j < n ==> pool[order[j] as int].name@ != name;
        order.subrange(slice_start(order.len() as int, n), slice_start(order.len() as int, n) + 3)
    } else {
        Seq::empty()
    }
}

/// The slice of the ranking of a pool around a character (a pool has one
/// ranking only, so the slice is determined).
pub fn rank_slice_by_chara<'a>(chara: &'a Chara, pool: &'a Vec<&'a Chara>) -> (r: Vec<&'a Chara>)
    ensures
        exists|order: Seq<usize>|
            is_ranking(members(pool@), order) && members(r@) == slice_of(
                members(pool@),
                order,
                chara.name@,
            ).map_values(|i: usize| members(pool@)[i as int]),
{
    let ghost s = members(pool@);
    let order = ranking_order(pool);
    let m = order.len();
    let mut start: usize = 0;
    let mut count: usize = 0;
    if m <= 3 {
        count = m;
    } else {
        let mut n: usize = 0;
        let mut found = false;
        while n < m && !found
            invariant
                s == members(pool@),
                m == order@.len(),
                is_ranking(s, order@),
                n <= m,
                found ==> n >= 1 && s[order@[n - 1] as int].name@ == chara.name@,
                forall|j: int| 0 <= j < (if found { n - 1 } else { n as int }) ==> s[order@[j] as int].name@ != chara.name@,
            decreases m - n + if found { 0int } else { 1int },
        {
            if pool[order[n]].name == chara.name {
                found = true;
            }
            n = n + 1;
        }
        if found {
            let at = n - 1;
            start = if at == 0 {
                0
            } else if at == m - 1 {
                m - 3
            } else {
                at - 1
            };
            count = 3;
            proof {
                let w = choose|n: int|
                    0 <= n < order@.len() && s[order@[n] as int].name@ == chara.name@ && forall|j: int|
                        0 <= j < n ==> s[order@[j] as int].name@ != chara.name@;
                assert(0 <= at < order@.len() && s[order@[at as int] as int].name@ == chara.name@);
                if w < at {
                    assert(s[order@[w] as int].name@ != chara.name@);
                }
                if w > at {
                    assert(s[order@[at as int] as int].name@ != chara.name@);
                }
                assert(w == at);
            }
        } else {
            proof {
                assert(!exists|n: int| 0 <= n < order@.len() && s[order@[n] as int].name@ == chara.name@);
            }
        }
    }
    let ghost window = order@.subrange(start as int, start + count);
    proof {
        if m <= 3 {
            assert(window == order@);
        }
    }
    let mut out: Vec<&Chara> = Vec::new();
    let mut k: usize = 0;
    while k < count
        invariant
            s == members(pool@),
            is_ranking(s, order@),
            start + count <= order@.len(),
            m == order@.len(),
            window == order@.subrange(start as int, start + count),
            k <= count,
            out@.len() == k,
            forall|j: int| 0 <= j < k ==> *out@[j] == s[window[j] as int],
        decreases count - k,
    {
        assert(order@[start + k] < s.len());
        out.push(pool[order[start + k]]);
        k = k + 1;
    }
    assert(members(out@) =~= window.map_values(|i: usize| s[i as int]));
    out
}

} // verus!
