// Comparing the ranking with a reference ranking: a weighted rank
// correlation, a generalisation of Spearman's rho that weighs agreement
// near the top of both rankings more. Only the characters that both
// rankings hold are compared.

use vstd::prelude::*;
use crate::text::{same_text, split_by, split_on, trim_of, trimmed};

verus! {

/// `b` to the power `e`.
pub open spec fn power(b: nat, e: nat) -> nat
    decreases e,
{
    if e == 0 {
        1
    } else {
        b * power(b, (e - 1) as nat)
    }
}

/// The sum of `i` to the power `p` for `i` from 1 to `n`.
pub open spec fn kappa(n: nat, p: nat) -> nat
    decreases n,
{
    if n == 0 {
        0
    } else {
        kappa((n - 1) as nat, p) + power(n, p)
    }
}

/// The sum, over pairs of ranks `(r1, r2)` among `n`, of
/// `r2 * (n + 1 - r1)^p + r1 * (n + 1 - r2)^p`.
pub open spec fn cross_sum(list: Seq<(usize, usize)>, n: nat, p: nat) -> int
    decreases list.len(),
{
    if list.len() == 0 {
        0
    } else {
        let (r1, r2) = list.last();
        cross_sum(list.drop_last(), n, p) + r2 * power((n + 1 - r1) as nat, p) + r1 * power(
            (n + 1 - r2) as nat,
            p,
        )
    }
}

/// The numerator of the weighted rank correlation of a list of rank pairs.
pub open spec fn wrc_numerator(list: Seq<(usize, usize)>, p: nat) -> int {
    let n = list.len();
    (n + 1) * kappa(n, p) - cross_sum(list, n, p)
}

/// The denominator of the weighted rank correlation of `n` rank pairs.
pub open spec fn wrc_denominator(n: nat, p: nat) -> int {
    2 * kappa(n, p + 1) - (n + 1) * kappa(n, p)
}

/// Whether every rank of a list of pairs lies between 1 and its length.
pub open spec fn ranks_in_range(list: Seq<(usize, usize)>) -> bool {
    forall|k: int|
        0 <= k < list.len() ==> 1 <= (#[trigger] list[k]).0 <= list.len() && 1 <= list[k].1 <= list.len()
}

/// The size that bounds every quantity of the statistic for `n` pairs.
pub open spec fn wrc_bound(n: nat, p: nat) -> nat {
    n * n * power(n, p)
}

pub proof fn lemma_power_mono(a: nat, b: nat, e: nat)
    requires
        a <= b,
    ensures
        power(a, e) <= power(b, e),
    decreases e,
{
    if e > 0 {
        lemma_power_mono(a, b, (e - 1) as nat);
        let (x, y) = (power(a, (e - 1) as nat), power(b, (e - 1) as nat));
        assert(a * x <= b * y) by (nonlinear_arith)
            requires
                a <= b,
                x <= y,
        ;
    }
}

pub proof fn lemma_kappa_bound(k: nat, n: nat, p: nat)
    requires
        k <= n,
    ensures
        kappa(k, p) <= k * power(n, p),
    decreases k,
{
    if k > 0 {
        lemma_kappa_bound((k - 1) as nat, n, p);
        lemma_power_mono(k, n, p);
        let q = power(n, p);
        assert((k - 1) * q + q == k * q) by (nonlinear_arith);
    }
}

pub proof fn lemma_cross_bound(list: Seq<(usize, usize)>, n: nat, p: nat)
    requires
        forall|k: int| 0 <= k < list.len() ==> 1 <= (#[trigger] list[k]).0 <= n && 1 <= list[k].1 <= n,
    ensures
        0 <= cross_sum(list, n, p) <= list.len() * (2 * n * power(n, p)),
    decreases list.len(),
{
    if list.len() > 0 {
        let (r1, r2) = list.last();
        assert(list[list.len() - 1] == list.last());
        lemma_cross_bound(list.drop_last(), n, p);
        assert forall|k: int| 0 <= k < list.drop_last().len() implies 1 <= (#[trigger] list.drop_last()[k]).0 <= n
            && 1 <= list.drop_last()[k].1 <= n by {
            assert(list.drop_last()[k] == list[k]);
        }
        lemma_power_mono((n + 1 - r1) as nat, n, p);
        lemma_power_mono((n + 1 - r2) as nat, n, p);
        let q = power(n, p);
        let (x, y) = (power((n + 1 - r1) as nat, p), power((n + 1 - r2) as nat, p));
        let m = list.len() - 1;
        let c = cross_sum(list.drop_last(), n, p);
        assert(c + r2 * x + r1 * y <= list.len() * (2 * n * q)) by (nonlinear_arith)
            requires
                0 <= c <= m * (2 * n * q),
                m == list.len() - 1,
                1 <= r1 <= n,
                1 <= r2 <= n,
                x <= q,
                y <= q,
        ;
        assert(0 <= r2 * x + r1 * y) by (nonlinear_arith)
            requires
                r1 >= 0,
                r2 >= 0,
                x >= 0,
                y >= 0,
        ;
    }
}

/// `b` to the power `e`, where that stays below `limit`.
fn power_of(b: u128, e: u32, limit: Ghost<nat>) -> (r: u128)
    requires
        power(b as nat, e as nat) <= limit@,
        limit@ <= u64::MAX,
        b >= 1,
    ensures
        r == power(b as nat, e as nat),
{
    let mut acc: u128 = 1;
    let mut i: u32 = 0;
    while i < e
        invariant
            b >= 1,
            i <= e,
            acc == power(b as nat, i as nat),
            power(b as nat, e as nat) <= limit@ <= u64::MAX,
        decreases e - i,
    {
        proof {
            lemma_power_grows(b as nat, (i + 1) as nat, e as nat);
            assert(power(b as nat, (i + 1) as nat) == b * power(b as nat, i as nat));
        }
        acc = b * acc;
        i = i + 1;
    }
    acc
}

pub proof fn lemma_power_grows(b: nat, e1: nat, e2: nat)
    requires
        b >= 1,
        e1 <= e2,
    ensures
        power(b, e1) <= power(b, e2),
    decreases e2 - e1,
{
    if e1 < e2 {
        lemma_power_grows(b, e1, (e2 - 1) as nat);
        let x = power(b, (e2 - 1) as nat);
        assert(x <= b * x) by (nonlinear_arith)
            requires
                b >= 1,
                x >= 0,
        ;
    }
}

/// The numerator and the denominator of the weighted rank correlation of a
/// list of rank pairs with weighting exponent `p`:
/// `(n+1)·κ(p) − Σ (r2·(n+1−r1)^p + r1·(n+1−r2)^p)` over
/// `2·κ(p+1) − (n+1)·κ(p)`, where `κ(p)` sums `i^p` for `i` from 1 to `n`.
/// With `p` = 1 it is Spearman's rho.
pub fn wrc_terms(list: &Vec<(usize, usize)>, p: u32) -> (r: (i128, i128))
    requires
        ranks_in_range(list@),
        wrc_bound(list@.len(), p as nat) <= u64::MAX,
    ensures
        r.0 == wrc_numerator(list@, p as nat),
        r.1 == wrc_denominator(list@.len(), p as nat),
{
    let n = list.len();
    let ghost nn = n as nat;
    let ghost q = power(nn, p as nat);
    let ghost bound = wrc_bound(nn, p as nat);
    if n == 0 {
        return (0, 0);
    }
    proof {
        assert(q <= bound && nn * q <= bound) by (nonlinear_arith)
            requires
                nn >= 1,
                bound == nn * nn * q,
        ;
        assert(power(nn, (p + 1) as nat) == nn * q);
    }
    // the two sums of powers
    let mut kp: u128 = 0;
    let mut kp1: u128 = 0;
    let mut i: usize = 0;
    while i < n
        invariant
            i <= n,
            n == list@.len(),
            nn == n,
            q == power(nn, p as nat),
            bound == wrc_bound(nn, p as nat),
            bound <= u64::MAX,
            q <= bound,
            nn * q <= bound,
            power(nn, (p + 1) as nat) == nn * q,
            kp == kappa(i as nat, p as nat),
            kp1 == kappa(i as nat, (p + 1) as nat),
            kp <= i * q,
            kp1 <= i * (nn * q),
        decreases n - i,
    {
        let v: u128 = i as u128 + 1;
        proof {
            lemma_power_mono(v as nat, nn, p as nat);
            lemma_power_mono(v as nat, nn, (p + 1) as nat);
            let (x, y) = (power(v as nat, p as nat), power(v as nat, (p + 1) as nat));
            assert(kp + x <= v * q && kp1 + y <= v * (nn * q) && v * q <= bound && v * (nn * q) <= bound) by (nonlinear_arith)
                requires
                    kp <= (v - 1) * q,
                    kp1 <= (v - 1) * (nn * q),
                    x <= q,
                    y <= nn * q,
                    v <= nn,
                    nn * q <= bound,
                    bound == nn * nn * q,
            ;
            assert(y == v * x);
        }
        let x = power_of(v, p, Ghost(bound));
        let y = v * x;
        kp = kp + x;
        kp1 = kp1 + y;
        i = i + 1;
    }
    // the cross sum
    proof {
        assert forall|k: int| 0 <= k < list@.len() implies 1 <= (#[trigger] list@[k]).0 <= nn && 1 <= list@[k].1 <= nn by {}
    }
    let mut cross: u128 = 0;
    let mut k: usize = 0;
    while k < n
        invariant
            n == list@.len(),
            nn == n,
            ranks_in_range(list@),
            q == power(nn, p as nat),
            bound == wrc_bound(nn, p as nat),
            bound <= u64::MAX,
            q <= bound,
            k <= n,
            cross == cross_sum(list@.take(k as int), nn, p as nat),
        decreases n - k,
    {
        let (r1, r2) = list[k];
        let ghost pre = list@.take(k as int);
        proof {
            assert(list@.take(k + 1).drop_last() == pre);
            assert(list@.take(k + 1).last() == list@[k as int]);
            assert forall|j: int| 0 <= j < list@.take(k + 1).len() implies 1 <= (#[trigger] list@.take(k + 1)[j]).0 <= nn
                && 1 <= list@.take(k + 1)[j].1 <= nn by {
                assert(list@.take(k + 1)[j] == list@[j]);
            }
            lemma_cross_bound(list@.take(k + 1), nn, p as nat);
            let t = (k + 1) as nat;
            assert(t * (2 * nn * q) <= 2 * bound) by (nonlinear_arith)
                requires
                    t <= nn,
                    bound == nn * nn * q,
            ;
            lemma_power_mono((nn + 1 - r1) as nat, nn, p as nat);
            lemma_power_mono((nn + 1 - r2) as nat, nn, p as nat);
        }
        let a = power_of(n as u128 + 1 - r1 as u128, p, Ghost(bound));
        let b = power_of(n as u128 + 1 - r2 as u128, p, Ghost(bound));
        proof {
            assert(r2 * a + r1 * b <= 2 * bound) by (nonlinear_arith)
                requires
                    1 <= r1 <= nn,
                    1 <= r2 <= nn,
                    a <= q,
                    b <= q,
                    bound == nn * nn * q,
            ;
        }
        cross = cross + (r2 as u128) * a + (r1 as u128) * b;
        k = k + 1;
    }
    assert(list@.take(n as int) == list@);
    proof {
        assert(kp * (nn + 1) <= 2 * bound && 2 * kp1 <= 2 * bound) by (nonlinear_arith)
            requires
                kp <= nn * q,
                kp1 <= nn * (nn * q),
                bound == nn * nn * q,
                nn >= 1,
        ;
        lemma_cross_bound(list@, nn, p as nat);
    }
    let whole = kp * (n as u128 + 1);
    assert(whole <= 2 * bound && cross <= 2 * bound) by {
        assert(nn * (2 * nn * q) == 2 * bound) by (nonlinear_arith)
            requires
                bound == nn * nn * q,
        ;
    }
    let num = whole as i128 - cross as i128;
    let den = 2 * (kp1 as i128) - whole as i128;
    (num, den)
}

/// Whether `n^2 · n^p` stays within `u64`; it decides whether the statistic
/// can be computed exactly.
pub fn wrc_fits(n: usize, p: u32) -> (r: bool)
    ensures
        r == (wrc_bound(n as nat, p as nat) <= u64::MAX),
{
    let nn = n as u128;
    if n == 0 {
        assert(wrc_bound(0, p as nat) == 0);
        return true;
    }
    proof {
        assert(nn * nn <= u64::MAX * u64::MAX) by (nonlinear_arith)
            requires
                nn <= u64::MAX,
        ;
    }
    let mut acc: u128 = nn * nn;
    if acc > u64::MAX as u128 {
        proof {
            lemma_power_grows(nn as nat, 0, p as nat);
            let y = power(nn as nat, p as nat);
            assert(nn * nn <= nn * nn * y) by (nonlinear_arith)
                requires
                    y >= 1,
            ;
        }
        return false;
    }
    assert(power(nn as nat, 0) == 1);
    let mut i: u32 = 0;
    while i < p
        invariant
            nn == n as nat,
            nn >= 1,
            i <= p,
            acc == nn * nn * power(nn as nat, i as nat),
            acc <= u64::MAX,
        decreases p - i,
    {
        proof {
            assert(acc * nn == nn * nn * power(nn as nat, (i + 1) as nat)) by (nonlinear_arith)
                requires
                    acc == nn * nn * power(nn as nat, i as nat),
                    power(nn as nat, (i + 1) as nat) == nn * power(nn as nat, i as nat),
            ;
            assert(acc * nn <= u64::MAX * u64::MAX) by (nonlinear_arith)
                requires
                    acc <= u64::MAX,
                    nn <= u64::MAX,
            ;
        }
        acc = acc * nn;
        i = i + 1;
        if acc > u64::MAX as u128 {
            proof {
                lemma_power_grows(nn as nat, i as nat, p as nat);
                let (x, y) = (power(nn as nat, i as nat), power(nn as nat, p as nat));
                assert(nn * nn * x <= nn * nn * y) by (nonlinear_arith)
                    requires
                        x <= y,
                ;
            }
            return false;
        }
    }
    true
}

/// The weighted rank correlation of a list of rank pairs, as numerator and
/// denominator; nothing where a rank lies outside 1 to the length of the
/// list, or where the quantities would not stay within `u64`.
pub fn weighted_rank_correlation(list: &Vec<(usize, usize)>, p: u32) -> (r: Option<(i128, i128)>)
    ensures
        r is Some <==> ranks_in_range(list@) && wrc_bound(list@.len(), p as nat) <= u64::MAX,
        r is Some ==> ({
            let (num, den) = r->0;
            num == wrc_numerator(list@, p as nat) && den == wrc_denominator(list@.len(), p as nat)
        }),
{
    let n = list.len();
    let mut k: usize = 0;
    while k < n
        invariant
            n == list@.len(),
            k <= n,
            forall|j: int| 0 <= j < k ==> 1 <= (#[trigger] list@[j]).0 <= n && 1 <= list@[j].1 <= n,
        decreases n - k,
    {
        let (a, b) = list[k];
        if a < 1 || a > n || b < 1 || b > n {
            return None;
        }
        k = k + 1;
    }
    if !wrc_fits(n, p) {
        return None;
    }
    Some(wrc_terms(list, p))
}

/// The position of the first entry of a list that holds a name.
pub open spec fn first_pos(s: Seq<String>, name: Seq<char>) -> Option<int>
    decreases s.len(),
{
    if s.len() == 0 {
        None
    } else {
        match first_pos(s.drop_last(), name) {
            Some(j) => Some(j),
            None => if s.last()@ == name {
                Some(s.len() - 1)
            } else {
                None
            },
        }
    }
}

/// For each name of a ranking that the reference holds, in the ranking's
/// order, its position in the reference.
pub open spec fn matched(ranking: Seq<String>, reference: Seq<String>) -> Seq<int>
    decreases ranking.len(),
{
    if ranking.len() == 0 {
        Seq::empty()
    } else {
        let prev = matched(ranking.drop_last(), reference);
        match first_pos(reference, ranking.last()@) {
            Some(j) => prev.push(j),
            None => prev,
        }
    }
}

/// How many entries of a list lie below a value.
pub open spec fn count_below(s: Seq<int>, v: int) -> nat
    decreases s.len(),
{
    if s.len() == 0 {
        0
    } else {
        count_below(s.drop_last(), v) + if s.last() < v {
            1nat
        } else {
            0nat
        }
    }
}

pub proof fn lemma_count_below_bounded(s: Seq<int>, v: int)
    ensures
        count_below(s, v) <= s.len(),
        (exists|k: int| 0 <= k < s.len() && s[k] == v) ==> count_below(s, v) < s.len(),
    decreases s.len(),
{
    if s.len() > 0 {
        lemma_count_below_bounded(s.drop_last(), v);
        if exists|k: int| 0 <= k < s.len() && s[k] == v {
            let k = choose|k: int| 0 <= k < s.len() && s[k] == v;
            if k < s.len() - 1 {
                assert(s.drop_last()[k] == v);
            }
        }
    }
}

/// The first position of a reference list that holds a name.
fn position_in(reference: &Vec<String>, name: &String) -> (r: Option<usize>)
    ensures
        r is None <==> first_pos(reference@, name@) is None,
        r is Some ==> first_pos(reference@, name@) == Some(r->0 as int),
        r is Some ==> r->0 < reference@.len(),
{
    let mut j: usize = 0;
    while j < reference.len()
        invariant
            j <= reference@.len(),
            first_pos(reference@.take(j as int), name@) is None,
        decreases reference@.len() - j,
    {
        proof {
            assert(reference@.take(j + 1).drop_last() == reference@.take(j as int));
            assert(reference@.take(j + 1).last() == reference@[j as int]);
        }
        if same_text(reference[j].as_str(), name.as_str()) {
            proof {
                assert(reference@.take(j + 1).last() == reference@[j as int]);
                assert(first_pos(reference@.take(j + 1), name@) == Some(j as int));
                lemma_first_pos_prefix(reference@, name@, j + 1);
            }
            return Some(j);
        }
        j = j + 1;
    }
    assert(reference@.take(j as int) == reference@);
    None
}

proof fn lemma_first_pos_prefix(s: Seq<String>, name: Seq<char>, k: int)
    requires
        0 <= k <= s.len(),
        first_pos(s.take(k), name) is Some,
    ensures
        first_pos(s, name) == first_pos(s.take(k), name),
    decreases s.len() - k,
{
    if k < s.len() {
        assert(s.take(k + 1).drop_last() == s.take(k));
        lemma_first_pos_prefix(s, name, k + 1);
    } else {
        assert(s.take(k) == s);
    }
}

/// The rank pairs of the names that a ranking and a reference both hold:
/// for the `k`-th of them in the ranking's order, `k + 1` and one more than
/// the number of them that stand before it in the reference.
pub open spec fn built_pairs(ranking: Seq<String>, reference: Seq<String>) -> Seq<(usize, usize)> {
    let m = matched(ranking, reference);
    Seq::new(m.len(), |k: int| ((k + 1) as usize, (1 + count_below(m, m[k])) as usize))
}

/// The pairs of ranks that compare a ranking with a reference ranking, both
/// given as lists of names, best first: the names that both hold, in the
/// ranking's order, each with its rank among them in the ranking and its
/// rank among them in the reference, so that the ranks close the gaps that
/// the other names leave.
pub fn build(ranking: &Vec<String>, reference: &Vec<String>) -> (r: Vec<(usize, usize)>)
    ensures
        r@ == built_pairs(ranking@, reference@),
        ranks_in_range(r@),
{
    let ghost m = matched(ranking@, reference@);
    let mut found: Vec<usize> = Vec::new();
    let mut i: usize = 0;
    while i < ranking.len()
        invariant
            i <= ranking@.len(),
            found@.len() == matched(ranking@.take(i as int), reference@).len(),
            forall|k: int|
                0 <= k < found@.len() ==> (#[trigger] found@[k]) as int == matched(ranking@.take(i as int), reference@)[k]
                    && found@[k] < reference@.len(),
        decreases ranking@.len() - i,
    {
        proof {
            assert(ranking@.take(i + 1).drop_last() == ranking@.take(i as int));
            assert(ranking@.take(i + 1).last() == ranking@[i as int]);
        }
        let ghost before = found@;
        let ghost prev = matched(ranking@.take(i as int), reference@);
        if let Some(j) = position_in(reference, &ranking[i]) {
            found.push(j);
            proof {
                let cur = matched(ranking@.take(i + 1), reference@);
                assert(cur == prev.push(j as int));
                assert forall|k: int| 0 <= k < found@.len() implies (#[trigger] found@[k]) as int == cur[k]
                    && found@[k] < reference@.len() by {
                    if k < before.len() {
                        assert(found@[k] == before[k]);
                    }
                }
            }
        } else {
            proof {
                assert(matched(ranking@.take(i + 1), reference@) == prev);
            }
        }
        i = i + 1;
    }
    assert(ranking@.take(i as int) == ranking@);
    let n = found.len();
    let mut pairs: Vec<(usize, usize)> = Vec::new();
    let mut k: usize = 0;
    while k < n
        invariant
            n == found@.len() == m.len(),
            forall|j: int| 0 <= j < n ==> (#[trigger] found@[j]) as int == m[j],
            k <= n,
            pairs@.len() == k,
            forall|j: int| 0 <= j < k ==> (#[trigger] pairs@[j]).0 == j + 1 && pairs@[j].1 == 1 + count_below(m, m[j]),
            forall|j: int| 0 <= j < k ==> 1 <= (#[trigger] pairs@[j]).1 <= n,
        decreases n - k,
    {
        let v = found[k];
        let mut below: usize = 0;
        let mut t: usize = 0;
        while t < n
            invariant
                n == found@.len() == m.len(),
                forall|j: int| 0 <= j < n ==> (#[trigger] found@[j]) as int == m[j],
                k < n,
                v as int == m[k as int],
                t <= n,
                below == count_below(m.take(t as int), v as int),
                below <= t,
            decreases n - t,
        {
            proof {
                assert(m.take(t + 1).drop_last() == m.take(t as int));
                assert(m.take(t + 1).last() == m[t as int]);
            }
            if found[t] < v {
                below = below + 1;
            }
            t = t + 1;
        }
        proof {
            assert(m.take(t as int) == m);
            lemma_count_below_bounded(m, v as int);
        }
        pairs.push((k + 1, below + 1));
        k = k + 1;
    }
    assert(pairs@ =~= built_pairs(ranking@, reference@));
    pairs
}

/// The text between the first and the second `.` of a line of a reference
/// ranking (`12. Name`), trimmed; nothing where the line has no `.`.
pub fn reference_name(line: &str) -> (r: Option<String>)
    ensures
        split_on(line@, '.').len() < 2 <==> r is None,
        r is Some ==> r->0@ == trim_of(split_on(line@, '.')[1]),
{
    let parts = split_by(line, '.');
    if parts.len() < 2 {
        return None;
    }
    assert(parts@[1]@ == split_on(line@, '.')[1]);
    Some(String::from_str(trimmed(parts[1])))
}

/// The sum of `f(k)` for `k` from `a` to `b`.
pub open spec fn rsum(f: spec_fn(int) -> int, a: int, b: int) -> int
    decreases b - a + 1,
{
    if a > b {
        0
    } else {
        rsum(f, a, b - 1) + f(b)
    }
}

pub proof fn lemma_rsum_front(f: spec_fn(int) -> int, a: int, b: int)
    requires
        a <= b,
    ensures
        rsum(f, a, b) == f(a) + rsum(f, a + 1, b),
    decreases b - a,
{
    if a < b {
        lemma_rsum_front(f, a, b - 1);
        assert(rsum(f, a, b) == rsum(f, a, b - 1) + f(b));
        assert(rsum(f, a + 1, b) == rsum(f, a + 1, b - 1) + f(b));
    } else {
        assert(rsum(f, a, a - 1) == 0);
        assert(rsum(f, a + 1, a) == 0);
    }
}

pub proof fn lemma_rsum_congr(f: spec_fn(int) -> int, g: spec_fn(int) -> int, a: int, b: int)
    requires
        forall|k: int| a <= k <= b ==> #[trigger] f(k) == g(k),
    ensures
        rsum(f, a, b) == rsum(g, a, b),
    decreases b - a + 1,
{
    if a <= b {
        lemma_rsum_congr(f, g, a, b - 1);
    }
}

pub proof fn lemma_rsum_shift(f: spec_fn(int) -> int, a: int, b: int)
    ensures
        rsum(f, a + 1, b + 1) == rsum(|k: int| f(k + 1), a, b),
    decreases b - a + 1,
{
    if a <= b {
        lemma_rsum_shift(f, a, b - 1);
    }
}

/// A sum read backwards is the same sum.
pub proof fn lemma_rsum_reverse(f: spec_fn(int) -> int, a: int, b: int)
    ensures
        rsum(f, a, b) == rsum(|k: int| f(a + b - k), a, b),
    decreases b - a + 1,
{
    let g = |k: int| f(a + b - k);
    if a < b {
        lemma_rsum_front(f, a, b);
        lemma_rsum_reverse(g, a, b - 1);
        lemma_rsum_congr(|k: int| g(a + (b - 1) - k), |k: int| f(k + 1), a, b - 1);
        lemma_rsum_shift(f, a, b - 1);
        assert(rsum(g, a, b) == rsum(g, a, b - 1) + g(b));
        assert(g(b) == f(a));
        assert(rsum(f, a + 1, b) == rsum(|k: int| f(k + 1), a, b - 1));
    } else if a == b {
        assert(rsum(f, a, a) == rsum(f, a, a - 1) + f(a));
        assert(rsum(g, a, a) == rsum(g, a, a - 1) + g(a));
        assert(rsum(f, a, a - 1) == 0 && rsum(g, a, a - 1) == 0);
    }
}

/// Rank pairs of two identical rankings of `n`.
pub open spec fn identical_ranks(n: nat) -> Seq<(usize, usize)> {
    Seq::new(n, |k: int| ((k + 1) as usize, (k + 1) as usize))
}

proof fn lemma_kappa_rsum(n: nat, p: nat)
    ensures
        kappa(n, p) == rsum(|k: int| power(k as nat, p) as int, 1, n as int),
    decreases n,
{
    if n > 0 {
        lemma_kappa_rsum((n - 1) as nat, p);
    }
}

proof fn lemma_weighted_kappa(big: nat, m: nat, p: nat)
    ensures
        rsum(|k: int| (big + 1 - k) * power(k as nat, p), 1, m as int) == (big + 1) * kappa(m, p) - kappa(m, p + 1),
    decreases m,
{
    if m > 0 {
        lemma_weighted_kappa(big, (m - 1) as nat, p);
        let F = |k: int| (big + 1 - k) * power(k as nat, p);
        assert(rsum(F, 1, m as int) == rsum(F, 1, m - 1) + F(m as int));
        assert((m as int) as nat == m);
        let x = power(m, p);
        assert(F(m as int) == (big + 1 - m) * x);
        assert(power(m, p + 1) == m * x);
        let (k0, k1) = (kappa((m - 1) as nat, p), kappa((m - 1) as nat, p + 1));
        assert((big + 1) * k0 - k1 + (big + 1 - m) * x == (big + 1) * (k0 + x) - (k1 + m * x)) by (nonlinear_arith);
        assert(kappa(m, p) == k0 + x);
        assert(kappa(m, p + 1) == k1 + m * x);
        assert(rsum(F, 1, m - 1) == (big + 1) * k0 - k1);
    } else {
        assert(rsum(|k: int| (big + 1 - k) * power(k as nat, p), 1, 0) == 0);
        assert(kappa(0, p) == 0);
        assert((big + 1) * 0 == 0) by (nonlinear_arith);
    }
}

proof fn lemma_identical_cross(big: nat, m: nat, p: nat)
    requires
        m <= big,
        big <= usize::MAX,
    ensures
        cross_sum(identical_ranks(m), big, p) == 2 * rsum(|k: int| k * power((big + 1 - k) as nat, p), 1, m as int),
    decreases m,
{
    if m > 0 {
        assert(identical_ranks(m).drop_last() =~= identical_ranks((m - 1) as nat));
        lemma_identical_cross(big, (m - 1) as nat, p);
        let last = identical_ranks(m).last();
        assert(last == (m as usize, m as usize));
        assert(m as usize as int == m);
    }
}

proof fn lemma_denominator_grows(n: nat, p: nat)
    requires
        n >= 1,
        p >= 1,
    ensures
        wrc_denominator(n + 1, p) > wrc_denominator(n, p),
{
    let q = power(n + 1, p);
    lemma_kappa_bound(n, n, p);
    lemma_power_strict(n, n + 1, p);
    let x = power(n, p);
    let k0 = kappa(n, p);
    let k1 = kappa(n, p + 1);
    assert(power(n + 1, p + 1) == (n + 1) * q);
    assert(kappa(n + 1, p) == k0 + q);
    assert(kappa(n + 1, p + 1) == k1 + (n + 1) * q);
    assert(2 * (k1 + (n + 1) * q) - (n + 2) * (k0 + q) - (2 * k1 - (n + 1) * k0) == n * q - k0) by (nonlinear_arith);
    assert(n * q - k0 > 0) by (nonlinear_arith)
        requires
            k0 <= n * x,
            x < q,
            n >= 1,
    ;
}

proof fn lemma_power_strict(a: nat, b: nat, e: nat)
    requires
        a < b,
        e >= 1,
    ensures
        power(a, e) < power(b, e),
    decreases e,
{
    if e == 1 {
        assert(power(a, 0) == 1 && power(b, 0) == 1);
        assert(power(a, 1) == a * 1 && power(b, 1) == b * 1);
        assert(a * 1 < b * 1) by (nonlinear_arith)
            requires
                a < b,
        ;
    } else {
        lemma_power_strict(a, b, (e - 1) as nat);
        let (x, y) = (power(a, (e - 1) as nat), power(b, (e - 1) as nat));
        assert(a * x < b * y) by (nonlinear_arith)
            requires
                0 <= a < b,
                0 <= x < y,
        ;
    }
}

proof fn lemma_denominator_positive(n: nat, p: nat)
    requires
        n >= 2,
        p >= 1,
    ensures
        wrc_denominator(n, p) > 0,
    decreases n,
{
    if n == 2 {
        assert(kappa(1, p) == 1) by {
            assert(power(1, p) == 1) by {
                lemma_power_mono(1, 1, p);
                lemma_one_power(p);
            }
            assert(kappa(0, p) == 0);
        }
        assert(kappa(1, p + 1) == 1) by {
            lemma_one_power(p + 1);
            assert(kappa(0, p + 1) == 0);
        }
        assert(wrc_denominator(1, p) == 0);
        lemma_denominator_grows(1, p);
    } else {
        lemma_denominator_positive((n - 1) as nat, p);
        lemma_denominator_grows((n - 1) as nat, p);
    }
}

proof fn lemma_one_power(e: nat)
    ensures
        power(1, e) == 1,
    decreases e,
{
    if e > 0 {
        lemma_one_power((e - 1) as nat);
    }
}

/// Two identical rankings correlate fully: for `n` of at least 2 and a
/// weighting exponent `p` of at least 1, the numerator of the statistic of
/// the pairs `(r, r)` equals its denominator, which is positive, so that
/// the statistic is 1.
pub proof fn lemma_identical_rankings_correlate(n: nat, p: nat)
    requires
        n >= 2,
        p >= 1,
        n <= usize::MAX,
    ensures
        wrc_numerator(identical_ranks(n), p) == wrc_denominator(n, p),
        wrc_denominator(n, p) > 0,
{
    let f = |k: int| k * power((n + 1 - k) as nat, p);
    let g = |k: int| (n + 1 - k) * power(k as nat, p);
    lemma_identical_cross(n, n, p);
    lemma_rsum_reverse(f, 1, n as int);
    lemma_rsum_congr(|k: int| f(1 + n - k), g, 1, n as int);
    lemma_weighted_kappa(n, n, p);
    assert(identical_ranks(n).len() == n);
    lemma_denominator_positive(n, p);
}

/// Whether the names of a list are all different.
pub open spec fn distinct_names(s: Seq<String>) -> bool {
    forall|i: int, j: int| 0 <= i < j < s.len() ==> s[i]@ != s[j]@
}

proof fn lemma_first_pos_sound(s: Seq<String>, x: Seq<char>)
    ensures
        first_pos(s, x) is Some ==> 0 <= first_pos(s, x)->0 < s.len() && s[first_pos(s, x)->0]@ == x,
    decreases s.len(),
{
    if s.len() > 0 {
        lemma_first_pos_sound(s.drop_last(), x);
        if first_pos(s.drop_last(), x) is Some {
            assert(s.drop_last()[first_pos(s.drop_last(), x)->0] == s[first_pos(s.drop_last(), x)->0]);
        }
    }
}

proof fn lemma_first_pos_distinct(s: Seq<String>, i: int)
    requires
        distinct_names(s),
        0 <= i < s.len(),
    ensures
        first_pos(s, s[i]@) == Some(i),
    decreases s.len(),
{
    let t = s.drop_last();
    if i == s.len() - 1 {
        lemma_first_pos_sound(t, s[i]@);
        if first_pos(t, s[i]@) is Some {
            let j = first_pos(t, s[i]@)->0;
            assert(t[j] == s[j]);
        }
    } else {
        assert forall|a: int, b: int| 0 <= a < b < t.len() implies t[a]@ != t[b]@ by {
            assert(t[a] == s[a] && t[b] == s[b]);
        }
        assert(t[i] == s[i]);
        lemma_first_pos_distinct(t, i);
    }
}

proof fn lemma_matched_self(s: Seq<String>, m: int)
    requires
        distinct_names(s),
        0 <= m <= s.len(),
    ensures
        matched(s.take(m), s) == Seq::new(m as nat, |k: int| k),
    decreases m,
{
    if m > 0 {
        lemma_matched_self(s, m - 1);
        assert(s.take(m).drop_last() == s.take(m - 1));
        assert(s.take(m).last() == s[m - 1]);
        lemma_first_pos_distinct(s, m - 1);
        assert(matched(s.take(m), s) =~= Seq::new(m as nat, |k: int| k));
    } else {
        assert(matched(s.take(0), s) =~= Seq::new(0, |k: int| k));
    }
}

proof fn lemma_count_below_positions(t: nat, v: int)
    requires
        0 <= v,
    ensures
        count_below(Seq::new(t, |k: int| k), v) == if v < t { v } else { t as int },
    decreases t,
{
    if t > 0 {
        assert(Seq::new(t, |k: int| k).drop_last() =~= Seq::new((t - 1) as nat, |k: int| k));
        lemma_count_below_positions((t - 1) as nat, v);
    }
}

/// A ranking compared with itself correlates fully: where its names are all
/// different and there are at least two of them, the pairs that `build`
/// gives are `(r, r)` for every rank, and for a weighting exponent `p` of
/// at least 1 the numerator of the statistic equals its positive
/// denominator, so that the statistic is 1.
pub proof fn lemma_identical_lists_correlate(names: Seq<String>, p: nat)
    requires
        distinct_names(names),
        2 <= names.len() <= usize::MAX,
        p >= 1,
    ensures
        built_pairs(names, names) == identical_ranks(names.len()),
        wrc_numerator(built_pairs(names, names), p) == wrc_denominator(names.len(), p),
        wrc_denominator(names.len(), p) > 0,
{
    let n = names.len();
    lemma_matched_self(names, n as int);
    assert(names.take(n as int) == names);
    let m = matched(names, names);
    assert forall|k: int| 0 <= k < n implies count_below(m, m[k]) == k by {
        lemma_count_below_positions(n, k);
    }
    assert(built_pairs(names, names) =~= identical_ranks(n));
    lemma_identical_rankings_correlate(n, p);
}

} // verus!
