// Characters: their ratings, records and recent battles.

use vstd::prelude::*;
use std::collections::VecDeque;
use crate::groups::Tags;
use crate::stats::{rank_in, rank_in_group, members};
use crate::text::same_text;
use fuzzy_matcher::FuzzyMatcher;
use fuzzy_matcher::skim::SkimMatcherV2;

verus! {

/// How many rating periods, and how many battles, a character remembers.
pub const MAX_HISTORY_SESS: usize = 7;

/// The order key of the rating 1500, that every character starts from.
pub const START_RATE: u64 = 13877683922067783680;

/// The order key of the deviation 350, that every character starts from.
pub const START_DEVI: u64 = 13868236918161932288;

/// The order key of the volatility 0.06, that every character starts from.
pub const START_VOLA: u64 = 13812179769175121592;

/// Glicko-2 rating quantities, each held as an order key: a `u64` that the
/// application obtains from the binary64 value by an order-preserving
/// bijection, so that comparing keys compares the values themselves and the
/// value can always be recovered from its key.
#[derive(Clone, Copy, Debug, PartialEq, Eq, Structural)]
pub struct Glicko {
    pub rate: u64,
    pub devi: u64,
    pub vola: u64,
}

/// The result of a battle, from the side of the left character.
#[derive(Clone, Copy, Debug, PartialEq, Eq, Structural)]
pub enum Outcome {
    /// The left character won.
    LeftWins,
    /// The right character won.
    RightWins,
    /// A draw.
    Draw,
    /// Both were disliked: a loss for both, scored a quarter each.
    BothDisliked,
    /// A code that none of the above stands for; it counts for nothing.
    Unknown,
}

/// A battle between the characters at two positions of the roster.
#[derive(Clone, Copy, Debug, PartialEq, Eq, Structural)]
pub struct Match {
    pub one: usize,
    pub two: usize,
    pub res: Outcome,
}

/// A character's past records.
#[derive(Clone, Debug)]
pub struct Past {
    pub wins: usize,
    pub loss: usize,
    pub draw: usize,
    /// Ratings at the last rating periods, newest first.
    pub old_rate: VecDeque<u64>,
    /// Ranks at the last rating periods, newest first.
    pub old_rank: VecDeque<usize>,
    /// The best rating once there was enough history, and when.
    pub peak_rate: Option<(u64, String)>,
    /// The best rank once there was enough history, and when.
    pub peak_rank: Option<(usize, String)>,
}

/// A character of the roster.
#[derive(Clone, Debug)]
pub struct Chara {
    pub name: String,
    pub rank: Glicko,
    pub hist: Past,
    /// Recent battles, newest first.
    pub recent: VecDeque<Match>,
    pub groups: Vec<Tags>,
    /// PC-98 duplicate, nameless, not a girl, hidden from the rankings.
    pub flags: [bool; 4],
}

/// Whether a character is hidden from the rankings.
pub open spec fn hidden(c: Chara) -> bool {
    c.flags[3]
}

/// The history of a character that has none.
pub open spec fn fresh_past(p: Past) -> bool {
    &&& p.wins == 0
    &&& p.loss == 0
    &&& p.draw == 0
    &&& p.old_rate@.len() == 0
    &&& p.old_rank@.len() == 0
    &&& p.peak_rate is None
    &&& p.peak_rank is None
}

impl Chara {
    pub fn is_pc98(&self) -> (r: bool)
        ensures
            r == self.flags[0],
    {
        self.flags[0]
    }

    pub fn is_nameless(&self) -> (r: bool)
        ensures
            r == self.flags[1],
    {
        self.flags[1]
    }

    pub fn is_not_girl(&self) -> (r: bool)
        ensures
            r == self.flags[2],
    {
        self.flags[2]
    }

    /// Characters marked "don't know" are hidden in rankings.
    pub fn dont_know(&self) -> (r: bool)
        ensures
            r == hidden(*self),
    {
        self.flags[3]
    }

    pub fn toggle_dont_know(&mut self)
        ensures
            final(self).flags[3] == !old(self).flags[3],
            final(self).flags[0] == old(self).flags[0],
            final(self).flags[1] == old(self).flags[1],
            final(self).flags[2] == old(self).flags[2],
            final(self).name == old(self).name,
            final(self).rank == old(self).rank,
            final(self).hist == old(self).hist,
            final(self).recent == old(self).recent,
            final(self).groups == old(self).groups,
    {
        let h = !self.flags[3];
        self.flags[3] = h;
    }

    /// Whether the character belongs to a group.
    pub fn has_tag(&self, tag: &Tags) -> (r: bool)
        ensures
            r == self.groups@.contains(*tag),
    {
        let mut i: usize = 0;
        while i < self.groups.len()
            invariant
                i <= self.groups@.len(),
                forall|k: int| 0 <= k < i ==> self.groups@[k] != *tag,
            decreases self.groups@.len() - i,
        {
            if self.groups[i] == *tag {
                return true;
            }
            i = i + 1;
        }
        false
    }
}

/// An empty history.
pub fn empty_past() -> (r: Past)
    ensures
        fresh_past(r),
{
    Past {
        wins: 0,
        loss: 0,
        draw: 0,
        old_rate: VecDeque::with_capacity(MAX_HISTORY_SESS),
        old_rank: VecDeque::with_capacity(MAX_HISTORY_SESS),
        peak_rate: None,
        peak_rank: None,
    }
}

/// Resets a character's rating, records and recent battles; its name,
/// groups and flags stay.
pub fn reset(chara: &mut Chara)
    ensures
        final(chara).rank == (Glicko { rate: START_RATE, devi: START_DEVI, vola: START_VOLA }),
        fresh_past(final(chara).hist),
        final(chara).recent@.len() == 0,
        final(chara).name == old(chara).name,
        final(chara).groups == old(chara).groups,
        final(chara).flags == old(chara).flags,
{
    chara.rank = Glicko { rate: START_RATE, devi: START_DEVI, vola: START_VOLA };
    chara.hist = empty_past();
    chara.recent = VecDeque::with_capacity(MAX_HISTORY_SESS);
}

/// A window after a new entry comes in at the front: the oldest entries
/// leave so that it holds at most `MAX_HISTORY_SESS`.
pub open spec fn push_window<T>(w: Seq<T>, x: T) -> Seq<T> {
    seq![x] + if w.len() >= MAX_HISTORY_SESS {
        w.take(MAX_HISTORY_SESS - 1)
    } else {
        w
    }
}

/// The peak rank after a period ends at `rank`: a better (smaller) rank,
/// or the first one, replaces it.
pub open spec fn next_peak_rank(p: Option<(usize, String)>, rank: usize, today: String) -> Option<
    (usize, String),
> {
    match p {
        Some((best, _)) if best <= rank => p,
        _ => Some((rank, today)),
    }
}

/// The peak rating after a period ends at `rate`: a higher rating, or the
/// first one, replaces it.
pub open spec fn next_peak_rate(p: Option<(u64, String)>, rate: u64, today: String) -> Option<
    (u64, String),
> {
    match p {
        Some((best, _)) if best >= rate => p,
        _ => Some((rate, today)),
    }
}

/// How a history records the end of a period at a rank and a rating: both
/// enter their windows, and once the window of ranks holds five periods the
/// peaks follow.
pub open spec fn period_recorded(before: Past, after: Past, rank: usize, rate: u64, today: String) -> bool {
    &&& after.old_rank@ == push_window(before.old_rank@, rank)
    &&& after.old_rate@ == push_window(before.old_rate@, rate)
    &&& if after.old_rank@.len() >= 5 {
        &&& after.peak_rank == next_peak_rank(before.peak_rank, rank, today)
        &&& after.peak_rate == next_peak_rate(before.peak_rate, rate, today)
    } else {
        &&& after.peak_rank == before.peak_rank
        &&& after.peak_rate == before.peak_rate
    }
    &&& after.wins == before.wins
    &&& after.loss == before.loss
    &&& after.draw == before.draw
}

/// Whether a battle involves the character at position `i`.
pub open spec fn involves(m: Match, i: int) -> bool {
    m.one == i || m.two == i
}

/// A win that a battle gives to the character at position `i`.
pub open spec fn win_from(m: Match, i: int) -> nat {
    if (m.res is LeftWins && m.one == i) || (m.res is RightWins && m.two == i) {
        1
    } else {
        0
    }
}

/// A loss that a battle gives to the character at position `i`; both sides
/// of a battle where both were disliked lose.
pub open spec fn loss_from(m: Match, i: int) -> nat {
    if (m.res is LeftWins && m.two == i) || (m.res is RightWins && m.one == i) || (m.res is BothDisliked
        && involves(m, i)) {
        1
    } else {
        0
    }
}

/// A draw that a battle gives to the character at position `i`.
pub open spec fn draw_from(m: Match, i: int) -> nat {
    if m.res is Draw && involves(m, i) {
        1
    } else {
        0
    }
}

pub open spec fn wins_in(ms: Seq<Match>, i: int) -> nat
    decreases ms.len(),
{
    if ms.len() == 0 {
        0
    } else {
        wins_in(ms.drop_last(), i) + win_from(ms.last(), i)
    }
}

pub open spec fn losses_in(ms: Seq<Match>, i: int) -> nat
    decreases ms.len(),
{
    if ms.len() == 0 {
        0
    } else {
        losses_in(ms.drop_last(), i) + loss_from(ms.last(), i)
    }
}

pub open spec fn draws_in(ms: Seq<Match>, i: int) -> nat
    decreases ms.len(),
{
    if ms.len() == 0 {
        0
    } else {
        draws_in(ms.drop_last(), i) + draw_from(ms.last(), i)
    }
}

/// How many battles carry an outcome code that stands for nothing.
pub open spec fn unknown_in(ms: Seq<Match>) -> nat
    decreases ms.len(),
{
    if ms.len() == 0 {
        0
    } else {
        unknown_in(ms.drop_last()) + if ms.last().res is Unknown {
            1nat
        } else {
            0nat
        }
    }
}

/// The window of recent battles of the character at position `i` after a
/// list of battles: each one that involves it enters at the front.
pub open spec fn recent_after(w: Seq<Match>, ms: Seq<Match>, i: int) -> Seq<Match>
    decreases ms.len(),
{
    if ms.len() == 0 {
        w
    } else if involves(ms.last(), i) {
        push_window(recent_after(w, ms.drop_last(), i), ms.last())
    } else {
        recent_after(w, ms.drop_last(), i)
    }
}

pub proof fn lemma_tallies_bounded(ms: Seq<Match>, i: int)
    ensures
        wins_in(ms, i) <= ms.len(),
        losses_in(ms, i) <= ms.len(),
        draws_in(ms, i) <= ms.len(),
        unknown_in(ms) <= ms.len(),
    decreases ms.len(),
{
    if ms.len() > 0 {
        lemma_tallies_bounded(ms.drop_last(), i);
    }
}

/// Puts an entry at the front of a window, first letting the oldest go
/// until fewer than `MAX_HISTORY_SESS` remain.
pub fn push_capped<T>(w: &mut VecDeque<T>, x: T)
    ensures
        final(w)@ == push_window(old(w)@, x),
{
    let ghost start = w@;
    while w.len() >= MAX_HISTORY_SESS
        invariant
            w@ == start.take(w@.len() as int),
            w@.len() <= start.len(),
            start.len() >= MAX_HISTORY_SESS ==> w@.len() >= MAX_HISTORY_SESS - 1,
            start.len() < MAX_HISTORY_SESS ==> w@ == start,
        decreases w@.len(),
    {
        let ghost before = w@;
        let _ = w.pop_back();
        assert(w@ == before.drop_last());
        assert(w@ == start.take(w@.len() as int));
    }
    w.push_front(x);
    assert(final(w)@ =~= push_window(start, x)) by {
        if start.len() >= MAX_HISTORY_SESS {
            assert(w@.drop_first() == start.take(MAX_HISTORY_SESS - 1));
        }
    }
}

/// Records the end of a period in a history.
fn record_period(hist: &mut Past, rank: usize, rate: u64, today: &String)
    ensures
        period_recorded(*old(hist), *final(hist), rank, rate, *today),
{
    push_capped(&mut hist.old_rank, rank);
    push_capped(&mut hist.old_rate, rate);
    if hist.old_rank.len() >= 5 {
        let better_rank = match &hist.peak_rank {
            Some(p) => p.0 > rank,
            None => true,
        };
        if better_rank {
            hist.peak_rank = Some((rank, today.clone()));
        }
        let better_rate = match &hist.peak_rate {
            Some(p) => p.0 < rate,
            None => true,
        };
        if better_rate {
            hist.peak_rate = Some((rate, today.clone()));
        }
    }
}

/// Counts one battle for the character at position `me`.
fn tally(c: &mut Chara, m: Match, me: usize)
    requires
        involves(m, me as int),
        m.one != m.two,
        old(c).hist.wins + 1 <= usize::MAX,
        old(c).hist.loss + 1 <= usize::MAX,
        old(c).hist.draw + 1 <= usize::MAX,
    ensures
        final(c).hist.wins == old(c).hist.wins + win_from(m, me as int),
        final(c).hist.loss == old(c).hist.loss + loss_from(m, me as int),
        final(c).hist.draw == old(c).hist.draw + draw_from(m, me as int),
        final(c).recent@ == push_window(old(c).recent@, m),
        final(c).hist.old_rank == old(c).hist.old_rank,
        final(c).hist.old_rate == old(c).hist.old_rate,
        final(c).hist.peak_rank == old(c).hist.peak_rank,
        final(c).hist.peak_rate == old(c).hist.peak_rate,
        final(c).name == old(c).name,
        final(c).rank == old(c).rank,
        final(c).groups == old(c).groups,
        final(c).flags == old(c).flags,
{
    let left = m.one == me;
    match m.res {
        Outcome::LeftWins => {
            if left {
                c.hist.wins = c.hist.wins + 1;
            } else {
                c.hist.loss = c.hist.loss + 1;
            }
        },
        Outcome::RightWins => {
            if left {
                c.hist.loss = c.hist.loss + 1;
            } else {
                c.hist.wins = c.hist.wins + 1;
            }
        },
        Outcome::Draw => {
            c.hist.draw = c.hist.draw + 1;
        },
        Outcome::BothDisliked => {
            c.hist.loss = c.hist.loss + 1;
        },
        Outcome::Unknown => {},
    }
    push_capped(&mut c.recent, m);
}

/// Whether every battle of a list is between two distinct positions of a
/// roster of `n`.
pub open spec fn battles_fit(ms: Seq<Match>, n: int) -> bool {
    forall|k: int| 0 <= k < ms.len() ==> (#[trigger] ms[k]).one < n && ms[k].two < n && ms[k].one != ms[k].two
}

/// Commits a period's battles to the characters' histories: every
/// character's rank (among the shown characters of the roster) and rating
/// enter its windows and may set its peaks, dated `today`; each battle
/// counts a win, loss or draw for its two sides and enters both sides'
/// recent battles. Returns how many battles carry an unknown outcome; those
/// count for nothing.
pub fn update_history(touhous: &mut Vec<Chara>, records: &Vec<Match>, today: &String) -> (r: usize)
    requires
        old(touhous)@.len() < usize::MAX,
        battles_fit(records@, old(touhous)@.len() as int),
        forall|i: int|
            0 <= i < old(touhous)@.len() ==> {
                &&& (#[trigger] old(touhous)@[i]).hist.wins + records@.len() <= usize::MAX
                &&& old(touhous)@[i].hist.loss + records@.len() <= usize::MAX
                &&& old(touhous)@[i].hist.draw + records@.len() <= usize::MAX
            },
    ensures
        r == unknown_in(records@),
        final(touhous)@.len() == old(touhous)@.len(),
        forall|i: int|
            0 <= i < old(touhous)@.len() ==> {
                let (a, b) = (old(touhous)@[i], #[trigger] final(touhous)@[i]);
                &&& b.name == a.name
                &&& b.rank == a.rank
                &&& b.groups == a.groups
                &&& b.flags == a.flags
                &&& b.hist.old_rank@ == push_window(a.hist.old_rank@, rank_in(old(touhous)@, a.rank.rate) as usize)
                &&& b.hist.old_rate@ == push_window(a.hist.old_rate@, a.rank.rate)
                &&& if b.hist.old_rank@.len() >= 5 {
                    &&& b.hist.peak_rank == next_peak_rank(a.hist.peak_rank, rank_in(old(touhous)@, a.rank.rate) as usize, *today)
                    &&& b.hist.peak_rate == next_peak_rate(a.hist.peak_rate, a.rank.rate, *today)
                } else {
                    &&& b.hist.peak_rank == a.hist.peak_rank
                    &&& b.hist.peak_rate == a.hist.peak_rate
                }
                &&& b.hist.wins == a.hist.wins + wins_in(records@, i)
                &&& b.hist.loss == a.hist.loss + losses_in(records@, i)
                &&& b.hist.draw == a.hist.draw + draws_in(records@, i)
                &&& b.recent@ == recent_after(a.recent@, records@, i)
            },
{
    let ghost start = touhous@;
    let n = touhous.len();
    // ranks first, against the ratings as they stand
    let mut ranks: Vec<usize> = Vec::with_capacity(n);
    {
        let mut everyone: Vec<&Chara> = Vec::with_capacity(n);
        let mut i: usize = 0;
        while i < n
            invariant
                n == touhous@.len(),
                i <= n,
                everyone@.len() == i,
                forall|j: int| 0 <= j < i ==> *everyone@[j] == touhous@[j],
            decreases n - i,
        {
            everyone.push(&touhous[i]);
            i = i + 1;
        }
        assert(members(everyone@) =~= touhous@);
        let mut i: usize = 0;
        while i < n
            invariant
                n == touhous@.len() == everyone@.len(),
                n < usize::MAX,
                members(everyone@) == touhous@,
                i <= n,
                ranks@.len() == i,
                forall|j: int| 0 <= j < i ==> ranks@[j] == rank_in(touhous@, touhous@[j].rank.rate),
            decreases n - i,
        {
            let (rank, _) = rank_in_group(&touhous[i], &everyone);
            ranks.push(rank);
            i = i + 1;
        }
    }
    // the end of the period in every history
    let mut i: usize = 0;
    while i < n
        invariant
            n == touhous@.len() == start.len() == ranks@.len(),
            i <= n,
            forall|j: int| 0 <= j < n ==> ranks@[j] == rank_in(start, start[j].rank.rate),
            forall|j: int|
                0 <= j < n ==> {
                    let (a, b) = (start[j], #[trigger] touhous@[j]);
                    &&& b.name == a.name
                    &&& b.rank == a.rank
                    &&& b.groups == a.groups
                    &&& b.flags == a.flags
                    &&& b.recent == a.recent
                    &&& if j < i {
                        period_recorded(a.hist, b.hist, ranks@[j], a.rank.rate, *today)
                    } else {
                        b.hist == a.hist
                    }
                },
        decreases n - i,
    {
        let rate = touhous[i].rank.rate;
        record_period(&mut touhous[i].hist, ranks[i], rate, today);
        i = i + 1;
    }
    let ghost mid = touhous@;
    // the battles
    let mut unknown: usize = 0;
    let mut k: usize = 0;
    while k < records.len()
        invariant
            n == touhous@.len() == start.len() == mid.len(),
            battles_fit(records@, n as int),
            k <= records@.len(),
            unknown == unknown_in(records@.take(k as int)),
            forall|j: int|
                0 <= j < n ==> {
                    &&& (#[trigger] start[j]).hist.wins + records@.len() <= usize::MAX
                    &&& start[j].hist.loss + records@.len() <= usize::MAX
                    &&& start[j].hist.draw + records@.len() <= usize::MAX
                },
            forall|j: int|
                0 <= j < n ==> {
                    let (a, b) = (mid[j], #[trigger] touhous@[j]);
                    &&& b.name == a.name
                    &&& b.rank == a.rank
                    &&& b.groups == a.groups
                    &&& b.flags == a.flags
                    &&& b.hist.old_rank == a.hist.old_rank
                    &&& b.hist.old_rate == a.hist.old_rate
                    &&& b.hist.peak_rank == a.hist.peak_rank
                    &&& b.hist.peak_rate == a.hist.peak_rate
                    &&& b.hist.wins == a.hist.wins + wins_in(records@.take(k as int), j)
                    &&& b.hist.loss == a.hist.loss + losses_in(records@.take(k as int), j)
                    &&& b.hist.draw == a.hist.draw + draws_in(records@.take(k as int), j)
                    &&& b.recent@ == recent_after(a.recent@, records@.take(k as int), j)
                },
            forall|j: int|
                0 <= j < n ==> {
                    &&& (#[trigger] mid[j]).hist.wins == start[j].hist.wins
                    &&& mid[j].hist.loss == start[j].hist.loss
                    &&& mid[j].hist.draw == start[j].hist.draw
                },
        decreases records@.len() - k,
    {
        let battle = records[k];
        let ghost pre = records@.take(k as int);
        let ghost post = records@.take(k + 1);
        proof {
            assert(post.drop_last() == pre);
            assert(post.last() == battle);
            lemma_tallies_bounded(pre, battle.one as int);
            lemma_tallies_bounded(pre, battle.two as int);
            lemma_tallies_bounded(pre, 0);
        }
        if let Outcome::Unknown = battle.res {
            unknown = unknown + 1;
        }
        tally(&mut touhous[battle.one], battle, battle.one);
        tally(&mut touhous[battle.two], battle, battle.two);
        k = k + 1;
    }
    assert(records@.take(k as int) == records@);
    unknown
}

/// A window never holds more than `MAX_HISTORY_SESS` entries after an entry
/// comes in, and it is first in, first out: the new entry stands at the
/// front, the others follow in their order, and only the oldest leave.
pub proof fn lemma_window_fifo<T>(w: Seq<T>, x: T)
    ensures
        push_window(w, x).len() <= MAX_HISTORY_SESS,
        push_window(w, x).len() == if w.len() >= MAX_HISTORY_SESS {
            MAX_HISTORY_SESS as int
        } else {
            w.len() + 1 as int
        },
        push_window(w, x)[0] == x,
        forall|k: int| 0 <= k < push_window(w, x).len() - 1 ==> push_window(w, x)[k + 1] == w[k],
{
}

/// Once set, the peak rank never gets numerically larger, and the peak
/// rating never smaller; a peak is set by the first period that records one.
pub proof fn lemma_peaks_monotone(
    rank_peak: Option<(usize, String)>,
    rate_peak: Option<(u64, String)>,
    rank: usize,
    rate: u64,
    today: String,
)
    ensures
        ({
            let best = next_peak_rank(rank_peak, rank, today);
            &&& best is Some
            &&& (best->0).0 <= rank
            &&& rank_peak is Some ==> (best->0).0 <= (rank_peak->0).0
        }),
        ({
            let best = next_peak_rate(rate_peak, rate, today);
            &&& best is Some
            &&& (best->0).0 >= rate
            &&& rate_peak is Some ==> (best->0).0 >= (rate_peak->0).0
        }),
{
}

/// The score that fuzzy_matcher's skim matcher, in its default settings,
/// gives a text against a pattern, if the text matches at all.
pub uninterp spec fn skim_score(choice: Seq<char>, pattern: Seq<char>) -> Option<i64>;

/// Relies on fuzzy_matcher's `SkimMatcherV2::default()` and its
/// `fuzzy_match`: a score that depends on the text and the pattern alone;
/// an empty pattern scores 0.
#[verifier::external_body]
fn fuzzy_score(choice: &str, pattern: &str) -> (r: Option<i64>)
    ensures
        r == skim_score(choice@, pattern@),
        pattern@.len() == 0 ==> r == Some(0i64),
{
    SkimMatcherV2::default().fuzzy_match(choice, pattern)
}

/// A score, where no score counts as zero.
pub open spec fn score_at(scores: Seq<Option<i64>>, j: int) -> int {
    match scores[j] {
        Some(v) => v as int,
        None => 0,
    }
}

/// The best match of a list of scores: the first position with the highest
/// score, where that score is above zero; nothing where no score is.
pub fn best_match(scores: &Vec<Option<i64>>) -> (r: Option<usize>)
    ensures
        r is None <==> forall|j: int| 0 <= j < scores@.len() ==> score_at(scores@, j) <= 0,
        r is Some ==> {
            let i = r->0 as int;
            &&& 0 <= i < scores@.len()
            &&& score_at(scores@, i) > 0
            &&& forall|j: int| 0 <= j < i ==> score_at(scores@, j) < score_at(scores@, i)
            &&& forall|j: int| 0 <= j < scores@.len() ==> score_at(scores@, j) <= score_at(scores@, i)
        },
{
    let mut best: Option<usize> = None;
    let mut best_score: i64 = 0;
    let mut i: usize = 0;
    while i < scores.len()
        invariant
            i <= scores@.len(),
            best is None ==> best_score == 0 && forall|j: int| 0 <= j < i ==> score_at(scores@, j) <= 0,
            best is Some ==> {
                let b = best->0 as int;
                &&& 0 <= b < i
                &&& best_score == score_at(scores@, b)
                &&& best_score > 0
                &&& forall|j: int| 0 <= j < b ==> score_at(scores@, j) < best_score
                &&& forall|j: int| 0 <= j < i ==> score_at(scores@, j) <= best_score
            },
        decreases scores@.len() - i,
    {
        if let Some(score) = scores[i] {
            if score > best_score {
                best = Some(i);
                best_score = score;
            }
        }
        i = i + 1;
    }
    best
}

/// The fuzzy scores of the characters' names against a query.
pub open spec fn name_scores(touhous: Seq<Chara>, query: Seq<char>) -> Seq<Option<i64>> {
    touhous.map_values(|c: Chara| skim_score(c.name@, query))
}

/// Finds a character by name, fuzzily: the position of the best match.
pub fn find(touhous: &Vec<Chara>, query: &str) -> (r: Option<usize>)
    ensures
        r == best_of(name_scores(touhous@, query@)),
        r is Some ==> r->0 < touhous@.len(),
{
    let mut scores: Vec<Option<i64>> = Vec::new();
    let mut i: usize = 0;
    while i < touhous.len()
        invariant
            i <= touhous@.len(),
            scores@ == name_scores(touhous@, query@).take(i as int),
        decreases touhous@.len() - i,
    {
        scores.push(fuzzy_score(touhous[i].name.as_str(), query));
        i = i + 1;
        assert(scores@ =~= name_scores(touhous@, query@).take(i as int));
    }
    assert(scores@ =~= name_scores(touhous@, query@));
    let r = best_match(&scores);
    proof {
        lemma_best_of(scores@, r);
    }
    r
}

/// Finds a character by name, fuzzily, for a change: the best match, if any.
pub fn find_mut<'a>(touhous: &'a mut Vec<Chara>, query: &str) -> (r: Option<&'a mut Chara>)
    ensures
        r is None <==> best_of(name_scores(old(touhous)@, query@)) is None,
        r is Some ==> {
            let i = best_of(name_scores(old(touhous)@, query@))->0 as int;
            &&& 0 <= i < old(touhous)@.len()
            &&& *r->0 == old(touhous)@[i]
            &&& final(touhous)@ == old(touhous)@.update(i, *final(r->0))
        },
{
    match find(touhous, query) {
        Some(i) => Some(&mut touhous[i]),
        None => None,
    }
}

/// The characters at two different positions of a roster, both open for a
/// change at once.
pub fn summon<'a>(touhous: &'a mut Vec<Chara>, index1: usize, index2: usize) -> (r: (&'a mut Chara, &'a mut Chara))
    requires
        index1 != index2,
        index1 < old(touhous)@.len(),
        index2 < old(touhous)@.len(),
    ensures
        *r.0 == old(touhous)@[index1 as int],
        *r.1 == old(touhous)@[index2 as int],
        final(touhous)@ == old(touhous)@.update(index1 as int, *final(r.0)).update(index2 as int, *final(r.1)),
{
    if index1 > index2 {
        let (low, high) = touhous.as_mut_slice().split_at_mut(index1);
        let (_, mid) = low.split_at_mut(index2);
        let one = high.first_mut().unwrap();
        let two = mid.first_mut().unwrap();
        (one, two)
    } else {
        let (low, high) = touhous.as_mut_slice().split_at_mut(index2);
        let (_, mid) = low.split_at_mut(index1);
        let one = mid.first_mut().unwrap();
        let two = high.first_mut().unwrap();
        (one, two)
    }
}

/// The best match of a list of scores, as `best_match` states it.
pub open spec fn best_of(scores: Seq<Option<i64>>) -> Option<usize> {
    if forall|j: int| 0 <= j < scores.len() ==> score_at(scores, j) <= 0 {
        None
    } else {
        Some(
            choose|i: usize|
                {
                    &&& 0 <= i < scores.len()
                    &&& score_at(scores, i as int) > 0
                    &&& forall|j: int| 0 <= j < i ==> score_at(scores, j) < score_at(scores, i as int)
                    &&& forall|j: int| 0 <= j < scores.len() ==> score_at(scores, j) <= score_at(scores, i as int)
                },
        )
    }
}

proof fn lemma_best_of(scores: Seq<Option<i64>>, r: Option<usize>)
    requires
        r is None <==> forall|j: int| 0 <= j < scores.len() ==> score_at(scores, j) <= 0,
        r is Some ==> {
            let i = r->0 as int;
            &&& 0 <= i < scores.len()
            &&& score_at(scores, i) > 0
            &&& forall|j: int| 0 <= j < i ==> score_at(scores, j) < score_at(scores, i)
            &&& forall|j: int| 0 <= j < scores.len() ==> score_at(scores, j) <= score_at(scores, i)
        },
    ensures
        r == best_of(scores),
{
    if r is Some {
        let i = r->0;
        let k = choose|k: usize|
            {
                &&& 0 <= k < scores.len()
                &&& score_at(scores, k as int) > 0
                &&& forall|j: int| 0 <= j < k ==> score_at(scores, j) < score_at(scores, k as int)
                &&& forall|j: int| 0 <= j < scores.len() ==> score_at(scores, j) <= score_at(scores, k as int)
            };
        if k < i {
            assert(score_at(scores, k as int) < score_at(scores, i as int));
        } else if k > i {
            assert(score_at(scores, i as int) < score_at(scores, k as int));
        }
    }
}

/// Finds a character by its exact name: the first position that holds it.
pub fn find_mut_exact(touhous: &Vec<Chara>, query: &str) -> (r: Option<usize>)
    ensures
        r is None <==> forall|j: int| 0 <= j < touhous@.len() ==> touhous@[j].name@ != query@,
        r is Some ==> {
            let i = r->0 as int;
            &&& 0 <= i < touhous@.len()
            &&& touhous@[i].name@ == query@
            &&& forall|j: int| 0 <= j < i ==> touhous@[j].name@ != query@
        },
{
    let mut i: usize = 0;
    while i < touhous.len()
        invariant
            i <= touhous@.len(),
            forall|j: int| 0 <= j < i ==> touhous@[j].name@ != query@,
        decreases touhous@.len() - i,
    {
        if same_text(touhous[i].name.as_str(), query) {
            return Some(i);
        }
        i = i + 1;
    }
    None
}

} // verus!
