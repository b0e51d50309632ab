// A rating period: the battles judged so far, and what to do after each
// judgment.

use vstd::prelude::*;
use crate::chara::{Match, Outcome};
use crate::text::{trim_of, trimmed};

verus! {

/// What the judge answered to a pair.
#[derive(Clone, Copy, Debug, PartialEq, Eq, Structural)]
pub enum Choice {
    Left,
    Right,
    Draw,
    DislikeBoth,
    Undo,
    Help,
    End,
}

/// The answer that a trimmed line gives: a last character `1` or `2` picks
/// a side; a line that starts with `end` ends the period; a last character
/// `d` dislikes both, `l` undoes, `h` asks for help; anything else is a draw.
pub open spec fn choice_of(t: Seq<char>) -> Choice {
    if t.len() > 0 && t.last() == '1' {
        Choice::Left
    } else if t.len() > 0 && t.last() == '2' {
        Choice::Right
    } else if t.len() >= 3 && t[0] == 'e' && t[1] == 'n' && t[2] == 'd' {
        Choice::End
    } else if t.len() > 0 && t.last() == 'd' {
        Choice::DislikeBoth
    } else if t.len() > 0 && t.last() == 'l' {
        Choice::Undo
    } else if t.len() > 0 && t.last() == 'h' {
        Choice::Help
    } else {
        Choice::Draw
    }
}

/// The answer that an already trimmed line gives.
pub fn choice_from_trimmed(t: &str) -> (r: Choice)
    ensures
        r == choice_of(t@),
{
    let n = t.unicode_len();
    if n == 0 {
        return Choice::Draw;
    }
    let last = t.get_char(n - 1);
    if last == '1' {
        Choice::Left
    } else if last == '2' {
        Choice::Right
    } else if n >= 3 && t.get_char(0) == 'e' && t.get_char(1) == 'n' && t.get_char(2) == 'd' {
        Choice::End
    } else if last == 'd' {
        Choice::DislikeBoth
    } else if last == 'l' {
        Choice::Undo
    } else if last == 'h' {
        Choice::Help
    } else {
        Choice::Draw
    }
}

/// The answer that a line typed by the judge gives.
pub fn read_choice(line: &str) -> (r: Choice)
    ensures
        r == choice_of(trim_of(line@)),
{
    choice_from_trimmed(trimmed(line))
}

/// The outcome that an answer records, if it records one.
pub open spec fn outcome_of(c: Choice) -> Option<Outcome> {
    match c {
        Choice::Left => Some(Outcome::LeftWins),
        Choice::Right => Some(Outcome::RightWins),
        Choice::Draw => Some(Outcome::Draw),
        Choice::DislikeBoth => Some(Outcome::BothDisliked),
        _ => None,
    }
}

/// Why a session refuses a request.
#[derive(Clone, Copy, Debug, PartialEq, Eq, Structural)]
pub enum SessionError {
    /// A session needs a pool of at least two characters.
    InvalidSession,
}

/// What the loop that runs a session does next.
#[derive(Clone, Copy, Debug, PartialEq, Eq, Structural)]
pub enum Action {
    /// Sample a new pair.
    Sample,
    /// Offer this pair (positions in the pool).
    Offer(usize, usize),
    /// Show the help, then offer the same pair again.
    ShowHelp,
    /// An undo with no battle to take back: nothing changes, and the same
    /// pair is offered again.
    EmptyUndo,
    /// End the period: commit the battles, if there are any.
    Commit,
}

/// Whether the entries of a list strictly increase.
pub open spec fn strictly_increasing(s: Seq<usize>) -> bool {
    forall|a: int, b: int| 0 <= a < b < s.len() ==> s[a] < s[b]
}

/// A session over a pool of characters: `pool` holds their positions in
/// the roster, `records` the battles judged so far (between roster
/// positions), `picks` which pool members were chosen first because they
/// had never battled.
pub struct Session {
    pub pool: Vec<usize>,
    pub records: Vec<Match>,
    pub picks: Vec<bool>,
}

impl Session {
    /// The session is well formed: a pool of at least two distinct
    /// characters, a pick flag for each, and every battle between two
    /// distinct members of the pool.
    pub open spec fn wf(&self) -> bool {
        &&& self.pool@.len() >= 2
        &&& strictly_increasing(self.pool@)
        &&& self.picks@.len() == self.pool@.len()
        &&& forall|k: int|
            0 <= k < self.records@.len() ==> {
                &&& self.pool@.contains((#[trigger] self.records@[k]).one)
                &&& self.pool@.contains(self.records@[k].two)
                &&& self.records@[k].one != self.records@[k].two
            }
    }

    /// Opens a session over a pool, which needs at least two characters.
    pub fn open(pool: Vec<usize>) -> (r: Result<Session, SessionError>)
        requires
            strictly_increasing(pool@),
        ensures
            pool@.len() < 2 <==> r == Err::<Session, SessionError>(SessionError::InvalidSession),
            r is Ok ==> {
                let s = r->Ok_0;
                &&& s.wf()
                &&& s.pool@ == pool@
                &&& s.records@.len() == 0
                &&& forall|k: int| 0 <= k < s.picks@.len() ==> !s.picks@[k]
            },
    {
        if pool.len() < 2 {
            return Err(SessionError::InvalidSession);
        }
        let mut picks: Vec<bool> = Vec::with_capacity(pool.len());
        let mut i: usize = 0;
        while i < pool.len()
            invariant
                i <= pool@.len(),
                picks@.len() == i,
                forall|k: int| 0 <= k < i ==> !picks@[k],
            decreases pool@.len() - i,
        {
            picks.push(false);
            i = i + 1;
        }
        Ok(Session { pool, records: Vec::new(), picks })
    }

    /// The position in the pool of a roster position that the pool holds.
    fn position(&self, id: usize) -> (r: usize)
        requires
            self.pool@.contains(id),
        ensures
            r < self.pool@.len(),
            self.pool@[r as int] == id,
    {
        let mut p: usize = 0;
        while p < self.pool.len()
            invariant
                p <= self.pool@.len(),
                self.pool@.contains(id),
                forall|k: int| 0 <= k < p ==> self.pool@[k] != id,
            decreases self.pool@.len() - p,
        {
            if self.pool[p] == id {
                return p;
            }
            p = p + 1;
        }
        proof {
            let k = choose|k: int| 0 <= k < self.pool@.len() && self.pool@[k] == id;
            assert(self.pool@[k] != id);
        }
        0
    }

    /// Takes the judge's answer to the pair at pool positions `one` and
    /// `two`, and says what to do next. A side, a draw or a dislike records
    /// a battle; an undo takes the last battle back and offers its pair
    /// again; nothing else changes the session.
    pub fn step(&mut self, one: usize, two: usize, choice: Choice) -> (r: Action)
        requires
            old(self).wf(),
            one < old(self).pool@.len(),
            two < old(self).pool@.len(),
            one != two,
        ensures
            final(self).wf(),
            final(self).pool == old(self).pool,
            final(self).picks == old(self).picks,
            outcome_of(choice) is Some ==> {
                &&& r == Action::Sample
                &&& final(self).records@ == old(self).records@.push(
                    Match { one: old(self).pool@[one as int], two: old(self).pool@[two as int], res: outcome_of(choice)->0 },
                )
            },
            choice == Choice::Undo && old(self).records@.len() == 0 ==> r == Action::EmptyUndo
                && final(self).records@ == old(self).records@,
            choice == Choice::Undo && old(self).records@.len() > 0 ==> {
                let last = old(self).records@.last();
                &&& final(self).records@ == old(self).records@.drop_last()
                &&& r matches Action::Offer(a, b) && a < old(self).pool@.len() && b < old(self).pool@.len()
                    && old(self).pool@[a as int] == last.one && old(self).pool@[b as int] == last.two
            },
            choice == Choice::Help ==> r == Action::ShowHelp && final(self).records@ == old(self).records@,
            choice == Choice::End ==> r == Action::Commit && final(self).records@ == old(self).records@,
    {
        let res = match choice {
            Choice::Left => Outcome::LeftWins,
            Choice::Right => Outcome::RightWins,
            Choice::Draw => Outcome::Draw,
            Choice::DislikeBoth => Outcome::BothDisliked,
            Choice::Help => {
                return Action::ShowHelp;
            },
            Choice::End => {
                return Action::Commit;
            },
            Choice::Undo => {
                if self.records.len() == 0 {
                    return Action::EmptyUndo;
                }
                let last = self.records[self.records.len() - 1];
                proof {
                    assert(self.records@[self.records@.len() - 1] == last);
                }
                let a = self.position(last.one);
                let b = self.position(last.two);
                let _ = self.records.pop();
                proof {
                    assert forall|k: int| 0 <= k < self.records@.len() implies {
                        &&& self.pool@.contains((#[trigger] self.records@[k]).one)
                        &&& self.pool@.contains(self.records@[k].two)
                        &&& self.records@[k].one != self.records@[k].two
                    } by {
                        assert(self.records@[k] == old(self).records@[k]);
                    }
                }
                return Action::Offer(a, b);
            },
        };
        let m = Match { one: self.pool[one], two: self.pool[two], res };
        let ghost before = self.records@;
        self.records.push(m);
        proof {
            assert(self.pool@[one as int] != self.pool@[two as int]) by {
                if one < two {
                    assert(self.pool@[one as int] < self.pool@[two as int]);
                } else {
                    assert(self.pool@[two as int] < self.pool@[one as int]);
                }
            }
            assert forall|k: int| 0 <= k < self.records@.len() implies {
                &&& self.pool@.contains((#[trigger] self.records@[k]).one)
                &&& self.pool@.contains(self.records@[k].two)
                &&& self.records@[k].one != self.records@[k].two
            } by {
                if k < before.len() {
                    assert(self.records@[k] == before[k]);
                } else {
                    assert(self.pool@[one as int] == m.one);
                    assert(self.pool@[two as int] == m.two);
                }
            }
        }
        Action::Sample
    }

    /// Hands the period's battles over for the commit and clears them.
    pub fn take_records(&mut self) -> (r: Vec<Match>)
        requires
            old(self).wf(),
        ensures
            final(self).wf(),
            r@ == old(self).records@,
            final(self).records@.len() == 0,
            final(self).pool == old(self).pool,
            final(self).picks == old(self).picks,
    {
        let mut out: Vec<Match> = Vec::new();
        std::mem::swap(&mut out, &mut self.records);
        out
    }
}

} // verus!
