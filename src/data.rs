// The stock list of characters: one line per character, with the fields
// name, groups (separated by spaces) and flags, separated by `; `.

use vstd::prelude::*;
use std::collections::VecDeque;
use crate::chara::{
    Chara, Glicko, START_RATE, START_DEVI, START_VOLA, MAX_HISTORY_SESS, empty_past, fresh_past,
    find_mut_exact,
};
use crate::groups::{Tags, keyword_tag};
use crate::text::{lower_of, split_by, split_on, split_fields, fields_of, same_text};

verus! {

/// The group that a word of the groups field names.
pub open spec fn group_of(w: Seq<char>) -> Option<Tags> {
    keyword_tag(lower_of(w))
}

/// Whether every word of a groups field names a group.
pub open spec fn groups_known(field: Seq<char>) -> bool {
    forall|k: int| 0 <= k < split_on(field, ' ').len() ==> (#[trigger] group_of(split_on(field, ' ')[k])) is Some
}

/// Whether a word of a groups field names a group.
pub open spec fn names_group(field: Seq<char>, t: Tags) -> bool {
    exists|k: int| 0 <= k < split_on(field, ' ').len() && #[trigger] group_of(split_on(field, ' ')[k]) == Some(t)
}

/// Whether a list holds each group at most once.
pub open spec fn no_repeats(g: Seq<Tags>) -> bool {
    forall|a: int, b: int| 0 <= a < b < g.len() ==> g[a] != g[b]
}

/// Whether a flag word stands among the fields after the groups.
pub open spec fn has_flag(fields: Seq<Seq<char>>, w: Seq<char>) -> bool {
    exists|k: int| 2 <= k < fields.len() && fields[k] == w
}

/// A list of groups with one more, unless it holds it already.
fn with_tag(groups: Vec<Tags>, t: Tags) -> (r: Vec<Tags>)
    requires
        no_repeats(groups@),
    ensures
        no_repeats(r@),
        forall|x: Tags| r@.contains(x) <==> groups@.contains(x) || x == t,
{
    let ghost g0 = groups@;
    let mut i: usize = 0;
    while i < groups.len()
        invariant
            groups@ == g0,
            no_repeats(groups@),
            i <= groups@.len(),
            forall|k: int| 0 <= k < i ==> groups@[k] != t,
        decreases groups@.len() - i,
    {
        if groups[i] == t {
            assert(groups@[i as int] == t);
            return groups;
        }
        i = i + 1;
    }
    let ghost before = groups@;
    assert(before == g0);
    let mut out = groups;
    out.push(t);
    assert forall|x: Tags| #[trigger] out@.contains(x) <==> before.contains(x) || x == t by {
        if out@.contains(x) {
            let j = choose|j: int| 0 <= j < out@.len() && out@[j] == x;
            if j < before.len() {
                assert(before[j] == x);
            }
        }
        if before.contains(x) {
            let j = choose|j: int| 0 <= j < before.len() && before[j] == x;
            assert(out@[j] == x);
        }
        if x == t {
            assert(out@[before.len() as int] == x);
        }
    }
    out
}

/// A list of groups with those that a groups field names; nothing where a
/// word of the field names no group.
fn add_groups(groups: Vec<Tags>, field: &str) -> (r: Option<Vec<Tags>>)
    requires
        no_repeats(groups@),
    ensures
        r is Some <==> groups_known(field@),
        r is Some ==> no_repeats(r->0@) && forall|x: Tags|
            r->0@.contains(x) <==> groups@.contains(x) || names_group(field@, x),
{
    let words = split_by(field, ' ');
    let ghost ws = split_on(field@, ' ');
    let mut found: Vec<Tags> = Vec::new();
    let mut i: usize = 0;
    while i < words.len()
        invariant
            ws == split_on(field@, ' '),
            words@.map_values(|t: &str| t@) == ws,
            i <= words@.len(),
            found@.len() == i,
            forall|k: int| 0 <= k < i ==> group_of(ws[k]) == Some(#[trigger] found@[k]),
        decreases words@.len() - i,
    {
        let w = words[i];
        assert(w@ == ws[i as int]);
        match Tags::parse(w) {
            Some(t) => {
                found.push(t);
            },
            None => {
                assert(group_of(split_on(field@, ' ')[i as int]) is None);
                return None;
            },
        }
        i = i + 1;
    }
    let ghost start = groups@;
    assert(found@.take(0) == Seq::<Tags>::empty());
    let mut acc = groups;
    let mut k: usize = 0;
    while k < found.len()
        invariant
            ws == split_on(field@, ' '),
            found@.len() == ws.len(),
            forall|j: int| 0 <= j < ws.len() ==> group_of(ws[j]) == Some(#[trigger] found@[j]),
            k <= found@.len(),
            no_repeats(acc@),
            forall|x: Tags| #[trigger] acc@.contains(x) <==> start.contains(x) || found@.take(k as int).contains(x),
        decreases found@.len() - k,
    {
        let ghost prev = acc@;
        acc = with_tag(acc, found[k]);
        proof {
            assert(found@.take(k + 1) == found@.take(k as int).push(found@[k as int]));
            assert forall|x: Tags| found@.take(k + 1).contains(x) <==> found@.take(k as int).contains(x) || x == found@[k as int] by {
                let t1 = found@.take(k + 1);
                let t0 = found@.take(k as int);
                if t1.contains(x) {
                    let j = choose|j: int| 0 <= j < t1.len() && t1[j] == x;
                    if j < k {
                        assert(t0[j] == x);
                    }
                }
                if t0.contains(x) {
                    let j = choose|j: int| 0 <= j < t0.len() && t0[j] == x;
                    assert(t1[j] == x);
                }
                if x == found@[k as int] {
                    assert(t1[k as int] == x);
                }
            }
            assert forall|x: Tags| #[trigger] acc@.contains(x) <==> start.contains(x) || found@.take(k + 1).contains(x) by {
                assert(prev.contains(x) <==> start.contains(x) || found@.take(k as int).contains(x));
                assert(found@.take(k + 1).contains(x) <==> found@.take(k as int).contains(x) || x == found@[k as int]);
            }
        }
        k = k + 1;
    }
    assert(found@.take(k as int) == found@);
    assert forall|x: Tags| acc@.contains(x) <==> start.contains(x) || names_group(field@, x) by {
        if names_group(field@, x) {
            let j = choose|j: int| 0 <= j < ws.len() && #[trigger] group_of(ws[j]) == Some(x);
            assert(found@[j] == x);
        }
        if found@.contains(x) {
            let j = choose|j: int| 0 <= j < found@.len() && found@[j] == x;
            assert(group_of(split_on(field@, ' ')[j]) == Some(x));
        }
    }
    assert forall|j: int| 0 <= j < split_on(field@, ' ').len() implies (#[trigger] group_of(split_on(field@, ' ')[j])) is Some by {
        assert(group_of(ws[j]) == Some(found@[j]));
    }
    Some(acc)
}

/// Whether a flag word stands among the fields after the groups.
fn flag_in(fields: &Vec<&str>, w: &str) -> (r: bool)
    ensures
        r == has_flag(fields@.map_values(|t: &str| t@), w@),
{
    let ghost fs = fields@.map_values(|t: &str| t@);
    let mut k: usize = 2;
    while k < fields.len()
        invariant
            fs == fields@.map_values(|t: &str| t@),
            2 <= k,
            forall|j: int| 2 <= j < k && j < fs.len() ==> fs[j] != w@,
        decreases fields@.len() - k,
    {
        if same_text(fields[k], w) {
            assert(fs[k as int] == w@);
            return true;
        }
        k = k + 1;
    }
    false
}

/// Whether a stock line is well formed: the words of its groups field, if
/// it has one, all name groups.
pub open spec fn line_ok(line: Seq<char>) -> bool {
    fields_of(line).len() <= 1 || groups_known(fields_of(line)[1])
}

/// The character that a well-formed stock line describes, as it stands.
pub open spec fn described(line: Seq<char>, c: Chara) -> bool {
    let fs = fields_of(line);
    &&& c.name@ == fs[0]
    &&& no_repeats(c.groups@)
    &&& forall|x: Tags| c.groups@.contains(x) <==> fs.len() > 1 && names_group(fs[1], x)
    &&& c.flags[0] == has_flag(fs, "pc98"@)
    &&& c.flags[1] == has_flag(fs, "nameless"@)
    &&& c.flags[2] == has_flag(fs, "notgirl"@)
}

/// A new character from a stock line, with the starting rating and no
/// history; nothing where a word of its groups field names no group.
pub fn chara_from_string(line: String) -> (r: Option<Chara>)
    ensures
        r is Some <==> line_ok(line@),
        r is Some ==> {
            let c = r->0;
            &&& described(line@, c)
            &&& !c.flags[3]
            &&& c.rank == (Glicko { rate: START_RATE, devi: START_DEVI, vola: START_VOLA })
            &&& fresh_past(c.hist)
            &&& c.recent@.len() == 0
        },
{
    let fields = split_fields(line.as_str());
    let ghost fs = fields_of(line@);
    proof {
        crate::text::lemma_fields_nonempty(line@);
    }
    let mut groups: Vec<Tags> = Vec::new();
    if fields.len() > 1 {
        match add_groups(groups, fields[1]) {
            Some(g) => {
                groups = g;
            },
            None => {
                return None;
            },
        }
    }
    let name = String::from_str(fields[0]);
    let flags = [flag_in(&fields, "pc98"), flag_in(&fields, "nameless"), flag_in(&fields, "notgirl"), false];
    Some(Chara {
        name,
        rank: Glicko { rate: START_RATE, devi: START_DEVI, vola: START_VOLA },
        hist: empty_past(),
        recent: VecDeque::with_capacity(MAX_HISTORY_SESS),
        groups,
        flags,
    })
}

/// What a stock line did to the roster.
#[derive(Clone, Copy, Debug, PartialEq, Eq, Structural)]
pub enum StockUpdate {
    /// An empty line: nothing.
    Skipped,
    /// The character of that name took the line's flags and its groups.
    Updated,
    /// A new character came in at the end.
    Added,
    /// A word of the groups field names no group: nothing.
    Invalid,
}

/// Brings a roster up to date with one stock line: a character of the same
/// name keeps its rating and history, gains the line's groups and takes
/// its PC-98, nameless and non-girl flags; a new name adds a character.
pub fn update_from_line(touhous: &mut Vec<Chara>, line: String) -> (r: StockUpdate)
    requires
        forall|i: int| 0 <= i < old(touhous)@.len() ==> no_repeats((#[trigger] old(touhous)@[i]).groups@),
    ensures
        forall|i: int| 0 <= i < final(touhous)@.len() ==> no_repeats((#[trigger] final(touhous)@[i]).groups@),
        line@.len() == 0 <==> r == StockUpdate::Skipped,
        line@.len() > 0 && !line_ok(line@) <==> r == StockUpdate::Invalid,
        r == StockUpdate::Skipped || r == StockUpdate::Invalid ==> final(touhous)@ == old(touhous)@,
        ({
            let name = fields_of(line@)[0];
            let known = exists|j: int| 0 <= j < old(touhous)@.len() && old(touhous)@[j].name@ == name;
            &&& r == StockUpdate::Updated <==> line@.len() > 0 && line_ok(line@) && known
            &&& r == StockUpdate::Added <==> line@.len() > 0 && line_ok(line@) && !known
        }),
        r == StockUpdate::Added ==> {
            let c = final(touhous)@.last();
            &&& final(touhous)@.drop_last() == old(touhous)@
            &&& described(line@, c)
            &&& !c.flags[3]
            &&& c.rank == (Glicko { rate: START_RATE, devi: START_DEVI, vola: START_VOLA })
            &&& fresh_past(c.hist)
            &&& c.recent@.len() == 0
        },
        r == StockUpdate::Updated ==> exists|i: int|
            {
                let fs = fields_of(line@);
                let (a, b) = (old(touhous)@[i], #[trigger] final(touhous)@[i]);
                &&& 0 <= i < old(touhous)@.len()
                &&& a.name@ == fs[0]
                &&& forall|j: int| 0 <= j < i ==> old(touhous)@[j].name@ != fs[0]
                &&& final(touhous)@ == old(touhous)@.update(i, b)
                &&& b.name == a.name
                &&& b.rank == a.rank
                &&& b.hist == a.hist
                &&& b.recent == a.recent
                &&& b.flags[3] == a.flags[3]
                &&& b.flags[0] == has_flag(fs, "pc98"@)
                &&& b.flags[1] == has_flag(fs, "nameless"@)
                &&& b.flags[2] == has_flag(fs, "notgirl"@)
                &&& no_repeats(b.groups@)
                &&& forall|x: Tags| b.groups@.contains(x) <==> a.groups@.contains(x) || (fs.len() > 1 && names_group(fs[1], x))
            },
{
    if line.as_str().unicode_len() == 0 {
        return StockUpdate::Skipped;
    }
    let fields = split_fields(line.as_str());
    let ghost fs = fields_of(line@);
    proof {
        crate::text::lemma_fields_nonempty(line@);
    }
    match find_mut_exact(touhous, fields[0]) {
        Some(i) => {
            let mut groups = touhous[i].groups.clone();
            proof {
                assert(no_repeats(touhous@[i as int].groups@));
            }
            if fields.len() > 1 {
                match add_groups(groups, fields[1]) {
                    Some(g) => {
                        groups = g;
                    },
                    None => {
                        return StockUpdate::Invalid;
                    },
                }
            }
            let pc98 = flag_in(&fields, "pc98");
            let nameless = flag_in(&fields, "nameless");
            let notgirl = flag_in(&fields, "notgirl");
            let ghost before = touhous@;
            let th = &mut touhous[i];
            th.flags[0] = pc98;
            th.flags[1] = nameless;
            th.flags[2] = notgirl;
            th.groups = groups;
            proof {
                assert(touhous@ == before.update(i as int, touhous@[i as int]));
                assert forall|j: int| 0 <= j < touhous@.len() implies no_repeats((#[trigger] touhous@[j]).groups@) by {
                    if j != i {
                        assert(touhous@[j] == before[j]);
                    }
                }
            }
            StockUpdate::Updated
        },
        None => {
            match chara_from_string(line) {
                Some(c) => {
                    touhous.push(c);
                    proof {
                        assert(touhous@.drop_last() == old(touhous)@);
                        assert forall|j: int| 0 <= j < touhous@.len() implies no_repeats((#[trigger] touhous@[j]).groups@) by {
                            if j < old(touhous)@.len() {
                                assert(touhous@[j] == old(touhous)@[j]);
                            }
                        }
                    }
                    StockUpdate::Added
                },
                None => StockUpdate::Invalid,
            }
        },
    }
}

} // verus!
