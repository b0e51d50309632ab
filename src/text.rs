// Plain text helpers shared by the parsers.

use vstd::prelude::*;

verus! {

/// What `str::to_lowercase` makes of a text.
pub uninterp spec fn lower_of(s: Seq<char>) -> Seq<char>;

/// Relies on `str::to_lowercase`: the result depends on the characters
/// alone, and the empty text stays empty.
#[verifier::external_body]
pub(crate) fn lowercase(s: &str) -> (r: String)
    ensures
        r@ == lower_of(s@),
        s@.len() == 0 ==> r@.len() == 0,
{
    s.to_lowercase()
}

/// What `str::trim` makes of a text.
pub uninterp spec fn trim_of(s: Seq<char>) -> Seq<char>;

/// Relies on `str::trim`: the text without its leading and trailing white
/// space, which depends on the characters alone.
#[verifier::external_body]
pub(crate) fn trimmed(s: &str) -> (r: &str)
    ensures
        r@ == trim_of(s@),
{
    s.trim()
}

/// Whether two texts hold the same characters.
pub fn same_text(a: &str, b: &str) -> (r: bool)
    ensures
        r == (a@ == b@),
{
    let n = a.unicode_len();
    if n != b.unicode_len() {
        return false;
    }
    let mut i: usize = 0;
    while i < n
        invariant
            n == a@.len(),
            n == b@.len(),
            i <= n,
            a@.subrange(0, i as int) == b@.subrange(0, i as int),
        decreases n - i,
    {
        if a.get_char(i) != b.get_char(i) {
            assert(a@[i as int] != b@[i as int]);
            return false;
        }
        assert(a@.subrange(0, i + 1) == a@.subrange(0, i as int).push(a@[i as int]));
        assert(b@.subrange(0, i + 1) == b@.subrange(0, i as int).push(b@[i as int]));
        i = i + 1;
    }
    assert(a@ == a@.subrange(0, n as int));
    assert(b@ == b@.subrange(0, n as int));
    true
}

/// The pieces of a text between the occurrences of a separator, in order;
/// two separators in a row leave an empty piece between them.
pub open spec fn split_on(s: Seq<char>, sep: char) -> Seq<Seq<char>>
    decreases s.len(),
{
    if s.len() == 0 {
        seq![Seq::empty()]
    } else {
        let prev = split_on(s.drop_last(), sep);
        if s.last() == sep {
            prev.push(Seq::empty())
        } else {
            prev.update(prev.len() - 1, prev.last().push(s.last()))
        }
    }
}

pub proof fn lemma_split_nonempty(s: Seq<char>, sep: char)
    ensures
        split_on(s, sep).len() >= 1,
    decreases s.len(),
{
    if s.len() > 0 {
        lemma_split_nonempty(s.drop_last(), sep);
    }
}

/// The pieces of a text between its separators.
pub fn split_by<'a>(s: &'a str, sep: char) -> (r: Vec<&'a str>)
    ensures
        r@.map_values(|t: &str| t@) == split_on(s@, sep),
{
    let n = s.unicode_len();
    let mut pieces: Vec<&str> = Vec::new();
    let mut start: usize = 0;
    let mut i: usize = 0;
    proof {
        assert(s@.take(0) =~= Seq::<char>::empty());
        assert(pieces@.map_values(|t: &str| t@).push(s@.subrange(0, 0)) =~= seq![Seq::<char>::empty()]);
    }
    while i < n
        invariant
            n == s@.len(),
            start <= i <= n,
            pieces@.map_values(|t: &str| t@).push(s@.subrange(start as int, i as int)) == split_on(
                s@.take(i as int),
                sep,
            ),
        decreases n - i,
    {
        let c = s.get_char(i);
        let ghost before = pieces@.map_values(|t: &str| t@);
        let ghost old_start = start;
        proof {
            lemma_split_nonempty(s@.take(i as int), sep);
            assert(s@.take(i + 1).drop_last() == s@.take(i as int));
            assert(s@.take(i + 1).last() == c);
        }
        if c == sep {
            pieces.push(s.substring_char(start, i));
            start = i + 1;
        }
        i = i + 1;
        proof {
            let cur = pieces@.map_values(|t: &str| t@).push(s@.subrange(start as int, i as int));
            if c == sep {
                assert(pieces@.map_values(|t: &str| t@) =~= before.push(s@.subrange(old_start as int, i - 1)));
                assert(s@.subrange(start as int, i as int) =~= Seq::<char>::empty());
                assert(cur =~= split_on(s@.take(i as int), sep));
            } else {
                assert(s@.subrange(start as int, i as int) == s@.subrange(start as int, i - 1).push(c));
                assert(cur =~= split_on(s@.take(i as int), sep));
            }
        }
    }
    pieces.push(s.substring_char(start, n));
    assert(s@.take(n as int) == s@);
    assert(pieces@.map_values(|t: &str| t@) =~= split_on(s@, sep));
    pieces
}

/// Whether `needle` occurs in `hay`.
pub open spec fn has_sub(hay: Seq<char>, needle: Seq<char>) -> bool {
    exists|i: int| 0 <= i <= hay.len() - needle.len() && #[trigger] hay.subrange(i, i + needle.len()) == needle
}

/// Whether `needle` occurs in `hay`.
pub fn contains_text(hay: &str, needle: &str) -> (r: bool)
    ensures
        r == has_sub(hay@, needle@),
{
    let n = hay.unicode_len();
    let m = needle.unicode_len();
    if m == 0 {
        assert(hay@.subrange(0int, 0int + needle@.len()) =~= needle@);
        return true;
    }
    if m > n {
        return false;
    }
    let mut i: usize = 0;
    while i <= n - m
        invariant
            n == hay@.len(),
            m == needle@.len(),
            1 <= m <= n,
            i <= n - m + 1,
            forall|j: int| 0 <= j < i ==> #[trigger] hay@.subrange(j, j + m) != needle@,
        decreases n - m + 1 - i,
    {
        let mut k: usize = 0;
        let mut same = true;
        while k < m && same
            invariant
                n == hay@.len(),
                m == needle@.len(),
                i + m <= n,
                k <= m,
                same ==> hay@.subrange(i as int, i + k) == needle@.subrange(0, k as int),
                !same ==> hay@.subrange(i as int, i + m) != needle@,
            decreases m - k + if same { 1int } else { 0int },
        {
            if hay.get_char(i + k) != needle.get_char(k) {
                same = false;
                assert(hay@.subrange(i as int, i + m)[k as int] != needle@[k as int]);
            } else {
                assert(hay@.subrange(i as int, i + k + 1) == hay@.subrange(i as int, i + k).push(hay@[i + k]));
                assert(needle@.subrange(0, k + 1) == needle@.subrange(0, k as int).push(needle@[k as int]));
                k = k + 1;
            }
        }
        if same {
            assert(needle@.subrange(0, m as int) == needle@);
            return true;
        }
        i = i + 1;
    }
    false
}

/// The fields of a line, separated by `; `.
pub open spec fn fields_of(s: Seq<char>) -> Seq<Seq<char>>
    decreases s.len(),
{
    if s.len() == 0 {
        seq![Seq::empty()]
    } else if s.len() >= 2 && s[s.len() - 2] == ';' && s[s.len() - 1] == ' ' {
        fields_of(s.take(s.len() - 2)).push(Seq::empty())
    } else {
        let prev = fields_of(s.drop_last());
        prev.update(prev.len() - 1, prev.last().push(s.last()))
    }
}

pub proof fn lemma_fields_nonempty(s: Seq<char>)
    ensures
        fields_of(s).len() >= 1,
    decreases s.len(),
{
    if s.len() >= 2 && s[s.len() - 2] == ';' && s[s.len() - 1] == ' ' {
        lemma_fields_nonempty(s.take(s.len() - 2));
    } else if s.len() > 0 {
        lemma_fields_nonempty(s.drop_last());
    }
}

/// The fields of a line, separated by `; `.
pub fn split_fields<'a>(s: &'a str) -> (r: Vec<&'a str>)
    ensures
        r@.map_values(|t: &str| t@) == fields_of(s@),
{
    let n = s.unicode_len();
    let mut pieces: Vec<&str> = Vec::new();
    let mut start: usize = 0;
    let mut i: usize = 0;
    proof {
        assert(s@.take(0) =~= Seq::<char>::empty());
        assert(pieces@.map_values(|t: &str| t@).push(s@.subrange(0, 0)) =~= seq![Seq::<char>::empty()]);
    }
    while i < n
        invariant
            n == s@.len(),
            start <= i <= n,
            i > 0 && i < n && s@[i - 1] == ';' ==> s@[i as int] != ' ',
            pieces@.map_values(|t: &str| t@).push(s@.subrange(start as int, i as int)) == fields_of(
                s@.take(i as int),
            ),
        decreases n - i,
    {
        let c = s.get_char(i);
        let ghost before = pieces@.map_values(|t: &str| t@);
        let ghost old_start = start;
        let ghost old_i = i;
        proof {
            lemma_fields_nonempty(s@.take(i as int));
        }
        if c == ';' && i + 1 < n && s.get_char(i + 1) == ' ' {
            pieces.push(s.substring_char(start, i));
            start = i + 2;
            i = i + 2;
            proof {
                let t = s@.take(i as int);
                assert(t.take(t.len() - 2) == s@.take(old_i as int));
                assert(pieces@.map_values(|t: &str| t@) =~= before.push(s@.subrange(old_start as int, old_i as int)));
                assert(s@.subrange(start as int, i as int) =~= Seq::<char>::empty());
                assert(pieces@.map_values(|t: &str| t@).push(s@.subrange(start as int, i as int)) =~= fields_of(t));
            }
        } else {
            i = i + 1;
            proof {
                let t = s@.take(i as int);
                assert(t.drop_last() == s@.take(old_i as int));
                assert(s@.subrange(start as int, i as int) == s@.subrange(start as int, old_i as int).push(c));
                assert(pieces@.map_values(|t: &str| t@).push(s@.subrange(start as int, i as int)) =~= fields_of(t));
            }
        }
    }
    pieces.push(s.substring_char(start, n));
    assert(s@.take(n as int) == s@);
    assert(pieces@.map_values(|t: &str| t@) =~= fields_of(s@));
    pieces
}

} // verus!
