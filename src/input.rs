use vstd::prelude::*;
use crate::text::{is_white_space, chars_of, char_is_whitespace};
use crate::utils::{valid_ident, is_valid_ident};

verus! {

/// The first position at or after `i` that holds `c`, or the length of `x`.
pub open spec fn find_from(x: Seq<char>, c: char, i: int) -> int
    decreases x.len() - i,
{
    if 0 <= i < x.len() && x[i] != c {
        find_from(x, c, i + 1)
    } else {
        i
    }
}

/// The first position at or after `i` that does not hold white space.
pub open spec fn front(x: Seq<char>, i: int) -> int
    decreases x.len() - i,
{
    if 0 <= i < x.len() && is_white_space(x[i]) {
        front(x, i + 1)
    } else {
        i
    }
}

/// The end of `x.subrange(0, j)` once trailing white space is dropped.
pub open spec fn back(x: Seq<char>, j: int) -> int
    decreases j,
{
    if 0 < j <= x.len() && is_white_space(x[j - 1]) {
        back(x, j - 1)
    } else {
        j
    }
}

/// `x` without leading and trailing white space.
pub open spec fn trim(x: Seq<char>) -> Seq<char> {
    let a = front(x, 0);
    let b = back(x, x.len() as int);
    if a < b {
        x.subrange(a, b)
    } else {
        Seq::empty()
    }
}

/// The text before the first `#`.
pub open spec fn uncommented(x: Seq<char>) -> Seq<char> {
    x.subrange(0, find_from(x, '#', 0))
}

proof fn lemma_find_from(x: Seq<char>, c: char, i: int)
    requires
        0 <= i <= x.len(),
    ensures
        i <= find_from(x, c, i) <= x.len(),
        find_from(x, c, i) < x.len() ==> x[find_from(x, c, i)] == c,
    decreases x.len() - i,
{
    if i < x.len() && x[i] != c {
        lemma_find_from(x, c, i + 1);
    }
}

proof fn lemma_front(x: Seq<char>, i: int)
    requires
        0 <= i <= x.len(),
    ensures
        i <= front(x, i) <= x.len(),
    decreases x.len() - i,
{
    if i < x.len() && is_white_space(x[i]) {
        lemma_front(x, i + 1);
    }
}

proof fn lemma_back(x: Seq<char>, j: int)
    requires
        0 <= j <= x.len(),
    ensures
        0 <= back(x, j) <= j,
    decreases j,
{
    if 0 < j && is_white_space(x[j - 1]) {
        lemma_back(x, j - 1);
    }
}

/// The bounds, within `cs`, of `cs[lo..hi]` without leading and trailing white space.
fn trim_bounds(cs: &Vec<char>, lo: usize, hi: usize) -> (r: (usize, usize))
    requires
        lo <= hi <= cs@.len(),
    ensures
        lo <= r.0 <= r.1 <= hi,
        cs@.subrange(r.0 as int, r.1 as int) == trim(cs@.subrange(lo as int, hi as int)),
{
    let ghost x = cs@.subrange(lo as int, hi as int);
    let mut a = lo;
    while a < hi && char_is_whitespace(cs[a])
        invariant
            lo <= a <= hi <= cs@.len(),
            x == cs@.subrange(lo as int, hi as int),
            front(x, a - lo) == front(x, 0),
        decreases hi - a,
    {
        a = a + 1;
    }
    assert(front(x, a - lo) == a - lo);
    let mut b = hi;
    while b > a && char_is_whitespace(cs[b - 1])
        invariant
            lo <= a <= b <= hi <= cs@.len(),
            x == cs@.subrange(lo as int, hi as int),
            back(x, b - lo) == back(x, hi - lo),
        decreases b - a,
    {
        b = b - 1;
    }
    proof {
        lemma_back(x, b - lo);
        if a < b {
            assert(back(x, b - lo) == b - lo);
            assert(cs@.subrange(a as int, b as int) =~= x.subrange(a - lo, b - lo));
        } else {
            lemma_back(x, a - lo);
            assert(cs@.subrange(a as int, a as int) =~= Seq::<char>::empty());
        }
    }
    if a < b {
        (a, b)
    } else {
        (a, a)
    }
}

/// The name and the body of a definition `name = body`, when `u` is one: the text
/// before the first `=` must be an identifier once trimmed.
pub open spec fn definition_parts(u: Seq<char>) -> Option<(Seq<char>, Seq<char>)> {
    let p = find_from(u, '=', 0);
    if p < u.len() && valid_ident(trim(u.subrange(0, p))) {
        Some((trim(u.subrange(0, p)), trim(u.subrange(p + 1, u.len() as int))))
    } else {
        None
    }
}

/// What a line holds once its comment and surrounding white space are gone.
pub open spec fn content(s: Seq<char>) -> Seq<char> {
    trim(uncommented(s))
}

/// One line of input: nothing, a definition, or an expression to evaluate.
#[derive(Debug, PartialEq, Eq)]
pub enum Line {
    Blank,
    Definition(String, String),
    Expression(String),
}

/// First position in `cs[lo..hi]` that holds `c`, or `hi`.
fn find_in(cs: &Vec<char>, c: char, lo: usize, hi: usize) -> (r: usize)
    requires
        lo <= hi <= cs@.len(),
    ensures
        lo <= r <= hi,
        r - lo == find_from(cs@.subrange(lo as int, hi as int), c, 0),
{
    let ghost x = cs@.subrange(lo as int, hi as int);
    let mut p = lo;
    while p < hi && cs[p] != c
        invariant
            lo <= p <= hi <= cs@.len(),
            x == cs@.subrange(lo as int, hi as int),
            find_from(x, c, p - lo) == find_from(x, c, 0),
        decreases hi - p,
    {
        p = p + 1;
    }
    p
}

/// Splits a line into blank, definition or expression: the text from the first `#`
/// on is a comment, and surrounding white space does not count.
pub fn classify_line(line: &str) -> (r: Line)
    ensures
        match r {
            Line::Blank => content(line@).len() == 0,
            Line::Definition(n, b) => content(line@).len() > 0 && definition_parts(content(line@))
                == Some((n@, b@)),
            Line::Expression(e) => content(line@).len() > 0 && definition_parts(content(line@)) is None
                && e@ == content(line@),
        },
{
    let cs = chars_of(line);
    let c = find_in(&cs, '#', 0, cs.len());
    proof {
        assert(cs@.subrange(0, cs@.len() as int) =~= cs@);
        assert(cs@.subrange(0, c as int) =~= uncommented(line@));
    }
    let (a, b) = trim_bounds(&cs, 0, c);
    let ghost u = cs@.subrange(a as int, b as int);
    assert(u == content(line@));
    if a == b {
        return Line::Blank;
    }
    let p = find_in(&cs, '=', a, b);
    if p < b {
        let (na, nb) = trim_bounds(&cs, a, p);
        proof {
            assert(cs@.subrange(a as int, p as int) =~= u.subrange(0, p - a));
        }
        let name = String::from_str(line.substring_char(na, nb));
        if is_valid_ident(name.as_str()) {
            let (ba, bb) = trim_bounds(&cs, p + 1, b);
            proof {
                assert(cs@.subrange(p + 1, b as int) =~= u.subrange(p - a + 1, u.len() as int));
            }
            let body = String::from_str(line.substring_char(ba, bb));
            return Line::Definition(name, body);
        }
    }
    Line::Expression(String::from_str(line.substring_char(a, b)))
}

/// The text of a line before its first `#`, without surrounding white space.
pub fn line_content(line: &str) -> (r: String)
    ensures
        r@ == content(line@),
{
    let cs = chars_of(line);
    let c = find_in(&cs, '#', 0, cs.len());
    proof {
        assert(cs@.subrange(0, cs@.len() as int) =~= cs@);
        assert(cs@.subrange(0, c as int) =~= uncommented(line@));
    }
    let (a, b) = trim_bounds(&cs, 0, c);
    String::from_str(line.substring_char(a, b))
}

} // verus!
