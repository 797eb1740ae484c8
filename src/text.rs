//! Scanning helpers over a text held as a sequence of characters.
use vstd::prelude::*;
use vstd::std_specs::iter::IteratorSpec;

verus! {

/// Characters removed from the end of a card body: those of Unicode's
/// `White_Space` property.
pub open spec fn is_blank(c: char) -> bool {
    let u = c as u32;
    (9 <= u && u <= 13) || u == 0x20 || u == 0x85 || u == 0xa0 || u == 0x1680 || (0x2000 <= u
        && u <= 0x200a) || u == 0x2028 || u == 0x2029 || u == 0x202f || u == 0x205f || u
        == 0x3000
}

/// First index at or after `p` that does not hold `c`; the text's length if none.
pub open spec fn skip_char(s: Seq<char>, p: int, c: char) -> int
    decreases s.len() - p,
{
    if p >= s.len() || s[p] != c {
        p
    } else {
        skip_char(s, p + 1, c)
    }
}

/// End of the line holding `p`: the index of the next newline, or the text's length.
pub open spec fn line_end(s: Seq<char>, p: int) -> int
    decreases s.len() - p,
{
    if p >= s.len() || s[p] == '\n' {
        p
    } else {
        line_end(s, p + 1)
    }
}

/// First colon at or after `p` in the same line; the line's end if there is none.
pub open spec fn colon_in_line(s: Seq<char>, p: int) -> int
    decreases s.len() - p,
{
    if p >= s.len() || s[p] == '\n' || s[p] == ':' {
        p
    } else {
        colon_in_line(s, p + 1)
    }
}

/// End of `s[a..b)` once blank characters are removed from its end.
pub open spec fn trimmed_end(s: Seq<char>, a: int, b: int) -> int
    decreases b - a,
{
    if b <= a || !is_blank(s[b - 1]) {
        b
    } else {
        trimmed_end(s, a, b - 1)
    }
}

pub proof fn lemma_skip_char_bounds(s: Seq<char>, p: int, c: char)
    requires
        0 <= p <= s.len(),
    ensures
        p <= skip_char(s, p, c) <= s.len(),
    decreases s.len() - p,
{
    if p < s.len() && s[p] == c {
        lemma_skip_char_bounds(s, p + 1, c);
    }
}

pub proof fn lemma_line_end_bounds(s: Seq<char>, p: int)
    requires
        0 <= p <= s.len(),
    ensures
        p <= line_end(s, p) <= s.len(),
        line_end(s, p) < s.len() ==> s[line_end(s, p)] == '\n',
    decreases s.len() - p,
{
    if p < s.len() && s[p] != '\n' {
        lemma_line_end_bounds(s, p + 1);
    }
}

pub proof fn lemma_line_end_ge(s: Seq<char>, p: int)
    ensures
        p <= line_end(s, p),
    decreases s.len() - p,
{
    if p < s.len() && s[p] != '\n' {
        lemma_line_end_ge(s, p + 1);
    }
}

pub proof fn lemma_colon_in_line_bounds(s: Seq<char>, p: int)
    requires
        0 <= p <= s.len(),
    ensures
        p <= colon_in_line(s, p) <= s.len(),
    decreases s.len() - p,
{
    if p < s.len() && s[p] != '\n' && s[p] != ':' {
        lemma_colon_in_line_bounds(s, p + 1);
    }
}

pub proof fn lemma_trimmed_end_bounds(s: Seq<char>, a: int, b: int)
    requires
        a <= b,
    ensures
        a <= trimmed_end(s, a, b) <= b,
    decreases b - a,
{
    if b > a && is_blank(s[b - 1]) {
        lemma_trimmed_end_bounds(s, a, b - 1);
    }
}

/// Position `p` begins a line of `s`.
pub open spec fn at_line_start(s: Seq<char>, p: int) -> bool {
    p == 0 || (0 < p <= s.len() && s[p - 1] == '\n')
}

/// Relies on `str::chars`, through vstd's specification of it, to read the
/// characters of `s` in order.
pub fn chars_of(s: &str) -> (r: Vec<char>)
    ensures
        r@ == s@,
{
    let mut v: Vec<char> = Vec::new();
    let mut it = s.chars();
    loop
        invariant
            it.obeys_prophetic_iter_laws(),
            it.decrease() is Some,
            v@ + it.remaining() == s@,
        ensures
            v@ == s@,
        decreases it.decrease()->0,
    {
        let ghost before = it.remaining();
        match it.next() {
            Some(c) => {
                assert(v@.push(c) + it.remaining() =~= v@ + before);
                v.push(c);
            },
            None => {
                assert(v@ =~= s@);
                break ;
            },
        }
    }
    v
}

pub fn skip_char_at(s: &Vec<char>, p: usize, c: char) -> (r: usize)
    requires
        p <= s@.len(),
    ensures
        r == skip_char(s@, p as int, c),
{
    let mut i = p;
    while i < s.len() && s[i] == c
        invariant
            p <= i <= s@.len(),
            skip_char(s@, i as int, c) == skip_char(s@, p as int, c),
        decreases s@.len() - i,
    {
        i = i + 1;
    }
    i
}

pub fn line_end_at(s: &Vec<char>, p: usize) -> (r: usize)
    requires
        p <= s@.len(),
    ensures
        r == line_end(s@, p as int),
{
    let mut i = p;
    while i < s.len() && s[i] != '\n'
        invariant
            p <= i <= s@.len(),
            line_end(s@, i as int) == line_end(s@, p as int),
        decreases s@.len() - i,
    {
        i = i + 1;
    }
    i
}

pub fn colon_in_line_at(s: &Vec<char>, p: usize) -> (r: usize)
    requires
        p <= s@.len(),
    ensures
        r == colon_in_line(s@, p as int),
{
    let mut i = p;
    while i < s.len() && s[i] != '\n' && s[i] != ':'
        invariant
            p <= i <= s@.len(),
            colon_in_line(s@, i as int) == colon_in_line(s@, p as int),
        decreases s@.len() - i,
    {
        i = i + 1;
    }
    i
}

pub fn is_blank_char(c: char) -> (r: bool)
    ensures
        r == is_blank(c),
{
    let u = c as u32;
    (9 <= u && u <= 13) || u == 0x20 || u == 0x85 || u == 0xa0 || u == 0x1680 || (0x2000 <= u
        && u <= 0x200a) || u == 0x2028 || u == 0x2029 || u == 0x202f || u == 0x205f || u
        == 0x3000
}

pub fn trimmed_end_at(s: &Vec<char>, a: usize, b: usize) -> (r: usize)
    requires
        a <= b <= s@.len(),
    ensures
        r == trimmed_end(s@, a as int, b as int),
{
    let mut e = b;
    while e > a && is_blank_char(s[e - 1])
        invariant
            a <= e <= b,
            b <= s@.len(),
            trimmed_end(s@, a as int, e as int) == trimmed_end(s@, a as int, b as int),
        decreases e,
    {
        e = e - 1;
    }
    e
}

/// Relies on `String`'s `FromIterator<&char>`: the string holds the given
/// characters in order.
#[verifier::external_body]
pub(crate) fn string_of(v: &Vec<char>) -> (r: String)
    ensures
        r@ == v@,
{
    v.iter().collect()
}

/// Appends the characters of `t`.
pub fn push_str(out: &mut Vec<char>, t: &str)
    ensures
        final(out)@ == old(out)@ + t@,
{
    let cs = chars_of(t);
    let ghost start = old(out)@;
    let mut j: usize = 0;
    while j < cs.len()
        invariant
            j <= cs@.len(),
            out@ == start + cs@.subrange(0, j as int),
        decreases cs@.len() - j,
    {
        out.push(cs[j]);
        assert(cs@.subrange(0, j + 1) =~= cs@.subrange(0, j as int).push(cs@[j as int]));
        j = j + 1;
    }
    assert(cs@.subrange(0, j as int) =~= t@);
}

} // verus!
