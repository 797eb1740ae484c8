//! The deck format: a first line giving the card width, then blocks of an
//! optional `Q...:` marker line, a question, an `A:` line and an answer.
//!
//! Markers are recognised only at the start of a line. A question runs up to
//! the next `A:` line; an answer runs up to the next `Q...:` line or the end
//! of the text.
use vstd::prelude::*;
use crate::text::{
    at_line_start, colon_in_line, colon_in_line_at, lemma_colon_in_line_bounds,
    lemma_line_end_bounds, lemma_line_end_ge, lemma_skip_char_bounds, lemma_trimmed_end_bounds, line_end,
    line_end_at, skip_char, skip_char_at, trimmed_end, trimmed_end_at, chars_of, string_of,
};

verus! {

/// A `Q...:` marker starts at `p`: a `Q` at the start of a line, with a colon later in that line.
pub open spec fn is_question_header(s: Seq<char>, p: int) -> bool {
    &&& 0 <= p < s.len()
    &&& at_line_start(s, p)
    &&& s[p] == 'Q'
    &&& colon_in_line(s, p + 1) < s.len()
    &&& s[colon_in_line(s, p + 1)] == ':'
}

/// An `A:` marker starts at `p`, at the start of a line.
pub open spec fn is_answer_header(s: Seq<char>, p: int) -> bool {
    &&& 0 <= p
    &&& p + 1 < s.len()
    &&& at_line_start(s, p)
    &&& s[p] == 'A'
    &&& s[p + 1] == ':'
}

/// First `A:` marker at or after `p`; the text's length if there is none.
pub open spec fn next_answer_header(s: Seq<char>, p: int) -> int
    decreases s.len() - p,
{
    if p >= s.len() || is_answer_header(s, p) {
        p
    } else {
        next_answer_header(s, p + 1)
    }
}

/// First `Q...:` marker at or after `p`; the text's length if there is none.
pub open spec fn next_question_header(s: Seq<char>, p: int) -> int
    decreases s.len() - p,
{
    if p >= s.len() || is_question_header(s, p) {
        p
    } else {
        next_question_header(s, p + 1)
    }
}

/// Where a question's text begins, for a block that starts at `p`: past empty
/// lines, the optional `Q...:` marker, then spaces and empty lines.
pub open spec fn question_start(s: Seq<char>, p: int) -> int {
    let m = skip_char(s, p, '\n');
    let h = if is_question_header(s, m) {
        colon_in_line(s, m + 1) + 1
    } else {
        m
    };
    skip_char(s, skip_char(s, h, ' '), '\n')
}

/// Where an answer's text begins, for an `A:` marker at `a`.
pub open spec fn answer_start(s: Seq<char>, a: int) -> int {
    skip_char(s, skip_char(s, a + 2, ' '), '\n')
}

pub proof fn lemma_next_answer_header(s: Seq<char>, p: int)
    requires
        0 <= p <= s.len(),
    ensures
        p <= next_answer_header(s, p) <= s.len(),
        next_answer_header(s, p) < s.len() ==> is_answer_header(s, next_answer_header(s, p)),
    decreases s.len() - p,
{
    if p < s.len() && !is_answer_header(s, p) {
        lemma_next_answer_header(s, p + 1);
    }
}

pub proof fn lemma_next_question_header(s: Seq<char>, p: int)
    requires
        0 <= p <= s.len(),
    ensures
        p <= next_question_header(s, p) <= s.len(),
        next_question_header(s, p) < s.len() ==> is_question_header(s, next_question_header(s, p)),
    decreases s.len() - p,
{
    if p < s.len() && !is_question_header(s, p) {
        lemma_next_question_header(s, p + 1);
    }
}

pub proof fn lemma_question_start(s: Seq<char>, p: int)
    requires
        0 <= p <= s.len(),
    ensures
        p <= question_start(s, p) <= s.len(),
{
    let m = skip_char(s, p, '\n');
    lemma_skip_char_bounds(s, p, '\n');
    let h = if is_question_header(s, m) {
        lemma_colon_in_line_bounds(s, m + 1);
        colon_in_line(s, m + 1) + 1
    } else {
        m
    };
    lemma_skip_char_bounds(s, h, ' ');
    lemma_skip_char_bounds(s, skip_char(s, h, ' '), '\n');
}

pub proof fn lemma_answer_start(s: Seq<char>, a: int)
    requires
        is_answer_header(s, a),
    ensures
        a + 2 <= answer_start(s, a) <= s.len(),
{
    lemma_skip_char_bounds(s, a + 2, ' ');
    lemma_skip_char_bounds(s, skip_char(s, a + 2, ' '), '\n');
}

pub fn is_question_header_at(s: &Vec<char>, p: usize) -> (r: bool)
    requires
        p <= s@.len(),
    ensures
        r == is_question_header(s@, p as int),
{
    if p >= s.len() || !(p == 0 || s[p - 1] == '\n') || s[p] != 'Q' {
        return false;
    }
    let c = colon_in_line_at(s, p + 1);
    c < s.len() && s[c] == ':'
}

pub fn is_answer_header_at(s: &Vec<char>, p: usize) -> (r: bool)
    requires
        p <= s@.len(),
    ensures
        r == is_answer_header(s@, p as int),
{
    p < s.len() && p + 1 < s.len() && (p == 0 || s[p - 1] == '\n') && s[p] == 'A' && s[p + 1]
        == ':'
}

pub fn next_answer_header_at(s: &Vec<char>, p: usize) -> (r: usize)
    requires
        p <= s@.len(),
    ensures
        r == next_answer_header(s@, p as int),
{
    let mut i = p;
    while i < s.len() && !is_answer_header_at(s, i)
        invariant
            p <= i <= s@.len(),
            next_answer_header(s@, i as int) == next_answer_header(s@, p as int),
        decreases s@.len() - i,
    {
        i = i + 1;
    }
    i
}

pub fn next_question_header_at(s: &Vec<char>, p: usize) -> (r: usize)
    requires
        p <= s@.len(),
    ensures
        r == next_question_header(s@, p as int),
{
    let mut i = p;
    while i < s.len() && !is_question_header_at(s, i)
        invariant
            p <= i <= s@.len(),
            next_question_header(s@, i as int) == next_question_header(s@, p as int),
        decreases s@.len() - i,
    {
        i = i + 1;
    }
    i
}

pub fn question_start_at(s: &Vec<char>, p: usize) -> (r: usize)
    requires
        p <= s@.len(),
    ensures
        r == question_start(s@, p as int),
{
    let m = skip_char_at(s, p, '\n');
    proof {
        lemma_skip_char_bounds(s@, p as int, '\n');
    }
    let h = if m < s.len() && is_question_header_at(s, m) {
        let c = colon_in_line_at(s, m + 1);
        c + 1
    } else {
        m
    };
    proof {
        lemma_question_start(s@, p as int);
        lemma_skip_char_bounds(s@, h as int, ' ');
    }
    let b = skip_char_at(s, h, ' ');
    skip_char_at(s, b, '\n')
}

pub fn answer_start_at(s: &Vec<char>, a: usize) -> (r: usize)
    requires
        is_answer_header(s@, a as int),
        s@.len() <= usize::MAX,
    ensures
        r == answer_start(s@, a as int),
{
    let b = skip_char_at(s, a + 2, ' ');
    proof {
        lemma_skip_char_bounds(s@, a + 2, ' ');
    }
    skip_char_at(s, b, '\n')
}

/// The left side of a framed line.
pub open spec fn left_border() -> Seq<char> {
    seq![' ', ' ', '\u{2502}', ' ', ' ']
}

/// The right side of a framed line, with the carriage return and newline that end it.
pub open spec fn right_border() -> Seq<char> {
    seq![' ', ' ', '\u{2502}', ' ', ' ', '\r', '\n']
}

/// Spaces that bring a line of `len` characters to the width `w`.
pub open spec fn padding(len: nat, w: nat) -> Seq<char> {
    if len < w {
        Seq::new((w - len) as nat, |_i: int| ' ')
    } else {
        seq![]
    }
}

/// One line of a card body, padded to the card width and framed.
pub open spec fn framed_line(line: Seq<char>, w: nat) -> Seq<char> {
    left_border() + line + padding(line.len(), w) + right_border()
}

/// A line without the carriage return of a `\r\n` ending.
pub open spec fn without_cr(line: Seq<char>) -> Seq<char> {
    if line.len() > 0 && line.last() == '\r' {
        line.drop_last()
    } else {
        line
    }
}

/// The lines of `s[p..e)`, each framed, one after the other.
pub open spec fn framed_lines(s: Seq<char>, p: int, e: int, w: nat) -> Seq<char>
    decreases e - p via framed_lines_decreases
{
    if p >= e {
        seq![]
    } else {
        if line_end(s, p) < e {
            let k = line_end(s, p);
            framed_line(without_cr(s.subrange(p, k)), w) + framed_lines(s, k + 1, e, w)
        } else {
            framed_line(without_cr(s.subrange(p, e)), w)
        }
    }
}

#[via_fn]
proof fn framed_lines_decreases(s: Seq<char>, p: int, e: int, w: nat) {
    if p < e {
        lemma_line_end_ge(s, p);
    }
}

/// Appends `s[p..t)`, padded to the width `w` and framed.
fn push_framed_line(s: &Vec<char>, p: usize, t: usize, w: usize, out: &mut Vec<char>)
    requires
        p <= t <= s@.len(),
    ensures
        final(out)@ == old(out)@ + framed_line(s@.subrange(p as int, t as int), w as nat),
{
    let ghost start = old(out)@;
    out.push(' ');
    out.push(' ');
    out.push('\u{2502}');
    out.push(' ');
    out.push(' ');
    assert(out@ =~= start + left_border() + s@.subrange(p as int, p as int));
    let mut j = p;
    while j < t
        invariant
            p <= j <= t,
            t <= s@.len(),
            out@ == start + left_border() + s@.subrange(p as int, j as int),
        decreases t - j,
    {
        out.push(s[j]);
        assert(s@.subrange(p as int, j + 1) =~= s@.subrange(p as int, j as int).push(s@[j as int]));
        j = j + 1;
    }
    let ghost line = s@.subrange(p as int, t as int);
    let len = t - p;
    if len < w {
        let mut k: usize = len;
        assert(out@ =~= start + left_border() + line + Seq::new((k - len) as nat, |_i: int| ' '));
        while k < w
            invariant
                len <= k <= w,
                line.len() == len,
                out@ == start + left_border() + line + Seq::new((k - len) as nat, |_i: int| ' '),
            decreases w - k,
        {
            out.push(' ');
            assert(Seq::new((k + 1 - len) as nat, |_i: int| ' ') =~= Seq::new(
                (k - len) as nat,
                |_i: int| ' ',
            ).push(' '));
            k = k + 1;
        }
    } else {
        assert(out@ =~= start + left_border() + line + padding(line.len(), w as nat));
    }
    let ghost mid = out@;
    assert(mid == start + left_border() + line + padding(line.len(), w as nat));
    out.push(' ');
    out.push(' ');
    out.push('\u{2502}');
    out.push(' ');
    out.push(' ');
    out.push('\r');
    out.push('\n');
    assert(out@ =~= mid + right_border());
    assert(out@ =~= start + framed_line(line, w as nat));
}

/// Appends the framed lines of `s[a..e)`.
fn push_framed_lines(s: &Vec<char>, a: usize, e: usize, w: usize, out: &mut Vec<char>)
    requires
        a <= e <= s@.len(),
    ensures
        final(out)@ == old(out)@ + framed_lines(s@, a as int, e as int, w as nat),
{
    let ghost start = old(out)@;
    let mut p = a;
    while p < e
        invariant
            a <= p <= e,
            e <= s@.len(),
            out@ + framed_lines(s@, p as int, e as int, w as nat) == start + framed_lines(
                s@,
                a as int,
                e as int,
                w as nat,
            ),
        decreases e - p,
    {
        let le = line_end_at(s, p);
        proof {
            lemma_line_end_bounds(s@, p as int);
        }
        let k = if le < e {
            le
        } else {
            e
        };
        let mut t = k;
        if t > p && s[t - 1] == '\r' {
            t = t - 1;
        }
        assert(without_cr(s@.subrange(p as int, k as int)) =~= s@.subrange(p as int, t as int));
        let ghost before = out@;
        push_framed_line(s, p, t, w, out);
        let ghost fl = framed_line(s@.subrange(p as int, t as int), w as nat);
        if k < e {
            assert(out@ + framed_lines(s@, k + 1, e as int, w as nat) =~= before + (fl
                + framed_lines(s@, k + 1, e as int, w as nat)));
            p = k + 1;
        } else {
            assert(out@ + framed_lines(s@, e as int, e as int, w as nat) =~= before + fl);
            p = e;
        }
    }
    assert(out@ =~= out@ + framed_lines(s@, p as int, e as int, w as nat));
}

/// One card: its question and its answer, each as framed lines.
pub struct Card {
    pub question: String,
    pub answer: String,
}

/// The cards of a deck in the order of the text, and the width of their frames.
pub struct Deck {
    pub cards: Vec<Card>,
    pub card_width: usize,
}

/// Why a deck text was refused.
#[derive(Clone, Copy, Debug, PartialEq, Eq)]
pub enum DeckError {
    /// The first line is not a card width in decimal that fits a `usize`, or
    /// it is not ended by a newline.
    BadWidth,
    /// A block has no `A:` line, or an empty question or answer.
    Malformed,
}

/// The question and answer texts of a sequence of cards.
pub open spec fn card_texts(cards: Seq<Card>) -> Seq<(Seq<char>, Seq<char>)> {
    cards.map_values(|c: Card| (c.question@, c.answer@))
}

/// The cards of the blocks from `p` to the end of the text, or `None` where
/// one of them is malformed.
pub open spec fn cards_from(s: Seq<char>, p: int, w: nat) -> Option<Seq<(Seq<char>, Seq<char>)>>
    decreases s.len() - p,
    when 0 <= p
    via cards_from_decreases
{
    if p >= s.len() {
        Some(seq![])
    } else {
        let qb = question_start(s, p);
        let qe = next_answer_header(s, qb);
        if qe >= s.len() {
            None
        } else {
            let ab = answer_start(s, qe);
            let ae = next_question_header(s, ab);
            let qt = trimmed_end(s, qb, qe);
            let at = trimmed_end(s, ab, ae);
            if qt == qb || at == ab {
                None
            } else {
                match cards_from(s, ae, w) {
                    Some(rest) => Some(
                        seq![(framed_lines(s, qb, qt, w), framed_lines(s, ab, at, w))] + rest,
                    ),
                    None => None,
                }
            }
        }
    }
}

#[via_fn]
proof fn cards_from_decreases(s: Seq<char>, p: int, w: nat) {
    if 0 <= p < s.len() {
        lemma_question_start(s, p);
        let qb = question_start(s, p);
        lemma_next_answer_header(s, qb);
        let qe = next_answer_header(s, qb);
        if qe < s.len() {
            lemma_answer_start(s, qe);
            lemma_next_question_header(s, answer_start(s, qe));
        }
    }
}

/// `acc` followed by the cards of `rest`, if any.
pub open spec fn prepend(
    acc: Seq<(Seq<char>, Seq<char>)>,
    rest: Option<Seq<(Seq<char>, Seq<char>)>>,
) -> Option<Seq<(Seq<char>, Seq<char>)>> {
    match rest {
        Some(r) => Some(acc + r),
        None => None,
    }
}

fn parse_cards(s: &Vec<char>, p0: usize, w: usize) -> (r: Option<Vec<Card>>)
    requires
        p0 <= s@.len(),
    ensures
        match r {
            Some(cards) => cards_from(s@, p0 as int, w as nat) == Some(card_texts(cards@)),
            None => cards_from(s@, p0 as int, w as nat) is None,
        },
{
    let n = s.len();
    let mut cards: Vec<Card> = Vec::new();
    let mut p = p0;
    while p < n
        invariant
            p <= n,
            n == s@.len(),
            cards_from(s@, p0 as int, w as nat) == prepend(
                card_texts(cards@),
                cards_from(s@, p as int, w as nat),
            ),
        decreases n - p,
    {
        let qb = question_start_at(s, p);
        proof {
            lemma_question_start(s@, p as int);
        }
        let qe = next_answer_header_at(s, qb);
        proof {
            lemma_next_answer_header(s@, qb as int);
        }
        if qe >= n {
            return None;
        }
        let ab = answer_start_at(s, qe);
        proof {
            lemma_answer_start(s@, qe as int);
        }
        let ae = next_question_header_at(s, ab);
        proof {
            lemma_next_question_header(s@, ab as int);
        }
        let qt = trimmed_end_at(s, qb, qe);
        let at = trimmed_end_at(s, ab, ae);
        if qt == qb || at == ab {
            return None;
        }
        proof {
            lemma_trimmed_end_bounds(s@, qb as int, qe as int);
            lemma_trimmed_end_bounds(s@, ab as int, ae as int);
        }
        let mut q: Vec<char> = Vec::new();
        push_framed_lines(s, qb, qt, w, &mut q);
        let mut a: Vec<char> = Vec::new();
        push_framed_lines(s, ab, at, w, &mut a);
        let card = Card { question: string_of(&q), answer: string_of(&a) };
        let ghost acc = card_texts(cards@);
        let ghost item = (card.question@, card.answer@);
        cards.push(card);
        assert(card_texts(cards@) =~= acc.push(item));
        proof {
            match cards_from(s@, ae as int, w as nat) {
                Some(rest) => {
                    assert(acc + (seq![item] + rest) =~= acc.push(item) + rest);
                },
                None => {},
            }
        }
        p = ae;
    }
    assert(card_texts(cards@) + seq![] =~= card_texts(cards@));
    Some(cards)
}

/// A decimal digit, `0` to `9`.
pub open spec fn is_digit(c: char) -> bool {
    48 <= (c as u32) && (c as u32) <= 57
}

/// End of the run of decimal digits that starts at `p`.
pub open spec fn digit_run(s: Seq<char>, p: int) -> int
    decreases s.len() - p,
{
    if p >= s.len() || !is_digit(s[p]) {
        p
    } else {
        digit_run(s, p + 1)
    }
}

/// The number written in decimal by the first `n` characters of `s`.
pub open spec fn decimal_value(s: Seq<char>, n: int) -> int
    decreases n,
{
    if n <= 0 {
        0
    } else {
        decimal_value(s, n - 1) * 10 + ((s[n - 1] as u32) - 48)
    }
}

/// What a deck text holds: its cards and card width, or why it is refused.
///
/// The first line is the card width in decimal and nothing else, but for the
/// carriage return of a `\r\n` ending. A text with nothing but blank
/// characters after the first line holds no card.
pub open spec fn deck_of(s: Seq<char>) -> Result<(Seq<(Seq<char>, Seq<char>)>, nat), DeckError> {
    let d = digit_run(s, 0);
    let nl = line_end(s, 0);
    let whole_line = d == nl || (d + 1 == nl && s[d] == '\r');
    if d == 0 || !whole_line || decimal_value(s, d) > usize::MAX || nl >= s.len() {
        Err(DeckError::BadWidth)
    } else {
        let w = decimal_value(s, d) as nat;
        if trimmed_end(s, nl + 1, s.len() as int) == nl + 1 {
            Ok((seq![], w))
        } else {
            match cards_from(s, nl + 1, w) {
                Some(cards) => Ok((cards, w)),
                None => Err(DeckError::Malformed),
            }
        }
    }
}

proof fn lemma_decimal_grows(s: Seq<char>, i: int, j: int)
    requires
        0 <= i <= j <= s.len(),
        forall|k: int| 0 <= k < j ==> #[trigger] is_digit(s[k]),
    ensures
        decimal_value(s, i) <= decimal_value(s, j),
        0 <= decimal_value(s, i),
    decreases j,
{
    if i < j {
        lemma_decimal_grows(s, i, j - 1);
        assert(is_digit(s[j - 1]));
    } else if i > 0 {
        lemma_decimal_grows(s, i - 1, i - 1);
        assert(is_digit(s[i - 1]));
    }
}

proof fn lemma_digit_run(s: Seq<char>, p: int)
    requires
        0 <= p <= s.len(),
        forall|k: int| 0 <= k < p ==> #[trigger] is_digit(s[k]),
    ensures
        p <= digit_run(s, p) <= s.len(),
        forall|k: int| 0 <= k < digit_run(s, p) ==> #[trigger] is_digit(s[k]),
    decreases s.len() - p,
{
    if p < s.len() && is_digit(s[p]) {
        lemma_digit_run(s, p + 1);
    }
}

/// The number that starts the text, if its digits fit a `usize`, with the
/// end of those digits.
fn parse_width(s: &Vec<char>) -> (r: Option<(usize, usize)>)
    ensures
        match r {
            Some((w, d)) => d == digit_run(s@, 0) && d > 0 && decimal_value(s@, d as int) == w,
            None => digit_run(s@, 0) == 0 || decimal_value(s@, digit_run(s@, 0)) > usize::MAX,
        },
{
    proof {
        lemma_digit_run(s@, 0);
    }
    let mut v: usize = 0;
    let mut i: usize = 0;
    while i < s.len() && 48 <= (s[i] as u32) && (s[i] as u32) <= 57
        invariant
            i <= s@.len(),
            forall|k: int| 0 <= k < i ==> #[trigger] is_digit(s@[k]),
            v == decimal_value(s@, i as int),
            digit_run(s@, i as int) == digit_run(s@, 0),
            i <= digit_run(s@, 0),
            forall|k: int| 0 <= k < digit_run(s@, 0) ==> #[trigger] is_digit(s@[k]),
        decreases s@.len() - i,
    {
        let d = ((s[i] as u32) - 48) as usize;
        proof {
            assert(is_digit(s@[i as int]));
            lemma_digit_run(s@, i + 1);
        }
        if v > (usize::MAX - d) / 10 {
            proof {
                assert(v * 10 + d > usize::MAX) by (nonlinear_arith)
                    requires
                        v > (usize::MAX - d) / 10,
                        d <= 9,
                ;
                lemma_decimal_grows(s@, i + 1, digit_run(s@, 0));
            }
            return None;
        }
        proof {
            assert(v * 10 + d <= usize::MAX) by (nonlinear_arith)
                requires
                    v <= (usize::MAX - d) / 10,
                    d <= 9,
            ;
        }
        v = v * 10 + d;
        i = i + 1;
    }
    if i == 0 {
        None
    } else {
        Some((v, i))
    }
}

/// The cards and width of a parsed deck, or the error, as values.
pub open spec fn result_view(r: Result<Deck, DeckError>) -> Result<
    (Seq<(Seq<char>, Seq<char>)>, nat),
    DeckError,
> {
    match r {
        Ok(deck) => Ok((card_texts(deck.cards@), deck.card_width as nat)),
        Err(e) => Err(e),
    }
}

/// Parsing the same text twice gives the same cards, in the same order, with
/// the same width, or the same error.
pub proof fn lemma_parse_twice(
    input: Seq<char>,
    first: Result<Deck, DeckError>,
    second: Result<Deck, DeckError>,
)
    requires
        result_view(first) == deck_of(input),
        result_view(second) == deck_of(input),
    ensures
        result_view(first) == result_view(second),
{
}

/// Reads a deck text: the card width on the first line, then the cards.
pub fn parse(input: &str) -> (r: Result<Deck, DeckError>)
    ensures
        result_view(r) == deck_of(input@),
{
    let s = chars_of(input);
    let n = s.len();
    let (w, d) = match parse_width(&s) {
        Some(found) => found,
        None => return Err(DeckError::BadWidth),
    };
    let nl = line_end_at(&s, 0);
    if nl >= n || !(d == nl || (d < nl && d + 1 == nl && s[d] == '\r')) {
        return Err(DeckError::BadWidth);
    }
    if trimmed_end_at(&s, nl + 1, n) == nl + 1 {
        let cards: Vec<Card> = Vec::new();
        assert(card_texts(cards@) =~= seq![]);
        return Ok(Deck { cards, card_width: w });
    }
    match parse_cards(&s, nl + 1, w) {
        Some(cards) => Ok(Deck { cards, card_width: w }),
        None => Err(DeckError::Malformed),
    }
}

} // verus!
