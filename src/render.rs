//! The screen drawn for a session: counts, position and the current card in
//! its box, or the summary of a finished pass.
use vstd::prelude::*;
use crate::deck::{card_texts, Deck};
use crate::session::{Session, SessionView};
use crate::text::{push_str, string_of};

verus! {

/// The character of a decimal digit.
pub open spec fn digit_char(d: nat) -> char {
    seq!['0', '1', '2', '3', '4', '5', '6', '7', '8', '9'][d as int]
}

/// `n` written in decimal.
pub open spec fn decimal(n: nat) -> Seq<char>
    decreases n,
{
    if n < 10 {
        seq![digit_char(n)]
    } else {
        decimal(n / 10).push(digit_char(n % 10))
    }
}

/// A horizontal side of a card's box, `w` wide inside, between two corners.
pub open spec fn rule(w: nat, left: char, right: char) -> Seq<char> {
    seq![' ', ' ', left, '\u{2500}', '\u{2500}'] + Seq::new(w, |_i: int| '\u{2500}') + seq![
        '\u{2500}',
        '\u{2500}',
        right,
        '\r',
        '\n',
    ]
}

/// The line with the number of starred cards among all `total`.
pub open spec fn count_line(starred: nat, total: nat) -> Seq<char> {
    "  "@ + decimal(starred) + " out of "@ + decimal(total) + " starred.\r\n\r\n"@
}

/// The screen for the session `v` over the cards `cards`, framed `w` wide.
pub open spec fn screen(cards: Seq<(Seq<char>, Seq<char>)>, w: nat, v: SessionView) -> Seq<char> {
    let len = v.order.len();
    if v.finished() {
        "\r\n  finished! press left to go back, enter to reshuffle and start over.\r\n\r\n"@
            + count_line(v.num_starred, cards.len()) + "  ("@ + decimal(len) + "/"@ + decimal(len)
            + ")\r\n\r\n"@ + if v.flipped {
            "  will study starred cards only. press up or down to flip\r\n\r\n"@
        } else {
            "  will study all cards. press up or down to flip\r\n\r\n"@
        }
    } else {
        let k = v.order[v.i as int] as int;
        "\r\n  use arrow keys to move, enter to star or unstar, and q to exit.\r\n\r\n"@
            + count_line(v.num_starred, cards.len()) + "  ("@ + decimal(v.i + 1) + "/"@
            + decimal(len) + ") "@ + (if v.starred[k] {
            "Starred"@
        } else {
            "Not Starred"@
        }) + "\r\n\r\n"@ + rule(w, '\u{250c}', '\u{2510}') + cards[k].0 + (if v.flipped {
            rule(w, '\u{251c}', '\u{2524}') + cards[k].1
        } else {
            seq![]
        }) + rule(w, '\u{2514}', '\u{2518}') + "\r\n"@
    }
}

fn digit(d: usize) -> (c: char)
    requires
        d < 10,
    ensures
        c == digit_char(d as nat),
{
    match d {
        0 => '0',
        1 => '1',
        2 => '2',
        3 => '3',
        4 => '4',
        5 => '5',
        6 => '6',
        7 => '7',
        8 => '8',
        _ => '9',
    }
}

/// Appends `n` in decimal.
fn push_decimal(out: &mut Vec<char>, n: usize)
    ensures
        final(out)@ == old(out)@ + decimal(n as nat),
    decreases n,
{
    if n < 10 {
        out.push(digit(n));
        assert(out@ =~= old(out)@ + decimal(n as nat));
    } else {
        push_decimal(out, n / 10);
        out.push(digit(n % 10));
        assert(out@ =~= old(out)@ + decimal(n as nat));
    }
}

/// Appends a side of the box, `w` wide inside.
fn push_rule(out: &mut Vec<char>, w: usize, left: char, right: char)
    ensures
        final(out)@ == old(out)@ + rule(w as nat, left, right),
{
    let ghost start = old(out)@;
    out.push(' ');
    out.push(' ');
    out.push(left);
    out.push('\u{2500}');
    out.push('\u{2500}');
    let ghost head = out@;
    let mut k: usize = 0;
    while k < w
        invariant
            k <= w,
            out@ == head + Seq::new(k as nat, |_i: int| '\u{2500}'),
        decreases w - k,
    {
        out.push('\u{2500}');
        assert(Seq::new((k + 1) as nat, |_i: int| '\u{2500}') =~= Seq::new(
            k as nat,
            |_i: int| '\u{2500}',
        ).push('\u{2500}'));
        k = k + 1;
    }
    out.push('\u{2500}');
    out.push('\u{2500}');
    out.push(right);
    out.push('\r');
    out.push('\n');
    assert(out@ =~= start + rule(w as nat, left, right));
}

fn push_count_line(out: &mut Vec<char>, starred: usize, total: usize)
    ensures
        final(out)@ == old(out)@ + count_line(starred as nat, total as nat),
{
    push_str(out, "  ");
    push_decimal(out, starred);
    push_str(out, " out of ");
    push_decimal(out, total);
    push_str(out, " starred.\r\n\r\n");
    assert(out@ =~= old(out)@ + count_line(starred as nat, total as nat));
}

/// The screen for the session `s` over the cards of `deck`.
pub fn render(deck: &Deck, s: &Session) -> (r: String)
    requires
        s@.wf(),
        s@.starred.len() == deck.cards@.len(),
    ensures
        r@ == screen(card_texts(deck.cards@), deck.card_width as nat, s@),
{
    let mut out: Vec<char> = Vec::new();
    let len = s.order.len();
    let ghost cards = card_texts(deck.cards@);
    if s.i == len {
        push_str(
            &mut out,
            "\r\n  finished! press left to go back, enter to reshuffle and start over.\r\n\r\n",
        );
        push_count_line(&mut out, s.num_starred, deck.cards.len());
        push_str(&mut out, "  (");
        push_decimal(&mut out, len);
        push_str(&mut out, "/");
        push_decimal(&mut out, len);
        push_str(&mut out, ")\r\n\r\n");
        if s.flipped {
            push_str(&mut out, "  will study starred cards only. press up or down to flip\r\n\r\n");
        } else {
            push_str(&mut out, "  will study all cards. press up or down to flip\r\n\r\n");
        }
    } else {
        let k = s.order[s.i];
        push_str(&mut out, "\r\n  use arrow keys to move, enter to star or unstar, and q to exit.\r\n\r\n");
        push_count_line(&mut out, s.num_starred, deck.cards.len());
        push_str(&mut out, "  (");
        push_decimal(&mut out, s.i + 1);
        push_str(&mut out, "/");
        push_decimal(&mut out, len);
        push_str(&mut out, ") ");
        if s.starred[k] {
            push_str(&mut out, "Starred");
        } else {
            push_str(&mut out, "Not Starred");
        }
        push_str(&mut out, "\r\n\r\n");
        push_rule(&mut out, deck.card_width, '\u{250c}', '\u{2510}');
        let card = &deck.cards[k];
        assert(cards[k as int] == (card.question@, card.answer@));
        push_str(&mut out, card.question.as_str());
        if s.flipped {
            push_rule(&mut out, deck.card_width, '\u{251c}', '\u{2524}');
            push_str(&mut out, card.answer.as_str());
        }
        push_rule(&mut out, deck.card_width, '\u{2514}', '\u{2518}');
        push_str(&mut out, "\r\n");
    }
    assert(out@ =~= screen(cards, deck.card_width as nat, s@));
    string_of(&out)
}

} // verus!
