use flashcards::deck::{parse, Deck, DeckError};

fn framed(line: &str, width: usize) -> String {
    format!("  │  {:width$}  │  \r\n", line, width = width)
}

fn texts(deck: &Deck) -> Vec<(String, String)> {
    deck.cards.iter().map(|c| (c.question.clone(), c.answer.clone())).collect()
}

#[test]
fn two_cards_with_markers() {
    let deck = parse("10\nQ:\nWhat is 2+2?\nA:\n4\nQ:\nWhat is 3+3?\nA:\n6\n").unwrap();
    assert_eq!(deck.card_width, 10);
    assert_eq!(deck.cards.len(), 2);
    assert_eq!(deck.cards[0].question, framed("What is 2+2?", 10));
    assert_eq!(deck.cards[0].answer, framed("4", 10));
    assert_eq!(deck.cards[1].question, framed("What is 3+3?", 10));
    assert_eq!(deck.cards[1].answer, framed("6", 10));
    assert_eq!(deck.cards[0].answer, "  │  4           │  \r\n");
}

#[test]
fn parsing_twice_gives_the_same_deck() {
    let text = "6\nQ: one\nA: 1\nQ: two\nA:\n2\n\nQ:\nthree\nA: 3";
    let a = parse(text).unwrap();
    let b = parse(text).unwrap();
    assert_eq!(a.card_width, b.card_width);
    assert_eq!(texts(&a), texts(&b));
    assert_eq!(parse("x\n").err(), parse("x\n").err());
}

#[test]
fn marker_text_on_the_same_line() {
    let deck = parse("4\nQ: hi there\nA: yo\n").unwrap();
    assert_eq!(texts(&deck), vec![(framed("hi there", 4), framed("yo", 4))]);
}

#[test]
fn question_marker_is_optional() {
    let deck = parse("3\nfirst\nA:\nsecond\n").unwrap();
    assert_eq!(texts(&deck), vec![(framed("first", 3), framed("second", 3))]);
}

#[test]
fn long_marker_and_multiline_bodies() {
    let deck = parse("5\nQuestion 1:\nab\n\n  cd\nA:\nx\ny \n\n\nQ2:\nq\nA: a\n").unwrap();
    let q = format!("{}{}{}", framed("ab", 5), framed("", 5), framed("  cd", 5));
    let a = format!("{}{}", framed("x", 5), framed("y", 5));
    assert_eq!(texts(&deck), vec![(q, a), (framed("q", 5), framed("a", 5))]);
}

#[test]
fn crlf_line_endings() {
    let deck = parse("2\r\nQ:\r\nup\r\ndown\r\nA:\r\nok\r\n").unwrap();
    assert_eq!(deck.card_width, 2);
    let q = format!("{}{}{}", framed("", 2), framed("up", 2), framed("down", 2));
    let a = format!("{}{}", framed("", 2), framed("ok", 2));
    assert_eq!(texts(&deck), vec![(q, a)]);
}

#[test]
fn markers_only_at_line_starts() {
    let deck = parse("8\nQ:\nDATA: what?\nA:\nan IQ: none\n").unwrap();
    assert_eq!(texts(&deck), vec![(framed("DATA: what?", 8), framed("an IQ: none", 8))]);
}

#[test]
fn empty_decks() {
    assert_eq!(parse("3\n").unwrap().cards.len(), 0);
    let deck = parse("12\n\n  \n").unwrap();
    assert_eq!(deck.card_width, 12);
    assert_eq!(deck.cards.len(), 0);
}

#[test]
fn bad_width() {
    assert_eq!(parse("").err(), Some(DeckError::BadWidth));
    assert_eq!(parse("ten\nQ:\na\nA:\nb\n").err(), Some(DeckError::BadWidth));
    assert_eq!(parse("10").err(), Some(DeckError::BadWidth));
    assert_eq!(parse("99999999999999999999999\nA\nA:\nb\n").err(), Some(DeckError::BadWidth));
}

#[test]
fn width_line_holds_only_digits() {
    assert_eq!(parse("7 wide\nq\nA: a\n").err(), Some(DeckError::BadWidth));
    assert_eq!(parse("10abc\nq\nA: a\n").err(), Some(DeckError::BadWidth));
    assert_eq!(parse("x10\nq\nA: a\n").err(), Some(DeckError::BadWidth));
    assert_eq!(parse("-3\nq\nA: a\n").err(), Some(DeckError::BadWidth));
    assert_eq!(parse("\nq\nA: a\n").err(), Some(DeckError::BadWidth));
    assert_eq!(parse("7\r\r\nq\nA: a\n").err(), Some(DeckError::BadWidth));
    let deck = parse("7\r\nq\nA: a\n").unwrap();
    assert_eq!(deck.card_width, 7);
    assert_eq!(deck.cards.len(), 1);
}

#[test]
fn unicode_blanks_are_trimmed() {
    let deck = parse("3\nq\u{3000}\nA: a\u{a0}\u{2003}\n\u{85}").unwrap();
    assert_eq!(texts(&deck), vec![(framed("q", 3), framed("a", 3))]);
}

#[test]
fn malformed_blocks() {
    assert_eq!(parse("3\nQ:\nno answer here\n").err(), Some(DeckError::Malformed));
    assert_eq!(parse("3\nQ:\nA:\nanswer\n").err(), Some(DeckError::Malformed));
    assert_eq!(parse("3\nQ:\nq\nA:\n  \n").err(), Some(DeckError::Malformed));
    assert_eq!(parse("3\nQ:\nq\nA:\na\nQ:\nlast\n").err(), Some(DeckError::Malformed));
}
