use flashcards::deck::parse;
use flashcards::render::render;
use flashcards::session::{Event, Session};

fn sorted(v: &[usize]) -> Vec<usize> {
    let mut v = v.to_vec();
    v.sort();
    v
}

fn count_starred(s: &Session) -> usize {
    s.starred.iter().filter(|b| **b).count()
}

#[test]
fn new_session_holds_every_card_once() {
    let s = Session::new(5);
    assert_eq!(sorted(&s.order), vec![0, 1, 2, 3, 4]);
    assert_eq!(s.starred, vec![false; 5]);
    assert_eq!(s.num_starred, 0);
    assert_eq!(s.i, 0);
    assert!(!s.flipped);
    assert!(!s.is_finished());
}

#[test]
fn empty_deck_is_finished_at_once() {
    let mut s = Session::new(0);
    assert!(s.is_finished());
    assert!(s.handle(Event::Enter));
    assert!(s.is_finished());
    assert!(s.handle(Event::Left));
    assert_eq!(s.i, 0);
}

#[test]
fn advance_twice_then_reshuffle_all() {
    let mut s = Session::new(2);
    assert!(s.handle(Event::Right));
    assert_eq!(s.i, 1);
    assert!(s.handle(Event::Right));
    assert!(s.is_finished());
    assert!(!s.flipped);
    assert!(s.handle(Event::Right));
    assert_eq!(s.i, 2);
    assert!(s.handle(Event::Enter));
    assert_eq!(s.i, 0);
    assert!(!s.flipped);
    assert_eq!(sorted(&s.order), vec![0, 1]);
}

#[test]
fn starred_only_pass_with_both_starred() {
    let mut s = Session::new(2);
    s.handle(Event::Enter);
    s.handle(Event::Right);
    s.handle(Event::Enter);
    assert_eq!(s.num_starred, 2);
    assert_eq!(s.starred, vec![true, true]);
    s.handle(Event::Right);
    assert!(s.is_finished());
    s.handle(Event::Down);
    assert!(s.flipped);
    s.handle(Event::Enter);
    assert_eq!(s.order.len(), 2);
    assert_eq!(sorted(&s.order), vec![0, 1]);
    assert_eq!(s.i, 0);
    assert!(!s.flipped);
}

#[test]
fn starred_only_pass_with_none_starred_is_empty() {
    let mut s = Session::new(3);
    for _ in 0..3 {
        s.handle(Event::Right);
    }
    assert!(s.is_finished());
    s.handle(Event::Up);
    s.handle(Event::Enter);
    assert_eq!(s.order.len(), 0);
    assert_eq!(s.i, 0);
    assert!(s.is_finished());
    s.handle(Event::Enter);
    assert_eq!(sorted(&s.order), vec![0, 1, 2]);
}

#[test]
fn starred_only_pass_takes_exactly_the_starred() {
    let mut s = Session::new(4);
    let first = s.order[0];
    let third = s.order[2];
    s.handle(Event::Enter);
    s.handle(Event::Right);
    s.handle(Event::Right);
    s.handle(Event::Enter);
    assert_eq!(s.num_starred, 2);
    assert_eq!(count_starred(&s), 2);
    s.handle(Event::Right);
    s.handle(Event::Right);
    s.handle(Event::Down);
    s.handle(Event::Enter);
    assert_eq!(sorted(&s.order), sorted(&[first, third]));
    s.handle(Event::Right);
    s.handle(Event::Right);
    s.handle(Event::Enter);
    assert_eq!(sorted(&s.order), vec![0, 1, 2, 3]);
}

#[test]
fn starring_twice_restores_flags_and_counter() {
    let mut s = Session::new(3);
    s.handle(Event::Right);
    let flags = s.starred.clone();
    s.handle(Event::Enter);
    assert_eq!(s.num_starred, 1);
    assert!(s.starred[s.order[1]]);
    s.handle(Event::Enter);
    assert_eq!(s.starred, flags);
    assert_eq!(s.num_starred, 0);
    assert_eq!(count_starred(&s), s.num_starred);
}

#[test]
fn moving_and_flipping() {
    let mut s = Session::new(3);
    assert!(s.handle(Event::Left));
    assert_eq!(s.i, 0);
    s.handle(Event::Up);
    assert!(s.flipped);
    s.handle(Event::Right);
    assert_eq!(s.i, 1);
    assert!(!s.flipped);
    s.handle(Event::Down);
    s.handle(Event::Left);
    assert_eq!(s.i, 0);
    assert!(!s.flipped);
    s.handle(Event::Other);
    assert_eq!(s.i, 0);
    let order = s.order.clone();
    for _ in 0..3 {
        s.handle(Event::Right);
    }
    assert!(s.is_finished());
    s.handle(Event::Left);
    assert_eq!(s.i, 2);
    assert!(!s.flipped);
    assert_eq!(s.order, order);
}

#[test]
fn quit_stops_and_changes_nothing() {
    let mut s = Session::new(2);
    s.handle(Event::Enter);
    let before = (s.starred.clone(), s.num_starred, s.order.clone(), s.i, s.flipped);
    assert!(!s.handle(Event::Quit));
    assert_eq!((s.starred.clone(), s.num_starred, s.order.clone(), s.i, s.flipped), before);
}

#[test]
fn pool_follows_the_choice() {
    let mut s = Session::new(3);
    assert_eq!(s.pool(), vec![0, 1, 2]);
    let k = s.order[0];
    s.handle(Event::Enter);
    s.flipped = true;
    assert_eq!(s.pool(), vec![k]);
    let mut t = Session::new(3);
    for _ in 0..3 {
        t.handle(Event::Right);
    }
    t.begin_pass(vec![2, 0, 1]);
    assert_eq!(t.order, vec![2, 0, 1]);
    assert_eq!(t.i, 0);
}

#[test]
fn screen_while_browsing() {
    let deck = parse("3\nQ: a\nA: b\n").unwrap();
    let mut s = Session::new(1);
    let top = "  ┌───────┐\r\n";
    let mid = "  ├───────┤\r\n";
    let bottom = "  └───────┘\r\n\r\n";
    let head = "\r\n  use arrow keys to move, enter to star or unstar, and q to exit.\r\n\r\n";
    let q = "  │  a    │  \r\n";
    let a = "  │  b    │  \r\n";
    assert_eq!(
        render(&deck, &s),
        format!("{}  0 out of 1 starred.\r\n\r\n  (1/1) Not Starred\r\n\r\n{}{}{}", head, top, q, bottom)
    );
    s.handle(Event::Enter);
    s.handle(Event::Up);
    assert_eq!(
        render(&deck, &s),
        format!("{}  1 out of 1 starred.\r\n\r\n  (1/1) Starred\r\n\r\n{}{}{}{}{}", head, top, q, mid, a, bottom)
    );
}

#[test]
fn screen_when_finished() {
    let deck = parse("3\nQ: a\nA: b\nQ: c\nA: d\nQ: e\nA: f\nQ: g\nA: h\nQ: i\nA: j\nQ: k\nA: l\nQ: m\nA: n\nQ: o\nA: p\nQ: q\nA: r\nQ: s\nA: t\nQ: u\nA: v\nQ: w\nA: x\n").unwrap();
    assert_eq!(deck.cards.len(), 12);
    let mut s = Session::new(12);
    for _ in 0..12 {
        s.handle(Event::Right);
    }
    let head = "\r\n  finished! press left to go back, enter to reshuffle and start over.\r\n\r\n  0 out of 12 starred.\r\n\r\n  (12/12)\r\n\r\n";
    assert_eq!(
        render(&deck, &s),
        format!("{}  will study all cards. press up or down to flip\r\n\r\n", head)
    );
    s.handle(Event::Down);
    assert_eq!(
        render(&deck, &s),
        format!("{}  will study starred cards only. press up or down to flip\r\n\r\n", head)
    );
}
