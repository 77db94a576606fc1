use solitaire::cards::{Card, Suit};
use solitaire::piles::{new_deck, Pile};

fn card(value: u8, suit: Suit, face_up: bool, clickable: bool) -> Card {
    let mut c = Card::new(value, suit);
    if face_up {
        c.flip();
    }
    if clickable {
        c.make_clickable();
    }
    c
}

fn states(p: &Pile) -> Vec<(u8, Suit, bool, bool)> {
    p.get_cards()
        .iter()
        .map(|c| (c.get_value(), c.get_suit(), c.is_face_up(), c.is_clickable()))
        .collect()
}

fn all_ids(cards: &[Card]) -> Vec<(u8, u8)> {
    let mut ids: Vec<(u8, u8)> = cards
        .iter()
        .map(|c| {
            let s = match c.get_suit() {
                Suit::Hearts => 0,
                Suit::Diamonds => 1,
                Suit::Spades => 2,
                Suit::Clubs => 3,
            };
            (c.get_value(), s)
        })
        .collect();
    ids.sort();
    ids
}

#[test]
fn empty_pile() {
    let mut p = Pile::new();
    assert_eq!(p.size(), 0);
    assert!(p.top().is_none());
    assert!(p.top_mut().is_none());
    assert!(p.draw_from_top().is_none());
    assert_eq!(p.size(), 0);
    let d = Pile::default();
    assert_eq!(d.size(), 0);
}

#[test]
fn new_with_keeps_the_order() {
    let p = Pile::new_with(vec![Card::new(1, Suit::Hearts), Card::new(2, Suit::Spades)]);
    assert_eq!(p.size(), 2);
    assert_eq!(p.get_cards()[0], Card::new(1, Suit::Hearts));
    assert_eq!(*p.top().unwrap(), Card::new(2, Suit::Spades));
}

#[test]
fn draw_makes_the_new_top_clickable() {
    let mut p = Pile::new_with(vec![
        card(1, Suit::Hearts, false, false),
        card(2, Suit::Hearts, false, false),
        card(3, Suit::Hearts, true, true),
    ]);
    let c = p.draw_from_top().unwrap();
    assert_eq!(c.get_value(), 3);
    assert!(c.is_face_up() && c.is_clickable());
    assert_eq!(
        states(&p),
        vec![(1, Suit::Hearts, false, false), (2, Suit::Hearts, false, true)]
    );
    let c = p.draw_from_top().unwrap();
    assert_eq!(c.get_value(), 2);
    assert!(c.is_clickable());
    assert_eq!(states(&p), vec![(1, Suit::Hearts, false, true)]);
}

#[test]
fn add_makes_the_old_top_unclickable() {
    let mut p = Pile::new();
    p.add_to_top(card(5, Suit::Clubs, true, true));
    assert_eq!(states(&p), vec![(5, Suit::Clubs, true, true)]);
    p.add_to_top(card(4, Suit::Hearts, true, true));
    assert_eq!(
        states(&p),
        vec![(5, Suit::Clubs, true, false), (4, Suit::Hearts, true, true)]
    );
}

#[test]
fn top_mut_changes_the_top_card() {
    let mut p = Pile::new_with(vec![Card::new(1, Suit::Hearts), Card::new(2, Suit::Hearts)]);
    p.top_mut().unwrap().flip();
    assert!(p.top().unwrap().is_face_up());
    assert!(!p.get_cards()[0].is_face_up());
    p.get_cards_mut().push(Card::new(3, Suit::Hearts));
    assert_eq!(p.size(), 3);
}

#[test]
fn reveal_top_card_cases() {
    let mut empty = Pile::new();
    assert!(!empty.reveal_top_card());

    let mut one = Pile::new_with(vec![card(9, Suit::Spades, false, true)]);
    assert!(one.reveal_top_card());
    assert_eq!(states(&one), vec![(9, Suit::Spades, true, true)]);

    let mut two = Pile::new_with(vec![
        card(8, Suit::Spades, false, false),
        card(9, Suit::Spades, false, true),
    ]);
    assert!(two.reveal_top_card());
    assert_eq!(
        states(&two),
        vec![(8, Suit::Spades, false, true), (9, Suit::Spades, true, true)]
    );
}

#[test]
fn reveal_new_top_if_needed_cases() {
    let mut empty = Pile::new();
    assert!(!empty.reveal_new_top_if_needed());

    let mut down = Pile::new_with(vec![card(6, Suit::Diamonds, false, false)]);
    assert!(down.reveal_new_top_if_needed());
    assert_eq!(states(&down), vec![(6, Suit::Diamonds, true, true)]);

    let mut up = Pile::new_with(vec![card(6, Suit::Diamonds, true, false)]);
    assert!(!up.reveal_new_top_if_needed());
    assert_eq!(states(&up), vec![(6, Suit::Diamonds, true, true)]);
}

#[test]
fn recycle_to_deck_reverses_and_turns_down() {
    let mut waste = Pile::new();
    let mut deck = Pile::new();
    assert_eq!(waste.recycle_to_deck(&mut deck), None);
    assert_eq!(deck.size(), 0);

    let mut waste = Pile::new_with(vec![
        card(1, Suit::Hearts, true, false),
        card(2, Suit::Clubs, false, false),
        card(3, Suit::Spades, true, true),
    ]);
    let mut deck = Pile::new();
    assert_eq!(waste.recycle_to_deck(&mut deck), Some(3));
    assert_eq!(waste.size(), 0);
    assert_eq!(
        states(&deck),
        vec![
            (3, Suit::Spades, false, false),
            (2, Suit::Clubs, false, false),
            (1, Suit::Hearts, false, true),
        ]
    );
}

#[test]
fn new_deck_holds_the_standard_cards() {
    let deck = new_deck();
    assert_eq!(deck.size(), 52);
    let mut expected = Vec::new();
    for v in 1..=13u8 {
        for s in 0..4u8 {
            expected.push((v, s));
        }
    }
    assert_eq!(all_ids(deck.get_cards()), expected);
    for (i, c) in deck.get_cards().iter().enumerate() {
        assert!(!c.is_face_up());
        assert_eq!(c.is_clickable(), i == 51);
    }
}

#[test]
fn shuffle_permutes_the_cards() {
    let mut cards = Vec::new();
    for v in 1..=13u8 {
        for s in [Suit::Hearts, Suit::Diamonds, Suit::Spades, Suit::Clubs] {
            cards.push(Card::new(v, s));
        }
    }
    let before = cards.clone();
    let mut p = Pile::new_with(cards);
    p.shuffle();
    assert_eq!(p.size(), 52);
    assert_eq!(all_ids(p.get_cards()), all_ids(&before));
    let same_order = p
        .get_cards()
        .iter()
        .zip(before.iter())
        .all(|(a, b)| a == b);
    assert!(!same_order);
}
