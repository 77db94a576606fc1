use solitaire::cards::{Card, Suit};
use solitaire::decks::Deck;
use solitaire::stack::CardStack;

#[test]
fn deck_new_is_in_standard_order() {
    let d = Deck::new();
    assert_eq!(d.size(), 52);
    let suits = [Suit::Hearts, Suit::Diamonds, Suit::Spades, Suit::Clubs];
    for (i, c) in d.cards().iter().enumerate() {
        assert_eq!(c.get_value() as usize, i / 4 + 1);
        assert_eq!(c.get_suit(), suits[i % 4]);
        assert!(!c.is_face_up());
        assert!(!c.is_clickable());
    }
    assert_eq!(*d.top().unwrap(), Card::new(13, Suit::Clubs));
}

#[test]
fn card_stack_draw_and_add() {
    let mut d = Deck::new();
    let c = d.draw_from_top().unwrap();
    assert_eq!(c, Card::new(13, Suit::Clubs));
    assert_eq!(d.size(), 51);
    assert_eq!(*d.top().unwrap(), Card::new(13, Suit::Spades));
    d.add_to_top(c);
    assert_eq!(d.size(), 52);
    assert_eq!(*d.top().unwrap(), Card::new(13, Suit::Clubs));
    d.cards_mut().clear();
    assert!(d.draw_from_top().is_none());
    assert!(d.top().is_none());
}

#[test]
fn deck_shuffle_keeps_the_cards() {
    let mut d = Deck::new();
    d.shuffle();
    assert_eq!(d.size(), 52);
    let mut ids: Vec<(u8, u8)> = d
        .cards()
        .iter()
        .map(|c| {
            (
                c.get_value(),
                match c.get_suit() {
                    Suit::Hearts => 0,
                    Suit::Diamonds => 1,
                    Suit::Spades => 2,
                    Suit::Clubs => 3,
                },
            )
        })
        .collect();
    ids.sort();
    ids.dedup();
    assert_eq!(ids.len(), 52);
}
