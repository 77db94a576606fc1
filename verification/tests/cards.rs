use solitaire::cards::{same_card_identity, suit_name_string, Card, Suit};

#[test]
fn new_card_is_face_down_and_not_clickable() {
    let c = Card::new(7, Suit::Spades);
    assert_eq!(c.get_value(), 7);
    assert_eq!(c.get_suit(), Suit::Spades);
    assert!(!c.is_face_up());
    assert!(!c.is_clickable());
}

#[test]
fn flip_turns_the_card_over_and_back() {
    let mut c = Card::new(1, Suit::Hearts);
    c.flip();
    assert!(c.is_face_up());
    c.flip();
    assert!(!c.is_face_up());
    assert_eq!(c.get_value(), 1);
    assert_eq!(c.get_suit(), Suit::Hearts);
}

#[test]
fn clickability_can_be_set_and_cleared() {
    let mut c = Card::new(12, Suit::Clubs);
    c.make_clickable();
    assert!(c.is_clickable());
    c.make_clickable();
    assert!(c.is_clickable());
    c.make_unclickable();
    assert!(!c.is_clickable());
    assert!(!c.is_face_up());
}

#[test]
fn red_and_black_suits() {
    assert!(Card::new(3, Suit::Hearts).is_red());
    assert!(Card::new(3, Suit::Diamonds).is_red());
    assert!(!Card::new(3, Suit::Spades).is_red());
    assert!(!Card::new(3, Suit::Clubs).is_red());
}

#[test]
fn equality_ignores_face_and_clickability() {
    let a = Card::new(10, Suit::Diamonds);
    let mut b = Card::new(10, Suit::Diamonds);
    b.flip();
    b.make_clickable();
    assert!(a == b);
    assert!(same_card_identity(&a, &b));
    assert!(a != Card::new(10, Suit::Hearts));
    assert!(a != Card::new(9, Suit::Diamonds));
    assert!(!same_card_identity(&a, &Card::new(10, Suit::Clubs)));
    assert!(!same_card_identity(&a, &Card::new(11, Suit::Diamonds)));
}

#[test]
fn suit_names_spell_the_variants() {
    assert_eq!(suit_name_string(Suit::Hearts), "Hearts");
    assert_eq!(suit_name_string(Suit::Diamonds), "Diamonds");
    assert_eq!(suit_name_string(Suit::Spades), "Spades");
    assert_eq!(suit_name_string(Suit::Clubs), "Clubs");
}
