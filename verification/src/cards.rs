use vstd::prelude::*;

verus! {

/// The four suits of a standard deck.
#[derive(Debug, Clone, Copy, PartialEq, Eq, Structural)]
pub enum Suit {
    Hearts,
    Diamonds,
    Spades,
    Clubs,
}

/// A playing card. Two cards compare equal (`==`) when they have the same
/// value and suit, whatever their face and clickability.
#[derive(Debug, Clone, Copy, Eq)]
pub struct Card {
    value: u8,
    suit: Suit,
    face_up: bool,
    is_clickable: bool,
}

impl PartialEq for Card {
    fn eq(&self, other: &Self) -> (r: bool) {
        self.value == other.value && self.suit == other.suit
    }
}

impl vstd::std_specs::cmp::PartialEqSpecImpl for Card {
    open spec fn obeys_eq_spec() -> bool {
        true
    }

    open spec fn eq_spec(&self, other: &Card) -> bool {
        same_identity(*self, *other)
    }
}

impl Card {
    /// The card's rank, 1 (ace) to 13 (king) in a standard deck.
    pub closed spec fn value(self) -> u8 {
        self.value
    }

    pub closed spec fn suit(self) -> Suit {
        self.suit
    }

    pub closed spec fn face_up(self) -> bool {
        self.face_up
    }

    pub closed spec fn clickable(self) -> bool {
        self.is_clickable
    }

    /// The card with the given value, suit, face and clickability.
    pub closed spec fn mk(value: u8, suit: Suit, face_up: bool, clickable: bool) -> Card {
        Card { value, suit, face_up, is_clickable: clickable }
    }

    /// This card turned over.
    pub open spec fn flipped(self) -> Card {
        Card::mk(self.value(), self.suit(), !self.face_up(), self.clickable())
    }

    /// This card with its clickability set to `b`.
    pub open spec fn with_clickable(self, b: bool) -> Card {
        Card::mk(self.value(), self.suit(), self.face_up(), b)
    }

    /// This card with its face set to `b`.
    pub open spec fn with_face_up(self, b: bool) -> Card {
        Card::mk(self.value(), self.suit(), b, self.clickable())
    }

    pub broadcast proof fn lemma_mk_fields(value: u8, suit: Suit, face_up: bool, clickable: bool)
        ensures
            (#[trigger] Card::mk(value, suit, face_up, clickable)).value() == value,
            Card::mk(value, suit, face_up, clickable).suit() == suit,
            Card::mk(value, suit, face_up, clickable).face_up() == face_up,
            Card::mk(value, suit, face_up, clickable).clickable() == clickable,
    {
    }

    pub broadcast proof fn lemma_card_ext(a: Card, b: Card)
        requires
            a.value() == b.value(),
            a.suit() == b.suit(),
            a.face_up() == b.face_up(),
            #[trigger] a.clickable() == #[trigger] b.clickable(),
        ensures
            a == b,
    {
    }

    pub broadcast proof fn lemma_card_eta(c: Card)
        ensures
            #[trigger] Card::mk(c.value(), c.suit(), c.face_up(), c.clickable()) == c,
    {
    }

    /// A new card of the given value and suit, face down and not clickable.
    pub fn new(value_: u8, suit_: Suit) -> (c: Self)
        ensures
            c == Card::mk(value_, suit_, false, false),
    {
        let value = value_;
        let suit = suit_;
        let face_up = false;
        let is_clickable = false;
        Self { value, suit, face_up, is_clickable }
    }

    /// Turns the card over.
    pub fn flip(&mut self)
        ensures
            *final(self) == old(self).flipped(),
    {
        self.face_up = !self.face_up;
    }

    pub fn is_face_up(&self) -> (b: bool)
        ensures
            b == self.face_up(),
    {
        self.face_up
    }

    pub fn make_clickable(&mut self)
        ensures
            *final(self) == old(self).with_clickable(true),
    {
        self.is_clickable = true;
    }

    pub fn make_unclickable(&mut self)
        ensures
            *final(self) == old(self).with_clickable(false),
    {
        self.is_clickable = false;
    }

    pub fn is_clickable(&self) -> (b: bool)
        ensures
            b == self.clickable(),
    {
        self.is_clickable
    }

    pub fn get_value(&self) -> (v: u8)
        ensures
            v == self.value(),
    {
        self.value
    }

    pub fn get_suit(&self) -> (s: Suit)
        ensures
            s == self.suit(),
    {
        self.suit
    }

    pub fn is_red(&self) -> (b: bool)
        ensures
            b == suit_is_red(self.suit()),
    {
        match self.get_suit() {
            Suit::Hearts => true,
            Suit::Diamonds => true,
            Suit::Spades => false,
            Suit::Clubs => false,
        }
    }
}

pub broadcast group group_card_lemmas {
    Card::lemma_mk_fields,
    Card::lemma_card_ext,
    Card::lemma_card_eta,
}

/// Hearts and diamonds are red; spades and clubs are black.
pub open spec fn suit_is_red(s: Suit) -> bool {
    s == Suit::Hearts || s == Suit::Diamonds
}

/// Two cards have the same identity when they share value and suit.
pub open spec fn same_identity(a: Card, b: Card) -> bool {
    a.value() == b.value() && a.suit() == b.suit()
}

pub fn same_card_identity(a: &Card, b: &Card) -> (r: bool)
    ensures
        r == same_identity(*a, *b),
{
    a.get_value() == b.get_value() && a.get_suit() == b.get_suit()
}

/// The name of a suit, as its variant is spelled.
pub open spec fn suit_name(s: Suit) -> Seq<char> {
    match s {
        Suit::Hearts => "Hearts"@,
        Suit::Diamonds => "Diamonds"@,
        Suit::Spades => "Spades"@,
        Suit::Clubs => "Clubs"@,
    }
}

/// The name of a suit, as its variant is spelled.
pub fn suit_name_string(s: Suit) -> (r: String)
    ensures
        r@ == suit_name(s),
{
    match s {
        Suit::Hearts => "Hearts".to_owned(),
        Suit::Diamonds => "Diamonds".to_owned(),
        Suit::Spades => "Spades".to_owned(),
        Suit::Clubs => "Clubs".to_owned(),
    }
}

} // verus!
