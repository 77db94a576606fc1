use vstd::prelude::*;

use crate::cards::Card;
use crate::piles::{shuffle_cards, standard_cards, standard_deck, thread_rng};
use crate::stack::CardStack;

verus! {

/// A plain deck of cards.
#[derive(Debug)]
pub struct Deck {
    cards: Vec<Card>,
}

impl Deck {
    /// The 52 standard cards in order: values 1 to 13, each in the suit
    /// order hearts, diamonds, spades, clubs; face down.
    pub fn new() -> (d: Self)
        ensures
            d.stack_view() == standard_deck(),
    {
        let cards = standard_cards();
        Self { cards }
    }

    /// Puts the deck in a random order.
    pub fn shuffle(&mut self)
        ensures
            final(self).stack_view().len() == old(self).stack_view().len(),
            final(self).stack_view().to_multiset() == old(self).stack_view().to_multiset(),
    {
        let mut rng = thread_rng();
        shuffle_cards(&mut self.cards, &mut rng);
    }
}

impl CardStack for Deck {
    closed spec fn stack_view(&self) -> Seq<Card> {
        self.cards@
    }

    fn cards(&self) -> (r: &Vec<Card>) {
        &self.cards
    }

    fn cards_mut(&mut self) -> (r: &mut Vec<Card>) {
        &mut self.cards
    }
}

} // verus!
