use vstd::prelude::*;

use rand::seq::SliceRandom;

use crate::cards::{Card, Suit, group_card_lemmas};

verus! {

broadcast use {group_card_lemmas, vstd::seq_lib::group_to_multiset_ensures};

/// The outside type of the thread-local random number generator.
#[verifier::external_type_specification]
#[verifier::external_body]
pub struct ExThreadRng(rand::rngs::ThreadRng);

/// Calls `rand::rng()`, which hands out the thread-local random generator.
/// Nothing is stated of the generator; it panics only when the operating
/// system cannot seed it, which no argument here can rule out.
#[verifier::external_body]
pub(crate) fn thread_rng() -> rand::rngs::ThreadRng {
    rand::rng()
}

/// Calls `SliceRandom::shuffle` on the cards. Its source performs only swaps
/// of elements (a Fisher-Yates shuffle), so the result is a permutation of
/// the input: the same multiset of cards. Which permutation comes out rests
/// on the generator and is left unsaid.
#[verifier::external_body]
pub(crate) fn shuffle_cards(cards: &mut Vec<Card>, rng: &mut rand::rngs::ThreadRng)
    ensures
        final(cards)@.len() == old(cards)@.len(),
        final(cards)@.to_multiset() == old(cards)@.to_multiset(),
{
    cards.shuffle(rng);
}

/// A pile of cards; the last element is the top of the pile.
#[derive(Debug)]
pub struct Pile {
    cards: Vec<Card>,
}

impl View for Pile {
    type V = Seq<Card>;

    closed spec fn view(&self) -> Seq<Card> {
        self.cards@
    }
}

/// The views of a sequence of piles.
pub open spec fn piles_view(v: Seq<Pile>) -> Seq<Seq<Card>> {
    v.map_values(|p: Pile| p@)
}

pub broadcast proof fn lemma_piles_view_update(v: Seq<Pile>, i: int, p: Pile)
    requires
        0 <= i < v.len(),
    ensures
        #[trigger] piles_view(v.update(i, p)) == piles_view(v).update(i, p@),
{
    assert(piles_view(v.update(i, p)) =~= piles_view(v).update(i, p@));
}

pub broadcast proof fn lemma_piles_view_push(v: Seq<Pile>, p: Pile)
    ensures
        #[trigger] piles_view(v.push(p)) == piles_view(v).push(p@),
{
    assert(piles_view(v.push(p)) =~= piles_view(v).push(p@));
}

/// The pile `s` after its top card is drawn: the card below the top, if
/// any, becomes clickable.
pub open spec fn pile_after_draw(s: Seq<Card>) -> Seq<Card> {
    if s.len() >= 2 {
        s.drop_last().update(s.len() - 2, s[s.len() - 2].with_clickable(true))
    } else {
        s.drop_last()
    }
}

/// The pile `s` after `c` is placed on top: the former top, if any, stops
/// being clickable.
pub open spec fn pile_after_add(s: Seq<Card>, c: Card) -> Seq<Card> {
    if s.len() >= 1 {
        s.update(s.len() - 1, s.last().with_clickable(false)).push(c)
    } else {
        s.push(c)
    }
}

/// The pile `s` after its top card is turned over; the card below it, if
/// any, becomes clickable.
pub open spec fn pile_after_reveal_top(s: Seq<Card>) -> Seq<Card> {
    if s.len() == 0 {
        s
    } else if s.len() == 1 {
        s.update(0, s[0].flipped())
    } else {
        s.update(s.len() - 1, s.last().flipped()).update(
            s.len() - 2,
            s[s.len() - 2].with_clickable(true),
        )
    }
}

/// The pile `s` after its top card, if any, is made face up and clickable.
pub open spec fn pile_after_reveal_new_top(s: Seq<Card>) -> Seq<Card> {
    if s.len() == 0 {
        s
    } else {
        s.update(s.len() - 1, s.last().with_face_up(true).with_clickable(true))
    }
}

/// The cards of a recycled waste pile as they land on the deck: in reverse
/// order, face down, only the last one clickable.
pub open spec fn recycled(s: Seq<Card>) -> Seq<Card> {
    Seq::new(
        s.len(),
        |i: int| s[s.len() - 1 - i].with_face_up(false).with_clickable(i == s.len() - 1),
    )
}

impl Default for Pile {
    fn default() -> (p: Self)
        ensures
            p@ == Seq::<Card>::empty(),
    {
        Self::new()
    }
}

impl Pile {
    /// An empty pile.
    pub fn new() -> (p: Self)
        ensures
            p@ == Seq::<Card>::empty(),
    {
        Self { cards: Vec::new() }
    }

    /// A pile holding `cards`, the last one on top.
    pub fn new_with(cards: Vec<Card>) -> (p: Self)
        ensures
            p@ == cards@,
    {
        Self { cards }
    }

    /// Puts the pile in a random order.
    pub fn shuffle(&mut self)
        ensures
            final(self)@.len() == old(self)@.len(),
            final(self)@.to_multiset() == old(self)@.to_multiset(),
    {
        let mut rng = thread_rng();
        shuffle_cards(&mut self.cards, &mut rng);
    }

    pub fn get_cards(&self) -> (r: &Vec<Card>)
        ensures
            r@ == self@,
    {
        &self.cards
    }

    pub fn get_cards_mut(&mut self) -> (r: &mut Vec<Card>)
        ensures
            r@ == old(self)@,
            final(self)@ == final(r)@,
    {
        &mut self.cards
    }

    /// Removes and returns the top card; the new top becomes clickable.
    pub fn draw_from_top(&mut self) -> (r: Option<Card>)
        ensures
            old(self)@.len() == 0 ==> r is None && final(self)@ == old(self)@,
            old(self)@.len() > 0 ==> r == Some(old(self)@.last()) && final(self)@
                == pile_after_draw(old(self)@),
    {
        if self.size() >= 2 {
            let len = self.size();
            self.cards[len - 2].make_clickable();
        }
        self.cards.pop()
    }

    /// Places `card` on top; the former top stops being clickable.
    pub fn add_to_top(&mut self, card: Card)
        ensures
            final(self)@ == pile_after_add(old(self)@, card),
    {
        if self.size() >= 1 {
            let len = self.size();
            self.cards[len - 1].make_unclickable();
        }
        self.cards.push(card);
    }

    pub fn top(&self) -> (r: Option<&Card>)
        ensures
            self@.len() == 0 ==> r is None,
            self@.len() > 0 ==> r == Some(&self@.last()),
    {
        self.cards.last()
    }

    pub fn top_mut(&mut self) -> (r: Option<&mut Card>)
        ensures
            old(self)@.len() == 0 ==> r is None && final(self)@ == old(self)@,
            old(self)@.len() > 0 ==> r is Some && *r.unwrap() == old(self)@.last()
                && final(self)@ == old(self)@.update(
                old(self)@.len() - 1,
                *final(r.unwrap()),
            ),
    {
        self.cards.last_mut()
    }

    pub fn size(&self) -> (n: usize)
        ensures
            n == self@.len(),
    {
        self.cards.len()
    }

    /// Turns the top card over; returns false on an empty pile.
    pub fn reveal_top_card(&mut self) -> (b: bool)
        ensures
            b == (old(self)@.len() > 0),
            final(self)@ == pile_after_reveal_top(old(self)@),
    {
        let n = self.size();
        if n == 0 {
            false
        } else if n == 1 {
            self.cards[0].flip();
            true
        } else {
            let len = self.size();
            self.cards[len - 1].flip();
            self.cards[len - 2].make_clickable();
            true
        }
    }

    /// Makes the top card face up and clickable; returns true when it had to
    /// be turned over.
    pub fn reveal_new_top_if_needed(&mut self) -> (b: bool)
        ensures
            b == (old(self)@.len() > 0 && !old(self)@.last().face_up()),
            final(self)@ == pile_after_reveal_new_top(old(self)@),
    {
        if self.size() == 0 {
            false
        } else {
            let len = self.size();
            if self.cards[len - 1].is_face_up() {
                self.cards[len - 1].make_clickable();
                false
            } else {
                self.cards[len - 1].flip();
                self.cards[len - 1].make_clickable();
                true
            }
        }
    }

    /// Moves every card of this pile onto `dest`, in reverse order, face
    /// down, with only the last one clickable. Returns how many moved, or
    /// `None` when this pile is empty.
    pub fn recycle_to_deck(&mut self, dest: &mut Pile) -> (r: Option<usize>)
        ensures
            final(self)@ == Seq::<Card>::empty(),
            old(self)@.len() <= usize::MAX,
            old(self)@.len() == 0 ==> r is None && final(dest)@ == old(dest)@,
            old(self)@.len() > 0 ==> r == Some(old(self)@.len() as usize) && final(dest)@
                == old(dest)@ + recycled(old(self)@),
    {
        let mut cards: Vec<Card> = Vec::new();
        std::mem::swap(&mut cards, &mut self.cards);
        if cards.len() == 0 {
            return None;
        }
        let ghost src = cards@;
        let ghost base = dest.cards@;
        let len = cards.len();
        let mut i: usize = 0;
        while i < len
            invariant
                0 <= i <= len,
                len == src.len(),
                cards@ == src.take(len - i),
                dest.cards@ == base + recycled(src).take(i as int).map_values(
                    |c: Card| c.with_clickable(false),
                ),
            decreases len - i,
        {
            let mut card = cards.pop().unwrap();
            card.make_unclickable();
            if card.is_face_up() {
                card.flip();
            }
            assert(card == recycled(src)[i as int].with_clickable(false));
            dest.cards.push(card);
            i = i + 1;
            assert(dest.cards@ =~= base + recycled(src).take(i as int).map_values(
                |c: Card| c.with_clickable(false),
            ));
        }
        let dlen = dest.cards.len();
        dest.cards[dlen - 1].make_clickable();
        assert(dest.cards@ =~= base + recycled(src));
        Some(len)
    }
}

/// The 52 cards of a standard deck in the order they are made: values 1 to
/// 13, each in the suit order hearts, diamonds, spades, clubs; face down and
/// not clickable.
pub open spec fn standard_deck() -> Seq<Card> {
    Seq::new(52, |i: int| Card::mk((i / 4 + 1) as u8, suit_at(i % 4), false, false))
}

/// The suit at position `k` of the order hearts, diamonds, spades, clubs.
pub open spec fn suit_at(k: int) -> Suit {
    if k == 0 {
        Suit::Hearts
    } else if k == 1 {
        Suit::Diamonds
    } else if k == 2 {
        Suit::Spades
    } else {
        Suit::Clubs
    }
}

/// The 52 standard cards, in order, face down and not clickable.
pub(crate) fn standard_cards() -> (cards: Vec<Card>)
    ensures
        cards@ == standard_deck(),
{
    let mut cards: Vec<Card> = Vec::with_capacity(52);
    let suits = [Suit::Hearts, Suit::Diamonds, Suit::Spades, Suit::Clubs];
    let mut value: u8 = 1;
    while value <= 13
        invariant
            1 <= value <= 14,
            cards@.len() == 4 * (value - 1),
            suits@ == seq![Suit::Hearts, Suit::Diamonds, Suit::Spades, Suit::Clubs],
            forall|i: int| 0 <= i < cards@.len() ==> #[trigger] cards@[i] == standard_deck()[i],
        decreases 14 - value,
    {
        let mut k: usize = 0;
        while k < 4
            invariant
                1 <= value <= 13,
                0 <= k <= 4,
                cards@.len() == 4 * (value - 1) + k,
                suits@ == seq![Suit::Hearts, Suit::Diamonds, Suit::Spades, Suit::Clubs],
                forall|i: int| 0 <= i < cards@.len() ==> #[trigger] cards@[i] == standard_deck()[i],
            decreases 4 - k,
        {
            let suit = suits[k];
            cards.push(Card::new(value, suit));
            k = k + 1;
        }
        value = value + 1;
    }
    assert(cards@ =~= standard_deck());
    cards
}

/// Whether `d` holds the 52 standard cards in some order, face down, with
/// only the top card clickable.
pub open spec fn is_shuffled_deck(d: Seq<Card>) -> bool {
    &&& d.len() == 52
    &&& d.map_values(|c: Card| c.with_clickable(false)).to_multiset()
        == standard_deck().to_multiset()
    &&& forall|i: int| 0 <= i < 52 ==> !(#[trigger] d[i]).face_up()
    &&& forall|i: int| 0 <= i < 52 ==> (#[trigger] d[i]).clickable() == (i == 51)
}

/// A shuffled standard deck: the 52 standard cards in some order, face
/// down, with only the top card clickable.
pub fn new_deck() -> (deck: Pile)
    ensures
        is_shuffled_deck(deck@),
{
    let cards = standard_cards();
    let mut deck = Pile::new_with(cards);
    deck.shuffle();
    let ghost shuffled = deck.cards@;
    proof {
        assert forall|i: int| 0 <= i < 52 implies !(#[trigger] shuffled[i]).face_up()
            && !shuffled[i].clickable() by {
            assert(shuffled.contains(shuffled[i]));
            assert(shuffled.to_multiset().count(shuffled[i]) > 0);
            assert(standard_deck().contains(shuffled[i]));
            let j = choose|j: int| 0 <= j < 52 && standard_deck()[j] == shuffled[i];
            assert(standard_deck()[j] == Card::mk((j / 4 + 1) as u8, suit_at(j % 4), false, false));
        }
    }
    let len = deck.cards.len();
    deck.cards[len - 1].make_clickable();
    assert(deck.cards@.map_values(|c: Card| c.with_clickable(false)) =~= shuffled);
    deck
}

} // verus!
