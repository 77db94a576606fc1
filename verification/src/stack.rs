use vstd::prelude::*;

use crate::cards::Card;

verus! {

/// A stack of cards kept in a `Vec`, the last element on top.
pub trait CardStack {
    /// The cards of the stack, bottom first.
    spec fn stack_view(&self) -> Seq<Card>;

    fn cards(&self) -> (r: &Vec<Card>)
        ensures
            r@ == self.stack_view(),
    ;

    fn cards_mut(&mut self) -> (r: &mut Vec<Card>)
        ensures
            r@ == old(self).stack_view(),
            final(self).stack_view() == final(r)@,
    ;

    /// Removes and returns the top card, if any.
    fn draw_from_top(&mut self) -> (r: Option<Card>)
        ensures
            old(self).stack_view().len() == 0 ==> r is None && final(self).stack_view()
                == old(self).stack_view(),
            old(self).stack_view().len() > 0 ==> r == Some(old(self).stack_view().last())
                && final(self).stack_view() == old(self).stack_view().drop_last(),
    {
        self.cards_mut().pop()
    }

    /// Places `card` on top.
    fn add_to_top(&mut self, card: Card)
        ensures
            final(self).stack_view() == old(self).stack_view().push(card),
    {
        self.cards_mut().push(card);
    }

    fn top(&self) -> (r: Option<&Card>)
        ensures
            self.stack_view().len() == 0 ==> r is None,
            self.stack_view().len() > 0 ==> r == Some(&self.stack_view().last()),
    {
        self.cards().last()
    }

    fn size(&self) -> (n: usize)
        ensures
            n == self.stack_view().len(),
    {
        self.cards().len()
    }
}

} // verus!
