use vstd::prelude::*;

use crate::cards::{
    Card, group_card_lemmas, same_card_identity, same_identity, suit_name, suit_name_string,
};
use crate::model::{
    GameModel, UndoModel, add_all, after_draws, apply_move, column_prefix, dealt, draw_n,
    drawn_n, first_allowed, flush_outcome, foundation_move_ok, foundation_moves,
    foundations_ordered, is_on_top, layout_ok,
    lemma_add_all_len, lemma_after_draws_step, lemma_column_prefix_step, lemma_draw_n_len,
    lemma_first_allowed_move, lemma_first_allowed_step, lemma_tri, lemma_with_pile, model_wf, move_outcome, pile_of,
    single_move_ok, single_move_result, stack_move_ok, stack_move_result, tableau_move_ok,
    tableau_moves, top_of, tri, turn_down_from, undo_move_cards_outcome, undo_outcome,
    undo_recycle_outcome, with_pile,
};
use crate::layout::{
    lemma_flush_keeps_foundations_ordered, lemma_flush_keeps_layout,
    lemma_move_keeps_foundations_ordered, lemma_move_keeps_layout, lemma_new_game_in_order,
};
use crate::history::{
    in_play, lemma_first_allowed_keeps_in_play, lemma_flush_keeps_in_play,
    lemma_move_keeps_in_play, lemma_new_game_in_play, lemma_undo_cards_history, lemma_undo_history,
    lemma_undo_in_play,
};
use crate::piles::{
    Pile, is_shuffled_deck, lemma_piles_view_push, lemma_piles_view_update, new_deck,
    pile_after_add, pile_after_draw, pile_after_reveal_new_top, piles_view,
};

verus! {

broadcast use {group_card_lemmas, lemma_piles_view_update, lemma_piles_view_push};

/// How a card shows to a player: suit name, value and face.
pub struct CardView {
    pub suit: String,
    pub value: u8,
    pub face_up: bool,
}

/// What a player sees of a game: the deck's size and every other pile.
pub struct GameState {
    pub deck_size: usize,
    pub waste: Vec<CardView>,
    pub tableau: Vec<Vec<CardView>>,
    pub foundation: Vec<Vec<CardView>>,
}

/// Whether `v` shows card `c`.
pub open spec fn shows(v: CardView, c: Card) -> bool {
    &&& v.suit@ == suit_name(c.suit())
    &&& v.value == c.value()
    &&& v.face_up == c.face_up()
}

/// Whether `vs` shows the pile `s`, card by card.
pub open spec fn shows_pile(vs: Seq<CardView>, s: Seq<Card>) -> bool {
    &&& vs.len() == s.len()
    &&& forall|i: int| 0 <= i < s.len() ==> shows(#[trigger] vs[i], s[i])
}

/// Whether `vs` shows the piles `ps`, pile by pile.
pub open spec fn shows_piles(vs: Seq<Vec<CardView>>, ps: Seq<Seq<Card>>) -> bool {
    &&& vs.len() == ps.len()
    &&& forall|i: int| 0 <= i < ps.len() ==> shows_pile((#[trigger] vs[i])@, ps[i])
}

fn card_view(c: &Card) -> (v: CardView)
    ensures
        shows(v, *c),
{
    CardView { suit: suit_name_string(c.get_suit()), value: c.get_value(), face_up: c.is_face_up() }
}

fn cards_view(cards: &Vec<Card>) -> (vs: Vec<CardView>)
    ensures
        shows_pile(vs@, cards@),
{
    let mut vs: Vec<CardView> = Vec::new();
    let mut i: usize = 0;
    while i < cards.len()
        invariant
            0 <= i <= cards@.len(),
            vs@.len() == i,
            forall|j: int| 0 <= j < i ==> shows(#[trigger] vs@[j], cards@[j]),
        decreases cards@.len() - i,
    {
        vs.push(card_view(&cards[i]));
        i = i + 1;
    }
    vs
}

fn piles_card_view(piles: &Vec<Pile>) -> (vs: Vec<Vec<CardView>>)
    ensures
        shows_piles(vs@, piles_view(piles@)),
{
    let mut vs: Vec<Vec<CardView>> = Vec::new();
    let mut i: usize = 0;
    while i < piles.len()
        invariant
            0 <= i <= piles@.len(),
            vs@.len() == i,
            forall|j: int| 0 <= j < i ==> shows_pile((#[trigger] vs@[j])@, piles@[j]@),
        decreases piles@.len() - i,
    {
        vs.push(cards_view(piles[i].get_cards()));
        i = i + 1;
    }
    vs
}

/// Names one pile of the game.
#[derive(Debug, Clone, Copy, PartialEq, Eq, Structural)]
pub enum PileKind {
    Deck,
    Waste,
    Tableau(usize),
    Foundation(usize),
}

/// A move that a player asks for.
#[derive(Debug, Clone, Copy)]
pub enum Move {
    FromDeckToWaste,
    FromWasteToPile { to: PileKind },
    FromTableauToTableau { from: PileKind, to: PileKind, count: usize },
    FromTableauToFoundation { from: PileKind, to: PileKind },
}

/// What is needed to undo one operation.
#[derive(Debug, Clone)]
pub enum UndoRecord {
    MoveCards {
        from: PileKind,
        to: PileKind,
        cards: Vec<Card>,
        moved_cards_were_modified: bool,
        flipped_source_top: bool,
    },
    RecycleWaste { cards_moved: usize },
}

impl View for UndoRecord {
    type V = UndoModel;

    open spec fn view(&self) -> UndoModel {
        match self {
            UndoRecord::MoveCards {
                from,
                to,
                cards,
                moved_cards_were_modified,
                flipped_source_top,
            } => UndoModel::MoveCards {
                from: *from,
                to: *to,
                cards: cards@,
                moved_cards_were_modified: *moved_cards_were_modified,
                flipped_source_top: *flipped_source_top,
            },
            UndoRecord::RecycleWaste { cards_moved } => UndoModel::RecycleWaste {
                cards_moved: *cards_moved,
            },
        }
    }
}

/// A refused move.
struct MoveError;

/// A game of Klondike solitaire.
#[derive(Debug)]
pub struct SolitaireGame {
    deck: Pile,
    tableau: Vec<Pile>,
    foundation: Vec<Pile>,
    waste: Pile,
    history: Vec<UndoRecord>,
}

pub open spec fn records_view(v: Seq<UndoRecord>) -> Seq<UndoModel> {
    v.map_values(|r: UndoRecord| r@)
}

impl View for SolitaireGame {
    type V = GameModel;

    closed spec fn view(&self) -> GameModel {
        GameModel {
            deck: self.deck@,
            waste: self.waste@,
            tableau: piles_view(self.tableau@),
            foundation: piles_view(self.foundation@),
            history: records_view(self.history@),
        }
    }
}

impl SolitaireGame {
    /// Seven tableau columns and four foundations.
    pub open spec fn wf(&self) -> bool {
        model_wf(self@)
    }

    fn pile_for_kind_mut(&mut self, kind: PileKind) -> (r: Option<&mut Pile>)
        ensures
            final(self)@.tableau.len() == old(self)@.tableau.len(),
            final(self)@.foundation.len() == old(self)@.foundation.len(),
            pile_of(old(self)@, kind) is None ==> r is None && final(self)@ == old(self)@,
            pile_of(old(self)@, kind) is Some ==> r is Some && r.unwrap()@ == pile_of(
                old(self)@,
                kind,
            ).unwrap() && final(self)@ == with_pile(old(self)@, kind, final(r.unwrap())@),
    {
        match kind {
            PileKind::Deck => Some(&mut self.deck),
            PileKind::Waste => Some(&mut self.waste),
            PileKind::Tableau(col) => {
                if col < self.tableau.len() {
                    Some(&mut self.tableau[col])
                } else {
                    None
                }
            },
            PileKind::Foundation(idx) => {
                if idx < self.foundation.len() {
                    Some(&mut self.foundation[idx])
                } else {
                    None
                }
            },
        }
    }

    /// Whether `card` has the identity of the top card of a tableau column,
    /// of the waste or of the deck.
    fn is_on_top(&self, card: &Card) -> (r: bool)
        requires
            self.wf(),
        ensures
            r == is_on_top(self@, *card),
    {
        let n = self.tableau.len();
        let mut i: usize = 0;
        while i < n
            invariant
                self.wf(),
                n == 7,
                0 <= i <= n,
                forall|j: int|
                    0 <= j < i ==> !(self@.tableau[j].len() > 0 && same_identity(
                        #[trigger] self@.tableau[j].last(),
                        *card,
                    )),
            decreases n - i,
        {
            if let Some(top_card) = self.tableau[i].top() {
                if *top_card == *card {
                    assert(self@.tableau[i as int].last() == *top_card);
                    return true;
                }
            }
            i = i + 1;
        }
        if let Some(top_card) = self.waste.top() {
            if *top_card == *card {
                return true;
            }
        }
        if let Some(top_card) = self.deck.top() {
            if *top_card == *card {
                return true;
            }
        }
        false
    }

    fn is_foundation_move_valid(&self, card: &Card, destination: &Pile) -> (r: bool)
        requires
            self.wf(),
        ensures
            r == foundation_move_ok(self@, *card, destination@),
    {
        if !self.is_on_top(card) {
            return false;
        }
        match destination.top() {
            None => card.get_value() == 1,
            Some(top_card) => {
                top_card.get_value() as u16 + 1 == card.get_value() as u16
                    && top_card.get_suit() == card.get_suit()
            },
        }
    }

    fn is_tableau_move_valid(&self, card: &Card, destination: &Pile) -> (r: bool)
        ensures
            r == tableau_move_ok(*card, destination@),
    {
        match destination.top() {
            None => {
                if card.get_value() == 13 {
                    return true;
                }
            },
            Some(top_card) => {
                if top_card.get_value() as u16 == card.get_value() as u16 + 1 && top_card.is_red()
                    != card.is_red() {
                    return true;
                }
            },
        }
        false
    }

    /// The top card of the deck, the waste or a tableau column, with its
    /// pile.
    fn try_get_top_card(&self, from: PileKind) -> (r: Option<(Card, &Pile)>)
        requires
            self.wf(),
        ensures
            top_of(self@, from) is None ==> r is None,
            top_of(self@, from) is Some ==> r is Some && r.unwrap().0 == top_of(
                self@,
                from,
            ).unwrap() && r.unwrap().1@ == pile_of(self@, from).unwrap(),
    {
        let (card, pile) = match from {
            PileKind::Deck => {
                let card_ref = match self.deck.top() {
                    Some(c) => c,
                    None => return None,
                };
                (*card_ref, &self.deck)
            },
            PileKind::Waste => {
                let card_ref = match self.waste.top() {
                    Some(c) => c,
                    None => return None,
                };
                (*card_ref, &self.waste)
            },
            PileKind::Tableau(col) => {
                if col >= self.tableau.len() {
                    return None;
                }
                let pile_ref = &self.tableau[col];
                let card_ref = match pile_ref.top() {
                    Some(c) => c,
                    None => return None,
                };
                (*card_ref, pile_ref)
            },
            PileKind::Foundation(_) => {
                return None;
            },
        };
        proof {
            if from is Tableau {
                assert(self@.tableau[from->Tableau_0 as int].last() == card);
            }
        }
        if !self.is_on_top(&card) {
            return None;
        }
        Some((card, pile))
    }

    /// Moves the top card of `from` onto `to` when the rules allow it.
    fn move_top_card(&mut self, from: PileKind, to: PileKind) -> (r: Result<UndoRecord, MoveError>)
        requires
            old(self).wf(),
        ensures
            final(self).wf(),
            !single_move_ok(old(self)@, from, to) ==> r is Err && final(self)@ == old(self)@,
            single_move_ok(old(self)@, from, to) ==> r is Ok && (r->Ok_0)@ == single_move_result(
                old(self)@,
                from,
                to,
            ).1 && final(self)@ == single_move_result(old(self)@, from, to).0,
    {
        let ghost g = self@;
        let card = match self.try_get_top_card(from) {
            Some((card, _)) => card,
            None => return Err(MoveError),
        };
        let mut moved_cards_were_modified = false;

        let reveal_col: Option<usize> = match (from, to) {
            (PileKind::Deck, PileKind::Waste) => {
                if !self.deck.reveal_top_card() {
                    return Err(MoveError);
                }
                moved_cards_were_modified = true;
                None
            },
            (PileKind::Waste, PileKind::Tableau(col)) => {
                if col >= self.tableau.len() {
                    return Err(MoveError);
                }
                let to_pile = &self.tableau[col];
                if !self.is_tableau_move_valid(&card, to_pile) {
                    return Err(MoveError);
                }
                None
            },
            (PileKind::Waste, PileKind::Foundation(idx)) => {
                if idx >= self.foundation.len() {
                    return Err(MoveError);
                }
                let to_pile = &self.foundation[idx];
                if !self.is_foundation_move_valid(&card, to_pile) {
                    return Err(MoveError);
                }
                None
            },
            (PileKind::Tableau(col1), PileKind::Tableau(col2)) => {
                if col2 >= self.tableau.len() {
                    return Err(MoveError);
                }
                let to_pile = &self.tableau[col2];
                if !self.is_tableau_move_valid(&card, to_pile) {
                    return Err(MoveError);
                }
                Some(col1)
            },
            (PileKind::Tableau(col), PileKind::Foundation(idx)) => {
                if idx >= self.foundation.len() {
                    return Err(MoveError);
                }
                let to_pile = &self.foundation[idx];
                if !self.is_foundation_move_valid(&card, to_pile) {
                    return Err(MoveError);
                }
                Some(col)
            },
            _ => {
                return Err(MoveError);
            },
        };
        assert(single_move_ok(g, from, to));
        let ghost g1 = self@;

        let drawn_card = match self.pile_for_kind_mut(from) {
            Some(from_pile) => match from_pile.draw_from_top() {
                Some(c) => c,
                None => return Err(MoveError),
            },
            None => return Err(MoveError),
        };

        assert(reveal_col is Some <==> from is Tableau);
        assert(reveal_col is Some ==> reveal_col->0 == from->Tableau_0);
        let ghost g2 = self@;
        let flipped_source_top = match reveal_col {
            Some(col) => self.tableau[col].reveal_new_top_if_needed(),
            None => false,
        };
        proof {
            if from is Tableau {
                let col = from->Tableau_0 as int;
                assert(g2.tableau[col] == pile_after_draw(g1.tableau[col]));
                assert(self@ == with_pile(g2, from, pile_after_reveal_new_top(g2.tableau[col])));
            }
        }

        let ghost g3 = self@;
        assert(pile_of(g3, to) is Some);
        match self.pile_for_kind_mut(to) {
            Some(to_pile) => to_pile.add_to_top(drawn_card),
            None => return Err(MoveError),
        }
        assert(self@ == with_pile(g3, to, pile_after_add(pile_of(g3, to).unwrap(), drawn_card)));
        proof {
            if from is Tableau {
                let src = pile_of(g, from).unwrap();
                let new_src = pile_after_reveal_new_top(pile_after_draw(src));
                assert(g3.tableau =~= with_pile(g, from, new_src).tableau);
            }
        }

        let mut cards: Vec<Card> = Vec::new();
        cards.push(drawn_card);
        Ok(
            UndoRecord::MoveCards {
                from,
                to,
                cards,
                moved_cards_were_modified,
                flipped_source_top,
            },
        )
    }

    /// Moves `count` cards from `from` onto `to` when the rules allow it:
    /// two or more cards go between distinct tableau columns; a single card
    /// moves as `move_top_card` moves it.
    fn move_stack(&mut self, from: PileKind, count: usize, to: PileKind) -> (r: Result<
        UndoRecord,
        MoveError,
    >)
        requires
            old(self).wf(),
        ensures
            final(self).wf(),
            move_outcome(old(self)@, from, count, to) is None ==> r is Err && final(self)@ == old(
                self,
            )@,
            move_outcome(old(self)@, from, count, to) is Some ==> r is Ok && (r->Ok_0)@
                == move_outcome(old(self)@, from, count, to).unwrap().1 && final(self)@
                == move_outcome(old(self)@, from, count, to).unwrap().0,
    {
        let ghost g = self@;
        if count >= 2 {
            let (from_col, to_col) = match (from, to) {
                (PileKind::Tableau(f), PileKind::Tableau(t)) => (f, t),
                _ => return Err(MoveError),
            };

            if from_col >= self.tableau.len() || to_col >= self.tableau.len() {
                return Err(MoveError);
            }

            if from_col == to_col {
                return Err(MoveError);
            }

            let pile_len = self.tableau[from_col].size();

            if count > pile_len {
                return Err(MoveError);
            }

            let row = pile_len - count;

            let bottom_card = self.tableau[from_col].get_cards()[row];

            if !bottom_card.is_face_up() {
                return Err(MoveError);
            }

            let to_pile = &self.tableau[to_col];
            if !self.is_tableau_move_valid(&bottom_card, to_pile) {
                return Err(MoveError);
            }
            assert(stack_move_ok(g, from, count, to));

            let stack: Vec<Card> = self.tableau[from_col].get_cards_mut().split_off(row);
            assert(stack@ == g.tableau[from_col as int].skip(row as int));

            let stack_record = stack.clone();
            assert(stack_record@ =~= stack@);

            let flipped_source_top = self.tableau[from_col].reveal_new_top_if_needed();

            let ghost base = self@;
            let n = stack.len();
            let mut i: usize = 0;
            assert(stack@.take(0) =~= Seq::<Card>::empty());
            assert(base.tableau.update(to_col as int, add_all(base.tableau[to_col as int], stack@.take(0)))
                =~= base.tableau);
            while i < n
                invariant
                    self.wf(),
                    0 <= i <= n,
                    n == stack@.len(),
                    to_col < 7,
                    from_col < 7,
                    from_col != to_col,
                    base.tableau.len() == 7,
                    self@ == (GameModel {
                        tableau: base.tableau.update(
                            to_col as int,
                            add_all(base.tableau[to_col as int], stack@.take(i as int)),
                        ),
                        ..base
                    }),
                decreases n - i,
            {
                let ghost prev = self@;
                self.tableau[to_col].add_to_top(stack[i]);
                assert(self@.tableau == prev.tableau.update(
                    to_col as int,
                    pile_after_add(prev.tableau[to_col as int], stack@[i as int]),
                ));
                i = i + 1;
                assert(stack@.take(i as int).drop_last() =~= stack@.take(i - 1));
                assert(self@.tableau =~= base.tableau.update(
                    to_col as int,
                    add_all(base.tableau[to_col as int], stack@.take(i as int)),
                ));
            }
            assert(stack@.take(n as int) =~= stack@);
            assert(self@.tableau =~= stack_move_result(g, from_col, count, to_col).0.tableau);
            Ok(
                UndoRecord::MoveCards {
                    from,
                    to,
                    cards: stack_record,
                    moved_cards_were_modified: false,
                    flipped_source_top,
                },
            )
        } else if count == 1 {
            self.move_top_card(from, to)
        } else {
            Err(MoveError)
        }
    }

    /// Turns the waste over onto the deck when the deck is empty and the
    /// waste is not; records the operation.
    pub fn flush_waste(&mut self) -> (b: bool)
        requires
            old(self).wf(),
        ensures
            final(self).wf(),
            b == flush_outcome(old(self)@) is Some,
            b ==> final(self)@ == flush_outcome(old(self)@).unwrap(),
            !b ==> final(self)@ == old(self)@,
            in_play(old(self)@) ==> in_play(final(self)@),
            layout_ok(old(self)@) ==> layout_ok(final(self)@),
            foundations_ordered(old(self)@) ==> foundations_ordered(final(self)@),
    {
        if self.deck.size() != 0 {
            return false;
        }
        let ghost g = self@;
        match self.waste.recycle_to_deck(&mut self.deck) {
            Some(cards_moved) => {
                let rec = UndoRecord::RecycleWaste { cards_moved };
                self.history.push(rec);
                assert(records_view(self.history@) =~= g.history.push(rec@));
                proof {
                    if in_play(g) {
                        lemma_flush_keeps_in_play(g);
                    }
                    if layout_ok(g) {
                        lemma_flush_keeps_layout(g);
                    }
                    if foundations_ordered(g) {
                        lemma_flush_keeps_foundations_ordered(g);
                    }
                }
                true
            },
            None => {
                assert(self.waste@ =~= g.waste);
                false
            },
        }
    }

    /// Makes the move when the rules allow it and records it; returns
    /// whether it was made. A refused move leaves the game as it was.
    pub fn attempt_move(&mut self, mv: Move) -> (b: bool)
        requires
            old(self).wf(),
        ensures
            final(self).wf(),
            b == apply_move(old(self)@, mv) is Some,
            b ==> final(self)@ == apply_move(old(self)@, mv).unwrap(),
            !b ==> final(self)@ == old(self)@,
            in_play(old(self)@) ==> in_play(final(self)@),
            layout_ok(old(self)@) ==> layout_ok(final(self)@),
            foundations_ordered(old(self)@) ==> foundations_ordered(final(self)@),
    {
        let ghost g = self@;
        let result = match mv {
            Move::FromDeckToWaste => self.move_stack(PileKind::Deck, 1, PileKind::Waste),
            Move::FromWasteToPile { to } => self.move_stack(PileKind::Waste, 1, to),
            Move::FromTableauToTableau { from, to, count } => self.move_stack(from, count, to),
            Move::FromTableauToFoundation { from, to } => self.move_stack(from, 1, to),
        };

        match result {
            Ok(record) => {
                let ghost g2 = self@;
                self.history.push(record);
                assert(records_view(self.history@) =~= g2.history.push(record@));
                proof {
                    if in_play(g) {
                        lemma_move_keeps_in_play(g, mv);
                    }
                    if layout_ok(g) {
                        lemma_move_keeps_layout(g, mv);
                    }
                    if foundations_ordered(g) {
                        lemma_move_keeps_foundations_ordered(g, mv);
                    }
                }
                true
            },
            Err(_) => false,
        }
    }

    /// Whether `kind` names a pile of this game.
    fn has_pile(&self, kind: PileKind) -> (b: bool)
        ensures
            b == pile_of(self@, kind) is Some,
    {
        match kind {
            PileKind::Tableau(col) => col < self.tableau.len(),
            PileKind::Foundation(idx) => idx < self.foundation.len(),
            _ => true,
        }
    }

    /// Takes `cards` back from `to` onto `from`; see
    /// `undo_move_cards_outcome`.
    #[verifier::loop_isolation(false)]
    fn undo_move_cards(
        &mut self,
        from: PileKind,
        to: PileKind,
        cards: Vec<Card>,
        moved_cards_were_modified: bool,
        flipped_source_top: bool,
    ) -> (b: bool)
        ensures
            b == undo_move_cards_outcome(
                old(self)@,
                from,
                to,
                cards@,
                moved_cards_were_modified,
                flipped_source_top,
            ).0,
            final(self)@ == undo_move_cards_outcome(
                old(self)@,
                from,
                to,
                cards@,
                moved_cards_were_modified,
                flipped_source_top,
            ).1,
    {
        let ghost g = self@;
        let moved_count = cards.len();
        let mut popped: Vec<Card> = Vec::with_capacity(moved_count);

        let ghost tp = pile_of(g, to).unwrap();
        if !self.has_pile(to) {
            return false;
        }
        proof {
            lemma_with_pile(g, to, tp);
        }
        let mut i: usize = 0;
        while i < moved_count
            invariant
                0 <= i <= moved_count,
                moved_count == cards@.len(),
                i <= tp.len(),
                pile_of(g, to) == Some(tp),
                self@ == with_pile(g, to, draw_n(tp, i as nat)),
                popped@ == drawn_n(tp, i as nat),
            decreases moved_count - i,
        {
            proof {
                lemma_draw_n_len(tp, i as nat);
                lemma_with_pile(g, to, draw_n(tp, i as nat));
                if i == tp.len() {
                    lemma_draw_n_len(tp, tp.len());
                }
            }
            let drawn_opt = match self.pile_for_kind_mut(to) {
                Some(to_pile) => to_pile.draw_from_top(),
                None => None,
            };
            let drawn = match drawn_opt {
                Some(c) => c,
                None => {
                    assert(i == tp.len());
                    return false;
                },
            };
            popped.push(drawn);
            i = i + 1;
            proof {
                lemma_with_pile(g, to, draw_n(tp, (i - 1) as nat));
            }
        }
        let ghost g1 = self@;
        proof {
            lemma_draw_n_len(tp, moved_count as nat);
        }

        let mut j: usize = 0;
        while j < moved_count
            invariant
                self@ == g1,
                g1 == with_pile(g, to, draw_n(tp, moved_count as nat)),
                pile_of(g, to) == Some(tp),
                moved_count <= tp.len(),
                popped@ == drawn_n(tp, moved_count as nat),
                0 <= j <= moved_count,
                moved_count == cards@.len(),
                popped@.len() == moved_count,
                forall|m: int|
                    0 <= m < j ==> same_identity(
                        #[trigger] popped@[m],
                        cards@[moved_count - 1 - m],
                    ),
            decreases moved_count - j,
        {
            if !same_card_identity(&popped[j], &cards[moved_count - 1 - j]) {
                return false;
            }
            j = j + 1;
        }

        if !self.has_pile(from) {
            return false;
        }
        let ghost fp = pile_of(g1, from).unwrap();
        let ghost rev = popped@.reverse();
        proof {
            lemma_with_pile(g1, from, fp);
            assert(rev.take(0) =~= Seq::<Card>::empty());
        }
        let mut i: usize = 0;
        while i < moved_count
            invariant
                g1 == with_pile(g, to, draw_n(tp, moved_count as nat)),
                pile_of(g, to) == Some(tp),
                moved_count <= tp.len(),
                popped@ == drawn_n(tp, moved_count as nat),
                moved_count == cards@.len(),
                forall|m: int|
                    0 <= m < moved_count ==> same_identity(
                        #[trigger] popped@[m],
                        cards@[moved_count - 1 - m],
                    ),
                0 <= i <= moved_count,
                moved_count == popped@.len(),
                rev == popped@.reverse(),
                pile_of(g1, from) == Some(fp),
                self@ == with_pile(g1, from, add_all(fp, rev.take(i as int))),
            decreases moved_count - i,
        {
            let card = popped[moved_count - 1 - i];
            proof {
                lemma_with_pile(g1, from, add_all(fp, rev.take(i as int)));
            }
            match self.pile_for_kind_mut(from) {
                Some(from_pile) => from_pile.add_to_top(card),
                None => return false,
            }
            i = i + 1;
            assert(rev.take(i as int).drop_last() =~= rev.take(i - 1));
        }
        assert(rev.take(moved_count as int) =~= rev);
        proof {
            lemma_with_pile(g1, from, add_all(fp, rev));
        }

        let ghost fp1 = add_all(fp, rev);
        let ghost g2 = with_pile(g1, from, fp1);
        assert(self@ == g2);
        if flipped_source_top {
            match from {
                PileKind::Tableau(col) => {
                    if col >= self.tableau.len() {
                        return false;
                    }
                    let size = self.tableau[col].size();
                    if size <= moved_count {
                        return false;
                    }
                    let idx = size - moved_count - 1;
                    let cards_mut = self.tableau[col].get_cards_mut();
                    cards_mut[idx].flip();
                    cards_mut[idx].make_unclickable();
                    proof {
                        let newp = fp1.update(idx as int, fp1[idx as int].flipped().with_clickable(false));
                        assert(g2.tableau[col as int] == fp1);
                        assert(self.tableau@[col as int]@ =~= newp);
                        assert(self@.tableau =~= with_pile(g2, from, newp).tableau);
                    }
                },
                _ => return false,
            }
        }
        let ghost g3 = if flipped_source_top {
            let idx = fp1.len() - (moved_count + 1);
            with_pile(g2, from, fp1.update(idx, fp1[idx].flipped().with_clickable(false)))
        } else {
            g2
        };
        assert(self@ == g3);

        if moved_cards_were_modified {
            match from {
                PileKind::Deck => {
                    let ghost d0 = self.deck@;
                    let size = self.deck.size();
                    proof {
                        lemma_add_all_len(fp, rev);
                    }
                    let mut i: usize = 0;
                    while i < moved_count
                        invariant
                            0 <= i <= moved_count,
                            size == d0.len(),
                            moved_count <= size,
                                        self@ == (GameModel { deck: self.deck@, ..g3 }),
                            self.deck@ == turn_down_from(d0, size - i),
                        decreases moved_count - i,
                    {
                        if self.deck.size() < i + 1 {
                            return false;
                        }
                        let idx = self.deck.size() - (i + 1);
                        let cards_mut = self.deck.get_cards_mut();
                        cards_mut[idx].make_unclickable();
                        if cards_mut[idx].is_face_up() {
                            cards_mut[idx].flip();
                        }
                        i = i + 1;
                    }
                    if self.deck.size() == 0 {
                        return false;
                    }
                    if let Some(top) = self.deck.top_mut() {
                        top.make_clickable();
                    }
                },
                _ => return false,
            }
        }
        true
    }

    /// Puts the top `cards_moved` deck cards back onto the waste.
    fn undo_recycle_waste(&mut self, cards_moved: usize) -> (b: bool)
        requires
            old(self).wf(),
        ensures
            final(self).wf(),
            b == undo_recycle_outcome(old(self)@, cards_moved).0,
            final(self)@ == undo_recycle_outcome(old(self)@, cards_moved).1,
    {
        if self.deck.size() < cards_moved {
            return false;
        }
        let ghost g = self@;
        let ghost d0 = self.deck@;
        let mut cards: Vec<Card> = Vec::with_capacity(cards_moved);
        let mut i: usize = 0;
        while i < cards_moved
            invariant
                self.wf(),
                0 <= i <= cards_moved,
                cards_moved <= d0.len(),
                self@ == (GameModel { deck: draw_n(d0, i as nat), ..g }),
                cards@ == drawn_n(d0, i as nat),
            decreases cards_moved - i,
        {
            proof {
                lemma_draw_n_len(d0, i as nat);
            }
            let card = match self.deck.draw_from_top() {
                Some(c) => c,
                None => return false,
            };
            cards.push(card);
            i = i + 1;
        }
        let ghost g1 = self@;
        proof {
            lemma_draw_n_len(d0, cards_moved as nat);
            assert(cards@.take(0) =~= Seq::<Card>::empty());
        }
        let mut j: usize = 0;
        while j < cards_moved
            invariant
                self.wf(),
                0 <= j <= cards_moved,
                cards@.len() == cards_moved,
                self@ == (GameModel { waste: add_all(g1.waste, cards@.take(j as int)), ..g1 }),
            decreases cards_moved - j,
        {
            self.waste.add_to_top(cards[j]);
            j = j + 1;
            assert(cards@.take(j as int).drop_last() =~= cards@.take(j - 1));
        }
        assert(cards@.take(cards_moved as int) =~= cards@);
        true
    }

    /// Undoes the last recorded operation; returns whether that worked.
    /// The record is taken off the history either way.
    pub fn undo(&mut self) -> (b: bool)
        requires
            old(self).wf(),
        ensures
            final(self).wf(),
            b == undo_outcome(old(self)@).0,
            final(self)@ == undo_outcome(old(self)@).1,
            in_play(old(self)@) ==> b == (old(self)@.history.len() > 0) && in_play(final(self)@),
            old(self)@.history.len() > 0 ==> final(self)@.history == old(self)@.history.drop_last(),
    {
        let ghost g = self@;
        proof {
            lemma_undo_history(g);
            if in_play(g) {
                lemma_undo_in_play(g);
            }
        }
        let record = match self.history.pop() {
            Some(r) => r,
            None => return false,
        };
        assert(records_view(self.history@) =~= g.history.drop_last());
        match record {
            UndoRecord::MoveCards {
                from,
                to,
                cards,
                moved_cards_were_modified,
                flipped_source_top,
            } => {
                proof {
                    lemma_undo_cards_history(
                        self@,
                        from,
                        to,
                        cards@,
                        moved_cards_were_modified,
                        flipped_source_top,
                    );
                }
                self.undo_move_cards(from, to, cards, moved_cards_were_modified, flipped_source_top)
            },
            UndoRecord::RecycleWaste { cards_moved } => self.undo_recycle_waste(cards_moved),
        }
    }

    /// Whether there is an operation to undo.
    pub fn can_undo(&self) -> (b: bool)
        ensures
            b == (self@.history.len() > 0),
    {
        !self.history.is_empty()
    }

    /// Whether every foundation pile holds 13 cards.
    pub fn is_game_won(&self) -> (b: bool)
        requires
            self.wf(),
        ensures
            b == (forall|i: int| 0 <= i < 4 ==> #[trigger] self@.foundation[i].len() == 13),
    {
        let n = self.foundation.len();
        let mut i: usize = 0;
        while i < n
            invariant
                self.wf(),
                n == 4,
                0 <= i <= n,
                forall|j: int| 0 <= j < i ==> #[trigger] self@.foundation[j].len() == 13,
            decreases n - i,
        {
            if self.foundation[i].size() != 13 {
                assert(self@.foundation[i as int].len() != 13);
                return false;
            }
            i = i + 1;
        }
        true
    }

    /// Moves the top card of the waste or of a tableau column onto the first
    /// foundation, in order 0 to 3, that takes it; returns whether one did.
    #[verifier::loop_isolation(false)]
    pub fn auto_move_to_foundation(&mut self, from: PileKind) -> (b: bool)
        requires
            old(self).wf(),
        ensures
            final(self).wf(),
            b == first_allowed(old(self)@, foundation_moves(from)) is Some,
            b ==> final(self)@ == first_allowed(old(self)@, foundation_moves(from)).unwrap(),
            !b ==> final(self)@ == old(self)@,
            in_play(old(self)@) ==> in_play(final(self)@),
            layout_ok(old(self)@) ==> layout_ok(final(self)@),
            foundations_ordered(old(self)@) ==> foundations_ordered(final(self)@),
    {
        let ghost g = self@;
        proof {
            if first_allowed(g, foundation_moves(from)) is Some {
                if in_play(g) {
                    lemma_first_allowed_keeps_in_play(g, foundation_moves(from));
                }
                let mv = lemma_first_allowed_move(g, foundation_moves(from));
                if layout_ok(g) {
                    lemma_move_keeps_layout(g, mv);
                }
                if foundations_ordered(g) {
                    lemma_move_keeps_foundations_ordered(g, mv);
                }
            }
        }
        let ghost mvs = foundation_moves(from);
        assert(mvs.skip(0) =~= mvs);
        let mut i: usize = 0;
        while i < 4
            invariant
                self.wf(),
                self@ == g,
                mvs == foundation_moves(from),
                0 <= i <= 4,
                i > 0 ==> (from is Waste || from is Tableau),
                (from is Waste || from is Tableau) ==> first_allowed(g, mvs) == first_allowed(
                    g,
                    mvs.skip(i as int),
                ),
            decreases 4 - i,
        {
            let mv = match from {
                PileKind::Waste => Move::FromWasteToPile { to: PileKind::Foundation(i) },
                PileKind::Tableau(_) => Move::FromTableauToFoundation {
                    from,
                    to: PileKind::Foundation(i),
                },
                _ => {
                    assert(mvs =~= Seq::<Move>::empty());
                    return false;
                },
            };
            proof {
                assert(mvs[i as int] == mv);
                lemma_first_allowed_step(g, mvs, i as int);
            }
            if self.attempt_move(mv) {
                return true;
            }
            i = i + 1;
        }
        assert(mvs.skip(4) =~= Seq::<Move>::empty());
        false
    }

    /// Moves `count` cards of a tableau column, or the top waste card, onto
    /// the first tableau column, in order 0 to 6, that takes them; returns
    /// whether one did.
    #[verifier::loop_isolation(false)]
    pub fn auto_move_to_tableau(&mut self, from: PileKind, count: usize) -> (b: bool)
        requires
            old(self).wf(),
        ensures
            final(self).wf(),
            b == first_allowed(old(self)@, tableau_moves(from, count)) is Some,
            b ==> final(self)@ == first_allowed(old(self)@, tableau_moves(from, count)).unwrap(),
            !b ==> final(self)@ == old(self)@,
            in_play(old(self)@) ==> in_play(final(self)@),
            layout_ok(old(self)@) ==> layout_ok(final(self)@),
            foundations_ordered(old(self)@) ==> foundations_ordered(final(self)@),
    {
        let ghost g = self@;
        proof {
            if first_allowed(g, tableau_moves(from, count)) is Some {
                if in_play(g) {
                    lemma_first_allowed_keeps_in_play(g, tableau_moves(from, count));
                }
                let mv = lemma_first_allowed_move(g, tableau_moves(from, count));
                if layout_ok(g) {
                    lemma_move_keeps_layout(g, mv);
                }
                if foundations_ordered(g) {
                    lemma_move_keeps_foundations_ordered(g, mv);
                }
            }
        }
        let ghost mvs = tableau_moves(from, count);
        assert(mvs.skip(0) =~= mvs);
        let mut i: usize = 0;
        while i < 7
            invariant
                self.wf(),
                self@ == g,
                mvs == tableau_moves(from, count),
                0 <= i <= 7,
                i > 0 ==> (from is Waste || from is Tableau),
                (from is Waste || from is Tableau) ==> first_allowed(g, mvs) == first_allowed(
                    g,
                    mvs.skip(i as int),
                ),
            decreases 7 - i,
        {
            let mv = match from {
                PileKind::Tableau(_) => Move::FromTableauToTableau {
                    from,
                    to: PileKind::Tableau(i),
                    count,
                },
                PileKind::Waste => Move::FromWasteToPile { to: PileKind::Tableau(i) },
                _ => {
                    assert(mvs =~= Seq::<Move>::empty());
                    return false;
                },
            };
            proof {
                assert(mvs[i as int] == mv);
                lemma_first_allowed_step(g, mvs, i as int);
            }
            if self.attempt_move(mv) {
                return true;
            }
            i = i + 1;
        }
        assert(mvs.skip(7) =~= Seq::<Move>::empty());
        false
    }

    /// What a player sees of the game.
    pub fn get_state(&self) -> (st: GameState)
        ensures
            st.deck_size == self@.deck.len(),
            shows_pile(st.waste@, self@.waste),
            shows_piles(st.tableau@, self@.tableau),
            shows_piles(st.foundation@, self@.foundation),
    {
        GameState {
            deck_size: self.deck.size(),
            waste: cards_view(self.waste.get_cards()),
            tableau: piles_card_view(&self.tableau),
            foundation: piles_card_view(&self.foundation),
        }
    }

    /// Deals a game from `deck` (its last card on top): column `c`, from 0 to
    /// 6, gets `c + 1` cards drawn from the top, the last of them turned
    /// face up; the rest stays as the deck, with its top clickable.
    pub fn deal(deck: Pile) -> (g: Self)
        requires
            deck@.len() >= 29,
        ensures
            g.wf(),
            g@ == dealt(deck@),
    {
        let ghost d = deck@;
        let mut deck = deck;
        let mut tableau: Vec<Pile> = Vec::with_capacity(7);
        let mut foundation: Vec<Pile> = Vec::with_capacity(4);
        let waste = Pile::new();
        let mut column: usize = 0;
        proof {
            lemma_tri(0);
        }
        while column < 7
            invariant
                d.len() >= 29,
                0 <= column <= 7,
                deck@ == after_draws(d, tri(column as int)),
                0 <= tri(column as int) <= 28,
                piles_view(tableau@) == Seq::new(
                    column as nat,
                    |c: int| column_prefix(d, c, c + 1),
                ),
            decreases 7 - column,
        {
            proof {
                lemma_tri(column as int);
                assert(column_prefix(d, column as int, 0) =~= Seq::<Card>::empty());
            }
            let mut pile = Pile::new();
            let mut row: usize = 0;
            while row <= column
                invariant
                    d.len() >= 29,
                    0 <= column < 7,
                    0 <= row <= column + 1,
                    tri(column as int) + column < 28,
                    0 <= tri(column as int),
                    piles_view(tableau@) == Seq::new(
                        column as nat,
                        |c: int| column_prefix(d, c, c + 1),
                    ),
                    deck@ == after_draws(d, tri(column as int) + row),
                    pile@ == column_prefix(d, column as int, row as int),
                decreases column + 1 - row,
            {
                proof {
                    lemma_after_draws_step(d, tri(column as int) + row);
                }
                let mut card = deck.draw_from_top().unwrap();
                if row == column {
                    card.flip();
                }
                proof {
                    lemma_column_prefix_step(d, column as int, row as int, card);
                }
                pile.add_to_top(card);
                row = row + 1;
            }
            tableau.push(pile);
            proof {
                lemma_tri(column as int);
            }
            column = column + 1;
            assert(piles_view(tableau@) =~= Seq::new(
                column as nat,
                |c: int| column_prefix(d, c, c + 1),
            ));
        }
        let deck_len = deck.get_cards().len();
        let deck_cards = deck.get_cards_mut();
        deck_cards[deck_len - 1].make_clickable();
        let mut i: usize = 0;
        while i < 4
            invariant
                0 <= i <= 4,
                piles_view(foundation@) == Seq::new(i as nat, |j: int| Seq::<Card>::empty()),
            decreases 4 - i,
        {
            foundation.push(Pile::new());
            i = i + 1;
            assert(piles_view(foundation@) =~= Seq::new(i as nat, |j: int| Seq::<Card>::empty()));
        }
        let g = Self { deck, tableau, foundation, waste, history: Vec::new() };
        proof {
            lemma_tri(7);
            assert(g@.deck =~= after_draws(d, 28));
            assert(g@.history =~= Seq::<UndoModel>::empty());
        }
        g
    }

    /// A new game dealt from a shuffled standard deck.
    pub fn new() -> (g: Self)
        ensures
            g.wf(),
            exists|d: Seq<Card>| is_shuffled_deck(d) && g@ == dealt(d),
            in_play(g@),
            layout_ok(g@),
            foundations_ordered(g@),
    {
        let deck = new_deck();
        let ghost d = deck@;
        let g = Self::deal(deck);
        assert(is_shuffled_deck(d));
        proof {
            lemma_new_game_in_play(d);
            lemma_new_game_in_order(d);
        }
        g
    }
}

impl Default for SolitaireGame {
    fn default() -> (g: Self)
        ensures
            g.wf(),
            exists|d: Seq<Card>| is_shuffled_deck(d) && g@ == dealt(d),
            in_play(g@),
            layout_ok(g@),
            foundations_ordered(g@),
    {
        Self::new()
    }
}

} // verus!
