use vstd::multiset::Multiset;
use vstd::prelude::*;

use crate::cards::{Card, Suit, group_card_lemmas, same_identity, suit_is_red};
use crate::game::{Move, PileKind};
use crate::piles::{
    pile_after_add, pile_after_draw, pile_after_reveal_new_top, pile_after_reveal_top, recycled,
};

verus! {

broadcast use group_card_lemmas;

/// What an undo record holds, as plain values.
pub enum UndoModel {
    MoveCards {
        from: PileKind,
        to: PileKind,
        cards: Seq<Card>,
        moved_cards_were_modified: bool,
        flipped_source_top: bool,
    },
    RecycleWaste { cards_moved: usize },
}

/// The state of a game as plain values: each pile bottom first.
pub struct GameModel {
    pub deck: Seq<Card>,
    pub waste: Seq<Card>,
    pub tableau: Seq<Seq<Card>>,
    pub foundation: Seq<Seq<Card>>,
    pub history: Seq<UndoModel>,
}

/// Seven tableau columns and four foundations.
pub open spec fn model_wf(g: GameModel) -> bool {
    g.tableau.len() == 7 && g.foundation.len() == 4
}

/// The pile that `k` names, if it names one.
pub open spec fn pile_of(g: GameModel, k: PileKind) -> Option<Seq<Card>> {
    match k {
        PileKind::Deck => Some(g.deck),
        PileKind::Waste => Some(g.waste),
        PileKind::Tableau(col) => if col < g.tableau.len() {
            Some(g.tableau[col as int])
        } else {
            None
        },
        PileKind::Foundation(idx) => if idx < g.foundation.len() {
            Some(g.foundation[idx as int])
        } else {
            None
        },
    }
}

/// The game with the pile that `k` names replaced by `s`.
pub open spec fn with_pile(g: GameModel, k: PileKind, s: Seq<Card>) -> GameModel {
    match k {
        PileKind::Deck => GameModel { deck: s, ..g },
        PileKind::Waste => GameModel { waste: s, ..g },
        PileKind::Tableau(col) => if col < g.tableau.len() {
            GameModel { tableau: g.tableau.update(col as int, s), ..g }
        } else {
            g
        },
        PileKind::Foundation(idx) => if idx < g.foundation.len() {
            GameModel { foundation: g.foundation.update(idx as int, s), ..g }
        } else {
            g
        },
    }
}

/// Whether `c` has the identity of the top card of a tableau column, of the
/// waste or of the deck.
pub open spec fn is_on_top(g: GameModel, c: Card) -> bool {
    ||| exists|i: int|
        0 <= i < g.tableau.len() && g.tableau[i].len() > 0 && same_identity(
            #[trigger] g.tableau[i].last(),
            c,
        )
    ||| g.waste.len() > 0 && same_identity(g.waste.last(), c)
    ||| g.deck.len() > 0 && same_identity(g.deck.last(), c)
}

/// Whether `c` may go onto foundation pile `dest`: an ace on an empty pile,
/// else the next value of the same suit; `c` must be on top somewhere.
pub open spec fn foundation_move_ok(g: GameModel, c: Card, dest: Seq<Card>) -> bool {
    &&& is_on_top(g, c)
    &&& if dest.len() == 0 {
        c.value() == 1
    } else {
        dest.last().value() + 1 == c.value() && dest.last().suit() == c.suit()
    }
}

/// Whether `c` may go onto tableau pile `dest`: a king on an empty column,
/// else one value below the top card and of the other colour.
pub open spec fn tableau_move_ok(c: Card, dest: Seq<Card>) -> bool {
    if dest.len() == 0 {
        c.value() == 13
    } else {
        dest.last().value() == c.value() + 1 && suit_is_red(dest.last().suit()) != suit_is_red(
            c.suit(),
        )
    }
}

/// The top card of the deck, the waste or a tableau column, if there is one.
pub open spec fn top_of(g: GameModel, from: PileKind) -> Option<Card> {
    match from {
        PileKind::Foundation(_) => None,
        _ => match pile_of(g, from) {
            Some(p) => if p.len() > 0 {
                Some(p.last())
            } else {
                None
            },
            None => None,
        },
    }
}

/// Whether moving the top card of `from` onto `to` is allowed.
pub open spec fn single_move_ok(g: GameModel, from: PileKind, to: PileKind) -> bool {
    match top_of(g, from) {
        None => false,
        Some(c) => match (from, to) {
            (PileKind::Deck, PileKind::Waste) => true,
            (PileKind::Waste, PileKind::Tableau(col)) => col < g.tableau.len()
                && tableau_move_ok(c, g.tableau[col as int]),
            (PileKind::Waste, PileKind::Foundation(idx)) => idx < g.foundation.len()
                && foundation_move_ok(g, c, g.foundation[idx as int]),
            (PileKind::Tableau(_), PileKind::Tableau(col)) => col < g.tableau.len()
                && tableau_move_ok(c, g.tableau[col as int]),
            (PileKind::Tableau(_), PileKind::Foundation(idx)) => idx < g.foundation.len()
                && foundation_move_ok(g, c, g.foundation[idx as int]),
            _ => false,
        },
    }
}

/// The game after the allowed move of the top card of `from` onto `to`,
/// with the record that undoes it (the history is left as it is). A card
/// taken from the deck is turned face up; a tableau column that is left with
/// a face-down top card has it turned face up.
pub open spec fn single_move_result(g: GameModel, from: PileKind, to: PileKind) -> (
    GameModel,
    UndoModel,
) {
    if from == PileKind::Deck {
        let revealed = pile_after_reveal_top(g.deck);
        let drawn = revealed.last();
        let g1 = with_pile(g, from, pile_after_draw(revealed));
        (
            with_pile(g1, to, pile_after_add(pile_of(g1, to).unwrap(), drawn)),
            UndoModel::MoveCards {
                from,
                to,
                cards: seq![drawn],
                moved_cards_were_modified: true,
                flipped_source_top: false,
            },
        )
    } else {
        let src = pile_of(g, from).unwrap();
        let c = src.last();
        let after_draw = pile_after_draw(src);
        let flipped = from is Tableau && after_draw.len() > 0 && !after_draw.last().face_up();
        let new_src = if from is Tableau {
            pile_after_reveal_new_top(after_draw)
        } else {
            after_draw
        };
        let g1 = with_pile(g, from, new_src);
        (
            with_pile(g1, to, pile_after_add(pile_of(g1, to).unwrap(), c)),
            UndoModel::MoveCards {
                from,
                to,
                cards: seq![c],
                moved_cards_were_modified: false,
                flipped_source_top: flipped,
            },
        )
    }
}

/// `s` with the cards of `cs` placed on top one by one.
pub open spec fn add_all(s: Seq<Card>, cs: Seq<Card>) -> Seq<Card>
    decreases cs.len(),
{
    if cs.len() == 0 {
        s
    } else {
        pile_after_add(add_all(s, cs.drop_last()), cs.last())
    }
}

/// `s` after `n` cards are drawn from its top.
pub open spec fn draw_n(s: Seq<Card>, n: nat) -> Seq<Card>
    decreases n,
{
    if n == 0 {
        s
    } else {
        pile_after_draw(draw_n(s, (n - 1) as nat))
    }
}

/// The cards that `n` draws from the top of `s` hand out, in the order drawn.
pub open spec fn drawn_n(s: Seq<Card>, n: nat) -> Seq<Card>
    decreases n,
{
    if n == 0 {
        Seq::empty()
    } else {
        drawn_n(s, (n - 1) as nat).push(draw_n(s, (n - 1) as nat).last())
    }
}

/// Whether moving the top `count` cards (two or more) of tableau column
/// `from` onto tableau column `to` is allowed: distinct columns, the lowest
/// moved card face up and fitting onto `to`.
pub open spec fn stack_move_ok(g: GameModel, from: PileKind, count: usize, to: PileKind) -> bool {
    match (from, to) {
        (PileKind::Tableau(f), PileKind::Tableau(t)) => {
            &&& f < g.tableau.len()
            &&& t < g.tableau.len()
            &&& f != t
            &&& count <= g.tableau[f as int].len()
            &&& g.tableau[f as int][g.tableau[f as int].len() - count].face_up()
            &&& tableau_move_ok(
                g.tableau[f as int][g.tableau[f as int].len() - count],
                g.tableau[t as int],
            )
        },
        _ => false,
    }
}

/// The game after the allowed move of the top `count` cards of column `f`
/// onto column `t`, with the record that undoes it.
pub open spec fn stack_move_result(g: GameModel, f: usize, count: usize, t: usize) -> (
    GameModel,
    UndoModel,
) {
    let src = g.tableau[f as int];
    let row = src.len() - count;
    let rest = src.take(row);
    let moved = src.skip(row);
    let flipped = rest.len() > 0 && !rest.last().face_up();
    let tab = g.tableau.update(f as int, pile_after_reveal_new_top(rest)).update(
        t as int,
        add_all(g.tableau[t as int], moved),
    );
    (
        GameModel { tableau: tab, ..g },
        UndoModel::MoveCards {
            from: PileKind::Tableau(f),
            to: PileKind::Tableau(t),
            cards: moved,
            moved_cards_were_modified: false,
            flipped_source_top: flipped,
        },
    )
}

/// The outcome of moving `count` cards from `from` to `to`: `None` when the
/// move is not allowed, else the new game (history as it was) and the record
/// that undoes the move.
pub open spec fn move_outcome(g: GameModel, from: PileKind, count: usize, to: PileKind) -> Option<
    (GameModel, UndoModel),
> {
    if count >= 2 {
        if stack_move_ok(g, from, count, to) {
            Some(stack_move_result(g, from->Tableau_0, count, to->Tableau_0))
        } else {
            None
        }
    } else if count == 1 {
        if single_move_ok(g, from, to) {
            Some(single_move_result(g, from, to))
        } else {
            None
        }
    } else {
        None
    }
}

/// The source, count and destination that a move stands for.
pub open spec fn move_parts(mv: Move) -> (PileKind, usize, PileKind) {
    match mv {
        Move::FromDeckToWaste => (PileKind::Deck, 1, PileKind::Waste),
        Move::FromWasteToPile { to } => (PileKind::Waste, 1, to),
        Move::FromTableauToTableau { from, to, count } => (from, count, to),
        Move::FromTableauToFoundation { from, to } => (from, 1, to),
    }
}

/// The game after `mv` with its record pushed on the history, or `None` when
/// the move is not allowed.
pub open spec fn apply_move(g: GameModel, mv: Move) -> Option<GameModel> {
    let (from, count, to) = move_parts(mv);
    match move_outcome(g, from, count, to) {
        Some((g2, rec)) => Some(GameModel { history: g2.history.push(rec), ..g2 }),
        None => None,
    }
}

/// The game after the waste is turned over onto the empty deck, or `None`
/// when the deck is not empty or the waste is.
pub open spec fn flush_outcome(g: GameModel) -> Option<GameModel> {
    if g.deck.len() != 0 || g.waste.len() == 0 {
        None
    } else {
        Some(
            GameModel {
                deck: g.deck + recycled(g.waste),
                waste: Seq::empty(),
                history: g.history.push(UndoModel::RecycleWaste { cards_moved: g.waste.len() as usize }),
                ..g
            },
        )
    }
}

/// `s` with the cards at positions `from` and above made unclickable and
/// face down.
pub open spec fn turn_down_from(s: Seq<Card>, from: int) -> Seq<Card> {
    Seq::new(
        s.len(),
        |i: int|
            if i >= from {
                s[i].with_clickable(false).with_face_up(false)
            } else {
                s[i]
            },
    )
}

/// Undoing a move of `cards` from `from` to `to`: whether it succeeds, and
/// the game it leaves (also when it fails part way).
pub open spec fn undo_move_cards_outcome(
    g: GameModel,
    from: PileKind,
    to: PileKind,
    cards: Seq<Card>,
    moved_cards_were_modified: bool,
    flipped_source_top: bool,
) -> (bool, GameModel) {
    let k = cards.len();
    match pile_of(g, to) {
        None => (false, g),
        Some(tp) => if tp.len() < k {
            (false, with_pile(g, to, draw_n(tp, tp.len())))
        } else {
            let g1 = with_pile(g, to, draw_n(tp, k));
            let popped = drawn_n(tp, k);
            if !(forall|i: int| 0 <= i < k ==> same_identity(#[trigger] popped[i], cards[k - 1 - i])) {
                (false, g1)
            } else {
                match pile_of(g1, from) {
                    None => (false, g1),
                    Some(fp) => {
                        let fp1 = add_all(fp, popped.reverse());
                        let g2 = with_pile(g1, from, fp1);
                        if flipped_source_top && !(from is Tableau) {
                            (false, g2)
                        } else if flipped_source_top && fp1.len() < k + 1 {
                            (false, g2)
                        } else {
                            let g3 = if flipped_source_top {
                                let idx = fp1.len() - (k + 1);
                                with_pile(g2, from, fp1.update(idx, fp1[idx].flipped().with_clickable(false)))
                            } else {
                                g2
                            };
                            if !moved_cards_were_modified {
                                (true, g3)
                            } else if from != PileKind::Deck {
                                (false, g3)
                            } else {
                                let d1 = turn_down_from(g3.deck, g3.deck.len() - k);
                                if d1.len() == 0 {
                                    (false, GameModel { deck: d1, ..g3 })
                                } else {
                                    (
                                        true,
                                        GameModel {
                                            deck: d1.update(d1.len() - 1, d1.last().with_clickable(true)),
                                            ..g3
                                        },
                                    )
                                }
                            }
                        }
                    },
                }
            }
        },
    }
}

/// Undoing the turn of `n` waste cards onto the deck: the top `n` deck cards
/// go back onto the waste one by one.
pub open spec fn undo_recycle_outcome(g: GameModel, n: usize) -> (bool, GameModel) {
    if g.deck.len() < n {
        (false, g)
    } else {
        (
            true,
            GameModel {
                deck: draw_n(g.deck, n as nat),
                waste: add_all(g.waste, drawn_n(g.deck, n as nat)),
                ..g
            },
        )
    }
}

/// Undoing the last recorded operation: whether it succeeds, and the game
/// it leaves. The record is taken off the history in any case.
pub open spec fn undo_outcome(g: GameModel) -> (bool, GameModel) {
    if g.history.len() == 0 {
        (false, g)
    } else {
        let g0 = GameModel { history: g.history.drop_last(), ..g };
        match g.history.last() {
            UndoModel::MoveCards {
                from,
                to,
                cards,
                moved_cards_were_modified,
                flipped_source_top,
            } => undo_move_cards_outcome(
                g0,
                from,
                to,
                cards,
                moved_cards_were_modified,
                flipped_source_top,
            ),
            UndoModel::RecycleWaste { cards_moved } => undo_recycle_outcome(g0, cards_moved),
        }
    }
}

/// Drawing `n` cards from a pile of at least `n` leaves `n` fewer and hands
/// out `n` cards.
pub proof fn lemma_draw_n_len(s: Seq<Card>, n: nat)
    requires
        n <= s.len(),
    ensures
        draw_n(s, n).len() == s.len() - n,
        drawn_n(s, n).len() == n,
    decreases n,
{
    if n > 0 {
        lemma_draw_n_len(s, (n - 1) as nat);
    }
}

/// Placing cards on a pile makes it longer by their number.
pub proof fn lemma_add_all_len(s: Seq<Card>, cs: Seq<Card>)
    ensures
        add_all(s, cs).len() == s.len() + cs.len(),
    decreases cs.len(),
{
    if cs.len() > 0 {
        lemma_add_all_len(s, cs.drop_last());
    }
}

/// How replacing a pile and reading a pile go together.
pub proof fn lemma_with_pile(g: GameModel, k: PileKind, s: Seq<Card>)
    requires
        pile_of(g, k) is Some,
    ensures
        pile_of(with_pile(g, k, s), k) == Some(s),
        forall|t: Seq<Card>| #[trigger] with_pile(with_pile(g, k, s), k, t) == with_pile(g, k, t),
        with_pile(g, k, pile_of(g, k).unwrap()) == g,
        forall|k2: PileKind| k2 != k ==> #[trigger] pile_of(with_pile(g, k, s), k2) == pile_of(g, k2),
        with_pile(g, k, s).tableau.len() == g.tableau.len(),
        with_pile(g, k, s).foundation.len() == g.foundation.len(),
        with_pile(g, k, s).history == g.history,
{
    match k {
        PileKind::Tableau(col) => {
            assert(g.tableau.update(col as int, g.tableau[col as int]) =~= g.tableau);
            assert forall|t: Seq<Card>| #[trigger] with_pile(with_pile(g, k, s), k, t) == with_pile(g, k, t) by {
                assert(g.tableau.update(col as int, s).update(col as int, t) =~= g.tableau.update(col as int, t));
            }
        },
        PileKind::Foundation(idx) => {
            assert(g.foundation.update(idx as int, g.foundation[idx as int]) =~= g.foundation);
            assert forall|t: Seq<Card>| #[trigger] with_pile(with_pile(g, k, s), k, t) == with_pile(g, k, t) by {
                assert(g.foundation.update(idx as int, s).update(idx as int, t) =~= g.foundation.update(idx as int, t));
            }
        },
        _ => {},
    }
}

/// The game after the first of `mvs` that is allowed, or `None` when none
/// is.
pub open spec fn first_allowed(g: GameModel, mvs: Seq<Move>) -> Option<GameModel>
    decreases mvs.len(),
{
    if mvs.len() == 0 {
        None
    } else {
        match apply_move(g, mvs[0]) {
            Some(g2) => Some(g2),
            None => first_allowed(g, mvs.drop_first()),
        }
    }
}

/// The game that the first allowed move of a list gives is the game that
/// some one move gives.
pub proof fn lemma_first_allowed_move(g: GameModel, mvs: Seq<Move>) -> (mv: Move)
    requires
        first_allowed(g, mvs) is Some,
    ensures
        apply_move(g, mv) == first_allowed(g, mvs),
    decreases mvs.len(),
{
    if apply_move(g, mvs[0]) is Some {
        mvs[0]
    } else {
        lemma_first_allowed_move(g, mvs.drop_first())
    }
}

/// The moves of the top card of `from` onto foundations 0 to 3, in that
/// order; none unless `from` is the waste or a tableau column.
pub open spec fn foundation_moves(from: PileKind) -> Seq<Move> {
    match from {
        PileKind::Waste => Seq::new(
            4,
            |i: int| Move::FromWasteToPile { to: PileKind::Foundation(i as usize) },
        ),
        PileKind::Tableau(_) => Seq::new(
            4,
            |i: int| Move::FromTableauToFoundation { from, to: PileKind::Foundation(i as usize) },
        ),
        _ => Seq::empty(),
    }
}

/// The moves of `count` cards of a tableau column, or of the top waste card,
/// onto tableau columns 0 to 6, in that order; none for other sources.
pub open spec fn tableau_moves(from: PileKind, count: usize) -> Seq<Move> {
    match from {
        PileKind::Tableau(_) => Seq::new(
            7,
            |i: int| Move::FromTableauToTableau { from, to: PileKind::Tableau(i as usize), count },
        ),
        PileKind::Waste => Seq::new(
            7,
            |i: int| Move::FromWasteToPile { to: PileKind::Tableau(i as usize) },
        ),
        _ => Seq::empty(),
    }
}

/// Trying the moves from position `i` on gives what trying move `i` and
/// then those after it gives.
pub proof fn lemma_first_allowed_step(g: GameModel, mvs: Seq<Move>, i: int)
    requires
        0 <= i < mvs.len(),
    ensures
        first_allowed(g, mvs.skip(i)) == (match apply_move(g, mvs[i]) {
            Some(g2) => Some(g2),
            None => first_allowed(g, mvs.skip(i + 1)),
        }),
{
    assert(mvs.skip(i).drop_first() =~= mvs.skip(i + 1));
}

/// The number of cards dealt to the columns before column `c`:
/// 0 + 1 + ... + c.
pub open spec fn tri(c: int) -> int
    decreases c,
{
    if c <= 0 {
        0
    } else {
        tri(c - 1) + c
    }
}

/// The `k`-th card (from 0) that drawing from the top of `d` hands out.
pub open spec fn drawn_at(d: Seq<Card>, k: int) -> Card {
    if k == 0 {
        d.last()
    } else {
        d[d.len() - 1 - k].with_clickable(true)
    }
}

/// `d` after `k` cards are drawn from its top (`k` less than its length).
pub open spec fn after_draws(d: Seq<Card>, k: int) -> Seq<Card> {
    if k == 0 {
        d
    } else {
        let t = d.take(d.len() - k);
        t.update(t.len() - 1, t.last().with_clickable(true))
    }
}

/// The first `n` cards of column `c` as dealt from `d`: only row `c` is
/// turned over, and only the last of them is left clickable.
pub open spec fn column_prefix(d: Seq<Card>, c: int, n: int) -> Seq<Card> {
    Seq::new(
        n as nat,
        |r: int|
            {
                let x = drawn_at(d, tri(c) + r);
                let x2 = if r == c {
                    x.flipped()
                } else {
                    x
                };
                if r < n - 1 {
                    x2.with_clickable(false)
                } else {
                    x2
                }
            },
    )
}

/// The game dealt from `d`: column `c` gets `c + 1` cards drawn from the top
/// of `d`, the last of them turned over; the rest of `d` stays as the deck
/// with its top clickable; waste, foundations and history are empty.
pub open spec fn dealt(d: Seq<Card>) -> GameModel {
    GameModel {
        deck: after_draws(d, 28),
        waste: Seq::empty(),
        tableau: Seq::new(7, |c: int| column_prefix(d, c, c + 1)),
        foundation: Seq::new(4, |i: int| Seq::<Card>::empty()),
        history: Seq::empty(),
    }
}

/// The first values of `tri`.
pub proof fn lemma_tri_values()
    ensures
        tri(0) == 0,
        tri(1) == 1,
        tri(2) == 3,
        tri(3) == 6,
        tri(4) == 10,
        tri(5) == 15,
        tri(6) == 21,
        tri(7) == 28,
{
    reveal_with_fuel(tri, 8);
}

/// `tri` at small arguments, and its growth.
pub proof fn lemma_tri(c: int)
    requires
        0 <= c <= 7,
    ensures
        c < 7 ==> tri(c) + c < 28,
        0 <= tri(c),
        c < 7 ==> tri(c + 1) == tri(c) + c + 1,
        tri(7) == 28,
        tri(0) == 0,
{
    lemma_tri_values();
    if c < 7 {
        assert(tri(c + 1) == tri(c) + c + 1);
    }
    if c == 0 {
    } else if c == 1 {
    } else if c == 2 {
    } else if c == 3 {
    } else if c == 4 {
    } else if c == 5 {
    } else if c == 6 {
    } else {
        assert(c == 7);
    }
}

/// One more draw from the top.
pub proof fn lemma_after_draws_step(d: Seq<Card>, k: int)
    requires
        0 <= k,
        k + 1 < d.len(),
    ensures
        after_draws(d, k).len() == d.len() - k,
        after_draws(d, k).last() == drawn_at(d, k),
        pile_after_draw(after_draws(d, k)) == after_draws(d, k + 1),
{
    assert(pile_after_draw(after_draws(d, k)) =~= after_draws(d, k + 1));
}

/// Placing the next dealt card on a partly dealt column.
pub proof fn lemma_column_prefix_step(d: Seq<Card>, c: int, n: int, x: Card)
    requires
        0 <= n,
        x == (if n == c {
            drawn_at(d, tri(c) + n).flipped()
        } else {
            drawn_at(d, tri(c) + n)
        }),
    ensures
        pile_after_add(column_prefix(d, c, n), x) == column_prefix(d, c, n + 1),
{
    assert(pile_after_add(column_prefix(d, c, n), x) =~= column_prefix(d, c, n + 1));
}

/// Only the top card of `s` is clickable.
pub open spec fn pile_clean(s: Seq<Card>) -> bool {
    forall|i: int| 0 <= i < s.len() ==> (#[trigger] s[i]).clickable() == (i == s.len() - 1)
}

/// Every pile has only its top card clickable, and the deck is face down.
pub open spec fn clean(g: GameModel) -> bool {
    &&& pile_clean(g.deck)
    &&& forall|i: int| 0 <= i < g.deck.len() ==> !(#[trigger] g.deck[i]).face_up()
    &&& pile_clean(g.waste)
    &&& forall|c: int| 0 <= c < g.tableau.len() ==> pile_clean(#[trigger] g.tableau[c])
    &&& forall|f: int| 0 <= f < g.foundation.len() ==> pile_clean(#[trigger] g.foundation[f])
}

/// A card's identity: its value and suit.
pub open spec fn ident(c: Card) -> (u8, Suit) {
    (c.value(), c.suit())
}

/// The identities of the cards of a pile, counted.
pub open spec fn pile_ids(s: Seq<Card>) -> Multiset<(u8, Suit)> {
    s.map_values(|c: Card| ident(c)).to_multiset()
}

/// The identities of the cards of several piles, counted.
pub open spec fn piles_ids(ps: Seq<Seq<Card>>) -> Multiset<(u8, Suit)>
    decreases ps.len(),
{
    if ps.len() == 0 {
        Multiset::empty()
    } else {
        piles_ids(ps.drop_last()).add(pile_ids(ps.last()))
    }
}

/// The identities of all the cards of a game, counted.
pub open spec fn game_ids(g: GameModel) -> Multiset<(u8, Suit)> {
    pile_ids(g.deck).add(pile_ids(g.waste)).add(piles_ids(g.tableau)).add(piles_ids(g.foundation))
}

/// Whether an undo record has the shape that the game's own operations
/// give it: at least one card, cards from the deck marked as turned, and a
/// turned-over source top only for a tableau column.
pub open spec fn record_ok(r: UndoModel) -> bool {
    match r {
        UndoModel::MoveCards { from, to, cards, moved_cards_were_modified, flipped_source_top } => {
            &&& cards.len() >= 1
            &&& (from == PileKind::Deck) == moved_cards_were_modified
            &&& flipped_source_top ==> from is Tableau
        },
        UndoModel::RecycleWaste { .. } => true,
    }
}

/// What every game in play keeps: seven columns and four foundations, only
/// the top card of each pile clickable, the deck face down, and undo
/// records of the right shape.
pub open spec fn kept(g: GameModel) -> bool {
    &&& model_wf(g)
    &&& clean(g)
    &&& forall|i: int| 0 <= i < g.history.len() ==> record_ok(#[trigger] g.history[i])
}

/// A foundation pile in order: an ace at the bottom, one suit, values rising
/// by one.
pub open spec fn foundation_ordered(s: Seq<Card>) -> bool {
    forall|i: int| 0 <= i < s.len() ==> (#[trigger] s[i]).value() == i + 1 && s[i].suit() == s[0].suit()
}

/// Every foundation pile is in order.
pub open spec fn foundations_ordered(g: GameModel) -> bool {
    forall|f: int| 0 <= f < g.foundation.len() ==> foundation_ordered(#[trigger] g.foundation[f])
}

/// Whether `upper` may lie on `lower` in a tableau column: one value less
/// and the other colour.
pub open spec fn fits_on(upper: Card, lower: Card) -> bool {
    upper.value() + 1 == lower.value() && suit_is_red(upper.suit()) != suit_is_red(lower.suit())
}

/// A tableau column as play keeps it: the face-down cards below the face-up
/// ones, the top face up, and each face-up card that lies on a face-up card
/// fitting on it.
pub open spec fn column_ok(s: Seq<Card>) -> bool {
    &&& s.len() > 0 ==> s.last().face_up()
    &&& forall|i: int, j: int|
        0 <= i <= j < s.len() && (#[trigger] s[i]).face_up() ==> (#[trigger] s[j]).face_up()
    &&& forall|i: int| 1 <= i < s.len() && s[i - 1].face_up() ==> #[trigger] fits_on(s[i], s[i - 1])
}

/// The faces of a game as play keeps them: the deck face down, the waste
/// face up, every tableau column as `column_ok` says.
pub open spec fn layout_ok(g: GameModel) -> bool {
    &&& forall|i: int| 0 <= i < g.deck.len() ==> !(#[trigger] g.deck[i]).face_up()
    &&& forall|i: int| 0 <= i < g.waste.len() ==> (#[trigger] g.waste[i]).face_up()
    &&& forall|c: int| 0 <= c < g.tableau.len() ==> column_ok(#[trigger] g.tableau[c])
}

} // verus!
