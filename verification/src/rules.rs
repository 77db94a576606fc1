use vstd::prelude::*;

use crate::cards::{Card, Suit, group_card_lemmas, same_identity};
use crate::game::{Move, PileKind};
use crate::laws::{lemma_add_all_closed, stacked};
use crate::model::{
    GameModel, apply_move, dealt, first_allowed, flush_outcome, lemma_tri, lemma_tri_values, tri,
    undo_outcome, foundation_moves, lemma_with_pile, pile_of,
    tableau_moves, with_pile,
};
use crate::piles::{pile_after_add, pile_after_draw, pile_after_reveal_new_top, recycled};

verus! {

broadcast use group_card_lemmas;

/// Whether a card is red: hearts and diamonds are red, spades and clubs
/// black.
pub open spec fn red(c: Card) -> bool {
    c.suit() == Suit::Hearts || c.suit() == Suit::Diamonds
}

/// The Klondike rule for placing `c` (alone or leading a run) on a tableau
/// column: a king on an empty column, else one value below the column's top
/// card and of the other colour.
pub open spec fn column_accepts(column: Seq<Card>, c: Card) -> bool {
    if column.len() == 0 {
        c.value() == 13
    } else {
        column.last().value() == c.value() + 1 && red(column.last()) != red(c)
    }
}

/// The Klondike rule for placing `c` on a foundation pile: an ace on an
/// empty pile, else the next value of the pile's suit.
pub open spec fn foundation_accepts(pile: Seq<Card>, c: Card) -> bool {
    if pile.len() == 0 {
        c.value() == 1
    } else {
        c.value() == pile.last().value() + 1 && c.suit() == pile.last().suit()
    }
}

/// The move of the top card of `from` (the waste or a tableau column) onto
/// foundation `i`.
pub open spec fn to_foundation(from: PileKind, i: usize) -> Move {
    match from {
        PileKind::Waste => Move::FromWasteToPile { to: PileKind::Foundation(i) },
        _ => Move::FromTableauToFoundation { from, to: PileKind::Foundation(i) },
    }
}

/// The move of the top `count` cards of a tableau column, or of the waste's
/// top card, onto tableau column `i`.
pub open spec fn to_column(from: PileKind, count: usize, i: usize) -> Move {
    match from {
        PileKind::Waste => Move::FromWasteToPile { to: PileKind::Tableau(i) },
        _ => Move::FromTableauToTableau { from, to: PileKind::Tableau(i), count },
    }
}

/// Trying moves in turn: some move is made exactly when one of them is
/// allowed, and what is made is the first allowed one.
#[verifier::spinoff_prover]
#[verifier::rlimit(40)]
pub proof fn lemma_first_allowed_finds_first(g: GameModel, mvs: Seq<Move>)
    ensures
        (first_allowed(g, mvs) is Some) == (exists|i: int|
            0 <= i < mvs.len() && (#[trigger] apply_move(g, mvs[i])) is Some),
        forall|i: int|
            0 <= i < mvs.len() && (#[trigger] apply_move(g, mvs[i])) is Some && (forall|j: int|
                0 <= j < i ==> (#[trigger] apply_move(g, mvs[j])) is None) ==> first_allowed(g, mvs)
                == apply_move(g, mvs[i]),
    decreases mvs.len(),
{
    if mvs.len() > 0 {
        let rest = mvs.drop_first();
        lemma_first_allowed_finds_first(g, rest);
        assert forall|i: int| 1 <= i < mvs.len() implies #[trigger] mvs[i] == rest[i - 1] by {}
        if apply_move(g, mvs[0]) is None {
            if exists|i: int| 0 <= i < mvs.len() && (#[trigger] apply_move(g, mvs[i])) is Some {
                let i = choose|i: int| 0 <= i < mvs.len() && (#[trigger] apply_move(g, mvs[i])) is Some;
                assert(apply_move(g, rest[i - 1]) is Some);
            }
            assert forall|i: int|
                0 <= i < mvs.len() && (#[trigger] apply_move(g, mvs[i])) is Some && (forall|j: int|
                    0 <= j < i ==> (#[trigger] apply_move(g, mvs[j])) is None) implies first_allowed(
                g,
                mvs,
            ) == apply_move(g, mvs[i]) by {
                assert(apply_move(g, rest[i - 1]) is Some);
                assert forall|j: int| 0 <= j < i - 1 implies (#[trigger] apply_move(
                    g,
                    rest[j],
                )) is None by {
                    assert(rest[j] == mvs[j + 1]);
                }
            }
        } else {
            assert forall|i: int|
                0 <= i < mvs.len() && (#[trigger] apply_move(g, mvs[i])) is Some && (forall|j: int|
                    0 <= j < i ==> (#[trigger] apply_move(g, mvs[j])) is None) implies first_allowed(
                g,
                mvs,
            ) == apply_move(g, mvs[i]) by {
                if i > 0 {
                    assert(apply_move(g, mvs[0]) is None);
                }
            }
        }
    }
}

/// Moving automatically to a foundation tries all four foundations in
/// order: it moves exactly when the top card of `from` may go onto one of
/// them, and then onto the first such foundation.
pub proof fn lemma_auto_foundation_tries_all(g: GameModel, from: PileKind)
    requires
        from is Waste || from is Tableau,
    ensures
        (first_allowed(g, foundation_moves(from)) is Some) == (exists|i: int|
            0 <= i < 4 && (#[trigger] apply_move(g, to_foundation(from, i as usize))) is Some),
        forall|i: int|
            0 <= i < 4 && (#[trigger] apply_move(g, to_foundation(from, i as usize))) is Some
                && (forall|j: int|
                0 <= j < i ==> (#[trigger] apply_move(g, to_foundation(from, j as usize))) is None)
                ==> first_allowed(g, foundation_moves(from)) == apply_move(
                g,
                to_foundation(from, i as usize),
            ),
{
    let mvs = foundation_moves(from);
    assert(mvs.len() == 4);
    assert forall|i: int| 0 <= i < 4 implies #[trigger] mvs[i] == to_foundation(from, i as usize) by {}
    lemma_first_allowed_finds_first(g, mvs);
    if exists|i: int| 0 <= i < 4 && (#[trigger] apply_move(g, to_foundation(from, i as usize))) is Some {
        let i = choose|i: int|
            0 <= i < 4 && (#[trigger] apply_move(g, to_foundation(from, i as usize))) is Some;
        assert(apply_move(g, mvs[i]) is Some);
    }
    if exists|i: int| 0 <= i < mvs.len() && (#[trigger] apply_move(g, mvs[i])) is Some {
        let i = choose|i: int| 0 <= i < mvs.len() && (#[trigger] apply_move(g, mvs[i])) is Some;
        assert(apply_move(g, to_foundation(from, i as usize)) is Some);
    }
    assert forall|i: int|
        0 <= i < 4 && (#[trigger] apply_move(g, to_foundation(from, i as usize))) is Some && (forall|
            j: int,
        | 0 <= j < i ==> (#[trigger] apply_move(g, to_foundation(from, j as usize))) is None) implies first_allowed(
        g,
        mvs,
    ) == apply_move(g, to_foundation(from, i as usize)) by {
        assert(apply_move(g, mvs[i]) is Some);
        assert forall|j: int| 0 <= j < i implies (#[trigger] apply_move(g, mvs[j])) is None by {
            assert(apply_move(g, to_foundation(from, j as usize)) is None);
        }
    }
}

/// Moving automatically to the tableau tries all seven columns in order:
/// it moves exactly when the cards may go onto one of them, and then onto
/// the first such column.
pub proof fn lemma_auto_tableau_tries_all(g: GameModel, from: PileKind, count: usize)
    requires
        from is Waste || from is Tableau,
    ensures
        (first_allowed(g, tableau_moves(from, count)) is Some) == (exists|i: int|
            0 <= i < 7 && (#[trigger] apply_move(g, to_column(from, count, i as usize))) is Some),
        forall|i: int|
            0 <= i < 7 && (#[trigger] apply_move(g, to_column(from, count, i as usize))) is Some
                && (forall|j: int|
                0 <= j < i ==> (#[trigger] apply_move(g, to_column(from, count, j as usize))) is None)
                ==> first_allowed(g, tableau_moves(from, count)) == apply_move(
                g,
                to_column(from, count, i as usize),
            ),
{
    let mvs = tableau_moves(from, count);
    assert(mvs.len() == 7);
    assert forall|i: int| 0 <= i < 7 implies #[trigger] mvs[i] == to_column(from, count, i as usize) by {}
    lemma_first_allowed_finds_first(g, mvs);
    if exists|i: int|
        0 <= i < 7 && (#[trigger] apply_move(g, to_column(from, count, i as usize))) is Some {
        let i = choose|i: int|
            0 <= i < 7 && (#[trigger] apply_move(g, to_column(from, count, i as usize))) is Some;
        assert(apply_move(g, mvs[i]) is Some);
    }
    if exists|i: int| 0 <= i < mvs.len() && (#[trigger] apply_move(g, mvs[i])) is Some {
        let i = choose|i: int| 0 <= i < mvs.len() && (#[trigger] apply_move(g, mvs[i])) is Some;
        assert(apply_move(g, to_column(from, count, i as usize)) is Some);
    }
    assert forall|i: int|
        0 <= i < 7 && (#[trigger] apply_move(g, to_column(from, count, i as usize))) is Some && (forall|
            j: int,
        | 0 <= j < i ==> (#[trigger] apply_move(g, to_column(from, count, j as usize))) is None) implies first_allowed(
        g,
        mvs,
    ) == apply_move(g, to_column(from, count, i as usize)) by {
        assert(apply_move(g, mvs[i]) is Some);
        assert forall|j: int| 0 <= j < i implies (#[trigger] apply_move(g, mvs[j])) is None by {
            assert(apply_move(g, to_column(from, count, j as usize)) is None);
        }
    }
}

/// The rule for moving the top `count` cards of tableau column `f` onto
/// column `t`: the columns differ, the column has that many cards, the
/// lowest of them is face up when more than one moves, and column `t` takes
/// that lowest card (a king on an empty column, else one value below its
/// top card and of the other colour).
pub proof fn lemma_column_move_rule(g: GameModel, f: usize, t: usize, count: usize)
    requires
        f < g.tableau.len(),
        t < g.tableau.len(),
        count >= 1,
    ensures
        (apply_move(g, to_column(PileKind::Tableau(f), count, t)) is Some) == ({
            let src = g.tableau[f as int];
            &&& f != t
            &&& count <= src.len()
            &&& count >= 2 ==> src[src.len() - count].face_up()
            &&& column_accepts(g.tableau[t as int], src[src.len() - count])
        }),
{
    let src = g.tableau[f as int];
    if count == 1 && f == t && src.len() > 0 {
        assert(!column_accepts(src, src[src.len() - 1]));
    }
}

/// The rule for moving the waste's top card onto tableau column `t`: the
/// waste is not empty and the column takes the card (a king on an empty
/// column, else one value below its top card and of the other colour).
pub proof fn lemma_waste_to_column_rule(g: GameModel, t: usize)
    requires
        t < g.tableau.len(),
    ensures
        (apply_move(g, to_column(PileKind::Waste, 1, t)) is Some) == (g.waste.len() > 0
            && column_accepts(g.tableau[t as int], g.waste.last())),
{
}

/// The rule for moving the top card of the waste or of a tableau column
/// onto foundation `i`: the source is not empty and the foundation takes
/// the card (an ace on an empty foundation, else the next value of its
/// suit), whether or not the foundation is empty.
pub proof fn lemma_to_foundation_rule(g: GameModel, from: PileKind, i: usize)
    requires
        i < g.foundation.len(),
        from is Waste || (from is Tableau && from->Tableau_0 < g.tableau.len()),
    ensures
        (apply_move(g, to_foundation(from, i)) is Some) == ({
            let src = if from is Waste {
                g.waste
            } else {
                g.tableau[from->Tableau_0 as int]
            };
            src.len() > 0 && foundation_accepts(g.foundation[i as int], src.last())
        }),
{
    if from is Tableau {
        let col = from->Tableau_0 as int;
        let src = g.tableau[col];
        if src.len() > 0 {
            assert(same_identity(g.tableau[col].last(), src.last()));
        }
    }
}

/// What an allowed move of the top `count` cards of column `f` onto column
/// `t` does: column `t` keeps its cards and gets the moved cards on top, in
/// their order and with their faces; column `f` keeps the cards below them,
/// its new top face up; nothing else changes.
pub proof fn lemma_column_move_result(g: GameModel, f: usize, t: usize, count: usize)
    requires
        f < g.tableau.len(),
        t < g.tableau.len(),
        count >= 1,
        apply_move(g, to_column(PileKind::Tableau(f), count, t)) is Some,
    ensures
        ({
            let r = apply_move(g, to_column(PileKind::Tableau(f), count, t)).unwrap();
            let src = g.tableau[f as int];
            let dst = g.tableau[t as int];
            let row = src.len() - count;
            &&& r.tableau.len() == g.tableau.len()
            &&& r.tableau[t as int].len() == dst.len() + count
            &&& forall|i: int|
                0 <= i < dst.len() ==> same_identity(#[trigger] r.tableau[t as int][i], dst[i])
                    && r.tableau[t as int][i].face_up() == dst[i].face_up()
            &&& forall|i: int|
                dst.len() <= i < dst.len() + count ==> same_identity(
                    #[trigger] r.tableau[t as int][i],
                    src[row + i - dst.len()],
                ) && r.tableau[t as int][i].face_up() == src[row + i - dst.len()].face_up()
            &&& r.tableau[f as int].len() == row
            &&& forall|i: int| 0 <= i < row ==> same_identity(#[trigger] r.tableau[f as int][i], src[i])
            &&& forall|i: int|
                0 <= i < row - 1 ==> (#[trigger] r.tableau[f as int][i]).face_up() == src[i].face_up()
            &&& row > 0 ==> r.tableau[f as int][row - 1].face_up()
            &&& forall|c: int|
                0 <= c < g.tableau.len() && c != f && c != t ==> #[trigger] r.tableau[c]
                    == g.tableau[c]
            &&& r.deck == g.deck
            &&& r.waste == g.waste
            &&& r.foundation == g.foundation
        }),
{
    lemma_column_move_rule(g, f, t, count);
    let r = apply_move(g, to_column(PileKind::Tableau(f), count, t)).unwrap();
    let src = g.tableau[f as int];
    let dst = g.tableau[t as int];
    let row = src.len() - count;
    let moved = src.skip(row);
    if count >= 2 {
        lemma_add_all_closed(dst, moved);
        let nt = r.tableau[t as int];
        assert(nt == stacked(dst, moved));
        assert forall|i: int| dst.len() <= i < dst.len() + count implies same_identity(
            #[trigger] nt[i],
            src[row + i - dst.len()],
        ) && nt[i].face_up() == src[row + i - dst.len()].face_up() by {
            assert(moved[i - dst.len()] == src[row + i - dst.len()]);
        }
        assert forall|i: int| 0 <= i < dst.len() implies same_identity(#[trigger] nt[i], dst[i])
            && nt[i].face_up() == dst[i].face_up() by {}
    } else {
        let from = PileKind::Tableau(f);
        let to = PileKind::Tableau(t);
        let c = src.last();
        let new_src = pile_after_reveal_new_top(pile_after_draw(src));
        let g1 = with_pile(g, from, new_src);
        lemma_with_pile(g, from, new_src);
        assert(pile_of(g1, to) == Some(dst));
        let added = pile_after_add(dst, c);
        lemma_with_pile(g1, to, added);
        assert(r == GameModel { history: r.history, ..with_pile(g1, to, added) });
        assert(r.tableau[t as int] == added);
        assert(r.tableau[f as int] == new_src);
        assert(r.tableau == g.tableau.update(f as int, new_src).update(t as int, added));
        assert(pile_of(r, PileKind::Deck) == pile_of(g, PileKind::Deck));
        assert(pile_of(r, PileKind::Waste) == pile_of(g, PileKind::Waste));
        assert(r.foundation == g.foundation);
    }
}

/// What an allowed move of the waste's top card onto column `t` does: the
/// waste loses its top card, column `t` keeps its cards and gets that card
/// on top with its face; nothing else changes.
pub proof fn lemma_waste_to_column_result(g: GameModel, t: usize)
    requires
        t < g.tableau.len(),
        apply_move(g, to_column(PileKind::Waste, 1, t)) is Some,
    ensures
        ({
            let r = apply_move(g, to_column(PileKind::Waste, 1, t)).unwrap();
            let w = g.waste;
            let dst = g.tableau[t as int];
            &&& r.waste.len() == w.len() - 1
            &&& forall|i: int| 0 <= i < r.waste.len() ==> same_identity(#[trigger] r.waste[i], w[i])
                && r.waste[i].face_up() == w[i].face_up()
            &&& r.tableau.len() == g.tableau.len()
            &&& r.tableau[t as int].len() == dst.len() + 1
            &&& forall|i: int|
                0 <= i < dst.len() ==> same_identity(#[trigger] r.tableau[t as int][i], dst[i])
                    && r.tableau[t as int][i].face_up() == dst[i].face_up()
            &&& same_identity(r.tableau[t as int].last(), w.last())
            &&& r.tableau[t as int].last().face_up() == w.last().face_up()
            &&& forall|c: int| 0 <= c < g.tableau.len() && c != t ==> #[trigger] r.tableau[c] == g.tableau[c]
            &&& r.deck == g.deck
            &&& r.foundation == g.foundation
        }),
{
    let r = apply_move(g, to_column(PileKind::Waste, 1, t)).unwrap();
    let from = PileKind::Waste;
    let to = PileKind::Tableau(t);
    let w = g.waste;
    let dst = g.tableau[t as int];
    let new_w = pile_after_draw(w);
    let g1 = with_pile(g, from, new_w);
    lemma_with_pile(g, from, new_w);
    assert(pile_of(g1, to) == Some(dst));
    let added = pile_after_add(dst, w.last());
    lemma_with_pile(g1, to, added);
    assert(r.tableau[t as int] == added);
    assert(r.waste == new_w);
    assert(r.tableau == g.tableau.update(t as int, added));
}

/// What an allowed move of the top card of the waste or of a tableau column
/// onto foundation `i` does: the source loses its top card, foundation `i`
/// keeps its cards and gets that card on top; the other foundations stay.
pub proof fn lemma_to_foundation_result(g: GameModel, from: PileKind, i: usize)
    requires
        i < g.foundation.len(),
        from is Waste || (from is Tableau && from->Tableau_0 < g.tableau.len()),
        apply_move(g, to_foundation(from, i)) is Some,
    ensures
        ({
            let r = apply_move(g, to_foundation(from, i)).unwrap();
            let src = if from is Waste {
                g.waste
            } else {
                g.tableau[from->Tableau_0 as int]
            };
            let rsrc = if from is Waste {
                r.waste
            } else {
                r.tableau[from->Tableau_0 as int]
            };
            let p = g.foundation[i as int];
            &&& r.foundation.len() == g.foundation.len()
            &&& r.foundation[i as int].len() == p.len() + 1
            &&& forall|k: int|
                0 <= k < p.len() ==> same_identity(#[trigger] r.foundation[i as int][k], p[k])
            &&& same_identity(r.foundation[i as int].last(), src.last())
            &&& rsrc.len() == src.len() - 1
            &&& forall|k: int| 0 <= k < rsrc.len() ==> same_identity(#[trigger] rsrc[k], src[k])
            &&& forall|k: int|
                0 <= k < rsrc.len() && (from is Waste || k < rsrc.len() - 1) ==> (#[trigger] rsrc[k]).face_up()
                    == src[k].face_up()
            &&& from is Tableau && rsrc.len() > 0 ==> rsrc.last().face_up()
            &&& r.foundation[i as int].last().face_up() == src.last().face_up()
            &&& forall|j: int|
                0 <= j < g.foundation.len() && j != i ==> #[trigger] r.foundation[j]
                    == g.foundation[j]
            &&& r.deck == g.deck
        }),
{
    let r = apply_move(g, to_foundation(from, i)).unwrap();
    let to = PileKind::Foundation(i);
    let src = pile_of(g, from).unwrap();
    let new_src = if from is Tableau {
        pile_after_reveal_new_top(pile_after_draw(src))
    } else {
        pile_after_draw(src)
    };
    let g1 = with_pile(g, from, new_src);
    lemma_with_pile(g, from, new_src);
    let p = g.foundation[i as int];
    assert(pile_of(g1, to) == Some(p));
    let added = pile_after_add(p, src.last());
    lemma_with_pile(g1, to, added);
    assert(r.foundation[i as int] == added);
    assert(pile_of(r, from) == Some(new_src));
    assert(r.foundation == g.foundation.update(i as int, added));
    assert(pile_of(r, PileKind::Deck) == pile_of(g, PileKind::Deck));
}

/// Moving automatically from the deck or from a foundation never moves
/// anything.
pub proof fn lemma_auto_other_sources(g: GameModel, from: PileKind, count: usize)
    requires
        !(from is Waste || from is Tableau),
    ensures
        first_allowed(g, foundation_moves(from)) is None,
        first_allowed(g, tableau_moves(from, count)) is None,
{
}

/// The rule and the result of turning the deck's top card onto the waste:
/// allowed exactly when the deck is not empty; the deck loses its top card,
/// which lands face up on top of the waste, the waste keeping its cards;
/// the tableau and the foundations stay.
pub proof fn lemma_deck_to_waste(g: GameModel)
    ensures
        (apply_move(g, Move::FromDeckToWaste) is Some) == (g.deck.len() > 0),
        g.deck.len() > 0 ==> ({
            let r = apply_move(g, Move::FromDeckToWaste).unwrap();
            let d = g.deck;
            let w = g.waste;
            &&& r.deck.len() == d.len() - 1
            &&& forall|i: int| 0 <= i < r.deck.len() ==> same_identity(#[trigger] r.deck[i], d[i])
                && r.deck[i].face_up() == d[i].face_up()
            &&& r.waste.len() == w.len() + 1
            &&& forall|i: int| 0 <= i < w.len() ==> same_identity(#[trigger] r.waste[i], w[i])
                && r.waste[i].face_up() == w[i].face_up()
            &&& same_identity(r.waste.last(), d.last())
            &&& r.waste.last().face_up() == !d.last().face_up()
            &&& r.tableau == g.tableau
            &&& r.foundation == g.foundation
        }),
{
}

/// The rule and the result of turning the waste over onto the deck:
/// allowed exactly when the deck is empty and the waste is not; the deck
/// then holds the waste's cards in reverse order, face down, and the waste
/// is empty; the tableau and the foundations stay.
pub proof fn lemma_flush_rule(g: GameModel)
    ensures
        (flush_outcome(g) is Some) == (g.deck.len() == 0 && g.waste.len() > 0),
        flush_outcome(g) is Some ==> ({
            let r = flush_outcome(g).unwrap();
            let w = g.waste;
            &&& r.deck.len() == w.len()
            &&& forall|i: int|
                0 <= i < w.len() ==> same_identity(#[trigger] r.deck[i], w[w.len() - 1 - i])
                    && !r.deck[i].face_up()
            &&& r.waste.len() == 0
            &&& r.tableau == g.tableau
            &&& r.foundation == g.foundation
            &&& r.history.len() == g.history.len() + 1
        }),
{
    if flush_outcome(g) is Some {
        let r = flush_outcome(g).unwrap();
        assert(r.deck =~= recycled(g.waste));
    }
}

/// The sources and destinations between which one card may move: deck to
/// waste, and the waste or a tableau column to a tableau column or a
/// foundation, each pile one that the game has.
pub open spec fn one_card_path(g: GameModel, from: PileKind, to: PileKind) -> bool {
    let column = |k: PileKind| k is Tableau && k->Tableau_0 < g.tableau.len();
    let foundation = |k: PileKind| k is Foundation && k->Foundation_0 < g.foundation.len();
    ||| from == PileKind::Deck && to == PileKind::Waste
    ||| (from == PileKind::Waste || column(from)) && (column(to) || foundation(to))
}

/// Moves between other piles are refused: an allowed move of one card goes
/// along a path that `one_card_path` names, and an allowed move of two or
/// more cards goes from a tableau column to a tableau column.
pub proof fn lemma_allowed_paths(g: GameModel, mv: Move)
    requires
        apply_move(g, mv) is Some,
    ensures
        match mv {
            Move::FromDeckToWaste => true,
            Move::FromWasteToPile { to } => one_card_path(g, PileKind::Waste, to),
            Move::FromTableauToTableau { from, to, count } => {
                ||| count == 1 && one_card_path(g, from, to)
                ||| count >= 2 && from is Tableau && to is Tableau && from->Tableau_0
                    < g.tableau.len() && to->Tableau_0 < g.tableau.len()
            },
            Move::FromTableauToFoundation { from, to } => one_card_path(g, from, to),
        },
{
}

/// Undo with nothing to undo fails and leaves the game as it is.
pub proof fn lemma_undo_with_empty_history(g: GameModel)
    requires
        g.history.len() == 0,
    ensures
        undo_outcome(g) == (false, g),
{
}

/// Where dealing puts the cards of a deck (its last card on top): the
/// cards are drawn from the top one by one, column 0 getting the first,
/// column 1 the next two, and so on, so that row `r` of column `c` holds
/// draw number `c * (c + 1) / 2 + r` (from 0); the top card of each column
/// is turned over, the others keep the deck's faces; the deck keeps the
/// remaining cards in order; waste, foundations and history are empty.
pub proof fn lemma_deal_positions(d: Seq<Card>)
    requires
        d.len() >= 29,
    ensures
        dealt(d).tableau.len() == 7,
        forall|c: int| 0 <= c < 7 ==> (#[trigger] dealt(d).tableau[c]).len() == c + 1,
        forall|c: int, r: int|
            0 <= c < 7 && 0 <= r <= c ==> same_identity(
                #[trigger] dealt(d).tableau[c][r],
                d[d.len() - 1 - (c * (c + 1) / 2 + r)],
            ) && dealt(d).tableau[c][r].face_up() == (if r == c {
                !d[d.len() - 1 - (c * (c + 1) / 2 + r)].face_up()
            } else {
                d[d.len() - 1 - (c * (c + 1) / 2 + r)].face_up()
            }),
        dealt(d).deck.len() == d.len() - 28,
        forall|i: int|
            0 <= i < dealt(d).deck.len() ==> same_identity(#[trigger] dealt(d).deck[i], d[i])
                && dealt(d).deck[i].face_up() == d[i].face_up(),
        dealt(d).waste.len() == 0,
        dealt(d).foundation.len() == 4,
        forall|f: int| 0 <= f < 4 ==> (#[trigger] dealt(d).foundation[f]).len() == 0,
        dealt(d).history.len() == 0,
{
    lemma_tri_values();
    assert forall|c: int| 0 <= c < 7 implies #[trigger] tri(c) == c * (c + 1) / 2 by {
        if c == 0 {
        } else if c == 1 {
        } else if c == 2 {
        } else if c == 3 {
        } else if c == 4 {
        } else if c == 5 {
        } else {
        }
    }
    assert forall|c: int, r: int| 0 <= c < 7 && 0 <= r <= c implies same_identity(
        #[trigger] dealt(d).tableau[c][r],
        d[d.len() - 1 - (c * (c + 1) / 2 + r)],
    ) && dealt(d).tableau[c][r].face_up() == (if r == c {
        !d[d.len() - 1 - (c * (c + 1) / 2 + r)].face_up()
    } else {
        d[d.len() - 1 - (c * (c + 1) / 2 + r)].face_up()
    }) by {
        assert(tri(c) == c * (c + 1) / 2);
        lemma_tri(c);
        let k = tri(c) + r;
        assert(0 <= k < 28);
    }
}

} // verus!
