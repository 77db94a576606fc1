use vstd::prelude::*;

use crate::cards::{Card, group_card_lemmas};
use crate::game::{Move, PileKind};
use crate::laws::{lemma_add_all_closed, lemma_new_game_layout, stacked};
use crate::model::{
    GameModel, add_all, apply_move, column_ok, dealt, fits_on, flush_outcome, foundation_ordered,
    foundations_ordered, layout_ok, lemma_with_pile, model_wf, move_parts, pile_of,
    single_move_ok, single_move_result, tableau_move_ok, with_pile,
};
use crate::piles::{
    is_shuffled_deck, pile_after_add, pile_after_draw, pile_after_reveal_new_top,
    pile_after_reveal_top, recycled,
};

verus! {

broadcast use group_card_lemmas;

/// Every allowed move keeps the foundation piles in order: an ace at the
/// bottom, one suit, values rising by one.
pub proof fn lemma_move_keeps_foundations_ordered(g: GameModel, mv: Move)
    requires
        model_wf(g),
        foundations_ordered(g),
        apply_move(g, mv) is Some,
    ensures
        foundations_ordered(apply_move(g, mv).unwrap()),
{
    let g2 = apply_move(g, mv).unwrap();
    let (from, count, to) = move_parts(mv);
    if count >= 2 {
        assert forall|f: int| 0 <= f < g2.foundation.len() implies foundation_ordered(
            #[trigger] g2.foundation[f],
        ) by {
            assert(g2.foundation[f] == g.foundation[f]);
        }
    } else {
        let src = pile_of(g, from).unwrap();
        if from is Tableau && to is Tableau && from == to {
            assert(tableau_move_ok(src.last(), src));
            assert(false);
        }
        let (c, x2) = if from == PileKind::Deck {
            let revealed = pile_after_reveal_top(g.deck);
            (revealed.last(), pile_after_draw(revealed))
        } else {
            let after_draw = pile_after_draw(src);
            (
                src.last(),
                if from is Tableau {
                    pile_after_reveal_new_top(after_draw)
                } else {
                    after_draw
                },
            )
        };
        let g1 = with_pile(g, from, x2);
        lemma_with_pile(g, from, x2);
        assert(g1.foundation == g.foundation);
        assert forall|f: int| 0 <= f < g2.foundation.len() implies foundation_ordered(
            #[trigger] g2.foundation[f],
        ) by {
            if to == PileKind::Foundation(f as usize) {
                let dst = g.foundation[f];
                assert(foundation_ordered(dst));
                let nd = pile_after_add(dst, c);
                assert(g2.foundation[f] == nd);
                assert forall|i: int| 0 <= i < nd.len() implies (#[trigger] nd[i]).value() == i + 1
                    && nd[i].suit() == nd[0].suit() by {
                    if dst.len() > 0 {
                        assert(dst.last().value() == dst.len());
                        assert(dst[0].suit() == nd[0].suit());
                        if i < dst.len() {
                            assert(dst[i].value() == i + 1);
                        }
                    }
                }
            } else {
                assert(g2.foundation[f] == g.foundation[f]);
            }
        }
    }
}

/// Turning the waste over onto the deck leaves the foundations as they are.
pub proof fn lemma_flush_keeps_foundations_ordered(g: GameModel)
    requires
        foundations_ordered(g),
        flush_outcome(g) is Some,
    ensures
        foundations_ordered(flush_outcome(g).unwrap()),
{
}

/// Taking the cards from `row` up off a column whose card at `row` is face
/// up: they are all face up, each fitting on the one below, and the rest of
/// the column, with its new top turned face up, is still as play keeps it.
proof fn lemma_column_split(f: Seq<Card>, row: int)
    requires
        column_ok(f),
        0 <= row < f.len(),
        f[row].face_up(),
    ensures
        column_ok(pile_after_reveal_new_top(f.take(row))),
        forall|i: int| 0 <= i < f.skip(row).len() ==> (#[trigger] f.skip(row)[i]).face_up(),
        forall|i: int|
            1 <= i < f.skip(row).len() ==> #[trigger] fits_on(f.skip(row)[i], f.skip(row)[i - 1]),
{
    let s = f.skip(row);
    assert forall|i: int| 0 <= i < s.len() implies (#[trigger] s[i]).face_up() by {
        assert(f[row].face_up() ==> f[row + i].face_up());
    }
    assert forall|i: int| 1 <= i < s.len() implies #[trigger] fits_on(s[i], s[i - 1]) by {
        assert(f[row + i - 1].face_up());
        assert(fits_on(f[row + i], f[row + i - 1]));
    }
    let p = pile_after_reveal_new_top(f.take(row));
    if row > 0 {
        assert forall|i: int, j: int|
            0 <= i <= j < p.len() && (#[trigger] p[i]).face_up() implies (#[trigger] p[j]).face_up() by {
            if j < p.len() - 1 {
                assert(f[i].face_up() ==> f[j].face_up());
            }
        }
        assert forall|i: int| 1 <= i < p.len() && p[i - 1].face_up() implies #[trigger] fits_on(
            p[i],
            p[i - 1],
        ) by {
            assert(f[i - 1].face_up());
            assert(fits_on(f[i], f[i - 1]));
        }
    }
}

/// Placing face-up cards that fit one on another onto a column that takes
/// the lowest of them keeps the column as play keeps it.
proof fn lemma_column_join(t: Seq<Card>, cs: Seq<Card>)
    requires
        column_ok(t),
        cs.len() >= 1,
        forall|i: int| 0 <= i < cs.len() ==> (#[trigger] cs[i]).face_up(),
        forall|i: int| 1 <= i < cs.len() ==> #[trigger] fits_on(cs[i], cs[i - 1]),
        tableau_move_ok(cs[0], t),
    ensures
        column_ok(add_all(t, cs)),
{
    lemma_add_all_closed(t, cs);
    let p = stacked(t, cs);
    let n = t.len();
    assert(p.len() == n + cs.len());
    assert forall|i: int| 0 <= i < p.len() implies (#[trigger] p[i]).face_up() == (if i < n {
        t[i].face_up()
    } else {
        true
    }) && p[i].value() == (if i < n {
        t[i].value()
    } else {
        cs[i - n].value()
    }) && p[i].suit() == (if i < n {
        t[i].suit()
    } else {
        cs[i - n].suit()
    }) by {
        if i >= n {
            assert(cs[i - n].face_up());
        }
    }
    assert forall|i: int, j: int|
        0 <= i <= j < p.len() && (#[trigger] p[i]).face_up() implies (#[trigger] p[j]).face_up() by {
        if j < n {
            assert(t[i].face_up() ==> t[j].face_up());
        }
    }
    assert forall|i: int| 1 <= i < p.len() && p[i - 1].face_up() implies #[trigger] fits_on(
        p[i],
        p[i - 1],
    ) by {
        if i < n {
            assert(fits_on(t[i], t[i - 1]));
        } else if i == n {
            assert(fits_on(cs[0], t.last()));
        } else {
            assert(fits_on(cs[i - n], cs[i - n - 1]));
        }
    }
}

/// The faces of the piles that one allowed one-card move leaves: each pile
/// keeps the faces that play gives it.
proof fn lemma_single_move_layout(g: GameModel, from: PileKind, to: PileKind)
    requires
        model_wf(g),
        layout_ok(g),
        single_move_ok(g, from, to),
    ensures
        layout_ok(single_move_result(g, from, to).0),
{
    let g2 = single_move_result(g, from, to).0;
    let src = pile_of(g, from).unwrap();
    if from is Tableau && to is Tableau && from == to {
        assert(tableau_move_ok(src.last(), src));
        assert(false);
    }
    assert(from != to);
    let (c, x2) = if from == PileKind::Deck {
        let revealed = pile_after_reveal_top(g.deck);
        (revealed.last(), pile_after_draw(revealed))
    } else {
        let after_draw = pile_after_draw(src);
        (
            src.last(),
            if from is Tableau {
                pile_after_reveal_new_top(after_draw)
            } else {
                after_draw
            },
        )
    };
    // The moved card is face up, and what is left of the source keeps its faces.
    if from == PileKind::Deck {
        assert(!g.deck[g.deck.len() - 1].face_up());
        assert(c.face_up());
        assert forall|i: int| 0 <= i < x2.len() implies !(#[trigger] x2[i]).face_up() by {
            assert(!g.deck[i].face_up());
        }
    } else if from == PileKind::Waste {
        assert(g.waste[g.waste.len() - 1].face_up());
        assert forall|i: int| 0 <= i < x2.len() implies (#[trigger] x2[i]).face_up() by {
            assert(g.waste[i].face_up());
        }
    } else {
        let col = from->Tableau_0 as int;
        assert(column_ok(g.tableau[col]));
        let n = src.len();
        assert(x2 =~= pile_after_reveal_new_top(src.take(n - 1)));
        lemma_column_split(src, n - 1);
        assert(src.skip(n - 1)[0] == c);
    }
    let g1 = with_pile(g, from, x2);
    lemma_with_pile(g, from, x2);
    let dst = pile_of(g1, to).unwrap();
    let added = pile_after_add(dst, c);
    lemma_with_pile(g1, to, added);
    assert(g2 == with_pile(g1, to, added));
    if to == PileKind::Waste {
        assert(dst == g.waste);
        assert forall|i: int| 0 <= i < added.len() implies (#[trigger] added[i]).face_up() by {
            if i < dst.len() {
                assert(g.waste[i].face_up());
            }
        }
    } else if to is Tableau {
        let col = to->Tableau_0 as int;
        assert(dst == g.tableau[col]);
        assert(column_ok(dst));
        let cs = seq![c];
        assert(cs.drop_last() =~= Seq::<Card>::empty());
        assert(add_all(dst, cs.drop_last()) == dst);
        assert(add_all(dst, cs) == added);
        lemma_column_join(dst, cs);
    }
    assert(pile_of(g2, PileKind::Deck) == Some(g2.deck));
    assert(pile_of(g2, PileKind::Waste) == Some(g2.waste));
    assert forall|k: int| 0 <= k < g2.tableau.len() implies column_ok(#[trigger] g2.tableau[k]) by {
        let kk = PileKind::Tableau(k as usize);
        assert(pile_of(g2, kk) == Some(g2.tableau[k]));
        assert(pile_of(g, kk) == Some(g.tableau[k]));
    }
}

/// Every allowed move keeps the faces as play keeps them: the deck face
/// down, the waste face up, and in each tableau column the face-down cards
/// below the face-up ones, the top face up, and each face-up card on a
/// face-up card one value lower and of the other colour.
pub proof fn lemma_move_keeps_layout(g: GameModel, mv: Move)
    requires
        model_wf(g),
        layout_ok(g),
        apply_move(g, mv) is Some,
    ensures
        layout_ok(apply_move(g, mv).unwrap()),
{
    let (from, count, to) = move_parts(mv);
    if count >= 2 {
        let f = from->Tableau_0 as int;
        let t = to->Tableau_0 as int;
        let src = g.tableau[f];
        let row = src.len() - count;
        assert(column_ok(src));
        assert(column_ok(g.tableau[t]));
        lemma_column_split(src, row);
        lemma_column_join(g.tableau[t], src.skip(row));
        let g2 = apply_move(g, mv).unwrap();
        assert forall|k: int| 0 <= k < g2.tableau.len() implies column_ok(#[trigger] g2.tableau[k]) by {
            if k != f && k != t {
                assert(g2.tableau[k] == g.tableau[k]);
            }
        }
    } else {
        lemma_single_move_layout(g, from, to);
    }
}

/// Turning the waste over onto the deck keeps the faces as play keeps
/// them: the turned cards lie face down on the deck, and the waste is
/// empty.
pub proof fn lemma_flush_keeps_layout(g: GameModel)
    requires
        layout_ok(g),
        flush_outcome(g) is Some,
    ensures
        layout_ok(flush_outcome(g).unwrap()),
{
    let g2 = flush_outcome(g).unwrap();
    assert(g2.deck =~= recycled(g.waste));
}

/// A game dealt from a shuffled standard deck has its faces as play keeps
/// them and its (empty) foundations in order.
pub proof fn lemma_new_game_in_order(d: Seq<Card>)
    requires
        is_shuffled_deck(d),
    ensures
        layout_ok(dealt(d)),
        foundations_ordered(dealt(d)),
{
    lemma_new_game_layout(d);
    let g = dealt(d);
    assert forall|c: int| 0 <= c < g.tableau.len() implies column_ok(#[trigger] g.tableau[c]) by {
        let s = g.tableau[c];
        assert(s.len() == c + 1);
        assert(s[c].face_up());
        assert forall|i: int, j: int|
            0 <= i <= j < s.len() && (#[trigger] s[i]).face_up() implies (#[trigger] s[j]).face_up() by {
            assert(s[i].face_up() == (i == c));
            assert(s[j].face_up() == (j == c));
        }
        assert forall|i: int| 1 <= i < s.len() && s[i - 1].face_up() implies #[trigger] fits_on(s[i], s[i - 1]) by {
            assert(s[i - 1].face_up() == (i - 1 == c));
        }
    }
    assert forall|f: int| 0 <= f < g.foundation.len() implies foundation_ordered(#[trigger] g.foundation[f]) by {
        assert(g.foundation[f].len() == 0);
    }
}

} // verus!
