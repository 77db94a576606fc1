use vstd::prelude::*;

use crate::cards::{Card, group_card_lemmas, same_identity};
use crate::game::{Move, PileKind};
use crate::laws::{
    lemma_flush_keeps_kept, lemma_move_keeps_kept, lemma_new_game_layout, lemma_undo_after_flush,
    lemma_undo_keeps_kept, lemma_undo_reverts_move,
};
use crate::layout::{
    lemma_flush_keeps_foundations_ordered, lemma_move_keeps_foundations_ordered,
    lemma_new_game_in_order,
};
use crate::model::{
    GameModel, UndoModel, add_all, apply_move, dealt, draw_n, drawn_n, first_allowed,
    flush_outcome, foundation_ordered, foundations_ordered, kept, lemma_draw_n_len,
    lemma_with_pile, pile_of, turn_down_from, undo_move_cards_outcome, undo_outcome, with_pile,
};
use crate::piles::{is_shuffled_deck, pile_after_draw};

verus! {

broadcast use group_card_lemmas;

/// `a` and `b` hold cards of the same identities, position by position;
/// their faces and clickability may differ.
pub open spec fn same_ids(a: Seq<Card>, b: Seq<Card>) -> bool {
    &&& a.len() == b.len()
    &&& forall|i: int|
        #![trigger a[i]]
        #![trigger b[i]]
        0 <= i < a.len() ==> same_identity(a[i], b[i])
}

/// Two games that differ at most in the faces and clickability of their
/// cards: the same history, and piles holding the same identities.
pub open spec fn similar(a: GameModel, b: GameModel) -> bool {
    &&& a.history == b.history
    &&& same_ids(a.deck, b.deck)
    &&& same_ids(a.waste, b.waste)
    &&& a.tableau.len() == b.tableau.len()
    &&& forall|i: int| 0 <= i < a.tableau.len() ==> same_ids(#[trigger] a.tableau[i], b.tableau[i])
    &&& a.foundation.len() == b.foundation.len()
    &&& forall|i: int|
        0 <= i < a.foundation.len() ==> same_ids(#[trigger] a.foundation[i], b.foundation[i])
}

/// Whether the last `n` records of the history can be undone one after
/// another, each undo succeeding and leaving the foundations in order.
pub open spec fn undoable_n(g: GameModel, n: nat) -> bool
    decreases n,
{
    if n == 0 {
        true
    } else {
        &&& undo_outcome(g).0
        &&& foundations_ordered(undo_outcome(g).1)
        &&& undoable_n(undo_outcome(g).1, (n - 1) as nat)
    }
}

/// Whether the whole history can be undone, record by record, each undo
/// succeeding and leaving the foundations in order.
pub open spec fn undoable(g: GameModel) -> bool {
    undoable_n(g, g.history.len())
}

/// What every game reached by play keeps: what `kept` says, foundations in
/// order, and a history that undo can take back to the start.
pub open spec fn in_play(g: GameModel) -> bool {
    &&& kept(g)
    &&& foundations_ordered(g)
    &&& undoable(g)
}

/// Foundations in order stay in order in a similar game.
proof fn lemma_similar_ordered(a: GameModel, b: GameModel)
    requires
        similar(a, b),
        foundations_ordered(a),
    ensures
        foundations_ordered(b),
{
    assert forall|f: int| 0 <= f < b.foundation.len() implies foundation_ordered(
        #[trigger] b.foundation[f],
    ) by {
        let x = a.foundation[f];
        let y = b.foundation[f];
        assert(same_ids(x, y));
        assert(foundation_ordered(x));
        assert forall|i: int| 0 <= i < y.len() implies (#[trigger] y[i]).value() == i + 1
            && y[i].suit() == y[0].suit() by {
            assert(same_identity(x[i], y[i]));
            assert(same_identity(x[0], y[0]));
            assert(x[i].value() == i + 1 && x[i].suit() == x[0].suit());
        }
    }
}

proof fn lemma_same_ids_refl(s: Seq<Card>)
    ensures
        same_ids(s, s),
{
}

proof fn lemma_draw_similar(s: Seq<Card>, t: Seq<Card>, n: nat)
    requires
        same_ids(s, t),
        n <= s.len(),
    ensures
        same_ids(draw_n(s, n), draw_n(t, n)),
        same_ids(drawn_n(s, n), drawn_n(t, n)),
    decreases n,
{
    if n > 0 {
        let m = (n - 1) as nat;
        lemma_draw_similar(s, t, m);
        lemma_draw_n_len(s, m);
        lemma_draw_n_len(t, m);
        let ds = draw_n(s, m);
        let dt = draw_n(t, m);
        let ps = pile_after_draw(ds);
        let pt = pile_after_draw(dt);
        assert forall|i: int| 0 <= i < ps.len() implies same_identity(#[trigger] ps[i], pt[i]) by {
            assert(same_identity(ds[i], dt[i]));
        }
        assert(same_identity(ds[ds.len() - 1], dt[dt.len() - 1]));
        let xs = drawn_n(s, m).push(ds.last());
        let xt = drawn_n(t, m).push(dt.last());
        assert forall|i: int| 0 <= i < xs.len() implies same_identity(#[trigger] xs[i], xt[i]) by {
            if i < m {
                assert(same_identity(drawn_n(s, m)[i], drawn_n(t, m)[i]));
            }
        }
    }
}

proof fn lemma_add_all_similar(s: Seq<Card>, t: Seq<Card>, cs: Seq<Card>, ds: Seq<Card>)
    requires
        same_ids(s, t),
        same_ids(cs, ds),
    ensures
        same_ids(add_all(s, cs), add_all(t, ds)),
    decreases cs.len(),
{
    if cs.len() > 0 {
        let ci = cs.drop_last();
        let di = ds.drop_last();
        assert forall|i: int| 0 <= i < ci.len() implies same_identity(#[trigger] ci[i], di[i]) by {
            assert(same_identity(cs[i], ds[i]));
        }
        lemma_add_all_similar(s, t, ci, di);
        let a = add_all(s, ci);
        let b = add_all(t, di);
        assert(same_identity(cs[cs.len() - 1], ds[ds.len() - 1]));
        let x = add_all(s, cs);
        let y = add_all(t, ds);
        assert forall|i: int| 0 <= i < x.len() implies same_identity(#[trigger] x[i], y[i]) by {
            if i < a.len() {
                assert(same_identity(a[i], b[i]));
            }
        }
    }
}

proof fn lemma_reverse_similar(s: Seq<Card>, t: Seq<Card>)
    requires
        same_ids(s, t),
    ensures
        same_ids(s.reverse(), t.reverse()),
{
    let x = s.reverse();
    let y = t.reverse();
    assert forall|i: int| 0 <= i < x.len() implies same_identity(#[trigger] x[i], y[i]) by {
        assert(same_identity(s[s.len() - 1 - i], t[t.len() - 1 - i]));
    }
}

/// Reading and replacing piles of similar games.
proof fn lemma_piles_similar(a: GameModel, b: GameModel, k: PileKind, s: Seq<Card>, t: Seq<Card>)
    requires
        similar(a, b),
    ensures
        (pile_of(a, k) is Some) == (pile_of(b, k) is Some),
        pile_of(a, k) is Some ==> same_ids(pile_of(a, k).unwrap(), pile_of(b, k).unwrap()),
        pile_of(a, k) is Some && same_ids(s, t) ==> similar(with_pile(a, k, s), with_pile(b, k, t)),
{
    match k {
        PileKind::Tableau(col) => {
            if col < a.tableau.len() && same_ids(s, t) {
                let x = with_pile(a, k, s);
                let y = with_pile(b, k, t);
                assert forall|i: int| 0 <= i < x.tableau.len() implies same_ids(
                    #[trigger] x.tableau[i],
                    y.tableau[i],
                ) by {
                    if i != col {
                        assert(same_ids(a.tableau[i], b.tableau[i]));
                    }
                }
            }
            if col < a.tableau.len() {
                assert(same_ids(a.tableau[col as int], b.tableau[col as int]));
            }
        },
        PileKind::Foundation(idx) => {
            if idx < a.foundation.len() && same_ids(s, t) {
                let x = with_pile(a, k, s);
                let y = with_pile(b, k, t);
                assert forall|i: int| 0 <= i < x.foundation.len() implies same_ids(
                    #[trigger] x.foundation[i],
                    y.foundation[i],
                ) by {
                    if i != idx {
                        assert(same_ids(a.foundation[i], b.foundation[i]));
                    }
                }
            }
            if idx < a.foundation.len() {
                assert(same_ids(a.foundation[idx as int], b.foundation[idx as int]));
            }
        },
        _ => {},
    }
}

/// Undoing a move of cards succeeds in one of two similar games exactly
/// when it does in the other, and leaves similar games.
proof fn lemma_undo_cards_similar(
    a: GameModel,
    b: GameModel,
    from: PileKind,
    to: PileKind,
    cards: Seq<Card>,
    modified: bool,
    flipped: bool,
)
    requires
        similar(a, b),
    ensures
        undo_move_cards_outcome(a, from, to, cards, modified, flipped).0
            == undo_move_cards_outcome(b, from, to, cards, modified, flipped).0,
        similar(
            undo_move_cards_outcome(a, from, to, cards, modified, flipped).1,
            undo_move_cards_outcome(b, from, to, cards, modified, flipped).1,
        ),
{
    let k = cards.len();
    lemma_piles_similar(a, b, to, Seq::empty(), Seq::empty());
    if pile_of(a, to) is None {
        return;
    }
    let ta = pile_of(a, to).unwrap();
    let tb = pile_of(b, to).unwrap();
    if ta.len() < k {
        lemma_draw_similar(ta, tb, ta.len());
        lemma_piles_similar(a, b, to, draw_n(ta, ta.len()), draw_n(tb, tb.len()));
        return;
    }
    lemma_draw_similar(ta, tb, k);
    lemma_draw_n_len(ta, k);
    let a1 = with_pile(a, to, draw_n(ta, k));
    let b1 = with_pile(b, to, draw_n(tb, k));
    lemma_piles_similar(a, b, to, draw_n(ta, k), draw_n(tb, k));
    let pa = drawn_n(ta, k);
    let pb = drawn_n(tb, k);
    let ma = forall|i: int| 0 <= i < k ==> same_identity(#[trigger] pa[i], cards[k - 1 - i]);
    let mb = forall|i: int| 0 <= i < k ==> same_identity(#[trigger] pb[i], cards[k - 1 - i]);
    assert(ma == mb) by {
        if ma {
            assert forall|i: int| 0 <= i < k implies same_identity(#[trigger] pb[i], cards[k - 1 - i]) by {
                assert(same_identity(pa[i], pb[i]));
                assert(same_identity(pa[i], cards[k - 1 - i]));
            }
        }
        if mb {
            assert forall|i: int| 0 <= i < k implies same_identity(#[trigger] pa[i], cards[k - 1 - i]) by {
                assert(same_identity(pa[i], pb[i]));
                assert(same_identity(pb[i], cards[k - 1 - i]));
            }
        }
    }
    if !ma {
        return;
    }
    lemma_piles_similar(a1, b1, from, Seq::empty(), Seq::empty());
    if pile_of(a1, from) is None {
        return;
    }
    let fa = pile_of(a1, from).unwrap();
    let fb = pile_of(b1, from).unwrap();
    lemma_reverse_similar(pa, pb);
    lemma_add_all_similar(fa, fb, pa.reverse(), pb.reverse());
    let fa1 = add_all(fa, pa.reverse());
    let fb1 = add_all(fb, pb.reverse());
    let a2 = with_pile(a1, from, fa1);
    let b2 = with_pile(b1, from, fb1);
    lemma_piles_similar(a1, b1, from, fa1, fb1);
    if flipped && !(from is Tableau) {
        return;
    }
    if flipped && fa1.len() < k + 1 {
        return;
    }
    let (a3, b3) = if flipped {
        let idx = fa1.len() - (k + 1);
        let ua = fa1.update(idx, fa1[idx].flipped().with_clickable(false));
        let ub = fb1.update(idx, fb1[idx].flipped().with_clickable(false));
        assert(same_identity(fa1[idx], fb1[idx]));
        assert forall|i: int| 0 <= i < ua.len() implies same_identity(#[trigger] ua[i], ub[i]) by {
            assert(same_identity(fa1[i], fb1[i]));
        }
        lemma_with_pile(a1, from, fa1);
        lemma_with_pile(b1, from, fb1);
        lemma_piles_similar(a1, b1, from, ua, ub);
        (with_pile(a2, from, ua), with_pile(b2, from, ub))
    } else {
        (a2, b2)
    };
    assert(similar(a3, b3));
    if !modified || from != PileKind::Deck {
        return;
    }
    let da = turn_down_from(a3.deck, a3.deck.len() - k);
    let db = turn_down_from(b3.deck, b3.deck.len() - k);
    assert forall|i: int| 0 <= i < da.len() implies same_identity(#[trigger] da[i], db[i]) by {
        assert(same_identity(a3.deck[i], b3.deck[i]));
    }
    if da.len() > 0 {
        let xa = da.update(da.len() - 1, da.last().with_clickable(true));
        let xb = db.update(db.len() - 1, db.last().with_clickable(true));
        assert(same_identity(da[da.len() - 1], db[db.len() - 1]));
        assert forall|i: int| 0 <= i < xa.len() implies same_identity(#[trigger] xa[i], xb[i]) by {
            assert(same_identity(da[i], db[i]));
        }
    }
}

/// Undo succeeds in one of two similar games exactly when it does in the
/// other, and leaves similar games.
proof fn lemma_undo_similar(a: GameModel, b: GameModel)
    requires
        similar(a, b),
    ensures
        undo_outcome(a).0 == undo_outcome(b).0,
        similar(undo_outcome(a).1, undo_outcome(b).1),
{
    if a.history.len() == 0 {
        return;
    }
    let a0 = GameModel { history: a.history.drop_last(), ..a };
    let b0 = GameModel { history: b.history.drop_last(), ..b };
    assert(similar(a0, b0));
    match a.history.last() {
        UndoModel::MoveCards { from, to, cards, moved_cards_were_modified, flipped_source_top } => {
            lemma_undo_cards_similar(
                a0,
                b0,
                from,
                to,
                cards,
                moved_cards_were_modified,
                flipped_source_top,
            );
        },
        UndoModel::RecycleWaste { cards_moved } => {
            let n = cards_moved as nat;
            if a0.deck.len() >= n {
                lemma_draw_similar(a0.deck, b0.deck, n);
                lemma_add_all_similar(a0.waste, b0.waste, drawn_n(a0.deck, n), drawn_n(b0.deck, n));
            }
        },
    }
}

/// A history that can be undone in one game can be undone in any similar
/// game.
proof fn lemma_undoable_similar(a: GameModel, b: GameModel, n: nat)
    requires
        similar(a, b),
        undoable_n(a, n),
    ensures
        undoable_n(b, n),
    decreases n,
{
    if n > 0 {
        lemma_undo_similar(a, b);
        lemma_similar_ordered(undo_outcome(a).1, undo_outcome(b).1);
        lemma_undoable_similar(undo_outcome(a).1, undo_outcome(b).1, (n - 1) as nat);
    }
}

/// Undo takes the last record off the history, whether it succeeds or not.
pub proof fn lemma_undo_history(g: GameModel)
    ensures
        g.history.len() > 0 ==> undo_outcome(g).1.history == g.history.drop_last(),
{
    if g.history.len() > 0 {
        let g0 = GameModel { history: g.history.drop_last(), ..g };
        match g.history.last() {
            UndoModel::MoveCards { from, to, cards, moved_cards_were_modified, flipped_source_top } => {
                lemma_undo_cards_history(
                    g0,
                    from,
                    to,
                    cards,
                    moved_cards_were_modified,
                    flipped_source_top,
                );
            },
            UndoModel::RecycleWaste { cards_moved } => {},
        }
    }
}

/// Undoing a move of cards keeps the history and the numbers of columns
/// and foundations as they are.
pub proof fn lemma_undo_cards_history(
    g: GameModel,
    from: PileKind,
    to: PileKind,
    cards: Seq<Card>,
    modified: bool,
    flipped: bool,
)
    ensures
        undo_move_cards_outcome(g, from, to, cards, modified, flipped).1.history == g.history,
        undo_move_cards_outcome(g, from, to, cards, modified, flipped).1.tableau.len()
            == g.tableau.len(),
        undo_move_cards_outcome(g, from, to, cards, modified, flipped).1.foundation.len()
            == g.foundation.len(),
{
    let k = cards.len();
    if pile_of(g, to) is Some {
        let tp = pile_of(g, to).unwrap();
        lemma_with_pile(g, to, draw_n(tp, tp.len()));
        lemma_with_pile(g, to, draw_n(tp, k));
        let g1 = with_pile(g, to, draw_n(tp, k));
        if pile_of(g1, from) is Some {
            let fp1 = add_all(pile_of(g1, from).unwrap(), drawn_n(tp, k).reverse());
            lemma_with_pile(g1, from, fp1);
            if fp1.len() >= k + 1 {
                let idx = fp1.len() - (k + 1);
                lemma_with_pile(g1, from, fp1.update(idx, fp1[idx].flipped().with_clickable(false)));
                lemma_with_pile(
                    with_pile(g1, from, fp1),
                    from,
                    fp1.update(idx, fp1[idx].flipped().with_clickable(false)),
                );
            }
        }
    }
}

/// A newly dealt game is in play: nothing to undo yet.
pub proof fn lemma_new_game_in_play(d: Seq<Card>)
    requires
        is_shuffled_deck(d),
    ensures
        in_play(dealt(d)),
{
    lemma_new_game_layout(d);
    lemma_new_game_in_order(d);
}

/// Every allowed move keeps a game in play: undo takes the move back to
/// the game before it, whose history could be undone already.
pub proof fn lemma_move_keeps_in_play(g: GameModel, mv: Move)
    requires
        in_play(g),
        apply_move(g, mv) is Some,
    ensures
        in_play(apply_move(g, mv).unwrap()),
{
    lemma_move_keeps_kept(g, mv);
    lemma_move_keeps_foundations_ordered(g, mv);
    lemma_undo_reverts_move(g, mv);
    let g2 = apply_move(g, mv).unwrap();
    assert(g2.history.len() == g.history.len() + 1);
    assert(undoable_n(g2, g2.history.len()) == (undo_outcome(g2).0 && foundations_ordered(
        undo_outcome(g2).1,
    ) && undoable_n(undo_outcome(g2).1, g.history.len())));
}

/// Turning the waste over keeps a game in play: undo gives back the game
/// before it with the waste face down, and faces do not matter to undo.
pub proof fn lemma_flush_keeps_in_play(g: GameModel)
    requires
        in_play(g),
        g.waste.len() <= usize::MAX,
        flush_outcome(g) is Some,
    ensures
        in_play(flush_outcome(g).unwrap()),
{
    lemma_flush_keeps_kept(g);
    lemma_flush_keeps_foundations_ordered(g);
    lemma_undo_after_flush(g);
    let g2 = flush_outcome(g).unwrap();
    let gd = undo_outcome(g2).1;
    assert(gd.waste.len() == g.waste.len());
    assert forall|i: int| 0 <= i < g.waste.len() implies same_identity(
        #[trigger] g.waste[i],
        gd.waste[i],
    ) by {}
    assert forall|i: int| 0 <= i < g.tableau.len() implies same_ids(
        #[trigger] g.tableau[i],
        gd.tableau[i],
    ) by {
        lemma_same_ids_refl(g.tableau[i]);
    }
    assert forall|i: int| 0 <= i < g.foundation.len() implies same_ids(
        #[trigger] g.foundation[i],
        gd.foundation[i],
    ) by {
        lemma_same_ids_refl(g.foundation[i]);
    }
    lemma_same_ids_refl(g.deck);
    assert(similar(g, gd));
    lemma_undoable_similar(g, gd, g.history.len());
    assert(g2.history.len() == g.history.len() + 1);
    lemma_similar_ordered(g, gd);
    assert(undoable_n(g2, g2.history.len()) == (undo_outcome(g2).0 && foundations_ordered(gd)
        && undoable_n(gd, g.history.len())));
}

/// The first allowed move of a list, when there is one, keeps a game in
/// play.
pub proof fn lemma_first_allowed_keeps_in_play(g: GameModel, mvs: Seq<Move>)
    requires
        in_play(g),
        first_allowed(g, mvs) is Some,
    ensures
        in_play(first_allowed(g, mvs).unwrap()),
    decreases mvs.len(),
{
    if apply_move(g, mvs[0]) is Some {
        lemma_move_keeps_in_play(g, mvs[0]);
    } else {
        lemma_first_allowed_keeps_in_play(g, mvs.drop_first());
    }
}

/// Undo in a game in play: it succeeds exactly when there is something to
/// undo, takes the last record off the history, and leaves the game in
/// play.
pub proof fn lemma_undo_in_play(g: GameModel)
    requires
        in_play(g),
    ensures
        undo_outcome(g).0 == (g.history.len() > 0),
        g.history.len() > 0 ==> undo_outcome(g).1.history == g.history.drop_last(),
        in_play(undo_outcome(g).1),
{
    lemma_undo_history(g);
    lemma_undo_keeps_kept(g);
    if g.history.len() > 0 {
        let n = g.history.len();
        assert(undoable_n(g, n) == (undo_outcome(g).0 && foundations_ordered(undo_outcome(g).1)
            && undoable_n(undo_outcome(g).1, (n - 1) as nat)));
    }
}

} // verus!
