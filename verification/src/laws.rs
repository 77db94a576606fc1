use vstd::multiset::Multiset;
use vstd::prelude::*;

use crate::cards::{Card, Suit, group_card_lemmas, same_identity};
use crate::game::{Move, PileKind};
use crate::model::{
    GameModel, UndoModel, add_all, after_draws, apply_move, clean, column_prefix, dealt, draw_n,
    drawn_at, drawn_n, flush_outcome, game_ids, ident, kept, lemma_tri, lemma_with_pile,
    model_wf, move_outcome, move_parts, pile_clean, pile_ids, pile_of, piles_ids, record_ok,
    single_move_ok, single_move_result, stack_move_ok, stack_move_result, tableau_move_ok, tri,
    turn_down_from, undo_move_cards_outcome, undo_outcome, undo_recycle_outcome, with_pile,
};
use crate::piles::{
    is_shuffled_deck, pile_after_add, pile_after_draw, pile_after_reveal_new_top,
    pile_after_reveal_top, recycled, standard_deck,
};

verus! {

broadcast use group_card_lemmas;

/// `t` with its top made unclickable when `cs` is not empty, followed by
/// the cards of `cs` with all but the last made unclickable.
pub open spec fn stacked(t: Seq<Card>, cs: Seq<Card>) -> Seq<Card> {
    let base = if cs.len() > 0 && t.len() > 0 {
        t.update(t.len() - 1, t.last().with_clickable(false))
    } else {
        t
    };
    base + Seq::new(
        cs.len(),
        |i: int|
            if i < cs.len() - 1 {
                cs[i].with_clickable(false)
            } else {
                cs[i]
            },
    )
}

/// Placing cards one by one on a pile, in closed form.
pub proof fn lemma_add_all_closed(t: Seq<Card>, cs: Seq<Card>)
    ensures
        add_all(t, cs) == stacked(t, cs),
    decreases cs.len(),
{
    if cs.len() == 0 {
        assert(stacked(t, cs) =~= t);
    } else {
        let init = cs.drop_last();
        lemma_add_all_closed(t, init);
        assert(add_all(t, cs) == pile_after_add(add_all(t, init), cs.last()));
        assert(pile_after_add(stacked(t, init), cs.last()) =~= stacked(t, cs));
    }
}

/// Drawing `n` cards from a pile, in closed form.
pub proof fn lemma_draw_n_closed(s: Seq<Card>, n: nat)
    requires
        n <= s.len(),
    ensures
        draw_n(s, n).len() == s.len() - n,
        n < s.len() ==> draw_n(s, n) == after_draws(s, n as int),
        drawn_n(s, n).len() == n,
        forall|i: int| 0 <= i < n ==> #[trigger] drawn_n(s, n)[i] == drawn_at(s, i),
    decreases n,
{
    if n == 0 {
    } else {
        let m = (n - 1) as nat;
        lemma_draw_n_closed(s, m);
        assert(draw_n(s, m) == after_draws(s, m as int));
        let a = after_draws(s, m as int);
        assert(a.len() == s.len() - m);
        assert(a.last() == drawn_at(s, m as int));
        if n < s.len() {
            assert(pile_after_draw(a) =~= after_draws(s, n as int));
        }
        assert forall|i: int| 0 <= i < n implies #[trigger] drawn_n(s, n)[i] == drawn_at(s, i) by {
            if i < m {
                assert(drawn_n(s, n)[i] == drawn_n(s, m)[i]);
            }
        }
    }
}

/// The cards of `cs` as they come back when drawn off a pile they were
/// placed on: all but the last made clickable.
pub open spec fn lifted(cs: Seq<Card>) -> Seq<Card> {
    Seq::new(
        cs.len(),
        |j: int|
            if j < cs.len() - 1 {
                cs[j].with_clickable(true)
            } else {
                cs[j]
            },
    )
}

/// Drawing back the cards just placed on a pile whose top was clickable
/// restores the pile and hands the cards back, top first.
pub proof fn lemma_draw_back(t: Seq<Card>, cs: Seq<Card>)
    requires
        cs.len() >= 1,
        t.len() > 0 ==> t.last().clickable(),
    ensures
        add_all(t, cs).len() == t.len() + cs.len(),
        draw_n(add_all(t, cs), cs.len()) == t,
        drawn_n(add_all(t, cs), cs.len()).reverse() == lifted(cs),
        forall|i: int|
            0 <= i < cs.len() ==> same_identity(
                #[trigger] drawn_n(add_all(t, cs), cs.len())[i],
                cs[cs.len() - 1 - i],
            ),
{
    let k = cs.len();
    lemma_add_all_closed(t, cs);
    let t2 = stacked(t, cs);
    assert(t2.len() == t.len() + k);
    lemma_draw_n_closed(t2, k);
    if t.len() > 0 {
        assert(after_draws(t2, k as int) =~= t);
    } else {
        assert(draw_n(t2, k) =~= t);
    }
    let p = drawn_n(t2, k);
    assert forall|j: int| 0 <= j < k implies #[trigger] p.reverse()[j] == lifted(cs)[j] by {
        assert(p.reverse()[j] == p[k - 1 - j]);
        assert(p[k - 1 - j] == drawn_at(t2, k - 1 - j));
    }
    assert(p.reverse() =~= lifted(cs));
    assert forall|i: int| 0 <= i < k implies same_identity(#[trigger] p[i], cs[k - 1 - i]) by {
        assert(p[i] == drawn_at(t2, i));
    }
}

/// Placing back the lifted cards on a pile restores them as they were when
/// only the last of them was clickable.
pub proof fn lemma_place_back(f: Seq<Card>, cs: Seq<Card>)
    requires
        cs.len() >= 1,
        forall|j: int| 0 <= j < cs.len() - 1 ==> !(#[trigger] cs[j]).clickable(),
    ensures
        add_all(f, lifted(cs)) == (if f.len() > 0 {
            f.update(f.len() - 1, f.last().with_clickable(false))
        } else {
            f
        }) + cs,
{
    lemma_add_all_closed(f, lifted(cs));
    let base = if f.len() > 0 {
        f.update(f.len() - 1, f.last().with_clickable(false))
    } else {
        f
    };
    assert(stacked(f, lifted(cs)) =~= base + cs);
}

/// Undoing an allowed move of several cards between tableau columns gives
/// back the game as it was.
proof fn lemma_undo_stack_move(g: GameModel, f: usize, count: usize, t: usize)
    requires
        model_wf(g),
        clean(g),
        count >= 2,
        stack_move_ok(g, PileKind::Tableau(f), count, PileKind::Tableau(t)),
    ensures
        ({
            let (g2, rec) = stack_move_result(g, f, count, t);
            undo_outcome(GameModel { history: g2.history.push(rec), ..g2 }) == (true, g)
        }),
{
    let (g2, rec) = stack_move_result(g, f, count, t);
    let gh = GameModel { history: g2.history.push(rec), ..g2 };
    let from = PileKind::Tableau(f);
    let to = PileKind::Tableau(t);
    let big_f = g.tableau[f as int];
    let big_t = g.tableau[t as int];
    let row = big_f.len() - count;
    let f0 = big_f.take(row);
    let cs = big_f.skip(row);
    let k = cs.len();
    let f2 = pile_after_reveal_new_top(f0);
    let t2 = add_all(big_t, cs);
    let flipped = f0.len() > 0 && !f0.last().face_up();
    assert(pile_clean(big_f));
    assert(pile_clean(big_t));
    assert(k == count);
    let g0 = GameModel { history: gh.history.drop_last(), ..gh };
    assert(gh.history.drop_last() =~= g.history);
    assert(g0.tableau == g.tableau.update(f as int, f2).update(t as int, t2));
    assert(pile_of(g0, to) == Some(t2));
    lemma_draw_back(big_t, cs);
    let g1 = with_pile(g0, to, draw_n(t2, k));
    assert(g1.tableau =~= g.tableau.update(f as int, f2));
    assert(pile_of(g1, from) == Some(f2));
    let popped = drawn_n(t2, k);
    assert forall|j: int| 0 <= j < k - 1 implies !(#[trigger] cs[j]).clickable() by {
        assert(cs[j] == big_f[row + j]);
    }
    lemma_place_back(f2, cs);
    let fp1 = add_all(f2, popped.reverse());
    assert(fp1.len() == f0.len() + k);
    let g2b = with_pile(g1, from, fp1);
    if flipped {
        let idx = fp1.len() - (k + 1);
        let fixed = fp1.update(idx, fp1[idx].flipped().with_clickable(false));
        assert(f0.last() == big_f[row - 1]);
        assert(fixed =~= big_f);
        assert(with_pile(g2b, from, fixed).tableau =~= g.tableau);
    } else {
        if f0.len() > 0 {
            assert(f0.last() == big_f[row - 1]);
        }
        assert(fp1 =~= big_f);
        assert(g2b.tableau =~= g.tableau);
    }
}

/// Placing one card is placing a sequence of one card.
proof fn lemma_add_one(t: Seq<Card>, c: Card)
    ensures
        add_all(t, seq![c]) == pile_after_add(t, c),
{
    assert(seq![c].drop_last() =~= Seq::<Card>::empty());
    assert(add_all(t, Seq::<Card>::empty()) == t);
    assert(seq![c].last() == c);
}

/// Undoing an allowed move of one card gives back the game as it was.
proof fn lemma_undo_single_move(g: GameModel, from: PileKind, to: PileKind)
    requires
        model_wf(g),
        clean(g),
        single_move_ok(g, from, to),
    ensures
        ({
            let (g2, rec) = single_move_result(g, from, to);
            undo_outcome(GameModel { history: g2.history.push(rec), ..g2 }) == (true, g)
        }),
{
    let (g2, rec) = single_move_result(g, from, to);
    let gh = GameModel { history: g2.history.push(rec), ..g2 };
    let g0 = GameModel { history: gh.history.drop_last(), ..gh };
    assert(gh.history.drop_last() =~= g.history);
    let src = pile_of(g, from).unwrap();
    if from is Tableau && to is Tableau && from == to {
        let c = src.last();
        assert(tableau_move_ok(c, src));
        assert(false);
    }
    assert(from != to);
    assert(pile_clean(src));
    if from == PileKind::Deck {
        let revealed = pile_after_reveal_top(g.deck);
        let drawn = revealed.last();
        let w = g.waste;
        assert(pile_clean(w));
        lemma_add_one(w, drawn);
        lemma_draw_back(w, seq![drawn]);
        let fp = pile_after_draw(revealed);
        let g1 = GameModel { waste: w, deck: fp, ..g0 };
        assert(pile_of(g0, to) == Some(add_all(w, seq![drawn])));
        let popped = drawn_n(add_all(w, seq![drawn]), 1);
        lemma_place_back(fp, seq![drawn]);
        let fp1 = add_all(fp, popped.reverse());
        let d = g.deck;
        let n = d.len();
        assert(d[n - 1].clickable());
        assert(!d[n - 1].face_up());
        if n >= 2 {
            assert(!d[n - 2].clickable());
        }
        assert(fp1 =~= d.take(n - 1).push(drawn));
        let d1 = crate::model::turn_down_from(fp1, fp1.len() - 1);
        assert(d1.update(d1.len() - 1, d1.last().with_clickable(true)) =~= d);
    } else {
        let c = src.last();
        let after_draw = pile_after_draw(src);
        let new_src = if from is Tableau {
            pile_after_reveal_new_top(after_draw)
        } else {
            after_draw
        };
        let g1 = with_pile(g, from, new_src);
        lemma_with_pile(g, from, new_src);
        let dst = pile_of(g, to).unwrap();
        assert(pile_of(g1, to) == Some(dst));
        assert(pile_clean(dst));
        lemma_add_one(dst, c);
        lemma_draw_back(dst, seq![c]);
        lemma_with_pile(g1, to, add_all(dst, seq![c]));
        assert(pile_of(g0, to) == Some(add_all(dst, seq![c])));
        let ga = with_pile(g0, to, dst);
        assert(ga == GameModel { history: g.history, ..g1 }) by {
            lemma_with_pile(g1, to, dst);
        }
        assert(pile_of(ga, from) == Some(new_src));
        let popped = drawn_n(add_all(dst, seq![c]), 1);
        lemma_place_back(new_src, seq![c]);
        let fp1 = add_all(new_src, popped.reverse());
        let n = src.len();
        let f0 = src.take(n - 1);
        lemma_with_pile(ga, from, fp1);
        if n >= 2 {
            assert(!src[n - 2].clickable());
            assert(f0.last() == src[n - 2]);
        }
        let flipped = from is Tableau && after_draw.len() > 0 && !after_draw.last().face_up();
        if flipped {
            let idx = fp1.len() - 2;
            let fixed = fp1.update(idx, fp1[idx].flipped().with_clickable(false));
            assert(fixed =~= src);
            lemma_with_pile(g, from, src);
            assert(with_pile(with_pile(ga, from, fp1), from, fixed) == g);
        } else {
            assert(fp1 =~= src);
            lemma_with_pile(g, from, src);
            assert(with_pile(ga, from, fp1) == g);
        }
    }
}

/// Moving one card of a pile: the move is the one-card move that
/// `move_top_card` makes, whatever the kinds of `from` and `to`.
pub proof fn lemma_one_card_move(g: GameModel, from: PileKind, to: PileKind)
    ensures
        move_outcome(g, from, 1, to) == (if single_move_ok(g, from, to) {
            Some(single_move_result(g, from, to))
        } else {
            None
        }),
{
}

/// Undo reverts a move: after any allowed move in a game where only the top
/// card of each pile is clickable and the deck is face down, undoing gives
/// back the game exactly as it was, history included.
pub proof fn lemma_undo_reverts_move(g: GameModel, mv: Move)
    requires
        model_wf(g),
        clean(g),
        apply_move(g, mv) is Some,
    ensures
        undo_outcome(apply_move(g, mv).unwrap()) == (true, g),
{
    let (from, count, to) = move_parts(mv);
    if count >= 2 {
        lemma_undo_stack_move(g, from->Tableau_0, count, to->Tableau_0);
    } else {
        lemma_undo_single_move(g, from, to);
    }
}

/// Undoing a turn of the waste onto the deck gives back the game as it
/// was, except that the waste cards are now face down: every card returns to
/// its place, the deck is empty again, only the waste's top is clickable.
pub proof fn lemma_undo_after_flush(g: GameModel)
    requires
        clean(g),
        g.waste.len() <= usize::MAX,
        flush_outcome(g) is Some,
    ensures
        undo_outcome(flush_outcome(g).unwrap()) == (
            true,
            GameModel { waste: g.waste.map_values(|c: Card| c.with_face_up(false)), ..g },
        ),
{
    let g2 = flush_outcome(g).unwrap();
    let w = g.waste;
    let n = w.len();
    let r = recycled(w);
    assert(g2.deck =~= r);
    let g0 = GameModel { history: g2.history.drop_last(), ..g2 };
    assert(g2.history.drop_last() =~= g.history);
    lemma_draw_n_closed(r, n);
    assert(draw_n(r, n) =~= g.deck);
    let p = drawn_n(r, n);
    let up = Seq::new(n, |i: int| w[i].with_face_up(false).with_clickable(true));
    assert forall|i: int| 0 <= i < n implies #[trigger] p[i] == up[i] by {
        assert(p[i] == drawn_at(r, i));
    }
    assert(p =~= up);
    lemma_add_all_closed(g.waste.take(0), up);
    assert(g0.waste =~= Seq::<Card>::empty());
    assert(g0.waste =~= g.waste.take(0));
    assert(stacked(g.waste.take(0), up) =~= w.map_values(|c: Card| c.with_face_up(false)));
    assert(add_all(g0.waste, p) == w.map_values(|c: Card| c.with_face_up(false)));
    assert(draw_n(g0.deck, n) == g.deck);
    assert(g0.deck.len() >= n);
    assert(undo_recycle_outcome(g0, n as usize).1 == GameModel {
        waste: w.map_values(|c: Card| c.with_face_up(false)),
        ..g
    });
}

/// Only the top stays clickable when a clickable card is placed on a pile,
/// when the top card is drawn, or when the top card is revealed.
proof fn lemma_pile_ops_clean(s: Seq<Card>, c: Card)
    requires
        pile_clean(s),
    ensures
        c.clickable() ==> pile_clean(pile_after_add(s, c)),
        s.len() > 0 ==> pile_clean(pile_after_draw(s)),
        pile_clean(pile_after_reveal_new_top(s)),
        s.len() > 0 ==> pile_clean(pile_after_draw(pile_after_reveal_top(s))),
{
    if s.len() >= 1 {
        let d = pile_after_draw(s);
        assert forall|i: int| 0 <= i < d.len() implies (#[trigger] d[i]).clickable() == (i == d.len() - 1) by {
            assert(s[i].clickable() == (i == s.len() - 1));
        }
        assert(pile_after_draw(pile_after_reveal_top(s)) =~= pile_after_draw(s));
    }
}

/// Replacing a pile by one whose top alone is clickable (and, for the deck,
/// that is face down) keeps the game clean.
proof fn lemma_clean_with_pile(g: GameModel, k: PileKind, s: Seq<Card>)
    requires
        clean(g),
        pile_of(g, k) is Some,
        pile_clean(s),
        k == PileKind::Deck ==> forall|i: int| 0 <= i < s.len() ==> !(#[trigger] s[i]).face_up(),
    ensures
        clean(with_pile(g, k, s)),
{
    broadcast use vstd::multiset::group_multiset_axioms;

    let g2 = with_pile(g, k, s);
    match k {
        PileKind::Tableau(col) => {
            assert forall|c: int| 0 <= c < g2.tableau.len() implies pile_clean(#[trigger] g2.tableau[c]) by {
                if c != col {
                    assert(g2.tableau[c] == g.tableau[c]);
                }
            }
        },
        PileKind::Foundation(idx) => {
            assert forall|f: int| 0 <= f < g2.foundation.len() implies pile_clean(#[trigger] g2.foundation[f]) by {
                if f != idx {
                    assert(g2.foundation[f] == g.foundation[f]);
                }
            }
        },
        _ => {},
    }
}

/// Every allowed move keeps a clean game clean: only the top card of each
/// pile stays clickable and the deck stays face down.
proof fn lemma_move_keeps_clean(g: GameModel, mv: Move)
    requires
        model_wf(g),
        clean(g),
        apply_move(g, mv) is Some,
    ensures
        model_wf(apply_move(g, mv).unwrap()),
        clean(apply_move(g, mv).unwrap()),
{
    let (from, count, to) = move_parts(mv);
    if count >= 2 {
        let f = from->Tableau_0;
        let t = to->Tableau_0;
        let big_f = g.tableau[f as int];
        let big_t = g.tableau[t as int];
        let row = big_f.len() - count;
        let f0 = big_f.take(row);
        let cs = big_f.skip(row);
        assert(pile_clean(big_f));
        assert(pile_clean(big_t));
        let f2 = pile_after_reveal_new_top(f0);
        assert forall|i: int| 0 <= i < f2.len() implies (#[trigger] f2[i]).clickable() == (i == f2.len() - 1) by {
            assert(big_f[i].clickable() == (i == big_f.len() - 1));
        }
        lemma_add_all_closed(big_t, cs);
        assert(cs.last() == big_f.last());
        assert(pile_clean(add_all(big_t, cs)));
        let g1 = with_pile(g, from, f2);
        lemma_clean_with_pile(g, from, f2);
        lemma_with_pile(g, from, f2);
        lemma_clean_with_pile(g1, to, add_all(big_t, cs));
    } else {
        let src = pile_of(g, from).unwrap();
        assert(pile_clean(src));
        if from == PileKind::Deck {
            let revealed = pile_after_reveal_top(g.deck);
            let drawn = revealed.last();
            lemma_pile_ops_clean(g.deck, drawn);
            let nd = pile_after_draw(revealed);
            assert forall|i: int| 0 <= i < nd.len() implies !(#[trigger] nd[i]).face_up() by {
                assert(nd[i].face_up() == g.deck[i].face_up());
            }
            lemma_clean_with_pile(g, from, nd);
            lemma_with_pile(g, from, nd);
            let g1 = with_pile(g, from, nd);
            assert(pile_clean(g.waste));
            lemma_pile_ops_clean(g.waste, drawn);
            lemma_clean_with_pile(g1, to, pile_after_add(g.waste, drawn));
        } else {
            let c = src.last();
            let after_draw = pile_after_draw(src);
            lemma_pile_ops_clean(src, c);
            lemma_pile_ops_clean(after_draw, c);
            let new_src = if from is Tableau {
                pile_after_reveal_new_top(after_draw)
            } else {
                after_draw
            };
            lemma_clean_with_pile(g, from, new_src);
            lemma_with_pile(g, from, new_src);
            let g1 = with_pile(g, from, new_src);
            let dst = pile_of(g1, to).unwrap();
            if from is Tableau && to is Tableau && from == to {
                assert(tableau_move_ok(c, src));
                assert(false);
            }
            assert(pile_of(g1, to) == pile_of(g, to));
            assert(pile_clean(dst));
            lemma_pile_ops_clean(dst, c);
            lemma_clean_with_pile(g1, to, pile_after_add(dst, c));
        }
    }
}

/// Turning the waste over onto the empty deck keeps a clean game clean.
proof fn lemma_flush_keeps_clean(g: GameModel)
    requires
        model_wf(g),
        clean(g),
        flush_outcome(g) is Some,
    ensures
        model_wf(flush_outcome(g).unwrap()),
        clean(flush_outcome(g).unwrap()),
{
    let g2 = flush_outcome(g).unwrap();
    assert(g2.deck =~= recycled(g.waste));
}

/// A game dealt from a shuffled standard deck: seven columns holding 1 to 7
/// cards with only the top card face up, 24 cards left in the deck face
/// down, empty waste and foundations, no history; only the top card of each
/// pile is clickable.
pub proof fn lemma_new_game_layout(d: Seq<Card>)
    requires
        is_shuffled_deck(d),
    ensures
        kept(dealt(d)),
        dealt(d).deck.len() == 24,
        dealt(d).waste.len() == 0,
        dealt(d).history.len() == 0,
        forall|f: int| 0 <= f < 4 ==> (#[trigger] dealt(d).foundation[f]).len() == 0,
        forall|c: int| 0 <= c < 7 ==> (#[trigger] dealt(d).tableau[c]).len() == c + 1,
        forall|c: int, r: int|
            0 <= c < 7 && 0 <= r <= c ==> (#[trigger] dealt(d).tableau[c][r]).face_up() == (r
                == c),
{
    let g = dealt(d);
    assert forall|c: int, r: int| 0 <= c < 7 && 0 <= r <= c implies {
        &&& (#[trigger] g.tableau[c][r]).face_up() == (r == c)
        &&& g.tableau[c][r].clickable() == (r == c)
    } by {
        lemma_tri(c);
        let k = tri(c) + r;
        assert(0 <= k < 28);
        assert(d[d.len() - 1 - k].clickable() == (d.len() - 1 - k == 51));
        assert(!d[d.len() - 1 - k].face_up());
    }
    assert forall|c: int| 0 <= c < 7 implies pile_clean(#[trigger] g.tableau[c]) by {
        assert forall|r: int| 0 <= r < g.tableau[c].len() implies (#[trigger] g.tableau[c][r]).clickable() == (r == g.tableau[c].len() - 1) by {
            assert(g.tableau[c][r].clickable() == (r == c));
        }
    }
    lemma_tri(7);
    let deck = g.deck;
    assert(deck.len() == 24);
    assert forall|i: int| 0 <= i < 24 implies (#[trigger] deck[i]).clickable() == (i == 23) && !deck[i].face_up() by {
        assert(d[i].clickable() == (i == 51));
        assert(!d[i].face_up());
    }
}

/// Counting identities distributes over concatenation.
proof fn lemma_ids_concat(a: Seq<Card>, b: Seq<Card>)
    ensures
        pile_ids(a + b) == pile_ids(a).add(pile_ids(b)),
{
    let f = |c: Card| ident(c);
    assert((a + b).map_values(f) =~= a.map_values(f) + b.map_values(f));
    vstd::seq_lib::lemma_multiset_commutative(a.map_values(f), b.map_values(f));
}

/// Piles whose cards have the same identities, place by place, count the
/// same identities.
proof fn lemma_ids_same(s: Seq<Card>, t: Seq<Card>)
    requires
        s.len() == t.len(),
        forall|i: int| 0 <= i < s.len() ==> same_identity(#[trigger] s[i], t[i]),
    ensures
        pile_ids(s) == pile_ids(t),
{
    let f = |c: Card| ident(c);
    assert(s.map_values(f) =~= t.map_values(f));
}

/// Reversing a pile keeps its identities.
proof fn lemma_ids_reverse(s: Seq<Card>)
    ensures
        pile_ids(s.reverse()) == pile_ids(s),
{
    let f = |c: Card| ident(c);
    assert(s.reverse().map_values(f) =~= s.map_values(f).reverse());
    s.map_values(f).lemma_reverse_to_multiset();
}

/// Replacing one pile among several, in terms of counted identities.
proof fn lemma_piles_ids_update(ps: Seq<Seq<Card>>, i: int, p: Seq<Card>)
    requires
        0 <= i < ps.len(),
    ensures
        piles_ids(ps.update(i, p)).add(pile_ids(ps[i])) == piles_ids(ps).add(pile_ids(p)),
    decreases ps.len(),
{
    broadcast use vstd::multiset::group_multiset_axioms;

    let q = ps.update(i, p);
    let lhs = piles_ids(q).add(pile_ids(ps[i]));
    let rhs = piles_ids(ps).add(pile_ids(p));
    assert(piles_ids(q) == piles_ids(q.drop_last()).add(pile_ids(q.last())));
    assert(piles_ids(ps) == piles_ids(ps.drop_last()).add(pile_ids(ps.last())));
    if i == ps.len() - 1 {
        assert(q.drop_last() =~= ps.drop_last());
        assert(q.last() == p);
        assert(ps.last() == ps[i]);
        assert forall|v: (u8, Suit)| lhs.count(v) == rhs.count(v) by {
            assert(piles_ids(q).count(v) == piles_ids(q.drop_last()).count(v) + pile_ids(p).count(v));
            assert(piles_ids(ps).count(v) == piles_ids(ps.drop_last()).count(v) + pile_ids(ps[i]).count(v));
        }
    } else {
        lemma_piles_ids_update(ps.drop_last(), i, p);
        let q0 = ps.drop_last().update(i, p);
        assert(q.drop_last() =~= q0);
        assert(q.last() == ps.last());
        assert(ps.drop_last()[i] == ps[i]);
        assert forall|v: (u8, Suit)| lhs.count(v) == rhs.count(v) by {
            assert(piles_ids(q0).add(pile_ids(ps[i])).count(v) == piles_ids(ps.drop_last()).add(pile_ids(p)).count(v));
            assert(piles_ids(q).count(v) == piles_ids(q0).count(v) + pile_ids(ps.last()).count(v));
            assert(piles_ids(ps).count(v) == piles_ids(ps.drop_last()).count(v) + pile_ids(ps.last()).count(v));
        }
    }
    assert(lhs =~= rhs);
}

/// Replacing one pile of a game, in terms of counted identities.
proof fn lemma_game_ids_with_pile(g: GameModel, k: PileKind, s: Seq<Card>)
    requires
        pile_of(g, k) is Some,
    ensures
        game_ids(with_pile(g, k, s)).add(pile_ids(pile_of(g, k).unwrap())) == game_ids(g).add(
            pile_ids(s),
        ),
{
    broadcast use vstd::multiset::group_multiset_axioms;

    let g2 = with_pile(g, k, s);
    let old_p = pile_of(g, k).unwrap();
    let lhs = game_ids(g2).add(pile_ids(old_p));
    let rhs = game_ids(g).add(pile_ids(s));
    match k {
        PileKind::Tableau(col) => {
            lemma_piles_ids_update(g.tableau, col as int, s);
            assert forall|v: (u8, Suit)| lhs.count(v) == rhs.count(v) by {
                assert(piles_ids(g2.tableau).add(pile_ids(old_p)).count(v) == piles_ids(g.tableau).add(pile_ids(s)).count(v));
            }
        },
        PileKind::Foundation(idx) => {
            lemma_piles_ids_update(g.foundation, idx as int, s);
            assert forall|v: (u8, Suit)| lhs.count(v) == rhs.count(v) by {
                assert(piles_ids(g2.foundation).add(pile_ids(old_p)).count(v) == piles_ids(g.foundation).add(pile_ids(s)).count(v));
            }
        },
        _ => {},
    }
    assert(lhs =~= rhs);
}

/// Moving cards from one pile to another keeps every card of the game.
proof fn lemma_transfer(
    g: GameModel,
    from: PileKind,
    to: PileKind,
    x2: Seq<Card>,
    y2: Seq<Card>,
    m: Multiset<(u8, Suit)>,
)
    requires
        pile_of(g, from) is Some,
        pile_of(g, to) is Some,
        from != to,
        pile_ids(pile_of(g, from).unwrap()) == pile_ids(x2).add(m),
        pile_ids(y2) == pile_ids(pile_of(g, to).unwrap()).add(m),
    ensures
        game_ids(with_pile(with_pile(g, from, x2), to, y2)) == game_ids(g),
{
    broadcast use vstd::multiset::group_multiset_axioms;

    let g1 = with_pile(g, from, x2);
    lemma_with_pile(g, from, x2);
    lemma_game_ids_with_pile(g, from, x2);
    lemma_game_ids_with_pile(g1, to, y2);
    let x = pile_of(g, from).unwrap();
    let y = pile_of(g, to).unwrap();
    assert(pile_of(g1, to) == Some(y));
    let g2 = with_pile(g1, to, y2);
    assert forall|v: (u8, Suit)| game_ids(g2).count(v) == game_ids(g).count(v) by {
        assert(game_ids(g2).add(pile_ids(y)).count(v) == game_ids(g1).add(pile_ids(y2)).count(v));
        assert(game_ids(g1).add(pile_ids(x)).count(v) == game_ids(g).add(pile_ids(x2)).count(v));
    }
    assert(game_ids(g2) =~= game_ids(g));
}

/// Every allowed move keeps the cards of the game: no card is lost,
/// duplicated or changed in value or suit.
pub proof fn lemma_move_keeps_cards(g: GameModel, mv: Move)
    requires
        model_wf(g),
        apply_move(g, mv) is Some,
    ensures
        game_ids(apply_move(g, mv).unwrap()) == game_ids(g),
{
    let (from, count, to) = move_parts(mv);
    if count >= 2 {
        let f = from->Tableau_0;
        let t = to->Tableau_0;
        let big_f = g.tableau[f as int];
        let big_t = g.tableau[t as int];
        let row = big_f.len() - count;
        let f0 = big_f.take(row);
        let cs = big_f.skip(row);
        let f2 = pile_after_reveal_new_top(f0);
        assert(big_f =~= f0 + cs);
        lemma_ids_concat(f0, cs);
        lemma_ids_same(f0, f2);
        lemma_add_all_closed(big_t, cs);
        let base = if cs.len() > 0 && big_t.len() > 0 {
            big_t.update(big_t.len() - 1, big_t.last().with_clickable(false))
        } else {
            big_t
        };
        let cs2 = Seq::new(
            cs.len(),
            |i: int|
                if i < cs.len() - 1 {
                    cs[i].with_clickable(false)
                } else {
                    cs[i]
                },
        );
        assert(stacked(big_t, cs) == base + cs2);
        lemma_ids_concat(base, cs2);
        lemma_ids_same(base, big_t);
        lemma_ids_same(cs2, cs);
        lemma_transfer(g, from, to, f2, add_all(big_t, cs), pile_ids(cs));
    } else {
        let src = pile_of(g, from).unwrap();
        let n = src.len();
        if from is Tableau && to is Tableau && from == to {
            assert(tableau_move_ok(src.last(), src));
            assert(false);
        }
        let (c, x2) = if from == PileKind::Deck {
            let revealed = pile_after_reveal_top(g.deck);
            (revealed.last(), pile_after_draw(revealed))
        } else {
            let after_draw = pile_after_draw(src);
            (src.last(), if from is Tableau {
                pile_after_reveal_new_top(after_draw)
            } else {
                after_draw
            })
        };
        assert(src =~= src.drop_last() + seq![src.last()]);
        lemma_ids_concat(src.drop_last(), seq![src.last()]);
        lemma_ids_same(src.drop_last(), x2);
        lemma_ids_same(seq![src.last()], seq![c]);
        let g1 = with_pile(g, from, x2);
        lemma_with_pile(g, from, x2);
        let y = pile_of(g, to).unwrap();
        assert(pile_of(g1, to) == Some(y));
        let base = if y.len() >= 1 {
            y.update(y.len() - 1, y.last().with_clickable(false))
        } else {
            y
        };
        assert(pile_after_add(y, c) =~= base + seq![c]);
        lemma_ids_concat(base, seq![c]);
        lemma_ids_same(base, y);
        lemma_transfer(g, from, to, x2, pile_after_add(y, c), pile_ids(seq![c]));
    }
}

/// Turning the waste over onto the deck keeps the cards of the game.
pub proof fn lemma_flush_keeps_cards(g: GameModel)
    requires
        flush_outcome(g) is Some,
    ensures
        game_ids(flush_outcome(g).unwrap()) == game_ids(g),
{
    broadcast use vstd::multiset::group_multiset_axioms;

    let g2 = flush_outcome(g).unwrap();
    let w = g.waste;
    assert(g2.deck =~= recycled(w));
    lemma_ids_same(recycled(w), w.reverse());
    lemma_ids_reverse(w);
    assert(g.deck =~= Seq::<Card>::empty());
    assert(g2.waste =~= Seq::<Card>::empty());
    let e = Seq::<Card>::empty();
    assert(e.map_values(|c: Card| ident(c)) =~= Seq::<(u8, Suit)>::empty());
    assert(pile_ids(e).len() == 0) by {
        broadcast use vstd::seq_lib::group_to_multiset_ensures;
    }
    vstd::multiset::lemma_multiset_empty_len(pile_ids(e));
    assert(pile_ids(e) =~= Multiset::empty());
    assert(game_ids(g2) =~= game_ids(g));
}

/// The empty pile has no cards.
proof fn lemma_ids_empty()
    ensures
        pile_ids(Seq::<Card>::empty()) == Multiset::<(u8, Suit)>::empty(),
{
    broadcast use vstd::multiset::group_multiset_axioms;

    let e = Seq::<Card>::empty();
    assert(e.map_values(|c: Card| ident(c)) =~= Seq::<(u8, Suit)>::empty());
    assert(pile_ids(e).len() == 0) by {
        broadcast use vstd::seq_lib::group_to_multiset_ensures;
    }
    vstd::multiset::lemma_multiset_empty_len(pile_ids(e));
    assert(pile_ids(e) =~= Multiset::empty());
}

/// Piles that are all empty hold no cards.
proof fn lemma_piles_ids_all_empty(ps: Seq<Seq<Card>>)
    requires
        forall|i: int| 0 <= i < ps.len() ==> (#[trigger] ps[i]).len() == 0,
    ensures
        piles_ids(ps) == Multiset::<(u8, Suit)>::empty(),
    decreases ps.len(),
{
    broadcast use vstd::multiset::group_multiset_axioms;

    if ps.len() > 0 {
        lemma_piles_ids_all_empty(ps.drop_last());
        lemma_ids_empty();
        assert(ps.last() =~= Seq::<Card>::empty());
        assert(piles_ids(ps) =~= Multiset::empty());
    }
}

/// The first `n` dealt columns hold the `tri(n)` cards from the top of the
/// deck.
proof fn lemma_dealt_columns_ids(d: Seq<Card>, n: int)
    requires
        d.len() == 52,
        0 <= n <= 7,
    ensures
        piles_ids(dealt(d).tableau.take(n)) == pile_ids(d.subrange(52 - tri(n), 52)),
    decreases n,
{
    broadcast use vstd::multiset::group_multiset_axioms;

    let tab = dealt(d).tableau;
    lemma_tri(n);
    if n == 0 {
        assert(tab.take(0) =~= Seq::<Seq<Card>>::empty());
        assert(d.subrange(52, 52) =~= Seq::<Card>::empty());
        lemma_ids_empty();
    } else {
        let c = n - 1;
        lemma_tri(c);
        lemma_dealt_columns_ids(d, c);
        assert(tab.take(n).drop_last() =~= tab.take(c));
        assert(tab.take(n).last() == tab[c]);
        let lo = 52 - tri(n);
        let mid = 52 - tri(c);
        let part = d.subrange(lo, mid);
        assert(tab[c].len() == part.len());
        assert forall|r: int| 0 <= r < part.len() implies same_identity(
            #[trigger] tab[c][r],
            part.reverse()[r],
        ) by {
            assert(tab[c][r] == column_prefix(d, c, c + 1)[r]);
        }
        lemma_ids_same(tab[c], part.reverse());
        lemma_ids_reverse(part);
        assert(d.subrange(lo, 52) =~= part + d.subrange(mid, 52));
        lemma_ids_concat(part, d.subrange(mid, 52));
        assert(piles_ids(tab.take(n)) =~= pile_ids(d.subrange(lo, 52)));
    }
}

/// A game dealt from a shuffled standard deck holds exactly the 52
/// standard cards.
pub proof fn lemma_new_game_cards(d: Seq<Card>)
    requires
        is_shuffled_deck(d),
    ensures
        game_ids(dealt(d)) == pile_ids(standard_deck()),
{
    lemma_shuffled_deck_cards(d);
    broadcast use vstd::multiset::group_multiset_axioms;

    let g = dealt(d);
    lemma_tri(7);
    lemma_dealt_columns_ids(d, 7);
    assert(g.tableau.take(7) =~= g.tableau);
    lemma_ids_same(g.deck, d.take(24));
    assert(d =~= d.take(24) + d.subrange(24, 52));
    lemma_ids_concat(d.take(24), d.subrange(24, 52));
    lemma_ids_empty();
    assert(g.waste =~= Seq::<Card>::empty());
    lemma_piles_ids_all_empty(g.foundation);
    assert(game_ids(g) =~= pile_ids(d));
}

/// Sequences with the same elements, counted, keep the same elements under
/// any map.
proof fn lemma_map_same_multiset<A, B>(s: Seq<A>, t: Seq<A>, f: spec_fn(A) -> B)
    requires
        s.to_multiset() == t.to_multiset(),
    ensures
        s.map_values(f).to_multiset() == t.map_values(f).to_multiset(),
    decreases s.len(),
{
    broadcast use {vstd::seq_lib::group_to_multiset_ensures, vstd::multiset::group_multiset_axioms};

    if s.len() == 0 {
        assert(s.to_multiset().len() == s.len());
        assert(t.to_multiset().len() == t.len());
        assert(t.len() == 0);
        assert(s.map_values(f) =~= Seq::<B>::empty());
        assert(t.map_values(f) =~= Seq::<B>::empty());
    } else {
        let x = s[0];
        assert(s.to_multiset().count(x) > 0) by {
            assert(s.contains(x));
        }
        assert(t.contains(x));
        let i = choose|i: int| 0 <= i < t.len() && t[i] == x;
        let s1 = s.remove(0);
        let t1 = t.remove(i);
        assert(s1.to_multiset() =~= t1.to_multiset());
        lemma_map_same_multiset(s1, t1, f);
        let ms = s.map_values(f);
        let mt = t.map_values(f);
        assert(ms.remove(0) =~= s1.map_values(f));
        assert(mt.remove(i) =~= t1.map_values(f));
        assert(ms.contains(f(x))) by {
            assert(ms[0] == f(x));
        }
        assert(mt.contains(f(x))) by {
            assert(mt[i] == f(x));
        }
        assert(ms.to_multiset() =~= mt.to_multiset()) by {
            assert forall|y: B| ms.to_multiset().count(y) == mt.to_multiset().count(y) by {
                assert(ms.remove(0).to_multiset().count(y) == mt.remove(i).to_multiset().count(y));
                assert(ms[0] == f(x));
                assert(mt[i] == f(x));
            }
        }
    }
}

/// A shuffled standard deck holds the 52 standard cards.
pub proof fn lemma_shuffled_deck_cards(d: Seq<Card>)
    requires
        is_shuffled_deck(d),
    ensures
        pile_ids(d) == pile_ids(standard_deck()),
{
    let unclick = |c: Card| c.with_clickable(false);
    let idf = |c: Card| ident(c);
    let u = d.map_values(unclick);
    lemma_map_same_multiset(u, standard_deck(), idf);
    assert(u.map_values(idf) =~= d.map_values(idf));
}

/// Drawing cards off a clean pile leaves it clean and keeps the faces of
/// the cards that stay; the first card drawn is clickable.
proof fn lemma_draw_n_clean(s: Seq<Card>, n: nat)
    requires
        pile_clean(s),
        n <= s.len(),
    ensures
        pile_clean(draw_n(s, n)),
        draw_n(s, n).len() == s.len() - n,
        forall|i: int| 0 <= i < s.len() - n ==> (#[trigger] draw_n(s, n)[i]).face_up() == s[i].face_up(),
        n >= 1 ==> drawn_n(s, n).len() == n && drawn_n(s, n)[0].clickable(),
        forall|i: int| 0 <= i < n ==> same_identity(#[trigger] drawn_n(s, n)[i], s[s.len() - 1 - i]),
        forall|i: int| 0 <= i < n ==> (#[trigger] drawn_n(s, n)[i]).face_up() == s[s.len() - 1 - i].face_up(),
{
    lemma_draw_n_closed(s, n);
    if n < s.len() {
        let a = after_draws(s, n as int);
        assert forall|i: int| 0 <= i < a.len() implies (#[trigger] a[i]).clickable() == (i == a.len() - 1) by {
            assert(s[i].clickable() == (i == s.len() - 1));
        }
    }
    assert forall|i: int| 0 <= i < n implies same_identity(#[trigger] drawn_n(s, n)[i], s[s.len() - 1 - i]) by {
        assert(drawn_n(s, n)[i] == drawn_at(s, i));
    }
    assert forall|i: int| 0 <= i < n implies (#[trigger] drawn_n(s, n)[i]).face_up() == s[s.len() - 1 - i].face_up() by {
        assert(drawn_n(s, n)[i] == drawn_at(s, i));
    }
    if n >= 1 {
        assert(drawn_n(s, n)[0] == drawn_at(s, 0));
    }
}

/// Placing cards on a clean pile, the last of them clickable, leaves it
/// clean.
proof fn lemma_stacked_clean(f: Seq<Card>, cs: Seq<Card>)
    requires
        pile_clean(f),
        cs.len() >= 1,
        cs.last().clickable(),
    ensures
        pile_clean(add_all(f, cs)),
        add_all(f, cs).len() == f.len() + cs.len(),
        forall|i: int| 0 <= i < f.len() ==> (#[trigger] add_all(f, cs)[i]).face_up() == f[i].face_up(),
        forall|i: int| 0 <= i < cs.len() ==> (#[trigger] add_all(f, cs)[f.len() + i]).face_up() == cs[i].face_up(),
{
    lemma_add_all_closed(f, cs);
    let st = stacked(f, cs);
    assert forall|i: int| 0 <= i < st.len() implies (#[trigger] st[i]).clickable() == (i == st.len() - 1) by {
        if i < f.len() {
            assert(f[i].clickable() == (i == f.len() - 1));
        }
    }
}

/// A clean pile with cards `from` and above turned down, and then its top
/// made clickable again, is clean.
proof fn lemma_turn_down_clean(s: Seq<Card>, k: int)
    requires
        pile_clean(s),
        1 <= k <= s.len(),
    ensures
        ({
            let d1 = turn_down_from(s, s.len() - k);
            let d2 = d1.update(d1.len() - 1, d1.last().with_clickable(true));
            &&& pile_clean(d2)
            &&& forall|i: int| 0 <= i < d2.len() ==> (#[trigger] d2[i]).face_up() == (i < s.len() - k
                && s[i].face_up())
        }),
{
    let d1 = turn_down_from(s, s.len() - k);
    let d2 = d1.update(d1.len() - 1, d1.last().with_clickable(true));
    assert forall|i: int| 0 <= i < d2.len() implies (#[trigger] d2[i]).clickable() == (i == d2.len() - 1) by {
        assert(s[i].clickable() == (i == s.len() - 1));
    }
}

/// Each pile of a clean game is clean, and the deck is face down.
proof fn lemma_pile_of_clean(g: GameModel, k: PileKind)
    requires
        clean(g),
        pile_of(g, k) is Some,
    ensures
        pile_clean(pile_of(g, k).unwrap()),
        k == PileKind::Deck ==> forall|i: int|
            0 <= i < g.deck.len() ==> !(#[trigger] g.deck[i]).face_up(),
{
}

/// Undoing a record of the right shape keeps what every game in play keeps,
/// whether or not the undo succeeds.
proof fn lemma_undo_cards_kept(
    g: GameModel,
    from: PileKind,
    to: PileKind,
    cards: Seq<Card>,
    modified: bool,
    flipped: bool,
)
    requires
        kept(g),
        record_ok(
            UndoModel::MoveCards {
                from,
                to,
                cards,
                moved_cards_were_modified: modified,
                flipped_source_top: flipped,
            },
        ),
    ensures
        kept(undo_move_cards_outcome(g, from, to, cards, modified, flipped).1),
{
    let k = cards.len();
    if pile_of(g, to) is None {
        return;
    }
    let tp = pile_of(g, to).unwrap();
    lemma_pile_of_clean(g, to);
    if tp.len() < k {
        lemma_draw_n_clean(tp, tp.len());
        lemma_clean_with_pile(g, to, draw_n(tp, tp.len()));
        lemma_with_pile(g, to, draw_n(tp, tp.len()));
        return;
    }
    let t1 = draw_n(tp, k);
    lemma_draw_n_clean(tp, k);
    lemma_clean_with_pile(g, to, t1);
    lemma_with_pile(g, to, t1);
    let g1 = with_pile(g, to, t1);
    assert(kept(g1));
    let popped = drawn_n(tp, k);
    if !(forall|i: int| 0 <= i < k ==> same_identity(#[trigger] popped[i], cards[k - 1 - i])) {
        return;
    }
    if pile_of(g1, from) is None {
        return;
    }
    let fp = pile_of(g1, from).unwrap();
    lemma_pile_of_clean(g1, from);
    let rev = popped.reverse();
    assert(rev.last() == popped[0]);
    lemma_stacked_clean(fp, rev);
    let fp1 = add_all(fp, rev);
    lemma_with_pile(g1, from, fp1);
    let g2 = with_pile(g1, from, fp1);
    if from == PileKind::Deck {
        assert(modified && !flipped);
        let d1 = turn_down_from(fp1, fp1.len() - k);
        lemma_turn_down_clean(fp1, k as int);
        let d2 = d1.update(d1.len() - 1, d1.last().with_clickable(true));
        assert forall|i: int| 0 <= i < d2.len() implies !(#[trigger] d2[i]).face_up() by {
            if i < fp1.len() - k {
                assert(fp1[i].face_up() == fp[i].face_up());
                assert(!g1.deck[i].face_up());
            }
        }
        lemma_clean_with_pile(g1, from, d2);
        assert(GameModel { deck: d2, ..g2 } == with_pile(g1, from, d2));
    } else {
        lemma_clean_with_pile(g1, from, fp1);
        if flipped && fp1.len() >= k + 1 {
            let idx = fp1.len() - (k + 1);
            let fixed = fp1.update(idx, fp1[idx].flipped().with_clickable(false));
            assert forall|i: int| 0 <= i < fixed.len() implies (#[trigger] fixed[i]).clickable() == (i == fixed.len() - 1) by {
                assert(fp1[i].clickable() == (i == fp1.len() - 1));
            }
            lemma_clean_with_pile(g1, from, fixed);
            assert(with_pile(g2, from, fixed) == with_pile(g1, from, fixed));
        }
    }
}

/// Every undo, successful or not, keeps what every game in play keeps.
pub proof fn lemma_undo_keeps_kept(g: GameModel)
    requires
        kept(g),
    ensures
        kept(undo_outcome(g).1),
{
    if g.history.len() == 0 {
        return;
    }
    let g0 = GameModel { history: g.history.drop_last(), ..g };
    assert forall|i: int| 0 <= i < g0.history.len() implies record_ok(#[trigger] g0.history[i]) by {
        assert(g0.history[i] == g.history[i]);
    }
    assert(kept(g0));
    assert(record_ok(g.history[g.history.len() - 1]));
    match g.history.last() {
        UndoModel::MoveCards { from, to, cards, moved_cards_were_modified, flipped_source_top } => {
            lemma_undo_cards_kept(g0, from, to, cards, moved_cards_were_modified, flipped_source_top);
        },
        UndoModel::RecycleWaste { cards_moved } => {
            let n = cards_moved;
            if g0.deck.len() >= n {
                let d = g0.deck;
                lemma_draw_n_clean(d, n as nat);
                let drawn = drawn_n(d, n as nat);
                if n == 0 {
                    assert(drawn =~= Seq::<Card>::empty());
                    assert(add_all(g0.waste, drawn) == g0.waste);
                } else {
                    lemma_draw_n_closed(d, n as nat);
                    assert(drawn.last() == drawn_at(d, n - 1));
                    lemma_stacked_clean(g0.waste, drawn);
                }
            }
        },
    }
}

/// Every allowed move keeps what every game in play keeps.
pub proof fn lemma_move_keeps_kept(g: GameModel, mv: Move)
    requires
        kept(g),
        apply_move(g, mv) is Some,
    ensures
        kept(apply_move(g, mv).unwrap()),
{
    lemma_move_keeps_clean(g, mv);
    let g2 = apply_move(g, mv).unwrap();
    let (from, count, to) = move_parts(mv);
    let rec = move_outcome(g, from, count, to).unwrap().1;
    assert(g2.history == g.history.push(rec));
    if count >= 2 {
        assert(record_ok(rec));
    } else {
        assert(from != PileKind::Deck ==> from is Waste || from is Tableau);
        assert(record_ok(rec));
    }
    assert forall|i: int| 0 <= i < g2.history.len() implies record_ok(#[trigger] g2.history[i]) by {
        if i < g.history.len() {
            assert(g2.history[i] == g.history[i]);
        }
    }
}

/// Turning the waste over onto the deck keeps what every game in play
/// keeps.
pub proof fn lemma_flush_keeps_kept(g: GameModel)
    requires
        kept(g),
        flush_outcome(g) is Some,
    ensures
        kept(flush_outcome(g).unwrap()),
{
    lemma_flush_keeps_clean(g);
    let g2 = flush_outcome(g).unwrap();
    assert forall|i: int| 0 <= i < g2.history.len() implies record_ok(#[trigger] g2.history[i]) by {
        if i < g.history.len() {
            assert(g2.history[i] == g.history[i]);
        }
    }
}

} // verus!
