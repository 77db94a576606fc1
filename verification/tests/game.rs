use solitaire::cards::{Card, Suit};
use solitaire::game::{GameState, PileKind};
use solitaire::piles::Pile;
use solitaire::{Move, SolitaireGame};

type View = (String, u8, bool);
type Snapshot = (usize, Vec<View>, Vec<Vec<View>>, Vec<Vec<View>>);

fn snap(st: &GameState) -> Snapshot {
    let one = |v: &solitaire::game::CardView| (v.suit.clone(), v.value, v.face_up);
    (
        st.deck_size,
        st.waste.iter().map(one).collect(),
        st.tableau.iter().map(|p| p.iter().map(one).collect()).collect(),
        st.foundation.iter().map(|p| p.iter().map(one).collect()).collect(),
    )
}

fn snapshot(g: &SolitaireGame) -> Snapshot {
    snap(&g.get_state())
}

fn v(suit: &str, value: u8, face_up: bool) -> View {
    (suit.to_string(), value, face_up)
}

/// A deck whose draws from the top hand out, in order: the ace of hearts,
/// then whatever, with the king of spades as draw 2, the seven of clubs as
/// draw 5, the eight of hearts as draw 9, the nine of spades as draw 14,
/// and the two and three of hearts as draws 28 and 29 (the deck's top after
/// dealing).
fn crafted_deck() -> Pile {
    let placed: Vec<(usize, u8, Suit)> = vec![
        (0, 1, Suit::Hearts),
        (2, 13, Suit::Spades),
        (5, 7, Suit::Clubs),
        (9, 8, Suit::Hearts),
        (14, 9, Suit::Spades),
        (28, 2, Suit::Hearts),
        (29, 3, Suit::Hearts),
    ];
    let mut rest: Vec<Card> = Vec::new();
    for value in 1..=13u8 {
        for suit in [Suit::Hearts, Suit::Diamonds, Suit::Spades, Suit::Clubs] {
            if !placed.iter().any(|&(_, pv, ps)| pv == value && ps == suit) {
                rest.push(Card::new(value, suit));
            }
        }
    }
    let mut by_draw: Vec<Card> = Vec::new();
    let mut next = 0;
    for k in 0..52 {
        match placed.iter().find(|&&(pk, _, _)| pk == k) {
            Some(&(_, pv, ps)) => by_draw.push(Card::new(pv, ps)),
            None => {
                by_draw.push(rest[next]);
                next += 1;
            }
        }
    }
    by_draw.reverse();
    by_draw[51].make_clickable();
    Pile::new_with(by_draw)
}

fn crafted_game() -> SolitaireGame {
    SolitaireGame::deal(crafted_deck())
}

fn ace_to_foundation() -> Move {
    Move::FromTableauToFoundation { from: PileKind::Tableau(0), to: PileKind::Foundation(0) }
}

#[test]
fn new_game_layout() {
    let g = SolitaireGame::new();
    let st = g.get_state();
    assert_eq!(st.deck_size, 24);
    assert!(st.waste.is_empty());
    assert_eq!(st.tableau.len(), 7);
    for (c, col) in st.tableau.iter().enumerate() {
        assert_eq!(col.len(), c + 1);
        for (r, card) in col.iter().enumerate() {
            assert_eq!(card.face_up, r == c);
        }
    }
    assert_eq!(st.foundation.len(), 4);
    assert!(st.foundation.iter().all(|f| f.is_empty()));
    assert!(!g.is_game_won());
    assert!(!g.can_undo());
    let mut ids: Vec<(String, u8)> = st
        .tableau
        .iter()
        .flatten()
        .map(|c| (c.suit.clone(), c.value))
        .collect();
    ids.sort();
    ids.dedup();
    assert_eq!(ids.len(), 28);
    let d = SolitaireGame::default();
    assert_eq!(d.get_state().deck_size, 24);
}

#[test]
fn deal_lays_out_the_crafted_deck() {
    let g = crafted_game();
    let s = snapshot(&g);
    assert_eq!(s.0, 24);
    assert_eq!(s.2[0], vec![v("Hearts", 1, true)]);
    assert_eq!(s.2[1][1], v("Spades", 13, true));
    assert!(!s.2[1][0].2);
    assert_eq!(s.2[2][2], v("Clubs", 7, true));
    assert_eq!(s.2[3][3], v("Hearts", 8, true));
    assert_eq!(s.2[4][4], v("Spades", 9, true));
    assert_eq!(s.2[6].len(), 7);
}

#[test]
fn ace_moves_to_foundation_and_undo_reverts() {
    let mut g = crafted_game();
    let before = snapshot(&g);
    assert!(g.attempt_move(ace_to_foundation()));
    let after = snapshot(&g);
    assert!(after.2[0].is_empty());
    assert_eq!(after.3[0], vec![v("Hearts", 1, true)]);
    assert!(g.can_undo());
    assert!(g.undo());
    assert_eq!(snapshot(&g), before);
    assert!(!g.can_undo());
    assert!(!g.undo());
    assert_eq!(snapshot(&g), before);
}

#[test]
fn deck_to_waste_then_waste_to_foundation() {
    let mut g = crafted_game();
    assert!(g.attempt_move(ace_to_foundation()));
    let s1 = snapshot(&g);
    assert!(g.attempt_move(Move::FromDeckToWaste));
    let s2 = snapshot(&g);
    assert_eq!(s2.0, 23);
    assert_eq!(s2.1, vec![v("Hearts", 2, true)]);
    assert!(g.attempt_move(Move::FromWasteToPile { to: PileKind::Foundation(0) }));
    let s3 = snapshot(&g);
    assert!(s3.1.is_empty());
    assert_eq!(s3.3[0], vec![v("Hearts", 1, true), v("Hearts", 2, true)]);
    assert!(g.undo());
    assert_eq!(snapshot(&g), s2);
    assert!(g.undo());
    assert_eq!(snapshot(&g), s1);
}

#[test]
fn tableau_move_reveals_and_undo_hides_again() {
    let mut g = crafted_game();
    let before = snapshot(&g);
    let mv = Move::FromTableauToTableau {
        from: PileKind::Tableau(2),
        to: PileKind::Tableau(3),
        count: 1,
    };
    assert!(g.attempt_move(mv));
    let after = snapshot(&g);
    assert_eq!(after.2[2].len(), 2);
    assert!(after.2[2][1].2);
    assert_eq!(after.2[3].len(), 5);
    assert_eq!(after.2[3][4], v("Clubs", 7, true));
    assert!(g.undo());
    assert_eq!(snapshot(&g), before);
    assert!(!snapshot(&g).2[2][1].2);
}

#[test]
fn stack_move_between_columns() {
    let mut g = crafted_game();
    assert!(g.attempt_move(Move::FromTableauToTableau {
        from: PileKind::Tableau(2),
        to: PileKind::Tableau(3),
        count: 1,
    }));
    let before = snapshot(&g);
    let stack = Move::FromTableauToTableau {
        from: PileKind::Tableau(3),
        to: PileKind::Tableau(4),
        count: 2,
    };
    assert!(g.attempt_move(stack));
    let after = snapshot(&g);
    assert_eq!(after.2[3].len(), 3);
    assert!(after.2[3][2].2);
    assert_eq!(after.2[4].len(), 7);
    assert_eq!(after.2[4][5], v("Hearts", 8, true));
    assert_eq!(after.2[4][6], v("Clubs", 7, true));
    assert!(g.undo());
    assert_eq!(snapshot(&g), before);
}

#[test]
fn king_moves_to_an_empty_column() {
    let mut g = crafted_game();
    assert!(g.attempt_move(ace_to_foundation()));
    let mv = Move::FromTableauToTableau {
        from: PileKind::Tableau(1),
        to: PileKind::Tableau(0),
        count: 1,
    };
    assert!(g.attempt_move(mv));
    let s = snapshot(&g);
    assert_eq!(s.2[0], vec![v("Spades", 13, true)]);
    assert_eq!(s.2[1].len(), 1);
    assert!(s.2[1][0].2);
}

#[test]
fn refused_moves_change_nothing() {
    let mut g = crafted_game();
    let before = snapshot(&g);
    let refused = [
        Move::FromTableauToFoundation { from: PileKind::Tableau(9), to: PileKind::Foundation(0) },
        Move::FromTableauToFoundation { from: PileKind::Tableau(0), to: PileKind::Foundation(4) },
        Move::FromTableauToFoundation { from: PileKind::Tableau(1), to: PileKind::Foundation(0) },
        Move::FromTableauToFoundation { from: PileKind::Foundation(0), to: PileKind::Foundation(1) },
        Move::FromWasteToPile { to: PileKind::Tableau(0) },
        Move::FromTableauToTableau { from: PileKind::Tableau(2), to: PileKind::Tableau(4), count: 1 },
        Move::FromTableauToTableau { from: PileKind::Tableau(2), to: PileKind::Tableau(3), count: 0 },
        Move::FromTableauToTableau { from: PileKind::Tableau(3), to: PileKind::Tableau(3), count: 2 },
        Move::FromTableauToTableau { from: PileKind::Tableau(3), to: PileKind::Tableau(4), count: 2 },
        Move::FromTableauToTableau { from: PileKind::Tableau(0), to: PileKind::Tableau(4), count: 2 },
        Move::FromTableauToTableau { from: PileKind::Waste, to: PileKind::Tableau(4), count: 2 },
        Move::FromTableauToTableau { from: PileKind::Tableau(3), to: PileKind::Tableau(8), count: 2 },
        Move::FromTableauToTableau { from: PileKind::Deck, to: PileKind::Tableau(1), count: 1 },
    ];
    for mv in refused {
        assert!(!g.attempt_move(mv));
        assert_eq!(snapshot(&g), before);
    }
    assert!(!g.can_undo());
    assert!(!g.flush_waste());
    assert_eq!(snapshot(&g), before);
}

#[test]
fn flush_waste_and_undo() {
    let mut g = crafted_game();
    let start = snapshot(&g);
    let mut moved = 0;
    while g.attempt_move(Move::FromDeckToWaste) {
        moved += 1;
    }
    assert_eq!(moved, 24);
    let full = snapshot(&g);
    assert_eq!(full.0, 0);
    assert_eq!(full.1.len(), 24);
    assert!(full.1.iter().all(|c| c.2));
    assert!(g.flush_waste());
    let flushed = snapshot(&g);
    assert_eq!(flushed.0, 24);
    assert!(flushed.1.is_empty());
    assert!(!g.flush_waste());
    assert!(g.attempt_move(Move::FromDeckToWaste));
    assert_eq!(snapshot(&g).1, vec![v("Hearts", 2, true)]);
    assert!(g.undo());
    assert_eq!(snapshot(&g), flushed);
    assert!(g.undo());
    let restored = snapshot(&g);
    assert_eq!(restored.0, 0);
    assert_eq!(restored.1.len(), 24);
    for (a, b) in restored.1.iter().zip(full.1.iter()) {
        assert_eq!((a.0.clone(), a.1), (b.0.clone(), b.1));
        assert!(!a.2);
    }
    for _ in 0..24 {
        assert!(g.undo());
    }
    assert_eq!(snapshot(&g), start);
    assert!(!g.can_undo());
}

#[test]
fn auto_moves() {
    let mut g = crafted_game();
    let before = snapshot(&g);
    assert!(!g.auto_move_to_foundation(PileKind::Deck));
    assert!(!g.auto_move_to_foundation(PileKind::Waste));
    assert!(!g.auto_move_to_tableau(PileKind::Foundation(0), 1));
    assert!(!g.auto_move_to_tableau(PileKind::Waste, 1));
    assert_eq!(snapshot(&g), before);
    assert!(g.auto_move_to_foundation(PileKind::Tableau(0)));
    assert_eq!(snapshot(&g).3[0], vec![v("Hearts", 1, true)]);
    assert!(g.auto_move_to_tableau(PileKind::Tableau(2), 1));
    let s = snapshot(&g);
    assert_eq!(s.2[3][4], v("Clubs", 7, true));
    assert!(!g.auto_move_to_tableau(PileKind::Tableau(5), 1));
}

#[test]
fn game_is_not_won_at_the_start() {
    let g = crafted_game();
    assert!(!g.is_game_won());
}

#[test]
fn moves_keep_every_card() {
    let mut g = crafted_game();
    assert!(g.attempt_move(ace_to_foundation()));
    assert!(g.attempt_move(Move::FromTableauToTableau {
        from: PileKind::Tableau(2),
        to: PileKind::Tableau(3),
        count: 1,
    }));
    assert!(g.attempt_move(Move::FromTableauToTableau {
        from: PileKind::Tableau(3),
        to: PileKind::Tableau(4),
        count: 2,
    }));
    while g.attempt_move(Move::FromDeckToWaste) {}
    assert!(g.flush_waste());
    while g.attempt_move(Move::FromDeckToWaste) {}
    let st = g.get_state();
    assert_eq!(st.deck_size, 0);
    let mut ids: Vec<(String, u8)> = st
        .waste
        .iter()
        .chain(st.tableau.iter().flatten())
        .chain(st.foundation.iter().flatten())
        .map(|c| (c.suit.clone(), c.value))
        .collect();
    assert_eq!(ids.len(), 52);
    ids.sort();
    ids.dedup();
    assert_eq!(ids.len(), 52);
}

fn is_red(suit: &str) -> bool {
    suit == "Hearts" || suit == "Diamonds"
}

/// The faces of a game as play keeps them: the waste face up, and in each
/// column the face-down cards below the face-up ones, the top face up, and
/// each face-up card on a face-up card one lower and of the other colour.
fn layout_holds(s: &Snapshot) -> bool {
    if !s.1.iter().all(|c| c.2) {
        return false;
    }
    for col in &s.2 {
        if let Some(top) = col.last() {
            if !top.2 {
                return false;
            }
        }
        for i in 1..col.len() {
            if col[i - 1].2 {
                if !col[i].2 {
                    return false;
                }
                if col[i].1 + 1 != col[i - 1].1 || is_red(&col[i].0) == is_red(&col[i - 1].0) {
                    return false;
                }
            }
        }
    }
    true
}

/// Every foundation pile holds an ace at the bottom, one suit, values
/// rising by one.
fn foundations_hold(s: &Snapshot) -> bool {
    s.3.iter().all(|f| f.iter().enumerate().all(|(i, c)| c.1 as usize == i + 1 && c.0 == f[0].0))
}

/// Makes one operation, which must succeed, and checks the laws after it.
fn play(g: &mut SolitaireGame, op: impl FnOnce(&mut SolitaireGame) -> bool) {
    assert!(op(g));
    let s = snapshot(g);
    assert!(layout_holds(&s));
    assert!(foundations_hold(&s));
}

#[test]
fn play_keeps_layout_and_foundations_and_undo_goes_back_to_the_start() {
    let mut g = crafted_game();
    let start = snapshot(&g);
    assert!(layout_holds(&start) && foundations_hold(&start));
    let mut done = 0;
    play(&mut g, |g| g.attempt_move(ace_to_foundation()));
    play(&mut g, |g| g.auto_move_to_tableau(PileKind::Tableau(2), 1));
    let stack = Move::FromTableauToTableau {
        from: PileKind::Tableau(3),
        to: PileKind::Tableau(4),
        count: 2,
    };
    play(&mut g, |g| g.attempt_move(stack));
    play(&mut g, |g| g.attempt_move(Move::FromDeckToWaste));
    play(&mut g, |g| g.auto_move_to_foundation(PileKind::Waste));
    play(&mut g, |g| g.attempt_move(Move::FromDeckToWaste));
    play(&mut g, |g| g.attempt_move(Move::FromWasteToPile { to: PileKind::Foundation(0) }));
    done += 7;
    let s = snapshot(&g);
    assert_eq!(s.3[0], vec![v("Hearts", 1, true), v("Hearts", 2, true), v("Hearts", 3, true)]);
    while snapshot(&g).0 > 0 {
        play(&mut g, |g| g.attempt_move(Move::FromDeckToWaste));
        done += 1;
    }
    play(&mut g, |g| g.flush_waste());
    play(&mut g, |g| g.attempt_move(Move::FromDeckToWaste));
    done += 2;
    assert_eq!(done, 31);
    for _ in 0..done {
        assert!(g.can_undo());
        assert!(g.undo());
        assert!(foundations_hold(&snapshot(&g)));
    }
    assert!(!g.can_undo());
    assert!(!g.undo());
    assert_eq!(snapshot(&g), start);
}
