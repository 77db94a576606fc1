# solitaire

Klondike solitaire as a verified library.

- `src/cards.rs` — suits and cards; two cards are equal when value and suit
  agree.
- `src/piles.rs` — a pile of cards (top last), the pile operations of the
  game (draw, place, reveal, recycle the waste) and the shuffled deck.
- `src/stack.rs`, `src/decks.rs` — a plain card stack trait and a deck that
  implements it.
- `src/model.rs` — the game as plain values (`GameModel`) and what every
  operation does to it: which moves are allowed, their result, the record
  that undoes them, and what undo does with a record.
- `src/game.rs` — the game itself; each operation is proved to do what
  `model.rs` says.
- `src/laws.rs` — properties of the game as a whole: undo gives back the
  game as it was before a move; moves and turning over the waste keep all 52
  cards; a new game is laid out as Klondike deals it; every operation,
  undo included, keeps only the top card of each pile clickable and the deck
  face down.
- `src/layout.rs` — moves and turning over the waste keep the foundations
  in order (an ace at the bottom, one suit, values rising by one) and the
  faces as play leaves them: the deck face down, the waste face up, and in
  each column the face-down cards below a run of face-up cards that fall by
  one and alternate in colour.
- `src/history.rs` — in every game reached from a new deal, undo succeeds
  exactly when there is something to undo, and the whole history can be
  undone record by record.
- `app/` — a small command-line driver and the browser (wasm) bindings,
  with serializable copies of the game's view types.
