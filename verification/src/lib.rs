pub mod cards;
pub mod decks;
pub mod game;
pub mod model;
pub mod piles;
pub mod stack;
pub mod laws;
pub mod layout;
pub mod history;
pub mod rules;

pub use game::{Move, SolitaireGame};
