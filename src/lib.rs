//! A minefield-clearing puzzle: the board, its mine placement and adjacency
//! counts, and the game session with flood-fill reveal, flags and win/loss.
pub mod board;
pub mod flood;
pub mod game;
pub mod random;

pub use board::{Board, Cell, GameError};
pub use game::{CellView, FlagOutcome, GameSession, Phase, RevealOutcome};
