//! Rules engine for a two-player connect-five game on an unbounded grid.
//!
//! The engine keeps a sparse store of every mark played, tracks the minimal
//! bounding rectangle of all marks, and detects after each move whether the
//! just-played mark completes a run of five same-player cells in any of the
//! four canonical directions.

mod area;
mod board;
mod game;
pub mod laws;
pub mod lines;
pub mod render;

pub use area::mark_rel;
pub use area::GameArea;
pub use board::PlayedGames;
pub use game::Play;
pub use game::Player;
pub use game::WINNING_LENGTH;
