//! A grid-based snake simulation engine: a rectangular bounded board, a
//! snake body that advances one cell per tick, food items, and scoring on
//! consumption. The engine is a closed state machine driven by an external
//! tick source; rendering and input live outside it.

pub mod codec;
pub mod game;
pub mod numerals;

pub use codec::DecodeError;
pub use game::Cell;
pub use game::Direction;
pub use game::Game;
pub use game::Snake;
