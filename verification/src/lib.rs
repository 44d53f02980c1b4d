//! Rule engine for a sliding-tile merge puzzle on a fixed 6x6 board.
//!
//! The library owns the board-state transition logic: cell addressing and
//! directional traversal, the slide-and-merge pass of a move, win and loss
//! detection, and spawning of new tiles. Rendering and input handling are
//! left to the surrounding application.

pub mod coord;
pub mod game;
pub mod line;
pub mod merge;
pub mod rng;

pub use coord::Direction;
pub use coord::Position;
pub use game::GameState;
pub use game::RngError;
pub use game::Status;
