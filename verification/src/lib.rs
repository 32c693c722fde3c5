//! Rules engine for the board game Go.
//!
//! The engine owns the board state, enforces move legality (occupancy,
//! suicide, ko), resolves stone captures, and tracks turn order and move
//! history.  Rendering and input handling are left to callers, which read
//! the observable state (board size, flat cell sequence, next player) back
//! out through the accessors on [`game::GoGame`] and [`position::GoPosition`].

pub mod game;
pub mod model;
pub mod player;
pub mod position;
