//! A verified chess rules engine.
//!
//! The engine keeps an 8x8 board of pieces, computes each piece's legal
//! destination squares from the board occupancy, and applies moves through a
//! pipeline that enforces turn order, forbids capturing one's own pieces, and
//! advances the turn/check state machine.

pub mod engine;
pub mod generator;
pub mod geometry;
pub mod laws;
pub mod model;

pub use model::Board;
pub use model::BoardState;
pub use model::Color;
pub use model::Error;
pub use model::File;
pub use model::MoveError;
pub use model::Piece;
pub use model::Position;
pub use model::Rank;
pub use model::Square;
pub use model::SquareOccupied;
pub use model::Troop;
