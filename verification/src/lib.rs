//! Board model, move generation and notation helpers for a UCI chess
//! matchup manager.

pub mod square;
pub mod board;
pub mod zobrist;
pub mod movement;
pub mod model;
pub mod move_gen_service;
pub mod notation_util;
pub mod text;
pub mod pgn;
pub mod fen_service;
pub mod service;
pub mod clock;
pub mod uci;
