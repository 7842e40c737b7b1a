//! Board representation, attack geometry and static rules.

pub mod attacks;
pub mod bitboard;
pub mod castling;
pub mod census;
pub mod defs;
pub mod fen;
pub mod geom;
pub mod legal;
pub mod moves;
pub mod pins;
pub mod play;
pub mod position;
pub mod psq;
pub mod rules;
pub mod safety;
pub mod spatial;
pub mod state;
pub mod types;
pub mod zobrist;
