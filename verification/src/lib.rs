//! Mythos: a UCI chess engine.

pub mod arena;
pub mod attacks;
pub mod bitboard;
pub mod bits;
pub mod checks;
pub mod cli;
pub mod clock;
pub mod conduct;
pub mod datagen;
pub mod eval;
pub mod fen;
pub mod movegen;
pub mod nnue;
pub mod perft;
pub mod position;
pub mod referee;
pub mod rng;
pub mod rules;
pub mod search;
pub mod see;
pub mod symmetry;
pub mod tables;
pub mod terms;
pub mod text;
pub mod training;
pub mod tree;
pub mod tt;
pub mod types;
pub mod uci;
pub mod web;
pub mod zobrist;

pub use bitboard::Bitboard;
pub use eval::evaluate;
pub use movegen::{MoveList, generate_legal};
pub use position::Position;
pub use search::{SearchLimits, SearchResult, Searcher};
pub use see::{see, see_ge, see_value};
pub use tt::{Bound, TranspositionTable, TtEntry};
pub use types::{Color, Direction, Move, MoveType, Piece, PieceType, Square};
pub use zobrist::Zobrist;
