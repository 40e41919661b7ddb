//! A bitboard chess engine core: board representation, move encoding,
//! move generation, static exchange, transposition table and search helpers,
//! each with its contract proved by Verus.

pub mod attacks;
pub mod bits;
pub mod clock;
pub mod board;
pub mod consts;
pub mod engine;
pub mod evaluation;
pub mod items;
pub mod magics;
pub mod move_pick;
pub mod movegen;
pub mod network;
pub mod perft;
pub mod position;
pub mod render;
pub mod search;
pub mod see;
pub mod square;
pub mod text;
pub mod tt;
pub mod uci;
pub mod zobrist;
pub mod symmetry;
