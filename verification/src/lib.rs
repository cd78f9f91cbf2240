pub mod bitboard;
pub mod core_types;
pub mod text;
pub mod attacks;
pub mod rays;
pub mod shatranjmove;
pub mod keys;
pub mod position;
pub mod movegen;
pub mod outcome;
pub mod fen;
pub mod builder;
pub mod legality;
pub mod perft;
pub mod roundtrip;
pub mod play;
