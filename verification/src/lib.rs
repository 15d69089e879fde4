pub mod bits;
pub mod geometry;
pub mod pieceinit;
pub mod piececonstants;
pub mod engine;
pub mod zobrist;
pub mod moves;
pub mod ttable;
pub mod movegen;
pub mod fen;
pub mod uci;
pub mod ordering;
pub mod eval;
pub mod search;
pub mod slider_init;
pub mod tally;
