//! Bitboard move-generation core of a chess engine: leaper attack tables,
//! magic-bitboard sliding attacks, a packed move record and a position that
//! generates, applies and retracts moves.

pub mod bits;
pub mod board;
pub mod leapers;
pub mod legal;
pub mod magic;
pub mod make;
pub mod movegen;
pub mod moves;
pub mod render;
pub mod side;
pub mod sliding_attacks;
pub mod squares;
pub mod subsets;

pub use board::Board;
pub use leapers::{king_attack_table, knight_attack_table, pawn_attack_table};
pub use magic::{BishopTable, PieceType, RookTable};
pub use moves::{CastlingRights, Move, Moves};
pub use side::Side;
