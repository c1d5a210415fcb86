//! A connect-four engine: a bitboard game state with verified move, line and draw rules, and
//! the bookkeeping of a Monte-Carlo tree search over it.
pub mod bits;
pub mod board;
pub mod laws;
pub mod search;
