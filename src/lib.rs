//! A Gomoku (five-in-a-row) engine on a 15x15 board: win detection, a
//! heuristic position evaluator, candidate-move generation and a shallow
//! alpha-beta search.
pub mod bot;
pub mod eval;
pub mod lines;
pub mod state;
pub mod wincheck;
