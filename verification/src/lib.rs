//! Minesweeper with many rule variants: the board model, the rules of each
//! variant and their invariants, proved with Verus.

pub mod constants;
pub mod sums;
pub mod random;
pub mod variant;
pub mod game;
pub mod cascade;
pub mod negative_mines;
pub mod drift;
pub mod marathon;
pub mod rotation;
pub mod display;
pub mod crosswalk;
pub mod minelayer;
pub mod infection;
pub mod crosswired;
pub mod graph;
pub mod graph_boards;
pub mod kudzu;
pub mod kudzu_turn;
pub mod turn;
pub mod countdown;
pub mod merge;
pub mod rgb;
pub mod nested;
pub mod encrypted;
pub mod pvai;
pub mod duel_ai;
pub mod duel_truth;
pub mod infinite;
