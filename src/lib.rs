//! Connect Four played by randomized search: a bit-packed board with constant-time win
//! detection, flat Monte Carlo, and Monte Carlo tree search with a pluggable child score.
pub mod ai_player;
pub mod connect_four;
pub mod lines;

pub use crate::ai_player::{MonteCarloPlayer, TreeSearchPlayer};
pub use crate::connect_four::{
    BitBoard, BitState, ConnectFour, InvalidMove, Move, Moves, Player, Winner,
};
