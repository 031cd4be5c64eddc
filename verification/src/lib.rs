//! Game of the Amazons on a 10x10 board: rules, move generation,
//! positional evaluation and move-selection engines.

pub mod board;
pub mod rules;
pub mod movegen;
pub mod distinct;
pub mod terminal;
pub mod fifo;
pub mod flood;
pub mod evaluate;
pub mod bounds;
pub mod search;
pub mod greedy;
pub mod alpha_beta;
pub mod cache;
pub mod memo;
pub mod agreement;
pub mod best_first;
pub mod hybrid;
pub mod random;
pub mod notation;
pub mod protocol;
pub mod selfplay;
