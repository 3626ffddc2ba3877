//! What the engines and the bookkeeping are for, stated over boards, moves and records.
pub mod answers;
pub mod beam;
pub mod book;
pub mod games;
pub mod mcts;
pub mod minimax;
pub mod positions;
pub mod rules;
pub mod runs;
