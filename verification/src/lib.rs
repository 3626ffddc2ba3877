//! Quantik: rules, search engines and benchmark bookkeeping, with proofs.
pub mod api;
pub mod beam_search;
pub mod beam_trace;
pub mod bench;
pub mod bitboard;
pub mod board;
pub mod book;
pub mod clock;
pub mod constants;
pub mod evaluation;
pub mod fractions;
pub mod game;
pub mod game_value;
pub mod invariance;
pub mod laws;
pub mod lines;
pub mod mcts;
pub mod mcts_trace;
pub mod minimax;
pub mod minimax_trace;
pub mod moves;
pub mod paths;
pub mod qfen;
pub mod rng;
pub mod search_telemetry;
pub mod sorting;
pub mod state;
pub mod symmetry;
pub mod text;
