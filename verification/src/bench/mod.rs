//! Records, reports and bookkeeping of engine benchmarks.
pub mod json;
pub mod canonical;
pub mod journal;
pub mod hashing;
pub mod fields;
pub mod reference;
pub mod contracts;
pub mod actions;
pub mod selfplay;
pub mod selfplay_columns;
pub mod observation;
pub mod game_result;
pub mod export;
pub mod columns;
pub mod compact;
pub mod report;
pub mod roster;
pub mod plan;
pub mod machine;
pub mod dataset;
pub mod grouping;
pub mod aggregate;
pub mod stability;
pub mod adapters;
pub mod listener;
pub mod head_to_head;
pub mod agreement;
pub mod correctness;
pub mod portability;
pub mod bundle;
pub mod checkpoint;
pub mod book_export;
