//! Opening books: which positions they hold and how they are explored.
pub mod positions;
pub mod probe;
pub mod ranking;
pub mod selective;
pub mod exhaustive;
pub mod growth;
pub mod iddfs;
