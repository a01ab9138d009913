//! Exhaustive search over small Turing-machine transition tables for the
//! machines that halt within a window of steps, ranked by how fast they halt.

pub mod digits;
pub mod domain;
pub mod enumerate;
pub mod filter;
pub mod generate;
pub mod machine;
pub mod moves;
pub mod product;
pub mod rank;
pub mod run;
pub mod search;
pub mod sim;
pub mod tape;
