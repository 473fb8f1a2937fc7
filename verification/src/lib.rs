//! Balanced team partitioning.
//!
//! Given between 2 and 24 integer strengths and a team count that divides
//! their number, the crate splits the strengths into teams of equal size so
//! that the strongest and the weakest team, by sum, lie as close together as
//! possible. The difference between the two sums is the *amplitude* of the
//! split.
//!
//! [`run_collesort`] is the entry point: it checks the request, brings the
//! values into working order, searches, and returns the values team by team.
//! The steps are available on their own:
//!
//! - [`input`] sorts the values in descending order and remembers where each
//!   came from;
//! - [`greedy`] builds a quick split whose amplitude bounds the search;
//! - [`search`] enumerates the splits within a bound, best first, by
//!   branch and bound over the partial assignments of [`frontier`];
//! - [`driver`] takes the first split of the enumeration;
//! - [`layout`] lays the values out team by team.
//!
//! Every function carries a contract over the model of [`partition`]. The
//! facts that the contracts rest on are proved in [`bounds`], [`symmetry`],
//! [`transport`] and [`progress`]; [`laws`] states what follows for the
//! solver as a whole. In short: the output holds the input's values, each
//! once; no split of the input into equal teams has a smaller amplitude; and
//! the output is determined by the input, ties included.

pub mod bounds;
pub mod driver;
pub mod entry;
pub mod error;
pub mod frontier;
pub mod greedy;
pub mod input;
pub mod laws;
pub mod layout;
pub mod partition;
pub mod progress;
pub mod search;
pub mod solution;
pub mod symmetry;
pub mod transport;

pub use entry::{run_collesort, run_collesort_w, run_collesort_with};
pub use error::ErrorKind;
