//! A running-average service: an aggregator folds integer samples into a
//! `(sum, count)` pair, a responder answers queries with the current average
//! and sample count, and a client picks the best among several responses.
//!
//! The arithmetic, the payload parsing and the response selection live here,
//! verified; session handling and transport I/O stay outside the library.

pub mod aggregate;
pub mod reply;
pub mod sample;

pub use aggregate::Aggregate;
pub use reply::QueryableData;
