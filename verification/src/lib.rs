//! Aligns independently sampled instrument time series on one shared timeline.
//!
//! Numeric cells are carried as the 64-bit patterns of IEEE-754 doubles, so that
//! every rule about where a value is placed is checked without any arithmetic on
//! the values themselves.

pub mod exchange;
pub mod manager;
pub mod standard;
