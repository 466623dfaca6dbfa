//! Worst-case "turns lost" over many random trials.
//!
//! A trial is a fixed number of rounds. Each round draws random words,
//! combines them with a bitwise AND, optionally keeps only the low bits of
//! the result, and counts the bits that are set. The library runs many
//! trials in parallel and keeps the largest count.

pub mod bits;
pub mod reduce;
pub mod source;
pub mod trial;
