//! A consistent hashing table with a pluggable hash strategy, together with
//! two small verified companions: an optimal-guess search for the
//! bulls-and-cows game and the integer core of a HyperLogLog distinct-count
//! estimator.

pub mod bulls_and_cows;
pub mod hyperloglog;
pub mod ring;
