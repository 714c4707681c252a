//! An evolutionary engine for small feed-forward bit networks.
//!
//! A population of networks is scored against fixed-width byte encodings of
//! text lines, ranked, and regenerated by crossover and mutation; the fittest
//! network can be serialized to a stable byte layout and loaded back for
//! inference.  All genome scalars are fixed-point integers (millionths), and
//! probabilities are given in parts per million.

pub mod bits;
pub mod model;
pub mod network;
pub mod population;
pub mod encoding;
pub mod rng;

pub use encoding::TableEntry;
