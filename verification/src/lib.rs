//! A verified core for building, storing and querying word-embedding models
//! from windowed co-occurrence statistics.
//!
//! Everything here is integer and text logic: the vocabulary index, the
//! windowing of sentences, the binary record format, the ranking of
//! neighbours and the parser of vector expressions. Vector components are
//! carried as the 32-bit patterns of IEEE-754 single-precision numbers;
//! arithmetic on them is left to the caller.
pub mod error;
pub mod mayberef;
pub mod ieee;
pub mod text;
pub mod models;
pub mod codec;
pub mod window;
pub mod ranking;
pub mod sort;
pub mod parser;
pub mod processing;
