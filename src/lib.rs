//! Turns digit strings into every sequence of dictionary words whose letters
//! spell those digits on a fixed letter-to-digit table.

pub mod encoding;
pub mod dictionary;
pub mod search;
pub mod expand;
pub mod numbers;
