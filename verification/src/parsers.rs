//! The parsers that others are combined of.
pub mod basic;
