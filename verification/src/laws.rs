//! What holds of streams and parsers as a whole.
pub mod buffers;
pub mod choices;
pub mod combinators;
pub mod failures;
pub mod parsers;
pub mod sequences;
pub mod streams;
pub mod texts;
