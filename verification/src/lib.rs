//! Parser combinators for streaming data, also for more data than fits in memory.
//!
//! The two main features are streams and parser combinators. A stream handles the source of the
//! data, and keeps as much of it as can still be gone back to. The main stream,
//! `ElasticBufferStreamer`, is based on the ring buffer of the crate `slice-deque`, and adapts its
//! size to the demand.
//!
//! The parser combinators are functions which can be combined to form a more complex parser. They
//! take their input from a stream and make output values on the fly from the parsed characters,
//! copying only when needed.
pub mod character;
pub mod checkpoints;
pub mod choice;
pub mod decode;
pub mod elastic_buffer;
pub mod errors;
pub mod laws;
pub mod parser;
pub mod parsers;
pub mod recover;
pub mod repeat;
pub mod sequence;
pub mod source;
pub mod storage;
pub mod streamer;
pub mod text;

pub use choice::{choice, Choice, ChoiceParser};
pub use elastic_buffer::ElasticBufferStreamer;
pub use errors::{ParserError, ParserErrorInfo, ParserErrorKind, StreamError};
pub use parser::{Parser, ParserExt};
pub use recover::{attempt, maybe, Attempt, Maybe};
pub use repeat::{many, many_max, Many, ManyMax};
pub use source::Source;
pub use streamer::{Streamer, StreamerRange};
