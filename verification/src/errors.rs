//! The errors of streams and of parsers.
use vstd::prelude::*;

verus! {

/// The kinds of input and output errors of the standard library.
#[verifier::external_type_specification]
pub struct ExErrorKind(std::io::ErrorKind);

/// The input and output error of the standard library.
#[verifier::external_type_specification]
#[verifier::external_body]
pub struct ExIoError(std::io::Error);

/// The kind that an input or output error reports.
pub uninterp spec fn io_error_kind(error: std::io::Error) -> std::io::ErrorKind;

/// Calls `std::io::Error::kind`, which returns the kind of the error: the contract only says that
/// it is a function of the error.
#[verifier::external_body]
fn kind_of(error: &std::io::Error) -> (kind: std::io::ErrorKind)
    ensures
        kind == io_error_kind(*error),
{
    error.kind()
}

/// Why a stream could not give its next character.
#[derive(Debug, PartialEq)]
pub enum StreamError {
    /// There is no more input.
    EndOfInput,
    /// More input would not fit in the buffer.
    BufferFull,
    /// The source of the input failed.
    InputError(std::io::ErrorKind),
    /// The input is not UTF-8.
    Utf8Error,
}

impl StreamError {
    /// The stream error for a failure of the source of the given kind: an unexpected end of file is
    /// the end of the input, any other kind is kept.
    pub open spec fn of_kind(kind: std::io::ErrorKind) -> StreamError {
        if kind is UnexpectedEof {
            StreamError::EndOfInput
        } else {
            StreamError::InputError(kind)
        }
    }

    /// The stream error for a failure of the source of the given kind.
    pub fn from_kind(kind: std::io::ErrorKind) -> (error: StreamError)
        ensures
            error == StreamError::of_kind(kind),
    {
        match kind {
            std::io::ErrorKind::UnexpectedEof => StreamError::EndOfInput,
            other => StreamError::InputError(other),
        }
    }
}

impl Clone for StreamError {
    fn clone(&self) -> (r: StreamError)
        ensures
            r == *self,
    {
        match self {
            StreamError::EndOfInput => StreamError::EndOfInput,
            StreamError::BufferFull => StreamError::BufferFull,
            StreamError::InputError(kind) => StreamError::InputError(*kind),
            StreamError::Utf8Error => StreamError::Utf8Error,
        }
    }
}

impl From<std::io::Error> for StreamError {
    fn from(error: std::io::Error) -> (r: StreamError) {
        StreamError::from_kind(kind_of(&error))
    }
}

impl vstd::std_specs::convert::FromSpecImpl<std::io::Error> for StreamError {
    open spec fn obeys_from_spec() -> bool {
        true
    }

    open spec fn from_spec(error: std::io::Error) -> StreamError {
        StreamError::of_kind(io_error_kind(error))
    }
}

/// What went wrong in a parser.
#[derive(Debug, PartialEq)]
pub enum ParserErrorKind {
    /// The input holds something else than what the parser expects.
    Unexpected,
    /// The input ends where the parser expects something.
    UnexpectedEndOfInput,
    /// A repeated parser could be applied too many times.
    TooMany,
    /// More input would not fit in the buffer of the stream.
    BufferFull,
    /// The source of the input failed.
    InputError(std::io::ErrorKind),
    /// The input is not UTF-8.
    Utf8Error,
}

impl ParserErrorKind {
    /// The parser error for a stream error.
    pub open spec fn of_stream(error: StreamError) -> ParserErrorKind {
        match error {
            StreamError::EndOfInput => ParserErrorKind::UnexpectedEndOfInput,
            StreamError::BufferFull => ParserErrorKind::BufferFull,
            StreamError::InputError(kind) => ParserErrorKind::InputError(kind),
            StreamError::Utf8Error => ParserErrorKind::Utf8Error,
        }
    }

    /// The parser error for a stream error.
    pub fn from_stream(error: StreamError) -> (kind: ParserErrorKind)
        ensures
            kind == ParserErrorKind::of_stream(error),
    {
        match error {
            StreamError::EndOfInput => ParserErrorKind::UnexpectedEndOfInput,
            StreamError::BufferFull => ParserErrorKind::BufferFull,
            StreamError::InputError(kind) => ParserErrorKind::InputError(kind),
            StreamError::Utf8Error => ParserErrorKind::Utf8Error,
        }
    }
}

impl From<StreamError> for ParserErrorKind {
    fn from(error: StreamError) -> (kind: ParserErrorKind) {
        ParserErrorKind::from_stream(error)
    }
}

impl vstd::std_specs::convert::FromSpecImpl<StreamError> for ParserErrorKind {
    open spec fn obeys_from_spec() -> bool {
        true
    }

    open spec fn from_spec(error: StreamError) -> ParserErrorKind {
        ParserErrorKind::of_stream(error)
    }
}

/// A detail of a parser error.
#[derive(Debug, PartialEq)]
pub enum ParserErrorInfo {
    /// What was found.
    Unexpected(u8),
    /// What was expected.
    Expected(u8),
    /// A message.
    Info(String),
    /// An error of the stream other than the end of the input.
    InputError(StreamError),
}

/// Whether one of the details is an error of the stream.
pub open spec fn some_input_error(infos: Seq<ParserErrorInfo>) -> bool {
    exists|i: int| 0 <= i < infos.len() && (#[trigger] infos[i]) is InputError
}

/// Whether one of the details is an error of the stream.
fn holds_input_error(infos: &Vec<ParserErrorInfo>) -> (r: bool)
    ensures
        r == some_input_error(infos@),
{
    let mut i: usize = 0;
    while i < infos.len()
        invariant
            i <= infos@.len(),
            forall|j: int| 0 <= j < i ==> (#[trigger] infos@[j]) !is InputError,
        decreases infos@.len() - i,
    {
        if let ParserErrorInfo::InputError(_) = infos[i] {
            assert(infos@[i as int] is InputError);
            return true;
        }
        i = i + 1;
    }
    false
}

/// Where and why a parser failed.
#[derive(Debug, PartialEq)]
pub enum ParserError {
    /// The position in bytes and the kind of the error.
    Lazy(u64, ParserErrorKind),
    /// The position in bytes and the details of the error.
    Detailed(u64, Vec<ParserErrorInfo>),
}

impl ParserError {
    /// Whether the input does not match, as opposed to the stream failing: this is what `maybe` and
    /// `choice` recover from.
    pub open spec fn mismatch(&self) -> bool {
        match *self {
            ParserError::Lazy(_, kind) => kind is Unexpected || kind is UnexpectedEndOfInput,
            ParserError::Detailed(_, _) => false,
        }
    }

    /// Whether the stream failed other than by its end.
    pub open spec fn stream_failure(&self) -> bool {
        match *self {
            ParserError::Lazy(_, kind) => kind is BufferFull || kind is InputError
                || kind is Utf8Error,
            ParserError::Detailed(_, infos) => some_input_error(infos@),
        }
    }

    /// Whether an error that comes of a failure of the stream comes of the last of its answers.
    pub open spec fn told_by(&self, answers: Seq<Result<char, StreamError>>) -> bool {
        match *self {
            ParserError::Lazy(_, ParserErrorKind::Unexpected) => true,
            ParserError::Lazy(_, ParserErrorKind::TooMany) => true,
            ParserError::Lazy(_, kind) => {
                &&& answers.len() > 0
                &&& answers.last() matches Err(error)
                &&& kind == ParserErrorKind::of_stream(error)
            },
            ParserError::Detailed(_, _) => true,
        }
    }

    /// Whether the stream failed other than by its end.
    pub fn is_stream_failure(&self) -> (r: bool)
        ensures
            r == self.stream_failure(),
    {
        match self {
            ParserError::Lazy(_, ParserErrorKind::BufferFull) => true,
            ParserError::Lazy(_, ParserErrorKind::InputError(_)) => true,
            ParserError::Lazy(_, ParserErrorKind::Utf8Error) => true,
            ParserError::Lazy(_, _) => false,
            ParserError::Detailed(_, infos) => holds_input_error(infos),
        }
    }

    /// Whether the input does not match, as opposed to the stream failing.
    pub fn is_mismatch(&self) -> (r: bool)
        ensures
            r == self.mismatch(),
    {
        match self {
            ParserError::Lazy(_, ParserErrorKind::Unexpected) => true,
            ParserError::Lazy(_, ParserErrorKind::UnexpectedEndOfInput) => true,
            _ => false,
        }
    }
}

} // verus!
