//! What holds of errors.
use crate::errors;
use crate::errors::{ParserError, ParserErrorKind, StreamError};
use vstd::prelude::*;

verus! {

/// An unexpected end of a source is the end of the input, and any other failure of it is kept.
pub proof fn law_failure_of_source_is_kept(kind: std::io::ErrorKind, error: StreamError)
    requires
        call_ensures(StreamError::from_kind, (kind,), error),
    ensures
        kind is UnexpectedEof ==> error is EndOfInput,
        kind !is UnexpectedEof ==> error == StreamError::InputError(kind),
        error == StreamError::of_kind(kind),
{
}

/// A failure of the stream is told by the parser as it is, and its end as unexpected.
pub proof fn law_failure_of_stream_is_kept(error: StreamError, kind: ParserErrorKind)
    requires
        call_ensures(ParserErrorKind::from_stream, (error,), kind),
    ensures
        error is EndOfInput <==> kind is UnexpectedEndOfInput,
        error is BufferFull <==> kind is BufferFull,
        error is Utf8Error <==> kind is Utf8Error,
        error is InputError <==> kind is InputError,
        error matches StreamError::InputError(io) ==> kind == ParserErrorKind::InputError(io),
        kind == ParserErrorKind::of_stream(error),
{
}

/// An error says that the input does not match exactly if something is unexpected, or the end is.
pub proof fn law_mismatches_are_told(error: &ParserError, r: bool)
    requires
        call_ensures(ParserError::is_mismatch, (error,), r),
    ensures
        r == error.mismatch(),
        match *error {
            ParserError::Lazy(_, ParserErrorKind::Unexpected) => r,
            ParserError::Lazy(_, ParserErrorKind::UnexpectedEndOfInput) => r,
            _ => !r,
        },
{
}

/// An error says that the stream failed exactly if its buffer is full, its source failed or its
/// bytes are malformed, or if one of the details is an error of the stream.
pub proof fn law_stream_failures_are_told(error: &ParserError, r: bool)
    requires
        call_ensures(ParserError::is_stream_failure, (error,), r),
    ensures
        r == error.stream_failure(),
        match *error {
            ParserError::Lazy(_, ParserErrorKind::BufferFull) => r,
            ParserError::Lazy(_, ParserErrorKind::InputError(_)) => r,
            ParserError::Lazy(_, ParserErrorKind::Utf8Error) => r,
            ParserError::Lazy(_, _) => !r,
            ParserError::Detailed(_, infos) => r <==> exists|i: int|
                0 <= i < infos@.len() && (#[trigger] infos@[i]) is InputError,
        },
{
}

/// The errors of the standard library and of streams become those of streams and of parsers by what
/// they are.
pub proof fn law_errors_are_converted(
    io: std::io::Error,
    error: StreamError,
    other: StreamError,
    kind: ParserErrorKind,
)
    requires
        call_ensures(<StreamError as From<std::io::Error>>::from, (io,), error),
        call_ensures(<ParserErrorKind as From<StreamError>>::from, (other,), kind),
    ensures
        error is EndOfInput <==> errors::io_error_kind(io) is UnexpectedEof,
        error !is EndOfInput ==> error == StreamError::InputError(errors::io_error_kind(io)),
        other is EndOfInput <==> kind is UnexpectedEndOfInput,
        other is BufferFull <==> kind is BufferFull,
        other is Utf8Error <==> kind is Utf8Error,
        other matches StreamError::InputError(io) ==> kind == ParserErrorKind::InputError(io),
{
}

/// A copy of a stream error is the same.
pub proof fn law_copy_is_the_same(error: &StreamError, copy: StreamError)
    requires
        call_ensures(StreamError::clone, (error,), copy),
    ensures
        copy == *error,
{
}

} // verus!
