use elastic_parser::{ParserError, ParserErrorInfo, ParserErrorKind, StreamError};
use std::io::{Error, ErrorKind};

#[test]
fn an_unexpected_end_of_file_is_the_end_of_the_input() {
    assert_eq!(
        StreamError::from(Error::from(ErrorKind::UnexpectedEof)),
        StreamError::EndOfInput
    );
}

#[test]
fn other_input_errors_keep_their_kind() {
    assert_eq!(
        StreamError::from(Error::from(ErrorKind::NotFound)),
        StreamError::InputError(ErrorKind::NotFound)
    );
    assert_eq!(
        StreamError::from(Error::new(ErrorKind::Other, "broken")),
        StreamError::InputError(ErrorKind::Other)
    );
    assert_eq!(
        StreamError::from_kind(ErrorKind::TimedOut),
        StreamError::InputError(ErrorKind::TimedOut)
    );
}

#[test]
fn parser_errors_follow_stream_errors() {
    assert_eq!(
        ParserErrorKind::from(StreamError::EndOfInput),
        ParserErrorKind::UnexpectedEndOfInput
    );
    assert_eq!(
        ParserErrorKind::from(StreamError::BufferFull),
        ParserErrorKind::BufferFull
    );
    assert_eq!(
        ParserErrorKind::from(StreamError::InputError(ErrorKind::TimedOut)),
        ParserErrorKind::InputError(ErrorKind::TimedOut)
    );
    assert_eq!(
        ParserErrorKind::from(StreamError::Utf8Error),
        ParserErrorKind::Utf8Error
    );
}

#[test]
fn stream_errors_can_be_cloned() {
    for error in [
        StreamError::EndOfInput,
        StreamError::BufferFull,
        StreamError::InputError(ErrorKind::Other),
        StreamError::Utf8Error,
    ] {
        assert_eq!(error.clone(), error);
    }
}

#[test]
fn only_unexpected_input_is_a_mismatch() {
    assert!(ParserError::Lazy(0, ParserErrorKind::Unexpected).is_mismatch());
    assert!(ParserError::Lazy(7, ParserErrorKind::UnexpectedEndOfInput).is_mismatch());
    assert!(!ParserError::Lazy(0, ParserErrorKind::TooMany).is_mismatch());
    assert!(!ParserError::Lazy(0, ParserErrorKind::BufferFull).is_mismatch());
    assert!(!ParserError::Lazy(0, ParserErrorKind::InputError(ErrorKind::Other)).is_mismatch());
    assert!(!ParserError::Lazy(0, ParserErrorKind::Utf8Error).is_mismatch());
    let details = vec![ParserErrorInfo::Unexpected(b'a'), ParserErrorInfo::Expected(b'b')];
    assert!(!ParserError::Detailed(0, details).is_mismatch());
}

#[test]
fn failures_of_the_stream_are_told_from_others() {
    assert!(!ParserError::Lazy(0, ParserErrorKind::Unexpected).is_stream_failure());
    assert!(!ParserError::Lazy(0, ParserErrorKind::UnexpectedEndOfInput).is_stream_failure());
    assert!(!ParserError::Lazy(0, ParserErrorKind::TooMany).is_stream_failure());
    assert!(ParserError::Lazy(0, ParserErrorKind::BufferFull).is_stream_failure());
    let kind = ParserErrorKind::InputError(ErrorKind::Other);
    assert!(ParserError::Lazy(0, kind).is_stream_failure());
    assert!(ParserError::Lazy(0, ParserErrorKind::Utf8Error).is_stream_failure());
    let details = vec![ParserErrorInfo::Expected(b'a')];
    assert!(!ParserError::Detailed(0, details).is_stream_failure());
    let details = vec![
        ParserErrorInfo::Info("reading".to_string()),
        ParserErrorInfo::InputError(StreamError::BufferFull),
    ];
    assert!(ParserError::Detailed(0, details).is_stream_failure());
}
