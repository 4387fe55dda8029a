use elastic_parser::elastic_buffer::ElasticBufferStreamer;
use elastic_parser::parsers::basic::{alpha_num, char, eof, letter, none_of, one_of};
use elastic_parser::{Parser, Streamer};

#[test]
fn it_parses_a_precise_byte() {
    let fake_read = &b"This is the text !"[..];
    let mut stream = ElasticBufferStreamer::unlimited(fake_read);

    let mut parser = char('T');

    assert!(parser.parse(&mut stream).is_ok());
    assert_eq!(stream.position(), 1);
}

#[test]
fn it_parses_alpha_num() {
    let fake_read1 = &b"!This is the text !"[..];
    let mut stream1 = ElasticBufferStreamer::unlimited(fake_read1);

    let mut parser1 = alpha_num();
    assert!(parser1.parse(&mut stream1).is_err());
    assert_eq!(stream1.position(), 0);

    let fake_read2 = &b"This is the text !"[..];
    let mut stream2 = ElasticBufferStreamer::unlimited(fake_read2);

    let mut parser2 = alpha_num();
    assert!(parser2.parse(&mut stream2).is_ok());
    assert_eq!(stream2.position(), 1);
}

#[test]
fn it_parses_eof() {
    let fake_read = &b"A"[..];
    let mut stream = ElasticBufferStreamer::unlimited(fake_read);

    let mut parser1 = letter();

    parser1.parse(&mut stream).unwrap();

    let mut parser2 = eof();

    assert!(parser2.parse(&mut stream).is_ok());
}

#[test]
fn it_parses_one_of() {
    let fake_read = &b"Bounga"[..];
    let mut stream = ElasticBufferStreamer::unlimited(fake_read);

    let mut parser = one_of(vec!['a', 'B', ')']);

    assert!(parser.parse(&mut stream).is_ok());
    assert!(parser.parse(&mut stream).is_err());
}

#[test]
fn it_parses_none_of() {
    let fake_read = &b"Bounga"[..];
    let mut stream = ElasticBufferStreamer::unlimited(fake_read);

    let mut parser = none_of(vec!['a', 'o', ')']);

    assert!(parser.parse(&mut stream).is_ok());
    assert!(parser.parse(&mut stream).is_err());
}
