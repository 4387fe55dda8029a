use elastic_parser::elastic_buffer::ElasticBufferStreamer;
use elastic_parser::parsers::basic::{alpha_num, chars, eof, letter, space};
use elastic_parser::{
    attempt, choice, many, many_max, maybe, Parser, ParserError, ParserErrorKind, ParserExt,
    Streamer, StreamerRange,
};

#[test]
fn it_gets_parsed_range() {
    let fake_read = &b"This is the text !"[..];
    let mut stream = ElasticBufferStreamer::unlimited(fake_read);

    let mut parser = many(alpha_num());

    let rg = parser.get_range(&mut stream).unwrap().to_ref(&mut stream);

    assert_eq!(rg, &(b"This")[..]);
}

#[test]
fn it_gets_a_precise_range() {
    let fake_read = &b"This is the text !"[..];
    let mut stream = ElasticBufferStreamer::unlimited(fake_read);

    let mut parser = chars("This");

    let rg = parser.get_range(&mut stream).unwrap().to_ref(&mut stream);

    assert_eq!(rg, &(b"This")[..]);
}

#[test]
fn it_get_parsed_range_with_eof() {
    let fake_read = &b"This"[..];
    let mut stream = ElasticBufferStreamer::unlimited(fake_read);

    let mut parser = (many(alpha_num()), eof());

    let rg = parser.get_range(&mut stream).unwrap().to_ref(&mut stream);

    assert_eq!(rg, &(b"This")[..]);

}

#[test]
fn it_gets_range_between_delimiters() {
    let fake_read = &b"This is the text !"[..];
    let mut stream = ElasticBufferStreamer::unlimited(fake_read);

    let mut parser = (letter(), letter());
    let delimiter = letter();

    let rg = parser.get_between(&mut stream, delimiter).unwrap().to_ref(&mut stream);

    assert_eq!(rg, &(b"hi")[..]);
}

#[test]
fn it_get_parsed_range_with_max_size() {
    let fake_read = &b"Its HUUUUUUUUUUUUUUUUUUUUUUUUUGE"[..];
    let mut stream = ElasticBufferStreamer::unlimited(fake_read);

    let mut parser = many_max(alpha_num(), 5);

    let rg1 = parser.get_range(&mut stream).unwrap().to_ref(&mut stream);

    assert_eq!(rg1, &(b"Its")[..]);

    stream.next().unwrap();

    assert_eq!(parser.get(&mut stream), Err(ParserError::Lazy(9, ParserErrorKind::TooMany)));
}

#[test]
fn it_merges_parser_sequences() {
    let fake_read = &b"This is the text !"[..];
    let mut stream = ElasticBufferStreamer::unlimited(fake_read);

    let mut parser1 = (alpha_num(),);
    let mut parser2 = (alpha_num(), alpha_num());
    let mut parser3 = (alpha_num(), alpha_num(), alpha_num());

    let cp_beginning = stream.checkpoint();

    let rg = parser1.get_range(&mut stream).unwrap().to_ref(&mut stream);
    assert_eq!(rg, &(b"T")[..]);

    stream.reset(cp_beginning);
    let cp_beginning = stream.checkpoint();

    let rg = parser2.get_range(&mut stream).unwrap().to_ref(&mut stream);
    assert_eq!(rg, &(b"Th")[..]);

    stream.reset(cp_beginning);

    let rg = parser3.get_range(&mut stream).unwrap().to_ref(&mut stream);
    assert_eq!(rg, &(b"Thi")[..]);
}

#[test]
fn it_recovers_on_failed_attempts() {
    let fake_read = &b"This is the text !"[..];
    let mut stream = ElasticBufferStreamer::unlimited(fake_read);

    let mut parser = many(attempt((alpha_num(), alpha_num(), alpha_num(), alpha_num(), space())));

    let rg = parser.get_range(&mut stream).unwrap().to_ref(&mut stream);
    assert_eq!(rg, &(b"This ")[..]);
}

#[test]
fn it_parses_maybe() {
    let mut parser = (maybe(space()), letter());

    let fake_read1 = &b"This"[..];
    let mut stream1 = ElasticBufferStreamer::unlimited(fake_read1);
    let rg1 = parser.get_range(&mut stream1).unwrap().to_ref(&mut stream1);
    assert_eq!(rg1, &(b"T")[..]);

    let fake_read2 = &b" is the text !"[..];
    let mut stream2 = ElasticBufferStreamer::unlimited(fake_read2);
    let rg2 = parser.get_range(&mut stream2).unwrap().to_ref(&mut stream2);
    assert_eq!(rg2, &(b" i")[..]);
}

#[test]
fn it_chooses_the_good_parser() {
    let fake_read = &b"This is the text !"[..];
    let mut stream = ElasticBufferStreamer::unlimited(fake_read);

    let initial_position_cp = stream.checkpoint();

    let mut parser1 = choice((letter(),));

    let rg1 = parser1.get_range(&mut stream).unwrap().to_ref(&mut stream);
    assert_eq!(rg1, &(b"T")[..]);

    stream.reset(initial_position_cp);
    let initial_position_cp = stream.checkpoint();

    let mut parser2 = choice((space(), letter()));

    let rg2 = parser2.get_range(&mut stream).unwrap().to_ref(&mut stream);
    assert_eq!(rg2, &(b"T")[..]);

    stream.reset(initial_position_cp);
    // let initial_position_cp = stream.checkpoint();

    let mut parser3 = choice((space(), space(), letter()));

    let rg3 = parser3.get_range(&mut stream).unwrap().to_ref(&mut stream);
    assert_eq!(rg3, &(b"T")[..]);

}
