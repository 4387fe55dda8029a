use elastic_parser::elastic_buffer::{ElasticBufferStreamer, CHUNK_SIZE, INITIAL_CAPACITY};
use elastic_parser::{StreamError, Streamer, StreamerRange};

const UTF8_LOREM_IPSUM : &str = "What a beautiful sentence that 念北受決評念北受決評念北受決評念北受決評念北受決評念北受決評 ! Doe's it make sense ! Probably no.";

#[test]
fn it_goes_next_on_one_chunk() {
    let mut stream = ElasticBufferStreamer::unlimited(UTF8_LOREM_IPSUM.as_bytes());
    assert_eq!(stream.next(), Ok('W'));
    assert_eq!(stream.next(), Ok('h'));
    assert_eq!(stream.next(), Ok('a'));
    assert_eq!(stream.next(), Ok('t'));
    assert_eq!(stream.next(), Ok(' '));

    for _ in 0..(UTF8_LOREM_IPSUM.chars().count() - 6) {
        assert!(stream.next().is_ok());
    }

    assert_eq!(stream.next(), Ok('.'));
    assert_eq!(stream.next(), Err(StreamError::EndOfInput));
}

#[test]
fn it_goes_next_on_multiple_chunks() {
    let mut fake_read = String::with_capacity(CHUNK_SIZE * 3);

    let lorem_ipsum_len = UTF8_LOREM_IPSUM.chars().count();
    let number_of_sentences = CHUNK_SIZE * 3 / lorem_ipsum_len;
    for _ in 0..number_of_sentences {
        fake_read += UTF8_LOREM_IPSUM;
    }

    let mut stream = ElasticBufferStreamer::unlimited(fake_read.as_bytes());

    assert_eq!(stream.next(), Ok('W'));
    assert_eq!(stream.next(), Ok('h'));
    assert_eq!(stream.next(), Ok('a'));
    assert_eq!(stream.next(), Ok('t'));
    assert_eq!(stream.next(), Ok(' '));

    let first_sentence_of_next_chunk_dist =
        CHUNK_SIZE + lorem_ipsum_len - CHUNK_SIZE % lorem_ipsum_len;
    for _ in 0..first_sentence_of_next_chunk_dist {
        assert!(stream.next().is_ok());
    }

    assert_eq!(stream.next(), Ok('a'));
    assert_eq!(stream.next(), Ok(' '));
    assert_eq!(stream.next(), Ok('b'));

    for _ in 0..first_sentence_of_next_chunk_dist {
        assert!(stream.next().is_ok());
    }

    assert_eq!(stream.next(), Ok('e'));
    assert_eq!(stream.next(), Ok('a'));

    let dist_to_last_char = number_of_sentences * lorem_ipsum_len
        - 10 // Letters already read : "This is a "
        - 2 * first_sentence_of_next_chunk_dist
        - 1;
    for _ in 0..dist_to_last_char {
        assert!(stream.next().is_ok());
    }

    assert_eq!(stream.next(), Ok('.'));
    assert_eq!(stream.next(), Err(StreamError::EndOfInput));
}

#[test]
fn it_resets_on_checkpoint() {
    let mut fake_read = String::with_capacity(CHUNK_SIZE * 3);

    let beautiful_sentence = "This is a sentence, what a beautiful sentence !";
    let number_of_sentences = CHUNK_SIZE * 3 / beautiful_sentence.len();
    for _ in 0..number_of_sentences {
        fake_read += beautiful_sentence;
    }

    let mut stream = ElasticBufferStreamer::unlimited(fake_read.as_bytes());

    let first_sentence_of_next_chunk_dist =
        CHUNK_SIZE + beautiful_sentence.len() - CHUNK_SIZE % beautiful_sentence.len();
    for _ in 0..first_sentence_of_next_chunk_dist {
        assert!(stream.next().is_ok());
    }

    assert_eq!(stream.next(), Ok('T'));
    assert_eq!(stream.next(), Ok('h'));
    assert_eq!(stream.next(), Ok('i'));
    assert_eq!(stream.next(), Ok('s'));
    assert_eq!(stream.next(), Ok(' '));

    let cp = stream.checkpoint();

    assert_eq!(stream.next(), Ok('i'));
    assert_eq!(stream.next(), Ok('s'));
    assert_eq!(stream.next(), Ok(' '));

    stream.reset(cp);
    let cp = stream.checkpoint();

    assert_eq!(stream.next(), Ok('i'));
    assert_eq!(stream.next(), Ok('s'));
    assert_eq!(stream.next(), Ok(' '));

    for _ in 0..first_sentence_of_next_chunk_dist {
        assert!(stream.next().is_ok());
    }

    assert_eq!(stream.next(), Ok('a'));

    stream.reset(cp);

    assert_eq!(stream.next(), Ok('i'));
    assert_eq!(stream.next(), Ok('s'));
    assert_eq!(stream.next(), Ok(' '));
}

#[test]
fn it_frees_useless_memory_when_reading_new_chunk() {
    let mut fake_read = String::with_capacity(CHUNK_SIZE * 3);

    let beautiful_sentence = "This is a sentence, what a beautiful sentence !";
    let number_of_sentences = CHUNK_SIZE * 3 / beautiful_sentence.len();
    for _ in 0..number_of_sentences {
        fake_read += beautiful_sentence;
    }

    let mut stream = ElasticBufferStreamer::unlimited(fake_read.as_bytes());

    let cp = stream.checkpoint();
    assert_eq!(stream.buffer_len(), 0);
    assert_eq!(stream.next(), Ok('T'));
    assert_eq!(stream.buffer_len(), CHUNK_SIZE);

    for _ in 0..CHUNK_SIZE {
        assert!(stream.next().is_ok());
    }

    assert_eq!(stream.buffer_len(), 2 * CHUNK_SIZE);

    stream.reset(cp);

    assert_eq!(stream.next(), Ok('T'));

    for _ in 0..2 * CHUNK_SIZE {
        assert!(stream.next().is_ok());
    }

    assert!(stream.buffer_len() < 2 * CHUNK_SIZE);
}

#[test]
fn it_gets_ranges() {
    let fake_read = &b"This is the text !"[..];
    let mut stream = ElasticBufferStreamer::unlimited(fake_read);

    let cp1 = stream.checkpoint();

    for _ in 0..3 {
        stream.next().unwrap();
    }

    let cp2 = stream.checkpoint();

    for _ in 0..2 {
        stream.next().unwrap();
    }

    let rg1 = stream.range_from_checkpoint(cp1).to_ref(&mut stream);

    assert_eq!(rg1, &(b"This ")[..]);

    let rg2 = stream.range_from_checkpoint(cp2).to_ref(&mut stream);

    assert_eq!(rg2, &(b"s ")[..]);
}

#[test]
fn it_increases_capacity_when_needed() {
    let final_capacity = CHUNK_SIZE * (INITIAL_CAPACITY + 2);
    let mut fake_read = String::with_capacity(final_capacity);

    let beautiful_sentence = "This is a sentence, what a beautiful sentence !";
    let number_of_sentences = final_capacity / beautiful_sentence.len();
    for _ in 0..number_of_sentences {
        fake_read += beautiful_sentence;
    }

    let mut stream = ElasticBufferStreamer::unlimited(fake_read.as_bytes());

    let cp = stream.checkpoint();

    for _ in 0..(number_of_sentences * beautiful_sentence.len()) {
        stream.next().unwrap();
    }

    let rg = stream.range_from_checkpoint(cp).to_ref(&mut stream);

    assert_eq!(rg.len(), number_of_sentences * beautiful_sentence.len());
}
