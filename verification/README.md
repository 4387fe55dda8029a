# elastic_parser

Parser combinators for streaming data, verified with Verus.

A *stream* reads characters from a source of bytes and keeps as much of its text as a checkpoint, or
the last character that was read, can still be gone back to. A *parser* takes its input from a
stream. Parsers are combined: repeated, made optional, attempted, put in a sequence or made
alternatives.

## Layout

- `src/streamer.rs`: what a stream is: `Streamer`, `StreamerRange`, and the state that their
  contracts speak of.
- `src/elastic_buffer.rs`: `ElasticBufferStreamer`, a stream with a buffer that adapts its size.
  `src/source.rs`, `src/checkpoints.rs`, `src/decode.rs` and `src/storage.rs` are its parts.
- `src/parser.rs`: what a parser is. The contract of a parser is a relation between the parser before
  and after a call, the state of the stream before and after, and the outcome. The state of a stream
  tells what was read, which text is kept and where, and what the stream has answered so far.
- `src/parsers/basic.rs`: parsers of characters, words and the end of the input.
- `src/repeat.rs`, `src/recover.rs`, `src/sequence.rs`, `src/choice.rs`: the combinators.
- `src/text.rs`: UTF-8 text as a sequence of bytes.
- `src/laws/`: what holds of streams and parsers as a whole.
- `app/`: streams over readers of the standard library, with checkpoints that are given back when
  they go out of scope.

## Checkpoints

A checkpoint is given back to its stream by `reset`, by `release`, or with the range that it delimits.
The stream keeps its text from the earliest checkpoint that was not given back. Parsers give back all
checkpoints that their output does not hold, also when they fail.

## Trusted code

The contracts of the wrappers in `src/storage.rs`, `src/character.rs`, `src/decode.rs` and
`src/errors.rs` around `slice_deque`, `tinyvec` and the standard library are believed without proof.
