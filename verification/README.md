# redis_stm

A small Redis-style server. The library (`src/`) is written in Verus and
verified; the server around it (`app/`) is ordinary Rust on Tokio.

- `cursor`: a read position over a byte buffer; line and number readers.
- `frame`: protocol frames, their wire encoding, the frame scanner (`check`,
  `scan`) and parser (`parse`, `parse_frame`), each specified against a
  grammar given as spec functions.
- `roundtrip`: the proof that the encoding of a frame parses back to it.
- `text`: decimal numerals and UTF-8 text.
- `parse`: taking the tokens of a command frame one by one.
- `cmd`: the `GET`, `SET`, `PUBLISH` and `SUBSCRIBE` commands and how a
  command is read from a frame.
- `db`: the in-memory key/value store, with expirations on a caller's clock.
- `handler`: what a connection does with each frame a client sends.

`app/` holds the TCP listener, the connections, the shared store with its
publish/subscribe channels, and `main`.
