# async-chunked-transfer

Encoder and decoder for HTTP chunked transfer coding, verified with Verus.

- `src/` is the library. It decides what is read and written, and holds the
  contracts and the laws: what the decoder hands out is the data of the message
  in the source, what the encoder writes is a message with the data that it was
  given, and the one gives back what was written to the other.
- `app/` puts the library on tokio's `AsyncRead` and `AsyncWrite`.
- `tests/` runs the library on sources and outputs in memory.

A message is complete only when `Encoder::finish` has been called and has ended.

Where a source or an output is not ready, the call is given up. What it has done
is kept: when it is called again it goes on where it stopped. A write goes on where
its data starts with what had been taken; other data is taken from its start.
