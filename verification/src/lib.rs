//! HTTP chunked transfer coding: an encoder that splits data into chunks and a
//! decoder that puts the data together again.
//!
//! Neither does any input or output. Each call of them is a conversation with
//! whoever does: it asks for bytes to be read or written, is told what came of
//! it, and asks again or ends. A call can be given up where the other side is not
//! ready; when it is called again, it goes on where it stopped.
//!
//! - [`decoder`] and [`encoder`] are the two ends of the coding.
//! - [`format`] says what a chunk and a message are; [`text`] and [`number`]
//!   say what a chunk size is. [`notation`] and [`wire`] state what that comes
//!   to, digit by digit and byte by byte.
//! - [`decoding`] states what reads come to: that they read exactly what is a
//!   message, whenever the source is ready. [`reading`] states what one read
//!   comes to, case by case, [`delivery`] what reads hand out of a source that has
//!   no message, and how much they leave of a chunk.
//! - [`encoding`] states what calls of the encoder come to: that they write a
//!   message with the data that they were given. [`writing`] states what one call
//!   comes to, byte by byte, [`repeating`] that calls which are given up and called
//!   again come to the same, [`progress`] what the encoder holds in any state that
//!   it comes to.
pub mod decoder;
pub mod decoding;
pub mod delivery;
pub mod encoder;
pub mod encoding;
pub mod format;
pub mod notation;
pub mod number;
pub mod progress;
pub mod reading;
pub mod repeating;
pub mod text;
pub mod wire;
pub mod writing;

pub use decoder::Decoder;
pub use encoder::Encoder;
