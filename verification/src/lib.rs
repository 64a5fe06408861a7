//! Server-Sent Events: the wire format, verified.
//!
//! The crate holds the protocol engine of an event stream: a line reader
//! that cuts a byte stream into lines whatever the line ending, a decoder
//! that folds those lines into events, and an encoder that writes events
//! back to the wire and hands them over through a one-slot queue.
//!
//! Everything here is synchronous and works on plain values. A transport
//! feeds the decoder the bytes it has, and drains the encoder into its sink.

pub mod decoder;
pub mod encoder;
pub mod error;
pub mod event;
pub mod handshake;
pub mod laws;
pub mod lines;
pub mod message;
pub mod text;

pub use decoder::{decode, decode_bytes, Decoder, Step};
pub use encoder::{
    encode, encode_message, encode_retry, handed_over, unless_disconnected, Encoder, Fetched,
    Offered, Sender,
};
pub use error::Error;
pub use event::Event;
pub use handshake::upgrade;
pub use lines::{LineStep, Lines};
pub use message::Message;
