//! Incremental decoding of a server-sent event stream.
//!
//! Bytes arrive in chunks of any size. A line splitter cuts them into lines,
//! whichever of the three line endings the sender uses, and an event decoder
//! folds the lines into events. Both stages are pull-based and keep all
//! partial state in owned buffers, so a pull that finds nothing buffered
//! answers with a request for more input instead of waiting.
//!
//! A caller pulls with `poll_frame`. Where the answer is `Polled::Pull` it
//! asks its source and hands over what the source gave: bytes with `feed`,
//! a frame without data with `pass`, an error with `fail`, the end of the
//! input with `finish`. Then it pulls again.
//!
//! Every function states what it does over a view of the state, and the
//! module `laws` proves what holds of whole streams.

pub mod buffer;
pub mod decode;
pub mod event;
pub mod frame;
pub mod laws;
pub mod lines;
pub mod text;

pub use decode::{decode, decode_data, Decode, DecodeError, EventStream};
pub use event::Event;
pub use frame::{Frame, Polled};
pub use lines::Lines;
