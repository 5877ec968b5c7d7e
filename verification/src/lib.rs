//! Greedy batching of byte payloads into size-bounded messages.
//!
//! A [`Sender`] groups a sequence of payloads, in order and without copying
//! them, into messages whose total size stays strictly below
//! [`MAX_MSG_SIZE`], and hands each message to a [`Sink`].

pub mod greedy;
pub mod payload;
pub mod sender;
pub mod sink;

pub use greedy::MAX_MSG_SIZE;
pub use sender::{Oversized, Sender};
pub use sink::{Discard, Recorder, Sink};
