//! Incremental transcription stream processing.
//!
//! A live speech-to-text process writes raw, unbuffered bytes: interim line
//! rewrites separated by carriage returns, finalized lines terminated by
//! newlines, and terminal control sequences mixed into the text. This crate
//! turns that stream into ordered `Interim` and `Final` transcription events:
//! [`filter`] removes control sequences and surrounding whitespace,
//! [`reassembler`] finds the boundaries and produces the events, [`session`]
//! decides how the external process and its reader are started and stopped,
//! and [`interface`] decides the overlay's click-through and shortcut
//! handling.

pub mod event;
pub mod filter;
pub mod interface;
pub mod reassembler;
pub mod session;
