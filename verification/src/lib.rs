//! An XDCC client core: incremental framing of an IRC byte stream into lines,
//! classification of control messages (PING, MODE, DCC SEND offers), the
//! session state machine that emits protocol replies, and the byte-count
//! bookkeeping of the direct-connection file transfer.
//!
//! - [`framer`] turns arbitrarily chunked reads into complete protocol lines;
//! - [`text`] trims, decodes and handles decimal digit runs;
//! - [`classify`] maps one line to one control message, by priority;
//! - [`session`] owns the protocol state and says what to send back;
//! - [`transfer`] accounts for the bytes of the file transfer itself.
//!
//! Connecting, reading, writing, storage and display stay with the caller:
//! the library decides, the caller performs.

pub mod framer;
pub mod text;
pub mod classify;
pub mod transfer;
pub mod session;

use vstd::prelude::*;

verus! {

/// Immutable configuration fixed for the lifetime of a run.
pub struct Args {
    /// Bot to request the pack from.
    pub bot: String,
    /// XDCC pack number.
    pub pack: usize,
    /// IRC channels to join (without the leading `#`).
    pub channel: Vec<String>,
    /// IRC connection port.
    pub port: u16,
    /// IRC server address.
    pub server: String,
    /// Whether to surface each received and sent line.
    pub verbose: bool,
}

} // verus!
