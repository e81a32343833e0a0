//! Core of a minimal exchange service for RGB-style proof records, each tied
//! to a Bitcoin transaction output ("outpoint" = transaction hash + output
//! index).
//!
//! The crate covers the protocol-level contract of such a service:
//! - `outpoint`: parsing and formatting of the `/<txid>:<vout>` resource key;
//! - `codec`: the consensus-style, length-prefixed binary encoding of proof
//!   collections;
//! - `storage`: the abstract persistence port the dispatcher depends on, with
//!   an in-memory reference implementation;
//! - `server`: the request dispatcher that routes a method + path + body to
//!   the codecs and the storage port and produces a response.
//!
//! Transport plumbing (sockets, HTTP framing) is outside this crate's scope:
//! a surrounding program hands the dispatcher plain values and sends the
//! response back.

pub mod codec;
pub mod outpoint;
pub mod server;
pub mod storage;
