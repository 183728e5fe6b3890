//! A minimal RESP-style key-value server core: a verified codec for the
//! recursive, length-prefixed wire format, a command parser, an expiring
//! key-value store, and the executor that ties them together.
//!
//! The crate holds the protocol and storage logic only; socket handling and
//! clock access belong to the embedding program, which passes byte buffers
//! and timestamps in and takes byte buffers back out.

pub mod cli;
pub mod cmd;
pub mod num;
pub mod resp;
pub mod store;
pub mod utf8;
