//! A small replicated key-value service speaking a subset of RESP.
//!
//! The library holds the protocol codecs, the command decoder, the replica's
//! executor and commit participant, and the master's scheduler and commit
//! coordinator, each as plain state transitions with contracts.

pub mod buffer;
pub mod backend;
pub mod command;
pub mod map;
pub mod master;
pub mod proto;
pub mod replica;
pub mod resp;
pub mod resp_laws;
