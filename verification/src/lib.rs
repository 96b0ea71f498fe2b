//! Core of a Stratum-style mining pool server: the wire codec for the
//! line-oriented JSON-RPC protocol, the per-connection state machine, the
//! PPLNS share accounting with a durable binary state encoding, the nonce
//! dedup window, the server hub's decision logic, and the bodies of the
//! read-only stats API. All I/O stays outside this crate; every function
//! here is a decision or a computation on plain values.

pub mod accounting;
pub mod api;
pub mod cache;
pub mod codec;
pub mod connection;
pub mod hub;
pub mod json;
pub mod message;
pub mod persist;
pub mod pplns;
pub mod util;

use vstd::prelude::*;

verus! {

} // verus!
