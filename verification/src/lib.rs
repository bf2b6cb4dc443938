//! Resumable file upload core: chunk state machine, durable sidecar metadata
//! codec, positioned-write model, and the session lifecycle decisions, all
//! with verified contracts. The I/O shell around this library performs the
//! actual filesystem work and feeds results back in as plain values.

use vstd::prelude::*;

pub mod auth;
pub mod codec;
pub mod config;
pub mod errors;
pub mod html;
pub mod login;
pub mod templates;
pub mod upload;
pub mod writer;

verus! {

} // verus!
