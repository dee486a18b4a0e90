//! Core of a driver library for the ZVT payment-terminal protocol between an
//! electronic cash register (ECR) and a payment terminal (PT), with the
//! cVEND vendor extensions.
//!
//! The crate has three layers: a packet codec (length codecs, value encodings
//! and tagged fields composed into per-packet serializers), ADPU framing with
//! command dispatch, and per-command dialog state machines plus a terminal
//! controller. All of it is pure: the byte stream itself is driven by the
//! caller.

pub mod commands;
pub mod config;
pub mod constants;
pub mod encoding;
pub mod errors;
pub mod feig;
pub mod fields;
pub mod length;
pub mod packets;
pub mod retry;
pub mod sequences;
pub mod terminal;

pub use errors::ZVTError;
pub use errors::ZVTResult;

use vstd::prelude::*;

verus! {

/// A tag (BMP number or TLV tag) attached to a packet field.
#[derive(Debug, Clone, Copy, PartialEq, Eq, Structural)]
pub struct Tag(pub u16);

} // verus!
