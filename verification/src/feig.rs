//! The cVEND vendor extensions: their packets and dialogs.

pub mod packets;
pub mod sequences;
pub mod tlv;
