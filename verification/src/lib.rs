//! Transport core of a HomeKit Accessory Protocol (HAP) accessory server.
//!
//! Once a controller has completed pair-verify, every TCP connection carries a
//! framed, authenticated-encryption channel: length-prefixed ChaCha20-Poly1305
//! records under per-session, per-direction keys derived from the pair-verify
//! shared secret. This crate holds the verified core of that channel: key
//! derivation, record encryption and decryption with counter nonces, the
//! incremental frame parser, and the passthrough-to-encrypted session gate.
//! The asynchronous socket plumbing around it lives outside the library.

use vstd::prelude::*;

pub mod channel;
pub mod framer;
pub mod keys;
pub mod record;

verus! {

/// Largest plaintext payload a single wire record may carry.
pub const MAX_RECORD_LEN: usize = 1024;

/// A fatal condition of the secure channel.
///
/// Any of these ends the session: counter desynchronisation between the two
/// peers is unrecoverable, so no record-level retry is attempted.
#[derive(Clone, Copy, Debug, PartialEq, Eq, Structural)]
pub enum TransportError {
    /// A length prefix of zero or above `MAX_RECORD_LEN` arrived.
    FrameTooLarge,
    /// An AEAD tag failed to verify.
    AuthenticationFailed,
    /// The channel already failed earlier; no further data is accepted.
    ChannelClosed,
}

} // verus!
