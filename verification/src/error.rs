//! The failure taxonomy of the vault core.  Every precondition violation on
//! malformed input becomes one of these typed values; the verified code
//! never panics.

use vstd::prelude::*;

verus! {

/// Errors that vault operations can return.
///
/// Identity failures carry the identifier that did not resolve; the
/// remaining payloads carry a human-readable reason.
#[derive(Debug, Clone)]
pub enum VaultError {
    /// The container could not be opened.
    OpenError(String),
    /// The container could not be written.
    SaveError(String),
    /// The supplied credentials were rejected.
    InvalidPassword,
    /// A CRUD operation was attempted while the vault is locked.
    VaultLocked,
    /// No live entry has the given identifier.
    EntryNotFound(String),
    /// No live group has the given identifier.
    GroupNotFound(String),
    /// The supplied entry data is unusable.
    InvalidEntry(String),
    /// A structurally disallowed mutation, such as deleting the root group.
    InvalidOperation(String),
    /// A malformed base32 one-time-password seed.
    InvalidSecret(String),
    /// Encryption failed in the outer codec layer.
    EncryptionError(String),
    /// Decryption failed in the outer codec layer.
    DecryptionError(String),
    /// An input/output failure reported by the outer codec layer.
    IoError(String),
    /// A serialization failure reported by the outer codec layer.
    SerializationError(String),
    /// A container-format failure reported by the outer codec layer.
    KeePassError(String),
    /// Anything else.
    Unknown(String),
}

} // verus!
