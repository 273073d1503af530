use vstd::prelude::*;

verus! {

/// Every failure that the vault engine reports to its caller.
#[derive(Debug, Clone, Copy, PartialEq, Eq, Structural)]
pub enum VaultError {
    /// The password hashing backend failed or produced too short a hash.
    KeyDerivationError,
    /// The ciphertext did not decrypt under the key (wrong password or corrupted data).
    DecryptionError,
    /// The file does not hold a well-formed envelope.
    MalformedVaultFile,
    /// The decrypted payload is not a well-formed record list.
    MalformedPayload,
    /// No entry answers the given index or name.
    EntryNotFound,
    /// A session marker could not be read or written.
    SessionLockIoError,
}

impl VaultError {
    /// Whether this is one of the failures of opening a vault file: a
    /// malformed envelope, a failed decryption or a malformed payload.
    pub fn is_open_error(&self) -> (r: bool)
        ensures
            r == (*self == VaultError::MalformedVaultFile || *self == VaultError::DecryptionError || *self
                == VaultError::MalformedPayload),
    {
        match self {
            VaultError::MalformedVaultFile | VaultError::DecryptionError | VaultError::MalformedPayload => true,
            _ => false,
        }
    }

    /// A short human-readable description of the failure.
    pub fn describe(&self) -> &'static str {
        match self {
            VaultError::KeyDerivationError => "key derivation failed",
            VaultError::DecryptionError => "decryption failed (wrong password or corrupted file)",
            VaultError::MalformedVaultFile => "the vault file is malformed",
            VaultError::MalformedPayload => "the vault contents are malformed",
            VaultError::EntryNotFound => "entry not found",
            VaultError::SessionLockIoError => "session marker could not be accessed",
        }
    }
}

} // verus!
