//! An encrypted, single-user credential vault: key derivation from a master
//! password, the AES-256-CBC envelope, the on-disk binary format, the record
//! store and the idle-timeout session lock.

pub mod auto_lock;
pub mod biometric;
pub mod crypto;
pub mod csv;
pub mod entry;
pub mod envelope;
pub mod error;
pub mod generator;
pub mod payload;
pub mod session;
pub mod text;
pub mod vault;

pub use auto_lock::{AutoLockConfig, AutoLockManager};
pub use biometric::{BiometricConfig, BiometricManager};
pub use crypto::{decrypt, derive_key, encrypt, encrypt_with_iv};
pub use csv::{escape_csv, unescape_csv};
pub use entry::{Entry, EntryView};
pub use envelope::{decode_envelope, encode_envelope, EncryptedData};
pub use error::VaultError;
pub use generator::PasswordOptions;
pub use payload::{decode_payload, encode_payload};
pub use session::{SessionManager, SessionMarkers};
pub use text::{contains_chars, parse_number};
pub use vault::{find_entry, find_entry_with_index, Vault, VAULT_SALT};
