//! Cryptographic containers: one note protected by its own password, and the
//! keyfile and objects of a vault that is encrypted as a whole.

pub mod laws;
pub mod note;
pub mod primitives;
pub mod vault;

pub use note::{
    decrypt, encrypt_new, encrypt_with_session, inspect_header, EncryptedHeader, EncryptedSession,
    ARGON2_ITERATIONS, ARGON2_LANES, ARGON2_MEMORY_KIB,
};
