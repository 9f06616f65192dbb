//! The store of an encrypted vault: locked or unlocked, where its objects lie,
//! and what is read from them.

use vstd::prelude::*;
use vstd::utf8::{decode_utf8, encode_utf8, valid_utf8};

use super::manifest::{
    Manifest, ManifestView, NoteRecord, KEYFILE_NAME, MANIFEST_NAME, MANIFEST_OBJECT_ID,
    MANIFEST_SCHEMA, ORPHAN_DIR, STORE_DIR,
};
use super::notes::{is_missing, place_of};
use crate::bytes::{be_value, bytes_between, lemma_be_round_trip, lemma_byte_range_values};
use crate::constants::MIN_PASSWORD_LENGTH;
use crate::crypto::note::is_encryption_error;
use crate::crypto::primitives::{random_bytes, SecretBytes};
use crate::crypto::vault::{
    freshly_wrapped, is_invalid_vault, master_in, object_fault, object_fault_text, object_in, open_keyfile,
    rewrap_keyfile, sealed_object, unwrap_fails, KeysView, ObjectType, VaultKeys,
};
use crate::error::{Error, Result};
use crate::ident::{hex_digits, Uuid};
use crate::paths::{is_invalid_path, join_path, joined, valid_note_path, ensure_relative_note_path};
use crate::text::{decode_text, same_text, decimal};
use crate::vault::{check_password_policy, is_weak_password};

verus! {

// Where everything lies.

/// The path of the keyfile.
pub open spec fn spec_keyfile_path(state_dir: Seq<char>) -> Seq<char> {
    joined(state_dir, KEYFILE_NAME@)
}

/// The path of an object.
pub open spec fn object_path(state_dir: Seq<char>, object_id: Seq<char>) -> Seq<char> {
    joined(joined(state_dir, STORE_DIR@), object_id)
}

/// The path of an object.
pub fn store_blob_path(state_dir: &str, object_id: &str) -> (path: String)
    ensures
        path@ == object_path(state_dir@, object_id@),
{
    join_path(&join_path(state_dir, STORE_DIR), object_id)
}

/// The name for an object that sixteen bytes give: their hexadecimal digits.
pub fn object_id_of(bytes: &[u8]) -> (name: String)
    requires
        bytes@.len() == 16,
    ensures
        name@ == hex_digits(be_value(bytes@), 32),
{
    let id = Uuid::read(bytes, 0);
    proof {
        assert(bytes@.subrange(0, 16) == bytes@);
        lemma_byte_range_values();
        lemma_be_round_trip(id.value as nat, 16);
    }
    id.simple()
}

/// A fresh random name for an object: thirty-two hexadecimal digits, which say
/// nothing of what the object holds.
pub fn new_object_id() -> (outcome: Result<String>)
    ensures
        match outcome {
            Ok(name) => exists|bytes: Seq<u8>|
                bytes.len() == 16 && name@ == hex_digits(#[trigger] be_value(bytes), 32),
            Err(error) => error is Encryption,
        },
{
    match random_bytes(16) {
        Ok(bytes) => {
            let name = object_id_of(&bytes);
            proof {
                assert(name@ == hex_digits(be_value(bytes@), 32));
            }
            Ok(name)
        },
        Err(failure) => Err(Error::Encryption(failure.to_string())),
    }
}

// Locked and unlocked.

struct Unlocked {
    keys: VaultKeys,
    manifest: Manifest,
}

/// The store of one encrypted vault. While it is locked, it holds no key and
/// nothing of the vault's structure.
pub struct EncryptedStore {
    state_dir: String,
    vault_id: Uuid,
    inner: Option<Unlocked>,
}

/// The store with what it holds while it is unlocked.
#[verifier::ext_equal]
pub struct StoreView {
    pub state_dir: Seq<char>,
    pub vault_id: Uuid,
    pub inner: Option<(KeysView, ManifestView)>,
}

impl View for EncryptedStore {
    type V = StoreView;

    closed spec fn view(&self) -> StoreView {
        StoreView {
            state_dir: self.state_dir@,
            vault_id: self.vault_id,
            inner: match self.inner {
                Some(unlocked) => Some((unlocked.keys@, unlocked.manifest@)),
                None => None,
            },
        }
    }
}

impl StoreView {
    /// The keys that the store holds are those of its vault.
    pub open spec fn valid(self) -> bool {
        self.inner matches Some((keys, _)) ==> keys.valid() && keys.vault_id == self.vault_id
    }
}

impl EncryptedStore {
    /// The store of an existing vault, locked. It must have a keyfile.
    pub fn open(state_dir: &str, vault_id: Uuid, has_keyfile: bool) -> (outcome: Result<
        EncryptedStore,
    >)
        ensures
            match outcome {
                Ok(store) => {
                    &&& has_keyfile
                    &&& store@ == (StoreView { state_dir: state_dir@, vault_id, inner: None })
                    &&& store@.valid()
                },
                Err(error) => !has_keyfile && is_invalid_vault(
                    error,
                    "encrypted vault has no keyfile"@,
                ),
            },
    {
        if !has_keyfile {
            return Err(Error::InvalidEncryptedVault("encrypted vault has no keyfile".to_owned()));
        }
        Ok(EncryptedStore { state_dir: state_dir.to_owned(), vault_id, inner: None })
    }

    /// The store of a new vault, unlocked.
    pub fn create_from(state_dir: &str, keys: VaultKeys, manifest: Manifest) -> (store:
        EncryptedStore)
        requires
            keys@.valid(),
        ensures
            store@ == (StoreView {
                state_dir: state_dir@,
                vault_id: keys@.vault_id,
                inner: Some((keys@, manifest@)),
            }),
            store@.valid(),
    {
        EncryptedStore {
            state_dir: state_dir.to_owned(),
            vault_id: keys.vault_id(),
            inner: Some(Unlocked { keys, manifest }),
        }
    }

    pub fn vault_id(&self) -> (vault_id: Uuid)
        ensures
            vault_id == self@.vault_id,
    {
        self.vault_id
    }

    pub fn is_unlocked(&self) -> (unlocked: bool)
        ensures
            unlocked == (self@.inner is Some),
    {
        self.inner.is_some()
    }

    /// Locks the store: the keys and the manifest are dropped.
    pub fn lock(&mut self)
        ensures
            final(self)@ == (StoreView { inner: None, ..old(self)@ }),
            final(self)@.valid(),
    {
        self.inner = None;
    }

    /// Unlocks the store with the keys that the keyfile gave and the manifest
    /// that they opened. Where that fails, the store stays as it is.
    pub fn finish_unlock(&mut self, keys: VaultKeys, manifest: Manifest) -> (outcome: Result<()>)
        requires
            keys@.valid(),
        ensures
            if keys@.vault_id != old(self)@.vault_id {
                &&& outcome matches Err(error)
                &&& is_invalid_vault(error, "key material is for a different vault"@)
                &&& *final(self) == *old(self)
            } else if manifest@.schema != MANIFEST_SCHEMA {
                &&& outcome matches Err(error)
                &&& is_invalid_vault(
                    error,
                    "unsupported manifest schema "@ + decimal(manifest@.schema as nat),
                )
                &&& *final(self) == *old(self)
            } else {
                &&& outcome is Ok
                &&& final(self)@ == (StoreView { inner: Some((keys@, manifest@)), ..old(self)@ })
                &&& final(self)@.valid()
            },
    {
        if let Err(error) = self.check_keys(&keys) {
            return Err(error);
        }
        if let Err(error) = manifest.check_schema() {
            return Err(error);
        }
        self.inner = Some(Unlocked { keys, manifest });
        Ok(())
    }

    /// Refuses the keys of another vault.
    pub fn check_keys(&self, keys: &VaultKeys) -> (outcome: Result<()>)
        ensures
            outcome is Ok <==> keys@.vault_id == self@.vault_id,
            outcome matches Err(error) ==> is_invalid_vault(
                error,
                "key material is for a different vault"@,
            ),
    {
        if keys.vault_id() != self.vault_id {
            return Err(
                Error::InvalidEncryptedVault("key material is for a different vault".to_owned()),
            );
        }
        Ok(())
    }

    /// The structure of the vault, while it is unlocked.
    pub fn manifest(&self) -> (outcome: Result<&Manifest>)
        ensures
            match outcome {
                Ok(manifest) => self@.inner matches Some((_, held)) && held == manifest@,
                Err(error) => self@.inner is None && error is VaultLocked,
            },
    {
        match &self.inner {
            Some(unlocked) => Ok(&unlocked.manifest),
            None => Err(Error::VaultLocked),
        }
    }

    /// The keys of the vault, while it is unlocked.
    pub fn keys(&self) -> (outcome: Result<&VaultKeys>)
        ensures
            match outcome {
                Ok(keys) => self@.inner matches Some((held, _)) && held == keys@,
                Err(error) => self@.inner is None && error is VaultLocked,
            },
    {
        match &self.inner {
            Some(unlocked) => Ok(&unlocked.keys),
            None => Err(Error::VaultLocked),
        }
    }

    /// Takes over a manifest that has been written. What an operation did to a
    /// manifest that could not be written never gets here.
    pub fn commit(&mut self, manifest: Manifest) -> (outcome: Result<()>)
        ensures
            match old(self)@.inner {
                Some((keys, _)) => {
                    &&& outcome is Ok
                    &&& final(self)@ == (StoreView {
                        inner: Some((keys, manifest@)),
                        ..old(self)@
                    })
                },
                None => {
                    &&& outcome matches Err(error)
                    &&& error is VaultLocked
                    &&& *final(self) == *old(self)
                },
            },
    {
        match &mut self.inner {
            Some(unlocked) => {
                unlocked.manifest = manifest;
                Ok(())
            },
            None => Err(Error::VaultLocked),
        }
    }

    /// The path of the keyfile.
    pub fn keyfile_path(state_dir: &str) -> (path: String)
        ensures
            path@ == spec_keyfile_path(state_dir@),
    {
        join_path(state_dir, KEYFILE_NAME)
    }

    /// The path of the sealed manifest.
    pub fn manifest_path(&self) -> (path: String)
        ensures
            path@ == object_path(self@.state_dir, MANIFEST_NAME@),
    {
        store_blob_path(&self.state_dir, MANIFEST_NAME)
    }

    /// The path of an object.
    pub fn blob_path(&self, object_id: &str) -> (path: String)
        ensures
            path@ == object_path(self@.state_dir, object_id@),
    {
        store_blob_path(&self.state_dir, object_id)
    }

    /// Where an object goes that the manifest does not know.
    pub fn orphan_path(&self, name: &str) -> (path: String)
        ensures
            path@ == joined(
                joined(joined(self@.state_dir, STORE_DIR@), ORPHAN_DIR@),
                name@,
            ),
    {
        join_path(&join_path(&join_path(&self.state_dir, STORE_DIR), ORPHAN_DIR), name)
    }

    /// The path of the object that holds the note with a path.
    pub fn note_path(&self, relative: &str) -> (outcome: Result<String>)
        ensures
            if !valid_note_path(relative@) {
                outcome matches Err(error) && is_invalid_path(error, relative@)
            } else {
                match self@.inner {
                    None => outcome matches Err(error) && error is VaultLocked,
                    Some((_, manifest)) => {
                        let at = place_of(manifest.notes, relative@);
                        if at == manifest.notes.len() {
                            outcome matches Err(error) && is_missing(error, relative@)
                        } else {
                            outcome matches Ok(path) && path@ == object_path(
                                self@.state_dir,
                                manifest.notes[at].object_id,
                            )
                        }
                    },
                }
            },
    {
        if let Err(error) = ensure_relative_note_path(relative) {
            return Err(error);
        }
        match self.manifest() {
            Ok(manifest) => match manifest.find_note(relative) {
                Ok(index) => {
                    proof {
                        assert(manifest@.notes[index as int]
                            == manifest.notes@[index as int].shown());
                    }
                    Ok(self.blob_path(&manifest.notes[index].object_id))
                },
                Err(error) => Err(error),
            },
            Err(error) => Err(error),
        }
    }
}

// Reading objects.

/// The error for an object that does not open.
pub open spec fn is_object_error(
    keys: KeysView,
    object_type: ObjectType,
    object_id: Uuid,
    blob: Seq<u8>,
    error: Error,
) -> bool {
    match object_fault(keys.vault_id, object_type, object_id, blob) {
        Some(fault) => is_invalid_vault(error, object_fault_text(fault)),
        None => error is DecryptionFailed,
    }
}

/// The text of a note in the clear out of its object.
pub fn read_note_markdown(keys: &VaultKeys, record: &NoteRecord, blob: &[u8]) -> (outcome: Result<
    String,
>)
    requires
        keys@.valid(),
    ensures
        match object_in(keys@, ObjectType::Note, record.object_uuid, blob@) {
            Some((bytes, _)) => if valid_utf8(bytes) {
                outcome matches Ok(text) && text@ == decode_utf8(bytes)
            } else {
                outcome matches Err(error) && is_invalid_vault(error, "note is not valid UTF-8"@)
            },
            None => outcome matches Err(error) && is_object_error(
                keys@,
                ObjectType::Note,
                record.object_uuid,
                blob@,
                error,
            ),
        },
{
    match keys.open(ObjectType::Note, record.object_uuid, blob) {
        Ok((plaintext, _)) => {
            let bytes: &[u8] = plaintext.as_slice();
            match decode_text(bytes_between(bytes, 0, bytes.len())) {
                Some(text) => {
                    proof {
                        assert(bytes@.subrange(0, bytes@.len() as int) =~= bytes@);
                    }
                    Ok(text)
                },
                None => {
                    proof {
                        assert(bytes@.subrange(0, bytes@.len() as int) =~= bytes@);
                    }
                    Err(Error::InvalidEncryptedVault("note is not valid UTF-8".to_owned()))
                },
            }
        },
        Err(error) => Err(error),
    }
}

/// The container of a note with a password of its own out of its object.
pub fn read_inner_snote(keys: &VaultKeys, record: &NoteRecord, blob: &[u8]) -> (outcome: Result<
    Vec<u8>,
>)
    requires
        keys@.valid(),
    ensures
        match object_in(keys@, ObjectType::InnerSnote, record.object_uuid, blob@) {
            Some((bytes, marked)) => if marked {
                outcome matches Ok(container) && container@ == bytes
            } else {
                outcome matches Err(error) && is_invalid_vault(
                    error,
                    "object is not marked as an inner .snote"@,
                )
            },
            None => outcome matches Err(error) && is_object_error(
                keys@,
                ObjectType::InnerSnote,
                record.object_uuid,
                blob@,
                error,
            ),
        },
{
    match keys.open(ObjectType::InnerSnote, record.object_uuid, blob) {
        Ok((plaintext, marked)) => {
            if !marked {
                return Err(
                    Error::InvalidEncryptedVault(
                        "object is not marked as an inner .snote".to_owned(),
                    ),
                );
            }
            let bytes: &[u8] = plaintext.as_slice();
            proof {
                assert(bytes@.subrange(0, bytes@.len() as int) =~= bytes@);
            }
            Ok(bytes_between(bytes, 0, bytes.len()))
        },
        Err(error) => Err(error),
    }
}

/// The bytes of the manifest out of its object.
pub fn open_manifest(keys: &VaultKeys, blob: &[u8]) -> (outcome: Result<SecretBytes>)
    requires
        keys@.valid(),
    ensures
        match object_in(keys@, ObjectType::Manifest, manifest_object(), blob@) {
            Some((bytes, _)) => outcome matches Ok(plaintext) && plaintext@ == bytes,
            None => outcome matches Err(error) && is_object_error(
                keys@,
                ObjectType::Manifest,
                manifest_object(),
                blob@,
                error,
            ),
        },
{
    match keys.open(ObjectType::Manifest, Uuid::from_u128(MANIFEST_OBJECT_ID), blob) {
        Ok((plaintext, _)) => Ok(plaintext),
        Err(error) => Err(error),
    }
}

/// The identifier of the manifest as an object.
pub open spec fn manifest_object() -> Uuid {
    Uuid { value: MANIFEST_OBJECT_ID }
}

/// Seals the bytes of the manifest. Opened with the same keys they come back.
pub fn seal_manifest(keys: &VaultKeys, bytes: &[u8]) -> (outcome: Result<Vec<u8>>)
    requires
        keys@.valid(),
        bytes@.len() + 16 <= isize::MAX,
    ensures
        match outcome {
            Ok(blob) => {
                &&& exists|nonce: Seq<u8>|
                    nonce.len() == 24 && blob@ == #[trigger] sealed_object(
                        keys@,
                        ObjectType::Manifest,
                        manifest_object(),
                        false,
                        nonce,
                        bytes@,
                    )
                &&& object_in(keys@, ObjectType::Manifest, manifest_object(), blob@) == Some(
                    (bytes@, false),
                )
            },
            Err(error) => error is Encryption,
        },
{
    keys.seal(ObjectType::Manifest, Uuid::from_u128(MANIFEST_OBJECT_ID), false, bytes)
}

// The password of the vault.

/// The keyfile for another password. No object is sealed again.
pub fn rewrap_vault_keyfile(
    current: &[u8],
    vault_id: Uuid,
    old_password: &str,
    new_password: &str,
) -> (outcome: Result<Vec<u8>>)
    ensures
        match outcome {
            Ok(rewrapped) => {
                &&& new_password@.len() >= MIN_PASSWORD_LENGTH
                &&& opens(vault_id, current@, old_password@)
                &&& opens(vault_id, rewrapped@, new_password@)
                &&& master_in(vault_id, current@, encode_utf8(old_password@)) matches Some(master)
                &&& master_in(vault_id, rewrapped@, encode_utf8(new_password@)) == Some(master)
                &&& freshly_wrapped(vault_id, master, encode_utf8(new_password@), rewrapped@)
            },
            Err(error) => if new_password@.len() < MIN_PASSWORD_LENGTH {
                is_weak_password(error)
            } else {
                ||| unwrap_fails(vault_id, current@, encode_utf8(old_password@), error)
                ||| error is Encryption && master_in(
                    vault_id,
                    current@,
                    encode_utf8(old_password@),
                ) is Some
            },
        },
{
    if let Err(error) = check_password_policy(new_password) {
        return Err(error);
    }
    rewrap_keyfile(current, vault_id, old_password, new_password)
}

/// Whether a password opens a keyfile.
pub open spec fn opens(vault_id: Uuid, keyfile: Seq<u8>, password: Seq<char>) -> bool {
    encode_utf8(password).len() <= 0xffff_ffff && master_in(
        vault_id,
        keyfile,
        encode_utf8(password),
    ) is Some
}

/// Checks a keyfile that was written for another password and read back: the
/// new password must open it, and the old one must not.
pub fn verify_rewrapped(
    written: &[u8],
    vault_id: Uuid,
    old_password: &str,
    new_password: &str,
) -> (outcome: Result<()>)
    ensures
        if !opens(vault_id, written@, new_password@) {
            outcome matches Err(error) && is_encryption_error(
                error,
                "vault password change verification failed"@,
            )
        } else if new_password@ != old_password@ && opens(vault_id, written@, old_password@) {
            outcome matches Err(error) && is_encryption_error(
                error,
                "vault password change verification failed: the old password still works"@,
            )
        } else {
            outcome is Ok
        },
{
    if let Err(_) = open_keyfile(written, vault_id, new_password) {
        return Err(
            Error::Encryption("vault password change verification failed".to_owned()),
        );
    }
    if !same_text(new_password, old_password) {
        if let Ok(_) = open_keyfile(written, vault_id, old_password) {
            return Err(
                Error::Encryption(
                    "vault password change verification failed: the old password still works".to_owned(),
                ),
            );
        }
    }
    Ok(())
}

} // verus!
