//! The keyfile and the sealed objects of a vault that is encrypted as a whole.
//!
//! A password gives a wrapping key; the wrapping key unwraps the vault master
//! key; the vault master key gives one subkey for each domain of objects. A
//! change of the password wraps the same master key anew, so that no object has
//! to be sealed again.

use vstd::prelude::*;
use vstd::utf8::encode_utf8;

use crate::bytes::{
    be_bytes, be_value, lemma_be_len, lemma_be_round_trip, lemma_byte_range_values, push_be,
    read_be, starts_with, take_16, take_24,
};
use crate::crypto::note::{
    derive_key, is_encryption_error, kdf_in_range, validate_kdf_parameters, ARGON2_ITERATIONS,
    ARGON2_LANES, ARGON2_MEMORY_KIB,
};
use crate::crypto::primitives::{
    aead_decrypt, aead_encrypt, argon2id, cipher_limit, hkdf_key, hkdf_sha256, random_bytes,
    xchacha_open, xchacha_seal, SecretBytes, CIPHER_LIMIT,
};
use crate::error::{Error, Result};
use crate::ident::{lemma_same_bytes, Uuid};
use crate::text::{decimal, push_decimal};

verus! {

/// The label of the subkey for notes.
pub const HKDF_LABEL_CONTENT: &'static str = "senatorialnotes/vault/v1/content";

/// The label of the subkey for the manifest.
pub const HKDF_LABEL_NAMES: &'static str = "senatorialnotes/vault/v1/names";

/// The label of the subkey for attachments.
pub const HKDF_LABEL_ATTACHMENTS: &'static str = "senatorialnotes/vault/v1/attachments";

/// The label of the subkey for vault metadata.
pub const HKDF_LABEL_METADATA: &'static str = "senatorialnotes/vault/v1/metadata";

/// The label of the subkey for a search index.
pub const HKDF_LABEL_INDEX: &'static str = "senatorialnotes/vault/v1/index";

/// The first eight bytes of a keyfile: `SNVLT` and three zeros.
pub open spec fn keyfile_magic() -> Seq<u8> {
    seq![0x53u8, 0x4e, 0x56, 0x4c, 0x54, 0, 0, 0]
}

/// The first eight bytes of a sealed object: `SNENC` and three zeros.
pub open spec fn object_magic() -> Seq<u8> {
    seq![0x53u8, 0x4e, 0x45, 0x4e, 0x43, 0, 0, 0]
}

/// What a sealed object holds. It is part of the associated data, so that an
/// object of one type does not open as another.
#[derive(Clone, Copy, Debug, PartialEq, Eq, Structural)]
pub enum ObjectType {
    /// A note in clear Markdown.
    Note,
    /// The container of a note with a password of its own.
    InnerSnote,
    /// The bytes of an attachment.
    Attachment,
    /// The manifest of the vault.
    Manifest,
    /// Metadata of the vault.
    Metadata,
    /// Reserved for a search index.
    Index,
}

impl ObjectType {
    /// The number that stands for the type in a header.
    pub open spec fn spec_code(self) -> u16 {
        match self {
            ObjectType::Note => 0,
            ObjectType::Attachment => 1,
            ObjectType::Manifest => 3,
            ObjectType::Metadata => 5,
            ObjectType::InnerSnote => 6,
            ObjectType::Index => 7,
        }
    }

    /// Whether a number stands for a type.
    pub open spec fn is_code(code: nat) -> bool {
        code == 0 || code == 1 || code == 3 || code == 5 || code == 6 || code == 7
    }

    /// The number that stands for the type in a header.
    pub fn code(self) -> (code: u16)
        ensures
            code == self.spec_code(),
            Self::is_code(code as nat),
    {
        match self {
            ObjectType::Note => 0,
            ObjectType::Attachment => 1,
            ObjectType::Manifest => 3,
            ObjectType::Metadata => 5,
            ObjectType::InnerSnote => 6,
            ObjectType::Index => 7,
        }
    }

    /// The type that a number stands for.
    pub fn from_code(code: u16) -> (outcome: Result<ObjectType>)
        ensures
            match outcome {
                Ok(object_type) => object_type.spec_code() == code,
                Err(error) => !Self::is_code(code as nat) && is_invalid_vault(
                    error,
                    "unknown object type "@ + decimal(code as nat),
                ),
            },
            outcome is Ok <==> Self::is_code(code as nat),
    {
        match code {
            0 => Ok(ObjectType::Note),
            1 => Ok(ObjectType::Attachment),
            3 => Ok(ObjectType::Manifest),
            5 => Ok(ObjectType::Metadata),
            6 => Ok(ObjectType::InnerSnote),
            7 => Ok(ObjectType::Index),
            other => {
                let mut message: String = "unknown object type ".to_owned();
                push_decimal(&mut message, other as u64);
                Err(Error::InvalidEncryptedVault(message))
            },
        }
    }
}

/// No two types share a number.
pub proof fn law_codes_are_distinct(left: ObjectType, right: ObjectType)
    ensures
        left.spec_code() == right.spec_code() <==> left == right,
        ObjectType::is_code(left.spec_code() as nat),
{
}

/// An `InvalidEncryptedVault` error with this text.
pub open spec fn is_invalid_vault(error: Error, text: Seq<char>) -> bool {
    error matches Error::InvalidEncryptedVault(message) && message@ == text
}

/// The keys of an unlocked vault. Each of them is overwritten when the value is
/// dropped.
pub struct VaultKeys {
    vault_id: Uuid,
    content: SecretBytes,
    names: SecretBytes,
    attachments: SecretBytes,
    metadata: SecretBytes,
    index: SecretBytes,
}

/// What the keys of a vault are.
#[verifier::ext_equal]
pub struct KeysView {
    pub vault_id: Uuid,
    pub content: Seq<u8>,
    pub names: Seq<u8>,
    pub attachments: Seq<u8>,
    pub metadata: Seq<u8>,
    pub index: Seq<u8>,
}

impl View for VaultKeys {
    type V = KeysView;

    closed spec fn view(&self) -> KeysView {
        KeysView {
            vault_id: self.vault_id,
            content: self.content@,
            names: self.names@,
            attachments: self.attachments@,
            metadata: self.metadata@,
            index: self.index@,
        }
    }
}

impl KeysView {
    /// Every key is thirty-two bytes long.
    pub open spec fn valid(self) -> bool {
        &&& self.content.len() == 32
        &&& self.names.len() == 32
        &&& self.attachments.len() == 32
        &&& self.metadata.len() == 32
        &&& self.index.len() == 32
    }

    /// The key that seals objects of a type.
    pub open spec fn key_for(self, object_type: ObjectType) -> Seq<u8> {
        match object_type {
            ObjectType::Note | ObjectType::InnerSnote => self.content,
            ObjectType::Attachment => self.attachments,
            ObjectType::Manifest => self.names,
            ObjectType::Metadata => self.metadata,
            ObjectType::Index => self.index,
        }
    }
}

/// The subkeys that a master key gives for a vault.
pub open spec fn subkeys(vault_id: Uuid, master: Seq<u8>) -> KeysView {
    let salt = vault_id.spec_bytes();
    KeysView {
        vault_id,
        content: hkdf_sha256(salt, master, encode_utf8(HKDF_LABEL_CONTENT@)),
        names: hkdf_sha256(salt, master, encode_utf8(HKDF_LABEL_NAMES@)),
        attachments: hkdf_sha256(salt, master, encode_utf8(HKDF_LABEL_ATTACHMENTS@)),
        metadata: hkdf_sha256(salt, master, encode_utf8(HKDF_LABEL_METADATA@)),
        index: hkdf_sha256(salt, master, encode_utf8(HKDF_LABEL_INDEX@)),
    }
}

/// The header of a sealed object.
pub open spec fn object_header_bytes(
    vault_id: Uuid,
    object_id: Uuid,
    object_type: ObjectType,
    inner_snote: bool,
    nonce: Seq<u8>,
    ciphertext_len: nat,
) -> Seq<u8> {
    object_magic() + be_bytes(1, 2) + be_bytes(
        if inner_snote {
            1
        } else {
            0
        },
        2,
    ) + vault_id.spec_bytes() + object_id.spec_bytes() + be_bytes(
        object_type.spec_code() as nat,
        2,
    ) + be_bytes(0, 2) + be_bytes(ciphertext_len, 8) + nonce
}

/// A sealed object.
pub open spec fn sealed_object(
    keys: KeysView,
    object_type: ObjectType,
    object_id: Uuid,
    inner_snote: bool,
    nonce: Seq<u8>,
    plaintext: Seq<u8>,
) -> Seq<u8> {
    let header = object_header_bytes(
        keys.vault_id,
        object_id,
        object_type,
        inner_snote,
        nonce,
        plaintext.len() + 16,
    );
    header + xchacha_seal(keys.key_for(object_type), nonce, header, plaintext)
}

/// Why a byte string is not the object that a vault expects.
pub enum ObjectFault {
    MissingHeader,
    UnsupportedVersion(nat),
    UnsupportedFlags,
    OtherVault,
    OtherObject,
    UnknownType(nat),
    OtherType,
    ReservedBytes,
    LengthMismatch,
}

/// The first fault of an object, in the order in which they are looked for.
pub open spec fn object_fault(
    vault_id: Uuid,
    object_type: ObjectType,
    object_id: Uuid,
    blob: Seq<u8>,
) -> Option<ObjectFault> {
    if blob.len() < 80 || blob.take(8) != object_magic() {
        Some(ObjectFault::MissingHeader)
    } else if be_value(blob.subrange(8, 10)) != 1 {
        Some(ObjectFault::UnsupportedVersion(be_value(blob.subrange(8, 10))))
    } else if be_value(blob.subrange(10, 12)) > 1 {
        Some(ObjectFault::UnsupportedFlags)
    } else if blob.subrange(12, 28) != vault_id.spec_bytes() {
        Some(ObjectFault::OtherVault)
    } else if blob.subrange(28, 44) != object_id.spec_bytes() {
        Some(ObjectFault::OtherObject)
    } else if !ObjectType::is_code(be_value(blob.subrange(44, 46))) {
        Some(ObjectFault::UnknownType(be_value(blob.subrange(44, 46))))
    } else if be_value(blob.subrange(44, 46)) != object_type.spec_code() {
        Some(ObjectFault::OtherType)
    } else if be_value(blob.subrange(46, 48)) != 0 {
        Some(ObjectFault::ReservedBytes)
    } else if be_value(blob.subrange(48, 56)) != blob.len() - 80 || blob.len() - 80 < 16 {
        Some(ObjectFault::LengthMismatch)
    } else {
        None
    }
}

/// What the error of a fault says.
pub open spec fn object_fault_text(fault: ObjectFault) -> Seq<char> {
    match fault {
        ObjectFault::MissingHeader => "missing SNENC object header"@,
        ObjectFault::UnsupportedVersion(version) => "unsupported object container version "@
            + decimal(version),
        ObjectFault::UnsupportedFlags => "unsupported object flags"@,
        ObjectFault::OtherVault => "object belongs to a different vault"@,
        ObjectFault::OtherObject => "object identity does not match the manifest"@,
        ObjectFault::UnknownType(code) => "unknown object type "@ + decimal(code),
        ObjectFault::OtherType => "object is not of the expected type"@,
        ObjectFault::ReservedBytes => "reserved header bytes are not zero"@,
        ObjectFault::LengthMismatch => "ciphertext length does not match the container"@,
    }
}

/// The plaintext of an object under a vault's keys and whether it is marked as
/// a note container, where the object is the expected one and authentic.
pub open spec fn object_in(
    keys: KeysView,
    object_type: ObjectType,
    object_id: Uuid,
    blob: Seq<u8>,
) -> Option<(Seq<u8>, bool)> {
    if object_fault(keys.vault_id, object_type, object_id, blob) is Some || blob.len() > 80
        + cipher_limit() + 16 {
        None
    } else {
        match xchacha_open(
            keys.key_for(object_type),
            blob.subrange(56, 80),
            blob.take(80),
            blob.skip(80),
        ) {
            Some(plaintext) => Some((plaintext, be_value(blob.subrange(10, 12)) == 1)),
            None => None,
        }
    }
}

/// The fields of an object header stand where they are looked for.
pub proof fn lemma_object_header_reads_back(
    vault_id: Uuid,
    object_id: Uuid,
    object_type: ObjectType,
    inner_snote: bool,
    nonce: Seq<u8>,
    rest: Seq<u8>,
)
    requires
        nonce.len() == 24,
        rest.len() <= u64::MAX,
    ensures
        ({
            let head = object_header_bytes(
                vault_id,
                object_id,
                object_type,
                inner_snote,
                nonce,
                rest.len(),
            );
            let blob = head + rest;
            &&& head.len() == 80
            &&& blob.take(8) == object_magic()
            &&& be_value(blob.subrange(8, 10)) == 1
            &&& be_value(blob.subrange(10, 12)) == (if inner_snote {
                1nat
            } else {
                0nat
            })
            &&& blob.subrange(12, 28) == vault_id.spec_bytes()
            &&& blob.subrange(28, 44) == object_id.spec_bytes()
            &&& be_value(blob.subrange(44, 46)) == object_type.spec_code()
            &&& be_value(blob.subrange(46, 48)) == 0
            &&& be_value(blob.subrange(48, 56)) == rest.len()
            &&& blob.subrange(56, 80) == nonce
            &&& blob.take(80) == head
            &&& blob.skip(80) == rest
        }),
{
    let head = object_header_bytes(
        vault_id,
        object_id,
        object_type,
        inner_snote,
        nonce,
        rest.len(),
    );
    let blob = head + rest;
    let flags: nat = if inner_snote {
        1
    } else {
        0
    };
    let code = object_type.spec_code() as nat;
    lemma_byte_range_values();
    lemma_be_len(1, 2);
    lemma_be_len(0, 2);
    lemma_be_len(code, 2);
    lemma_be_len(rest.len(), 8);
    lemma_same_bytes(vault_id, vault_id);
    lemma_same_bytes(object_id, object_id);
    lemma_be_round_trip(1, 2);
    lemma_be_round_trip(0, 2);
    lemma_be_round_trip(code, 2);
    lemma_be_round_trip(rest.len(), 8);
    assert(head.len() == 80);
    assert(blob.take(8) =~= object_magic());
    assert(blob.subrange(8, 10) =~= be_bytes(1, 2));
    assert(blob.subrange(10, 12) =~= be_bytes(flags, 2));
    assert(blob.subrange(12, 28) =~= vault_id.spec_bytes());
    assert(blob.subrange(28, 44) =~= object_id.spec_bytes());
    assert(blob.subrange(44, 46) =~= be_bytes(code, 2));
    assert(blob.subrange(46, 48) =~= be_bytes(0, 2));
    assert(blob.subrange(48, 56) =~= be_bytes(rest.len(), 8));
    assert(blob.subrange(56, 80) =~= nonce);
    assert(blob.take(80) =~= head);
    assert(blob.skip(80) =~= rest);
}

/// An object is refused by a vault with another identifier, under another
/// object's identifier and as another type, whatever the keys are.
pub proof fn law_substituted_objects_are_refused(
    vault_id: Uuid,
    object_id: Uuid,
    object_type: ObjectType,
    inner_snote: bool,
    nonce: Seq<u8>,
    rest: Seq<u8>,
    other_keys: KeysView,
    other_type: ObjectType,
    other_id: Uuid,
)
    requires
        nonce.len() == 24,
        rest.len() <= u64::MAX,
        other_keys.vault_id != vault_id || other_id != object_id || other_type != object_type,
    ensures
        ({
            let blob = object_header_bytes(
                vault_id,
                object_id,
                object_type,
                inner_snote,
                nonce,
                rest.len(),
            ) + rest;
            &&& object_in(other_keys, other_type, other_id, blob) is None
            &&& object_fault(other_keys.vault_id, other_type, other_id, blob) == Some(
                if other_keys.vault_id != vault_id {
                    ObjectFault::OtherVault
                } else if other_id != object_id {
                    ObjectFault::OtherObject
                } else {
                    ObjectFault::OtherType
                },
            )
        }),
{
    lemma_object_header_reads_back(vault_id, object_id, object_type, inner_snote, nonce, rest);
    lemma_same_bytes(vault_id, other_keys.vault_id);
    lemma_same_bytes(object_id, other_id);
    law_codes_are_distinct(object_type, other_type);
}

fn object_header(
    vault_id: Uuid,
    object_id: Uuid,
    object_type: ObjectType,
    inner_snote: bool,
    nonce: &[u8; 24],
    ciphertext_len: u64,
) -> (header: Vec<u8>)
    ensures
        header@ == object_header_bytes(
            vault_id,
            object_id,
            object_type,
            inner_snote,
            nonce@,
            ciphertext_len as nat,
        ),
{
    let magic: [u8; 8] = [0x53, 0x4e, 0x45, 0x4e, 0x43, 0, 0, 0];
    let flags: u128 = if inner_snote {
        1
    } else {
        0
    };
    let mut header: Vec<u8> = Vec::new();
    header.extend_from_slice(&magic);
    push_be(&mut header, 1, 2);
    push_be(&mut header, flags, 2);
    vault_id.write(&mut header);
    object_id.write(&mut header);
    push_be(&mut header, object_type.code() as u128, 2);
    push_be(&mut header, 0, 2);
    push_be(&mut header, ciphertext_len as u128, 8);
    header.extend_from_slice(nonce);
    proof {
        assert(magic@ =~= object_magic());
        assert(header@ =~= object_header_bytes(
            vault_id,
            object_id,
            object_type,
            inner_snote,
            nonce@,
            ciphertext_len as nat,
        ));
    }
    header
}

impl VaultKeys {
    /// The identifier of the vault that the keys belong to.
    pub fn vault_id(&self) -> (vault_id: Uuid)
        ensures
            vault_id == self@.vault_id,
    {
        self.vault_id
    }

    fn subkey(&self, object_type: ObjectType) -> (key: &[u8])
        ensures
            key@ == self@.key_for(object_type),
    {
        match object_type {
            ObjectType::Note | ObjectType::InnerSnote => self.content.as_slice(),
            ObjectType::Attachment => self.attachments.as_slice(),
            ObjectType::Manifest => self.names.as_slice(),
            ObjectType::Metadata => self.metadata.as_slice(),
            ObjectType::Index => self.index.as_slice(),
        }
    }

    /// Seals a plaintext under a given nonce.
    pub fn seal_with_nonce(
        &self,
        object_type: ObjectType,
        object_id: Uuid,
        inner_snote: bool,
        plaintext: &[u8],
        nonce: &[u8; 24],
    ) -> (outcome: Result<Vec<u8>>)
        requires
            self@.valid(),
            plaintext@.len() + 16 <= isize::MAX,
        ensures
            match outcome {
                Ok(blob) => {
                    &&& plaintext@.len() <= cipher_limit()
                    &&& blob@ == sealed_object(
                        self@,
                        object_type,
                        object_id,
                        inner_snote,
                        nonce@,
                        plaintext@,
                    )
                    &&& object_in(self@, object_type, object_id, blob@) == Some(
                        (plaintext@, inner_snote),
                    )
                },
                Err(error) => {
                    &&& plaintext@.len() > cipher_limit()
                    &&& is_encryption_error(error, "authenticated encryption failed"@)
                },
            },
    {
        if plaintext.len() as u64 > CIPHER_LIMIT {
            return Err(Error::Encryption("authenticated encryption failed".to_owned()));
        }
        let mut blob = object_header(
            self.vault_id,
            object_id,
            object_type,
            inner_snote,
            nonce,
            (plaintext.len() + 16) as u64,
        );
        let ghost head = blob@;
        match aead_encrypt(self.subkey(object_type), nonce, &blob, plaintext) {
            Ok(ciphertext) => {
                blob.extend_from_slice(&ciphertext);
                proof {
                    assert(blob@ =~= head + ciphertext@);
                    lemma_object_header_reads_back(
                        self@.vault_id,
                        object_id,
                        object_type,
                        inner_snote,
                        nonce@,
                        ciphertext@,
                    );
                    law_codes_are_distinct(object_type, object_type);
                }
                Ok(blob)
            },
            Err(_) => Err(Error::Encryption("authenticated encryption failed".to_owned())),
        }
    }

    /// Seals a plaintext under a fresh random nonce. Opened with the same keys,
    /// type and identifier it gives the plaintext and the mark back.
    pub fn seal(
        &self,
        object_type: ObjectType,
        object_id: Uuid,
        inner_snote: bool,
        plaintext: &[u8],
    ) -> (outcome: Result<Vec<u8>>)
        requires
            self@.valid(),
            plaintext@.len() + 16 <= isize::MAX,
        ensures
            match outcome {
                Ok(blob) => {
                    &&& exists|nonce: Seq<u8>|
                        nonce.len() == 24 && blob@ == #[trigger] sealed_object(
                            self@,
                            object_type,
                            object_id,
                            inner_snote,
                            nonce,
                            plaintext@,
                        )
                    &&& object_in(self@, object_type, object_id, blob@) == Some(
                        (plaintext@, inner_snote),
                    )
                },
                Err(error) => error is Encryption,
            },
    {
        match random_bytes(24) {
            Ok(bytes) => {
                let nonce: [u8; 24] = take_24(&bytes, 0);
                self.seal_with_nonce(object_type, object_id, inner_snote, plaintext, &nonce)
            },
            Err(failure) => Err(Error::Encryption(failure.to_string())),
        }
    }

    /// Opens an object and says whether it is marked as a note container. The
    /// object must be of this vault, of the given type and have the given
    /// identifier; no plaintext is given out unless all of it is authentic.
    pub fn open(&self, object_type: ObjectType, expected_object_id: Uuid, blob: &[u8]) -> (outcome:
        Result<(SecretBytes, bool)>)
        requires
            self@.valid(),
        ensures
            match outcome {
                Ok((plaintext, inner_snote)) => {
                    &&& object_in(self@, object_type, expected_object_id, blob@) == Some(
                        (plaintext@, inner_snote),
                    )
                    &&& plaintext@.len() + 96 == blob@.len()
                },
                Err(error) => {
                    &&& object_in(self@, object_type, expected_object_id, blob@) is None
                    &&& match object_fault(
                        self@.vault_id,
                        object_type,
                        expected_object_id,
                        blob@,
                    ) {
                        Some(fault) => is_invalid_vault(error, object_fault_text(fault)),
                        None => error is DecryptionFailed,
                    }
                },
            },
    {
        let magic: [u8; 8] = [0x53, 0x4e, 0x45, 0x4e, 0x43, 0, 0, 0];
        proof {
            assert(magic@ =~= object_magic());
            lemma_byte_range_values();
        }
        if blob.len() < 80 || !starts_with(blob, &magic) {
            return Err(Error::InvalidEncryptedVault("missing SNENC object header".to_owned()));
        }
        let version: u128 = read_be(blob, 8, 2);
        if version != 1 {
            let mut message: String = "unsupported object container version ".to_owned();
            push_decimal(&mut message, version as u64);
            return Err(Error::InvalidEncryptedVault(message));
        }
        let flags: u128 = read_be(blob, 10, 2);
        if flags > 1 {
            return Err(Error::InvalidEncryptedVault("unsupported object flags".to_owned()));
        }
        let vault_id = Uuid::read(blob, 12);
        proof {
            lemma_same_bytes(vault_id, self.vault_id);
        }
        if vault_id != self.vault_id {
            return Err(
                Error::InvalidEncryptedVault("object belongs to a different vault".to_owned()),
            );
        }
        let object_id = Uuid::read(blob, 28);
        proof {
            lemma_same_bytes(object_id, expected_object_id);
        }
        if object_id != expected_object_id {
            return Err(
                Error::InvalidEncryptedVault(
                    "object identity does not match the manifest".to_owned(),
                ),
            );
        }
        let found = match ObjectType::from_code(read_be(blob, 44, 2) as u16) {
            Ok(found) => found,
            Err(error) => {
                return Err(error);
            },
        };
        proof {
            law_codes_are_distinct(found, object_type);
        }
        if found != object_type {
            return Err(
                Error::InvalidEncryptedVault("object is not of the expected type".to_owned()),
            );
        }
        if read_be(blob, 46, 2) != 0 {
            return Err(
                Error::InvalidEncryptedVault("reserved header bytes are not zero".to_owned()),
            );
        }
        let ciphertext_len: u64 = read_be(blob, 48, 8) as u64;
        let nonce: [u8; 24] = take_24(blob, 56);
        let head: &[u8] = &blob[0..80];
        let ciphertext: &[u8] = &blob[80..blob.len()];
        proof {
            assert(head@ =~= blob@.take(80));
            assert(ciphertext@ =~= blob@.skip(80));
        }
        if ciphertext_len != ciphertext.len() as u64 || ciphertext.len() < 16 {
            return Err(
                Error::InvalidEncryptedVault(
                    "ciphertext length does not match the container".to_owned(),
                ),
            );
        }
        if ciphertext.len() as u64 > CIPHER_LIMIT + 16 {
            return Err(Error::DecryptionFailed);
        }
        match aead_decrypt(self.subkey(object_type), &nonce, head, ciphertext) {
            Ok(plaintext) => Ok((SecretBytes::new(plaintext), flags == 1)),
            Err(_) => Err(Error::DecryptionFailed),
        }
    }
}

// The keyfile.

/// The header of a keyfile.
pub open spec fn keyfile_header_bytes(
    vault_id: Uuid,
    memory_kib: u32,
    iterations: u32,
    lanes: u32,
    salt: Seq<u8>,
    nonce: Seq<u8>,
) -> Seq<u8> {
    keyfile_magic() + be_bytes(1, 2) + be_bytes(0, 2) + vault_id.spec_bytes() + be_bytes(
        memory_kib as nat,
        4,
    ) + be_bytes(iterations as nat, 4) + be_bytes(lanes as nat, 4) + salt + nonce + be_bytes(48, 8)
}

/// The keyfile that wraps a master key under a password.
pub open spec fn wrapped_keyfile(
    vault_id: Uuid,
    master: Seq<u8>,
    password: Seq<u8>,
    salt: Seq<u8>,
    nonce: Seq<u8>,
) -> Seq<u8> {
    let header = keyfile_header_bytes(
        vault_id,
        ARGON2_MEMORY_KIB,
        ARGON2_ITERATIONS,
        ARGON2_LANES,
        salt,
        nonce,
    );
    let key = argon2id(password, salt, ARGON2_MEMORY_KIB, ARGON2_ITERATIONS, ARGON2_LANES);
    header + xchacha_seal(key, nonce, header, master)
}

/// Whether a keyfile wraps a master key under a password with some salt and nonce,
/// and with the parameters of a key derivation that is set up now.
pub open spec fn freshly_wrapped(
    vault_id: Uuid,
    master: Seq<u8>,
    password: Seq<u8>,
    keyfile: Seq<u8>,
) -> bool {
    exists|salt: Seq<u8>, nonce: Seq<u8>|
        salt.len() == 16 && nonce.len() == 24 && keyfile == #[trigger] wrapped_keyfile(
            vault_id,
            master,
            password,
            salt,
            nonce,
        )
}

/// Why a byte string is not the keyfile of a vault.
pub enum KeyfileFault {
    MissingHeader,
    UnsupportedVersion,
    UnsupportedFlags,
    OtherVault,
    KdfOutOfRange,
    LengthMismatch,
}

/// The first fault of a keyfile, in the order in which they are looked for.
pub open spec fn keyfile_fault(vault_id: Uuid, keyfile: Seq<u8>) -> Option<KeyfileFault> {
    if keyfile.len() < 88 || keyfile.take(8) != keyfile_magic() {
        Some(KeyfileFault::MissingHeader)
    } else if be_value(keyfile.subrange(8, 10)) != 1 {
        Some(KeyfileFault::UnsupportedVersion)
    } else if be_value(keyfile.subrange(10, 12)) != 0 {
        Some(KeyfileFault::UnsupportedFlags)
    } else if keyfile.subrange(12, 28) != vault_id.spec_bytes() {
        Some(KeyfileFault::OtherVault)
    } else if !kdf_in_range(
        keyfile_memory(keyfile),
        keyfile_iterations(keyfile),
        keyfile_lanes(keyfile),
    ) {
        Some(KeyfileFault::KdfOutOfRange)
    } else if be_value(keyfile.subrange(80, 88)) != 48 || keyfile.len() != 136 {
        Some(KeyfileFault::LengthMismatch)
    } else {
        None
    }
}

/// The memory in KiB that a keyfile asks for.
pub open spec fn keyfile_memory(keyfile: Seq<u8>) -> u32 {
    be_value(keyfile.subrange(28, 32)) as u32
}

/// The passes that a keyfile asks for.
pub open spec fn keyfile_iterations(keyfile: Seq<u8>) -> u32 {
    be_value(keyfile.subrange(32, 36)) as u32
}

/// The lanes that a keyfile asks for.
pub open spec fn keyfile_lanes(keyfile: Seq<u8>) -> u32 {
    be_value(keyfile.subrange(36, 40)) as u32
}

/// Whether an error is that of a fault. The keyfile of another vault is told from
/// the others; a header that was tampered with is refused as a wrong password is.
pub open spec fn is_keyfile_error(error: Error, fault: KeyfileFault) -> bool {
    match fault {
        KeyfileFault::OtherVault => is_invalid_vault(error, "keyfile is for a different vault"@),
        _ => error is DecryptionFailed,
    }
}

/// The wrapping key that a password gives for a keyfile.
pub open spec fn wrapping_key(keyfile: Seq<u8>, password: Seq<u8>) -> Seq<u8> {
    argon2id(
        password,
        keyfile.subrange(40, 56),
        keyfile_memory(keyfile),
        keyfile_iterations(keyfile),
        keyfile_lanes(keyfile),
    )
}

/// The master key that a password unwraps from a keyfile.
pub open spec fn master_in(vault_id: Uuid, keyfile: Seq<u8>, password: Seq<u8>) -> Option<Seq<u8>> {
    if keyfile_fault(vault_id, keyfile) is Some {
        None
    } else {
        xchacha_open(
            wrapping_key(keyfile, password),
            keyfile.subrange(56, 80),
            keyfile.take(88),
            keyfile.skip(88),
        )
    }
}

/// A keyfile header is eighty-eight bytes long and its fields stand where they
/// are looked for.
pub proof fn lemma_keyfile_reads_back(
    vault_id: Uuid,
    memory_kib: u32,
    iterations: u32,
    lanes: u32,
    salt: Seq<u8>,
    nonce: Seq<u8>,
    rest: Seq<u8>,
)
    requires
        kdf_in_range(memory_kib, iterations, lanes),
        salt.len() == 16,
        nonce.len() == 24,
        rest.len() == 48,
    ensures
        ({
            let head = keyfile_header_bytes(vault_id, memory_kib, iterations, lanes, salt, nonce);
            let keyfile = head + rest;
            &&& head.len() == 88
            &&& keyfile_fault(vault_id, keyfile) is None
            &&& keyfile_memory(keyfile) == memory_kib
            &&& keyfile_iterations(keyfile) == iterations
            &&& keyfile_lanes(keyfile) == lanes
            &&& keyfile.subrange(12, 28) == vault_id.spec_bytes()
            &&& keyfile.subrange(40, 56) == salt
            &&& keyfile.subrange(56, 80) == nonce
            &&& keyfile.take(88) == head
            &&& keyfile.skip(88) == rest
        }),
{
    let head = keyfile_header_bytes(vault_id, memory_kib, iterations, lanes, salt, nonce);
    let keyfile = head + rest;
    lemma_byte_range_values();
    lemma_be_len(1, 2);
    lemma_be_len(0, 2);
    lemma_be_len(memory_kib as nat, 4);
    lemma_be_len(iterations as nat, 4);
    lemma_be_len(lanes as nat, 4);
    lemma_be_len(48, 8);
    lemma_same_bytes(vault_id, vault_id);
    lemma_be_round_trip(1, 2);
    lemma_be_round_trip(0, 2);
    lemma_be_round_trip(memory_kib as nat, 4);
    lemma_be_round_trip(iterations as nat, 4);
    lemma_be_round_trip(lanes as nat, 4);
    lemma_be_round_trip(48, 8);
    assert(head.len() == 88);
    assert(keyfile.take(8) =~= keyfile_magic());
    assert(keyfile.subrange(8, 10) =~= be_bytes(1, 2));
    assert(keyfile.subrange(10, 12) =~= be_bytes(0, 2));
    assert(keyfile.subrange(12, 28) =~= vault_id.spec_bytes());
    assert(keyfile.subrange(28, 32) =~= be_bytes(memory_kib as nat, 4));
    assert(keyfile.subrange(32, 36) =~= be_bytes(iterations as nat, 4));
    assert(keyfile.subrange(36, 40) =~= be_bytes(lanes as nat, 4));
    assert(keyfile.subrange(40, 56) =~= salt);
    assert(keyfile.subrange(56, 80) =~= nonce);
    assert(keyfile.subrange(80, 88) =~= be_bytes(48, 8));
    assert(keyfile.take(88) =~= head);
    assert(keyfile.skip(88) =~= rest);
}

/// A keyfile is refused by every other vault.
pub proof fn law_keyfile_of_another_vault_is_refused(
    vault_id: Uuid,
    other: Uuid,
    master: Seq<u8>,
    password: Seq<u8>,
    salt: Seq<u8>,
    nonce: Seq<u8>,
    other_password: Seq<u8>,
)
    requires
        vault_id != other,
        salt.len() == 16,
        nonce.len() == 24,
        wrapped_keyfile(vault_id, master, password, salt, nonce).len() == 136,
    ensures
        ({
            let keyfile = wrapped_keyfile(vault_id, master, password, salt, nonce);
            &&& keyfile_fault(other, keyfile) == Some(KeyfileFault::OtherVault)
            &&& master_in(other, keyfile, other_password) is None
        }),
{
    let keyfile = wrapped_keyfile(vault_id, master, password, salt, nonce);
    let head = keyfile_header_bytes(
        vault_id,
        ARGON2_MEMORY_KIB,
        ARGON2_ITERATIONS,
        ARGON2_LANES,
        salt,
        nonce,
    );
    let key = argon2id(password, salt, ARGON2_MEMORY_KIB, ARGON2_ITERATIONS, ARGON2_LANES);
    let rest = xchacha_seal(key, nonce, head, master);
    lemma_be_len(1, 2);
    lemma_be_len(0, 2);
    lemma_be_len(ARGON2_MEMORY_KIB as nat, 4);
    lemma_be_len(ARGON2_ITERATIONS as nat, 4);
    lemma_be_len(ARGON2_LANES as nat, 4);
    lemma_be_len(48, 8);
    lemma_same_bytes(vault_id, other);
    assert(head.len() == 88);
    assert(rest.len() == 48);
    lemma_keyfile_reads_back(
        vault_id,
        ARGON2_MEMORY_KIB,
        ARGON2_ITERATIONS,
        ARGON2_LANES,
        salt,
        nonce,
        rest,
    );
}

/// Every object that was sealed before the password was changed is read as before:
/// the keys that the new keyfile gives under the new password are those that the
/// old one gave under the old password.
pub proof fn law_rewrapping_keeps_every_object(
    vault_id: Uuid,
    keyfile: Seq<u8>,
    rewrapped: Seq<u8>,
    old_password: Seq<u8>,
    new_password: Seq<u8>,
    object_type: ObjectType,
    object_id: Uuid,
    blob: Seq<u8>,
)
    requires
        master_in(vault_id, keyfile, old_password) is Some,
        master_in(vault_id, rewrapped, new_password) == master_in(vault_id, keyfile, old_password),
    ensures
        ({
            let before = subkeys(vault_id, master_in(vault_id, keyfile, old_password)->Some_0);
            let after = subkeys(vault_id, master_in(vault_id, rewrapped, new_password)->Some_0);
            &&& after == before
            &&& object_in(after, object_type, object_id, blob) == object_in(
                before,
                object_type,
                object_id,
                blob,
            )
        }),
{
}

/// The parts of a keyfile's header that unwrapping needs.
struct KeyfileParts {
    salt: [u8; 16],
    memory_kib: u32,
    iterations: u32,
    lanes: u32,
    nonce: [u8; 24],
}

fn inspect_keyfile(keyfile: &[u8], vault_id: Uuid) -> (outcome: Result<KeyfileParts>)
    ensures
        match outcome {
            Ok(parts) => {
                &&& keyfile_fault(vault_id, keyfile@) is None
                &&& parts.salt@ == keyfile@.subrange(40, 56)
                &&& parts.memory_kib == keyfile_memory(keyfile@)
                &&& parts.iterations == keyfile_iterations(keyfile@)
                &&& parts.lanes == keyfile_lanes(keyfile@)
                &&& parts.nonce@ == keyfile@.subrange(56, 80)
            },
            Err(error) => keyfile_fault(vault_id, keyfile@) matches Some(fault)
                && is_keyfile_error(error, fault),
        },
{
    let magic: [u8; 8] = [0x53, 0x4e, 0x56, 0x4c, 0x54, 0, 0, 0];
    proof {
        assert(magic@ =~= keyfile_magic());
        lemma_byte_range_values();
    }
    if keyfile.len() < 88 || !starts_with(keyfile, &magic) {
        return Err(Error::DecryptionFailed);
    }
    if read_be(keyfile, 8, 2) != 1 || read_be(keyfile, 10, 2) != 0 {
        return Err(Error::DecryptionFailed);
    }
    let found = Uuid::read(keyfile, 12);
    proof {
        lemma_same_bytes(found, vault_id);
    }
    if found != vault_id {
        return Err(Error::InvalidEncryptedVault("keyfile is for a different vault".to_owned()));
    }
    let memory_kib: u32 = read_be(keyfile, 28, 4) as u32;
    let iterations: u32 = read_be(keyfile, 32, 4) as u32;
    let lanes: u32 = read_be(keyfile, 36, 4) as u32;
    if let Err(_) = validate_kdf_parameters(memory_kib, iterations, lanes) {
        return Err(Error::DecryptionFailed);
    }
    let salt: [u8; 16] = take_16(keyfile, 40);
    let nonce: [u8; 24] = take_24(keyfile, 56);
    if read_be(keyfile, 80, 8) != 48 || keyfile.len() != 136 {
        return Err(Error::DecryptionFailed);
    }
    Ok(KeyfileParts { salt, memory_kib, iterations, lanes, nonce })
}

/// The master key that a password unwraps, or the reason that it does not.
fn unwrap_master(keyfile: &[u8], vault_id: Uuid, password: &str) -> (outcome: Result<SecretBytes>)
    ensures
        match outcome {
            Ok(master) => {
                &&& encode_utf8(password@).len() <= 0xffff_ffff
                &&& master_in(vault_id, keyfile@, encode_utf8(password@)) == Some(master@)
                &&& master@.len() == 32
            },
            Err(error) => unwrap_fails(vault_id, keyfile@, encode_utf8(password@), error),
        },
{
    let parts = match inspect_keyfile(keyfile, vault_id) {
        Ok(parts) => parts,
        Err(error) => {
            return Err(error);
        },
    };
    let key = match derive_key(
        password,
        &parts.salt,
        parts.memory_kib,
        parts.iterations,
        parts.lanes,
    ) {
        Ok(key) => key,
        Err(error) => {
            return Err(error);
        },
    };
    let head: &[u8] = &keyfile[0..88];
    let wrapped: &[u8] = &keyfile[88..keyfile.len()];
    proof {
        assert(head@ =~= keyfile@.take(88));
        assert(wrapped@ =~= keyfile@.skip(88));
    }
    match aead_decrypt(key.as_slice(), &parts.nonce, head, wrapped) {
        Ok(master) => Ok(SecretBytes::new(master)),
        Err(_) => Err(Error::DecryptionFailed),
    }
}

/// When and with which error unwrapping a keyfile fails.
pub open spec fn unwrap_fails(
    vault_id: Uuid,
    keyfile: Seq<u8>,
    password: Seq<u8>,
    error: Error,
) -> bool {
    match keyfile_fault(vault_id, keyfile) {
        Some(fault) => is_keyfile_error(error, fault),
        None => if password.len() > 0xffff_ffff {
            error is Encryption
        } else {
            error is DecryptionFailed && master_in(vault_id, keyfile, password) is None
        },
    }
}

/// Wraps a master key under a password, with a given salt and nonce.
pub fn wrap_master_with(
    vault_id: Uuid,
    master: &SecretBytes,
    password: &str,
    salt: &[u8; 16],
    nonce: &[u8; 24],
) -> (outcome: Result<Vec<u8>>)
    requires
        master@.len() == 32,
    ensures
        match outcome {
            Ok(keyfile) => {
                &&& encode_utf8(password@).len() <= 0xffff_ffff
                &&& keyfile@ == wrapped_keyfile(
                    vault_id,
                    master@,
                    encode_utf8(password@),
                    salt@,
                    nonce@,
                )
                &&& keyfile@.len() == 136
                &&& master_in(vault_id, keyfile@, encode_utf8(password@)) == Some(master@)
            },
            Err(error) => encode_utf8(password@).len() > 0xffff_ffff && error is Encryption,
        },
{
    let magic: [u8; 8] = [0x53, 0x4e, 0x56, 0x4c, 0x54, 0, 0, 0];
    let mut keyfile: Vec<u8> = Vec::new();
    keyfile.extend_from_slice(&magic);
    push_be(&mut keyfile, 1, 2);
    push_be(&mut keyfile, 0, 2);
    vault_id.write(&mut keyfile);
    push_be(&mut keyfile, ARGON2_MEMORY_KIB as u128, 4);
    push_be(&mut keyfile, ARGON2_ITERATIONS as u128, 4);
    push_be(&mut keyfile, ARGON2_LANES as u128, 4);
    keyfile.extend_from_slice(salt);
    keyfile.extend_from_slice(nonce);
    push_be(&mut keyfile, 48, 8);
    let ghost head = keyfile@;
    proof {
        assert(magic@ =~= keyfile_magic());
        assert(head =~= keyfile_header_bytes(
            vault_id,
            ARGON2_MEMORY_KIB,
            ARGON2_ITERATIONS,
            ARGON2_LANES,
            salt@,
            nonce@,
        ));
    }
    let key = match derive_key(password, salt, ARGON2_MEMORY_KIB, ARGON2_ITERATIONS, ARGON2_LANES) {
        Ok(key) => key,
        Err(error) => {
            return Err(error);
        },
    };
    match aead_encrypt(key.as_slice(), nonce, &keyfile, master.as_slice()) {
        Ok(wrapped) => {
            keyfile.extend_from_slice(&wrapped);
            proof {
                assert(keyfile@ =~= head + wrapped@);
                lemma_keyfile_reads_back(
                    vault_id,
                    ARGON2_MEMORY_KIB,
                    ARGON2_ITERATIONS,
                    ARGON2_LANES,
                    salt@,
                    nonce@,
                    wrapped@,
                );
            }
            Ok(keyfile)
        },
        Err(_) => Err(Error::Encryption("VMK wrap failed".to_owned())),
    }
}

/// A salt and a nonce, drawn anew. Which bytes they hold is left to chance, and so
/// is whether they can be drawn; what is made of them, `wrap_master_with` says.
fn draw_salt_and_nonce() -> (outcome: Result<([u8; 16], [u8; 24])>)
    ensures
        outcome matches Err(error) ==> error is Encryption,
{
    let salt: [u8; 16] = match random_bytes(16) {
        Ok(bytes) => take_16(&bytes, 0),
        Err(failure) => {
            return Err(Error::Encryption(failure.to_string()));
        },
    };
    match random_bytes(24) {
        Ok(bytes) => Ok((salt, take_24(&bytes, 0))),
        Err(failure) => Err(Error::Encryption(failure.to_string())),
    }
}

fn subkey_for(vault_id: Uuid, master: &SecretBytes, label: &str) -> (outcome: Result<SecretBytes>)
    ensures
        outcome is Ok,
        outcome matches Ok(key) ==> key@.len() == 32 && key@ == hkdf_sha256(
            vault_id.spec_bytes(),
            master@,
            encode_utf8(label@),
        ),
{
    let mut salt: Vec<u8> = Vec::new();
    vault_id.write(&mut salt);
    proof {
        assert(salt@ =~= vault_id.spec_bytes());
    }
    match hkdf_key(&salt, master.as_slice(), label.as_bytes()) {
        Ok(key) => Ok(SecretBytes::new(key)),
        Err(_) => Err(Error::Encryption("HKDF expand failed".to_owned())),
    }
}

/// The subkeys of a vault under a master key.
fn expand_keys(vault_id: Uuid, master: &SecretBytes) -> (outcome: Result<VaultKeys>)
    ensures
        outcome is Ok,
        outcome matches Ok(keys) ==> keys@ == subkeys(vault_id, master@) && keys@.valid(),
{
    let content = subkey_for(vault_id, master, HKDF_LABEL_CONTENT)?;
    let names = subkey_for(vault_id, master, HKDF_LABEL_NAMES)?;
    let attachments = subkey_for(vault_id, master, HKDF_LABEL_ATTACHMENTS)?;
    let metadata = subkey_for(vault_id, master, HKDF_LABEL_METADATA)?;
    let index = subkey_for(vault_id, master, HKDF_LABEL_INDEX)?;
    Ok(VaultKeys { vault_id, content, names, attachments, metadata, index })
}

/// The keyfile and the keys of a vault with a given master key, salt and nonce.
pub fn create_keyfile_with(
    vault_id: Uuid,
    password: &str,
    master: &SecretBytes,
    salt: &[u8; 16],
    nonce: &[u8; 24],
) -> (outcome: Result<(Vec<u8>, VaultKeys)>)
    requires
        master@.len() == 32,
    ensures
        match outcome {
            Ok((keyfile, keys)) => {
                &&& encode_utf8(password@).len() <= 0xffff_ffff
                &&& keys@.valid()
                &&& keys@ == subkeys(vault_id, master@)
                &&& keyfile@ == wrapped_keyfile(
                    vault_id,
                    master@,
                    encode_utf8(password@),
                    salt@,
                    nonce@,
                )
                &&& master_in(vault_id, keyfile@, encode_utf8(password@)) == Some(master@)
            },
            Err(error) => encode_utf8(password@).len() > 0xffff_ffff && error is Encryption,
        },
{
    match wrap_master_with(vault_id, master, password, salt, nonce) {
        Ok(keyfile) => match expand_keys(vault_id, master) {
            Ok(keys) => Ok((keyfile, keys)),
            Err(error) => Err(error),
        },
        Err(error) => Err(error),
    }
}

/// A keyfile with a fresh random master key and the keys that it gives. The
/// same password opens the keyfile to the same keys.
pub fn create_keyfile(vault_id: Uuid, password: &str) -> (outcome: Result<(Vec<u8>, VaultKeys)>)
    ensures
        match outcome {
            Ok((keyfile, keys)) => {
                &&& encode_utf8(password@).len() <= 0xffff_ffff
                &&& keys@.valid()
                &&& master_in(vault_id, keyfile@, encode_utf8(password@)) matches Some(master)
                &&& keys@ == subkeys(vault_id, master)
                &&& freshly_wrapped(vault_id, master, encode_utf8(password@), keyfile@)
            },
            Err(error) => error is Encryption,
        },
{
    let master = match random_bytes(32) {
        Ok(bytes) => SecretBytes::new(bytes),
        Err(failure) => {
            return Err(Error::Encryption(failure.to_string()));
        },
    };
    match draw_salt_and_nonce() {
        Ok((salt, nonce)) => {
            proof {
                assert(salt@.len() == 16 && nonce@.len() == 24);
            }
            create_keyfile_with(vault_id, password, &master, &salt, &nonce)
        },
        Err(error) => Err(error),
    }
}

/// The keys that a password unwraps from a keyfile. A wrong password, a header
/// that was tampered with and a wrapped key that was tampered with fail alike, and
/// give no key material; the keyfile of another vault is told apart.
pub fn open_keyfile(keyfile: &[u8], vault_id: Uuid, password: &str) -> (outcome: Result<VaultKeys>)
    ensures
        match outcome {
            Ok(keys) => {
                &&& keys@.valid()
                &&& encode_utf8(password@).len() <= 0xffff_ffff
                &&& master_in(vault_id, keyfile@, encode_utf8(password@)) matches Some(master)
                &&& keys@ == subkeys(vault_id, master)
            },
            Err(error) => unwrap_fails(vault_id, keyfile@, encode_utf8(password@), error),
        },
{
    match unwrap_master(keyfile, vault_id, password) {
        Ok(master) => expand_keys(vault_id, &master),
        Err(error) => Err(error),
    }
}

/// Wraps the master key of a keyfile under a new password, with a fresh salt
/// and nonce. The old password is checked first. The master key, and with it
/// every subkey, stays the same, so that no object has to be sealed again.
pub fn rewrap_keyfile(
    keyfile: &[u8],
    vault_id: Uuid,
    old_password: &str,
    new_password: &str,
) -> (outcome: Result<Vec<u8>>)
    ensures
        match outcome {
            Ok(rewrapped) => {
                &&& encode_utf8(old_password@).len() <= 0xffff_ffff
                &&& encode_utf8(new_password@).len() <= 0xffff_ffff
                &&& master_in(vault_id, keyfile@, encode_utf8(old_password@)) matches Some(master)
                &&& master_in(vault_id, rewrapped@, encode_utf8(new_password@)) == Some(master)
                &&& freshly_wrapped(vault_id, master, encode_utf8(new_password@), rewrapped@)
            },
            Err(error) => {
                ||| unwrap_fails(vault_id, keyfile@, encode_utf8(old_password@), error)
                ||| error is Encryption && master_in(
                    vault_id,
                    keyfile@,
                    encode_utf8(old_password@),
                ) is Some
            },
        },
{
    let master = match unwrap_master(keyfile, vault_id, old_password) {
        Ok(master) => master,
        Err(error) => {
            return Err(error);
        },
    };
    match draw_salt_and_nonce() {
        Ok((salt, nonce)) => {
            proof {
                assert(salt@.len() == 16 && nonce@.len() == 24);
            }
            wrap_master_with(vault_id, &master, new_password, &salt, &nonce)
        },
        Err(error) => Err(error),
    }
}

} // verus!
