//! The container of a note that is encrypted under its own password.
//!
//! The clear header holds the format, the key derivation parameters and the
//! note's identifier, and is the associated data of the authenticated
//! ciphertext behind it.

use vstd::prelude::*;
use vstd::utf8::encode_utf8;

use crate::bytes::{
    be_bytes, be_value, lemma_be_len, lemma_be_round_trip, lemma_byte_range_values, push_be,
    read_be, starts_with, take_16, take_24,
};
use crate::crypto::primitives::{
    aead_decrypt, aead_encrypt, argon2id, argon2id_key, cipher_limit, random_bytes, xchacha_open,
    xchacha_seal, SecretBytes, CIPHER_LIMIT,
};
use crate::error::{Error, Result};
use crate::ident::{lemma_same_bytes, Uuid};
use crate::model::{Note, NoteMetadata};
use crate::text::{decimal, push_decimal};

verus! {

/// The memory of the key derivation in KiB: 64 MiB.
pub const ARGON2_MEMORY_KIB: u32 = 65_536;

/// The passes of the key derivation.
pub const ARGON2_ITERATIONS: u32 = 3;

/// The lanes of the key derivation.
pub const ARGON2_LANES: u32 = 1;

/// The first eight bytes of a container: `SNOTE` and three zeros.
pub open spec fn note_magic() -> Seq<u8> {
    seq![0x53u8, 0x4e, 0x4f, 0x54, 0x45, 0, 0, 0]
}

/// The clear header of an encrypted note.
#[derive(Clone, Copy, Debug, PartialEq, Eq)]
pub struct EncryptedHeader {
    pub note_id: Uuid,
    pub memory_kib: u32,
    pub iterations: u32,
    pub lanes: u32,
    pub salt: [u8; 16],
    pub nonce: [u8; 24],
    pub ciphertext_len: u64,
}

/// What a header says, with its salt and nonce as sequences.
#[verifier::ext_equal]
pub struct HeaderView {
    pub note_id: Uuid,
    pub memory_kib: u32,
    pub iterations: u32,
    pub lanes: u32,
    pub salt: Seq<u8>,
    pub nonce: Seq<u8>,
    pub ciphertext_len: u64,
}

impl View for EncryptedHeader {
    type V = HeaderView;

    open spec fn view(&self) -> HeaderView {
        HeaderView {
            note_id: self.note_id,
            memory_kib: self.memory_kib,
            iterations: self.iterations,
            lanes: self.lanes,
            salt: self.salt@,
            nonce: self.nonce@,
            ciphertext_len: self.ciphertext_len,
        }
    }
}

/// The key of an unlocked note and the parameters it was derived with. The key
/// is overwritten when the session is dropped.
pub struct EncryptedSession {
    key: SecretBytes,
    salt: [u8; 16],
    memory_kib: u32,
    iterations: u32,
    lanes: u32,
}

/// What a session holds.
#[verifier::ext_equal]
pub struct SessionView {
    pub key: Seq<u8>,
    pub salt: Seq<u8>,
    pub memory_kib: u32,
    pub iterations: u32,
    pub lanes: u32,
}

impl View for EncryptedSession {
    type V = SessionView;

    closed spec fn view(&self) -> SessionView {
        SessionView {
            key: self.key@,
            salt: self.salt@,
            memory_kib: self.memory_kib,
            iterations: self.iterations,
            lanes: self.lanes,
        }
    }
}

impl SessionView {
    /// A key of thirty-two bytes, a salt of sixteen, parameters within the limits.
    pub open spec fn valid(self) -> bool {
        &&& self.key.len() == 32
        &&& self.salt.len() == 16
        &&& kdf_in_range(self.memory_kib, self.iterations, self.lanes)
    }
}

impl EncryptedSession {
    /// The parameters that the session's key was derived with: memory in KiB, passes, lanes.
    pub fn parameters(&self) -> (parameters: (u32, u32, u32))
        ensures
            parameters == (self@.memory_kib, self@.iterations, self@.lanes),
    {
        (self.memory_kib, self.iterations, self.lanes)
    }
}

/// The limits on key derivation work that a container may ask for.
pub open spec fn kdf_in_range(memory_kib: u32, iterations: u32, lanes: u32) -> bool {
    &&& 8 * 1024 <= memory_kib <= 1_048_576
    &&& 1 <= iterations <= 10
    &&& 1 <= lanes <= 16
}

/// Refuses parameters that ask for unreasonable work, before any of it is done.
pub fn validate_kdf_parameters(memory_kib: u32, iterations: u32, lanes: u32) -> (outcome: Result<()>)
    ensures
        outcome is Ok <==> kdf_in_range(memory_kib, iterations, lanes),
        outcome matches Err(error) ==> is_invalid_note(error, kdf_text()),
{
    if memory_kib < 8 * 1024 || memory_kib > 1_048_576 || iterations < 1 || iterations > 10
        || lanes < 1 || lanes > 16 {
        return Err(
            Error::InvalidEncryptedNote(
                "KDF parameters are outside supported safety limits".to_owned(),
            ),
        );
    }
    Ok(())
}

pub open spec fn kdf_text() -> Seq<char> {
    "KDF parameters are outside supported safety limits"@
}

/// An `InvalidEncryptedNote` error with this text.
pub open spec fn is_invalid_note(error: Error, text: Seq<char>) -> bool {
    error matches Error::InvalidEncryptedNote(message) && message@ == text
}

/// An `Encryption` error with this text.
pub open spec fn is_encryption_error(error: Error, text: Seq<char>) -> bool {
    error matches Error::Encryption(message) && message@ == text
}

/// The key for a password, or the reason that there is none.
pub fn derive_key(
    password: &str,
    salt: &[u8; 16],
    memory_kib: u32,
    iterations: u32,
    lanes: u32,
) -> (outcome: Result<SecretBytes>)
    ensures
        match outcome {
            Ok(key) => {
                &&& kdf_in_range(memory_kib, iterations, lanes)
                &&& encode_utf8(password@).len() <= 0xffff_ffff
                &&& key@.len() == 32
                &&& key@ == argon2id(encode_utf8(password@), salt@, memory_kib, iterations, lanes)
            },
            Err(error) => if kdf_in_range(memory_kib, iterations, lanes) {
                encode_utf8(password@).len() > 0xffff_ffff && error is Encryption
            } else {
                is_invalid_note(error, kdf_text())
            },
        },
{
    if let Err(error) = validate_kdf_parameters(memory_kib, iterations, lanes) {
        return Err(error);
    }
    match argon2id_key(password.as_bytes(), salt, memory_kib, iterations, lanes) {
        Ok(key) => Ok(SecretBytes::new(key)),
        Err(failure) => Err(Error::Encryption(failure.to_string())),
    }
}

/// The bytes of a header.
pub open spec fn header_bytes(header: HeaderView) -> Seq<u8> {
    note_magic() + be_bytes(1, 2) + be_bytes(0, 2) + header.note_id.spec_bytes() + be_bytes(
        header.memory_kib as nat,
        4,
    ) + be_bytes(header.iterations as nat, 4) + be_bytes(header.lanes as nat, 4) + header.salt
        + header.nonce + be_bytes(header.ciphertext_len as nat, 8)
}

/// Why a byte string is no encrypted note.
pub enum NoteFault {
    MissingHeader,
    UnsupportedVersion(nat),
    UnsupportedFlags,
    KdfOutOfRange,
    LengthMismatch,
}

/// The first fault of a container, in the order in which they are looked for.
pub open spec fn note_fault(container: Seq<u8>) -> Option<NoteFault> {
    if container.len() < 88 || container.take(8) != note_magic() {
        Some(NoteFault::MissingHeader)
    } else if be_value(container.subrange(8, 10)) != 1 {
        Some(NoteFault::UnsupportedVersion(be_value(container.subrange(8, 10))))
    } else if be_value(container.subrange(10, 12)) != 0 {
        Some(NoteFault::UnsupportedFlags)
    } else if !kdf_in_range(
        be_value(container.subrange(28, 32)) as u32,
        be_value(container.subrange(32, 36)) as u32,
        be_value(container.subrange(36, 40)) as u32,
    ) {
        Some(NoteFault::KdfOutOfRange)
    } else if be_value(container.subrange(80, 88)) != container.len() - 88 || container.len() - 88
        < 16 {
        Some(NoteFault::LengthMismatch)
    } else {
        None
    }
}

/// What the error of a fault says.
pub open spec fn note_fault_text(fault: NoteFault) -> Seq<char> {
    match fault {
        NoteFault::MissingHeader => "missing SenatorialNotes encrypted-note header"@,
        NoteFault::UnsupportedVersion(version) => "unsupported format version "@ + decimal(version),
        NoteFault::UnsupportedFlags => "unsupported encrypted-note flags"@,
        NoteFault::KdfOutOfRange => kdf_text(),
        NoteFault::LengthMismatch => "ciphertext length does not match the container"@,
    }
}

/// The header that a container starts with.
pub open spec fn header_in(container: Seq<u8>) -> HeaderView {
    HeaderView {
        note_id: Uuid { value: be_value(container.subrange(12, 28)) as u128 },
        memory_kib: be_value(container.subrange(28, 32)) as u32,
        iterations: be_value(container.subrange(32, 36)) as u32,
        lanes: be_value(container.subrange(36, 40)) as u32,
        salt: container.subrange(40, 56),
        nonce: container.subrange(56, 80),
        ciphertext_len: be_value(container.subrange(80, 88)) as u64,
    }
}

/// The payload of a container under a key, where the container is well formed
/// and its ciphertext authentic.
pub open spec fn payload_in(container: Seq<u8>, key: Seq<u8>) -> Option<Seq<u8>> {
    if note_fault(container) is Some || container.len() > 88 + cipher_limit() + 16 {
        None
    } else {
        xchacha_open(key, header_in(container).nonce, container.take(88), container.skip(88))
    }
}

/// The key that a password gives for a container.
pub open spec fn container_key(container: Seq<u8>, password: Seq<u8>) -> Seq<u8> {
    let header = header_in(container);
    argon2id(password, header.salt, header.memory_kib, header.iterations, header.lanes)
}

/// The header that a session puts before a payload.
pub open spec fn session_header(
    note_id: Uuid,
    session: SessionView,
    nonce: Seq<u8>,
    payload_len: nat,
) -> HeaderView {
    HeaderView {
        note_id,
        memory_kib: session.memory_kib,
        iterations: session.iterations,
        lanes: session.lanes,
        salt: session.salt,
        nonce,
        ciphertext_len: (payload_len + 16) as u64,
    }
}

/// The container of a payload.
pub open spec fn note_container(
    note_id: Uuid,
    session: SessionView,
    nonce: Seq<u8>,
    payload: Seq<u8>,
) -> Seq<u8> {
    let header = header_bytes(session_header(note_id, session, nonce, payload.len()));
    header + xchacha_seal(session.key, nonce, header, payload)
}

/// A header is eighty-eight bytes long, and reading it from the front of a
/// container of the announced length finds no fault and gives it back.
pub proof fn lemma_header_reads_back(header: HeaderView, rest: Seq<u8>)
    requires
        header.salt.len() == 16,
        header.nonce.len() == 24,
        kdf_in_range(header.memory_kib, header.iterations, header.lanes),
        header.ciphertext_len == rest.len(),
        rest.len() >= 16,
    ensures
        header_bytes(header).len() == 88,
        note_fault(header_bytes(header) + rest) is None,
        header_in(header_bytes(header) + rest) == header,
        (header_bytes(header) + rest).take(88) == header_bytes(header),
        (header_bytes(header) + rest).skip(88) == rest,
{
    let head = header_bytes(header);
    let container = head + rest;
    lemma_be_len(1, 2);
    lemma_be_len(0, 2);
    lemma_same_bytes(header.note_id, header.note_id);
    lemma_be_len(header.memory_kib as nat, 4);
    lemma_be_len(header.iterations as nat, 4);
    lemma_be_len(header.lanes as nat, 4);
    lemma_be_len(header.ciphertext_len as nat, 8);
    assert(head.len() == 88);
    lemma_byte_range_values();
    lemma_be_round_trip(1, 2);
    lemma_be_round_trip(0, 2);
    lemma_be_round_trip(header.note_id.value as nat, 16);
    lemma_be_round_trip(header.memory_kib as nat, 4);
    lemma_be_round_trip(header.iterations as nat, 4);
    lemma_be_round_trip(header.lanes as nat, 4);
    lemma_be_round_trip(header.ciphertext_len as nat, 8);
    assert(container.take(8) =~= note_magic());
    assert(container.subrange(8, 10) =~= be_bytes(1, 2));
    assert(container.subrange(10, 12) =~= be_bytes(0, 2));
    assert(container.subrange(12, 28) =~= header.note_id.spec_bytes());
    assert(container.subrange(28, 32) =~= be_bytes(header.memory_kib as nat, 4));
    assert(container.subrange(32, 36) =~= be_bytes(header.iterations as nat, 4));
    assert(container.subrange(36, 40) =~= be_bytes(header.lanes as nat, 4));
    assert(container.subrange(40, 56) =~= header.salt);
    assert(container.subrange(56, 80) =~= header.nonce);
    assert(container.subrange(80, 88) =~= be_bytes(header.ciphertext_len as nat, 8));
    assert(container.take(88) =~= head);
    assert(container.skip(88) =~= rest);
    assert(header_in(container) =~= header);
}

fn encode_header(header: &EncryptedHeader) -> (bytes: Vec<u8>)
    ensures
        bytes@ == header_bytes(header@),
{
    let magic: [u8; 8] = [0x53, 0x4e, 0x4f, 0x54, 0x45, 0, 0, 0];
    let mut bytes: Vec<u8> = Vec::new();
    bytes.extend_from_slice(&magic);
    push_be(&mut bytes, 1, 2);
    push_be(&mut bytes, 0, 2);
    header.note_id.write(&mut bytes);
    push_be(&mut bytes, header.memory_kib as u128, 4);
    push_be(&mut bytes, header.iterations as u128, 4);
    push_be(&mut bytes, header.lanes as u128, 4);
    bytes.extend_from_slice(&header.salt);
    bytes.extend_from_slice(&header.nonce);
    push_be(&mut bytes, header.ciphertext_len as u128, 8);
    proof {
        assert(magic@ =~= note_magic());
        assert(bytes@ =~= header_bytes(header@));
    }
    bytes
}

/// The header of a container, or its first fault.
pub fn inspect_header(container: &[u8]) -> (outcome: Result<EncryptedHeader>)
    ensures
        match outcome {
            Ok(header) => note_fault(container@) is None && header@ == header_in(container@),
            Err(error) => note_fault(container@) matches Some(fault) && is_invalid_note(
                error,
                note_fault_text(fault),
            ),
        },
{
    let magic: [u8; 8] = [0x53, 0x4e, 0x4f, 0x54, 0x45, 0, 0, 0];
    proof {
        assert(magic@ =~= note_magic());
    }
    if container.len() < 88 || !starts_with(container, &magic) {
        return Err(
            Error::InvalidEncryptedNote("missing SenatorialNotes encrypted-note header".to_owned()),
        );
    }
    proof {
        lemma_byte_range_values();
    }
    let version: u128 = read_be(container, 8, 2);
    if version != 1 {
        let mut message: String = "unsupported format version ".to_owned();
        push_decimal(&mut message, version as u64);
        return Err(Error::InvalidEncryptedNote(message));
    }
    if read_be(container, 10, 2) != 0 {
        return Err(Error::InvalidEncryptedNote("unsupported encrypted-note flags".to_owned()));
    }
    let note_id = Uuid { value: read_be(container, 12, 16) };
    let memory_kib: u32 = read_be(container, 28, 4) as u32;
    let iterations: u32 = read_be(container, 32, 4) as u32;
    let lanes: u32 = read_be(container, 36, 4) as u32;
    if let Err(error) = validate_kdf_parameters(memory_kib, iterations, lanes) {
        return Err(error);
    }
    let salt: [u8; 16] = take_16(container, 40);
    let nonce: [u8; 24] = take_24(container, 56);
    let ciphertext_len: u64 = read_be(container, 80, 8) as u64;
    let actual: usize = container.len() - 88;
    if ciphertext_len != actual as u64 || actual < 16 {
        return Err(
            Error::InvalidEncryptedNote("ciphertext length does not match the container".to_owned()),
        );
    }
    Ok(EncryptedHeader { note_id, memory_kib, iterations, lanes, salt, nonce, ciphertext_len })
}

/// The session of a password that is set now, with a salt.
pub open spec fn new_session(password: Seq<u8>, salt: Seq<u8>) -> SessionView {
    SessionView {
        key: argon2id(password, salt, ARGON2_MEMORY_KIB, ARGON2_ITERATIONS, ARGON2_LANES),
        salt,
        memory_kib: ARGON2_MEMORY_KIB,
        iterations: ARGON2_ITERATIONS,
        lanes: ARGON2_LANES,
    }
}

/// Whether a container seals a payload under a password with some salt and nonce,
/// and with the parameters of a key derivation that is set up now.
pub open spec fn freshly_sealed(
    container: Seq<u8>,
    password: Seq<u8>,
    note_id: Uuid,
    payload: Seq<u8>,
) -> bool {
    exists|salt: Seq<u8>, nonce: Seq<u8>|
        salt.len() == 16 && nonce.len() == 24 && container == #[trigger] note_container(
            note_id,
            new_session(password, salt),
            nonce,
            payload,
        )
}

/// Whether a container holds a payload of a note, and a password opens it with
/// the given session.
pub open spec fn sealed_under(
    container: Seq<u8>,
    session: SessionView,
    password: Seq<u8>,
    note_id: Uuid,
    payload: Seq<u8>,
) -> bool {
    &&& note_fault(container) is None
    &&& container_key(container, password) == session.key
    &&& payload_in(container, session.key) == Some(payload)
    &&& header_in(container).note_id == note_id
    &&& header_in(container).salt == session.salt
    &&& header_in(container).memory_kib == session.memory_kib
    &&& header_in(container).iterations == session.iterations
    &&& header_in(container).lanes == session.lanes
}

/// The container of a payload under a session's key and a given nonce.
pub fn encrypt_with_nonce(
    note_id: Uuid,
    payload: &[u8],
    session: &EncryptedSession,
    nonce: &[u8; 24],
) -> (outcome: Result<Vec<u8>>)
    requires
        session@.valid(),
        payload@.len() + 16 <= isize::MAX,
    ensures
        match outcome {
            Ok(container) => {
                &&& payload@.len() <= cipher_limit()
                &&& container@ == note_container(note_id, session@, nonce@, payload@)
                &&& payload_in(container@, session@.key) == Some(payload@)
                &&& header_in(container@) == session_header(
                    note_id,
                    session@,
                    nonce@,
                    payload@.len(),
                )
            },
            Err(error) => {
                &&& payload@.len() > cipher_limit()
                &&& is_encryption_error(error, "authenticated encryption failed"@)
            },
        },
{
    if payload.len() as u64 > CIPHER_LIMIT {
        return Err(Error::Encryption("authenticated encryption failed".to_owned()));
    }
    let header = EncryptedHeader {
        note_id,
        memory_kib: session.memory_kib,
        iterations: session.iterations,
        lanes: session.lanes,
        salt: session.salt,
        nonce: *nonce,
        ciphertext_len: (payload.len() + 16) as u64,
    };
    let mut container = encode_header(&header);
    let ghost head = container@;
    match aead_encrypt(session.key.as_slice(), nonce, &container, payload) {
        Ok(ciphertext) => {
            container.extend_from_slice(&ciphertext);
            proof {
                assert(header@ =~= session_header(note_id, session@, nonce@, payload@.len()));
                lemma_header_reads_back(header@, ciphertext@);
                assert(container@ =~= head + ciphertext@);
            }
            Ok(container)
        },
        Err(_) => Err(Error::Encryption("authenticated encryption failed".to_owned())),
    }
}

/// The container of a payload under a session's key and a fresh random nonce.
/// Opened under the same key it gives the payload back.
pub fn encrypt_with_session(note_id: Uuid, payload: &[u8], session: &EncryptedSession) -> (outcome:
    Result<Vec<u8>>)
    requires
        session@.valid(),
        payload@.len() + 16 <= isize::MAX,
    ensures
        match outcome {
            Ok(container) => {
                &&& exists|nonce: Seq<u8>|
                    nonce.len() == 24 && container@ == #[trigger] note_container(
                        note_id,
                        session@,
                        nonce,
                        payload@,
                    )
                &&& payload_in(container@, session@.key) == Some(payload@)
                &&& header_in(container@).note_id == note_id
                &&& header_in(container@).salt == session@.salt
                &&& header_in(container@).memory_kib == session@.memory_kib
                &&& header_in(container@).iterations == session@.iterations
                &&& header_in(container@).lanes == session@.lanes
            },
            Err(error) => error is Encryption,
        },
{
    match random_bytes(24) {
        Ok(bytes) => {
            let nonce: [u8; 24] = take_24(&bytes, 0);
            encrypt_with_nonce(note_id, payload, session, &nonce)
        },
        Err(failure) => Err(Error::Encryption(failure.to_string())),
    }
}

/// Encrypts a payload under a new password with a given salt and nonce.
pub fn encrypt_new_with(
    note_id: Uuid,
    payload: &[u8],
    password: &str,
    salt: &[u8; 16],
    nonce: &[u8; 24],
) -> (outcome: Result<(Vec<u8>, EncryptedSession)>)
    requires
        payload@.len() + 16 <= isize::MAX,
    ensures
        match outcome {
            Ok((container, session)) => {
                &&& encode_utf8(password@).len() <= 0xffff_ffff
                &&& payload@.len() <= cipher_limit()
                &&& session@ == new_session(encode_utf8(password@), salt@)
                &&& session@.valid()
                &&& container@ == note_container(note_id, session@, nonce@, payload@)
                &&& sealed_under(container@, session@, encode_utf8(password@), note_id, payload@)
            },
            Err(error) => {
                &&& error is Encryption
                &&& encode_utf8(password@).len() > 0xffff_ffff || payload@.len() > cipher_limit()
            },
        },
{
    let key = match derive_key(
        password,
        salt,
        ARGON2_MEMORY_KIB,
        ARGON2_ITERATIONS,
        ARGON2_LANES,
    ) {
        Ok(key) => key,
        Err(error) => {
            return Err(error);
        },
    };
    let session = EncryptedSession {
        key,
        salt: *salt,
        memory_kib: ARGON2_MEMORY_KIB,
        iterations: ARGON2_ITERATIONS,
        lanes: ARGON2_LANES,
    };
    match encrypt_with_nonce(note_id, payload, &session, nonce) {
        Ok(container) => Ok((container, session)),
        Err(error) => Err(error),
    }
}

/// Encrypts a payload under a new password with a fresh random salt and nonce.
/// The same password opens the container again.
pub fn encrypt_new(note_id: Uuid, payload: &[u8], password: &str) -> (outcome: Result<
    (Vec<u8>, EncryptedSession),
>)
    requires
        payload@.len() + 16 <= isize::MAX,
    ensures
        match outcome {
            Ok((container, session)) => {
                &&& encode_utf8(password@).len() <= 0xffff_ffff
                &&& session@ == new_session(encode_utf8(password@), session@.salt)
                &&& session@.valid()
                &&& sealed_under(container@, session@, encode_utf8(password@), note_id, payload@)
                &&& freshly_sealed(container@, encode_utf8(password@), note_id, payload@)
            },
            Err(error) => error is Encryption,
        },
{
    let salt: [u8; 16] = match random_bytes(16) {
        Ok(bytes) => take_16(&bytes, 0),
        Err(failure) => {
            return Err(Error::Encryption(failure.to_string()));
        },
    };
    let nonce: [u8; 24] = match random_bytes(24) {
        Ok(bytes) => take_24(&bytes, 0),
        Err(failure) => {
            return Err(Error::Encryption(failure.to_string()));
        },
    };
    proof {
        assert(salt@.len() == 16 && nonce@.len() == 24);
    }
    encrypt_new_with(note_id, payload, password, &salt, &nonce)
}

/// A container that a password has opened.
pub struct OpenedNote {
    pub header: EncryptedHeader,
    pub payload: SecretBytes,
    pub session: EncryptedSession,
}

/// Opens a container with a password. No part of the payload is given out
/// unless the whole container is authentic under the password's key.
pub fn decrypt(container: &[u8], password: &str) -> (outcome: Result<OpenedNote>)
    ensures
        match outcome {
            Ok(opened) => {
                &&& note_fault(container@) is None
                &&& encode_utf8(password@).len() <= 0xffff_ffff
                &&& opened.header@ == header_in(container@)
                &&& payload_in(
                    container@,
                    container_key(container@, encode_utf8(password@)),
                ) == Some(opened.payload@)
                &&& opened.payload@.len() + 104 == container@.len()
                &&& opened.session@ == (SessionView {
                    key: container_key(container@, encode_utf8(password@)),
                    salt: header_in(container@).salt,
                    memory_kib: header_in(container@).memory_kib,
                    iterations: header_in(container@).iterations,
                    lanes: header_in(container@).lanes,
                })
                &&& opened.session@.valid()
            },
            Err(error) => match note_fault(container@) {
                Some(fault) => is_invalid_note(error, note_fault_text(fault)),
                None => if encode_utf8(password@).len() > 0xffff_ffff {
                    error is Encryption
                } else {
                    &&& error is DecryptionFailed
                    &&& payload_in(
                        container@,
                        container_key(container@, encode_utf8(password@)),
                    ) is None
                },
            },
        },
{
    let header = match inspect_header(container) {
        Ok(header) => header,
        Err(error) => {
            return Err(error);
        },
    };
    let key = match derive_key(
        password,
        &header.salt,
        header.memory_kib,
        header.iterations,
        header.lanes,
    ) {
        Ok(key) => key,
        Err(error) => {
            return Err(error);
        },
    };
    let head: &[u8] = &container[0..88];
    let rest: &[u8] = &container[88..container.len()];
    proof {
        assert(head@ =~= container@.take(88));
        assert(rest@ =~= container@.skip(88));
    }
    if rest.len() as u64 > CIPHER_LIMIT + 16 {
        return Err(Error::DecryptionFailed);
    }
    match aead_decrypt(key.as_slice(), &header.nonce, head, rest) {
        Ok(payload) => {
            let session = EncryptedSession {
                key,
                salt: header.salt,
                memory_kib: header.memory_kib,
                iterations: header.iterations,
                lanes: header.lanes,
            };
            Ok(OpenedNote { header, payload: SecretBytes::new(payload), session })
        },
        Err(_) => Err(Error::DecryptionFailed),
    }
}

/// The note that an opened container holds. `decoded` is its payload read as
/// the metadata and the body of a note; a payload that cannot be read so, or
/// that is that of another note than the header says, counts as not opened.
pub fn accept_payload(
    opened: OpenedNote,
    decoded: Option<(NoteMetadata, String)>,
    relative_path: String,
) -> (outcome: Result<(Note, EncryptedSession)>)
    ensures
        match outcome {
            Ok((note, session)) => {
                &&& decoded matches Some((metadata, body))
                &&& metadata.id == opened.header.note_id
                &&& note.metadata == metadata
                &&& note.body == body
                &&& note.relative_path == relative_path
                &&& session@ == opened.session@
            },
            Err(error) => error is DecryptionFailed && (decoded matches Some((metadata, _))
                ==> metadata.id != opened.header.note_id),
        },
{
    match decoded {
        Some((metadata, body)) => if metadata.id == opened.header.note_id {
            Ok((Note { metadata, body, relative_path }, opened.session))
        } else {
            Err(Error::DecryptionFailed)
        },
        None => Err(Error::DecryptionFailed),
    }
}

} // verus!
