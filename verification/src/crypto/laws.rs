//! What the containers bind together: keys, headers and what they protect.

use vstd::prelude::*;
use vstd::utf8::encode_utf8;

use super::note::{
    container_key, header_bytes, header_in, kdf_in_range, lemma_header_reads_back, new_session,
    note_container, note_fault, payload_in, session_header, ARGON2_ITERATIONS, ARGON2_LANES,
    ARGON2_MEMORY_KIB,
};
use super::primitives::{argon2id, hkdf_sha256, xchacha_open, xchacha_seal};
use super::vault::{master_in, object_in, subkeys, KeysView, ObjectType};
use crate::bytes::be_value;
use crate::ident::Uuid;

verus! {

/// What the label of a key that seals objects of a type ends with.
pub open spec fn domain_of(object_type: ObjectType) -> Seq<char> {
    match object_type {
        ObjectType::Note | ObjectType::InnerSnote => "senatorialnotes/vault/v1/content"@,
        ObjectType::Attachment => "senatorialnotes/vault/v1/attachments"@,
        ObjectType::Manifest => "senatorialnotes/vault/v1/names"@,
        ObjectType::Metadata => "senatorialnotes/vault/v1/metadata"@,
        ObjectType::Index => "senatorialnotes/vault/v1/index"@,
    }
}

/// Objects of each type are sealed with a key that is derived from the master key
/// for that purpose alone, with the vault's identifier for its salt; only notes in
/// the clear and notes with a password of their own share one.
pub proof fn law_each_purpose_has_its_own_key(
    vault_id: Uuid,
    master: Seq<u8>,
    one: ObjectType,
    other: ObjectType,
)
    ensures
        subkeys(vault_id, master).key_for(one) == hkdf_sha256(
            vault_id.spec_bytes(),
            master,
            encode_utf8(domain_of(one)),
        ),
        subkeys(vault_id, master).vault_id == vault_id,
        domain_of(one) == domain_of(other) <==> one == other || (one is Note || one is InnerSnote)
            && (other is Note || other is InnerSnote),
{
    reveal_strlit("senatorialnotes/vault/v1/content");
    reveal_strlit("senatorialnotes/vault/v1/attachments");
    reveal_strlit("senatorialnotes/vault/v1/names");
    reveal_strlit("senatorialnotes/vault/v1/metadata");
    reveal_strlit("senatorialnotes/vault/v1/index");
    assert("senatorialnotes/vault/v1/content"@.len() == 32);
    assert("senatorialnotes/vault/v1/attachments"@.len() == 36);
    assert("senatorialnotes/vault/v1/names"@.len() == 30);
    assert("senatorialnotes/vault/v1/metadata"@.len() == 33);
    assert("senatorialnotes/vault/v1/index"@.len() == 30);
    assert("senatorialnotes/vault/v1/names"@[25] == 'n');
    assert("senatorialnotes/vault/v1/index"@[25] == 'i');
}

/// What is opened of a note container is authentic together with its whole header:
/// it is what the cipher opens with all the bytes before the ciphertext as data that
/// it authenticates.
pub proof fn law_the_whole_header_is_authentic(container: Seq<u8>, key: Seq<u8>)
    ensures
        payload_in(container, key) matches Some(payload) ==> {
            &&& container.len() >= 104
            &&& xchacha_open(
                key,
                container.subrange(56, 80),
                container.take(88),
                container.skip(88),
            ) == Some(payload)
            &&& container[0] == 0x53
            &&& container[1] == 0x4e
            &&& container[2] == 0x4f
            &&& container[3] == 0x54
            &&& container[4] == 0x45
            &&& be_value(container.subrange(8, 10)) == 1
            &&& be_value(container.subrange(80, 88)) == container.len() - 88
        },
{
    if payload_in(container, key) is Some {
        let magic = container.take(8);
        assert(magic == super::note::note_magic());
        assert(magic[0] == container[0] && magic[1] == container[1] && magic[2] == container[2]
            && magic[3] == container[3] && magic[4] == container[4]);
    }
}

/// What is opened of an object is authentic together with its whole header, which
/// names the vault, the object and its type.
pub proof fn law_an_object_is_bound_to_its_place(
    keys: KeysView,
    object_type: ObjectType,
    object_id: Uuid,
    blob: Seq<u8>,
)
    ensures
        object_in(keys, object_type, object_id, blob) matches Some((plaintext, marked)) ==> {
            &&& blob.len() >= 96
            &&& xchacha_open(
                keys.key_for(object_type),
                blob.subrange(56, 80),
                blob.take(80),
                blob.skip(80),
            ) == Some(plaintext)
            &&& blob.subrange(12, 28) == keys.vault_id.spec_bytes()
            &&& blob.subrange(28, 44) == object_id.spec_bytes()
            &&& be_value(blob.subrange(44, 46)) == object_type.spec_code()
            &&& marked <==> be_value(blob.subrange(10, 12)) == 1
            &&& be_value(blob.subrange(48, 56)) == blob.len() - 80
        },
{
}

/// The master key that is taken from a keyfile is authentic together with the
/// keyfile's whole header, which names the vault; the key that unwraps it comes from
/// the password with the salt and the parameters that the keyfile names.
pub proof fn law_a_keyfile_is_bound_to_its_vault(
    vault_id: Uuid,
    keyfile: Seq<u8>,
    password: Seq<u8>,
)
    ensures
        master_in(vault_id, keyfile, password) matches Some(master) ==> {
            &&& keyfile.len() == 136
            &&& keyfile.subrange(12, 28) == vault_id.spec_bytes()
            &&& xchacha_open(
                argon2id(
                    password,
                    keyfile.subrange(40, 56),
                    be_value(keyfile.subrange(28, 32)) as u32,
                    be_value(keyfile.subrange(32, 36)) as u32,
                    be_value(keyfile.subrange(36, 40)) as u32,
                ),
                keyfile.subrange(56, 80),
                keyfile.take(88),
                keyfile.skip(88),
            ) == Some(master)
        },
{
}

/// The work that a container may ask for is bounded from below and from above, and
/// that of a password that is set now lies within the bounds.
pub proof fn law_derivation_work_is_bounded(memory_kib: u32, iterations: u32, lanes: u32)
    ensures
        kdf_in_range(memory_kib, iterations, lanes) ==> 8192 <= memory_kib <= 1_048_576 && 1
            <= iterations <= 10 && 1 <= lanes <= 16,
        memory_kib < 8192 || memory_kib > 1_048_576 || iterations == 0 || iterations > 10 || lanes
            == 0 || lanes > 16 ==> !kdf_in_range(memory_kib, iterations, lanes),
        kdf_in_range(ARGON2_MEMORY_KIB, ARGON2_ITERATIONS, ARGON2_LANES),
{
}

/// The container of a payload has no fault, names its note, carries the session's
/// salt and parameters, so that the password of the session gives the session's key
/// again, and seals the payload behind its header.
pub proof fn law_a_container_names_what_opens_it(
    note_id: Uuid,
    password: Seq<u8>,
    salt: Seq<u8>,
    nonce: Seq<u8>,
    payload: Seq<u8>,
)
    requires
        salt.len() == 16,
        nonce.len() == 24,
        payload.len() + 16 <= u64::MAX,
        xchacha_seal(
            new_session(password, salt).key,
            nonce,
            header_bytes(
                session_header(note_id, new_session(password, salt), nonce, payload.len()),
            ),
            payload,
        ).len() == payload.len() + 16,
    ensures
        ({
            let session = new_session(password, salt);
            let container = note_container(note_id, session, nonce, payload);
            &&& note_fault(container) is None
            &&& container.len() == 88 + payload.len() + 16
            &&& header_in(container).note_id == note_id
            &&& header_in(container).salt == salt
            &&& header_in(container).nonce == nonce
            &&& container_key(container, password) == session.key
            &&& container.skip(88) == xchacha_seal(
                session.key,
                nonce,
                container.take(88),
                payload,
            )
        }),
{
    let session = new_session(password, salt);
    let header = session_header(note_id, session, nonce, payload.len());
    let sealed = xchacha_seal(session.key, nonce, header_bytes(header), payload);
    lemma_header_reads_back(header, sealed);
}

} // verus!
