use senatorial_notes::crypto::primitives::SecretBytes;
use senatorial_notes::crypto::vault::{
    create_keyfile, create_keyfile_with, open_keyfile, rewrap_keyfile, wrap_master_with,
    ObjectType, VaultKeys, HKDF_LABEL_ATTACHMENTS, HKDF_LABEL_CONTENT, HKDF_LABEL_INDEX,
    HKDF_LABEL_METADATA, HKDF_LABEL_NAMES,
};
use senatorial_notes::ident::Uuid;
use senatorial_notes::Error;

const PW: &str = "correct horse battery staple";

fn keys(vault_id: Uuid) -> VaultKeys {
    let (keyfile, keys) = create_keyfile(vault_id, PW).ok().unwrap();
    let opened = open_keyfile(&keyfile, vault_id, PW);
    assert_eq!(opened.ok().unwrap().vault_id(), vault_id);
    keys
}

#[test]
fn keyfile_round_trips_and_wrong_password_fails() {
    let vault_id = Uuid::new_v4();
    let (keyfile, _) = create_keyfile(vault_id, PW).ok().unwrap();
    assert!(open_keyfile(&keyfile, vault_id, PW).is_ok());
    assert!(matches!(
        open_keyfile(&keyfile, vault_id, "wrong password here"),
        Err(Error::DecryptionFailed)
    ));
}

#[test]
fn a_tampered_keyfile_byte_fails() {
    let vault_id = Uuid::new_v4();
    let (mut keyfile, _) = create_keyfile(vault_id, PW).ok().unwrap();
    let last = keyfile.len() - 1;
    keyfile[last] ^= 0x01;
    assert!(matches!(
        open_keyfile(&keyfile, vault_id, PW),
        Err(Error::DecryptionFailed)
    ));
    // A byte of the header too, inside the salt.
    let (mut keyfile, _) = create_keyfile(vault_id, PW).ok().unwrap();
    keyfile[45] ^= 0x01;
    assert!(open_keyfile(&keyfile, vault_id, PW).is_err());
}

#[test]
fn keyfile_for_another_vault_is_rejected() {
    let (keyfile, _) = create_keyfile(Uuid::new_v4(), PW).ok().unwrap();
    assert!(matches!(
        open_keyfile(&keyfile, Uuid::new_v4(), PW),
        Err(Error::InvalidEncryptedVault(_))
    ));
}

#[test]
fn rewrap_keeps_the_same_subkeys() {
    let vault_id = Uuid::new_v4();
    let (keyfile, keys_before) = create_keyfile(vault_id, PW).ok().unwrap();
    let blob = keys_before
        .seal(ObjectType::Note, Uuid::new_v4(), false, b"hello")
        .unwrap();

    let rewrapped = rewrap_keyfile(&keyfile, vault_id, PW, "a brand new passphrase!!").unwrap();
    assert!(open_keyfile(&rewrapped, vault_id, PW).is_err());
    let keys_after = open_keyfile(&rewrapped, vault_id, "a brand new passphrase!!")
        .ok()
        .unwrap();

    // What was sealed before still opens: the subkeys are unchanged.
    let object_uuid = Uuid::read(&blob[28..44], 0);
    let (plain, _) = keys_after
        .open(ObjectType::Note, object_uuid, &blob)
        .ok()
        .unwrap();
    assert_eq!(plain.as_slice(), b"hello");
}

#[test]
fn rewrap_requires_the_old_password() {
    let vault_id = Uuid::new_v4();
    let (keyfile, _) = create_keyfile(vault_id, PW).ok().unwrap();
    assert!(matches!(
        rewrap_keyfile(&keyfile, vault_id, "not the old one!!", "new one here!!"),
        Err(Error::DecryptionFailed)
    ));
}

#[test]
fn seal_open_round_trip_and_tamper_fails() {
    let vault_id = Uuid::new_v4();
    let k = keys(vault_id);
    let id = Uuid::new_v4();
    let mut blob = k.seal(ObjectType::Note, id, false, b"secret body").unwrap();
    let (plain, inner) = k.open(ObjectType::Note, id, &blob).ok().unwrap();
    assert_eq!(plain.as_slice(), b"secret body");
    assert!(!inner);

    let last = blob.len() - 1;
    blob[last] ^= 0x01;
    assert!(matches!(
        k.open(ObjectType::Note, id, &blob),
        Err(Error::DecryptionFailed)
    ));
}

#[test]
fn cross_object_and_cross_type_substitution_fail() {
    let vault_id = Uuid::new_v4();
    let k = keys(vault_id);
    let a = Uuid::new_v4();
    let b = Uuid::new_v4();
    let blob_a = k.seal(ObjectType::Note, a, false, b"a").unwrap();
    assert!(matches!(
        k.open(ObjectType::Note, b, &blob_a),
        Err(Error::InvalidEncryptedVault(_))
    ));
    assert!(k.open(ObjectType::Attachment, a, &blob_a).is_err());
}

#[test]
fn cross_vault_substitution_fails() {
    let vault_a = Uuid::new_v4();
    let vault_b = Uuid::new_v4();
    let ka = keys(vault_a);
    let kb = keys(vault_b);
    let id = Uuid::new_v4();
    let blob = ka.seal(ObjectType::Note, id, false, b"x").unwrap();
    assert!(matches!(
        kb.open(ObjectType::Note, id, &blob),
        Err(Error::InvalidEncryptedVault(_))
    ));
}

#[test]
fn hkdf_domain_separation_uses_five_distinct_keys() {
    let vault_id = Uuid::new_v4();
    let k = keys(vault_id);
    // Under one nonce the same plaintext gives the same ciphertext exactly
    // where the keys are the same.
    let nonce = [7u8; 24];
    let plaintext = [0u8; 32];
    let all: Vec<Vec<u8>> = [
        ObjectType::Note,
        ObjectType::Manifest,
        ObjectType::Attachment,
        ObjectType::Metadata,
        ObjectType::Index,
    ]
    .into_iter()
    .map(|object_type| {
        let blob = k
            .seal_with_nonce(object_type, vault_id, false, &plaintext, &nonce)
            .unwrap();
        blob[80..112].to_vec()
    })
    .collect();
    for i in 0..all.len() {
        for j in (i + 1)..all.len() {
            assert_ne!(all[i], all[j], "subkeys {i} and {j} must differ");
        }
    }
    // A manifest cannot be opened as a note.
    let id = Uuid::new_v4();
    let manifest = k.seal(ObjectType::Manifest, id, false, b"tree").unwrap();
    assert!(k.open(ObjectType::Note, id, &manifest).is_err());
}

#[test]
fn nonces_are_unique_across_seals() {
    let k = keys(Uuid::new_v4());
    let id = Uuid::new_v4();
    let mut nonces = std::collections::HashSet::new();
    for _ in 0..500 {
        let blob = k
            .seal(ObjectType::Note, id, false, b"same plaintext")
            .unwrap();
        assert!(nonces.insert(blob[56..80].to_vec()), "nonce reused");
    }
}

#[test]
fn inner_snote_flag_round_trips() {
    let k = keys(Uuid::new_v4());
    let id = Uuid::new_v4();
    let blob = k
        .seal(ObjectType::InnerSnote, id, true, b"SNOTE\0\0\0...")
        .unwrap();
    let (plain, inner) = k.open(ObjectType::InnerSnote, id, &blob).ok().unwrap();
    assert!(inner);
    assert_eq!(plain.as_slice(), b"SNOTE\0\0\0...");
}

#[test]
fn hkdf_labels_are_the_documented_bytes() {
    assert_eq!(
        HKDF_LABEL_CONTENT.as_bytes(),
        b"senatorialnotes/vault/v1/content"
    );
    assert_eq!(
        HKDF_LABEL_NAMES.as_bytes(),
        b"senatorialnotes/vault/v1/names"
    );
    assert_eq!(
        HKDF_LABEL_ATTACHMENTS.as_bytes(),
        b"senatorialnotes/vault/v1/attachments"
    );
    assert_eq!(
        HKDF_LABEL_METADATA.as_bytes(),
        b"senatorialnotes/vault/v1/metadata"
    );
    assert_eq!(
        HKDF_LABEL_INDEX.as_bytes(),
        b"senatorialnotes/vault/v1/index"
    );
}

#[test]
fn object_codes_are_read_back() {
    for object_type in [
        ObjectType::Note,
        ObjectType::InnerSnote,
        ObjectType::Attachment,
        ObjectType::Manifest,
        ObjectType::Metadata,
        ObjectType::Index,
    ] {
        assert_eq!(
            ObjectType::from_code(object_type.code()).unwrap(),
            object_type
        );
    }
    assert!(matches!(
        ObjectType::from_code(999),
        Err(Error::InvalidEncryptedVault(_))
    ));
}

#[test]
fn object_layout_is_fixed() {
    let vault_id = Uuid::from_u128(0x00112233445566778899aabbccddeeff);
    let (_, k) = create_keyfile(vault_id, PW).ok().unwrap();
    let id = Uuid::from_u128(0x0f0e0d0c0b0a09080706050403020100);
    let nonce = [9u8; 24];
    let blob = k
        .seal_with_nonce(ObjectType::InnerSnote, id, true, b"abc", &nonce)
        .unwrap();
    assert_eq!(blob.len(), 80 + 3 + 16);
    assert_eq!(&blob[0..8], b"SNENC\0\0\0");
    assert_eq!(&blob[8..10], &[0, 1]);
    assert_eq!(&blob[10..12], &[0, 1]);
    assert_eq!(
        &blob[12..28],
        &[0x00, 0x11, 0x22, 0x33, 0x44, 0x55, 0x66, 0x77, 0x88, 0x99, 0xaa, 0xbb, 0xcc, 0xdd, 0xee, 0xff]
    );
    assert_eq!(
        &blob[28..44],
        &[0x0f, 0x0e, 0x0d, 0x0c, 0x0b, 0x0a, 9, 8, 7, 6, 5, 4, 3, 2, 1, 0]
    );
    assert_eq!(&blob[48..56], &[0, 0, 0, 0, 0, 0, 0, 19]);
    assert_eq!(&blob[56..80], &nonce);
}

#[test]
fn damaged_objects_are_told_apart() {
    let vault_id = Uuid::new_v4();
    let (_, k) = create_keyfile(vault_id, PW).ok().unwrap();
    let id = Uuid::new_v4();
    let blob = k.seal(ObjectType::Note, id, false, b"body").unwrap();
    assert!(matches!(
        k.open(ObjectType::Note, id, &blob[..40]),
        Err(Error::InvalidEncryptedVault(_))
    ));
    let mut magic = blob.clone();
    magic[0] ^= 1;
    assert!(matches!(
        k.open(ObjectType::Note, id, &magic),
        Err(Error::InvalidEncryptedVault(_))
    ));
    let mut version = blob.clone();
    version[9] = 2;
    assert!(matches!(
        k.open(ObjectType::Note, id, &version),
        Err(Error::InvalidEncryptedVault(_))
    ));
    let mut shorter = blob.clone();
    shorter.pop();
    assert!(matches!(
        k.open(ObjectType::Note, id, &shorter),
        Err(Error::InvalidEncryptedVault(_))
    ));
}

#[test]
fn what_is_drawn_decides_the_keyfile() {
    let vault_id = Uuid::from_u128(9);
    let master = SecretBytes::new(vec![7; 32]);
    let (keyfile, keys) = create_keyfile_with(vault_id, PW, &master, &[1; 16], &[2; 24])
        .ok()
        .unwrap();
    assert_eq!(keyfile.len(), 136);
    assert_eq!(&keyfile[..8], b"SNVLT\0\0\0");
    assert_eq!(&keyfile[40..56], &[1; 16]);
    assert_eq!(&keyfile[56..80], &[2; 24]);
    let again = wrap_master_with(vault_id, &master, PW, &[1; 16], &[2; 24]);
    assert_eq!(again.ok(), Some(keyfile.clone()));
    let opened = open_keyfile(&keyfile, vault_id, PW).ok().unwrap();
    let id = Uuid::from_u128(10);
    let blob = keys.seal(ObjectType::Note, id, false, b"text").ok().unwrap();
    let (text, inner) = opened.open(ObjectType::Note, id, &blob).ok().unwrap();
    assert_eq!(text.as_slice(), b"text");
    assert!(!inner);
}

#[test]
fn a_tampered_header_is_refused_as_a_wrong_password_is() {
    let vault_id = Uuid::from_u128(9);
    let (keyfile, _) = create_keyfile(vault_id, PW).ok().unwrap();
    for at in [0, 9, 11, 28, 87] {
        let mut tampered = keyfile.clone();
        tampered[at] ^= 0x01;
        assert!(matches!(
            open_keyfile(&tampered, vault_id, PW),
            Err(Error::DecryptionFailed)
        ));
    }
    assert!(matches!(
        open_keyfile(&keyfile[..60], vault_id, PW),
        Err(Error::DecryptionFailed)
    ));
    let mut other = keyfile.clone();
    other[12] ^= 0x01;
    assert!(matches!(
        open_keyfile(&other, vault_id, PW),
        Err(Error::InvalidEncryptedVault(text)) if text == "keyfile is for a different vault"
    ));
}
