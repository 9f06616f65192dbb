use senatorial_notes::crypto::note::{
    accept_payload, decrypt, derive_key, encrypt_new, encrypt_new_with, encrypt_with_session,
    inspect_header, validate_kdf_parameters,
};
use senatorial_notes::ident::Uuid;
use senatorial_notes::model::NoteMetadata;
use senatorial_notes::vault::{rekey_container, verify_rekeyed};
use senatorial_notes::Error;

const PW: &str = "correct horse battery staple";

#[test]
fn a_container_opens_with_its_password_alone() {
    let id = Uuid::from_u128(77);
    let (container, _) = encrypt_new(id, b"payload", PW).ok().unwrap();
    let opened = decrypt(&container, PW).ok().unwrap();
    assert_eq!(opened.payload.as_slice(), b"payload");
    assert_eq!(opened.header.note_id, id);
    assert!(matches!(
        decrypt(&container, "another password"),
        Err(Error::DecryptionFailed)
    ));
}

#[test]
fn the_layout_of_a_container_is_fixed() {
    let id = Uuid::from_u128(0x00112233445566778899aabbccddeeff);
    let (container, session) = encrypt_new(id, b"abc", PW).ok().unwrap();
    assert_eq!(container.len(), 88 + 3 + 16);
    assert_eq!(&container[0..8], b"SNOTE\0\0\0");
    assert_eq!(&container[8..12], &[0, 1, 0, 0]);
    assert_eq!(&container[12..15], &[0x00, 0x11, 0x22]);
    assert_eq!(session.parameters(), (65_536, 3, 1));
    assert_eq!(&container[28..32], &[0, 1, 0, 0]);
    assert_eq!(&container[80..88], &[0, 0, 0, 0, 0, 0, 0, 19]);
    let header = inspect_header(&container).ok().unwrap();
    assert_eq!(header.note_id, id);
    assert_eq!(header.ciphertext_len, 19);
}

#[test]
fn a_session_saves_without_the_password() {
    let id = Uuid::from_u128(5);
    let (first, session) = encrypt_new(id, b"one", PW).ok().unwrap();
    let second = encrypt_with_session(id, b"two", &session).unwrap();
    // The salt stays, the nonce does not.
    assert_eq!(&first[40..56], &second[40..56]);
    assert_ne!(&first[56..80], &second[56..80]);
    assert_eq!(
        decrypt(&second, PW).ok().unwrap().payload.as_slice(),
        b"two"
    );
}

#[test]
fn a_changed_byte_is_noticed() {
    let (container, _) = encrypt_new(Uuid::from_u128(1), b"payload", PW).ok().unwrap();
    for at in [12, 60, container.len() - 1] {
        let mut changed = container.clone();
        changed[at] ^= 1;
        assert!(matches!(decrypt(&changed, PW), Err(Error::DecryptionFailed)));
    }
}

#[test]
fn damaged_headers_are_told_apart() {
    let (container, _) = encrypt_new(Uuid::from_u128(1), b"payload", PW).ok().unwrap();
    let mut magic = container.clone();
    magic[0] = b'X';
    assert!(matches!(inspect_header(&magic), Err(Error::InvalidEncryptedNote(text))
        if text == "missing SenatorialNotes encrypted-note header"));
    let mut version = container.clone();
    version[9] = 9;
    assert!(matches!(inspect_header(&version), Err(Error::InvalidEncryptedNote(text))
        if text == "unsupported format version 9"));
    let mut flags = container.clone();
    flags[11] = 1;
    assert!(matches!(inspect_header(&flags), Err(Error::InvalidEncryptedNote(text))
        if text == "unsupported encrypted-note flags"));
    let shorter = &container[..container.len() - 1];
    assert!(matches!(inspect_header(shorter), Err(Error::InvalidEncryptedNote(text))
        if text == "ciphertext length does not match the container"));
    assert!(inspect_header(&[]).is_err());
}

#[test]
fn derivation_parameters_are_bounded() {
    assert!(validate_kdf_parameters(65_536, 3, 1).is_ok());
    assert!(validate_kdf_parameters(0, 3, 1).is_err());
    assert!(validate_kdf_parameters(65_536, 0, 1).is_err());
    assert!(validate_kdf_parameters(65_536, 3, 0).is_err());
    assert!(validate_kdf_parameters(u32::MAX, 3, 1).is_err());
}

#[test]
fn keys_depend_on_password_and_salt() {
    let one = derive_key(PW, &[1; 16], 65_536, 3, 1).ok().unwrap();
    let again = derive_key(PW, &[1; 16], 65_536, 3, 1).ok().unwrap();
    let salted = derive_key(PW, &[2; 16], 65_536, 3, 1).ok().unwrap();
    let other = derive_key("other password", &[1; 16], 65_536, 3, 1).ok().unwrap();
    assert_eq!(one.as_slice().len(), 32);
    assert_eq!(one.as_slice(), again.as_slice());
    assert_ne!(one.as_slice(), salted.as_slice());
    assert_ne!(one.as_slice(), other.as_slice());
}

#[test]
fn a_payload_of_another_note_counts_as_not_opened() {
    let id = Uuid::from_u128(9);
    let (container, _) = encrypt_new(id, b"payload", PW).ok().unwrap();
    let moment = senatorial_notes::model::Timestamp::epoch();
    let mine = NoteMetadata::with("T", id, moment);
    let foreign = NoteMetadata::with("T", Uuid::from_u128(10), moment);
    let opened = decrypt(&container, PW).ok().unwrap();
    assert!(matches!(
        accept_payload(opened, Some((foreign, String::new())), "a.snote".to_string()),
        Err(Error::DecryptionFailed)
    ));
    let opened = decrypt(&container, PW).ok().unwrap();
    assert!(matches!(
        accept_payload(opened, None, "a.snote".to_string()),
        Err(Error::DecryptionFailed)
    ));
    let opened = decrypt(&container, PW).ok().unwrap();
    let (note, _) = accept_payload(opened, Some((mine, "body".to_string())), "a.snote".to_string())
        .ok()
        .unwrap();
    assert_eq!(note.body, "body");
    assert_eq!(note.relative_path, "a.snote");
}

#[test]
fn a_note_gets_another_password() {
    let id = Uuid::from_u128(3);
    let new_password = "a different long passphrase";
    let (container, _) = encrypt_new(id, b"payload", PW).ok().unwrap();
    let written = rekey_container(&container, PW, new_password).unwrap();
    let opened = decrypt(&written, new_password).ok().unwrap();
    assert_eq!(opened.payload.as_slice(), b"payload");
    assert_eq!(opened.header.note_id, id);
}

#[test]
fn a_changed_password_is_verified() {
    let new_password = "a different long passphrase";
    let (written, _) = encrypt_new(Uuid::from_u128(3), b"payload", new_password).ok().unwrap();
    let opened = verify_rekeyed(&written, PW, new_password).ok().unwrap();
    assert_eq!(opened.payload.as_slice(), b"payload");
}

#[test]
fn a_password_is_not_changed_without_the_old_one() {
    let new_password = "a different long passphrase";
    let (container, _) = encrypt_new(Uuid::from_u128(3), b"payload", PW).ok().unwrap();
    assert!(matches!(
        rekey_container(&container, "wrong password", new_password),
        Err(Error::DecryptionFailed)
    ));
    assert!(matches!(
        verify_rekeyed(&container, PW, new_password),
        Err(Error::Encryption(text)) if text == "re-key verification failed"
    ));
}

#[test]
fn what_is_drawn_decides_the_container() {
    let id = Uuid::from_u128(5);
    let (container, session) = encrypt_new_with(id, b"secret", PW, &[3; 16], &[4; 24])
        .ok()
        .unwrap();
    let header = inspect_header(&container).ok().unwrap();
    assert_eq!(header.note_id, id);
    assert_eq!(header.salt, [3; 16]);
    assert_eq!(header.nonce, [4; 24]);
    assert_eq!(container.len(), 88 + 6 + 16);
    let opened = decrypt(&container, PW).ok().unwrap();
    assert_eq!(opened.payload.as_slice(), b"secret");
    let saved = encrypt_with_session(id, b"later", &session).ok().unwrap();
    assert_eq!(inspect_header(&saved).ok().unwrap().salt, [3; 16]);
}
