use vault_backup::encryption::EncryptionService;
use vault_backup::models::{Password, SecureRecord};
use vault_backup::records::{
    decrypt_note_content, decrypt_password_field, encrypt_note_content, encrypt_password_field, hash_password,
};

#[test]
fn master_password_digest_is_sha256_hex() {
    assert_eq!(hash_password("abc"), "ba7816bf8f01cfea414140de5dae2223b00361a396177a9cb410ff61f20015ad");
    assert_eq!(hash_password(""), "e3b0c44298fc1c149afbf4c8996fb92427ae41e4649b934ca495991b7852b855");
}

#[test]
fn credential_secret_round_trip() {
    let cipher = EncryptionService::new("k");
    let mut p = Password {
        id: Some(1),
        title: "Bank".to_string(),
        username: Some("me".to_string()),
        password: Some("s3cret".to_string()),
        url: None,
        notes: None,
        group_id: None,
        created_at: None,
        updated_at: None,
        last_used_at: None,
        use_count: Some(2),
        favorite: Some(true),
        tags: None,
    };
    encrypt_password_field(&cipher, &mut p).unwrap();
    assert_ne!(p.password, Some("s3cret".to_string()));
    assert_eq!(p.use_count, Some(2));
    decrypt_password_field(&cipher, &mut p);
    assert_eq!(p.password, Some("s3cret".to_string()));
    assert_eq!(p.title, "Bank");
}

#[test]
fn note_body_round_trip() {
    let cipher = EncryptionService::new("k");
    let mut n = SecureRecord {
        id: Some(3),
        title: "Diary".to_string(),
        content: Some("dear diary".to_string()),
        group_id: Some(4),
        pinned: Some(false),
        archived: None,
        created_at: None,
        updated_at: None,
    };
    encrypt_note_content(&cipher, &mut n).unwrap();
    assert_ne!(n.content, Some("dear diary".to_string()));
    decrypt_note_content(&cipher, &mut n);
    assert_eq!(n.content, Some("dear diary".to_string()));
    // a body that does not decrypt is kept as stored
    let mut legacy = n.clone();
    legacy.content = Some("legacy".to_string());
    decrypt_note_content(&cipher, &mut legacy);
    assert_eq!(legacy.content, Some("legacy".to_string()));
}
