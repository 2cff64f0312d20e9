use vault_backup::encryption::{CipherError, EncryptionService, APP_KEY_MATERIAL};
use vault_backup::snapshot::{decrypt_field, encrypt_field};

#[test]
fn test_encrypt_decrypt() {
    let service = EncryptionService::new("test_key_12345");
    let plaintext = "Hello, 世界!";

    let encrypted = service.encrypt(plaintext).unwrap();
    assert!(!encrypted.is_empty());
    assert_ne!(encrypted, plaintext);

    let decrypted = service.decrypt(&encrypted).unwrap();
    assert_eq!(decrypted, plaintext);
}

#[test]
fn test_empty_string() {
    let service = EncryptionService::new("test_key");

    let encrypted = service.encrypt("").unwrap();
    assert_eq!(encrypted, "");

    let decrypted = service.decrypt("").unwrap();
    assert_eq!(decrypted, "");
}

#[test]
fn token_has_iv_and_whole_blocks() {
    let service = EncryptionService::new("k");
    // 5 bytes pad to one block: 16 + 16 bytes, 44 base64 characters.
    let token = service.encrypt("hello").unwrap();
    assert_eq!(token.len(), 44);
    // 16 bytes pad to two blocks: 48 bytes, 64 characters.
    let token = service.encrypt("0123456789abcdef").unwrap();
    assert_eq!(token.len(), 64);
}

#[test]
fn fresh_iv_per_call() {
    let service = EncryptionService::new("k");
    let a = service.encrypt("same text").unwrap();
    let b = service.encrypt("same text").unwrap();
    assert_ne!(a, b);
    assert_eq!(service.decrypt(&a).unwrap(), "same text");
    assert_eq!(service.decrypt(&b).unwrap(), "same text");
}

#[test]
fn fixed_iv_gives_fixed_token() {
    let service = EncryptionService::new("k");
    let iv = [7u8; 16];
    let a = service.encrypt_with_iv("secret", &iv);
    let b = service.encrypt_with_iv("secret", &iv);
    assert_eq!(a, b);
    assert_ne!(a, "secret");
    assert_eq!(service.decrypt(&a).unwrap(), "secret");
    assert_eq!(service.encrypt_with_iv("", &iv), "");
}

#[test]
fn app_key_is_derived_from_its_material() {
    let app = EncryptionService::new_with_app_key();
    let same = EncryptionService::new(APP_KEY_MATERIAL);
    let token = app.encrypt("vault").unwrap();
    assert_eq!(same.decrypt(&token).unwrap(), "vault");
    assert_eq!(EncryptionService::get_or_create_app_key(), APP_KEY_MATERIAL);
}

#[test]
fn wrong_key_is_reported() {
    let a = EncryptionService::new("right key");
    let b = EncryptionService::new("wrong key");
    let token = a.encrypt_with_iv("a secret that is rather longer than one block", &[3u8; 16]);
    assert!(b.decrypt(&token).is_err());
}

#[test]
fn altered_token_is_reported() {
    let service = EncryptionService::new("k");
    let token = service.encrypt_with_iv("tamper me, please, with care", &[9u8; 16]);
    // Changing the last base64 character before the padding alters the final
    // cipher block, which scrambles the padding and the text.
    let mut chars: Vec<char> = token.chars().collect();
    let pos = chars.iter().rposition(|c| *c != '=').unwrap();
    chars[pos] = if chars[pos] == 'A' { 'B' } else { 'A' };
    let altered: String = chars.into_iter().collect();
    assert!(service.decrypt(&altered).is_err());
}

#[test]
fn malformed_tokens_have_distinct_errors() {
    let service = EncryptionService::new("k");
    assert_eq!(service.decrypt("not base64!"), Err(CipherError::InvalidEncoding));
    // 16 bytes only: an IV without a block.
    assert_eq!(service.decrypt("AAAAAAAAAAAAAAAAAAAAAA=="), Err(CipherError::TooShort));
    // 20 bytes: the ciphertext is not whole blocks.
    assert_eq!(service.decrypt("AAAAAAAAAAAAAAAAAAAAAAAAAAA="), Err(CipherError::BadBlockLength));
}

#[test]
fn field_helpers_round_trip() {
    let service = EncryptionService::new("k");
    let sealed = encrypt_field(&service, &Some("pw".to_string()));
    assert!(sealed.is_some());
    assert_ne!(sealed, Some("pw".to_string()));
    assert_eq!(decrypt_field(&service, &sealed), Some("pw".to_string()));
    assert_eq!(encrypt_field(&service, &None), None);
    assert_eq!(decrypt_field(&service, &None), None);
    assert_eq!(encrypt_field(&service, &Some(String::new())), Some(String::new()));
}

#[test]
fn legacy_plaintext_is_kept_on_export() {
    let service = EncryptionService::new("k");
    let legacy = Some("plain old value".to_string());
    assert_eq!(decrypt_field(&service, &legacy), legacy);
}
