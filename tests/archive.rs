use vault_backup::archive::{
    check_export_options, decode_archive, encode_archive, is_protected_archive, ArchiveFormat, BackupError,
};

#[test]
fn plain_archive_is_the_payload() {
    let payload = b"{\"version\":\"1.0\"}".to_vec();
    let archive = encode_archive(&payload, ArchiveFormat::Plain, None).unwrap();
    assert_eq!(archive, payload);
    assert!(!is_protected_archive(&archive));
    assert_eq!(decode_archive(&archive, None).unwrap(), payload);
    assert_eq!(decode_archive(&archive, Some("ignored")).unwrap(), payload);
}

#[test]
fn protected_archive_round_trip() {
    let payload = b"{\"version\":\"1.0\",\"groups\":[]}".to_vec();
    let archive = encode_archive(&payload, ArchiveFormat::Protected, Some("abc123")).unwrap();
    assert_ne!(archive, payload);
    assert!(is_protected_archive(&archive));
    assert_eq!(&archive[..2], b"PK");
    assert_eq!(decode_archive(&archive, Some("abc123")).unwrap(), payload);
}

#[test]
fn protected_archive_wrong_passphrase_is_opaque() {
    let payload = b"{\"version\":\"1.0\"}".to_vec();
    let archive = encode_archive(&payload, ArchiveFormat::Protected, Some("abc123")).unwrap();
    assert_eq!(decode_archive(&archive, Some("wrong")), Err(BackupError::CannotOpenArchive));
    assert_eq!(decode_archive(&archive, Some("")), Err(BackupError::CannotOpenArchive));
}

#[test]
fn damaged_protected_archive_is_opaque() {
    let bytes = b"PK this is no zip archive".to_vec();
    assert_eq!(decode_archive(&bytes, Some("abc123")), Err(BackupError::CannotOpenArchive));
}

#[test]
fn passphrase_is_required_for_protected_mode() {
    let payload = b"{}".to_vec();
    assert_eq!(encode_archive(&payload, ArchiveFormat::Protected, None), Err(BackupError::PassphraseRequired));
    assert_eq!(check_export_options(ArchiveFormat::Protected, None), Err(BackupError::PassphraseRequired));
    assert_eq!(check_export_options(ArchiveFormat::Protected, Some("p")), Ok(()));
    assert_eq!(check_export_options(ArchiveFormat::Plain, None), Ok(()));
    let archive = encode_archive(&payload, ArchiveFormat::Protected, Some("p")).unwrap();
    assert_eq!(decode_archive(&archive, None), Err(BackupError::PassphraseRequired));
}

#[test]
fn signature_needs_two_bytes() {
    assert!(!is_protected_archive(b"P"));
    assert!(!is_protected_archive(b""));
    assert!(is_protected_archive(b"PK"));
    assert!(!is_protected_archive(b"KP"));
}
