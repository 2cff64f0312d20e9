use vault_backup::timestamp::{chrono_now_iso, format_epoch_seconds};

#[test]
fn epoch_seconds_in_decimal() {
    assert_eq!(format_epoch_seconds(0), "0Z");
    assert_eq!(format_epoch_seconds(7), "7Z");
    assert_eq!(format_epoch_seconds(10), "10Z");
    assert_eq!(format_epoch_seconds(1700000000), "1700000000Z");
    assert_eq!(format_epoch_seconds(u64::MAX), "18446744073709551615Z");
}

#[test]
fn now_is_a_timestamp() {
    let now = chrono_now_iso();
    assert!(now.ends_with('Z'));
    assert!(now.len() >= 11);
    assert!(now[..now.len() - 1].chars().all(|c| c.is_ascii_digit()));
}
