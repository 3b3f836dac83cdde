use thissy::directory::Directory;
use thissy::records::{CredentialRecord, SubscriptionRecord};
use thissy::snapshot::{load, save, SnapshotError};

fn sample() -> Directory {
    let mut d = Directory::new();
    d.put_credential(CredentialRecord {
        external_user_id: 7,
        access_token: "acc-token".to_string(),
        refresh_token: "ref_token".to_string(),
        expires_at: 1000,
    });
    d.put_subscription(SubscriptionRecord {
        channel_id: 42,
        owner_user_id: 7,
        target_user_id: "spotifyuser".to_string(),
        playlist_id: "PL123".to_string(),
    });
    d
}

#[test]
fn empty_directory_saves_to_nothing() {
    let d = Directory::new();
    assert_eq!(save(&d), Vec::<u8>::new());
}

#[test]
fn empty_bytes_load_to_empty_directory() {
    let d = load(&[]).unwrap();
    assert_eq!(d.credential_count(), 0);
    assert_eq!(d.subscription_count(), 0);
}

#[test]
fn save_writes_one_line_per_record() {
    let d = sample();
    let bytes = save(&d);
    let text = String::from_utf8(bytes).unwrap();
    assert_eq!(text, "C 7 acc-token ref_token 1000\nS 42 7 spotifyuser PL123\n");
}

#[test]
fn load_reads_back_what_save_wrote() {
    let d = sample();
    let bytes = save(&d);
    let d2 = load(&bytes).unwrap();
    assert_eq!(d2.credential_count(), 1);
    assert_eq!(d2.subscription_count(), 1);
    let c = d2.get_credential(7).unwrap();
    assert_eq!(c.access_token, "acc-token".to_string());
    assert_eq!(c.refresh_token, "ref_token".to_string());
    assert_eq!(c.expires_at, 1000);
    let s = d2.get_subscription(42).unwrap();
    assert_eq!(s.owner_user_id, 7);
    assert_eq!(s.target_user_id, "spotifyuser".to_string());
    assert_eq!(s.playlist_id, "PL123".to_string());
}

#[test]
fn save_after_load_is_byte_identical() {
    let d = sample();
    let bytes = save(&d);
    let d2 = load(&bytes).unwrap();
    assert_eq!(save(&d2), bytes);
}

#[test]
fn known_bytes_parse_to_records() {
    let bytes = b"C 9 tokA tokB 99\nS 5 9 someone pl9\n";
    let d = load(bytes).unwrap();
    let c = d.get_credential(9).unwrap();
    assert_eq!(c.access_token, "tokA".to_string());
    assert_eq!(c.expires_at, 99);
    let s = d.get_subscription(5).unwrap();
    assert_eq!(s.playlist_id, "pl9".to_string());
}

#[test]
fn unknown_tag_lines_are_skipped() {
    let bytes = b"# a comment line\nC 9 tokA tokB 99\n";
    let d = load(bytes).unwrap();
    assert_eq!(d.credential_count(), 1);
}

#[test]
fn malformed_credential_line_is_corrupt() {
    assert!(matches!(load(b"C x\n"), Err(SnapshotError::Corrupt)));
}

#[test]
fn missing_final_newline_is_corrupt() {
    assert!(matches!(load(b"C 9 tokA tokB 99"), Err(SnapshotError::Corrupt)));
}

#[test]
fn duplicate_channel_is_corrupt() {
    let bytes = b"S 5 9 someone pl9\nS 5 9 someone pl9\n";
    assert!(matches!(load(bytes), Err(SnapshotError::Corrupt)));
}

#[test]
fn overflowing_number_is_corrupt() {
    assert!(matches!(
        load(b"C 99999999999999999999999 a b 1\n"),
        Err(SnapshotError::Corrupt)
    ));
}
