use ed25519_dalek::Signer;
use ed25519_dalek::SigningKey;
use promtuz::queue::dispatch_authorized;
use promtuz::queue::drain_rows;
use promtuz::queue::queue_room;
use promtuz::queue::MessageKey;
use promtuz::queue::PendingDrain;
use promtuz::queue::QueueRoom;
use promtuz::queue::ScanRow;
use promtuz::queue::MESSAGE_KEY_LEN;

fn key_for(recipient: [u8; 32], ts: u64, id: u8) -> Vec<u8> {
    MessageKey::new(&recipient, ts, &[id; 16]).as_bytes()
}

fn row(recipient: [u8; 32], ts: u64) -> ScanRow {
    ScanRow::Row { key: key_for(recipient, ts, 1), value_ok: true }
}

#[test]
fn message_keys_round_trip_and_sort_by_time() {
    let k = MessageKey::new(&[4u8; 32], 0x0102_0304_0506_0708, &[9u8; 16]);
    let bytes = k.as_bytes();
    assert_eq!(bytes.len(), MESSAGE_KEY_LEN);
    assert_eq!(&bytes[32..40], &[1, 2, 3, 4, 5, 6, 7, 8]);
    assert_eq!(MessageKey::parse(&bytes), Some(k));
    assert_eq!(MessageKey::parse(&bytes[..55]), None);
    assert!(key_for([4u8; 32], 10, 0) < key_for([4u8; 32], 11, 0));
}

#[test]
fn queue_is_full_at_the_cap_and_ignores_other_recipients() {
    let me = [1u8; 32];
    let other = [2u8; 32];
    let scan = vec![row(me, 1), row(me, 2), row(other, 3), row(other, 4)];
    assert_eq!(queue_room(&scan, &me, 3), QueueRoom::Room);
    assert_eq!(queue_room(&scan, &me, 2), QueueRoom::Full);
    assert_eq!(queue_room(&vec![], &me, 1), QueueRoom::Room);
    assert_eq!(queue_room(&vec![], &me, 0), QueueRoom::Full);
}

#[test]
fn queue_scan_failure_refuses_unless_the_cap_was_already_seen() {
    let me = [1u8; 32];
    let scan = vec![row(me, 1), ScanRow::Failed];
    assert_eq!(queue_room(&scan, &me, 5), QueueRoom::ScanFailed);
    // The scan stops after cap + 1 of the recipient's rows.
    let scan = vec![row(me, 1), row(me, 2), ScanRow::Failed];
    assert_eq!(queue_room(&scan, &me, 1), QueueRoom::Full);
}

#[test]
fn drain_sends_only_the_recipients_decodable_rows() {
    let me = [1u8; 32];
    let other = [2u8; 32];
    let scan = vec![
        row(me, 1),
        ScanRow::Row { key: vec![1u8; 40], value_ok: true },
        ScanRow::Row { key: key_for(me, 3, 2), value_ok: false },
        row(me, 4),
        row(other, 5),
        row(me, 6),
    ];
    assert_eq!(drain_rows(&scan, &me), vec![0, 3]);
    assert_eq!(drain_rows(&vec![row(me, 1), ScanRow::Failed, row(me, 2)], &me), vec![0]);
}

#[test]
fn dispatch_needs_the_session_identity_and_its_signature() {
    let key = SigningKey::from_bytes(&[31u8; 32]);
    let me = key.verifying_key().to_bytes();
    let transcript = b"dispatch transcript";
    let sig = key.sign(transcript).to_bytes();
    assert!(dispatch_authorized(&me, &me, transcript, &sig));
    assert!(!dispatch_authorized(&me, &[0u8; 32], transcript, &sig));
    assert!(!dispatch_authorized(&me, &me, b"another transcript", &sig));
    assert!(!dispatch_authorized(&me, &me, transcript, &[0u8; 64]));
}

#[test]
fn a_drain_remembers_what_it_sent_until_the_ack() {
    let me = [2u8; 32];
    let other = [3u8; 32];
    let scan = vec![
        row(me, 1),
        ScanRow::Row { key: vec![2u8; 40], value_ok: true },
        row(me, 2),
        row(other, 5),
    ];
    let mut pending = PendingDrain::new();
    assert_eq!(pending.drain(&scan, &me), vec![0, 2]);
    let first = vec![
        MessageKey::parse(&key_for(me, 1, 1)).unwrap(),
        MessageKey::parse(&key_for(me, 2, 1)).unwrap(),
    ];
    assert_eq!(pending.keys, first);
    // A second drain before the ack replaces the pending keys.
    let rescan = vec![row(me, 2), row(me, 3)];
    assert_eq!(pending.drain(&rescan, &me), vec![0, 1]);
    assert_eq!(pending.keys.len(), 2);
    assert_eq!(pending.keys[1].as_bytes(), key_for(me, 3, 1));
    let delete = pending.take_for_ack();
    assert_eq!(delete, vec![key_for(me, 2, 1), key_for(me, 3, 1)]);
    assert!(pending.keys.is_empty());
    assert!(pending.take_for_ack().is_empty());
}
