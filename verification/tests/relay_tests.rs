use promtuz::presence::distinct_contacts;
use ed25519_dalek::Signer;
use promtuz::replica::verify_tombstone;
use promtuz::replica::TombstoneVerifyError;
use promtuz::replication::valid_publish;
use promtuz::replica::eviction_plan;
use promtuz::replica::PresenceRow;
use base64::Engine;
use promtuz::presence::announced_state;
use promtuz::presence::classify_contacts;
use promtuz::presence::forward_targets;
use promtuz::presence::keep_flagged;
use promtuz::presence::leaving_state;
use promtuz::presence::next_version;
use promtuz::presence::snapshot_state;
use promtuz::presence::subscribe_authorized;
use promtuz::presence::subscribe_sizes_ok;
use promtuz::presence::ConsentClaims;
use promtuz::presence::LeaseClaims;
use promtuz::presence::MAX_PRESENCE_CONTACTS;
use promtuz::replica::classify_key;
use promtuz::replica::compare_records;
use promtuz::replica::record_expired;
use promtuz::replica::store_outcome;
use promtuz::replica::tombstone_expired;
use promtuz::replica::tombstone_id_bound;
use promtuz::replica::tombstone_key;
use promtuz::replica::tombstone_outcome;
use promtuz::replica::KeyKind;
use promtuz::replica::Precedence;
use promtuz::replica::RecordRank;
use promtuz::replica::StoreOutcome;
use promtuz::replica::TombstoneOutcome;
use promtuz::replica::VerifyFailure;
use promtuz::replication::kp_publish_quorum;
use promtuz::replication::pending_admissible;
use promtuz::replication::publish_accepted;
use promtuz::replication::replication_settled;
use promtuz::replication::replication_targets;
use promtuz::replication::retry_schedule;
use promtuz::replication::MAX_PENDING_PUSHES;
use promtuz::replication::MAX_SKEW_MS;
use promtuz::routing::NodeContact;
use promtuz::net::IpAddress;
use promtuz::net::SockAddr;
use promtuz::config::PRESENCE_TTL_MS;
use promtuz::storage::PresenceState;
use promtuz::turn_auth::auth_key;
use promtuz::turn_auth::check_username;
use promtuz::turn_auth::credentials;
use promtuz::turn_auth::password_for;
use promtuz::turn_auth::turn_secret;
use promtuz::turn_auth::TurnAuthError;
use promtuz::turn_auth::CREDENTIAL_LIFETIME_MS;

fn rank(generation: u64, not_before: u64, relay: u8) -> RecordRank {
    RecordRank { generation, not_before, relay_id: [relay; 32] }
}

#[test]
fn store_record_higher_gen_replaces_lower() {
    let held = rank(1, 100, 1);
    assert_eq!(store_outcome(Ok(()), true, Some(held), &rank(2, 50, 0)), StoreOutcome::Stored);
    assert_eq!(store_outcome(Ok(()), true, None, &rank(1, 1, 1)), StoreOutcome::Stored);
}

#[test]
fn store_record_lower_gen_rejected_as_stale() {
    let held = rank(2, 100, 1);
    assert_eq!(store_outcome(Ok(()), true, Some(held), &rank(1, 200, 9)), StoreOutcome::Stale);
    assert_eq!(store_outcome(Ok(()), true, Some(held), &held), StoreOutcome::Stored, "an identical record is idempotent");
}

#[test]
fn store_record_refusals_come_in_order() {
    assert_eq!(store_outcome(Err(VerifyFailure::Invalid), true, None, &rank(1, 1, 1)), StoreOutcome::BadSig);
    assert_eq!(store_outcome(Err(VerifyFailure::Expired), true, None, &rank(1, 1, 1)), StoreOutcome::TtlExpired);
    assert_eq!(store_outcome(Err(VerifyFailure::NotYetValid), false, None, &rank(1, 1, 1)), StoreOutcome::TtlExpired);
    assert_eq!(store_outcome(Ok(()), false, None, &rank(1, 1, 1)), StoreOutcome::NotOwner);
}

#[test]
fn records_rank_by_generation_then_time_then_relay() {
    assert_eq!(compare_records(&rank(2, 0, 0), &rank(1, 9, 9)), Precedence::Newer);
    assert_eq!(compare_records(&rank(1, 9, 0), &rank(1, 8, 9)), Precedence::Newer);
    assert_eq!(compare_records(&rank(1, 8, 9), &rank(1, 8, 3)), Precedence::Newer);
    assert_eq!(compare_records(&rank(1, 8, 3), &rank(1, 8, 9)), Precedence::Older);
    assert_eq!(compare_records(&rank(1, 8, 3), &rank(1, 8, 3)), Precedence::Same);
}

#[test]
fn store_tombstone_supersedes_record_at_same_or_higher_gen() {
    assert_eq!(tombstone_outcome(true, true, Some(3), None, 3), TombstoneOutcome::Stored);
    assert_eq!(tombstone_outcome(true, true, Some(3), Some(2), 4), TombstoneOutcome::Stored);
}

#[test]
fn store_tombstone_with_lower_gen_rejected_as_stale() {
    assert_eq!(tombstone_outcome(true, true, Some(3), None, 2), TombstoneOutcome::Stale);
    assert_eq!(tombstone_outcome(true, true, None, Some(5), 4), TombstoneOutcome::Stale);
    assert_eq!(tombstone_outcome(false, true, None, None, 4), TombstoneOutcome::BadSig);
    assert_eq!(tombstone_outcome(true, false, None, None, 4), TombstoneOutcome::NotOwner);
}

#[test]
fn evict_expired_keeps_tombstones_inside_honour_window() {
    assert!(!tombstone_expired(1_000, 1_000 + 2 * PRESENCE_TTL_MS - 1));
    assert!(!tombstone_expired(1_000, 1_000 + 2 * PRESENCE_TTL_MS), "the window's last instant still honours it");
    assert!(tombstone_expired(1_000, 1_000 + 2 * PRESENCE_TTL_MS + 1));
    assert!(!tombstone_expired(u64::MAX - 5, u64::MAX), "a window past the clock's range never ends");
    assert!(record_expired(10, 10));
    assert!(!record_expired(11, 10));
}

#[test]
fn tombstone_keys_classify_apart_from_records() {
    let k = tombstone_key(&[4u8; 32]);
    assert_eq!(k[0], 0xff);
    assert_eq!(&k[1..], &[4u8; 32]);
    assert_eq!(classify_key(&k), KeyKind::Tombstone);
    assert_eq!(classify_key(&[4u8; 32]), KeyKind::Record);
    assert_eq!(classify_key(&[4u8; 33]), KeyKind::Unknown);
    let pk = [6u8; 32];
    assert!(tombstone_id_bound(blake3::hash(&pk).as_bytes(), &pk));
    assert!(!tombstone_id_bound(&[0u8; 32], &pk));
}

fn lease(me: u8, relay: u8, valid: bool) -> LeaseClaims {
    LeaseClaims { user: [me; 32], relay_id: [relay; 32], valid }
}

fn consent(owner: u8, recipient: u8, granted: bool) -> ConsentClaims {
    ConsentClaims { owner: [owner; 32], recipient: [recipient; 32], granted, valid: true }
}

#[test]
fn subscribe_needs_our_lease_our_consents_and_a_grant_per_contact() {
    let me = [1u8; 32];
    let relay = [9u8; 32];
    let contacts = vec![[2u8; 32], [3u8; 32]];
    let consents = vec![consent(1, 2, true), consent(1, 3, true)];
    assert!(subscribe_authorized(&contacts, &consents, &lease(1, 9, true), &me, &relay));
    assert!(!subscribe_authorized(&contacts, &consents, &lease(1, 8, true), &me, &relay));
    assert!(!subscribe_authorized(&contacts, &consents, &lease(1, 9, false), &me, &relay));
    assert!(!subscribe_authorized(&contacts, &vec![consent(1, 2, true), consent(1, 3, false)], &lease(1, 9, true), &me, &relay));
    assert!(!subscribe_authorized(&contacts, &vec![consent(1, 2, true), consent(4, 3, true)], &lease(1, 9, true), &me, &relay));
    assert!(subscribe_sizes_ok(MAX_PRESENCE_CONTACTS, 0));
    assert!(!subscribe_sizes_ok(MAX_PRESENCE_CONTACTS + 1, 0));
}

#[test]
fn only_mutual_contacts_learn_presence() {
    let me = [1u8; 32];
    let contacts = vec![[2u8; 32], [3u8; 32], [4u8; 32]];
    let theirs = vec![Some(vec![me]), Some(vec![[7u8; 32]]), None];
    let (mutual, unsubscribed) = classify_contacts(&contacts, &theirs, &me);
    assert_eq!(mutual, vec![[2u8; 32]]);
    assert_eq!(unsubscribed, vec![[4u8; 32]]);
    assert_eq!(keep_flagged(&unsubscribed, &vec![true]), vec![[4u8; 32]]);
    let many: Vec<[u8; 32]> = (0..300u16).map(|i| { let mut b = [0u8; 32]; b[..2].copy_from_slice(&i.to_be_bytes()); b }).collect();
    let flags = vec![true; 300];
    assert_eq!(forward_targets(&many, &flags).len(), MAX_PRESENCE_CONTACTS);
}

#[test]
fn presence_states_read_as_the_relay_shows_them() {
    assert_eq!(snapshot_state(true, Some(PresenceState::Offline { last_seen: 5 }), None), PresenceState::Online);
    assert_eq!(snapshot_state(false, None, None), PresenceState::Offline { last_seen: 0 });
    assert_eq!(snapshot_state(false, Some(PresenceState::Idle { since: 3 }), Some(9)), PresenceState::Idle { since: 3 });
    assert_eq!(announced_state(false, Some(9)), PresenceState::Offline { last_seen: 9 });
    assert_eq!(leaving_state(true, 100, Some(9)), (PresenceState::Offline { last_seen: 100 }, true));
    assert_eq!(leaving_state(false, 100, Some(9)), (PresenceState::Offline { last_seen: 9 }, false));
}

#[test]
fn presence_versions_only_grow() {
    assert_eq!(next_version(None, 100), 101);
    assert_eq!(next_version(Some(500), 100), 501);
    assert_eq!(next_version(Some(50), 100), 101);
    assert_eq!(next_version(Some(u64::MAX), 100), u64::MAX);
}

fn peer(n: u8) -> NodeContact {
    let mut id = [0u8; 32];
    id[0] = n;
    NodeContact { id, addr: SockAddr { ip: IpAddress::V4([10, 0, 0, n]), port: 1 }, last_seen: 0 }
}

#[test]
fn pseudonym_replication_targets_and_retries() {
    let homes = vec![peer(1), peer(2), peer(3)];
    assert_eq!(replication_targets(homes.clone(), true).len(), 2);
    assert_eq!(replication_targets(homes.clone(), false).len(), 3);
    assert_eq!(replication_targets(vec![peer(1)], true).len(), 1);
    assert!(!pending_admissible(true, MAX_PENDING_PUSHES));
    assert!(pending_admissible(false, MAX_PENDING_PUSHES));
    assert_eq!(retry_schedule(5, 3), vec![2, 0, 1]);
    assert_eq!(retry_schedule(usize::MAX, 40).len(), 32);
    assert_eq!(retry_schedule(usize::MAX, 40)[1], 0);
    assert!(publish_accepted(1_000_000, 1_000_000 + MAX_SKEW_MS, true, true, true));
    assert!(!publish_accepted(1_000_000, 1_000_000 + MAX_SKEW_MS + 1, true, true, true));
    assert!(replication_settled(false, &vec![false, true]));
    assert!(!replication_settled(false, &vec![false, false]));
}

#[test]
fn key_package_quorum_counts_self_and_remote_homes() {
    let q = kp_publish_quorum(true, &vec![true, false], 2);
    assert_eq!(q.homes_succeeded, 2);
    assert!(q.quorum_met);
    let q = kp_publish_quorum(false, &vec![false], 1);
    assert_eq!(q.homes_succeeded, 0);
    assert!(!q.quorum_met);
}

#[test]
fn minted_credentials_authenticate_until_they_expire() {
    let secret = turn_secret(&[5u8; 32]);
    let now = 1_700_000_000_000u64;
    let creds = credentials(&secret, &[7u8; 32], now);
    let expiry = (now + CREDENTIAL_LIFETIME_MS) / 1000;
    assert_eq!(creds.username, format!("{}:07070707", expiry));
    assert_eq!(check_username(&creds.username, now / 1000), Ok(expiry));
    let expected = turn::auth::generate_auth_key(&creds.username, "promtuz", &creds.password);
    assert_eq!(auth_key(&secret, &creds.username, "promtuz", now / 1000), Ok(expected.clone()));
    assert_eq!(auth_key(&secret, &creds.username, "promtuz", expiry), Ok(expected));
    assert_eq!(auth_key(&secret, &creds.username, "promtuz", expiry + 1), Err(TurnAuthError::Expired));

    let stale = credentials(&secret, &[7u8; 32], now - 2 * CREDENTIAL_LIFETIME_MS);
    assert_eq!(check_username(&stale.username, now / 1000), Err(TurnAuthError::Expired), "expired must be refused");
    assert_eq!(check_username("garbage", now / 1000), Err(TurnAuthError::Malformed));
    assert_eq!(auth_key(&secret, &stale.username, "promtuz", now / 1000), Err(TurnAuthError::Expired));
    assert_eq!(auth_key(&secret, "garbage", "promtuz", now / 1000), Err(TurnAuthError::Malformed));
    assert_eq!(auth_key(&secret, &creds.username, "promtuz", now / 1000).unwrap().len(), 16);
    assert_eq!(check_username("+99999999999:x", now / 1000), Ok(99_999_999_999));
    assert_eq!(check_username("99999999999999999999:x", 0), Err(TurnAuthError::Malformed));
}

#[test]
fn passwords_are_bound_to_the_relay_key() {
    let a = turn_secret(&[1u8; 32]);
    let again = turn_secret(&[1u8; 32]);
    let other = turn_secret(&[2u8; 32]);
    let creds = credentials(&a, &[1u8; 32], 1_700_000_000_000);
    assert_eq!(password_for(&again, &creds.username), creds.password);
    assert_ne!(password_for(&other, &creds.username), creds.password);
    let root = ring::hmac::Key::new(ring::hmac::HMAC_SHA256, &[1u8; 32]);
    let expect_secret = ring::hmac::sign(&root, b"promtuz turn secret v1");
    assert_eq!(a, expect_secret.as_ref().to_vec());
    let key = ring::hmac::Key::new(ring::hmac::HMAC_SHA256, &a);
    let tag = ring::hmac::sign(&key, creds.username.as_bytes());
    assert_eq!(creds.password, base64::engine::general_purpose::STANDARD.encode(tag.as_ref()));
}

fn record_row(ipk: u8, not_after: u64) -> PresenceRow {
    PresenceRow { key: vec![ipk; 32], record_not_after: Some(not_after), tombstone_deleted_at: None }
}

fn tombstone_row(ipk: u8, deleted_at: u64) -> PresenceRow {
    PresenceRow { key: tombstone_key(&[ipk; 32]).to_vec(), record_not_after: None, tombstone_deleted_at: Some(deleted_at) }
}

#[test]
fn evict_expired_removes_only_expired_records() {
    let now: u64 = 1_700_000_000_000;
    let rows = vec![record_row(1, now + 1_000), record_row(2, now + 600_000)];
    assert_eq!(eviction_plan(&rows, now + 5_000), vec![0]);
}

#[test]
fn lookup_record_returns_none_for_expired() {
    let now: u64 = 1_700_000_000_000;
    assert!(record_expired(now + 1_000, now + 5_000));
    assert!(!record_expired(now + 600_000, now + 5_000));
}

#[test]
fn evict_expired_drops_tombstones_past_honour_window() {
    let now: u64 = 1_700_000_000_000;
    let rows = vec![tombstone_row(1, now)];
    assert_eq!(eviction_plan(&rows, now + 2 * PRESENCE_TTL_MS + 1), vec![0]);
    assert_eq!(eviction_plan(&rows, now + 2 * PRESENCE_TTL_MS - 1), Vec::<usize>::new());
}

#[test]
fn store_record_tampered_fails_bad_sig() {
    assert_eq!(store_outcome(Err(VerifyFailure::Invalid), true, None, &rank(1, 1, 1)), StoreOutcome::BadSig);
}

#[test]
fn store_record_expired_fails_ttl() {
    let now: u64 = 1_700_000_000_000;
    assert!(record_expired(now + 1, now + 1_000));
    assert_eq!(store_outcome(Err(VerifyFailure::Expired), true, None, &rank(1, now, 0)), StoreOutcome::TtlExpired);
}

#[test]
fn eviction_leaves_unreadable_rows_alone() {
    let rows = vec![
        PresenceRow { key: vec![1u8; 32], record_not_after: None, tombstone_deleted_at: None },
        PresenceRow { key: vec![1u8; 31], record_not_after: Some(0), tombstone_deleted_at: Some(0) },
        record_row(3, 10),
    ];
    assert_eq!(eviction_plan(&rows, u64::MAX), vec![2]);
}

#[test]
fn tombstone_signature_checks_binding_key_and_signature_in_order() {
    let relay = ed25519_dalek::SigningKey::from_bytes(&[41u8; 32]);
    let pk = relay.verifying_key().to_bytes();
    let id = *blake3::hash(&pk).as_bytes();
    let transcript = b"tombstone transcript";
    let sig = relay.sign(transcript).to_bytes();
    assert_eq!(verify_tombstone(&id, &pk, transcript, &sig), Ok(()));
    assert_eq!(verify_tombstone(&[0u8; 32], &pk, transcript, &sig), Err(TombstoneVerifyError::RelayIdMismatch));
    assert_eq!(verify_tombstone(&id, &pk, b"other transcript", &sig), Err(TombstoneVerifyError::BadRelaySig));
    let bad_key = (0u8..=255)
        .map(|b| {
            let mut k = [0u8; 32];
            k[0] = b;
            k[31] = 0x7f;
            k
        })
        .find(|k| ed25519_dalek::VerifyingKey::from_bytes(k).is_err())
        .unwrap();
    let bad_id = *blake3::hash(&bad_key).as_bytes();
    assert_eq!(verify_tombstone(&bad_id, &bad_key, transcript, &sig), Err(TombstoneVerifyError::MalformedRelayPubkey));
}

#[test]
fn push_registration_needs_a_fresh_user_signature() {
    let user = ed25519_dalek::SigningKey::from_bytes(&[42u8; 32]);
    let ipk = user.verifying_key().to_bytes();
    let transcript = b"push pseudonym transcript";
    let sig = user.sign(transcript).to_bytes();
    let now: u64 = 1_700_000_000_000;
    assert!(valid_publish(now, now - MAX_SKEW_MS, &ipk, transcript, &sig));
    assert!(!valid_publish(now, now - MAX_SKEW_MS - 1, &ipk, transcript, &sig));
    assert!(!valid_publish(now, now, &ipk, b"another", &sig));
}

#[test]
fn repeated_contacts_count_once() {
    let r = distinct_contacts(&vec![[3u8; 32], [1u8; 32], [3u8; 32], [2u8; 32], [1u8; 32]]);
    assert_eq!(r, vec![[3u8; 32], [1u8; 32], [2u8; 32]]);
    assert_eq!(distinct_contacts(&vec![]), Vec::<[u8; 32]>::new());
}
