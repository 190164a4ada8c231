use promtuz::util::control_command;
use promtuz::util::ControlCommand;
use promtuz::storage::consent_granted;
use promtuz::storage::last_seen_expired;
use promtuz::storage::presence_lease_expired;
use promtuz::storage::last_seen_read;
use promtuz::storage::last_seen_value;
use promtuz::storage::presence_consent_write;
use promtuz::storage::presence_state_read;
use promtuz::storage::presence_state_write;
use promtuz::storage::push_pseudonym_read;
use promtuz::storage::push_pseudonym_value;
use promtuz::storage::sweep_plan;
use promtuz::storage::MaintenanceState;
use promtuz::storage::PersistBarrier;
use promtuz::storage::PresenceConsent;
use promtuz::storage::PresenceState;
use promtuz::storage::Row;
use promtuz::storage::SweepKind;
use promtuz::storage::IDLE_IDENTITY_TTL_MS;
use promtuz::storage::MAX_SWEEP_REMOVALS;
use promtuz::storage::MAX_SWEEP_SCAN;
use promtuz::storage::PRESENCE_STATE_TTL_MS;
use promtuz::storage::PRESENCE_VERSION_MAX_LEAD_MS;

fn consent(version: u64, issued_at_ms: u64, granted: bool) -> PresenceConsent {
    PresenceConsent { owner: [1u8; 32], recipient: [2u8; 32], version, issued_at_ms, granted }
}

/// The consent row after a write attempt: the new value if accepted.
fn put(stored: &mut Option<Vec<u8>>, c: &PresenceConsent) -> bool {
    match presence_consent_write(stored.as_deref(), if stored.is_some() { 1 } else { 0 }, c) {
        Some(v) => {
            *stored = Some(v);
            true
        },
        None => false,
    }
}

fn put_state(stored: &mut Option<Vec<u8>>, s: PresenceState, version: u64, observed: u64) -> bool {
    match presence_state_write(stored.as_deref(), s, version, observed) {
        Some(v) => {
            *stored = Some(v);
            true
        },
        None => false,
    }
}

#[test]
fn last_seen_roundtrips_and_defaults_to_none() {
    assert_eq!(last_seen_read(&[]), None, "an unrecorded identity has no value");
    let v = last_seen_value(1_700_000_000_000);
    assert_eq!(last_seen_read(&v), Some(1_700_000_000_000));
}

#[test]
fn push_pseudonym_roundtrips() {
    assert_eq!(push_pseudonym_read(&[]), None);
    let v = push_pseudonym_value(&[9u8; 32], 5);
    assert_eq!(push_pseudonym_read(&v), Some([9u8; 32]));
}

#[test]
fn presence_consent_rejects_replayed_version() {
    let now = 1_700_000_000_000;
    let mut row: Option<Vec<u8>> = None;
    assert!(put(&mut row, &consent(7, now, true)));
    assert!(consent_granted(row.as_deref()));

    assert!(!put(&mut row, &consent(6, now, true)));
    assert!(!put(&mut row, &consent(7, now, true)));
    assert!(put(&mut row, &consent(8, now, false)));
    assert!(!consent_granted(row.as_deref()));
    assert!(!put(&mut row, &consent(8, now, true)));
    assert!(!consent_granted(row.as_deref()));
}

#[test]
fn presence_state_rejects_version_beyond_observed_lead() {
    let now = 1_700_000_000_000;
    let mut row: Option<Vec<u8>> = None;
    assert!(!put_state(&mut row, PresenceState::Online, u64::MAX, now));
    assert_eq!(row, None);
}

#[test]
fn presence_state_row_is_replaceable_once_stale() {
    let t0 = 1_700_000_000_000;
    let high = t0 + PRESENCE_VERSION_MAX_LEAD_MS;
    let mut row: Option<Vec<u8>> = None;
    assert!(put_state(&mut row, PresenceState::Online, high, t0));
    assert!(!put_state(&mut row, PresenceState::Online, high, t0 + 1), "a fresh row still wins on version");
    let later = t0 + PRESENCE_STATE_TTL_MS + 1;
    assert!(put_state(&mut row, PresenceState::Online, 1, later), "a stale row is treated as absent");
}

#[test]
fn presence_state_reads_back_what_was_written() {
    let t0 = 1_700_000_000_000;
    let mut row: Option<Vec<u8>> = None;
    assert!(put_state(&mut row, PresenceState::Offline { last_seen: 42 }, t0, t0));
    let v = row.unwrap();
    assert_eq!(presence_state_read(&v, t0 + 1), Some(PresenceState::Offline { last_seen: 42 }));
    assert_eq!(presence_state_read(&v, t0 + PRESENCE_STATE_TTL_MS + 1), None);
}

fn last_seen_row(n: u64, ts: u64) -> Row {
    let mut key = vec![0u8; 32];
    key[..8].copy_from_slice(&n.to_be_bytes());
    Row { key, value: last_seen_value(ts), lease_expiry: None }
}

#[test]
fn sweep_removes_only_expired_rows() {
    let now = 10 * IDLE_IDENTITY_TTL_MS;
    let rows = vec![last_seen_row(1, now), last_seen_row(2, now - IDLE_IDENTITY_TTL_MS - 1)];
    let plan = sweep_plan(&rows, SweepKind::LastSeen, now);
    assert_eq!(plan.expired, vec![1]);
    assert_eq!(plan.resume, None);
    assert!(!last_seen_expired(&rows[0].value, now));
    assert!(last_seen_expired(&rows[1].value, now));
}

#[test]
fn sweep_resumes_from_cursor_until_keyspace_is_drained() {
    let now = 10 * IDLE_IDENTITY_TTL_MS;
    let stale = now - IDLE_IDENTITY_TTL_MS - 1;
    let total = MAX_SWEEP_REMOVALS + 32;
    let rows: Vec<Row> = (0..total as u64).map(|i| last_seen_row(i, stale)).collect();

    let first = sweep_plan(&rows, SweepKind::LastSeen, now);
    assert_eq!(first.expired.len(), MAX_SWEEP_REMOVALS);
    let cursor = first.resume.expect("budget exhausted mid-keyspace");
    assert_eq!(cursor, MAX_SWEEP_REMOVALS - 1);

    let rest: Vec<Row> = (cursor as u64 + 1..total as u64).map(|i| last_seen_row(i, stale)).collect();
    let second = sweep_plan(&rest, SweepKind::LastSeen, now);
    assert_eq!(second.expired.len(), total - MAX_SWEEP_REMOVALS);
    assert_eq!(second.resume, None);
}

#[test]
fn lease_rows_expire_once_their_own_expiry_has_passed() {
    let lease = |n: u8, expiry: Option<u64>| Row { key: vec![n; 32], value: vec![0xAA; 8], lease_expiry: expiry };
    let rows = vec![lease(1, Some(1_000)), lease(2, Some(999)), lease(3, None), lease(4, Some(2_000))];
    let plan = sweep_plan(&rows, SweepKind::PresenceLease, 1_000);
    assert_eq!(plan.expired, vec![1, 2]);
    assert_eq!(plan.resume, None);
    assert!(!presence_lease_expired(Some(1_000), 1_000));
    assert!(presence_lease_expired(Some(1_000), 1_001));
    assert!(presence_lease_expired(None, 0));
}

#[test]
fn a_sweep_pass_stops_at_its_scan_budget() {
    let now = 10 * IDLE_IDENTITY_TTL_MS;
    let rows: Vec<Row> = (0..MAX_SWEEP_SCAN as u64 + 5).map(|i| last_seen_row(i, now)).collect();
    let plan = sweep_plan(&rows, SweepKind::LastSeen, now);
    assert!(plan.expired.is_empty());
    assert_eq!(plan.resume, Some(MAX_SWEEP_SCAN - 1));
}

#[test]
fn persist_barrier_waits_for_a_covering_commit() {
    let mut state = MaintenanceState::new();
    let barrier = PersistBarrier::take(&mut state);
    assert!(!state.barrier_done(barrier.target));
    let covered = state.take_commit().expect("a persist was requested");
    state.finish_commit(covered, true);
    assert!(state.barrier_done(barrier.target));
    assert!(state.barrier_result().is_ok());
}

#[test]
fn shutdown_makes_a_last_commit_and_releases_barriers() {
    let mut state = MaintenanceState::new();
    assert_eq!(state.take_commit(), None);
    state.request_persist();
    let barrier = PersistBarrier::take(&mut state);
    state.request_shutdown();
    assert!(state.shutdown);
    assert!(state.barrier_done(barrier.target));
    assert_eq!(state.take_commit(), Some(2));
    assert_eq!(state.take_commit(), Some(2));
}

#[test]
fn control_lines_are_trimmed_and_matched_exactly() {
    assert_eq!(control_command("clear-db\n"), ControlCommand::ClearDb);
    assert_eq!(control_command("  clear-db \t"), ControlCommand::ClearDb);
    assert_eq!(control_command("clear-dbx\n"), ControlCommand::Unknown("clear-dbx".to_string()));
    assert_eq!(control_command("\n"), ControlCommand::Unknown(String::new()));
}
