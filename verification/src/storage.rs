//! The relay store's record rules: value layouts of the presence, identity and
//! queue keyspaces, which writes supersede what is stored, which rows have
//! expired, the bounded expiry sweep, and the group-commit bookkeeping behind
//! persist barriers. The keyspaces themselves live on disk; this module decides
//! what is written and removed.

use vstd::prelude::*;

use crate::codec::be_u64;
use crate::codec::be_u64_at;
use crate::codec::lemma_u64_be_roundtrip;
use crate::codec::push_bytes;
use crate::codec::push_u64_be;
use crate::codec::u64_be_spec;

verus! {

/// Presence-state rows older than this (by `observed_at_ms`) are stale.
pub const PRESENCE_STATE_TTL_MS: u64 = 600_000;

/// How far a presence version may lead its own `observed_at_ms`.
pub const PRESENCE_VERSION_MAX_LEAD_MS: u64 = 60_000;

/// Quiet identities (consent, last-seen, push pseudonym) expire after 90 days.
pub const IDLE_IDENTITY_TTL_MS: u64 = 7_776_000_000;

/// Undelivered messages are held for 30 days.
pub const QUEUED_MESSAGE_TTL_MS: u64 = 2_592_000_000;

/// Ceiling on `presence_consent` rows.
pub const MAX_PRESENCE_CONSENT_ROWS: usize = 1_000_000;

/// Rows one sweep pass may scan.
pub const MAX_SWEEP_SCAN: usize = 65_536;

/// Rows one sweep pass may remove.
pub const MAX_SWEEP_REMOVALS: usize = 4_096;

/// `a - b`, or 0 when `b > a`.
pub open spec fn sat_sub(a: u64, b: u64) -> u64 {
    if a >= b {
        (a - b) as u64
    } else {
        0
    }
}

/// `a + b`, or `u64::MAX` when it would overflow.
pub open spec fn sat_add(a: u64, b: u64) -> u64 {
    if a + b <= u64::MAX {
        (a + b) as u64
    } else {
        u64::MAX
    }
}

// ---------------------------------------------------------------------------
// Keys and values
// ---------------------------------------------------------------------------

/// `a || b`: the 64-byte key of an `(owner, recipient)` pair.
pub fn pair_key(a: &[u8; 32], b: &[u8; 32]) -> (k: [u8; 64])
    ensures
        k@ == a@ + b@,
{
    let mut k = [0u8; 64];
    let mut i: usize = 0;
    while i < 32
        invariant
            i <= 32,
            k@.len() == 64,
            forall|j: int| 0 <= j < i ==> k@[j] == a@[j],
            forall|j: int| 0 <= j < i ==> k@[32 + j] == b@[j],
        decreases 32 - i,
    {
        k[i] = a[i];
        k[32 + i] = b[i];
        i += 1;
    }
    assert(k@ =~= a@ + b@);
    k
}

/// A signed presence-sharing grant (or revocation) from `owner` to `recipient`.
pub struct PresenceConsent {
    pub owner: [u8; 32],
    pub recipient: [u8; 32],
    pub version: u64,
    pub issued_at_ms: u64,
    pub granted: bool,
}

/// Stored consent layout: `version (u64 BE) || issued_at_ms (u64 BE) || granted (u8)`.
pub open spec fn consent_value_spec(version: u64, issued_at_ms: u64, granted: bool) -> Seq<u8> {
    u64_be_spec(version) + u64_be_spec(issued_at_ms) + seq![if granted { 1u8 } else { 0u8 }]
}

/// What `put_presence_consent` writes given the stored row and the keyspace
/// size: nothing when the stored version is at least as new, or when the row
/// is new and the keyspace is full; otherwise the encoded consent.
pub open spec fn consent_write_spec(stored: Option<Seq<u8>>, rows: nat, c: PresenceConsent) -> Option<Seq<u8>> {
    match stored {
        Some(v) => match be_u64_at(v, 0) {
            Some(old) => if old >= c.version {
                None
            } else {
                Some(consent_value_spec(c.version, c.issued_at_ms, c.granted))
            },
            None => Some(consent_value_spec(c.version, c.issued_at_ms, c.granted)),
        },
        None => if rows >= MAX_PRESENCE_CONSENT_ROWS {
            None
        } else {
            Some(consent_value_spec(c.version, c.issued_at_ms, c.granted))
        },
    }
}

/// The value to store for `consent`, or `None` when the write is refused.
pub fn presence_consent_write(stored: Option<&[u8]>, rows: usize, consent: &PresenceConsent) -> (r: Option<Vec<u8>>)
    ensures
        match r {
            Some(v) => consent_write_spec(
                match stored { Some(s) => Some(s@), None => None },
                rows as nat,
                *consent,
            ) == Some(v@),
            None => consent_write_spec(
                match stored { Some(s) => Some(s@), None => None },
                rows as nat,
                *consent,
            ) is None,
        },
{
    match stored {
        Some(v) => {
            match be_u64(v, 0) {
                Some(old) => {
                    if old >= consent.version {
                        return None;
                    }
                },
                None => {},
            }
        },
        None => {
            if rows >= MAX_PRESENCE_CONSENT_ROWS {
                return None;
            }
        },
    }
    let mut value: Vec<u8> = Vec::new();
    push_u64_be(&mut value, consent.version);
    push_u64_be(&mut value, consent.issued_at_ms);
    value.push(if consent.granted { 1u8 } else { 0u8 });
    assert(value@ =~= consent_value_spec(consent.version, consent.issued_at_ms, consent.granted));
    Some(value)
}

/// A stored consent row grants presence iff its flag byte is 1.
pub fn consent_granted(stored: Option<&[u8]>) -> (r: bool)
    ensures
        r == match stored {
            Some(v) => v@.len() > 16 && v@[16] == 1u8,
            None => false,
        },
{
    match stored {
        Some(v) => v.len() > 16 && v[16] == 1u8,
        None => false,
    }
}

/// A contact's presence as relayed to its subscribers.
#[derive(Clone, Copy, Debug, PartialEq, Eq)]
pub enum PresenceState {
    Online,
    Idle { since: u64 },
    Offline { last_seen: u64 },
}

pub open spec fn state_tag(s: PresenceState) -> u8 {
    match s {
        PresenceState::Online => 0,
        PresenceState::Idle { .. } => 1,
        PresenceState::Offline { .. } => 2,
    }
}

pub open spec fn state_stamp(s: PresenceState) -> u64 {
    match s {
        PresenceState::Online => 0,
        PresenceState::Idle { since } => since,
        PresenceState::Offline { last_seen } => last_seen,
    }
}

/// Stored presence-state layout:
/// `version (u64 BE) || observed_at_ms (u64 BE) || tag (u8) || timestamp (u64 BE)`.
pub open spec fn state_value_spec(s: PresenceState, version: u64, observed_at_ms: u64) -> Seq<u8> {
    u64_be_spec(version) + u64_be_spec(observed_at_ms) + seq![state_tag(s)] + u64_be_spec(state_stamp(s))
}

/// A presence-state row is expired when it has no observation stamp or the
/// stamp is more than [`PRESENCE_STATE_TTL_MS`] behind `now_ms`.
pub open spec fn presence_state_expired_spec(value: Seq<u8>, now_ms: u64) -> bool {
    match be_u64_at(value, 8) {
        Some(observed_at) => sat_sub(now_ms, observed_at) > PRESENCE_STATE_TTL_MS,
        None => true,
    }
}

/// What `put_presence_state` writes: nothing when the version leads the
/// observation by more than [`PRESENCE_VERSION_MAX_LEAD_MS`], or when a live
/// stored row is at least as new in version or in observation time.
pub open spec fn state_write_spec(
    stored: Option<Seq<u8>>,
    s: PresenceState,
    version: u64,
    observed_at_ms: u64,
) -> Option<Seq<u8>> {
    if version > sat_add(observed_at_ms, PRESENCE_VERSION_MAX_LEAD_MS) {
        None
    } else if stored is Some && !presence_state_expired_spec(stored->0, observed_at_ms) && (
    (be_u64_at(stored->0, 0) is Some && be_u64_at(stored->0, 0)->0 >= version) || (be_u64_at(
        stored->0,
        8,
    ) is Some && be_u64_at(stored->0, 8)->0 >= observed_at_ms)) {
        None
    } else {
        Some(state_value_spec(s, version, observed_at_ms))
    }
}

fn presence_state_expired(value: &[u8], now_ms: u64) -> (r: bool)
    ensures
        r == presence_state_expired_spec(value@, now_ms),
{
    match be_u64(value, 8) {
        Some(observed_at) => now_ms.saturating_sub(observed_at) > PRESENCE_STATE_TTL_MS,
        None => true,
    }
}

/// The value to store for a presence state, or `None` when the write is refused.
pub fn presence_state_write(
    stored: Option<&[u8]>,
    state: PresenceState,
    version: u64,
    observed_at_ms: u64,
) -> (r: Option<Vec<u8>>)
    ensures
        match r {
            Some(v) => state_write_spec(
                match stored { Some(s) => Some(s@), None => None },
                state,
                version,
                observed_at_ms,
            ) == Some(v@),
            None => state_write_spec(
                match stored { Some(s) => Some(s@), None => None },
                state,
                version,
                observed_at_ms,
            ) is None,
        },
{
    if version > observed_at_ms.saturating_add(PRESENCE_VERSION_MAX_LEAD_MS) {
        return None;
    }
    match stored {
        Some(v) => {
            if !presence_state_expired(v, observed_at_ms) {
                let newer_version = match be_u64(v, 0) {
                    Some(old) => old >= version,
                    None => false,
                };
                let newer_observation = match be_u64(v, 8) {
                    Some(old) => old >= observed_at_ms,
                    None => false,
                };
                if newer_version || newer_observation {
                    return None;
                }
            }
        },
        None => {},
    }
    let (tag, timestamp) = match state {
        PresenceState::Online => (0u8, 0u64),
        PresenceState::Idle { since } => (1u8, since),
        PresenceState::Offline { last_seen } => (2u8, last_seen),
    };
    let mut value: Vec<u8> = Vec::new();
    push_u64_be(&mut value, version);
    push_u64_be(&mut value, observed_at_ms);
    value.push(tag);
    push_u64_be(&mut value, timestamp);
    assert(value@ =~= state_value_spec(state, version, observed_at_ms));
    Some(value)
}

/// What `get_presence_state` reads from a stored row at `now_ms`.
pub open spec fn state_read_spec(value: Seq<u8>, now_ms: u64) -> Option<PresenceState> {
    if presence_state_expired_spec(value, now_ms) || value.len() < 25 {
        None
    } else {
        let ts = be_u64_at(value, 17)->0;
        if value[16] == 0u8 {
            Some(PresenceState::Online)
        } else if value[16] == 1u8 {
            Some(PresenceState::Idle { since: ts })
        } else if value[16] == 2u8 {
            Some(PresenceState::Offline { last_seen: ts })
        } else {
            None
        }
    }
}

/// The presence state a stored row holds, unless it is stale or malformed.
pub fn presence_state_read(value: &[u8], now_ms: u64) -> (r: Option<PresenceState>)
    ensures
        r == state_read_spec(value@, now_ms),
{
    if presence_state_expired(value, now_ms) {
        return None;
    }
    let timestamp = match be_u64(value, 17) {
        Some(t) => t,
        None => {
            return None;
        },
    };
    let tag = value[16];
    if tag == 0 {
        Some(PresenceState::Online)
    } else if tag == 1 {
        Some(PresenceState::Idle { since: timestamp })
    } else if tag == 2 {
        Some(PresenceState::Offline { last_seen: timestamp })
    } else {
        None
    }
}

/// A lease replaces the stored one only if its version is strictly newer (or
/// nothing readable is stored).
pub fn lease_supersedes(stored_version: Option<u64>, version: u64) -> (r: bool)
    ensures
        r == match stored_version {
            Some(old) => old < version,
            None => true,
        },
{
    match stored_version {
        Some(old) => !(old >= version),
        None => true,
    }
}

/// Stored last-seen layout: the unix-ms stamp as 8 big-endian bytes.
pub fn last_seen_value(ts_ms: u64) -> (v: Vec<u8>)
    ensures
        v@ == u64_be_spec(ts_ms),
{
    let mut v: Vec<u8> = Vec::new();
    push_u64_be(&mut v, ts_ms);
    v
}

/// The last-seen stamp of a stored row; rows of any other length read as none.
pub fn last_seen_read(value: &[u8]) -> (r: Option<u64>)
    ensures
        r == if value@.len() == 8 { be_u64_at(value@, 0) } else { None },
{
    if value.len() != 8 {
        return None;
    }
    be_u64(value, 0)
}

/// Stored push-pseudonym layout: `pseudonym (32B) || refreshed_at_ms (u64 BE)`.
pub fn push_pseudonym_value(pseudonym: &[u8; 32], refreshed_at_ms: u64) -> (v: Vec<u8>)
    ensures
        v@ == pseudonym@ + u64_be_spec(refreshed_at_ms),
{
    let mut v: Vec<u8> = Vec::new();
    push_bytes(&mut v, pseudonym);
    push_u64_be(&mut v, refreshed_at_ms);
    v
}

/// The pseudonym held by a stored row: its first 32 bytes.
pub fn push_pseudonym_read(value: &[u8]) -> (r: Option<[u8; 32]>)
    ensures
        match r {
            Some(p) => value@.len() >= 32 && p@ == value@.subrange(0, 32),
            None => value@.len() < 32,
        },
{
    if value.len() < 32 {
        return None;
    }
    let mut p = [0u8; 32];
    let mut i: usize = 0;
    while i < 32
        invariant
            i <= 32,
            value@.len() >= 32,
            p@.len() == 32,
            forall|j: int| 0 <= j < i ==> p@[j] == value@[j],
        decreases 32 - i,
    {
        p[i] = value[i];
        i += 1;
    }
    assert(p@ =~= value@.subrange(0, 32));
    Some(p)
}

// ---------------------------------------------------------------------------
// Expiry
// ---------------------------------------------------------------------------

/// The keyspaces the periodic sweep visits, each with its own expiry rule.
#[derive(Clone, Copy, Debug, PartialEq, Eq)]
pub enum SweepKind {
    /// `messages` and `dht_queue`: acceptance time lives in the key.
    QueuedMessage,
    LastSeen,
    PresenceConsent,
    PresenceState,
    /// `presence_lease`: the lease's own expiry, read from its decoded value.
    PresenceLease,
    PushPseudonym,
}

/// Whether a row of `kind` has expired at `now_ms`; `lease_expiry` is what a
/// lease row's value decodes to (`None` when it does not decode).
pub open spec fn expired_spec(
    kind: SweepKind,
    key: Seq<u8>,
    value: Seq<u8>,
    lease_expiry: Option<u64>,
    now_ms: u64,
) -> bool {
    match kind {
        SweepKind::QueuedMessage => match be_u64_at(key, 32) {
            Some(accepted_at) => sat_sub(now_ms, accepted_at) > QUEUED_MESSAGE_TTL_MS,
            None => true,
        },
        SweepKind::LastSeen => match be_u64_at(value, 0) {
            Some(ts) => sat_sub(now_ms, ts) > IDLE_IDENTITY_TTL_MS,
            None => true,
        },
        SweepKind::PresenceConsent => match be_u64_at(value, 8) {
            Some(issued_at) => sat_sub(now_ms, issued_at) > IDLE_IDENTITY_TTL_MS,
            None => true,
        },
        SweepKind::PresenceState => presence_state_expired_spec(value, now_ms),
        SweepKind::PresenceLease => match lease_expiry {
            Some(e) => now_ms > e,
            None => true,
        },
        SweepKind::PushPseudonym => match be_u64_at(value, 32) {
            Some(refreshed_at) => sat_sub(now_ms, refreshed_at) > IDLE_IDENTITY_TTL_MS,
            None => false,
        },
    }
}

/// Queue rows carry their acceptance time in the key
/// (`recipient(32) || ts_be(8) || id(16)`); a key without one is expired.
pub fn queued_message_expired(key: &[u8], now_ms: u64) -> (r: bool)
    ensures
        r == expired_spec(SweepKind::QueuedMessage, key@, Seq::empty(), None, now_ms),
{
    match be_u64(key, 32) {
        Some(accepted_at) => now_ms.saturating_sub(accepted_at) > QUEUED_MESSAGE_TTL_MS,
        None => true,
    }
}

pub fn last_seen_expired(value: &[u8], now_ms: u64) -> (r: bool)
    ensures
        r == expired_spec(SweepKind::LastSeen, Seq::empty(), value@, None, now_ms),
{
    match be_u64(value, 0) {
        Some(ts) => now_ms.saturating_sub(ts) > IDLE_IDENTITY_TTL_MS,
        None => true,
    }
}

pub fn presence_consent_expired(value: &[u8], now_ms: u64) -> (r: bool)
    ensures
        r == expired_spec(SweepKind::PresenceConsent, Seq::empty(), value@, None, now_ms),
{
    match be_u64(value, 8) {
        Some(issued_at) => now_ms.saturating_sub(issued_at) > IDLE_IDENTITY_TTL_MS,
        None => true,
    }
}

/// Rows in the older 32-byte shape carry no stamp and are kept.
pub fn push_pseudonym_expired(value: &[u8], now_ms: u64) -> (r: bool)
    ensures
        r == expired_spec(SweepKind::PushPseudonym, Seq::empty(), value@, None, now_ms),
{
    match be_u64(value, 32) {
        Some(refreshed_at) => now_ms.saturating_sub(refreshed_at) > IDLE_IDENTITY_TTL_MS,
        None => false,
    }
}

/// A presence lease is expired once `now_ms` passes its expiry (or it cannot
/// be decoded, `None`).
pub fn presence_lease_expired(expires_at_ms: Option<u64>, now_ms: u64) -> (r: bool)
    ensures
        r == expired_spec(SweepKind::PresenceLease, Seq::empty(), Seq::empty(), expires_at_ms, now_ms),
{
    match expires_at_ms {
        Some(e) => now_ms > e,
        None => true,
    }
}

/// Whether a row of `kind` has expired at `now_ms`.
pub fn row_expired(kind: SweepKind, row: &Row, now_ms: u64) -> (r: bool)
    ensures
        r == row_expired_spec(kind, *row, now_ms),
{
    match kind {
        SweepKind::QueuedMessage => queued_message_expired(&row.key, now_ms),
        SweepKind::LastSeen => last_seen_expired(&row.value, now_ms),
        SweepKind::PresenceConsent => presence_consent_expired(&row.value, now_ms),
        SweepKind::PresenceState => presence_state_expired(&row.value, now_ms),
        SweepKind::PresenceLease => presence_lease_expired(row.lease_expiry, now_ms),
        SweepKind::PushPseudonym => push_pseudonym_expired(&row.value, now_ms),
    }
}

// ---------------------------------------------------------------------------
// How long rows are kept
// ---------------------------------------------------------------------------

/// The stamp `t` written big-endian after `head` reads back from there.
proof fn lemma_stamp_reads_back(head: Seq<u8>, t: u64, tail: Seq<u8>)
    ensures
        be_u64_at(head + u64_be_spec(t) + tail, head.len() as int) == Some(t),
{
    lemma_u64_be_roundtrip(t);
    let v = head + u64_be_spec(t) + tail;
    assert(v.subrange(head.len() as int, head.len() + 8int) =~= u64_be_spec(t));
}

/// A queued message whose key (`recipient || accepted_at || id`) says it
/// was accepted at `t` is held while at most thirty days have passed since
/// `t` and swept once more have; a key too short to carry the time is swept.
pub proof fn law_queued_message_kept_thirty_days(
    recipient: Seq<u8>,
    t: u64,
    id: Seq<u8>,
    value: Seq<u8>,
    lease: Option<u64>,
    now_ms: u64,
)
    requires
        recipient.len() == 32,
    ensures
        expired_spec(SweepKind::QueuedMessage, recipient + u64_be_spec(t) + id, value, lease, now_ms) == (
        now_ms > t && now_ms - t > QUEUED_MESSAGE_TTL_MS),
        QUEUED_MESSAGE_TTL_MS == 30 * 24 * 3_600_000,
        (recipient + id).len() < 40 ==> expired_spec(SweepKind::QueuedMessage, recipient + id, value, lease, now_ms),
{
    lemma_stamp_reads_back(recipient, t, id);
}

/// A last-seen row stamped `t` is kept while at most ninety days have
/// passed since `t`; one with no stamp is swept.
pub proof fn law_last_seen_kept_ninety_days(t: u64, tail: Seq<u8>, key: Seq<u8>, lease: Option<u64>, now_ms: u64)
    ensures
        expired_spec(SweepKind::LastSeen, key, u64_be_spec(t) + tail, lease, now_ms) == (now_ms > t && now_ms - t
            > IDLE_IDENTITY_TTL_MS),
        IDLE_IDENTITY_TTL_MS == 90 * 24 * 3_600_000,
        tail.len() < 8 ==> expired_spec(SweepKind::LastSeen, key, tail, lease, now_ms),
{
    lemma_stamp_reads_back(Seq::empty(), t, tail);
    assert(Seq::<u8>::empty() + u64_be_spec(t) + tail =~= u64_be_spec(t) + tail);
}

/// A consent issued at `t` (stored after its first eight bytes) is kept
/// while at most ninety days have passed since `t`; one too short to carry
/// the stamp is swept.
pub proof fn law_consent_kept_ninety_days(head: Seq<u8>, t: u64, tail: Seq<u8>, key: Seq<u8>, lease: Option<u64>, now_ms: u64)
    requires
        head.len() == 8,
    ensures
        expired_spec(SweepKind::PresenceConsent, key, head + u64_be_spec(t) + tail, lease, now_ms) == (now_ms > t
            && now_ms - t > IDLE_IDENTITY_TTL_MS),
        (head + tail).len() < 16 ==> expired_spec(SweepKind::PresenceConsent, key, head + tail, lease, now_ms),
{
    lemma_stamp_reads_back(head, t, tail);
}

/// A presence state observed at `t` is kept while at most ten minutes have
/// passed since `t`; one too short to carry the stamp is swept.
pub proof fn law_presence_state_kept_ten_minutes(
    version: Seq<u8>,
    t: u64,
    tail: Seq<u8>,
    key: Seq<u8>,
    lease: Option<u64>,
    now_ms: u64,
)
    requires
        version.len() == 8,
    ensures
        expired_spec(SweepKind::PresenceState, key, version + u64_be_spec(t) + tail, lease, now_ms) == (now_ms > t
            && now_ms - t > PRESENCE_STATE_TTL_MS),
        PRESENCE_STATE_TTL_MS == 10 * 60_000,
        (version + tail).len() < 16 ==> expired_spec(SweepKind::PresenceState, key, version + tail, lease, now_ms),
{
    lemma_stamp_reads_back(version, t, tail);
}

/// A push pseudonym refreshed at `t` is kept while at most ninety days
/// have passed since `t`; a row in the older shape without a stamp is
/// never swept.
pub proof fn law_push_pseudonym_kept_ninety_days(
    pseudonym: Seq<u8>,
    t: u64,
    tail: Seq<u8>,
    key: Seq<u8>,
    lease: Option<u64>,
    now_ms: u64,
)
    requires
        pseudonym.len() == 32,
    ensures
        expired_spec(SweepKind::PushPseudonym, key, pseudonym + u64_be_spec(t) + tail, lease, now_ms) == (now_ms
            > t && now_ms - t > IDLE_IDENTITY_TTL_MS),
        (pseudonym + tail).len() < 40 ==> !expired_spec(SweepKind::PushPseudonym, key, pseudonym + tail, lease, now_ms),
{
    lemma_stamp_reads_back(pseudonym, t, tail);
}

/// A presence lease is kept up to and including its own expiry instant and
/// swept after it; a lease that does not decode is swept.
pub proof fn law_lease_kept_until_its_expiry(key: Seq<u8>, value: Seq<u8>, e: u64, now_ms: u64)
    ensures
        expired_spec(SweepKind::PresenceLease, key, value, Some(e), now_ms) == (now_ms > e),
        expired_spec(SweepKind::PresenceLease, key, value, None, now_ms),
{
}

// ---------------------------------------------------------------------------
// Bounded sweep
// ---------------------------------------------------------------------------

/// One row as the sweep sees it. `lease_expiry` is what the value of a
/// `presence_lease` row decodes to (`None` when it does not decode); the
/// other keyspaces' rules read the bytes and leave it unread.
pub struct Row {
    pub key: Vec<u8>,
    pub value: Vec<u8>,
    pub lease_expiry: Option<u64>,
}

pub open spec fn row_expired_spec(kind: SweepKind, r: Row, now_ms: u64) -> bool {
    expired_spec(kind, r.key@, r.value@, r.lease_expiry, now_ms)
}

/// Number of expired rows among the first `n`.
pub open spec fn expired_count(rows: Seq<Row>, kind: SweepKind, now_ms: u64, n: int) -> nat
    decreases n,
{
    if n <= 0 {
        0
    } else {
        expired_count(rows, kind, now_ms, n - 1) + if row_expired_spec(kind, rows[n - 1], now_ms) {
            1nat
        } else {
            0nat
        }
    }
}

/// The budget runs out after row `i` when `i + 1` rows were scanned or
/// [`MAX_SWEEP_REMOVALS`] expired rows were found.
pub open spec fn budget_spent(rows: Seq<Row>, kind: SweepKind, now_ms: u64, i: int) -> bool {
    i + 1 >= MAX_SWEEP_SCAN || expired_count(rows, kind, now_ms, i + 1) >= MAX_SWEEP_REMOVALS
}

/// The first row at or after `i` on which the budget runs out.
pub open spec fn sweep_stop_from(rows: Seq<Row>, kind: SweepKind, now_ms: u64, i: int) -> Option<int>
    decreases rows.len() - i,
{
    if i < 0 || i >= rows.len() {
        None
    } else if budget_spent(rows, kind, now_ms, i) {
        Some(i)
    } else {
        sweep_stop_from(rows, kind, now_ms, i + 1)
    }
}

/// Indices (ascending) of the expired rows among the first `n`.
pub open spec fn expired_indices(rows: Seq<Row>, kind: SweepKind, now_ms: u64, n: int) -> Seq<usize>
    decreases n,
{
    if n <= 0 {
        Seq::empty()
    } else if row_expired_spec(kind, rows[n - 1], now_ms) {
        expired_indices(rows, kind, now_ms, n - 1).push((n - 1) as usize)
    } else {
        expired_indices(rows, kind, now_ms, n - 1)
    }
}

/// The outcome of one sweep pass: which rows to remove, and the row after
/// which the next pass resumes (none when the keyspace was drained).
pub struct SweepPlan {
    pub expired: Vec<usize>,
    pub resume: Option<usize>,
}

pub proof fn lemma_expired_indices_len(rows: Seq<Row>, kind: SweepKind, now_ms: u64, n: int)
    ensures
        expired_indices(rows, kind, now_ms, n).len() == expired_count(rows, kind, now_ms, n),
    decreases n,
{
    if n > 0 {
        lemma_expired_indices_len(rows, kind, now_ms, n - 1);
    }
}

/// Plan one bounded pass over `rows` (the rows after the cursor, in key order):
/// scan until the keyspace ends, [`MAX_SWEEP_SCAN`] rows were scanned or
/// [`MAX_SWEEP_REMOVALS`] expired rows were found.
pub fn sweep_plan(rows: &Vec<Row>, kind: SweepKind, now_ms: u64) -> (plan: SweepPlan)
    ensures
        match sweep_stop_from(rows@, kind, now_ms, 0) {
            Some(stop) => plan.resume == Some(stop as usize) && plan.expired@ == expired_indices(
                rows@,
                kind,
                now_ms,
                stop + 1,
            ),
            None => plan.resume is None && plan.expired@ == expired_indices(
                rows@,
                kind,
                now_ms,
                rows@.len() as int,
            ),
        },
        plan.expired@.len() <= MAX_SWEEP_REMOVALS,
        match plan.resume {
            Some(stop) => stop < MAX_SWEEP_SCAN,
            None => rows@.len() < MAX_SWEEP_SCAN,
        },
{
    let n = rows.len();
    let mut scanned: usize = 0;
    let mut expired: Vec<usize> = Vec::new();
    let mut i: usize = 0;
    while i < n
        invariant
            n == rows@.len(),
            i <= n,
            scanned == i,
            i < MAX_SWEEP_SCAN,
            expired@.len() < MAX_SWEEP_REMOVALS,
            expired@ == expired_indices(rows@, kind, now_ms, i as int),
            sweep_stop_from(rows@, kind, now_ms, 0) == sweep_stop_from(rows@, kind, now_ms, i as int),
        decreases n - i,
    {
        proof {
            lemma_expired_indices_len(rows@, kind, now_ms, i as int);
            lemma_expired_indices_len(rows@, kind, now_ms, i + 1);
        }
        if row_expired(kind, &rows[i], now_ms) {
            expired.push(i);
        }
        scanned += 1;
        if scanned >= MAX_SWEEP_SCAN || expired.len() >= MAX_SWEEP_REMOVALS {
            return SweepPlan { expired, resume: Some(i) };
        }
        i += 1;
    }
    SweepPlan { expired, resume: None }
}

// ---------------------------------------------------------------------------
// Group commit
// ---------------------------------------------------------------------------

/// Shared state between writers, the maintenance thread that fsyncs, and
/// barrier waiters.
pub struct MaintenanceState {
    pub persist_requested: bool,
    pub shutdown: bool,
    /// Bumped per write; a commit that observes a value covers every write
    /// numbered at or below it.
    pub requested_gen: u64,
    pub persisted_gen: u64,
    pub persist_failed: bool,
}

impl MaintenanceState {
    pub fn new() -> (s: MaintenanceState)
        ensures
            !s.persist_requested && !s.shutdown && !s.persist_failed,
            s.requested_gen == 0 && s.persisted_gen == 0,
    {
        MaintenanceState {
            persist_requested: false,
            shutdown: false,
            requested_gen: 0,
            persisted_gen: 0,
            persist_failed: false,
        }
    }

    /// Record a write that needs an fsync; returns its generation number.
    pub fn request_persist(&mut self) -> (g: u64)
        requires
            old(self).requested_gen < u64::MAX,
        ensures
            g == old(self).requested_gen + 1,
            final(self).requested_gen == g,
            final(self).persist_requested,
            final(self).shutdown == old(self).shutdown,
            final(self).persisted_gen == old(self).persisted_gen,
            final(self).persist_failed == old(self).persist_failed,
    {
        self.persist_requested = true;
        self.requested_gen = self.requested_gen + 1;
        self.requested_gen
    }

    /// The maintenance thread's turn: if a commit is due (requested or shutting
    /// down), clear the request and return the generation it will cover.
    pub fn take_commit(&mut self) -> (covered: Option<u64>)
        ensures
            covered == if old(self).persist_requested || old(self).shutdown {
                Some(old(self).requested_gen)
            } else {
                None
            },
            !final(self).persist_requested,
            final(self).shutdown == old(self).shutdown,
            final(self).requested_gen == old(self).requested_gen,
            final(self).persisted_gen == old(self).persisted_gen,
            final(self).persist_failed == old(self).persist_failed,
    {
        let due = self.persist_requested || self.shutdown;
        self.persist_requested = false;
        if due {
            Some(self.requested_gen)
        } else {
            None
        }
    }

    /// Record the result of the commit that covered `covered`.
    pub fn finish_commit(&mut self, covered: u64, ok: bool)
        ensures
            final(self).persisted_gen == covered,
            final(self).persist_failed == (old(self).persist_failed || !ok),
            final(self).persist_requested == old(self).persist_requested,
            final(self).shutdown == old(self).shutdown,
            final(self).requested_gen == old(self).requested_gen,
    {
        if !ok {
            self.persist_failed = true;
        }
        self.persisted_gen = covered;
    }

    /// The store is closing: the maintenance thread makes one last commit and
    /// stops, and every barrier stops waiting.
    pub fn request_shutdown(&mut self)
        ensures
            final(self).shutdown,
            final(self).persist_requested == old(self).persist_requested,
            final(self).requested_gen == old(self).requested_gen,
            final(self).persisted_gen == old(self).persisted_gen,
            final(self).persist_failed == old(self).persist_failed,
    {
        self.shutdown = true;
    }

    /// A barrier for generation `target` stops waiting once a commit covered it
    /// or the store is shutting down.
    pub fn barrier_done(&self, target: u64) -> (r: bool)
        ensures
            r == (self.persisted_gen >= target || self.shutdown),
    {
        !(self.persisted_gen < target && !self.shutdown)
    }

    /// The barrier's result once it stopped waiting: an error if any fsync
    /// failed, since that poisons the database.
    pub fn barrier_result(&self) -> (r: Result<(), ()>)
        ensures
            r is Ok <==> !self.persist_failed,
    {
        if self.persist_failed {
            Err(())
        } else {
            Ok(())
        }
    }
}

/// Resolves once the group commit covering the writes behind it has hit disk.
pub struct PersistBarrier {
    pub target: u64,
}

impl PersistBarrier {
    /// Take a barrier covering every write issued so far: it requests a
    /// commit and waits for the generation that request got.
    pub fn take(state: &mut MaintenanceState) -> (b: PersistBarrier)
        requires
            old(state).requested_gen < u64::MAX,
        ensures
            b.target == old(state).requested_gen + 1,
            final(state).requested_gen == b.target,
            final(state).persist_requested,
            final(state).persisted_gen == old(state).persisted_gen,
            final(state).shutdown == old(state).shutdown,
            final(state).persist_failed == old(state).persist_failed,
    {
        let target = state.request_persist();
        PersistBarrier { target }
    }
}

// ---------------------------------------------------------------------------
// Laws
// ---------------------------------------------------------------------------

/// A stored consent refuses every later consent for the same pair whose
/// version is not newer (replay protection).
pub proof fn law_consent_rejects_replayed_version(c: PresenceConsent, replay: PresenceConsent, rows: nat)
    requires
        replay.version <= c.version,
    ensures
        consent_write_spec(Some(consent_value_spec(c.version, c.issued_at_ms, c.granted)), rows, replay) is None,
{
    let v = consent_value_spec(c.version, c.issued_at_ms, c.granted);
    crate::codec::lemma_u64_be_roundtrip(c.version);
    assert(v.subrange(0, 8) =~= u64_be_spec(c.version));
}

/// A consent is written when it is news: the first consent for a pair is
/// stored while the keyspace has room (and refused once it is full), and a
/// stored consent gives way to one with a newer version.
pub proof fn law_consent_accepts_news(c: PresenceConsent, newer: PresenceConsent, rows: nat)
    ensures
        rows < MAX_PRESENCE_CONSENT_ROWS ==> consent_write_spec(None, rows, c) == Some(
            consent_value_spec(c.version, c.issued_at_ms, c.granted),
        ),
        rows >= MAX_PRESENCE_CONSENT_ROWS ==> consent_write_spec(None, rows, c) is None,
        newer.version > c.version ==> consent_write_spec(
            Some(consent_value_spec(c.version, c.issued_at_ms, c.granted)),
            rows,
            newer,
        ) == Some(consent_value_spec(newer.version, newer.issued_at_ms, newer.granted)),
{
    let v = consent_value_spec(c.version, c.issued_at_ms, c.granted);
    crate::codec::lemma_u64_be_roundtrip(c.version);
    assert(v.subrange(0, 8) =~= u64_be_spec(c.version));
}

/// A presence state is written when it is news: onto an empty slot, onto a
/// row gone stale, or over a row it beats in both version and observation
/// time; never when its version runs more than
/// [`PRESENCE_VERSION_MAX_LEAD_MS`] ahead of its own observation.
pub proof fn law_presence_state_accepts_news(
    s: PresenceState,
    version: u64,
    observed_at_ms: u64,
    s2: PresenceState,
    version2: u64,
    observed2: u64,
)
    ensures
        version2 <= observed2 + PRESENCE_VERSION_MAX_LEAD_MS ==> state_write_spec(None, s2, version2, observed2) == Some(
            state_value_spec(s2, version2, observed2),
        ),
        version2 > observed2 + PRESENCE_VERSION_MAX_LEAD_MS ==> state_write_spec(
            Some(state_value_spec(s, version, observed_at_ms)),
            s2,
            version2,
            observed2,
        ) is None && state_write_spec(None, s2, version2, observed2) is None,
        version2 <= observed2 + PRESENCE_VERSION_MAX_LEAD_MS && version2 > version && observed2 > observed_at_ms
            ==> state_write_spec(Some(state_value_spec(s, version, observed_at_ms)), s2, version2, observed2) == Some(
            state_value_spec(s2, version2, observed2),
        ),
        version2 <= observed2 + PRESENCE_VERSION_MAX_LEAD_MS && observed2 > observed_at_ms && observed2 - observed_at_ms
            > PRESENCE_STATE_TTL_MS ==> state_write_spec(Some(state_value_spec(s, version, observed_at_ms)), s2, version2, observed2)
            == Some(state_value_spec(s2, version2, observed2)),
{
    let v = state_value_spec(s, version, observed_at_ms);
    crate::codec::lemma_u64_be_roundtrip(version);
    crate::codec::lemma_u64_be_roundtrip(observed_at_ms);
    assert(v.subrange(0, 8) =~= u64_be_spec(version));
    assert(v.subrange(8, 16) =~= u64_be_spec(observed_at_ms));
}

/// A stored consent row grants presence exactly when the consent did.
pub proof fn law_consent_granted_roundtrip(version: u64, issued_at_ms: u64, granted: bool)
    ensures
        ({
            let v = consent_value_spec(version, issued_at_ms, granted);
            v.len() > 16 && (v[16] == 1u8) == granted
        }),
{
    let v = consent_value_spec(version, issued_at_ms, granted);
    assert(v[16] == (if granted { 1u8 } else { 0u8 }));
}

/// Reading a presence state back before it goes stale gives the state written.
pub proof fn law_presence_state_roundtrip(s: PresenceState, version: u64, observed_at_ms: u64, now_ms: u64)
    requires
        sat_sub(now_ms, observed_at_ms) <= PRESENCE_STATE_TTL_MS,
    ensures
        state_read_spec(state_value_spec(s, version, observed_at_ms), now_ms) == Some(s),
{
    let v = state_value_spec(s, version, observed_at_ms);
    crate::codec::lemma_u64_be_roundtrip(observed_at_ms);
    crate::codec::lemma_u64_be_roundtrip(state_stamp(s));
    assert(v.subrange(8, 16) =~= u64_be_spec(observed_at_ms));
    assert(v.subrange(17, 25) =~= u64_be_spec(state_stamp(s)));
    assert(v[16] == state_tag(s));
}

/// A live presence row keeps every write that is not newer in both version
/// and observation time.
pub proof fn law_presence_state_not_replaced_by_older(
    s: PresenceState,
    version: u64,
    observed_at_ms: u64,
    s2: PresenceState,
    version2: u64,
    observed2: u64,
)
    requires
        version2 <= version || observed2 <= observed_at_ms,
        sat_sub(observed2, observed_at_ms) <= PRESENCE_STATE_TTL_MS,
    ensures
        state_write_spec(Some(state_value_spec(s, version, observed_at_ms)), s2, version2, observed2) is None,
{
    let v = state_value_spec(s, version, observed_at_ms);
    crate::codec::lemma_u64_be_roundtrip(version);
    crate::codec::lemma_u64_be_roundtrip(observed_at_ms);
    assert(v.subrange(0, 8) =~= u64_be_spec(version));
    assert(v.subrange(8, 16) =~= u64_be_spec(observed_at_ms));
}

/// Every row the plan removes has expired, and it is among the rows scanned.
pub proof fn law_sweep_removes_only_expired(rows: Seq<Row>, kind: SweepKind, now_ms: u64, n: int, k: int)
    requires
        0 <= n <= rows.len(),
        rows.len() <= usize::MAX,
        0 <= k < expired_indices(rows, kind, now_ms, n).len(),
    ensures
        ({
            let i = expired_indices(rows, kind, now_ms, n)[k] as int;
            0 <= i < n && row_expired_spec(kind, rows[i], now_ms)
        }),
    decreases n,
{
    let prev = expired_indices(rows, kind, now_ms, n - 1);
    if row_expired_spec(kind, rows[n - 1], now_ms) {
        if k < prev.len() {
            law_sweep_removes_only_expired(rows, kind, now_ms, n - 1, k);
            assert(expired_indices(rows, kind, now_ms, n)[k] == prev[k]);
        }
    } else {
        law_sweep_removes_only_expired(rows, kind, now_ms, n - 1, k);
    }
}

/// Every expired row among those scanned is removed.
pub proof fn law_sweep_removes_every_expired(rows: Seq<Row>, kind: SweepKind, now_ms: u64, n: int, i: int)
    requires
        0 <= i < n <= rows.len(),
        rows.len() <= usize::MAX,
        row_expired_spec(kind, rows[i], now_ms),
    ensures
        expired_indices(rows, kind, now_ms, n).contains(i as usize),
    decreases n,
{
    let prev = expired_indices(rows, kind, now_ms, n - 1);
    if i == n - 1 {
        assert(expired_indices(rows, kind, now_ms, n).last() == i as usize);
    } else {
        law_sweep_removes_every_expired(rows, kind, now_ms, n - 1, i);
        let j = choose|j: int| 0 <= j < prev.len() && prev[j] == i as usize;
        if row_expired_spec(kind, rows[n - 1], now_ms) {
            assert(expired_indices(rows, kind, now_ms, n)[j] == i as usize);
        }
    }
}

} // verus!
