//! A relay's replica of presence records: the key layout of records and
//! tombstones, which of two records for one user wins, what a `Store` or a
//! `Tombstone` is answered, and when a held entry expires.

use vstd::prelude::*;

use crate::bytes::lex_lt;
use crate::config::PRESENCE_TTL_MS;
use crate::digest::blake3_digest;
use crate::digest::blake3_hash;
use crate::handshake::ed25519_key_decodes;
use crate::handshake::ed25519_point_valid;
use crate::handshake::ed25519_verify_nonstrict;
use crate::handshake::ed25519_verify_plain;

verus! {

/// First byte of a tombstone key; a record key is the bare 32-byte identity.
pub const TOMB_PREFIX: u8 = 0xff;

/// `TOMB_PREFIX` then the identity.
pub fn tombstone_key(ipk: &[u8; 32]) -> (k: [u8; 33])
    ensures
        k@ == seq![TOMB_PREFIX] + ipk@,
{
    let mut k = [0u8; 33];
    k[0] = TOMB_PREFIX;
    let mut i: usize = 0;
    while i < 32
        invariant
            i <= 32,
            k@[0] == TOMB_PREFIX,
            forall|j: int| 0 <= j < i ==> k@[j + 1] == ipk@[j],
        decreases 32 - i,
    {
        k[i + 1] = ipk[i];
        i += 1;
    }
    assert(k@ =~= seq![TOMB_PREFIX] + ipk@);
    k
}

/// What a key of the presence keyspace holds.
#[derive(Clone, Copy, Debug, PartialEq, Eq, Structural)]
pub enum KeyKind {
    /// A live record, keyed by the bare identity.
    Record,
    /// A tombstone for the identity after the prefix.
    Tombstone,
    /// Anything else, ignored.
    Unknown,
}

pub open spec fn classify_key_spec(k: Seq<u8>) -> KeyKind {
    if k.len() == 32 {
        KeyKind::Record
    } else if k.len() == 33 && k[0] == TOMB_PREFIX {
        KeyKind::Tombstone
    } else {
        KeyKind::Unknown
    }
}

pub fn classify_key(k: &[u8]) -> (r: KeyKind)
    ensures
        r == classify_key_spec(k@),
{
    if k.len() == 32 {
        KeyKind::Record
    } else if k.len() == 33 && k[0] == TOMB_PREFIX {
        KeyKind::Tombstone
    } else {
        KeyKind::Unknown
    }
}

/// A tombstone's key reads back as a tombstone, a record's as a record.
pub proof fn law_keys_classify(ipk: [u8; 32])
    ensures
        classify_key_spec(seq![TOMB_PREFIX] + ipk@) == KeyKind::Tombstone,
        classify_key_spec(ipk@) == KeyKind::Record,
{
}

// ---------------------------------------------------------------------------
// Which record wins
// ---------------------------------------------------------------------------

/// What decides between two records for one user: the higher generation,
/// then the later `not_before`, then the larger relay id.
#[derive(Clone, Copy, Debug, PartialEq, Eq)]
pub struct RecordRank {
    pub generation: u64,
    pub not_before: u64,
    pub relay_id: [u8; 32],
}

/// How an incoming record stands against the one held.
#[derive(Clone, Copy, Debug, PartialEq, Eq, Structural)]
pub enum Precedence {
    Newer,
    Same,
    Older,
}

pub open spec fn precedence_spec(a: RecordRank, b: RecordRank) -> Precedence {
    if a.generation != b.generation {
        if a.generation > b.generation { Precedence::Newer } else { Precedence::Older }
    } else if a.not_before != b.not_before {
        if a.not_before > b.not_before { Precedence::Newer } else { Precedence::Older }
    } else if a.relay_id == b.relay_id {
        Precedence::Same
    } else if lex_lt(b.relay_id@, a.relay_id@) {
        Precedence::Newer
    } else {
        Precedence::Older
    }
}

pub fn compare_records(a: &RecordRank, b: &RecordRank) -> (p: Precedence)
    ensures
        p == precedence_spec(*a, *b),
{
    if a.generation != b.generation {
        return if a.generation > b.generation { Precedence::Newer } else { Precedence::Older };
    }
    if a.not_before != b.not_before {
        return if a.not_before > b.not_before { Precedence::Newer } else { Precedence::Older };
    }
    if crate::bytes::eq32(&a.relay_id, &b.relay_id) {
        Precedence::Same
    } else if crate::bytes::lex_lt32(&b.relay_id, &a.relay_id) {
        Precedence::Newer
    } else {
        Precedence::Older
    }
}

/// The order is total and consistent: swapping the two records swaps the
/// answer, and only identical ranks tie.
pub proof fn law_precedence_antisymmetric(a: RecordRank, b: RecordRank)
    ensures
        precedence_spec(a, b) == Precedence::Newer <==> precedence_spec(b, a) == Precedence::Older,
        precedence_spec(a, b) == Precedence::Same <==> a == b,
{
    if a.generation == b.generation && a.not_before == b.not_before && a.relay_id != b.relay_id {
        assert(a.relay_id@ != b.relay_id@) by {
            if a.relay_id@ == b.relay_id@ {
                assert(a.relay_id =~= b.relay_id);
            }
        }
        crate::bytes::lemma_lex_total(a.relay_id@, b.relay_id@);
        crate::bytes::lemma_lex_asymmetric(a.relay_id@, b.relay_id@);
    }
}

/// Precedence is transitive: a record newer than one newer than a third is
/// newer than the third.
pub proof fn law_precedence_transitive(a: RecordRank, b: RecordRank, c: RecordRank)
    requires
        precedence_spec(a, b) == Precedence::Newer,
        precedence_spec(b, c) == Precedence::Newer,
    ensures
        precedence_spec(a, c) == Precedence::Newer,
{
    if a.generation == c.generation && a.not_before == c.not_before {
        crate::bytes::lemma_lex_transitive(c.relay_id@, b.relay_id@, a.relay_id@);
        crate::bytes::lemma_lex_irreflexive(a.relay_id@);
        if a.relay_id == c.relay_id {
            assert(a.relay_id@ == c.relay_id@);
        }
    }
}

// ---------------------------------------------------------------------------
// Store and Tombstone answers
// ---------------------------------------------------------------------------

/// Why a record failed its end-to-end check.
#[derive(Clone, Copy, Debug, PartialEq, Eq, Structural)]
pub enum VerifyFailure {
    Expired,
    NotYetValid,
    /// A bad signature or a malformed record.
    Invalid,
}

/// What a `Store` is answered.
#[derive(Clone, Copy, Debug, PartialEq, Eq, Structural)]
pub enum StoreOutcome {
    Stored,
    Stale,
    NotOwner,
    BadSig,
    TtlExpired,
}

/// A record outside its validity window is expired, any other failed check
/// a bad signature; then a relay not among the user's homes declines; then
/// a held record that wins makes the incoming one stale. An equal record is
/// stored again.
pub open spec fn store_outcome_spec(
    verified: Result<(), VerifyFailure>,
    owner: bool,
    existing: Option<RecordRank>,
    incoming: RecordRank,
) -> StoreOutcome {
    match verified {
        Err(VerifyFailure::Expired) => StoreOutcome::TtlExpired,
        Err(VerifyFailure::NotYetValid) => StoreOutcome::TtlExpired,
        Err(VerifyFailure::Invalid) => StoreOutcome::BadSig,
        Ok(()) => if !owner {
            StoreOutcome::NotOwner
        } else {
            match existing {
                Some(e) => if precedence_spec(incoming, e) == Precedence::Older {
                    StoreOutcome::Stale
                } else {
                    StoreOutcome::Stored
                },
                None => StoreOutcome::Stored,
            }
        },
    }
}

pub fn store_outcome(
    verified: Result<(), VerifyFailure>,
    owner: bool,
    existing: Option<RecordRank>,
    incoming: &RecordRank,
) -> (o: StoreOutcome)
    ensures
        o == store_outcome_spec(verified, owner, existing, *incoming),
{
    match verified {
        Err(VerifyFailure::Expired) => StoreOutcome::TtlExpired,
        Err(VerifyFailure::NotYetValid) => StoreOutcome::TtlExpired,
        Err(VerifyFailure::Invalid) => StoreOutcome::BadSig,
        Ok(()) => {
            if !owner {
                return StoreOutcome::NotOwner;
            }
            match existing {
                Some(e) => match compare_records(incoming, &e) {
                    Precedence::Older => StoreOutcome::Stale,
                    _ => StoreOutcome::Stored,
                },
                None => StoreOutcome::Stored,
            }
        },
    }
}

/// Replicas keep the larger record: a store that is accepted never replaces
/// a record that wins over it, and one that is refused as stale leaves a
/// winner in place.
pub proof fn law_store_keeps_winner(verified: Result<(), VerifyFailure>, owner: bool, e: RecordRank, incoming: RecordRank)
    ensures
        store_outcome_spec(verified, owner, Some(e), incoming) == StoreOutcome::Stored ==> precedence_spec(e, incoming)
            != Precedence::Newer,
        store_outcome_spec(verified, owner, Some(e), incoming) == StoreOutcome::Stale ==> precedence_spec(e, incoming)
            == Precedence::Newer,
{
    law_precedence_antisymmetric(incoming, e);
}

/// Which record is newer: the higher generation; at equal generations the
/// later `not_before`; at equal both, the larger relay id. A valid store at
/// a home keeps the incoming record exactly when it is not older than the
/// held one, and a record is stored again over an identical rank.
pub proof fn law_newer_record_wins(a: RecordRank, b: RecordRank)
    ensures
        a.generation > b.generation ==> precedence_spec(a, b) == Precedence::Newer,
        a.generation == b.generation && a.not_before > b.not_before ==> precedence_spec(a, b) == Precedence::Newer,
        a.generation == b.generation && a.not_before == b.not_before && lex_lt(b.relay_id@, a.relay_id@)
            ==> precedence_spec(a, b) == Precedence::Newer,
        a == b ==> precedence_spec(a, b) == Precedence::Same,
        a.generation > b.generation ==> store_outcome_spec(Ok(()), true, Some(b), a) == StoreOutcome::Stored
            && store_outcome_spec(Ok(()), true, Some(a), b) == StoreOutcome::Stale,
        store_outcome_spec(Ok(()), true, Some(a), a) == StoreOutcome::Stored,
        store_outcome_spec(Ok(()), true, None, a) == StoreOutcome::Stored,
        store_outcome_spec(Ok(()), false, Some(b), a) == StoreOutcome::NotOwner,
{
    crate::bytes::lemma_lex_asymmetric(b.relay_id@, a.relay_id@);
}

/// The record a replica holds after a valid store reaches it as a home:
/// the incoming one when it is stored, else what it held.
pub open spec fn held_after(held: Option<RecordRank>, incoming: RecordRank) -> Option<RecordRank> {
    if store_outcome_spec(Ok(()), true, held, incoming) == StoreOutcome::Stored {
        Some(incoming)
    } else {
        held
    }
}

/// Replicas converge whatever the order stores arrive in: a home that
/// receives two valid records, in either order, ends up holding the one
/// that ranks higher; the later, lower one is answered `Stale`.
pub proof fn law_store_order_independent(a: RecordRank, b: RecordRank)
    ensures
        held_after(held_after(None, a), b) == held_after(held_after(None, b), a),
        held_after(held_after(None, a), b) == Some(if precedence_spec(b, a) == Precedence::Older { a } else { b }),
        precedence_spec(b, a) == Precedence::Older ==> store_outcome_spec(Ok(()), true, Some(a), b) == StoreOutcome::Stale,
{
    law_precedence_antisymmetric(a, b);
}

/// What a `Tombstone` is answered.
#[derive(Clone, Copy, Debug, PartialEq, Eq, Structural)]
pub enum TombstoneOutcome {
    Stored,
    Stale,
    NotOwner,
    BadSig,
}

/// A tombstone's relay id is the digest of its relay key.
pub fn tombstone_id_bound(relay_id: &[u8; 32], relay_pubkey: &[u8; 32]) -> (b: bool)
    ensures
        b == (relay_id@ == blake3_digest(relay_pubkey@)),
{
    let h = blake3_hash(relay_pubkey);
    crate::bytes::eq32(&h, relay_id)
}

/// Why a tombstone's relay signature does not stand.
#[derive(Clone, Copy, Debug, PartialEq, Eq, Structural)]
pub enum TombstoneVerifyError {
    BadRelaySig,
    MalformedRelayPubkey,
    RelayIdMismatch,
}

/// Check a tombstone's relay signature over its `transcript`: the relay id
/// must be the digest of the relay key, the key must decode, and the
/// signature must verify, checked in that order.
pub fn verify_tombstone(relay_id: &[u8; 32], relay_pubkey: &[u8; 32], transcript: &[u8], relay_sig: &[u8; 64]) -> (r:
    Result<(), TombstoneVerifyError>)
    ensures
        relay_id@ != blake3_digest(relay_pubkey@) ==> r == Err::<(), TombstoneVerifyError>(
            TombstoneVerifyError::RelayIdMismatch,
        ),
        relay_id@ == blake3_digest(relay_pubkey@) && !ed25519_point_valid(relay_pubkey@) ==> r == Err::<
            (),
            TombstoneVerifyError,
        >(TombstoneVerifyError::MalformedRelayPubkey),
        relay_id@ == blake3_digest(relay_pubkey@) && ed25519_point_valid(relay_pubkey@) ==> (r is Ok
            <==> ed25519_verify_plain(relay_pubkey@, transcript@, relay_sig@)),
        r is Err && relay_id@ == blake3_digest(relay_pubkey@) && ed25519_point_valid(relay_pubkey@) ==> r
            == Err::<(), TombstoneVerifyError>(TombstoneVerifyError::BadRelaySig),
{
    if !tombstone_id_bound(relay_id, relay_pubkey) {
        return Err(TombstoneVerifyError::RelayIdMismatch);
    }
    if !ed25519_key_decodes(relay_pubkey) {
        return Err(TombstoneVerifyError::MalformedRelayPubkey);
    }
    if !ed25519_verify_nonstrict(relay_pubkey, transcript, relay_sig) {
        return Err(TombstoneVerifyError::BadRelaySig);
    }
    Ok(())
}

/// A tombstone must verify (its id bound to its key and its signature
/// good), reach a home, and be of no lower generation than the held record
/// and the held tombstone.
pub open spec fn tombstone_outcome_spec(
    valid: bool,
    owner: bool,
    record_generation: Option<u64>,
    tomb_generation: Option<u64>,
    generation: u64,
) -> TombstoneOutcome {
    if !valid {
        TombstoneOutcome::BadSig
    } else if !owner {
        TombstoneOutcome::NotOwner
    } else if record_generation matches Some(g) && generation < g {
        TombstoneOutcome::Stale
    } else if tomb_generation matches Some(g) && generation < g {
        TombstoneOutcome::Stale
    } else {
        TombstoneOutcome::Stored
    }
}

/// A valid tombstone reaching a home is stored unless the held record or
/// the held tombstone has a higher generation, in which case it is stale;
/// an equal generation is stored.
pub proof fn law_tombstone_needs_no_lower_generation(
    record_generation: Option<u64>,
    tomb_generation: Option<u64>,
    generation: u64,
)
    ensures
        (record_generation is None || record_generation->0 <= generation) && (tomb_generation is None
            || tomb_generation->0 <= generation) ==> tombstone_outcome_spec(true, true, record_generation, tomb_generation, generation)
            == TombstoneOutcome::Stored,
        (record_generation is Some && generation < record_generation->0) || (tomb_generation is Some && generation
            < tomb_generation->0) ==> tombstone_outcome_spec(true, true, record_generation, tomb_generation, generation)
            == TombstoneOutcome::Stale,
        tombstone_outcome_spec(false, true, record_generation, tomb_generation, generation) == TombstoneOutcome::BadSig,
        tombstone_outcome_spec(true, false, record_generation, tomb_generation, generation) == TombstoneOutcome::NotOwner,
{
}

pub fn tombstone_outcome(
    valid: bool,
    owner: bool,
    record_generation: Option<u64>,
    tomb_generation: Option<u64>,
    generation: u64,
) -> (o: TombstoneOutcome)
    ensures
        o == tombstone_outcome_spec(valid, owner, record_generation, tomb_generation, generation),
{
    if !valid {
        return TombstoneOutcome::BadSig;
    }
    if !owner {
        return TombstoneOutcome::NotOwner;
    }
    if let Some(g) = record_generation {
        if generation < g {
            return TombstoneOutcome::Stale;
        }
    }
    if let Some(g) = tomb_generation {
        if generation < g {
            return TombstoneOutcome::Stale;
        }
    }
    TombstoneOutcome::Stored
}

// ---------------------------------------------------------------------------
// Expiry
// ---------------------------------------------------------------------------

/// A record expires at its `not_after`.
pub fn record_expired(not_after: u64, now_ms: u64) -> (b: bool)
    ensures
        b == (now_ms >= not_after),
{
    now_ms >= not_after
}

/// A tombstone is honoured for twice the record lifetime after deletion,
/// and dropped only once the clock has moved past that window.
pub fn tombstone_expired(deleted_at: u64, now_ms: u64) -> (b: bool)
    ensures
        b == (now_ms > deleted_at + 2 * PRESENCE_TTL_MS),
{
    now_ms > deleted_at.saturating_add(2 * PRESENCE_TTL_MS)
}

/// A row of the presence keyspace as the eviction pass reads it; the value
/// is decoded by the caller.
pub struct PresenceRow {
    pub key: Vec<u8>,
    /// The value's `not_after`, when it decodes as a presence record.
    pub record_not_after: Option<u64>,
    /// The value's `deleted_at`, when it decodes as a tombstone.
    pub tombstone_deleted_at: Option<u64>,
}

/// The eviction pass deletes an expired record and a tombstone whose honour
/// window has passed; rows it cannot read are left alone.
pub open spec fn row_evicted(r: PresenceRow, now_ms: u64) -> bool {
    match classify_key_spec(r.key@) {
        KeyKind::Record => match r.record_not_after {
            Some(not_after) => now_ms >= not_after,
            None => false,
        },
        KeyKind::Tombstone => match r.tombstone_deleted_at {
            Some(deleted_at) => now_ms > deleted_at + 2 * PRESENCE_TTL_MS,
            None => false,
        },
        KeyKind::Unknown => false,
    }
}

/// What one eviction pass does to each kind of row: a record under `ipk`
/// goes once its `not_after` has been reached; a tombstone for `ipk` stays
/// through `deleted_at + 2 × PRESENCE_TTL_MS` and goes after it; a row whose
/// value does not decode, or whose key is neither, is never deleted.
pub proof fn law_eviction_by_kind(r: PresenceRow, ipk: [u8; 32], now_ms: u64)
    ensures
        r.key@ == ipk@ ==> (row_evicted(r, now_ms) <==> (r.record_not_after is Some
            && r.record_not_after->0 <= now_ms)),
        r.key@ == seq![TOMB_PREFIX] + ipk@ ==> (row_evicted(r, now_ms) <==> (r.tombstone_deleted_at is Some
            && now_ms - r.tombstone_deleted_at->0 > 2 * PRESENCE_TTL_MS)),
        r.key@.len() != 32 && r.key@.len() != 33 ==> !row_evicted(r, now_ms),
{
    law_keys_classify(ipk);
}

/// Indices below `k` of the rows the pass deletes, in order.
pub open spec fn evicted_below(rows: Seq<PresenceRow>, now_ms: u64, k: int) -> Seq<usize>
    decreases k,
{
    if k <= 0 {
        Seq::empty()
    } else if row_evicted(rows[k - 1], now_ms) {
        evicted_below(rows, now_ms, k - 1).push((k - 1) as usize)
    } else {
        evicted_below(rows, now_ms, k - 1)
    }
}

/// The rows one eviction pass deletes.
pub fn eviction_plan(rows: &Vec<PresenceRow>, now_ms: u64) -> (r: Vec<usize>)
    ensures
        r@ == evicted_below(rows@, now_ms, rows@.len() as int),
{
    let n = rows.len();
    let mut out: Vec<usize> = Vec::new();
    let mut k: usize = 0;
    while k < n
        invariant
            n == rows@.len(),
            k <= n,
            out@ == evicted_below(rows@, now_ms, k as int),
        decreases n - k,
    {
        let row = &rows[k];
        let evict = match classify_key(&row.key) {
            KeyKind::Record => match row.record_not_after {
                Some(not_after) => record_expired(not_after, now_ms),
                None => false,
            },
            KeyKind::Tombstone => match row.tombstone_deleted_at {
                Some(deleted_at) => tombstone_expired(deleted_at, now_ms),
                None => false,
            },
            KeyKind::Unknown => false,
        };
        if evict {
            out.push(k);
        }
        k += 1;
    }
    out
}

} // verus!
