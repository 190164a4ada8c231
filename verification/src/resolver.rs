//! Resolver-side registry rules: who may take a registration slot, and how
//! bootstrap peers are picked from a registry snapshot.

use std::cmp::Ordering;

use vstd::prelude::*;

use crate::bytes::lex_lt;
use crate::bytes::lex_lt32;
use crate::bytes::xor32;
use crate::bytes::xor_seq;
use crate::net::IpAddress;
use crate::net::SockAddr;
use crate::rank::is_permutation;
use crate::rank::keys_distinct;
use crate::rank::rank_ascending;
use crate::rank::rank_descending;
use crate::storage::sat_sub;

verus! {

/// Registrations one source group may hold at once.
pub const MAX_REGISTRATIONS_PER_SOURCE: usize = 8;

/// Seconds between a relay's authenticated heartbeats to the resolver.
pub const RESOLVER_RELAY_HEARTBEAT_INTERVAL_SECS: u64 = 30;

/// How long an established slot keeps its eviction protection without a
/// heartbeat: three heartbeat intervals, in milliseconds.
pub const HEARTBEAT_TIMEOUT_MS: u64 = 90_000;

/// Cap on the combined size of a bootstrap-peers answer.
pub const MAX_BOOTSTRAP_RESULTS: u8 = 64;

/// Quota key of a source address: IPv4 counts per address (as its
/// IPv4-mapped IPv6 form), IPv6 per /64.
pub open spec fn source_group_spec(ip: IpAddress) -> Seq<u8> {
    match ip {
        IpAddress::V4(o) => seq![0u8, 0, 0, 0, 0, 0, 0, 0, 0, 0, 0xff, 0xff, o[0], o[1], o[2], o[3]],
        IpAddress::V6(s) => seq![
            (s[0] >> 8u16) as u8, s[0] as u8, (s[1] >> 8u16) as u8, s[1] as u8,
            (s[2] >> 8u16) as u8, s[2] as u8, (s[3] >> 8u16) as u8, s[3] as u8,
            0u8, 0, 0, 0, 0, 0, 0, 0,
        ],
    }
}

pub fn source_group(ip: IpAddress) -> (g: [u8; 16])
    ensures
        g@ == source_group_spec(ip),
{
    match ip {
        IpAddress::V4(o) => {
            let g = [0u8, 0, 0, 0, 0, 0, 0, 0, 0, 0, 0xff, 0xff, o[0], o[1], o[2], o[3]];
            assert(g@ =~= source_group_spec(ip));
            g
        },
        IpAddress::V6(s) => {
            let g = [
                (s[0] >> 8u16) as u8, s[0] as u8, (s[1] >> 8u16) as u8, s[1] as u8,
                (s[2] >> 8u16) as u8, s[2] as u8, (s[3] >> 8u16) as u8, s[3] as u8,
                0u8, 0, 0, 0, 0, 0, 0, 0,
            ];
            assert(g@ =~= source_group_spec(ip));
            g
        },
    }
}

fn eq16(a: &[u8; 16], b: &[u8; 16]) -> (r: bool)
    ensures
        r == (a@ == b@),
{
    let mut i: usize = 0;
    while i < 16
        invariant
            i <= 16,
            forall|j: int| 0 <= j < i ==> a@[j] == b@[j],
        decreases 16 - i,
    {
        if a[i] != b[i] {
            return false;
        }
        i += 1;
    }
    assert(a@ =~= b@);
    true
}

/// An occupied registry slot reduced to the fields admission ranks on;
/// `last_seen` is the resolver's monotonic clock in milliseconds.
#[derive(Clone, Copy, Debug, PartialEq, Eq)]
pub struct Slot {
    pub id: [u8; 32],
    pub ip: IpAddress,
    pub established: bool,
    pub last_seen: u64,
}

#[derive(Clone, Copy, Debug, PartialEq, Eq)]
pub enum Admission {
    Insert,
    Evict([u8; 32]),
    Reject,
}

/// Number of slots among the first `n` whose source group is `g`.
pub open spec fn group_count(slots: Seq<Slot>, g: Seq<u8>, n: int) -> nat
    decreases n,
{
    if n <= 0 {
        0
    } else {
        group_count(slots, g, n - 1) + if source_group_spec(slots[n - 1].ip) == g {
            1nat
        } else {
            0nat
        }
    }
}

/// A slot may be displaced if it never heartbeat or went silent past the timeout.
pub open spec fn evictable(s: Slot, now: u64) -> bool {
    !s.established || sat_sub(now, s.last_seen) >= HEARTBEAT_TIMEOUT_MS
}

/// The first evictable slot among the first `n` with the smallest `last_seen`.
pub open spec fn evict_choice(slots: Seq<Slot>, now: u64, n: int) -> Option<int>
    decreases n,
{
    if n <= 0 {
        None
    } else {
        let prev = evict_choice(slots, now, n - 1);
        if evictable(slots[n - 1], now) && (prev is None || slots[n - 1].last_seen
            < slots[prev->0].last_seen) {
            Some(n - 1)
        } else {
            prev
        }
    }
}

/// Admission of a registration from `ip` when `slots` are taken.
pub open spec fn admission_spec(slots: Seq<Slot>, ip: IpAddress, capacity: nat, now: u64) -> Admission {
    if group_count(slots, source_group_spec(ip), slots.len() as int) >= MAX_REGISTRATIONS_PER_SOURCE {
        Admission::Reject
    } else if slots.len() < capacity {
        Admission::Insert
    } else {
        match evict_choice(slots, now, slots.len() as int) {
            Some(i) => Admission::Evict(slots[i].id),
            None => Admission::Reject,
        }
    }
}

pub proof fn lemma_evict_choice_bounds(slots: Seq<Slot>, now: u64, n: int)
    ensures
        evict_choice(slots, now, n) matches Some(i) ==> 0 <= i < n && evictable(slots[i], now),
    decreases n,
{
    if n > 0 {
        lemma_evict_choice_bounds(slots, now, n - 1);
    }
}

proof fn lemma_evict_choice_least(slots: Seq<Slot>, now: u64, n: int)
    requires
        0 <= n <= slots.len(),
    ensures
        evict_choice(slots, now, n) is None <==> forall|j: int| 0 <= j < n ==> !evictable(#[trigger] slots[j], now),
        evict_choice(slots, now, n) matches Some(i) ==> 0 <= i < n && evictable(slots[i], now) && forall|j: int|
            0 <= j < n && evictable(#[trigger] slots[j], now) ==> slots[i].last_seen <= slots[j].last_seen,
    decreases n,
{
    if n > 0 {
        lemma_evict_choice_least(slots, now, n - 1);
    }
}

/// Who gets a slot. A registration from a source that already holds
/// [`MAX_REGISTRATIONS_PER_SOURCE`] slots is refused. Otherwise, below
/// `capacity` it is inserted; at capacity it displaces a slot that has never
/// heartbeat or has been silent for at least [`HEARTBEAT_TIMEOUT_MS`] (the
/// least recently heard of those), and it is refused only when every slot is
/// established and heard from within the timeout.
pub proof fn law_admission_displaces_unheard_slots(slots: Seq<Slot>, ip: IpAddress, capacity: nat, now: u64)
    ensures
        ({
            let a = admission_spec(slots, ip, capacity, now);
            let capped = group_count(slots, source_group_spec(ip), slots.len() as int) >= MAX_REGISTRATIONS_PER_SOURCE;
            &&& capped ==> a == Admission::Reject
            &&& !capped && slots.len() < capacity ==> a == Admission::Insert
            &&& !capped && slots.len() >= capacity && (exists|j: int|
                0 <= j < slots.len() && (!(#[trigger] slots[j]).established || (now >= slots[j].last_seen && now
                    - slots[j].last_seen >= HEARTBEAT_TIMEOUT_MS))) ==> exists|i: int|
                0 <= i < slots.len() && a == Admission::Evict((#[trigger] slots[i]).id) && (!slots[i].established || (
                now >= slots[i].last_seen && now - slots[i].last_seen >= HEARTBEAT_TIMEOUT_MS)) && forall|j: int|
                    0 <= j < slots.len() && (!(#[trigger] slots[j]).established || (now >= slots[j].last_seen && now
                        - slots[j].last_seen >= HEARTBEAT_TIMEOUT_MS)) ==> slots[i].last_seen <= slots[j].last_seen
            &&& !capped && slots.len() >= capacity && (forall|j: int|
                0 <= j < slots.len() ==> (#[trigger] slots[j]).established && now >= slots[j].last_seen && now
                    - slots[j].last_seen < HEARTBEAT_TIMEOUT_MS) ==> a == Admission::Reject
        }),
{
    let n = slots.len() as int;
    lemma_evict_choice_least(slots, now, n);
    assert forall|j: int| 0 <= j < n implies (evictable(#[trigger] slots[j], now) <==> (!slots[j].established || (now
        >= slots[j].last_seen && now - slots[j].last_seen >= HEARTBEAT_TIMEOUT_MS))) by {}
    let capped = group_count(slots, source_group_spec(ip), n) >= MAX_REGISTRATIONS_PER_SOURCE;
    if !capped && slots.len() >= capacity {
        if exists|j: int|
            0 <= j < n && (!(#[trigger] slots[j]).established || (now >= slots[j].last_seen && now - slots[j].last_seen
                >= HEARTBEAT_TIMEOUT_MS)) {
            let j = choose|j: int|
                0 <= j < n && (!(#[trigger] slots[j]).established || (now >= slots[j].last_seen && now
                    - slots[j].last_seen >= HEARTBEAT_TIMEOUT_MS));
            assert(evictable(slots[j], now));
            let i = evict_choice(slots, now, n)->0;
            assert(slots[i] == slots[i]);
        }
    }
}

/// Decide whether a registration from `applicant_ip` may take a slot. `slots`
/// must already exclude an entry the applicant replaces. Past the per-source
/// cap it is refused; under capacity it is inserted; at capacity it displaces
/// the least recently heard evictable slot, or is refused if none is.
pub fn admit_registration(slots: &Vec<Slot>, applicant_ip: IpAddress, capacity: usize, now: u64) -> (a: Admission)
    ensures
        a == admission_spec(slots@, applicant_ip, capacity as nat, now),
{
    let group = source_group(applicant_ip);
    let n = slots.len();
    let mut from_group: usize = 0;
    let mut i: usize = 0;
    while i < n
        invariant
            n == slots@.len(),
            i <= n,
            group@ == source_group_spec(applicant_ip),
            from_group == group_count(slots@, group@, i as int),
            from_group <= i,
        decreases n - i,
    {
        let g = source_group(slots[i].ip);
        if eq16(&g, &group) {
            from_group += 1;
        }
        i += 1;
    }
    if from_group >= MAX_REGISTRATIONS_PER_SOURCE {
        return Admission::Reject;
    }
    if n < capacity {
        return Admission::Insert;
    }
    let mut best: Option<usize> = None;
    let mut j: usize = 0;
    while j < n
        invariant
            n == slots@.len(),
            j <= n,
            match best {
                Some(b) => evict_choice(slots@, now, j as int) == Some(b as int),
                None => evict_choice(slots@, now, j as int) is None,
            },
        decreases n - j,
    {
        proof {
            lemma_evict_choice_bounds(slots@, now, j as int);
        }
        let s = slots[j];
        let ev = !s.established || now.saturating_sub(s.last_seen) >= HEARTBEAT_TIMEOUT_MS;
        if ev {
            match best {
                None => {
                    best = Some(j);
                },
                Some(b) => {
                    if s.last_seen < slots[b].last_seen {
                        best = Some(j);
                    }
                },
            }
        }
        j += 1;
    }
    proof {
        lemma_evict_choice_bounds(slots@, now, n as int);
    }
    match best {
        Some(b) => Admission::Evict(slots[b].id),
        None => Admission::Reject,
    }
}

// ---------------------------------------------------------------------------
// Bootstrap peers
// ---------------------------------------------------------------------------

/// What the resolver hands out about a registered relay.
#[derive(Clone, Copy, Debug, PartialEq, Eq)]
pub struct RelayDescriptor {
    pub id: [u8; 32],
    pub addr: SockAddr,
    pub pubkey: [u8; 32],
}

/// A registry entry as a bootstrap query sees it; `last_heartbeat` is the
/// resolver's monotonic clock in milliseconds.
#[derive(Clone, Copy, Debug, PartialEq, Eq)]
pub struct RelaySnapshot {
    pub id: [u8; 32],
    pub addr: SockAddr,
    pub pubkey: [u8; 32],
    pub last_heartbeat: u64,
}

pub open spec fn descriptor_of(e: RelaySnapshot) -> RelayDescriptor {
    RelayDescriptor { id: e.id, addr: e.addr, pubkey: e.pubkey }
}

/// A descriptor's address is the resolver's own observation of the peer.
pub fn descriptor(id: [u8; 32], addr: SockAddr, pubkey: [u8; 32]) -> (d: RelayDescriptor)
    ensures
        d == (RelayDescriptor { id, addr, pubkey }),
{
    RelayDescriptor { id, addr, pubkey }
}

/// A combined bootstrap request over [`MAX_BOOTSTRAP_RESULTS`].
#[derive(Clone, Copy, Debug, PartialEq, Eq)]
pub struct BootstrapOverCap {
    pub combined: u8,
}

pub open spec fn sat_add_u8(a: u8, b: u8) -> u8 {
    if a + b <= 255 {
        (a + b) as u8
    } else {
        255u8
    }
}

/// Per-list result counts inside the [`MAX_BOOTSTRAP_RESULTS`] budget: an
/// over-budget combined request is refused; otherwise the xor list gets its
/// count and the recency list what is left of the budget.
pub fn bootstrap_counts(count_xor_near: u8, count_rtt_near: u8) -> (r: Result<(usize, usize), BootstrapOverCap>)
    ensures
        sat_add_u8(count_xor_near, count_rtt_near) > MAX_BOOTSTRAP_RESULTS <==> r is Err,
        r matches Err(e) ==> e.combined == sat_add_u8(count_xor_near, count_rtt_near),
        r matches Ok((x, t)) ==> x == count_xor_near && t == count_rtt_near,
{
    let combined = count_xor_near.saturating_add(count_rtt_near);
    if combined > MAX_BOOTSTRAP_RESULTS {
        return Err(BootstrapOverCap { combined });
    }
    let budget = MAX_BOOTSTRAP_RESULTS as usize;
    let xor = if (count_xor_near as usize) < budget { count_xor_near as usize } else { budget };
    let rest = budget - xor;
    let rtt = if (count_rtt_near as usize) < rest { count_rtt_near as usize } else { rest };
    Ok((xor, rtt))
}

/// Compare two relay ids by XOR distance from `pivot` (ascending).
pub fn xor_distance_cmp(pivot: &[u8; 32], a: &[u8; 32], b: &[u8; 32]) -> (o: Ordering)
    ensures
        (o == Ordering::Less) == lex_lt(xor_seq(a@, pivot@), xor_seq(b@, pivot@)),
        (o == Ordering::Greater) == lex_lt(xor_seq(b@, pivot@), xor_seq(a@, pivot@)),
        (o == Ordering::Equal) == (a@ == b@),
{
    let da = xor32(a, pivot);
    let db = xor32(b, pivot);
    proof {
        crate::bytes::lemma_lex_asymmetric(da@, db@);
        crate::bytes::lemma_lex_irreflexive(da@);
        crate::bytes::lemma_xor_symmetric(a@, pivot@);
        crate::bytes::lemma_xor_symmetric(b@, pivot@);
        if da@ == db@ {
            crate::bytes::lemma_xor_injective(pivot@, a@, b@);
        } else {
            crate::bytes::lemma_lex_total(da@, db@);
        }
    }
    if lex_lt32(&da, &db) {
        Ordering::Less
    } else if lex_lt32(&db, &da) {
        Ordering::Greater
    } else {
        Ordering::Equal
    }
}

pub open spec fn ids_distinct(entries: Seq<RelaySnapshot>) -> bool {
    forall|i: int, j: int| 0 <= i < entries.len() && 0 <= j < entries.len() && i != j
        ==> entries[i].id@ != entries[j].id@
}

pub open spec fn min_count(a: int, b: int) -> int {
    if a < b {
        a
    } else {
        b
    }
}

/// `r` is the head of length `m` of some arrangement `idx` of `entries`.
pub open spec fn selected_by(r: Seq<RelayDescriptor>, entries: Seq<RelaySnapshot>, idx: Seq<usize>, m: int) -> bool {
    &&& is_permutation(idx, entries.len())
    &&& r.len() == m
    &&& forall|i: int| 0 <= i < m ==> r[i] == descriptor_of(entries[#[trigger] idx[i] as int])
}

fn take_descriptors(entries: &Vec<RelaySnapshot>, idx: &Vec<usize>, count: usize) -> (r: Vec<RelayDescriptor>)
    requires
        is_permutation(idx@, entries@.len()),
    ensures
        selected_by(r@, entries@, idx@, min_count(count as int, entries@.len() as int)),
{
    let n = entries.len();
    let m = if count < n { count } else { n };
    let mut r: Vec<RelayDescriptor> = Vec::new();
    let mut i: usize = 0;
    while i < m
        invariant
            n == entries@.len(),
            m <= n,
            idx@.len() == n,
            is_permutation(idx@, entries@.len()),
            i <= m,
            r@.len() == i,
            forall|k: int| 0 <= k < i ==> r@[k] == descriptor_of(entries@[#[trigger] idx@[k] as int]),
        decreases m - i,
    {
        let e = entries[idx[i]];
        r.push(RelayDescriptor { id: e.id, addr: e.addr, pubkey: e.pubkey });
        i += 1;
    }
    r
}

/// The `count` relays nearest to `near` by XOR distance of their ids,
/// nearest first.
pub fn select_xor_near(entries: &Vec<RelaySnapshot>, near: &[u8; 32], count: usize) -> (r: Vec<RelayDescriptor>)
    requires
        ids_distinct(entries@),
    ensures
        exists|idx: Seq<usize>| {
            &&& #[trigger] selected_by(r@, entries@, idx, min_count(count as int, entries@.len() as int))
            &&& forall|i: int, j: int| 0 <= i < j < idx.len()
                ==> lex_lt(xor_seq(entries@[idx[i] as int].id@, near@), xor_seq(entries@[idx[j] as int].id@, near@))
        },
{
    let n = entries.len();
    let mut keys: Vec<[u8; 32]> = Vec::new();
    let mut i: usize = 0;
    while i < n
        invariant
            n == entries@.len(),
            i <= n,
            keys@.len() == i,
            forall|k: int| 0 <= k < i ==> (#[trigger] keys@[k])@ == xor_seq(entries@[k].id@, near@),
        decreases n - i,
    {
        keys.push(xor32(&entries[i].id, near));
        i += 1;
    }
    proof {
        assert forall|a: int, b: int| 0 <= a < keys@.len() && 0 <= b < keys@.len() && a != b
            implies keys@[a]@ != keys@[b]@ by {
            if keys@[a]@ == keys@[b]@ {
                crate::bytes::lemma_xor_symmetric(entries@[a].id@, near@);
                crate::bytes::lemma_xor_symmetric(entries@[b].id@, near@);
                crate::bytes::lemma_xor_injective(near@, entries@[a].id@, entries@[b].id@);
            }
        }
    }
    let idx = rank_ascending(&keys);
    let r = take_descriptors(entries, &idx, count);
    proof {
        assert forall|i: int, j: int| 0 <= i < j < idx@.len()
            implies lex_lt(xor_seq(entries@[idx@[i] as int].id@, near@), xor_seq(entries@[idx@[j] as int].id@, near@)) by {
            assert(keys@[idx@[i] as int]@ == xor_seq(entries@[idx@[i] as int].id@, near@));
            assert(keys@[idx@[j] as int]@ == xor_seq(entries@[idx@[j] as int].id@, near@));
        }
    }
    r
}

/// The `count` most recently heard-from relays, most recent first.
pub fn select_rtt_near(entries: &Vec<RelaySnapshot>, count: usize) -> (r: Vec<RelayDescriptor>)
    ensures
        exists|idx: Seq<usize>| {
            &&& #[trigger] selected_by(r@, entries@, idx, min_count(count as int, entries@.len() as int))
            &&& forall|i: int, j: int| 0 <= i < j < idx.len()
                ==> entries@[idx[i] as int].last_heartbeat >= entries@[idx[j] as int].last_heartbeat
        },
{
    let n = entries.len();
    let mut keys: Vec<u64> = Vec::new();
    let mut i: usize = 0;
    while i < n
        invariant
            n == entries@.len(),
            i <= n,
            keys@.len() == i,
            forall|k: int| 0 <= k < i ==> #[trigger] keys@[k] == entries@[k].last_heartbeat,
        decreases n - i,
    {
        keys.push(entries[i].last_heartbeat);
        i += 1;
    }
    let idx = rank_descending(&keys);
    take_descriptors(entries, &idx, count)
}

/// `r` is a nearest-first head of `entries` by XOR distance of ids to `near`.
pub open spec fn xor_ranked(r: Seq<RelayDescriptor>, entries: Seq<RelaySnapshot>, near: Seq<u8>) -> bool {
    exists|idx: Seq<usize>| {
        &&& #[trigger] selected_by(r, entries, idx, r.len() as int)
        &&& forall|i: int, j: int| 0 <= i < j < idx.len()
            ==> lex_lt(xor_seq(entries[idx[i] as int].id@, near), xor_seq(entries[idx[j] as int].id@, near))
    }
}

/// `r` is a most-recent-first head of `entries` by last heartbeat.
pub open spec fn recency_ranked(r: Seq<RelayDescriptor>, entries: Seq<RelaySnapshot>) -> bool {
    exists|idx: Seq<usize>| {
        &&& #[trigger] selected_by(r, entries, idx, r.len() as int)
        &&& forall|i: int, j: int| 0 <= i < j < idx.len()
            ==> entries[idx[i] as int].last_heartbeat >= entries[idx[j] as int].last_heartbeat
    }
}

/// The answer to a bootstrap-peers request: the `xor` relays nearest to `near`
/// and the `rtt` most recently heard from, within the combined budget.
pub fn bootstrap_peers(
    entries: &Vec<RelaySnapshot>,
    near: &[u8; 32],
    count_xor_near: u8,
    count_rtt_near: u8,
) -> (r: Result<(Vec<RelayDescriptor>, Vec<RelayDescriptor>), BootstrapOverCap>)
    requires
        ids_distinct(entries@),
    ensures
        sat_add_u8(count_xor_near, count_rtt_near) > MAX_BOOTSTRAP_RESULTS <==> r is Err,
        match r {
            Ok((x, t)) => {
                &&& x@.len() == min_count(count_xor_near as int, entries@.len() as int)
                &&& t@.len() == min_count(count_rtt_near as int, entries@.len() as int)
                &&& xor_ranked(x@, entries@, near@)
                &&& recency_ranked(t@, entries@)
            },
            Err(_) => true,
        },
{
    let (xor_count, rtt_count) = match bootstrap_counts(count_xor_near, count_rtt_near) {
        Ok(c) => c,
        Err(e) => {
            return Err(e);
        },
    };
    let x = select_xor_near(entries, near, xor_count);
    let t = select_rtt_near(entries, rtt_count);
    proof {
        let n = entries@.len() as int;
        let ix = choose|idx: Seq<usize>| {
            &&& #[trigger] selected_by(x@, entries@, idx, min_count(xor_count as int, n))
            &&& forall|i: int, j: int| 0 <= i < j < idx.len()
                ==> lex_lt(xor_seq(entries@[idx[i] as int].id@, near@), xor_seq(entries@[idx[j] as int].id@, near@))
        };
        assert(selected_by(x@, entries@, ix, x@.len() as int));
        let it = choose|idx: Seq<usize>| {
            &&& #[trigger] selected_by(t@, entries@, idx, min_count(rtt_count as int, n))
            &&& forall|i: int, j: int| 0 <= i < j < idx.len()
                ==> entries@[idx[i] as int].last_heartbeat >= entries@[idx[j] as int].last_heartbeat
        };
        assert(selected_by(t@, entries@, it, t@.len() as int));
        assert(xor_ranked(x@, entries@, near@));
        assert(recency_ranked(t@, entries@));
    }
    Ok((x, t))
}

} // verus!
