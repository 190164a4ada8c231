//! The serving side of `peer/1`: which key an inbound request is rate
//! limited under, what a `FindNode` or `FindValue` is answered, and the
//! per-peer connection registry.

use vstd::prelude::*;

use crate::bytes::lex_le;
use crate::bytes::xor32;
use crate::bytes::xor_seq;
use crate::config::K;
use crate::digest::blake3_digest;
use crate::digest::blake3_hash;
use crate::routing::NodeContact;

verus! {

/// Most peers a `FindNode` answer lists.
pub const MAX_FIND_NODE_RESULTS: usize = 20;

/// Most concurrent inbound streams per peer connection.
pub const MAX_CONCURRENT_STREAMS_PER_PEER: usize = 16;

/// The kind of an inbound DHT request, with the requester it names if any.
#[derive(Clone, Copy, Debug, PartialEq, Eq)]
pub enum RequestKind {
    Ping,
    FindNode { requester: [u8; 32] },
    FindValue { requester: [u8; 32] },
    Store,
    Tombstone,
    MerkleSummary,
    MerkleDiff,
    FetchRecord,
}

/// Only lookups name their requester.
pub fn requester_of(kind: RequestKind) -> (r: Option<[u8; 32]>)
    ensures
        r == match kind {
            RequestKind::FindNode { requester } => Some(requester),
            RequestKind::FindValue { requester } => Some(requester),
            _ => None,
        },
{
    match kind {
        RequestKind::FindNode { requester } => Some(requester),
        RequestKind::FindValue { requester } => Some(requester),
        _ => None,
    }
}

/// The 32-byte seed of a connection's synthetic id: its stable id
/// little-endian, then zeros.
pub open spec fn conn_seed(stable_id: u64) -> Seq<u8> {
    crate::codec::u64_le_spec(stable_id) + Seq::new(24, |i: int| 0u8)
}

/// The key an inbound request is rate limited under: the requester it
/// names; else the node id of the certificate key; else a synthetic id of
/// this connection. Node ids are digests of their key bytes.
pub open spec fn limiter_key_spec(requester: Option<[u8; 32]>, cert_pubkey: Option<[u8; 32]>, stable_id: u64) -> Seq<u8> {
    match requester {
        Some(id) => id@,
        None => match cert_pubkey {
            Some(pk) => blake3_digest(pk@),
            None => blake3_digest(conn_seed(stable_id)),
        },
    }
}

pub fn limiter_key(requester: Option<[u8; 32]>, cert_pubkey: Option<[u8; 32]>, stable_id: u64) -> (k: [u8; 32])
    ensures
        k@ == limiter_key_spec(requester, cert_pubkey, stable_id),
{
    match requester {
        Some(id) => id,
        None => match cert_pubkey {
            Some(pk) => blake3_hash(&pk),
            None => {
                let le = crate::codec::u64_to_le(stable_id);
                let mut seed: Vec<u8> = Vec::new();
                crate::codec::push_bytes(&mut seed, &le);
                let mut i: usize = 0;
                while i < 24
                    invariant
                        i <= 24,
                        seed@ == le@ + Seq::new(i as nat, |j: int| 0u8),
                    decreases 24 - i,
                {
                    seed.push(0u8);
                    assert(le@ + Seq::new((i + 1) as nat, |j: int| 0u8) =~= (le@ + Seq::new(i as nat, |j: int| 0u8)).push(0u8));
                    i += 1;
                }
                assert(seed@ =~= conn_seed(stable_id));
                blake3_hash(&seed)
            },
        },
    }
}

/// `closest` without `exclude`, cut to [`MAX_FIND_NODE_RESULTS`].
pub open spec fn without(s: Seq<NodeContact>, exclude: [u8; 32]) -> Seq<NodeContact>
    decreases s.len(),
{
    if s.len() == 0 {
        Seq::empty()
    } else if s.last().id == exclude {
        without(s.drop_last(), exclude)
    } else {
        without(s.drop_last(), exclude).push(s.last())
    }
}

pub open spec fn closest_excluding_spec(closest: Seq<NodeContact>, exclude: [u8; 32]) -> Seq<NodeContact> {
    let w = without(closest, exclude);
    if w.len() <= MAX_FIND_NODE_RESULTS { w } else { w.take(MAX_FIND_NODE_RESULTS as int) }
}

/// `without` keeps exactly the contacts not carrying the id, in order.
proof fn lemma_without_is_filter(s: Seq<NodeContact>, exclude: [u8; 32])
    ensures
        without(s, exclude) == s.filter(|c: NodeContact| c.id != exclude),
    decreases s.len(),
{
    reveal(Seq::filter);
    if s.len() > 0 {
        lemma_without_is_filter(s.drop_last(), exclude);
    }
}

/// A contact passing the filter in front stays in front.
proof fn lemma_filter_keeps_first(s: Seq<NodeContact>, exclude: [u8; 32])
    requires
        s.len() > 0,
        s[0].id != exclude,
    ensures
        s.filter(|c: NodeContact| c.id != exclude).len() > 0,
        s.filter(|c: NodeContact| c.id != exclude)[0] == s[0],
    decreases s.len(),
{
    reveal(Seq::filter);
    if s.len() > 1 {
        lemma_filter_keeps_first(s.drop_last(), exclude);
        assert(s.drop_last()[0] == s[0]);
    }
}

/// A lookup is answered with the nearest peers: the contacts of `closest`
/// other than the requester, in the order given (nearest first), cut after
/// [`MAX_FIND_NODE_RESULTS`]. Nothing nearer is skipped for something
/// farther, the requester is never among them, and when the nearest contact
/// is not the requester the answer starts with it.
pub proof fn law_lookup_answers_nearest_first(closest: Seq<NodeContact>, exclude: [u8; 32])
    ensures
        ({
            let kept = closest.filter(|c: NodeContact| c.id != exclude);
            let r = closest_excluding_spec(closest, exclude);
            &&& r.len() == if kept.len() <= MAX_FIND_NODE_RESULTS { kept.len() } else { MAX_FIND_NODE_RESULTS as nat }
            &&& forall|k: int| 0 <= k < r.len() ==> #[trigger] r[k] == kept[k]
            &&& forall|k: int| 0 <= k < r.len() ==> (#[trigger] r[k]).id != exclude
            &&& closest.len() > 0 && closest[0].id != exclude ==> r.len() > 0 && r[0] == closest[0]
        }),
{
    lemma_without_is_filter(closest, exclude);
    let pred = |c: NodeContact| c.id != exclude;
    let kept = closest.filter(pred);
    let r = closest_excluding_spec(closest, exclude);
    assert forall|k: int| 0 <= k < r.len() implies (#[trigger] r[k]).id != exclude by {
        closest.lemma_filter_pred(pred, k);
        assert(r[k] == kept[k]);
    }
    if closest.len() > 0 && closest[0].id != exclude {
        lemma_filter_keeps_first(closest, exclude);
    }
}

/// A lookup's answer: the nearest peers known, never the requester itself,
/// at most [`MAX_FIND_NODE_RESULTS`] of them. `closest` is the routing
/// table's nearest first, one more than the limit.
pub fn closest_excluding(closest: &Vec<NodeContact>, exclude: &[u8; 32]) -> (r: Vec<NodeContact>)
    ensures
        r@ == closest_excluding_spec(closest@, *exclude),
{
    let mut out: Vec<NodeContact> = Vec::new();
    let n = closest.len();
    let mut i: usize = 0;
    while i < n
        invariant
            n == closest@.len(),
            i <= n,
            out@ == without(closest@.take(i as int), *exclude),
        decreases n - i,
    {
        let ghost t = closest@.take(i + 1);
        assert(t.drop_last() =~= closest@.take(i as int));
        if !crate::bytes::eq32(&closest[i].id, exclude) {
            out.push(closest[i]);
        }
        i += 1;
    }
    assert(closest@.take(n as int) =~= closest@);
    if out.len() > MAX_FIND_NODE_RESULTS {
        out.truncate(MAX_FIND_NODE_RESULTS);
    }
    out
}

/// This relay counts among the K nearest to `target` while the routing
/// table knows fewer than K peers, or when it is no farther than the K-th.
pub open spec fn self_in_top_k_spec(candidates: Seq<NodeContact>, self_id: [u8; 32], target: [u8; 32]) -> bool {
    candidates.len() < K || lex_le(xor_seq(self_id@, target@), xor_seq(candidates[K - 1].id@, target@))
}

pub fn self_in_top_k(candidates: &Vec<NodeContact>, self_id: &[u8; 32], target: &[u8; 32]) -> (b: bool)
    ensures
        b == self_in_top_k_spec(candidates@, *self_id, *target),
{
    if candidates.len() < K {
        return true;
    }
    let s = xor32(self_id, target);
    let k = xor32(&candidates[K - 1].id, target);
    crate::bytes::lex_lt32(&s, &k) || crate::bytes::eq32(&s, &k)
}

/// This relay is taken for a home of `target` while the table knows fewer
/// than K peers; otherwise exactly when it is no farther from `target` than
/// the K-th nearest peer: strictly nearer or at the same distance counts,
/// strictly farther does not.
pub proof fn law_self_in_top_k_by_distance(candidates: Seq<NodeContact>, self_id: [u8; 32], target: [u8; 32])
    ensures
        candidates.len() < K ==> self_in_top_k_spec(candidates, self_id, target),
        candidates.len() >= K && crate::bytes::lex_lt(xor_seq(self_id@, target@), xor_seq(candidates[K - 1].id@, target@))
            ==> self_in_top_k_spec(candidates, self_id, target),
        candidates.len() >= K && candidates[K - 1].id == self_id ==> self_in_top_k_spec(candidates, self_id, target),
        candidates.len() >= K && crate::bytes::lex_lt(xor_seq(candidates[K - 1].id@, target@), xor_seq(self_id@, target@))
            ==> !self_in_top_k_spec(candidates, self_id, target),
{
    crate::bytes::lemma_lex_asymmetric(xor_seq(candidates[K - 1].id@, target@), xor_seq(self_id@, target@));
    crate::bytes::lemma_lex_irreflexive(xor_seq(self_id@, target@));
}

/// What a `FindValue` is answered.
#[derive(Debug)]
pub enum FindValueAnswer {
    /// The record is held here.
    Found,
    /// Not here, and this relay is one of its homes: the search can stop.
    NotPresent,
    /// Not here; ask these nearer peers.
    Closer(Vec<NodeContact>),
}

pub fn find_value_answer(
    have_record: bool,
    candidates: &Vec<NodeContact>,
    self_id: &[u8; 32],
    target: &[u8; 32],
    requester: &[u8; 32],
) -> (r: FindValueAnswer)
    ensures
        have_record ==> r is Found,
        !have_record && self_in_top_k_spec(candidates@, *self_id, *target) ==> r is NotPresent,
        !have_record && !self_in_top_k_spec(candidates@, *self_id, *target) ==> (r matches FindValueAnswer::Closer(c)
            && c@ == closest_excluding_spec(candidates@, *requester)),
{
    if have_record {
        FindValueAnswer::Found
    } else if self_in_top_k(candidates, self_id, target) {
        FindValueAnswer::NotPresent
    } else {
        FindValueAnswer::Closer(closest_excluding(candidates, requester))
    }
}

// ---------------------------------------------------------------------------
// Per-peer connections
// ---------------------------------------------------------------------------

/// The connection registered for a peer: its QUIC stable id and the key
/// its certificate carried (zeros when none).
#[derive(Clone, Copy, Debug, PartialEq, Eq)]
pub struct PeerConn {
    pub id: [u8; 32],
    pub stable_id: u64,
    pub pubkey: [u8; 32],
}

/// Connections by peer, each peer at most once.
pub struct PeerConns {
    pub entries: Vec<PeerConn>,
}

/// `s` registers a connection for `id`.
pub open spec fn registered(s: Seq<PeerConn>, id: [u8; 32]) -> bool {
    exists|k: int| 0 <= k < s.len() && (#[trigger] s[k]).id == id
}

impl PeerConns {
    pub open spec fn wf(&self) -> bool {
        forall|i: int, j: int| 0 <= i < j < self.entries@.len() ==> #[trigger] self.entries@[i].id != #[trigger] self.entries@[j].id
    }

    pub fn new() -> (p: PeerConns)
        ensures
            p.wf(),
            p.entries@.len() == 0,
    {
        PeerConns { entries: Vec::new() }
    }

    /// Register `c` for its peer unless one is registered already; the
    /// first connection a peer used is the one kept.
    pub fn register_if_absent(&mut self, c: PeerConn)
        requires
            old(self).wf(),
        ensures
            final(self).wf(),
            registered(old(self).entries@, c.id) ==> final(self).entries@ == old(self).entries@,
            !registered(old(self).entries@, c.id) ==> final(self).entries@ == old(self).entries@.push(c),
    {
        let n = self.entries.len();
        let mut k: usize = 0;
        while k < n
            invariant
                self.wf(),
                self.entries@ == old(self).entries@,
                n == self.entries@.len(),
                k <= n,
                forall|j: int| 0 <= j < k ==> (#[trigger] self.entries@[j]).id != c.id,
            decreases n - k,
        {
            if crate::bytes::eq32(&self.entries[k].id, &c.id) {
                return;
            }
            k += 1;
        }
        self.entries.push(c);
        assert forall|i: int, j: int| 0 <= i < j < self.entries@.len() implies #[trigger] self.entries@[i].id != #[trigger] self.entries@[j].id by {
            if j == n {
                assert(self.entries@[i] == old(self).entries@[i]);
            } else {
                assert(self.entries@[i] == old(self).entries@[i]);
                assert(self.entries@[j] == old(self).entries@[j]);
            }
        }
    }

    /// A connection closed: drop the peer whose registered connection is
    /// this very one, and no other; a peer that has reconnected since keeps
    /// its new registration.
    pub fn remove_if_same(&mut self, stable_id: u64) -> (removed: Option<[u8; 32]>)
        requires
            old(self).wf(),
        ensures
            final(self).wf(),
            match removed {
                Some(id) => exists|k: int|
                    0 <= k < old(self).entries@.len() && (#[trigger] old(self).entries@[k]).stable_id == stable_id
                        && old(self).entries@[k].id == id && final(self).entries@ == old(self).entries@.remove(k)
                        && forall|j: int| 0 <= j < k ==> (#[trigger] old(self).entries@[j]).stable_id != stable_id,
                None => final(self).entries@ == old(self).entries@ && forall|j: int|
                    0 <= j < old(self).entries@.len() ==> (#[trigger] old(self).entries@[j]).stable_id != stable_id,
            },
    {
        let n = self.entries.len();
        let mut k: usize = 0;
        while k < n
            invariant
                self.wf(),
                self.entries@ == old(self).entries@,
                n == self.entries@.len(),
                k <= n,
                forall|j: int| 0 <= j < k ==> (#[trigger] self.entries@[j]).stable_id != stable_id,
            decreases n - k,
        {
            if self.entries[k].stable_id == stable_id {
                let gone = self.entries.remove(k);
                proof {
                    let s = old(self).entries@;
                    assert forall|i: int, j: int| 0 <= i < j < self.entries@.len() implies #[trigger] self.entries@[i].id != #[trigger] self.entries@[j].id by {
                        let oi = if i < k { i } else { i + 1 };
                        let oj = if j < k { j } else { j + 1 };
                        assert(self.entries@[i] == s[oi]);
                        assert(self.entries@[j] == s[oj]);
                    }
                }
                return Some(gone.id);
            }
            k += 1;
        }
        None
    }
}

} // verus!
