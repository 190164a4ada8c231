//! Home-relay bookkeeping for replicated writes: which homes a push
//! pseudonym is copied to, how many unconfirmed copies are kept and in what
//! order they are retried, when a copy is accepted, and the tally of a
//! key-package publish against its write quorum.

use vstd::prelude::*;

use crate::config::K;
use crate::handshake::ed25519_verify_strict;
use crate::handshake::verify_signature;
use crate::routing::NodeContact;

verus! {

/// Most push registrations awaiting confirmation from their homes.
pub const MAX_PENDING_PUSHES: usize = 4096;

/// Most pending registrations retried in one sweep.
pub const MAX_PENDING_RETRIES_PER_SWEEP: usize = 32;

/// Largest clock difference a signed registration may carry (one minute).
pub const MAX_SKEW_MS: u64 = 60_000;

/// The homes a registration is copied to: the K nearest, less the last of
/// them when this relay is a home itself and stores its own copy.
pub open spec fn replication_targets_spec(closest: Seq<NodeContact>, self_is_home: bool) -> Seq<NodeContact> {
    if self_is_home && closest.len() == K { closest.drop_last() } else { closest }
}

pub fn replication_targets(closest: Vec<NodeContact>, self_is_home: bool) -> (r: Vec<NodeContact>)
    ensures
        r@ == replication_targets_spec(closest@, self_is_home),
{
    let mut homes = closest;
    if self_is_home && homes.len() == K {
        let _last = homes.pop();
    }
    homes
}

/// The copies go to the nearest homes first: the targets are the leading
/// entries of `closest`, all K of them unless this relay is itself a home,
/// in which case its own copy takes the place of the farthest remote home.
pub proof fn law_targets_are_nearest_homes(closest: Seq<NodeContact>, self_is_home: bool)
    ensures
        ({
            let r = replication_targets_spec(closest, self_is_home);
            &&& r.len() <= closest.len()
            &&& r == closest.take(r.len() as int)
            &&& self_is_home && closest.len() == K ==> r.len() == K - 1
            &&& !(self_is_home && closest.len() == K) ==> r.len() == closest.len()
        }),
{
    let r = replication_targets_spec(closest, self_is_home);
    assert(r =~= closest.take(r.len() as int));
}

/// A registration is kept for retry unless it is new and the pending set is
/// already full.
pub fn pending_admissible(is_new: bool, pending: usize) -> (b: bool)
    ensures
        b == !(is_new && pending >= MAX_PENDING_PUSHES),
{
    !(is_new && pending >= MAX_PENDING_PUSHES)
}

/// A signed timestamp within the allowed skew of `now`.
pub open spec fn within_skew_spec(now_ms: u64, timestamp: u64) -> bool {
    (if now_ms >= timestamp { now_ms - timestamp } else { timestamp - now_ms }) <= MAX_SKEW_MS
}

pub fn within_skew(now_ms: u64, timestamp: u64) -> (b: bool)
    ensures
        b == within_skew_spec(now_ms, timestamp),
{
    let d = if now_ms >= timestamp { now_ms - timestamp } else { timestamp - now_ms };
    d <= MAX_SKEW_MS
}

/// A push-pseudonym registration stands when its timestamp is within the
/// skew and the user's strict signature over its `transcript` verifies.
pub fn valid_publish(now_ms: u64, timestamp: u64, user_ipk: &[u8; 32], transcript: &[u8], user_sig: &[u8; 64]) -> (b: bool)
    ensures
        b == (within_skew_spec(now_ms, timestamp) && ed25519_verify_strict(user_ipk@, transcript@, user_sig@)),
{
    if !within_skew(now_ms, timestamp) {
        return false;
    }
    verify_signature(user_ipk, transcript, user_sig)
}

/// A home accepts a registration when its timestamp is within the skew, its
/// signature verifies, this relay is one of the user's homes, and the copy
/// is stored.
pub fn publish_accepted(now_ms: u64, timestamp: u64, signature_ok: bool, self_is_home: bool, stored: bool) -> (b: bool)
    ensures
        b == (within_skew_spec(now_ms, timestamp) && signature_ok && self_is_home && stored),
{
    within_skew(now_ms, timestamp) && signature_ok && self_is_home && stored
}

/// The pending entries one sweep retries: from the cursor on, wrapping
/// around, at most [`MAX_PENDING_RETRIES_PER_SWEEP`] and at most all of them.
pub open spec fn retry_index(start: usize, i: int, len: usize) -> int {
    ((start as int + i) % (usize::MAX as int + 1)) % (len as int)
}

pub fn retry_schedule(start: usize, len: usize) -> (r: Vec<usize>)
    ensures
        r@.len() == if len < MAX_PENDING_RETRIES_PER_SWEEP { len as int } else { MAX_PENDING_RETRIES_PER_SWEEP as int },
        forall|i: int| 0 <= i < r@.len() ==> #[trigger] r@[i] == retry_index(start, i, len),
        forall|i: int| 0 <= i < r@.len() ==> #[trigger] r@[i] < len,
{
    let n = if len < MAX_PENDING_RETRIES_PER_SWEEP { len } else { MAX_PENDING_RETRIES_PER_SWEEP };
    let mut out: Vec<usize> = Vec::new();
    let mut i: usize = 0;
    while i < n
        invariant
            n <= len,
            i <= n,
            out@.len() == i,
            forall|j: int| 0 <= j < i ==> #[trigger] out@[j] == retry_index(start, j, len),
            forall|j: int| 0 <= j < i ==> #[trigger] out@[j] < len,
        decreases n - i,
    {
        let idx = start.wrapping_add(i) % len;
        proof {
            assert(start.wrapping_add(i) == (start as int + i) % (usize::MAX as int + 1)) by {
                assert(usize::MAX as int + 1 == if usize::BITS == 32 { 0x1_0000_0000int } else { 0x1_0000_0000_0000_0000int });
            }
        }
        out.push(idx);
        i += 1;
    }
    out
}

/// A pseudonym registration is settled once any home, this relay
/// included, accepted it.
pub fn replication_settled(self_is_home: bool, remote_accepted: &Vec<bool>) -> (b: bool)
    ensures
        b == (self_is_home || exists|i: int| 0 <= i < remote_accepted@.len() && remote_accepted@[i]),
{
    let mut accepted = self_is_home;
    let n = remote_accepted.len();
    let mut i: usize = 0;
    while i < n
        invariant
            n == remote_accepted@.len(),
            i <= n,
            accepted == (self_is_home || exists|j: int| 0 <= j < i && remote_accepted@[j]),
        decreases n - i,
    {
        accepted = accepted || remote_accepted[i];
        i += 1;
    }
    accepted
}

/// Key-package publish tally at the originating home: its own copy counts
/// once if stored and made durable, each remote home once if it stored; the
/// count saturates.
pub struct KpPublishQuorum {
    pub homes_succeeded: u8,
    pub quorum_met: bool,
}

pub fn kp_publish_quorum(self_stored: bool, remote_stored: &Vec<bool>, required: usize) -> (q: KpPublishQuorum)
    ensures
        q.homes_succeeded == (if self_stored { 1int } else { 0int }) + count_true(remote_stored@) || (q.homes_succeeded
            == 255 && (if self_stored { 1int } else { 0int }) + count_true(remote_stored@) >= 255),
        q.quorum_met == (q.homes_succeeded >= required),
{
    let mut n: u8 = if self_stored { 1 } else { 0 };
    let len = remote_stored.len();
    let mut i: usize = 0;
    while i < len
        invariant
            len == remote_stored@.len(),
            i <= len,
            n == (if self_stored { 1int } else { 0int }) + count_true(remote_stored@.take(i as int)) || (n == 255
                && (if self_stored { 1int } else { 0int }) + count_true(remote_stored@.take(i as int)) >= 255),
        decreases len - i,
    {
        assert(remote_stored@.take(i + 1).drop_last() =~= remote_stored@.take(i as int));
        if remote_stored[i] {
            n = n.saturating_add(1);
        }
        i += 1;
    }
    assert(remote_stored@.take(len as int) =~= remote_stored@);
    KpPublishQuorum { homes_succeeded: n, quorum_met: n as usize >= required }
}

/// How many of `s` are true.
pub open spec fn count_true(s: Seq<bool>) -> int
    decreases s.len(),
{
    if s.len() == 0 {
        0
    } else {
        count_true(s.drop_last()) + if s.last() { 1int } else { 0int }
    }
}

} // verus!
