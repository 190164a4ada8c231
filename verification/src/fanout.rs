//! Decisions around the K-home fan-outs: whether this relay is itself a home,
//! how per-home replies are tallied against the quorum, and the client-side
//! publish quorum and retry pacing.

use vstd::prelude::*;

use crate::bytes::lex_lt;
use crate::bytes::lex_lt32;
use crate::bytes::xor32;
use crate::bytes::xor_seq;
use crate::config::FORWARD_K_MIN;
use crate::config::K;

verus! {

/// Per-home result of a `Forward` RPC.
#[derive(Clone, Copy, Debug, PartialEq, Eq, Structural)]
pub enum ForwardOutcome {
    /// The recipient was online at that home and received the dispatch.
    Delivered,
    /// The recipient was offline; the dispatch was durably queued.
    Stored,
    NotOwner,
    QueueFull,
    BadSig,
}

/// A home and what it answered.
#[derive(Clone, Copy, Debug, PartialEq, Eq)]
pub struct HomeReply {
    pub node_id: [u8; 32],
    pub outcome: ForwardOutcome,
}

/// Tally of a fan-out attempt, per home.
#[derive(Debug)]
pub struct ForwardSummary {
    pub homes_tried: Vec<[u8; 32]>,
    pub delivered_at: Vec<[u8; 32]>,
    pub stored_at: Vec<[u8; 32]>,
    pub failed_at: Vec<HomeReply>,
}

impl Default for ForwardSummary {
    fn default() -> (s: ForwardSummary)
        ensures
            s.homes_tried@.len() == 0,
            s.delivered_at@.len() == 0,
            s.stored_at@.len() == 0,
            s.failed_at@.len() == 0,
    {
        ForwardSummary::empty()
    }
}

impl ForwardSummary {
    pub fn empty() -> (s: ForwardSummary)
        ensures
            s.homes_tried@.len() == 0,
            s.delivered_at@.len() == 0,
            s.stored_at@.len() == 0,
            s.failed_at@.len() == 0,
    {
        ForwardSummary { homes_tried: Vec::new(), delivered_at: Vec::new(), stored_at: Vec::new(), failed_at: Vec::new() }
    }

    /// Homes that accepted the dispatch: delivered plus stored.
    pub fn success_count(&self) -> (n: usize)
        requires
            self.delivered_at@.len() + self.stored_at@.len() <= usize::MAX,
        ensures
            n == self.delivered_at@.len() + self.stored_at@.len(),
    {
        self.delivered_at.len() + self.stored_at.len()
    }

    /// At least one home delivered to the online recipient.
    pub fn any_delivered(&self) -> (b: bool)
        ensures
            b == (self.delivered_at@.len() > 0),
    {
        self.delivered_at.len() != 0
    }

    /// The successes reach [`FORWARD_K_MIN`].
    pub fn meets_k_min(&self) -> (b: bool)
        requires
            self.delivered_at@.len() + self.stored_at@.len() <= usize::MAX,
        ensures
            b == (self.delivered_at@.len() + self.stored_at@.len() >= FORWARD_K_MIN),
    {
        self.success_count() >= FORWARD_K_MIN
    }
}

/// Why a fan-out gives up.
#[derive(Debug)]
pub enum ForwardError {
    /// No home at all: the routing table is empty and this relay is not one.
    NoHomes,
    /// Fewer than [`FORWARD_K_MIN`] homes accepted.
    InsufficientReplicas { wanted: usize, got: usize, summary: ForwardSummary },
}

/// This relay is among the K homes of `target` when the routing table knows
/// fewer than K peers, or its distance is strictly below the K-th peer's.
pub open spec fn self_in_k_spec(closest: Seq<[u8; 32]>, self_id: [u8; 32], target: [u8; 32]) -> bool {
    closest.len() < K || lex_lt(xor_seq(self_id@, target@), xor_seq(closest[K - 1]@, target@))
}

pub fn self_in_k(closest: &Vec<[u8; 32]>, self_id: &[u8; 32], target: &[u8; 32]) -> (b: bool)
    ensures
        b == self_in_k_spec(closest@, *self_id, *target),
{
    if closest.len() < K {
        return true;
    }
    let self_dist = xor32(self_id, target);
    let kth_dist = xor32(&closest[K - 1], target);
    lex_lt32(&self_dist, &kth_dist)
}

/// This relay is one of the K homes of `target` while the table knows
/// fewer than K peers; otherwise exactly when it is strictly nearer to
/// `target` than the K-th nearest peer: at the same distance or farther it
/// is not.
pub proof fn law_self_in_k_by_distance(closest: Seq<[u8; 32]>, self_id: [u8; 32], target: [u8; 32])
    ensures
        closest.len() < K ==> self_in_k_spec(closest, self_id, target),
        closest.len() >= K && lex_lt(xor_seq(self_id@, target@), xor_seq(closest[K - 1]@, target@)) ==> self_in_k_spec(
            closest,
            self_id,
            target,
        ),
        closest.len() >= K && closest[K - 1] == self_id ==> !self_in_k_spec(closest, self_id, target),
        closest.len() >= K && lex_lt(xor_seq(closest[K - 1]@, target@), xor_seq(self_id@, target@)) ==> !self_in_k_spec(
            closest,
            self_id,
            target,
        ),
{
    crate::bytes::lemma_lex_asymmetric(xor_seq(closest[K - 1]@, target@), xor_seq(self_id@, target@));
    crate::bytes::lemma_lex_irreflexive(xor_seq(self_id@, target@));
}

/// The homes that answered `o` among `replies`, in order.
pub open spec fn ids_with(replies: Seq<HomeReply>, o: ForwardOutcome) -> Seq<[u8; 32]>
    decreases replies.len(),
{
    if replies.len() == 0 {
        Seq::empty()
    } else if replies.last().outcome == o {
        ids_with(replies.drop_last(), o).push(replies.last().node_id)
    } else {
        ids_with(replies.drop_last(), o)
    }
}

/// The replies that were neither `Delivered` nor `Stored`, in order.
pub open spec fn failures(replies: Seq<HomeReply>) -> Seq<HomeReply>
    decreases replies.len(),
{
    if replies.len() == 0 {
        Seq::empty()
    } else if replies.last().outcome != ForwardOutcome::Delivered && replies.last().outcome
        != ForwardOutcome::Stored {
        failures(replies.drop_last()).push(replies.last())
    } else {
        failures(replies.drop_last())
    }
}

pub proof fn lemma_tally_lengths(replies: Seq<HomeReply>)
    ensures
        ids_with(replies, ForwardOutcome::Delivered).len() + ids_with(replies, ForwardOutcome::Stored).len()
            + failures(replies).len() == replies.len(),
    decreases replies.len(),
{
    if replies.len() > 0 {
        lemma_tally_lengths(replies.drop_last());
    }
}

/// `s` lists this relay (when it is a home) and then every replying home as
/// tried, and sorts them by what they answered.
pub open spec fn tally_spec(s: ForwardSummary, self_id: [u8; 32], self_outcome: Option<ForwardOutcome>, replies: Seq<HomeReply>) -> bool {
    let self_ids = match self_outcome { Some(_) => seq![self_id], None => Seq::empty() };
    let self_stored = match self_outcome { Some(ForwardOutcome::Stored) => seq![self_id], _ => Seq::empty() };
    let self_failed = match self_outcome {
        Some(o) => if o != ForwardOutcome::Stored { seq![HomeReply { node_id: self_id, outcome: o }] } else { Seq::empty() },
        None => Seq::empty(),
    };
    &&& s.homes_tried@ == self_ids + replies.map_values(|h: HomeReply| h.node_id)
    &&& s.delivered_at@ == ids_with(replies, ForwardOutcome::Delivered)
    &&& s.stored_at@ == self_stored + ids_with(replies, ForwardOutcome::Stored)
    &&& s.failed_at@ == self_failed + failures(replies)
}

/// Tally the fan-out: this relay's own enqueue result (when it is a home) first,
/// then every remote reply that came back. Fewer than [`FORWARD_K_MIN`]
/// successes is an error carrying the tally.
pub fn tally_forward(self_id: [u8; 32], self_outcome: Option<ForwardOutcome>, replies: &Vec<HomeReply>) -> (r: Result<
    ForwardSummary,
    ForwardError,
>)
    requires
        replies@.len() < usize::MAX,
    ensures
        match r {
            Ok(s) => tally_spec(s, self_id, self_outcome, replies@) && s.delivered_at@.len()
                + s.stored_at@.len() >= FORWARD_K_MIN,
            Err(ForwardError::InsufficientReplicas { wanted, got, summary }) => tally_spec(
                summary,
                self_id,
                self_outcome,
                replies@,
            ) && wanted == FORWARD_K_MIN && got == summary.delivered_at@.len()
                + summary.stored_at@.len() && got < FORWARD_K_MIN,
            Err(ForwardError::NoHomes) => false,
        },
{
    let mut summary = ForwardSummary::empty();
    match self_outcome {
        Some(o) => {
            summary.homes_tried.push(self_id);
            if o == ForwardOutcome::Stored {
                summary.stored_at.push(self_id);
            } else {
                summary.failed_at.push(HomeReply { node_id: self_id, outcome: o });
            }
        },
        None => {},
    }
    let ghost self_ids = summary.homes_tried@;
    let ghost self_stored = summary.stored_at@;
    let ghost self_failed = summary.failed_at@;
    proof {
        assert(self_ids =~= match self_outcome {
            Some(_) => seq![self_id],
            None => Seq::empty(),
        });
        assert(self_stored =~= match self_outcome {
            Some(ForwardOutcome::Stored) => seq![self_id],
            _ => Seq::empty(),
        });
        assert(self_failed =~= match self_outcome {
            Some(o) => if o != ForwardOutcome::Stored {
                seq![HomeReply { node_id: self_id, outcome: o }]
            } else {
                Seq::empty()
            },
            None => Seq::empty(),
        });
    }
    let n = replies.len();
    let mut i: usize = 0;
    while i < n
        invariant
            n == replies@.len(),
            n < usize::MAX,
            i <= n,
            self_ids.len() <= 1,
            self_stored.len() <= 1,
            summary.homes_tried@ == self_ids + replies@.take(i as int).map_values(|h: HomeReply| h.node_id),
            summary.delivered_at@ == ids_with(replies@.take(i as int), ForwardOutcome::Delivered),
            summary.stored_at@ == self_stored + ids_with(replies@.take(i as int), ForwardOutcome::Stored),
            summary.failed_at@ == self_failed + failures(replies@.take(i as int)),
            summary.delivered_at@.len() + summary.stored_at@.len() <= i + 1,
        decreases n - i,
    {
        let reply = replies[i];
        let ghost t = replies@.take(i + 1);
        proof {
            assert(t.drop_last() =~= replies@.take(i as int));
            assert(t.last() == reply);
            lemma_tally_lengths(replies@.take(i as int));
            lemma_tally_lengths(t);
        }
        summary.homes_tried.push(reply.node_id);
        match reply.outcome {
            ForwardOutcome::Delivered => summary.delivered_at.push(reply.node_id),
            ForwardOutcome::Stored => summary.stored_at.push(reply.node_id),
            _ => summary.failed_at.push(reply),
        }
        proof {
            assert(t.map_values(|h: HomeReply| h.node_id) =~= replies@.take(i as int).map_values(
                |h: HomeReply| h.node_id,
            ).push(reply.node_id));
            assert(self_stored + ids_with(t, ForwardOutcome::Stored) =~= if reply.outcome == ForwardOutcome::Stored {
                (self_stored + ids_with(replies@.take(i as int), ForwardOutcome::Stored)).push(reply.node_id)
            } else {
                self_stored + ids_with(replies@.take(i as int), ForwardOutcome::Stored)
            });
            assert(self_failed + failures(t) =~= if reply.outcome != ForwardOutcome::Delivered
                && reply.outcome != ForwardOutcome::Stored {
                (self_failed + failures(replies@.take(i as int))).push(reply)
            } else {
                self_failed + failures(replies@.take(i as int))
            });
        }
        i += 1;
    }
    proof {
        assert(replies@.take(n as int) =~= replies@);
        assert(tally_spec(summary, self_id, self_outcome, replies@));
    }
    let got = summary.success_count();
    if got < FORWARD_K_MIN {
        return Err(ForwardError::InsufficientReplicas { wanted: FORWARD_K_MIN, got, summary });
    }
    Ok(summary)
}

// ---------------------------------------------------------------------------
// Client-side publish quorum
// ---------------------------------------------------------------------------

/// Client-side K-quorum: publishes need this many homes to accept.
pub const K_MIN: usize = 2;

/// How many of the returned homes a client publish tries, at most.
pub const PUBLISH_FANOUT: usize = 3;

/// A publish reached too few homes.
#[derive(Clone, Copy, Debug, PartialEq, Eq)]
pub struct QuorumNotMet {
    pub succeeded: usize,
    pub wanted: usize,
}

/// A home set smaller than [`K_MIN`] cannot carry a publish at all.
pub fn publish_homes_sufficient(homes: usize) -> (r: Result<(), QuorumNotMet>)
    ensures
        r is Ok <==> homes >= K_MIN,
        r matches Err(e) ==> e.succeeded == 0 && e.wanted == K_MIN,
{
    if homes < K_MIN {
        Err(QuorumNotMet { succeeded: 0, wanted: K_MIN })
    } else {
        Ok(())
    }
}

/// The homes a publish tries: the first [`PUBLISH_FANOUT`] of those returned.
pub fn publish_attempts(homes: usize) -> (n: usize)
    ensures
        n == if homes < PUBLISH_FANOUT { homes } else { PUBLISH_FANOUT },
{
    if homes < PUBLISH_FANOUT {
        homes
    } else {
        PUBLISH_FANOUT
    }
}

/// Running count of homes that accepted a publish.
pub struct QuorumTally {
    pub succeeded: usize,
}

impl QuorumTally {
    pub fn new() -> (t: QuorumTally)
        ensures
            t.succeeded == 0,
    {
        QuorumTally { succeeded: 0 }
    }

    /// Record one home's answer; `true` once the quorum is reached, at which
    /// point the publish stops trying further homes.
    pub fn record(&mut self, accepted: bool) -> (done: bool)
        requires
            old(self).succeeded < K_MIN,
        ensures
            final(self).succeeded == old(self).succeeded + if accepted { 1usize } else { 0usize },
            done == (final(self).succeeded >= K_MIN),
    {
        if accepted {
            self.succeeded = self.succeeded + 1;
        }
        self.succeeded >= K_MIN
    }

    /// The publish's result once every selected home was tried.
    pub fn finish(&self) -> (r: Result<(), QuorumNotMet>)
        ensures
            r is Ok <==> self.succeeded >= K_MIN,
            r matches Err(e) ==> e.succeeded == self.succeeded && e.wanted == K_MIN,
    {
        if self.succeeded >= K_MIN {
            Ok(())
        } else {
            Err(QuorumNotMet { succeeded: self.succeeded, wanted: K_MIN })
        }
    }
}

} // verus!
