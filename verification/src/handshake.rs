//! The client handshake a relay runs: the challenge transcript a client
//! signs, the check of its proof, and the registry of connected clients in
//! which the last authenticated connection wins.

use vstd::prelude::*;

use crate::codec::push_bytes;

verus! {

/// Wire protocol version bound into the handshake transcript.
pub const PROTOCOL_VERSION: u32 = 1;

/// The transcript a client signs: `"relay-auth-v"`, the protocol version
/// big-endian, the relay's nonce.
pub open spec fn client_auth_message_spec(nonce: Seq<u8>) -> Seq<u8> {
    seq![114u8, 101, 108, 97, 121, 45, 97, 117, 116, 104, 45, 118] + crate::codec::u32_be_spec(PROTOCOL_VERSION) + nonce
}

pub fn client_auth_message(nonce: &[u8; 32]) -> (m: Vec<u8>)
    ensures
        m@ == client_auth_message_spec(nonce@),
{
    let mut m: Vec<u8> = vec![114u8, 101, 108, 97, 121, 45, 97, 117, 116, 104, 45, 118];
    let v = crate::codec::u32_to_be(PROTOCOL_VERSION);
    push_bytes(&mut m, &v);
    push_bytes(&mut m, nonce);
    assert(m@ =~= client_auth_message_spec(nonce@));
    m
}

/// Whether `sig` is a valid strict Ed25519 signature of `msg` under the key
/// whose compressed encoding is `pk` (false when `pk` is not a valid key).
pub uninterp spec fn ed25519_verify_strict(pk: Seq<u8>, msg: Seq<u8>, sig: Seq<u8>) -> bool;

/// `VerifyingKey::from_bytes` then `VerifyingKey::verify_strict`: the
/// answer depends on the three byte strings alone, and is false whenever
/// the key bytes do not decode.
#[verifier::external_body]
fn ed25519_verify(pk: &[u8; 32], msg: &[u8], sig: &[u8; 64]) -> (ok: bool)
    ensures
        ok == ed25519_verify_strict(pk@, msg@, sig@),
        ok ==> ed25519_point_valid(pk@),
{
    match ed25519_dalek::VerifyingKey::from_bytes(pk) {
        Ok(vk) => vk.verify_strict(msg, &ed25519_dalek::Signature::from_bytes(sig)).is_ok(),
        Err(_) => false,
    }
}

/// Whether `pk` is the compressed encoding of a valid Ed25519 point.
pub uninterp spec fn ed25519_point_valid(pk: Seq<u8>) -> bool;

/// `VerifyingKey::from_bytes`: whether the 32 bytes decode to a key. The
/// answer depends on the bytes alone.
#[verifier::external_body]
pub(crate) fn ed25519_key_decodes(pk: &[u8; 32]) -> (ok: bool)
    ensures
        ok == ed25519_point_valid(pk@),
{
    ed25519_dalek::VerifyingKey::from_bytes(pk).is_ok()
}

/// Whether `sig` passes the plain (non-strict) Ed25519 check of `msg` under
/// the key whose compressed encoding is `pk` (false when `pk` is not a key).
pub uninterp spec fn ed25519_verify_plain(pk: Seq<u8>, msg: Seq<u8>, sig: Seq<u8>) -> bool;

/// `VerifyingKey::from_bytes` then the `Verifier::verify` impl of
/// `VerifyingKey`: the answer depends on the three byte strings alone, and is
/// false whenever the key bytes do not decode.
#[verifier::external_body]
pub(crate) fn ed25519_verify_nonstrict(pk: &[u8; 32], msg: &[u8], sig: &[u8; 64]) -> (ok: bool)
    ensures
        ok == ed25519_verify_plain(pk@, msg@, sig@),
        ok ==> ed25519_point_valid(pk@),
{
    match ed25519_dalek::VerifyingKey::from_bytes(pk) {
        Ok(vk) => ed25519_dalek::Verifier::verify(&vk, msg, &ed25519_dalek::Signature::from_bytes(sig)).is_ok(),
        Err(_) => false,
    }
}

/// A client's proof holds when it is exactly 64 bytes and verifies under
/// its claimed identity over the transcript of the nonce we issued.
pub open spec fn proof_valid(ipk: Seq<u8>, nonce: Seq<u8>, sig: Seq<u8>) -> bool {
    sig.len() == 64 && ed25519_verify_strict(ipk, client_auth_message_spec(nonce), sig)
}

/// A signature given as a slice: valid when it is exactly 64 bytes and
/// verifies strictly under `pk` over `msg`.
pub fn verify_signature(pk: &[u8; 32], msg: &[u8], sig: &[u8]) -> (ok: bool)
    ensures
        ok == (sig@.len() == 64 && ed25519_verify_strict(pk@, msg@, sig@)),
{
    if sig.len() != 64 {
        return false;
    }
    let mut s = [0u8; 64];
    let mut i: usize = 0;
    while i < 64
        invariant
            i <= 64,
            sig@.len() == 64,
            forall|j: int| 0 <= j < i ==> s@[j] == sig@[j],
        decreases 64 - i,
    {
        s[i] = sig[i];
        i += 1;
    }
    assert(s@ =~= sig@);
    ed25519_verify(pk, msg, &s)
}

pub fn verify_client_proof(ipk: &[u8; 32], nonce: &[u8; 32], sig: &[u8]) -> (ok: bool)
    ensures
        ok == proof_valid(ipk@, nonce@, sig@),
{
    let m = client_auth_message(nonce);
    verify_signature(ipk, &m, sig)
}

// ---------------------------------------------------------------------------
// The relay's side of the handshake
// ---------------------------------------------------------------------------

/// Where the relay stands in one client's handshake.
pub enum ServerHandshake {
    /// Waiting for the client's `Hello`.
    AwaitHello,
    /// The client named `ipk`; we challenged it with `nonce`.
    AwaitProof { ipk: [u8; 32], nonce: [u8; 32] },
    /// The client proved `ipk`; the session is authenticated.
    Done { ipk: [u8; 32] },
    /// The handshake ended without authentication.
    Failed,
}

/// What the client sent on the handshake stream.
pub enum HandshakeInput {
    Hello { ipk: [u8; 32] },
    Proof { sig: Vec<u8> },
    /// Bytes that do not decode as a handshake packet.
    Malformed,
}

/// Why the relay rejects a handshake.
#[derive(PartialEq, Eq, Structural, Debug, Clone, Copy)]
pub enum RejectReason {
    /// A packet came out of order.
    OrderMismatch,
    /// The proof does not verify.
    InvalidSignature,
}

/// What the relay does after a step.
pub enum ServerHandshakeAction {
    /// Send `Challenge { nonce }`.
    Challenge { nonce: [u8; 32] },
    /// Send the rejection and end the session.
    Reject { reason: RejectReason },
    /// Send the acceptance and register the client under `ipk`.
    Accept { ipk: [u8; 32] },
    /// End the session without a reply.
    Drop,
}

/// One step of the relay's handshake: the state after `input` and what to
/// send. `nonce` is the fresh challenge, used when a `Hello` arrives.
pub open spec fn server_handshake_spec(state: ServerHandshake, input: HandshakeInput, nonce: [u8; 32]) -> (
    ServerHandshake,
    ServerHandshakeAction,
) {
    match state {
        ServerHandshake::AwaitHello => match input {
            HandshakeInput::Hello { ipk } => if ed25519_point_valid(ipk@) {
                (ServerHandshake::AwaitProof { ipk, nonce }, ServerHandshakeAction::Challenge { nonce })
            } else {
                (ServerHandshake::Failed, ServerHandshakeAction::Drop)
            },
            HandshakeInput::Proof { .. } => (
                ServerHandshake::Failed,
                ServerHandshakeAction::Reject { reason: RejectReason::OrderMismatch },
            ),
            HandshakeInput::Malformed => (ServerHandshake::Failed, ServerHandshakeAction::Drop),
        },
        ServerHandshake::AwaitProof { ipk, nonce: issued } => match input {
            HandshakeInput::Proof { sig } => if proof_valid(ipk@, issued@, sig@) {
                (ServerHandshake::Done { ipk }, ServerHandshakeAction::Accept { ipk })
            } else {
                (
                    ServerHandshake::Failed,
                    ServerHandshakeAction::Reject { reason: RejectReason::InvalidSignature },
                )
            },
            HandshakeInput::Hello { .. } => (
                ServerHandshake::Failed,
                ServerHandshakeAction::Reject { reason: RejectReason::OrderMismatch },
            ),
            HandshakeInput::Malformed => (ServerHandshake::Failed, ServerHandshakeAction::Drop),
        },
        ServerHandshake::Done { ipk } => (ServerHandshake::Done { ipk }, ServerHandshakeAction::Drop),
        ServerHandshake::Failed => (ServerHandshake::Failed, ServerHandshakeAction::Drop),
    }
}

pub fn server_handshake_step(state: ServerHandshake, input: HandshakeInput, nonce: [u8; 32]) -> (r: (
    ServerHandshake,
    ServerHandshakeAction,
))
    ensures
        r == server_handshake_spec(state, input, nonce),
{
    match state {
        ServerHandshake::AwaitHello => match input {
            HandshakeInput::Hello { ipk } => if ed25519_key_decodes(&ipk) {
                (ServerHandshake::AwaitProof { ipk, nonce }, ServerHandshakeAction::Challenge { nonce })
            } else {
                (ServerHandshake::Failed, ServerHandshakeAction::Drop)
            },
            HandshakeInput::Proof { .. } => (
                ServerHandshake::Failed,
                ServerHandshakeAction::Reject { reason: RejectReason::OrderMismatch },
            ),
            HandshakeInput::Malformed => (ServerHandshake::Failed, ServerHandshakeAction::Drop),
        },
        ServerHandshake::AwaitProof { ipk, nonce: issued } => match input {
            HandshakeInput::Proof { sig } => if verify_client_proof(&ipk, &issued, &sig) {
                (ServerHandshake::Done { ipk }, ServerHandshakeAction::Accept { ipk })
            } else {
                (
                    ServerHandshake::Failed,
                    ServerHandshakeAction::Reject { reason: RejectReason::InvalidSignature },
                )
            },
            HandshakeInput::Hello { .. } => (
                ServerHandshake::Failed,
                ServerHandshakeAction::Reject { reason: RejectReason::OrderMismatch },
            ),
            HandshakeInput::Malformed => (ServerHandshake::Failed, ServerHandshakeAction::Drop),
        },
        ServerHandshake::Done { ipk } => (ServerHandshake::Done { ipk }, ServerHandshakeAction::Drop),
        ServerHandshake::Failed => (ServerHandshake::Failed, ServerHandshakeAction::Drop),
    }
}

/// A relay authenticates a client only for a valid key that signed, in its
/// second packet, the transcript of the very nonce it was challenged with
/// after its first: whatever two packets start a handshake, an acceptance
/// means the first was a `Hello` naming a decodable key, the second a
/// `Proof` valid over the first nonce, and the accepted identity is the
/// one named.
pub proof fn law_accept_only_valid_proof(first: HandshakeInput, second: HandshakeInput, n1: [u8; 32], n2: [u8; 32])
    ensures
        ({
            let (s1, _a1) = server_handshake_spec(ServerHandshake::AwaitHello, first, n1);
            let (_s2, a2) = server_handshake_spec(s1, second, n2);
            a2 matches ServerHandshakeAction::Accept { ipk } ==> {
                &&& first matches HandshakeInput::Hello { ipk: named } && named == ipk
                &&& ed25519_point_valid(ipk@)
                &&& second matches HandshakeInput::Proof { sig } && proof_valid(ipk@, n1@, sig@)
            }
        }),
{
}

// ---------------------------------------------------------------------------
// Connected clients
// ---------------------------------------------------------------------------

/// A connected client: its identity and its connection's stable id.
#[derive(Clone, Copy, Debug, PartialEq, Eq)]
pub struct ClientConn {
    pub ipk: [u8; 32],
    pub stable_id: u64,
}

/// Connected clients, each identity at most once.
pub struct ClientRegistry {
    pub entries: Vec<ClientConn>,
}

/// The connection registered for `ipk`, if any.
pub open spec fn conn_of(s: Seq<ClientConn>, ipk: [u8; 32]) -> Option<u64>
    decreases s.len(),
{
    if s.len() == 0 {
        None
    } else if s.last().ipk == ipk {
        Some(s.last().stable_id)
    } else {
        conn_of(s.drop_last(), ipk)
    }
}

proof fn lemma_conn_of_none(s: Seq<ClientConn>, ipk: [u8; 32])
    requires
        forall|k: int| 0 <= k < s.len() ==> (#[trigger] s[k]).ipk != ipk,
    ensures
        conn_of(s, ipk) is None,
    decreases s.len(),
{
    if s.len() > 0 {
        lemma_conn_of_none(s.drop_last(), ipk);
    }
}

proof fn lemma_conn_of_remove(s: Seq<ClientConn>, k: int, other: [u8; 32])
    requires
        0 <= k < s.len(),
        s[k].ipk != other,
    ensures
        conn_of(s.remove(k), other) == conn_of(s, other),
    decreases s.len(),
{
    if k < s.len() - 1 {
        assert(s.remove(k).drop_last() =~= s.drop_last().remove(k));
        assert(s.remove(k).last() == s.last());
        lemma_conn_of_remove(s.drop_last(), k, other);
    } else {
        assert(s.remove(k) =~= s.drop_last());
    }
}

proof fn lemma_conn_of_found(s: Seq<ClientConn>, k: int)
    requires
        0 <= k < s.len(),
        forall|i: int, j: int| 0 <= i < j < s.len() ==> #[trigger] s[i].ipk != #[trigger] s[j].ipk,
    ensures
        conn_of(s, s[k].ipk) == Some(s[k].stable_id),
    decreases s.len(),
{
    if k < s.len() - 1 {
        assert(s.last().ipk != s[k].ipk) by {
            assert(s[k].ipk != s[s.len() - 1].ipk);
        }
        assert(s.drop_last()[k] == s[k]);
        lemma_conn_of_found(s.drop_last(), k);
    }
}

impl ClientRegistry {
    pub open spec fn wf(&self) -> bool {
        forall|i: int, j: int| 0 <= i < j < self.entries@.len() ==> #[trigger] self.entries@[i].ipk != #[trigger] self.entries@[j].ipk
    }

    pub fn new() -> (r: ClientRegistry)
        ensures
            r.wf(),
            r.entries@.len() == 0,
    {
        ClientRegistry { entries: Vec::new() }
    }

    fn find(&self, ipk: &[u8; 32]) -> (r: Option<usize>)
        requires
            self.wf(),
        ensures
            r is None ==> forall|k: int| 0 <= k < self.entries@.len() ==> (#[trigger] self.entries@[k]).ipk != *ipk,
            r matches Some(k) ==> k < self.entries@.len() && self.entries@[k as int].ipk == *ipk,
    {
        let n = self.entries.len();
        let mut k: usize = 0;
        while k < n
            invariant
                n == self.entries@.len(),
                k <= n,
                forall|j: int| 0 <= j < k ==> (#[trigger] self.entries@[j]).ipk != *ipk,
            decreases n - k,
        {
            if crate::bytes::eq32(&self.entries[k].ipk, ipk) {
                return Some(k);
            }
            k += 1;
        }
        None
    }

    /// The connection registered for `ipk`.
    pub fn lookup(&self, ipk: &[u8; 32]) -> (r: Option<u64>)
        requires
            self.wf(),
        ensures
            r == conn_of(self.entries@, *ipk),
    {
        match self.find(ipk) {
            Some(k) => {
                proof {
                    lemma_conn_of_found(self.entries@, k as int);
                }
                Some(self.entries[k].stable_id)
            },
            None => {
                proof {
                    lemma_conn_of_none(self.entries@, *ipk);
                }
                None
            },
        }
    }

    /// Register an authenticated connection; the last one wins. Returns the
    /// connection it displaced, which the caller closes.
    pub fn register(&mut self, ipk: [u8; 32], stable_id: u64) -> (displaced: Option<u64>)
        requires
            old(self).wf(),
        ensures
            final(self).wf(),
            displaced == conn_of(old(self).entries@, ipk),
            conn_of(final(self).entries@, ipk) == Some(stable_id),
            forall|other: [u8; 32]| other != ipk ==> conn_of(final(self).entries@, other) == conn_of(old(self).entries@, other),
    {
        let displaced = self.lookup(&ipk);
        match self.find(&ipk) {
            Some(k) => {
                let ghost before = self.entries@;
                let _gone = self.entries.remove(k);
                proof {
                    assert forall|other: [u8; 32]| other != ipk implies conn_of(self.entries@, other) == conn_of(before, other) by {
                        lemma_conn_of_remove(before, k as int, other);
                    }
                    assert forall|j: int| 0 <= j < self.entries@.len() implies (#[trigger] self.entries@[j]).ipk != ipk by {
                        let oj = if j < k { j } else { j + 1 };
                        assert(self.entries@[j] == before[oj]);
                        if oj < k { assert(before[oj].ipk != before[k as int].ipk); } else { assert(before[k as int].ipk != before[oj].ipk); }
                    }
                    assert forall|i: int, j: int| 0 <= i < j < self.entries@.len() implies #[trigger] self.entries@[i].ipk != #[trigger] self.entries@[j].ipk by {
                        let oi = if i < k { i } else { i + 1 };
                        let oj = if j < k { j } else { j + 1 };
                        assert(self.entries@[i] == before[oi]);
                        assert(self.entries@[j] == before[oj]);
                    }
                }
            },
            None => {},
        }
        let ghost mid = self.entries@;
        self.entries.push(ClientConn { ipk, stable_id });
        proof {
            assert(self.entries@.drop_last() =~= mid);
            assert forall|i: int, j: int| 0 <= i < j < self.entries@.len() implies #[trigger] self.entries@[i].ipk != #[trigger] self.entries@[j].ipk by {
                assert(self.entries@[i] == mid[i]);
                if j < mid.len() {
                    assert(self.entries@[j] == mid[j]);
                }
            }
        }
        displaced
    }

    /// A connection closed: drop its identity only if this very connection is
    /// still the one registered. Returns whether it was dropped.
    pub fn remove_if_same(&mut self, ipk: &[u8; 32], stable_id: u64) -> (removed: bool)
        requires
            old(self).wf(),
        ensures
            final(self).wf(),
            removed == (conn_of(old(self).entries@, *ipk) == Some(stable_id)),
            removed ==> conn_of(final(self).entries@, *ipk) is None,
            !removed ==> final(self).entries@ == old(self).entries@,
            forall|other: [u8; 32]| other != *ipk ==> conn_of(final(self).entries@, other) == conn_of(old(self).entries@, other),
    {
        match self.find(ipk) {
            Some(k) => {
                proof {
                    lemma_conn_of_found(self.entries@, k as int);
                }
                if self.entries[k].stable_id != stable_id {
                    return false;
                }
                let ghost before = self.entries@;
                let _gone = self.entries.remove(k);
                proof {
                    assert forall|other: [u8; 32]| other != *ipk implies conn_of(self.entries@, other) == conn_of(before, other) by {
                        lemma_conn_of_remove(before, k as int, other);
                    }
                    assert forall|j: int| 0 <= j < self.entries@.len() implies (#[trigger] self.entries@[j]).ipk != *ipk by {
                        let oj = if j < k { j } else { j + 1 };
                        assert(self.entries@[j] == before[oj]);
                        if oj < k { assert(before[oj].ipk != before[k as int].ipk); } else { assert(before[k as int].ipk != before[oj].ipk); }
                    }
                    lemma_conn_of_none(self.entries@, *ipk);
                    assert forall|i: int, j: int| 0 <= i < j < self.entries@.len() implies #[trigger] self.entries@[i].ipk != #[trigger] self.entries@[j].ipk by {
                        let oi = if i < k { i } else { i + 1 };
                        let oj = if j < k { j } else { j + 1 };
                        assert(self.entries@[i] == before[oi]);
                        assert(self.entries@[j] == before[oj]);
                    }
                }
                true
            },
            None => {
                proof {
                    lemma_conn_of_none(self.entries@, *ipk);
                }
                false
            },
        }
    }
}

} // verus!
