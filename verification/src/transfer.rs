//! Peer-to-peer file transfer: the chunked manifest and its content address,
//! the length-prefixed stream frame, the first-frame identity pin, and the
//! bookkeeping rules for what a sender keeps and a receiver has pulled.

use vstd::prelude::*;

use crate::codec::le_u32_of;
use crate::codec::lemma_u32_le_roundtrip;
use crate::codec::push_bytes;
use crate::codec::u32_from_le;
use crate::codec::u32_le_spec;
use crate::codec::u32_to_le;
use crate::codec::u64_le_spec;
use crate::codec::u64_to_le;
use crate::digest::blake3_digest;
use crate::digest::blake3_hash;

verus! {

/// Size of every chunk but the last.
pub const CHUNK_SIZE: usize = 262_144;

/// Largest payload of one length-prefixed frame (8 MiB).
pub const MAX_FRAME: usize = 8_388_608;

/// A file described as its size, its chunk size and the BLAKE3 digest of
/// each chunk in order.
#[derive(Clone, PartialEq, Debug)]
pub struct Manifest {
    pub total_size: u64,
    pub chunk_size: u32,
    pub chunks: Vec<[u8; 32]>,
}

/// A receiver asks for `file_id`, holding its first `have` chunks.
#[derive(PartialEq, Debug)]
pub struct Pull {
    pub file_id: [u8; 32],
    pub have: u32,
}

/// The sender's answer to a [`Pull`].
#[derive(PartialEq, Debug)]
pub enum ServeResp {
    Manifest(Manifest),
    Gone,
}

/// One side's first frame: its identity key, the TLS key it presents, and the
/// identity's signature binding the two.
#[derive(Clone, PartialEq, Debug)]
pub struct Auth {
    pub ipk: [u8; 32],
    pub tls_pub: [u8; 32],
    pub sig: [u8; 64],
}

// ---------------------------------------------------------------------------
// Content address
// ---------------------------------------------------------------------------

/// Domain tag hashed ahead of every manifest.
pub open spec fn manifest_domain() -> Seq<u8> {
    seq![
        112u8, 114, 111, 109, 116, 117, 122, 47, 116, 114, 97, 110, 115, 102, 101, 114, 47, 109,
        97, 110, 105, 102, 101, 115, 116,
    ]
}

/// The chunk digests laid end to end.
pub open spec fn flatten_chunks(chunks: Seq<[u8; 32]>) -> Seq<u8>
    decreases chunks.len(),
{
    if chunks.len() == 0 {
        Seq::empty()
    } else {
        flatten_chunks(chunks.drop_last()) + chunks.last()@
    }
}

/// What a manifest's id is the digest of: the domain tag, the total size and
/// the chunk size little-endian, then every chunk digest.
pub open spec fn manifest_preimage(total_size: u64, chunk_size: u32, chunks: Seq<[u8; 32]>) -> Seq<u8> {
    manifest_domain() + u64_le_spec(total_size) + u32_le_spec(chunk_size) + flatten_chunks(chunks)
}

proof fn lemma_flatten_len(chunks: Seq<[u8; 32]>)
    ensures
        flatten_chunks(chunks).len() == 32 * chunks.len(),
    decreases chunks.len(),
{
    if chunks.len() > 0 {
        lemma_flatten_len(chunks.drop_last());
    }
}

proof fn lemma_flatten_injective(a: Seq<[u8; 32]>, b: Seq<[u8; 32]>)
    requires
        flatten_chunks(a) == flatten_chunks(b),
    ensures
        a == b,
    decreases a.len(),
{
    lemma_flatten_len(a);
    lemma_flatten_len(b);
    if a.len() > 0 {
        let fa = flatten_chunks(a.drop_last());
        let fb = flatten_chunks(b.drop_last());
        lemma_flatten_len(a.drop_last());
        lemma_flatten_len(b.drop_last());
        let n = fa.len() as int;
        assert(flatten_chunks(a).subrange(0, n) =~= fa);
        assert(flatten_chunks(b).subrange(0, n) =~= fb);
        assert(flatten_chunks(a).subrange(n, n + 32) =~= a.last()@);
        assert(flatten_chunks(b).subrange(n, n + 32) =~= b.last()@);
        lemma_flatten_injective(a.drop_last(), b.drop_last());
        assert(a.last()@ == b.last()@);
        assert(a.last() == b.last());
        assert(a =~= a.drop_last().push(a.last()));
        assert(b =~= b.drop_last().push(b.last()));
    } else {
        assert(b.len() == 0);
        assert(a =~= b);
    }
}

/// Two manifests hash the same bytes only when they are the same manifest:
/// a file id names one manifest up to a digest collision.
pub proof fn law_manifest_preimage_injective(
    t1: u64,
    c1: u32,
    k1: Seq<[u8; 32]>,
    t2: u64,
    c2: u32,
    k2: Seq<[u8; 32]>,
)
    requires
        manifest_preimage(t1, c1, k1) == manifest_preimage(t2, c2, k2),
    ensures
        t1 == t2,
        c1 == c2,
        k1 == k2,
{
    let p1 = manifest_preimage(t1, c1, k1);
    let p2 = manifest_preimage(t2, c2, k2);
    assert(p1.subrange(25, 33) =~= u64_le_spec(t1));
    assert(p2.subrange(25, 33) =~= u64_le_spec(t2));
    assert(p1.subrange(33, 37) =~= u32_le_spec(c1));
    assert(p2.subrange(33, 37) =~= u32_le_spec(c2));
    assert(u64_le_spec(t1).reverse() =~= u64_le_spec(t2).reverse());
    crate::codec::lemma_u64_be_roundtrip(t1);
    crate::codec::lemma_u64_be_roundtrip(t2);
    assert(u64_le_spec(t1).reverse() =~= crate::codec::u64_be_spec(t1));
    assert(u64_le_spec(t2).reverse() =~= crate::codec::u64_be_spec(t2));
    lemma_u32_le_roundtrip(c1);
    lemma_u32_le_roundtrip(c2);
    assert(p1.subrange(37, p1.len() as int) =~= flatten_chunks(k1));
    assert(p2.subrange(37, p2.len() as int) =~= flatten_chunks(k2));
    lemma_flatten_injective(k1, k2);
}

impl Manifest {
    /// Content address of the manifest itself, not of the file bytes: the
    /// BLAKE3 digest of [`manifest_preimage`].
    pub fn file_id(&self) -> (id: [u8; 32])
        requires
            37 + 32 * self.chunks@.len() <= usize::MAX,
        ensures
            id@ == blake3_digest(manifest_preimage(self.total_size, self.chunk_size, self.chunks@)),
    {
        let mut pre: Vec<u8> = vec![
            112u8, 114, 111, 109, 116, 117, 122, 47, 116, 114, 97, 110, 115, 102, 101, 114, 47, 109,
            97, 110, 105, 102, 101, 115, 116,
        ];
        assert(pre@ =~= manifest_domain());
        let t = u64_to_le(self.total_size);
        push_bytes(&mut pre, &t);
        let c = u32_to_le(self.chunk_size);
        push_bytes(&mut pre, &c);
        let ghost head = pre@;
        let n = self.chunks.len();
        let mut i: usize = 0;
        while i < n
            invariant
                n == self.chunks@.len(),
                i <= n,
                pre@ == head + flatten_chunks(self.chunks@.take(i as int)),
            decreases n - i,
        {
            let chunk = self.chunks[i];
            push_bytes(&mut pre, &chunk);
            assert(self.chunks@.take(i + 1).drop_last() =~= self.chunks@.take(i as int));
            i += 1;
        }
        assert(self.chunks@.take(n as int) =~= self.chunks@);
        blake3_hash(&pre)
    }
}

// ---------------------------------------------------------------------------
// Building a manifest block by block
// ---------------------------------------------------------------------------

/// A manifest under construction from consecutive file blocks of
/// [`CHUNK_SIZE`] bytes, the last one possibly shorter.
pub struct ManifestBuilder {
    pub total: u64,
    pub chunks: Vec<[u8; 32]>,
}

impl ManifestBuilder {
    pub fn new() -> (b: ManifestBuilder)
        ensures
            b.total == 0,
            b.chunks@.len() == 0,
    {
        ManifestBuilder { total: 0, chunks: Vec::new() }
    }

    /// Take the next block of the file. An empty block adds nothing; any
    /// other adds its digest as the next chunk. The result says whether more
    /// blocks may follow: only a full block leaves the file unfinished.
    pub fn add_block(&mut self, block: &[u8]) -> (more: bool)
        requires
            block@.len() <= CHUNK_SIZE,
            old(self).total + block@.len() <= u64::MAX,
        ensures
            block@.len() == 0 ==> *final(self) == *old(self),
            block@.len() > 0 ==> final(self).chunks@.len() == old(self).chunks@.len() + 1
                && final(self).chunks@.drop_last() == old(self).chunks@
                && final(self).chunks@.last()@ == blake3_digest(block@)
                && final(self).total == old(self).total + block@.len(),
            more == (block@.len() == CHUNK_SIZE),
    {
        if block.len() == 0 {
            return false;
        }
        let h = blake3_hash(block);
        self.chunks.push(h);
        self.total = self.total + block.len() as u64;
        block.len() == CHUNK_SIZE
    }

    pub fn finish(self) -> (m: Manifest)
        ensures
            m.total_size == self.total,
            m.chunk_size == CHUNK_SIZE,
            m.chunks@ == self.chunks@,
    {
        Manifest { total_size: self.total, chunk_size: CHUNK_SIZE as u32, chunks: self.chunks }
    }
}

// ---------------------------------------------------------------------------
// Stream frames
// ---------------------------------------------------------------------------

/// Why a frame cannot be written or read.
#[derive(Clone, Copy, PartialEq, Eq, Debug, Structural)]
pub enum FrameError {
    /// The payload, or the length a prefix announces, is over [`MAX_FRAME`].
    TooLarge,
    /// The bytes end before the frame does.
    Truncated,
}

/// A frame: the payload length as four little-endian bytes, then the payload.
pub open spec fn frame_spec(payload: Seq<u8>) -> Seq<u8> {
    u32_le_spec(payload.len() as u32) + payload
}

/// Reading one frame off the front of `b`: its payload and how many bytes it
/// took, or why not.
pub open spec fn read_frame_spec(b: Seq<u8>) -> Result<(Seq<u8>, int), FrameError> {
    if b.len() < 4 {
        Err(FrameError::Truncated)
    } else {
        let n = le_u32_of(b.take(4)) as int;
        if n > MAX_FRAME {
            Err(FrameError::TooLarge)
        } else if b.len() < 4 + n {
            Err(FrameError::Truncated)
        } else {
            Ok((b.subrange(4, 4 + n), 4 + n))
        }
    }
}

/// Frame `payload`; a payload over [`MAX_FRAME`] is refused rather than
/// truncated under the `u32` prefix.
pub fn encode_frame(payload: &[u8]) -> (r: Result<Vec<u8>, FrameError>)
    ensures
        r is Ok <==> payload@.len() <= MAX_FRAME,
        r matches Ok(v) ==> v@ == frame_spec(payload@),
        r matches Err(e) ==> e == FrameError::TooLarge,
{
    if payload.len() > MAX_FRAME {
        return Err(FrameError::TooLarge);
    }
    let prefix = u32_to_le(payload.len() as u32);
    let mut out: Vec<u8> = Vec::new();
    push_bytes(&mut out, &prefix);
    push_bytes(&mut out, payload);
    assert(out@ =~= frame_spec(payload@));
    Ok(out)
}

/// The payload length a frame prefix announces, refused over [`MAX_FRAME`]
/// before anything is allocated for it.
pub fn frame_len(prefix: &[u8; 4]) -> (r: Result<usize, FrameError>)
    ensures
        r is Ok <==> le_u32_of(prefix@) <= MAX_FRAME,
        r matches Ok(n) ==> n == le_u32_of(prefix@),
        r matches Err(e) ==> e == FrameError::TooLarge,
{
    let n = u32_from_le(prefix);
    if n as usize > MAX_FRAME {
        Err(FrameError::TooLarge)
    } else {
        Ok(n as usize)
    }
}

/// Read one frame off the front of `buf`.
pub fn read_frame(buf: &[u8]) -> (r: Result<(Vec<u8>, usize), FrameError>)
    ensures
        match (r, read_frame_spec(buf@)) {
            (Ok((p, used)), Ok((sp, sused))) => p@ == sp && used == sused,
            (Err(e), Err(se)) => e == se,
            _ => false,
        },
{
    if buf.len() < 4 {
        return Err(FrameError::Truncated);
    }
    let prefix: [u8; 4] = [buf[0], buf[1], buf[2], buf[3]];
    assert(prefix@ =~= buf@.take(4));
    let n = match frame_len(&prefix) {
        Ok(n) => n,
        Err(e) => return Err(e),
    };
    if buf.len() - 4 < n {
        return Err(FrameError::Truncated);
    }
    let mut payload: Vec<u8> = Vec::new();
    let mut i: usize = 0;
    while i < n
        invariant
            i <= n,
            4 + n <= buf.len(),
            payload@ == buf@.subrange(4, 4 + i),
        decreases n - i,
    {
        payload.push(buf[4 + i]);
        assert(buf@.subrange(4, 4 + i + 1) =~= buf@.subrange(4, 4 + i).push(buf@[4 + i]));
        i += 1;
    }
    Ok((payload, 4 + n))
}

/// Reading back a written frame gives the payload, whatever follows it.
pub proof fn law_frame_roundtrip(payload: Seq<u8>, rest: Seq<u8>)
    requires
        payload.len() <= MAX_FRAME,
    ensures
        read_frame_spec(frame_spec(payload) + rest) == Ok::<(Seq<u8>, int), FrameError>(
            (payload, 4 + payload.len() as int),
        ),
{
    let b = frame_spec(payload) + rest;
    let x = payload.len() as u32;
    lemma_u32_le_roundtrip(x);
    assert(b.take(4) =~= u32_le_spec(x));
    assert(b.subrange(4, 4 + payload.len() as int) =~= payload);
}

// ---------------------------------------------------------------------------
// Identity pin
// ---------------------------------------------------------------------------

/// Why a peer's [`Auth`] is refused, or ours cannot be made.
#[derive(Clone, Copy, PartialEq, Eq, Debug, Structural)]
pub enum AuthError {
    /// The claimed identity is not the peer this transfer expects.
    IpkMismatch,
    /// The vouched TLS key is not the one this connection presented: a
    /// captured frame replayed over another connection.
    TlsKeyMismatch,
    /// The identity's signature over the TLS key does not verify.
    BadBinding,
    /// The identity is not a paired contact.
    NotPaired,
    /// There is no local identity to vouch with.
    NoIdentity,
}

/// The outcome [`verify_auth`] owes: the checks in order, the first failing
/// one naming the error.
pub open spec fn verify_auth_spec(
    a: Auth,
    expected: [u8; 32],
    conn_tls_pub: [u8; 32],
    binding_ok: bool,
    paired: bool,
) -> Result<(), AuthError> {
    if a.ipk != expected {
        Err(AuthError::IpkMismatch)
    } else if a.tls_pub != conn_tls_pub {
        Err(AuthError::TlsKeyMismatch)
    } else if !binding_ok {
        Err(AuthError::BadBinding)
    } else if !paired {
        Err(AuthError::NotPaired)
    } else {
        Ok(())
    }
}

/// Accept the peer's half only if the claimed identity is the expected peer,
/// its vouched TLS key is the one this connection presented, the binding
/// signature verifies (`binding_ok`) and the identity is a paired contact
/// (`paired`).
pub fn verify_auth(
    a: &Auth,
    expected: [u8; 32],
    conn_tls_pub: [u8; 32],
    binding_ok: bool,
    paired: bool,
) -> (r: Result<(), AuthError>)
    ensures
        r == verify_auth_spec(*a, expected, conn_tls_pub, binding_ok, paired),
{
    if !crate::bytes::eq32(&a.ipk, &expected) {
        assert(a.ipk@ != expected@ ==> a.ipk != expected);
        return Err(AuthError::IpkMismatch);
    }
    proof {
        assert(a.ipk@ =~= expected@);
    }
    if !crate::bytes::eq32(&a.tls_pub, &conn_tls_pub) {
        return Err(AuthError::TlsKeyMismatch);
    }
    if !binding_ok {
        return Err(AuthError::BadBinding);
    }
    if !paired {
        return Err(AuthError::NotPaired);
    }
    Ok(())
}

/// Our half of the pin: our identity key, the TLS sub-key our certificate
/// carries, and the identity's signature over it.
pub fn local_auth(ipk: Option<[u8; 32]>, tls_pub: [u8; 32], sig: [u8; 64]) -> (r: Result<
    Auth,
    AuthError,
>)
    ensures
        r is Ok <==> ipk is Some,
        r matches Ok(a) ==> a.ipk == ipk->0 && a.tls_pub == tls_pub && a.sig == sig,
        r matches Err(e) ==> e == AuthError::NoIdentity,
{
    match ipk {
        Some(ipk) => Ok(Auth { ipk, tls_pub, sig }),
        None => Err(AuthError::NoIdentity),
    }
}

// ---------------------------------------------------------------------------
// Sender retention and receiver partials
// ---------------------------------------------------------------------------

/// Download states of a [`Partial`].
pub const PENDING: u8 = 0;
pub const ACTIVE: u8 = 1;
pub const DONE: u8 = 2;
pub const FAILED: u8 = 3;
pub const HELD: u8 = 4;

/// Sender side: the manifest and source we keep serving until `expires_at`.
#[derive(Clone, Debug)]
pub struct Retention {
    pub path: String,
    pub size: u64,
    pub chunk_size: u32,
    pub manifest: Vec<u8>,
    pub expires_at: u64,
}

/// Receiver side: how far a pull has progressed for one file.
#[derive(Clone, Debug)]
pub struct Partial {
    pub file_id: [u8; 32],
    pub source_ipk: [u8; 32],
    pub total: u64,
    pub chunk_size: u32,
    pub manifest: Option<Vec<u8>>,
    pub have: u32,
    pub state: u8,
    pub path: String,
    pub updated_at: u64,
}

/// A retention entry expired at or before `now`. Times are stored as signed
/// 64-bit values: `u64::MAX` (and any value past `i64::MAX`) never expires,
/// and a `now` past `i64::MAX` expires nothing.
pub open spec fn retention_expired_spec(expires_at: u64, now: u64) -> bool {
    now <= i64::MAX && expires_at <= now
}

pub fn retention_expired(expires_at: u64, now: u64) -> (b: bool)
    ensures
        b == retention_expired_spec(expires_at, now),
{
    now <= i64::MAX as u64 && expires_at <= now
}

/// A receiver transfer abandoned for good: failed or held, and last touched
/// before `older_than`. A finished download is never dead: its bytes are the
/// delivered file.
pub open spec fn partial_dead_spec(state: u8, updated_at: u64, older_than: u64) -> bool {
    (state == FAILED || state == HELD) && updated_at < older_than
}

pub fn partial_is_dead(p: &Partial, older_than: u64) -> (b: bool)
    ensures
        b == partial_dead_spec(p.state, p.updated_at, older_than),
{
    (p.state == FAILED || p.state == HELD) && p.updated_at < older_than
}

/// Retention: an entry whose expiry is at or before `now` is expired, one
/// whose expiry lies after `now` is not, and nothing expires at a `now`
/// beyond the signed range the times are stored in.
pub proof fn law_retention_expires_at_its_time(expires_at: u64, now: u64)
    ensures
        expires_at <= now && now <= i64::MAX ==> retention_expired_spec(expires_at, now),
        now < expires_at ==> !retention_expired_spec(expires_at, now),
        now > i64::MAX ==> !retention_expired_spec(expires_at, now),
{
}

/// Which downloads are collected: a failed or held one untouched since
/// before `older_than`; never one touched at or after it, and never one
/// pending, running or finished, however old.
pub proof fn law_only_stale_abandoned_downloads_die(state: u8, updated_at: u64, older_than: u64)
    ensures
        (state == FAILED || state == HELD) && updated_at < older_than ==> partial_dead_spec(state, updated_at, older_than),
        updated_at >= older_than ==> !partial_dead_spec(state, updated_at, older_than),
        state == PENDING || state == ACTIVE || state == DONE ==> !partial_dead_spec(state, updated_at, older_than),
{
}

/// The paths of the dead partials among `rows`, in order.
pub open spec fn dead_paths(rows: Seq<Partial>, older_than: u64) -> Seq<String>
    decreases rows.len(),
{
    if rows.len() == 0 {
        Seq::empty()
    } else if partial_dead_spec(rows.last().state, rows.last().updated_at, older_than) {
        dead_paths(rows.drop_last(), older_than).push(rows.last().path)
    } else {
        dead_paths(rows.drop_last(), older_than)
    }
}

/// Which rows a reap removes: the dead ones, flagged, and their paths.
pub fn gc_dead_partials(rows: &Vec<Partial>, older_than: u64) -> (r: (Vec<bool>, Vec<String>))
    ensures
        r.0@.len() == rows@.len(),
        forall|i: int| 0 <= i < rows@.len() ==> r.0@[i] == partial_dead_spec(
            #[trigger] rows@[i].state,
            rows@[i].updated_at,
            older_than,
        ),
        r.1@ == dead_paths(rows@, older_than),
{
    let mut flags: Vec<bool> = Vec::new();
    let mut paths: Vec<String> = Vec::new();
    let n = rows.len();
    let mut i: usize = 0;
    while i < n
        invariant
            n == rows@.len(),
            i <= n,
            flags@.len() == i,
            forall|j: int| 0 <= j < i ==> flags@[j] == partial_dead_spec(
                #[trigger] rows@[j].state,
                rows@[j].updated_at,
                older_than,
            ),
            paths@ == dead_paths(rows@.take(i as int), older_than),
        decreases n - i,
    {
        let dead = partial_is_dead(&rows[i], older_than);
        flags.push(dead);
        assert(rows@.take(i + 1).drop_last() =~= rows@.take(i as int));
        if dead {
            paths.push(rows[i].path.clone());
        }
        i += 1;
    }
    assert(rows@.take(n as int) =~= rows@);
    (flags, paths)
}

/// A reap never touches a finished download.
pub proof fn law_gc_spares_done(rows: Seq<Partial>, older_than: u64, i: int)
    requires
        0 <= i < rows.len(),
        rows[i].state == DONE,
    ensures
        !partial_dead_spec(rows[i].state, rows[i].updated_at, older_than),
{
}

} // verus!
