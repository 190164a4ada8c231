//! The minimal self-issued X.509 certificate that carries a peer's Ed25519
//! identity key, and recovery of that key from certificate bytes.

use vstd::prelude::*;

verus! {

/// DER object identifier of Ed25519 (1.3.101.112).
pub open spec fn ed25519_oid() -> Seq<u8> {
    seq![0x06u8, 0x03, 0x2b, 0x65, 0x70]
}

/// `AlgorithmIdentifier` for Ed25519.
pub open spec fn ed25519_alg() -> Seq<u8> {
    seq![0x30u8, 0x05] + ed25519_oid()
}

/// The bytes that precede the 32-byte key in an Ed25519 `SubjectPublicKeyInfo`.
pub open spec fn spki_prefix() -> Seq<u8> {
    seq![0x30u8, 0x2a] + ed25519_alg() + seq![0x03u8, 0x21, 0x00]
}

/// Validity 1970-01-01 .. 2050-01-01 as two UTCTime values.
pub open spec fn validity() -> Seq<u8> {
    seq![0x30u8, 0x1e, 0x17, 0x0d]
        + seq![0x37u8, 0x30, 0x30, 0x31, 0x30, 0x31, 0x30, 0x30, 0x30, 0x30, 0x30, 0x30, 0x5a]
        + seq![0x17u8, 0x0d]
        + seq![0x35u8, 0x30, 0x30, 0x31, 0x30, 0x31, 0x30, 0x30, 0x30, 0x30, 0x30, 0x30, 0x5a]
}

/// A DER SEQUENCE around `data`. Lengths from 256 on use two length bytes,
/// taken from the length modulo 65536.
pub open spec fn der_sequence(data: Seq<u8>) -> Seq<u8> {
    let len = data.len();
    if len < 128 {
        seq![0x30u8, len as u8] + data
    } else if len < 256 {
        seq![0x30u8, 0x81, len as u8] + data
    } else {
        seq![0x30u8, 0x82, ((len / 256) % 256) as u8, (len % 256) as u8] + data
    }
}

/// The body of the to-be-signed certificate for `pk`: version 3, the first 8
/// key bytes as serial, Ed25519 signature algorithm, empty issuer and subject,
/// fixed validity, and the key itself.
pub open spec fn tbs_content(pk: Seq<u8>) -> Seq<u8> {
    seq![0xa0u8, 0x03, 0x02, 0x01, 0x02]
        + (seq![0x02u8, 0x08] + pk.subrange(0, 8))
        + ed25519_alg()
        + seq![0x30u8, 0x00]
        + validity()
        + seq![0x30u8, 0x00]
        + (spki_prefix() + pk)
}

pub open spec fn tbs_certificate(pk: Seq<u8>) -> Seq<u8> {
    der_sequence(tbs_content(pk))
}

pub open spec fn certificate_der(tbs: Seq<u8>, sig: Seq<u8>) -> Seq<u8> {
    der_sequence(tbs + ed25519_alg() + (seq![0x03u8, 0x41, 0x00] + sig))
}

/// The first position at or after `p` where the SPKI prefix occurs.
pub open spec fn find_spki_from(c: Seq<u8>, p: int) -> Option<int>
    decreases c.len() - p,
{
    if p < 0 || p + 12 > c.len() {
        None
    } else if c.subrange(p, p + 12) == spki_prefix() {
        Some(p)
    } else {
        find_spki_from(c, p + 1)
    }
}

/// The 32 bytes after the first SPKI prefix, if they are all present.
pub open spec fn extract_pubkey_spec(c: Seq<u8>) -> Option<Seq<u8>> {
    match find_spki_from(c, 0) {
        Some(p) => if p + 44 <= c.len() {
            Some(c.subrange(p + 12, p + 44))
        } else {
            None
        },
        None => None,
    }
}

fn push_arr<const N: usize>(v: &mut Vec<u8>, a: [u8; N])
    ensures
        final(v)@ == old(v)@ + a@,
{
    let ghost start = v@;
    let mut i: usize = 0;
    while i < N
        invariant
            i <= N,
            a@.len() == N,
            v@ == start + a@.take(i as int),
        decreases N - i,
    {
        v.push(a[i]);
        assert(a@.take(i + 1) =~= a@.take(i as int).push(a@[i as int]));
        i += 1;
    }
    assert(a@.take(N as int) =~= a@);
}

fn push_slice(v: &mut Vec<u8>, s: &[u8])
    ensures
        final(v)@ == old(v)@ + s@,
{
    let ghost start = v@;
    let n = s.len();
    let mut i: usize = 0;
    while i < n
        invariant
            n == s@.len(),
            i <= n,
            v@ == start + s@.take(i as int),
        decreases n - i,
    {
        v.push(s[i]);
        assert(s@.take(i + 1) =~= s@.take(i as int).push(s@[i as int]));
        i += 1;
    }
    assert(s@.take(n as int) =~= s@);
}

/// Encode `data` as a DER SEQUENCE.
fn encode_sequence(data: &[u8]) -> (out: Vec<u8>)
    ensures
        out@ == der_sequence(data@),
{
    let len = data.len();
    let mut out: Vec<u8> = Vec::new();
    if len < 128 {
        push_arr(&mut out, [0x30u8, len as u8]);
        assert(out@ =~= seq![0x30u8, len as u8]);
    } else if len < 256 {
        push_arr(&mut out, [0x30u8, 0x81, len as u8]);
        assert(out@ =~= seq![0x30u8, 0x81, len as u8]);
    } else {
        let hi = ((len / 256) % 256) as u8;
        let lo = (len % 256) as u8;
        push_arr(&mut out, [0x30u8, 0x82, hi, lo]);
        assert(out@ =~= seq![0x30u8, 0x82, hi, lo]);
    }
    push_slice(&mut out, data);
    out
}

/// The to-be-signed certificate for the identity key `public_key`.
pub fn build_tbs_certificate(public_key: &[u8; 32]) -> (tbs: Vec<u8>)
    ensures
        tbs@ == tbs_certificate(public_key@),
{
    let pk = public_key;
    let mut c: Vec<u8> = Vec::new();
    push_arr(&mut c, [0xa0u8, 0x03, 0x02, 0x01, 0x02]);
    push_arr(&mut c, [0x02u8, 0x08, pk[0], pk[1], pk[2], pk[3], pk[4], pk[5], pk[6], pk[7]]);
    push_arr(&mut c, [0x30u8, 0x05, 0x06, 0x03, 0x2b, 0x65, 0x70]);
    push_arr(&mut c, [0x30u8, 0x00]);
    push_arr(
        &mut c,
        [
            0x30u8, 0x1e, 0x17, 0x0d, 0x37, 0x30, 0x30, 0x31, 0x30, 0x31, 0x30, 0x30, 0x30, 0x30,
            0x30, 0x30, 0x5a, 0x17, 0x0d, 0x35, 0x30, 0x30, 0x31, 0x30, 0x31, 0x30, 0x30, 0x30,
            0x30, 0x30, 0x30, 0x5a,
        ],
    );
    push_arr(&mut c, [0x30u8, 0x00]);
    push_arr(&mut c, [0x30u8, 0x2a, 0x30, 0x05, 0x06, 0x03, 0x2b, 0x65, 0x70, 0x03, 0x21, 0x00]);
    push_arr(&mut c, *pk);
    proof {
        let t = tbs_content(pk@);
        assert(c@ =~= t);
    }
    encode_sequence(c.as_slice())
}

/// The certificate: `tbs`, the Ed25519 algorithm and `signature` as a BIT STRING.
pub fn build_certificate_der(tbs: &[u8], signature: &[u8; 64]) -> (der: Vec<u8>)
    ensures
        der@ == certificate_der(tbs@, signature@),
{
    let mut c: Vec<u8> = Vec::new();
    push_slice(&mut c, tbs);
    push_arr(&mut c, [0x30u8, 0x05, 0x06, 0x03, 0x2b, 0x65, 0x70]);
    push_arr(&mut c, [0x03u8, 0x41, 0x00]);
    push_arr(&mut c, *signature);
    proof {
        assert(c@ =~= tbs@ + ed25519_alg() + (seq![0x03u8, 0x41, 0x00] + signature@));
    }
    encode_sequence(c.as_slice())
}

fn spki_at(c: &[u8], p: usize) -> (r: bool)
    requires
        p + 12 <= c@.len(),
    ensures
        r == (c@.subrange(p as int, p + 12) == spki_prefix()),
{
    let n = c.len();
    let pat: [u8; 12] = [0x30u8, 0x2a, 0x30, 0x05, 0x06, 0x03, 0x2b, 0x65, 0x70, 0x03, 0x21, 0x00];
    assert(pat@ =~= spki_prefix());
    let mut k: usize = 0;
    while k < 12
        invariant
            k <= 12,
            n == c@.len(),
            p + 12 <= c@.len(),
            pat@ == spki_prefix(),
            forall|j: int| 0 <= j < k ==> c@[p + j] == pat@[j],
        decreases 12 - k,
    {
        if c[p + k] != pat[k] {
            assert(c@.subrange(p as int, p + 12)[k as int] != spki_prefix()[k as int]);
            return false;
        }
        k += 1;
    }
    assert(c@.subrange(p as int, p + 12) =~= spki_prefix());
    true
}

fn find_spki(c: &[u8]) -> (r: Option<usize>)
    ensures
        match r {
            Some(q) => find_spki_from(c@, 0) == Some(q as int),
            None => find_spki_from(c@, 0) is None,
        },
{
    let n = c.len();
    let mut p: usize = 0;
    while n >= 12 && p <= n - 12
        invariant
            n == c@.len(),
            find_spki_from(c@, 0) == find_spki_from(c@, p as int),
        decreases n - p,
    {
        if spki_at(c, p) {
            return Some(p);
        }
        p += 1;
    }
    None
}

/// The Ed25519 key of a certificate of the shape [`build_certificate_der`]
/// produces: the 32 bytes that follow the first Ed25519 SPKI prefix.
pub fn extract_ed25519_pubkey_from_cert(cert_der: &[u8]) -> (r: Option<[u8; 32]>)
    ensures
        match r {
            Some(k) => extract_pubkey_spec(cert_der@) == Some(k@),
            None => extract_pubkey_spec(cert_der@) is None,
        },
{
    let n = cert_der.len();
    let pos = match find_spki(cert_der) {
        Some(pos) => pos,
        None => {
            return None;
        },
    };
    if pos > n || n - pos < 44 {
        return None;
    }
    let mut key = [0u8; 32];
    let mut i: usize = 0;
    while i < 32
        invariant
            i <= 32,
            pos + 44 <= n,
            n == cert_der@.len(),
            key@.len() == 32,
            forall|j: int| 0 <= j < i ==> key@[j] == cert_der@[pos + 12 + j],
        decreases 32 - i,
    {
        key[i] = cert_der[pos + 12 + i];
        i += 1;
    }
    assert(key@ =~= cert_der@.subrange(pos + 12, pos + 44));
    Some(key)
}

/// A certificate built for `pk` yields `pk` back: the SPKI prefix occurs first
/// where the key was placed.
pub proof fn lemma_certificate_key_roundtrip(pk: Seq<u8>, sig: Seq<u8>)
    requires
        pk.len() == 32,
        sig.len() == 64,
    ensures
        extract_pubkey_spec(certificate_der(tbs_certificate(pk), sig)) == Some(pk),
{
    let content = tbs_content(pk);
    assert(content.len() == 102);
    let tbs = tbs_certificate(pk);
    assert(tbs =~= seq![0x30u8, 0x66] + content);
    let body = tbs + ed25519_alg() + (seq![0x03u8, 0x41, 0x00] + sig);
    assert(body.len() == 178);
    let c = certificate_der(tbs, sig);
    assert(c =~= seq![0x30u8, 0x81, 0xb2] + body);
    assert(c.len() == 181);
    assert(c.subrange(0, 12) =~= seq![0x30u8, 0x81, 0xb2, 0x30, 0x66, 0xa0, 0x3, 0x2, 0x1, 0x2, 0x2, 0x8]);
    assert(c.subrange(20, 63) =~= seq![0x30u8, 0x5, 0x6, 0x3, 0x2b, 0x65, 0x70, 0x30, 0x0, 0x30, 0x1e, 0x17, 0xd, 0x37, 0x30, 0x30, 0x31, 0x30, 0x31, 0x30, 0x30, 0x30, 0x30, 0x30, 0x30, 0x5a, 0x17, 0xd, 0x35, 0x30, 0x30, 0x31, 0x30, 0x31, 0x30, 0x30, 0x30, 0x30, 0x30, 0x30, 0x5a, 0x30, 0x0]);
    assert(c.subrange(63, 75) =~= spki_prefix());
    assert(c.subrange(75, 107) =~= pk);
    assert(c.subrange(0, 12)[1] == c.subrange(0, 12)[1]);
    assert(c.subrange(1, 13)[0] == c.subrange(0, 12)[1]);
    assert(c.subrange(2, 14)[0] == c.subrange(0, 12)[2]);
    assert(c.subrange(3, 15)[1] == c.subrange(0, 12)[4]);
    assert(c.subrange(4, 16)[0] == c.subrange(0, 12)[4]);
    assert(c.subrange(5, 17)[0] == c.subrange(0, 12)[5]);
    assert(c.subrange(6, 18)[0] == c.subrange(0, 12)[6]);
    assert(c.subrange(7, 19)[0] == c.subrange(0, 12)[7]);
    assert(c.subrange(8, 20)[0] == c.subrange(0, 12)[8]);
    assert(c.subrange(9, 21)[0] == c.subrange(0, 12)[9]);
    assert(c.subrange(10, 22)[0] == c.subrange(0, 12)[10]);
    assert(c.subrange(11, 23)[0] == c.subrange(0, 12)[11]);
    assert(c.subrange(12, 24)[8] == c.subrange(20, 63)[0]);
    assert(c.subrange(13, 25)[7] == c.subrange(20, 63)[0]);
    assert(c.subrange(14, 26)[6] == c.subrange(20, 63)[0]);
    assert(c.subrange(15, 27)[5] == c.subrange(20, 63)[0]);
    assert(c.subrange(16, 28)[4] == c.subrange(20, 63)[0]);
    assert(c.subrange(17, 29)[3] == c.subrange(20, 63)[0]);
    assert(c.subrange(18, 30)[9] == c.subrange(20, 63)[7]);
    assert(c.subrange(19, 31)[1] == c.subrange(20, 63)[0]);
    assert(c.subrange(20, 32)[1] == c.subrange(20, 63)[1]);
    assert(c.subrange(21, 33)[0] == c.subrange(20, 63)[1]);
    assert(c.subrange(22, 34)[0] == c.subrange(20, 63)[2]);
    assert(c.subrange(23, 35)[0] == c.subrange(20, 63)[3]);
    assert(c.subrange(24, 36)[0] == c.subrange(20, 63)[4]);
    assert(c.subrange(25, 37)[0] == c.subrange(20, 63)[5]);
    assert(c.subrange(26, 38)[0] == c.subrange(20, 63)[6]);
    assert(c.subrange(27, 39)[1] == c.subrange(20, 63)[8]);
    assert(c.subrange(28, 40)[0] == c.subrange(20, 63)[8]);
    assert(c.subrange(29, 41)[1] == c.subrange(20, 63)[10]);
    assert(c.subrange(30, 42)[0] == c.subrange(20, 63)[10]);
    assert(c.subrange(31, 43)[0] == c.subrange(20, 63)[11]);
    assert(c.subrange(32, 44)[0] == c.subrange(20, 63)[12]);
    assert(c.subrange(33, 45)[0] == c.subrange(20, 63)[13]);
    assert(c.subrange(34, 46)[1] == c.subrange(20, 63)[15]);
    assert(c.subrange(35, 47)[1] == c.subrange(20, 63)[16]);
    assert(c.subrange(36, 48)[0] == c.subrange(20, 63)[16]);
    assert(c.subrange(37, 49)[1] == c.subrange(20, 63)[18]);
    assert(c.subrange(38, 50)[0] == c.subrange(20, 63)[18]);
    assert(c.subrange(39, 51)[1] == c.subrange(20, 63)[20]);
    assert(c.subrange(40, 52)[1] == c.subrange(20, 63)[21]);
    assert(c.subrange(41, 53)[1] == c.subrange(20, 63)[22]);
    assert(c.subrange(42, 54)[1] == c.subrange(20, 63)[23]);
    assert(c.subrange(43, 55)[1] == c.subrange(20, 63)[24]);
    assert(c.subrange(44, 56)[1] == c.subrange(20, 63)[25]);
    assert(c.subrange(45, 57)[0] == c.subrange(20, 63)[25]);
    assert(c.subrange(46, 58)[0] == c.subrange(20, 63)[26]);
    assert(c.subrange(47, 59)[0] == c.subrange(20, 63)[27]);
    assert(c.subrange(48, 60)[0] == c.subrange(20, 63)[28]);
    assert(c.subrange(49, 61)[1] == c.subrange(20, 63)[30]);
    assert(c.subrange(50, 62)[1] == c.subrange(20, 63)[31]);
    assert(c.subrange(51, 63)[0] == c.subrange(20, 63)[31]);
    assert(c.subrange(52, 64)[1] == c.subrange(20, 63)[33]);
    assert(c.subrange(53, 65)[0] == c.subrange(20, 63)[33]);
    assert(c.subrange(54, 66)[1] == c.subrange(20, 63)[35]);
    assert(c.subrange(55, 67)[1] == c.subrange(20, 63)[36]);
    assert(c.subrange(56, 68)[1] == c.subrange(20, 63)[37]);
    assert(c.subrange(57, 69)[1] == c.subrange(20, 63)[38]);
    assert(c.subrange(58, 70)[1] == c.subrange(20, 63)[39]);
    assert(c.subrange(59, 71)[1] == c.subrange(20, 63)[40]);
    assert(c.subrange(60, 72)[0] == c.subrange(20, 63)[40]);
    assert(c.subrange(61, 73)[1] == c.subrange(20, 63)[42]);
    assert(c.subrange(62, 74)[0] == c.subrange(20, 63)[42]);
    lemma_find_spki_skips(c, 0, 63);
}

proof fn lemma_find_spki_skips(c: Seq<u8>, p: int, q: int)
    requires
        0 <= p <= q,
        q + 12 <= c.len(),
        forall|r: int| p <= r < q ==> #[trigger] c.subrange(r, r + 12) != spki_prefix(),
    ensures
        find_spki_from(c, p) == find_spki_from(c, q),
    decreases q - p,
{
    if p < q {
        lemma_find_spki_skips(c, p + 1, q);
    }
}

} // verus!
