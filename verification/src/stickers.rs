//! Sticker packs: sealing objects under a pack token, admitting a fetched
//! manifest against the kept one, the rows a manifest becomes, the rules for
//! creating, appending and republishing, and the image cache's bookkeeping.

use chacha20poly1305::aead::Aead;
use chacha20poly1305::AeadCore;
use chacha20poly1305::KeyInit;
use vstd::prelude::*;

use crate::codec::push_bytes;
use crate::digest::blake3_digest;
use crate::digest::blake3_hash;

verus! {

/// Longest pack name, in characters, after trimming.
pub const PACK_NAME_MAX: usize = 64;

/// Most stickers one pack holds.
pub const PACK_MAX_STICKERS: usize = 120;

/// Longest sticker edge in pixels.
pub const STICKER_EDGE: u32 = 512;

/// Ceiling of the on-disk image cache.
pub const CACHE_MAX_BYTES: u64 = 134_217_728;

/// An installed pack's manifest is re-read at most this often (ten minutes).
pub const REFRESH_EVERY_MS: u64 = 600_000;

/// A decoded picture the platform hands over for a new sticker.
pub struct SourceImage {
    pub rgba: Vec<u8>,
    pub width: u32,
    pub height: u32,
}

/// A kept pack.
#[derive(Clone, Debug)]
pub struct PackRow {
    pub pack_id: [u8; 16],
    pub store_id: u16,
    pub token: [u8; 32],
    pub creator: [u8; 32],
    pub version: u32,
    pub name: String,
    pub added_at: u64,
}

/// One sticker of a kept pack, at its position in the pack.
#[derive(Clone, Copy, Debug, PartialEq, Eq)]
pub struct StickerRow {
    pub pack_id: [u8; 16],
    pub sticker_id: [u8; 32],
    pub position: u32,
    pub width: u16,
    pub height: u16,
}

/// A pack as the picker or the add-pack sheet sees it.
pub struct PackView {
    pub pack: PackRow,
    pub stickers: Vec<StickerRow>,
}

/// One sticker as a manifest lists it.
#[derive(Clone, Copy, Debug, PartialEq, Eq)]
pub struct ManifestSticker {
    pub id: [u8; 32],
    pub width: u16,
    pub height: u16,
}

/// The decrypted roster of a pack.
#[derive(Clone, Debug)]
pub struct PackManifest {
    pub pack_id: [u8; 16],
    pub store_id: u16,
    pub creator: [u8; 32],
    pub version: u32,
    pub name: String,
    pub stickers: Vec<ManifestSticker>,
}

/// What the signed envelope around a manifest claims.
#[derive(Clone, Copy, Debug)]
pub struct EnvelopeClaims {
    pub store: u16,
    pub creator: [u8; 32],
    pub version: u32,
}

/// Why a sticker operation is refused.
#[derive(Clone, Copy, PartialEq, Eq, Debug, Structural)]
pub enum StickerError {
    /// A sealed object shorter than a nonce and a tag.
    TooShort,
    /// The token or the associated data is wrong, or the object was altered.
    WrongTokenOrCorrupted,
    /// A fetched manifest names another creator than the kept pack.
    CreatorChanged,
    /// A fetched manifest is older than the kept one.
    OlderVersion,
    /// The decrypted manifest disagrees with its envelope.
    EnvelopeMismatch,
    /// The pack name is empty or too long.
    BadName,
    /// The roster is empty, has a bad size or lists a sticker twice.
    BadRoster,
    /// A pack must hold between one and [`PACK_MAX_STICKERS`] stickers.
    BadCount,
    /// The pack is not installed here.
    NotInstalled,
    /// Only the creator adds to a pack.
    NotCreator,
    /// There is no local identity.
    NoIdentity,
    /// The version counter cannot grow further.
    VersionExhausted,
    /// Nothing new to publish in a new pack.
    NothingToPublish,
    /// More stickers than a pack holds.
    PackFull,
}

// ---------------------------------------------------------------------------
// Sealing
// ---------------------------------------------------------------------------

/// Associated data for a sticker image: a tag, then the sticker id.
pub open spec fn sticker_aad_spec(id: Seq<u8>) -> Seq<u8> {
    seq![
        112u8, 114, 111, 109, 116, 117, 122, 45, 115, 116, 105, 99, 107, 101, 114, 45, 118, 49,
    ] + id
}

/// Associated data for a pack manifest: a tag, then the pack id.
pub open spec fn manifest_aad_spec(pack: Seq<u8>) -> Seq<u8> {
    seq![
        112u8, 114, 111, 109, 116, 117, 122, 45, 115, 116, 105, 99, 107, 101, 114, 45, 109, 97,
        110, 105, 102, 101, 115, 116, 45, 118, 49,
    ] + pack
}

pub fn aad_sticker(id: &[u8; 32]) -> (aad: Vec<u8>)
    ensures
        aad@ == sticker_aad_spec(id@),
{
    let mut aad: Vec<u8> = vec![
        112u8, 114, 111, 109, 116, 117, 122, 45, 115, 116, 105, 99, 107, 101, 114, 45, 118, 49,
    ];
    push_bytes(&mut aad, id);
    aad
}

pub fn aad_manifest(pack: &[u8; 16]) -> (aad: Vec<u8>)
    ensures
        aad@ == manifest_aad_spec(pack@),
{
    let mut aad: Vec<u8> = vec![
        112u8, 114, 111, 109, 116, 117, 122, 45, 115, 116, 105, 99, 107, 101, 114, 45, 109, 97,
        110, 105, 102, 101, 115, 116, 45, 118, 49,
    ];
    push_bytes(&mut aad, pack);
    aad
}

/// XChaCha20-Poly1305 ciphertext (with its tag) of `msg` under `key`,
/// `nonce` and `aad`.
pub uninterp spec fn xchacha_seal(key: Seq<u8>, nonce: Seq<u8>, aad: Seq<u8>, msg: Seq<u8>) -> Seq<u8>;

/// XChaCha20-Poly1305 decryption of `ct`: the plaintext, or `None` when the
/// tag does not authenticate.
pub uninterp spec fn xchacha_open(key: Seq<u8>, nonce: Seq<u8>, aad: Seq<u8>, ct: Seq<u8>) -> Option<Seq<u8>>;

/// Longest message the cipher takes: below `u32::MAX` blocks of 64 bytes.
pub const XCHACHA_MAX_MSG: u64 = 274_877_906_880;

/// `XChaCha20Poly1305::encrypt`: the ciphertext is the message's length plus
/// a 16-byte tag, is a function of key, nonce, associated data and message,
/// and decrypts under the same three back to the message.
#[verifier::external_body]
fn xchacha_encrypt(key: &[u8; 32], nonce: &[u8; 24], aad: &[u8], msg: &[u8]) -> (ct: Vec<u8>)
    requires
        msg@.len() < XCHACHA_MAX_MSG,
    ensures
        ct@ == xchacha_seal(key@, nonce@, aad@, msg@),
        ct@.len() == msg@.len() + 16,
        xchacha_open(key@, nonce@, aad@, ct@) == Some(msg@),
{
    chacha20poly1305::XChaCha20Poly1305::new(key.into()).encrypt(
        chacha20poly1305::XNonce::from_slice(nonce),
        chacha20poly1305::aead::Payload { msg, aad },
    ).expect("message within the cipher's limit")
}

/// `XChaCha20Poly1305::decrypt`: the plaintext, or `None` when the tag does
/// not authenticate; a function of its arguments.
#[verifier::external_body]
fn xchacha_decrypt(key: &[u8; 32], nonce: &[u8], aad: &[u8], ct: &[u8]) -> (r: Option<Vec<u8>>)
    requires
        nonce@.len() == 24,
    ensures
        match r {
            Some(p) => xchacha_open(key@, nonce@, aad@, ct@) == Some(p@),
            None => xchacha_open(key@, nonce@, aad@, ct@) is None,
        },
{
    chacha20poly1305::XChaCha20Poly1305::new(key.into()).decrypt(
        chacha20poly1305::XNonce::from_slice(nonce),
        chacha20poly1305::aead::Payload { msg: ct, aad },
    ).ok()
}

/// `XChaCha20Poly1305::generate_nonce` from the operating system's random
/// source. Nothing is stated of the bytes; the call panics if the system
/// has no randomness to give.
#[verifier::external_body]
fn random_nonce() -> (n: [u8; 24]) {
    chacha20poly1305::XChaCha20Poly1305::generate_nonce(&mut chacha20poly1305::aead::OsRng).into()
}

/// What [`open`] gives for `blob`: too short, or the first 24 bytes as the
/// nonce and the rest decrypted.
pub open spec fn open_spec(token: Seq<u8>, aad: Seq<u8>, blob: Seq<u8>) -> Result<Seq<u8>, StickerError> {
    if blob.len() < 40 {
        Err(StickerError::TooShort)
    } else {
        match xchacha_open(token, blob.take(24), aad, blob.skip(24)) {
            Some(p) => Ok(p),
            None => Err(StickerError::WrongTokenOrCorrupted),
        }
    }
}

/// `nonce ‖ ciphertext` of `plain` under `token` and `nonce`.
pub fn seal_with_nonce(token: &[u8; 32], aad: &[u8], plain: &[u8], nonce: [u8; 24]) -> (blob: Vec<u8>)
    requires
        plain@.len() < XCHACHA_MAX_MSG,
    ensures
        blob@ == nonce@ + xchacha_seal(token@, nonce@, aad@, plain@),
        blob@.len() == plain@.len() + 40,
        open_spec(token@, aad@, blob@) == Ok::<Seq<u8>, StickerError>(plain@),
{
    let ct = xchacha_encrypt(token, &nonce, aad, plain);
    let mut blob: Vec<u8> = Vec::new();
    push_bytes(&mut blob, &nonce);
    push_bytes(&mut blob, &ct);
    assert(blob@.take(24) =~= nonce@);
    assert(blob@.skip(24) =~= ct@);
    blob
}

/// Seal `plain` under the pack token with a fresh random nonce. Whatever the
/// nonce, the blob opens back to `plain` under the same token and data.
pub fn seal(token: &[u8; 32], aad: &[u8], plain: &[u8]) -> (blob: Vec<u8>)
    requires
        plain@.len() < XCHACHA_MAX_MSG,
    ensures
        blob@.len() == plain@.len() + 40,
        blob@.skip(24) == xchacha_seal(token@, blob@.take(24), aad@, plain@),
        open_spec(token@, aad@, blob@) == Ok::<Seq<u8>, StickerError>(plain@),
{
    let nonce = random_nonce();
    let blob = seal_with_nonce(token, aad, plain, nonce);
    proof {
        assert(blob@.take(24) =~= nonce@);
        assert(blob@.skip(24) =~= xchacha_seal(token@, nonce@, aad@, plain@));
    }
    blob
}

/// Open a sealed object: refused when shorter than a nonce and a tag, or
/// when it does not authenticate under `token` and `aad`.
pub fn open(token: &[u8; 32], aad: &[u8], blob: &[u8]) -> (r: Result<Vec<u8>, StickerError>)
    ensures
        match (r, open_spec(token@, aad@, blob@)) {
            (Ok(p), Ok(sp)) => p@ == sp,
            (Err(e), Err(se)) => e == se,
            _ => false,
        },
{
    if blob.len() < 40 {
        return Err(StickerError::TooShort);
    }
    let mut nonce: Vec<u8> = Vec::new();
    let mut ct: Vec<u8> = Vec::new();
    let n = blob.len();
    let mut i: usize = 0;
    while i < n
        invariant
            n == blob@.len(),
            40 <= n,
            i <= n,
            nonce@ == blob@.take(if i < 24 { i as int } else { 24 }),
            ct@ == (if i < 24 { Seq::<u8>::empty() } else { blob@.subrange(24, i as int) }),
        decreases n - i,
    {
        if i < 24 {
            nonce.push(blob[i]);
            assert(blob@.take(i + 1) =~= blob@.take(i as int).push(blob@[i as int]));
        } else {
            ct.push(blob[i]);
            assert(blob@.subrange(24, i + 1) =~= blob@.subrange(24, i as int).push(blob@[i as int]));
        }
        i += 1;
    }
    assert(ct@ =~= blob@.skip(24));
    match xchacha_decrypt(token, nonce.as_slice(), aad, ct.as_slice()) {
        Some(p) => Ok(p),
        None => Err(StickerError::WrongTokenOrCorrupted),
    }
}

/// Fetched sticker bytes are accepted only if they hash to the sticker id.
pub fn matches_id(plain: &[u8], id: &[u8; 32]) -> (b: bool)
    ensures
        b == (blake3_digest(plain@) == id@),
{
    let h = blake3_hash(plain);
    crate::bytes::eq32(&h, id)
}

// ---------------------------------------------------------------------------
// Names
// ---------------------------------------------------------------------------

/// `char::is_whitespace`: the Unicode `White_Space` property.
pub open spec fn is_ws(c: char) -> bool {
    let u = c as u32;
    (0x09 <= u && u <= 0x0d) || u == 0x20 || u == 0x85 || u == 0xa0 || u == 0x1680 || (0x2000 <= u
        && u <= 0x200a) || u == 0x2028 || u == 0x2029 || u == 0x202f || u == 0x205f || u == 0x3000
}

pub fn is_whitespace(c: char) -> (b: bool)
    ensures
        b == is_ws(c),
{
    let u = c as u32;
    (0x09 <= u && u <= 0x0d) || u == 0x20 || u == 0x85 || u == 0xa0 || u == 0x1680 || (0x2000 <= u
        && u <= 0x200a) || u == 0x2028 || u == 0x2029 || u == 0x202f || u == 0x205f || u == 0x3000
}

/// Index of the first non-whitespace character at or after `i`, or the length.
pub open spec fn first_non_ws(s: Seq<char>, i: int) -> int
    decreases s.len() - i,
{
    if i < 0 || i >= s.len() {
        s.len() as int
    } else if is_ws(s[i]) {
        first_non_ws(s, i + 1)
    } else {
        i
    }
}

/// One past the last non-whitespace character before `j`, or zero.
pub open spec fn end_non_ws(s: Seq<char>, j: int) -> int
    decreases j,
{
    if j <= 0 || j > s.len() {
        0
    } else if is_ws(s[j - 1]) {
        end_non_ws(s, j - 1)
    } else {
        j
    }
}

/// `str::trim`: `s` without leading and trailing whitespace.
pub open spec fn trim_spec(s: Seq<char>) -> Seq<char> {
    let lo = first_non_ws(s, 0);
    let hi = end_non_ws(s, s.len() as int);
    if lo >= hi {
        Seq::empty()
    } else {
        s.subrange(lo, hi)
    }
}

/// A pack name as kept: trimmed, between one and [`PACK_NAME_MAX`] characters.
pub open spec fn name_ok(s: Seq<char>) -> bool {
    trim_spec(s).len() > 0 && trim_spec(s).len() <= PACK_NAME_MAX
}

proof fn lemma_first_non_ws_bounds(s: Seq<char>, i: int)
    requires
        0 <= i <= s.len(),
    ensures
        i <= first_non_ws(s, i) <= s.len(),
        first_non_ws(s, i) < s.len() ==> !is_ws(s[first_non_ws(s, i)]),
    decreases s.len() - i,
{
    if i < s.len() && is_ws(s[i]) {
        lemma_first_non_ws_bounds(s, i + 1);
    }
}

proof fn lemma_end_non_ws_bounds(s: Seq<char>, j: int)
    requires
        0 <= j <= s.len(),
    ensures
        0 <= end_non_ws(s, j) <= j,
        end_non_ws(s, j) > 0 ==> !is_ws(s[end_non_ws(s, j) - 1]),
    decreases j,
{
    if j > 0 && is_ws(s[j - 1]) {
        lemma_end_non_ws_bounds(s, j - 1);
    }
}

/// `str::trim` on a name.
pub fn trim(name: &str) -> (t: String)
    ensures
        t@ == trim_spec(name@),
{
    let n = name.unicode_len();
    let mut lo: usize = 0;
    while lo < n && is_whitespace(name.get_char(lo))
        invariant
            n == name@.len(),
            lo <= n,
            first_non_ws(name@, 0) == first_non_ws(name@, lo as int),
        decreases n - lo,
    {
        lo += 1;
    }
    let mut hi: usize = n;
    while hi > 0 && is_whitespace(name.get_char(hi - 1))
        invariant
            n == name@.len(),
            hi <= n,
            end_non_ws(name@, n as int) == end_non_ws(name@, hi as int),
        decreases hi,
    {
        hi -= 1;
    }
    proof {
        lemma_first_non_ws_bounds(name@, lo as int);
        lemma_end_non_ws_bounds(name@, hi as int);
    }
    if lo >= hi {
        return String::new();
    }
    String::from_str(name.substring_char(lo, hi))
}

/// Check a new pack's name and trim it.
pub fn checked_name(name: &str) -> (r: Result<String, StickerError>)
    ensures
        r is Ok <==> name_ok(name@),
        r matches Ok(t) ==> t@ == trim_spec(name@),
        r matches Err(e) ==> e == StickerError::BadName,
{
    let t = trim(name);
    let n = t.as_str().unicode_len();
    if n == 0 || n > PACK_NAME_MAX {
        return Err(StickerError::BadName);
    }
    Ok(t)
}

// ---------------------------------------------------------------------------
// Manifests
// ---------------------------------------------------------------------------

/// A fetched manifest may replace the kept pack only from the same creator
/// and at no lower version.
pub open spec fn admissible_spec(m: PackManifest, kept: Option<PackRow>) -> Result<(), StickerError> {
    match kept {
        None => Ok(()),
        Some(k) => if k.creator != m.creator {
            Err(StickerError::CreatorChanged)
        } else if m.version < k.version {
            Err(StickerError::OlderVersion)
        } else {
            Ok(())
        },
    }
}

pub fn admissible(m: &PackManifest, kept: Option<&PackRow>) -> (r: Result<(), StickerError>)
    ensures
        r == admissible_spec(*m, match kept { Some(k) => Some(*k), None => None }),
{
    match kept {
        None => Ok(()),
        Some(k) => {
            if !crate::bytes::eq32(&k.creator, &m.creator) {
                Err(StickerError::CreatorChanged)
            } else if m.version < k.version {
                Err(StickerError::OlderVersion)
            } else {
                Ok(())
            }
        },
    }
}

/// Which fetched manifests are taken: any when no pack is kept; from
/// another creator than the kept pack's, none; from the same creator, those
/// at the kept version or newer, so an unchanged pack is still admitted and
/// only an older one is refused.
pub proof fn law_admits_same_creator_not_older(m: PackManifest, k: PackRow)
    ensures
        admissible_spec(m, None) == Ok::<(), StickerError>(()),
        k.creator != m.creator ==> admissible_spec(m, Some(k)) == Err::<(), StickerError>(StickerError::CreatorChanged),
        k.creator == m.creator && m.version >= k.version ==> admissible_spec(m, Some(k)) == Ok::<(), StickerError>(()),
        k.creator == m.creator && m.version < k.version ==> admissible_spec(m, Some(k)) == Err::<(), StickerError>(
            StickerError::OlderVersion,
        ),
{
}

/// A sticker's listed size: both edges between 1 and [`STICKER_EDGE`].
pub open spec fn size_ok(s: ManifestSticker) -> bool {
    s.width > 0 && s.height > 0 && s.width <= STICKER_EDGE && s.height <= STICKER_EDGE
}

/// A roster is usable: not empty, every size fine, no sticker listed twice.
pub open spec fn roster_ok(r: Seq<ManifestSticker>) -> bool {
    &&& r.len() > 0
    &&& forall|i: int| 0 <= i < r.len() ==> size_ok(#[trigger] r[i])
    &&& forall|i: int, j: int| 0 <= i < j < r.len() ==> #[trigger] r[i].id != #[trigger] r[j].id
}

pub fn roster_valid(r: &Vec<ManifestSticker>) -> (b: bool)
    ensures
        b == roster_ok(r@),
{
    let n = r.len();
    if n == 0 {
        return false;
    }
    let mut i: usize = 0;
    while i < n
        invariant
            n == r@.len(),
            i <= n,
            forall|k: int| 0 <= k < i ==> size_ok(#[trigger] r@[k]),
            forall|a: int, b: int| 0 <= a < b < i ==> #[trigger] r@[a].id != #[trigger] r@[b].id,
        decreases n - i,
    {
        let s = r[i];
        if !(s.width > 0 && s.height > 0 && s.width as u32 <= STICKER_EDGE && s.height as u32
            <= STICKER_EDGE) {
            return false;
        }
        let mut j: usize = 0;
        while j < i
            invariant
                n == r@.len(),
                j <= i < n,
                s == r@[i as int],
                forall|a: int| 0 <= a < j ==> r@[a].id != s.id,
            decreases i - j,
        {
            if crate::bytes::eq32(&r[j].id, &s.id) {
                assert(!roster_ok(r@)) by {
                    assert(r@[j as int].id == r@[i as int].id);
                }
                return false;
            }
            j += 1;
        }
        i += 1;
    }
    true
}

/// What a decrypted manifest owes before it is used: agreement with its
/// envelope and with the pack and store it was fetched for, a usable name,
/// and a usable roster, checked in that order.
pub open spec fn manifest_check_spec(m: PackManifest, pack: [u8; 16], store: u16, env: EnvelopeClaims) -> Result<(), StickerError> {
    if env.store != store || m.pack_id != pack || m.creator != env.creator || m.version
        != env.version || m.store_id != store {
        Err(StickerError::EnvelopeMismatch)
    } else if !name_ok(m.name@) {
        Err(StickerError::BadName)
    } else if !roster_ok(m.stickers@) {
        Err(StickerError::BadRoster)
    } else {
        Ok(())
    }
}

fn eq16(a: &[u8; 16], b: &[u8; 16]) -> (r: bool)
    ensures
        r == (*a == *b),
{
    let mut i: usize = 0;
    while i < 16
        invariant
            i <= 16,
            forall|j: int| 0 <= j < i ==> a@[j] == b@[j],
        decreases 16 - i,
    {
        if a[i] != b[i] {
            return false;
        }
        i += 1;
    }
    assert(*a =~= *b);
    true
}

pub fn check_manifest(m: &PackManifest, pack: &[u8; 16], store: u16, env: &EnvelopeClaims) -> (r: Result<(), StickerError>)
    ensures
        r == manifest_check_spec(*m, *pack, store, *env),
{
    if env.store != store || !eq16(&m.pack_id, pack) || !crate::bytes::eq32(&m.creator, &env.creator)
        || m.version != env.version || m.store_id != store {
        return Err(StickerError::EnvelopeMismatch);
    }
    if checked_name(m.name.as_str()).is_err() {
        return Err(StickerError::BadName);
    }
    if !roster_valid(&m.stickers) {
        return Err(StickerError::BadRoster);
    }
    Ok(())
}

/// The rows a manifest becomes: the pack with its trimmed name, and one row
/// per listed sticker at its listed position.
pub open spec fn rows_of_spec(m: PackManifest, token: [u8; 32], added_at: u64, pack: PackRow, rows: Seq<StickerRow>) -> bool {
    &&& pack.pack_id == m.pack_id
    &&& pack.store_id == m.store_id
    &&& pack.token == token
    &&& pack.creator == m.creator
    &&& pack.version == m.version
    &&& pack.name@ == trim_spec(m.name@)
    &&& pack.added_at == added_at
    &&& rows.len() == m.stickers@.len()
    &&& forall|i: int| 0 <= i < rows.len() ==> (#[trigger] rows[i]) == (StickerRow {
        pack_id: m.pack_id,
        sticker_id: m.stickers@[i].id,
        position: i as u32,
        width: m.stickers@[i].width,
        height: m.stickers@[i].height,
    })
}

pub fn rows_of(m: &PackManifest, token: [u8; 32], added_at: u64) -> (r: (PackRow, Vec<StickerRow>))
    requires
        m.stickers@.len() <= u32::MAX + 1,
    ensures
        rows_of_spec(*m, token, added_at, r.0, r.1@),
{
    let pack = PackRow {
        pack_id: m.pack_id,
        store_id: m.store_id,
        token,
        creator: m.creator,
        version: m.version,
        name: trim(m.name.as_str()),
        added_at,
    };
    let mut rows: Vec<StickerRow> = Vec::new();
    let n = m.stickers.len();
    let mut i: usize = 0;
    while i < n
        invariant
            n == m.stickers@.len(),
            n <= u32::MAX + 1,
            i <= n,
            rows@.len() == i,
            forall|k: int| 0 <= k < i ==> (#[trigger] rows@[k]) == (StickerRow {
                pack_id: m.pack_id,
                sticker_id: m.stickers@[k].id,
                position: k as u32,
                width: m.stickers@[k].width,
                height: m.stickers@[k].height,
            }),
        decreases n - i,
    {
        let s = m.stickers[i];
        rows.push(
            StickerRow {
                pack_id: m.pack_id,
                sticker_id: s.id,
                position: i as u32,
                width: s.width,
                height: s.height,
            },
        );
        i += 1;
    }
    (pack, rows)
}

// ---------------------------------------------------------------------------
// Publishing
// ---------------------------------------------------------------------------

/// `rows` lists some sticker with id `id`.
pub open spec fn lists(rows: Seq<StickerRow>, id: [u8; 32]) -> bool {
    exists|k: int| 0 <= k < rows.len() && (#[trigger] rows[k]).sticker_id == id
}

/// No sticker listed twice.
pub open spec fn ids_distinct(rows: Seq<StickerRow>) -> bool {
    forall|i: int, j: int| 0 <= i < j < rows.len() ==> #[trigger] rows[i].sticker_id != #[trigger] rows[j].sticker_id
}

/// Every row sits at its index.
pub open spec fn positions_dense(rows: Seq<StickerRow>) -> bool {
    forall|i: int| 0 <= i < rows.len() ==> (#[trigger] rows[i]).position == i
}

/// `rows` with `r` appended at the next position, unless its sticker is
/// already listed.
pub open spec fn append_unseen_spec(rows: Seq<StickerRow>, r: StickerRow) -> Seq<StickerRow> {
    if lists(rows, r.sticker_id) {
        rows
    } else {
        rows.push(StickerRow { position: rows.len() as u32, ..r })
    }
}

/// `rows` with each of `extra` appended in turn by [`append_unseen_spec`].
pub open spec fn merge_spec(rows: Seq<StickerRow>, extra: Seq<StickerRow>) -> Seq<StickerRow>
    decreases extra.len(),
{
    if extra.len() == 0 {
        rows
    } else {
        append_unseen_spec(merge_spec(rows, extra.drop_last()), extra.last())
    }
}

/// Append `r` at the next position unless its sticker is already listed;
/// `true` when it was appended.
pub fn append_unseen(rows: &mut Vec<StickerRow>, r: StickerRow) -> (added: bool)
    requires
        old(rows)@.len() <= u32::MAX,
    ensures
        final(rows)@ == append_unseen_spec(old(rows)@, r),
        added == !lists(old(rows)@, r.sticker_id),
{
    let n = rows.len();
    let mut k: usize = 0;
    while k < n
        invariant
            n == rows@.len(),
            k <= n,
            forall|j: int| 0 <= j < k ==> (#[trigger] rows@[j]).sticker_id != r.sticker_id,
        decreases n - k,
    {
        if crate::bytes::eq32(&rows[k].sticker_id, &r.sticker_id) {
            assert(lists(rows@, r.sticker_id));
            return false;
        }
        k += 1;
    }
    rows.push(StickerRow { position: n as u32, ..r });
    true
}

proof fn lemma_merge_len(rows: Seq<StickerRow>, extra: Seq<StickerRow>)
    ensures
        rows.len() <= merge_spec(rows, extra).len() <= rows.len() + extra.len(),
    decreases extra.len(),
{
    if extra.len() > 0 {
        lemma_merge_len(rows, extra.drop_last());
    }
}

/// Appending an unseen sticker keeps the roster free of repeats and dense,
/// keeps what was there, and lists the sticker afterwards.
proof fn lemma_append_unseen(rows: Seq<StickerRow>, r: StickerRow)
    requires
        rows.len() <= u32::MAX,
        ids_distinct(rows),
        positions_dense(rows),
    ensures
        ids_distinct(append_unseen_spec(rows, r)),
        positions_dense(append_unseen_spec(rows, r)),
        append_unseen_spec(rows, r).take(rows.len() as int) == rows,
        lists(append_unseen_spec(rows, r), r.sticker_id),
        forall|id: [u8; 32]| lists(rows, id) ==> lists(append_unseen_spec(rows, r), id),
{
    let out = append_unseen_spec(rows, r);
    if !lists(rows, r.sticker_id) {
        assert(out[rows.len() as int].sticker_id == r.sticker_id);
        assert(out.take(rows.len() as int) =~= rows);
        assert forall|id: [u8; 32]| lists(rows, id) implies lists(out, id) by {
            let k = choose|k: int| 0 <= k < rows.len() && (#[trigger] rows[k]).sticker_id == id;
            assert(out[k] == rows[k]);
        }
        assert(positions_dense(out)) by {
            assert forall|i: int| 0 <= i < out.len() implies (#[trigger] out[i]).position == i by {
                if i < rows.len() {
                    assert(out[i] == rows[i]);
                }
            }
        }
    } else {
        assert(out.take(rows.len() as int) =~= rows);
    }
}

/// Merging keeps the roster free of repeats and dense, keeps the first rows
/// as they were, and lists every sticker of `extra`.
pub proof fn law_merge_keeps_roster(rows: Seq<StickerRow>, extra: Seq<StickerRow>)
    requires
        rows.len() + extra.len() <= u32::MAX,
        ids_distinct(rows),
        positions_dense(rows),
    ensures
        ids_distinct(merge_spec(rows, extra)),
        positions_dense(merge_spec(rows, extra)),
        merge_spec(rows, extra).take(rows.len() as int) == rows,
        forall|k: int| 0 <= k < extra.len() ==> lists(merge_spec(rows, extra), #[trigger] extra[k].sticker_id),
        forall|id: [u8; 32]| lists(rows, id) ==> lists(merge_spec(rows, extra), id),
    decreases extra.len(),
{
    if extra.len() > 0 {
        let init = extra.drop_last();
        law_merge_keeps_roster(rows, init);
        let m = merge_spec(rows, init);
        lemma_merge_len(rows, init);
        lemma_append_unseen(m, extra.last());
        let out = merge_spec(rows, extra);
        assert(out.take(rows.len() as int) =~= m.take(rows.len() as int)) by {
            assert(out.take(m.len() as int) == m);
        }
        assert forall|k: int| 0 <= k < extra.len() implies lists(out, #[trigger] extra[k].sticker_id) by {
            if k < init.len() {
                assert(init[k] == extra[k]);
                assert(lists(m, init[k].sticker_id));
            }
        }
    } else {
        assert(rows.take(rows.len() as int) =~= rows);
    }
}

/// The roster after a stale publish: the latest published stickers, then
/// those of ours it lacks, each at the next position.
pub fn merge_pending(latest: Vec<StickerRow>, pending: &Vec<StickerRow>) -> (out: Vec<StickerRow>)
    requires
        latest@.len() + pending@.len() <= u32::MAX,
    ensures
        out@ == merge_spec(latest@, pending@),
{
    let mut out = latest;
    let ghost base = out@;
    let n = pending.len();
    let mut i: usize = 0;
    while i < n
        invariant
            n == pending@.len(),
            i <= n,
            base.len() + n <= u32::MAX,
            out@ == merge_spec(base, pending@.take(i as int)),
        decreases n - i,
    {
        proof {
            lemma_merge_len(base, pending@.take(i as int));
        }
        append_unseen(&mut out, pending[i]);
        assert(pending@.take(i + 1).drop_last() =~= pending@.take(i as int));
        i += 1;
    }
    assert(pending@.take(n as int) =~= pending@);
    out
}

/// What a publish refused as stale turns into.
#[derive(Clone, Copy, PartialEq, Eq, Debug, Structural)]
pub enum StaleStep {
    /// The published roster already has all of ours: record it as done.
    Finished,
    /// Publish the merged roster again at this version.
    Republish(u32),
}

/// After a stale-version refusal: done when the merge added nothing, refused
/// when the merged pack is over [`PACK_MAX_STICKERS`], else the next version.
pub fn stale_step(latest_len: usize, merged_len: usize, latest_version: u32) -> (r: Result<StaleStep, StickerError>)
    ensures
        merged_len == latest_len ==> r == Ok::<StaleStep, StickerError>(StaleStep::Finished),
        merged_len != latest_len && merged_len > PACK_MAX_STICKERS ==> r == Err::<StaleStep, StickerError>(StickerError::PackFull),
        merged_len != latest_len && merged_len <= PACK_MAX_STICKERS && latest_version == u32::MAX
            ==> r == Err::<StaleStep, StickerError>(StickerError::VersionExhausted),
        merged_len != latest_len && merged_len <= PACK_MAX_STICKERS && latest_version < u32::MAX
            ==> r == Ok::<StaleStep, StickerError>(StaleStep::Republish((latest_version + 1) as u32)),
{
    if merged_len == latest_len {
        return Ok(StaleStep::Finished);
    }
    if merged_len > PACK_MAX_STICKERS {
        return Err(StickerError::PackFull);
    }
    match latest_version.checked_add(1) {
        Some(v) => Ok(StaleStep::Republish(v)),
        None => Err(StickerError::VersionExhausted),
    }
}

/// An encoded picture ready to become a sticker.
pub struct EncodedSticker {
    pub avif: Vec<u8>,
    pub width: u16,
    pub height: u16,
}

/// The 32-byte array holding the digest of `data`.
pub open spec fn digest_id(data: Seq<u8>) -> [u8; 32] {
    choose|a: [u8; 32]| a@ == blake3_digest(data)
}

proof fn lemma_digest_id(data: Seq<u8>, h: [u8; 32])
    requires
        h@ == blake3_digest(data),
    ensures
        digest_id(data) == h,
{
    let a = digest_id(data);
    assert(a@ == blake3_digest(data));
    assert(a =~= h);
}

/// The rows encoded pictures would become, in order, each named by the
/// digest of its bytes.
pub open spec fn candidate_rows(pack: [u8; 16], enc: Seq<EncodedSticker>) -> Seq<StickerRow> {
    Seq::new(
        enc.len(),
        |i: int|
            StickerRow {
                pack_id: pack,
                sticker_id: digest_id(enc[i].avif@),
                position: 0,
                width: enc[i].width,
                height: enc[i].height,
            },
    )
}

/// The roster a publish names: the existing stickers, then each new picture
/// not already among them or repeated, at the next position. `None` when
/// nothing is new in a pack that has stickers already; refused when a new
/// pack would be empty or the roster would outgrow a pack.
pub open spec fn publish_spec(pack: [u8; 16], existing: Seq<StickerRow>, enc: Seq<EncodedSticker>) -> Result<
    Option<Seq<StickerRow>>,
    StickerError,
> {
    let all = merge_spec(existing, candidate_rows(pack, enc));
    if all.len() == existing.len() {
        if existing.len() == 0 {
            Err(StickerError::NothingToPublish)
        } else {
            Ok(None)
        }
    } else if all.len() > PACK_MAX_STICKERS {
        Err(StickerError::PackFull)
    } else {
        Ok(Some(all))
    }
}

pub fn publish_plan(pack: [u8; 16], existing: &Vec<StickerRow>, enc: &Vec<EncodedSticker>) -> (r: Result<
    Option<Vec<StickerRow>>,
    StickerError,
>)
    requires
        existing@.len() + enc@.len() <= u32::MAX,
    ensures
        match (r, publish_spec(pack, existing@, enc@)) {
            (Ok(Some(v)), Ok(Some(sv))) => v@ == sv,
            (Ok(None), Ok(None)) => true,
            (Err(e), Err(se)) => e == se,
            _ => false,
        },
{
    let mut all: Vec<StickerRow> = existing.clone();
    proof {
        assert(all@ == existing@);
    }
    let ghost cand = candidate_rows(pack, enc@);
    let n = enc.len();
    let mut i: usize = 0;
    while i < n
        invariant
            n == enc@.len(),
            i <= n,
            existing@.len() + n <= u32::MAX,
            cand == candidate_rows(pack, enc@),
            all@ == merge_spec(existing@, cand.take(i as int)),
        decreases n - i,
    {
        let id = blake3_hash(enc[i].avif.as_slice());
        proof {
            lemma_digest_id(enc@[i as int].avif@, id);
            lemma_merge_len(existing@, cand.take(i as int));
        }
        let row = StickerRow { pack_id: pack, sticker_id: id, position: 0, width: enc[i].width, height: enc[i].height };
        assert(row == cand[i as int]);
        append_unseen(&mut all, row);
        assert(cand.take(i + 1).drop_last() =~= cand.take(i as int));
        i += 1;
    }
    assert(cand.take(n as int) =~= cand);
    if all.len() == existing.len() {
        if existing.len() == 0 {
            return Err(StickerError::NothingToPublish);
        }
        return Ok(None);
    }
    if all.len() > PACK_MAX_STICKERS {
        return Err(StickerError::PackFull);
    }
    Ok(Some(all))
}

/// A new pack needs a usable name and one to [`PACK_MAX_STICKERS`] pictures;
/// the name is checked first and comes back trimmed.
pub fn check_new_pack(name: &str, images: usize) -> (r: Result<String, StickerError>)
    ensures
        !name_ok(name@) ==> r == Err::<String, StickerError>(StickerError::BadName),
        name_ok(name@) && (images == 0 || images > PACK_MAX_STICKERS) ==> r == Err::<String, StickerError>(StickerError::BadCount),
        r is Ok <==> name_ok(name@) && 0 < images <= PACK_MAX_STICKERS,
        r matches Ok(t) ==> t@ == trim_spec(name@),
{
    let t = match checked_name(name) {
        Ok(t) => t,
        Err(e) => return Err(e),
    };
    if images == 0 || images > PACK_MAX_STICKERS {
        return Err(StickerError::BadCount);
    }
    Ok(t)
}

/// Adding pictures to a kept pack: it must be installed, we must have an
/// identity and be its creator, the count must fit a pack, and the version
/// must be able to grow; checked in that order. The result is the version
/// the new manifest carries.
pub open spec fn append_version_spec(kept: Option<PackRow>, me: Option<[u8; 32]>, images: usize) -> Result<u32, StickerError> {
    match kept {
        None => Err(StickerError::NotInstalled),
        Some(k) => match me {
            None => Err(StickerError::NoIdentity),
            Some(me) => if k.creator != me {
                Err(StickerError::NotCreator)
            } else if images == 0 || images > PACK_MAX_STICKERS {
                Err(StickerError::BadCount)
            } else if k.version == u32::MAX {
                Err(StickerError::VersionExhausted)
            } else {
                Ok((k.version + 1) as u32)
            },
        },
    }
}

/// Only the creator of an installed pack adds to it, with one to
/// [`PACK_MAX_STICKERS`] pictures, and the new manifest carries the next
/// version, exactly one past the kept one; anyone else, or a bad count, is
/// refused.
pub proof fn law_creator_appends_next_version(k: PackRow, me: [u8; 32], images: usize)
    ensures
        append_version_spec(None, Some(me), images) == Err::<u32, StickerError>(StickerError::NotInstalled),
        append_version_spec(Some(k), None, images) == Err::<u32, StickerError>(StickerError::NoIdentity),
        me != k.creator ==> append_version_spec(Some(k), Some(me), images) == Err::<u32, StickerError>(
            StickerError::NotCreator,
        ),
        me == k.creator && 1 <= images <= PACK_MAX_STICKERS && k.version < u32::MAX ==> append_version_spec(
            Some(k),
            Some(me),
            images,
        ) == Ok::<u32, StickerError>((k.version + 1) as u32),
        me == k.creator && (images == 0 || images > PACK_MAX_STICKERS) ==> append_version_spec(Some(k), Some(me), images)
            == Err::<u32, StickerError>(StickerError::BadCount),
        append_version_spec(Some(k), Some(me), images) matches Ok(v) ==> v == k.version + 1,
{
}

/// A decrypted manifest is used only when it agrees with its envelope and
/// with the pack and store it was fetched for, and has a usable name and
/// roster; any disagreement with the envelope is reported as such first.
pub proof fn law_manifest_used_only_when_consistent(m: PackManifest, pack: [u8; 16], store: u16, env: EnvelopeClaims)
    ensures
        manifest_check_spec(m, pack, store, env) == Ok::<(), StickerError>(()) <==> (m.pack_id == pack && m.store_id
            == store && env.store == store && m.creator == env.creator && m.version == env.version && name_ok(m.name@)
            && roster_ok(m.stickers@)),
        m.pack_id != pack || m.creator != env.creator || m.version != env.version ==> manifest_check_spec(
            m,
            pack,
            store,
            env,
        ) == Err::<(), StickerError>(StickerError::EnvelopeMismatch),
{
}

pub fn append_version(kept: Option<&PackRow>, me: Option<[u8; 32]>, images: usize) -> (r: Result<u32, StickerError>)
    ensures
        r == append_version_spec(match kept { Some(k) => Some(*k), None => None }, me, images),
{
    let k = match kept {
        Some(k) => k,
        None => return Err(StickerError::NotInstalled),
    };
    let me = match me {
        Some(me) => me,
        None => return Err(StickerError::NoIdentity),
    };
    if !crate::bytes::eq32(&k.creator, &me) {
        return Err(StickerError::NotCreator);
    }
    if images == 0 || images > PACK_MAX_STICKERS {
        return Err(StickerError::BadCount);
    }
    match k.version.checked_add(1) {
        Some(v) => Ok(v),
        None => Err(StickerError::VersionExhausted),
    }
}

// ---------------------------------------------------------------------------
// Uploading through gateways
// ---------------------------------------------------------------------------

/// A sticker store's refusal of one request.
#[derive(Clone, Copy, PartialEq, Eq, Debug, Structural)]
pub enum StoreReject {
    QuotaExceeded,
    PackFull,
    Unavailable,
    WrongStore,
    StaleVersion,
    BadSignature,
    Invalid,
}

/// How one gateway's attempt at the upload ended.
#[derive(Clone, Copy, PartialEq, Eq, Debug, Structural)]
pub enum GatewayOutcome {
    /// Every request was stored.
    Stored,
    /// The gateway could not be reached in time.
    Unreachable,
    /// The gateway serves no sticker store.
    NotAStore,
    /// A request failed in transport.
    TransportFailed,
    /// A request was refused.
    Rejected(StoreReject),
}

/// What the upload does after one gateway.
#[derive(Clone, Copy, PartialEq, Eq, Debug, Structural)]
pub enum GatewayStep {
    /// The upload is done.
    Done,
    /// Try the next gateway; this one leaves no error behind.
    Next,
    /// Try the next gateway, keeping this failure as the last error.
    NextRemembering,
    /// Stop with this refusal.
    Fail(StoreReject),
}

/// A gateway may serve no store or another store, and either leaves the
/// request safe to retry elsewhere; an unreachable gateway, a transport
/// failure or an unavailable store is remembered; any other refusal ends
/// the upload.
pub fn after_gateway(o: GatewayOutcome) -> (step: GatewayStep)
    ensures
        step == match o {
            GatewayOutcome::Stored => GatewayStep::Done,
            GatewayOutcome::NotAStore => GatewayStep::Next,
            GatewayOutcome::Rejected(StoreReject::WrongStore) => GatewayStep::Next,
            GatewayOutcome::Unreachable => GatewayStep::NextRemembering,
            GatewayOutcome::TransportFailed => GatewayStep::NextRemembering,
            GatewayOutcome::Rejected(StoreReject::Unavailable) => GatewayStep::NextRemembering,
            GatewayOutcome::Rejected(r) => GatewayStep::Fail(r),
        },
{
    match o {
        GatewayOutcome::Stored => GatewayStep::Done,
        GatewayOutcome::NotAStore => GatewayStep::Next,
        GatewayOutcome::Unreachable => GatewayStep::NextRemembering,
        GatewayOutcome::TransportFailed => GatewayStep::NextRemembering,
        GatewayOutcome::Rejected(r) => match r {
            StoreReject::WrongStore => GatewayStep::Next,
            StoreReject::Unavailable => GatewayStep::NextRemembering,
            _ => GatewayStep::Fail(r),
        },
    }
}

/// How often a pending upload is retried after stale-version refusals
/// before the user is asked to try again.
pub const UPLOAD_ATTEMPTS: u32 = 3;

// ---------------------------------------------------------------------------
// The image cache
// ---------------------------------------------------------------------------

/// Sum of a sequence of sizes.
pub open spec fn total_bytes(sizes: Seq<u64>) -> int
    decreases sizes.len(),
{
    if sizes.len() == 0 {
        0
    } else {
        total_bytes(sizes.drop_last()) + sizes.last()
    }
}

proof fn lemma_total_nonneg(sizes: Seq<u64>)
    ensures
        total_bytes(sizes) >= 0,
    decreases sizes.len(),
{
    if sizes.len() > 0 {
        lemma_total_nonneg(sizes.drop_last());
    }
}

proof fn lemma_total_prefix(sizes: Seq<u64>, i: int)
    requires
        0 <= i <= sizes.len(),
    ensures
        total_bytes(sizes.take(i)) <= total_bytes(sizes),
    decreases sizes.len() - i,
{
    if i < sizes.len() {
        lemma_total_prefix(sizes, i + 1);
        assert(sizes.take(i + 1).drop_last() =~= sizes.take(i));
    } else {
        assert(sizes.take(i) =~= sizes);
    }
}

/// Bytes held by the cached images of the given sizes.
pub fn cache_bytes(sizes: &Vec<u64>) -> (total: u64)
    requires
        total_bytes(sizes@) <= u64::MAX,
    ensures
        total == total_bytes(sizes@),
{
    let mut total: u64 = 0;
    let n = sizes.len();
    let mut i: usize = 0;
    while i < n
        invariant
            n == sizes@.len(),
            i <= n,
            total_bytes(sizes@) <= u64::MAX,
            total == total_bytes(sizes@.take(i as int)),
        decreases n - i,
    {
        assert(sizes@.take(i + 1).drop_last() =~= sizes@.take(i as int));
        proof {
            lemma_total_prefix(sizes@, i + 1);
            lemma_total_nonneg(sizes@.take(i as int));
        }
        total = total + sizes[i];
        i += 1;
    }
    assert(sizes@.take(n as int) =~= sizes@);
    total
}

/// How many of the oldest files a trim removes: walking oldest first, remove
/// while the running total is over `limit`, taking each file's size off
/// (never below zero).
pub open spec fn trim_count_from(sizes: Seq<u64>, i: int, bytes: u64, limit: u64) -> int
    decreases sizes.len() - i,
{
    if i < 0 || i >= sizes.len() || bytes <= limit {
        if i < 0 { 0 } else { i }
    } else {
        trim_count_from(
            sizes,
            i + 1,
            if bytes >= sizes[i] { (bytes - sizes[i]) as u64 } else { 0 },
            limit,
        )
    }
}

/// The number of files, oldest first, that trimming to `limit` removes.
pub fn trim_count(sizes_oldest_first: &Vec<u64>, total: u64, limit: u64) -> (k: usize)
    ensures
        k == trim_count_from(sizes_oldest_first@, 0, total, limit),
        k <= sizes_oldest_first@.len(),
{
    let n = sizes_oldest_first.len();
    let mut bytes = total;
    let mut i: usize = 0;
    while i < n && bytes > limit
        invariant
            n == sizes_oldest_first@.len(),
            i <= n,
            trim_count_from(sizes_oldest_first@, 0, total, limit) == trim_count_from(
                sizes_oldest_first@,
                i as int,
                bytes,
                limit,
            ),
        decreases n - i,
    {
        bytes = bytes.saturating_sub(sizes_oldest_first[i]);
        i += 1;
    }
    i
}

proof fn lemma_total_concat(a: Seq<u64>, b: Seq<u64>)
    ensures
        total_bytes(a + b) == total_bytes(a) + total_bytes(b),
    decreases b.len(),
{
    if b.len() == 0 {
        assert(a + b =~= a);
    } else {
        lemma_total_concat(a, b.drop_last());
        assert((a + b).drop_last() =~= a + b.drop_last());
    }
}

proof fn lemma_total_skip(sizes: Seq<u64>, i: int)
    requires
        0 <= i < sizes.len(),
    ensures
        total_bytes(sizes.skip(i)) == sizes[i] + total_bytes(sizes.skip(i + 1)),
{
    assert(sizes.skip(i) =~= seq![sizes[i]] + sizes.skip(i + 1));
    lemma_total_concat(seq![sizes[i]], sizes.skip(i + 1));
    let one = seq![sizes[i]];
    assert(one.drop_last() =~= Seq::<u64>::empty());
    assert(total_bytes(Seq::<u64>::empty()) == 0);
    assert(total_bytes(one) == total_bytes(one.drop_last()) + one.last());
}

proof fn lemma_trim_from(sizes: Seq<u64>, i: int, bytes: u64, limit: u64)
    requires
        0 <= i <= sizes.len(),
        bytes == total_bytes(sizes.skip(i)),
    ensures
        i <= trim_count_from(sizes, i, bytes, limit) <= sizes.len(),
        total_bytes(sizes.skip(trim_count_from(sizes, i, bytes, limit))) <= limit,
        trim_count_from(sizes, i, bytes, limit) == i || total_bytes(
            sizes.skip(trim_count_from(sizes, i, bytes, limit) - 1),
        ) > limit,
    decreases sizes.len() - i,
{
    if i >= sizes.len() {
        assert(sizes.skip(i) =~= Seq::<u64>::empty());
    } else if bytes > limit {
        lemma_total_skip(sizes, i);
        lemma_total_nonneg(sizes.skip(i + 1));
        lemma_trim_from(sizes, i + 1, (bytes - sizes[i]) as u64, limit);
    }
}

/// Trimming the cache by its exact total leaves what remains, the newest
/// files, within `limit`, and removes no file more than that needs: the
/// files it keeps plus the last one it removed are over the limit.
pub proof fn law_trim_fits(sizes_oldest_first: Seq<u64>, limit: u64)
    requires
        total_bytes(sizes_oldest_first) <= u64::MAX,
    ensures
        ({
            let k = trim_count_from(sizes_oldest_first, 0, total_bytes(sizes_oldest_first) as u64, limit);
            &&& 0 <= k <= sizes_oldest_first.len()
            &&& total_bytes(sizes_oldest_first.skip(k)) <= limit
            &&& (k == 0 || total_bytes(sizes_oldest_first.skip(k - 1)) > limit)
        }),
{
    lemma_total_nonneg(sizes_oldest_first);
    assert(sizes_oldest_first.skip(0) =~= sizes_oldest_first);
    lemma_trim_from(sizes_oldest_first, 0, total_bytes(sizes_oldest_first) as u64, limit);
}

/// When each kept pack's manifest was last re-read, in milliseconds.
pub struct RefreshLog {
    pub entries: Vec<([u8; 16], u64)>,
}

/// The last re-read of `pack` recorded in `entries`, if any.
pub open spec fn last_refresh(entries: Seq<([u8; 16], u64)>, pack: [u8; 16]) -> Option<u64>
    decreases entries.len(),
{
    if entries.len() == 0 {
        None
    } else if entries.last().0 == pack {
        Some(entries.last().1)
    } else {
        last_refresh(entries.drop_last(), pack)
    }
}

impl RefreshLog {
    pub fn new() -> (l: RefreshLog)
        ensures
            l.entries@.len() == 0,
    {
        RefreshLog { entries: Vec::new() }
    }

    /// A pack is due for a re-read when never read, or read at least
    /// [`REFRESH_EVERY_MS`] ago.
    pub fn due(&self, pack: &[u8; 16], now: u64) -> (b: bool)
        ensures
            b == match last_refresh(self.entries@, *pack) {
                None => true,
                Some(t) => now >= t && now - t >= REFRESH_EVERY_MS,
            },
    {
        let mut i: usize = self.entries.len();
        proof {
            assert(self.entries@.take(i as int) =~= self.entries@);
        }
        while i > 0
            invariant
                i <= self.entries@.len(),
                last_refresh(self.entries@, *pack) == last_refresh(self.entries@.take(i as int), *pack),
            decreases i,
        {
            assert(self.entries@.take(i as int).drop_last() =~= self.entries@.take(i - 1));
            let e = self.entries[i - 1];
            if eq16(&e.0, pack) {
                return now >= e.1 && now - e.1 >= REFRESH_EVERY_MS;
            }
            i -= 1;
        }
        true
    }

    /// Record a re-read of `pack` at `now`.
    pub fn mark(&mut self, pack: [u8; 16], now: u64)
        ensures
            final(self).entries@ == old(self).entries@.push((pack, now)),
            last_refresh(final(self).entries@, pack) == Some(now),
    {
        self.entries.push((pack, now));
        assert(self.entries@.drop_last() =~= old(self).entries@);
    }
}

/// Forget a removed pack's re-read times; other packs keep theirs.
pub fn remove(log: &mut RefreshLog, pack: &[u8; 16])
    ensures
        last_refresh(final(log).entries@, *pack) is None,
        forall|p: [u8; 16]| p != *pack ==> last_refresh(final(log).entries@, p) == last_refresh(old(log).entries@, p),
        forall|k: int| 0 <= k < final(log).entries@.len() ==> (#[trigger] final(log).entries@[k]).0 != *pack,
{
    let mut kept: Vec<([u8; 16], u64)> = Vec::new();
    let n = log.entries.len();
    let mut i: usize = 0;
    while i < n
        invariant
            n == log.entries@.len(),
            i <= n,
            last_refresh(kept@, *pack) is None,
            forall|p: [u8; 16]| p != *pack ==> last_refresh(kept@, p) == last_refresh(log.entries@.take(i as int), p),
            forall|k: int| 0 <= k < kept@.len() ==> (#[trigger] kept@[k]).0 != *pack,
        decreases n - i,
    {
        let e = log.entries[i];
        let ghost t = log.entries@.take(i + 1);
        assert(t.drop_last() =~= log.entries@.take(i as int));
        assert(t.last() == e);
        let ghost before = kept@;
        if !eq16(&e.0, pack) {
            kept.push(e);
            assert(kept@.drop_last() =~= before);
            assert(kept@.last() == e);
        }
        assert forall|p: [u8; 16]| p != *pack implies last_refresh(kept@, p) == last_refresh(t, p) by {
            if e.0 != *pack {
                assert(last_refresh(kept@, p) == if e.0 == p { Some(e.1) } else { last_refresh(before, p) });
            }
            assert(last_refresh(t, p) == if e.0 == p { Some(e.1) } else { last_refresh(log.entries@.take(i as int), p) });
        }
        i += 1;
    }
    assert(log.entries@.take(n as int) =~= log.entries@);
    log.entries = kept;
}

} // verus!
