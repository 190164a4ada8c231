//! Time-limited TURN credentials: the username carries the expiry (in
//! seconds) and a tag of the asking client, the password is an HMAC of the
//! username under a secret derived from the relay key. Nothing is stored
//! per client, and the server recomputes the password from the username.

use base64::Engine;
use vstd::prelude::*;

use vstd::string::StringSliceAdditionalSpecFns;
use vstd::utf8::encode_utf8;
use vstd::utf8::is_ascii_chars;
use vstd::utf8::is_ascii_chars_encode_utf8;

verus! {

/// How long minted credentials stay good (one hour).
pub const CREDENTIAL_LIFETIME_MS: u64 = 3_600_000;

/// HMAC-SHA256 of `msg` under `key`.
pub uninterp spec fn hmac_sha256_spec(key: Seq<u8>, msg: Seq<u8>) -> Seq<u8>;

/// `ring::hmac::sign` with an `HMAC_SHA256` key made of `key`: the 32-byte
/// tag, a function of key and message.
#[verifier::external_body]
fn hmac_sha256(key: &[u8], msg: &[u8]) -> (tag: Vec<u8>)
    ensures
        tag@ == hmac_sha256_spec(key@, msg@),
        tag@.len() == 32,
{
    ring::hmac::sign(&ring::hmac::Key::new(ring::hmac::HMAC_SHA256, key), msg).as_ref().to_vec()
}

/// The Base64 digit for a six-bit value: `A`..`Z`, `a`..`z`, `0`..`9`,
/// `+`, `/`.
pub open spec fn b64_digit(v: int) -> char {
    if v < 26 {
        (65 + v) as char
    } else if v < 52 {
        (97 + (v - 26)) as char
    } else if v < 62 {
        (48 + (v - 52)) as char
    } else if v == 62 {
        '+'
    } else {
        '/'
    }
}

/// Standard (padded) Base64 text of `data`: every three bytes become four
/// digits, and a last group of one or two bytes is padded with `=`.
pub open spec fn base64_standard(data: Seq<u8>) -> Seq<char>
    decreases data.len(),
{
    if data.len() == 0 {
        Seq::empty()
    } else if data.len() == 1 {
        let a = data[0] as int;
        seq![b64_digit(a / 4), b64_digit((a % 4) * 16), '=', '=']
    } else if data.len() == 2 {
        let a = data[0] as int;
        let b = data[1] as int;
        seq![b64_digit(a / 4), b64_digit((a % 4) * 16 + b / 16), b64_digit((b % 16) * 4), '=']
    } else {
        let a = data[0] as int;
        let b = data[1] as int;
        let c = data[2] as int;
        seq![b64_digit(a / 4), b64_digit((a % 4) * 16 + b / 16), b64_digit((b % 16) * 4 + c / 64), b64_digit(c % 64)]
            + base64_standard(data.skip(3))
    }
}

/// `base64::engine::general_purpose::STANDARD.encode`: the standard
/// alphabet with `=` padding.
#[verifier::external_body]
fn base64_encode(data: &[u8]) -> (s: String)
    ensures
        s@ == base64_standard(data@),
{
    base64::engine::general_purpose::STANDARD.encode(data)
}

/// `String::from_utf8` on ASCII bytes: the same characters.
#[verifier::external_body]
fn ascii_string(bytes: Vec<u8>) -> (s: String)
    requires
        forall|i: int| 0 <= i < bytes@.len() ==> bytes@[i] < 128,
    ensures
        s@ == bytes@.map_values(|b: u8| b as char),
{
    String::from_utf8(bytes).unwrap()
}

// ---------------------------------------------------------------------------
// Text forms
// ---------------------------------------------------------------------------

/// Decimal digits of `n`, most significant first, as ASCII.
pub open spec fn decimal(n: nat) -> Seq<u8>
    decreases n,
{
    if n < 10 {
        seq![(48 + n) as u8]
    } else {
        decimal(n / 10).push((48 + n % 10) as u8)
    }
}

proof fn lemma_decimal_ascii(n: nat)
    ensures
        forall|i: int| 0 <= i < decimal(n).len() ==> 48 <= #[trigger] decimal(n)[i] <= 57,
        decimal(n).len() >= 1,
    decreases n,
{
    if n >= 10 {
        lemma_decimal_ascii(n / 10);
    }
}

/// Append the decimal digits of `n`.
pub fn push_decimal(v: &mut Vec<u8>, n: u64)
    ensures
        final(v)@ == old(v)@ + decimal(n as nat),
    decreases n,
{
    if n >= 10 {
        push_decimal(v, n / 10);
    }
    let d = (n % 10) as u8;
    v.push(48 + d);
}

/// Lowercase hex digit of a nibble.
pub open spec fn hex_digit(x: u8) -> u8 {
    if x < 10 { (48 + x) as u8 } else { (87 + x) as u8 }
}

/// Lowercase hex of `bytes`, two digits per byte.
pub open spec fn hex_spec(bytes: Seq<u8>) -> Seq<u8>
    decreases bytes.len(),
{
    if bytes.len() == 0 {
        Seq::empty()
    } else {
        hex_spec(bytes.drop_last()) + seq![hex_digit(bytes.last() / 16), hex_digit(bytes.last() % 16)]
    }
}

proof fn lemma_hex_ascii(bytes: Seq<u8>)
    ensures
        forall|i: int| 0 <= i < hex_spec(bytes).len() ==> #[trigger] hex_spec(bytes)[i] < 128,
    decreases bytes.len(),
{
    if bytes.len() > 0 {
        lemma_hex_ascii(bytes.drop_last());
        let h = hex_spec(bytes);
        let p = hex_spec(bytes.drop_last());
        assert forall|i: int| 0 <= i < h.len() implies #[trigger] h[i] < 128 by {
            if i < p.len() {
                assert(h[i] == p[i]);
            }
        }
    }
}

fn hex_nibble(x: u8) -> (d: u8)
    requires
        x < 16,
    ensures
        d == hex_digit(x),
{
    if x < 10 { 48 + x } else { 87 + x }
}

/// Append the lowercase hex of `bytes`.
pub fn push_hex(v: &mut Vec<u8>, bytes: &[u8])
    ensures
        final(v)@ == old(v)@ + hex_spec(bytes@),
{
    let ghost start = v@;
    let n = bytes.len();
    let mut i: usize = 0;
    while i < n
        invariant
            n == bytes@.len(),
            i <= n,
            v@ == start + hex_spec(bytes@.take(i as int)),
        decreases n - i,
    {
        let b = bytes[i];
        v.push(hex_nibble(b / 16));
        v.push(hex_nibble(b % 16));
        assert(bytes@.take(i + 1).drop_last() =~= bytes@.take(i as int));
        assert(v@ =~= start + hex_spec(bytes@.take(i + 1)));
        i += 1;
    }
    assert(bytes@.take(n as int) =~= bytes@);
}

// ---------------------------------------------------------------------------
// Credentials
// ---------------------------------------------------------------------------

/// Credentials handed to a client for one call.
#[derive(Clone, Debug, PartialEq, Eq)]
pub struct TurnCredentials {
    pub username: String,
    pub password: String,
    pub expires_at_ms: u64,
}

/// The username for `client` at `now`: the expiry in whole seconds, a
/// colon, and the hex of the client's first four key bytes.
pub open spec fn username_spec(client: Seq<u8>, now_ms: u64) -> Seq<u8> {
    decimal(((now_ms + CREDENTIAL_LIFETIME_MS) / 1000) as nat) + seq![58u8] + hex_spec(client.take(4))
}

/// The secret every password is keyed by: the relay key's HMAC of a fixed
/// label.
pub open spec fn turn_secret_spec(relay_seed: Seq<u8>) -> Seq<u8> {
    hmac_sha256_spec(
        relay_seed,
        seq![
            112u8, 114, 111, 109, 116, 117, 122, 32, 116, 117, 114, 110, 32, 115, 101, 99, 114, 101,
            116, 32, 118, 49,
        ],
    )
}

pub fn turn_secret(relay_seed: &[u8; 32]) -> (s: Vec<u8>)
    ensures
        s@ == turn_secret_spec(relay_seed@),
{
    let label: Vec<u8> = vec![
        112u8, 114, 111, 109, 116, 117, 122, 32, 116, 117, 114, 110, 32, 115, 101, 99, 114, 101,
        116, 32, 118, 49,
    ];
    hmac_sha256(relay_seed, &label)
}

/// The password for a username: Base64 of its HMAC under the secret.
pub fn password_for(secret: &[u8], username: &str) -> (p: String)
    ensures
        p@ == base64_standard(hmac_sha256_spec(secret@, username.spec_bytes())),
{
    base64_encode(&hmac_sha256(secret, username.as_bytes()))
}

/// Credentials for `client`, valid for [`CREDENTIAL_LIFETIME_MS`] from `now`.
pub fn credentials(secret: &[u8], client: &[u8; 32], now_ms: u64) -> (c: TurnCredentials)
    requires
        now_ms + CREDENTIAL_LIFETIME_MS <= u64::MAX,
    ensures
        c.expires_at_ms == now_ms + CREDENTIAL_LIFETIME_MS,
        c.username@ == username_spec(client@, now_ms).map_values(|b: u8| b as char),
        c.password@ == base64_standard(hmac_sha256_spec(secret@, username_spec(client@, now_ms))),
{
    let expires_at_ms = now_ms + CREDENTIAL_LIFETIME_MS;
    let mut name: Vec<u8> = Vec::new();
    push_decimal(&mut name, expires_at_ms / 1000);
    name.push(58u8);
    let tag: [u8; 4] = [client[0], client[1], client[2], client[3]];
    assert(tag@ =~= client@.take(4));
    push_hex(&mut name, &tag);
    proof {
        lemma_decimal_ascii(((now_ms + CREDENTIAL_LIFETIME_MS) / 1000) as nat);
        lemma_hex_ascii(client@.take(4));
        assert(name@ =~= username_spec(client@, now_ms));
        assert forall|i: int| 0 <= i < name@.len() implies name@[i] < 128 by {
            let d = decimal(((now_ms + CREDENTIAL_LIFETIME_MS) / 1000) as nat);
            if i < d.len() {
                assert(name@[i] == d[i]);
            } else if i > d.len() {
                assert(name@[i] == hex_spec(client@.take(4))[i - d.len() - 1]);
            }
        }
    }
    let password_tag = hmac_sha256(secret, &name);
    let password = base64_encode(&password_tag);
    let username = ascii_string(name);
    TurnCredentials { username, password, expires_at_ms }
}

// ---------------------------------------------------------------------------
// Checking a presented username
// ---------------------------------------------------------------------------

/// Why a presented username is refused.
#[derive(Clone, Copy, Debug, PartialEq, Eq, Structural)]
pub enum TurnAuthError {
    /// No expiry can be read from it.
    Malformed,
    /// Its expiry has passed.
    Expired,
}

/// The text before the first colon (all of it when there is none).
pub open spec fn before_colon(s: Seq<char>) -> Seq<char>
    decreases s.len(),
{
    if s.len() == 0 {
        Seq::empty()
    } else if s[0] == ':' {
        Seq::empty()
    } else {
        seq![s[0]] + before_colon(s.drop_first())
    }
}

/// The value of a string of decimal digits.
pub open spec fn digits_value(s: Seq<char>) -> int
    decreases s.len(),
{
    if s.len() == 0 {
        0
    } else {
        digits_value(s.drop_last()) * 10 + (s.last() as int - 48)
    }
}

pub open spec fn all_digits(s: Seq<char>) -> bool {
    forall|i: int| 0 <= i < s.len() ==> '0' <= #[trigger] s[i] <= '9'
}

/// `u64::from_str`: an optional `+`, then at least one decimal digit and
/// nothing else, with a value that fits.
pub open spec fn parse_u64_spec(s: Seq<char>) -> Option<u64> {
    let body = if s.len() > 0 && s[0] == '+' { s.drop_first() } else { s };
    if body.len() > 0 && all_digits(body) && digits_value(body) <= u64::MAX {
        Some(digits_value(body) as u64)
    } else {
        None
    }
}

proof fn lemma_digits_value_nonneg(s: Seq<char>)
    requires
        all_digits(s),
    ensures
        digits_value(s) >= 0,
    decreases s.len(),
{
    if s.len() > 0 {
        lemma_digits_value_nonneg(s.drop_last());
    }
}

proof fn lemma_digits_value_grows(s: Seq<char>)
    requires
        all_digits(s),
        s.len() > 0,
    ensures
        digits_value(s) >= digits_value(s.drop_last()),
{
    lemma_digits_value_nonneg(s.drop_last());
}

/// The decimal number `name` (as `u64::from_str` reads it).
pub fn parse_u64(name: &str) -> (r: Option<u64>)
    ensures
        r == parse_u64_spec(name@),
{
    let n = name.unicode_len();
    let start: usize = if n > 0 && name.get_char(0) == '+' { 1 } else { 0 };
    let ghost body = name@.subrange(start as int, n as int);
    proof {
        if start == 1 {
            assert(body =~= name@.drop_first());
        } else {
            assert(body =~= name@);
        }
    }
    if start >= n {
        return None;
    }
    let mut value: u64 = 0;
    let mut i: usize = start;
    while i < n
        invariant
            start <= i <= n,
            n == name@.len(),
            body == name@.subrange(start as int, n as int),
            body == (if name@.len() > 0 && name@[0] == '+' { name@.drop_first() } else { name@ }),
            all_digits(name@.subrange(start as int, i as int)),
            value == digits_value(name@.subrange(start as int, i as int)),
        decreases n - i,
    {
        let c = name.get_char(i);
        let ghost pre = name@.subrange(start as int, i as int);
        let ghost next = name@.subrange(start as int, i + 1);
        assert(next.drop_last() =~= pre);
        assert(next.last() == c);
        if !('0' <= c && c <= '9') {
            proof {
                assert(!all_digits(body)) by {
                    assert(body[i - start] == c);
                }
            }
            return None;
        }
        let d = (c as u32 - 48) as u64;
        if value > (u64::MAX - d) / 10 {
            proof {
                assert(digits_value(next) > u64::MAX) by (nonlinear_arith)
                    requires
                        digits_value(next) == value * 10 + d,
                        value > (u64::MAX - d) / 10,
                        d <= 9,
                ;
                assert(all_digits(next)) by {
                    assert forall|j: int| 0 <= j < next.len() implies '0' <= #[trigger] next[j] <= '9' by {
                        if j < pre.len() {
                            assert(next[j] == pre[j]);
                        }
                    }
                }
                assert(body.take((i + 1 - start) as int) =~= next);
                if all_digits(body) {
                    lemma_prefix_value_bound(body, (i + 1 - start) as int);
                    assert(digits_value(body) >= digits_value(next));
                }
            }
            return None;
        }
        proof {
            assert(value * 10 + d <= u64::MAX) by (nonlinear_arith)
                requires
                    value <= (u64::MAX - d) / 10,
                    d <= 9,
            ;
        }
        value = value * 10 + d;
        proof {
            assert(all_digits(next)) by {
                assert forall|j: int| 0 <= j < next.len() implies '0' <= #[trigger] next[j] <= '9' by {
                    if j < pre.len() {
                        assert(next[j] == pre[j]);
                    }
                }
            }
        }
        i += 1;
    }
    Some(value)
}

/// A longer run of digits is worth at least its prefix.
proof fn lemma_prefix_value_bound(s: Seq<char>, k: int)
    requires
        0 <= k <= s.len(),
        all_digits(s),
    ensures
        digits_value(s) >= digits_value(s.take(k)),
    decreases s.len() - k,
{
    if k < s.len() {
        lemma_prefix_value_bound(s, k + 1);
        let t = s.take(k + 1);
        assert(t.drop_last() =~= s.take(k));
        assert(all_digits(t)) by {
            assert forall|j: int| 0 <= j < t.len() implies '0' <= #[trigger] t[j] <= '9' by {
                assert(t[j] == s[j]);
            }
        }
        lemma_digits_value_grows(t);
    } else {
        assert(s.take(k) =~= s);
    }
}

/// The expiry a username carries, checked against the clock: the text
/// before the first colon must read as a number of seconds no earlier than
/// `now_secs`.
pub open spec fn check_username_spec(username: Seq<char>, now_secs: u64) -> Result<u64, TurnAuthError> {
    match parse_u64_spec(before_colon(username)) {
        None => Err(TurnAuthError::Malformed),
        Some(e) => if e < now_secs { Err(TurnAuthError::Expired) } else { Ok(e) },
    }
}

pub fn check_username(username: &str, now_secs: u64) -> (r: Result<u64, TurnAuthError>)
    ensures
        r == check_username_spec(username@, now_secs),
{
    let n = username.unicode_len();
    let mut cut: usize = 0;
    while cut < n && username.get_char(cut) != ':'
        invariant
            n == username@.len(),
            cut <= n,
            forall|j: int| 0 <= j < cut ==> username@[j] != ':',
        decreases n - cut,
    {
        cut += 1;
    }
    proof {
        lemma_before_colon(username@, cut as int);
    }
    let head = username.substring_char(0, cut);
    match parse_u64(head) {
        None => Err(TurnAuthError::Malformed),
        Some(e) => if e < now_secs {
            Err(TurnAuthError::Expired)
        } else {
            Ok(e)
        },
    }
}

proof fn lemma_before_colon(s: Seq<char>, cut: int)
    requires
        0 <= cut <= s.len(),
        forall|j: int| 0 <= j < cut ==> s[j] != ':',
        cut == s.len() || s[cut] == ':',
    ensures
        before_colon(s) == s.subrange(0, cut),
    decreases s.len(),
{
    if s.len() > 0 && s[0] != ':' {
        lemma_before_colon(s.drop_first(), cut - 1);
        assert(seq![s[0]] + s.drop_first().subrange(0, cut - 1) =~= s.subrange(0, cut));
    } else {
        assert(s.subrange(0, cut) =~= Seq::<char>::empty());
    }
}

proof fn lemma_decimal_parses(n: nat)
    ensures
        ({
            let c = decimal(n).map_values(|b: u8| b as char);
            &&& c.len() > 0
            &&& all_digits(c)
            &&& digits_value(c) == n
            &&& forall|i: int| 0 <= i < c.len() ==> #[trigger] c[i] != ':' && c[i] != '+'
        }),
    decreases n,
{
    let c = decimal(n).map_values(|b: u8| b as char);
    if n < 10 {
        assert(c.len() == 1);
        assert(c[0] == ((48 + n) as u8) as char);
        let b: u8 = (48 + n) as u8;
        assert(b == 48 + n);
        assert((b as char) as int == b as int);
        assert(c.drop_last() =~= Seq::<char>::empty());
        assert(digits_value(c.drop_last()) == 0);
        assert(c.last() == c[0]);
    } else {
        lemma_decimal_parses(n / 10);
        let p = decimal(n / 10).map_values(|b: u8| b as char);
        assert(c.drop_last() =~= p);
        assert(c.last() == ((48 + n % 10) as u8) as char);
        let b: u8 = (48 + n % 10) as u8;
        assert((b as char) as int == 48 + n % 10);
        assert(all_digits(c)) by {
            assert forall|i: int| 0 <= i < c.len() implies '0' <= #[trigger] c[i] <= '9' by {
                if i < p.len() {
                    assert(c[i] == p[i]);
                }
            }
        }
        assert forall|i: int| 0 <= i < c.len() implies #[trigger] c[i] != ':' && c[i] != '+' by {
            if i < p.len() {
                assert(c[i] == p[i]);
            }
        }
        assert(digits_value(c) == digits_value(p) * 10 + (n % 10));
    }
}

// ---------------------------------------------------------------------------
// The key handed to the TURN server
// ---------------------------------------------------------------------------

/// What `turn::auth::generate_auth_key` returns for a username, a realm and
/// a password.
pub uninterp spec fn turn_auth_key_spec(username: Seq<char>, realm: Seq<char>, password: Seq<char>) -> Seq<u8>;

/// `turn::auth::generate_auth_key`: the MD5 digest of
/// `username:realm:password`, the long-term key the TURN server checks a
/// message's integrity with. It is a function of the three strings alone,
/// sixteen bytes long, and does not fail.
#[verifier::external_body]
fn generate_auth_key(username: &str, realm: &str, password: &str) -> (k: Vec<u8>)
    ensures
        k@ == turn_auth_key_spec(username@, realm@, password@),
        k@.len() == 16,
{
    turn::auth::generate_auth_key(username, realm, password)
}

/// The key the TURN server is handed for `username` at `now_secs`: refused
/// as [`check_username_spec`] refuses it, otherwise the long-term key of the
/// username, the realm and the password recomputed from the username.
pub open spec fn auth_key_spec(
    secret: Seq<u8>,
    username: Seq<char>,
    realm: Seq<char>,
    now_secs: u64,
) -> Result<Seq<u8>, TurnAuthError> {
    match check_username_spec(username, now_secs) {
        Err(e) => Err(e),
        Ok(_) => Ok(turn_auth_key_spec(username, realm, base64_standard(hmac_sha256_spec(secret, encode_utf8(username))))),
    }
}

/// The key TURN expects for `username`, if the credential is one minted
/// under `secret` and it has not expired at `now_secs`. A wrong password is
/// not caught here: it fails the message integrity check that the key is
/// used for.
pub fn auth_key(secret: &[u8], username: &str, realm: &str, now_secs: u64) -> (r: Result<Vec<u8>, TurnAuthError>)
    ensures
        match auth_key_spec(secret@, username@, realm@, now_secs) {
            Ok(k) => r matches Ok(v) && v@ == k,
            Err(e) => r == Err::<Vec<u8>, TurnAuthError>(e),
        },
{
    match check_username(username, now_secs) {
        Err(e) => Err(e),
        Ok(_) => {
            let password = password_for(secret, username);
            Ok(generate_auth_key(username, realm, password.as_str()))
        },
    }
}

/// Credentials minted under `secret` authenticate until they expire: up to
/// the expiry second the key handed to TURN is the long-term key of the
/// minted username, the realm and the very password minted with it; after
/// that second they are refused as expired.
pub proof fn law_minted_credentials_authenticate(
    secret: Seq<u8>,
    client: Seq<u8>,
    now_ms: u64,
    realm: Seq<char>,
    now_secs: u64,
)
    requires
        now_ms + CREDENTIAL_LIFETIME_MS <= u64::MAX,
        client.len() >= 4,
    ensures
        ({
            let u = username_spec(client, now_ms).map_values(|b: u8| b as char);
            let p = base64_standard(hmac_sha256_spec(secret, username_spec(client, now_ms)));
            &&& now_secs <= (now_ms + CREDENTIAL_LIFETIME_MS) / 1000 ==> auth_key_spec(secret, u, realm, now_secs)
                == Ok::<Seq<u8>, TurnAuthError>(turn_auth_key_spec(u, realm, p))
            &&& now_secs > (now_ms + CREDENTIAL_LIFETIME_MS) / 1000 ==> auth_key_spec(secret, u, realm, now_secs)
                == Err::<Seq<u8>, TurnAuthError>(TurnAuthError::Expired)
        }),
{
    law_minted_credentials_checked(client, now_ms, now_secs);
    let b = username_spec(client, now_ms);
    let u = b.map_values(|x: u8| x as char);
    lemma_username_ascii(client, now_ms);
    assert(is_ascii_chars(u)) by {
        assert forall|i| 0 <= i < u.len() implies '\0' <= #[trigger] u[i] <= '\u{7f}' by {
            assert(b[i] < 128);
        }
    }
    is_ascii_chars_encode_utf8(u);
    assert forall|i: int| 0 <= i < b.len() implies #[trigger] encode_utf8(u)[i] == b[i] by {
        let x = b[i];
        assert(u[i] == x as char);
        assert(x < 128);
    }
    assert(encode_utf8(u) =~= b);
}

/// Every byte of a minted username is ASCII.
proof fn lemma_username_ascii(client: Seq<u8>, now_ms: u64)
    requires
        client.len() >= 4,
    ensures
        forall|i: int|
            0 <= i < username_spec(client, now_ms).len() ==> #[trigger] username_spec(client, now_ms)[i] < 128,
{
    let e = ((now_ms + CREDENTIAL_LIFETIME_MS) / 1000) as nat;
    let d = decimal(e);
    let h = hex_spec(client.take(4));
    lemma_decimal_ascii(e);
    lemma_hex_ascii(client.take(4));
    let u = username_spec(client, now_ms);
    assert forall|i: int| 0 <= i < u.len() implies #[trigger] u[i] < 128 by {
        if i < d.len() {
            assert(u[i] == d[i]);
        } else if i > d.len() {
            assert(u[i] == h[i - d.len() - 1]);
        }
    }
}

/// Credentials authenticate until they expire: a minted username reads back
/// as its expiry, accepted up to that second and refused after it.
pub proof fn law_minted_credentials_checked(client: Seq<u8>, now_ms: u64, now_secs: u64)
    requires
        now_ms + CREDENTIAL_LIFETIME_MS <= u64::MAX,
    ensures
        now_secs <= (now_ms + CREDENTIAL_LIFETIME_MS) / 1000 ==> check_username_spec(
            username_spec(client, now_ms).map_values(|b: u8| b as char),
            now_secs,
        ) == Ok::<u64, TurnAuthError>(((now_ms + CREDENTIAL_LIFETIME_MS) / 1000) as u64),
        now_secs > (now_ms + CREDENTIAL_LIFETIME_MS) / 1000 ==> check_username_spec(
            username_spec(client, now_ms).map_values(|b: u8| b as char),
            now_secs,
        ) == Err::<u64, TurnAuthError>(TurnAuthError::Expired),
{
    let e: nat = ((now_ms + CREDENTIAL_LIFETIME_MS) / 1000) as nat;
    let d = decimal(e).map_values(|b: u8| b as char);
    let u = username_spec(client, now_ms).map_values(|b: u8| b as char);
    lemma_decimal_parses(e);
    let cut = d.len() as int;
    assert forall|j: int| 0 <= j < cut implies u[j] != ':' by {
        assert(u[j] == d[j]);
    }
    assert(u[cut] == ':');
    lemma_before_colon(u, cut);
    assert(u.subrange(0, cut) =~= d);
    assert(d[0] != '+');
}

} // verus!
