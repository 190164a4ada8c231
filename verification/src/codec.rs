//! Fixed-width integer encodings used in stored values and on the wire.

use vstd::prelude::*;

verus! {

/// The eight big-endian bytes of `x`.
pub open spec fn u64_be_spec(x: u64) -> Seq<u8> {
    seq![
        (x >> 56u64) as u8,
        (x >> 48u64) as u8,
        (x >> 40u64) as u8,
        (x >> 32u64) as u8,
        (x >> 24u64) as u8,
        (x >> 16u64) as u8,
        (x >> 8u64) as u8,
        x as u8,
    ]
}

/// The number eight bytes encode, most significant first.
pub open spec fn be_u64_of(s: Seq<u8>) -> u64 {
    ((s[0] as u64) << 56u64) | ((s[1] as u64) << 48u64) | ((s[2] as u64) << 40u64) | ((s[3] as u64)
        << 32u64) | ((s[4] as u64) << 24u64) | ((s[5] as u64) << 16u64) | ((s[6] as u64) << 8u64)
        | (s[7] as u64)
}

/// The four little-endian bytes of `x`.
pub open spec fn u32_le_spec(x: u32) -> Seq<u8> {
    seq![x as u8, (x >> 8u32) as u8, (x >> 16u32) as u8, (x >> 24u32) as u8]
}

/// The number four bytes encode, least significant first.
pub open spec fn le_u32_of(s: Seq<u8>) -> u32 {
    (s[0] as u32) | ((s[1] as u32) << 8u32) | ((s[2] as u32) << 16u32) | ((s[3] as u32) << 24u32)
}

/// The eight little-endian bytes of `x`.
pub open spec fn u64_le_spec(x: u64) -> Seq<u8> {
    u64_be_spec(x).reverse()
}

/// Decoding the big-endian bytes of `x` gives `x` back.
pub proof fn lemma_u64_be_roundtrip(x: u64)
    ensures
        u64_be_spec(x).len() == 8,
        be_u64_of(u64_be_spec(x)) == x,
{
    let s = u64_be_spec(x);
    let (b0, b1, b2, b3, b4, b5, b6, b7) = (s[0], s[1], s[2], s[3], s[4], s[5], s[6], s[7]);
    assert(b0 == (x >> 56u64) as u8 && b1 == (x >> 48u64) as u8 && b2 == (x >> 40u64) as u8 && b3
        == (x >> 32u64) as u8 && b4 == (x >> 24u64) as u8 && b5 == (x >> 16u64) as u8 && b6 == (x
        >> 8u64) as u8 && b7 == x as u8);
    assert(((((x >> 56u64) as u8) as u64) << 56u64) | ((((x >> 48u64) as u8) as u64) << 48u64) | ((
    ((x >> 40u64) as u8) as u64) << 40u64) | ((((x >> 32u64) as u8) as u64) << 32u64) | ((((x
        >> 24u64) as u8) as u64) << 24u64) | ((((x >> 16u64) as u8) as u64) << 16u64) | ((((x
        >> 8u64) as u8) as u64) << 8u64) | ((x as u8) as u64) == x) by (bit_vector);
}

/// Encoding the number eight bytes decode to gives the bytes back.
pub proof fn lemma_be_u64_canonical(s: Seq<u8>)
    requires
        s.len() == 8,
    ensures
        u64_be_spec(be_u64_of(s)) == s,
{
    let (b0, b1, b2, b3, b4, b5, b6, b7) = (s[0], s[1], s[2], s[3], s[4], s[5], s[6], s[7]);
    let x = be_u64_of(s);
    assert(x == ((b0 as u64) << 56u64) | ((b1 as u64) << 48u64) | ((b2 as u64) << 40u64) | ((
    b3 as u64) << 32u64) | ((b4 as u64) << 24u64) | ((b5 as u64) << 16u64) | ((b6 as u64) << 8u64)
        | (b7 as u64));
    assert({
        let y = ((b0 as u64) << 56u64) | ((b1 as u64) << 48u64) | ((b2 as u64) << 40u64) | ((
        b3 as u64) << 32u64) | ((b4 as u64) << 24u64) | ((b5 as u64) << 16u64) | ((b6 as u64)
            << 8u64) | (b7 as u64);
        &&& (y >> 56u64) as u8 == b0
        &&& (y >> 48u64) as u8 == b1
        &&& (y >> 40u64) as u8 == b2
        &&& (y >> 32u64) as u8 == b3
        &&& (y >> 24u64) as u8 == b4
        &&& (y >> 16u64) as u8 == b5
        &&& (y >> 8u64) as u8 == b6
        &&& y as u8 == b7
    }) by (bit_vector);
    assert(u64_be_spec(x) =~= s);
}

/// Decoding the little-endian bytes of `x` gives `x` back.
pub proof fn lemma_u32_le_roundtrip(x: u32)
    ensures
        u32_le_spec(x).len() == 4,
        le_u32_of(u32_le_spec(x)) == x,
{
    assert(((x as u8) as u32) | ((((x >> 8u32) as u8) as u32) << 8u32) | ((((x >> 16u32) as u8)
        as u32) << 16u32) | ((((x >> 24u32) as u8) as u32) << 24u32) == x) by (bit_vector);
}

/// `u64::to_be_bytes`.
pub fn u64_to_be(x: u64) -> (b: [u8; 8])
    ensures
        b@ == u64_be_spec(x),
{
    let b = [
        (x >> 56u64) as u8,
        (x >> 48u64) as u8,
        (x >> 40u64) as u8,
        (x >> 32u64) as u8,
        (x >> 24u64) as u8,
        (x >> 16u64) as u8,
        (x >> 8u64) as u8,
        x as u8,
    ];
    assert(b@ =~= u64_be_spec(x));
    b
}

/// `u64::to_le_bytes`.
pub fn u64_to_le(x: u64) -> (b: [u8; 8])
    ensures
        b@ == u64_le_spec(x),
{
    let b = [
        x as u8,
        (x >> 8u64) as u8,
        (x >> 16u64) as u8,
        (x >> 24u64) as u8,
        (x >> 32u64) as u8,
        (x >> 40u64) as u8,
        (x >> 48u64) as u8,
        (x >> 56u64) as u8,
    ];
    assert(b@ =~= u64_le_spec(x));
    b
}

/// `u32::to_le_bytes`.
pub fn u32_to_le(x: u32) -> (b: [u8; 4])
    ensures
        b@ == u32_le_spec(x),
{
    let b = [x as u8, (x >> 8u32) as u8, (x >> 16u32) as u8, (x >> 24u32) as u8];
    assert(b@ =~= u32_le_spec(x));
    b
}

/// The four big-endian bytes of `x`.
pub open spec fn u32_be_spec(x: u32) -> Seq<u8> {
    seq![(x >> 24u32) as u8, (x >> 16u32) as u8, (x >> 8u32) as u8, x as u8]
}

/// `u32::to_be_bytes`.
pub fn u32_to_be(x: u32) -> (b: [u8; 4])
    ensures
        b@ == u32_be_spec(x),
{
    let b = [(x >> 24u32) as u8, (x >> 16u32) as u8, (x >> 8u32) as u8, x as u8];
    assert(b@ =~= u32_be_spec(x));
    b
}

/// `u32::from_le_bytes`.
pub fn u32_from_le(b: &[u8; 4]) -> (x: u32)
    ensures
        x == le_u32_of(b@),
{
    (b[0] as u32) | ((b[1] as u32) << 8u32) | ((b[2] as u32) << 16u32) | ((b[3] as u32) << 24u32)
}

/// The eight bytes at `offset` read as a big-endian `u64`, if `value` has them.
pub open spec fn be_u64_at(value: Seq<u8>, offset: int) -> Option<u64> {
    if 0 <= offset && offset + 8 <= value.len() {
        Some(be_u64_of(value.subrange(offset, offset + 8)))
    } else {
        None
    }
}

/// `value[offset..offset + 8]` as a big-endian `u64`, or `None` if short.
pub fn be_u64(value: &[u8], offset: usize) -> (r: Option<u64>)
    requires
        offset + 8 <= usize::MAX,
    ensures
        r == be_u64_at(value@, offset as int),
{
    if offset + 8 > value.len() {
        return None;
    }
    let s = value;
    let o = offset;
    let r = ((s[o] as u64) << 56u64) | ((s[o + 1] as u64) << 48u64) | ((s[o + 2] as u64) << 40u64)
        | ((s[o + 3] as u64) << 32u64) | ((s[o + 4] as u64) << 24u64) | ((s[o + 5] as u64) << 16u64)
        | ((s[o + 6] as u64) << 8u64) | (s[o + 7] as u64);
    let ghost sub = value@.subrange(offset as int, offset + 8);
    assert(sub[0] == s@[o as int] && sub[1] == s@[o + 1] && sub[2] == s@[o + 2] && sub[3] == s@[o + 3]
        && sub[4] == s@[o + 4] && sub[5] == s@[o + 5] && sub[6] == s@[o + 6] && sub[7] == s@[o + 7]);
    Some(r)
}

/// Append the big-endian bytes of `x` to `v`.
pub fn push_u64_be(v: &mut Vec<u8>, x: u64)
    ensures
        final(v)@ == old(v)@ + u64_be_spec(x),
{
    let b = u64_to_be(x);
    let ghost start = v@;
    let mut i: usize = 0;
    while i < 8
        invariant
            i <= 8,
            b@ == u64_be_spec(x),
            v@ == start + b@.take(i as int),
        decreases 8 - i,
    {
        v.push(b[i]);
        assert(b@.take(i + 1) =~= b@.take(i as int).push(b@[i as int]));
        i += 1;
    }
    assert(b@.take(8) =~= b@);
}

/// Append all of `s` to `v`.
pub fn push_bytes(v: &mut Vec<u8>, s: &[u8])
    ensures
        final(v)@ == old(v)@ + s@,
{
    let ghost start = v@;
    let n = s.len();
    let mut i: usize = 0;
    while i < n
        invariant
            n == s@.len(),
            i <= n,
            v@ == start + s@.take(i as int),
        decreases n - i,
    {
        v.push(s[i]);
        assert(s@.take(i + 1) =~= s@.take(i as int).push(s@[i as int]));
        i += 1;
    }
    assert(s@.take(n as int) =~= s@);
}

} // verus!
