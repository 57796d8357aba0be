//! Fixed-width integer encodings: big endian on the client wire, little
//! endian in the changelog. Readers advance a `&[u8]` cursor the way a
//! byte buffer does; writers append to a `Vec<u8>`.

use vstd::prelude::*;

verus! {

// ---------------------------------------------------------------------
// Big endian
// ---------------------------------------------------------------------

/// The four bytes of `v`, most significant first.
pub open spec fn be_u32(v: u32) -> Seq<u8> {
    seq![(v >> 24u32) as u8, (v >> 16u32) as u8, (v >> 8u32) as u8, v as u8]
}

/// The eight bytes of `v`, most significant first.
pub open spec fn be_u64(v: u64) -> Seq<u8> {
    seq![
        (v >> 56u64) as u8,
        (v >> 48u64) as u8,
        (v >> 40u64) as u8,
        (v >> 32u64) as u8,
        (v >> 24u64) as u8,
        (v >> 16u64) as u8,
        (v >> 8u64) as u8,
        v as u8,
    ]
}

/// Two's-complement big-endian encoding of an `i32`.
pub open spec fn be_i32(v: i32) -> Seq<u8> {
    be_u32(v as u32)
}

/// Two's-complement big-endian encoding of an `i64`.
pub open spec fn be_i64(v: i64) -> Seq<u8> {
    be_u64(v as u64)
}

/// The `u32` whose big-endian encoding is the first four bytes of `s`.
pub open spec fn u32_of_be(s: Seq<u8>) -> u32 {
    ((s[0] as u32) << 24u32) | ((s[1] as u32) << 16u32) | ((s[2] as u32) << 8u32) | (s[3] as u32)
}

/// The `u64` whose big-endian encoding is the first eight bytes of `s`.
pub open spec fn u64_of_be(s: Seq<u8>) -> u64 {
    ((s[0] as u64) << 56u64) | ((s[1] as u64) << 48u64) | ((s[2] as u64) << 40u64) | ((
    s[3] as u64) << 32u64) | ((s[4] as u64) << 24u64) | ((s[5] as u64) << 16u64) | ((
    s[6] as u64) << 8u64) | (s[7] as u64)
}

/// The `i32` whose two's-complement big-endian encoding starts `s`.
pub open spec fn i32_of_be(s: Seq<u8>) -> i32 {
    u32_of_be(s) as i32
}

/// The `i64` whose two's-complement big-endian encoding starts `s`.
pub open spec fn i64_of_be(s: Seq<u8>) -> i64 {
    u64_of_be(s) as i64
}

// ---------------------------------------------------------------------
// Little endian
// ---------------------------------------------------------------------

/// The four bytes of `v`, least significant first.
pub open spec fn le_u32(v: u32) -> Seq<u8> {
    seq![v as u8, (v >> 8u32) as u8, (v >> 16u32) as u8, (v >> 24u32) as u8]
}

/// The eight bytes of `v`, least significant first.
pub open spec fn le_u64(v: u64) -> Seq<u8> {
    seq![
        v as u8,
        (v >> 8u64) as u8,
        (v >> 16u64) as u8,
        (v >> 24u64) as u8,
        (v >> 32u64) as u8,
        (v >> 40u64) as u8,
        (v >> 48u64) as u8,
        (v >> 56u64) as u8,
    ]
}

/// The sixteen bytes of `v`, least significant first.
pub open spec fn le_u128(v: u128) -> Seq<u8> {
    le_u64(v as u64) + le_u64((v >> 64u128) as u64)
}

/// The `u32` whose little-endian encoding is the first four bytes of `s`.
pub open spec fn u32_of_le(s: Seq<u8>) -> u32 {
    (s[0] as u32) | ((s[1] as u32) << 8u32) | ((s[2] as u32) << 16u32) | ((s[3] as u32) << 24u32)
}

/// The `u64` whose little-endian encoding is the first eight bytes of `s`.
pub open spec fn u64_of_le(s: Seq<u8>) -> u64 {
    (s[0] as u64) | ((s[1] as u64) << 8u64) | ((s[2] as u64) << 16u64) | ((s[3] as u64)
        << 24u64) | ((s[4] as u64) << 32u64) | ((s[5] as u64) << 40u64) | ((s[6] as u64)
        << 48u64) | ((s[7] as u64) << 56u64)
}

/// The `u128` whose little-endian encoding is the first sixteen bytes of `s`.
pub open spec fn u128_of_le(s: Seq<u8>) -> u128 {
    (u64_of_le(s) as u128) | ((u64_of_le(s.subrange(8, 16)) as u128) << 64u128)
}

// ---------------------------------------------------------------------
// Round trips
// ---------------------------------------------------------------------

proof fn lemma_u32_be_parts(v: u32)
    ensures
        ((((v >> 24u32) as u8) as u32) << 24u32) | ((((v >> 16u32) as u8) as u32) << 16u32) | ((((
        v >> 8u32) as u8) as u32) << 8u32) | ((v as u8) as u32) == v,
{
    assert(((((v >> 24u32) as u8) as u32) << 24u32) | ((((v >> 16u32) as u8) as u32) << 16u32)
        | ((((v >> 8u32) as u8) as u32) << 8u32) | ((v as u8) as u32) == v) by (bit_vector);
}

/// Reading back a big-endian `u32` gives the value written.
pub proof fn lemma_be_u32_round_trip(v: u32)
    ensures
        u32_of_be(be_u32(v)) == v,
{
    lemma_u32_be_parts(v);
}

/// Reading back a big-endian `i32` gives the value written.
pub proof fn lemma_be_i32_round_trip(v: i32)
    ensures
        i32_of_be(be_i32(v)) == v,
{
    lemma_u32_be_parts(v as u32);
    assert(((v as u32) as i32) == v) by (bit_vector);
}

proof fn lemma_u64_be_parts(v: u64)
    ensures
        ((((v >> 56u64) as u8) as u64) << 56u64) | ((((v >> 48u64) as u8) as u64) << 48u64) | ((((
        v >> 40u64) as u8) as u64) << 40u64) | ((((v >> 32u64) as u8) as u64) << 32u64) | ((((v
            >> 24u64) as u8) as u64) << 24u64) | ((((v >> 16u64) as u8) as u64) << 16u64) | ((((v
            >> 8u64) as u8) as u64) << 8u64) | ((v as u8) as u64) == v,
{
    assert(((((v >> 56u64) as u8) as u64) << 56u64) | ((((v >> 48u64) as u8) as u64) << 48u64)
        | ((((v >> 40u64) as u8) as u64) << 40u64) | ((((v >> 32u64) as u8) as u64) << 32u64) | ((((
        v >> 24u64) as u8) as u64) << 24u64) | ((((v >> 16u64) as u8) as u64) << 16u64) | ((((v
        >> 8u64) as u8) as u64) << 8u64) | ((v as u8) as u64) == v) by (bit_vector);
}

/// Reading back a big-endian `i64` gives the value written.
pub proof fn lemma_be_i64_round_trip(v: i64)
    ensures
        i64_of_be(be_i64(v)) == v,
{
    lemma_u64_be_parts(v as u64);
    assert(((v as u64) as i64) == v) by (bit_vector);
}

/// Reading back a little-endian `u32` gives the value written.
pub proof fn lemma_le_u32_round_trip(v: u32)
    ensures
        u32_of_le(le_u32(v)) == v,
{
    assert(((v as u8) as u32) | ((((v >> 8u32) as u8) as u32) << 8u32) | ((((v >> 16u32) as u8)
        as u32) << 16u32) | ((((v >> 24u32) as u8) as u32) << 24u32) == v) by (bit_vector);
}

/// Reading back a little-endian `u64` gives the value written.
pub proof fn lemma_le_u64_round_trip(v: u64)
    ensures
        u64_of_le(le_u64(v)) == v,
{
    assert(((v as u8) as u64) | ((((v >> 8u64) as u8) as u64) << 8u64) | ((((v >> 16u64) as u8)
        as u64) << 16u64) | ((((v >> 24u64) as u8) as u64) << 24u64) | ((((v >> 32u64) as u8)
        as u64) << 32u64) | ((((v >> 40u64) as u8) as u64) << 40u64) | ((((v >> 48u64) as u8)
        as u64) << 48u64) | ((((v >> 56u64) as u8) as u64) << 56u64) == v) by (bit_vector);
}

/// Reading back a little-endian `u128` gives the value written.
pub proof fn lemma_le_u128_round_trip(v: u128)
    ensures
        u128_of_le(le_u128(v)) == v,
{
    let lo = v as u64;
    let hi = (v >> 64u128) as u64;
    lemma_le_u64_round_trip(lo);
    lemma_le_u64_round_trip(hi);
    assert(le_u128(v).subrange(8, 16) =~= le_u64(hi));
    assert(u64_of_le(le_u128(v)) == u64_of_le(le_u64(lo)));
    assert(((v as u64) as u128) | ((((v >> 64u128) as u64) as u128) << 64u128) == v)
        by (bit_vector);
}

// ---------------------------------------------------------------------
// Writers
// ---------------------------------------------------------------------

/// Appends the big-endian encoding of `v`.
pub fn put_u32_be(buf: &mut Vec<u8>, v: u32)
    ensures
        final(buf)@ == old(buf)@ + be_u32(v),
{
    buf.push((v >> 24u32) as u8);
    buf.push((v >> 16u32) as u8);
    buf.push((v >> 8u32) as u8);
    buf.push(v as u8);
}

/// Appends the big-endian encoding of `v`.
pub fn put_u64_be(buf: &mut Vec<u8>, v: u64)
    ensures
        final(buf)@ == old(buf)@ + be_u64(v),
{
    buf.push((v >> 56u64) as u8);
    buf.push((v >> 48u64) as u8);
    buf.push((v >> 40u64) as u8);
    buf.push((v >> 32u64) as u8);
    buf.push((v >> 24u64) as u8);
    buf.push((v >> 16u64) as u8);
    buf.push((v >> 8u64) as u8);
    buf.push(v as u8);
}

/// Appends the two's-complement big-endian encoding of `v`.
pub fn put_i32_be(buf: &mut Vec<u8>, v: i32)
    ensures
        final(buf)@ == old(buf)@ + be_i32(v),
{
    put_u32_be(buf, v as u32);
}

/// Appends the two's-complement big-endian encoding of `v`.
pub fn put_i64_be(buf: &mut Vec<u8>, v: i64)
    ensures
        final(buf)@ == old(buf)@ + be_i64(v),
{
    put_u64_be(buf, v as u64);
}

/// Appends every byte of `src`.
pub fn put_bytes(buf: &mut Vec<u8>, src: &[u8])
    ensures
        final(buf)@ == old(buf)@ + src@,
{
    let n = src.len();
    for i in 0..n
        invariant
            n == src@.len(),
            buf@ == old(buf)@ + src@.subrange(0, i as int),
    {
        buf.push(src[i]);
        assert(src@.subrange(0, i + 1) =~= src@.subrange(0, i as int).push(src@[i as int]));
    }
    assert(src@.subrange(0, n as int) =~= src@);
}

/// The little-endian encoding of `v` as a vector.
pub fn le_u32_bytes(v: u32) -> (r: Vec<u8>)
    ensures
        r@ == le_u32(v),
{
    let mut r = Vec::new();
    r.push(v as u8);
    r.push((v >> 8u32) as u8);
    r.push((v >> 16u32) as u8);
    r.push((v >> 24u32) as u8);
    assert(r@ =~= le_u32(v));
    r
}

/// The little-endian encoding of `v` as a vector.
pub fn le_u64_bytes(v: u64) -> (r: Vec<u8>)
    ensures
        r@ == le_u64(v),
{
    let mut r = Vec::new();
    r.push(v as u8);
    r.push((v >> 8u64) as u8);
    r.push((v >> 16u64) as u8);
    r.push((v >> 24u64) as u8);
    r.push((v >> 32u64) as u8);
    r.push((v >> 40u64) as u8);
    r.push((v >> 48u64) as u8);
    r.push((v >> 56u64) as u8);
    assert(r@ =~= le_u64(v));
    r
}

/// The little-endian encoding of `v` as a vector.
pub fn le_u128_bytes(v: u128) -> (r: Vec<u8>)
    ensures
        r@ == le_u128(v),
{
    let mut r = le_u64_bytes(v as u64);
    let hi = le_u64_bytes((v >> 64u128) as u64);
    put_bytes(&mut r, hi.as_slice());
    r
}

// ---------------------------------------------------------------------
// Readers
// ---------------------------------------------------------------------

/// Reads a big-endian `i32` at the cursor and advances past it.
pub fn get_i32(buf: &mut &[u8]) -> (r: i32)
    requires
        old(buf)@.len() >= 4,
    ensures
        r == i32_of_be(old(buf)@),
        final(buf)@ == old(buf)@.skip(4),
{
    let s: &[u8] = *buf;
    let u = ((s[0] as u32) << 24u32) | ((s[1] as u32) << 16u32) | ((s[2] as u32) << 8u32) | (
    s[3] as u32);
    *buf = &s[4..s.len()];
    u as i32
}

/// Reads a big-endian `i64` at the cursor and advances past it.
pub fn get_i64(buf: &mut &[u8]) -> (r: i64)
    requires
        old(buf)@.len() >= 8,
    ensures
        r == i64_of_be(old(buf)@),
        final(buf)@ == old(buf)@.skip(8),
{
    let s: &[u8] = *buf;
    let u = ((s[0] as u64) << 56u64) | ((s[1] as u64) << 48u64) | ((s[2] as u64) << 40u64) | ((
    s[3] as u64) << 32u64) | ((s[4] as u64) << 24u64) | ((s[5] as u64) << 16u64) | ((
    s[6] as u64) << 8u64) | (s[7] as u64);
    *buf = &s[8..s.len()];
    u as i64
}

/// Reads one byte at the cursor and advances past it.
pub fn get_u8(buf: &mut &[u8]) -> (r: u8)
    requires
        old(buf)@.len() >= 1,
    ensures
        r == old(buf)@[0],
        final(buf)@ == old(buf)@.skip(1),
{
    let s: &[u8] = *buf;
    let r = s[0];
    *buf = &s[1..s.len()];
    r
}

/// Advances the cursor past `n` bytes.
pub fn advance(buf: &mut &[u8], n: usize)
    requires
        n <= old(buf)@.len(),
    ensures
        final(buf)@ == old(buf)@.skip(n as int),
{
    let s: &[u8] = *buf;
    *buf = &s[n..s.len()];
}

/// Reads a little-endian `u32` at offset `off` of `s`.
pub fn read_u32_le(s: &[u8], off: usize) -> (r: u32)
    requires
        off + 4 <= s@.len(),
    ensures
        r == u32_of_le(s@.subrange(off as int, off + 4)),
{
    (s[off] as u32) | ((s[off + 1] as u32) << 8u32) | ((s[off + 2] as u32) << 16u32) | ((s[off
        + 3] as u32) << 24u32)
}

/// Reads a little-endian `u64` at offset `off` of `s`.
pub fn read_u64_le(s: &[u8], off: usize) -> (r: u64)
    requires
        off + 8 <= s@.len(),
    ensures
        r == u64_of_le(s@.subrange(off as int, off + 8)),
{
    (s[off] as u64) | ((s[off + 1] as u64) << 8u64) | ((s[off + 2] as u64) << 16u64) | ((s[off
        + 3] as u64) << 24u64) | ((s[off + 4] as u64) << 32u64) | ((s[off + 5] as u64) << 40u64)
        | ((s[off + 6] as u64) << 48u64) | ((s[off + 7] as u64) << 56u64)
}

/// Reads a little-endian `u128` at offset `off` of `s`.
pub fn read_u128_le(s: &[u8], off: usize) -> (r: u128)
    requires
        off + 16 <= s@.len(),
    ensures
        r == u128_of_le(s@.subrange(off as int, off + 16)),
{
    let _n = s.len();
    let lo = read_u64_le(s, off);
    let hi = read_u64_le(s, off + 8);
    assert(s@.subrange(off as int, off + 16).subrange(8, 16) =~= s@.subrange(off + 8, off + 16));
    assert(s@.subrange(off as int, off + 16).subrange(0, 8) =~= s@.subrange(off as int, off + 8));
    (lo as u128) | ((hi as u128) << 64u128)
}

} // verus!
