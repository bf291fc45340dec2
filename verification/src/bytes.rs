//! Numbers as bytes, in both byte orders.

use vstd::prelude::*;

verus! {

/// `v` as two bytes, least significant first.
pub open spec fn le16(v: u16) -> Seq<u8> {
    seq![v as u8, (v >> 8) as u8]
}

/// `v` as four bytes, least significant first.
pub open spec fn le32(v: u32) -> Seq<u8> {
    seq![v as u8, (v >> 8) as u8, (v >> 16) as u8, (v >> 24) as u8]
}

/// `v` as two bytes, most significant first.
pub open spec fn be16(v: u16) -> Seq<u8> {
    seq![(v >> 8) as u8, v as u8]
}

/// `v` as four bytes, most significant first.
pub open spec fn be32(v: u32) -> Seq<u8> {
    seq![(v >> 24) as u8, (v >> 16) as u8, (v >> 8) as u8, v as u8]
}

/// `v` as eight bytes, most significant first.
pub open spec fn be64(v: u64) -> Seq<u8> {
    be32((v >> 32) as u32) + be32(v as u32)
}

/// The number in two bytes, least significant first.
pub open spec fn of_le16(a: u8, b: u8) -> u16 {
    (a as u16) | ((b as u16) << 8)
}

/// The number in four bytes, least significant first.
pub open spec fn of_le32(a: u8, b: u8, c: u8, d: u8) -> u32 {
    (a as u32) | ((b as u32) << 8) | ((c as u32) << 16) | ((d as u32) << 24)
}

/// The number in four bytes, most significant first.
pub open spec fn of_be32(a: u8, b: u8, c: u8, d: u8) -> u32 {
    of_le32(d, c, b, a)
}

/// The number in two bytes, most significant first.
pub open spec fn of_be16(a: u8, b: u8) -> u16 {
    of_le16(b, a)
}

/// The 16-bit little-endian number at `at`.
pub open spec fn word16(s: Seq<u8>, at: int) -> u16 {
    of_le16(s[at], s[at + 1])
}

/// The 32-bit little-endian number at `at`.
pub open spec fn word32(s: Seq<u8>, at: int) -> u32 {
    of_le32(s[at], s[at + 1], s[at + 2], s[at + 3])
}

/// `s` with `part` laid over it from `at` on.
pub open spec fn overlaid(s: Seq<u8>, at: int, part: Seq<u8>) -> Seq<u8> {
    Seq::new(
        s.len(),
        |i: int|
            if at <= i < at + part.len() {
                part[i - at]
            } else {
                s[i]
            },
    )
}

/// `n` zero bytes.
pub open spec fn zeroes(n: nat) -> Seq<u8> {
    Seq::new(n, |i: int| 0u8)
}

/// Four bytes and the number they spell determine each other.
pub proof fn lemma_word32_round_trip(v: u32)
    ensures
        of_le32(v as u8, (v >> 8) as u8, (v >> 16) as u8, (v >> 24) as u8) == v,
        (v as u8) + 0x100 * ((v >> 8) as u8) + 0x1_0000 * ((v >> 16) as u8) + 0x100_0000 * ((v
            >> 24) as u8) == v,
{
    assert(((v as u8) as u32) | (((v >> 8) as u8) as u32) << 8 | (((v >> 16) as u8) as u32) << 16
        | (((v >> 24) as u8) as u32) << 24 == v && (v as u8) + 0x100 * ((v >> 8) as u8) + 0x1_0000
        * ((v >> 16) as u8) + 0x100_0000 * ((v >> 24) as u8) == v) by (bit_vector);
}

/// Two bytes and the number they spell determine each other. The upper byte of
/// a number that one would do for is zero.
pub proof fn lemma_word16_round_trip(v: u16)
    ensures
        of_le16(v as u8, (v >> 8) as u8) == v,
        v < 0x100 ==> (v >> 8) as u8 == 0,
        (v as u8) + 0x100 * ((v >> 8) as u8) == v,
{
    assert((((v as u8) as u16) | (((v >> 8) as u8) as u16) << 8 == v) && (v < 0x100 ==> (v >> 8)
        as u8 == 0) && (v as u8) + 0x100 * ((v >> 8) as u8) == v) by (bit_vector);
}

/// Bytes spell a number with the first of them lowest, and a number is split
/// into bytes so that they spell it.
pub proof fn law_the_first_byte_is_lowest(a: u8, b: u8, c: u8, d: u8, v: u32, h: u16)
    ensures
        of_le32(a, b, c, d) == a + 0x100 * b + 0x1_0000 * c + 0x100_0000 * d,
        of_le16(a, b) == a + 0x100 * b,
        ({
            let s = le32(v);
            s.len() == 4 && s[0] + 0x100 * s[1] + 0x1_0000 * s[2] + 0x100_0000 * s[3] == v
        }),
        ({
            let s = le16(h);
            s.len() == 2 && s[0] + 0x100 * s[1] == h
        }),
        ({
            let s = be32(v);
            s.len() == 4 && s[3] + 0x100 * s[2] + 0x1_0000 * s[1] + 0x100_0000 * s[0] == v
        }),
{
    lemma_word32_round_trip(v);
    lemma_word32_round_trip(of_le32(a, b, c, d));
    lemma_word16_round_trip(h);
    lemma_word16_round_trip(of_le16(a, b));
    lemma_bytes32_round_trip(a, b, c, d);
    assert(le32(of_le32(a, b, c, d)) == seq![a, b, c, d]);
    assert(le16(of_le16(a, b)) == seq![a, b]);
    let s = seq![a, b, c, d];
    let t = le32(of_le32(a, b, c, d));
    assert(t[0] == s[0] && t[1] == s[1] && t[2] == s[2] && t[3] == s[3]);
    let u = le16(of_le16(a, b));
    assert(u[0] == seq![a, b][0] && u[1] == seq![a, b][1]);
}

/// Splitting the number that four bytes, or two, spell gives the bytes back.
pub proof fn lemma_bytes32_round_trip(a: u8, b: u8, c: u8, d: u8)
    ensures
        le32(of_le32(a, b, c, d)) == seq![a, b, c, d],
        le16(of_le16(a, b)) == seq![a, b],
{
    let v = of_le32(a, b, c, d);
    let w = of_le16(a, b);
    assert(v as u8 == a && (v >> 8) as u8 == b && (v >> 16) as u8 == c && (v >> 24) as u8 == d
        && w as u8 == a && (w >> 8) as u8 == b) by (bit_vector)
        requires
            v == (a as u32) | ((b as u32) << 8) | ((c as u32) << 16) | ((d as u32) << 24),
            w == (a as u16) | ((b as u16) << 8),
    ;
}

pub fn get16(s: &[u8], at: usize) -> (r: u16)
    requires
        at + 2 <= s.len(),
    ensures
        r == word16(s@, at as int),
{
    (s[at] as u16) | ((s[at + 1] as u16) << 8)
}

pub fn get32(s: &[u8], at: usize) -> (r: u32)
    requires
        at + 4 <= s.len(),
    ensures
        r == word32(s@, at as int),
{
    (s[at] as u32) | ((s[at + 1] as u32) << 8) | ((s[at + 2] as u32) << 16) | ((s[at + 3] as u32)
        << 24)
}

pub fn get32_be(s: &[u8], at: usize) -> (r: u32)
    requires
        at + 4 <= s.len(),
    ensures
        r == of_be32(s[at as int], s[at + 1], s[at + 2], s[at + 3]),
{
    (s[at + 3] as u32) | ((s[at + 2] as u32) << 8) | ((s[at + 1] as u32) << 16) | ((s[at] as u32)
        << 24)
}

pub fn get16_be(s: &[u8], at: usize) -> (r: u16)
    requires
        at + 2 <= s.len(),
    ensures
        r == of_be16(s[at as int], s[at + 1]),
{
    (s[at + 1] as u16) | ((s[at] as u16) << 8)
}

pub fn put16(v: &mut Vec<u8>, at: usize, x: u16)
    requires
        at + 2 <= old(v).len(),
    ensures
        final(v)@ == overlaid(old(v)@, at as int, le16(x)),
{
    v[at] = x as u8;
    v[at + 1] = (x >> 8) as u8;
}

pub fn put32(v: &mut Vec<u8>, at: usize, x: u32)
    requires
        at + 4 <= old(v).len(),
    ensures
        final(v)@ == overlaid(old(v)@, at as int, le32(x)),
{
    v[at] = x as u8;
    v[at + 1] = (x >> 8) as u8;
    v[at + 2] = (x >> 16) as u8;
    v[at + 3] = (x >> 24) as u8;
}

pub fn push16(v: &mut Vec<u8>, x: u16)
    ensures
        final(v)@ == old(v)@ + le16(x),
{
    v.push(x as u8);
    v.push((x >> 8) as u8);
}

pub fn push32(v: &mut Vec<u8>, x: u32)
    ensures
        final(v)@ == old(v)@ + le32(x),
{
    v.push(x as u8);
    v.push((x >> 8) as u8);
    v.push((x >> 16) as u8);
    v.push((x >> 24) as u8);
}

pub fn push32_be(v: &mut Vec<u8>, x: u32)
    ensures
        final(v)@ == old(v)@ + be32(x),
{
    v.push((x >> 24) as u8);
    v.push((x >> 16) as u8);
    v.push((x >> 8) as u8);
    v.push(x as u8);
}

/// `x` as four bytes, least significant first.
pub fn split32(x: u32) -> (r: [u8; 4])
    ensures
        r@ =~= le32(x),
{
    [x as u8, (x >> 8) as u8, (x >> 16) as u8, (x >> 24) as u8]
}

/// Append `n` zero bytes to `v`.
pub fn push_zeroes(v: &mut Vec<u8>, n: usize)
    ensures
        final(v)@ == old(v)@ + zeroes(n as nat),
{
    let ghost start = v@;
    let mut i: usize = 0;
    while i < n
        invariant
            i <= n,
            v@ =~= start + zeroes(i as nat),
        decreases n - i,
    {
        v.push(0);
        i = i + 1;
    }
}

/// Append `part` to `v`.
pub fn push_all(v: &mut Vec<u8>, part: &[u8])
    ensures
        final(v)@ == old(v)@ + part@,
{
    let ghost start = v@;
    let mut i: usize = 0;
    while i < part.len()
        invariant
            i <= part.len(),
            v@ =~= start + part@.take(i as int),
        decreases part.len() - i,
    {
        v.push(part[i]);
        i = i + 1;
    }
    assert(part@.take(part.len() as int) =~= part@);
}

/// Lay `part` over `v` from `at` on.
pub fn put_all(v: &mut Vec<u8>, at: usize, part: &[u8])
    requires
        at + part.len() <= old(v).len(),
    ensures
        final(v)@ == overlaid(old(v)@, at as int, part@),
{
    let ghost start = v@;
    let mut i: usize = 0;
    while i < part.len()
        invariant
            i <= part.len(),
            at + part.len() <= v.len(),
            v@ =~= overlaid(start, at as int, part@.take(i as int)),
        decreases part.len() - i,
    {
        v[at + i] = part[i];
        i = i + 1;
    }
    assert(part@.take(part.len() as int) =~= part@);
}

/// The bytes of `s` from `from` up to `to`, as a vector of their own.
pub fn copy_range(s: &[u8], from: usize, to: usize) -> (r: Vec<u8>)
    requires
        from <= to <= s.len(),
    ensures
        r@ == s@.subrange(from as int, to as int),
{
    let mut out: Vec<u8> = Vec::new();
    let mut i: usize = from;
    while i < to
        invariant
            from <= i <= to <= s.len(),
            out@ =~= s@.subrange(from as int, i as int),
        decreases to - i,
    {
        out.push(s[i]);
        i = i + 1;
    }
    out
}

/// `n` bytes, all `b`.
pub fn filled(n: usize, b: u8) -> (r: Vec<u8>)
    ensures
        r@ == Seq::new(n as nat, |i: int| b),
{
    let r: Vec<u8> = vec![b; n];
    assert(r@ =~= Seq::new(n as nat, |i: int| b));
    r
}

} // verus!
