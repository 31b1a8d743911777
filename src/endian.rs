use vstd::prelude::*;

verus! {

/// Big-endian bytes of a 32-bit integer.
pub open spec fn be32(x: u32) -> Seq<u8> {
    seq![(x >> 24u32) as u8, (x >> 16u32) as u8, (x >> 8u32) as u8, x as u8]
}

/// Big-endian bytes of a 16-bit integer.
pub open spec fn be16(x: u16) -> Seq<u8> {
    seq![(x >> 8u16) as u8, x as u8]
}

/// Big-endian bytes of a 64-bit integer.
pub open spec fn be64(x: u64) -> Seq<u8> {
    seq![
        (x >> 56u64) as u8,
        (x >> 48u64) as u8,
        (x >> 40u64) as u8,
        (x >> 32u64) as u8,
        (x >> 24u64) as u8,
        (x >> 16u64) as u8,
        (x >> 8u64) as u8,
        x as u8,
    ]
}

/// The 32-bit integer stored big-endian at `s[i..i + 4]`.
pub open spec fn read_be32(s: Seq<u8>, i: int) -> u32 {
    join32(s[i], s[i + 1], s[i + 2], s[i + 3])
}

pub open spec fn join32(a: u8, b: u8, c: u8, d: u8) -> u32 {
    ((a as u32) << 24u32) | ((b as u32) << 16u32) | ((c as u32) << 8u32) | (d as u32)
}

/// The 16-bit integer stored big-endian at `s[i..i + 2]`.
pub open spec fn read_be16(s: Seq<u8>, i: int) -> u16 {
    (((s[i] as u16) << 8u16) | (s[i + 1] as u16)) as u16
}

/// The 64-bit integer stored big-endian at `s[i..i + 8]`.
pub open spec fn read_be64(s: Seq<u8>, i: int) -> u64 {
    (((read_be32(s, i) as u64) << 32u64) | (read_be32(s, i + 4) as u64)) as u64
}

pub proof fn lemma_be32_round_trip(x: u32)
    ensures
        read_be32(be32(x), 0) == x,
{
    let s = be32(x);
    assert(join32((x >> 24u32) as u8, (x >> 16u32) as u8, (x >> 8u32) as u8, x as u8) == x)
        by (bit_vector);
}

pub proof fn lemma_be16_round_trip(x: u16)
    ensures
        read_be16(be16(x), 0) == x,
{
    assert(((((x >> 8u16) as u8) as u16) << 8u16) | ((x as u8) as u16) == x) by (bit_vector);
}

pub proof fn lemma_be32_at(s: Seq<u8>, i: int, x: u32)
    requires
        0 <= i,
        i + 4 <= s.len(),
        s.subrange(i, i + 4) == be32(x),
    ensures
        read_be32(s, i) == x,
{
    assert(s[i] == be32(x)[0]);
    assert(s[i + 1] == be32(x)[1]);
    assert(s[i + 2] == be32(x)[2]);
    assert(s[i + 3] == be32(x)[3]);
    lemma_be32_round_trip(x);
}

pub proof fn lemma_be16_at(s: Seq<u8>, i: int, x: u16)
    requires
        0 <= i,
        i + 2 <= s.len(),
        s.subrange(i, i + 2) == be16(x),
    ensures
        read_be16(s, i) == x,
{
    assert(s[i] == be16(x)[0]);
    assert(s[i + 1] == be16(x)[1]);
    lemma_be16_round_trip(x);
}

/// Appends the big-endian bytes of `x`.
pub fn push_be32(out: &mut Vec<u8>, x: u32)
    ensures
        final(out)@ == old(out)@ + be32(x),
{
    out.push((x >> 24u32) as u8);
    out.push((x >> 16u32) as u8);
    out.push((x >> 8u32) as u8);
    out.push(x as u8);
    assert(final(out)@ =~= old(out)@ + be32(x));
}

/// Appends the big-endian bytes of `x`.
pub fn push_be16(out: &mut Vec<u8>, x: u16)
    ensures
        final(out)@ == old(out)@ + be16(x),
{
    out.push((x >> 8u16) as u8);
    out.push(x as u8);
    assert(final(out)@ =~= old(out)@ + be16(x));
}

/// Appends the big-endian bytes of `x`.
pub fn push_be64(out: &mut Vec<u8>, x: u64)
    ensures
        final(out)@ == old(out)@ + be64(x),
{
    out.push((x >> 56u64) as u8);
    out.push((x >> 48u64) as u8);
    out.push((x >> 40u64) as u8);
    out.push((x >> 32u64) as u8);
    out.push((x >> 24u64) as u8);
    out.push((x >> 16u64) as u8);
    out.push((x >> 8u64) as u8);
    out.push(x as u8);
    assert(final(out)@ =~= old(out)@ + be64(x));
}

/// Appends all of `src`.
pub fn push_all(out: &mut Vec<u8>, src: &[u8])
    ensures
        final(out)@ == old(out)@ + src@,
{
    let mut i: usize = 0;
    while i < src.len()
        invariant
            i <= src@.len(),
            out@ == old(out)@ + src@.subrange(0, i as int),
        decreases src@.len() - i,
    {
        out.push(src[i]);
        i = i + 1;
        assert(out@ =~= old(out)@ + src@.subrange(0, i as int));
    }
    assert(src@.subrange(0, i as int) =~= src@);
}

/// Copies `s[start..end]` into a new vector.
pub fn copy_range(s: &[u8], start: usize, end: usize) -> (r: Vec<u8>)
    requires
        start <= end <= s@.len(),
    ensures
        r@ == s@.subrange(start as int, end as int),
{
    let mut r: Vec<u8> = Vec::new();
    let mut i: usize = start;
    while i < end
        invariant
            start <= i <= end <= s@.len(),
            r@ == s@.subrange(start as int, i as int),
        decreases end - i,
    {
        r.push(s[i]);
        i = i + 1;
        assert(r@ =~= s@.subrange(start as int, i as int));
    }
    r
}

/// The 32-bit integer stored big-endian at `s[i..i + 4]`.
pub fn get_be32(s: &[u8], i: usize) -> (r: u32)
    requires
        i + 4 <= s@.len(),
    ensures
        r == read_be32(s@, i as int),
{
    ((s[i] as u32) << 24u32) | ((s[i + 1] as u32) << 16u32) | ((s[i + 2] as u32) << 8u32) | (
    s[i + 3] as u32)
}

/// The 16-bit integer stored big-endian at `s[i..i + 2]`.
pub fn get_be16(s: &[u8], i: usize) -> (r: u16)
    requires
        i + 2 <= s@.len(),
    ensures
        r == read_be16(s@, i as int),
{
    ((s[i] as u16) << 8u16) | (s[i + 1] as u16)
}

/// The 64-bit integer stored big-endian at `s[i..i + 8]`.
pub fn get_be64(s: &[u8], i: usize) -> (r: u64)
    requires
        i + 8 <= s@.len(),
        i + 8 <= usize::MAX,
    ensures
        r == read_be64(s@, i as int),
{
    let hi = get_be32(s, i);
    let lo = get_be32(s, i + 4);
    ((hi as u64) << 32u64) | (lo as u64)
}

} // verus!
