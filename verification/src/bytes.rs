use vstd::prelude::*;

verus! {

/// The big-endian byte at position `j` (0 is the most significant) of `x`.
pub open spec fn spec_u64_byte(x: u64, j: int) -> u8 {
    (x >> (((7 - j) * 8) as u64)) as u8
}

/// The eight bytes of `x`, most significant first.
pub open spec fn spec_u64_to_be_bytes(x: u64) -> Seq<u8> {
    Seq::new(8, |j: int| spec_u64_byte(x, j))
}

/// The unsigned 64-bit value read big-endian from an 8-byte sequence.
pub open spec fn spec_u64_from_be_bytes(s: Seq<u8>) -> u64
    recommends
        s.len() == 8,
{
    (((s[0] as u64) << 56u64) | ((s[1] as u64) << 48u64) | ((s[2] as u64) << 40u64)
        | ((s[3] as u64) << 32u64) | ((s[4] as u64) << 24u64) | ((s[5] as u64) << 16u64)
        | ((s[6] as u64) << 8u64) | (s[7] as u64)) as u64
}

/// Reading the eight big-endian bytes of a value gives the value back.
pub proof fn lemma_u64_be_bytes_round_trip(x: u64)
    ensures
        spec_u64_from_be_bytes(spec_u64_to_be_bytes(x)) == x,
{
    let s = spec_u64_to_be_bytes(x);
    assert(((((x >> 56u64) as u8) as u64) << 56u64) | ((((x >> 48u64) as u8) as u64) << 48u64)
        | ((((x >> 40u64) as u8) as u64) << 40u64) | ((((x >> 32u64) as u8) as u64) << 32u64)
        | ((((x >> 24u64) as u8) as u64) << 24u64) | ((((x >> 16u64) as u8) as u64) << 16u64)
        | ((((x >> 8u64) as u8) as u64) << 8u64) | (((x >> 0u64) as u8) as u64) == x)
        by (bit_vector);
    assert(s[0] == (x >> 56u64) as u8);
    assert(s[1] == (x >> 48u64) as u8);
    assert(s[2] == (x >> 40u64) as u8);
    assert(s[3] == (x >> 32u64) as u8);
    assert(s[4] == (x >> 24u64) as u8);
    assert(s[5] == (x >> 16u64) as u8);
    assert(s[6] == (x >> 8u64) as u8);
    assert(s[7] == (x >> 0u64) as u8);
}

/// Appends the eight big-endian bytes of `x` to `out`.
pub fn push_u64_be_bytes(out: &mut Vec<u8>, x: u64)
    ensures
        final(out)@ == old(out)@ + spec_u64_to_be_bytes(x),
{
    out.push((x >> 56u64) as u8);
    out.push((x >> 48u64) as u8);
    out.push((x >> 40u64) as u8);
    out.push((x >> 32u64) as u8);
    out.push((x >> 24u64) as u8);
    out.push((x >> 16u64) as u8);
    out.push((x >> 8u64) as u8);
    out.push(x as u8);
    proof {
        assert(x as u8 == (x >> 0u64) as u8) by (bit_vector);
        assert(final(out)@ =~= old(out)@ + spec_u64_to_be_bytes(x));
    }
}

/// Reads an unsigned 64-bit value, big-endian, from `buf` starting at `at`.
pub fn read_u64_be_bytes(buf: &[u8], at: usize) -> (r: u64)
    requires
        at + 8 <= buf@.len(),
    ensures
        r == spec_u64_from_be_bytes(buf@.subrange(at as int, at + 8)),
{
    let n = buf.len();
    proof {
        assert(at + 8 <= n);
    }
    let b0 = *vstd::slice::slice_index_get(buf, at);
    let b1 = *vstd::slice::slice_index_get(buf, at + 1);
    let b2 = *vstd::slice::slice_index_get(buf, at + 2);
    let b3 = *vstd::slice::slice_index_get(buf, at + 3);
    let b4 = *vstd::slice::slice_index_get(buf, at + 4);
    let b5 = *vstd::slice::slice_index_get(buf, at + 5);
    let b6 = *vstd::slice::slice_index_get(buf, at + 6);
    let b7 = *vstd::slice::slice_index_get(buf, at + 7);
    let r: u64 = ((b0 as u64) << 56u64) | ((b1 as u64) << 48u64) | ((b2 as u64) << 40u64)
        | ((b3 as u64) << 32u64) | ((b4 as u64) << 24u64) | ((b5 as u64) << 16u64)
        | ((b6 as u64) << 8u64) | (b7 as u64);
    proof {
        let s = buf@.subrange(at as int, at + 8);
        assert(s[0] == b0 && s[1] == b1 && s[2] == b2 && s[3] == b3 && s[4] == b4 && s[5] == b5
            && s[6] == b6 && s[7] == b7);
    }
    r
}

/// Appends a copy of `src` to `out`.
pub fn push_bytes(out: &mut Vec<u8>, src: &[u8])
    ensures
        final(out)@ == old(out)@ + src@,
{
    let n = src.len();
    let mut i: usize = 0;
    while i < n
        invariant
            i <= n,
            n == src@.len(),
            out@ == old(out)@ + src@.subrange(0, i as int),
        decreases n - i,
    {
        out.push(*vstd::slice::slice_index_get(src, i));
        proof {
            assert(old(out)@ + src@.subrange(0, i + 1) =~= (old(out)@ + src@.subrange(0, i as int)).push(src@[i as int]));
        }
        i = i + 1;
    }
    proof {
        assert(src@.subrange(0, n as int) =~= src@);
    }
}

/// Copies `src` into a fresh buffer.
pub fn copy_bytes(src: &[u8]) -> (r: Vec<u8>)
    ensures
        r@ == src@,
{
    let r = copy_range(src, 0, src.len());
    proof {
        assert(src@.subrange(0, src@.len() as int) =~= src@);
    }
    r
}

/// Copies the bytes of `buf` from position `from` (inclusive) to position
/// `to` (exclusive) into a fresh buffer.
pub fn copy_range(buf: &[u8], from: usize, to: usize) -> (r: Vec<u8>)
    requires
        from <= to <= buf@.len(),
    ensures
        r@ == buf@.subrange(from as int, to as int),
{
    let mut r: Vec<u8> = Vec::new();
    let mut i: usize = from;
    while i < to
        invariant
            from <= i <= to <= buf@.len(),
            r@ == buf@.subrange(from as int, i as int),
        decreases to - i,
    {
        r.push(*vstd::slice::slice_index_get(buf, i));
        proof {
            assert(buf@.subrange(from as int, i + 1) =~= buf@.subrange(from as int, i as int).push(buf@[i as int]));
        }
        i = i + 1;
    }
    r
}

} // verus!
