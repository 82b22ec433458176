//! Big-endian byte encodings of the fixed-width integers used by the file
//! format: the `u32` frame length prefix, the `u64` write-offset header, and
//! the scalar record values.

use vstd::prelude::*;

verus! {

/// The four big-endian bytes of a `u32`.
pub open spec fn u32_be(x: u32) -> Seq<u8> {
    seq![(x >> 24) as u8, (x >> 16) as u8, (x >> 8) as u8, x as u8]
}

/// The `u32` read from four big-endian bytes.
pub open spec fn be_u32(s: Seq<u8>) -> u32
    recommends
        s.len() == 4,
{
    (((s[0] as u32) << 24) | ((s[1] as u32) << 16) | ((s[2] as u32) << 8) | (s[3] as u32)) as u32
}

/// The eight big-endian bytes of a `u64`.
pub open spec fn u64_be(x: u64) -> Seq<u8> {
    seq![
        (x >> 56) as u8,
        (x >> 48) as u8,
        (x >> 40) as u8,
        (x >> 32) as u8,
        (x >> 24) as u8,
        (x >> 16) as u8,
        (x >> 8) as u8,
        x as u8,
    ]
}

/// The `u64` read from eight big-endian bytes.
pub open spec fn be_u64(s: Seq<u8>) -> u64
    recommends
        s.len() == 8,
{
    (((s[0] as u64) << 56) | ((s[1] as u64) << 48) | ((s[2] as u64) << 40) | ((s[3] as u64) << 32)
        | ((s[4] as u64) << 24) | ((s[5] as u64) << 16) | ((s[6] as u64) << 8) | (
    s[7] as u64)) as u64
}

/// Reading back the four bytes of a `u32` gives the value written.
pub broadcast proof fn lemma_u32_be_roundtrip(x: u32)
    ensures
        #[trigger] be_u32(u32_be(x)) == x,
{
    assert(((((x >> 24) as u8 as u32) << 24) | (((x >> 16) as u8 as u32) << 16) | (((x
        >> 8) as u8 as u32) << 8) | (x as u8 as u32)) as u32 == x) by (bit_vector);
}

/// Reading back the eight bytes of a `u64` gives the value written.
pub broadcast proof fn lemma_u64_be_roundtrip(x: u64)
    ensures
        #[trigger] be_u64(u64_be(x)) == x,
{
    assert(((((x >> 56) as u8 as u64) << 56) | (((x >> 48) as u8 as u64) << 48) | (((x
        >> 40) as u8 as u64) << 40) | (((x >> 32) as u8 as u64) << 32) | (((x >> 24) as u8
        as u64) << 24) | (((x >> 16) as u8 as u64) << 16) | (((x >> 8) as u8 as u64) << 8) | (
    x as u8 as u64)) as u64 == x) by (bit_vector);
}

/// The four big-endian bytes of an `i32`, two's complement.
pub open spec fn i32_be(x: i32) -> Seq<u8> {
    u32_be(x as u32)
}

/// The `i32` read from four big-endian bytes.
pub open spec fn be_i32(s: Seq<u8>) -> i32
    recommends
        s.len() == 4,
{
    be_u32(s) as i32
}

/// The eight big-endian bytes of an `i64`, two's complement.
pub open spec fn i64_be(x: i64) -> Seq<u8> {
    u64_be(x as u64)
}

/// The `i64` read from eight big-endian bytes.
pub open spec fn be_i64(s: Seq<u8>) -> i64
    recommends
        s.len() == 8,
{
    be_u64(s) as i64
}

/// Reading back the four bytes of an `i32` gives the value written.
pub broadcast proof fn lemma_i32_be_roundtrip(x: i32)
    ensures
        #[trigger] be_i32(i32_be(x)) == x,
{
    lemma_u32_be_roundtrip(x as u32);
    assert(x as u32 as i32 == x) by (bit_vector);
}

/// Reading back the eight bytes of an `i64` gives the value written.
pub broadcast proof fn lemma_i64_be_roundtrip(x: i64)
    ensures
        #[trigger] be_i64(i64_be(x)) == x,
{
    lemma_u64_be_roundtrip(x as u64);
    assert(x as u64 as i64 == x) by (bit_vector);
}

/// Appends the four big-endian bytes of `x` to `out`.
pub fn push_u32_be(out: &mut Vec<u8>, x: u32)
    ensures
        final(out)@ == old(out)@ + u32_be(x),
{
    out.push((x >> 24) as u8);
    out.push((x >> 16) as u8);
    out.push((x >> 8) as u8);
    out.push(x as u8);
    assert(out@ =~= old(out)@ + u32_be(x));
}

/// Appends the eight big-endian bytes of `x` to `out`.
pub fn push_u64_be(out: &mut Vec<u8>, x: u64)
    ensures
        final(out)@ == old(out)@ + u64_be(x),
{
    out.push((x >> 56) as u8);
    out.push((x >> 48) as u8);
    out.push((x >> 40) as u8);
    out.push((x >> 32) as u8);
    out.push((x >> 24) as u8);
    out.push((x >> 16) as u8);
    out.push((x >> 8) as u8);
    out.push(x as u8);
    assert(out@ =~= old(out)@ + u64_be(x));
}

/// Appends the four big-endian bytes of `x` to `out`.
pub fn push_i32_be(out: &mut Vec<u8>, x: i32)
    ensures
        final(out)@ == old(out)@ + i32_be(x),
{
    push_u32_be(out, x as u32)
}

/// Appends the eight big-endian bytes of `x` to `out`.
pub fn push_i64_be(out: &mut Vec<u8>, x: i64)
    ensures
        final(out)@ == old(out)@ + i64_be(x),
{
    push_u64_be(out, x as u64)
}

/// Appends a copy of `data` to `out`.
pub fn push_bytes(out: &mut Vec<u8>, data: &[u8])
    ensures
        final(out)@ == old(out)@ + data@,
{
    let mut i: usize = 0;
    while i < data.len()
        invariant
            i <= data@.len(),
            out@ == old(out)@ + data@.take(i as int),
        decreases data@.len() - i,
    {
        out.push(data[i]);
        proof {
            assert(out@ =~= old(out)@ + data@.take(i + 1));
        }
        i = i + 1;
    }
    assert(out@ =~= old(out)@ + data@);
}

/// Copies `data[start..end]` into a fresh vector.
pub fn copy_range(data: &[u8], start: usize, end: usize) -> (r: Vec<u8>)
    requires
        start <= end <= data@.len(),
    ensures
        r@ == data@.subrange(start as int, end as int),
{
    let mut out: Vec<u8> = Vec::new();
    push_bytes(&mut out, vstd::slice::slice_subrange(data, start, end));
    assert(out@ =~= data@.subrange(start as int, end as int));
    out
}

/// Reads a big-endian `u32` from `data[start..start + 4]`.
pub fn read_u32_be(data: &[u8], start: usize) -> (r: u32)
    requires
        start + 4 <= data@.len(),
    ensures
        r == be_u32(data@.subrange(start as int, start + 4)),
{
    let b0 = data[start];
    let b1 = data[start + 1];
    let b2 = data[start + 2];
    let b3 = data[start + 3];
    let ghost s = data@.subrange(start as int, start + 4);
    assert(s[0] == b0 && s[1] == b1 && s[2] == b2 && s[3] == b3);
    ((b0 as u32) << 24) | ((b1 as u32) << 16) | ((b2 as u32) << 8) | (b3 as u32)
}

/// Reads a big-endian `u64` from `data[start..start + 8]`.
pub fn read_u64_be(data: &[u8], start: usize) -> (r: u64)
    requires
        start + 8 <= data@.len(),
    ensures
        r == be_u64(data@.subrange(start as int, start + 8)),
{
    let b0 = data[start];
    let b1 = data[start + 1];
    let b2 = data[start + 2];
    let b3 = data[start + 3];
    let b4 = data[start + 4];
    let b5 = data[start + 5];
    let b6 = data[start + 6];
    let b7 = data[start + 7];
    let ghost s = data@.subrange(start as int, start + 8);
    assert(s[0] == b0 && s[1] == b1 && s[2] == b2 && s[3] == b3 && s[4] == b4 && s[5] == b5 && s[6]
        == b6 && s[7] == b7);
    ((b0 as u64) << 56) | ((b1 as u64) << 48) | ((b2 as u64) << 40) | ((b3 as u64) << 32) | ((
    b4 as u64) << 24) | ((b5 as u64) << 16) | ((b6 as u64) << 8) | (b7 as u64)
}

/// Reads a big-endian `i32` from `data[start..start + 4]`.
pub fn read_i32_be(data: &[u8], start: usize) -> (r: i32)
    requires
        start + 4 <= data@.len(),
    ensures
        r == be_i32(data@.subrange(start as int, start + 4)),
{
    let x = read_u32_be(data, start);
    #[verifier::truncate] (x as i32)
}

/// Reads a big-endian `i64` from `data[start..start + 8]`.
pub fn read_i64_be(data: &[u8], start: usize) -> (r: i64)
    requires
        start + 8 <= data@.len(),
    ensures
        r == be_i64(data@.subrange(start as int, start + 8)),
{
    let x = read_u64_be(data, start);
    #[verifier::truncate] (x as i64)
}

} // verus!
