//! Base-128 varints, as used by the record payload schema for field tags and
//! length prefixes: each byte carries seven low-order bits, least significant
//! group first, and the high bit marks a continuation. An encoded `u64` is at
//! most ten bytes, so decoding reads at most ten bytes before giving up.

use vstd::prelude::*;

verus! {

/// The varint encoding of `x`.
pub open spec fn varint(x: u64) -> Seq<u8>
    decreases x
        via varint_decreases
{
    if x < 0x80 {
        seq![x as u8]
    } else {
        seq![((x & 0x7f) | 0x80) as u8] + varint(x >> 7)
    }
}

#[via_fn]
proof fn varint_decreases(x: u64) {
    assert(x >= 0x80 ==> x >> 7 < x) by (bit_vector);
}

/// `varint_decode` unfolded with an explicit byte budget.
pub open spec fn varint_decode_rec(s: Seq<u8>, budget: nat) -> Option<(u64, int)>
    decreases budget,
{
    if budget == 0 || s.len() == 0 {
        None
    } else if s[0] < 0x80 {
        Some((s[0] as u64, 1))
    } else {
        match varint_decode_rec(s.skip(1), (budget - 1) as nat) {
            None => None,
            Some((v, n)) => if v <= (u64::MAX >> 7) {
                Some(((((v << 7) as u64) | ((s[0] & 0x7f) as u64)) as u64, n + 1))
            } else {
                None
            },
        }
    }
}

/// The value and length of the varint at the front of `s`, or `None` when no
/// complete varint fitting a `u64` starts there within ten bytes.
pub open spec fn varint_decode(s: Seq<u8>) -> Option<(u64, int)> {
    varint_decode_rec(s, 10)
}

/// A varint encoding is between one and ten bytes long.
pub proof fn lemma_varint_len(x: u64)
    ensures
        1 <= varint(x).len() <= 10,
{
    let x1 = x >> 7;
    let x2 = x1 >> 7;
    let x3 = x2 >> 7;
    let x4 = x3 >> 7;
    let x5 = x4 >> 7;
    let x6 = x5 >> 7;
    let x7 = x6 >> 7;
    let x8 = x7 >> 7;
    let x9 = x8 >> 7;
    assert(x9 < 0x80) by (bit_vector)
        requires
            x9 == (((((((((x >> 7) >> 7) >> 7) >> 7) >> 7) >> 7) >> 7) >> 7) >> 7),
    ;
    assert(varint(x9).len() == 1);
    assert(varint(x8).len() <= 2);
    assert(varint(x7).len() <= 3);
    assert(varint(x6).len() <= 4);
    assert(varint(x5).len() <= 5);
    assert(varint(x4).len() <= 6);
    assert(varint(x3).len() <= 7);
    assert(varint(x2).len() <= 8);
    assert(varint(x1).len() <= 9);
    assert(varint(x).len() <= 10);
}

proof fn lemma_varint_roundtrip_rec(x: u64, rest: Seq<u8>, budget: nat)
    requires
        varint(x).len() <= budget,
    ensures
        varint_decode_rec(varint(x) + rest, budget) == Some((x, varint(x).len() as int)),
    decreases x,
{
    let s = varint(x) + rest;
    if x < 0x80 {
        assert(s[0] == x as u8);
        assert((x as u8) < 0x80 && x as u8 as u64 == x) by (bit_vector)
            requires
                x < 0x80,
        ;
    } else {
        let b0 = ((x & 0x7f) | 0x80) as u8;
        assert(s[0] == b0);
        assert(b0 >= 0x80) by (bit_vector)
            requires
                b0 == ((x & 0x7f) | 0x80) as u8 && x >= 0x80,
        ;
        assert(x >> 7 < x) by (bit_vector)
            requires
                x >= 0x80,
        ;
        assert(s.skip(1) =~= varint(x >> 7) + rest);
        lemma_varint_roundtrip_rec(x >> 7, rest, (budget - 1) as nat);
        assert(x >> 7 <= (u64::MAX >> 7)) by (bit_vector);
        assert(((((x >> 7) << 7) as u64) | ((((x & 0x7f) | 0x80) as u8 & 0x7f) as u64)) as u64 == x)
            by (bit_vector);
    }
}

proof fn lemma_varint_decode_rec_bounds(s: Seq<u8>, budget: nat)
    ensures
        varint_decode_rec(s, budget) matches Some((v, n)) ==> 1 <= n <= s.len(),
    decreases budget,
{
    if budget > 0 && s.len() > 0 && s[0] >= 0x80 {
        lemma_varint_decode_rec_bounds(s.skip(1), (budget - 1) as nat);
    }
}

/// A decoded varint covers at least one byte and lies within the input.
pub proof fn lemma_varint_decode_bounds(s: Seq<u8>)
    ensures
        varint_decode(s) matches Some((v, n)) ==> 1 <= n <= s.len(),
{
    lemma_varint_decode_rec_bounds(s, 10);
}

/// Decoding the varint of `x`, with anything after it, yields `x` back and
/// consumes exactly the encoding.
pub proof fn lemma_varint_roundtrip(x: u64, rest: Seq<u8>)
    ensures
        varint_decode(varint(x) + rest) == Some((x, varint(x).len() as int)),
{
    lemma_varint_len(x);
    lemma_varint_roundtrip_rec(x, rest, 10);
}

/// Appends the varint encoding of `x` to `out`.
pub fn push_varint(out: &mut Vec<u8>, x: u64)
    ensures
        final(out)@ == old(out)@ + varint(x),
{
    let mut cur: u64 = x;
    while cur >= 0x80
        invariant
            out@ + varint(cur) == old(out)@ + varint(x),
        decreases cur,
    {
        out.push((cur & 0x7f) as u8 | 0x80);
        proof {
            assert(cur >> 7 < cur) by (bit_vector)
                requires
                    cur >= 0x80,
            ;
            assert((cur & 0x7f) as u8 | 0x80 == ((cur & 0x7f) | 0x80) as u8) by (bit_vector);
            assert(out@ + varint(cur >> 7) =~= old(out)@ + varint(x));
        }
        cur = cur >> 7;
    }
    out.push(cur as u8);
    assert(out@ =~= old(out)@ + varint(x));
}

fn read_varint_rec(data: &[u8], start: usize, budget: u8) -> (r: Option<(u64, usize)>)
    requires
        start <= data@.len(),
    ensures
        match r {
            Some((v, end)) => {
                &&& varint_decode_rec(data@.skip(start as int), budget as nat) == Some(
                    (v, end - start),
                )
                &&& start < end <= data@.len()
            },
            None => varint_decode_rec(data@.skip(start as int), budget as nat) is None,
        },
    decreases budget,
{
    let ghost s = data@.skip(start as int);
    if budget == 0 || start >= data.len() {
        return None;
    }
    let b = data[start];
    proof {
        assert(s[0] == b);
    }
    if b < 0x80 {
        return Some((b as u64, start + 1));
    }
    proof {
        assert(s.skip(1) =~= data@.skip(start + 1));
    }
    match read_varint_rec(data, start + 1, budget - 1) {
        None => None,
        Some((v, end)) => {
            if v <= (u64::MAX >> 7) {
                Some(((v << 7) | ((b & 0x7f) as u64), end))
            } else {
                None
            }
        },
    }
}

/// Reads the varint at `data[start..]`; returns its value and the index of
/// the byte after it, or `None` as `varint_decode` says.
pub fn read_varint(data: &[u8], start: usize) -> (r: Option<(u64, usize)>)
    requires
        start <= data@.len(),
    ensures
        match r {
            Some((v, end)) => {
                &&& varint_decode(data@.skip(start as int)) == Some((v, end - start))
                &&& start < end <= data@.len()
            },
            None => varint_decode(data@.skip(start as int)) is None,
        },
{
    read_varint_rec(data, start, 10)
}

} // verus!
