//! The CRC-8 checksum protecting unencrypted frames: polynomial `0x2F`,
//! initial value `0xFF`, no bit reflection, final xor `0xFF` (the AUTOSAR
//! parameter set).

use vstd::prelude::*;

verus! {

/// One shift-and-conditionally-xor round of the checksum register.
pub open spec fn crc8_round(c: u8) -> u8 {
    if c & 0x80 != 0 {
        ((c << 1) ^ 0x2f) as u8
    } else {
        (c << 1) as u8
    }
}

/// `n` rounds of `crc8_round`.
pub open spec fn crc8_rounds(c: u8, n: nat) -> u8
    decreases n,
{
    if n == 0 {
        c
    } else {
        crc8_rounds(crc8_round(c), (n - 1) as nat)
    }
}

/// Folds one message byte into the checksum register.
pub open spec fn crc8_update(c: u8, b: u8) -> u8 {
    crc8_rounds(c ^ b, 8)
}

/// Folds a whole message into the register, front to back.
pub open spec fn crc8_fold(c: u8, s: Seq<u8>) -> u8
    decreases s.len(),
{
    if s.len() == 0 {
        c
    } else {
        crc8_fold(crc8_update(c, s[0]), s.skip(1))
    }
}

/// The checksum of a message.
pub open spec fn crc8(s: Seq<u8>) -> u8 {
    crc8_fold(0xff, s) ^ 0xff
}

proof fn lemma_round_injective(a: u8, b: u8)
    requires
        crc8_round(a) == crc8_round(b),
    ensures
        a == b,
{
    assert(a == b) by (bit_vector)
        requires
            (if a & 0x80 != 0 {
                ((a << 1) ^ 0x2f) as u8
            } else {
                (a << 1) as u8
            }) == (if b & 0x80 != 0 {
                ((b << 1) ^ 0x2f) as u8
            } else {
                (b << 1) as u8
            }),
    ;
}

proof fn lemma_rounds_injective(a: u8, b: u8, n: nat)
    requires
        crc8_rounds(a, n) == crc8_rounds(b, n),
    ensures
        a == b,
    decreases n,
{
    if n > 0 {
        lemma_rounds_injective(crc8_round(a), crc8_round(b), (n - 1) as nat);
        lemma_round_injective(a, b);
    }
}

proof fn lemma_update_injective(c: u8, b1: u8, b2: u8)
    requires
        b1 != b2,
    ensures
        crc8_update(c, b1) != crc8_update(c, b2),
{
    if crc8_update(c, b1) == crc8_update(c, b2) {
        lemma_rounds_injective(c ^ b1, c ^ b2, 8);
        assert(b1 == b2) by (bit_vector)
            requires
                c ^ b1 == c ^ b2,
        ;
    }
}

proof fn lemma_fold_distinct_states(c1: u8, c2: u8, s: Seq<u8>)
    requires
        c1 != c2,
    ensures
        crc8_fold(c1, s) != crc8_fold(c2, s),
    decreases s.len(),
{
    if s.len() > 0 {
        if crc8_update(c1, s[0]) == crc8_update(c2, s[0]) {
            lemma_rounds_injective(c1 ^ s[0], c2 ^ s[0], 8);
            let b0 = s[0];
            assert(c1 == c2) by (bit_vector)
                requires
                    c1 ^ b0 == c2 ^ b0,
            ;
        }
        lemma_fold_distinct_states(crc8_update(c1, s[0]), crc8_update(c2, s[0]), s.skip(1));
    }
}

proof fn lemma_fold_flip(c: u8, s: Seq<u8>, k: int, x: u8)
    requires
        0 <= k < s.len(),
        x != s[k],
    ensures
        crc8_fold(c, s.update(k, x)) != crc8_fold(c, s),
    decreases k,
{
    let t = s.update(k, x);
    if k == 0 {
        assert(t[0] == x);
        assert(t.skip(1) =~= s.skip(1));
        lemma_update_injective(c, x, s[0]);
        lemma_fold_distinct_states(crc8_update(c, x), crc8_update(c, s[0]), s.skip(1));
    } else {
        assert(t[0] == s[0]);
        assert(t.skip(1) =~= s.skip(1).update(k - 1, x));
        assert(s.skip(1)[k - 1] == s[k]);
        lemma_fold_flip(crc8_update(c, s[0]), s.skip(1), k - 1, x);
    }
}

/// Every change of one message byte changes the checksum: the register map
/// per round is invertible, so a difference injected anywhere survives to
/// the end of the message.
pub proof fn lemma_crc8_detects_byte_change(s: Seq<u8>, k: int, x: u8)
    requires
        0 <= k < s.len(),
        x != s[k],
    ensures
        crc8(s.update(k, x)) != crc8(s),
{
    lemma_fold_flip(0xff, s, k, x);
    let a = crc8_fold(0xff, s.update(k, x));
    let b = crc8_fold(0xff, s);
    assert(a ^ 0xff != b ^ 0xff) by (bit_vector)
        requires
            a != b,
    ;
}

fn crc8_update_exec(c: u8, b: u8) -> (r: u8)
    ensures
        r == crc8_update(c, b),
{
    let mut cur: u8 = c ^ b;
    let mut n: usize = 0;
    while n < 8
        invariant
            n <= 8,
            crc8_rounds(cur, (8 - n) as nat) == crc8_update(c, b),
        decreases 8 - n,
    {
        cur = if cur & 0x80 != 0 {
            (cur << 1) ^ 0x2f
        } else {
            cur << 1
        };
        n = n + 1;
    }
    cur
}

/// Computes the checksum of `data`.
pub fn crc8_checksum(data: &[u8]) -> (r: u8)
    ensures
        r == crc8(data@),
{
    let mut c: u8 = 0xff;
    let mut i: usize = 0;
    assert(data@.skip(0) =~= data@);
    while i < data.len()
        invariant
            i <= data@.len(),
            crc8_fold(c, data@.skip(i as int)) == crc8_fold(0xff, data@),
        decreases data@.len() - i,
    {
        proof {
            assert(data@.skip(i as int)[0] == data@[i as int]);
            assert(data@.skip(i as int).skip(1) =~= data@.skip(i + 1));
        }
        c = crc8_update_exec(c, data[i]);
        i = i + 1;
    }
    c ^ 0xff
}

} // verus!
