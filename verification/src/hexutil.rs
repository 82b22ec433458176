//! Hexadecimal decoding for the user-supplied encryption key: a 32-digit
//! string names the 16-byte key.

use vstd::prelude::*;

verus! {

/// The value of one hexadecimal digit byte, if it is one.
pub open spec fn hex_val(b: u8) -> Option<u8> {
    if 0x30 <= b <= 0x39 {
        Some((b - 0x30) as u8)
    } else if 0x41 <= b <= 0x46 {
        Some((b - 0x41 + 10) as u8)
    } else if 0x61 <= b <= 0x66 {
        Some((b - 0x61 + 10) as u8)
    } else {
        None
    }
}

/// The bytes named by a string of hexadecimal digit pairs, or `None` when a
/// digit is not hexadecimal or one is left over.
pub open spec fn spec_hex_decode(b: Seq<u8>) -> Option<Seq<u8>> {
    if b.len() % 2 == 0 && (forall|i: int| 0 <= i < b.len() ==> hex_val(#[trigger] b[i]) is Some) {
        Some(
            Seq::new(
                b.len() / 2,
                |i: int| ((hex_val(b[2 * i]).unwrap() * 16) + hex_val(b[2 * i + 1]).unwrap()) as u8,
            ),
        )
    } else {
        None
    }
}

fn hex_digit(b: u8) -> (r: Option<u8>)
    ensures
        r == hex_val(b),
{
    if 0x30 <= b && b <= 0x39 {
        Some(b - 0x30)
    } else if 0x41 <= b && b <= 0x46 {
        Some(b - 0x41 + 10)
    } else if 0x61 <= b && b <= 0x66 {
        Some(b - 0x61 + 10)
    } else {
        None
    }
}

/// Decodes a string of hexadecimal digit pairs into bytes.
pub fn decode_hex(s: &str) -> (r: Option<Vec<u8>>)
    ensures
        match r {
            Some(v) => spec_hex_decode(vstd::utf8::encode_utf8(s@)) == Some(v@),
            None => spec_hex_decode(vstd::utf8::encode_utf8(s@)) is None,
        },
{
    let b = s.as_bytes();
    let n = b.len();
    proof {
        vstd::slice::axiom_spec_len(b);
    }
    if n % 2 != 0 {
        return None;
    }
    let mut out: Vec<u8> = Vec::new();
    let mut i: usize = 0;
    while i < n / 2
        invariant
            b@ == vstd::utf8::encode_utf8(s@),
            n == b@.len(),
            n % 2 == 0,
            i <= n / 2,
            out@.len() == i,
            forall|j: int| 0 <= j < 2 * i ==> hex_val(#[trigger] b@[j]) is Some,
            forall|j: int|
                0 <= j < i ==> out@[j] == ((hex_val(b@[2 * j]).unwrap() * 16) + hex_val(
                    b@[2 * j + 1],
                ).unwrap()) as u8,
        decreases n / 2 - i,
    {
        proof {
            vstd::arithmetic::div_mod::lemma_fundamental_div_mod(n as int, 2);
        }
        let hi = match hex_digit(b[2 * i]) {
            Some(h) => h,
            None => {
                return None;
            },
        };
        let lo = match hex_digit(b[2 * i + 1]) {
            Some(l) => l,
            None => {
                return None;
            },
        };
        out.push(hi * 16 + lo);
        proof {
            assert forall|j: int| 0 <= j < 2 * (i + 1) implies hex_val(#[trigger] b@[j]) is Some by {
                if j == 2 * i {
                    assert(hex_val(b@[2 * (i as int)]) is Some);
                }
                if j == 2 * i + 1 {
                    assert(hex_val(b@[2 * (i as int) + 1]) is Some);
                }
            }
        }
        i = i + 1;
    }
    proof {
        assert(spec_hex_decode(b@) matches Some(d) && d =~= out@);
    }
    Some(out)
}

} // verus!
