//! Framing: every frame is a `u32` big-endian length prefix followed by that
//! many body bytes. The plain codec guards the record payload with a CRC-8
//! byte; the encrypted codec (see `encrypt`) seals it at the frame position.

use vstd::prelude::*;

use crate::be::{be_u32, lemma_u32_be_roundtrip, u32_be};
use crate::buffer::{kv_decode, lemma_payload_roundtrip, model_bounds, opt_model, payload_of,
    BufModel, Buffer, DecodeResult};
use crate::crc::{crc8, crc8_checksum};
use crate::encrypt::{aead_frame, aead_seal, decode_contract, Encryptor};
use crate::Error;

verus! {

/// Whether `s` starts with a whole frame: a readable length prefix whose
/// frame fits both a `u32` and the data.
pub open spec fn frame_split_ok(s: Seq<u8>) -> bool {
    &&& s.len() >= 4
    &&& be_u32(s.subrange(0, 4)) <= u32::MAX - 4
    &&& 4 + be_u32(s.subrange(0, 4)) <= s.len()
}

/// The whole length of the frame at the front of `s`: prefix plus body.
pub open spec fn frame_len(s: Seq<u8>) -> u32
    recommends
        frame_split_ok(s),
{
    (4 + be_u32(s.subrange(0, 4))) as u32
}

/// The identity of a codec: plain, or sealing under a key and nonce.
pub enum CodecModel {
    Crc,
    Aead { key: Seq<u8>, nonce: Seq<u8> },
}

/// The plain frame for a record: length prefix, payload, checksum byte.
pub open spec fn crc_frame(m: BufModel) -> Seq<u8> {
    u32_be((payload_of(m).len() + 1) as u32) + payload_of(m) + seq![crc8(payload_of(m))]
}

/// What a structurally whole plain frame decodes to: its payload when the
/// checksum matches and the payload parses, nothing otherwise.
pub open spec fn crc_block_decode(b: Seq<u8>) -> Option<BufModel>
    recommends
        frame_split_ok(b),
        b.len() >= 5,
{
    let p = b.subrange(4, b.len() - 1);
    if crc8(p) == b[b.len() - 1] {
        kv_decode(p)
    } else {
        None
    }
}

/// How one frame's bytes relate to the record read out of it. For the plain
/// codec the relation is a function of the bytes; for the encrypted codec it
/// goes through what the cipher seals at the frame's position.
pub open spec fn block_rel(c: CodecModel, b: Seq<u8>, position: u32, r: Option<BufModel>) -> bool {
    &&& frame_split_ok(b)
    &&& b.len() == frame_len(b)
    &&& match c {
        CodecModel::Crc => b.len() >= 5 && r == crc_block_decode(b),
        CodecModel::Aead { key, nonce } => {
            if position == u32::MAX {
                r is None
            } else {
                match r {
                    Some(m) => exists|p: Seq<u8>|
                        p.len() <= crate::encrypt::AEAD_PLAINTEXT_MAX && aead_seal(
                            key,
                            nonce,
                            position,
                            p,
                        ) == b.skip(4) && kv_decode(p) == Some(m),
                    None => forall|p: Seq<u8>|
                        p.len() <= crate::encrypt::AEAD_PLAINTEXT_MAX && aead_seal(
                            key,
                            nonce,
                            position,
                            p,
                        ) == b.skip(4) ==> kv_decode(p) is None,
                }
            }
        },
    }
}

/// The frame a codec writes for a record at a position.
pub open spec fn frame_for(c: CodecModel, m: BufModel, position: u32) -> Seq<u8> {
    match c {
        CodecModel::Crc => crc_frame(m),
        CodecModel::Aead { key, nonce } => aead_frame(key, nonce, position, m),
    }
}

/// The byte length of the frame a codec writes for a record: the length
/// prefix, the payload, and one checksum byte or the 8-byte tag.
pub open spec fn frame_size(c: CodecModel, m: BufModel) -> int {
    match c {
        CodecModel::Crc => 5 + payload_of(m).len() as int,
        CodecModel::Aead { key, nonce } => 12 + payload_of(m).len() as int,
    }
}

/// A plain frame decodes to the record it was built from.
pub proof fn lemma_crc_frame_roundtrip(m: BufModel, position: u32)
    requires
        payload_of(m).len() + 1 <= u32::MAX - 4,
        model_bounds(m),
    ensures
        block_rel(CodecModel::Crc, crc_frame(m), position, Some(m)),
{
    let b = crc_frame(m);
    let p = payload_of(m);
    let ln = (p.len() + 1) as u32;
    assert(b.subrange(0, 4) =~= u32_be(ln));
    lemma_u32_be_roundtrip(ln);
    assert(b.len() == 4 + ln);
    assert(b.subrange(4, b.len() - 1) =~= p);
    assert(b[b.len() - 1] == crc8(p));
    lemma_payload_roundtrip(m);
}

/// Replay tolerates torn frames: flipping any single byte of a plain
/// frame's payload or checksum makes the frame fail its check and read as
/// skipped, while its stored length still advances replay past it.
pub proof fn lemma_flipped_frame_is_skipped(m: BufModel, position: u32, i: int, x: u8)
    requires
        payload_of(m).len() + 1 <= u32::MAX - 4,
        4 <= i < crc_frame(m).len(),
        x != crc_frame(m)[i],
    ensures
        block_rel(CodecModel::Crc, crc_frame(m).update(i, x), position, None),
{
    let b = crc_frame(m);
    let t = b.update(i, x);
    let p = payload_of(m);
    let ln = (p.len() + 1) as u32;
    assert(t.subrange(0, 4) =~= b.subrange(0, 4));
    assert(b.subrange(0, 4) =~= u32_be(ln));
    lemma_u32_be_roundtrip(ln);
    assert(b.len() == 4 + ln && t.len() == b.len());
    if i == b.len() - 1 {
        // the checksum byte changed; the payload did not
        assert(t.subrange(4, t.len() - 1) =~= p);
        assert(t[t.len() - 1] == x);
        assert(b[b.len() - 1] == crc8(p));
        assert(crc_block_decode(t) is None);
    } else {
        // a payload byte changed; the stored checksum fits only the original
        assert(t.subrange(4, t.len() - 1) =~= p.update(i - 4, x));
        assert(b[i] == p[i - 4]);
        crate::crc::lemma_crc8_detects_byte_change(p, i - 4, x);
        assert(t[t.len() - 1] == crc8(p));
        assert(crc_block_decode(t) is None);
    }
}

/// An encrypted frame decodes to the record it was sealed from.
pub proof fn lemma_aead_frame_roundtrip(key: Seq<u8>, nonce: Seq<u8>, position: u32, m: BufModel)
    requires
        position < u32::MAX,
        payload_of(m).len() + 8 <= u32::MAX - 4,
        aead_seal(key, nonce, position, payload_of(m)).len() == payload_of(m).len() + 8,
        model_bounds(m),
    ensures
        block_rel(CodecModel::Aead { key, nonce }, aead_frame(key, nonce, position, m), position,
            Some(m)),
{
    let b = aead_frame(key, nonce, position, m);
    let p = payload_of(m);
    let ln = (p.len() + 8) as u32;
    assert(b.subrange(0, 4) =~= u32_be(ln));
    lemma_u32_be_roundtrip(ln);
    assert(b.len() == 4 + ln);
    assert(b.skip(4) =~= aead_seal(key, nonce, position, p));
    lemma_payload_roundtrip(m);
    assert(p.len() <= crate::encrypt::AEAD_PLAINTEXT_MAX && aead_seal(key, nonce, position, p)
        == b.skip(4) && kv_decode(p) == Some(m));
}

/// The plain frame codec.
pub struct CrcEncoderDecoder;

impl CrcEncoderDecoder {
    /// Encodes one record into a checksummed frame. The position plays no
    /// role here; only a record whose frame cannot be length-prefixed is
    /// refused, with `EncodeFailed`.
    pub fn encode_to_bytes(&self, raw_buffer: &Buffer, _position: u32) -> (r: Result<Vec<u8>, Error>)
        ensures
            match r {
                Ok(v) => {
                    &&& payload_of(raw_buffer@).len() + 1 <= u32::MAX - 4
                    &&& v@ == crc_frame(raw_buffer@)
                    &&& model_bounds(raw_buffer@)
                },
                Err(e) => {
                    &&& payload_of(raw_buffer@).len() + 1 > u32::MAX - 4
                    &&& e is EncodeFailed
                },
            },
    {
        let payload = raw_buffer.to_bytes();
        if payload.len() > (u32::MAX - 5) as usize {
            return Err(Error::EncodeFailed("record too large for a frame".to_owned()));
        }
        let sum = crc8_checksum(payload.as_slice());
        let mut out: Vec<u8> = Vec::new();
        crate::be::push_u32_be(&mut out, payload.len() as u32 + 1);
        crate::be::push_bytes(&mut out, payload.as_slice());
        out.push(sum);
        proof {
            assert(out@ =~= crc_frame(raw_buffer@));
        }
        Ok(out)
    }

    /// Decodes the frame at the front of `data`. A frame whose checksum or
    /// payload is wrong is reported as `None` with its length, so replay can
    /// skip it; a torn or empty length prefix is an error.
    pub fn decode_bytes(&self, data: &[u8], _position: u32) -> (r: Result<DecodeResult, Error>)
        ensures
            decode_contract(CodecModel::Crc, data@, _position, r),
    {
        if data.len() < 4 {
            return Err(Error::DataInvalid);
        }
        let item_len = crate::be::read_u32_be(data, 0);
        if item_len == 0 {
            return Err(Error::DataInvalid);
        }
        if item_len > u32::MAX - 4 {
            return Err(Error::DataInvalid);
        }
        if (item_len as usize) > data.len() - 4 {
            return Err(Error::DataInvalid);
        }
        let end = 4 + item_len as usize;
        let ghost block = data@.subrange(0, end as int);
        proof {
            assert(block.subrange(0, 4) =~= data@.subrange(0, 4));
            assert(frame_split_ok(block) && frame_len(block) == end);
            assert(block.subrange(4, block.len() - 1) =~= data@.subrange(4, end - 1));
        }
        let payload = vstd::slice::slice_subrange(data, 4, end - 1);
        let sum = data[end - 1];
        proof {
            assert(block[block.len() - 1] == data@[end - 1]);
        }
        let buffer = if crc8_checksum(payload) == sum {
            match Buffer::from_encoded_bytes(payload) {
                Ok(b) => Some(b),
                Err(_) => None,
            }
        } else {
            None
        };
        Ok(DecodeResult { buffer, len: 4 + item_len })
    }
}

/// The codec a store runs with, fixed at open time.
pub enum Codec {
    Plain(CrcEncoderDecoder),
    Encrypted(Encryptor),
}

impl View for Codec {
    type V = CodecModel;

    open spec fn view(&self) -> CodecModel {
        match self {
            Codec::Plain(_) => CodecModel::Crc,
            Codec::Encrypted(e) => CodecModel::Aead { key: e@.0, nonce: e@.1 },
        }
    }
}

impl Codec {
    /// A plain codec is always whole; an encrypted one needs its key sizes.
    pub open spec fn wf(&self) -> bool {
        match self {
            Codec::Plain(_) => true,
            Codec::Encrypted(e) => e.wf(),
        }
    }

    /// Encodes one record into the frame written at `position`. On success
    /// the frame is pinned down (through the sealing function, under
    /// encryption); the plain codec fails exactly on records too large to
    /// length-prefix.
    pub fn encode_to_bytes(&self, raw_buffer: &Buffer, position: u32) -> (r: Result<Vec<u8>, Error>)
        requires
            self.wf(),
        ensures
            match r {
                Ok(v) => {
                    &&& v@ == frame_for(self@, raw_buffer@, position)
                    &&& v@.len() == frame_size(self@, raw_buffer@)
                    &&& v@.len() <= u32::MAX
                    &&& block_rel(self@, v@, position, Some(raw_buffer@))
                },
                Err(e) => match self@ {
                    CodecModel::Crc => payload_of(raw_buffer@).len() + 1 > u32::MAX - 4
                        && e is EncodeFailed,
                    CodecModel::Aead { key, nonce } => {
                        &&& e is EncryptFailed || e is EncodeFailed
                        &&& position == u32::MAX || payload_of(raw_buffer@).len() + 8 > u32::MAX
                            - 4
                        &&& position == u32::MAX ==> e is EncryptFailed
                    },
                },
            },
    {
        match self {
            Codec::Plain(c) => {
                let v = c.encode_to_bytes(raw_buffer, position)?;
                proof {
                    lemma_crc_frame_roundtrip(raw_buffer@, position);
                }
                Ok(v)
            },
            Codec::Encrypted(e) => {
                let v = e.encode_to_bytes(raw_buffer, position)?;
                proof {
                    assert(v@.skip(4) =~= aead_seal(
                        e@.0,
                        e@.1,
                        position,
                        payload_of(raw_buffer@),
                    ));
                    lemma_aead_frame_roundtrip(e@.0, e@.1, position, raw_buffer@);
                }
                Ok(v)
            },
        }
    }

    /// Decodes the frame at the front of `data` at `position`.
    pub fn decode_bytes(&self, data: &[u8], position: u32) -> (r: Result<DecodeResult, Error>)
        requires
            self.wf(),
        ensures
            decode_contract(self@, data@, position, r),
    {
        match self {
            Codec::Plain(c) => c.decode_bytes(data, position),
            Codec::Encrypted(e) => e.decode_bytes(data, position),
        }
    }
}

} // verus!
