//! Authenticated encryption for frames: AES-128-EAX with an 8-byte tag in
//! the 32-bit big-endian STREAM construction. The keystream state is the
//! 16-byte key and an 11-byte nonce; the counter for each frame is its
//! position in the file. The nonce lives in a companion meta file that the
//! caller persists.

use vstd::prelude::*;

use crate::buffer::{kv_decode, model_bounds, opt_model, payload_of, BufModel, Buffer, DecodeResult};
use crate::codec::{block_rel, frame_len, frame_split_ok, CodecModel};
use crate::Error;

use aes::Aes128;
use eax::aead::consts::U8;
use eax::aead::generic_array::GenericArray;
use eax::aead::rand_core::RngCore;
use eax::aead::stream::{NewStream, StreamBE32, StreamPrimitive};
use eax::aead::{KeyInit, OsRng, Payload};
use eax::Eax;

verus! {

/// The largest plaintext the cipher accepts; longer inputs are refused, so
/// nothing is assumed of `aead_seal` beyond this bound.
pub const AEAD_PLAINTEXT_MAX: u64 = 0x10_0000_0000;

/// What AES-128-EAX (8-byte tag, 32-bit big-endian STREAM counter) seals
/// `payload` to under `key`, `nonce` and counter `position`: a function of
/// those arguments alone. Meaningful only for payloads the cipher accepts,
/// up to `AEAD_PLAINTEXT_MAX` bytes.
pub uninterp spec fn aead_seal(
    key: Seq<u8>,
    nonce: Seq<u8>,
    position: u32,
    payload: Seq<u8>,
) -> Seq<u8>;

/// Relies on eax and aead: sealing is deterministic in key, nonce, counter
/// and plaintext; the ciphertext is the plaintext plus the 8-byte tag; and
/// encryption refuses only plaintexts above its size limit.
#[verifier::external_body]
fn aead_encrypt(key: &[u8], nonce: &[u8], position: u32, payload: &[u8]) -> (r: Option<Vec<u8>>)
    requires
        key@.len() == 16,
        nonce@.len() == 11,
    ensures
        r matches Some(c) ==> c@ == aead_seal(key@, nonce@, position, payload@) && c@.len()
            == payload@.len() + 8,
        payload@.len() <= AEAD_PLAINTEXT_MAX ==> r is Some,
{
    let cipher = Eax::<Aes128, U8>::new(GenericArray::from_slice(key));
    let stream: StreamBE32<Eax<Aes128, U8>> = StreamBE32::from_aead(
        cipher,
        GenericArray::from_slice(nonce),
    );
    stream.encrypt(position, false, Payload::from(payload)).ok()
}

/// Relies on eax and aead: decryption at a counter accepts exactly what was
/// sealed at that counter (the tag authenticates the ciphertext) and returns
/// the payload that was sealed. The ciphertext bound keeps every decrypted
/// payload within the size limit sealing accepts.
#[verifier::external_body]
fn aead_decrypt(key: &[u8], nonce: &[u8], position: u32, cipher: &[u8]) -> (r: Option<Vec<u8>>)
    requires
        key@.len() == 16,
        nonce@.len() == 11,
        cipher@.len() <= AEAD_PLAINTEXT_MAX + 8,
    ensures
        match r {
            Some(p) => cipher@ == aead_seal(key@, nonce@, position, p@) && p@.len()
                <= AEAD_PLAINTEXT_MAX && (forall|q: Seq<u8>|
                q.len() <= AEAD_PLAINTEXT_MAX && aead_seal(key@, nonce@, position, q) == cipher@
                    ==> q == p@),
            None => forall|q: Seq<u8>|
                q.len() <= AEAD_PLAINTEXT_MAX ==> aead_seal(key@, nonce@, position, q) != cipher@,
        },
{
    let aes = Eax::<Aes128, U8>::new(GenericArray::from_slice(key));
    let stream: StreamBE32<Eax<Aes128, U8>> = StreamBE32::from_aead(
        aes,
        GenericArray::from_slice(nonce),
    );
    stream.decrypt(position, false, Payload::from(cipher)).ok()
}

/// Relies on aead's `OsRng` (the operating system's entropy source) to draw
/// an 11-byte nonce; nothing is assumed of the bytes drawn.
#[verifier::external_body]
fn random_nonce() -> (r: Option<Vec<u8>>)
    ensures
        r matches Some(n) ==> n@.len() == 11,
{
    let mut nonce = [0u8; 11];
    match OsRng.try_fill_bytes(&mut nonce) {
        Ok(()) => Some(nonce.to_vec()),
        Err(_) => None,
    }
}

/// The encrypted frame codec: a fixed key and nonce; each frame is sealed at
/// its own position.
pub struct Encryptor {
    key: Vec<u8>,
    nonce: Vec<u8>,
}

impl View for Encryptor {
    type V = (Seq<u8>, Seq<u8>);

    closed spec fn view(&self) -> (Seq<u8>, Seq<u8>) {
        (self.key@, self.nonce@)
    }
}

impl Encryptor {
    /// A keystream is a 16-byte key and an 11-byte nonce.
    pub open spec fn wf(&self) -> bool {
        self@.0.len() == 16 && self@.1.len() == 11
    }

    /// Rebuilds the keystream from a persisted nonce.
    pub fn new_with_nonce(key: Vec<u8>, nonce: Vec<u8>) -> (r: Self)
        requires
            key@.len() == 16,
            nonce@.len() == 11,
        ensures
            r@ == (key@, nonce@),
            r.wf(),
    {
        Encryptor { key, nonce }
    }

    /// Builds a keystream with a fresh random nonce; fails only when the
    /// entropy source does.
    pub fn new(key: Vec<u8>) -> (r: Result<Self, Error>)
        requires
            key@.len() == 16,
        ensures
            r matches Ok(e) ==> e.wf() && e@.0 == key@,
            r matches Err(e) ==> e is EncryptFailed,
    {
        match random_nonce() {
            Some(nonce) => Ok(Encryptor { key, nonce }),
            None => Err(Error::EncryptFailed("no entropy for nonce".to_owned())),
        }
    }

    /// The nonce to persist in the meta file.
    pub fn nonce(&self) -> (r: &Vec<u8>)
        ensures
            r@ == self@.1,
    {
        &self.nonce
    }

    /// The key, for rebuilding the keystream after compaction.
    pub fn key(&self) -> (r: &Vec<u8>)
        ensures
            r@ == self@.0,
    {
        &self.key
    }

    /// Encodes one record into an encrypted frame sealed at `position`.
    /// A put at the counter maximum fails with `EncryptFailed`; a record
    /// whose frame cannot be length-prefixed fails with `EncodeFailed`.
    pub fn encode_to_bytes(&self, raw_buffer: &Buffer, position: u32) -> (r: Result<Vec<u8>, Error>)
        requires
            self.wf(),
        ensures
            match r {
                Ok(v) => {
                    &&& position < u32::MAX
                    &&& payload_of(raw_buffer@).len() + 8 <= u32::MAX - 4
                    &&& v@ == aead_frame(self@.0, self@.1, position, raw_buffer@)
                    &&& v@.len() == 4 + payload_of(raw_buffer@).len() + 8
                    &&& model_bounds(raw_buffer@)
                },
                Err(e) => {
                    &&& e is EncryptFailed || e is EncodeFailed
                    &&& position == u32::MAX || payload_of(raw_buffer@).len() + 8 > u32::MAX - 4
                    &&& position == u32::MAX ==> e is EncryptFailed
                },
            },
    {
        if position == u32::MAX {
            return Err(Error::EncryptFailed("counter overflow".to_owned()));
        }
        let payload = raw_buffer.to_bytes();
        if payload.len() > (u32::MAX - 12) as usize {
            return Err(Error::EncodeFailed("record too large for a frame".to_owned()));
        }
        let cipher = match aead_encrypt(
            self.key.as_slice(),
            self.nonce.as_slice(),
            position,
            payload.as_slice(),
        ) {
            Some(c) => c,
            None => {
                // sealing accepts every payload this small
                proof {
                    assert(false);
                }
                return Err(Error::EncryptFailed("cipher failure".to_owned()));
            },
        };
        let mut out: Vec<u8> = Vec::new();
        crate::be::push_u32_be(&mut out, cipher.len() as u32);
        crate::be::push_bytes(&mut out, cipher.as_slice());
        proof {
            assert(out@.subrange(0, 4) =~= crate::be::u32_be(
                (payload_of(raw_buffer@).len() + 8) as u32,
            ));
            assert(out@.skip(4) =~= aead_seal(
                self@.0,
                self@.1,
                position,
                payload_of(raw_buffer@),
            ));
            assert(out@ =~= aead_frame(self@.0, self@.1, position, raw_buffer@));
        }
        Ok(out)
    }

    /// Decodes the frame at the front of `data`, decrypting at `position`.
    /// A frame that fails authentication is reported as `None` with its
    /// length, so replay can skip it; only a torn length prefix is an error.
    #[verifier::rlimit(30)]
    pub fn decode_bytes(&self, data: &[u8], position: u32) -> (r: Result<DecodeResult, Error>)
        requires
            self.wf(),
        ensures
            decode_contract(CodecModel::Aead { key: self@.0, nonce: self@.1 }, data@, position, r),
    {
        if data.len() < 4 {
            return Err(Error::DataInvalid);
        }
        let item_len = crate::be::read_u32_be(data, 0);
        if item_len > u32::MAX - 4 {
            return Err(Error::DataInvalid);
        }
        if (item_len as usize) > data.len() - 4 {
            return Err(Error::DataInvalid);
        }
        let end = 4 + item_len as usize;
        let ghost block = data@.subrange(0, end as int);
        proof {
            assert(block.subrange(0, 4) =~= data@.subrange(0, 4));
            assert(block.skip(4) =~= data@.subrange(4, end as int));
            assert(frame_split_ok(block));
            assert(frame_len(block) == end);
        }
        if position == u32::MAX {
            return Ok(DecodeResult { buffer: None, len: 4 + item_len });
        }
        let cipher = vstd::slice::slice_subrange(data, 4, end);
        let buffer = match aead_decrypt(
            self.key.as_slice(),
            self.nonce.as_slice(),
            position,
            cipher,
        ) {
            None => None,
            Some(p) => match Buffer::from_encoded_bytes(p.as_slice()) {
                Ok(b) => Some(b),
                Err(_) => None,
            },
        };
        proof {
            let c = (CodecModel::Aead { key: self@.0, nonce: self@.1 });
            assert(block_rel(c, block, position, opt_model(buffer)));
            assert forall|alt: Option<BufModel>| block_rel(c, block, position, alt) implies alt
                == opt_model(buffer) by {}
            assert(data@.subrange(0, frame_len(data@) as int) =~= block);
        }
        Ok(DecodeResult { buffer, len: 4 + item_len })
    }
}

/// The encrypted frame for a record: length prefix, then the sealed payload.
pub open spec fn aead_frame(key: Seq<u8>, nonce: Seq<u8>, position: u32, m: BufModel) -> Seq<u8> {
    let cipher = aead_seal(key, nonce, position, payload_of(m));
    crate::be::u32_be((payload_of(m).len() + 8) as u32) + cipher
}

/// What every decoder promises: torn length prefixes are `DataInvalid`,
/// everything else names the frame's length and relates its bytes to the
/// decoded record, pinning that record down.
pub open spec fn decode_contract(
    c: CodecModel,
    s: Seq<u8>,
    position: u32,
    r: Result<DecodeResult, Error>,
) -> bool {
    match r {
        Ok(dr) => {
            &&& frame_split_ok(s)
            &&& (c is Crc ==> crate::be::be_u32(s.subrange(0, 4)) >= 1)
            &&& dr.len == frame_len(s)
            &&& block_rel(c, s.subrange(0, frame_len(s) as int), position, opt_model(dr.buffer))
            &&& dr.buffer matches Some(b) ==> model_bounds(b@)
            &&& forall|alt: Option<BufModel>|
                block_rel(c, s.subrange(0, frame_len(s) as int), position, alt) ==> alt
                    == opt_model(dr.buffer)
        },
        Err(e) => {
            &&& !frame_split_ok(s) || (c is Crc && crate::be::be_u32(s.subrange(0, 4)) == 0)
            &&& e == Error::DataInvalid
        },
    }
}

} // verus!
