//! Typed records and their self-describing payload encoding.
//!
//! A record is a `(key, type tag, value bytes)` tuple. Its payload is a
//! sequence of tagged fields, each introduced by a one-byte field tag:
//! `0x0a` (key, length-prefixed UTF-8), `0x10` (type tag, varint, two's
//! complement in 64 bits), `0x1a` (value, length-prefixed bytes). Fields
//! holding their default (empty key, tag zero, empty value) are omitted;
//! a decoder supplies the defaults and lets a repeated field overwrite an
//! earlier one.

use vstd::prelude::*;

use crate::varint::{varint, varint_decode, lemma_varint_decode_bounds, lemma_varint_roundtrip,
    push_varint, read_varint};
use crate::types::{spec_token_of, Types, TypeToken};
use crate::Error;

verus! {

broadcast use vstd::utf8::encode_utf8_valid_utf8, vstd::utf8::encode_utf8_decode_utf8;

/// The mathematical content of a record.
#[verifier::ext_equal]
pub struct BufModel {
    pub key: Seq<char>,
    pub typ: i32,
    pub value: Seq<u8>,
}

/// The default record a decoder starts from.
pub open spec fn kv_default() -> BufModel {
    BufModel { key: Seq::empty(), typ: 0, value: Seq::empty() }
}

/// Whether a record marks a deletion.
pub open spec fn is_tombstone(m: BufModel) -> bool {
    m.typ == spec_token_of(Types::Deleted)
}

/// The key field of a payload: absent when the key is empty.
pub open spec fn key_field(m: BufModel) -> Seq<u8> {
    let kb = vstd::utf8::encode_utf8(m.key);
    if kb.len() == 0 {
        Seq::empty()
    } else {
        seq![0x0au8] + varint(kb.len() as u64) + kb
    }
}

/// The type field of a payload: absent when the tag is zero.
pub open spec fn type_field(m: BufModel) -> Seq<u8> {
    if m.typ == 0 {
        Seq::empty()
    } else {
        seq![0x10u8] + varint(m.typ as i64 as u64)
    }
}

/// The value field of a payload: absent when the value is empty.
pub open spec fn value_field(m: BufModel) -> Seq<u8> {
    if m.value.len() == 0 {
        Seq::empty()
    } else {
        seq![0x1au8] + varint(m.value.len() as u64) + m.value
    }
}

/// The canonical payload encoding of a record.
pub open spec fn payload_of(m: BufModel) -> Seq<u8> {
    key_field(m) + type_field(m) + value_field(m)
}

/// Parses the fields of `s` on top of `acc`; `None` rejects the payload.
pub open spec fn kv_decode_from(s: Seq<u8>, acc: BufModel) -> Option<BufModel>
    decreases s.len()
        via kv_decode_from_decreases
{
    if s.len() == 0 {
        Some(acc)
    } else {
        match varint_decode(s) {
            None => None,
            Some((tag, n)) => {
                if tag == 0x0a || tag == 0x1a {
                    match varint_decode(s.skip(n)) {
                        None => None,
                        Some((len, m)) => {
                            if n + m + len <= s.len() {
                                let bytes = s.subrange(n + m, n + m + len);
                                let rest = s.skip(n + m + len);
                                if tag == 0x0a {
                                    if vstd::utf8::valid_utf8(bytes) {
                                        kv_decode_from(
                                            rest,
                                            BufModel {
                                                key: vstd::utf8::decode_utf8(bytes),
                                                ..acc
                                            },
                                        )
                                    } else {
                                        None
                                    }
                                } else {
                                    kv_decode_from(rest, BufModel { value: bytes, ..acc })
                                }
                            } else {
                                None
                            }
                        },
                    }
                } else if tag == 0x10 {
                    match varint_decode(s.skip(n)) {
                        None => None,
                        Some((v, m)) => kv_decode_from(
                            s.skip(n + m),
                            BufModel { typ: v as i32, ..acc },
                        ),
                    }
                } else {
                    None
                }
            },
        }
    }
}

#[via_fn]
proof fn kv_decode_from_decreases(s: Seq<u8>, acc: BufModel) {
    lemma_varint_decode_bounds(s);
    if s.len() > 0 {
        if let Some((tag, n)) = varint_decode(s) {
            lemma_varint_decode_bounds(s.skip(n));
        }
    }
}

/// Parses a payload into a record; `None` rejects it.
pub open spec fn kv_decode(s: Seq<u8>) -> Option<BufModel> {
    kv_decode_from(s, kv_default())
}

proof fn lemma_decode_key_field(m: BufModel, rest: Seq<u8>, acc: BufModel)
    requires
        1 <= vstd::utf8::encode_utf8(m.key).len() <= u64::MAX,
    ensures
        kv_decode_from(key_field(m) + rest, acc) == kv_decode_from(
            rest,
            BufModel { key: m.key, ..acc },
        ),
{
    let kb = vstd::utf8::encode_utf8(m.key);
    let s = key_field(m) + rest;
    assert(s[0] == 0x0au8);
    assert(varint_decode(s) == Some((0x0au64, 1int)));
    assert(s.skip(1) =~= varint(kb.len() as u64) + (kb + rest));
    lemma_varint_roundtrip(kb.len() as u64, kb + rest);
    let n = 1int;
    let ml = varint(kb.len() as u64).len() as int;
    assert(varint_decode(s.skip(1)) == Some((kb.len() as u64, ml)));
    assert(n + ml + kb.len() <= s.len());
    assert(s.subrange(n + ml, n + ml + kb.len()) =~= kb);
    assert(s.skip(n + ml + kb.len() as int) =~= rest);
    assert(vstd::utf8::decode_utf8(kb) == m.key);
}

proof fn lemma_decode_type_field(m: BufModel, rest: Seq<u8>, acc: BufModel)
    requires
        m.typ != 0,
    ensures
        kv_decode_from(type_field(m) + rest, acc) == kv_decode_from(
            rest,
            BufModel { typ: m.typ, ..acc },
        ),
{
    let x = m.typ as i64 as u64;
    let s = type_field(m) + rest;
    assert(s[0] == 0x10u8);
    assert(varint_decode(s) == Some((0x10u64, 1int)));
    assert(s.skip(1) =~= varint(x) + rest);
    lemma_varint_roundtrip(x, rest);
    let ml = varint(x).len() as int;
    assert(s.skip(1 + ml) =~= rest);
    let t = m.typ;
    assert((t as i64 as u64) as i32 == t) by (bit_vector);
}

proof fn lemma_decode_value_field(m: BufModel, rest: Seq<u8>, acc: BufModel)
    requires
        1 <= m.value.len() <= u64::MAX,
    ensures
        kv_decode_from(value_field(m) + rest, acc) == kv_decode_from(
            rest,
            BufModel { value: m.value, ..acc },
        ),
{
    let s = value_field(m) + rest;
    assert(s[0] == 0x1au8);
    assert(varint_decode(s) == Some((0x1au64, 1int)));
    assert(s.skip(1) =~= varint(m.value.len() as u64) + (m.value + rest));
    lemma_varint_roundtrip(m.value.len() as u64, m.value + rest);
    let ml = varint(m.value.len() as u64).len() as int;
    assert(s.subrange(1 + ml, 1 + ml + m.value.len()) =~= m.value);
    assert(s.skip(1 + ml + m.value.len() as int) =~= rest);
}

/// Decoding the canonical payload of a record gives the record back.
pub proof fn lemma_payload_roundtrip(m: BufModel)
    requires
        vstd::utf8::encode_utf8(m.key).len() <= u64::MAX,
        m.value.len() <= u64::MAX,
    ensures
        kv_decode(payload_of(m)) == Some(m),
{
    let kb = vstd::utf8::encode_utf8(m.key);
    let acc0 = kv_default();
    let acc1 = BufModel { key: m.key, ..acc0 };
    let acc2 = BufModel { typ: m.typ, ..acc1 };
    let rest1 = type_field(m) + value_field(m);
    assert(payload_of(m) =~= key_field(m) + rest1);
    if kb.len() == 0 {
        // an empty encoding comes only from an empty key: each scalar
        // contributes at least one byte
        if m.key.len() > 0 {
            assert(kb == vstd::utf8::encode_scalar(m.key[0] as u32) + vstd::utf8::encode_utf8(
                m.key.drop_first(),
            ));
            assert(vstd::utf8::encode_scalar(m.key[0] as u32).len() >= 1);
        }
        assert(m.key.len() == 0);
        assert(key_field(m) =~= Seq::<u8>::empty());
        assert(payload_of(m) =~= rest1);
        assert(acc1 =~= acc0);
    } else {
        lemma_decode_key_field(m, rest1, acc0);
    }
    assert(kv_decode(payload_of(m)) == kv_decode_from(rest1, acc1));
    if m.typ == 0 {
        assert(rest1 =~= value_field(m));
        assert(acc2 =~= acc1);
    } else {
        lemma_decode_type_field(m, value_field(m), acc1);
        assert(rest1 =~= type_field(m) + value_field(m));
    }
    assert(kv_decode_from(rest1, acc1) == kv_decode_from(value_field(m), acc2));
    let done = BufModel { value: m.value, ..acc2 };
    if m.value.len() == 0 {
        assert(value_field(m) =~= Seq::<u8>::empty());
        assert(done =~= acc2);
    } else {
        lemma_decode_value_field(m, Seq::empty(), acc2);
        assert(value_field(m) + Seq::<u8>::empty() =~= value_field(m));
    }
    assert(kv_decode_from(value_field(m), acc2) == Some(done));
    assert(done =~= m);
}

/// Relies on `String::from_utf8`: accepts exactly the valid UTF-8 byte
/// strings and decodes them.
#[verifier::external_body]
fn string_from_utf8(bytes: Vec<u8>) -> (r: Option<String>)
    ensures
        match r {
            Some(s) => vstd::utf8::valid_utf8(bytes@) && s@ == vstd::utf8::decode_utf8(bytes@),
            None => !vstd::utf8::valid_utf8(bytes@),
        },
{
    String::from_utf8(bytes).ok()
}

/// A typed record: a key, a type tag and the value's bytes.
#[derive(Debug)]
pub struct Buffer {
    key: String,
    type_: i32,
    value: Vec<u8>,
}

impl View for Buffer {
    type V = BufModel;

    closed spec fn view(&self) -> BufModel {
        BufModel { key: self.key@, typ: self.type_, value: self.value@ }
    }
}

impl Clone for Buffer {
    fn clone(&self) -> (r: Self)
        ensures
            r@ == self@,
    {
        Buffer { key: self.key.clone(), type_: self.type_, value: self.value.clone() }
    }
}

impl PartialEq for Buffer {
    fn eq(&self, other: &Self) -> bool {
        let r = self.key == other.key && self.type_ == other.type_ && self.value == other.value;
        proof {
            if r {
                assert(self@ =~= other@);
            }
        }
        r
    }
}

impl vstd::std_specs::cmp::PartialEqSpecImpl for Buffer {
    open spec fn obeys_eq_spec() -> bool {
        true
    }

    open spec fn eq_spec(&self, other: &Buffer) -> bool {
        self@ == other@
    }
}

impl Buffer {
    fn from_kv(key: &str, t: i32, value: Vec<u8>) -> (r: Self)
        ensures
            r@ == (BufModel { key: key@, typ: t, value: value@ }),
            model_bounds(r@),
    {
        // reading the lengths witnesses that both fit the machine: the
        // record then satisfies the model bounds
        let kb = key.as_bytes();
        let _klen = kb.len();
        proof {
            vstd::slice::axiom_spec_len(kb);
        }
        let _vlen = value.len();
        Buffer { key: key.to_owned(), type_: t, value }
    }

    /// The tombstone record for `key`.
    pub fn deleted_buffer(key: &str) -> (r: Self)
        ensures
            r@ == (BufModel {
                key: key@,
                typ: spec_token_of(Types::Deleted),
                value: Seq::empty(),
            }),
            model_bounds(r@),
    {
        let r = Buffer::from_kv(key, Types::Deleted.value(), Vec::new());
        proof {
            assert(r@ =~= BufModel {
                key: key@,
                typ: spec_token_of(Types::Deleted),
                value: Seq::empty(),
            });
        }
        r
    }

    /// Builds a record from a raw tag and already-serialised value bytes:
    /// for kinds whose serialisation lives outside the library, such as the
    /// floating-point kinds.
    pub fn from_raw(key: &str, token: i32, value: Vec<u8>) -> (r: Self)
        ensures
            r@ == (BufModel { key: key@, typ: token, value: value@ }),
            model_bounds(r@),
    {
        Buffer::from_kv(key, token, value)
    }

    /// The record's value bytes, after checking its tag: a tombstone reads
    /// as `KeyNotFound`, another kind's tag as `TypeMissMatch`.
    pub fn raw_value(&self, token: i32) -> (r: Result<&[u8], Error>)
        ensures
            is_tombstone(self@) ==> r == Err::<&[u8], Error>(Error::KeyNotFound),
            !is_tombstone(self@) && self@.typ != token ==> r == Err::<&[u8], Error>(
                Error::TypeMissMatch,
            ),
            !is_tombstone(self@) && self@.typ == token ==> (r matches Ok(v) && v@ == self@.value),
    {
        if self.is_deleting() {
            return Err(Error::KeyNotFound);
        }
        if self.type_ != token {
            return Err(Error::TypeMissMatch);
        }
        Ok(self.value.as_slice())
    }

    /// The record's key.
    pub fn key(&self) -> (r: &str)
        ensures
            r@ == self@.key,
    {
        self.key.as_str()
    }

    /// The record's value bytes.
    pub fn value(&self) -> (r: &[u8])
        ensures
            r@ == self@.value,
    {
        self.value.as_slice()
    }

    /// Whether this record marks a deletion.
    pub fn is_deleting(&self) -> (r: bool)
        ensures
            r == is_tombstone(self@),
    {
        self.type_ == Types::Deleted.value()
    }

    /// Encodes the record into its canonical payload.
    pub fn to_bytes(&self) -> (r: Vec<u8>)
        ensures
            r@ == payload_of(self@),
            model_bounds(self@),
    {
        // reading the length witnesses that the value fits the machine
        let _vlen = self.value.len();
        let mut out: Vec<u8> = Vec::new();
        let kb = self.key.as_str().as_bytes_vec();
        if kb.len() > 0 {
            out.push(0x0a);
            push_varint(&mut out, kb.len() as u64);
            crate::be::push_bytes(&mut out, kb.as_slice());
        }
        assert(out@ =~= key_field(self@));
        let ghost mark1 = out@;
        if self.type_ != 0 {
            out.push(0x10);
            push_varint(&mut out, #[verifier::truncate] (self.type_ as i64 as u64));
        }
        assert(out@ =~= mark1 + type_field(self@));
        let ghost mark2 = out@;
        if self.value.len() > 0 {
            out.push(0x1a);
            push_varint(&mut out, self.value.len() as u64);
            crate::be::push_bytes(&mut out, self.value.as_slice());
        }
        assert(out@ =~= mark2 + value_field(self@));
        assert(out@ =~= payload_of(self@));
        out
    }

    /// Decodes a payload; rejected payloads surface as `DecodeFailed`.
    pub fn from_encoded_bytes(data: &[u8]) -> (r: Result<Self, Error>)
        ensures
            match r {
                Ok(b) => kv_decode(data@) == Some(b@) && model_bounds(b@),
                Err(e) => kv_decode(data@) is None && e is DecodeFailed,
            },
    {
        let mut key: String = String::new();
        let mut typ: i32 = 0;
        let mut value: Vec<u8> = Vec::new();
        let mut i: usize = 0;
        proof {
            assert(data@.skip(0) =~= data@);
            assert((BufModel { key: key@, typ: typ, value: value@ }) =~= kv_default());
            assert(vstd::utf8::encode_utf8(key@) =~= Seq::<u8>::empty());
        }
        loop
            invariant
                i <= data@.len(),
                kv_decode_from(
                    data@.skip(i as int),
                    BufModel { key: key@, typ: typ, value: value@ },
                ) == kv_decode(data@),
                vstd::utf8::encode_utf8(key@).len() <= u64::MAX,
                value@.len() <= u64::MAX,
            decreases data@.len() - i,
        {
            let ghost s = data@.skip(i as int);
            let ghost acc = BufModel { key: key@, typ: typ, value: value@ };
            if i >= data.len() {
                return Ok(Buffer { key, type_: typ, value });
            }
            let (tag, after_tag) = match read_varint(data, i) {
                None => {
                    return Err(Error::DecodeFailed(field_error()));
                },
                Some(p) => p,
            };
            proof {
                assert(varint_decode(s) == Some((tag, after_tag - i)));
            }
            if tag == 0x0a || tag == 0x1a {
                let ghost n = after_tag - i;
                proof {
                    assert(s.skip(n) =~= data@.skip(after_tag as int));
                }
                let (len, after_len) = match read_varint(data, after_tag) {
                    None => {
                        return Err(Error::DecodeFailed(field_error()));
                    },
                    Some(p) => p,
                };
                let ghost ml = after_len - after_tag;
                if len > (data.len() - after_len) as u64 {
                    proof {
                        assert(n + ml + len > s.len());
                    }
                    return Err(Error::DecodeFailed(field_error()));
                }
                let end = after_len + (len as usize);
                let bytes = crate::be::copy_range(data, after_len, end);
                proof {
                    assert(bytes@ =~= s.subrange(n + ml, n + ml + len));
                    assert(data@.skip(end as int) =~= s.skip(n + ml + len));
                }
                if tag == 0x0a {
                    let blen = bytes.len();
                    match string_from_utf8(bytes) {
                        Some(k) => {
                            proof {
                                vstd::utf8::decode_utf8_encode_utf8(bytes@);
                                assert((BufModel { key: k@, typ: typ, value: value@ }) =~= (
                                BufModel {
                                    key: vstd::utf8::decode_utf8(s.subrange(n + ml, n + ml + len)),
                                    ..acc
                                }));
                            }
                            key = k;
                            i = end;
                        },
                        None => {
                            return Err(Error::DecodeFailed(field_error()));
                        },
                    }
                } else {
                    proof {
                        assert((BufModel { key: key@, typ: typ, value: bytes@ }) =~= (BufModel {
                            value: s.subrange(n + ml, n + ml + len),
                            ..acc
                        }));
                    }
                    value = bytes;
                    i = end;
                }
            } else if tag == 0x10 {
                let ghost n = after_tag - i;
                proof {
                    assert(s.skip(n) =~= data@.skip(after_tag as int));
                }
                let (v, after_v) = match read_varint(data, after_tag) {
                    None => {
                        return Err(Error::DecodeFailed(field_error()));
                    },
                    Some(p) => p,
                };
                let ghost ml = after_v - after_tag;
                proof {
                    assert(data@.skip(after_v as int) =~= s.skip(n + ml));
                    assert((BufModel {
                        key: key@,
                        typ: (v as i32) as i32,
                        value: value@,
                    }) =~= (BufModel { typ: v as i32, ..acc }));
                }
                typ = #[verifier::truncate] (v as i32);
                i = after_v;
            } else {
                return Err(Error::DecodeFailed(field_error()));
            }
        }
    }
}

fn field_error() -> String {
    "malformed record payload".to_owned()
}

/// The outcome of decoding one frame: the record, unless the frame failed
/// its integrity check, and the whole frame's length in bytes.
pub struct DecodeResult {
    pub buffer: Option<Buffer>,
    pub len: u32,
}

/// The model of a decoded frame's record, when there is one.
pub open spec fn opt_model(o: Option<Buffer>) -> Option<BufModel> {
    match o {
        Some(b) => Some(b@),
        None => None,
    }
}

/// The size bounds every record held in memory satisfies.
pub open spec fn model_bounds(m: BufModel) -> bool {
    vstd::utf8::encode_utf8(m.key).len() <= u64::MAX && m.value.len() <= u64::MAX
}

/// A value that can be serialised into a record's value bytes.
pub trait ToBytes {
    /// The bytes this value serialises to.
    spec fn bytes_spec(&self) -> Seq<u8>;

    /// Serialises the value.
    fn to_bytes(&self) -> (r: Vec<u8>)
        ensures
            r@ == self.bytes_spec(),
    ;
}

/// A value kind with a fixed type tag.
pub trait ProvideTypeToken {
    /// The tag this kind is stored under.
    spec fn token_spec() -> i32;

    /// The tag this kind is stored under.
    fn type_token() -> (r: TypeToken)
        ensures
            r@ == Self::token_spec() as int,
    ;
}

/// A value that can be read back from a record's value bytes.
pub trait FromBytes: Sized + View {
    /// The value (as its view) read from `b`, or `None` when `b` is rejected.
    spec fn from_bytes_model(b: Seq<u8>) -> Option<Self::V>;

    /// Deserialises a value; rejected bytes surface as `DataInvalid`.
    fn from_bytes(bytes: &[u8]) -> (r: Result<Self, Error>)
        ensures
            match r {
                Ok(v) => Self::from_bytes_model(bytes@) == Some(v@),
                Err(e) => Self::from_bytes_model(bytes@) is None && e == Error::DataInvalid,
            },
    ;
}

impl Buffer {
    /// Builds the record storing `value` under `key`.
    pub fn new<T: ProvideTypeToken + ToBytes>(key: &str, value: T) -> (r: Buffer)
        ensures
            r@ == (BufModel { key: key@, typ: T::token_spec(), value: value.bytes_spec() }),
            model_bounds(r@),
    {
        let token = T::type_token();
        let bytes = value.to_bytes();
        let r = Buffer::from_kv(key, token.token(), bytes);
        proof {
            assert(r@ =~= BufModel { key: key@, typ: T::token_spec(), value: value.bytes_spec() });
        }
        r
    }

    /// Reads the record's value as a `T`. Tombstones read as `KeyNotFound`,
    /// a tag of another kind as `TypeMissMatch`, and bytes that `T` rejects
    /// as `DataInvalid`.
    pub fn parse<T: ProvideTypeToken + FromBytes>(&self) -> (r: Result<T, Error>)
        ensures
            is_tombstone(self@) ==> r == Err::<T, Error>(Error::KeyNotFound),
            !is_tombstone(self@) && self@.typ != T::token_spec() ==> r == Err::<T, Error>(
                Error::TypeMissMatch,
            ),
            !is_tombstone(self@) && self@.typ == T::token_spec() ==> match T::from_bytes_model(
                self@.value,
            ) {
                Some(mv) => r matches Ok(v) && v@ == mv,
                None => r == Err::<T, Error>(Error::DataInvalid),
            },
    {
        if self.is_deleting() {
            return Err(Error::KeyNotFound);
        }
        let token = T::type_token();
        if token.token() != self.type_ {
            return Err(Error::TypeMissMatch);
        }
        T::from_bytes(self.value.as_slice())
    }
}

impl ToBytes for i32 {
    open spec fn bytes_spec(&self) -> Seq<u8> {
        crate::be::i32_be(*self)
    }

    fn to_bytes(&self) -> (r: Vec<u8>) {
        let mut out: Vec<u8> = Vec::new();
        crate::be::push_i32_be(&mut out, *self);
        out
    }
}

impl ProvideTypeToken for i32 {
    open spec fn token_spec() -> i32 {
        spec_token_of(Types::I32)
    }

    fn type_token() -> (r: TypeToken) {
        TypeToken::from_int_unchecked(Types::I32.value())
    }
}

impl FromBytes for i32 {
    open spec fn from_bytes_model(b: Seq<u8>) -> Option<i32> {
        if b.len() < 4 {
            None
        } else {
            Some(crate::be::be_i32(b.subrange(0, 4)))
        }
    }

    fn from_bytes(bytes: &[u8]) -> (r: Result<Self, Error>) {
        if bytes.len() < 4 {
            return Err(Error::DataInvalid);
        }
        Ok(crate::be::read_i32_be(bytes, 0))
    }
}

impl ToBytes for i64 {
    open spec fn bytes_spec(&self) -> Seq<u8> {
        crate::be::i64_be(*self)
    }

    fn to_bytes(&self) -> (r: Vec<u8>) {
        let mut out: Vec<u8> = Vec::new();
        crate::be::push_i64_be(&mut out, *self);
        out
    }
}

impl ProvideTypeToken for i64 {
    open spec fn token_spec() -> i32 {
        spec_token_of(Types::I64)
    }

    fn type_token() -> (r: TypeToken) {
        TypeToken::from_int_unchecked(Types::I64.value())
    }
}

impl FromBytes for i64 {
    open spec fn from_bytes_model(b: Seq<u8>) -> Option<i64> {
        if b.len() < 8 {
            None
        } else {
            Some(crate::be::be_i64(b.subrange(0, 8)))
        }
    }

    fn from_bytes(bytes: &[u8]) -> (r: Result<Self, Error>) {
        if bytes.len() < 8 {
            return Err(Error::DataInvalid);
        }
        Ok(crate::be::read_i64_be(bytes, 0))
    }
}

impl ToBytes for bool {
    open spec fn bytes_spec(&self) -> Seq<u8> {
        if *self {
            seq![1u8]
        } else {
            seq![0u8]
        }
    }

    fn to_bytes(&self) -> (r: Vec<u8>) {
        let mut out: Vec<u8> = Vec::new();
        if *self {
            out.push(1);
        } else {
            out.push(0);
        }
        proof {
            assert(out@ =~= self.bytes_spec());
        }
        out
    }
}

impl ProvideTypeToken for bool {
    open spec fn token_spec() -> i32 {
        spec_token_of(Types::Byte)
    }

    fn type_token() -> (r: TypeToken) {
        TypeToken::from_int_unchecked(Types::Byte.value())
    }
}

impl FromBytes for bool {
    open spec fn from_bytes_model(b: Seq<u8>) -> Option<bool> {
        if b.len() < 1 {
            None
        } else {
            Some(b[0] == 1)
        }
    }

    fn from_bytes(bytes: &[u8]) -> (r: Result<Self, Error>) {
        if bytes.len() < 1 {
            return Err(Error::DataInvalid);
        }
        Ok(bytes[0] == 1)
    }
}

impl ToBytes for String {
    open spec fn bytes_spec(&self) -> Seq<u8> {
        vstd::utf8::encode_utf8(self@)
    }

    fn to_bytes(&self) -> (r: Vec<u8>) {
        self.as_str().as_bytes_vec()
    }
}

impl ProvideTypeToken for String {
    open spec fn token_spec() -> i32 {
        spec_token_of(Types::Str)
    }

    fn type_token() -> (r: TypeToken) {
        TypeToken::from_int_unchecked(Types::Str.value())
    }
}

impl FromBytes for String {
    open spec fn from_bytes_model(b: Seq<u8>) -> Option<Seq<char>> {
        if vstd::utf8::valid_utf8(b) {
            Some(vstd::utf8::decode_utf8(b))
        } else {
            None
        }
    }

    fn from_bytes(bytes: &[u8]) -> (r: Result<Self, Error>) {
        let copied = crate::be::copy_range(bytes, 0, bytes.len());
        proof {
            assert(copied@ =~= bytes@);
        }
        match string_from_utf8(copied) {
            Some(s) => Ok(s),
            None => Err(Error::DataInvalid),
        }
    }
}

impl ToBytes for Vec<u8> {
    open spec fn bytes_spec(&self) -> Seq<u8> {
        self@
    }

    fn to_bytes(&self) -> (r: Vec<u8>) {
        let r = crate::be::copy_range(self.as_slice(), 0, self.len());
        proof {
            assert(r@ =~= self@);
        }
        r
    }
}

impl ProvideTypeToken for Vec<u8> {
    open spec fn token_spec() -> i32 {
        spec_token_of(Types::ByteArray)
    }

    fn type_token() -> (r: TypeToken) {
        TypeToken::from_int_unchecked(Types::ByteArray.value())
    }
}

impl FromBytes for Vec<u8> {
    open spec fn from_bytes_model(b: Seq<u8>) -> Option<Seq<u8>> {
        Some(b)
    }

    fn from_bytes(bytes: &[u8]) -> (r: Result<Self, Error>) {
        let r = crate::be::copy_range(bytes, 0, bytes.len());
        proof {
            assert(r@ =~= bytes@);
        }
        Ok(r)
    }
}

/// The concatenated big-endian encodings of a sequence of `i32`s.
pub open spec fn i32s_be(s: Seq<i32>) -> Seq<u8>
    decreases s.len(),
{
    if s.len() == 0 {
        Seq::empty()
    } else {
        crate::be::i32_be(s[0]) + i32s_be(s.skip(1))
    }
}

/// The concatenated big-endian encodings of a sequence of `i64`s.
pub open spec fn i64s_be(s: Seq<i64>) -> Seq<u8>
    decreases s.len(),
{
    if s.len() == 0 {
        Seq::empty()
    } else {
        crate::be::i64_be(s[0]) + i64s_be(s.skip(1))
    }
}

proof fn lemma_i32s_be_push(s: Seq<i32>, x: i32)
    ensures
        i32s_be(s.push(x)) == i32s_be(s) + crate::be::i32_be(x),
    decreases s.len(),
{
    if s.len() == 0 {
        assert(s.push(x)[0] == x);
        assert(s.push(x).skip(1) =~= Seq::<i32>::empty());
        assert(i32s_be(s.push(x)) == crate::be::i32_be(x) + i32s_be(Seq::<i32>::empty()));
        assert(i32s_be(s.push(x)) =~= i32s_be(s) + crate::be::i32_be(x));
    } else {
        assert(s.push(x)[0] == s[0]);
        assert(s.push(x).skip(1) =~= s.skip(1).push(x));
        lemma_i32s_be_push(s.skip(1), x);
        assert(i32s_be(s.push(x)) =~= i32s_be(s) + crate::be::i32_be(x));
    }
}

proof fn lemma_i64s_be_push(s: Seq<i64>, x: i64)
    ensures
        i64s_be(s.push(x)) == i64s_be(s) + crate::be::i64_be(x),
    decreases s.len(),
{
    if s.len() == 0 {
        assert(s.push(x)[0] == x);
        assert(s.push(x).skip(1) =~= Seq::<i64>::empty());
        assert(i64s_be(s.push(x)) == crate::be::i64_be(x) + i64s_be(Seq::<i64>::empty()));
        assert(i64s_be(s.push(x)) =~= i64s_be(s) + crate::be::i64_be(x));
    } else {
        assert(s.push(x)[0] == s[0]);
        assert(s.push(x).skip(1) =~= s.skip(1).push(x));
        lemma_i64s_be_push(s.skip(1), x);
        assert(i64s_be(s.push(x)) =~= i64s_be(s) + crate::be::i64_be(x));
    }
}

/// An `i32` array encoding is four bytes per element, and each element sits
/// at its own offset.
pub proof fn lemma_i32s_be_index(s: Seq<i32>)
    ensures
        i32s_be(s).len() == 4 * s.len(),
        forall|i: int|
            0 <= i < s.len() ==> #[trigger] i32s_be(s).subrange(4 * i, 4 * i + 4)
                == crate::be::i32_be(s[i]),
    decreases s.len(),
{
    if s.len() > 0 {
        lemma_i32s_be_index(s.skip(1));
        assert forall|i: int| 0 <= i < s.len() implies #[trigger] i32s_be(s).subrange(
            4 * i,
            4 * i + 4,
        ) == crate::be::i32_be(s[i]) by {
            if i == 0 {
                assert(i32s_be(s).subrange(0, 4) =~= crate::be::i32_be(s[0]));
            } else {
                assert(i32s_be(s).subrange(4 * i, 4 * i + 4) =~= i32s_be(s.skip(1)).subrange(
                    4 * (i - 1),
                    4 * (i - 1) + 4,
                ));
                assert(s.skip(1)[i - 1] == s[i]);
            }
        }
    }
}

/// An `i64` array encoding is eight bytes per element, and each element sits
/// at its own offset.
pub proof fn lemma_i64s_be_index(s: Seq<i64>)
    ensures
        i64s_be(s).len() == 8 * s.len(),
        forall|i: int|
            0 <= i < s.len() ==> #[trigger] i64s_be(s).subrange(8 * i, 8 * i + 8)
                == crate::be::i64_be(s[i]),
    decreases s.len(),
{
    if s.len() > 0 {
        lemma_i64s_be_index(s.skip(1));
        assert forall|i: int| 0 <= i < s.len() implies #[trigger] i64s_be(s).subrange(
            8 * i,
            8 * i + 8,
        ) == crate::be::i64_be(s[i]) by {
            if i == 0 {
                assert(i64s_be(s).subrange(0, 8) =~= crate::be::i64_be(s[0]));
            } else {
                assert(i64s_be(s).subrange(8 * i, 8 * i + 8) =~= i64s_be(s.skip(1)).subrange(
                    8 * (i - 1),
                    8 * (i - 1) + 8,
                ));
                assert(s.skip(1)[i - 1] == s[i]);
            }
        }
    }
}

impl ToBytes for Vec<i32> {
    open spec fn bytes_spec(&self) -> Seq<u8> {
        i32s_be(self@)
    }

    fn to_bytes(&self) -> (r: Vec<u8>) {
        let mut out: Vec<u8> = Vec::new();
        let mut i: usize = 0;
        proof {
            assert(self@.take(0) =~= Seq::<i32>::empty());
        }
        while i < self.len()
            invariant
                i <= self@.len(),
                out@ == i32s_be(self@.take(i as int)),
            decreases self@.len() - i,
        {
            crate::be::push_i32_be(&mut out, self[i]);
            proof {
                lemma_i32s_be_push(self@.take(i as int), self@[i as int]);
                assert(self@.take(i + 1) =~= self@.take(i as int).push(self@[i as int]));
            }
            i = i + 1;
        }
        proof {
            assert(self@.take(self@.len() as int) =~= self@);
        }
        out
    }
}

impl ProvideTypeToken for Vec<i32> {
    open spec fn token_spec() -> i32 {
        spec_token_of(Types::I32Array)
    }

    fn type_token() -> (r: TypeToken) {
        TypeToken::from_int_unchecked(Types::I32Array.value())
    }
}

impl FromBytes for Vec<i32> {
    open spec fn from_bytes_model(b: Seq<u8>) -> Option<Seq<i32>> {
        if b.len() % 4 != 0 {
            None
        } else {
            Some(Seq::new(b.len() / 4, |i: int| crate::be::be_i32(b.subrange(4 * i, 4 * i + 4))))
        }
    }

    fn from_bytes(bytes: &[u8]) -> (r: Result<Self, Error>) {
        if bytes.len() % 4 != 0 {
            return Err(Error::DataInvalid);
        }
        let count = bytes.len() / 4;
        let mut out: Vec<i32> = Vec::new();
        let mut k: usize = 0;
        while k < count
            invariant
                k <= count,
                count == bytes@.len() / 4,
                bytes@.len() % 4 == 0,
                bytes@.len() <= usize::MAX,
                out@.len() == k,
                forall|j: int|
                    0 <= j < k ==> out@[j] == crate::be::be_i32(
                        #[trigger] bytes@.subrange(4 * j, 4 * j + 4),
                    ),
            decreases count - k,
        {
            proof {
                vstd::arithmetic::div_mod::lemma_fundamental_div_mod(bytes@.len() as int, 4);
            }
            out.push(crate::be::read_i32_be(bytes, 4 * k));
            k = k + 1;
        }
        proof {
            assert(out@ =~= Seq::new(
                bytes@.len() / 4,
                |i: int| crate::be::be_i32(bytes@.subrange(4 * i, 4 * i + 4)),
            ));
        }
        Ok(out)
    }
}

impl ToBytes for Vec<i64> {
    open spec fn bytes_spec(&self) -> Seq<u8> {
        i64s_be(self@)
    }

    fn to_bytes(&self) -> (r: Vec<u8>) {
        let mut out: Vec<u8> = Vec::new();
        let mut i: usize = 0;
        proof {
            assert(self@.take(0) =~= Seq::<i64>::empty());
        }
        while i < self.len()
            invariant
                i <= self@.len(),
                out@ == i64s_be(self@.take(i as int)),
            decreases self@.len() - i,
        {
            crate::be::push_i64_be(&mut out, self[i]);
            proof {
                lemma_i64s_be_push(self@.take(i as int), self@[i as int]);
                assert(self@.take(i + 1) =~= self@.take(i as int).push(self@[i as int]));
            }
            i = i + 1;
        }
        proof {
            assert(self@.take(self@.len() as int) =~= self@);
        }
        out
    }
}

impl ProvideTypeToken for Vec<i64> {
    open spec fn token_spec() -> i32 {
        spec_token_of(Types::I64Array)
    }

    fn type_token() -> (r: TypeToken) {
        TypeToken::from_int_unchecked(Types::I64Array.value())
    }
}

impl FromBytes for Vec<i64> {
    open spec fn from_bytes_model(b: Seq<u8>) -> Option<Seq<i64>> {
        if b.len() % 8 != 0 {
            None
        } else {
            Some(Seq::new(b.len() / 8, |i: int| crate::be::be_i64(b.subrange(8 * i, 8 * i + 8))))
        }
    }

    fn from_bytes(bytes: &[u8]) -> (r: Result<Self, Error>) {
        if bytes.len() % 8 != 0 {
            return Err(Error::DataInvalid);
        }
        let count = bytes.len() / 8;
        let mut out: Vec<i64> = Vec::new();
        let mut k: usize = 0;
        while k < count
            invariant
                k <= count,
                count == bytes@.len() / 8,
                bytes@.len() % 8 == 0,
                bytes@.len() <= usize::MAX,
                out@.len() == k,
                forall|j: int|
                    0 <= j < k ==> out@[j] == crate::be::be_i64(
                        #[trigger] bytes@.subrange(8 * j, 8 * j + 8),
                    ),
            decreases count - k,
        {
            proof {
                vstd::arithmetic::div_mod::lemma_fundamental_div_mod(bytes@.len() as int, 8);
            }
            out.push(crate::be::read_i64_be(bytes, 8 * k));
            k = k + 1;
        }
        proof {
            assert(out@ =~= Seq::new(
                bytes@.len() / 8,
                |i: int| crate::be::be_i64(bytes@.subrange(8 * i, 8 * i + 8)),
            ));
        }
        Ok(out)
    }
}

/// Reading back a serialised `i32` gives the value written.
pub proof fn lemma_value_roundtrip_i32(v: i32)
    ensures
        <i32 as FromBytes>::from_bytes_model(v.bytes_spec()) == Some(v),
        <i32 as ProvideTypeToken>::token_spec() != spec_token_of(Types::Deleted),
{
    assert(crate::be::i32_be(v).subrange(0, 4) =~= crate::be::i32_be(v));
    crate::be::lemma_i32_be_roundtrip(v);
}

/// Reading back a serialised `i64` gives the value written.
pub proof fn lemma_value_roundtrip_i64(v: i64)
    ensures
        <i64 as FromBytes>::from_bytes_model(v.bytes_spec()) == Some(v),
        <i64 as ProvideTypeToken>::token_spec() != spec_token_of(Types::Deleted),
{
    assert(crate::be::i64_be(v).subrange(0, 8) =~= crate::be::i64_be(v));
    crate::be::lemma_i64_be_roundtrip(v);
}

/// Reading back a serialised `bool` gives the value written.
pub proof fn lemma_value_roundtrip_bool(v: bool)
    ensures
        <bool as FromBytes>::from_bytes_model(v.bytes_spec()) == Some(v),
        <bool as ProvideTypeToken>::token_spec() != spec_token_of(Types::Deleted),
{
}

/// Reading back a serialised string gives the characters written.
pub proof fn lemma_value_roundtrip_str(v: Seq<char>)
    ensures
        <String as FromBytes>::from_bytes_model(vstd::utf8::encode_utf8(v)) == Some(v),
        <String as ProvideTypeToken>::token_spec() != spec_token_of(Types::Deleted),
{
}

/// Reading back a serialised byte array gives the bytes written.
pub proof fn lemma_value_roundtrip_bytes(v: Seq<u8>)
    ensures
        <Vec<u8> as FromBytes>::from_bytes_model(v) == Some(v),
        <Vec<u8> as ProvideTypeToken>::token_spec() != spec_token_of(Types::Deleted),
{
}

/// Reading back a serialised `i32` array gives the elements written.
pub proof fn lemma_value_roundtrip_i32s(v: Seq<i32>)
    ensures
        <Vec<i32> as FromBytes>::from_bytes_model(i32s_be(v)) == Some(v),
        <Vec<i32> as ProvideTypeToken>::token_spec() != spec_token_of(Types::Deleted),
{
    lemma_i32s_be_index(v);
    let b = i32s_be(v);
    assert(Seq::new(b.len() / 4, |i: int| crate::be::be_i32(b.subrange(4 * i, 4 * i + 4))) =~= v)
        by {
        assert forall|i: int| 0 <= i < v.len() implies crate::be::be_i32(
            b.subrange(4 * i, 4 * i + 4),
        ) == v[i] by {
            crate::be::lemma_i32_be_roundtrip(v[i]);
        }
    }
}

/// Reading back a serialised `i64` array gives the elements written.
pub proof fn lemma_value_roundtrip_i64s(v: Seq<i64>)
    ensures
        <Vec<i64> as FromBytes>::from_bytes_model(i64s_be(v)) == Some(v),
        <Vec<i64> as ProvideTypeToken>::token_spec() != spec_token_of(Types::Deleted),
{
    lemma_i64s_be_index(v);
    let b = i64s_be(v);
    assert(Seq::new(b.len() / 8, |i: int| crate::be::be_i64(b.subrange(8 * i, 8 * i + 8))) =~= v)
        by {
        assert forall|i: int| 0 <= i < v.len() implies crate::be::be_i64(
            b.subrange(8 * i, 8 * i + 8),
        ) == v[i] by {
            crate::be::lemma_i64_be_roundtrip(v[i]);
        }
    }
}

} // verus!
