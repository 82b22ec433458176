//! A persistent, typed key-value store for small records and frequent
//! overwrites.
//!
//! Values are kept in an in-memory index and appended to a single
//! fixed-layout data file image: an 8-byte write-offset header followed by
//! length-prefixed frames, each carrying one typed record protected by a
//! CRC-8 checksum or by AES-128-EAX authenticated encryption.

use vstd::prelude::*;

pub mod be;
pub mod buffer;
pub mod codec;
pub mod crc;
pub mod encrypt;
pub mod hexutil;
pub mod index;
pub mod log;
pub mod memory_map;
pub mod mmkv_impl;
pub mod types;
pub mod varint;
pub mod writer;

pub use crate::log::LogLevel;
pub use crate::log::Logger;

verus! {

/// The error kinds surfaced by the store and its codecs.
#[derive(Debug)]
pub enum Error {
    KeyNotFound,
    DecodeFailed(String),
    TypeMissMatch,
    DataInvalid,
    InstanceClosed,
    EncodeFailed(String),
    DecryptFailed(String),
    EncryptFailed(String),
    IOError(String),
    LockError(String),
}

impl PartialEq for Error {
    fn eq(&self, other: &Error) -> bool {
        match (self, other) {
            (Error::KeyNotFound, Error::KeyNotFound) => true,
            (Error::DecodeFailed(a), Error::DecodeFailed(b)) => *a == *b,
            (Error::TypeMissMatch, Error::TypeMissMatch) => true,
            (Error::DataInvalid, Error::DataInvalid) => true,
            (Error::InstanceClosed, Error::InstanceClosed) => true,
            (Error::EncodeFailed(a), Error::EncodeFailed(b)) => *a == *b,
            (Error::DecryptFailed(a), Error::DecryptFailed(b)) => *a == *b,
            (Error::EncryptFailed(a), Error::EncryptFailed(b)) => *a == *b,
            (Error::IOError(a), Error::IOError(b)) => *a == *b,
            (Error::LockError(a), Error::LockError(b)) => *a == *b,
            _ => false,
        }
    }
}

impl vstd::std_specs::cmp::PartialEqSpecImpl for Error {
    open spec fn obeys_eq_spec() -> bool {
        true
    }

    open spec fn eq_spec(&self, other: &Error) -> bool {
        match (self, other) {
            (Error::KeyNotFound, Error::KeyNotFound) => true,
            (Error::DecodeFailed(a), Error::DecodeFailed(b)) => a@ == b@,
            (Error::TypeMissMatch, Error::TypeMissMatch) => true,
            (Error::DataInvalid, Error::DataInvalid) => true,
            (Error::InstanceClosed, Error::InstanceClosed) => true,
            (Error::EncodeFailed(a), Error::EncodeFailed(b)) => a@ == b@,
            (Error::DecryptFailed(a), Error::DecryptFailed(b)) => a@ == b@,
            (Error::EncryptFailed(a), Error::EncryptFailed(b)) => a@ == b@,
            (Error::IOError(a), Error::IOError(b)) => a@ == b@,
            (Error::LockError(a), Error::LockError(b)) => a@ == b@,
            _ => false,
        }
    }
}

} // verus!
