//! The record type tags. Values 0 through 100 are reserved for the built-in
//! kinds; user-defined tokens live outside that range.

use vstd::prelude::*;

verus! {

/// The built-in record kinds and their wire tags.
#[derive(Clone, Copy, PartialEq, Eq, Structural, Debug, Hash)]
pub enum Types {
    I32,
    Str,
    Byte,
    I64,
    F32,
    F64,
    ByteArray,
    I32Array,
    I64Array,
    F32Array,
    F64Array,
    Deleted,
}

/// The wire tag of each built-in kind.
pub open spec fn spec_token_of(t: Types) -> i32 {
    match t {
        Types::I32 => 0,
        Types::Str => 1,
        Types::Byte => 2,
        Types::I64 => 3,
        Types::F32 => 4,
        Types::F64 => 5,
        Types::ByteArray => 6,
        Types::I32Array => 7,
        Types::I64Array => 8,
        Types::F32Array => 9,
        Types::F64Array => 10,
        Types::Deleted => 100,
    }
}

/// Whether a tag value is reserved for the built-in kinds.
pub open spec fn spec_reserved(token: i32) -> bool {
    0 <= token <= 100
}

impl Types {
    /// The wire tag of this kind.
    pub fn value(&self) -> (r: i32)
        ensures
            r == spec_token_of(*self),
    {
        match self {
            Types::I32 => 0,
            Types::Str => 1,
            Types::Byte => 2,
            Types::I64 => 3,
            Types::F32 => 4,
            Types::F64 => 5,
            Types::ByteArray => 6,
            Types::I32Array => 7,
            Types::I64Array => 8,
            Types::F32Array => 9,
            Types::F64Array => 10,
            Types::Deleted => 100,
        }
    }

    /// Whether a tag value is reserved for the built-in kinds.
    pub fn reserved(value: i32) -> (r: bool)
        ensures
            r == spec_reserved(value),
    {
        0 <= value && value <= 100
    }
}

/// Distinct built-in kinds carry distinct tags: a record stored as one kind
/// reads back as another only as a type mismatch.
pub proof fn lemma_tokens_distinct(a: Types, b: Types)
    ensures
        a != b ==> spec_token_of(a) != spec_token_of(b),
{
}

/// A tag for user-defined record kinds, kept outside the reserved range.
#[derive(Clone, Copy, Debug)]
pub struct TypeToken {
    token: i32,
}

impl View for TypeToken {
    type V = int;

    closed spec fn view(&self) -> int {
        self.token as int
    }
}

impl TypeToken {
    /// Wraps a user-chosen tag; tags 0 through 100 belong to the built-in
    /// kinds and are not accepted here.
    pub fn new(token: i32) -> (r: TypeToken)
        requires
            !spec_reserved(token),
        ensures
            r@ == token,
    {
        TypeToken { token }
    }

    /// Wraps a built-in kind's own tag.
    pub(crate) fn from_int_unchecked(token: i32) -> (r: TypeToken)
        ensures
            r@ == token,
    {
        TypeToken { token }
    }

    /// The wrapped tag value.
    pub fn token(&self) -> (r: i32)
        ensures
            r == self@,
    {
        self.token
    }
}

} // verus!
