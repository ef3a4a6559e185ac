//! The typed coder: a pure pair of encode/decode functions between a
//! caller's key and value types and the raw bytes a table stores. Each
//! implementation names its encoding as spec functions and proves its
//! executable halves against them, so everything layered over a coder
//! carries exact contracts.

use vstd::prelude::*;

use crate::codec::{spec_be_to_u32, spec_u32_to_be, u32_to_u8a4, u8s_to_u32};

verus! {

/// A pure encoder/decoder pair for one (key, value) type pair, layered
/// over tables, cursors and write batches for strongly typed reads and
/// writes. The spec functions say what the encoding is; the executable
/// functions are proved to compute it.
pub trait Coder<K: DeepView, V: DeepView> {
    /// The bytes a key encodes to.
    spec fn spec_encode_key(key: K::V) -> Seq<u8>;

    /// The key some bytes decode to.
    spec fn spec_decode_key(bytes: Seq<u8>) -> K::V;

    /// The bytes a value encodes to.
    spec fn spec_encode_value(value: V::V) -> Seq<u8>;

    /// The value some bytes decode to.
    spec fn spec_decode_value(bytes: Seq<u8>) -> V::V;

    fn encode_key(key: &K) -> (r: Vec<u8>)
        ensures
            r@ == Self::spec_encode_key(key.deep_view()),
    ;

    fn decode_key(key: &[u8]) -> (r: K)
        ensures
            r.deep_view() == Self::spec_decode_key(key@),
    ;

    fn encode_value(value: &V) -> (r: Vec<u8>)
        ensures
            r@ == Self::spec_encode_value(value.deep_view()),
    ;

    fn decode_value(value: &[u8]) -> (r: V)
        ensures
            r.deep_view() == Self::spec_decode_value(value@),
    ;
}

/// Keys and values both 32-bit numbers, stored as four big-endian
/// bytes each, so the typed order matches the byte order. Bytes too
/// short to hold a number decode to zero.
pub struct U32Coder;

impl Coder<u32, u32> for U32Coder {
    open spec fn spec_encode_key(key: u32) -> Seq<u8> {
        spec_u32_to_be(key)
    }

    open spec fn spec_decode_key(bytes: Seq<u8>) -> u32 {
        if bytes.len() >= 4 {
            spec_be_to_u32(bytes.subrange(0, 4))
        } else {
            0
        }
    }

    open spec fn spec_encode_value(value: u32) -> Seq<u8> {
        spec_u32_to_be(value)
    }

    open spec fn spec_decode_value(bytes: Seq<u8>) -> u32 {
        if bytes.len() >= 4 {
            spec_be_to_u32(bytes.subrange(0, 4))
        } else {
            0
        }
    }

    fn encode_key(key: &u32) -> (r: Vec<u8>) {
        vstd::slice::slice_to_vec(u32_to_u8a4(*key).as_slice())
    }

    fn decode_key(key: &[u8]) -> (r: u32) {
        if key.len() >= 4 {
            u8s_to_u32(key)
        } else {
            0
        }
    }

    fn encode_value(value: &u32) -> (r: Vec<u8>) {
        vstd::slice::slice_to_vec(u32_to_u8a4(*value).as_slice())
    }

    fn decode_value(value: &[u8]) -> (r: u32) {
        if value.len() >= 4 {
            u8s_to_u32(value)
        } else {
            0
        }
    }
}

/// Keys 32-bit numbers stored as four big-endian bytes, values raw
/// byte strings stored as they are.
pub struct U32BytesCoder;

impl Coder<u32, Vec<u8>> for U32BytesCoder {
    open spec fn spec_encode_key(key: u32) -> Seq<u8> {
        spec_u32_to_be(key)
    }

    open spec fn spec_decode_key(bytes: Seq<u8>) -> u32 {
        if bytes.len() >= 4 {
            spec_be_to_u32(bytes.subrange(0, 4))
        } else {
            0
        }
    }

    open spec fn spec_encode_value(value: Seq<u8>) -> Seq<u8> {
        value
    }

    open spec fn spec_decode_value(bytes: Seq<u8>) -> Seq<u8> {
        bytes
    }

    fn encode_key(key: &u32) -> (r: Vec<u8>) {
        vstd::slice::slice_to_vec(u32_to_u8a4(*key).as_slice())
    }

    fn decode_key(key: &[u8]) -> (r: u32) {
        if key.len() >= 4 {
            u8s_to_u32(key)
        } else {
            0
        }
    }

    fn encode_value(value: &Vec<u8>) -> (r: Vec<u8>) {
        let r = value.clone();
        proof {
            assert(r.deep_view() =~= value.deep_view());
        }
        r
    }

    fn decode_value(value: &[u8]) -> (r: Vec<u8>) {
        let r = vstd::slice::slice_to_vec(value);
        proof {
            assert(r.deep_view() =~= value@);
        }
        r
    }
}

} // verus!
