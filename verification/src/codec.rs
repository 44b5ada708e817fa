//! The serialize/deserialize capability applied at the database's read/write
//! boundary.
//!
//! A [`Codec`] encodes a typed value into a bounded byte buffer and decodes a
//! byte slice back into a value. Two reference implementations are provided
//! for `u32` payloads: [`Postcard`], a compact schema-driven binary encoding,
//! and [`Json`], a self-describing human-readable text encoding. Both call
//! into their encoding crates through a small trusted boundary; everything
//! above that boundary is verified against the named encodings.

use vstd::prelude::*;

verus! {

/// Why an encode or decode failed.
#[derive(Debug, Clone, Copy, PartialEq, Eq, Structural)]
pub enum CodecError {
    /// The encoding does not fit the caller's buffer bound.
    BufferTooSmall,
    /// The value cannot be represented by this codec.
    SerializationError,
    /// The bytes are not a well-formed encoding of the expected type.
    DeserializationError,
}

/// A pluggable serialize/deserialize capability for values of type `T`.
///
/// `enc` and `dec` are the codec's mathematical encoding and decoding
/// functions; `encode` and `decode` are their executable counterparts. Every
/// implementation guarantees that decoding inverts encoding: a successful
/// `encode` returns bytes that `dec` maps back to the encoded value.
pub trait Codec<T> {
    type Error;

    /// The encoded byte form of `v`.
    spec fn enc(v: T) -> Seq<u8>;

    /// The value that a byte sequence decodes to, if any.
    spec fn dec(bytes: Seq<u8>) -> Option<T>;

    /// Whether `v` can be represented by this codec at all.
    spec fn serializable(v: T) -> bool;

    /// Encode `v` into a fresh buffer of at most `max` bytes.
    fn encode(v: &T, max: usize) -> (r: Result<Vec<u8>, Self::Error>)
        ensures
            r is Ok <==> Self::serializable(*v) && Self::enc(*v).len() <= max,
            r matches Ok(b) ==> b@ == Self::enc(*v) && Self::dec(b@) == Some(*v),
    ;

    /// Decode a full encoded representation back into a value.
    fn decode(src: &[u8]) -> (r: Result<T, Self::Error>)
        ensures
            r is Ok <==> Self::dec(src@) is Some,
            r matches Ok(v) ==> Self::dec(src@) == Some(v),
    ;
}

/// The bytes that the compact binary encoding produces for `v`.
pub uninterp spec fn postcard_bytes(v: u32) -> Seq<u8>;

/// The value that the compact binary decoder reads from `bytes`, if any.
pub uninterp spec fn postcard_decoded(bytes: Seq<u8>) -> Option<u32>;

/// The bytes that the text encoding produces for `v`.
pub uninterp spec fn json_bytes(v: u32) -> Seq<u8>;

/// The value that the text decoder reads from `bytes`, if any.
pub uninterp spec fn json_decoded(bytes: Seq<u8>) -> Option<u32>;

/// Relies on postcard::to_allocvec: a `u32` becomes a varint of at most five
/// bytes, a function of the value alone; encoding a `u32` into a growing
/// buffer cannot fail, and postcard::from_bytes reads the value back.
#[verifier::external_body]
pub(crate) fn postcard_encode_u32(v: u32) -> (r: Vec<u8>)
    ensures
        r@ == postcard_bytes(v),
        r@.len() <= 5,
        postcard_decoded(r@) == Some(v),
{
    postcard::to_allocvec(&v).unwrap()
}

/// Relies on postcard::from_bytes: whether a `u32` is read, and which, is a
/// function of the input bytes alone.
#[verifier::external_body]
pub(crate) fn postcard_decode_u32(src: &[u8]) -> (r: Option<u32>)
    ensures
        r == postcard_decoded(src@),
{
    postcard::from_bytes(src).ok()
}

/// Relies on serde_json_core::to_slice: a `u32` becomes its decimal text, at
/// most ten bytes, a function of the value alone; it fails only when the
/// buffer is too small, and serde_json_core::from_slice reads the value back.
#[verifier::external_body]
fn json_encode_u32(v: u32) -> (r: Vec<u8>)
    ensures
        r@ == json_bytes(v),
        r@.len() <= 10,
        json_decoded(r@) == Some(v),
{
    let mut buf = [0u8; 16];
    let n = serde_json_core::to_slice(&v, &mut buf).unwrap();
    buf[..n].to_vec()
}

/// Relies on serde_json_core::from_slice: whether a `u32` is read, and which,
/// is a function of the input bytes alone.
#[verifier::external_body]
fn json_decode_u32(src: &[u8]) -> (r: Option<u32>)
    ensures
        r == json_decoded(src@),
{
    serde_json_core::from_slice(src).map(|(v, _rest)| v).ok()
}

/// The human-readable text codec.
pub struct Json;

impl Codec<u32> for Json {
    type Error = CodecError;

    open spec fn enc(v: u32) -> Seq<u8> {
        json_bytes(v)
    }

    open spec fn dec(bytes: Seq<u8>) -> Option<u32> {
        json_decoded(bytes)
    }

    open spec fn serializable(v: u32) -> bool {
        true
    }

    fn encode(v: &u32, max: usize) -> (r: Result<Vec<u8>, CodecError>) {
        let b = json_encode_u32(*v);
        if b.len() <= max {
            Ok(b)
        } else {
            Err(CodecError::BufferTooSmall)
        }
    }

    fn decode(src: &[u8]) -> (r: Result<u32, CodecError>) {
        match json_decode_u32(src) {
            Some(v) => Ok(v),
            None => Err(CodecError::DeserializationError),
        }
    }
}

/// The compact binary codec.
pub struct Postcard;

impl Codec<u32> for Postcard {
    type Error = CodecError;

    open spec fn enc(v: u32) -> Seq<u8> {
        postcard_bytes(v)
    }

    open spec fn dec(bytes: Seq<u8>) -> Option<u32> {
        postcard_decoded(bytes)
    }

    open spec fn serializable(v: u32) -> bool {
        true
    }

    fn encode(v: &u32, max: usize) -> (r: Result<Vec<u8>, CodecError>) {
        let b = postcard_encode_u32(*v);
        if b.len() <= max {
            Ok(b)
        } else {
            Err(CodecError::BufferTooSmall)
        }
    }

    fn decode(src: &[u8]) -> (r: Result<u32, CodecError>) {
        match postcard_decode_u32(src) {
            Some(v) => Ok(v),
            None => Err(CodecError::DeserializationError),
        }
    }
}

} // verus!
