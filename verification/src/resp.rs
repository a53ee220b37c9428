//! RESP (Redis Serialization Protocol) frames: a model of the wire format,
//! a verified encoder, and a verified incremental decoder.

use vstd::prelude::*;

pub mod buffer;
pub mod decode;
pub mod encode;
pub mod frame;
pub mod integer;
pub mod laws;

use crate::resp::buffer::bytes_view;
use crate::resp::decode::{LenParsed, Parsed};
use bytes::BytesMut;

verus! {

/// Number of bytes in the CRLF line terminator.
pub const CRLF_LEN: usize = 2;

/// Errors reported by the codec.  Only `NotComplete` is recoverable: it means
/// that the buffer holds a valid proper prefix of a frame and more bytes may
/// still arrive.  Every other variant is fatal for the connection.
#[derive(Debug, Clone, PartialEq, Eq, Structural)]
pub enum RespError {
    /// Structural error inside a frame.
    InvalidFrame,
    /// The first byte of the frame is not one of the known type prefixes.
    InvalidFrameType,
    /// A declared length is negative (outside the two legacy null forms) or
    /// does not agree with the bytes that follow it.
    InvalidFrameLength(i64),
    /// The buffer ends before the frame does.
    NotComplete,
    /// An integer payload is not a well-formed decimal number.
    ParseIntError,
    /// A payload that must be UTF-8 text is not.
    Utf8Error,
    /// A double payload is not a well-formed decimal or scientific number.
    ParseFloatError,
}

/// Types that encode themselves into RESP wire bytes.  The associated spec
/// function pins the exact byte sequence the encoder must produce.
pub trait RespEncode: Sized {
    /// The exact bytes that `encode` returns.
    spec fn spec_encode(self) -> Seq<u8>;

    /// Serialize `self`, consuming it.
    fn encode(self) -> (r: Vec<u8>)
        ensures
            r@ == self.spec_encode(),
    ;
}

/// Types that decode themselves from the front of a byte buffer.
///
/// `spec_parse` classifies the buffer contents: `More` when the bytes form a
/// proper prefix of a frame, `Bad` when they are malformed, `Got(n)` when one
/// complete frame occupies the first `n` bytes.  On success `decode` removes
/// exactly those `n` bytes from the front of the buffer and the returned value
/// satisfies `parse_ok`; on any error the buffer is left untouched.
pub trait RespDecode: Sized {
    /// Outcome of parsing one value of this type from the front of `b`.
    spec fn spec_parse(b: Seq<u8>) -> Parsed;

    /// Relation between the input bytes and a successfully decoded value.
    spec fn parse_ok(b: Seq<u8>, v: Self) -> bool;

    /// Outcome of computing the length of one value of this type at the front
    /// of `b` without materializing it.
    spec fn spec_length(b: Seq<u8>) -> LenParsed;

    /// Decode one value from the front of `buf`, consuming its bytes on
    /// success and leaving `buf` untouched on any error.
    fn decode(buf: &mut BytesMut) -> (r: Result<Self, RespError>)
        ensures
            match Self::spec_parse(bytes_view(*old(buf))) {
                Parsed::Got(_, n) => {
                    &&& r is Ok
                    &&& Self::parse_ok(bytes_view(*old(buf)), r->Ok_0)
                    &&& bytes_view(*final(buf)) == bytes_view(*old(buf)).skip(n)
                },
                Parsed::More => {
                    &&& r == Err::<Self, RespError>(RespError::NotComplete)
                    &&& bytes_view(*final(buf)) == bytes_view(*old(buf))
                },
                Parsed::Bad(e) => {
                    &&& r == Err::<Self, RespError>(e)
                    &&& bytes_view(*final(buf)) == bytes_view(*old(buf))
                },
            },
    ;

    /// Number of bytes one complete value of this type occupies at the front
    /// of `buf`, without allocating it.
    fn expect_length(buf: &[u8]) -> (r: Result<usize, RespError>)
        ensures
            match Self::spec_length(buf@) {
                LenParsed::Got(n) => r is Ok && r->Ok_0 == n,
                LenParsed::More => r == Err::<usize, RespError>(RespError::NotComplete),
                LenParsed::Bad(e) => r == Err::<usize, RespError>(e),
            },
    ;
}

} // verus!
