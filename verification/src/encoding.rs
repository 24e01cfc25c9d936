//! Codecs: how a typed value becomes bytes, and how bytes become a typed
//! value again.
//!
//! A codec is a type of its own, not the type that is stored. One stored
//! type can so have several codecs, and types of other crates can have one.

use crate::big_endian::{
    be_bytes, be_value, from_be_bytes, lemma_be_bytes_len, lemma_bytes_of_value,
    lemma_order_is_numeric, lemma_pow256_u128, lemma_value_of_bytes, to_be_bytes, U128_WIDTH,
};
use crate::ivec::IVec;
use crate::order::lex_lt;
use std::marker::PhantomData;
use vstd::prelude::*;
use vstd::utf8::{
    decode_utf8, encode_utf8, encode_utf8_decode_utf8, encode_utf8_valid_utf8, valid_utf8,
};

verus! {

/// An encoded form: anything that can be read as a run of bytes.
pub trait AsBytes {
    /// The bytes that the value stands for.
    spec fn bytes(&self) -> Seq<u8>;

    /// The bytes.
    fn as_bytes(&self) -> (r: &[u8])
        ensures
            r@ == self.bytes(),
    ;
}

impl AsBytes for [u8] {
    open spec fn bytes(&self) -> Seq<u8> {
        self@
    }

    fn as_bytes(&self) -> (r: &[u8]) {
        self
    }
}

impl<const N: usize> AsBytes for [u8; N] {
    open spec fn bytes(&self) -> Seq<u8> {
        self@
    }

    fn as_bytes(&self) -> (r: &[u8]) {
        self.as_slice()
    }
}

impl AsBytes for Vec<u8> {
    open spec fn bytes(&self) -> Seq<u8> {
        self@
    }

    fn as_bytes(&self) -> (r: &[u8]) {
        self.as_slice()
    }
}

impl AsBytes for str {
    open spec fn bytes(&self) -> Seq<u8> {
        encode_utf8(self@)
    }

    fn as_bytes(&self) -> (r: &[u8]) {
        str::as_bytes(self)
    }
}

impl AsBytes for String {
    open spec fn bytes(&self) -> Seq<u8> {
        encode_utf8(self@)
    }

    fn as_bytes(&self) -> (r: &[u8]) {
        self.as_str().as_bytes()
    }
}

impl<E> AsBytes for IVec<E> {
    open spec fn bytes(&self) -> Seq<u8> {
        self@
    }

    fn as_bytes(&self) -> (r: &[u8]) {
        self.as_ref()
    }
}

impl<'a, B: AsBytes + ?Sized> AsBytes for &'a B {
    open spec fn bytes(&self) -> Seq<u8> {
        (**self).bytes()
    }

    fn as_bytes(&self) -> (r: &[u8]) {
        (**self).as_bytes()
    }
}

impl<'a, B: AsBytes + ?Sized> AsBytes for &'a mut B {
    open spec fn bytes(&self) -> Seq<u8> {
        (**self).bytes()
    }

    fn as_bytes(&self) -> (r: &[u8]) {
        (**self).as_bytes()
    }
}

/// Turns a typed value into bytes. Encoding cannot fail.
pub trait Encoder<'a> {
    /// The type that is stored.
    type In;

    /// What encoding gives: the stored value itself where it already reads
    /// as bytes, else a byte container.
    type Encoded: AsBytes;

    /// The bytes that stand for `data`.
    spec fn encoding(data: Self::In) -> Seq<u8>;

    /// Encodes `data`.
    fn encode(data: Self::In) -> (r: Self::Encoded)
        ensures
            r.bytes() == Self::encoding(data),
    ;
}

/// Turns bytes into a typed value. Decoding fails on bytes that stand for
/// no value.
pub trait Decoder<'a> {
    /// The type that comes out.
    type Out;

    /// What comes out where the bytes stand for no value.
    type Error;

    /// Whether `bytes` stand for a value.
    spec fn decodable(bytes: Seq<u8>) -> bool;

    /// Whether `out` is the value that `bytes` stand for.
    spec fn decodes_to(bytes: Seq<u8>, out: Self::Out) -> bool;

    /// Decodes `bytes`.
    fn decode(bytes: &'a [u8]) -> (r: Result<Self::Out, Self::Error>)
        ensures
            r is Ok <==> Self::decodable(bytes@),
            r matches Ok(out) ==> Self::decodes_to(bytes@, out),
    ;
}

/// `core::str::Utf8Error`: why bytes are no UTF-8.
#[verifier::external_type_specification]
#[verifier::external_body]
pub struct ExUtf8Error(core::str::Utf8Error);

/// `core::str::from_utf8` reads bytes as text without copying them. It
/// succeeds exactly on well-formed UTF-8, and the text it gives is the text
/// that those bytes encode.
pub assume_specification<'a>[ core::str::from_utf8 ](v: &'a [u8]) -> (r: Result<
    &'a str,
    core::str::Utf8Error,
>)
    ensures
        r is Ok <==> valid_utf8(v@),
        r matches Ok(s) ==> encode_utf8(s@) == v@,
;

/// Text as its UTF-8 bytes. Nothing is copied in either direction.
#[derive(Debug)]
pub struct StringEncoding();

impl<'a> Encoder<'a> for StringEncoding {
    type In = &'a str;

    type Encoded = &'a [u8];

    open spec fn encoding(data: &'a str) -> Seq<u8> {
        encode_utf8(data@)
    }

    fn encode(data: &'a str) -> (r: &'a [u8]) {
        data.as_bytes()
    }
}

impl<'a> Decoder<'a> for StringEncoding {
    type Out = &'a str;

    type Error = core::str::Utf8Error;

    open spec fn decodable(bytes: Seq<u8>) -> bool {
        valid_utf8(bytes)
    }

    open spec fn decodes_to(bytes: Seq<u8>, out: &'a str) -> bool {
        encode_utf8(out@) == bytes
    }

    fn decode(bytes: &'a [u8]) -> (r: Result<&'a str, core::str::Utf8Error>) {
        core::str::from_utf8(bytes)
    }
}

/// Any text can be decoded from its encoding, and what comes out is that
/// text and no other.
pub proof fn lemma_text_round_trip<'a>(s: &'a str)
    ensures
        <StringEncoding as Decoder<'a>>::decodable(<StringEncoding as Encoder<'a>>::encoding(s)),
        <StringEncoding as Decoder<'a>>::decodes_to(<StringEncoding as Encoder<'a>>::encoding(s), s),
        forall|t: &'a str| #[trigger]
            <StringEncoding as Decoder<'a>>::decodes_to(
                <StringEncoding as Encoder<'a>>::encoding(s),
                t,
            ) ==> t@ == s@,
        decode_utf8(<StringEncoding as Encoder<'a>>::encoding(s)) == s@,
{
    encode_utf8_valid_utf8(s@);
    encode_utf8_decode_utf8(s@);
    assert forall|t: &'a str| #[trigger]
        <StringEncoding as Decoder<'a>>::decodes_to(
            <StringEncoding as Encoder<'a>>::encoding(s),
            t,
        ) implies t@ == s@ by {
        encode_utf8_decode_utf8(t@);
    }
}

/// Bytes that are no well-formed UTF-8 cannot be decoded, and no text is
/// their value.
pub proof fn lemma_malformed_text_has_no_value<'a>(bytes: Seq<u8>)
    requires
        !valid_utf8(bytes),
    ensures
        !<StringEncoding as Decoder<'a>>::decodable(bytes),
        forall|t: &'a str| !#[trigger] <StringEncoding as Decoder<'a>>::decodes_to(bytes, t),
{
    assert forall|t: &'a str| !#[trigger] <StringEncoding as Decoder<'a>>::decodes_to(
        bytes,
        t,
    ) by {
        encode_utf8_valid_utf8(t@);
    }
}

/// Bytes that can be decoded as text have one text as their value: the one
/// that the bytes spell.
pub proof fn lemma_text_value_is_unique<'a>(bytes: Seq<u8>, t: &'a str)
    requires
        <StringEncoding as Decoder<'a>>::decodes_to(bytes, t),
    ensures
        <StringEncoding as Decoder<'a>>::decodable(bytes),
        t@ == decode_utf8(bytes),
{
    encode_utf8_valid_utf8(t@);
    encode_utf8_decode_utf8(t@);
}

/// An integer as its bytes, most significant first, so that keys sort as
/// the numbers do.
#[derive(Debug)]
pub struct IntegerEncoding<T>(PhantomData<T>);

impl<'a> Encoder<'a> for IntegerEncoding<u128> {
    type In = u128;

    type Encoded = [u8; U128_WIDTH];

    open spec fn encoding(data: u128) -> Seq<u8> {
        be_bytes(data as nat, 16)
    }

    fn encode(data: u128) -> (r: [u8; U128_WIDTH]) {
        to_be_bytes(data)
    }
}

impl<'a> Decoder<'a> for IntegerEncoding<u128> {
    type Out = u128;

    type Error = ();

    open spec fn decodable(bytes: Seq<u8>) -> bool {
        bytes.len() == 16
    }

    open spec fn decodes_to(bytes: Seq<u8>, out: u128) -> bool {
        out == be_value(bytes)
    }

    fn decode(bytes: &'a [u8]) -> (r: Result<u128, ()>) {
        if bytes.len() == U128_WIDTH {
            Ok(from_be_bytes(bytes))
        } else {
            Err(())
        }
    }
}

/// Every `u128` can be decoded from its encoding, and what comes out is
/// that number and no other.
pub proof fn lemma_integer_round_trip<'a>(x: u128)
    ensures
        <IntegerEncoding<u128> as Decoder<'a>>::decodable(
            <IntegerEncoding<u128> as Encoder<'a>>::encoding(x),
        ),
        forall|y: u128| #[trigger]
            <IntegerEncoding<u128> as Decoder<'a>>::decodes_to(
                <IntegerEncoding<u128> as Encoder<'a>>::encoding(x),
                y,
            ) <==> y == x,
{
    lemma_be_bytes_len(x as nat, 16);
    lemma_pow256_u128();
    lemma_value_of_bytes(x as nat, 16);
}

/// The bytes that decode to a `u128` are its encoding and no others.
pub proof fn lemma_integer_encoding_is_unique<'a>(bytes: Seq<u8>, x: u128)
    requires
        <IntegerEncoding<u128> as Decoder<'a>>::decodable(bytes),
        <IntegerEncoding<u128> as Decoder<'a>>::decodes_to(bytes, x),
    ensures
        bytes == <IntegerEncoding<u128> as Encoder<'a>>::encoding(x),
{
    lemma_bytes_of_value(bytes);
}

/// The encodings of two `u128` are ordered as the numbers are.
pub proof fn lemma_integer_order<'a>(x: u128, y: u128)
    ensures
        x < y <==> lex_lt(
            <IntegerEncoding<u128> as Encoder<'a>>::encoding(x),
            <IntegerEncoding<u128> as Encoder<'a>>::encoding(y),
        ),
        x == y <==> <IntegerEncoding<u128> as Encoder<'a>>::encoding(x) == <IntegerEncoding<
            u128,
        > as Encoder<'a>>::encoding(y),
{
    lemma_pow256_u128();
    lemma_be_bytes_len(x as nat, 16);
    lemma_be_bytes_len(y as nat, 16);
    lemma_value_of_bytes(x as nat, 16);
    lemma_value_of_bytes(y as nat, 16);
    lemma_order_is_numeric(be_bytes(x as nat, 16), be_bytes(y as nat, 16));
}

} // verus!
