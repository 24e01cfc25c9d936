//! Buffers from byte slices, byte vectors, boxed bytes, byte arrays and
//! text. Each conversion copies the bytes; text gives its UTF-8 encoding.

use crate::ivec::IVec;
use vstd::prelude::*;
use vstd::std_specs::convert::FromSpecImpl;
use vstd::utf8::encode_utf8;

verus! {

impl<'a> From<&'a [u8]> for IVec<()> {
    fn from(slice: &'a [u8]) -> (r: Self)
        ensures
            r.wf(),
            r@ == slice@,
    {
        IVec::new(slice)
    }
}

impl<'a> FromSpecImpl<&'a [u8]> for IVec<()> {
    open spec fn obeys_from_spec() -> bool {
        false
    }

    open spec fn from_spec(slice: &'a [u8]) -> Self {
        arbitrary()
    }
}

impl<'a> From<&'a str> for IVec<()> {
    fn from(s: &'a str) -> (r: Self)
        ensures
            r.wf(),
            r@ == encode_utf8(s@),
    {
        IVec::new(s.as_bytes())
    }
}

impl<'a> FromSpecImpl<&'a str> for IVec<()> {
    open spec fn obeys_from_spec() -> bool {
        false
    }

    open spec fn from_spec(s: &'a str) -> Self {
        arbitrary()
    }
}

impl From<String> for IVec<()> {
    fn from(s: String) -> (r: Self)
        ensures
            r.wf(),
            r@ == encode_utf8(s@),
    {
        IVec::new(s.as_str().as_bytes())
    }
}

impl FromSpecImpl<String> for IVec<()> {
    open spec fn obeys_from_spec() -> bool {
        false
    }

    open spec fn from_spec(s: String) -> Self {
        arbitrary()
    }
}

impl<'a> From<&'a String> for IVec<()> {
    fn from(s: &'a String) -> (r: Self)
        ensures
            r.wf(),
            r@ == encode_utf8(s@),
    {
        IVec::new(s.as_str().as_bytes())
    }
}

impl<'a> FromSpecImpl<&'a String> for IVec<()> {
    open spec fn obeys_from_spec() -> bool {
        false
    }

    open spec fn from_spec(s: &'a String) -> Self {
        arbitrary()
    }
}

impl<'a, E> From<&'a IVec<E>> for IVec<E> {
    fn from(ivec: &'a IVec<E>) -> (r: Self)
        ensures
            r@ == ivec@,
            r.inline() == ivec.inline(),
            ivec.wf() ==> r.wf(),
    {
        ivec.clone()
    }
}

impl<'a, E> FromSpecImpl<&'a IVec<E>> for IVec<E> {
    open spec fn obeys_from_spec() -> bool {
        false
    }

    open spec fn from_spec(ivec: &'a IVec<E>) -> Self {
        arbitrary()
    }
}

impl From<Vec<u8>> for IVec<()> {
    fn from(v: Vec<u8>) -> (r: Self)
        ensures
            r.wf(),
            r@ == v@,
    {
        IVec::new(v.as_slice())
    }
}

impl FromSpecImpl<Vec<u8>> for IVec<()> {
    open spec fn obeys_from_spec() -> bool {
        false
    }

    open spec fn from_spec(v: Vec<u8>) -> Self {
        arbitrary()
    }
}

impl From<Box<[u8]>> for IVec<()> {
    fn from(v: Box<[u8]>) -> (r: Self)
        ensures
            r.wf(),
            r@ == v@,
    {
        IVec::new(&*v)
    }
}

impl FromSpecImpl<Box<[u8]>> for IVec<()> {
    open spec fn obeys_from_spec() -> bool {
        false
    }

    open spec fn from_spec(v: Box<[u8]>) -> Self {
        arbitrary()
    }
}

impl<'a, const N: usize> From<&'a [u8; N]> for IVec<()> {
    fn from(v: &'a [u8; N]) -> (r: Self)
        ensures
            r.wf(),
            r@ == v@,
    {
        IVec::new(v.as_slice())
    }
}

impl<'a, const N: usize> FromSpecImpl<&'a [u8; N]> for IVec<()> {
    open spec fn obeys_from_spec() -> bool {
        false
    }

    open spec fn from_spec(v: &'a [u8; N]) -> Self {
        arbitrary()
    }
}

} // verus!
