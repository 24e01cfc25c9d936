//! The buffer type.
//!
//! A buffer holds its bytes in one of two ways. Up to [`CUTOFF`] bytes live
//! inside the value itself, in a register of [`SZ`] bytes whose last byte
//! records the length. Anything longer lives once on the heap and is shared
//! by every clone; the bytes are copied only when a shared buffer is about to
//! be written through.

use crate::encoding::{AsBytes, Decoder, Encoder};
use std::marker::PhantomData;
use std::sync::Arc;
use vstd::prelude::*;
use vstd::slice::{slice_subrange, slice_to_vec};

verus! {

/// Size of the inline register in bytes: the width of a pointer on a 64-bit
/// target. The register has this size on every target, so that a sequence
/// is stored inline or remotely by its length alone, wherever the library
/// runs.
pub const SZ: usize = 8;

/// The longest byte sequence that is stored inline.
pub const CUTOFF: usize = SZ - 1;

/// The last byte of an inline register that holds `len` bytes: the length
/// shifted left by one, with the low bit set.
pub open spec fn inline_trailer(len: u8) -> u8 {
    (len << 1) | 1
}

/// The number of bytes that a register with trailer `t` holds. A trailer
/// made by [`inline_trailer`] gives back its length; no trailer gives more
/// than `CUTOFF`.
pub open spec fn trailer_len(t: u8) -> int {
    if (t >> 1) <= CUTOFF {
        (t >> 1) as int
    } else {
        CUTOFF as int
    }
}

#[derive(Debug)]
enum Repr {
    /// The bytes, zero padding, and in the last place the trailer.
    Inline([u8; SZ]),
    /// A shared heap block, always longer than `CUTOFF`.
    Remote(Arc<Vec<u8>>),
}

/// A byte buffer that is either inline or remote and shared.
///
/// `Encoding` names the codec that the bytes belong to. It exists at compile
/// time only.
#[derive(Debug)]
pub struct IVec<Encoding = ()> {
    repr: Repr,
    tag: PhantomData<Encoding>,
}

impl<E> View for IVec<E> {
    type V = Seq<u8>;

    closed spec fn view(&self) -> Seq<u8> {
        match self.repr {
            Repr::Inline(reg) => reg@.subrange(0, trailer_len(reg[SZ - 1])),
            Repr::Remote(block) => block@,
        }
    }
}

/// The bytes of an optional buffer.
pub open spec fn option_view<E>(v: Option<IVec<E>>) -> Option<Seq<u8>> {
    match v {
        Some(b) => Some(b@),
        None => None,
    }
}

/// An optional buffer is well formed where it is `None` or holds a
/// well-formed buffer.
pub open spec fn option_wf<E>(v: Option<IVec<E>>) -> bool {
    match v {
        Some(b) => b.wf(),
        None => true,
    }
}

/// Indexing an array by a range up to `n`, for writing: the first `n` bytes
/// of the register as a mutable slice. What is written through the slice is
/// written to the register, the bytes from `n` on stay as they are, and a
/// slice keeps its length.
#[verifier::external_body]
fn register_head_mut(reg: &mut [u8; SZ], n: usize) -> (r: &mut [u8])
    requires
        n <= SZ,
    ensures
        r@ == old(reg)@.subrange(0, n as int),
        final(r)@.len() == n,
        final(reg)@ == final(r)@ + old(reg)@.subrange(n as int, SZ as int),
{
    &mut reg[..n]
}

/// `Arc::make_mut` gives mutable access to the block behind `a`. Where other
/// handles share the block it first moves `a` to a fresh copy, so the bytes
/// seen through `a` are the same either way, and the other handles never see
/// what is written. A slice keeps its length.
#[verifier::external_body]
fn arc_make_mut(a: &mut Arc<Vec<u8>>) -> (r: &mut [u8])
    ensures
        r@ == old(a)@,
        final(r)@.len() == r@.len(),
        final(a)@ == final(r)@,
{
    Arc::make_mut(a).as_mut_slice()
}

/// `Arc::strong_count` is the number of handles to the block behind `a`,
/// this one included. Other handles may come and go at any time, so only the
/// lower bound is stated.
#[verifier::external_body]
fn arc_strong_count(a: &Arc<Vec<u8>>) -> (n: usize)
    ensures
        n >= 1,
{
    Arc::strong_count(a)
}

proof fn lemma_trailer_bits(len: u8)
    by (bit_vector)
    requires
        len <= 7,
    ensures
        inline_trailer(len) & 1 == 1,
        inline_trailer(len) >> 1 == len,
{
}

proof fn lemma_trailer_unique(t: u8)
    by (bit_vector)
    requires
        t & 1 == 1,
    ensures
        t == inline_trailer(t >> 1),
{
}

/// The number of bytes that the register holds.
fn register_len(reg: &[u8; SZ]) -> (n: usize)
    ensures
        n == trailer_len(reg[SZ - 1]),
        n <= CUTOFF,
{
    let n = (reg[SZ - 1] >> 1) as usize;
    if n <= CUTOFF {
        n
    } else {
        CUTOFF
    }
}

impl<E> IVec<E> {
    /// The representation is canonical: an inline register carries the
    /// trailer of its length, and a remote block is too long to be stored
    /// inline. Every buffer that this module hands out is well formed.
    pub closed spec fn wf(&self) -> bool {
        match self.repr {
            Repr::Inline(reg) => reg[SZ - 1] & 1 == 1 && (reg[SZ - 1] >> 1) <= CUTOFF,
            Repr::Remote(block) => block@.len() > CUTOFF,
        }
    }

    /// Whether the bytes are stored inside the value.
    pub closed spec fn inline(&self) -> bool {
        self.repr is Inline
    }

    /// A well-formed buffer is inline exactly when it holds at most
    /// `CUTOFF` bytes.
    pub proof fn lemma_inline_iff_short(&self)
        requires
            self.wf(),
        ensures
            self.inline() <==> self@.len() <= CUTOFF,
    {
    }

    /// Builds a buffer that holds a copy of `slice`: inline where it fits,
    /// else in a fresh heap block that no other buffer shares yet.
    pub fn new(slice: &[u8]) -> (r: Self)
        ensures
            r.wf(),
            r@ == slice@,
            r.inline() <==> slice@.len() <= CUTOFF,
    {
        let len = slice.len();
        if len <= CUTOFF {
            let mut data = [0u8; SZ];
            let mut i: usize = 0;
            while i < len
                invariant
                    len == slice@.len(),
                    len <= CUTOFF,
                    i <= len,
                    forall|j: int| 0 <= j < i ==> data@[j] == slice@[j],
                decreases len - i,
            {
                data[i] = slice[i];
                i += 1;
            }
            let short = len as u8;
            data[SZ - 1] = (short << 1) | 1;
            proof {
                lemma_trailer_bits(short);
                assert(data@.subrange(0, len as int) =~= slice@);
            }
            IVec { repr: Repr::Inline(data), tag: PhantomData }
        } else {
            IVec { repr: Repr::Remote(Arc::new(slice_to_vec(slice))), tag: PhantomData }
        }
    }

    /// The last byte of the register: the inline trailer, or zero for a
    /// remote buffer. Its low bit tells the two apart.
    pub fn trailer(&self) -> (t: u8)
        ensures
            self.wf() ==> ((t & 1 == 1) <==> self.inline()),
            self.wf() && self.inline() ==> t == inline_trailer(self@.len() as u8),
            !self.inline() ==> t == 0,
    {
        match &self.repr {
            Repr::Inline(reg) => {
                let t = reg[SZ - 1];
                proof {
                    if t & 1 == 1 {
                        lemma_trailer_unique(t);
                    }
                }
                t
            },
            Repr::Remote(_) => {
                assert(0u8 & 1 == 0) by (bit_vector);
                0
            },
        }
    }

    /// Whether the bytes are stored inside the value.
    #[verifier::when_used_as_spec(inline)]
    pub fn is_inline(&self) -> (r: bool)
        ensures
            r == self.inline(),
            self.wf() ==> (r <==> self@.len() <= CUTOFF),
    {
        match &self.repr {
            Repr::Inline(_) => true,
            Repr::Remote(_) => false,
        }
    }

    /// The number of bytes that an inline buffer holds; zero for a remote
    /// one.
    pub fn inline_len(&self) -> (n: usize)
        ensures
            self.inline() ==> n == self@.len(),
            !self.inline() ==> n == 0,
            n <= CUTOFF,
    {
        match &self.repr {
            Repr::Inline(reg) => register_len(reg),
            Repr::Remote(_) => 0,
        }
    }

    /// Makes a remote buffer the only owner of its block: where the block is
    /// shared, the buffer moves to a fresh copy of the bytes. An inline
    /// buffer shares nothing and is left alone.
    pub fn make_mut(&mut self)
        ensures
            final(self)@ == old(self)@,
            final(self).inline() == old(self).inline(),
            old(self).wf() ==> final(self).wf(),
    {
        let owners = match self.ref_count() {
            Some(n) => n,
            None => 1,
        };
        let _ = self.copy_on_write(owners);
    }

    /// What [`IVec::make_mut`] does once the number of owners is known. A
    /// remote buffer whose block has `owners` owners, and so others beside
    /// this one unless `owners` is one, moves to a fresh copy of the bytes.
    /// An inline buffer, and a remote one that is the only owner, is left
    /// alone. Tells whether the bytes were copied.
    pub fn copy_on_write(&mut self, owners: usize) -> (copied: bool)
        ensures
            copied == (!old(self).inline() && owners != 1),
            final(self)@ == old(self)@,
            final(self).inline() == old(self).inline(),
            old(self).wf() ==> final(self).wf(),
    {
        if !self.is_inline() && owners != 1 {
            let fresh = slice_to_vec((*self).as_ref());
            self.repr = Repr::Remote(Arc::new(fresh));
            true
        } else {
            false
        }
    }

    /// This buffer in its canonical form. Every buffer that this module
    /// makes has that form already, and is handed back as it is; a check of
    /// the register or of the block's length shows it. A buffer that failed
    /// the check would be built anew from its bytes.
    pub fn canonical(self) -> (r: Self)
        ensures
            r.wf(),
            r@ == self@,
            self.wf() ==> r == self,
    {
        let ok = match &self.repr {
            Repr::Inline(reg) => reg[SZ - 1] & 1 == 1 && (reg[SZ - 1] >> 1) as usize <= CUTOFF,
            Repr::Remote(block) => block.len() > CUTOFF,
        };
        if ok {
            self
        } else {
            IVec::new(self.as_ref())
        }
    }

    /// How many buffers share the block of a remote buffer, this one
    /// included; `None` for an inline buffer, which shares nothing.
    pub fn ref_count(&self) -> (n: Option<usize>)
        ensures
            n is None <==> self.inline(),
            n matches Some(c) ==> c >= 1,
    {
        match &self.repr {
            Repr::Inline(_) => None,
            Repr::Remote(block) => Some(arc_strong_count(block)),
        }
    }

    /// The same buffer under another encoding tag. Neither the bytes nor the
    /// sharing change.
    pub fn into_encoding<NewEncoding>(self) -> (r: IVec<NewEncoding>)
        ensures
            r@ == self@,
            r.inline() == self.inline(),
            self.wf() ==> r.wf(),
    {
        IVec { repr: self.repr, tag: PhantomData }
    }
}

impl<E> Clone for IVec<E> {
    /// Another handle to the same bytes. A remote block gains an owner and
    /// is not copied.
    fn clone(&self) -> (r: Self)
        ensures
            r@ == self@,
            r.inline() == self.inline(),
            self.wf() ==> r.wf(),
    {
        let repr = match &self.repr {
            Repr::Inline(reg) => Repr::Inline(*reg),
            Repr::Remote(block) => Repr::Remote(block.clone()),
        };
        IVec { repr, tag: PhantomData }
    }
}

impl<E> AsRef<[u8]> for IVec<E> {
    /// The bytes.
    fn as_ref(&self) -> (r: &[u8])
        ensures
            r@ == self@,
    {
        match &self.repr {
            Repr::Inline(reg) => slice_subrange(reg.as_slice(), 0, register_len(reg)),
            Repr::Remote(block) => block.as_slice(),
        }
    }
}

impl<E> AsMut<[u8]> for IVec<E> {
    /// The bytes, for writing. A shared remote buffer is first given a
    /// block of its own, so no other buffer sees what is written. The
    /// length cannot change.
    fn as_mut(&mut self) -> (r: &mut [u8])
        ensures
            r@ == old(self)@,
            final(r)@.len() == r@.len(),
            final(self)@ == final(r)@,
            final(self).inline() == old(self).inline(),
            old(self).wf() ==> final(self).wf(),
    {
        self.make_mut();
        match &mut self.repr {
            Repr::Inline(reg) => {
                let len = register_len(reg);
                register_head_mut(reg, len)
            },
            Repr::Remote(block) => arc_make_mut(block),
        }
    }
}

impl std::ops::Deref for IVec<()> {
    type Target = [u8];

    fn deref(&self) -> (r: &[u8])
        ensures
            r@ == self@,
    {
        self.as_ref()
    }
}

impl std::ops::DerefMut for IVec<()> {
    fn deref_mut(&mut self) -> (r: &mut [u8])
        ensures
            r@ == old(self)@,
            final(r)@.len() == r@.len(),
            final(self)@ == final(r)@,
            final(self).inline() == old(self).inline(),
            old(self).wf() ==> final(self).wf(),
    {
        self.as_mut()
    }
}

/// The bytes of a slice.
pub open spec fn slice_bytes(s: &[u8]) -> Seq<u8> {
    s@
}

impl std::borrow::Borrow<[u8]> for IVec<()> {
    /// The bytes, by which a buffer is also found in a map.
    fn borrow(&self) -> (r: &[u8])
        ensures
            slice_bytes(r) == self@,
    {
        self.as_ref()
    }
}

impl<'a> std::borrow::Borrow<[u8]> for &'a IVec<()> {
    /// The bytes, by which a buffer is also found in a map.
    fn borrow(&self) -> (r: &[u8])
        ensures
            slice_bytes(r) == self@,
    {
        (**self).as_ref()
    }
}

/// `<[u8] as Hash>::hash` feeds the bytes to the hasher. What a hasher
/// makes of them is its own matter, so nothing is stated.
#[verifier::external_body]
fn hash_bytes<H: std::hash::Hasher>(bytes: &[u8], state: &mut H) {
    std::hash::Hash::hash(bytes, state)
}

impl<E> std::hash::Hash for IVec<E> {
    /// A buffer hashes as its bytes do.
    fn hash<H: std::hash::Hasher>(&self, state: &mut H) {
        hash_bytes((*self).as_ref(), state)
    }
}

impl Default for IVec<()> {
    /// The empty buffer.
    fn default() -> (r: Self)
        ensures
            r.wf(),
            r@ == Seq::<u8>::empty(),
            r.inline(),
    {
        let none: [u8; 0] = [];
        IVec::new(none.as_slice())
    }
}

impl<E> IVec<E> where for <'a>E: Encoder<'a> {
    /// The buffer that holds `value` as the codec `E` encodes it.
    pub fn encode<'a>(value: <E as Encoder<'a>>::In) -> (r: Self)
        ensures
            r.wf(),
            r@ == <E as Encoder<'a>>::encoding(value),
    {
        let encoded = <E as Encoder<'a>>::encode(value);
        Self::new(encoded.as_bytes())
    }
}

impl<E> IVec<E> where for <'a>E: Decoder<'a> {
    /// The value that the bytes stand for under the codec `E`, or the
    /// codec's error where they stand for none.
    pub fn decode<'a>(&'a self) -> (r: Result<<E as Decoder<'a>>::Out, <E as Decoder<'a>>::Error>)
        ensures
            r is Ok <==> <E as Decoder<'a>>::decodable(self@),
            r matches Ok(out) ==> <E as Decoder<'a>>::decodes_to(self@, out),
    {
        <E as Decoder<'a>>::decode(self.as_ref())
    }
}

} // verus!
