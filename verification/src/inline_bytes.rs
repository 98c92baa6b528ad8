//! A short byte string that lives on the stack: the buffer in which the
//! decimal encoder builds its text, digit by digit, from the back.

use smallvec::SmallVec;
use vstd::prelude::*;

verus! {

/// A byte string kept inline, without a heap allocation, as long as it stays
/// within sixteen bytes. Backed by a `smallvec::SmallVec`.
#[verifier::external_body]
pub struct InlineBytes {
    inner: SmallVec<[u8; 16]>,
}

/// The bytes that an [`InlineBytes`] holds, first to last.
pub uninterp spec fn held(v: InlineBytes) -> Seq<u8>;

impl View for InlineBytes {
    type V = Seq<u8>;

    open spec fn view(&self) -> Seq<u8> {
        held(*self)
    }
}

/// `SmallVec::with_capacity`: the result is empty. The capacity asked for
/// fits inline, so nothing is allocated.
#[verifier::external_body]
fn with_capacity(n: usize) -> (v: InlineBytes)
    requires
        n <= 16,
    ensures
        held(v) == Seq::<u8>::empty(),
{
    InlineBytes { inner: SmallVec::with_capacity(n) }
}

/// `SmallVec::insert`: `byte` is placed at `index` and every byte from there
/// on moves one place back.
#[verifier::external_body]
fn insert(v: &mut InlineBytes, index: usize, byte: u8)
    requires
        index <= held(*old(v)).len(),
    ensures
        held(*final(v)) == held(*old(v)).insert(index as int, byte),
{
    v.inner.insert(index, byte)
}

/// `SmallVec::as_slice`: the slice holds the vector's bytes, in order.
#[verifier::external_body]
fn as_slice(v: &InlineBytes) -> (s: &[u8])
    ensures
        s@ == held(*v),
{
    v.inner.as_slice()
}

impl InlineBytes {
    /// An empty string.
    pub fn new() -> (v: InlineBytes)
        ensures
            v@ == Seq::<u8>::empty(),
    {
        with_capacity(16)
    }

    /// Puts `byte` in front of the bytes already held.
    pub fn push_front(&mut self, byte: u8)
        ensures
            final(self)@ == seq![byte] + old(self)@,
    {
        insert(self, 0, byte);
        assert(self@ =~= seq![byte] + old(self)@);
    }

    /// The bytes held, first to last.
    pub fn as_slice(&self) -> (s: &[u8])
        ensures
            s@ == self@,
    {
        as_slice(self)
    }

    /// The number of bytes held.
    pub fn len(&self) -> (n: usize)
        ensures
            n == self@.len(),
    {
        as_slice(self).len()
    }
}

} // verus!
