//! Where encoded text goes: an append-only destination for bytes.

use std::convert::Infallible;
use vstd::prelude::*;

verus! {

/// `now` is `before` followed by the first `n` bytes of `text`.
pub open spec fn appended(before: Seq<u8>, now: Seq<u8>, text: Seq<u8>, n: int) -> bool {
    0 <= n <= text.len() && now == before + text.take(n)
}

/// `now` is `before` followed by a proper prefix of `text`: a write of `text`
/// that was cut short.
pub open spec fn cut_short(before: Seq<u8>, now: Seq<u8>, text: Seq<u8>) -> bool {
    exists|n: int| n < text.len() && #[trigger] appended(before, now, text, n)
}

/// A write cut short is also a cut-short write of any longer text that the
/// written text begins.
pub proof fn lemma_cut_short_extends(before: Seq<u8>, now: Seq<u8>, part: Seq<u8>, full: Seq<u8>)
    requires
        cut_short(before, now, part),
        part.is_prefix_of(full),
    ensures
        cut_short(before, now, full),
{
    let n = choose|n: int| n < part.len() && #[trigger] appended(before, now, part, n);
    assert(part.take(n) =~= full.take(n));
    assert(appended(before, now, full, n));
}

/// An append-only destination for bytes. The encoders write to it in order
/// and never read back, seek or rewrite.
pub trait Sink: Sized {
    /// What a failed write reports.
    type Error;

    /// Every byte the sink has taken so far, in order.
    spec fn written(&self) -> Seq<u8>;

    /// Whether the sink is sure to take the next `n` bytes, whatever they are
    /// and in however many writes they come. A sink that can promise nothing,
    /// such as a file, takes none for sure.
    spec fn takes(&self, n: nat) -> bool;

    /// The failure that the sink reported last, if it has reported one.
    spec fn last_failure(&self) -> Option<Self::Error>;

    /// Appends all of `data`. On failure only a proper prefix of `data` has
    /// been appended, possibly none of it, and the failure returned is on
    /// record as the sink's last. A write within what the sink is sure to
    /// take succeeds, and the sink is then sure to take the rest.
    fn write_all(&mut self, data: &[u8]) -> (r: Result<(), Self::Error>)
        ensures
            r is Ok ==> final(self).written() == old(self).written() + data@,
            r is Ok ==> final(self).last_failure() == old(self).last_failure(),
            r is Err ==> cut_short(old(self).written(), final(self).written(), data@),
            r matches Err(e) ==> final(self).last_failure() == Some(e),
            forall|n: nat|
                n >= data@.len() && #[trigger] old(self).takes(n) ==> r is Ok && final(self).takes(
                    (n - data@.len()) as nat,
                ),
    ;
}

/// A write of `len` bytes that took the sink from `before` to `after` did as
/// `before` was sure to: where `before` was sure to take `len` bytes or more,
/// the write succeeded (`ok`) and `after` is sure to take what is left of them.
pub open spec fn keeps_promise<W: Sink>(before: W, after: W, len: nat, ok: bool) -> bool {
    forall|n: nat| n >= len && #[trigger] before.takes(n) ==> ok && after.takes((n - len) as nat)
}

/// Writes `chunk` as the next piece of `full`, of which `done` has been
/// written since the sink was `first`.
pub(crate) fn emit<W: Sink>(
    writer: &mut W,
    chunk: &[u8],
    Ghost(first): Ghost<W>,
    Ghost(done): Ghost<Seq<u8>>,
    Ghost(full): Ghost<Seq<u8>>,
) -> (r: Result<(), W::Error>)
    requires
        old(writer).written() == first.written() + done,
        keeps_promise(first, *old(writer), done.len(), true),
        (done + chunk@).is_prefix_of(full),
    ensures
        r is Ok ==> final(writer).written() == first.written() + (done + chunk@),
        r is Ok ==> final(writer).last_failure() == old(writer).last_failure(),
        r matches Err(e) ==> final(writer).last_failure() == Some(e),
        r is Ok ==> keeps_promise(first, *final(writer), (done + chunk@).len(), true),
        r is Err ==> cut_short(first.written(), final(writer).written(), full),
        r is Err ==> keeps_promise(first, *final(writer), full.len(), false),
{
    let ghost before = first.written();
    let r = writer.write_all(chunk);
    proof {
        assert forall|n: nat| n >= done.len() + chunk@.len() && #[trigger] first.takes(n) implies r is Ok
            && writer.takes((n - (done.len() + chunk@.len())) as nat) by {
            assert(old(writer).takes((n - done.len()) as nat));
        }
        if r is Ok {
            assert(writer.written() =~= before + (done + chunk@));
        } else {
            let n = choose|n: int|
                n < chunk@.len() && #[trigger] appended(
                    old(writer).written(),
                    writer.written(),
                    chunk@,
                    n,
                );
            assert(writer.written() =~= before + full.take(done.len() + n));
            assert(appended(before, writer.written(), full, done.len() + n));
        }
    }
    r
}

/// A growable buffer in memory takes every write.
impl Sink for Vec<u8> {
    type Error = Infallible;

    open spec fn written(&self) -> Seq<u8> {
        self@
    }

    open spec fn takes(&self, n: nat) -> bool {
        true
    }

    open spec fn last_failure(&self) -> Option<Infallible> {
        None
    }

    fn write_all(&mut self, data: &[u8]) -> (r: Result<(), Infallible>)
        ensures
            r is Ok,
    {
        self.extend_from_slice(data);
        Ok(())
    }
}

/// The failure of a sink that has no room left.
#[derive(Clone, Copy, Debug, PartialEq, Eq)]
pub struct SinkFull;

/// A buffer in memory that takes a fixed number of bytes and fails the write
/// that would pass it, after taking the bytes that still fit.
pub struct BoundedSink {
    data: Vec<u8>,
    room: usize,
    failed: bool,
}

impl BoundedSink {
    /// How many more bytes the sink will take.
    pub closed spec fn room(&self) -> nat {
        self.room as nat
    }

    /// An empty sink that will take `limit` bytes.
    pub fn new(limit: usize) -> (s: BoundedSink)
        ensures
            s.written() == Seq::<u8>::empty(),
            s.room() == limit,
            s.last_failure() is None,
    {
        BoundedSink { data: Vec::new(), room: limit, failed: false }
    }

    /// Whether a write has failed.
    pub fn has_failed(&self) -> (failed: bool)
        ensures
            failed == self.last_failure() is Some,
    {
        self.failed
    }

    /// The bytes taken so far.
    pub fn bytes(&self) -> (b: &[u8])
        ensures
            b@ == self.written(),
    {
        self.data.as_slice()
    }
}

impl Sink for BoundedSink {
    type Error = SinkFull;

    closed spec fn written(&self) -> Seq<u8> {
        self.data@
    }

    open spec fn takes(&self, n: nat) -> bool {
        n <= self.room()
    }

    closed spec fn last_failure(&self) -> Option<SinkFull> {
        if self.failed {
            Some(SinkFull)
        } else {
            None
        }
    }

    fn write_all(&mut self, data: &[u8]) -> (r: Result<(), SinkFull>)
        ensures
            r is Ok <==> data@.len() <= old(self).room(),
            r is Ok ==> final(self).room() == old(self).room() - data@.len(),
            r is Err ==> final(self).room() == 0 && final(self).written() == old(self).written()
                + data@.take(old(self).room() as int),
    {
        if data.len() <= self.room {
            self.data.extend_from_slice(data);
            self.room = self.room - data.len();
            Ok(())
        } else {
            let fits = vstd::slice::slice_subrange(data, 0, self.room);
            self.data.extend_from_slice(fits);
            assert(self.written() =~= old(self).written() + data@.take(self.room as int));
            assert(appended(old(self).written(), self.written(), data@, self.room as int));
            self.room = 0;
            self.failed = true;
            Err(SinkFull)
        }
    }
}

} // verus!
