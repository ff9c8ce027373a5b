//! The calls to the inner readers. Each goes through this module, which
//! records it, with its request and the answer the reader gave, in the log
//! of the adapter; nothing outside this module can reach an inner reader's
//! `read` or `seek` or add to the log. The functions marked `external_body`
//! are trusted: Verus takes their contracts as given.
use vstd::prelude::*;
use std::io::{Read, Seek, SeekFrom};
use super::MultiReader;
use crate::calls::InnerCall;
use crate::inner_io::SeekTarget;

verus! {

/// The history of the calls made to the inner readers, in order, with their
/// answers. It starts empty and grows only through the calls below, each of
/// which records the request it made and the answer the reader gave.
pub struct CallLog {
    calls: Ghost<Seq<InnerCall>>,
}

impl CallLog {
    /// The calls recorded so far.
    pub closed spec fn calls(self) -> Seq<InnerCall> {
        self.calls@
    }

    /// A history with no call in it.
    pub fn new() -> (log: Self)
        ensures
            log.calls() == Seq::<InnerCall>::empty(),
    {
        CallLog { calls: Ghost(Seq::empty()) }
    }

    /// A fresh borrow of the same history, for one recorded call.
    pub fn borrow_mut(&mut self) -> (log: &mut Self)
        ensures
            *log == *old(self),
            *final(self) == *final(log),
        no_unwind
    {
        self
    }
}

/// Calls `Read::read` of `reader`, which is reader `index`, with `buf`.
/// Nothing is claimed of the answer, which is up to the reader's own
/// implementation; the claims are that the buffer keeps its length, which a
/// slice cannot change, and that the call is recorded in `log` with the
/// answer the reader gave and what the buffer then holds.
#[verifier::external_body]
fn read_inner<R: Read>(reader: &mut R, log: &mut CallLog, index: usize, buf: &mut [u8]) -> (res: std::io::Result<usize>)
    ensures
        final(buf)@.len() == old(buf)@.len(),
        final(log).calls() == old(log).calls().push(
            InnerCall::Read { reader: index as nat, len: old(buf)@.len(), answer: res, filled: final(buf)@ },
        ),
{
    reader.read(buf)
}

/// Calls `Seek::seek` of `reader`, which is reader `index`, with the
/// `SeekFrom` that has the same variant and offset as `target`. Nothing is
/// claimed of the answer, which is up to the reader's own implementation;
/// the claim is that the call is recorded in `log` with the request and the
/// answer the reader gave.
#[verifier::external_body]
fn seek_inner<R: Seek>(reader: &mut R, log: &mut CallLog, index: usize, target: SeekTarget) -> (res: std::io::Result<u64>)
    ensures
        final(log).calls() == old(log).calls().push(InnerCall::Seek { reader: index as nat, request: target, answer: res }),
{
    reader.seek(match target {
        SeekTarget::Start(offset) => SeekFrom::Start(offset),
        SeekTarget::End(offset) => SeekFrom::End(offset),
        SeekTarget::Current(offset) => SeekFrom::Current(offset),
    })
}

/// Calls `Seek::stream_position` of `reader`, which is reader `index`.
/// Nothing is claimed of the answer, which is up to the reader's own
/// implementation; the claim is that the call is recorded in `log` with the
/// answer the reader gave.
#[verifier::external_body]
fn stream_position_inner<R: Seek>(reader: &mut R, log: &mut CallLog, index: usize) -> (res: std::io::Result<u64>)
    ensures
        final(log).calls() == old(log).calls().push(InnerCall::Position { reader: index as nat, answer: res }),
{
    reader.stream_position()
}

impl<R: Read> MultiReader<R> {
    /// Reads reader `index` into `buf`, and records the call and its answer.
    pub(super) fn ask_read(&mut self, index: usize, buf: &mut [u8]) -> (answer: std::io::Result<usize>)
        requires
            index < old(self)@.count,
        ensures
            final(self)@ == old(self)@,
            final(buf)@.len() == old(buf)@.len(),
            final(self).inner_calls() == old(self).inner_calls().push(
                InnerCall::Read { reader: index as nat, len: old(buf)@.len(), answer, filled: final(buf)@ },
            ),
            final(self).inner_readers().len() == old(self).inner_readers().len(),
            forall|j: int|
                0 <= j < old(self).inner_readers().len() && j != index ==> final(self).inner_readers()[j]
                    == old(self).inner_readers()[j],
    {
        proof { use_type_invariant(&*self); }
        read_inner(&mut self.readers[index], self.log.borrow_mut(), index, buf)
    }
}

impl<R: Seek> MultiReader<R> {
    /// Seeks reader `index` with `request`, and records the call and its
    /// answer.
    pub(super) fn ask_seek(&mut self, index: usize, request: SeekTarget) -> (answer: std::io::Result<u64>)
        requires
            index < old(self)@.count,
        ensures
            final(self)@ == old(self)@,
            final(self).inner_calls() == old(self).inner_calls().push(
                InnerCall::Seek { reader: index as nat, request, answer },
            ),
            final(self).inner_readers().len() == old(self).inner_readers().len(),
            forall|j: int|
                0 <= j < old(self).inner_readers().len() && j != index ==> final(self).inner_readers()[j]
                    == old(self).inner_readers()[j],
    {
        proof { use_type_invariant(&*self); }
        seek_inner(&mut self.readers[index], self.log.borrow_mut(), index, request)
    }

    /// Asks reader `index` for its position, and records the call and its
    /// answer.
    pub(super) fn ask_position(&mut self, index: usize) -> (answer: std::io::Result<u64>)
        requires
            index < old(self)@.count,
        ensures
            final(self)@ == old(self)@,
            final(self).inner_calls() == old(self).inner_calls().push(
                InnerCall::Position { reader: index as nat, answer },
            ),
            final(self).inner_readers().len() == old(self).inner_readers().len(),
            forall|j: int|
                0 <= j < old(self).inner_readers().len() && j != index ==> final(self).inner_readers()[j]
                    == old(self).inner_readers()[j],
    {
        proof { use_type_invariant(&*self); }
        stream_position_inner(&mut self.readers[index], self.log.borrow_mut(), index)
    }

}

} // verus!
