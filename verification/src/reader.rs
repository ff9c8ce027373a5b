//! The adapter itself: its state, how it is built and taken apart, and the
//! decision that follows each read of an inner reader.
use vstd::prelude::*;
use vstd::std_specs::iter::IteratorSpec;
use crate::calls::InnerCall;
use crate::inner_io::{collect_results, collect_vec};
use recorded::CallLog;
use crate::model::{all_ok, first_error_at, ok_values, ReaderState};

mod read;
mod recorded;
pub(crate) mod seek;

verus! {

/// Presents a sequence of readers as one continuous reader.
///
/// Readers are consumed in insertion order. Empty readers are skipped. When
/// the inner readers also implement [`std::io::Seek`], this type exposes a
/// single logical seek position across the concatenated stream.
pub struct MultiReader<R> {
    readers: Vec<R>,
    known_lens: Vec<u64>,
    current: usize,
    position: u64,
    total_len: Option<u64>,
    log: CallLog,
}

impl<R> View for MultiReader<R> {
    type V = ReaderState;

    closed spec fn view(&self) -> ReaderState {
        ReaderState {
            count: self.readers.len() as nat,
            current: self.current as nat,
            position: self.position,
            known_lens: self.known_lens@,
            total_len: self.total_len,
        }
    }
}

impl<R> MultiReader<R> {
    #[verifier::type_invariant]
    closed spec fn inv(self) -> bool {
        self@.wf()
    }

    /// The inner readers, in order.
    pub closed spec fn inner_readers(self) -> Seq<R> {
        self.readers@
    }

    /// Every call made to an inner reader so far, in order, with its answer.
    pub closed spec fn inner_calls(self) -> Seq<InnerCall> {
        self.log.calls()
    }

    /// The number of readers in the state is the number of inner readers.
    pub proof fn lemma_count_is_readers(reader: &Self)
        ensures
            reader@.count == reader.inner_readers().len(),
    {
    }

    fn from_readers(readers: Vec<R>) -> (reader: Self)
        ensures
            reader@.fresh(),
            reader@.wf(),
            reader@.count == readers@.len(),
            reader.inner_readers() == readers@,
            reader.inner_calls() == Seq::<InnerCall>::empty(),
    {
        MultiReader {
            readers,
            known_lens: Vec::new(),
            current: 0,
            position: 0,
            total_len: None,
            log: CallLog::new(),
        }
    }

    /// Creates a reader from an iterator of readers, kept in the order the
    /// iterator yields them.
    pub fn new<I: Iterator<Item = R>>(readers: I) -> (reader: Self)
        ensures
            reader@.fresh(),
            reader@.wf(),
            reader@.count == reader.inner_readers().len(),
            reader.inner_calls() == Seq::<InnerCall>::empty(),
            readers.obeys_prophetic_iter_laws() ==> reader.inner_readers() == readers.remaining(),
    {
        Self::from_readers(collect_vec(readers))
    }

    /// Creates a reader from fallible reader values.
    ///
    /// Construction stops at the first error instead of silently discarding
    /// failed values.
    pub fn try_new<E, I: Iterator<Item = Result<R, E>>>(readers: I) -> (result: Result<Self, E>)
        ensures
            result matches Ok(reader) ==> reader@.fresh() && reader@.wf()
                && reader@.count == reader.inner_readers().len()
                && reader.inner_calls() == Seq::<InnerCall>::empty(),
            readers.obeys_prophetic_iter_laws() ==> match result {
                Ok(reader) => all_ok(readers.remaining())
                    && reader.inner_readers() == ok_values(readers.remaining()),
                Err(error) => exists|i: int|
                    first_error_at(readers.remaining(), i)
                        && #[trigger] readers.remaining()[i] == Err::<R, E>(error),
            },
    {
        match collect_results(readers) {
            Ok(readers) => Ok(Self::from_readers(readers)),
            Err(error) => Err(error),
        }
    }

    /// Returns the number of inner readers.
    pub fn reader_count(&self) -> (count: usize)
        ensures
            count == self@.count,
    {
        self.readers.len()
    }

    /// Returns `true` when no readers were supplied.
    pub fn is_empty(&self) -> (empty: bool)
        ensures
            empty == (self@.count == 0),
    {
        self.readers.len() == 0
    }

    /// Returns the logical byte position maintained by this adapter.
    pub fn position(&self) -> (position: u64)
        ensures
            position == self@.position,
    {
        self.position
    }

    /// Iterates over the inner readers without exposing adapter state.
    pub fn readers(&self) -> (iter: std::slice::Iter<'_, R>)
        ensures
            iter.remaining() == self.inner_readers().as_ref(),
    {
        self.readers.as_slice().iter()
    }

    /// Consumes the adapter and returns its inner readers.
    pub fn into_readers(self) -> (readers: Vec<R>)
        ensures
            readers@ == self.inner_readers(),
    {
        self.readers
    }

    /// Moves the logical position forward by `amount` bytes, stopping at
    /// `u64::MAX`.
    fn advance_position(&mut self, amount: usize)
        ensures
            final(self)@ == (ReaderState {
                position: old(self)@.position.saturating_add(amount as u64),
                ..old(self)@
            }),
            final(self).inner_readers() == old(self).inner_readers(),
            final(self).inner_calls() == old(self).inner_calls(),
    {
        proof { use_type_invariant(&*self); }
        self.position = self.position.saturating_add(amount as u64);
    }

    /// The inner reader that the next read goes to, or `None` once every
    /// reader has reported EOF.
    pub fn current_reader_mut(&mut self) -> (reader: Option<&mut R>)
        ensures
            final(self)@ == old(self)@,
            reader is Some <==> old(self)@.current < old(self)@.count,
            reader matches Some(r) ==> *r == old(self).inner_readers()[old(self)@.current as int]
                && final(self).inner_readers() == old(self).inner_readers().update(
                old(self)@.current as int,
                *final(r),
            ),
            reader is None ==> final(self).inner_readers() == old(self).inner_readers(),
            final(self).inner_calls() == old(self).inner_calls(),
    {
        proof { use_type_invariant(&*self); }
        if self.current < self.readers.len() {
            Some(&mut self.readers[self.current])
        } else {
            None
        }
    }

    /// The inner reader that a read with room for `room` more bytes goes to:
    /// none when there is no room, since nothing can be read, or once every
    /// reader has reported EOF.
    pub fn reader_to_poll(&mut self, room: usize) -> (reader: Option<&mut R>)
        ensures
            final(self)@ == old(self)@,
            reader is Some <==> room > 0 && old(self)@.current < old(self)@.count,
            reader matches Some(r) ==> *r == old(self).inner_readers()[old(self)@.current as int]
                && final(self).inner_readers() == old(self).inner_readers().update(
                old(self)@.current as int,
                *final(r),
            ),
            reader is None ==> final(self).inner_readers() == old(self).inner_readers(),
            final(self).inner_calls() == old(self).inner_calls(),
    {
        if room == 0 {
            None
        } else {
            self.current_reader_mut()
        }
    }

    /// Records that one read of the current inner reader returned `amount`
    /// bytes, and says whether those bytes go to the caller. An inner reader
    /// that returns no bytes has reached EOF, and the next reader becomes
    /// current; any other amount leaves the current reader in place, so a
    /// short read never skips ahead, and moves the logical position on.
    pub fn record_inner_read(&mut self, amount: usize) -> (delivered: bool)
        requires
            old(self)@.current < old(self)@.count,
        ensures
            delivered == (amount > 0),
            final(self)@.same_layout(old(self)@),
            final(self).inner_readers() == old(self).inner_readers(),
            final(self).inner_calls() == old(self).inner_calls(),
            amount == 0 ==> final(self)@.current == old(self)@.current + 1
                && final(self)@.position == old(self)@.position,
            amount > 0 ==> final(self)@.current == old(self)@.current
                && final(self)@.position == old(self)@.position.saturating_add(amount as u64),
    {
        proof { use_type_invariant(&*self); }
        if amount == 0 {
            self.current = self.current + 1;
            false
        } else {
            self.advance_position(amount);
            true
        }
    }
}

impl<R> Default for MultiReader<R> {
    /// An adapter over no readers: it is at EOF from the start.
    fn default() -> (reader: Self)
        ensures
            reader@.fresh(),
            reader@.count == 0,
            reader.inner_calls() == Seq::<InnerCall>::empty(),
    {
        Self::from_readers(Vec::new())
    }
}

impl<R> vstd::std_specs::convert::FromSpecImpl<Vec<R>> for MultiReader<R> {
    /// The adapter is not determined by the readers alone as a spec value (it
    /// also holds an empty length cache), so `from` is described by its own
    /// `ensures` instead.
    open spec fn obeys_from_spec() -> bool {
        false
    }

    open spec fn from_spec(readers: Vec<R>) -> Self {
        vstd::pervasive::arbitrary()
    }
}

impl<R> From<Vec<R>> for MultiReader<R> {
    /// An adapter over the readers of the vector, in order.
    fn from(readers: Vec<R>) -> (reader: Self)
        ensures
            reader@.fresh(),
            reader@.count == readers@.len(),
            reader.inner_readers() == readers@,
            reader.inner_calls() == Seq::<InnerCall>::empty(),
    {
        Self::from_readers(readers)
    }
}

} // verus!
