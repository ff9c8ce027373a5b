//! The calls that the adapter makes to its inner readers, as a history of
//! requests and answers, and what each operation's part of that history is.
use vstd::prelude::*;
use crate::error::StreamError;
use crate::inner_io::{raised_kind, FailureKind, SeekTarget};
use crate::model::{
    holds_byte, length_found, lemma_take_all, offset_by, seek_lands, start_of, total_of, ReaderState,
};

verus! {

/// One call made to an inner reader, with the answer it gave.
pub enum InnerCall {
    /// `Read::read` on reader `reader` with a buffer of `len` bytes, which
    /// held `filled` once the call returned.
    Read { reader: nat, len: nat, answer: std::io::Result<usize>, filled: Seq<u8> },
    /// `Seek::seek` on reader `reader` with the request `request`.
    Seek { reader: nat, request: SeekTarget, answer: std::io::Result<u64> },
    /// `Seek::stream_position` on reader `reader`.
    Position { reader: nat, answer: std::io::Result<u64> },
}

impl InnerCall {
    /// The reader that was called.
    pub open spec fn reader(self) -> nat {
        match self {
            InnerCall::Read { reader, .. } => reader,
            InnerCall::Seek { reader, .. } => reader,
            InnerCall::Position { reader, .. } => reader,
        }
    }

    /// A read of reader `reader` with a buffer of `len` bytes that answered
    /// `answer`.
    pub open spec fn is_read(self, reader: nat, len: nat, answer: std::io::Result<usize>) -> bool {
        self matches InnerCall::Read { reader: r, len: l, answer: a, .. } && r == reader && l == len && a == answer
    }

    /// What the buffer of a read held once the call returned.
    pub open spec fn filled(self) -> Seq<u8> {
        match self {
            InnerCall::Read { filled, .. } => filled,
            _ => Seq::empty(),
        }
    }

    /// A seek of reader `reader` with the request `request`.
    pub open spec fn is_seek(self, reader: nat, request: SeekTarget) -> bool {
        self matches InnerCall::Seek { reader: r, request: q, .. } && r == reader && q == request
    }

    /// A `stream_position` call on reader `reader`.
    pub open spec fn is_position(self, reader: nat) -> bool {
        self matches InnerCall::Position { reader: r, .. } && r == reader
    }

    /// The seek or position answer, if it was a success.
    pub open spec fn offset_answer(self) -> Option<u64> {
        match self {
            InnerCall::Seek { answer: Ok(offset), .. } => Some(offset),
            InnerCall::Position { answer: Ok(offset), .. } => Some(offset),
            _ => None,
        }
    }

    /// The call answered with a success.
    pub open spec fn succeeded(self) -> bool {
        match self {
            InnerCall::Read { answer, .. } => answer is Ok,
            InnerCall::Seek { answer, .. } => answer is Ok,
            InnerCall::Position { answer, .. } => answer is Ok,
        }
    }

    /// The call failed with `error`.
    pub open spec fn failed_with(self, error: std::io::Error) -> bool {
        match self {
            InnerCall::Read { answer, .. } => answer == Err::<usize, std::io::Error>(error),
            InnerCall::Seek { answer, .. } => answer == Err::<u64, std::io::Error>(error),
            InnerCall::Position { answer, .. } => answer == Err::<u64, std::io::Error>(error),
        }
    }
}

/// `after` is `before` with calls appended.
pub open spec fn only_appends(before: Seq<InnerCall>, after: Seq<InnerCall>) -> bool {
    &&& before.len() <= after.len()
    &&& after.take(before.len() as int) == before
}

/// Some call in `calls` went to reader `reader`.
pub open spec fn touches(calls: Seq<InnerCall>, reader: int) -> bool {
    exists|k: int| 0 <= k < calls.len() && #[trigger] calls[k].reader() == reader
}

/// Every reader that no call in `calls` went to is as it was.
pub open spec fn keeps_untouched<R>(before: Seq<R>, after: Seq<R>, calls: Seq<InnerCall>) -> bool {
    &&& after.len() == before.len()
    &&& forall|j: int| 0 <= j < before.len() && !touches(calls, j) ==> #[trigger] after[j] == before[j]
}

/// The calls of one `read` with a buffer of `buf_len` bytes, starting at reader
/// `first`: each reader in turn is read into the whole buffer; each one but the
/// last answered `Ok(0)`, and the last one's answer is the result (or it too
/// answered `Ok(0)`, when every reader is drained).
pub open spec fn reads_in_order(calls: Seq<InnerCall>, first: nat, buf_len: nat, result: std::io::Result<usize>) -> bool {
    &&& forall|k: int| 0 <= k < calls.len() - 1 ==> (#[trigger] calls[k]).is_read(first + k as nat, buf_len, Ok(0))
    &&& match result {
        Ok(0) => calls.len() > 0 ==> calls.last().is_read((first + calls.len() - 1) as nat, buf_len, Ok(0)),
        _ => calls.len() > 0 && calls.last().is_read((first + calls.len() - 1) as nat, buf_len, result),
    }
}

/// What the caller's buffer holds after a `read` whose calls were `calls`:
/// what the last inner read left in it, or what it held before when no inner
/// reader was read.
pub open spec fn buffer_after(calls: Seq<InnerCall>, before: Seq<u8>) -> Seq<u8> {
    if calls.len() == 0 {
        before
    } else {
        calls.last().filled()
    }
}

/// The calls that learn the length of reader `reader`: its position is asked
/// for, it is sought to its end, which is the length `len`, and it is sought
/// back to the position it reported.
pub open spec fn learns_len(calls: Seq<InnerCall>, reader: nat, len: u64) -> bool {
    &&& calls.len() == 3
    &&& calls[0].is_position(reader)
    &&& calls[0].offset_answer() is Some
    &&& calls[1].is_seek(reader, SeekTarget::End(0))
    &&& calls[1].offset_answer() == Some(len)
    &&& calls[2].is_seek(reader, SeekTarget::Start(calls[0].offset_answer()->0))
    &&& calls[2].offset_answer() is Some
}

/// The calls of an attempt to learn the length of reader `reader` that failed
/// with `error`: the same calls as [`learns_len`], up to the one that failed.
pub open spec fn fails_to_learn_len(calls: Seq<InnerCall>, reader: nat, error: std::io::Error) -> bool {
    &&& 1 <= calls.len() <= 3
    &&& calls[0].is_position(reader)
    &&& calls.len() > 1 ==> calls[0].offset_answer() is Some && calls[1].is_seek(reader, SeekTarget::End(0))
    &&& calls.len() > 2 ==> calls[1].offset_answer() is Some && calls[2].is_seek(
        reader,
        SeekTarget::Start(calls[0].offset_answer()->0),
    )
    &&& calls.last().failed_with(error)
}

/// The calls that learn the lengths `lens` of the readers from `first` on, in
/// order.
pub open spec fn learns_lens(calls: Seq<InnerCall>, first: nat, lens: Seq<u64>) -> bool
    decreases lens.len(),
{
    if lens.len() == 0 {
        calls.len() == 0
    } else {
        &&& calls.len() >= 3
        &&& learns_lens(calls.take(calls.len() - 3), first, lens.drop_last())
        &&& learns_len(calls.skip(calls.len() - 3), (first + lens.len() - 1) as nat, lens.last())
    }
}

/// The calls that rewind the readers `first .. first + calls.len()` to their
/// start, each with success.
pub open spec fn rewinds(calls: Seq<InnerCall>, first: nat) -> bool {
    forall|k: int|
        0 <= k < calls.len() ==> (#[trigger] calls[k]).is_seek(first + k as nat, SeekTarget::Start(0))
            && calls[k].offset_answer() is Some
}

/// The calls of a landing in reader `index`, which starts at `start`, at the
/// local offset `local`: that reader is sought to `local`; the position is
/// `start` plus the offset it reports; then every later reader up to `count`
/// is rewound to its start. Any failure ends the calls and is the result.
pub open spec fn lands(calls: Seq<InnerCall>, index: nat, start: u64, local: u64, count: nat, result: Result<u64, StreamError>) -> bool {
    &&& calls.len() >= 1
    &&& calls[0].is_seek(index, SeekTarget::Start(local))
    &&& match result {
        Ok(position) => {
            &&& calls[0].offset_answer() matches Some(reported) && position == start + reported
            &&& calls.len() == count - index
            &&& rewinds(calls.skip(1), index + 1)
        },
        Err(StreamError::PositionOverflow) => {
            &&& calls.len() == 1
            &&& calls[0].offset_answer() matches Some(reported) && start + reported > u64::MAX
        },
        Err(StreamError::Io(error)) => {
            ||| calls.len() == 1 && calls[0].failed_with(error)
            ||| {
                &&& calls.len() >= 2
                &&& calls[0].offset_answer() matches Some(reported) && start + reported <= u64::MAX
                &&& calls.len() <= count - index
                &&& rewinds(calls.skip(1).drop_last(), index + 1)
                &&& calls.last().is_seek((index + calls.len() - 1) as nat, SeekTarget::Start(0))
                &&& calls.last().failed_with(error)
            }
        },
        _ => false,
    }
}

/// The number of calls that learning lengths took, from `s0` to `s1`.
pub open spec fn learning_calls(s0: ReaderState, s1: ReaderState) -> int {
    3 * (s1.known_lens.len() - s0.known_lens.len())
}

/// The calls of learning the combined length, from `s0` to `s1` with
/// `result`: the lengths not yet known are learned in order; an inner failure
/// ends the calls, and its error is the result.
pub open spec fn length_calls(s0: ReaderState, s1: ReaderState, calls: Seq<InnerCall>, result: Result<u64, StreamError>) -> bool {
    let learned = learning_calls(s0, s1);
    &&& learned <= calls.len()
    &&& learns_lens(calls.take(learned), s0.known_lens.len(), s1.known_lens.skip(s0.known_lens.len() as int))
    &&& match result {
        Err(StreamError::Io(error)) => fails_to_learn_len(calls.skip(learned), s1.known_lens.len(), error),
        _ => calls.len() == learned,
    }
}

/// The calls of a seek to the absolute position `target`, from `s0` to `s1`
/// with `result`: lengths are learned in order until the reader that holds
/// `target` is known; the seek then lands in it, at `target` less the
/// reader's start. Past the end of the stream no reader is sought.
pub open spec fn seek_calls(s0: ReaderState, s1: ReaderState, calls: Seq<InnerCall>, target: u64, result: Result<u64, StreamError>) -> bool {
    let learned = learning_calls(s0, s1);
    let rest = calls.skip(learned);
    let landing = if result is Ok { s1.current } else { rest[0].reader() };
    let start = start_of(s1.known_lens, landing as int);
    &&& learned <= calls.len()
    &&& learns_lens(calls.take(learned), s0.known_lens.len(), s1.known_lens.skip(s0.known_lens.len() as int))
    &&& match result {
        Ok(_) => if s1.current == s1.count {
            rest.len() == 0
        } else {
            lands(rest, landing, start as u64, (target - start) as u64, s1.count, result)
        },
        Err(StreamError::LengthOverflow) => rest.len() == 0,
        Err(StreamError::PositionOverflow) => {
            &&& holds_byte(s1.known_lens, landing as int, target as int)
            &&& lands(rest, landing, start as u64, (target - start) as u64, s1.count, result)
        },
        Err(StreamError::Io(error)) => {
            ||| fails_to_learn_len(rest, s1.known_lens.len(), error)
            ||| {
                &&& holds_byte(s1.known_lens, landing as int, target as int)
                &&& lands(rest, landing, start as u64, (target - start) as u64, s1.count, result)
            }
        },
        Err(StreamError::OutOfRange) => false,
    }
}

/// What a seek to `target` does, from `s0` to `s1` with `result`, where
/// `calls` are the calls it made: from the start, from the logical position,
/// or from the end of the concatenated stream (whose combined length is
/// learned and cached first). A target before byte zero or past `u64::MAX`
/// is refused with `OutOfRange`, with no further call and no change.
pub open spec fn seeks_to(target: SeekTarget, s0: ReaderState, s1: ReaderState, calls: Seq<InnerCall>, result: Result<u64, StreamError>) -> bool {
    &&& s1.extends_lens(s0)
    &&& match target {
        SeekTarget::Start(offset) => {
            &&& seek_lands(s0, s1, offset, result)
            &&& seek_calls(s0, s1, calls, offset, result)
        },
        SeekTarget::Current(offset) => match offset_by(s0.position as int, offset as int) {
            Some(absolute) => {
                &&& seek_lands(s0, s1, absolute, result)
                &&& seek_calls(s0, s1, calls, absolute, result)
            },
            None => {
                &&& result matches Err(StreamError::OutOfRange)
                &&& s1 == s0
                &&& calls.len() == 0
            },
        },
        SeekTarget::End(offset) => {
            let measured = ReaderState { known_lens: s1.known_lens, total_len: s1.total_len, ..s0 };
            let learned = learning_calls(s0, s1);
            match s1.total_len {
                Some(total) => {
                    &&& total == total_of(s1.known_lens)
                    &&& s1.known_lens.len() == s1.count
                    &&& s0.total_len matches Some(t) ==> t == total
                    &&& learned <= calls.len()
                    &&& learns_lens(
                        calls.take(learned),
                        s0.known_lens.len(),
                        s1.known_lens.skip(s0.known_lens.len() as int),
                    )
                    &&& match offset_by(total as int, offset as int) {
                        Some(absolute) => {
                            &&& seek_lands(measured, s1, absolute, result)
                            &&& seek_calls(measured, s1, calls.skip(learned), absolute, result)
                        },
                        None => {
                            &&& result matches Err(StreamError::OutOfRange)
                            &&& s1 == measured
                            &&& calls.len() == learned
                        },
                    }
                },
                None => {
                    &&& length_found(s0, s1, result)
                    &&& result is Err
                    &&& length_calls(s0, s1, calls, result)
                },
            }
        },
    }
}

/// How the outcome of a seek is reported through `std::io`: the same
/// position on success; on failure the inner reader's own error when an
/// inner call failed, and otherwise an error of the kind that
/// [`StreamError::reported_kind`] names.
pub open spec fn reports(outcome: Result<u64, StreamError>, result: std::io::Result<u64>) -> bool {
    match outcome {
        Ok(position) => result == Ok::<u64, std::io::Error>(position),
        Err(StreamError::Io(error)) => result == Err::<u64, std::io::Error>(error),
        Err(other) => result is Err && raised_kind(result->Err_0) == other.reported_kind(),
    }
}

/// What `total_len` does to the calls, from `s0` to `s1` with `result`: the
/// lengths not yet known are learned in order; a failure either comes with
/// no further call, once the lengths learned add up to more than `u64::MAX`,
/// and is then of kind `InvalidData`, or is the error of the inner call that
/// ended the calls.
pub open spec fn total_len_calls(s0: ReaderState, s1: ReaderState, calls: Seq<InnerCall>, result: std::io::Result<u64>) -> bool {
    let learned = learning_calls(s0, s1);
    &&& learned <= calls.len()
    &&& learns_lens(calls.take(learned), s0.known_lens.len(), s1.known_lens.skip(s0.known_lens.len() as int))
    &&& match result {
        Ok(_) => calls.len() == learned,
        Err(error) => {
            ||| {
                &&& calls.len() == learned
                &&& total_of(s1.known_lens) > u64::MAX
                &&& raised_kind(error) == Some(FailureKind::InvalidData)
            }
            ||| fails_to_learn_len(calls.skip(learned), s1.known_lens.len(), error)
        },
    }
}

/// Appending calls twice appends the two runs of calls.
pub proof fn lemma_appends_compose(c0: Seq<InnerCall>, c1: Seq<InnerCall>, c2: Seq<InnerCall>)
    requires
        only_appends(c0, c1),
        only_appends(c1, c2),
    ensures
        only_appends(c0, c2),
        c2.skip(c0.len() as int) == c1.skip(c0.len() as int) + c2.skip(c1.len() as int),
{
    assert(c2.take(c0.len() as int) =~= c1.take(c0.len() as int));
    assert(c2.skip(c0.len() as int) =~= c1.skip(c0.len() as int) + c2.skip(c1.len() as int));
}

/// A history appends nothing to itself.
pub proof fn lemma_appends_nothing(c: Seq<InnerCall>)
    ensures
        only_appends(c, c),
        c.skip(c.len() as int) == Seq::<InnerCall>::empty(),
{
    lemma_take_all(c);
    assert(c.skip(c.len() as int) =~= Seq::<InnerCall>::empty());
}

/// One call appended.
pub proof fn lemma_appends_one(c: Seq<InnerCall>, call: InnerCall)
    ensures
        only_appends(c, c.push(call)),
        c.push(call).skip(c.len() as int) == seq![call],
{
    assert(c.push(call).take(c.len() as int) =~= c);
    assert(c.push(call).skip(c.len() as int) =~= seq![call]);
}

/// Readers left untouched by two runs of calls are left untouched by both.
pub proof fn lemma_untouched_compose<R>(r0: Seq<R>, r1: Seq<R>, r2: Seq<R>, a: Seq<InnerCall>, b: Seq<InnerCall>)
    requires
        keeps_untouched(r0, r1, a),
        keeps_untouched(r1, r2, b),
    ensures
        keeps_untouched(r0, r2, a + b),
{
    assert forall|j: int| 0 <= j < r0.len() && !touches(a + b, j) implies #[trigger] r2[j] == r0[j] by {
        if touches(a, j) {
            let k = choose|k: int| 0 <= k < a.len() && #[trigger] a[k].reader() == j;
            assert((a + b)[k] == a[k]);
        }
        if touches(b, j) {
            let k = choose|k: int| 0 <= k < b.len() && #[trigger] b[k].reader() == j;
            assert((a + b)[a.len() + k] == b[k]);
        }
    }
}

/// No calls change no reader.
pub proof fn lemma_untouched_nothing<R>(r: Seq<R>)
    ensures
        keeps_untouched(r, r, Seq::<InnerCall>::empty()),
{
}

/// A call that changes at most the reader it went to.
pub proof fn lemma_untouched_one<R>(r0: Seq<R>, r1: Seq<R>, call: InnerCall)
    requires
        r1.len() == r0.len(),
        forall|j: int| 0 <= j < r0.len() && j != call.reader() ==> r1[j] == r0[j],
    ensures
        keeps_untouched(r0, r1, seq![call]),
{
    assert forall|j: int| 0 <= j < r0.len() && !touches(seq![call], j) implies #[trigger] r1[j] == r0[j] by {
        if j == call.reader() {
            assert(seq![call][0].reader() == j);
        }
    }
}

/// The calls that learn lengths take three calls each.
pub proof fn lemma_learns_lens_len(calls: Seq<InnerCall>, first: nat, lens: Seq<u64>)
    requires
        learns_lens(calls, first, lens),
    ensures
        calls.len() == 3 * lens.len(),
    decreases lens.len(),
{
    if lens.len() > 0 {
        lemma_learns_lens_len(calls.take(calls.len() - 3), first, lens.drop_last());
    }
}

/// Learning one more length extends the calls that learned the others.
pub proof fn lemma_learns_lens_push(calls: Seq<InnerCall>, more: Seq<InnerCall>, first: nat, lens: Seq<u64>, len: u64)
    requires
        learns_lens(calls, first, lens),
        learns_len(more, first + lens.len(), len),
    ensures
        learns_lens(calls + more, first, lens.push(len)),
{
    let all = calls + more;
    assert(more.len() == 3);
    assert(all.take(all.len() - 3) =~= calls);
    assert(all.skip(all.len() - 3) =~= more);
    assert(lens.push(len).drop_last() =~= lens);
}

/// Learning no length takes no calls.
pub proof fn lemma_learns_nothing(first: nat)
    ensures
        learns_lens(Seq::<InnerCall>::empty(), first, Seq::<u64>::empty()),
{
}

/// From `s0` with history `c0` and readers `r0` to `s1`, `c1` and `r1`, the
/// only calls were those that learned the newly known lengths, in order, and
/// only the readers they went to can have changed.
pub open spec fn learned_since<R>(
    s0: ReaderState,
    c0: Seq<InnerCall>,
    r0: Seq<R>,
    s1: ReaderState,
    c1: Seq<InnerCall>,
    r1: Seq<R>,
) -> bool {
    &&& s1.extends_lens(s0)
    &&& only_appends(c0, c1)
    &&& learns_lens(c1.skip(c0.len() as int), s0.known_lens.len(), s1.known_lens.skip(s0.known_lens.len() as int))
    &&& keeps_untouched(r0, r1, c1.skip(c0.len() as int))
}

/// Two runs of calls that learned lengths learned them all.
pub proof fn lemma_learns_lens_concat(a: Seq<InnerCall>, b: Seq<InnerCall>, first: nat, la: Seq<u64>, lb: Seq<u64>)
    requires
        learns_lens(a, first, la),
        learns_lens(b, first + la.len(), lb),
    ensures
        learns_lens(a + b, first, la + lb),
    decreases lb.len(),
{
    if lb.len() == 0 {
        assert(b =~= Seq::<InnerCall>::empty());
        assert(a + b =~= a);
        assert(la + lb =~= la);
    } else {
        let b0 = b.take(b.len() - 3);
        let b1 = b.skip(b.len() - 3);
        lemma_learns_lens_concat(a, b0, first, la, lb.drop_last());
        assert(la + lb =~= (la + lb.drop_last()).push(lb.last()));
        assert(a + b =~= (a + b0) + b1);
        lemma_learns_lens_push(a + b0, b1, first, la + lb.drop_last(), lb.last());
    }
}

/// Learning that happened in two steps.
pub proof fn lemma_learned_compose<R>(
    s0: ReaderState,
    c0: Seq<InnerCall>,
    r0: Seq<R>,
    s1: ReaderState,
    c1: Seq<InnerCall>,
    r1: Seq<R>,
    s2: ReaderState,
    c2: Seq<InnerCall>,
    r2: Seq<R>,
)
    requires
        learned_since(s0, c0, r0, s1, c1, r1),
        learned_since(s1, c1, r1, s2, c2, r2),
    ensures
        learned_since(s0, c0, r0, s2, c2, r2),
{
    lemma_appends_compose(c0, c1, c2);
    lemma_untouched_compose(r0, r1, r2, c1.skip(c0.len() as int), c2.skip(c1.len() as int));
    let l0 = s0.known_lens;
    let l1 = s1.known_lens;
    let l2 = s2.known_lens;
    assert(l2.take(l0.len() as int) =~= l1.take(l0.len() as int));
    assert(l2.skip(l0.len() as int) =~= l1.skip(l0.len() as int) + l2.skip(l1.len() as int));
    lemma_learns_lens_concat(
        c1.skip(c0.len() as int),
        c2.skip(c1.len() as int),
        l0.len(),
        l1.skip(l0.len() as int),
        l2.skip(l1.len() as int),
    );
}

/// Nothing learned, nothing called.
pub proof fn lemma_learned_nothing<R>(s: ReaderState, c: Seq<InnerCall>, r: Seq<R>)
    ensures
        learned_since(s, c, r, s, c, r),
{
    lemma_appends_nothing(c);
    lemma_take_all(s.known_lens);
    assert(s.known_lens.skip(s.known_lens.len() as int) =~= Seq::<u64>::empty());
}

/// Learning one length.
pub proof fn lemma_learned_one<R>(
    s0: ReaderState,
    c0: Seq<InnerCall>,
    r0: Seq<R>,
    s1: ReaderState,
    c1: Seq<InnerCall>,
    r1: Seq<R>,
    len: u64,
)
    requires
        s1.count == s0.count,
        s1.known_lens == s0.known_lens.push(len),
        only_appends(c0, c1),
        learns_len(c1.skip(c0.len() as int), s0.known_lens.len(), len),
        keeps_untouched(r0, r1, c1.skip(c0.len() as int)),
    ensures
        learned_since(s0, c0, r0, s1, c1, r1),
{
    let added = c1.skip(c0.len() as int);
    assert(s1.known_lens.take(s0.known_lens.len() as int) =~= s0.known_lens);
    assert(s1.known_lens.skip(s0.known_lens.len() as int) =~= seq![len]);
    assert(added.take(0) =~= Seq::<InnerCall>::empty());
    assert(added.skip(0) =~= added);
    assert(seq![len].drop_last() =~= Seq::<u64>::empty());
    reveal_with_fuel(learns_lens, 2);
}

/// After learning lengths from `c0` to `cm` and appending more calls up to
/// `c1`, the calls since `c0` are the learning calls and then the rest.
pub proof fn lemma_split_learned<R>(
    s0: ReaderState,
    c0: Seq<InnerCall>,
    r0: Seq<R>,
    sm: ReaderState,
    cm: Seq<InnerCall>,
    rm: Seq<R>,
    c1: Seq<InnerCall>,
)
    requires
        learned_since(s0, c0, r0, sm, cm, rm),
        only_appends(cm, c1),
    ensures
        only_appends(c0, c1),
        learning_calls(s0, sm) == cm.len() - c0.len(),
        learning_calls(s0, sm) <= c1.len() - c0.len(),
        c1.skip(c0.len() as int).take(learning_calls(s0, sm)) == cm.skip(c0.len() as int),
        c1.skip(c0.len() as int).skip(learning_calls(s0, sm)) == c1.skip(cm.len() as int),
        learns_lens(
            c1.skip(c0.len() as int).take(learning_calls(s0, sm)),
            s0.known_lens.len(),
            sm.known_lens.skip(s0.known_lens.len() as int),
        ),
{
    lemma_appends_compose(c0, cm, c1);
    lemma_learns_lens_len(cm.skip(c0.len() as int), s0.known_lens.len(), sm.known_lens.skip(s0.known_lens.len() as int));
    let added = c1.skip(c0.len() as int);
    let learned = cm.skip(c0.len() as int);
    assert(added.take(learned.len() as int) =~= learned);
    assert(added.skip(learned.len() as int) =~= c1.skip(cm.len() as int));
}

/// The calls of a combined length that learned what it needed and then
/// either succeeded or found that the sum overflows.
pub proof fn lemma_length_calls_learned<R>(
    s0: ReaderState,
    c0: Seq<InnerCall>,
    r0: Seq<R>,
    s1: ReaderState,
    c1: Seq<InnerCall>,
    r1: Seq<R>,
    result: Result<u64, StreamError>,
)
    requires
        learned_since(s0, c0, r0, s1, c1, r1),
        !(result matches Err(StreamError::Io(_))),
    ensures
        length_calls(s0, s1, c1.skip(c0.len() as int), result),
{
    lemma_appends_nothing(c1);
    lemma_split_learned(s0, c0, r0, s1, c1, r1, c1);
}

/// The calls of a combined length whose learning ended in an inner failure.
pub proof fn lemma_length_calls_failed<R>(
    s0: ReaderState,
    c0: Seq<InnerCall>,
    r0: Seq<R>,
    sm: ReaderState,
    cm: Seq<InnerCall>,
    rm: Seq<R>,
    s1: ReaderState,
    c1: Seq<InnerCall>,
    r1: Seq<R>,
    error: std::io::Error,
)
    requires
        learned_since(s0, c0, r0, sm, cm, rm),
        s1.known_lens == sm.known_lens,
        s1.count == sm.count,
        only_appends(cm, c1),
        fails_to_learn_len(c1.skip(cm.len() as int), sm.known_lens.len(), error),
        keeps_untouched(rm, r1, c1.skip(cm.len() as int)),
    ensures
        only_appends(c0, c1),
        length_calls(s0, s1, c1.skip(c0.len() as int), Err(StreamError::Io(error))),
        keeps_untouched(r0, r1, c1.skip(c0.len() as int)),
{
    lemma_split_learned(s0, c0, r0, sm, cm, rm, c1);
    lemma_appends_compose(c0, cm, c1);
    lemma_untouched_compose(r0, rm, r1, cm.skip(c0.len() as int), c1.skip(cm.len() as int));
}

/// One more successful rewind, of the next reader.
pub proof fn lemma_rewinds_push(calls: Seq<InnerCall>, first: nat, call: InnerCall)
    requires
        rewinds(calls, first),
        call.is_seek(first + calls.len(), SeekTarget::Start(0)),
        call.offset_answer() is Some,
    ensures
        rewinds(calls.push(call), first),
{
    assert forall|k: int| 0 <= k < calls.push(call).len() implies (#[trigger] calls.push(call)[k]).is_seek(
        first + k as nat,
        SeekTarget::Start(0),
    ) && calls.push(call)[k].offset_answer() is Some by {
        if k < calls.len() {
            assert(calls.push(call)[k] == calls[k]);
        }
    }
}

/// A landing whose rewind of a later reader failed with `error`.
pub proof fn lemma_lands_rewind_failed(
    calls: Seq<InnerCall>,
    index: nat,
    start: u64,
    local: u64,
    count: nat,
    reported: u64,
    error: std::io::Error,
)
    requires
        2 <= calls.len() <= count - index,
        calls[0].is_seek(index, SeekTarget::Start(local)),
        calls[0].offset_answer() == Some(reported),
        start + reported <= u64::MAX,
        rewinds(calls.skip(1).drop_last(), index + 1),
        calls.last().is_seek((index + calls.len() - 1) as nat, SeekTarget::Start(0)),
        calls.last().failed_with(error),
    ensures
        lands(calls, index, start, local, count, Err(StreamError::Io(error))),
{
}

} // verus!
