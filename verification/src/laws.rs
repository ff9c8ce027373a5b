//! Laws that relate the operations of the adapter to one another, stated over
//! the contracts in [`crate::model`].
use vstd::prelude::*;
use crate::calls::{
    learning_calls, learns_len, learns_lens, reads_in_order, rewinds, seek_calls, seeks_to, total_len_calls, InnerCall,
};
use crate::error::StreamError;
use crate::inner_io::SeekTarget;
use crate::model::{
    holds_byte, lemma_byte_in_one_reader, lemma_take_all, lemma_total_nonneg, lemma_start_monotone, lemma_start_of_all, read_post,
    seek_lands, seek_post, start_of, total_len_post, total_of, ReaderState,
};

verus! {

/// Once `total_len` has succeeded, asking again gives the same length and
/// changes nothing: the combined length is computed once and then cached.
pub proof fn law_total_len_is_cached(
    s0: ReaderState,
    s1: ReaderState,
    s2: ReaderState,
    first: std::io::Result<u64>,
    second: std::io::Result<u64>,
)
    requires
        total_len_post(s0, s1, first),
        first is Ok,
        total_len_post(s1, s2, second),
    ensures
        second matches Ok(len) && first == Ok::<u64, std::io::Error>(len),
        s2 == s1,
{
}

/// A seek that succeeds lands in the one reader that holds the target byte,
/// whenever some reader whose length is known holds it: reading goes on from
/// exactly that reader.
pub proof fn law_seek_lands_in_the_holding_reader(
    s0: ReaderState,
    s1: ReaderState,
    target: u64,
    position: u64,
    index: int,
)
    requires
        s1.wf(),
        seek_lands(s0, s1, target, Ok::<u64, StreamError>(position)),
        holds_byte(s1.known_lens, index, target as int),
    ensures
        s1.current == index,
        s1.position == position,
        start_of(s1.known_lens, index) <= position,
{
    if s1.current == s1.count {
        lemma_start_monotone(s1.known_lens, index + 1, s1.known_lens.len() as int);
        lemma_start_of_all(s1.known_lens);
    } else {
        lemma_byte_in_one_reader(s1.known_lens, target as int, index, s1.current as int);
    }
}

/// Seeking at or past the end of the stream is allowed: the position becomes
/// the target itself, every reader counts as read, and a read that follows
/// returns no bytes and changes nothing.
pub proof fn law_read_after_seeking_past_the_end(
    s0: ReaderState,
    s1: ReaderState,
    s2: ReaderState,
    target: u64,
    position: u64,
    buf_len: nat,
    read: std::io::Result<usize>,
)
    requires
        s1.wf(),
        seek_lands(s0, s1, target, Ok::<u64, StreamError>(position)),
        total_of(s1.known_lens) <= target,
        read_post(s1, s2, buf_len, read),
    ensures
        position == target,
        s1.position == target,
        s1.current == s1.count,
        read matches Ok(0),
        s2 == s1,
{
    if s1.current != s1.count {
        lemma_start_monotone(s1.known_lens, s1.current as int + 1, s1.known_lens.len() as int);
        lemma_start_of_all(s1.known_lens);
    }
}

/// The bytes that a run of reads delivered to the caller.
pub open spec fn delivered(results: Seq<std::io::Result<usize>>) -> int
    decreases results.len(),
{
    if results.len() == 0 {
        0
    } else {
        delivered(results.drop_last()) + match results.last() {
            Ok(amount) => amount as int,
            Err(_) => 0,
        }
    }
}

/// Read `i` of a run of reads took `states[i]` to `states[i + 1]`.
pub open spec fn read_step(
    states: Seq<ReaderState>,
    buf_lens: Seq<nat>,
    results: Seq<std::io::Result<usize>>,
    i: int,
) -> bool {
    read_post(states[i], states[i + 1], buf_lens[i], results[i])
}

/// Over any run of reads, the logical position moves on by exactly the bytes
/// delivered to the caller, stopping at `u64::MAX`: the position tracks the
/// bytes returned.
pub proof fn law_position_counts_delivered_bytes(
    states: Seq<ReaderState>,
    buf_lens: Seq<nat>,
    results: Seq<std::io::Result<usize>>,
)
    requires
        states.len() == results.len() + 1,
        buf_lens.len() == results.len(),
        forall|i: int| 0 <= i < results.len() ==> #[trigger] read_step(states, buf_lens, results, i),
    ensures
        states.last().position == (if states[0].position + delivered(results) <= u64::MAX {
            states[0].position + delivered(results)
        } else {
            u64::MAX as int
        }),
    decreases results.len(),
{
    if results.len() > 0 {
        let n = results.len() - 1;
        let earlier = states.drop_last();
        let earlier_results = results.drop_last();
        let earlier_lens = buf_lens.drop_last();
        assert forall|i: int| 0 <= i < earlier_results.len() implies #[trigger] read_step(
            earlier,
            earlier_lens,
            earlier_results,
            i,
        ) by {
            assert(read_step(states, buf_lens, results, i));
        }
        law_position_counts_delivered_bytes(earlier, earlier_lens, earlier_results);
        assert(read_step(states, buf_lens, results, n));
        lemma_delivered_nonneg(earlier_results);
    }
}

/// A run of reads never delivers a negative number of bytes.
pub proof fn lemma_delivered_nonneg(results: Seq<std::io::Result<usize>>)
    ensures
        delivered(results) >= 0,
    decreases results.len(),
{
    if results.len() > 0 {
        lemma_delivered_nonneg(results.drop_last());
    }
}

/// Every seek in `calls` to an offset from the start was answered with that
/// offset: the readers went where they were sent.
pub open spec fn answers_as_asked(calls: Seq<InnerCall>) -> bool {
    forall|k: int|
        0 <= k < calls.len() ==> match #[trigger] calls[k] {
            InnerCall::Seek { request: SeekTarget::Start(offset), answer: Ok(reported), .. } => reported == offset,
            _ => true,
        }
}

/// Some call in `calls` sought reader `reader` with `request`.
pub open spec fn sends(calls: Seq<InnerCall>, reader: nat, request: SeekTarget) -> bool {
    exists|k: int| 0 <= k < calls.len() && (#[trigger] calls[k]).is_seek(reader, request)
}

/// A seek that lands in a reader lands exactly on its target when the readers
/// go where they are sent: the reader that holds the target was sought to the
/// target less that reader's start, and every later reader was sought back to
/// its start, so that reading goes on from the target.
pub proof fn law_a_landing_reaches_its_target(
    s0: ReaderState,
    s1: ReaderState,
    calls: Seq<InnerCall>,
    target: u64,
    position: u64,
)
    requires
        seek_lands(s0, s1, target, Ok::<u64, StreamError>(position)),
        seek_calls(s0, s1, calls, target, Ok::<u64, StreamError>(position)),
        s1.current < s1.count,
        answers_as_asked(calls),
    ensures
        position == target,
        s1.position == target,
        sends(calls, s1.current, SeekTarget::Start((target - start_of(s1.known_lens, s1.current as int)) as u64)),
        forall|j: nat| s1.current < j < s1.count ==> #[trigger] sends(calls, j, SeekTarget::Start(0)),
{
    let learned = 3 * (s1.known_lens.len() - s0.known_lens.len());
    let rest = calls.skip(learned);
    let start = start_of(s1.known_lens, s1.current as int);
    assert(rest[0] == calls[learned]);
    assert(holds_byte(s1.known_lens, s1.current as int, target as int));
    lemma_total_nonneg(s1.known_lens.take(s1.current as int));
    assert(calls[learned].is_seek(s1.current, SeekTarget::Start((target - start) as u64)));
    if let InnerCall::Seek { request: SeekTarget::Start(offset), answer: Ok(reported), .. } = calls[learned] {
        assert(reported == offset);
        assert(offset == target - start);
    }
    assert forall|j: nat| s1.current < j < s1.count implies #[trigger] sends(calls, j, SeekTarget::Start(0)) by {
        let k = j - s1.current - 1;
        assert(rest.skip(1)[k] == calls[learned + 1 + k]);
        assert(calls[learned + 1 + k].is_seek(j, SeekTarget::Start(0)));
    }
}

/// A seek in which every call to an inner reader succeeded does not fail
/// with an inner reader's error: such an error is always the answer of a
/// call that the seek made.
pub proof fn law_no_inner_failure_no_inner_error(
    target: SeekTarget,
    s0: ReaderState,
    s1: ReaderState,
    calls: Seq<InnerCall>,
    result: Result<u64, StreamError>,
)
    requires
        seeks_to(target, s0, s1, calls, result),
        forall|k: int| 0 <= k < calls.len() ==> (#[trigger] calls[k]).succeeded(),
    ensures
        !(result is Err && result->Err_0 is Io),
{
    if result matches Err(StreamError::Io(error)) {
        let learned = 3 * (s1.known_lens.len() - s0.known_lens.len());
        let n = calls.len() - 1;
        assert(calls.skip(learned).last() == calls[n]);
        assert(calls[n].succeeded());
    }
}

/// Some call in `calls` asked reader `reader` for its position, and a later
/// one sought it back to the position it reported; both succeeded.
pub open spec fn puts_back(calls: Seq<InnerCall>, reader: nat) -> bool {
    exists|i: int, j: int|
        #![trigger calls[i], calls[j]]
        0 <= i < j < calls.len() && calls[i].is_position(reader) && calls[i].offset_answer() is Some
            && calls[j].is_seek(reader, SeekTarget::Start(calls[i].offset_answer()->0))
            && calls[j].offset_answer() is Some
}

/// What a prefix of the calls shows, the whole history shows.
proof fn lemma_puts_back_prefix(calls: Seq<InnerCall>, n: int, reader: nat)
    requires
        0 <= n <= calls.len(),
        puts_back(calls.take(n), reader),
    ensures
        puts_back(calls, reader),
{
    let prefix = calls.take(n);
    let (i, j) = choose|i: int, j: int|
        #![trigger prefix[i], prefix[j]]
        0 <= i < j < prefix.len() && prefix[i].is_position(reader) && prefix[i].offset_answer() is Some
            && prefix[j].is_seek(reader, SeekTarget::Start(prefix[i].offset_answer()->0))
            && prefix[j].offset_answer() is Some;
    assert(prefix[i] == calls[i] && prefix[j] == calls[j]);
}

/// Calls that learned the lengths of readers from `first` on put each of
/// those readers back where it was.
proof fn lemma_learning_puts_back(calls: Seq<InnerCall>, first: nat, lens: Seq<u64>)
    requires
        learns_lens(calls, first, lens),
    ensures
        forall|r: nat| first <= r < first + lens.len() ==> #[trigger] puts_back(calls, r),
    decreases lens.len(),
{
    if lens.len() > 0 {
        let n = calls.len() - 3;
        lemma_learning_puts_back(calls.take(n), first, lens.drop_last());
        let last = calls.skip(n);
        assert(learns_len(last, (first + lens.len() - 1) as nat, lens.last()));
        assert(last[0] == calls[n] && last[2] == calls[n + 2]);
        assert forall|r: nat| first <= r < first + lens.len() implies #[trigger] puts_back(calls, r) by {
            if r < first + lens.len() - 1 {
                assert(puts_back(calls.take(n), r));
                lemma_puts_back_prefix(calls, n, r);
            } else {
                assert(calls[n].is_position(r));
                assert(calls[n + 2].is_seek(r, SeekTarget::Start(calls[n].offset_answer()->0)));
            }
        }
    }
}

/// `total_len` puts every reader whose length it measured back where it
/// was: it asks the reader for its position before measuring it, and seeks it
/// back to that position afterwards.
pub proof fn law_total_len_puts_readers_back(
    s0: ReaderState,
    s1: ReaderState,
    calls: Seq<InnerCall>,
    result: std::io::Result<u64>,
)
    requires
        total_len_post(s0, s1, result),
        total_len_calls(s0, s1, calls, result),
    ensures
        forall|r: nat| s0.known_lens.len() <= r < s1.known_lens.len() ==> #[trigger] puts_back(calls, r),
{
    let learned = 3 * (s1.known_lens.len() - s0.known_lens.len());
    let lens = s1.known_lens.skip(s0.known_lens.len() as int);
    lemma_learning_puts_back(calls.take(learned), s0.known_lens.len(), lens);
    assert forall|r: nat| s0.known_lens.len() <= r < s1.known_lens.len() implies #[trigger] puts_back(calls, r) by {
        assert(puts_back(calls.take(learned), r));
        lemma_puts_back_prefix(calls, learned, r);
    }
}

/// A seek puts every reader whose length it measured back where it was,
/// whatever its target: the lengths it needs are measured as `total_len`
/// measures them.
pub proof fn law_seek_puts_measured_readers_back(
    target: SeekTarget,
    s0: ReaderState,
    s1: ReaderState,
    calls: Seq<InnerCall>,
    result: Result<u64, StreamError>,
)
    requires
        seeks_to(target, s0, s1, calls, result),
    ensures
        forall|r: nat| s0.known_lens.len() <= r < s1.known_lens.len() ==> #[trigger] puts_back(calls, r),
{
    let learned = 3 * (s1.known_lens.len() - s0.known_lens.len());
    let lens = s1.known_lens.skip(s0.known_lens.len() as int);
    if s0.known_lens.len() < s1.known_lens.len() {
        assert(learns_lens(calls.take(learned), s0.known_lens.len(), lens));
        lemma_learning_puts_back(calls.take(learned), s0.known_lens.len(), lens);
        assert forall|r: nat| s0.known_lens.len() <= r < s1.known_lens.len() implies #[trigger] puts_back(
            calls,
            r,
        ) by {
            assert(puts_back(calls.take(learned), r));
            lemma_puts_back_prefix(calls, learned, r);
        }
    }
}

/// One operation on the adapter, with what it was given and what it
/// returned, as the laws over runs of operations see it.
pub enum Step {
    /// `read` into a buffer of `buf_len` bytes.
    Read { buf_len: nat, result: std::io::Result<usize> },
    /// `seek`, to any target.
    Seek { result: std::io::Result<u64> },
    /// `total_len`.
    TotalLen { result: std::io::Result<u64> },
}

/// Step `i` of a run took `states[i]` to `states[i + 1]`, as its contract
/// says.
pub open spec fn step_at(states: Seq<ReaderState>, steps: Seq<Step>, i: int) -> bool {
    let s0 = states[i];
    let s1 = states[i + 1];
    match steps[i] {
        Step::Read { buf_len, result } => read_post(s0, s1, buf_len, result),
        Step::Seek { result } => seek_post(s0, s1, result),
        Step::TotalLen { result } => total_len_post(s0, s1, result),
    }
}

/// `states` are the states that the run of operations `steps` went through,
/// from the first to the last.
pub open spec fn is_run(states: Seq<ReaderState>, steps: Seq<Step>) -> bool {
    &&& states.len() == steps.len() + 1
    &&& forall|i: int| 0 <= i < steps.len() ==> #[trigger] step_at(states, steps, i)
}

/// The position after the run `steps` from position `start`: a read moves it
/// on by the bytes it delivered, stopping at `u64::MAX`; a successful seek
/// sets it to the position the seek returned; nothing else moves it.
pub open spec fn position_after(start: int, steps: Seq<Step>) -> int
    decreases steps.len(),
{
    if steps.len() == 0 {
        start
    } else {
        let before = position_after(start, steps.drop_last());
        match steps.last() {
            Step::Read { result: Ok(amount), .. } => if before + amount <= u64::MAX {
                before + amount
            } else {
                u64::MAX as int
            },
            Step::Seek { result: Ok(position), .. } => position as int,
            _ => before,
        }
    }
}

/// A run without its last operation is a run.
proof fn lemma_run_drop_last(states: Seq<ReaderState>, steps: Seq<Step>)
    requires
        is_run(states, steps),
        steps.len() > 0,
    ensures
        is_run(states.drop_last(), steps.drop_last()),
        step_at(states, steps, steps.len() - 1),
{
    assert forall|i: int| 0 <= i < steps.drop_last().len() implies #[trigger] step_at(
        states.drop_last(),
        steps.drop_last(),
        i,
    ) by {
        assert(step_at(states, steps, i));
    }
    assert(step_at(states, steps, steps.len() - 1));
}

/// Over any run of reads, seeks and `total_len` calls, failed ones included,
/// the number of inner readers never changes.
pub proof fn law_reader_count_never_changes(states: Seq<ReaderState>, steps: Seq<Step>)
    requires
        is_run(states, steps),
    ensures
        states.last().count == states[0].count,
    decreases steps.len(),
{
    if steps.len() > 0 {
        lemma_run_drop_last(states, steps);
        law_reader_count_never_changes(states.drop_last(), steps.drop_last());
    }
}

/// Over any run of reads, seeks and `total_len` calls, failed ones included,
/// a combined length once cached stays cached, unchanged.
pub proof fn law_cached_total_survives(states: Seq<ReaderState>, steps: Seq<Step>, total: u64)
    requires
        is_run(states, steps),
        states[0].total_len == Some(total),
    ensures
        states.last().total_len == Some(total),
    decreases steps.len(),
{
    if steps.len() > 0 {
        lemma_run_drop_last(states, steps);
        law_cached_total_survives(states.drop_last(), steps.drop_last(), total);
    }
}

/// Over any run of reads, seeks and `total_len` calls, failed ones included,
/// the logical position is the position the last successful seek returned
/// (or the starting one), moved on by the bytes every later read delivered,
/// stopping at `u64::MAX`.
pub proof fn law_position_over_a_run(states: Seq<ReaderState>, steps: Seq<Step>)
    requires
        is_run(states, steps),
    ensures
        states.last().position == position_after(states[0].position as int, steps),
    decreases steps.len(),
{
    if steps.len() > 0 {
        lemma_run_drop_last(states, steps);
        law_position_over_a_run(states.drop_last(), steps.drop_last());
    }
}

/// Once the combined length is cached, `total_len` answers from the cache:
/// it returns that length, changes nothing, and calls no inner reader.
pub proof fn law_total_len_answers_from_the_cache(
    s0: ReaderState,
    s1: ReaderState,
    calls: Seq<InnerCall>,
    result: std::io::Result<u64>,
    total: u64,
)
    requires
        s0.total_len == Some(total),
        total_len_post(s0, s1, result),
        total_len_calls(s0, s1, calls, result),
    ensures
        result == Ok::<u64, std::io::Error>(total),
        s1 == s0,
        calls.len() == 0,
{
    lemma_take_all(calls);
}

/// Over any run of reads, seeks and `total_len` calls, failed ones included,
/// a length once learned stays known, unchanged: no reader is measured twice.
pub proof fn law_known_lengths_are_kept(states: Seq<ReaderState>, steps: Seq<Step>)
    requires
        is_run(states, steps),
    ensures
        states.last().extends_lens(states[0]),
    decreases steps.len(),
{
    if steps.len() > 0 {
        lemma_run_drop_last(states, steps);
        law_known_lengths_are_kept(states.drop_last(), steps.drop_last());
        let n = steps.len() - 1;
        assert(states.drop_last()[0] == states[0]);
        assert(states.drop_last().last() == states[n]);
        let first = states[0].known_lens;
        let mid = states[n].known_lens;
        let last = states[n + 1].known_lens;
        lemma_take_all(mid);
        assert(last.take(first.len() as int) =~= mid.take(first.len() as int));
    } else {
        lemma_take_all(states[0].known_lens);
    }
}

/// A seek from the start to a byte of the stream, once every length is known
/// and their sum fits in a `u64`, succeeds and lands exactly on its target
/// when no inner call fails and the readers go where they are sent: the
/// reader that holds the target becomes current, it was sought to the target
/// less its start, and every later reader was sought back to its start.
pub proof fn law_a_seek_from_the_start_reaches_its_target(
    s0: ReaderState,
    s1: ReaderState,
    calls: Seq<InnerCall>,
    target: u64,
    result: Result<u64, StreamError>,
)
    requires
        s0.wf(),
        s1.wf(),
        seeks_to(SeekTarget::Start(target), s0, s1, calls, result),
        s0.known_lens.len() == s0.count,
        total_of(s0.known_lens) <= u64::MAX,
        target < total_of(s0.known_lens),
        forall|k: int| 0 <= k < calls.len() ==> (#[trigger] calls[k]).succeeded(),
        answers_as_asked(calls),
    ensures
        result == Ok::<u64, StreamError>(target),
        s1.position == target,
        holds_byte(s1.known_lens, s1.current as int, target as int),
        sends(calls, s1.current, SeekTarget::Start((target - start_of(s1.known_lens, s1.current as int)) as u64)),
        forall|j: nat| s1.current < j < s1.count ==> #[trigger] sends(calls, j, SeekTarget::Start(0)),
{
    assert(s1.known_lens =~= s0.known_lens);
    law_no_inner_failure_no_inner_error(SeekTarget::Start(target), s0, s1, calls, result);
    if let Err(StreamError::PositionOverflow) = result {
        let learned = 3 * (s1.known_lens.len() - s0.known_lens.len());
        let landing = calls.skip(learned)[0].reader();
        let start = start_of(s1.known_lens, landing as int);
        lemma_total_nonneg(s1.known_lens.take(landing as int));
        assert(calls.skip(learned)[0] == calls[learned]);
        if let InnerCall::Seek { request: SeekTarget::Start(offset), answer: Ok(reported), .. } = calls[learned] {
            assert(reported == offset);
        }
        assert(false);
    }
    if let Ok(position) = result {
        if s1.current == s1.count {
            assert(false);
        }
        law_a_landing_reaches_its_target(s0, s1, calls, target, position);
    }
}

/// A seek from the start to a position at or past the end of the stream,
/// once every length is known, succeeds with that position and calls no
/// inner reader at all: no reader moves.
pub proof fn law_a_seek_past_the_end_calls_no_reader(
    s0: ReaderState,
    s1: ReaderState,
    calls: Seq<InnerCall>,
    target: u64,
    result: Result<u64, StreamError>,
)
    requires
        seeks_to(SeekTarget::Start(target), s0, s1, calls, result),
        s0.known_lens.len() == s0.count,
        total_of(s0.known_lens) <= target,
    ensures
        result == Ok::<u64, StreamError>(target),
        s1 == (ReaderState { current: s0.count, position: target, ..s0 }),
        calls.len() == 0,
{
    assert(calls.skip(0) =~= calls);
}

/// The last call to reader `reader` in `calls` sought it to its start, and the
/// reader accepted: as far as its own answers go, it is left at byte 0.
pub open spec fn left_at_start(calls: Seq<InnerCall>, reader: nat) -> bool {
    exists|k: int|
        #![trigger calls[k]]
        0 <= k < calls.len() && calls[k].is_seek(reader, SeekTarget::Start(0)) && calls[k].offset_answer() is Some
            && forall|m: int| k < m < calls.len() ==> (#[trigger] calls[m]).reader() != reader
}

/// What the calls after the first `n` show of a reader, all the calls show.
proof fn lemma_left_at_start_suffix(calls: Seq<InnerCall>, n: int, reader: nat)
    requires
        0 <= n <= calls.len(),
        left_at_start(calls.skip(n), reader),
    ensures
        left_at_start(calls, reader),
{
    let rest = calls.skip(n);
    let k = choose|k: int|
        #![trigger rest[k]]
        0 <= k < rest.len() && rest[k].is_seek(reader, SeekTarget::Start(0)) && rest[k].offset_answer() is Some
            && forall|m: int| k < m < rest.len() ==> (#[trigger] rest[m]).reader() != reader;
    assert(rest[k] == calls[n + k]);
    assert forall|m: int| n + k < m < calls.len() implies (#[trigger] calls[m]).reader() != reader by {
        assert(rest[m - n] == calls[m]);
    }
}

/// A landing in reader `index` that succeeded leaves every later reader at
/// its start.
proof fn lemma_landing_rewinds(calls: Seq<InnerCall>, index: nat, count: nat)
    requires
        calls.len() == count - index,
        rewinds(calls.skip(1), index + 1),
    ensures
        forall|j: nat| index < j < count ==> #[trigger] left_at_start(calls, j),
{
    assert forall|j: nat| index < j < count implies #[trigger] left_at_start(calls, j) by {
        let k = j - index;
        assert(calls.skip(1)[k - 1] == calls[k]);
        assert forall|m: int| k < m < calls.len() implies (#[trigger] calls[m]).reader() != j by {
            assert(calls.skip(1)[m - 1] == calls[m]);
        }
    }
}

/// A seek that succeeds and lands in a reader, whatever its target, leaves
/// every later reader at its start: the last call that each of them receives
/// seeks it to byte 0, and the reader accepts. Reading then goes on from the
/// landing reader into the later ones from their first byte.
pub proof fn law_a_landing_rewinds_every_later_reader(
    target: SeekTarget,
    s0: ReaderState,
    s1: ReaderState,
    calls: Seq<InnerCall>,
    position: u64,
)
    requires
        seeks_to(target, s0, s1, calls, Ok::<u64, StreamError>(position)),
        s1.current < s1.count,
    ensures
        forall|j: nat| s1.current < j < s1.count ==> #[trigger] left_at_start(calls, j),
{
    let learned = learning_calls(s0, s1);
    let rest = calls.skip(learned);
    assert(rest.skip(0) =~= rest);
    lemma_landing_rewinds(rest, s1.current, s1.count);
    assert forall|j: nat| s1.current < j < s1.count implies #[trigger] left_at_start(calls, j) by {
        assert(left_at_start(rest, j));
        lemma_left_at_start_suffix(calls, learned, j);
    }
}

/// Whenever an inner reader's read fails during a `read`, that read is the
/// last one made, its error is the result, and the failing reader stays
/// current, so that the next `read` asks it again; the position does not
/// move. No error is turned into an end of stream, and no reader is skipped
/// because of one.
pub proof fn law_an_inner_read_error_is_the_result(
    s0: ReaderState,
    s1: ReaderState,
    buf_len: nat,
    calls: Seq<InnerCall>,
    result: std::io::Result<usize>,
    k: int,
    error: std::io::Error,
)
    requires
        read_post(s0, s1, buf_len, result),
        reads_in_order(calls, s0.current, buf_len, result),
        s1.current + (if result matches Ok(0) { 0int } else { 1int }) == s0.current + calls.len(),
        0 <= k < calls.len(),
        calls[k].failed_with(error),
    ensures
        result == Err::<usize, std::io::Error>(error),
        k == calls.len() - 1,
        s1.current == calls[k].reader(),
        s1.position == s0.position,
{
    if k < calls.len() - 1 {
        assert(calls[k].is_read(s0.current + k as nat, buf_len, Ok(0)));
        assert(false);
    }
}

/// Reader `reader` was left where it was: the first call it received asked
/// for its position, a later one sought it back to the position it
/// reported, the reader accepted, and it received no call after that.
pub open spec fn restored(calls: Seq<InnerCall>, reader: nat) -> bool {
    exists|i: int, j: int|
        #![trigger calls[i], calls[j]]
        0 <= i < j < calls.len() && calls[i].is_position(reader) && calls[i].offset_answer() is Some
            && calls[j].is_seek(reader, SeekTarget::Start(calls[i].offset_answer()->0))
            && calls[j].offset_answer() is Some
            && (forall|m: int| 0 <= m < i ==> (#[trigger] calls[m]).reader() != reader)
            && (forall|m: int| j < m < calls.len() ==> (#[trigger] calls[m]).reader() != reader)
}

/// Calls that learned the lengths of the readers from `first` on went to
/// those readers only.
proof fn lemma_learning_calls_readers(calls: Seq<InnerCall>, first: nat, lens: Seq<u64>)
    requires
        learns_lens(calls, first, lens),
    ensures
        forall|m: int| 0 <= m < calls.len() ==> first <= (#[trigger] calls[m]).reader() < first + lens.len(),
    decreases lens.len(),
{
    if lens.len() > 0 {
        let n = calls.len() - 3;
        lemma_learning_calls_readers(calls.take(n), first, lens.drop_last());
        let last = calls.skip(n);
        assert(learns_len(last, (first + lens.len() - 1) as nat, lens.last()));
        assert forall|m: int| 0 <= m < calls.len() implies first <= (#[trigger] calls[m]).reader() < first + lens.len() by {
            if m < n {
                assert(calls.take(n)[m] == calls[m]);
            } else {
                assert(last[m - n] == calls[m]);
            }
        }
    }
}

/// A reader left where it was by the first calls stays so when the later
/// calls go to other readers.
proof fn lemma_restored_prefix(calls: Seq<InnerCall>, n: int, reader: nat)
    requires
        0 <= n <= calls.len(),
        restored(calls.take(n), reader),
        forall|m: int| n <= m < calls.len() ==> (#[trigger] calls[m]).reader() != reader,
    ensures
        restored(calls, reader),
{
    let a = calls.take(n);
    let (i, j) = choose|i: int, j: int|
        #![trigger a[i], a[j]]
        0 <= i < j < a.len() && a[i].is_position(reader) && a[i].offset_answer() is Some
            && a[j].is_seek(reader, SeekTarget::Start(a[i].offset_answer()->0)) && a[j].offset_answer() is Some
            && (forall|m: int| 0 <= m < i ==> (#[trigger] a[m]).reader() != reader)
            && (forall|m: int| j < m < a.len() ==> (#[trigger] a[m]).reader() != reader);
    assert(a[i] == calls[i] && a[j] == calls[j]);
    assert forall|m: int| 0 <= m < i implies (#[trigger] calls[m]).reader() != reader by {
        assert(a[m] == calls[m]);
    }
    assert forall|m: int| j < m < calls.len() implies (#[trigger] calls[m]).reader() != reader by {
        if m < n {
            assert(a[m] == calls[m]);
        }
    }
}

/// Calls that learned the lengths of the readers from `first` on left each
/// of those readers where it was.
proof fn lemma_learning_restores(calls: Seq<InnerCall>, first: nat, lens: Seq<u64>)
    requires
        learns_lens(calls, first, lens),
    ensures
        forall|r: nat| first <= r < first + lens.len() ==> #[trigger] restored(calls, r),
    decreases lens.len(),
{
    if lens.len() > 0 {
        let n = calls.len() - 3;
        let a = calls.take(n);
        let last = calls.skip(n);
        let r_last = (first + lens.len() - 1) as nat;
        lemma_learning_restores(a, first, lens.drop_last());
        lemma_learning_calls_readers(a, first, lens.drop_last());
        assert(learns_len(last, r_last, lens.last()));
        assert(last[0] == calls[n] && last[1] == calls[n + 1] && last[2] == calls[n + 2]);
        assert forall|r: nat| first <= r < first + lens.len() implies #[trigger] restored(calls, r) by {
            if r < r_last {
                assert(restored(a, r));
                assert forall|m: int| n <= m < calls.len() implies (#[trigger] calls[m]).reader() != r by {
                    assert(last[m - n] == calls[m]);
                }
                lemma_restored_prefix(calls, n, r);
            } else {
                assert forall|m: int| 0 <= m < n implies (#[trigger] calls[m]).reader() != r by {
                    assert(a[m] == calls[m]);
                }
                assert(calls[n].is_position(r));
                assert(calls[n + 2].is_seek(r, SeekTarget::Start(calls[n].offset_answer()->0)));
            }
        }
    }
}

/// `total_len` leaves every reader whose length it measured where it was:
/// the first call the reader receives asks for its position, and the last
/// one seeks it back to the position it reported, which the reader accepts.
/// Reading after `total_len` goes on from where it stood before.
pub proof fn law_total_len_leaves_each_measured_reader_where_it_was(
    s0: ReaderState,
    s1: ReaderState,
    calls: Seq<InnerCall>,
    result: std::io::Result<u64>,
)
    requires
        total_len_post(s0, s1, result),
        total_len_calls(s0, s1, calls, result),
    ensures
        forall|r: nat| s0.known_lens.len() <= r < s1.known_lens.len() ==> #[trigger] restored(calls, r),
{
    let learned = learning_calls(s0, s1);
    let lens = s1.known_lens.skip(s0.known_lens.len() as int);
    let tail = calls.skip(learned);
    lemma_learning_restores(calls.take(learned), s0.known_lens.len(), lens);
    assert forall|r: nat| s0.known_lens.len() <= r < s1.known_lens.len() implies #[trigger] restored(calls, r) by {
        assert(restored(calls.take(learned), r));
        assert forall|m: int| learned <= m < calls.len() implies (#[trigger] calls[m]).reader() != r by {
            assert(tail[m - learned] == calls[m]);
        }
        lemma_restored_prefix(calls, learned, r);
    }
}

} // verus!
