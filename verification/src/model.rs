//! The mathematical model of a `MultiReader`: its abstract state, the layout
//! of the concatenated stream, the contracts of the operations as predicates,
//! and the lemmas about the layout.
use vstd::prelude::*;
use crate::error::StreamError;

verus! {

/// The abstract state of a `MultiReader`.
pub struct ReaderState {
    /// How many inner readers there are.
    pub count: nat,
    /// The index of the inner reader that the next read goes to; `count`
    /// once every reader has reported EOF (or after a seek past the end).
    pub current: nat,
    /// The logical byte position in the concatenated stream.
    pub position: u64,
    /// The lengths learned so far, of the readers `0 .. known_lens.len()`:
    /// they are always learned in order, from the first reader on.
    pub known_lens: Seq<u64>,
    /// The cached combined length, once it has been computed.
    pub total_len: Option<u64>,
}

/// The sum of a sequence of lengths.
pub open spec fn total_of(lens: Seq<u64>) -> int
    decreases lens.len(),
{
    if lens.len() == 0 {
        0
    } else {
        total_of(lens.drop_last()) + lens.last()
    }
}

/// The offset at which reader `index` starts in the concatenated stream.
pub open spec fn start_of(lens: Seq<u64>, index: int) -> int {
    total_of(lens.take(index))
}

/// Reader `index` holds the logical byte `target`: the byte lies in the
/// half-open range that the reader covers in the concatenated stream.
pub open spec fn holds_byte(lens: Seq<u64>, index: int, target: int) -> bool {
    &&& 0 <= index < lens.len()
    &&& start_of(lens, index) <= target < start_of(lens, index + 1)
}

/// What one `read` into a buffer of `buf_len` bytes does, from state `s0` to
/// state `s1` with `result`. Readers are drained in order and never revisited;
/// an empty buffer, or a stream whose readers are all drained, gives `Ok(0)`
/// and changes nothing; bytes handed to the caller move the logical position
/// on by their number; `Ok(0)` for a non-empty buffer means every reader has
/// reached EOF; an error leaves the position where it was.
pub open spec fn read_post(s0: ReaderState, s1: ReaderState, buf_len: nat, result: std::io::Result<usize>) -> bool {
    &&& s1.same_layout(s0)
    &&& s0.current <= s1.current <= s1.count
    &&& buf_len == 0 ==> (result matches Ok(0) && s1 == s0)
    &&& s0.current == s0.count ==> (result matches Ok(0) && s1 == s0)
    &&& match result {
        Ok(0) => s1.position == s0.position && (buf_len == 0 || s1.current == s1.count),
        Ok(amount) => s1.current < s1.count && s1.position == s0.position.saturating_add(amount as u64),
        Err(_) => s1.current < s1.count && s1.position == s0.position,
    }
}

/// What `total_len` does, from state `s0` to state `s1` with `result`: it
/// learns the remaining lengths in order and leaves the read cursor alone; a
/// cached total is returned as it is; once every length is known it succeeds
/// exactly when their sum fits in a `u64`; success caches the sum, and a
/// failure caches nothing, either because the sum overflows or because a
/// reader could not report its length.
pub open spec fn total_len_post(s0: ReaderState, s1: ReaderState, result: std::io::Result<u64>) -> bool {
    &&& s1.extends_lens(s0)
    &&& s1.current == s0.current
    &&& s1.position == s0.position
    &&& s0.total_len matches Some(t) ==> (result matches Ok(len) && len == t && s1 == s0)
    &&& s0.known_lens.len() == s0.count ==> (result is Ok <==> total_of(s0.known_lens) <= u64::MAX)
    &&& match result {
        Ok(t) => {
            &&& s1.total_len == Some(t)
            &&& s1.known_lens.len() == s1.count
            &&& t == total_of(s1.known_lens)
        },
        Err(_) => {
            &&& s1.total_len is None
            &&& (total_of(s1.known_lens) > u64::MAX || s1.known_lens.len() < s1.count)
        },
    }
}

/// What computing the combined length does, from `s0` to `s1` with `result`.
pub open spec fn length_found(s0: ReaderState, s1: ReaderState, result: Result<u64, StreamError>) -> bool {
    &&& s1.extends_lens(s0)
    &&& s1.current == s0.current
    &&& s1.position == s0.position
    &&& s0.total_len matches Some(t) ==> (result == Ok::<u64, StreamError>(t) && s1 == s0)
    &&& s0.known_lens.len() == s0.count ==> (result is Ok <==> total_of(s0.known_lens) <= u64::MAX)
    &&& match result {
        Ok(t) => {
            &&& s1.total_len == Some(t)
            &&& s1.known_lens.len() == s1.count
            &&& t == total_of(s1.known_lens)
        },
        Err(error) => {
            &&& s1.total_len is None
            &&& match error {
                StreamError::Io(_) => s1.known_lens.len() < s1.count && total_of(s1.known_lens) <= u64::MAX,
                StreamError::LengthOverflow => total_of(s1.known_lens) > u64::MAX,
                _ => false,
            }
        },
    }
}

/// The absolute position `base + offset`, or `None` when it lies before byte
/// zero or past `u64::MAX`.
pub open spec fn offset_by(base: int, offset: int) -> Option<u64> {
    if 0 <= base + offset <= u64::MAX {
        Some((base + offset) as u64)
    } else {
        None
    }
}

/// What a seek to the absolute position `target` does, from state `s0` to
/// state `s1` with `result`: it lands on `target` past the end of the stream,
/// or in the reader that holds `target`; or it fails and leaves the cursor.
pub open spec fn seek_lands(s0: ReaderState, s1: ReaderState, target: u64, result: Result<u64, StreamError>) -> bool {
    &&& s1.extends_lens(s0)
    &&& s1.total_len == s0.total_len
    &&& match result {
        Ok(position) => {
            &&& s1.position == position
            &&& {
                ||| {
                    &&& s1.current == s1.count
                    &&& position == target
                    &&& s1.known_lens.len() == s1.count
                    &&& total_of(s1.known_lens) <= target
                }
                ||| {
                    &&& holds_byte(s1.known_lens, s1.current as int, target as int)
                    &&& start_of(s1.known_lens, s1.current as int) <= position
                }
            }
        },
        Err(error) => {
            &&& s1.current == s0.current
            &&& s1.position == s0.position
            &&& match error {
                StreamError::Io(_) => true,
                StreamError::LengthOverflow => total_of(s1.known_lens) > u64::MAX,
                StreamError::PositionOverflow => exists|i: int| holds_byte(s1.known_lens, i, target as int),
                StreamError::OutOfRange => false,
            }
        },
    }
    &&& (s0.known_lens.len() == s0.count && total_of(s0.known_lens) <= target) ==> {
        &&& result == Ok::<u64, StreamError>(target)
        &&& s1 == ReaderState { current: s0.count, position: target, ..s0 }
    }
}

/// What a seek does, from state `s0` to state `s1` with `result`, whatever
/// its target was: lengths are only
/// learned, never forgotten; a success moves the position to the returned
/// value, which lies past every byte when every reader counts as read, and
/// is no earlier than the start of the reader that is current otherwise; a
/// failure leaves the read cursor where it was; a cached combined length
/// stays cached.
pub open spec fn seek_post(s0: ReaderState, s1: ReaderState, result: std::io::Result<u64>) -> bool {
    &&& s1.extends_lens(s0)
    &&& s0.total_len matches Some(t) ==> s1.total_len == Some(t)
    &&& match result {
        Ok(position) => {
            &&& s1.position == position
            &&& s1.current == s1.count ==> (s1.known_lens.len() == s1.count && total_of(s1.known_lens)
                <= position)
            &&& s1.current < s1.count ==> start_of(s1.known_lens, s1.current as int) <= position
        },
        Err(_) => {
            &&& s1.current == s0.current
            &&& s1.position == s0.position
        },
    }
}

/// Every item is an `Ok`.
pub open spec fn all_ok<T, E>(items: Seq<Result<T, E>>) -> bool {
    forall|j: int| 0 <= j < items.len() ==> (#[trigger] items[j]) is Ok
}

/// Item `i` is the first `Err`.
pub open spec fn first_error_at<T, E>(items: Seq<Result<T, E>>, i: int) -> bool {
    &&& 0 <= i < items.len()
    &&& items[i] is Err
    &&& forall|j: int| 0 <= j < i ==> (#[trigger] items[j]) is Ok
}

/// The values inside the `Ok` items, in order.
pub open spec fn ok_values<T, E>(items: Seq<Result<T, E>>) -> Seq<T> {
    items.map_values(|item: Result<T, E>| item->Ok_0)
}

impl ReaderState {
    /// What every operation keeps: the read cursor never passes the last
    /// reader, lengths are known only for readers that exist, and a cached
    /// combined length is the sum of every reader's length.
    pub open spec fn wf(self) -> bool {
        &&& self.current <= self.count
        &&& self.known_lens.len() <= self.count
        &&& self.total_len matches Some(t) ==> {
            &&& self.known_lens.len() == self.count
            &&& t == total_of(self.known_lens)
        }
    }

    /// The state of a freshly built adapter over `count` readers.
    pub open spec fn fresh(self) -> bool {
        &&& self.current == 0
        &&& self.position == 0
        &&& self.known_lens.len() == 0
        &&& self.total_len is None
    }

    /// The same number of readers, cached lengths and cached total as `other`.
    pub open spec fn same_layout(self, other: ReaderState) -> bool {
        &&& self.count == other.count
        &&& self.known_lens == other.known_lens
        &&& self.total_len == other.total_len
    }

    /// `self` learned lengths only by extending what `earlier` knew.
    pub open spec fn extends_lens(self, earlier: ReaderState) -> bool {
        &&& self.count == earlier.count
        &&& earlier.known_lens.len() <= self.known_lens.len()
        &&& earlier.known_lens == self.known_lens.take(earlier.known_lens.len() as int)
    }
}

/// The lengths known after the length of reader `index` was looked up:
/// `after` is `before`, or `before` with one more length. Either way the
/// readers before `index` keep their starts, what `earlier` knew is still
/// known, and reader `index` ends where the next one starts.
pub proof fn lemma_len_looked_up(earlier: Seq<u64>, before: Seq<u64>, after: Seq<u64>, index: int)
    requires
        earlier.len() <= before.len(),
        before.take(earlier.len() as int) == earlier,
        0 <= index <= before.len(),
        index < after.len(),
        after == before || after == before.push(after.last()),
    ensures
        after.take(index) == before.take(index),
        after.take(earlier.len() as int) == earlier,
        start_of(after, index + 1) == start_of(after, index) + after[index],
{
    assert(after.take(index) =~= before.take(index));
    assert(after.take(earlier.len() as int) =~= earlier);
    lemma_start_of_next(after, index);
}

/// Taking all of a sequence gives the sequence.
pub proof fn lemma_take_all<T>(s: Seq<T>)
    ensures
        s.take(s.len() as int) == s,
{
    assert(s.take(s.len() as int) =~= s);
}

/// The sum of one more length is the sum so far plus that length.
pub proof fn lemma_start_of_next(lens: Seq<u64>, index: int)
    requires
        0 <= index < lens.len(),
    ensures
        start_of(lens, index + 1) == start_of(lens, index) + lens[index],
{
    assert(lens.take(index + 1).drop_last() =~= lens.take(index));
}

/// A sum of lengths is never negative.
pub proof fn lemma_total_nonneg(lens: Seq<u64>)
    ensures
        total_of(lens) >= 0,
    decreases lens.len(),
{
    if lens.len() > 0 {
        lemma_total_nonneg(lens.drop_last());
    }
}

/// Readers start in order: a later reader never starts before an earlier one.
pub proof fn lemma_start_monotone(lens: Seq<u64>, i: int, j: int)
    requires
        0 <= i <= j <= lens.len(),
    ensures
        start_of(lens, i) <= start_of(lens, j),
    decreases j - i,
{
    if i < j {
        lemma_start_monotone(lens, i, j - 1);
        lemma_start_of_next(lens, j - 1);
    }
}

/// The last reader ends where the whole stream ends.
pub proof fn lemma_start_of_all(lens: Seq<u64>)
    ensures
        start_of(lens, lens.len() as int) == total_of(lens),
{
    lemma_take_all(lens);
}

/// A logical byte lies in at most one reader: the concatenated stream gives
/// each byte a single place.
pub proof fn lemma_byte_in_one_reader(lens: Seq<u64>, target: int, i: int, j: int)
    requires
        holds_byte(lens, i, target),
        holds_byte(lens, j, target),
    ensures
        i == j,
{
    if i < j {
        lemma_start_monotone(lens, i + 1, j);
    } else if j < i {
        lemma_start_monotone(lens, j + 1, i);
    }
}

/// Every logical byte before the end of the stream lies in some reader.
pub proof fn lemma_byte_in_some_reader(lens: Seq<u64>, target: int)
    requires
        0 <= target < total_of(lens),
    ensures
        exists|i: int| holds_byte(lens, i, target),
    decreases lens.len(),
{
    let n = lens.len() as int;
    let init = lens.drop_last();
    lemma_start_of_all(lens);
    lemma_start_of_next(lens, n - 1);
    if target >= start_of(lens, n - 1) {
        assert(holds_byte(lens, n - 1, target));
    } else {
        assert(lens.take(n - 1) =~= init);
        lemma_start_of_all(init);
        lemma_byte_in_some_reader(init, target);
        let i = choose|i: int| holds_byte(init, i, target);
        assert(lens.take(i) =~= init.take(i));
        assert(lens.take(i + 1) =~= init.take(i + 1));
        assert(holds_byte(lens, i, target));
    }
}

} // verus!
