//! Seeking: one logical position across the concatenated stream.
use vstd::prelude::*;
use std::io::{Seek, SeekFrom};
use super::MultiReader;
use crate::calls::{
    fails_to_learn_len, keeps_untouched, lands, learned_since, learns_len, length_calls, lemma_appends_compose,
    lemma_appends_nothing, lemma_appends_one, lemma_lands_rewind_failed, lemma_learned_compose,
    lemma_learned_nothing, lemma_learned_one, lemma_length_calls_failed, lemma_length_calls_learned,
    lemma_rewinds_push, lemma_split_learned, lemma_untouched_compose, lemma_untouched_nothing, lemma_untouched_one,
    only_appends, reports, rewinds, seek_calls, seeks_to, total_len_calls, InnerCall,
};
use crate::error::StreamError;
use crate::inner_io::{seek_target_of, seek_target_spec, SeekTarget};
use crate::model::{
    holds_byte, length_found, lemma_len_looked_up, lemma_start_monotone, lemma_start_of_all, lemma_take_all,
    seek_lands, seek_post, start_of, total_len_post, ReaderState,
};

verus! {

/// Where a seek lands when the reader that holds the target starts at
/// `start` and reported the local offset `reported`: at their sum, or
/// `PositionOverflow` when that passes `u64::MAX`.
pub fn landed_at(start: u64, reported: u64) -> (result: Result<u64, StreamError>)
    ensures
        result == (if start + reported <= u64::MAX {
            Ok::<u64, StreamError>((start + reported) as u64)
        } else {
            Err::<u64, StreamError>(StreamError::PositionOverflow)
        }),
{
    match start.checked_add(reported) {
        Some(position) => Ok(position),
        None => Err(StreamError::PositionOverflow),
    }
}

/// After the length of reader `index` was looked up, from `before` to
/// `after`, in a run of lookups that started at `s0`: everything since `s0`
/// was learning, the readers before `index` keep their starts, what `s0`
/// knew is still known, and reader `index` ends where the next one starts.
proof fn lemma_looked_up<R>(
    s0: ReaderState,
    c0: Seq<InnerCall>,
    r0: Seq<R>,
    before: ReaderState,
    cb: Seq<InnerCall>,
    rb: Seq<R>,
    after: ReaderState,
    ca: Seq<InnerCall>,
    ra: Seq<R>,
    index: int,
)
    requires
        learned_since(s0, c0, r0, before, cb, rb),
        learned_since(before, cb, rb, after, ca, ra),
        0 <= index <= before.known_lens.len(),
        index < after.known_lens.len(),
        after.known_lens == before.known_lens || after.known_lens == before.known_lens.push(after.known_lens.last()),
    ensures
        learned_since(s0, c0, r0, after, ca, ra),
        after.known_lens.take(index) == before.known_lens.take(index),
        after.known_lens.take(s0.known_lens.len() as int) == s0.known_lens,
        start_of(after.known_lens, index + 1) == start_of(after.known_lens, index) + after.known_lens[index],
{
    lemma_learned_compose(s0, c0, r0, before, cb, rb, after, ca, ra);
    lemma_len_looked_up(s0.known_lens, before.known_lens, after.known_lens, index);
}

impl<R: Seek> MultiReader<R> {
    /// Records `reported_end`, the end that the first reader of unknown
    /// length reported, as that reader's length.
    fn record_len(&mut self, reported_end: u64)
        requires
            old(self)@.known_lens.len() < old(self)@.count,
        ensures
            final(self)@ == (ReaderState { known_lens: old(self)@.known_lens.push(reported_end), ..old(self)@ }),
            final(self).inner_readers() == old(self).inner_readers(),
            final(self).inner_calls() == old(self).inner_calls(),
    {
        proof { use_type_invariant(&*self); }
        let mut lens: Vec<u64> = Vec::new();
        std::mem::swap(&mut lens, &mut self.known_lens);
        lens.push(reported_end);
        self.known_lens = lens;
    }

    /// Learns the length of the first reader whose length is not known: its
    /// position is asked for, it is sought to its end, whose offset is the
    /// length, and it is sought back to the position it reported. The length
    /// is cached only when all three calls succeed.
    fn learn_len(&mut self) -> (result: std::io::Result<u64>)
        requires
            old(self)@.known_lens.len() < old(self)@.count,
        ensures
            only_appends(old(self).inner_calls(), final(self).inner_calls()),
            keeps_untouched(
                old(self).inner_readers(),
                final(self).inner_readers(),
                final(self).inner_calls().skip(old(self).inner_calls().len() as int),
            ),
            match result {
                Ok(len) => {
                    &&& final(self)@ == (ReaderState { known_lens: old(self)@.known_lens.push(len), ..old(self)@ })
                    &&& learns_len(
                        final(self).inner_calls().skip(old(self).inner_calls().len() as int),
                        old(self)@.known_lens.len(),
                        len,
                    )
                },
                Err(error) => {
                    &&& final(self)@ == old(self)@
                    &&& fails_to_learn_len(
                        final(self).inner_calls().skip(old(self).inner_calls().len() as int),
                        old(self)@.known_lens.len(),
                        error,
                    )
                },
            },
    {
        proof { use_type_invariant(&*self); }
        let ghost c0 = self.inner_calls();
        let ghost r0 = self.inner_readers();
        let index = self.known_lens.len();
        let position = self.ask_position(index);
        let ghost c1 = self.inner_calls();
        let ghost r1 = self.inner_readers();
        proof {
            lemma_appends_one(c0, c1.last());
            lemma_untouched_one(r0, r1, c1.last());
        }
        let start = match position {
            Ok(start) => start,
            Err(error) => return Err(error),
        };
        let end = self.ask_seek(index, SeekTarget::End(0));
        let ghost c2 = self.inner_calls();
        let ghost r2 = self.inner_readers();
        proof {
            lemma_appends_one(c1, c2.last());
            lemma_untouched_one(r1, r2, c2.last());
            lemma_appends_compose(c0, c1, c2);
            lemma_untouched_compose(r0, r1, r2, seq![c1.last()], seq![c2.last()]);
            assert(c2.skip(c0.len() as int) =~= seq![c1.last(), c2.last()]);
            assert(seq![c1.last()] + seq![c2.last()] =~= seq![c1.last(), c2.last()]);
        }
        let end = match end {
            Ok(end) => end,
            Err(error) => return Err(error),
        };
        let back = self.ask_seek(index, SeekTarget::Start(start));
        let ghost c3 = self.inner_calls();
        let ghost r3 = self.inner_readers();
        proof {
            lemma_appends_one(c2, c3.last());
            lemma_untouched_one(r2, r3, c3.last());
            lemma_appends_compose(c0, c2, c3);
            lemma_untouched_compose(r0, r2, r3, seq![c1.last(), c2.last()], seq![c3.last()]);
            assert(c3.skip(c0.len() as int) =~= seq![c1.last(), c2.last(), c3.last()]);
            assert(seq![c1.last(), c2.last()] + seq![c3.last()] =~= seq![c1.last(), c2.last(), c3.last()]);
        }
        match back {
            Ok(_) => {},
            Err(error) => return Err(error),
        }
        self.record_len(end);
        Ok(end)
    }

    /// The length of reader `index`: taken from the cache, or learned (see
    /// [`MultiReader::learn_len`]) when it is the first unknown one. Lengths
    /// are learned in order, so `index` is at most the number already known.
    fn len_of(&mut self, index: usize) -> (result: std::io::Result<u64>)
        requires
            index <= old(self)@.known_lens.len(),
            index < old(self)@.count,
        ensures
            final(self)@ == (ReaderState { known_lens: final(self)@.known_lens, ..old(self)@ }),
            index < old(self)@.known_lens.len() ==> {
                &&& result == Ok::<u64, std::io::Error>(old(self)@.known_lens[index as int])
                &&& final(self)@ == old(self)@
                &&& final(self).inner_calls() == old(self).inner_calls()
                &&& final(self).inner_readers() == old(self).inner_readers()
            },
            result is Ok ==> learned_since(
                old(self)@,
                old(self).inner_calls(),
                old(self).inner_readers(),
                final(self)@,
                final(self).inner_calls(),
                final(self).inner_readers(),
            ),
            index == old(self)@.known_lens.len() ==> match result {
                Ok(len) => {
                    &&& final(self)@.known_lens == old(self)@.known_lens.push(len)
                    &&& learned_since(
                        old(self)@,
                        old(self).inner_calls(),
                        old(self).inner_readers(),
                        final(self)@,
                        final(self).inner_calls(),
                        final(self).inner_readers(),
                    )
                },
                Err(error) => {
                    &&& final(self)@.known_lens == old(self)@.known_lens
                    &&& only_appends(old(self).inner_calls(), final(self).inner_calls())
                    &&& fails_to_learn_len(
                        final(self).inner_calls().skip(old(self).inner_calls().len() as int),
                        index as nat,
                        error,
                    )
                    &&& keeps_untouched(
                        old(self).inner_readers(),
                        final(self).inner_readers(),
                        final(self).inner_calls().skip(old(self).inner_calls().len() as int),
                    )
                },
            },
    {
        if index < self.known_lens.len() {
            proof { lemma_learned_nothing(self@, self.inner_calls(), self.inner_readers()); }
            return Ok(self.known_lens[index]);
        }
        let ghost s0 = self@;
        let ghost c0 = self.inner_calls();
        let ghost r0 = self.inner_readers();
        let result = self.learn_len();
        proof {
            if let Ok(len) = result {
                lemma_learned_one(s0, c0, r0, self@, self.inner_calls(), self.inner_readers(), len);
            }
        }
        result
    }

    /// The combined length of all inner readers, cached once computed. A
    /// failure caches nothing, so a later call asks the readers again.
    fn combined_len(&mut self) -> (result: Result<u64, StreamError>)
        ensures
            length_found(old(self)@, final(self)@, result),
            only_appends(old(self).inner_calls(), final(self).inner_calls()),
            length_calls(
                old(self)@,
                final(self)@,
                final(self).inner_calls().skip(old(self).inner_calls().len() as int),
                result,
            ),
            keeps_untouched(
                old(self).inner_readers(),
                final(self).inner_readers(),
                final(self).inner_calls().skip(old(self).inner_calls().len() as int),
            ),
    {
        proof {
            use_type_invariant(&*self);
            lemma_take_all(self@.known_lens);
            lemma_start_of_all(self@.known_lens);
            lemma_learned_nothing(self@, self.inner_calls(), self.inner_readers());
        }
        if let Some(len) = self.total_len {
            proof {
                lemma_length_calls_learned(
                    self@, self.inner_calls(), self.inner_readers(),
                    self@, self.inner_calls(), self.inner_readers(),
                    Ok::<u64, StreamError>(len),
                );
            }
            return Ok(len);
        }
        let count = self.readers.len();
        let mut total: u64 = 0;
        let mut index: usize = 0;
        while index < count
            invariant
                count == self@.count == old(self)@.count,
                index <= count,
                index <= self@.known_lens.len(),
                self@.extends_lens(old(self)@),
                self@.current == old(self)@.current,
                self@.position == old(self)@.position,
                self@.total_len is None,
                old(self)@.total_len is None,
                self@.wf(),
                total == start_of(self@.known_lens, index as int),
                old(self)@.known_lens.len() == count ==> self@.known_lens == old(self)@.known_lens,
                learned_since(
                    old(self)@, old(self).inner_calls(), old(self).inner_readers(),
                    self@, self.inner_calls(), self.inner_readers(),
                ),
            decreases count - index,
        {
            let ghost before = self@;
            let ghost calls_before = self.inner_calls();
            let ghost readers_before = self.inner_readers();
            let len = match self.len_of(index) {
                Ok(len) => len,
                Err(error) => {
                    proof {
                        lemma_take_all(self@.known_lens);
                        lemma_start_of_all(self@.known_lens);
                        lemma_length_calls_failed(
                            old(self)@, old(self).inner_calls(), old(self).inner_readers(),
                            before, calls_before, readers_before,
                            self@, self.inner_calls(), self.inner_readers(),
                            error,
                        );
                    }
                    return Err(StreamError::Io(error));
                },
            };
            proof {
                lemma_looked_up(
                    old(self)@, old(self).inner_calls(), old(self).inner_readers(),
                    before, calls_before, readers_before,
                    self@, self.inner_calls(), self.inner_readers(),
                    index as int,
                );
            }
            total = match total.checked_add(len) {
                Some(sum) => sum,
                None => {
                    proof {
                        lemma_start_monotone(self@.known_lens, index + 1, self@.known_lens.len() as int);
                        lemma_start_of_all(self@.known_lens);
                        lemma_length_calls_learned(
                            old(self)@, old(self).inner_calls(), old(self).inner_readers(),
                            self@, self.inner_calls(), self.inner_readers(),
                            Err::<u64, StreamError>(StreamError::LengthOverflow),
                        );
                    }
                    return Err(StreamError::LengthOverflow);
                },
            };
            index = index + 1;
        }
        proof {
            lemma_take_all(self@.known_lens);
        }
        let ghost before_cache = self@;
        self.total_len = Some(total);
        proof {
            assert(learned_since(
                old(self)@, old(self).inner_calls(), old(self).inner_readers(),
                before_cache, self.inner_calls(), self.inner_readers(),
            ));
            lemma_length_calls_learned(
                old(self)@, old(self).inner_calls(), old(self).inner_readers(),
                self@, self.inner_calls(), self.inner_readers(),
                Ok::<u64, StreamError>(total),
            );
        }
        Ok(total)
    }

    /// Returns the combined length of all inner readers.
    ///
    /// Lengths are cached because determining them requires seeking each inner
    /// reader to its end and restoring its position. Inner stream lengths must
    /// therefore remain stable after this method or [`Seek::seek`] is used.
    /// A sum past `u64::MAX` is reported as `InvalidData`; an inner reader's
    /// error is passed on unchanged.
    pub fn total_len(&mut self) -> (result: std::io::Result<u64>)
        ensures
            total_len_post(old(self)@, final(self)@, result),
            only_appends(old(self).inner_calls(), final(self).inner_calls()),
            total_len_calls(
                old(self)@,
                final(self)@,
                final(self).inner_calls().skip(old(self).inner_calls().len() as int),
                result,
            ),
            keeps_untouched(
                old(self).inner_readers(),
                final(self).inner_readers(),
                final(self).inner_calls().skip(old(self).inner_calls().len() as int),
            ),
    {
        match self.combined_len() {
            Ok(len) => Ok(len),
            Err(error) => Err(error.into_io_error()),
        }
    }

    /// Positions the stream at `target`, a byte of reader `index`, which
    /// starts at `start`: that reader is sought to the local offset
    /// `target - start`, the position becomes `start` plus the offset it
    /// reports (see [`landed_at`]), and every later reader is rewound to its
    /// start, so that reading goes on from there.
    fn land_in_reader(&mut self, index: usize, start: u64, target: u64) -> (result: Result<u64, StreamError>)
        requires
            holds_byte(old(self)@.known_lens, index as int, target as int),
            start == start_of(old(self)@.known_lens, index as int),
        ensures
            final(self)@.same_layout(old(self)@),
            match result {
                Ok(position) => {
                    &&& final(self)@.current == index
                    &&& final(self)@.position == position
                },
                Err(error) => {
                    &&& final(self)@ == old(self)@
                    &&& (error is Io || error is PositionOverflow)
                },
            },
            only_appends(old(self).inner_calls(), final(self).inner_calls()),
            lands(
                final(self).inner_calls().skip(old(self).inner_calls().len() as int),
                index as nat,
                start,
                (target - start) as u64,
                old(self)@.count,
                result,
            ),
            keeps_untouched(
                old(self).inner_readers(),
                final(self).inner_readers(),
                final(self).inner_calls().skip(old(self).inner_calls().len() as int),
            ),
    {
        proof { use_type_invariant(&*self); }
        let count = self.readers.len();
        let local_target = target - start;
        let ghost c0 = self.inner_calls();
        let ghost r0 = self.inner_readers();
        let reported = self.ask_seek(index, SeekTarget::Start(local_target));
        let ghost c1 = self.inner_calls();
        proof {
            lemma_appends_one(c0, c1.last());
            lemma_untouched_one(r0, self.inner_readers(), c1.last());
        }
        let reported = match reported {
            Ok(reported) => reported,
            Err(error) => return Err(StreamError::Io(error)),
        };
        let position = match landed_at(start, reported) {
            Ok(position) => position,
            Err(error) => return Err(error),
        };
        let mut later = index + 1;
        while later < count
            invariant
                count == self@.count,
                index < later <= count,
                self@ == old(self)@,
                self@.wf(),
                c0 == old(self).inner_calls(),
                r0 == old(self).inner_readers(),
                only_appends(c0, self.inner_calls()),
                self.inner_calls().skip(c0.len() as int).len() == later - index,
                self.inner_calls().skip(c0.len() as int)[0] == c1.last(),
                c1.last().is_seek(index as nat, SeekTarget::Start(local_target)),
                c1.last().offset_answer() == Some(reported),
                start + reported <= u64::MAX,
                start <= target,
                local_target == target - start,
                rewinds(self.inner_calls().skip(c0.len() as int).skip(1), index as nat + 1),
                keeps_untouched(r0, self.inner_readers(), self.inner_calls().skip(c0.len() as int)),
            decreases count - later,
        {
            let ghost cb = self.inner_calls();
            let ghost rb = self.inner_readers();
            let answer = self.ask_seek(later, SeekTarget::Start(0));
            let ghost ca = self.inner_calls();
            proof {
                lemma_appends_one(cb, ca.last());
                lemma_untouched_one(rb, self.inner_readers(), ca.last());
                lemma_appends_compose(c0, cb, ca);
                lemma_untouched_compose(r0, rb, self.inner_readers(), cb.skip(c0.len() as int), seq![ca.last()]);
                assert(ca.skip(c0.len() as int) =~= cb.skip(c0.len() as int).push(ca.last()));
                assert(cb.skip(c0.len() as int) + seq![ca.last()] =~= cb.skip(c0.len() as int).push(ca.last()));
                assert(ca.skip(c0.len() as int).skip(1) =~= cb.skip(c0.len() as int).skip(1).push(ca.last()));
                assert(ca.skip(c0.len() as int).skip(1).drop_last() =~= cb.skip(c0.len() as int).skip(1));
                if answer is Ok {
                    lemma_rewinds_push(cb.skip(c0.len() as int).skip(1), index as nat + 1, ca.last());
                }
            }
            match answer {
                Ok(_) => {},
                Err(error) => {
                    proof {
                        let added = ca.skip(c0.len() as int);
                        assert(added.last() == ca.last());
                        lemma_lands_rewind_failed(
                            added, index as nat, start, local_target, count as nat, reported, error,
                        );
                    }
                    return Err(StreamError::Io(error));
                },
            }
            later = later + 1;
        }
        self.current = index;
        self.position = position;
        Ok(position)
    }

    /// Seeks to the absolute logical position `target`. The readers' lengths
    /// are learned in order until the one that holds `target` is found; past
    /// the end of the stream, every reader counts as read and the position is
    /// `target` itself.
    fn seek_absolute(&mut self, target: u64) -> (result: Result<u64, StreamError>)
        ensures
            seek_lands(old(self)@, final(self)@, target, result),
            only_appends(old(self).inner_calls(), final(self).inner_calls()),
            seek_calls(
                old(self)@,
                final(self)@,
                final(self).inner_calls().skip(old(self).inner_calls().len() as int),
                target,
                result,
            ),
            keeps_untouched(
                old(self).inner_readers(),
                final(self).inner_readers(),
                final(self).inner_calls().skip(old(self).inner_calls().len() as int),
            ),
    {
        proof {
            use_type_invariant(&*self);
            lemma_take_all(self@.known_lens);
            assert(self@.known_lens.take(0) =~= Seq::<u64>::empty());
            lemma_learned_nothing(self@, self.inner_calls(), self.inner_readers());
        }
        let count = self.readers.len();
        let mut offset: u64 = 0;
        let mut index: usize = 0;
        while index < count
            invariant
                count == self@.count == old(self)@.count,
                index <= count,
                index <= self@.known_lens.len(),
                self@.wf(),
                self@.extends_lens(old(self)@),
                self@.current == old(self)@.current,
                self@.position == old(self)@.position,
                self@.total_len == old(self)@.total_len,
                offset == start_of(self@.known_lens, index as int),
                offset <= target,
                old(self)@.known_lens.len() == count ==> self@.known_lens == old(self)@.known_lens,
                learned_since(
                    old(self)@, old(self).inner_calls(), old(self).inner_readers(),
                    self@, self.inner_calls(), self.inner_readers(),
                ),
            decreases count - index,
        {
            let ghost before = self@;
            let ghost calls_before = self.inner_calls();
            let ghost readers_before = self.inner_readers();
            let len = match self.len_of(index) {
                Ok(len) => len,
                Err(error) => {
                    proof {
                        lemma_split_learned(
                            old(self)@, old(self).inner_calls(), old(self).inner_readers(),
                            before, calls_before, readers_before,
                            self.inner_calls(),
                        );
                        lemma_untouched_compose(
                            old(self).inner_readers(), readers_before, self.inner_readers(),
                            calls_before.skip(old(self).inner_calls().len() as int),
                            self.inner_calls().skip(calls_before.len() as int),
                        );
                        lemma_take_all(self@.known_lens);
                    }
                    return Err(StreamError::Io(error));
                },
            };
            proof {
                lemma_looked_up(
                    old(self)@, old(self).inner_calls(), old(self).inner_readers(),
                    before, calls_before, readers_before,
                    self@, self.inner_calls(), self.inner_readers(),
                    index as int,
                );
            }
            let end = match offset.checked_add(len) {
                Some(end) => end,
                None => {
                    proof {
                        lemma_start_monotone(self@.known_lens, index + 1, self@.known_lens.len() as int);
                        lemma_start_of_all(self@.known_lens);
                        lemma_appends_nothing(self.inner_calls());
                        lemma_split_learned(
                            old(self)@, old(self).inner_calls(), old(self).inner_readers(),
                            self@, self.inner_calls(), self.inner_readers(),
                            self.inner_calls(),
                        );
                    }
                    return Err(StreamError::LengthOverflow);
                },
            };
            if target < end {
                proof {
                    if old(self)@.known_lens.len() == count {
                        lemma_start_monotone(self@.known_lens, index + 1, count as int);
                        lemma_start_of_all(self@.known_lens);
                    }
                }
                let ghost landing = self@;
                let ghost calls_landing = self.inner_calls();
                let ghost readers_landing = self.inner_readers();
                let result = self.land_in_reader(index, offset, target);
                proof {
                    assert(holds_byte(self@.known_lens, index as int, target as int));
                    lemma_split_learned(
                        old(self)@, old(self).inner_calls(), old(self).inner_readers(),
                        landing, calls_landing, readers_landing,
                        self.inner_calls(),
                    );
                    lemma_untouched_compose(
                        old(self).inner_readers(), readers_landing, self.inner_readers(),
                        calls_landing.skip(old(self).inner_calls().len() as int),
                        self.inner_calls().skip(calls_landing.len() as int),
                    );
                }
                return result;
            }
            offset = end;
            index = index + 1;
        }
        proof {
            lemma_take_all(self@.known_lens);
        }
        let ghost ended = self@;
        self.current = count;
        self.position = target;
        proof {
            assert(learned_since(
                old(self)@, old(self).inner_calls(), old(self).inner_readers(),
                ended, self.inner_calls(), self.inner_readers(),
            ));
            lemma_appends_nothing(self.inner_calls());
            lemma_split_learned(
                old(self)@, old(self).inner_calls(), old(self).inner_readers(),
                ended, self.inner_calls(), self.inner_readers(),
                self.inner_calls(),
            );
        }
        Ok(target)
    }

    /// Seeks to `target`, the library's form of `SeekFrom`: from the start,
    /// from the logical position, or from the end of the concatenated stream
    /// (which computes and caches the combined length). A target before byte
    /// zero, or past `u64::MAX`, is refused with `OutOfRange` and changes
    /// nothing. Seeking past the end of the stream is allowed.
    pub fn seek_to(&mut self, target: SeekTarget) -> (result: Result<u64, StreamError>)
        ensures
            seeks_to(
                target,
                old(self)@,
                final(self)@,
                final(self).inner_calls().skip(old(self).inner_calls().len() as int),
                result,
            ),
            only_appends(old(self).inner_calls(), final(self).inner_calls()),
            keeps_untouched(
                old(self).inner_readers(),
                final(self).inner_readers(),
                final(self).inner_calls().skip(old(self).inner_calls().len() as int),
            ),
    {
        proof {
            lemma_appends_nothing(self.inner_calls());
            lemma_untouched_nothing(self.inner_readers());
        }
        match target {
            SeekTarget::Start(offset) => self.seek_absolute(offset),
            SeekTarget::Current(offset) => match self.position.checked_add_signed(offset) {
                Some(absolute) => self.seek_absolute(absolute),
                None => {
                    proof {
                        lemma_take_all(self@.known_lens);
                    }
                    Err(StreamError::OutOfRange)
                },
            },
            SeekTarget::End(offset) => {
                let total = match self.combined_len() {
                    Ok(total) => total,
                    Err(error) => return Err(error),
                };
                let ghost measured = self@;
                let ghost calls_measured = self.inner_calls();
                let ghost readers_measured = self.inner_readers();
                proof {
                    lemma_take_all(measured.known_lens);
                }
                match total.checked_add_signed(offset) {
                    Some(absolute) => {
                        let result = self.seek_absolute(absolute);
                        proof {
                            use_type_invariant(&*self);
                            assert(self@.known_lens =~= measured.known_lens);
                            let c0 = old(self).inner_calls();
                            let a = calls_measured.skip(c0.len() as int);
                            let b = self.inner_calls().skip(calls_measured.len() as int);
                            lemma_appends_compose(c0, calls_measured, self.inner_calls());
                            lemma_untouched_compose(old(self).inner_readers(), readers_measured, self.inner_readers(), a, b);
                            assert((a + b).take(a.len() as int) =~= a);
                            assert((a + b).skip(a.len() as int) =~= b);
                            lemma_take_all(a);
                        }
                        result
                    },
                    None => {
                        proof {
                            let a = calls_measured.skip(old(self).inner_calls().len() as int);
                            lemma_take_all(a);
                        }
                        Err(StreamError::OutOfRange)
                    },
                }
            },
        }
    }
}

impl<R: Seek> Seek for MultiReader<R> {
    /// Seeks in the concatenated stream, as [`MultiReader::seek_to`] does with
    /// the target that `from` names, and reports its outcome through
    /// `std::io`: an inner reader's error unchanged, a refused target as
    /// `InvalidInput`, an overflow as `InvalidData`.
    fn seek(&mut self, from: SeekFrom) -> (result: std::io::Result<u64>)
        ensures
            seek_post(old(self)@, final(self)@, result),
            exists|outcome: Result<u64, StreamError>|
                #[trigger] seeks_to(
                    seek_target_spec(from),
                    old(self)@,
                    final(self)@,
                    final(self).inner_calls().skip(old(self).inner_calls().len() as int),
                    outcome,
                ) && reports(outcome, result),
            only_appends(old(self).inner_calls(), final(self).inner_calls()),
            keeps_untouched(
                old(self).inner_readers(),
                final(self).inner_readers(),
                final(self).inner_calls().skip(old(self).inner_calls().len() as int),
            ),
    {
        let target = seek_target_of(from);
        let outcome = self.seek_to(target);
        proof { use_type_invariant(&*self); }
        let result = match outcome {
            Ok(position) => Ok(position),
            Err(error) => Err(error.into_io_error()),
        };
        proof {
            assert(reports(outcome, result));
        }
        result
    }
}

} // verus!
