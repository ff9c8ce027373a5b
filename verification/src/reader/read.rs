//! Reading: the inner readers are drained one after another.
use vstd::prelude::*;
use std::io::Read;
use super::MultiReader;
use crate::calls::{buffer_after, keeps_untouched, only_appends, reads_in_order, touches, InnerCall};
use crate::model::{lemma_take_all, read_post};

verus! {

impl<R: Read> Read for MultiReader<R> {
    /// Reads from the current inner reader. An inner reader that returns no
    /// bytes has reached EOF and the next one is tried; the first one that
    /// returns bytes, or fails, ends the call, and its answer is the result.
    /// `Ok(0)` for a non-empty buffer means that every inner reader has
    /// reached EOF. The buffer holds what the last inner read left in it, and
    /// only the readers that were read can have changed.
    fn read(&mut self, buf: &mut [u8]) -> (result: std::io::Result<usize>)
        ensures
            read_post(old(self)@, final(self)@, old(buf)@.len(), result),
            only_appends(old(self).inner_calls(), final(self).inner_calls()),
            reads_in_order(
                final(self).inner_calls().skip(old(self).inner_calls().len() as int),
                old(self)@.current,
                old(buf)@.len(),
                result,
            ),
            final(self)@.current + (if result matches Ok(0) { 0int } else { 1int })
                == old(self)@.current + final(self).inner_calls().len() - old(self).inner_calls().len(),
            final(buf)@ == buffer_after(final(self).inner_calls().skip(old(self).inner_calls().len() as int), old(buf)@),
            keeps_untouched(
                old(self).inner_readers(),
                final(self).inner_readers(),
                final(self).inner_calls().skip(old(self).inner_calls().len() as int),
            ),
    {
        proof {
            use_type_invariant(&*self);
            lemma_take_all(self.inner_calls());
            assert(self.inner_calls().skip(self.inner_calls().len() as int) =~= Seq::<InnerCall>::empty());
        }
        if buf.len() == 0 {
            return Ok(0);
        }
        let ghost start = self.inner_calls().len();
        loop
            invariant
                self@.same_layout(old(self)@),
                old(self)@.current <= self@.current <= self@.count,
                self@.position == old(self)@.position,
                buf@.len() == old(buf)@.len(),
                buf@.len() > 0,
                old(self)@.current == old(self)@.count ==> self@ == old(self)@,
                start == old(self).inner_calls().len(),
                only_appends(old(self).inner_calls(), self.inner_calls()),
                self@.current == old(self)@.current + self.inner_calls().len() - start,
                forall|k: int|
                    0 <= k < self.inner_calls().len() - start ==> (#[trigger] self.inner_calls().skip(start as int)[k]).is_read(
                        old(self)@.current + k as nat,
                        buf@.len(),
                        Ok(0),
                    ),
                buf@ == buffer_after(self.inner_calls().skip(start as int), old(buf)@),
                keeps_untouched(
                    old(self).inner_readers(),
                    self.inner_readers(),
                    self.inner_calls().skip(start as int),
                ),
            decreases self@.count - self@.current,
        {
            if self.current >= self.readers.len() {
                return Ok(0);
            }
            let ghost before = self.inner_calls();
            let ghost readers_before = self.inner_readers();
            let index = self.current;
            let answer = self.ask_read(index, buf);
            proof {
                let added = self.inner_calls().skip(start as int);
                assert(added =~= before.skip(start as int).push(self.inner_calls().last()));
                assert(self.inner_calls().take(start as int) =~= before.take(start as int));
                assert(added[added.len() - 1].reader() == index);
                assert forall|j: int|
                    0 <= j < old(self).inner_readers().len() && !touches(added, j) implies
                        #[trigger] self.inner_readers()[j] == old(self).inner_readers()[j] by {
                    if !touches(before.skip(start as int), j) {
                        assert forall|k: int| 0 <= k < before.skip(start as int).len() implies
                            #[trigger] before.skip(start as int)[k].reader() != j by {
                            assert(added[k] == before.skip(start as int)[k]);
                        }
                    } else {
                        let k = choose|k: int| 0 <= k < before.skip(start as int).len()
                            && #[trigger] before.skip(start as int)[k].reader() == j;
                        assert(added[k] == before.skip(start as int)[k]);
                    }
                }
            }
            let amount = match answer {
                Ok(amount) => amount,
                Err(error) => return Err(error),
            };
            if self.record_inner_read(amount) {
                return Ok(amount);
            }
        }
    }
}

} // verus!
