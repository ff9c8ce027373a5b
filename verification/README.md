# multi_readers

Expose any number of readers as one continuous reader, with contracts proved
by Verus.

`MultiReader` consumes its inner readers in order, skips empty readers, and
only advances after an inner reader reports EOF. Seekable readers share one
logical position across the concatenated stream; seeking beyond EOF is
supported, and seeking before byte zero is refused with `InvalidInput`.

## Layout

- `src/model.rs`: the abstract state (`ReaderState`), the layout of the
  concatenated stream (`total_of`, `start_of`, `holds_byte`), and the
  contracts of `read`, `seek` and `total_len` as predicates.
- `src/calls.rs`: the calls that the adapter makes to its inner readers,
  kept as a history of requests and answers (`InnerCall`), and what each
  operation's part of that history is: which reader was read or sought, with
  which request, and how its answer became the result.
- `src/laws.rs`: laws that relate operations to one another.
- `src/reader.rs`: the adapter, its invariant, construction, accessors,
  `reader_to_poll`, which picks the inner reader a read goes to, and
  `record_inner_read`, the decision taken after each read of an inner reader.
- `src/reader/read.rs`, `src/reader/seek.rs`: `std::io::Read` and
  `std::io::Seek` for the adapter, `total_len`, `seek_to`, and `landed_at`,
  the position a seek lands on given the offset the inner reader reported.
- `src/inner_io.rs`: the trusted calls into `std::io` and `std::iter`.
- `app/lib.rs`: `AsyncMultiReader`, which reads the adapter as a
  `tokio::io::AsyncRead`, using the library's decisions between polls.

## Construction

`MultiReader::new` and `MultiReader::try_new` take an `Iterator` (call
`.into_iter()` on an array or a `Vec`), and `From<Vec<R>>` builds one from a
vector. There is no `FromIterator` impl, so `collect()` into a `MultiReader`
is not available: Verus stops with an internal error on any verified
function bounded by `IntoIterator`, and `FromIterator::from_iter` is one.
What `new` and `try_new` promise about the readers they keep holds for
iterators that Verus's iterator laws cover (a `Vec`'s `into_iter`, slices,
ranges); for others, such as an array's `into_iter`, the contract leaves the
readers unstated.

`MultiReader` does not implement `Debug`: it carries a ghost record of the
calls made to its inner readers, which has none.

## Verification notes

The calls into `std::io::Read` and `std::io::Seek` of the inner readers go
through the trusted items of `src/inner_io.rs`, which say nothing of what the
readers answer; every contract about reads and seeks is stated over the
recorded requests and answers. Verus accepts `Read` and `Seek` as bounds
with a warning that it may refuse such undeclared outside traits in a later
version.
