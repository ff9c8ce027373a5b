//! The library's forms of `std::io` values, and the calls into `std::io` and
//! `std::iter` that do not go to an inner reader. The functions marked
//! `external_body` are trusted: Verus takes their contracts as given.
use vstd::prelude::*;
use std::io::SeekFrom;
use vstd::std_specs::iter::IteratorSpec;
use crate::model::{all_ok, first_error_at, ok_values};

verus! {

/// `std::io::Error`, carried through the library as an opaque value.
#[verifier::external_type_specification]
#[verifier::external_body]
pub struct ExIoError(std::io::Error);

/// `std::io::SeekFrom`, opaque: it is turned into a [`SeekTarget`] first.
#[verifier::external_type_specification]
#[verifier::external_body]
pub struct ExSeekFrom(SeekFrom);

/// Where a seek is aimed, as plain values: the library's own form of
/// `std::io::SeekFrom`.
#[derive(Clone, Copy, Debug, PartialEq, Eq, Structural)]
pub enum SeekTarget {
    /// An absolute byte offset from the start of the stream.
    Start(u64),
    /// A signed offset from the end of the stream.
    End(i64),
    /// A signed offset from the current position.
    Current(i64),
}

/// The kinds of `std::io::Error` that the adapter raises itself.
#[derive(Clone, Copy, Debug, PartialEq, Eq, Structural)]
pub enum FailureKind {
    /// `std::io::ErrorKind::InvalidInput`.
    InvalidInput,
    /// `std::io::ErrorKind::InvalidData`.
    InvalidData,
}

/// The [`SeekTarget`] with the same variant and offset as `from`.
pub uninterp spec fn seek_target_spec(from: SeekFrom) -> SeekTarget;

/// Turns a `std::io::SeekFrom` into the [`SeekTarget`] with the same variant
/// and offset. `SeekFrom` is opaque to Verus, so the claim is only that the
/// target is the one [`seek_target_spec`] names for `from`.
#[verifier::external_body]
pub(crate) fn seek_target_of(from: SeekFrom) -> (target: SeekTarget)
    ensures
        target == seek_target_spec(from),
{
    match from {
        SeekFrom::Start(offset) => SeekTarget::Start(offset),
        SeekFrom::End(offset) => SeekTarget::End(offset),
        SeekFrom::Current(offset) => SeekTarget::Current(offset),
    }
}

/// The kind of `error`, as `std::io::Error::kind` reports it, when it is one
/// of the kinds that [`FailureKind`] names; `None` for any other kind.
pub uninterp spec fn raised_kind(error: std::io::Error) -> Option<FailureKind>;

/// Calls `std::io::Error::new` with the `ErrorKind` named by `kind` and the
/// given message. The claim is that the error has that kind, as
/// `std::io::Error::new` documents; nothing is claimed of its message.
#[verifier::external_body]
pub(crate) fn new_io_error(kind: FailureKind, message: &str) -> (error: std::io::Error)
    ensures
        raised_kind(error) == Some(kind),
{
    std::io::Error::new(
        match kind {
            FailureKind::InvalidInput => std::io::ErrorKind::InvalidInput,
            FailureKind::InvalidData => std::io::ErrorKind::InvalidData,
        },
        message,
    )
}

/// Calls `Vec::from_iter`, which drains `items` by calling `next` until it
/// returns `None` and keeps the items in the order they came. For an
/// iterator that keeps Verus's iterator laws, those are its remaining items.
#[verifier::external_body]
pub(crate) fn collect_vec<T, I: Iterator<Item = T>>(items: I) -> (v: Vec<T>)
    ensures
        items.obeys_prophetic_iter_laws() ==> v@ == items.remaining(),
{
    Vec::from_iter(items)
}

/// Calls `Result::from_iter`, which drains `items` up to the first `Err` and
/// returns that error, or else returns all the `Ok` values in order. For an
/// iterator that keeps Verus's iterator laws, that is the first error among
/// its remaining items, or all of their values.
#[verifier::external_body]
pub(crate) fn collect_results<T, E, I: Iterator<Item = Result<T, E>>>(items: I) -> (r: Result<Vec<T>, E>)
    ensures
        items.obeys_prophetic_iter_laws() ==> match r {
            Ok(v) => all_ok(items.remaining()) && v@ == ok_values(items.remaining()),
            Err(e) => exists|i: int|
                first_error_at(items.remaining(), i) && #[trigger] items.remaining()[i] == Err::<T, E>(e),
        },
{
    Result::from_iter(items)
}

} // verus!
