//! Expose any number of readers as one continuous reader.
use vstd::prelude::*;

pub mod calls;
pub mod error;
mod inner_io;
pub mod laws;
pub mod model;
mod reader;

pub use error::StreamError;
pub use inner_io::{FailureKind, SeekTarget};
pub use model::ReaderState;
pub use reader::seek::landed_at;
pub use reader::MultiReader;

verus! {

/// The former name of [`MultiReader`].
pub type MultiReaders<R> = MultiReader<R>;

} // verus!
