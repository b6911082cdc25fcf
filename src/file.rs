//! The context in which errors are shown: a source text and its path.
use vstd::prelude::*;

verus! {

/// A source text and the path it was read from: the context in which
/// errors are shown.
pub struct FileInfo {
    pub path: String,
    pub text: String,
}

} // verus!
