//! Source files known to the compiler.

use vstd::prelude::*;

verus! {

/// A source file: where it was read from, and its text.
#[derive(Clone)]
pub struct SourceFile {
    pub path: String,
    pub text: String,
}

impl SourceFile {
    pub fn new(path: String, text: String) -> (r: SourceFile)
        ensures
            r.path == path,
            r.text == text,
    {
        SourceFile { path, text }
    }
}

} // verus!
