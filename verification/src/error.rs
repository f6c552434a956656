use vstd::prelude::*;

verus! {

/// Error raised when a save container is structurally unusable: no
/// header/payload boundary exists, the payload cannot be decompressed
/// within the size bound, recompression fails, or header bytes are not
/// valid UTF-8 text.
#[derive(Debug, Clone, Copy, PartialEq, Eq, Structural)]
pub enum SaveEditorError {
    /// The input could not be parsed or re-encoded as a save container.
    BadFormat,
}

impl SaveEditorError {
    /// A human-readable description of the error.
    pub fn message(&self) -> (m: &'static str)
        ensures
            m@ == "Failed to parse input file"@,
    {
        "Failed to parse input file"
    }
}

} // verus!
