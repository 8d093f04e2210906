use vstd::prelude::*;

verus! {

/// How a decode can fail.
#[derive(Clone, Copy, Debug, PartialEq, Eq, Structural)]
pub enum ArError {
    /// A structural violation of the container grammar: bad magic, bad
    /// header marker, unparseable size field, malformed symbol table or
    /// long-filename reference.
    Format,
    /// The stream ends before a declared quantity of bytes is available.
    Truncation,
}

} // verus!
