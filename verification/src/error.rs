//! The failures the library reports.

use vstd::prelude::*;

verus! {

/// Why an operation of the library did not succeed.
#[derive(Debug, Clone, Copy, PartialEq, Eq, Structural)]
pub enum Error {
    /// The store tracks no dataset of the given name.
    NotFound,
    /// A label tag or a persisted record parses but has an unexpected shape.
    InvalidFormat,
    /// A source unit failed to build; the compiler's exit status.
    CompileFailure(i32),
    /// A compiled action exited with a status other than zero, or wrote
    /// output that does not parse; the status, or 22 for unparsable output.
    ExecutionFailure(i32),
    /// The lattice comparison denies access.
    PermissionDenied,
    /// Reading or writing persisted state, or starting a process, failed.
    IoFailure,
    /// The operation would make a dataset its own ancestor.
    Cyclic,
}

} // verus!
