use vstd::prelude::*;

verus! {

/// The four ways an interpretation run can fail, discriminated by kind so
/// that callers can branch on the cause without inspecting any message text.
///
/// The first two arise while loading source text, the last two while
/// executing a loaded program.
#[derive(Clone, Copy, Debug, PartialEq, Eq, Structural)]
pub enum BfError {
    /// A closing bracket was met with no open bracket pending.
    UnmatchedClose,
    /// One or more open brackets were never closed by the end of the source.
    UnmatchedOpen,
    /// A pointer move would have left the valid tape range.
    PointerOutOfBounds,
    /// The input or output port reported a failure.
    IOFailure,
}

impl BfError {
    /// A human-readable description of the error, suitable for a diagnostic
    /// message printed alongside a non-zero exit status.
    pub fn message(&self) -> (r: &'static str)
        ensures
            *self == BfError::UnmatchedClose ==> r@ == "encountered ']' without corresponding '['"@,
            *self == BfError::UnmatchedOpen ==> r@ == "parse finished with unbalanced '['"@,
            *self == BfError::PointerOutOfBounds ==> r@ == "ptr moved out of range"@,
            *self == BfError::IOFailure ==> r@ == "input or output port failed"@,
    {
        match self {
            BfError::UnmatchedClose => "encountered ']' without corresponding '['",
            BfError::UnmatchedOpen => "parse finished with unbalanced '['",
            BfError::PointerOutOfBounds => "ptr moved out of range",
            BfError::IOFailure => "input or output port failed",
        }
    }
}

} // verus!
