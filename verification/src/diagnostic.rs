use vstd::prelude::*;

use crate::text_index::TextRange;

verus! {

/// Severity of a compiler diagnostic, compatible with common protocol
/// conventions.
#[derive(Clone, Copy, Debug, PartialEq, Eq, Structural)]
pub enum Severity {
    Error,
    Warning,
    Information,
    Hint,
}

/// Anything the engine can report to a user: a range in the source, a
/// stable code, a severity and a human-readable message.
pub trait Diagnostic {
    fn range(&self) -> TextRange;

    fn code(&self) -> String;

    fn severity(&self) -> Severity;

    fn message(&self) -> String;
}

} // verus!
