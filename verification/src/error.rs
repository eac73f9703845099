//! The failures that the library itself can report.

use vstd::prelude::*;

verus! {

/// A terminal failure of an invocation.
#[derive(Clone, Copy, Debug, PartialEq, Eq, Structural)]
pub enum MonitorError {
    /// The validation modes given on the command line do not name exactly
    /// one automaton.
    Usage,
    /// An automaton breaks its invariants, its encoded form cannot be
    /// decoded, or a step was asked from a state without a table entry.
    CorruptAutomaton,
    /// Trap mode was asked for, but the message file or the target process
    /// is missing or unreadable.
    TrapMisconfigured,
}

} // verus!
