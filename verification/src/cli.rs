//! The rules of the command line: which automaton an invocation asks for.

use crate::error::MonitorError;
use vstd::prelude::*;

verus! {

/// The one source of the automaton that an invocation names.
#[derive(Debug)]
pub enum ValidationMode<P> {
    /// An encoded automaton, loaded from the given path.
    Dfa(P),
    /// An automaton compiled from the given regular expression.
    Regex(String),
    /// The automaton that accepts every line.
    NoValidation,
}

/// Picks the validation mode from the three options of the command line.
/// Exactly one of them has to be given.
pub fn select_mode<P>(dfa_path: Option<P>, regex: Option<String>, no_validation: bool) -> (mode:
    Result<ValidationMode<P>, MonitorError>)
    ensures
        match mode {
            Ok(ValidationMode::Dfa(path)) => dfa_path == Some(path) && regex is None
                && !no_validation,
            Ok(ValidationMode::Regex(pattern)) => dfa_path is None && regex == Some(pattern)
                && !no_validation,
            Ok(ValidationMode::NoValidation) => dfa_path is None && regex is None && no_validation,
            Err(e) => {
                &&& e == MonitorError::Usage
                &&& !(dfa_path is Some && regex is None && !no_validation)
                &&& !(dfa_path is None && regex is Some && !no_validation)
                &&& !(dfa_path is None && regex is None && no_validation)
            },
        },
{
    match (dfa_path, regex, no_validation) {
        (Some(path), None, false) => Ok(ValidationMode::Dfa(path)),
        (None, Some(pattern), false) => Ok(ValidationMode::Regex(pattern)),
        (None, None, true) => Ok(ValidationMode::NoValidation),
        _ => Err(MonitorError::Usage),
    }
}

/// The name under which a validation mode appears in an incident.
pub open spec fn type_tag_of<P>(mode: ValidationMode<P>) -> Seq<char> {
    match mode {
        ValidationMode::Dfa(_) => "DFA"@,
        _ => "Regex"@,
    }
}

/// The name under which a validation mode appears in an incident: `DFA`
/// for an encoded automaton, `Regex` otherwise.
pub fn type_tag<P>(mode: &ValidationMode<P>) -> (tag: &'static str)
    ensures
        tag@ == type_tag_of(*mode),
{
    match mode {
        ValidationMode::Dfa(_) => "DFA",
        _ => "Regex",
    }
}

} // verus!
