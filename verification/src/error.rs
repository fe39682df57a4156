//! Error conditions of rule construction, parsing and evolution.

use vstd::prelude::*;

verus! {

/// Errors reported by the engine.
#[derive(Debug, Clone, PartialEq, Eq)]
pub enum Error {
    /// Initial-state atoms must be positive integers.
    NonPositiveAtoms,
    /// The inputs of a rule do not form a connected hypergraph: while
    /// completing a match, every remaining input edge consisted entirely of
    /// unbound pattern variables. Such rules are not supported.
    DisconnectedInputs,
    /// Ran out of atom names.
    AtomCountOverflow,
    /// Rule failed validation (e.g. no input edges, zero atoms).
    InvalidRule(String),
    /// Rule/state parse error.
    Parse(String),
}

/// The human-readable message of an error.
pub open spec fn error_message(e: Error) -> Seq<char> {
    match e {
        Error::NonPositiveAtoms => "initial-state atoms must be positive integers"@,
        Error::DisconnectedInputs => "rule inputs do not form a connected hypergraph (not supported)"@,
        Error::AtomCountOverflow => "ran out of atom names"@,
        Error::InvalidRule(m) => "invalid rule: "@ + m@,
        Error::Parse(m) => "parse error: "@ + m@,
    }
}

impl Error {
    /// The human-readable message (what `Display` prints).
    pub fn message(&self) -> (s: String)
        ensures
            s@ == error_message(*self),
    {
        match self {
            Error::NonPositiveAtoms => String::from_str("initial-state atoms must be positive integers"),
            Error::DisconnectedInputs => String::from_str(
                "rule inputs do not form a connected hypergraph (not supported)",
            ),
            Error::AtomCountOverflow => String::from_str("ran out of atom names"),
            Error::InvalidRule(m) => {
                let mut s = String::from_str("invalid rule: ");
                s.append(m.as_str());
                s
            },
            Error::Parse(m) => {
                let mut s = String::from_str("parse error: ");
                s.append(m.as_str());
                s
            },
        }
    }
}

} // verus!
