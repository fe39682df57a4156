//! Tokens (hyperedge instances) and events of an evolution's history.

use vstd::prelude::*;

use crate::rule::Atom;

verus! {

/// Identifies a token (hyperedge instance). Tokens are numbered in creation
/// order starting from 0; consumed tokens keep their record forever.
pub type TokenId = usize;

/// Identifies an event. Event 0 is the initial pseudo-event that creates the
/// initial state; real events are numbered from 1 in application order.
pub type EventId = usize;

/// Generation: the causal-graph layer. Initial tokens are generation 0; an
/// event's generation is `max(input generations) + 1`, and its outputs
/// inherit it.
pub type Generation = i64;

/// A token: one hyperedge instance in the evolution's history.
#[derive(Debug, Clone, PartialEq, Eq)]
pub struct Token {
    pub atoms: Vec<Atom>,
    pub creator_event: EventId,
    /// `None` while the token is part of the current state.
    pub destroyer_event: Option<EventId>,
    pub generation: Generation,
}

/// An applied substitution event.
#[derive(Debug, Clone, PartialEq, Eq)]
pub struct Event {
    /// Index of the rule that fired; `None` for the initial pseudo-event.
    pub rule: Option<usize>,
    pub inputs: Vec<TokenId>,
    pub outputs: Vec<TokenId>,
    pub generation: Generation,
}

/// The atoms of every token, by token id.
pub open spec fn atoms_seq(tokens: Seq<Token>) -> Seq<Seq<Atom>> {
    tokens.map_values(|t: Token| t.atoms@)
}

/// Every token holds concrete (positive) atoms only.
pub open spec fn positive_tokens(ta: Seq<Seq<Atom>>) -> bool {
    forall|t: int, k: int| 0 <= t < ta.len() && 0 <= k < ta[t].len() ==> #[trigger] ta[t][k] > 0
}

} // verus!
