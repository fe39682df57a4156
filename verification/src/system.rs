//! The hypergraph substitution system, restricted to single-history
//! evolution: tokens and events are recorded forever, which yields
//! generations, per-event and per-generation states, and the causal graph.

use vstd::prelude::*;

use crate::atoms_index::AtomsIndex;
use crate::error::Error;
use crate::matcher::Matcher;
use crate::ordering::OrderingFunction;
use crate::rule::Atom;
use crate::rule::Rule;
use crate::token::Event;
use crate::token::EventId;
use crate::token::Generation;
use crate::token::Token;
use crate::token::TokenId;

verus! {

broadcast use vstd::seq_lib::lemma_seq_contains_after_push;

/// The internal value of an absent limit.
pub const DISABLED: i64 = 0x7fff_ffff_ffff_ffff;

/// Limits at which evolution stops. `None` means unlimited; the default runs
/// until a fixed point.
#[derive(Debug, Clone, Copy, PartialEq, Eq)]
pub struct StepSpec {
    /// Maximum number of events (`"MaxEvents"`).
    pub max_events: Option<u64>,
    /// Maximum generation (`"MaxGenerations"`). Tokens created at this
    /// generation are not made matchable, so evolution stops once every match
    /// would exceed it; lowering the limit on a later call leaves the tokens
    /// already matchable as they are, and raising it makes the tokens held at
    /// the old limit matchable.
    pub max_generations: Option<u64>,
    /// Maximum number of distinct atoms in the final state (`"MaxVertices"`).
    /// Checked *before* applying each event; the event that would exceed it is
    /// not applied.
    pub max_vertices: Option<u64>,
    /// Maximum number of tokens any single atom may appear in
    /// (`"MaxVertexDegree"`).
    pub max_vertex_degree: Option<u64>,
    /// Maximum number of tokens in the final state (`"MaxEdges"`).
    pub max_edges: Option<u64>,
}

/// The step specification with every limit absent.
pub open spec fn unlimited() -> StepSpec {
    StepSpec { max_events: None, max_generations: None, max_vertices: None, max_vertex_degree: None, max_edges: None }
}

/// The step specification limiting the number of events only.
pub open spec fn events_limit(n: u64) -> StepSpec {
    StepSpec { max_events: Some(n), ..unlimited() }
}

/// The step specification limiting the generations only.
pub open spec fn generations_limit(n: u64) -> StepSpec {
    StepSpec { max_generations: Some(n), ..unlimited() }
}

impl Default for StepSpec {
    /// No limit at all.
    fn default() -> (s: StepSpec)
        ensures
            s.max_events is None,
            s.max_generations is None,
            s.max_vertices is None,
            s.max_vertex_degree is None,
            s.max_edges is None,
    {
        StepSpec { max_events: None, max_generations: None, max_vertices: None, max_vertex_degree: None, max_edges: None }
    }
}

impl StepSpec {
    /// Limit by event count only.
    pub fn events(n: u64) -> (s: StepSpec)
        ensures
            s.max_events == Some(n),
            s.max_generations is None,
            s.max_vertices is None,
            s.max_vertex_degree is None,
            s.max_edges is None,
    {
        StepSpec { max_events: Some(n), max_generations: None, max_vertices: None, max_vertex_degree: None, max_edges: None }
    }

    /// Limit by generation count only.
    pub fn generations(n: u64) -> (s: StepSpec)
        ensures
            s.max_events is None,
            s.max_generations == Some(n),
            s.max_vertices is None,
            s.max_vertex_degree is None,
            s.max_edges is None,
    {
        StepSpec { max_events: None, max_generations: Some(n), max_vertices: None, max_vertex_degree: None, max_edges: None }
    }
}

/// Why the last evolution request stopped. Names follow the Wolfram Language
/// `"TerminationReason"` property.
#[derive(Debug, Clone, Copy, PartialEq, Eq)]
pub enum TerminationReason {
    /// No evolution has been requested yet.
    NotTerminated,
    MaxEvents,
    MaxGenerations,
    MaxVertices,
    MaxVertexDegree,
    MaxEdges,
    /// No matches remain: the system reached a fixed point.
    FixedPoint,
}

/// Construction-time options.
#[derive(Debug, Clone)]
pub struct EvolutionOptions {
    /// The `"EventOrderingFunction"` chain; defaults to
    /// `{LeastRecentEdge, RuleOrdering, RuleIndex}`.
    pub event_ordering: Vec<OrderingFunction>,
    /// Seed for the random tie-breaker (only consulted when the ordering
    /// chain leaves ties).
    pub random_seed: u64,
}

impl Default for EvolutionOptions {
    /// The default ordering and seed 0.
    fn default() -> (o: EvolutionOptions)
        ensures
            o.event_ordering@ == crate::ordering::spec_default_event_ordering(),
            o.random_seed == 0,
    {
        EvolutionOptions { event_ordering: crate::ordering::default_event_ordering(), random_seed: 0 }
    }
}

/// The internal value of a limit: the limit itself, capped at [`DISABLED`],
/// or [`DISABLED`] when absent.
pub open spec fn limit_value(v: Option<u64>) -> i64 {
    match v {
        None => DISABLED,
        Some(n) => if n >= DISABLED as u64 {
            DISABLED
        } else {
            n as i64
        },
    }
}

/// Limits in internal form.
#[derive(Clone, Copy)]
struct InternalSpec {
    max_events: i64,
    max_generations: i64,
    max_vertices: i64,
    max_vertex_degree: i64,
    max_edges: i64,
}

impl InternalSpec {
    /// All limits zero: do not evolve unless asked to.
    fn zero() -> (s: InternalSpec)
        ensures
            s.max_events == 0,
            s.max_generations == 0,
            s.max_vertices == 0,
            s.max_vertex_degree == 0,
            s.max_edges == 0,
    {
        InternalSpec { max_events: 0, max_generations: 0, max_vertices: 0, max_vertex_degree: 0, max_edges: 0 }
    }

    /// The internal form of a step specification.
    fn from_spec(spec: &StepSpec) -> (s: InternalSpec)
        ensures
            s.max_events == limit_value(spec.max_events),
            s.max_generations == limit_value(spec.max_generations),
            s.max_vertices == limit_value(spec.max_vertices),
            s.max_vertex_degree == limit_value(spec.max_vertex_degree),
            s.max_edges == limit_value(spec.max_edges),
    {
        InternalSpec {
            max_events: convert_limit(spec.max_events),
            max_generations: convert_limit(spec.max_generations),
            max_vertices: convert_limit(spec.max_vertices),
            max_vertex_degree: convert_limit(spec.max_vertex_degree),
            max_edges: convert_limit(spec.max_edges),
        }
    }
}

fn convert_limit(v: Option<u64>) -> (r: i64)
    ensures
        r == limit_value(v),
{
    match v {
        None => DISABLED,
        Some(n) => if n >= DISABLED as u64 {
            DISABLED
        } else {
            n as i64
        },
    }
}

/// The token is part of the current state.
pub open spec fn alive(t: Token) -> bool {
    t.destroyer_event is None
}

/// The token exists after the first `k` events.
pub open spec fn present_after(t: Token, k: int) -> bool {
    t.creator_event <= k && (t.destroyer_event is None || t.destroyer_event->Some_0 > k)
}

/// The atoms of the tokens present after the first `k` events, in creation order.
pub open spec fn state_after(tokens: Seq<Token>, k: int) -> Seq<Seq<Atom>>
    decreases tokens.len(),
{
    if tokens.len() == 0 {
        Seq::empty()
    } else {
        let rest = state_after(tokens.drop_last(), k);
        if present_after(tokens.last(), k) {
            rest.push(tokens.last().atoms@)
        } else {
            rest
        }
    }
}

/// The atoms of the current state's tokens, in creation order.
pub open spec fn current_state(tokens: Seq<Token>) -> Seq<Seq<Atom>>
    decreases tokens.len(),
{
    if tokens.len() == 0 {
        Seq::empty()
    } else {
        let rest = current_state(tokens.drop_last());
        if alive(tokens.last()) {
            rest.push(tokens.last().atoms@)
        } else {
            rest
        }
    }
}

/// The token exists at generation `g`: it is of generation at most `g` and
/// not consumed by an event of generation at most `g`.
pub open spec fn present_at_generation(t: Token, events: Seq<Event>, g: int) -> bool {
    t.generation <= g && (t.destroyer_event is None || events[t.destroyer_event->Some_0 as int].generation > g)
}

/// The atoms of the tokens present at generation `g`, in creation order.
pub open spec fn state_at_gen(tokens: Seq<Token>, events: Seq<Event>, g: int) -> Seq<Seq<Atom>>
    decreases tokens.len(),
{
    if tokens.len() == 0 {
        Seq::empty()
    } else {
        let rest = state_at_gen(tokens.drop_last(), events, g);
        if present_at_generation(tokens.last(), events, g) {
            rest.push(tokens.last().atoms@)
        } else {
            rest
        }
    }
}

/// Number of tokens of the current state.
pub open spec fn alive_count(tokens: Seq<Token>) -> nat
    decreases tokens.len(),
{
    if tokens.len() == 0 {
        0
    } else {
        alive_count(tokens.drop_last()) + if alive(tokens.last()) {
            1nat
        } else {
            0nat
        }
    }
}

/// Every atom of every edge is below `bound`.
pub open spec fn atoms_below(es: Seq<Seq<Atom>>, bound: int) -> bool {
    forall|i: int, j: int| 0 <= i < es.len() && 0 <= j < es[i].len() ==> #[trigger] es[i][j] < bound
}

/// Every rule obeys the rule conventions.
pub open spec fn rules_ok(rules: Seq<Rule>) -> bool {
    forall|r: int| 0 <= r < rules.len() ==> (#[trigger] rules[r]).wf()
}

/// The valid matches over a set of tokens.
pub open spec fn valid_matches(rules: Seq<Rule>, tokens: Seq<Token>, indexed: Set<TokenId>) -> Set<
    crate::ordering::MatchSpec,
> {
    Set::new(
        |x: crate::ordering::MatchSpec|
            crate::search::valid_match(
                crate::search::rule_patterns(rules),
                crate::token::atoms_seq(tokens),
                indexed,
                x,
            ),
    )
}

/// A single-history hypergraph substitution system: the core of
/// `WolframModel` / `SetReplace`.
pub struct HypergraphSystem {
    rules: Vec<Rule>,
    tokens: Vec<Token>,
    events: Vec<Event>,
    largest_generation: Generation,
    atoms_index: AtomsIndex,
    matcher: Matcher,
    /// Tokens created but not yet visible to the matcher. Indexing is lazy so
    /// that tokens at the generation cap are matched only if the cap is later
    /// raised.
    unindexed: Vec<TokenId>,
    next_atom: Atom,
    spec: InternalSpec,
    termination_reason: TerminationReason,
}

impl HypergraphSystem {
    /// The rules.
    pub closed spec fn rule_seq(&self) -> Seq<Rule> {
        self.rules@
    }

    /// Every token ever created, by id.
    pub closed spec fn token_seq(&self) -> Seq<Token> {
        self.tokens@
    }

    /// Every event, by id; event 0 is the initial pseudo-event.
    pub closed spec fn event_seq(&self) -> Seq<Event> {
        self.events@
    }

    /// The tokens the matcher may use once pending tokens are indexed.
    pub closed spec fn matchable(&self) -> Set<TokenId> {
        self.atoms_index.indexed().union(self.unindexed@.to_set())
    }

    /// The next fresh atom.
    pub closed spec fn next_fresh_atom(&self) -> Atom {
        self.next_atom
    }

    /// The tie-break generator: its state and its stream increment.
    pub closed spec fn rng(&self) -> (u64, u64) {
        (self.matcher.rng_state(), self.matcher.rng_inc())
    }

    /// The event-ordering chain in use.
    pub closed spec fn chain(&self) -> Seq<(crate::ordering::OrdFn, bool)> {
        self.matcher.chain()
    }

    /// The reason the last evolution request stopped.
    pub closed spec fn reason(&self) -> TerminationReason {
        self.termination_reason
    }

    /// The largest generation of any event.
    pub closed spec fn largest_gen(&self) -> Generation {
        self.largest_generation
    }

    /// Every atom of the tokens and the rules is below the next fresh atom.
    pub closed spec fn fresh_above(&self) -> bool {
        &&& atoms_below(crate::token::atoms_seq(self.tokens@), self.next_atom as int)
        &&& forall|r: int| 0 <= r < self.rules.len() ==> atoms_below((#[trigger] self.rules@[r]).spec_inputs(), self.next_atom as int)
            && atoms_below(self.rules@[r].spec_outputs(), self.next_atom as int)
    }

    /// The system's invariants.
    pub closed spec fn wf(&self) -> bool {
        let ta = crate::token::atoms_seq(self.tokens@);
        let idx = self.atoms_index.indexed();
        &&& rules_ok(self.rules@)
        &&& 1 <= self.events.len() <= DISABLED as int + 1
        &&& crate::token::positive_tokens(ta)
        &&& self.atoms_index.wf(ta)
        &&& forall|t: TokenId| #[trigger] idx.contains(t) ==> t < self.tokens.len() && alive(self.tokens@[t as int])
        &&& forall|k: int| 0 <= k < self.unindexed.len() ==> #[trigger] self.unindexed@[k] < self.tokens.len() && alive(
            self.tokens@[self.unindexed@[k] as int],
        )
        &&& self.matcher.wf()
        &&& self.matcher.matches() <= valid_matches(self.rules@, self.tokens@, idx)
        &&& forall|x: crate::ordering::MatchSpec| #[trigger]
            valid_matches(self.rules@, self.tokens@, idx).contains(x) && !crate::matcher::involves(x, self.unindexed@)
                ==> self.matcher.matches().contains(x)
        &&& forall|t: int| 0 <= t < self.tokens.len() ==> (#[trigger] self.tokens@[t]).creator_event < self.events.len()
        &&& forall|t: int| 0 <= t < self.tokens.len() && (#[trigger] self.tokens@[t]).destroyer_event is Some ==> self.tokens@[t].creator_event
            < self.tokens@[t].destroyer_event->Some_0 < self.events.len()
        &&& forall|t: int| 0 <= t < self.tokens.len() ==> 0 <= (#[trigger] self.tokens@[t]).generation <= self.tokens@[t].creator_event
        &&& forall|t: int| 0 <= t < self.tokens.len() ==> (#[trigger] self.tokens@[t]).generation <= self.largest_generation
        &&& forall|t: int|
            0 <= t < self.tokens.len() ==> self.events@[(#[trigger] self.tokens@[t]).creator_event as int].outputs@.contains(
                t as TokenId,
            ) && self.events@[self.tokens@[t].creator_event as int].generation == self.tokens@[t].generation
        &&& forall|e: int| 0 <= e < self.events.len() ==> 0 <= (#[trigger] self.events@[e]).generation <= self.largest_generation
        &&& self.events@[0].generation == 0
        &&& forall|e: int, q: int|
            0 <= e < self.events.len() && 0 <= q < self.events@[e].outputs@.len() ==> #[trigger] self.events@[e].outputs@[q]
                < self.tokens.len() && self.tokens@[self.events@[e].outputs@[q] as int].creator_event == e
        &&& forall|e: int, q: int|
            0 <= e < self.events.len() && 0 <= q < self.events@[e].inputs@.len() ==> #[trigger] self.events@[e].inputs@[q]
                < self.tokens.len() && self.tokens@[self.events@[e].inputs@[q] as int].destroyer_event == Some(e as EventId)
        &&& forall|t: int|
            0 <= t < self.tokens.len() && (#[trigger] self.tokens@[t]).destroyer_event is Some ==> self.events@[self.tokens@[t].destroyer_event->Some_0 as int].inputs@.contains(
                t as TokenId,
            )
        &&& forall|e: int| 1 <= e < self.events.len() ==> (#[trigger] self.events@[e]).generation >= 1
        &&& exists|e: int| 0 <= e < self.events.len() && (#[trigger] self.events@[e]).generation == self.largest_generation
        &&& 0 <= self.largest_generation < self.events.len()
        &&& 1 <= self.next_atom
        &&& self.next_atom == Atom::MAX || self.fresh_above()
        &&& self.spec.max_events >= 0 && self.spec.max_generations >= 0 && self.spec.max_vertices >= 0
            && self.spec.max_vertex_degree >= 0 && self.spec.max_edges >= 0
    }
}


/// What is wrong with a rule, if anything.
pub open spec fn rule_problem(r: Rule) -> Option<Seq<char>> {
    if r.spec_inputs().len() == 0 {
        Some("rule must have at least one input edge"@)
    } else if crate::rule::edges_contain(r.spec_inputs(), 0) || crate::rule::edges_contain(r.spec_outputs(), 0) {
        Some("atom 0 is invalid"@)
    } else {
        None
    }
}

/// The atom occurs in the rule.
pub open spec fn rule_names(r: Rule, a: Atom) -> bool {
    crate::rule::edges_contain(r.spec_inputs(), a) || crate::rule::edges_contain(r.spec_outputs(), a)
}

/// The atom occurs in the initial state or in a rule.
pub open spec fn atom_named(state: Seq<Seq<Atom>>, rules: Seq<Rule>, a: Atom) -> bool {
    ||| crate::rule::edges_contain(state, a)
    ||| exists|r: int| 0 <= r < rules.len() && #[trigger] rule_names(rules[r], a)
}

/// `next` is the first atom after the largest one named in the state and
/// the rules (1 when none is positive), or the largest atom when there is
/// no room left.
pub open spec fn first_fresh(state: Seq<Seq<Atom>>, rules: Seq<Rule>, next: Atom) -> bool {
    &&& next >= 1
    &&& forall|a: Atom| #[trigger] atom_named(state, rules, a) ==> a < next || next == Atom::MAX
    &&& next == 1 || atom_named(state, rules, (next - 1) as Atom) || atom_named(state, rules, next)
}

/// Every atom of the edges is positive.
pub open spec fn positive_edges(es: Seq<Seq<Atom>>) -> bool {
    forall|i: int, j: int| 0 <= i < es.len() && 0 <= j < es[i].len() ==> #[trigger] es[i][j] > 0
}

/// The largest atom of the edges, if above `m`; every atom is at most the
/// result, and the result is `m` or one of the atoms.
fn max_atom_in(es: &Vec<Vec<Atom>>, m: Atom) -> (r: Atom)
    ensures
        r >= m,
        forall|i: int, j: int| 0 <= i < es.len() && 0 <= j < es@[i]@.len() ==> #[trigger] es@[i]@[j] <= r,
        r == m || crate::rule::edges_contain(crate::rule::edges_of(*es), r),
{
    let ghost es_s = crate::rule::edges_of(*es);
    let mut best = m;
    let mut i: usize = 0;
    while i < es.len()
        invariant
            i <= es.len(),
            es_s == crate::rule::edges_of(*es),
            best >= m,
            forall|ii: int, j: int| 0 <= ii < i && 0 <= j < es@[ii]@.len() ==> #[trigger] es@[ii]@[j] <= best,
            best == m || crate::rule::edges_contain(es_s, best),
        decreases es.len() - i,
    {
        let e = &es[i];
        let mut j: usize = 0;
        while j < e.len()
            invariant
                j <= e.len(),
                i < es.len(),
                e == es@[i as int],
                es_s == crate::rule::edges_of(*es),
                best >= m,
                forall|ii: int, jj: int| 0 <= ii < i && 0 <= jj < es@[ii]@.len() ==> #[trigger] es@[ii]@[jj] <= best,
                forall|jj: int| 0 <= jj < j ==> #[trigger] e@[jj] <= best,
                best == m || crate::rule::edges_contain(es_s, best),
            decreases e.len() - j,
        {
            if e[j] > best {
                best = e[j];
                proof {
                    assert(es_s[i as int][j as int] == best);
                }
            }
            j = j + 1;
        }
        i = i + 1;
    }
    best
}

impl HypergraphSystem {
    /// Creates a system with the default event ordering and seed 0.
    pub fn new(rules: Vec<Rule>, initial_state: Vec<Vec<Atom>>) -> (r: Result<HypergraphSystem, Error>)
        ensures
            r matches Err(Error::InvalidRule(m)) ==> exists|k: int|
                0 <= k < rules.len() && rule_problem(#[trigger] rules@[k]) == Some(m@) && forall|q: int|
                    0 <= q < k ==> rule_problem(#[trigger] rules@[q]) is None,
            (r matches Err(e) && e is InvalidRule) <==> !rules_ok(rules@),
            (r matches Err(e) && e is NonPositiveAtoms) <==> rules_ok(rules@) && !positive_edges(
                crate::rule::edges_of(initial_state),
            ),
            r is Err ==> r->Err_0 is InvalidRule || r->Err_0 is NonPositiveAtoms,
            r matches Ok(s) ==> s.wf() && s.rule_seq() == rules@ && crate::token::atoms_seq(s.token_seq())
                == crate::rule::edges_of(initial_state) && s.initial(initial_state@.len())
                && s.chain() == crate::ordering::translate(crate::ordering::spec_default_event_ordering())
                && first_fresh(crate::rule::edges_of(initial_state), rules@, s.next_fresh_atom())
                && s.rng() == (crate::pcg::pcg_seeded_state(0), crate::pcg::pcg_increment()),
    {
        HypergraphSystem::with_options(rules, initial_state, EvolutionOptions::default())
    }

    /// The shape of a system that has not evolved: `n` initial tokens
    /// created by the initial pseudo-event, nothing consumed, nothing matched.
    pub open spec fn initial(&self, n: nat) -> bool {
        &&& self.token_seq().len() == n
        &&& forall|t: int| 0 <= t < n ==> (#[trigger] self.token_seq()[t]).creator_event == 0
            && self.token_seq()[t].destroyer_event is None && self.token_seq()[t].generation == 0
        &&& self.event_seq().len() == 1
        &&& self.event_seq()[0].rule is None
        &&& self.event_seq()[0].inputs@.len() == 0
        &&& self.event_seq()[0].outputs@ == Seq::new(n, |t: int| t as TokenId)
        &&& self.event_seq()[0].generation == 0
        &&& self.largest_gen() == 0
        &&& self.matchable() == Set::<TokenId>::empty()
        &&& self.pending() == Set::<TokenId>::empty()
        &&& self.limits() == (0i64, 0i64, 0i64, 0i64, 0i64)
        &&& self.reason() == TerminationReason::NotTerminated
    }

    /// Creates a system. Rules are validated first (at least one input edge,
    /// no atom 0), then the initial state (positive atoms only). Fresh atoms
    /// will be numbered after the largest atom of the initial state and the
    /// rules.
    pub fn with_options(rules: Vec<Rule>, initial_state: Vec<Vec<Atom>>, options: EvolutionOptions) -> (r: Result<
        HypergraphSystem,
        Error,
    >)
        ensures
            r matches Err(Error::InvalidRule(m)) ==> exists|k: int|
                0 <= k < rules.len() && rule_problem(#[trigger] rules@[k]) == Some(m@) && forall|q: int|
                    0 <= q < k ==> rule_problem(#[trigger] rules@[q]) is None,
            (r matches Err(e) && e is InvalidRule) <==> !rules_ok(rules@),
            (r matches Err(e) && e is NonPositiveAtoms) <==> rules_ok(rules@) && !positive_edges(
                crate::rule::edges_of(initial_state),
            ),
            r is Err ==> r->Err_0 is InvalidRule || r->Err_0 is NonPositiveAtoms,
            r matches Ok(s) ==> s.wf() && s.rule_seq() == rules@ && crate::token::atoms_seq(s.token_seq())
                == crate::rule::edges_of(initial_state) && s.initial(initial_state@.len()) && s.chain()
                == crate::ordering::translate(options.event_ordering@) && first_fresh(
                crate::rule::edges_of(initial_state),
                rules@,
                s.next_fresh_atom(),
            ) && s.rng() == (crate::pcg::pcg_seeded_state(options.random_seed), crate::pcg::pcg_increment()),
    {
        let mut k: usize = 0;
        while k < rules.len()
            invariant
                k <= rules.len(),
                forall|q: int| 0 <= q < k ==> rule_problem(#[trigger] rules@[q]) is None,
            decreases rules.len() - k,
        {
            let rule = &rules[k];
            if rule.inputs.len() == 0 {
                proof {
                    assert(rule_problem(rules@[k as int]) is Some);
                    assert(!rules@[k as int].wf());
                }
                return Err(Error::InvalidRule(String::from_str("rule must have at least one input edge")));
            }
            if crate::rule::edges_hold_zero(&rule.inputs) || crate::rule::edges_hold_zero(&rule.outputs) {
                proof {
                    assert(!rules@[k as int].wf());
                }
                return Err(Error::InvalidRule(String::from_str("atom 0 is invalid")));
            }
            k = k + 1;
        }
        proof {
            assert forall|q: int| 0 <= q < rules.len() implies (#[trigger] rules@[q]).wf() by {
                assert(rule_problem(rules@[q]) is None);
            }
        }
        let ghost st = crate::rule::edges_of(initial_state);
        let mut i: usize = 0;
        while i < initial_state.len()
            invariant
                i <= initial_state.len(),
                rules_ok(rules@),
                st == crate::rule::edges_of(initial_state),
                forall|ii: int, j: int| 0 <= ii < i && 0 <= j < st[ii].len() ==> #[trigger] st[ii][j] > 0,
            decreases initial_state.len() - i,
        {
            let e = &initial_state[i];
            let mut j: usize = 0;
            while j < e.len()
                invariant
                    j <= e.len(),
                    rules_ok(rules@),
                    i < initial_state.len(),
                    e == initial_state@[i as int],
                    st == crate::rule::edges_of(initial_state),
                    forall|ii: int, jj: int| 0 <= ii < i && 0 <= jj < st[ii].len() ==> #[trigger] st[ii][jj] > 0,
                    forall|jj: int| 0 <= jj < j ==> #[trigger] e@[jj] > 0,
                decreases e.len() - j,
            {
                if e[j] <= 0 {
                    proof {
                        assert(st[i as int][j as int] <= 0);
                    }
                    return Err(Error::NonPositiveAtoms);
                }
                j = j + 1;
            }
            i = i + 1;
        }
        let mut max_atom = max_atom_in(&initial_state, 0);
        let mut q: usize = 0;
        while q < rules.len()
            invariant
                q <= rules.len(),
                rules_ok(rules@),
                positive_edges(st),
                st == crate::rule::edges_of(initial_state),
                max_atom >= 0,
                forall|a: Atom| #[trigger] crate::rule::edges_contain(st, a) ==> a <= max_atom,
                forall|qq: int, a: Atom| 0 <= qq < q && #[trigger] rule_names(rules@[qq], a) ==> a <= max_atom,
                max_atom == 0 || atom_named(st, rules@, max_atom),
            decreases rules.len() - q,
        {
            let m1 = max_atom_in(&rules[q].inputs, max_atom);
            let m2 = max_atom_in(&rules[q].outputs, m1);
            proof {
                if m2 != max_atom {
                    assert(atom_named(st, rules@, m2)) by {
                        if m2 != m1 {
                            assert(rule_names(rules@[q as int], m2));
                        } else {
                            assert(rule_names(rules@[q as int], m1));
                        }
                    }
                }
            }
            max_atom = m2;
            q = q + 1;
        }
        let next_atom = if max_atom == Atom::MAX {
            Atom::MAX
        } else {
            max_atom + 1
        };
        let n = initial_state.len();
        let mut tokens: Vec<Token> = Vec::new();
        let mut outputs: Vec<TokenId> = Vec::new();
        let states = initial_state;
        let ghost st0 = states@;
        let mut t: usize = 0;
        while t < n
            invariant
                t <= n,
                n == st0.len(),
                states@ == st0,
                st == st0.map_values(|e: Vec<Atom>| e@),
                tokens.len() == t,
                outputs@ == Seq::new(t as nat, |k: int| k as TokenId),
                forall|k: int| 0 <= k < t ==> (#[trigger] tokens@[k]).atoms@ == st[k] && tokens@[k].creator_event == 0
                    && tokens@[k].destroyer_event is None && tokens@[k].generation == 0,
            decreases n - t,
        {
            let atoms = states[t].clone();
            proof {
                assert(atoms@ == st[t as int]);
            }
            tokens.push(Token { atoms, creator_event: 0, destroyer_event: None, generation: 0 });
            outputs.push(t);
            proof {
                assert(outputs@ =~= Seq::new((t + 1) as nat, |k: int| k as TokenId));
            }
            t = t + 1;
        }
        let mut events: Vec<Event> = Vec::new();
        events.push(Event { rule: None, inputs: Vec::new(), outputs, generation: 0 });
        let s = HypergraphSystem {
            matcher: Matcher::new(&options.event_ordering, options.random_seed),
            rules,
            tokens,
            events,
            largest_generation: 0,
            atoms_index: AtomsIndex::new(),
            unindexed: Vec::new(),
            next_atom,
            spec: InternalSpec::zero(),
            termination_reason: TerminationReason::NotTerminated,
        };
        proof {
            let ta = crate::token::atoms_seq(s.tokens@);
            assert(ta =~= st);
            assert(s.matchable() =~= Set::<TokenId>::empty());
            assert(s.pending() =~= Set::<TokenId>::empty());
            assert(valid_matches(s.rules@, s.tokens@, Set::empty()) =~= Set::empty()) by {
                assert forall|x: crate::ordering::MatchSpec| !(#[trigger] valid_matches(s.rules@, s.tokens@, Set::empty()).contains(x)) by {
                    if valid_matches(s.rules@, s.tokens@, Set::empty()).contains(x) {
                        assert(s.rules@[x.0 as int].wf());
                        assert(crate::search::rule_patterns(s.rules@)[x.0 as int].len() > 0);
                        assert(Set::<TokenId>::empty().contains(x.1[0]));
                    }
                }
            }
            assert(rules_ok(s.rules@));
            assert(crate::token::positive_tokens(ta)) by {
                assert forall|t: int, k: int| 0 <= t < ta.len() && 0 <= k < ta[t].len() implies #[trigger] ta[t][k] > 0 by {
                    assert(st[t][k] > 0);
                }
            }
            assert(s.atoms_index.wf(ta));
            assert(s.matcher.wf());
            assert(s.matcher.matches() <= valid_matches(s.rules@, s.tokens@, s.atoms_index.indexed()));
            assert(first_fresh(st, s.rules@, next_atom));
            assert(s.initial(n as nat));
            assert forall|t: int| 0 <= t < s.tokens.len() implies s.events@[(#[trigger] s.tokens@[t]).creator_event as int].outputs@.contains(
                t as TokenId,
            ) && s.events@[s.tokens@[t].creator_event as int].generation == s.tokens@[t].generation by {
                assert(s.events@[0].outputs@[t] == t as TokenId);
            }
            if next_atom != Atom::MAX {
                assert forall|a: Atom| #[trigger] atom_named(st, s.rules@, a) implies a < next_atom by {
                    if crate::rule::edges_contain(st, a) {
                    } else {
                        let r = choose|r: int| 0 <= r < s.rules@.len() && #[trigger] rule_names(s.rules@[r], a);
                    }
                }
                assert forall|i: int, j: int| 0 <= i < ta.len() && 0 <= j < ta[i].len() implies #[trigger] ta[i][j] < next_atom as int by {
                    assert(crate::rule::edges_contain(st, ta[i][j]));
                }
                assert forall|r: int| 0 <= r < s.rules.len() implies atoms_below((#[trigger] s.rules@[r]).spec_inputs(), next_atom as int)
                    && atoms_below(s.rules@[r].spec_outputs(), next_atom as int) by {
                    assert forall|i: int, j: int| 0 <= i < s.rules@[r].spec_inputs().len() && 0 <= j < s.rules@[r].spec_inputs()[i].len() implies #[trigger] s.rules@[r].spec_inputs()[i][j] < next_atom as int by {
                        assert(rule_names(s.rules@[r], s.rules@[r].spec_inputs()[i][j]));
                    }
                    assert forall|i: int, j: int| 0 <= i < s.rules@[r].spec_outputs().len() && 0 <= j < s.rules@[r].spec_outputs()[i].len() implies #[trigger] s.rules@[r].spec_outputs()[i][j] < next_atom as int by {
                        assert(rule_names(s.rules@[r], s.rules@[r].spec_outputs()[i][j]));
                    }
                }
            }
        }
        Ok(s)
    }
}


/// The causal-graph edges: one `(creator, destroyer)` pair per consumed
/// token, in token order, leaving out tokens of the initial pseudo-event
/// unless `include_initial`.
pub open spec fn causal_edges(tokens: Seq<Token>, include_initial: bool) -> Seq<(EventId, EventId)>
    decreases tokens.len(),
{
    if tokens.len() == 0 {
        Seq::empty()
    } else {
        let rest = causal_edges(tokens.drop_last(), include_initial);
        let t = tokens.last();
        if t.destroyer_event is Some && (include_initial || t.creator_event != 0) {
            rest.push((t.creator_event, t.destroyer_event->Some_0))
        } else {
            rest
        }
    }
}

/// The atoms occurring in some edge.
pub open spec fn atoms_of(es: Seq<Seq<Atom>>) -> Set<Atom> {
    Set::new(|a: Atom| crate::rule::edges_contain(es, a))
}

impl HypergraphSystem {
    /// All tokens ever created, in creation order (`"AllExpressions"`).
    pub fn tokens(&self) -> (r: &[Token])
        ensures
            r@ == self.token_seq(),
    {
        self.tokens.as_slice()
    }

    /// All events; index 0 is the initial pseudo-event (`"AllEventsList"`
    /// with the initial boundary event included).
    pub fn events(&self) -> (r: &[Event])
        ensures
            r@ == self.event_seq(),
    {
        self.events.as_slice()
    }

    /// Number of real events applied (`"EventsCount"`).
    pub fn events_count(&self) -> (r: usize)
        requires
            self.wf(),
        ensures
            r == self.event_seq().len() - 1,
    {
        self.events.len() - 1
    }

    /// Why the last evolution request stopped.
    pub fn termination_reason(&self) -> (r: TerminationReason)
        ensures
            r == self.reason(),
    {
        self.termination_reason
    }

    /// Largest generation of any event (`"TotalGenerationsCount"`).
    pub fn generations_count(&self) -> (r: Generation)
        requires
            self.wf(),
        ensures
            r == self.largest_gen(),
            forall|e: int| 0 <= e < self.event_seq().len() ==> #[trigger] self.event_seq()[e].generation <= r,
            exists|e: int| 0 <= e < self.event_seq().len() && #[trigger] self.event_seq()[e].generation == r,
    {
        self.largest_generation
    }

    /// Tokens of the current state, in creation order (`"FinalState"`).
    pub fn final_state(&self) -> (r: Vec<Vec<Atom>>)
        ensures
            crate::rule::edges_of(r) == current_state(self.token_seq()),
    {
        let mut out: Vec<Vec<Atom>> = Vec::new();
        let mut i: usize = 0;
        while i < self.tokens.len()
            invariant
                i <= self.tokens.len(),
                crate::rule::edges_of(out) == current_state(self.tokens@.take(i as int)),
            decreases self.tokens.len() - i,
        {
            proof {
                assert(self.tokens@.take(i + 1).drop_last() =~= self.tokens@.take(i as int));
            }
            if self.tokens[i].destroyer_event.is_none() {
                let a = self.tokens[i].atoms.clone();
                out.push(a);
                proof {
                    assert(crate::rule::edges_of(out) =~= current_state(self.tokens@.take(i as int)).push(a@));
                }
            }
            i = i + 1;
        }
        proof {
            assert(self.tokens@.take(self.tokens.len() as int) =~= self.tokens@);
        }
        out
    }

    /// The state after the first `k` events (`k = 0` is the initial state).
    pub fn state_after_event(&self, k: usize) -> (r: Vec<Vec<Atom>>)
        requires
            self.wf(),
            k <= self.event_seq().len() - 1,
        ensures
            crate::rule::edges_of(r) == state_after(self.token_seq(), k as int),
    {
        let mut out: Vec<Vec<Atom>> = Vec::new();
        let mut i: usize = 0;
        while i < self.tokens.len()
            invariant
                i <= self.tokens.len(),
                crate::rule::edges_of(out) == state_after(self.tokens@.take(i as int), k as int),
            decreases self.tokens.len() - i,
        {
            proof {
                assert(self.tokens@.take(i + 1).drop_last() =~= self.tokens@.take(i as int));
            }
            let t = &self.tokens[i];
            let present = t.creator_event <= k && match t.destroyer_event {
                None => true,
                Some(d) => d > k,
            };
            if present {
                let a = t.atoms.clone();
                out.push(a);
                proof {
                    assert(crate::rule::edges_of(out) =~= state_after(self.tokens@.take(i as int), k as int).push(a@));
                }
            }
            i = i + 1;
        }
        proof {
            assert(self.tokens@.take(self.tokens.len() as int) =~= self.tokens@);
        }
        out
    }

    /// States after 0, 1, ..., `events_count()` events
    /// (`SetReplaceList` / `"AllEventsStatesList"`).
    pub fn states_by_event(&self) -> (r: Vec<Vec<Vec<Atom>>>)
        requires
            self.wf(),
        ensures
            r.len() == self.event_seq().len(),
            forall|k: int| 0 <= k < r.len() ==> crate::rule::edges_of(#[trigger] r@[k]) == state_after(self.token_seq(), k),
    {
        let n = self.events_count();
        let mut out: Vec<Vec<Vec<Atom>>> = Vec::new();
        let mut k: usize = 0;
        while k <= n
            invariant
                self.wf(),
                n == self.event_seq().len() - 1,
                k <= n + 1,
                out.len() == k,
                forall|q: int| 0 <= q < k ==> crate::rule::edges_of(#[trigger] out@[q]) == state_after(self.token_seq(), q),
            decreases n + 1 - k,
        {
            let st = self.state_after_event(k);
            out.push(st);
            k = k + 1;
        }
        out
    }

    /// The state at generation `g`: tokens of generation at most `g` not
    /// consumed by an event of generation at most `g` (the evolution's `[g]`
    /// property).
    pub fn state_at_generation(&self, g: Generation) -> (r: Vec<Vec<Atom>>)
        requires
            self.wf(),
        ensures
            crate::rule::edges_of(r) == state_at_gen(self.token_seq(), self.event_seq(), g as int),
    {
        let mut out: Vec<Vec<Atom>> = Vec::new();
        let mut i: usize = 0;
        while i < self.tokens.len()
            invariant
                self.wf(),
                i <= self.tokens.len(),
                crate::rule::edges_of(out) == state_at_gen(self.tokens@.take(i as int), self.events@, g as int),
            decreases self.tokens.len() - i,
        {
            proof {
                assert(self.tokens@.take(i + 1).drop_last() =~= self.tokens@.take(i as int));
            }
            let t = &self.tokens[i];
            let present = t.generation <= g && match t.destroyer_event {
                None => true,
                Some(d) => {
                    assert(self.tokens@[i as int].destroyer_event is Some);
                    self.events[d].generation > g
                },
            };
            if present {
                let a = t.atoms.clone();
                out.push(a);
                proof {
                    assert(crate::rule::edges_of(out) =~= state_at_gen(self.tokens@.take(i as int), self.events@, g as int).push(a@));
                }
            }
            i = i + 1;
        }
        proof {
            assert(self.tokens@.take(self.tokens.len() as int) =~= self.tokens@);
        }
        out
    }

    /// Causal-graph edges: one `(creator event, destroyer event)` pair per
    /// consumed token (multi-edges included). With `include_initial = false`
    /// (the `"CausalGraph"` default), edges from the initial pseudo-event are
    /// omitted; vertices are events `1..=events_count()`.
    pub fn causal_graph_edges(&self, include_initial: bool) -> (r: Vec<(EventId, EventId)>)
        ensures
            r@ == causal_edges(self.token_seq(), include_initial),
    {
        let mut out: Vec<(EventId, EventId)> = Vec::new();
        let mut i: usize = 0;
        while i < self.tokens.len()
            invariant
                i <= self.tokens.len(),
                out@ == causal_edges(self.tokens@.take(i as int), include_initial),
            decreases self.tokens.len() - i,
        {
            proof {
                assert(self.tokens@.take(i + 1).drop_last() =~= self.tokens@.take(i as int));
            }
            let t = &self.tokens[i];
            match t.destroyer_event {
                Some(d) => {
                    if include_initial || t.creator_event != 0 {
                        out.push((t.creator_event, d));
                    }
                },
                None => {},
            }
            i = i + 1;
        }
        proof {
            assert(self.tokens@.take(self.tokens.len() as int) =~= self.tokens@);
        }
        out
    }
}


/// Naming state: the names given so far and the next fresh atom.
pub type NamingState = (Map<Atom, Atom>, Atom);

/// The name of an atom in a naming state: a non-negative atom is itself, a
/// named anonymous atom its name, a new anonymous atom the next fresh atom.
pub open spec fn name_of(st: NamingState, a: Atom) -> Atom {
    if a >= 0 {
        a
    } else if st.0.dom().contains(a) {
        st.0[a]
    } else {
        st.1
    }
}

/// The naming state after meeting atom `a`: a new anonymous atom takes the
/// next fresh atom, which then advances; there is none left at `Atom::MAX`.
pub open spec fn name_step(st: NamingState, a: Atom) -> Option<NamingState> {
    if a >= 0 || st.0.dom().contains(a) {
        Some(st)
    } else if st.1 == Atom::MAX {
        None
    } else {
        Some((st.0.insert(a, st.1), (st.1 + 1) as Atom))
    }
}

/// The naming state after an edge, scanned left to right.
pub open spec fn after_edge(st: Option<NamingState>, e: Seq<Atom>) -> Option<NamingState>
    decreases e.len(),
{
    if e.len() == 0 {
        st
    } else {
        match after_edge(st, e.drop_last()) {
            None => None,
            Some(s) => name_step(s, e.last()),
        }
    }
}

/// The naming state after a list of edges, scanned in order.
pub open spec fn after_edges(st: Option<NamingState>, es: Seq<Seq<Atom>>) -> Option<NamingState>
    decreases es.len(),
{
    if es.len() == 0 {
        st
    } else {
        after_edge(after_edges(st, es.drop_last()), es.last())
    }
}

/// The naming state in which atom `j` of edge `i` is named.
pub open spec fn naming_at(start: Atom, es: Seq<Seq<Atom>>, i: int, j: int) -> Option<NamingState> {
    after_edge(after_edges(Some((Map::empty(), start)), es.take(i)), es[i].take(j))
}

/// Anonymous atoms renamed to fresh atoms from `start` on, consecutively in
/// order of first appearance; `None` when the atoms run out.
pub open spec fn named_edges(start: Atom, es: Seq<Seq<Atom>>) -> Option<(Seq<Seq<Atom>>, Atom)> {
    match after_edges(Some((Map::empty(), start)), es) {
        None => None,
        Some(fin) => Some((
            Seq::new(es.len(), |i: int| Seq::new(es[i].len(), |j: int| name_of(naming_at(start, es, i, j)->Some_0, es[i][j]))),
            fin.1,
        )),
    }
}

pub proof fn lemma_after_edge_none(e: Seq<Atom>)
    ensures
        after_edge(None, e) is None,
    decreases e.len(),
{
    if e.len() > 0 {
        lemma_after_edge_none(e.drop_last());
    }
}

/// Once the atoms have run out on a prefix, they have run out for good.
proof fn lemma_after_edges_none(es: Seq<Seq<Atom>>, i: int, j: int, start: Atom)
    requires
        0 <= i < es.len(),
        0 <= j <= es[i].len(),
        naming_at(start, es, i, j) is None,
    ensures
        after_edges(Some((Map::empty(), start)), es) is None,
    decreases es.len() - i, es[i].len() - j,
{
    let st0 = Some((Map::<Atom, Atom>::empty(), start));
    if j < es[i].len() {
        let e = es[i];
        assert(e.take(j + 1).drop_last() =~= e.take(j));
        lemma_after_edges_none(es, i, j + 1, start);
    } else if i + 1 < es.len() {
        assert(es[i].take(j) =~= es[i]);
        assert(es.take(i + 1).drop_last() =~= es.take(i));
        assert(after_edges(st0, es.take(i + 1)) is None);
        assert(es[i + 1].take(0) =~= Seq::<Atom>::empty());
        lemma_after_edges_none(es, i + 1, 0, start);
    } else {
        assert(es[i].take(j) =~= es[i]);
        assert(es.take(i + 1) =~= es);
        assert(es.take(i + 1).drop_last() =~= es.take(i));
    }
}

impl HypergraphSystem {
    /// Gives fresh names to anonymous (negative) atoms: consecutive atoms
    /// from the next fresh one, in order of first appearance, scanning edges
    /// left to right. Fails when the atoms run out, leaving the next fresh
    /// atom at `Atom::MAX`.
    fn name_anonymous_atoms(&mut self, vectors: &Vec<Vec<Atom>>) -> (r: Result<Vec<Vec<Atom>>, Error>)
        ensures
            final(self).rules == old(self).rules,
            final(self).tokens == old(self).tokens,
            final(self).events == old(self).events,
            final(self).largest_generation == old(self).largest_generation,
            final(self).atoms_index == old(self).atoms_index,
            final(self).matcher == old(self).matcher,
            final(self).unindexed == old(self).unindexed,
            final(self).spec == old(self).spec,
            final(self).termination_reason == old(self).termination_reason,
            r is Ok <==> named_edges(old(self).next_atom, crate::rule::edges_of(*vectors)) is Some,
            r matches Ok(v) ==> (crate::rule::edges_of(v), final(self).next_atom) == named_edges(
                old(self).next_atom,
                crate::rule::edges_of(*vectors),
            )->Some_0,
            r matches Err(e) ==> e is AtomCountOverflow && final(self).next_atom == Atom::MAX,
            r matches Ok(v) ==> forall|i: int, j: int|
                0 <= i < vectors.len() && 0 <= j < vectors@[i]@.len() ==> (vectors@[i]@[j] >= 0 ==> #[trigger] v@[i]@[j]
                    == vectors@[i]@[j]) && (vectors@[i]@[j] < 0 ==> old(self).next_atom <= v@[i]@[j] < final(self).next_atom),
            r matches Ok(v) ==> forall|a: Atom|
                old(self).next_atom <= a < final(self).next_atom ==> #[trigger] crate::rule::edges_contain(crate::rule::edges_of(v), a),
            old(self).next_atom <= final(self).next_atom,
    {
        let ghost start = self.next_atom;
        let ghost es = crate::rule::edges_of(*vectors);
        let ghost st0: Option<NamingState> = Some((Map::<Atom, Atom>::empty(), start));
        let mut names = crate::pattern::Binding::new();
        let mut result: Vec<Vec<Atom>> = Vec::new();
        let mut i: usize = 0;
        while i < vectors.len()
            invariant
                i <= vectors.len(),
                es == crate::rule::edges_of(*vectors),
                st0 == Some((Map::<Atom, Atom>::empty(), start)),
                start == old(self).next_atom,
                names.wf(),
                after_edges(st0, es.take(i as int)) == Some((names@, self.next_atom)),
                result.len() == i,
                forall|ii: int| 0 <= ii < i ==> (#[trigger] result@[ii])@.len() == es[ii].len(),
                forall|ii: int, jj: int| 0 <= ii < i && 0 <= jj < es[ii].len() ==> #[trigger] result@[ii]@[jj] == name_of(
                    naming_at(start, es, ii, jj)->Some_0,
                    es[ii][jj],
                ),
                forall|ii: int, jj: int| 0 <= ii < i && 0 <= jj < es[ii].len() ==> #[trigger] naming_at(start, es, ii, jj) is Some,
                forall|ii: int, jj: int| 0 <= ii < i && 0 <= jj < es[ii].len() ==> (es[ii][jj] >= 0 ==> #[trigger] result@[ii]@[jj] == es[ii][jj])
                    && (es[ii][jj] < 0 ==> start <= result@[ii]@[jj] < self.next_atom),
                forall|k: Atom| #[trigger] names@.dom().contains(k) ==> start <= names@[k] < self.next_atom,
                start <= self.next_atom,
                forall|a: Atom| start <= a < self.next_atom ==> #[trigger] crate::rule::edges_contain(crate::rule::edges_of(result), a),
                self.rules == old(self).rules,
                self.tokens == old(self).tokens,
                self.events == old(self).events,
                self.largest_generation == old(self).largest_generation,
                self.atoms_index == old(self).atoms_index,
                self.matcher == old(self).matcher,
                self.unindexed == old(self).unindexed,
                self.spec == old(self).spec,
                self.termination_reason == old(self).termination_reason,
            decreases vectors.len() - i,
        {
            let e = &vectors[i];
            let ghost ei = es[i as int];
            let mut row: Vec<Atom> = Vec::new();
            let mut j: usize = 0;
            proof {
                assert(ei.take(0) =~= Seq::<Atom>::empty());
                assert(e@ == ei);
            }
            while j < e.len()
                invariant
                    j <= e.len(),
                    i < vectors.len(),
                    e == vectors@[i as int],
                    es == crate::rule::edges_of(*vectors),
                    ei == es[i as int],
                    ei == e@,
                    st0 == Some((Map::<Atom, Atom>::empty(), start)),
                    start == old(self).next_atom,
                    names.wf(),
                    naming_at(start, es, i as int, j as int) == Some((names@, self.next_atom)),
                    row.len() == j,
                    forall|jj: int| 0 <= jj < j ==> #[trigger] row@[jj] == name_of(naming_at(start, es, i as int, jj)->Some_0, ei[jj]),
                    forall|jj: int| 0 <= jj < j ==> #[trigger] naming_at(start, es, i as int, jj) is Some,
                    forall|ii: int, jj: int| 0 <= ii < i && 0 <= jj < es[ii].len() ==> (es[ii][jj] >= 0 ==> #[trigger] result@[ii]@[jj] == es[ii][jj])
                        && (es[ii][jj] < 0 ==> start <= result@[ii]@[jj] < self.next_atom),
                    forall|jj: int| 0 <= jj < j ==> (ei[jj] >= 0 ==> #[trigger] row@[jj] == ei[jj]) && (ei[jj] < 0 ==> start <= row@[jj] < self.next_atom),
                    forall|k: Atom| #[trigger] names@.dom().contains(k) ==> start <= names@[k] < self.next_atom,
                    start <= self.next_atom,
                    forall|a: Atom|
                        #![trigger crate::rule::edges_contain(crate::rule::edges_of(result), a)]
                        #![trigger row@.contains(a)]
                        start <= a < self.next_atom ==> crate::rule::edges_contain(crate::rule::edges_of(result), a) || row@.contains(a),
                    result.len() == i,
                    self.rules == old(self).rules,
                    self.tokens == old(self).tokens,
                    self.events == old(self).events,
                    self.largest_generation == old(self).largest_generation,
                    self.atoms_index == old(self).atoms_index,
                    self.matcher == old(self).matcher,
                    self.unindexed == old(self).unindexed,
                    self.spec == old(self).spec,
                    self.termination_reason == old(self).termination_reason,
                decreases e.len() - j,
            {
                let a = e[j];
                let ghost st: NamingState = (names@, self.next_atom);
                let ghost row0 = row@;
                let ghost next0 = self.next_atom;
                proof {
                    assert(ei.take(j + 1).drop_last() =~= ei.take(j as int));
                    assert(ei.take(j + 1).last() == a);
                }
                if a < 0 {
                    match names.get(a) {
                        Some(n) => {
                            row.push(n);
                        },
                        None => {
                            if self.next_atom == Atom::MAX {
                                proof {
                                    assert(naming_at(start, es, i as int, j + 1) is None);
                                    lemma_after_edges_none(es, i as int, j + 1, start);
                                }
                                return Err(Error::AtomCountOverflow);
                            }
                            let n = self.next_atom;
                            names.insert(a, n);
                            self.next_atom = n + 1;
                            row.push(n);
                        },
                    }
                } else {
                    row.push(a);
                }
                proof {
                    assert(naming_at(start, es, i as int, j + 1) == Some((names@, self.next_atom)));
                    assert(row@[j as int] == name_of(st, ei[j as int]));
                    assert forall|x: Atom| start <= x < self.next_atom implies crate::rule::edges_contain(crate::rule::edges_of(result), x)
                        || #[trigger] row@.contains(x) by {
                        if x < next0 {
                            if row0.contains(x) {
                                let jj = choose|jj: int| 0 <= jj < row0.len() && row0[jj] == x;
                                assert(row@[jj] == row0[jj]);
                            }
                        } else {
                            assert(row@[j as int] == x);
                        }
                    }
                }
                j = j + 1;
            }
            proof {
                assert(ei.take(e.len() as int) =~= ei);
                assert(es.take(i + 1).drop_last() =~= es.take(i as int));
                assert(es.take(i + 1).last() == ei);
                assert(after_edges(st0, es.take(i + 1)) == Some((names@, self.next_atom)));
            }
            let ghost res0 = result@;
            let ghost rowv = row@;
            result.push(row);
            proof {
                let ghost e0 = res0.map_values(|e: Vec<Atom>| e@);
                let ghost e1 = crate::rule::edges_of(result);
                assert forall|x: Atom| start <= x < self.next_atom implies #[trigger] crate::rule::edges_contain(e1, x) by {
                    if crate::rule::edges_contain(e0, x) {
                        let (ii, jj) = choose|ii: int, jj: int| 0 <= ii < e0.len() && 0 <= jj < e0[ii].len() && e0[ii][jj] == x;
                        assert(e1[ii] == e0[ii]);
                    } else {
                        assert(rowv.contains(x));
                        let jj = choose|jj: int| 0 <= jj < rowv.len() && rowv[jj] == x;
                        assert(e1[i as int] == rowv);
                        assert(e1[i as int][jj] == x);
                    }
                }
            }
            i = i + 1;
        }
        proof {
            assert(es.take(vectors.len() as int) =~= es);
            let fin = after_edges(st0, es);
            assert(fin == Some((names@, self.next_atom)));
            let out = named_edges(start, es)->Some_0;
            assert forall|ii: int| 0 <= ii < es.len() implies #[trigger] crate::rule::edges_of(result)[ii] == out.0[ii] by {
                assert(result@[ii]@ =~= out.0[ii]);
            }
            assert(crate::rule::edges_of(result) =~= out.0);
        }
        Ok(result)
    }
}


/// The binding built by unifying the first `k` input patterns with the
/// given atoms in turn, or `None` if one of them fails.
pub open spec fn bind_inputs(pats: Seq<Seq<Atom>>, atoms: Seq<Seq<Atom>>, k: int) -> Option<Map<Atom, Atom>>
    decreases k,
{
    if k <= 0 {
        Some(Map::empty())
    } else {
        match bind_inputs(pats, atoms, k - 1) {
            None => None,
            Some(s) => crate::pattern::unify_spec(s, pats[k - 1], atoms[k - 1]),
        }
    }
}

/// The atoms of the given tokens.
pub open spec fn input_atoms(tokens: Seq<Token>, ins: Seq<TokenId>) -> Seq<Seq<Atom>> {
    ins.map_values(|t: TokenId| tokens[t as int].atoms@)
}

/// A rule's outputs under the binding its inputs give for the atoms; atoms
/// of variables that occur only in the outputs stay negative (anonymous).
pub open spec fn instantiated_outputs(rule: Rule, atoms: Seq<Seq<Atom>>) -> Seq<Seq<Atom>> {
    match bind_inputs(rule.spec_inputs(), atoms, rule.spec_inputs().len() as int) {
        Some(b) => crate::pattern::apply_edges(b, rule.spec_outputs()),
        None => rule.spec_outputs(),
    }
}

/// When some binding `t` turns every pattern into its atoms, unifying in
/// turn succeeds with a proper binding that `t` extends.
proof fn lemma_bind_inputs(pats: Seq<Seq<Atom>>, atoms: Seq<Seq<Atom>>, t: Map<Atom, Atom>, k: int)
    requires
        pats.len() == atoms.len(),
        0 <= k <= pats.len(),
        forall|q: int| 0 <= q < atoms.len() ==> crate::pattern::all_positive(#[trigger] atoms[q]),
        forall|q: int| 0 <= q < pats.len() ==> crate::pattern::apply_edge(t, #[trigger] pats[q]) == atoms[q],
    ensures
        bind_inputs(pats, atoms, k) is Some,
        crate::pattern::proper_binding(bind_inputs(pats, atoms, k)->Some_0),
        crate::pattern::extends(bind_inputs(pats, atoms, k)->Some_0, t),
    decreases k,
{
    if k > 0 {
        lemma_bind_inputs(pats, atoms, t, k - 1);
        let s = bind_inputs(pats, atoms, k - 1)->Some_0;
        let p = pats[k - 1];
        let a = atoms[k - 1];
        assert(crate::pattern::apply_edge(t, p) == a);
        assert forall|j: int| 0 <= j < p.len() implies crate::pattern::apply_atom(t, #[trigger] p[j]) == a[j] by {
            assert(crate::pattern::apply_edge(t, p)[j] == a[j]);
        }
        crate::pattern::lemma_unify_complete(s, t, p, a, 0);
        crate::pattern::lemma_unify_sound(s, p, a, 0);
    }
}

/// A binding for all inputs gives one for every prefix.
proof fn lemma_bind_prefix(pats: Seq<Seq<Atom>>, atoms: Seq<Seq<Atom>>, k: int, n: int)
    requires
        0 <= k <= n,
        bind_inputs(pats, atoms, n) is Some,
    ensures
        bind_inputs(pats, atoms, k) is Some,
    decreases n - k,
{
    if k < n {
        lemma_bind_prefix(pats, atoms, k + 1, n);
    }
}

/// Instantiates a rule's outputs for the given input tokens: builds one
/// variable binding across all input edges, then substitutes it into the
/// outputs. Output-only variables are left negative.
fn output_atoms_vectors(rule: &Rule, ins: &Vec<TokenId>, tokens: &Vec<Token>) -> (r: Vec<Vec<Atom>>)
    requires
        ins.len() == rule.inputs.len(),
        forall|k: int| 0 <= k < ins.len() ==> #[trigger] ins@[k] < tokens.len(),
        crate::token::positive_tokens(crate::token::atoms_seq(tokens@)),
        bind_inputs(rule.spec_inputs(), input_atoms(tokens@, ins@), rule.spec_inputs().len() as int) is Some,
    ensures
        crate::rule::edges_of(r) == instantiated_outputs(*rule, input_atoms(tokens@, ins@)),
{
    let ghost pats = rule.spec_inputs();
    let ghost atoms = input_atoms(tokens@, ins@);
    let ghost n = pats.len() as int;
    let mut map = crate::pattern::Binding::new();
    let mut k: usize = 0;
    while k < ins.len()
        invariant
            k <= ins.len(),
            ins.len() == rule.inputs.len(),
            pats == rule.spec_inputs(),
            atoms == input_atoms(tokens@, ins@),
            n == pats.len(),
            forall|q: int| 0 <= q < ins.len() ==> #[trigger] ins@[q] < tokens.len(),
            crate::token::positive_tokens(crate::token::atoms_seq(tokens@)),
            bind_inputs(pats, atoms, n) is Some,
            map.wf(),
            crate::pattern::proper_binding(map@),
            bind_inputs(pats, atoms, k as int) == Some(map@),
        decreases ins.len() - k,
    {
        let t = ins[k];
        proof {
            lemma_bind_prefix(pats, atoms, k + 1, n);
            assert(tokens@[t as int].atoms@ == crate::token::atoms_seq(tokens@)[t as int]);
            assert(atoms[k as int] == tokens@[t as int].atoms@);
            assert(pats[k as int] == rule.inputs@[k as int]@);
        }
        let _ = crate::pattern::unify_edge(&rule.inputs[k], &tokens[t].atoms, &mut map);
        k = k + 1;
    }
    crate::pattern::substitute(&rule.outputs, &map)
}


/// The current state's tokens other than `ins`, in creation order.
pub open spec fn kept_state(tokens: Seq<Token>, ins: Seq<TokenId>) -> Seq<Seq<Atom>>
    decreases tokens.len(),
{
    if tokens.len() == 0 {
        Seq::empty()
    } else {
        let rest = kept_state(tokens.drop_last(), ins);
        if alive(tokens.last()) && !ins.contains((tokens.len() - 1) as TokenId) {
            rest.push(tokens.last().atoms@)
        } else {
            rest
        }
    }
}

/// Number of edges holding the atom `a` (its degree).
pub open spec fn degree(es: Seq<Seq<Atom>>, a: Atom) -> nat
    decreases es.len(),
{
    if es.len() == 0 {
        0
    } else {
        degree(es.drop_last(), a) + if es.last().contains(a) {
            1nat
        } else {
            0nat
        }
    }
}

/// The vertex limits' verdict on replacing the consumed tokens' edges by
/// `outputs`: some atom of either exceeds the degree limit, or the new state
/// holds too many distinct atoms. Not checked when both limits are absent.
pub open spec fn atom_limit_reason(
    max_vertices: i64,
    max_degree: i64,
    consumed: Seq<Seq<Atom>>,
    outputs: Seq<Seq<Atom>>,
    new_state: Seq<Seq<Atom>>,
) -> TerminationReason {
    if max_vertices == DISABLED && max_degree == DISABLED {
        TerminationReason::NotTerminated
    } else if exists|a: Atom|
        crate::rule::edges_contain(consumed + outputs, a) && #[trigger] degree(new_state, a) > max_degree {
        TerminationReason::MaxVertexDegree
    } else if atoms_of(new_state).len() > max_vertices {
        TerminationReason::MaxVertices
    } else {
        TerminationReason::NotTerminated
    }
}

/// The edge limit's verdict on a new state of `new_count` tokens.
pub open spec fn edge_limit_reason(max_edges: i64, new_count: int) -> TerminationReason {
    if max_edges != DISABLED && new_count > max_edges {
        TerminationReason::MaxEdges
    } else {
        TerminationReason::NotTerminated
    }
}

/// Whether `t` is one of `ids`.
pub(crate) fn ids_contain(ids: &Vec<TokenId>, t: TokenId) -> (r: bool)
    ensures
        r == ids@.contains(t),
{
    let mut k: usize = 0;
    while k < ids.len()
        invariant
            k <= ids.len(),
            forall|q: int| 0 <= q < k ==> ids@[q] != t,
        decreases ids.len() - k,
    {
        if ids[k] == t {
            assert(ids@[k as int] == t);
            return true;
        }
        k = k + 1;
    }
    false
}

/// Appends copies of the edges of `src`.
fn append_edges(dst: &mut Vec<Vec<Atom>>, src: &Vec<Vec<Atom>>)
    ensures
        crate::rule::edges_of(*final(dst)) == crate::rule::edges_of(*old(dst)) + crate::rule::edges_of(*src),
{
    let ghost d0 = crate::rule::edges_of(*dst);
    let mut i: usize = 0;
    while i < src.len()
        invariant
            i <= src.len(),
            crate::rule::edges_of(*dst) == d0 + crate::rule::edges_of(*src).take(i as int),
        decreases src.len() - i,
    {
        let e = src[i].clone();
        let ghost prev = crate::rule::edges_of(*dst);
        proof {
            assert(e@ == src@[i as int]@);
        }
        dst.push(e);
        proof {
            assert(crate::rule::edges_of(*dst) =~= prev.push(e@));
            assert(crate::rule::edges_of(*src).take(i + 1) =~= crate::rule::edges_of(*src).take(i as int).push(e@));
            assert(prev.push(e@) =~= d0 + crate::rule::edges_of(*src).take(i + 1));
        }
        i = i + 1;
    }
    assert(crate::rule::edges_of(*src).take(src.len() as int) =~= crate::rule::edges_of(*src));
}

/// Number of edges holding the atom `a`.
fn edge_degree(es: &Vec<Vec<Atom>>, a: Atom) -> (r: usize)
    ensures
        r == degree(crate::rule::edges_of(*es), a),
{
    let ghost s = crate::rule::edges_of(*es);
    let mut n: usize = 0;
    let mut i: usize = 0;
    while i < es.len()
        invariant
            i <= es.len(),
            s == crate::rule::edges_of(*es),
            n == degree(s.take(i as int), a),
            n <= i,
        decreases es.len() - i,
    {
        proof {
            assert(s.take(i + 1).drop_last() =~= s.take(i as int));
        }
        let mut j: usize = 0;
        let mut has = false;
        let e = &es[i];
        while j < e.len()
            invariant
                j <= e.len(),
                e@ == s[i as int],
                i < es.len(),
                has == s[i as int].take(j as int).contains(a),
            decreases e.len() - j,
        {
            proof {
                assert(s[i as int].take(j + 1) =~= s[i as int].take(j as int).push(e@[j as int]));
            }
            if e[j] == a {
                has = true;
            }
            j = j + 1;
        }
        proof {
            assert(s[i as int].take(e.len() as int) =~= s[i as int]);
        }
        if has {
            n = n + 1;
        }
        i = i + 1;
    }
    proof {
        assert(s.take(es.len() as int) =~= s);
    }
    n
}

/// Number of distinct atoms in the edges.
fn distinct_atom_count(es: &Vec<Vec<Atom>>) -> (r: usize)
    ensures
        r == atoms_of(crate::rule::edges_of(*es)).len(),
{
    let ghost s = crate::rule::edges_of(*es);
    let mut seen: Vec<Atom> = Vec::new();
    let mut i: usize = 0;
    while i < es.len()
        invariant
            i <= es.len(),
            s == crate::rule::edges_of(*es),
            seen@.no_duplicates(),
            forall|a: Atom| #[trigger] seen@.contains(a) <==> crate::rule::edges_contain(s.take(i as int), a),
        decreases es.len() - i,
    {
        let e = &es[i];
        let mut j: usize = 0;
        while j < e.len()
            invariant
                j <= e.len(),
                i < es.len(),
                e@ == s[i as int],
                s == crate::rule::edges_of(*es),
                seen@.no_duplicates(),
                forall|a: Atom| #[trigger] seen@.contains(a) <==> (crate::rule::edges_contain(s.take(i as int), a)
                    || s[i as int].take(j as int).contains(a)),
            decreases e.len() - j,
        {
            let a = e[j];
            proof {
                assert(s[i as int].take(j + 1) =~= s[i as int].take(j as int).push(a));
            }
            let mut k: usize = 0;
            let mut found = false;
            while k < seen.len()
                invariant
                    k <= seen.len(),
                    found == seen@.take(k as int).contains(a),
                decreases seen.len() - k,
            {
                proof {
                    assert(seen@.take(k + 1) =~= seen@.take(k as int).push(seen@[k as int]));
                }
                if seen[k] == a {
                    found = true;
                }
                k = k + 1;
            }
            proof {
                assert(seen@.take(seen.len() as int) =~= seen@);
            }
            if !found {
                seen.push(a);
            }
            j = j + 1;
        }
        proof {
            assert(s[i as int].take(e.len() as int) =~= s[i as int]);
            assert forall|a: Atom| #[trigger] crate::rule::edges_contain(s.take(i + 1), a) <==> (crate::rule::edges_contain(s.take(i as int), a)
                || s[i as int].contains(a)) by {
                if crate::rule::edges_contain(s.take(i + 1), a) {
                    let (p, q) = choose|p: int, q: int| 0 <= p < s.take(i + 1).len() && 0 <= q < s.take(i + 1)[p].len() && #[trigger] s.take(i + 1)[p][q] == a;
                    if p < i {
                        assert(s.take(i as int)[p][q] == a);
                    } else {
                        assert(s[i as int][q] == a);
                    }
                }
                if s[i as int].contains(a) {
                    let q = choose|q: int| 0 <= q < s[i as int].len() && #[trigger] s[i as int][q] == a;
                    assert(s.take(i + 1)[i as int][q] == a);
                }
                if crate::rule::edges_contain(s.take(i as int), a) {
                    let (p, q) = choose|p: int, q: int| 0 <= p < s.take(i as int).len() && 0 <= q < s.take(i as int)[p].len() && #[trigger] s.take(i as int)[p][q] == a;
                    assert(s.take(i + 1)[p][q] == a);
                }
            }
        }
        i = i + 1;
    }
    proof {
        assert(s.take(es.len() as int) =~= s);
        assert(seen@.to_set() =~= atoms_of(s));
        seen@.unique_seq_to_set();
    }
    seen.len()
}

impl HypergraphSystem {
    /// The current state's tokens other than `ins`.
    fn kept_edges(&self, ins: &Vec<TokenId>) -> (r: Vec<Vec<Atom>>)
        ensures
            crate::rule::edges_of(r) == kept_state(self.tokens@, ins@),
    {
        let mut out: Vec<Vec<Atom>> = Vec::new();
        let mut i: usize = 0;
        while i < self.tokens.len()
            invariant
                i <= self.tokens.len(),
                crate::rule::edges_of(out) == kept_state(self.tokens@.take(i as int), ins@),
            decreases self.tokens.len() - i,
        {
            proof {
                assert(self.tokens@.take(i + 1).drop_last() =~= self.tokens@.take(i as int));
            }
            if self.tokens[i].destroyer_event.is_none() && !ids_contain(ins, i) {
                let a = self.tokens[i].atoms.clone();
                out.push(a);
                proof {
                    assert(crate::rule::edges_of(out) =~= kept_state(self.tokens@.take(i as int), ins@).push(a@));
                }
            }
            i = i + 1;
        }
        proof {
            assert(self.tokens@.take(self.tokens.len() as int) =~= self.tokens@);
        }
        out
    }

    /// Whether replacing the consumed tokens `ins` by `outputs` would break
    /// the vertex limits (see [`atom_limit_reason`]).
    fn will_exceed_atom_limits(&self, ins: &Vec<TokenId>, outputs: &Vec<Vec<Atom>>) -> (r: TerminationReason)
        requires
            forall|k: int| 0 <= k < ins.len() ==> #[trigger] ins@[k] < self.tokens.len(),
            self.spec.max_vertex_degree >= 0,
        ensures
            r == atom_limit_reason(
                self.spec.max_vertices,
                self.spec.max_vertex_degree,
                input_atoms(self.tokens@, ins@),
                crate::rule::edges_of(*outputs),
                kept_state(self.tokens@, ins@) + crate::rule::edges_of(*outputs),
            ),
    {
        if self.spec.max_vertices == DISABLED && self.spec.max_vertex_degree == DISABLED {
            return TerminationReason::NotTerminated;
        }
        let mut new_state = self.kept_edges(ins);
        append_edges(&mut new_state, outputs);
        let ghost ns = crate::rule::edges_of(new_state);
        let mut touched: Vec<Vec<Atom>> = Vec::new();
        let mut k: usize = 0;
        while k < ins.len()
            invariant
                k <= ins.len(),
                forall|q: int| 0 <= q < ins.len() ==> #[trigger] ins@[q] < self.tokens.len(),
                crate::rule::edges_of(touched) == input_atoms(self.tokens@, ins@).take(k as int),
            decreases ins.len() - k,
        {
            let a = self.tokens[ins[k]].atoms.clone();
            let ghost prev = crate::rule::edges_of(touched);
            proof {
                assert(a@ == self.tokens@[ins@[k as int] as int].atoms@);
            }
            touched.push(a);
            proof {
                assert(crate::rule::edges_of(touched) =~= prev.push(a@));
                assert(input_atoms(self.tokens@, ins@).take(k + 1) =~= input_atoms(self.tokens@, ins@).take(k as int).push(a@));
            }
            k = k + 1;
        }
        proof {
            assert(input_atoms(self.tokens@, ins@).take(ins.len() as int) =~= input_atoms(self.tokens@, ins@));
        }
        append_edges(&mut touched, outputs);
        let ghost tc = crate::rule::edges_of(touched);
        let mut i: usize = 0;
        while i < touched.len()
            invariant
                i <= touched.len(),
                tc == crate::rule::edges_of(touched),
                ns == crate::rule::edges_of(new_state),
                tc == input_atoms(self.tokens@, ins@) + crate::rule::edges_of(*outputs),
                ns == kept_state(self.tokens@, ins@) + crate::rule::edges_of(*outputs),
                !(self.spec.max_vertices == DISABLED && self.spec.max_vertex_degree == DISABLED),
                self.spec.max_vertex_degree >= 0,
                forall|p: int, q: int| 0 <= p < i && 0 <= q < tc[p].len() ==> degree(ns, #[trigger] tc[p][q]) <= self.spec.max_vertex_degree,
            decreases touched.len() - i,
        {
            let e = &touched[i];
            let mut j: usize = 0;
            while j < e.len()
                invariant
                    j <= e.len(),
                    i < touched.len(),
                    e@ == tc[i as int],
                    tc == crate::rule::edges_of(touched),
                    ns == crate::rule::edges_of(new_state),
                    tc == input_atoms(self.tokens@, ins@) + crate::rule::edges_of(*outputs),
                    ns == kept_state(self.tokens@, ins@) + crate::rule::edges_of(*outputs),
                    !(self.spec.max_vertices == DISABLED && self.spec.max_vertex_degree == DISABLED),
                    self.spec.max_vertex_degree >= 0,
                    forall|p: int, q: int| 0 <= p < i && 0 <= q < tc[p].len() ==> degree(ns, #[trigger] tc[p][q]) <= self.spec.max_vertex_degree,
                    forall|q: int| 0 <= q < j ==> degree(ns, #[trigger] tc[i as int][q]) <= self.spec.max_vertex_degree,
                decreases e.len() - j,
            {
                let d = edge_degree(&new_state, e[j]);
                if d as u64 > self.spec.max_vertex_degree as u64 {
                    proof {
                        assert(crate::rule::edges_contain(tc, tc[i as int][j as int]));
                        assert(degree(ns, tc[i as int][j as int]) > self.spec.max_vertex_degree);
                    }
                    return TerminationReason::MaxVertexDegree;
                }
                j = j + 1;
            }
            i = i + 1;
        }
        proof {
            assert forall|a: Atom| crate::rule::edges_contain(tc, a) implies #[trigger] degree(ns, a) <= self.spec.max_vertex_degree by {
                let (p, q) = choose|p: int, q: int| 0 <= p < tc.len() && 0 <= q < tc[p].len() && #[trigger] tc[p][q] == a;
            }
        }
        let count = distinct_atom_count(&new_state);
        if count as i128 > self.spec.max_vertices as i128 {
            TerminationReason::MaxVertices
        } else {
            TerminationReason::NotTerminated
        }
    }
}


/// The generation of an event consuming `ins`: one more than the largest
/// generation among them (0 for no input).
pub open spec fn inputs_generation(tokens: Seq<Token>, ins: Seq<TokenId>) -> int
    decreases ins.len(),
{
    if ins.len() == 0 {
        0
    } else {
        let m = inputs_generation(tokens, ins.drop_last());
        let g = tokens[ins.last() as int].generation + 1;
        if g > m {
            g
        } else {
            m
        }
    }
}

/// A valid match stays valid under another index that holds its tokens.
proof fn lemma_valid_reindexed(
    rules: Seq<Rule>,
    tokens: Seq<Token>,
    idx1: Set<TokenId>,
    idx2: Set<TokenId>,
    x: crate::ordering::MatchSpec,
)
    requires
        valid_matches(rules, tokens, idx1).contains(x),
        forall|q: int| 0 <= q < x.1.len() ==> idx2.contains(#[trigger] x.1[q]),
    ensures
        valid_matches(rules, tokens, idx2).contains(x),
{
    let pa = crate::search::rule_patterns(rules);
    let ta = crate::token::atoms_seq(tokens);
    let pats = pa[x.0 as int];
    let none = crate::search::nothing_chosen(pats.len());
    let t = choose|t: Map<Atom, Atom>| #[trigger] crate::search::binds(t, pats, none, ta, x.1);
    assert(crate::search::binds(t, pats, none, ta, x.1));
    assert(crate::search::is_completion(pats, none, ta, idx2, x.1));
}

/// A valid match stays valid when tokens are added and consumed tokens'
/// records change, as long as the atoms of the tokens it uses stay.
proof fn lemma_valid_retokened(
    rules: Seq<Rule>,
    tokens1: Seq<Token>,
    tokens2: Seq<Token>,
    idx: Set<TokenId>,
    x: crate::ordering::MatchSpec,
)
    requires
        valid_matches(rules, tokens1, idx).contains(x) || valid_matches(rules, tokens2, idx).contains(x),
        forall|t: TokenId| #[trigger] idx.contains(t) ==> t < tokens1.len() && t < tokens2.len() && tokens1[t as int].atoms@
            == tokens2[t as int].atoms@,
    ensures
        valid_matches(rules, tokens1, idx).contains(x),
        valid_matches(rules, tokens2, idx).contains(x),
{
    let pa = crate::search::rule_patterns(rules);
    let ta1 = crate::token::atoms_seq(tokens1);
    let ta2 = crate::token::atoms_seq(tokens2);
    let pats = pa[x.0 as int];
    let none = crate::search::nothing_chosen(pats.len());
    if valid_matches(rules, tokens1, idx).contains(x) {
        let t = choose|t: Map<Atom, Atom>| #[trigger] crate::search::binds(t, pats, none, ta1, x.1);
        assert forall|q: int| 0 <= q < pats.len() && none[q] is None implies #[trigger] crate::pattern::apply_edge(t, pats[q])
            == ta2[x.1[q] as int] by {
            assert(idx.contains(x.1[q]));
            assert(crate::pattern::apply_edge(t, pats[q]) == ta1[x.1[q] as int]);
        }
        assert(crate::search::binds(t, pats, none, ta2, x.1));
        assert(crate::search::is_completion(pats, none, ta2, idx, x.1));
    } else {
        let t = choose|t: Map<Atom, Atom>| #[trigger] crate::search::binds(t, pats, none, ta2, x.1);
        assert forall|q: int| 0 <= q < pats.len() && none[q] is None implies #[trigger] crate::pattern::apply_edge(t, pats[q])
            == ta1[x.1[q] as int] by {
            assert(idx.contains(x.1[q]));
            assert(crate::pattern::apply_edge(t, pats[q]) == ta2[x.1[q] as int]);
        }
        assert(crate::search::binds(t, pats, none, ta1, x.1));
        assert(crate::search::is_completion(pats, none, ta1, idx, x.1));
    }
}

impl HypergraphSystem {
    /// The limits in force: events, generations, vertices, vertex degree, edges.
    pub closed spec fn limits(&self) -> (i64, i64, i64, i64, i64) {
        (self.spec.max_events, self.spec.max_generations, self.spec.max_vertices, self.spec.max_vertex_degree, self.spec.max_edges)
    }

    /// Number of tokens of the current state other than `ins`.
    fn kept_count(&self, ins: &Vec<TokenId>) -> (r: usize)
        ensures
            r == kept_state(self.tokens@, ins@).len(),
    {
        let mut n: usize = 0;
        let mut i: usize = 0;
        while i < self.tokens.len()
            invariant
                i <= self.tokens.len(),
                n == kept_state(self.tokens@.take(i as int), ins@).len(),
                n <= i,
            decreases self.tokens.len() - i,
        {
            proof {
                assert(self.tokens@.take(i + 1).drop_last() =~= self.tokens@.take(i as int));
            }
            if self.tokens[i].destroyer_event.is_none() && !ids_contain(ins, i) {
                n = n + 1;
            }
            i = i + 1;
        }
        proof {
            assert(self.tokens@.take(self.tokens.len() as int) =~= self.tokens@);
        }
        n
    }

    /// Whether replacing the consumed tokens `ins` by `outputs` would break
    /// the edge limit.
    fn will_exceed_token_limit(&self, ins: &Vec<TokenId>, outputs: &Vec<Vec<Atom>>) -> (r: TerminationReason)
        ensures
            r == edge_limit_reason(self.spec.max_edges, kept_state(self.tokens@, ins@).len() + outputs.len()),
    {
        if self.spec.max_edges == DISABLED {
            return TerminationReason::NotTerminated;
        }
        let kept = self.kept_count(ins);
        if kept as i128 + outputs.len() as i128 > self.spec.max_edges as i128 {
            TerminationReason::MaxEdges
        } else {
            TerminationReason::NotTerminated
        }
    }

    /// The generation of an event consuming `ins`.
    fn event_generation(&self, ins: &Vec<TokenId>, bound: i64) -> (g: Generation)
        requires
            bound >= 0,
            forall|k: int| 0 <= k < ins.len() ==> #[trigger] ins@[k] < self.tokens.len(),
            forall|k: int| 0 <= k < ins.len() ==> 0 <= #[trigger] self.tokens@[ins@[k] as int].generation < bound,
        ensures
            g == inputs_generation(self.tokens@, ins@),
            0 <= g <= bound,
    {
        let mut g: Generation = 0;
        let mut k: usize = 0;
        while k < ins.len()
            invariant
                k <= ins.len(),
                forall|q: int| 0 <= q < ins.len() ==> #[trigger] ins@[q] < self.tokens.len(),
                forall|q: int| 0 <= q < ins.len() ==> 0 <= #[trigger] self.tokens@[ins@[q] as int].generation < bound,
                g == inputs_generation(self.tokens@, ins@.take(k as int)),
                0 <= g <= bound,
            decreases ins.len() - k,
        {
            proof {
                assert(ins@.take(k + 1).drop_last() =~= ins@.take(k as int));
                assert(self.tokens@[ins@[k as int] as int].generation < bound);
            }
            let c = self.tokens[ins[k]].generation + 1;
            if c > g {
                g = c;
            }
            k = k + 1;
        }
        proof {
            assert(ins@.take(ins.len() as int) =~= ins@);
        }
        g
    }

    /// Makes pending tokens visible to the matcher: indexes them and adds
    /// every match that uses one of them.
    fn index_new_tokens(&mut self) -> (r: Result<(), Error>)
        requires
            old(self).wf(),
        ensures
            final(self).wf(),
            final(self).rules == old(self).rules,
            final(self).tokens == old(self).tokens,
            final(self).events == old(self).events,
            final(self).largest_generation == old(self).largest_generation,
            final(self).next_atom == old(self).next_atom,
            final(self).spec == old(self).spec,
            final(self).termination_reason == old(self).termination_reason,
            final(self).matchable() == old(self).matchable(),
            final(self).matcher.chain() == old(self).matcher.chain(),
            final(self).matcher.ends_with_any() == old(self).matcher.ends_with_any(),
            final(self).matcher.rng_state() == old(self).matcher.rng_state(),
            final(self).matcher.rng_inc() == old(self).matcher.rng_inc(),
            r is Ok ==> final(self).unindexed@.len() == 0 && final(self).matcher.matches() == valid_matches(
                final(self).rules@,
                final(self).tokens@,
                old(self).matchable(),
            ),
            r matches Err(e) ==> e is DisconnectedInputs,
            r is Err ==> !crate::search::rules_linked(old(self).rules@),
            r is Err <==> index_sticks(*old(self)),
    {
        if self.unindexed.len() == 0 {
            proof {
                let idx = self.atoms_index.indexed();
                assert(self.unindexed@.to_set() =~= Set::<TokenId>::empty());
                assert(self.matchable() =~= idx);
                assert forall|x: crate::ordering::MatchSpec| #[trigger] valid_matches(self.rules@, self.tokens@, idx).contains(x) implies self.matcher.matches().contains(x) by {
                    assert(!crate::matcher::involves(x, self.unindexed@));
                }
                assert(self.matcher.matches() =~= valid_matches(self.rules@, self.tokens@, idx));
                assert(self.pending() =~= Set::<TokenId>::empty());
            }
            return Ok(());
        }
        let ghost idx0 = self.atoms_index.indexed();
        let ghost m0 = self.matcher.matches();
        let ghost u = self.unindexed@;
        proof {
            assert forall|k: int| 0 <= k < self.unindexed.len() implies #[trigger] self.unindexed@[k] < self.tokens.len() by {}
        }
        self.atoms_index.add_tokens(&self.unindexed, &self.tokens);
        let ghost idx1 = self.atoms_index.indexed();
        proof {
            assert(idx1 == self.matchable());
            assert forall|k: int| 0 <= k < self.unindexed.len() implies self.atoms_index.indexed().contains(#[trigger] self.unindexed@[k]) by {
                assert(u.to_set().contains(u[k]));
            }
        }
        let r = self.matcher.add_matches_involving_tokens(&self.unindexed, &self.rules, &self.tokens, &self.atoms_index);
        proof {
            lemma_stick_set_seq(crate::search::rule_patterns(self.rules@), crate::token::atoms_seq(self.tokens@), idx1, u);
        }
        let ghost target = crate::search::new_matches(
            crate::search::rule_patterns(self.rules@),
            crate::token::atoms_seq(self.tokens@),
            idx1,
            u,
        );
        proof {
            assert forall|t: TokenId| #[trigger] idx1.contains(t) implies t < self.tokens.len() && alive(self.tokens@[t as int]) by {
                if !idx0.contains(t) {
                    let k = choose|k: int| 0 <= k < u.len() && u[k] == t;
                    assert(self.unindexed@[k] == t);
                }
            }
            assert forall|x: crate::ordering::MatchSpec| #[trigger] target.contains(x) implies valid_matches(self.rules@, self.tokens@, idx1).contains(x) by {}
            assert forall|x: crate::ordering::MatchSpec| #[trigger] m0.contains(x) implies valid_matches(self.rules@, self.tokens@, idx1).contains(x) by {
                assert(valid_matches(self.rules@, self.tokens@, idx0).contains(x));
                assert forall|q: int| 0 <= q < x.1.len() implies idx1.contains(#[trigger] x.1[q]) by {
                    let pa = crate::search::rule_patterns(self.rules@);
                    assert(crate::search::valid_match(pa, crate::token::atoms_seq(self.tokens@), idx0, x));
                    assert(idx0.contains(x.1[q]));
                }
                lemma_valid_reindexed(self.rules@, self.tokens@, idx0, idx1, x);
            }
            assert(self.matcher.matches() <= valid_matches(self.rules@, self.tokens@, idx1)) by {
                assert forall|x: crate::ordering::MatchSpec| #[trigger] self.matcher.matches().contains(x) implies valid_matches(self.rules@, self.tokens@, idx1).contains(x) by {
                    assert((m0 + target).contains(x));
                }
            }
        }
        match r {
            Ok(()) => {
                self.unindexed.clear();
                proof {
                    assert forall|x: crate::ordering::MatchSpec| #[trigger] valid_matches(self.rules@, self.tokens@, idx1).contains(x) implies self.matcher.matches().contains(x) by {
                        if crate::matcher::involves(x, u) {
                            assert(target.contains(x));
                        } else {
                            assert forall|q: int| 0 <= q < x.1.len() implies idx0.contains(#[trigger] x.1[q]) by {
                                let pa = crate::search::rule_patterns(self.rules@);
                                assert(crate::search::valid_match(pa, crate::token::atoms_seq(self.tokens@), idx1, x));
                                assert(idx1.contains(x.1[q]));
                                if !idx0.contains(x.1[q]) {
                                    assert(u.to_set().contains(x.1[q]));
                                    assert(u.contains(x.1[q]));
                                }
                            }
                            lemma_valid_reindexed(self.rules@, self.tokens@, idx1, idx0, x);
                            assert(m0.contains(x));
                        }
                    }
                    assert(self.matcher.matches() =~= valid_matches(self.rules@, self.tokens@, idx1));
                    assert(self.unindexed@.to_set() =~= Set::<TokenId>::empty());
                    assert(self.matchable() =~= idx1);
                }
                Ok(())
            },
            Err(e) => {
                proof {
                    assert forall|x: crate::ordering::MatchSpec| #[trigger] valid_matches(self.rules@, self.tokens@, idx1).contains(x)
                        && !crate::matcher::involves(x, self.unindexed@) implies self.matcher.matches().contains(x) by {
                        assert forall|q: int| 0 <= q < x.1.len() implies idx0.contains(#[trigger] x.1[q]) by {
                            let pa = crate::search::rule_patterns(self.rules@);
                            assert(crate::search::valid_match(pa, crate::token::atoms_seq(self.tokens@), idx1, x));
                            assert(idx1.contains(x.1[q]));
                            if !idx0.contains(x.1[q]) {
                                assert(u.to_set().contains(x.1[q]));
                                assert(u.contains(x.1[q]));
                            }
                        }
                        lemma_valid_reindexed(self.rules@, self.tokens@, idx1, idx0, x);
                        assert(m0.contains(x));
                    }
                }
                Err(e)
            },
        }
    }
}


/// Unification only binds variables to atoms it is given.
proof fn lemma_unify_values(s: Map<Atom, Atom>, p: Seq<Atom>, a: Seq<Atom>, i: int, bound: int)
    requires
        forall|k: Atom| #[trigger] s.dom().contains(k) ==> s[k] < bound,
        forall|j: int| 0 <= j < a.len() ==> #[trigger] a[j] < bound,
        unify_from_ok(s, p, a, i),
    ensures
        forall|k: Atom| #[trigger] crate::pattern::unify_from(s, p, a, i)->Some_0.dom().contains(k) ==> crate::pattern::unify_from(
            s,
            p,
            a,
            i,
        )->Some_0[k] < bound,
    decreases p.len() - i,
{
    if !(i < 0 || i >= p.len() || i >= a.len()) {
        let c = crate::pattern::apply_atom(s, p[i]);
        if c < 0 {
            lemma_unify_values(s.insert(c, a[i]), p, a, i + 1, bound);
        } else if c == a[i] {
            lemma_unify_values(s, p, a, i + 1, bound);
        }
    }
}

/// Unification from position `i` succeeds.
pub open spec fn unify_from_ok(s: Map<Atom, Atom>, p: Seq<Atom>, a: Seq<Atom>, i: int) -> bool {
    crate::pattern::unify_from(s, p, a, i) is Some
}

/// The binding of a match's inputs only uses atoms of the input tokens.
pub proof fn lemma_bind_values(pats: Seq<Seq<Atom>>, atoms: Seq<Seq<Atom>>, k: int, bound: int)
    requires
        0 <= k <= pats.len(),
        pats.len() == atoms.len(),
        bind_inputs(pats, atoms, k) is Some,
        atoms_below(atoms, bound),
    ensures
        forall|v: Atom| #[trigger] bind_inputs(pats, atoms, k)->Some_0.dom().contains(v) ==> bind_inputs(pats, atoms, k)->Some_0[v]
            < bound,
    decreases k,
{
    if k > 0 {
        lemma_bind_prefix(pats, atoms, k - 1, k);
        lemma_bind_values(pats, atoms, k - 1, bound);
        let s = bind_inputs(pats, atoms, k - 1)->Some_0;
        assert(pats[k - 1].len() == atoms[k - 1].len());
        assert forall|j: int| 0 <= j < atoms[k - 1].len() implies #[trigger] atoms[k - 1][j] < bound by {}
        lemma_unify_values(s, pats[k - 1], atoms[k - 1], 0, bound);
    }
}

impl HypergraphSystem {
    /// Installs new limits. Raising the generation cap makes the live tokens
    /// of the previous cap matchable.
    fn update_step_spec(&mut self, spec: &StepSpec)
        requires
            old(self).wf(),
        ensures
            final(self).wf(),
            final(self).rules == old(self).rules,
            final(self).tokens == old(self).tokens,
            final(self).events == old(self).events,
            final(self).largest_generation == old(self).largest_generation,
            final(self).next_atom == old(self).next_atom,
            final(self).matcher == old(self).matcher,
            final(self).atoms_index == old(self).atoms_index,
            final(self).termination_reason == old(self).termination_reason,
            final(self).limits() == (
                limit_value(spec.max_events),
                limit_value(spec.max_generations),
                limit_value(spec.max_vertices),
                limit_value(spec.max_vertex_degree),
                limit_value(spec.max_edges),
            ),
            final(self).matchable() == if limit_value(spec.max_generations) > old(self).spec.max_generations {
                old(self).matchable().union(
                    Set::new(
                        |t: TokenId|
                            t < old(self).tokens.len() && alive(old(self).tokens@[t as int]) && old(self).tokens@[t as int].generation
                                == old(self).spec.max_generations,
                    ),
                )
            } else {
                old(self).matchable()
            },
            final(self).pending() == old(self).pending_under(limit_value(spec.max_generations)),
    {
        let previous = self.spec.max_generations;
        self.spec = InternalSpec::from_spec(spec);
        if self.spec.max_generations > previous {
            let ghost u0 = self.unindexed@;
            let ghost sp = self.spec;
            let mut id: usize = 0;
            while id < self.tokens.len()
                invariant
                    id <= self.tokens.len(),
                    self.spec == sp,
                    self.rules == old(self).rules,
                    self.events == old(self).events,
                    self.largest_generation == old(self).largest_generation,
                    self.next_atom == old(self).next_atom,
                    self.matcher == old(self).matcher,
                    self.atoms_index == old(self).atoms_index,
                    self.termination_reason == old(self).termination_reason,
                    u0 == old(self).unindexed@,
                    self.tokens == old(self).tokens,
                    previous == old(self).spec.max_generations,
                    self.unindexed@.len() >= u0.len(),
                    self.unindexed@.take(u0.len() as int) == u0,
                    forall|k: int| 0 <= k < self.unindexed.len() ==> #[trigger] self.unindexed@[k] < self.tokens.len() && alive(
                        self.tokens@[self.unindexed@[k] as int],
                    ),
                    forall|t: TokenId| #[trigger] self.unindexed@.to_set().contains(t) <==> (u0.to_set().contains(t) || (t < id
                        && alive(self.tokens@[t as int]) && self.tokens@[t as int].generation == previous)),
                decreases self.tokens.len() - id,
            {
                if self.tokens[id].generation == previous && self.tokens[id].destroyer_event.is_none() {
                    let ghost before = self.unindexed@;
                    self.unindexed.push(id);
                    proof {
                        assert(self.unindexed@.take(u0.len() as int) =~= before.take(u0.len() as int));
                        assert forall|t: TokenId| #[trigger] self.unindexed@.to_set().contains(t) <==> (before.to_set().contains(t) || t == id) by {
                            if self.unindexed@.to_set().contains(t) {
                                let k = choose|k: int| 0 <= k < self.unindexed@.len() && self.unindexed@[k] == t;
                                if k < before.len() {
                                    assert(before[k] == t);
                                }
                            }
                            if before.to_set().contains(t) {
                                let k = choose|k: int| 0 <= k < before.len() && before[k] == t;
                                assert(self.unindexed@[k] == t);
                            }
                            if t == id {
                                assert(self.unindexed@[before.len() as int] == t);
                            }
                        }
                    }
                }
                id = id + 1;
            }
            proof {
                let extra = Set::new(
                    |t: TokenId|
                        t < old(self).tokens.len() && alive(old(self).tokens@[t as int]) && old(self).tokens@[t as int].generation
                            == old(self).spec.max_generations,
                );
                assert forall|t: TokenId| #[trigger] self.matchable().contains(t) <==> old(self).matchable().union(extra).contains(t) by {
                    if self.unindexed@.to_set().contains(t) {
                    }
                }
                assert(self.matchable() =~= old(self).matchable().union(
                    Set::new(
                        |t: TokenId|
                            t < old(self).tokens.len() && alive(old(self).tokens@[t as int]) && old(self).tokens@[t as int].generation
                                == old(self).spec.max_generations,
                    ),
                ));
                assert forall|x: crate::ordering::MatchSpec| #[trigger]
                    valid_matches(self.rules@, self.tokens@, self.atoms_index.indexed()).contains(x) && !crate::matcher::involves(x, self.unindexed@)
                        implies self.matcher.matches().contains(x) by {
                    if crate::matcher::involves(x, u0) {
                        let k = choose|k: int| 0 <= k < x.1.len() && u0.contains(#[trigger] x.1[k]);
                        assert(u0.to_set().contains(x.1[k]));
                        assert(self.unindexed@.to_set().contains(x.1[k]));
                        assert(self.unindexed@.contains(x.1[k]));
                        assert(crate::matcher::involves(x, self.unindexed@));
                    } else {
                        assert(valid_matches(old(self).rules@, old(self).tokens@, old(self).atoms_index.indexed()).contains(x));
                        assert(old(self).matcher.matches().contains(x));
                    }
                }
            }
        }
    }
}


/// The outputs, before naming, of an event of rule `r` consuming `ins`.
pub open spec fn event_outputs(rules: Seq<Rule>, tokens: Seq<Token>, r: usize, ins: Seq<TokenId>) -> Seq<Seq<Atom>> {
    instantiated_outputs(rules[r as int], input_atoms(tokens, ins))
}

/// The limits' verdict on the event of rule `r` consuming `ins`: the vertex
/// limits first, then the edge limit.
pub open spec fn limit_verdict(
    limits: (i64, i64, i64, i64, i64),
    rules: Seq<Rule>,
    tokens: Seq<Token>,
    r: usize,
    ins: Seq<TokenId>,
) -> TerminationReason {
    let outs = event_outputs(rules, tokens, r, ins);
    let kept = kept_state(tokens, ins);
    let a = atom_limit_reason(limits.2, limits.3, input_atoms(tokens, ins), outs, kept + outs);
    if a != TerminationReason::NotTerminated {
        a
    } else {
        edge_limit_reason(limits.4, (kept.len() + outs.len()) as int)
    }
}

/// `m` is valid and comes first in the event ordering among the valid
/// matches `ms`.
pub open spec fn first_match(
    chain: Seq<(crate::ordering::OrdFn, bool)>,
    ms: Set<crate::ordering::MatchSpec>,
    m: crate::ordering::MatchSpec,
) -> bool {
    &&& ms.contains(m)
    &&& forall|y: crate::ordering::MatchSpec| #[trigger] ms.contains(y) ==> crate::ordering::chain_order(chain, m, y) <= 0
}

/// The history `(t1, e1)` is `(t0, e0)` after the event of rule `r` consuming
/// `ins` and creating tokens with atoms `named` in generation `g`: the inputs
/// are marked consumed by the new event, the outputs are appended as new
/// tokens, and the event is recorded.
pub open spec fn event_applied(
    t0: Seq<Token>,
    e0: Seq<Event>,
    t1: Seq<Token>,
    e1: Seq<Event>,
    r: usize,
    ins: Seq<TokenId>,
    named: Seq<Seq<Atom>>,
    g: int,
) -> bool {
    let e = e0.len();
    let n = t0.len();
    &&& t1.len() == n + named.len()
    &&& forall|t: int|
        0 <= t < n ==> (#[trigger] t1[t]).atoms@ == t0[t].atoms@ && t1[t].creator_event == t0[t].creator_event
            && t1[t].generation == t0[t].generation && t1[t].destroyer_event == if ins.contains(t as TokenId) {
            Some(e as EventId)
        } else {
            t0[t].destroyer_event
        }
    &&& forall|k: int|
        0 <= k < named.len() ==> (#[trigger] t1[n + k]).atoms@ == named[k] && t1[n + k].creator_event == e
            && t1[n + k].destroyer_event is None && t1[n + k].generation == g
    &&& e1.len() == e + 1
    &&& forall|i: int| 0 <= i < e ==> #[trigger] e1[i] == e0[i]
    &&& e1[e as int].rule == Some(r)
    &&& e1[e as int].inputs@ == ins
    &&& e1[e as int].outputs@ == Seq::new(named.len(), |k: int| (n + k) as TokenId)
    &&& e1[e as int].generation == g
}

/// Why evolution stops at `old` for `reason`: the event limit is reached; or
/// no match is left among the matchable tokens (at the generation cap, or a
/// fixed point); or a match that comes first would break a state limit.
pub open spec fn stop_explained(old: HypergraphSystem, reason: TerminationReason) -> bool {
    let ms = valid_matches(old.rule_seq(), old.token_seq(), old.matchable());
    let below = old.event_seq().len() - 1 < old.limits().0;
    match reason {
        TerminationReason::MaxEvents => !below,
        TerminationReason::MaxGenerations => below && ms.is_empty() && old.largest_gen() == old.limits().1,
        TerminationReason::FixedPoint => below && ms.is_empty() && old.largest_gen() != old.limits().1,
        TerminationReason::NotTerminated => false,
        _ => below && exists|m: crate::ordering::MatchSpec|
            first_match(old.chain(), ms, m) && #[trigger] limit_verdict(old.limits(), old.rule_seq(), old.token_seq(), m.0, m.1)
                == reason,
    }
}

/// Some token of `ids`, anchored at some input position of some rule,
/// leads to a completion that sticks (see [`crate::search::search_sticks`]).
pub open spec fn stick_set(pa: Seq<Seq<Seq<Atom>>>, ta: Seq<Seq<Atom>>, idx: Set<TokenId>, ids: Set<TokenId>) -> bool {
    exists|r: int, p: int, t: TokenId|
        0 <= r < pa.len() && 0 <= p < pa[r].len() && ids.contains(t) && #[trigger] crate::search::anchor_sticks(
            pa[r],
            p,
            t,
            ta,
            idx,
        )
}

/// Looking for the matches of the pending tokens of `s` sticks: the rule
/// inputs involved are not connected, which is reported as an error.
pub open spec fn index_sticks(s: HypergraphSystem) -> bool {
    stick_set(crate::search::rule_patterns(s.rule_seq()), crate::token::atoms_seq(s.token_seq()), s.matchable(), s.pending())
}

proof fn lemma_stick_set_seq(pa: Seq<Seq<Seq<Atom>>>, ta: Seq<Seq<Atom>>, idx: Set<TokenId>, ids: Seq<TokenId>)
    ensures
        crate::search::tokens_stick(pa, ta, idx, ids) <==> stick_set(pa, ta, idx, ids.to_set()),
{
    if crate::search::tokens_stick(pa, ta, idx, ids) {
        let (r, p, j) = choose|r: int, p: int, j: int|
            0 <= r < pa.len() && 0 <= p < pa[r].len() && 0 <= j < ids.len() && #[trigger] crate::search::anchor_sticks(
                pa[r],
                p,
                ids[j],
                ta,
                idx,
            );
        assert(ids.to_set().contains(ids[j]));
    }
    if stick_set(pa, ta, idx, ids.to_set()) {
        let (r, p, t) = choose|r: int, p: int, t: TokenId|
            0 <= r < pa.len() && 0 <= p < pa[r].len() && ids.to_set().contains(t) && #[trigger] crate::search::anchor_sticks(
                pa[r],
                p,
                t,
                ta,
                idx,
            );
        let j = choose|j: int| 0 <= j < ids.len() && ids[j] == t;
        assert(crate::search::anchor_sticks(pa[r], p, ids[j], ta, idx));
    }
}

/// The token ids from `lo` up to, not including, `hi`.
pub open spec fn id_range(lo: int, hi: int) -> Set<TokenId> {
    Set::new(|t: TokenId| lo <= t < hi)
}

/// The tokens matchable after an event that consumes `ins`, with the
/// matchable tokens `matchable` before it and the outputs numbered from
/// `n0` up to `n1`: the inputs leave, and the outputs join when their
/// generation `g` is below the generation cap `cap`.
pub open spec fn matchable_after(matchable: Set<TokenId>, ins: Seq<TokenId>, n0: int, n1: int, g: int, cap: int) -> Set<
    TokenId,
> {
    matchable.difference(ins.to_set()).union(
        if g < cap {
            id_range(n0, n1)
        } else {
            Set::empty()
        },
    )
}

/// Where the tie-break lands among `n` matches tied for first place: the
/// first when the ordering ends with `Any`, else the index the seeded
/// generator in state `state` (stream `inc`) draws.
pub open spec fn tie_pick(chain: Seq<(crate::ordering::OrdFn, bool)>, state: u64, inc: u64, n: nat) -> int {
    if crate::ordering::chain_ends_with_any(chain) {
        0
    } else {
        crate::pcg::gen_index_spec(state, inc, n, u64::MAX as nat).0 as int
    }
}

/// The generator state after the tie-break among `n` tied matches: unchanged
/// when the ordering ends with `Any`, else advanced by the draw.
pub open spec fn tie_advance(chain: Seq<(crate::ordering::OrdFn, bool)>, state: u64, inc: u64, n: nat) -> u64 {
    if crate::ordering::chain_ends_with_any(chain) {
        state
    } else {
        crate::pcg::gen_index_spec(state, inc, n, u64::MAX as nat).1
    }
}

/// `tied` lists, once each, the matches of `ms` that come first in the event
/// ordering.
pub open spec fn lists_first(chain: Seq<(crate::ordering::OrdFn, bool)>, ms: Set<crate::ordering::MatchSpec>, tied: Seq<
    crate::ordering::MatchSpec,
>) -> bool {
    &&& tied.no_duplicates()
    &&& forall|x: crate::ordering::MatchSpec| #[trigger] tied.contains(x) <==> first_match(chain, ms, x)
}

/// Match `x` is the tie-break's pick among the first matches of `ms`, drawn
/// with the generator in state `rng.0` (stream `rng.1`), which the draw
/// leaves in state `after`. The tied matches are listed in the order the
/// matcher holds them.
pub open spec fn drawn(
    chain: Seq<(crate::ordering::OrdFn, bool)>,
    ms: Set<crate::ordering::MatchSpec>,
    rng: (u64, u64),
    x: crate::ordering::MatchSpec,
    after: u64,
) -> bool {
    exists|tied: Seq<crate::ordering::MatchSpec>|
        #[trigger] lists_first(chain, ms, tied) && tied[tie_pick(chain, rng.0, rng.1, tied.len())] == x && after
            == tie_advance(chain, rng.0, rng.1, tied.len())
}

/// The generator state `after` a stop for `reason` of a system with the
/// given rules, tokens, matchable tokens, chain, limits and generator `rng`:
/// unchanged when no match was drawn (the event limit is reached, or no
/// match is left), else advanced by drawing a match that breaks the limit
/// `reason` names.
pub open spec fn stop_draw_on(
    rules: Seq<Rule>,
    tokens: Seq<Token>,
    matchable: Set<TokenId>,
    chain: Seq<(crate::ordering::OrdFn, bool)>,
    limits: (i64, i64, i64, i64, i64),
    rng: (u64, u64),
    reason: TerminationReason,
    after: u64,
) -> bool {
    match reason {
        TerminationReason::MaxEvents => after == rng.0,
        TerminationReason::MaxGenerations => after == rng.0,
        TerminationReason::FixedPoint => after == rng.0,
        TerminationReason::NotTerminated => after == rng.0,
        _ => exists|x: crate::ordering::MatchSpec|
            drawn(chain, valid_matches(rules, tokens, matchable), rng, x, after) && #[trigger] limit_verdict(
                limits,
                rules,
                tokens,
                x.0,
                x.1,
            ) == reason,
    }
}

/// [`stop_draw_on`] for the system `m`.
pub open spec fn stop_draw(m: HypergraphSystem, reason: TerminationReason, after: u64) -> bool {
    stop_draw_on(m.rule_seq(), m.token_seq(), m.matchable(), m.chain(), m.limits(), m.rng(), reason, after)
}

/// `new` follows, by one event, a system with the given rules, history,
/// matchable tokens, ordering chain, limits, next fresh atom and tie-break
/// generator: its last event instantiates a valid match of the matchable
/// tokens that comes first in the event ordering, the one the tie-break
/// draws among those tied, and breaks no limit; the outputs are the rule's
/// outputs under the match's binding, with anonymous atoms named
/// consecutively from the next fresh atom on, each atom up to the new next
/// fresh atom used.
pub open spec fn event_step_on(
    rules: Seq<Rule>,
    tokens: Seq<Token>,
    events: Seq<Event>,
    matchable: Set<TokenId>,
    pending: Set<TokenId>,
    chain: Seq<(crate::ordering::OrdFn, bool)>,
    limits: (i64, i64, i64, i64, i64),
    next: Atom,
    rng: (u64, u64),
    new: HypergraphSystem,
) -> bool {
    let e = events.len();
    let ev = new.event_seq()[e as int];
    let r = ev.rule->Some_0;
    let ins = ev.inputs@;
    let ms = valid_matches(rules, tokens, matchable);
    let outs = event_outputs(rules, tokens, r, ins);
    let named = named_edges(next, outs);
    &&& e - 1 < limits.0
    &&& !stick_set(crate::search::rule_patterns(rules), crate::token::atoms_seq(tokens), matchable, pending)
    &&& ev.rule is Some
    &&& first_match(chain, ms, (r, ins))
    &&& drawn(chain, ms, rng, (r, ins), new.rng().0)
    &&& new.rng().1 == rng.1
    &&& limit_verdict(limits, rules, tokens, r, ins) == TerminationReason::NotTerminated
    &&& named is Some
    &&& new.next_fresh_atom() == named->Some_0.1
    &&& next <= named->Some_0.1
    &&& forall|a: Atom| next <= a < named->Some_0.1 ==> #[trigger] crate::rule::edges_contain(named->Some_0.0, a)
    &&& event_applied(tokens, events, new.token_seq(), new.event_seq(), r, ins, named->Some_0.0, inputs_generation(tokens, ins))
    &&& new.matchable() == matchable_after(
        matchable,
        ins,
        tokens.len() as int,
        new.token_seq().len() as int,
        inputs_generation(tokens, ins),
        limits.1 as int,
    )
    &&& new.pending() == if inputs_generation(tokens, ins) < limits.1 {
        id_range(tokens.len() as int, new.token_seq().len() as int)
    } else {
        Set::empty()
    }
}

/// `new` is `old` after one event (see [`event_step_on`]).
pub open spec fn event_step(old: HypergraphSystem, new: HypergraphSystem) -> bool {
    event_step_on(
        old.rule_seq(),
        old.token_seq(),
        old.event_seq(),
        old.matchable(),
        old.pending(),
        old.chain(),
        old.limits(),
        old.next_fresh_atom(),
        old.rng(),
        new,
    )
}


/// The next event cannot be named: the events are below their limit, and a
/// valid match of the matchable tokens that comes first in the event ordering
/// and breaks no limit has outputs with more anonymous atoms than there are
/// fresh atoms left.
pub open spec fn overflow_on(
    rules: Seq<Rule>,
    tokens: Seq<Token>,
    events: Seq<Event>,
    matchable: Set<TokenId>,
    chain: Seq<(crate::ordering::OrdFn, bool)>,
    limits: (i64, i64, i64, i64, i64),
    next: Atom,
) -> bool {
    let ms = valid_matches(rules, tokens, matchable);
    &&& events.len() - 1 < limits.0
    &&& exists|m: crate::ordering::MatchSpec|
        #[trigger] first_match(chain, ms, m) && limit_verdict(limits, rules, tokens, m.0, m.1)
            == TerminationReason::NotTerminated && named_edges(next, event_outputs(rules, tokens, m.0, m.1)) is None
}

/// [`overflow_on`] the state of `s`.
pub open spec fn overflow_explained(s: HypergraphSystem) -> bool {
    overflow_on(s.rule_seq(), s.token_seq(), s.event_seq(), s.matchable(), s.chain(), s.limits(), s.next_fresh_atom())
}

impl HypergraphSystem {
    /// One step of the evolution loop. Returns `Ok(true)` when an event was
    /// applied; `Ok(false)` when a limit or a fixed point stops evolution (the
    /// reason is recorded); an error leaves the history as it was.
    #[verifier::rlimit(60)]
    fn replace_once_internal(&mut self) -> (r: Result<bool, Error>)
        requires
            old(self).wf(),
        ensures
            final(self).wf(),
            final(self).rules == old(self).rules,
            final(self).spec == old(self).spec,
            final(self).chain() == old(self).chain(),
            old(self).next_atom <= final(self).next_atom,
            r matches Ok(true) ==> event_step(*old(self), *final(self)) && final(self).termination_reason
                == TerminationReason::NotTerminated,
            !(r matches Ok(true)) ==> final(self).tokens == old(self).tokens && final(self).events == old(self).events
                && final(self).largest_generation == old(self).largest_generation,
            r matches Ok(false) ==> stop_explained(*old(self), final(self).termination_reason)
                && final(self).matchable() == old(self).matchable() && final(self).next_atom == old(self).next_atom,
            r matches Err(e) ==> e is DisconnectedInputs || (e is AtomCountOverflow && final(self).next_atom == Atom::MAX),
            r matches Err(Error::DisconnectedInputs) ==> !crate::search::rules_linked(old(self).rules@),
            r matches Err(Error::AtomCountOverflow) ==> overflow_explained(*old(self)),
            (r matches Err(e) && e is DisconnectedInputs) <==> old(self).event_seq().len() - 1 < old(self).limits().0
                && index_sticks(*old(self)),
            r matches Ok(false) && final(self).termination_reason != TerminationReason::MaxEvents ==> !index_sticks(
                *old(self),
            ),
            final(self).rng().1 == old(self).rng().1,
            r matches Ok(false) ==> stop_draw(*old(self), final(self).termination_reason, final(self).rng().0),
            r matches Err(Error::DisconnectedInputs) ==> final(self).rng() == old(self).rng(),
            r matches Err(Error::AtomCountOverflow) ==> exists|x: crate::ordering::MatchSpec|
                drawn(old(self).chain(), valid_matches(old(self).rules@, old(self).tokens@, old(self).matchable()), old(self).rng(), x, final(self).rng().0),
    {
        let ghost s0 = *self;
        self.termination_reason = TerminationReason::NotTerminated;
        if (self.events.len() - 1) as i64 >= self.spec.max_events {
            self.termination_reason = TerminationReason::MaxEvents;
            return Ok(false);
        }
        let ghost ms = valid_matches(self.rules@, self.tokens@, self.matchable());
        match self.index_new_tokens() {
            Ok(()) => {},
            Err(e) => {
                return Err(e);
            },
        }
        let ghost idx = self.atoms_index.indexed();
        proof {
            assert(self.unindexed@.to_set() =~= Set::<TokenId>::empty());
            assert(self.matchable() =~= idx);
            assert(self.matcher.matches() == ms);
        }
        let ghost mt0 = self.matcher;
        let m = match self.matcher.next_match() {
            None => {
                self.termination_reason = if self.largest_generation == self.spec.max_generations {
                    TerminationReason::MaxGenerations
                } else {
                    TerminationReason::FixedPoint
                };
                proof {
                    assert(ms =~= Set::<crate::ordering::MatchSpec>::empty());
                }
                return Ok(false);
            },
            Some(m) => m,
        };
        proof {
            let tied = mt0.tied();
            assert(lists_first(s0.chain(), ms, tied)) by {
                assert forall|x: crate::ordering::MatchSpec| #[trigger] tied.contains(x) <==> first_match(s0.chain(), ms, x) by {}
            }
            assert(tied[tie_pick(s0.chain(), s0.rng().0, s0.rng().1, tied.len())] == m@);
            assert(drawn(s0.chain(), ms, s0.rng(), m@, self.rng().0));
        }
        let ghost ins = m.inputs@;
        let ghost ri = m.rule;
        let ghost ta = crate::token::atoms_seq(self.tokens@);
        let ghost pa = crate::search::rule_patterns(self.rules@);
        proof {
            assert(ms.contains(m@));
            assert(crate::search::valid_match(pa, ta, idx, m@));
            let pats = pa[ri as int];
            let none = crate::search::nothing_chosen(pats.len());
            assert(pats == self.rules@[ri as int].spec_inputs());
            let t = choose|t: Map<Atom, Atom>| #[trigger] crate::search::binds(t, pats, none, ta, ins);
            let atoms = input_atoms(self.tokens@, ins);
            assert forall|q: int| 0 <= q < ins.len() implies #[trigger] ins[q] < self.tokens.len() && alive(self.tokens@[ins[q] as int]) by {
                assert(idx.contains(ins[q]));
            }
            assert forall|q: int| 0 <= q < atoms.len() implies crate::pattern::all_positive(#[trigger] atoms[q]) by {
                assert(atoms[q] == ta[ins[q] as int]);
            }
            assert forall|q: int| 0 <= q < pats.len() implies crate::pattern::apply_edge(t, #[trigger] pats[q]) == atoms[q] by {
                assert(none[q] is None);
                assert(crate::pattern::apply_edge(t, pats[q]) == ta[ins[q] as int]);
            }
            lemma_bind_inputs(pats, atoms, t, pats.len() as int);
            assert(m.inputs.len() == self.rules@[ri as int].inputs.len());
        }
        let explicit = output_atoms_vectors(&self.rules[m.rule], &m.inputs, &self.tokens);
        let status = self.will_exceed_atom_limits(&m.inputs, &explicit);
        if !matches!(status, TerminationReason::NotTerminated) {
            self.termination_reason = status;
            proof {
                assert(limit_verdict(s0.limits(), s0.rule_seq(), s0.token_seq(), m@.0, m@.1) == status);
            }
            return Ok(false);
        }
        let status = self.will_exceed_token_limit(&m.inputs, &explicit);
        if !matches!(status, TerminationReason::NotTerminated) {
            self.termination_reason = status;
            proof {
                assert(limit_verdict(s0.limits(), s0.rule_seq(), s0.token_seq(), m@.0, m@.1) == status);
            }
            return Ok(false);
        }
        let named = match self.name_anonymous_atoms(&explicit) {
            Ok(v) => v,
            Err(e) => {
                proof {
                    assert(first_match(s0.chain(), ms, m@));
                    assert(limit_verdict(s0.limits(), s0.rule_seq(), s0.token_seq(), m@.0, m@.1)
                        == TerminationReason::NotTerminated);
                    assert(crate::rule::edges_of(explicit) == event_outputs(s0.rule_seq(), s0.token_seq(), m@.0, m@.1));
                    assert(overflow_explained(s0));
                    assert(drawn(s0.chain(), ms, s0.rng(), m@, self.rng().0));
                }
                return Err(e);
            },
        };
        let event_id = self.events.len();
        proof {
            assert forall|k: int| 0 <= k < m.inputs.len() implies 0 <= #[trigger] self.tokens@[m.inputs@[k] as int].generation
                < event_id as i64 by {
                assert(ins[k] < self.tokens.len());
            }
        }
        let generation = self.event_generation(&m.inputs, event_id as i64);
        proof {
            let rule = self.rules@[ri as int];
            let pats = rule.spec_inputs();
            let atoms = input_atoms(self.tokens@, ins);
            let b = bind_inputs(pats, atoms, pats.len() as int)->Some_0;
            let outs = rule.spec_outputs();
            let ex = crate::rule::edges_of(explicit);
            let nm = crate::rule::edges_of(named);
            let na0 = s0.next_atom;
            assert(ex == crate::pattern::apply_edges(b, outs));
            assert(rule.wf());
            if na0 != Atom::MAX {
                assert(s0.fresh_above());
                assert(atoms_below(atoms, na0 as int)) by {
                    assert forall|i: int, j: int| 0 <= i < atoms.len() && 0 <= j < atoms[i].len() implies #[trigger] atoms[i][j] < na0 as int by {
                        assert(atoms[i] == ta[ins[i] as int]);
                    }
                }
                lemma_bind_values(pats, atoms, pats.len() as int, na0 as int);
            }
            assert(nm == named_edges(na0, ex)->Some_0.0);
            assert(nm.len() == ex.len());
            assert forall|i: int| 0 <= i < nm.len() implies (#[trigger] nm[i]).len() == ex[i].len() && nm[i] == named@[i]@ by {}
            assert forall|i: int, j: int| 0 <= i < named.len() && 0 <= j < named@[i]@.len() implies #[trigger] named@[i]@[j] > 0
                && (self.next_atom == Atom::MAX || named@[i]@[j] < self.next_atom) by {
                assert(nm[i] == named@[i]@);
                assert(0 <= i < ex.len() && 0 <= j < ex[i].len());
                assert(explicit@[i]@ == ex[i]);
                assert(ex[i][j] == crate::pattern::apply_atom(b, outs[i][j]));
                assert(outs[i][j] != 0) by {
                    if outs[i][j] == 0 {
                        assert(crate::rule::edges_contain(outs, 0));
                    }
                }
                if outs[i][j] < 0 && b.dom().contains(outs[i][j]) {
                    assert(b[outs[i][j]] > 0);
                }
                if na0 != Atom::MAX && outs[i][j] > 0 {
                    assert(atoms_below(outs, na0 as int));
                }
            }
            assert(crate::rule::edges_of(named).len() == named.len());
            assert(self.next_atom == Atom::MAX || atoms_below(crate::rule::edges_of(named), self.next_atom as int)) by {
                if self.next_atom != Atom::MAX {
                    assert forall|i: int, j: int| 0 <= i < nm.len() && 0 <= j < nm[i].len() implies #[trigger] nm[i][j] < self.next_atom as int by {
                        assert(nm[i][j] == named@[i]@[j]);
                    }
                }
            }
            if self.next_atom != Atom::MAX {
                assert(na0 != Atom::MAX);
                assert(s0.fresh_above());
                assert(self.fresh_above()) by {
                    let tas = crate::token::atoms_seq(self.tokens@);
                    assert forall|i: int, j: int| 0 <= i < tas.len() && 0 <= j < tas[i].len() implies #[trigger] tas[i][j] < self.next_atom as int by {
                        assert(tas[i][j] < na0 as int);
                    }
                    assert forall|r: int| 0 <= r < self.rules.len() implies atoms_below((#[trigger] self.rules@[r]).spec_inputs(), self.next_atom as int)
                        && atoms_below(self.rules@[r].spec_outputs(), self.next_atom as int) by {
                        assert(atoms_below(self.rules@[r].spec_inputs(), na0 as int));
                        assert(atoms_below(self.rules@[r].spec_outputs(), na0 as int));
                    }
                }
            }
            assert(self.wf());
        }
        self.commit_event(&m, &named, event_id, generation);
        Ok(true)
    }
}


impl HypergraphSystem {
    /// Records the event of match `m` creating tokens with atoms `named`:
    /// the outputs become new tokens (matchable below the generation cap),
    /// the inputs are consumed, and the matches and index entries that use
    /// them are dropped.
    #[verifier::rlimit(60)]
    fn commit_event(&mut self, m: &crate::matcher::Match, named: &Vec<Vec<Atom>>, event_id: EventId, generation: Generation)
        requires
            old(self).wf(),
            old(self).unindexed@.len() == 0,
            old(self).matcher.matches() == valid_matches(old(self).rules@, old(self).tokens@, old(self).atoms_index.indexed()),
            old(self).matcher.matches().contains(m@),
            event_id == old(self).events.len(),
            event_id - 1 < old(self).spec.max_events,
            generation == inputs_generation(old(self).tokens@, m.inputs@),
            0 <= generation <= event_id,
            forall|i: int, j: int| 0 <= i < named.len() && 0 <= j < named@[i]@.len() ==> #[trigger] named@[i]@[j] > 0,
            old(self).next_atom == Atom::MAX || atoms_below(crate::rule::edges_of(*named), old(self).next_atom as int),
        ensures
            final(self).wf(),
            final(self).rules == old(self).rules,
            final(self).spec == old(self).spec,
            final(self).next_atom == old(self).next_atom,
            final(self).termination_reason == old(self).termination_reason,
            final(self).chain() == old(self).chain(),
            final(self).rng() == old(self).rng(),
            event_applied(
                old(self).tokens@,
                old(self).events@,
                final(self).tokens@,
                final(self).events@,
                m.rule,
                m.inputs@,
                crate::rule::edges_of(*named),
                generation as int,
            ),
            final(self).matchable() == matchable_after(
                old(self).matchable(),
                m.inputs@,
                old(self).tokens.len() as int,
                final(self).tokens.len() as int,
                generation as int,
                old(self).spec.max_generations as int,
            ),
            final(self).pending() == if generation < old(self).spec.max_generations {
                id_range(old(self).tokens.len() as int, final(self).tokens.len() as int)
            } else {
                Set::empty()
            },
    {
        let ghost s0 = *self;
        let ghost ins = m.inputs@;
        let ghost ta = crate::token::atoms_seq(self.tokens@);
        let ghost idx = self.atoms_index.indexed();
        let ghost t0 = self.tokens@;
        let ghost u0 = self.unindexed@;
        let ghost mt = self.matcher;
        let ghost ai = self.atoms_index;
        let ghost na = self.next_atom;
        let n0 = self.tokens.len();
        let mut output_ids: Vec<TokenId> = Vec::new();
        let mut k: usize = 0;
        while k < named.len()
            invariant
                k <= named.len(),
                n0 == t0.len(),
                self.tokens.len() == n0 + k,
                forall|t: int| 0 <= t < n0 ==> #[trigger] self.tokens@[t] == t0[t],
                forall|q: int|
                    0 <= q < k ==> (#[trigger] self.tokens@[n0 + q]).atoms@ == named@[q]@ && self.tokens@[n0 + q].creator_event
                        == event_id && self.tokens@[n0 + q].destroyer_event is None && self.tokens@[n0 + q].generation == generation,
                output_ids@ == Seq::new(k as nat, |q: int| (n0 + q) as TokenId),
                u0.len() == 0,
                self.unindexed@ == if generation < self.spec.max_generations {
                    Seq::new(k as nat, |q: int| (n0 + q) as TokenId)
                } else {
                    Seq::<TokenId>::empty()
                },
                self.rules == s0.rules,
                self.events == s0.events,
                self.spec == s0.spec,
                self.largest_generation == s0.largest_generation,
                self.atoms_index == ai,
                self.matcher == mt,
                self.next_atom == na,
                self.termination_reason == s0.termination_reason,
            decreases named.len() - k,
        {
            let id = self.tokens.len();
            let atoms = named[k].clone();
            proof {
                assert(atoms@ == named@[k as int]@);
            }
            self.tokens.push(Token { atoms, creator_event: event_id, destroyer_event: None, generation });
            if generation < self.spec.max_generations {
                self.unindexed.push(id);
            }
            output_ids.push(id);
            proof {
                assert(output_ids@ =~= Seq::new((k + 1) as nat, |q: int| (n0 + q) as TokenId));
                if generation < self.spec.max_generations {
                    assert(self.unindexed@ =~= Seq::new((k + 1) as nat, |q: int| (n0 + q) as TokenId));
                }
            }
            k = k + 1;
        }
        let inputs = m.inputs.clone();
        proof {
            assert(inputs@ == ins);
        }
        self.events.push(Event { rule: Some(m.rule), inputs, outputs: output_ids, generation });
        if generation > self.largest_generation {
            self.largest_generation = generation;
        }
        let ghost t1 = self.tokens@;
        let ghost ev1 = self.events@;
        let ghost un1 = self.unindexed@;
        let ghost lg1 = self.largest_generation;
        let mut q: usize = 0;
        while q < m.inputs.len()
            invariant
                q <= m.inputs.len(),
                ins == m.inputs@,
                self.tokens.len() == t1.len(),
                forall|k: int| 0 <= k < ins.len() ==> #[trigger] ins[k] < n0,
                n0 <= t1.len(),
                forall|t: int|
                    0 <= t < t1.len() ==> (#[trigger] self.tokens@[t]).atoms == t1[t].atoms && self.tokens@[t].creator_event
                        == t1[t].creator_event && self.tokens@[t].generation == t1[t].generation
                        && self.tokens@[t].destroyer_event == if ins.take(q as int).contains(t as TokenId) {
                        Some(event_id)
                    } else {
                        t1[t].destroyer_event
                    },
                self.rules == s0.rules,
                self.events@ == ev1,
                self.unindexed@ == un1,
                self.spec == s0.spec,
                self.largest_generation == lg1,
                self.atoms_index == ai,
                self.matcher == mt,
                self.next_atom == na,
                self.termination_reason == s0.termination_reason,
            decreases m.inputs.len() - q,
        {
            let t = m.inputs[q];
            proof {
                assert(ins.take(q + 1) =~= ins.take(q as int).push(t));
            }
            let tok = &mut self.tokens[t];
            tok.destroyer_event = Some(event_id);
            q = q + 1;
        }
        proof {
            assert(ins.take(ins.len() as int) =~= ins);
        }
        self.matcher.remove_matches_involving_tokens(&m.inputs);
        proof {
            let ta2 = crate::token::atoms_seq(self.tokens@);
            assert forall|t: int| 0 <= t < ta.len() implies ta2[t] == ta[t] by {
                assert(self.tokens@[t].atoms == t1[t].atoms);
                assert(t1[t] == t0[t]);
            }
            self.atoms_index.lemma_wf_extend(ta, ta2);
        }
        self.atoms_index.remove_tokens(&m.inputs, &self.tokens);
        proof {
            let ta2 = crate::token::atoms_seq(self.tokens@);
            let idx2 = self.atoms_index.indexed();
            let n1 = self.tokens.len();
            assert(idx2 == idx.difference(ins.to_set()));
            assert forall|t: int| 0 <= t < n0 implies #[trigger] self.tokens@[t].atoms@ == t0[t].atoms@ by {
                assert(t1[t] == t0[t]);
            }
            assert forall|t: int| 0 <= t < n1 && t >= n0 implies #[trigger] self.tokens@[t].atoms@ == named@[t - n0]@ by {
                assert(t1[n0 + (t - n0)].atoms@ == named@[t - n0]@);
            }
            // atoms
            assert(crate::token::positive_tokens(ta2)) by {
                assert forall|t: int, j: int| 0 <= t < ta2.len() && 0 <= j < ta2[t].len() implies #[trigger] ta2[t][j] > 0 by {
                    if t < n0 {
                        assert(ta2[t] == ta[t]);
                    } else {
                        assert(ta2[t] == named@[t - n0]@);
                    }
                }
            }
            // the index
            assert forall|t: TokenId| #[trigger] idx2.contains(t) implies t < self.tokens.len() && alive(self.tokens@[t as int]) by {
                assert(idx.contains(t));
                assert(!ins.contains(t)) by {
                    if ins.contains(t) {
                        assert(ins.to_set().contains(t));
                    }
                }
                assert(!ins.take(ins.len() as int).contains(t));
                assert(t1[t as int] == t0[t as int]);
            }
            assert forall|k: int| 0 <= k < self.unindexed.len() implies #[trigger] self.unindexed@[k] < self.tokens.len() && alive(
                self.tokens@[self.unindexed@[k] as int],
            ) by {
                let t = self.unindexed@[k];
                assert(t == n0 + k);
                assert(!ins.take(ins.len() as int).contains(t)) by {
                    if ins.take(ins.len() as int).contains(t) {
                        let j = choose|j: int| 0 <= j < ins.len() && ins.take(ins.len() as int)[j] == t;
                        assert(ins[j] < n0);
                    }
                }
            }
            // the matches
            let old_ms = valid_matches(s0.rules@, s0.tokens@, idx);
            assert forall|t: TokenId| #[trigger] idx2.contains(t) implies t < t0.len() && t < self.tokens@.len() && t0[t as int].atoms@
                == self.tokens@[t as int].atoms@ by {
                assert(idx.contains(t));
            }
            assert forall|x: crate::ordering::MatchSpec| #[trigger] self.matcher.matches().contains(x) implies valid_matches(
                self.rules@,
                self.tokens@,
                idx2,
            ).contains(x) by {
                assert(old_ms.contains(x));
                assert(!crate::matcher::involves(x, ins));
                assert forall|q: int| 0 <= q < x.1.len() implies idx2.contains(#[trigger] x.1[q]) by {
                    assert(crate::search::valid_match(crate::search::rule_patterns(s0.rules@), ta, idx, x));
                    assert(idx.contains(x.1[q]));
                    if ins.to_set().contains(x.1[q]) {
                        assert(ins.contains(x.1[q]));
                    }
                }
                lemma_valid_reindexed(s0.rules@, s0.tokens@, idx, idx2, x);
                lemma_valid_retokened(s0.rules@, s0.tokens@, self.tokens@, idx2, x);
            }
            assert forall|x: crate::ordering::MatchSpec| #[trigger] valid_matches(self.rules@, self.tokens@, idx2).contains(x)
                && !crate::matcher::involves(x, self.unindexed@) implies self.matcher.matches().contains(x) by {
                lemma_valid_retokened(s0.rules@, s0.tokens@, self.tokens@, idx2, x);
                assert forall|q: int| 0 <= q < x.1.len() implies idx.contains(#[trigger] x.1[q]) by {
                    assert(crate::search::valid_match(crate::search::rule_patterns(s0.rules@), ta, idx2, x));
                    assert(idx2.contains(x.1[q]));
                }
                lemma_valid_reindexed(s0.rules@, s0.tokens@, idx2, idx, x);
                assert(!crate::matcher::involves(x, ins)) by {
                    if crate::matcher::involves(x, ins) {
                        let k = choose|k: int| 0 <= k < x.1.len() && ins.contains(#[trigger] x.1[k]);
                        assert(crate::search::valid_match(crate::search::rule_patterns(s0.rules@), ta, idx2, x));
                        assert(idx2.contains(x.1[k]));
                        assert(ins.to_set().contains(x.1[k]));
                    }
                }
            }
            // history
            assert forall|t: int| 0 <= t < self.tokens.len() implies (#[trigger] self.tokens@[t]).creator_event < self.events.len()
                && 0 <= self.tokens@[t].generation <= self.tokens@[t].creator_event
                && self.tokens@[t].generation <= self.largest_generation by {
                if t < n0 {
                    assert(t1[t] == t0[t]);
                    assert(s0.tokens@[t].creator_event < s0.events.len());
                } else {
                    assert(t1[n0 + (t - n0)].creator_event == event_id);
                    assert(t1[n0 + (t - n0)].generation == generation);
                }
            }
            assert forall|t: int| 0 <= t < self.tokens.len() && (#[trigger] self.tokens@[t]).destroyer_event is Some implies self.tokens@[t].creator_event
                < self.tokens@[t].destroyer_event->Some_0 < self.events.len() by {
                if t < n0 {
                    assert(t1[t] == t0[t]);
                    assert(s0.tokens@[t].creator_event < s0.events.len());
                    if ins.contains(t as TokenId) {
                    } else {
                        assert(t0[t].destroyer_event is Some);
                    }
                } else {
                    assert(t1[n0 + (t - n0)].destroyer_event is None);
                    assert(!ins.contains(t as TokenId)) by {
                        if ins.contains(t as TokenId) {
                            let j = choose|j: int| 0 <= j < ins.len() && ins[j] == t as TokenId;
                            assert(ins[j] < n0);
                        }
                    }
                }
            }
            assert forall|e: int| 0 <= e < self.events.len() implies 0 <= (#[trigger] self.events@[e]).generation <= self.largest_generation by {
                if e < event_id {
                    assert(self.events@[e] == s0.events@[e]);
                }
            }
            assert(generation >= 1) by {
                assert(old_ms.contains(m@));
                let pa = crate::search::rule_patterns(s0.rules@);
                assert(s0.rules@[m@.0 as int].wf());
                assert(pa[m@.0 as int].len() > 0);
                assert(idx.contains(ins[0]));
                assert(ins.len() > 0);
                assert(s0.tokens@[ins.last() as int].generation >= 0);
            }
            assert forall|e: int| 1 <= e < self.events.len() implies (#[trigger] self.events@[e]).generation >= 1 by {
                if e < event_id {
                    assert(self.events@[e] == s0.events@[e]);
                }
            }
            assert(self.events@[0] == s0.events@[0]);
            assert(self.events@[event_id as int].outputs@ =~= Seq::new(named.len() as nat, |k: int| (n0 + k) as TokenId));
            assert forall|t: int| 0 <= t < self.tokens.len() implies self.events@[(#[trigger] self.tokens@[t]).creator_event as int].outputs@.contains(
                t as TokenId,
            ) && self.events@[self.tokens@[t].creator_event as int].generation == self.tokens@[t].generation by {
                if t < n0 {
                    assert(t1[t] == t0[t]);
                    let e = t0[t].creator_event as int;
                    assert(s0.events@[(#[trigger] s0.tokens@[t]).creator_event as int].outputs@.contains(t as TokenId));
                    assert(self.events@[e] == s0.events@[e]);
                } else {
                    assert(t1[n0 + (t - n0)].creator_event == event_id);
                    assert(t1[n0 + (t - n0)].generation == generation);
                    assert(self.events@[event_id as int].outputs@[t - n0] == t as TokenId);
                }
            }
            if self.next_atom != Atom::MAX {
                assert(s0.fresh_above());
                assert forall|i: int, j: int| 0 <= i < ta2.len() && 0 <= j < ta2[i].len() implies #[trigger] ta2[i][j] < self.next_atom as int by {
                    if i < n0 {
                        assert(ta2[i] == ta[i]);
                    } else {
                        assert(ta2[i] == named@[i - n0]@);
                        assert(crate::rule::edges_of(*named)[i - n0][j] == named@[i - n0]@[j]);
                    }
                }
            }
            // the event
            assert forall|t: int| 0 <= t < n0 implies (#[trigger] self.tokens@[t]).destroyer_event == if ins.contains(t as TokenId) {
                Some(event_id)
            } else {
                t0[t].destroyer_event
            } by {
                assert(t1[t] == t0[t]);
            }
            assert forall|i: int| 0 <= i < event_id implies #[trigger] self.events@[i] == s0.events@[i] by {}
            assert(self.events@[event_id as int].outputs@ =~= Seq::new(named.len() as nat, |k: int| (n0 + k) as TokenId));
            if generation > s0.largest_generation {
                assert(self.events@[event_id as int].generation == self.largest_generation);
            } else {
                let e = choose|e: int| 0 <= e < s0.events.len() && (#[trigger] s0.events@[e]).generation == s0.largest_generation;
                assert(self.events@[e] == s0.events@[e]);
            }
            // the matchable tokens
            assert(s0.unindexed@.to_set() =~= Set::<TokenId>::empty());
            assert(s0.matchable() =~= idx);
            let newset = if generation < s0.spec.max_generations {
                id_range(n0 as int, n1 as int)
            } else {
                Set::<TokenId>::empty()
            };
            assert(self.unindexed@.to_set() =~= newset) by {
                assert forall|t: TokenId| self.unindexed@.to_set().contains(t) implies newset.contains(t) by {
                    let k = choose|k: int| 0 <= k < self.unindexed@.len() && self.unindexed@[k] == t;
                }
                assert forall|t: TokenId| newset.contains(t) implies self.unindexed@.to_set().contains(t) by {
                    assert(self.unindexed@[t - n0] == t);
                }
            }
            assert(self.matchable() =~= matchable_after(
                s0.matchable(),
                ins,
                n0 as int,
                n1 as int,
                generation as int,
                s0.spec.max_generations as int,
            ));
        }
    }
}


/// The limits of a step specification, in internal form.
pub open spec fn limits_of(spec: StepSpec) -> (i64, i64, i64, i64, i64) {
    (
        limit_value(spec.max_events),
        limit_value(spec.max_generations),
        limit_value(spec.max_vertices),
        limit_value(spec.max_vertex_degree),
        limit_value(spec.max_edges),
    )
}

/// `s` is `old` made ready to evolve under `spec`: same rules, history,
/// ordering, tie-break generator and next fresh atom, the limits of `spec`, and the tokens capped
/// by an earlier generation limit matchable again once `spec` raises it.
pub open spec fn evolution_start(old: HypergraphSystem, s: HypergraphSystem, spec: StepSpec) -> bool {
    &&& s.rule_seq() == old.rule_seq()
    &&& s.token_seq() == old.token_seq()
    &&& s.event_seq() == old.event_seq()
    &&& s.chain() == old.chain()
    &&& s.next_fresh_atom() == old.next_fresh_atom()
    &&& s.limits() == limits_of(spec)
    &&& s.matchable() == old.matchable_under(limit_value(spec.max_generations))
    &&& s.pending() == old.pending_under(limit_value(spec.max_generations))
    &&& s.rng() == old.rng()
}

/// Each state of `trace` follows the previous one by one event
/// ([`event_step`]); all are well formed, with the rules, event ordering and
/// limits of the first.
pub open spec fn is_run(trace: Seq<HypergraphSystem>) -> bool {
    &&& forall|i: int| 0 <= i < trace.len() - 1 ==> #[trigger] event_step(trace[i], trace[i + 1])
    &&& forall|i: int|
        0 <= i < trace.len() ==> (#[trigger] trace[i]).wf() && trace[i].rule_seq() == trace[0].rule_seq()
            && trace[i].chain() == trace[0].chain() && trace[i].limits() == trace[0].limits()
}

/// `s1` follows `s0` by `k` events.
pub open spec fn event_steps(s0: HypergraphSystem, s1: HypergraphSystem, k: nat) -> bool {
    exists|trace: Seq<HypergraphSystem>|
        #[trigger] is_run(trace) && trace.len() == k + 1 && trace[0] == s0 && trace.last() == s1
}

proof fn lemma_event_steps_zero(s0: HypergraphSystem)
    requires
        s0.wf(),
    ensures
        event_steps(s0, s0, 0),
{
    assert(is_run(seq![s0]));
}

proof fn lemma_event_steps_next(s0: HypergraphSystem, m: HypergraphSystem, s1: HypergraphSystem, k: nat)
    requires
        event_steps(s0, m, k),
        event_step(m, s1),
        s1.wf(),
        s1.rule_seq() == m.rule_seq(),
        s1.chain() == m.chain(),
        s1.limits() == m.limits(),
    ensures
        event_steps(s0, s1, k + 1),
{
    let trace = choose|trace: Seq<HypergraphSystem>|
        #[trigger] is_run(trace) && trace.len() == k + 1 && trace[0] == s0 && trace.last() == m;
    let t2 = trace.push(s1);
    assert forall|i: int| 0 <= i < t2.len() - 1 implies #[trigger] event_step(t2[i], t2[i + 1]) by {
        if i < trace.len() - 1 {
            assert(t2[i] == trace[i] && t2[i + 1] == trace[i + 1]);
            assert(event_step(trace[i], trace[i + 1]));
        } else {
            assert(t2[i] == m && t2[i + 1] == s1);
        }
    }
    assert forall|i: int| 0 <= i < t2.len() implies (#[trigger] t2[i]).wf() && t2[i].rule_seq() == t2[0].rule_seq()
        && t2[i].chain() == t2[0].chain() && t2[i].limits() == t2[0].limits() by {
        if i < trace.len() {
            assert(t2[i] == trace[i]);
        } else {
            assert(trace[trace.len() - 1] == m);
        }
    }
    assert(is_run(t2));
}

/// The history `(t1, e1)` extends `(t0, e0)`: earlier events are kept, and
/// earlier tokens keep their atoms, creator and generation.
pub open spec fn history_extends(t0: Seq<Token>, e0: Seq<Event>, t1: Seq<Token>, e1: Seq<Event>) -> bool {
    &&& t0.len() <= t1.len()
    &&& e0.len() <= e1.len()
    &&& forall|i: int| 0 <= i < e0.len() ==> #[trigger] e1[i] == e0[i]
    &&& forall|t: int|
        0 <= t < t0.len() ==> (#[trigger] t1[t]).atoms@ == t0[t].atoms@ && t1[t].creator_event == t0[t].creator_event
            && t1[t].generation == t0[t].generation
}

impl HypergraphSystem {
    /// The tokens not yet given to the matcher: it will look for the matches
    /// that use them before the next event.
    pub closed spec fn pending(&self) -> Set<TokenId> {
        self.unindexed@.to_set()
    }

    /// The pending tokens after the generation cap becomes `cap`: raising the
    /// cap adds the live tokens of the previous cap.
    pub closed spec fn pending_under(&self, cap: i64) -> Set<TokenId> {
        if cap > self.spec.max_generations {
            self.pending().union(
                Set::new(
                    |t: TokenId|
                        t < self.tokens.len() && alive(self.tokens@[t as int]) && self.tokens@[t as int].generation
                            == self.spec.max_generations,
                ),
            )
        } else {
            self.pending()
        }
    }

    /// The tokens matchable after the generation cap becomes `cap`: raising
    /// the cap makes the live tokens of the previous cap matchable.
    pub closed spec fn matchable_under(&self, cap: i64) -> Set<TokenId> {
        if cap > self.spec.max_generations {
            self.matchable().union(
                Set::new(
                    |t: TokenId|
                        t < self.tokens.len() && alive(self.tokens@[t as int]) && self.tokens@[t as int].generation
                            == self.spec.max_generations,
                ),
            )
        } else {
            self.matchable()
        }
    }

    /// Runs events until a limit in `spec` is hit, a fixed point is reached,
    /// or an error occurs. Returns the number of events applied; consult
    /// [`HypergraphSystem::termination_reason`] for why it stopped. Can be
    /// called repeatedly; raising `max_generations` across calls resumes
    /// matching of previously generation-capped tokens.
    pub fn evolve(&mut self, spec: &StepSpec) -> (r: Result<u64, Error>)
        requires
            old(self).wf(),
        ensures
            final(self).wf(),
            final(self).rule_seq() == old(self).rule_seq(),
            final(self).chain() == old(self).chain(),
            final(self).limits() == limits_of(*spec),
            history_extends(old(self).token_seq(), old(self).event_seq(), final(self).token_seq(), final(self).event_seq()),
            r matches Ok(n) ==> final(self).event_seq().len() == old(self).event_seq().len() + n && stop_explained(
                *final(self),
                final(self).reason(),
            ),
            r matches Err(e) ==> e is DisconnectedInputs || e is AtomCountOverflow,
            r matches Err(Error::DisconnectedInputs) ==> !crate::search::rules_linked(old(self).rule_seq()),
            exists|s: HypergraphSystem, m: HypergraphSystem|
                evolution_start(*old(self), s, *spec) && #[trigger] event_steps(
                    s,
                    m,
                    (final(self).event_seq().len() - old(self).event_seq().len()) as nat,
                ) && m.token_seq() == final(self).token_seq() && m.event_seq() == final(self).event_seq() && (r is Ok
                    ==> m.matchable() == final(self).matchable() && m.largest_gen() == final(self).largest_gen()
                    && final(self).rng().1 == m.rng().1 && stop_draw(m, final(self).reason(), final(self).rng().0)
                    && stop_explained(m, final(self).reason()) && (final(self).reason() != TerminationReason::MaxEvents
                    ==> !index_sticks(m))) && (r matches Err(Error::AtomCountOverflow) ==> overflow_explained(m) && exists|
                    x: crate::ordering::MatchSpec,
                | drawn(m.chain(), valid_matches(m.rule_seq(), m.token_seq(), m.matchable()), m.rng(), x, final(self).rng().0))
                && (r matches Err(Error::DisconnectedInputs) ==> m.event_seq().len() - 1 < m.limits().0 && index_sticks(m)
                && final(self).rng() == m.rng()),
    {
        self.update_step_spec(spec);
        let ghost start = *self;
        proof {
            assert(evolution_start(*old(self), start, *spec));
            lemma_event_steps_zero(start);
        }
        let mut count: u64 = 0;
        loop
            invariant
                self.wf(),
                self.rules == old(self).rules,
                self.chain() == old(self).chain(),
                self.limits() == limits_of(*spec),
                self.events.len() == old(self).events.len() + count,
                history_extends(old(self).tokens@, old(self).events@, self.tokens@, self.events@),
                evolution_start(*old(self), start, *spec),
                event_steps(start, *self, count as nat),
            ensures
                exists|m: HypergraphSystem|
                    #[trigger] event_steps(start, m, (self.event_seq().len() - old(self).event_seq().len()) as nat)
                        && m.token_seq() == self.token_seq() && m.event_seq() == self.event_seq(),
            decreases DISABLED as int + 1 - self.events.len(),
        {
            let ghost before = *self;
            match self.replace_once_internal() {
                Ok(true) => {
                    proof {
                        lemma_event_steps_next(start, before, *self, count as nat);
                        assert(self.events.len() == before.events.len() + 1);
                        assert forall|t: int| 0 <= t < old(self).tokens.len() implies (#[trigger] self.tokens@[t]).atoms@
                            == old(self).tokens@[t].atoms@ && self.tokens@[t].creator_event == old(self).tokens@[t].creator_event
                            && self.tokens@[t].generation == old(self).tokens@[t].generation by {
                            assert(before.tokens@[t].atoms@ == old(self).tokens@[t].atoms@);
                        }
                        assert forall|i: int| 0 <= i < old(self).events.len() implies #[trigger] self.events@[i] == old(self).events@[i] by {
                            assert(before.events@[i] == old(self).events@[i]);
                        }
                    }
                    count = count + 1;
                },
                Ok(false) => {
                    proof {
                        assert(stop_explained(before, self.termination_reason));
                        assert(event_steps(start, before, (self.event_seq().len() - old(self).event_seq().len()) as nat));
                    }
                    return Ok(count);
                },
                Err(e) => {
                    proof {
                        assert(event_steps(start, before, (self.event_seq().len() - old(self).event_seq().len()) as nat));
                    }
                    return Err(e);
                },
            }
        }
    }

    /// Applies a single event with no limits (other than a fixed point).
    /// Returns whether an event was applied.
    pub fn replace_once(&mut self) -> (r: Result<bool, Error>)
        requires
            old(self).wf(),
        ensures
            final(self).wf(),
            final(self).rule_seq() == old(self).rule_seq(),
            final(self).chain() == old(self).chain(),
            final(self).limits() == (DISABLED, DISABLED, DISABLED, DISABLED, DISABLED),
            r matches Ok(true) ==> event_step_on(
                old(self).rule_seq(),
                old(self).token_seq(),
                old(self).event_seq(),
                old(self).matchable_under(DISABLED),
                old(self).pending_under(DISABLED),
                old(self).chain(),
                (DISABLED, DISABLED, DISABLED, DISABLED, DISABLED),
                old(self).next_fresh_atom(),
                old(self).rng(),
                *final(self),
            ),
            final(self).rng().1 == old(self).rng().1,
            r matches Ok(false) ==> stop_draw_on(
                old(self).rule_seq(),
                old(self).token_seq(),
                old(self).matchable_under(DISABLED),
                old(self).chain(),
                (DISABLED, DISABLED, DISABLED, DISABLED, DISABLED),
                old(self).rng(),
                final(self).reason(),
                final(self).rng().0,
            ),
            !(r matches Ok(true)) ==> final(self).token_seq() == old(self).token_seq() && final(self).event_seq()
                == old(self).event_seq() && final(self).largest_gen() == old(self).largest_gen(),
            r matches Ok(false) ==> final(self).matchable() == old(self).matchable_under(DISABLED) && stop_explained(
                *final(self),
                final(self).reason(),
            ),
            r matches Err(e) ==> e is DisconnectedInputs || e is AtomCountOverflow,
            r matches Err(Error::DisconnectedInputs) ==> !crate::search::rules_linked(old(self).rule_seq()),
            (r matches Err(e) && e is DisconnectedInputs) <==> old(self).event_seq().len() - 1 < DISABLED && stick_set(
                crate::search::rule_patterns(old(self).rule_seq()),
                crate::token::atoms_seq(old(self).token_seq()),
                old(self).matchable_under(DISABLED),
                old(self).pending_under(DISABLED),
            ),
            r matches Ok(false) && final(self).reason() != TerminationReason::MaxEvents ==> !stick_set(
                crate::search::rule_patterns(old(self).rule_seq()),
                crate::token::atoms_seq(old(self).token_seq()),
                old(self).matchable_under(DISABLED),
                old(self).pending_under(DISABLED),
            ),
            r matches Err(Error::AtomCountOverflow) ==> overflow_on(
                old(self).rule_seq(),
                old(self).token_seq(),
                old(self).event_seq(),
                old(self).matchable_under(DISABLED),
                old(self).chain(),
                (DISABLED, DISABLED, DISABLED, DISABLED, DISABLED),
                old(self).next_fresh_atom(),
            ),
    {
        let spec = StepSpec::default();
        self.update_step_spec(&spec);
        proof {
            assert(self.matchable() == old(self).matchable_under(DISABLED));
        }
        self.replace_once_internal()
    }
}


/// The largest generation among the tokens `ins` (0 when there is none).
pub open spec fn max_input_generation(tokens: Seq<Token>, ins: Seq<TokenId>) -> int
    decreases ins.len(),
{
    if ins.len() == 0 {
        0
    } else {
        let m = max_input_generation(tokens, ins.drop_last());
        let g = tokens[ins.last() as int].generation as int;
        if g > m {
            g
        } else {
            m
        }
    }
}

/// The DOT line of event `id`: its id and the rule that fired.
pub open spec fn dot_node(id: nat, ev: Event) -> Seq<char> {
    "  e"@ + crate::text::decimal(id) + " [label=\"e"@ + crate::text::decimal(id) + match ev.rule {
        Some(r) => " (rule "@ + crate::text::decimal(r as nat) + ")\"];\n"@,
        None => " (init)\"];\n"@,
    }
}

/// The DOT lines of events `first..n`.
pub open spec fn dot_nodes(events: Seq<Event>, first: nat, n: nat) -> Seq<char>
    decreases n,
{
    if n <= first {
        Seq::empty()
    } else {
        dot_nodes(events, first, (n - 1) as nat) + dot_node((n - 1) as nat, events[n - 1])
    }
}

/// The DOT lines of causal edges.
pub open spec fn dot_edges(edges: Seq<(EventId, EventId)>) -> Seq<char>
    decreases edges.len(),
{
    if edges.len() == 0 {
        Seq::empty()
    } else {
        dot_edges(edges.drop_last()) + "  e"@ + crate::text::decimal(edges.last().0 as nat) + " -> e"@ + crate::text::decimal(
            edges.last().1 as nat,
        ) + ";\n"@
    }
}

/// The causal graph in Graphviz DOT format.
pub open spec fn dot_text(tokens: Seq<Token>, events: Seq<Event>, include_initial: bool) -> Seq<char> {
    "digraph causal {\n"@ + dot_nodes(events, if include_initial { 0 } else { 1 }, events.len()) + dot_edges(
        causal_edges(tokens, include_initial),
    ) + "}\n"@
}

impl HypergraphSystem {
    /// The largest generation among the tokens `ins` (0 when there is none).
    fn largest_input_generation(&self, ins: &Vec<TokenId>) -> (g: Generation)
        requires
            forall|k: int| 0 <= k < ins.len() ==> #[trigger] ins@[k] < self.tokens.len(),
        ensures
            g == max_input_generation(self.tokens@, ins@),
    {
        let mut g: Generation = 0;
        let mut k: usize = 0;
        while k < ins.len()
            invariant
                k <= ins.len(),
                forall|q: int| 0 <= q < ins.len() ==> #[trigger] ins@[q] < self.tokens.len(),
                g == max_input_generation(self.tokens@, ins@.take(k as int)),
            decreases ins.len() - k,
        {
            proof {
                assert(ins@.take(k + 1).drop_last() =~= ins@.take(k as int));
            }
            let c = self.tokens[ins[k]].generation;
            if c > g {
                g = c;
            }
            k = k + 1;
        }
        proof {
            assert(ins@.take(ins.len() as int) =~= ins@);
        }
        g
    }

    /// Number of distinct atoms in the current state.
    pub fn final_atom_count(&self) -> (r: usize)
        ensures
            r == atoms_of(current_state(self.token_seq())).len(),
    {
        let st = self.final_state();
        distinct_atom_count(&st)
    }

    /// Largest generation that is both reached and fully exhausted: no
    /// remaining match could produce a token at or below it
    /// (`"MaxCompleteGeneration"`). Pending tokens are indexed first.
    pub fn max_complete_generation(&mut self) -> (r: Result<Generation, Error>)
        requires
            old(self).wf(),
        ensures
            final(self).wf(),
            final(self).rule_seq() == old(self).rule_seq(),
            final(self).token_seq() == old(self).token_seq(),
            final(self).event_seq() == old(self).event_seq(),
            final(self).matchable() == old(self).matchable(),
            final(self).chain() == old(self).chain(),
            final(self).limits() == old(self).limits(),
            final(self).largest_gen() == old(self).largest_gen(),
            final(self).reason() == old(self).reason(),
            final(self).next_fresh_atom() == old(self).next_fresh_atom(),
            r matches Ok(g) ==> {
                let ms = valid_matches(old(self).rule_seq(), old(self).token_seq(), old(self).matchable());
                &&& g <= old(self).largest_gen()
                &&& forall|m: crate::ordering::MatchSpec| #[trigger] ms.contains(m) ==> g <= max_input_generation(
                    old(self).token_seq(),
                    m.1,
                )
                &&& g == old(self).largest_gen() || exists|m: crate::ordering::MatchSpec|
                    #[trigger] ms.contains(m) && g == max_input_generation(old(self).token_seq(), m.1)
            },
            r matches Err(e) ==> e is DisconnectedInputs && !crate::search::rules_linked(old(self).rule_seq()),
    {
        match self.index_new_tokens() {
            Ok(()) => {},
            Err(e) => {
                return Err(e);
            },
        }
        let ghost ms = valid_matches(self.rules@, self.tokens@, self.matchable());
        proof {
            assert(self.unindexed@.to_set() =~= Set::<TokenId>::empty());
            assert(self.matchable() =~= self.atoms_index.indexed());
        }
        let all = self.matcher.iter();
        let mut smallest = self.largest_generation;
        let ghost found: bool = false;
        let mut i: usize = 0;
        while i < all.len()
            invariant
                i <= all.len(),
                self.wf(),
                ms == valid_matches(self.rules@, self.tokens@, self.matchable()),
                self.matcher.matches() == ms,
                forall|k: int| 0 <= k < all.len() ==> self.matcher.matches().contains(#[trigger] all@[k]@),
                smallest <= self.largest_generation,
                forall|k: int| 0 <= k < i ==> smallest <= max_input_generation(self.tokens@, #[trigger] all@[k]@.1),
                smallest == self.largest_generation || exists|m: crate::ordering::MatchSpec|
                    #[trigger] ms.contains(m) && smallest == max_input_generation(self.tokens@, m.1),
            decreases all.len() - i,
        {
            let m = &all[i];
            proof {
                assert(ms.contains(m@));
                assert(crate::search::valid_match(
                    crate::search::rule_patterns(self.rules@),
                    crate::token::atoms_seq(self.tokens@),
                    self.atoms_index.indexed(),
                    m@,
                ));
                assert forall|k: int| 0 <= k < m.inputs.len() implies #[trigger] m.inputs@[k] < self.tokens.len() by {
                    assert(self.atoms_index.indexed().contains(m.inputs@[k]));
                }
            }
            let g = self.largest_input_generation(&m.inputs);
            if g < smallest {
                smallest = g;
            }
            i = i + 1;
        }
        proof {
            assert forall|m: crate::ordering::MatchSpec| #[trigger] ms.contains(m) implies smallest <= max_input_generation(self.tokens@, m.1) by {
                assert(self.matcher.matches().contains(m));
                assert(crate::matcher::holds_match(all@, m));
                let k = choose|k: int| 0 <= k < all.len() && #[trigger] all@[k]@ == m;
                assert(smallest <= max_input_generation(self.tokens@, all@[k]@.1));
            }
            assert(ms == valid_matches(old(self).rule_seq(), old(self).token_seq(), old(self).matchable()));
        }
        Ok(smallest)
    }

    /// The causal graph in Graphviz DOT format. Nodes are labeled with the
    /// event id and the rule that fired.
    pub fn causal_graph_dot(&self, include_initial: bool) -> (r: String)
        ensures
            r@ == dot_text(self.token_seq(), self.event_seq(), include_initial),
    {
        let mut out = String::from_str("digraph causal {\n");
        let first: usize = if include_initial {
            0
        } else {
            1
        };
        let ghost head = out@;
        let mut id: usize = first;
        if id > self.events.len() {
            id = self.events.len();
        }
        proof {
            assert(dot_nodes(self.events@, first as nat, id as nat) == Seq::<char>::empty());
        }
        while id < self.events.len()
            invariant
                first <= id <= self.events.len() || (id == self.events.len() && first > id),
                out@ == head + dot_nodes(self.events@, first as nat, id as nat),
            decreases self.events.len() - id,
        {
            let ghost before = out@;
            out.append("  e");
            crate::text::push_decimal(&mut out, id as u64);
            out.append(" [label=\"e");
            crate::text::push_decimal(&mut out, id as u64);
            match self.events[id].rule {
                Some(r) => {
                    out.append(" (rule ");
                    crate::text::push_decimal(&mut out, r as u64);
                    out.append(")\"];\n");
                },
                None => {
                    out.append(" (init)\"];\n");
                },
            }
            proof {
                assert(out@ =~= before + dot_node(id as nat, self.events@[id as int]));
            }
            id = id + 1;
        }
        let edges = self.causal_graph_edges(include_initial);
        let ghost mid = out@;
        let mut k: usize = 0;
        while k < edges.len()
            invariant
                k <= edges.len(),
                out@ == mid + dot_edges(edges@.take(k as int)),
            decreases edges.len() - k,
        {
            let ghost before = out@;
            let (from, to) = edges[k];
            out.append("  e");
            crate::text::push_decimal(&mut out, from as u64);
            out.append(" -> e");
            crate::text::push_decimal(&mut out, to as u64);
            out.append(";\n");
            proof {
                assert(edges@.take(k + 1).drop_last() =~= edges@.take(k as int));
                assert(out@ =~= mid + dot_edges(edges@.take(k + 1)));
            }
            k = k + 1;
        }
        proof {
            assert(edges@.take(edges.len() as int) =~= edges@);
        }
        out.append("}\n");
        proof {
            assert(out@ =~= dot_text(self.token_seq(), self.event_seq(), include_initial));
        }
        out
    }
}

/// Every token of `tokens` is created by one of the first `n` events and,
/// when consumed, consumed by a later one of them.
spec fn history_within(tokens: Seq<Token>, n: int) -> bool {
    forall|t: int|
        0 <= t < tokens.len() ==> (#[trigger] tokens[t]).creator_event < n && (tokens[t].destroyer_event is Some
            ==> tokens[t].creator_event < tokens[t].destroyer_event->Some_0 < n)
}

proof fn lemma_gen_zero_state(tokens: Seq<Token>, events: Seq<Event>)
    requires
        forall|t: int| 0 <= t < tokens.len() ==> (present_at_generation(#[trigger] tokens[t], events, 0) <==> present_after(tokens[t], 0)),
    ensures
        state_at_gen(tokens, events, 0) == state_after(tokens, 0),
    decreases tokens.len(),
{
    if tokens.len() > 0 {
        assert(tokens.last() == tokens[tokens.len() - 1]);
        let rest = tokens.drop_last();
        assert forall|t: int| 0 <= t < rest.len() implies (present_at_generation(#[trigger] rest[t], events, 0)
            <==> present_after(rest[t], 0)) by {
            assert(rest[t] == tokens[t]);
        }
        lemma_gen_zero_state(rest, events);
    }
}

proof fn lemma_state_after_all(tokens: Seq<Token>, n: int)
    requires
        history_within(tokens, n + 1),
    ensures
        state_after(tokens, n) == current_state(tokens),
    decreases tokens.len(),
{
    if tokens.len() > 0 {
        assert(tokens.last() == tokens[tokens.len() - 1]);
        lemma_state_after_all(tokens.drop_last(), n);
    }
}

proof fn lemma_state_at_last_gen(tokens: Seq<Token>, events: Seq<Event>, g: int)
    requires
        forall|t: int| 0 <= t < tokens.len() ==> (#[trigger] tokens[t]).generation <= g,
        forall|t: int|
            0 <= t < tokens.len() && (#[trigger] tokens[t]).destroyer_event is Some ==> events[tokens[t].destroyer_event->Some_0 as int].generation
                <= g,
    ensures
        state_at_gen(tokens, events, g) == current_state(tokens),
    decreases tokens.len(),
{
    if tokens.len() > 0 {
        assert(tokens.last() == tokens[tokens.len() - 1]);
        lemma_state_at_last_gen(tokens.drop_last(), events, g);
    }
}

proof fn lemma_causal_edges_forward(tokens: Seq<Token>, n: int, include_initial: bool)
    requires
        history_within(tokens, n),
    ensures
        forall|i: int|
            0 <= i < causal_edges(tokens, include_initial).len() ==> (#[trigger] causal_edges(tokens, include_initial)[i]).0
                < causal_edges(tokens, include_initial)[i].1 < n,
    decreases tokens.len(),
{
    if tokens.len() > 0 {
        assert(tokens.last() == tokens[tokens.len() - 1]);
        lemma_causal_edges_forward(tokens.drop_last(), n, include_initial);
        let rest = causal_edges(tokens.drop_last(), include_initial);
        let all = causal_edges(tokens, include_initial);
        assert forall|i: int| 0 <= i < all.len() implies (#[trigger] all[i]).0 < all[i].1 < n by {
            if i < rest.len() {
                assert(all[i] == rest[i]);
            }
        }
    }
}

impl HypergraphSystem {
    /// The history's lengths fit in `usize`.
    pub proof fn lemma_history_fits(&self)
        ensures
            self.token_seq().len() <= usize::MAX,
            self.event_seq().len() <= usize::MAX,
    {
        assert(self.events.len() == self.events@.len());
        assert(self.tokens.len() == self.tokens@.len());
    }

    /// The atoms of a well-formed system: all positive, and, unless the next
    /// fresh atom is `Atom::MAX`, below it, as are the atoms of the rules,
    /// which obey the rule conventions.
    pub proof fn lemma_atoms_bounded(&self)
        requires
            self.wf(),
        ensures
            crate::token::positive_tokens(crate::token::atoms_seq(self.token_seq())),
            rules_ok(self.rule_seq()),
            self.next_fresh_atom() >= 1,
            self.next_fresh_atom() != Atom::MAX ==> atoms_below(crate::token::atoms_seq(self.token_seq()), self.next_fresh_atom() as int)
                && forall|r: int|
                0 <= r < self.rule_seq().len() ==> atoms_below((#[trigger] self.rule_seq()[r]).spec_inputs(), self.next_fresh_atom() as int)
                    && atoms_below(self.rule_seq()[r].spec_outputs(), self.next_fresh_atom() as int),
    {
    }

    /// Every token of a well-formed system is created by one of its events
    /// and, when consumed, consumed by a later one.
    pub proof fn lemma_history_bounds(&self)
        requires
            self.wf(),
        ensures
            forall|t: int|
                0 <= t < self.token_seq().len() ==> (#[trigger] self.token_seq()[t]).creator_event < self.event_seq().len()
                    && (self.token_seq()[t].destroyer_event is Some ==> self.token_seq()[t].creator_event
                    < self.token_seq()[t].destroyer_event->Some_0 < self.event_seq().len()),
    {
    }

    /// The matchable tokens of a well-formed system are live tokens.
    pub proof fn lemma_matchable_within(&self)
        requires
            self.wf(),
        ensures
            forall|t: TokenId| #[trigger] self.matchable().contains(t) ==> t < self.token_seq().len(),
    {
        assert forall|t: TokenId| #[trigger] self.matchable().contains(t) implies t < self.token_seq().len() by {
            if !self.atoms_index.indexed().contains(t) {
                let k = choose|k: int| 0 <= k < self.unindexed@.len() && self.unindexed@[k] == t;
                assert(self.unindexed@[k] < self.tokens.len());
            }
        }
    }

    proof fn lemma_history_within(&self)
        requires
            self.wf(),
        ensures
            history_within(self.token_seq(), self.event_seq().len() as int),
    {
    }

    /// Law: the final state is the state after the last event.
    pub proof fn final_state_is_state_after_last_event(&self)
        requires
            self.wf(),
        ensures
            current_state(self.token_seq()) == state_after(self.token_seq(), self.event_seq().len() - 1),
    {
        self.lemma_history_within();
        lemma_state_after_all(self.token_seq(), self.event_seq().len() - 1);
    }

    /// Law: the state at any generation from the last one on is the final
    /// state.
    pub proof fn state_past_last_generation_is_final(&self, g: int)
        requires
            self.wf(),
            g >= self.largest_gen(),
        ensures
            state_at_gen(self.token_seq(), self.event_seq(), g) == current_state(self.token_seq()),
    {
        let tokens = self.token_seq();
        let events = self.event_seq();
        assert forall|t: int| 0 <= t < tokens.len() && (#[trigger] tokens[t]).destroyer_event is Some implies events[tokens[t].destroyer_event->Some_0 as int].generation
            <= g by {
            let e = tokens[t].destroyer_event->Some_0 as int;
            assert(0 <= e < events.len());
            assert(events[e].generation <= self.largest_gen());
        }
        lemma_state_at_last_gen(tokens, events, g);
    }

    /// Law: every token is among the outputs of the event that created it,
    /// and has that event's generation.
    pub proof fn tokens_come_from_their_creators(&self)
        requires
            self.wf(),
        ensures
            forall|t: int|
                0 <= t < self.token_seq().len() ==> self.event_seq()[(#[trigger] self.token_seq()[t]).creator_event as int].outputs@.contains(
                    t as TokenId,
                ) && self.event_seq()[self.token_seq()[t].creator_event as int].generation == self.token_seq()[t].generation,
    {
    }

    /// Law: the initial pseudo-event is of generation 0 and every later event
    /// of a positive generation, so the state at generation 0 is the initial
    /// state, the state after no event.
    pub proof fn generation_zero_is_initial_state(&self)
        requires
            self.wf(),
        ensures
            self.event_seq()[0].generation == 0,
            forall|e: int| 1 <= e < self.event_seq().len() ==> (#[trigger] self.event_seq()[e]).generation >= 1,
            state_at_gen(self.token_seq(), self.event_seq(), 0) == state_after(self.token_seq(), 0),
    {
        let tokens = self.token_seq();
        let events = self.event_seq();
        assert forall|t: int| 0 <= t < tokens.len() implies (present_at_generation(#[trigger] tokens[t], events, 0)
            <==> present_after(tokens[t], 0)) by {
            let c = tokens[t].creator_event as int;
            assert(self.events@[(self.tokens@[t]).creator_event as int].generation == self.tokens@[t].generation);
            if c >= 1 {
                assert(events[c].generation >= 1);
            }
            if tokens[t].destroyer_event is Some {
                let d = tokens[t].destroyer_event->Some_0 as int;
                assert(c < d < events.len());
                assert(events[d].generation >= 1);
            }
        }
        lemma_gen_zero_state(tokens, events);
    }

    /// Law: each event replaces its inputs by its outputs: a token is present
    /// after event `k` exactly when it was present after event `k - 1` and
    /// is not an input of event `k`, or is an output of event `k`; the
    /// inputs were present after event `k - 1`, and the outputs were not.
    pub proof fn each_event_replaces_its_inputs_by_its_outputs(&self, k: int)
        requires
            self.wf(),
            1 <= k < self.event_seq().len(),
        ensures
            forall|t: int|
                0 <= t < self.token_seq().len() ==> (present_after(#[trigger] self.token_seq()[t], k) <==> (present_after(
                    self.token_seq()[t],
                    k - 1,
                ) && !self.event_seq()[k].inputs@.contains(t as TokenId)) || self.event_seq()[k].outputs@.contains(t as TokenId)),
            forall|q: int|
                0 <= q < self.event_seq()[k].inputs@.len() ==> #[trigger] self.event_seq()[k].inputs@[q] < self.token_seq().len()
                    && present_after(self.token_seq()[self.event_seq()[k].inputs@[q] as int], k - 1),
            forall|q: int|
                0 <= q < self.event_seq()[k].outputs@.len() ==> #[trigger] self.event_seq()[k].outputs@[q] < self.token_seq().len()
                    && !present_after(self.token_seq()[self.event_seq()[k].outputs@[q] as int], k - 1),
    {
        let tokens = self.token_seq();
        let events = self.event_seq();
        assert forall|t: int| 0 <= t < tokens.len() implies (present_after(#[trigger] tokens[t], k) <==> (present_after(tokens[t], k - 1)
            && !events[k].inputs@.contains(t as TokenId)) || events[k].outputs@.contains(t as TokenId)) by {
            let tok = tokens[t];
            assert(self.events@[(self.tokens@[t]).creator_event as int].outputs@.contains(t as TokenId));
            if events[k].outputs@.contains(t as TokenId) {
                let q = choose|q: int| 0 <= q < events[k].outputs@.len() && events[k].outputs@[q] == t as TokenId;
                assert(self.events@[k].outputs@[q] < self.tokens.len());
                assert(tok.creator_event == k);
            }
            if events[k].inputs@.contains(t as TokenId) {
                let q = choose|q: int| 0 <= q < events[k].inputs@.len() && events[k].inputs@[q] == t as TokenId;
                assert(self.events@[k].inputs@[q] < self.tokens.len());
                assert(tok.destroyer_event == Some(k as EventId));
            }
            if tok.destroyer_event is Some {
                assert(self.events@[self.tokens@[t].destroyer_event->Some_0 as int].inputs@.contains(t as TokenId));
            }
        }
        assert forall|q: int| 0 <= q < events[k].inputs@.len() implies #[trigger] events[k].inputs@[q] < tokens.len() && present_after(
            tokens[events[k].inputs@[q] as int],
            k - 1,
        ) by {
            assert(self.events@[k].inputs@[q] < self.tokens.len());
            let t = events[k].inputs@[q] as int;
            assert(self.tokens@[t].destroyer_event is Some);
        }
        assert forall|q: int| 0 <= q < events[k].outputs@.len() implies #[trigger] events[k].outputs@[q] < tokens.len() && !present_after(
            tokens[events[k].outputs@[q] as int],
            k - 1,
        ) by {
            assert(self.events@[k].outputs@[q] < self.tokens.len());
        }
    }

    /// Law: every causal edge leads from an event to a later event of the
    /// history.
    pub proof fn causal_edges_go_forward(&self, include_initial: bool)
        requires
            self.wf(),
        ensures
            forall|i: int|
                0 <= i < causal_edges(self.token_seq(), include_initial).len() ==> (#[trigger] causal_edges(
                    self.token_seq(),
                    include_initial,
                )[i]).0 < causal_edges(self.token_seq(), include_initial)[i].1 < self.event_seq().len(),
    {
        self.lemma_history_within();
        lemma_causal_edges_forward(self.token_seq(), self.event_seq().len() as int, include_initial);
    }
}

/// Two histories are the same: equal tokens (atoms, creator, destroyer,
/// generation) and equal events (rule, inputs, outputs, generation).
pub open spec fn same_history(t1: Seq<Token>, e1: Seq<Event>, t2: Seq<Token>, e2: Seq<Event>) -> bool {
    &&& t1.len() == t2.len()
    &&& e1.len() == e2.len()
    &&& forall|t: int|
        0 <= t < t1.len() ==> (#[trigger] t1[t]).atoms@ == t2[t].atoms@ && t1[t].creator_event == t2[t].creator_event
            && t1[t].destroyer_event == t2[t].destroyer_event && t1[t].generation == t2[t].generation
    &&& forall|i: int|
        0 <= i < e1.len() ==> (#[trigger] e1[i]).rule == e2[i].rule && e1[i].inputs@ == e2[i].inputs@ && e1[i].outputs@
            == e2[i].outputs@ && e1[i].generation == e2[i].generation
}

/// Law: when the event ordering tells all distinct matches apart, the next
/// event is determined: two steps from the same system give the same
/// history and the same next fresh atom.
pub proof fn next_event_is_determined(m: HypergraphSystem, a: HypergraphSystem, b: HypergraphSystem)
    requires
        forall|x: crate::ordering::MatchSpec, y: crate::ordering::MatchSpec|
            #[trigger] crate::ordering::chain_order(m.chain(), x, y) == 0 ==> x == y,
        event_step(m, a),
        event_step(m, b),
    ensures
        same_history(a.token_seq(), a.event_seq(), b.token_seq(), b.event_seq()),
        a.next_fresh_atom() == b.next_fresh_atom(),
{
    let e = m.event_seq().len();
    let n = m.token_seq().len();
    let eva = a.event_seq()[e as int];
    let evb = b.event_seq()[e as int];
    let ms = valid_matches(m.rule_seq(), m.token_seq(), m.matchable());
    let xa: crate::ordering::MatchSpec = (eva.rule->Some_0, eva.inputs@);
    let xb: crate::ordering::MatchSpec = (evb.rule->Some_0, evb.inputs@);
    assert(ms.contains(xb));
    assert(ms.contains(xa));
    crate::ordering::lemma_chain_antisym(m.chain(), xa, xb);
    assert(crate::ordering::chain_order(m.chain(), xa, xb) == 0);
    assert(xa == xb);
    let ta = a.token_seq();
    let tb = b.token_seq();
    assert forall|t: int| 0 <= t < ta.len() implies (#[trigger] ta[t]).atoms@ == tb[t].atoms@ && ta[t].creator_event
        == tb[t].creator_event && ta[t].destroyer_event == tb[t].destroyer_event && ta[t].generation == tb[t].generation by {
        if t >= n {
            assert(ta[n + (t - n)] == ta[t]);
            assert(tb[n + (t - n)] == tb[t]);
        }
    }
    let ea = a.event_seq();
    let eb = b.event_seq();
    assert forall|i: int| 0 <= i < ea.len() implies (#[trigger] ea[i]).rule == eb[i].rule && ea[i].inputs@ == eb[i].inputs@
        && ea[i].outputs@ == eb[i].outputs@ && ea[i].generation == eb[i].generation by {
        if i < e {
            assert(ea[i] == m.event_seq()[i]);
            assert(eb[i] == m.event_seq()[i]);
        }
    }
}

/// Two listings of the same tied matches are equally long.
proof fn lemma_lists_first_len(
    chain: Seq<(crate::ordering::OrdFn, bool)>,
    ms: Set<crate::ordering::MatchSpec>,
    a: Seq<crate::ordering::MatchSpec>,
    b: Seq<crate::ordering::MatchSpec>,
)
    requires
        lists_first(chain, ms, a),
        lists_first(chain, ms, b),
    ensures
        a.len() == b.len(),
{
    assert(a.to_set() =~= b.to_set()) by {
        assert forall|x: crate::ordering::MatchSpec| a.to_set().contains(x) <==> b.to_set().contains(x) by {
            assert(a.contains(x) <==> first_match(chain, ms, x));
            assert(b.contains(x) <==> first_match(chain, ms, x));
        }
    }
    a.unique_seq_to_set();
    b.unique_seq_to_set();
}

/// Law: the tie-break generator advances the same way whichever tied match
/// an event takes: two steps from the same system leave it in the same
/// state, which is the seeded draw's over the number of tied matches.
pub proof fn tie_break_advances_alike(m: HypergraphSystem, a: HypergraphSystem, b: HypergraphSystem)
    requires
        event_step(m, a),
        event_step(m, b),
    ensures
        a.rng() == b.rng(),
        a.rng().1 == m.rng().1,
{
    let e = m.event_seq().len();
    let ms = valid_matches(m.rule_seq(), m.token_seq(), m.matchable());
    let eva = a.event_seq()[e as int];
    let evb = b.event_seq()[e as int];
    let xa: crate::ordering::MatchSpec = (eva.rule->Some_0, eva.inputs@);
    let xb: crate::ordering::MatchSpec = (evb.rule->Some_0, evb.inputs@);
    assert(drawn(m.chain(), ms, m.rng(), xa, a.rng().0));
    assert(drawn(m.chain(), ms, m.rng(), xb, b.rng().0));
    let ta = choose|tied: Seq<crate::ordering::MatchSpec>|
        #[trigger] lists_first(m.chain(), ms, tied) && tied[tie_pick(m.chain(), m.rng().0, m.rng().1, tied.len())] == xa
            && a.rng().0 == tie_advance(m.chain(), m.rng().0, m.rng().1, tied.len());
    let tb = choose|tied: Seq<crate::ordering::MatchSpec>|
        #[trigger] lists_first(m.chain(), ms, tied) && tied[tie_pick(m.chain(), m.rng().0, m.rng().1, tied.len())] == xb
            && b.rng().0 == tie_advance(m.chain(), m.rng().0, m.rng().1, tied.len());
    lemma_lists_first_len(m.chain(), ms, ta, tb);
}

/// Law: under the default event ordering the evolution is deterministic:
/// two steps from the same system give the same history.
pub proof fn default_ordering_is_deterministic(m: HypergraphSystem, a: HypergraphSystem, b: HypergraphSystem)
    requires
        m.chain() == crate::ordering::translate(crate::ordering::spec_default_event_ordering()),
        event_step(m, a),
        event_step(m, b),
    ensures
        same_history(a.token_seq(), a.event_seq(), b.token_seq(), b.event_seq()),
        a.next_fresh_atom() == b.next_fresh_atom(),
{
    assert forall|x: crate::ordering::MatchSpec, y: crate::ordering::MatchSpec|
        #[trigger] crate::ordering::chain_order(m.chain(), x, y) == 0 implies x == y by {
        crate::ordering::lemma_default_ordering_total(x, y);
    }
    next_event_is_determined(m, a, b);
}

/// After an event consuming `ins` and creating `named`, the state is the
/// kept edges followed by the new ones.
pub proof fn lemma_state_after_event_applied(
    t0: Seq<Token>,
    e0: Seq<Event>,
    t1: Seq<Token>,
    e1: Seq<Event>,
    r: usize,
    ins: Seq<TokenId>,
    named: Seq<Seq<Atom>>,
    g: int,
    k: int,
)
    requires
        event_applied(t0, e0, t1, e1, r, ins, named, g),
        0 <= k <= t1.len(),
    ensures
        current_state(t1.take(k)) == if k <= t0.len() {
            kept_state(t0.take(k), ins)
        } else {
            kept_state(t0, ins) + named.take(k - t0.len())
        },
    decreases k,
{
    let n = t0.len();
    if k == 0 {
        assert(t1.take(0) =~= Seq::<Token>::empty());
        assert(t0.take(0) =~= Seq::<Token>::empty());
    } else {
        lemma_state_after_event_applied(t0, e0, t1, e1, r, ins, named, g, k - 1);
        assert(t1.take(k).drop_last() =~= t1.take(k - 1));
        assert(t1.take(k).last() == t1[k - 1]);
        if k <= n {
            assert(t0.take(k).drop_last() =~= t0.take(k - 1));
            assert(t0.take(k).last() == t0[k - 1]);
            assert(t0.take(k).len() == k);
        } else {
            let q = k - 1 - n;
            assert(t1[n + q] == t1[k - 1]);
            if k - 1 == n {
                assert(t0.take(n as int) =~= t0);
                assert(named.take(1) =~= seq![named[0]]);
                assert(kept_state(t0, ins) + named.take(0) =~= kept_state(t0, ins));
            }
            assert(named.take(k - n) =~= named.take(k - 1 - n).push(named[q]));
            assert(kept_state(t0, ins) + named.take(k - n) =~= (kept_state(t0, ins) + named.take(k - 1 - n)).push(named[q]));
        }
    }
}

/// Every atom from `lo` up to, not including, `hi` is an atom of one of the
/// tokens.
pub open spec fn atoms_used(tokens: Seq<Token>, lo: int, hi: int) -> bool {
    forall|a: Atom| lo <= a < hi ==> #[trigger] crate::rule::edges_contain(crate::token::atoms_seq(tokens), a)
}

/// One event takes fresh atoms from the next fresh atom on without skipping
/// any, and keeps the atoms of the earlier tokens.
proof fn lemma_step_fresh(m: HypergraphSystem, s1: HypergraphSystem)
    requires
        event_step(m, s1),
    ensures
        m.next_fresh_atom() <= s1.next_fresh_atom(),
        atoms_used(s1.token_seq(), m.next_fresh_atom() as int, s1.next_fresh_atom() as int),
        forall|a: Atom|
            crate::rule::edges_contain(crate::token::atoms_seq(m.token_seq()), a) ==> #[trigger] crate::rule::edges_contain(
                crate::token::atoms_seq(s1.token_seq()),
                a,
            ),
{
    let t0 = m.token_seq();
    let t1 = s1.token_seq();
    let n = t0.len();
    let e = m.event_seq().len();
    let ev = s1.event_seq()[e as int];
    let r = ev.rule->Some_0;
    let ins = ev.inputs@;
    let outs = event_outputs(m.rule_seq(), t0, r, ins);
    let named = named_edges(m.next_fresh_atom(), outs)->Some_0.0;
    let a0 = crate::token::atoms_seq(t0);
    let a1 = crate::token::atoms_seq(t1);
    assert forall|a: Atom| m.next_fresh_atom() <= a < s1.next_fresh_atom() implies #[trigger] crate::rule::edges_contain(a1, a) by {
        assert(crate::rule::edges_contain(named, a));
        let (i, j) = choose|i: int, j: int| 0 <= i < named.len() && 0 <= j < named[i].len() && named[i][j] == a;
        assert(t1[n + i].atoms@ == named[i]);
        assert(a1[n + i] == t1[n + i].atoms@);
    }
    assert forall|a: Atom| crate::rule::edges_contain(a0, a) implies #[trigger] crate::rule::edges_contain(a1, a) by {
        let (t, j) = choose|t: int, j: int| 0 <= t < a0.len() && 0 <= j < a0[t].len() && a0[t][j] == a;
        assert(t1[t].atoms@ == t0[t].atoms@);
        assert(a1[t] == a0[t]);
    }
}

proof fn lemma_trace_fresh(trace: Seq<HypergraphSystem>, i: int)
    requires
        is_run(trace),
        0 <= i < trace.len(),
    ensures
        trace[0].next_fresh_atom() <= trace[i].next_fresh_atom(),
        atoms_used(trace[i].token_seq(), trace[0].next_fresh_atom() as int, trace[i].next_fresh_atom() as int),
    decreases i,
{
    if i > 0 {
        lemma_trace_fresh(trace, i - 1);
        let m = trace[i - 1];
        let s1 = trace[i];
        assert(event_step(trace[i - 1], trace[i - 1 + 1]));
        lemma_step_fresh(m, s1);
        assert forall|a: Atom| trace[0].next_fresh_atom() <= a < s1.next_fresh_atom() implies #[trigger] crate::rule::edges_contain(
            crate::token::atoms_seq(s1.token_seq()),
            a,
        ) by {
            if a < m.next_fresh_atom() {
                assert(crate::rule::edges_contain(crate::token::atoms_seq(m.token_seq()), a));
            }
        }
    }
}

/// Law: over a run, fresh atoms are taken in order and none is skipped:
/// the next fresh atom never goes down, and every atom from the first
/// system's next fresh atom up to the last one's is an atom of a token of
/// the last system's history.
pub proof fn run_uses_fresh_atoms_without_gaps(s0: HypergraphSystem, s1: HypergraphSystem, k: nat)
    requires
        event_steps(s0, s1, k),
    ensures
        s0.next_fresh_atom() <= s1.next_fresh_atom(),
        atoms_used(s1.token_seq(), s0.next_fresh_atom() as int, s1.next_fresh_atom() as int),
{
    let trace = choose|trace: Seq<HypergraphSystem>|
        #[trigger] is_run(trace) && trace.len() == k + 1 && trace[0] == s0 && trace.last() == s1;
    lemma_trace_fresh(trace, k as int);
}

/// Every matchable token of `s` has a generation below `cap`.
pub open spec fn matchable_below(s: HypergraphSystem, cap: int) -> bool {
    forall|t: TokenId| #[trigger] s.matchable().contains(t) ==> s.token_seq()[t as int].generation < cap
}

/// The generation of an event is at most `cap` when each of its inputs is
/// below `cap`.
proof fn lemma_inputs_generation_at_most(tokens: Seq<Token>, ins: Seq<TokenId>, cap: int)
    requires
        0 <= cap,
        forall|q: int| 0 <= q < ins.len() ==> tokens[#[trigger] ins[q] as int].generation < cap,
    ensures
        inputs_generation(tokens, ins) <= cap,
    decreases ins.len(),
{
    if ins.len() > 0 {
        let rest = ins.drop_last();
        assert forall|q: int| 0 <= q < rest.len() implies tokens[#[trigger] rest[q] as int].generation < cap by {
            assert(rest[q] == ins[q]);
        }
        lemma_inputs_generation_at_most(tokens, rest, cap);
        assert(tokens[ins[ins.len() - 1] as int].generation < cap);
    }
}

/// Law: an event taken while every matchable token is below the generation
/// limit has a generation within the limit, and every token matchable after
/// it is again below the limit (outputs at the limit are never matched).
pub proof fn step_respects_generation_limit(m: HypergraphSystem, s1: HypergraphSystem)
    requires
        m.wf(),
        event_step(m, s1),
        matchable_below(m, m.limits().1 as int),
    ensures
        s1.event_seq()[m.event_seq().len() as int].generation <= m.limits().1,
        matchable_below(s1, m.limits().1 as int),
{
    let t0 = m.token_seq();
    let e = m.event_seq().len();
    let ev = s1.event_seq()[e as int];
    let r = ev.rule->Some_0;
    let ins = ev.inputs@;
    let cap = m.limits().1 as int;
    let ms = valid_matches(m.rule_seq(), t0, m.matchable());
    m.lemma_matchable_within();
    assert(ms.contains((r, ins)));
    assert(crate::search::valid_match(crate::search::rule_patterns(m.rule_seq()), crate::token::atoms_seq(t0), m.matchable(), (r, ins)));
    assert forall|q: int| 0 <= q < ins.len() implies t0[#[trigger] ins[q] as int].generation < cap by {
        assert(m.matchable().contains(ins[q]));
    }
    lemma_inputs_generation_at_most(t0, ins, cap);
    let g = inputs_generation(t0, ins);
    let t1 = s1.token_seq();
    assert forall|t: TokenId| #[trigger] s1.matchable().contains(t) implies t1[t as int].generation < cap by {
        if m.matchable().contains(t) && !ins.to_set().contains(t) {
            assert(t < t0.len());
            assert(t1[t as int].generation == t0[t as int].generation);
        } else {
            assert(g < cap && t0.len() <= t < t1.len());
            let k = t - t0.len();
            assert(t1[t0.len() + k].generation == g);
        }
    }
}

/// Law: along a run that starts with every matchable token below the
/// generation limit, no event goes beyond the limit, and the matchable
/// tokens stay below it; the earlier events stay as they were.
pub proof fn run_respects_generation_limit(s0: HypergraphSystem, s1: HypergraphSystem, k: nat)
    requires
        event_steps(s0, s1, k),
        matchable_below(s0, s0.limits().1 as int),
    ensures
        forall|e: int| s0.event_seq().len() <= e < s1.event_seq().len() ==> #[trigger] s1.event_seq()[e].generation <= s0.limits().1,
        forall|e: int| 0 <= e < s0.event_seq().len() ==> #[trigger] s1.event_seq()[e] == s0.event_seq()[e],
        matchable_below(s1, s0.limits().1 as int),
{
    let trace = choose|trace: Seq<HypergraphSystem>|
        #[trigger] is_run(trace) && trace.len() == k + 1 && trace[0] == s0 && trace.last() == s1;
    lemma_run_generations(trace, 0);
}

proof fn lemma_run_generations(trace: Seq<HypergraphSystem>, i: int)
    requires
        is_run(trace),
        0 <= i < trace.len(),
        matchable_below(trace[i], trace[0].limits().1 as int),
        forall|e: int|
            trace[0].event_seq().len() <= e < trace[i].event_seq().len() ==> #[trigger] trace[i].event_seq()[e].generation
                <= trace[0].limits().1,
        trace[0].event_seq().len() <= trace[i].event_seq().len(),
        forall|e: int| 0 <= e < trace[0].event_seq().len() ==> #[trigger] trace[i].event_seq()[e] == trace[0].event_seq()[e],
    ensures
        matchable_below(trace.last(), trace[0].limits().1 as int),
        forall|e: int| 0 <= e < trace[0].event_seq().len() ==> #[trigger] trace.last().event_seq()[e] == trace[0].event_seq()[e],
        forall|e: int|
            trace[0].event_seq().len() <= e < trace.last().event_seq().len() ==> #[trigger] trace.last().event_seq()[e].generation
                <= trace[0].limits().1,
    decreases trace.len() - i,
{
    if i < trace.len() - 1 {
        let m = trace[i];
        let s1 = trace[i + 1];
        assert(event_step(m, s1));
        assert(m.wf() && m.limits() == trace[0].limits());
        step_respects_generation_limit(m, s1);
        let e0 = m.event_seq();
        let e1 = s1.event_seq();
        let ev = e1[e0.len() as int];
        let r = ev.rule->Some_0;
        let ins = ev.inputs@;
        let named = named_edges(m.next_fresh_atom(), event_outputs(m.rule_seq(), m.token_seq(), r, ins))->Some_0.0;
        assert(event_applied(m.token_seq(), e0, s1.token_seq(), e1, r, ins, named, inputs_generation(m.token_seq(), ins)));
        assert forall|e: int| trace[0].event_seq().len() <= e < e1.len() implies #[trigger] e1[e].generation <= trace[0].limits().1 by {
            if e < e0.len() {
                assert(e1[e] == e0[e]);
            }
        }
        assert forall|e: int| 0 <= e < trace[0].event_seq().len() implies #[trigger] e1[e] == trace[0].event_seq()[e] by {
            assert(e1[e] == e0[e]);
        }
        lemma_run_generations(trace, i + 1);
    }
}

/// Law: making a system ready to evolve under `spec` keeps every matchable
/// token below the new generation limit when it was below it before; the
/// tokens a raised limit releases sit at the old limit.
pub proof fn start_respects_generation_limit(old: HypergraphSystem, s: HypergraphSystem, spec: StepSpec)
    requires
        evolution_start(old, s, spec),
        matchable_below(old, limit_value(spec.max_generations) as int),
    ensures
        matchable_below(s, s.limits().1 as int),
{
    let cap = limit_value(spec.max_generations);
    assert(s.limits().1 == cap);
    assert forall|t: TokenId| #[trigger] s.matchable().contains(t) implies s.token_seq()[t as int].generation < cap by {
        if !old.matchable().contains(t) {
            assert(cap > old.spec.max_generations);
            assert(old.tokens@[t as int].generation == old.spec.max_generations);
        }
    }
}

/// Law: under an edge limit, no event takes the state above it: after
/// every step the state holds at most the limit's number of edges.
pub proof fn step_respects_edge_limit(m: HypergraphSystem, s1: HypergraphSystem)
    requires
        event_step(m, s1),
        m.limits().4 != DISABLED,
    ensures
        current_state(s1.token_seq()).len() <= m.limits().4,
{
    let t0 = m.token_seq();
    let e = m.event_seq().len();
    let ev = s1.event_seq()[e as int];
    let r = ev.rule->Some_0;
    let ins = ev.inputs@;
    let outs = event_outputs(m.rule_seq(), t0, r, ins);
    let named = named_edges(m.next_fresh_atom(), outs)->Some_0.0;
    let t1 = s1.token_seq();
    lemma_state_after_event_applied(
        t0,
        m.event_seq(),
        t1,
        s1.event_seq(),
        r,
        ins,
        named,
        inputs_generation(t0, ins),
        t1.len() as int,
    );
    assert(t1.take(t1.len() as int) =~= t1);
    assert(t0.take(t0.len() as int) =~= t0);
    assert(t1.len() == t0.len() + named.len());
    assert(named.take(t1.len() - t0.len()) =~= named);
    assert(current_state(t1) == kept_state(t0, ins) + named);
    assert(named.len() == outs.len());
    let kept = kept_state(t0, ins);
    assert(limit_verdict(m.limits(), m.rule_seq(), t0, r, ins) == TerminationReason::NotTerminated);
    assert(edge_limit_reason(m.limits().4, (kept.len() + outs.len()) as int) == TerminationReason::NotTerminated);
}

/// Law: the state at generation `g` holds, in creation order, exactly the
/// tokens of generation at most `g` that no event of generation at most `g`
/// consumed: a token consumed by an event of a later generation is still
/// there, whatever its own generation.
pub proof fn state_at_generation_keeps_tokens_consumed_later(tokens: Seq<Token>, events: Seq<Event>, g: int)
    ensures
        state_at_gen(tokens, events, g) == tokens.filter(
            |t: Token|
                t.generation <= g && match t.destroyer_event {
                    None => true,
                    Some(d) => g < events[d as int].generation,
                },
        ).map_values(|t: Token| t.atoms@),
    decreases tokens.len(),
{
    reveal(Seq::filter);
    let p = |t: Token|
        t.generation <= g && match t.destroyer_event {
            None => true,
            Some(d) => g < events[d as int].generation,
        };
    let f = |t: Token| t.atoms@;
    if tokens.len() == 0 {
        assert(tokens.filter(p) =~= Seq::<Token>::empty());
        assert(tokens.filter(p).map_values(f) =~= Seq::<Seq<Atom>>::empty());
    } else {
        state_at_generation_keeps_tokens_consumed_later(tokens.drop_last(), events, g);
        let rest = tokens.drop_last().filter(p);
        if p(tokens.last()) {
            assert(tokens.filter(p) == rest.push(tokens.last()));
            assert(rest.push(tokens.last()).map_values(f) =~= rest.map_values(f).push(tokens.last().atoms@));
        } else {
            assert(tokens.filter(p) == rest);
        }
    }
}

/// How many tokens event `c` created and event `d` consumed.
pub open spec fn tokens_from_to(tokens: Seq<Token>, c: EventId, d: EventId) -> nat {
    tokens.filter(|t: Token| t.creator_event == c && t.destroyer_event == Some(d)).len()
}

/// How many times the pair `(c, d)` occurs in `edges`.
pub open spec fn pair_occurrences(edges: Seq<(EventId, EventId)>, c: EventId, d: EventId) -> nat {
    edges.filter(|x: (EventId, EventId)| x == (c, d)).len()
}

/// Law: the causal graph has one edge per consumed token: each pair
/// `(c, d)` occurs as often as event `c` created a token that event `d`
/// consumed (never for the initial pseudo-event `c = 0` unless it is
/// included), and there are as many edges as such consumed tokens.
pub proof fn causal_edges_count_consumed_tokens(tokens: Seq<Token>, include_initial: bool, c: EventId, d: EventId)
    ensures
        pair_occurrences(causal_edges(tokens, include_initial), c, d) == if include_initial || c != 0 {
            tokens_from_to(tokens, c, d)
        } else {
            0
        },
        causal_edges(tokens, include_initial).len() == tokens.filter(
            |t: Token| t.destroyer_event is Some && (include_initial || t.creator_event != 0),
        ).len(),
    decreases tokens.len(),
{
    reveal(Seq::filter);
    let pe = |x: (EventId, EventId)| x == (c, d);
    let pt = |t: Token| t.creator_event == c && t.destroyer_event == Some(d);
    let pc = |t: Token| t.destroyer_event is Some && (include_initial || t.creator_event != 0);
    let es = causal_edges(tokens, include_initial);
    if tokens.len() == 0 {
        assert(es =~= Seq::<(EventId, EventId)>::empty());
        assert(es.filter(pe) =~= Seq::<(EventId, EventId)>::empty());
        assert(tokens.filter(pt) =~= Seq::<Token>::empty());
        assert(tokens.filter(pc) =~= Seq::<Token>::empty());
    } else {
        causal_edges_count_consumed_tokens(tokens.drop_last(), include_initial, c, d);
        let rest = causal_edges(tokens.drop_last(), include_initial);
        let t = tokens.last();
        assert(tokens.filter(pt) == if pt(t) {
            tokens.drop_last().filter(pt).push(t)
        } else {
            tokens.drop_last().filter(pt)
        });
        assert(tokens.filter(pc) == if pc(t) {
            tokens.drop_last().filter(pc).push(t)
        } else {
            tokens.drop_last().filter(pc)
        });
        if pc(t) {
            let x = (t.creator_event, t.destroyer_event->Some_0);
            assert(es == rest.push(x));
            rest.lemma_filter_push(x, pe);
        } else {
            assert(es == rest);
        }
    }
}

} // verus!
