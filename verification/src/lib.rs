//! Single-history hypergraph substitution systems (Wolfram model evolution).
//!
//! A *state* is a multiset of hyperedges: ordered lists of positive integer
//! atoms. A *rule* consumes a sub-multiset matching its input patterns and
//! produces new hyperedges, possibly creating fresh atoms. The engine tracks
//! every token (hyperedge instance) and event, which yields generations,
//! per-event and per-generation states, and the causal graph.

pub mod atoms_index;
pub mod coarsening;
pub mod distance;
pub mod drawing;
pub mod enumerate;
pub mod error;
pub mod labels;
pub mod limits;
pub mod matcher;
pub mod names;
pub mod notation;
pub mod ordering;
pub mod pattern;
pub mod pcg;
pub mod rule;
pub mod search;
pub mod system;
pub mod text;
pub mod token;

pub use enumerate::canonical_integer_form;
pub use enumerate::enumerate_rules;
pub use enumerate::Connectivity;
pub use enumerate::EnumerationOptions;
pub use enumerate::RuleSignature;
pub use error::Error;
pub use labels::readme_style_labels;
pub use labels::vertex_list;
pub use ordering::default_event_ordering;
pub use ordering::OrderingFunction;
pub use pcg::Pcg32;
pub use rule::parse_state;
pub use rule::Atom;
pub use rule::Rule;
pub use system::EvolutionOptions;
pub use system::HypergraphSystem;
pub use system::StepSpec;
pub use system::TerminationReason;
pub use token::Event;
pub use token::EventId;
pub use token::Generation;
pub use token::Token;
pub use token::TokenId;

use vstd::prelude::*;

verus! {

/// The inputs and outputs of each rule.
pub open spec fn rule_views(rules: Seq<Rule>) -> Seq<(Seq<Seq<Atom>>, Seq<Seq<Atom>>)> {
    rules.map_values(|r: Rule| (r.spec_inputs(), r.spec_outputs()))
}

/// The edges of a slice of hyperedges.
pub open spec fn slice_edges(state: Seq<Vec<Atom>>) -> Seq<Seq<Atom>> {
    state.map_values(|e: Vec<Atom>| e@)
}

/// `s` was built from `state` and `rules` with the default event ordering and
/// the tie-break generator seeded with 0, and evolved under the limits of `spec` until it stopped: its history starts
/// with the initial state's tokens, every later event is one step of the
/// evolution from the initial system, and the reason it stopped holds.
pub open spec fn evolved_from(s: HypergraphSystem, state: Seq<Seq<Atom>>, rules: Seq<Rule>, spec: StepSpec) -> bool {
    &&& exists|s0: HypergraphSystem, start: HypergraphSystem, m: HypergraphSystem|
        s0.initial(state.len()) && token::atoms_seq(s0.token_seq()) == state && rule_views(s0.rule_seq()) == rule_views(
            rules,
        ) && s0.chain() == s.chain() && s0.rng() == (pcg::pcg_seeded_state(0), pcg::pcg_increment())
            && system::first_fresh(state, s0.rule_seq(), s0.next_fresh_atom())
            && #[trigger] system::evolution_start(s0, start, spec) && #[trigger] system::event_steps(
            start,
            m,
            (s.event_seq().len() - 1) as nat,
        ) && m.token_seq() == s.token_seq() && m.event_seq() == s.event_seq() && m.matchable() == s.matchable()
            && m.largest_gen() == s.largest_gen() && system::stop_explained(m, s.reason()) && (s.reason()
            != system::TerminationReason::MaxEvents ==> !system::index_sticks(m))
    &&& s.wf()
    &&& rule_views(s.rule_seq()) == rule_views(rules)
    &&& s.chain() == ordering::translate(ordering::spec_default_event_ordering())
    &&& s.limits() == system::limits_of(spec)
    &&& system::stop_explained(s, s.reason())
    &&& s.token_seq().len() >= state.len()
    &&& forall|i: int|
        0 <= i < state.len() ==> (#[trigger] s.token_seq()[i]).atoms@ == state[i] && s.token_seq()[i].creator_event == 0
            && s.token_seq()[i].generation == 0
    &&& s.event_seq().len() >= 1
    &&& s.event_seq()[0].rule is None
}

/// `m` is reached, after some events, by evolving the system built from
/// `state` and `rules` under `spec`.
pub open spec fn run_reaches(state: Seq<Seq<Atom>>, rules: Seq<Rule>, spec: StepSpec, m: HypergraphSystem) -> bool {
    exists|s0: HypergraphSystem, start: HypergraphSystem, k: nat|
        s0.initial(state.len()) && token::atoms_seq(s0.token_seq()) == state && rule_views(s0.rule_seq()) == rule_views(
            rules,
        ) && s0.chain() == ordering::translate(ordering::spec_default_event_ordering()) && s0.rng() == (
            pcg::pcg_seeded_state(0),
            pcg::pcg_increment(),
        ) && system::first_fresh(
            state,
            s0.rule_seq(),
            s0.next_fresh_atom(),
        ) && #[trigger] system::evolution_start(s0, start, spec) && #[trigger] system::event_steps(start, m, k)
}

/// Evolving the system built from `state` and `rules` under `spec` reaches a
/// state whose next event cannot be named.
pub open spec fn overflows(state: Seq<Seq<Atom>>, rules: Seq<Rule>, spec: StepSpec) -> bool {
    exists|m: HypergraphSystem| #[trigger] run_reaches(state, rules, spec, m) && system::overflow_explained(m)
}

/// Evolving the system built from `state` and `rules` under `spec` reaches a
/// state, below the event limit, where looking for the matches of its
/// pending tokens sticks on rule inputs that are not connected.
pub open spec fn sticks(state: Seq<Seq<Atom>>, rules: Seq<Rule>, spec: StepSpec) -> bool {
    exists|m: HypergraphSystem|
        #[trigger] run_reaches(state, rules, spec, m) && m.event_seq().len() - 1 < m.limits().0 && system::index_sticks(m)
}

/// The errors building and evolving a system under `spec` can report: rule
/// problems first, then initial-state atoms, then those of evolution;
/// disconnected rule inputs are reported only for rules whose inputs are not
/// connected and only when the evolution reaches a state where looking for
/// matches sticks on them, and running out of fresh atoms only when the
/// evolution reaches an event that cannot be named.
pub open spec fn evolution_error(state: Seq<Seq<Atom>>, rules: Seq<Rule>, spec: StepSpec, e: Error) -> bool {
    &&& (e is InvalidRule) <==> !system::rules_ok(rules)
    &&& (e is NonPositiveAtoms) <==> (system::rules_ok(rules) && !system::positive_edges(state))
    &&& (e is AtomCountOverflow ==> overflows(state, rules, spec))
    &&& (e is DisconnectedInputs ==> sticks(state, rules, spec))
    &&& (e is InvalidRule || e is NonPositiveAtoms || e is DisconnectedInputs || e is AtomCountOverflow)
    &&& (e is DisconnectedInputs ==> !search::rules_linked(rules))
}

/// A copy of each rule.
fn copy_rules(rules: &[Rule]) -> (r: Vec<Rule>)
    ensures
        rule_views(r@) == rule_views(rules@),
        r.len() == rules.len(),
        forall|i: int| 0 <= i < r.len() ==> (#[trigger] r@[i]).spec_inputs() == rules@[i].spec_inputs() && r@[i].spec_outputs()
            == rules@[i].spec_outputs(),
{
    let mut out: Vec<Rule> = Vec::new();
    let mut i: usize = 0;
    while i < rules.len()
        invariant
            i <= rules.len(),
            out.len() == i,
            forall|k: int| 0 <= k < i ==> (#[trigger] out@[k]).spec_inputs() == rules@[k].spec_inputs() && out@[k].spec_outputs()
                == rules@[k].spec_outputs(),
        decreases rules.len() - i,
    {
        let r = rules[i].copy();
        out.push(r);
        i = i + 1;
    }
    assert(rule_views(out@) =~= rule_views(rules@));
    out
}

/// A copy of each hyperedge.
fn copy_state(state: &[Vec<Atom>]) -> (r: Vec<Vec<Atom>>)
    ensures
        rule::edges_of(r) == slice_edges(state@),
{
    let mut out: Vec<Vec<Atom>> = Vec::new();
    let mut i: usize = 0;
    while i < state.len()
        invariant
            i <= state.len(),
            rule::edges_of(out) == slice_edges(state@).take(i as int),
        decreases state.len() - i,
    {
        let e = state[i].clone();
        let ghost before = rule::edges_of(out);
        proof {
            assert(e@ == state@[i as int]@);
        }
        out.push(e);
        proof {
            assert(rule::edges_of(out) =~= before.push(e@));
            assert(slice_edges(state@).take(i + 1) =~= slice_edges(state@).take(i as int).push(e@));
        }
        i = i + 1;
    }
    assert(slice_edges(state@).take(state.len() as int) =~= slice_edges(state@));
    out
}

/// A system built from `state` and `rules` and evolved under `spec`.
fn evolved(state: &[Vec<Atom>], rules: &[Rule], spec: &StepSpec) -> (r: Result<HypergraphSystem, Error>)
    ensures
        r matches Ok(s) ==> evolved_from(s, slice_edges(state@), rules@, *spec),
        r matches Err(e) ==> evolution_error(slice_edges(state@), rules@, *spec, e),
{
    let rs = copy_rules(rules);
    let st = copy_state(state);
    proof {
        assert(system::rules_ok(rs@) == system::rules_ok(rules@)) by {
            if system::rules_ok(rules@) {
                assert forall|k: int| 0 <= k < rs@.len() implies (#[trigger] rs@[k]).wf() by {
                    assert(rules@[k].wf());
                }
            }
            if system::rules_ok(rs@) {
                assert forall|k: int| 0 <= k < rules@.len() implies (#[trigger] rules@[k]).wf() by {
                    assert(rs@[k].wf());
                }
            }
        }
    }
    proof {
        assert(search::rules_linked(rs@) == search::rules_linked(rules@)) by {
            if search::rules_linked(rules@) {
                assert forall|k: int| 0 <= k < rs@.len() implies search::linked_edges(#[trigger] rs@[k].spec_inputs()) by {
                    assert(search::linked_edges(rules@[k].spec_inputs()));
                }
            }
            if search::rules_linked(rs@) {
                assert forall|k: int| 0 <= k < rules@.len() implies search::linked_edges(#[trigger] rules@[k].spec_inputs()) by {
                    assert(search::linked_edges(rs@[k].spec_inputs()));
                }
            }
        }
    }
    let ghost edges = rule::edges_of(st);
    let mut system = HypergraphSystem::new(rs, st)?;
    let ghost s0 = system;
    match system.evolve(spec) {
        Ok(_) => {},
        Err(e) => {
            proof {
                let k = (system.event_seq().len() - s0.event_seq().len()) as nat;
                let (start, m) = choose|start: HypergraphSystem, m: HypergraphSystem|
                    system::evolution_start(s0, start, *spec) && #[trigger] system::event_steps(start, m, k)
                        && m.token_seq() == system.token_seq() && m.event_seq() == system.event_seq() && (e matches Error::AtomCountOverflow
                        ==> system::overflow_explained(m)) && (e matches Error::DisconnectedInputs ==> m.event_seq().len() - 1
                        < m.limits().0 && system::index_sticks(m));
                assert(run_reaches(slice_edges(state@), rules@, *spec, m));
                if e is AtomCountOverflow {
                    assert(overflows(slice_edges(state@), rules@, *spec));
                }
                if e is DisconnectedInputs {
                    assert(sticks(slice_edges(state@), rules@, *spec));
                }
            }
            return Err(e);
        },
    }
    proof {
        let (start, m) = choose|start: HypergraphSystem, m: HypergraphSystem|
            system::evolution_start(s0, start, *spec) && #[trigger] system::event_steps(
                start,
                m,
                (system.event_seq().len() - s0.event_seq().len()) as nat,
            ) && m.token_seq() == system.token_seq() && m.event_seq() == system.event_seq();
        assert(s0.event_seq().len() == 1);
        assert(system::event_steps(start, m, (system.event_seq().len() - 1) as nat));
        assert(rule_views(system.rule_seq()) == rule_views(rules@));
        assert forall|i: int| 0 <= i < edges.len() implies (#[trigger] system.token_seq()[i]).atoms@ == edges[i]
            && system.token_seq()[i].creator_event == 0 && system.token_seq()[i].generation == 0 by {
            assert(s0.token_seq()[i].atoms@ == crate::token::atoms_seq(s0.token_seq())[i]);
        }
        assert(system.event_seq()[0] == s0.event_seq()[0]);
    }
    Ok(system)
}

/// `SetReplace[state, rules, events]`: applies up to `events` substitution
/// events (in the default ordering) and returns the resulting state.
pub fn set_replace(state: &[Vec<Atom>], rules: &[Rule], events: u64) -> (r: Result<Vec<Vec<Atom>>, Error>)
    ensures
        r matches Ok(v) ==> exists|s: HypergraphSystem|
            evolved_from(s, slice_edges(state@), rules@, system::events_limit(events))
                && #[trigger] rule::edges_of(v) == system::current_state(s.token_seq()),
        r matches Err(e) ==> evolution_error(slice_edges(state@), rules@, system::events_limit(events), e),
{
    let s = evolved(state, rules, &StepSpec::events(events))?;
    Ok(s.final_state())
}


/// `SetReplaceList[state, rules, events]`: the list of states after 0, 1, ...
/// substitution events (stops early at a fixed point).
pub fn set_replace_list(state: &[Vec<Atom>], rules: &[Rule], events: u64) -> (r: Result<Vec<Vec<Vec<Atom>>>, Error>)
    ensures
        r matches Ok(v) ==> exists|s: HypergraphSystem|
            #[trigger] evolved_from(s, slice_edges(state@), rules@, system::events_limit(events)) && v.len() == s.event_seq().len()
                && forall|k: int| 0 <= k < v.len() ==> rule::edges_of(#[trigger] v@[k]) == system::state_after(s.token_seq(), k),
        r matches Err(e) ==> evolution_error(slice_edges(state@), rules@, system::events_limit(events), e),
{
    let s = evolved(state, rules, &StepSpec::events(events))?;
    Ok(s.states_by_event())
}

/// `SetReplaceAll[state, rules, generations]`: evolves for the given number
/// of generations (each initial token is replaced at most `generations`
/// times) and returns the resulting state.
pub fn set_replace_all(state: &[Vec<Atom>], rules: &[Rule], generations: u64) -> (r: Result<Vec<Vec<Atom>>, Error>)
    ensures
        r matches Ok(v) ==> exists|s: HypergraphSystem|
            evolved_from(s, slice_edges(state@), rules@, system::generations_limit(generations))
                && #[trigger] rule::edges_of(v) == system::current_state(s.token_seq()),
        r matches Err(e) ==> evolution_error(slice_edges(state@), rules@, system::generations_limit(generations), e),
{
    let s = evolved(state, rules, &StepSpec::generations(generations))?;
    Ok(s.final_state())
}

/// `SetReplaceFixedPoint[state, rules]`: evolves until no rule matches.
/// Like its Wolfram Language counterpart, this runs for as long as the
/// system keeps changing.
pub fn set_replace_fixed_point(state: &[Vec<Atom>], rules: &[Rule]) -> (r: Result<Vec<Vec<Atom>>, Error>)
    ensures
        r matches Ok(v) ==> exists|s: HypergraphSystem|
            evolved_from(s, slice_edges(state@), rules@, system::unlimited())
                && #[trigger] rule::edges_of(v) == system::current_state(s.token_seq()),
        r matches Err(e) ==> evolution_error(slice_edges(state@), rules@, system::unlimited(), e),
{
    let s = evolved(state, rules, &StepSpec::default())?;
    Ok(s.final_state())
}

/// The first tokens hold `init`, created by event 0; later tokens are
/// created, and tokens consumed, by later events.
spec fn opens_with(tokens: Seq<Token>, events: Seq<token::Event>, init: Seq<Seq<Atom>>) -> bool {
    &&& events.len() >= 1
    &&& tokens.len() >= init.len()
    &&& forall|t: int| 0 <= t < init.len() ==> (#[trigger] tokens[t]).atoms@ == init[t] && tokens[t].creator_event == 0
    &&& forall|t: int| init.len() <= t < tokens.len() ==> (#[trigger] tokens[t]).creator_event >= 1
    &&& forall|t: int| 0 <= t < tokens.len() && (#[trigger] tokens[t]).destroyer_event is Some ==> tokens[t].destroyer_event->Some_0 >= 1
}

proof fn lemma_step_opens_with(m: HypergraphSystem, s1: HypergraphSystem, init: Seq<Seq<Atom>>)
    requires
        opens_with(m.token_seq(), m.event_seq(), init),
        system::event_step(m, s1),
    ensures
        opens_with(s1.token_seq(), s1.event_seq(), init),
{
    m.lemma_history_fits();
    let t0 = m.token_seq();
    let t1 = s1.token_seq();
    let n = t0.len();
    let e = m.event_seq().len();
    let ev = s1.event_seq()[e as int];
    let outs = system::event_outputs(m.rule_seq(), t0, ev.rule->Some_0, ev.inputs@);
    let named = system::named_edges(m.next_fresh_atom(), outs)->Some_0.0;
    assert forall|t: int| 0 <= t < init.len() implies (#[trigger] t1[t]).atoms@ == init[t] && t1[t].creator_event == 0 by {
        assert(t0[t].atoms@ == init[t]);
    }
    assert forall|t: int| init.len() <= t < t1.len() implies (#[trigger] t1[t]).creator_event >= 1 by {
        if t < n {
            assert(t0[t].creator_event >= 1);
        } else {
            assert(t1[n + (t - n)].creator_event == e);
        }
    }
    assert forall|t: int| 0 <= t < t1.len() && (#[trigger] t1[t]).destroyer_event is Some implies t1[t].destroyer_event->Some_0 >= 1 by {
        if t < n {
            if ev.inputs@.contains(t as TokenId) {
                assert(t1[t].destroyer_event == Some(e as EventId));
            } else if t0[t].destroyer_event is Some {
                assert(t0[t].destroyer_event->Some_0 >= 1);
            }
        } else {
            assert(t1[n + (t - n)].destroyer_event is None);
        }
    }
}

proof fn lemma_run_opens_with(trace: Seq<HypergraphSystem>, i: int, init: Seq<Seq<Atom>>)
    requires
        system::is_run(trace),
        0 <= i < trace.len(),
        opens_with(trace[0].token_seq(), trace[0].event_seq(), init),
    ensures
        opens_with(trace[i].token_seq(), trace[i].event_seq(), init),
    decreases i,
{
    if i > 0 {
        lemma_run_opens_with(trace, i - 1, init);
        let j = i - 1;
        assert(system::event_step(trace[j], trace[j + 1]));
        lemma_step_opens_with(trace[i - 1], trace[i], init);
    }
}

proof fn lemma_state_after_zero(tokens: Seq<Token>, init: Seq<Seq<Atom>>, j: int)
    requires
        init.len() <= j <= tokens.len() || 0 <= j <= init.len() <= tokens.len(),
        forall|t: int| 0 <= t < init.len() ==> (#[trigger] tokens[t]).atoms@ == init[t] && tokens[t].creator_event == 0,
        forall|t: int| init.len() <= t < tokens.len() ==> (#[trigger] tokens[t]).creator_event >= 1,
        forall|t: int| 0 <= t < tokens.len() && (#[trigger] tokens[t]).destroyer_event is Some ==> tokens[t].destroyer_event->Some_0 >= 1,
    ensures
        system::state_after(tokens.take(j), 0) == init.take(if j < init.len() { j } else { init.len() as int }),
    decreases j,
{
    if j > 0 {
        lemma_state_after_zero(tokens, init, j - 1);
        assert(tokens.take(j).drop_last() =~= tokens.take(j - 1));
        assert(tokens.take(j).last() == tokens[j - 1]);
        if j <= init.len() {
            assert(init.take(j) =~= init.take(j - 1).push(init[j - 1]));
        }
    } else {
        assert(tokens.take(0) =~= Seq::<Token>::empty());
        assert(init.take(0) =~= Seq::<Seq<Atom>>::empty());
    }
}

/// Law: after any evolution, the state after event 0 is the initial state
/// (event 0 is the pseudo-event that creates it).
pub proof fn state_after_event_zero_is_initial(s: HypergraphSystem, state: Seq<Seq<Atom>>, rules: Seq<Rule>, spec: StepSpec)
    requires
        evolved_from(s, state, rules, spec),
    ensures
        system::state_after(s.token_seq(), 0) == state,
{
    let (s0, start, m) = choose|s0: HypergraphSystem, start: HypergraphSystem, m: HypergraphSystem|
        s0.initial(state.len()) && token::atoms_seq(s0.token_seq()) == state && rule_views(s0.rule_seq()) == rule_views(rules)
            && s0.chain() == s.chain() && system::first_fresh(state, s0.rule_seq(), s0.next_fresh_atom())
            && #[trigger] system::evolution_start(s0, start, spec) && #[trigger] system::event_steps(
            start,
            m,
            (s.event_seq().len() - 1) as nat,
        ) && m.token_seq() == s.token_seq() && m.event_seq() == s.event_seq();
    let k = (s.event_seq().len() - 1) as nat;
    let trace = choose|trace: Seq<HypergraphSystem>|
        #[trigger] system::is_run(trace) && trace.len() == k + 1 && trace[0] == start && trace.last() == m;
    assert forall|t: int| 0 <= t < state.len() implies (#[trigger] start.token_seq()[t]).atoms@ == state[t]
        && start.token_seq()[t].creator_event == 0 by {
        assert(token::atoms_seq(s0.token_seq())[t] == s0.token_seq()[t].atoms@);
    }
    assert(opens_with(start.token_seq(), start.event_seq(), state));
    lemma_run_opens_with(trace, k as int, state);
    let tokens = s.token_seq();
    lemma_state_after_zero(tokens, state, tokens.len() as int);
    assert(tokens.take(tokens.len() as int) =~= tokens);
    assert(state.take(state.len() as int) =~= state);
}

/// Law: evolving from an initial state under a generation limit creates no
/// event beyond that generation.
pub proof fn evolution_respects_generation_limit(s: HypergraphSystem, state: Seq<Seq<Atom>>, rules: Seq<Rule>, spec: StepSpec)
    requires
        evolved_from(s, state, rules, spec),
    ensures
        forall|e: int| 0 <= e < s.event_seq().len() ==> #[trigger] s.event_seq()[e].generation <= system::limit_value(
            spec.max_generations,
        ),
{
    let (s0, start, m) = choose|s0: HypergraphSystem, start: HypergraphSystem, m: HypergraphSystem|
        s0.initial(state.len()) && token::atoms_seq(s0.token_seq()) == state && rule_views(s0.rule_seq()) == rule_views(rules)
            && s0.chain() == s.chain() && system::first_fresh(state, s0.rule_seq(), s0.next_fresh_atom())
            && #[trigger] system::evolution_start(s0, start, spec) && #[trigger] system::event_steps(
            start,
            m,
            (s.event_seq().len() - 1) as nat,
        ) && m.token_seq() == s.token_seq() && m.event_seq() == s.event_seq();
    let cap = system::limit_value(spec.max_generations);
    assert(system::matchable_below(s0, cap as int));
    system::start_respects_generation_limit(s0, start, spec);
    system::run_respects_generation_limit(start, m, (s.event_seq().len() - 1) as nat);
    assert(start.limits().1 == cap);
    assert forall|e: int| 0 <= e < s.event_seq().len() implies #[trigger] s.event_seq()[e].generation <= cap by {
        if e < 1 {
            assert(start.event_seq() == s0.event_seq());
            assert(s0.event_seq()[0].generation == 0);
            assert(m.event_seq()[0] == start.event_seq()[0]);
        } else {
            assert(m.event_seq()[e].generation <= cap);
        }
        assert(s.event_seq()[e] == m.event_seq()[e]);
    }
}

} // verus!
