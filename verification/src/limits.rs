//! The vertex limit holds after every event: the fresh names given to
//! anonymous atoms are distinct and new, so the state an event creates has
//! exactly as many distinct atoms as the one its limit check counted.

use vstd::prelude::*;

use crate::rule::Atom;
use crate::system::after_edge;
use crate::system::after_edges;
use crate::system::atoms_below;
use crate::system::atoms_of;
use crate::system::bind_inputs;
use crate::system::current_state;
use crate::system::event_outputs;
use crate::system::event_step;
use crate::system::input_atoms;
use crate::system::inputs_generation;
use crate::system::kept_state;
use crate::system::limit_verdict;
use crate::system::name_of;
use crate::system::name_step;
use crate::system::named_edges;
use crate::system::naming_at;
use crate::system::valid_matches;
use crate::system::HypergraphSystem;
use crate::system::NamingState;
use crate::system::TerminationReason;
use crate::token::Token;
use crate::token::TokenId;

verus! {

/// A naming state reached from `start`: names are distinct fresh atoms from
/// `start` below the next one, given to anonymous atoms.
pub open spec fn naming_ok(st: NamingState, start: Atom) -> bool {
    &&& start <= st.1
    &&& forall|a: Atom| #[trigger] st.0.dom().contains(a) ==> a < 0 && start <= st.0[a] < st.1
    &&& forall|a: Atom, b: Atom|
        #[trigger] st.0.dom().contains(a) && #[trigger] st.0.dom().contains(b) && st.0[a] == st.0[b] ==> a == b
}

/// `st2` keeps every name of `st`.
pub open spec fn keeps_names(st: NamingState, st2: NamingState) -> bool {
    forall|a: Atom| #[trigger] st.0.dom().contains(a) ==> st2.0.dom().contains(a) && st2.0[a] == st.0[a]
}

proof fn lemma_name_step(st: NamingState, a: Atom, start: Atom)
    requires
        naming_ok(st, start),
        name_step(st, a) is Some,
    ensures
        naming_ok(name_step(st, a)->Some_0, start),
        keeps_names(st, name_step(st, a)->Some_0),
        a < 0 ==> name_step(st, a)->Some_0.0.dom().contains(a) && name_step(st, a)->Some_0.0[a] == name_of(st, a),
{
    let st2 = name_step(st, a)->Some_0;
    if a < 0 && !st.0.dom().contains(a) {
        assert forall|x: Atom, y: Atom|
            #[trigger] st2.0.dom().contains(x) && #[trigger] st2.0.dom().contains(y) && st2.0[x] == st2.0[y] implies x == y by {
            if x != a && y != a {
                assert(st.0.dom().contains(x) && st.0.dom().contains(y));
            } else if x == a && y != a {
                assert(st.0[y] < st.1);
            } else if y == a && x != a {
                assert(st.0[x] < st.1);
            }
        }
    }
}

proof fn lemma_after_edge(st: NamingState, e: Seq<Atom>, start: Atom)
    requires
        naming_ok(st, start),
        after_edge(Some(st), e) is Some,
    ensures
        naming_ok(after_edge(Some(st), e)->Some_0, start),
        keeps_names(st, after_edge(Some(st), e)->Some_0),
    decreases e.len(),
{
    if e.len() > 0 {
        let mid = after_edge(Some(st), e.drop_last());
        assert(mid is Some);
        lemma_after_edge(st, e.drop_last(), start);
        lemma_name_step(mid->Some_0, e.last(), start);
    }
}

proof fn lemma_after_edges(st: NamingState, es: Seq<Seq<Atom>>, start: Atom)
    requires
        naming_ok(st, start),
        after_edges(Some(st), es) is Some,
    ensures
        naming_ok(after_edges(Some(st), es)->Some_0, start),
        keeps_names(st, after_edges(Some(st), es)->Some_0),
    decreases es.len(),
{
    if es.len() > 0 {
        let mid = after_edges(Some(st), es.drop_last());
        crate::system::lemma_after_edge_none(es.last());
        assert(mid is Some);
        lemma_after_edges(st, es.drop_last(), start);
        lemma_after_edge(mid->Some_0, es.last(), start);
    }
}

proof fn lemma_keeps_trans(a: NamingState, b: NamingState, c: NamingState)
    requires
        keeps_names(a, b),
        keeps_names(b, c),
    ensures
        keeps_names(a, c),
{
    assert forall|x: Atom| #[trigger] a.0.dom().contains(x) implies c.0.dom().contains(x) && c.0[x] == a.0[x] by {
        assert(b.0.dom().contains(x));
    }
}

proof fn lemma_edge_prefix_keeps(st: NamingState, e: Seq<Atom>, k: int, start: Atom)
    requires
        naming_ok(st, start),
        0 <= k <= e.len(),
        after_edge(Some(st), e) is Some,
    ensures
        after_edge(Some(st), e.take(k)) is Some,
        keeps_names(after_edge(Some(st), e.take(k))->Some_0, after_edge(Some(st), e)->Some_0),
    decreases e.len() - k,
{
    if k == e.len() {
        assert(e.take(k) =~= e);
    } else {
        lemma_edge_prefix_keeps(st, e, k + 1, start);
        let t = e.take(k + 1);
        assert(t.drop_last() =~= e.take(k));
        assert(t.last() == e[k]);
        assert(after_edge(Some(st), e.take(k)) is Some);
        lemma_after_edge(st, e.take(k), start);
        lemma_name_step(after_edge(Some(st), e.take(k))->Some_0, e[k], start);
        lemma_keeps_trans(
            after_edge(Some(st), e.take(k))->Some_0,
            after_edge(Some(st), t)->Some_0,
            after_edge(Some(st), e)->Some_0,
        );
    }
}

proof fn lemma_edges_prefix_keeps(st: NamingState, es: Seq<Seq<Atom>>, k: int, start: Atom)
    requires
        naming_ok(st, start),
        0 <= k <= es.len(),
        after_edges(Some(st), es) is Some,
    ensures
        after_edges(Some(st), es.take(k)) is Some,
        keeps_names(after_edges(Some(st), es.take(k))->Some_0, after_edges(Some(st), es)->Some_0),
    decreases es.len() - k,
{
    if k == es.len() {
        assert(es.take(k) =~= es);
    } else {
        lemma_edges_prefix_keeps(st, es, k + 1, start);
        let t = es.take(k + 1);
        assert(t.drop_last() =~= es.take(k));
        assert(t.last() == es[k]);
        crate::system::lemma_after_edge_none(es[k]);
        assert(after_edges(Some(st), es.take(k)) is Some);
        lemma_after_edges(st, es.take(k), start);
        lemma_after_edge(after_edges(Some(st), es.take(k))->Some_0, es[k], start);
        lemma_keeps_trans(
            after_edges(Some(st), es.take(k))->Some_0,
            after_edges(Some(st), t)->Some_0,
            after_edges(Some(st), es)->Some_0,
        );
    }
}

/// Where the naming of edges succeeds, each anonymous atom's new name is the
/// name the final naming state gives it, and other atoms keep theirs.
proof fn lemma_named_positions(start: Atom, es: Seq<Seq<Atom>>)
    requires
        crate::system::named_edges(start, es) is Some,
    ensures
        naming_ok(after_edges(Some((Map::empty(), start)), es)->Some_0, start),
        forall|i: int, j: int|
            0 <= i < es.len() && 0 <= j < es[i].len() ==> #[trigger] crate::system::named_edges(start, es)->Some_0.0[i][j] == (if es[i][j]
                < 0 {
                after_edges(Some((Map::empty(), start)), es)->Some_0.0[es[i][j]]
            } else {
                es[i][j]
            }) && (es[i][j] < 0 ==> after_edges(Some((Map::empty(), start)), es)->Some_0.0.dom().contains(es[i][j])),
{
    let st0: NamingState = (Map::empty(), start);
    let fin = after_edges(Some(st0), es)->Some_0;
    let named = crate::system::named_edges(start, es)->Some_0.0;
    assert(naming_ok(st0, start));
    lemma_after_edges(st0, es, start);
    assert forall|i: int, j: int| 0 <= i < es.len() && 0 <= j < es[i].len() implies #[trigger] named[i][j] == (if es[i][j] < 0 {
        fin.0[es[i][j]]
    } else {
        es[i][j]
    }) && (es[i][j] < 0 ==> fin.0.dom().contains(es[i][j])) by {
        let a = es[i][j];
        lemma_edges_prefix_keeps(st0, es, i + 1, start);
        lemma_edges_prefix_keeps(st0, es, i, start);
        let base = after_edges(Some(st0), es.take(i))->Some_0;
        assert(es.take(i + 1).drop_last() =~= es.take(i));
        assert(es.take(i + 1).last() == es[i]);
        let full_i = after_edges(Some(st0), es.take(i + 1))->Some_0;
        assert(after_edge(Some(base), es[i]) == Some(full_i));
        lemma_after_edges(st0, es.take(i), start);
        lemma_edge_prefix_keeps(base, es[i], j + 1, start);
        lemma_edge_prefix_keeps(base, es[i], j, start);
        let e = es[i];
        assert(e.take(j + 1).drop_last() =~= e.take(j));
        assert(e.take(j + 1).last() == a);
        let sj = after_edge(Some(base), e.take(j))->Some_0;
        assert(naming_at(start, es, i, j) == Some(sj));
        lemma_after_edge(base, e.take(j), start);
        lemma_name_step(sj, a, start);
        let sj1 = after_edge(Some(base), e.take(j + 1))->Some_0;
        lemma_keeps_trans(sj1, full_i, fin);
        if a < 0 {
            assert(sj1.0.dom().contains(a));
            assert(fin.0[a] == sj1.0[a]);
        }
    }
}

/// The atoms of some edges form a finite set.
proof fn lemma_atoms_finite(es: Seq<Seq<Atom>>)
    ensures
        crate::system::atoms_of(es).finite(),
    decreases es.len(),
{
    if es.len() == 0 {
        assert(crate::system::atoms_of(es) =~= Set::<Atom>::empty());
    } else {
        let d = es.drop_last();
        lemma_atoms_finite(d);
        vstd::seq_lib::seq_to_set_is_finite(es.last());
        assert(crate::system::atoms_of(es) =~= crate::system::atoms_of(d) + es.last().to_set()) by {
            assert forall|a: Atom| #[trigger] crate::system::atoms_of(es).contains(a) implies (crate::system::atoms_of(d)
                + es.last().to_set()).contains(a) by {
                let (i, j) = choose|i: int, j: int| 0 <= i < es.len() && 0 <= j < es[i].len() && es[i][j] == a;
                if i < es.len() - 1 {
                    assert(d[i][j] == a);
                } else {
                    assert(es.last().contains(a));
                }
            }
            assert forall|a: Atom| #[trigger] (crate::system::atoms_of(d) + es.last().to_set()).contains(a) implies crate::system::atoms_of(
                es,
            ).contains(a) by {
                if crate::system::atoms_of(d).contains(a) {
                    let (i, j) = choose|i: int, j: int| 0 <= i < d.len() && 0 <= j < d[i].len() && d[i][j] == a;
                    assert(es[i][j] == a);
                } else {
                    assert(es.last().contains(a));
                    let j = choose|j: int| 0 <= j < es.last().len() && es.last()[j] == a;
                    assert(es[es.len() - 1][j] == a);
                }
            }
        }
    }
}

/// Edges renamed atom by atom: their atoms are the image of the atoms of the
/// edges renamed.
proof fn lemma_renamed_atoms(xs: Seq<Seq<Atom>>, ys: Seq<Seq<Atom>>, f: spec_fn(Atom) -> Atom)
    requires
        xs.len() == ys.len(),
        forall|i: int| 0 <= i < xs.len() ==> (#[trigger] xs[i]).len() == ys[i].len(),
        forall|i: int, j: int| 0 <= i < xs.len() && 0 <= j < xs[i].len() ==> #[trigger] ys[i][j] == f(xs[i][j]),
    ensures
        crate::system::atoms_of(ys) == crate::system::atoms_of(xs).map(f),
{
    let ax = crate::system::atoms_of(xs);
    let ay = crate::system::atoms_of(ys);
    assert forall|b: Atom| #[trigger] ay.contains(b) implies ax.map(f).contains(b) by {
        let (i, j) = choose|i: int, j: int| 0 <= i < ys.len() && 0 <= j < ys[i].len() && ys[i][j] == b;
        assert(xs[i].len() == ys[i].len());
        assert(ax.contains(xs[i][j]));
    }
    assert forall|b: Atom| #[trigger] ax.map(f).contains(b) implies ay.contains(b) by {
        let x = choose|x: Atom| ax.contains(x) && b == f(x);
        let (i, j) = choose|i: int, j: int| 0 <= i < xs.len() && 0 <= j < xs[i].len() && xs[i][j] == x;
        assert(ys[i][j] == b);
    }
    assert(ay =~= ax.map(f));
}

/// The kept edges are edges of tokens: positive, and below any bound the
/// tokens' atoms are below.
proof fn lemma_kept_bounds(tokens: Seq<Token>, ins: Seq<TokenId>, bound: int)
    requires
        crate::token::positive_tokens(crate::token::atoms_seq(tokens)),
    ensures
        forall|i: int, j: int|
            0 <= i < kept_state(tokens, ins).len() && 0 <= j < kept_state(tokens, ins)[i].len() ==> #[trigger] kept_state(
                tokens,
                ins,
            )[i][j] > 0 && (atoms_below(crate::token::atoms_seq(tokens), bound) ==> kept_state(tokens, ins)[i][j] < bound),
    decreases tokens.len(),
{
    if tokens.len() > 0 {
        let d = tokens.drop_last();
        assert forall|t: int, k: int| 0 <= t < crate::token::atoms_seq(d).len() && 0 <= k < crate::token::atoms_seq(d)[t].len() implies #[trigger] crate::token::atoms_seq(
            d,
        )[t][k] > 0 by {
            assert(crate::token::atoms_seq(d)[t] == crate::token::atoms_seq(tokens)[t]);
        }
        lemma_kept_bounds(d, ins, bound);
        let n = tokens.len() - 1;
        let kept = kept_state(tokens, ins);
        let prev = kept_state(d, ins);
        assert forall|i: int, j: int| 0 <= i < kept.len() && 0 <= j < kept[i].len() implies #[trigger] kept[i][j] > 0 && (atoms_below(
            crate::token::atoms_seq(tokens),
            bound,
        ) ==> kept[i][j] < bound) by {
            if i < prev.len() {
                assert(kept[i] == prev[i]);
                if atoms_below(crate::token::atoms_seq(tokens), bound) {
                    assert(atoms_below(crate::token::atoms_seq(d), bound)) by {
                        assert forall|t: int, k: int| 0 <= t < crate::token::atoms_seq(d).len() && 0 <= k < crate::token::atoms_seq(d)[t].len() implies #[trigger] crate::token::atoms_seq(
                            d,
                        )[t][k] < bound by {
                            assert(crate::token::atoms_seq(d)[t] == crate::token::atoms_seq(tokens)[t]);
                        }
                    }
                }
            } else {
                assert(kept[i] == tokens.last().atoms@);
                assert(crate::token::atoms_seq(tokens)[n] == tokens.last().atoms@);
            }
        }
    }
}

/// The concrete atoms of an event's outputs in a well-formed system are
/// below its next fresh atom.
proof fn lemma_outputs_below(m: HypergraphSystem, r: usize, ins: Seq<TokenId>)
    requires
        m.wf(),
        m.next_fresh_atom() != Atom::MAX,
        valid_matches(m.rule_seq(), m.token_seq(), m.matchable()).contains((r, ins)),
    ensures
        forall|i: int, j: int|
            0 <= i < event_outputs(m.rule_seq(), m.token_seq(), r, ins).len() && 0 <= j < event_outputs(
                m.rule_seq(),
                m.token_seq(),
                r,
                ins,
            )[i].len() && #[trigger] event_outputs(m.rule_seq(), m.token_seq(), r, ins)[i][j] >= 0 ==> event_outputs(
                m.rule_seq(),
                m.token_seq(),
                r,
                ins,
            )[i][j] < m.next_fresh_atom(),
{
    m.lemma_atoms_bounded();
    m.lemma_matchable_within();
    let next = m.next_fresh_atom() as int;
    let t0 = m.token_seq();
    let rules = m.rule_seq();
    let pa = crate::search::rule_patterns(rules);
    assert(crate::search::valid_match(pa, crate::token::atoms_seq(t0), m.matchable(), (r, ins)));
    assert(r < rules.len());
    let rule = rules[r as int];
    let pats = rule.spec_inputs();
    assert(pa[r as int] == pats);
    let atoms = input_atoms(t0, ins);
    assert(ins.len() == pats.len());
    assert(atoms_below(atoms, next)) by {
        assert forall|i: int, j: int| 0 <= i < atoms.len() && 0 <= j < atoms[i].len() implies #[trigger] atoms[i][j] < next by {
            assert(m.matchable().contains(ins[i]));
            assert(ins[i] < t0.len());
            assert(atoms[i] == crate::token::atoms_seq(t0)[ins[i] as int]);
        }
    }
    let outs = event_outputs(rules, t0, r, ins);
    let o = rule.spec_outputs();
    assert(atoms_below(o, next));
    match bind_inputs(pats, atoms, pats.len() as int) {
        Some(b) => {
            crate::system::lemma_bind_values(pats, atoms, pats.len() as int, next);
            assert forall|i: int, j: int| 0 <= i < outs.len() && 0 <= j < outs[i].len() && #[trigger] outs[i][j] >= 0 implies outs[i][j]
                < next by {
                assert(outs[i][j] == crate::pattern::apply_atom(b, o[i][j]));
            }
        },
        None => {},
    }
}

/// An anonymous atom among kept edges and outputs is one the naming named,
/// with a fresh name.
proof fn lemma_negative_named(
    xs: Seq<Seq<Atom>>,
    kept: Seq<Seq<Atom>>,
    outs: Seq<Seq<Atom>>,
    fin: NamingState,
    start: Atom,
    x: Atom,
)
    requires
        xs == kept + outs,
        atoms_of(xs).contains(x),
        forall|i: int, j: int| 0 <= i < kept.len() && 0 <= j < kept[i].len() ==> #[trigger] kept[i][j] > 0,
        forall|i: int, j: int|
            0 <= i < outs.len() && 0 <= j < outs[i].len() && #[trigger] outs[i][j] < 0 ==> fin.0.dom().contains(outs[i][j]),
        naming_ok(fin, start),
    ensures
        x < 0 ==> fin.0.dom().contains(x) && start <= fin.0[x] && start != Atom::MAX,
{
    if x < 0 {
        let (i, j) = choose|i: int, j: int| 0 <= i < xs.len() && 0 <= j < xs[i].len() && xs[i][j] == x;
        if i < kept.len() {
            assert(kept[i][j] > 0);
        } else {
            assert(outs[i - kept.len()][j] == x);
        }
    }
}

/// A concrete atom among kept edges and outputs is below the next fresh
/// atom, when that is not `Atom::MAX`.
proof fn lemma_concrete_below(xs: Seq<Seq<Atom>>, kept: Seq<Seq<Atom>>, outs: Seq<Seq<Atom>>, start: Atom, x: Atom)
    requires
        xs == kept + outs,
        atoms_of(xs).contains(x),
        x >= 0,
        start != Atom::MAX,
        forall|i: int, j: int| 0 <= i < kept.len() && 0 <= j < kept[i].len() ==> #[trigger] kept[i][j] < start,
        forall|i: int, j: int| 0 <= i < outs.len() && 0 <= j < outs[i].len() && #[trigger] outs[i][j] >= 0 ==> outs[i][j] < start,
    ensures
        x < start,
{
    let (i, j) = choose|i: int, j: int| 0 <= i < xs.len() && 0 <= j < xs[i].len() && xs[i][j] == x;
    if i < kept.len() {
        assert(kept[i][j] < start);
    } else {
        assert(outs[i - kept.len()][j] == x);
    }
}

/// The rule index of the event that `s1` adds to `m`.
spec fn step_rule(m: HypergraphSystem, s1: HypergraphSystem) -> usize {
    s1.event_seq()[m.event_seq().len() as int].rule->Some_0
}

/// The input tokens of the event that `s1` adds to `m`.
spec fn step_inputs(m: HypergraphSystem, s1: HypergraphSystem) -> Seq<TokenId> {
    s1.event_seq()[m.event_seq().len() as int].inputs@
}

/// The outputs (anonymous atoms not yet named) of the event that `s1` adds
/// to `m`.
spec fn step_outputs(m: HypergraphSystem, s1: HypergraphSystem) -> Seq<Seq<Atom>> {
    event_outputs(m.rule_seq(), m.token_seq(), step_rule(m, s1), step_inputs(m, s1))
}

/// The naming state after naming the event's outputs.
spec fn step_naming(m: HypergraphSystem, s1: HypergraphSystem) -> NamingState {
    after_edges(Some((Map::empty(), m.next_fresh_atom())), step_outputs(m, s1))->Some_0
}

/// Anonymous atoms to their names, other atoms to themselves.
spec fn renaming(fin: NamingState) -> spec_fn(Atom) -> Atom {
    |a: Atom| if a < 0 {
        fin.0[a]
    } else {
        a
    }
}

/// One event of a well-formed system: the new state is the kept edges and
/// the named outputs, which are the kept edges and the outputs checked by the
/// limits, renamed injectively.
proof fn lemma_step_renaming(m: HypergraphSystem, s1: HypergraphSystem)
    requires
        m.wf(),
        event_step(m, s1),
    ensures
        ({
            let kept = kept_state(m.token_seq(), step_inputs(m, s1));
            let outs = step_outputs(m, s1);
            let named = named_edges(m.next_fresh_atom(), outs)->Some_0.0;
            let xs = kept + outs;
            let ys = kept + named;
            let f = renaming(step_naming(m, s1));
            &&& current_state(s1.token_seq()) == ys
            &&& limit_verdict(m.limits(), m.rule_seq(), m.token_seq(), step_rule(m, s1), step_inputs(m, s1))
                == TerminationReason::NotTerminated
            &&& xs.len() == ys.len()
            &&& forall|i: int| 0 <= i < xs.len() ==> (#[trigger] xs[i]).len() == ys[i].len()
            &&& forall|i: int, j: int| 0 <= i < xs.len() && 0 <= j < xs[i].len() ==> #[trigger] ys[i][j] == f(xs[i][j])
            &&& vstd::relations::injective_on(f, atoms_of(xs))
            &&& forall|i: int, j: int| 0 <= i < kept.len() && 0 <= j < kept[i].len() ==> #[trigger] kept[i][j] > 0
        }),
{
    let t0 = m.token_seq();
    let t1 = s1.token_seq();
    let r = step_rule(m, s1);
    let ins = step_inputs(m, s1);
    let rules = m.rule_seq();
    let outs = step_outputs(m, s1);
    let start = m.next_fresh_atom();
    let named = named_edges(start, outs)->Some_0.0;
    let kept = kept_state(t0, ins);
    crate::system::lemma_state_after_event_applied(
        t0,
        m.event_seq(),
        t1,
        s1.event_seq(),
        r,
        ins,
        named,
        inputs_generation(t0, ins),
        t1.len() as int,
    );
    assert(t1.take(t1.len() as int) =~= t1);
    assert(t0.take(t0.len() as int) =~= t0);
    assert(named.take(t1.len() - t0.len()) =~= named);
    assert(current_state(t1) == kept + named);
    let xs = kept + outs;
    let ys = kept + named;
    m.lemma_atoms_bounded();
    lemma_kept_bounds(t0, ins, start as int);
    lemma_named_positions(start, outs);
    let fin = step_naming(m, s1);
    let f = renaming(fin);
    assert forall|i: int| 0 <= i < xs.len() implies (#[trigger] xs[i]).len() == ys[i].len() by {}
    assert forall|i: int, j: int| 0 <= i < xs.len() && 0 <= j < xs[i].len() implies #[trigger] ys[i][j] == f(xs[i][j]) by {
        if i >= kept.len() {
            assert(xs[i] == outs[i - kept.len()]);
            assert(ys[i] == named[i - kept.len()]);
        } else {
            assert(kept[i][j] > 0);
        }
    }
    if start != Atom::MAX {
        lemma_outputs_below(m, r, ins);
    }
    assert forall|i: int, j: int|
        0 <= i < outs.len() && 0 <= j < outs[i].len() && #[trigger] outs[i][j] < 0 implies fin.0.dom().contains(outs[i][j]) by {
        assert(named[i][j] == named_edges(start, outs)->Some_0.0[i][j]);
    }
    assert(vstd::relations::injective_on(f, atoms_of(xs))) by {
        assert forall|x1: Atom, x2: Atom| atoms_of(xs).contains(x1) && atoms_of(xs).contains(x2) && #[trigger] f(x1) == #[trigger] f(
            x2,
        ) implies x1 == x2 by {
            lemma_negative_named(xs, kept, outs, fin, start, x1);
            lemma_negative_named(xs, kept, outs, fin, start, x2);
            if x1 < 0 && x2 >= 0 {
                lemma_concrete_below(xs, kept, outs, start, x2);
            } else if x2 < 0 && x1 >= 0 {
                lemma_concrete_below(xs, kept, outs, start, x1);
            }
        }
    }
}

/// Law: under a vertex limit, no event takes the state above it: after
/// every step of a well-formed system the state holds at most the limit's
/// number of distinct atoms.
pub proof fn step_respects_vertex_limit(m: HypergraphSystem, s1: HypergraphSystem)
    requires
        m.wf(),
        event_step(m, s1),
        m.limits().2 != crate::system::DISABLED,
    ensures
        atoms_of(current_state(s1.token_seq())).len() <= m.limits().2,
{
    lemma_step_renaming(m, s1);
    let kept = kept_state(m.token_seq(), step_inputs(m, s1));
    let outs = step_outputs(m, s1);
    let named = named_edges(m.next_fresh_atom(), outs)->Some_0.0;
    let xs = kept + outs;
    let ys = kept + named;
    let f = renaming(step_naming(m, s1));
    assert(atoms_of(xs).len() <= m.limits().2);
    lemma_renamed_atoms(xs, ys, f);
    lemma_atoms_finite(xs);
    vstd::set_lib::lemma_map_size(atoms_of(xs), atoms_of(ys), f);
}

/// Renaming keeps the degree of an atom that no other atom is renamed to.
proof fn lemma_renamed_degree(xs: Seq<Seq<Atom>>, ys: Seq<Seq<Atom>>, f: spec_fn(Atom) -> Atom, a: Atom)
    requires
        xs.len() == ys.len(),
        forall|i: int| 0 <= i < xs.len() ==> (#[trigger] xs[i]).len() == ys[i].len(),
        forall|i: int, j: int| 0 <= i < xs.len() && 0 <= j < xs[i].len() ==> #[trigger] ys[i][j] == f(xs[i][j]),
        forall|x: Atom| #[trigger] atoms_of(xs).contains(x) && f(x) == f(a) ==> x == a,
    ensures
        crate::system::degree(ys, f(a)) == crate::system::degree(xs, a),
    decreases xs.len(),
{
    if xs.len() > 0 {
        let dx = xs.drop_last();
        let dy = ys.drop_last();
        assert forall|x: Atom| #[trigger] atoms_of(dx).contains(x) && f(x) == f(a) implies x == a by {
            let (i, j) = choose|i: int, j: int| 0 <= i < dx.len() && 0 <= j < dx[i].len() && dx[i][j] == x;
            assert(xs[i][j] == x);
            assert(atoms_of(xs).contains(x));
        }
        assert forall|i: int| 0 <= i < dx.len() implies (#[trigger] dx[i]).len() == dy[i].len() by {
            assert(dx[i] == xs[i] && dy[i] == ys[i]);
        }
        assert forall|i: int, j: int| 0 <= i < dx.len() && 0 <= j < dx[i].len() implies #[trigger] dy[i][j] == f(dx[i][j]) by {
            assert(dx[i] == xs[i] && dy[i] == ys[i]);
        }
        lemma_renamed_degree(dx, dy, f, a);
        let lx = xs.last();
        let ly = ys.last();
        let n = xs.len() - 1;
        assert(lx == xs[n] && ly == ys[n]);
        if ly.contains(f(a)) {
            let j = choose|j: int| 0 <= j < ly.len() && ly[j] == f(a);
            assert(ys[n][j] == f(xs[n][j]));
            assert(atoms_of(xs).contains(xs[n][j]));
            assert(lx.contains(a));
        }
        if lx.contains(a) {
            let j = choose|j: int| 0 <= j < lx.len() && lx[j] == a;
            assert(ys[n][j] == f(a));
            assert(ly.contains(f(a)));
        }
    }
}

/// Law: under a degree limit, every atom of a token that an event of a
/// well-formed system consumes or creates ends in at most the limit's number
/// of edges of the new state.
pub proof fn step_respects_degree_limit(m: HypergraphSystem, s1: HypergraphSystem)
    requires
        m.wf(),
        event_step(m, s1),
        m.limits().3 != crate::system::DISABLED,
    ensures
        forall|t: int, b: Atom|
            0 <= t < s1.token_seq().len() && (s1.token_seq()[t].creator_event == m.event_seq().len() || s1.token_seq()[t].destroyer_event
                == Some(m.event_seq().len() as usize)) && #[trigger] s1.token_seq()[t].atoms@.contains(b) ==> crate::system::degree(
                current_state(s1.token_seq()),
                b,
            ) <= m.limits().3,
{
    lemma_step_renaming(m, s1);
    m.lemma_history_fits();
    m.lemma_atoms_bounded();
    let t0 = m.token_seq();
    let t1 = s1.token_seq();
    let e = m.event_seq().len();
    let n = t0.len();
    let ins = step_inputs(m, s1);
    let kept = kept_state(t0, ins);
    let outs = step_outputs(m, s1);
    let start = m.next_fresh_atom();
    let named = named_edges(start, outs)->Some_0.0;
    let xs = kept + outs;
    let ys = kept + named;
    let fin = step_naming(m, s1);
    let f = renaming(fin);
    let consumed = input_atoms(t0, ins);
    lemma_named_positions(start, outs);
    m.lemma_history_bounds();
    if start != Atom::MAX {
        lemma_outputs_below(m, step_rule(m, s1), ins);
        lemma_kept_bounds(t0, ins, start as int);
    }
    assert forall|i: int, j: int|
        0 <= i < outs.len() && 0 <= j < outs[i].len() && #[trigger] outs[i][j] < 0 implies fin.0.dom().contains(outs[i][j]) by {
        assert(named[i][j] == named_edges(start, outs)->Some_0.0[i][j]);
    }
    assert forall|t: int, b: Atom|
        0 <= t < t1.len() && (t1[t].creator_event == e || t1[t].destroyer_event == Some(e as usize)) && #[trigger] t1[t].atoms@.contains(
            b,
        ) implies crate::system::degree(current_state(t1), b) <= m.limits().3 by {
        if t < n {
            if t1[t].destroyer_event == Some(e as usize) {
                if !ins.contains(t as TokenId) {
                    assert(t1[t].destroyer_event == t0[t].destroyer_event);
                    assert(t0[t].destroyer_event->Some_0 < e);
                }
                let q = choose|q: int| 0 <= q < ins.len() && ins[q] == t as TokenId;
                assert(consumed[q] == t0[t].atoms@);
                let j = choose|j: int| 0 <= j < t0[t].atoms@.len() && t0[t].atoms@[j] == b;
                assert(crate::token::atoms_seq(t0)[t][j] == b);
                assert(b > 0);
                assert(crate::rule::edges_contain(consumed + outs, b)) by {
                    assert((consumed + outs)[q][j] == b);
                }
                assert(crate::system::degree(xs, b) <= m.limits().3);
                assert forall|x: Atom| #[trigger] atoms_of(xs).contains(x) && f(x) == f(b) implies x == b by {
                    lemma_negative_named(xs, kept, outs, fin, start, x);
                    if x < 0 {
                        assert(start != Atom::MAX);
                        assert(crate::token::atoms_seq(t0)[t][j] < start);
                    }
                }
                lemma_renamed_degree(xs, ys, f, b);
            } else {
                assert(t1[t].creator_event == t0[t].creator_event);
                assert(t0[t].creator_event < e);
            }
        } else {
            let k = t - n;
            assert(t1[n + k] == t1[t]);
            assert(t1[t].atoms@ == named[k]);
            let j = choose|j: int| 0 <= j < named[k].len() && named[k][j] == b;
            let a = outs[k][j];
            assert(named[k][j] == named_edges(start, outs)->Some_0.0[k][j]);
            assert(xs[kept.len() + k] == outs[k]);
            assert(ys[kept.len() + k][j] == f(xs[kept.len() + k][j]));
            assert(b == f(a));
            assert(atoms_of(xs).contains(a)) by {
                assert(xs[kept.len() + k][j] == a);
            }
            assert(crate::rule::edges_contain(consumed + outs, a)) by {
                assert((consumed + outs)[consumed.len() + k][j] == a);
            }
            assert(crate::system::degree(xs, a) <= m.limits().3);
            lemma_renamed_degree(xs, ys, f, a);
        }
    }
}

/// Law: along a run of the evolution that applied at least one event, the
/// state after the last event keeps within the limits the run evolves under:
/// at most the edge limit's number of edges and at most the vertex limit's
/// number of distinct atoms.
pub proof fn run_respects_limits(s0: HypergraphSystem, s1: HypergraphSystem, k: nat)
    requires
        crate::system::event_steps(s0, s1, k),
        k >= 1,
    ensures
        s0.limits().4 != crate::system::DISABLED ==> current_state(s1.token_seq()).len() <= s0.limits().4,
        s0.limits().2 != crate::system::DISABLED ==> atoms_of(current_state(s1.token_seq())).len() <= s0.limits().2,
{
    let trace = choose|trace: Seq<HypergraphSystem>|
        #[trigger] crate::system::is_run(trace) && trace.len() == k + 1 && trace[0] == s0 && trace.last() == s1;
    let j = k - 1;
    assert(event_step(trace[j], trace[j + 1]));
    assert(trace[j + 1] == s1);
    let m = trace[j];
    assert(m.wf() && m.limits() == s0.limits());
    if s0.limits().4 != crate::system::DISABLED {
        crate::system::step_respects_edge_limit(m, s1);
    }
    if s0.limits().2 != crate::system::DISABLED {
        step_respects_vertex_limit(m, s1);
    }
}

} // verus!
