//! Discovery of matches: completing partial matches through the atoms index.
//!
//! Each new token is tried as an anchor at every input position of every
//! rule; the remaining positions are completed through the atoms index,
//! choosing at each step the position with the fewest candidate tokens.

use vstd::prelude::*;

use crate::atoms_index::AtomsIndex;
use crate::error::Error;
use crate::matcher::Match;
use crate::matcher::Matcher;
use crate::ordering::MatchSpec;
use crate::pattern::substitute;
use crate::pattern::unify_edge;
use crate::pattern::Binding;
use crate::rule::Atom;
use crate::rule::Rule;
use crate::token::Token;
use crate::token::TokenId;

verus! {

broadcast use vstd::seq_lib::lemma_seq_contains_after_push;

/// The token's atoms hold every concrete atom of the pattern.
pub open spec fn holds_concrete(atoms: Seq<Atom>, pattern: Seq<Atom>) -> bool {
    forall|k: int| 0 <= k < pattern.len() && pattern[k] > 0 ==> atoms.contains(#[trigger] pattern[k])
}

/// The pattern has a concrete atom.
pub open spec fn has_concrete(pattern: Seq<Atom>) -> bool {
    exists|k: int| 0 <= k < pattern.len() && #[trigger] pattern[k] > 0
}

/// Under `t`, every unfilled pattern becomes the atoms of the token chosen for it.
pub open spec fn binds(
    t: Map<Atom, Atom>,
    pats: Seq<Seq<Atom>>,
    partial: Seq<Option<TokenId>>,
    ta: Seq<Seq<Atom>>,
    ins: Seq<TokenId>,
) -> bool {
    forall|q: int|
        0 <= q < pats.len() && partial[q] is None ==> #[trigger] crate::pattern::apply_edge(t, pats[q]) == ta[ins[q] as int]
}

/// `ins` completes the partial match: it keeps the chosen tokens, uses each
/// token once, only indexed tokens, and some binding turns every remaining
/// pattern into its token.
pub open spec fn is_completion(
    pats: Seq<Seq<Atom>>,
    partial: Seq<Option<TokenId>>,
    ta: Seq<Seq<Atom>>,
    indexed: Set<TokenId>,
    ins: Seq<TokenId>,
) -> bool {
    &&& ins.len() == pats.len()
    &&& partial.len() == pats.len()
    &&& ins.no_duplicates()
    &&& forall|q: int| 0 <= q < pats.len() && #[trigger] partial[q] is Some ==> ins[q] == partial[q]->Some_0
    &&& forall|q: int| 0 <= q < pats.len() ==> indexed.contains(#[trigger] ins[q])
    &&& exists|t: Map<Atom, Atom>| #[trigger] binds(t, pats, partial, ta, ins)
}

/// The input patterns of every rule.
pub open spec fn rule_patterns(rules: Seq<Rule>) -> Seq<Seq<Seq<Atom>>> {
    rules.map_values(|r: Rule| r.spec_inputs())
}

/// A match of a rule against indexed tokens: one distinct token per input
/// edge, and some binding of the rule's variables turns every input edge into
/// its token.
pub open spec fn valid_match(
    pats: Seq<Seq<Seq<Atom>>>,
    ta: Seq<Seq<Atom>>,
    indexed: Set<TokenId>,
    m: MatchSpec,
) -> bool {
    &&& m.0 < pats.len()
    &&& is_completion(pats[m.0 as int], nothing_chosen(pats[m.0 as int].len()), ta, indexed, m.1)
}

/// The partial match of `n` positions with nothing chosen yet.
pub open spec fn nothing_chosen(n: nat) -> Seq<Option<TokenId>> {
    Seq::new(n, |q: int| None)
}

/// The valid matches that use one of the given tokens.
pub open spec fn new_matches(
    pats: Seq<Seq<Seq<Atom>>>,
    ta: Seq<Seq<Atom>>,
    indexed: Set<TokenId>,
    ids: Seq<TokenId>,
) -> Set<MatchSpec> {
    Set::new(|x: MatchSpec| valid_match(pats, ta, indexed, x) && crate::matcher::involves(x, ids))
}

/// The matches of rule `r` whose token at position `p` is `t`.
pub open spec fn anchored_matches(
    r: usize,
    pats: Seq<Seq<Atom>>,
    p: int,
    t: TokenId,
    ta: Seq<Seq<Atom>>,
    indexed: Set<TokenId>,
) -> Set<MatchSpec> {
    Set::new(|x: MatchSpec| x.0 == r && is_completion(pats, nothing_chosen(pats.len()), ta, indexed, x.1) && x.1[p] == t)
}

/// Invariant of a partial match: chosen tokens are indexed, distinct, and
/// their patterns are already their atoms.
pub open spec fn partial_ok(
    pats: Seq<Seq<Atom>>,
    partial: Seq<Option<TokenId>>,
    ta: Seq<Seq<Atom>>,
    indexed: Set<TokenId>,
) -> bool {
    &&& partial.len() == pats.len()
    &&& forall|q: int| 0 <= q < partial.len() && #[trigger] partial[q] is Some ==> indexed.contains(partial[q]->Some_0)
        && pats[q] == ta[partial[q]->Some_0 as int]
    &&& forall|q: int, r: int|
        0 <= q < partial.len() && 0 <= r < partial.len() && q != r && #[trigger] partial[q] is Some
            && #[trigger] partial[r] is Some ==> partial[q]->Some_0 != partial[r]->Some_0
}

/// Number of unfilled positions.
pub open spec fn unfilled(partial: Seq<Option<TokenId>>) -> nat
    decreases partial.len(),
{
    if partial.len() == 0 {
        0
    } else {
        unfilled(partial.drop_last()) + if partial.last() is None { 1nat } else { 0nat }
    }
}

proof fn lemma_unfilled_update(partial: Seq<Option<TokenId>>, p: int, v: TokenId)
    requires
        0 <= p < partial.len(),
        partial[p] is None,
    ensures
        unfilled(partial.update(p, Some(v))) < unfilled(partial),
    decreases partial.len(),
{
    if p < partial.len() - 1 {
        assert(partial.update(p, Some(v)).drop_last() =~= partial.drop_last().update(p, Some(v)));
        lemma_unfilled_update(partial.drop_last(), p, v);
    } else {
        assert(partial.update(p, Some(v)).drop_last() =~= partial.drop_last());
    }
}

/// Indexed tokens hold concrete atoms (the index lives within `ta`).
pub open spec fn indexed_within(ta: Seq<Seq<Atom>>, indexed: Set<TokenId>) -> bool {
    forall|t: TokenId| #[trigger] indexed.contains(t) ==> t < ta.len()
}

/// One step of the search: completions of the partial match with `c` chosen
/// for position `pos` are exactly the completions of the extended partial
/// match against the patterns rewritten by the binding `c` forces.
pub proof fn lemma_step(
    pats: Seq<Seq<Atom>>,
    partial: Seq<Option<TokenId>>,
    ta: Seq<Seq<Atom>>,
    indexed: Set<TokenId>,
    pos: int,
    c: TokenId,
    m: Map<Atom, Atom>,
    ins: Seq<TokenId>,
)
    requires
        crate::token::positive_tokens(ta),
        indexed_within(ta, indexed),
        partial_ok(pats, partial, ta, indexed),
        0 <= pos < pats.len(),
        partial[pos] is None,
        indexed.contains(c),
        crate::pattern::unify_spec(Map::empty(), pats[pos], ta[c as int]) == Some(m),
    ensures
        crate::pattern::proper_binding(m),
        partial_ok(crate::pattern::apply_edges(m, pats), partial.update(pos, Some(c)), ta, indexed) <==> (
        forall|q: int| 0 <= q < partial.len() && #[trigger] partial[q] is Some ==> partial[q]->Some_0 != c),
        is_completion(crate::pattern::apply_edges(m, pats), partial.update(pos, Some(c)), ta, indexed, ins) <==> (
        is_completion(pats, partial, ta, indexed, ins) && ins[pos] == c),
{
    let pats2 = crate::pattern::apply_edges(m, pats);
    let partial2 = partial.update(pos, Some(c));
    let e = Map::<Atom, Atom>::empty();
    assert(crate::pattern::proper_binding(e));
    assert(crate::pattern::all_positive(ta[c as int]));
    crate::pattern::lemma_unify_sound(e, pats[pos], ta[c as int], 0);
    assert(crate::pattern::apply_edge(m, pats[pos]) =~= ta[c as int]);
    assert forall|q: int| 0 <= q < partial.len() && #[trigger] partial[q] is Some implies pats2[q] == pats[q] by {
        crate::pattern::lemma_apply_positive(m, pats[q]);
    }
    if is_completion(pats2, partial2, ta, indexed, ins) {
        let t2 = choose|t: Map<Atom, Atom>| #[trigger] binds(t, pats2, partial2, ta, ins);
        let t = crate::pattern::overlay(t2, m);
        assert forall|q: int| 0 <= q < pats.len() && partial[q] is None implies #[trigger] crate::pattern::apply_edge(
            t,
            pats[q],
        ) == ta[ins[q] as int] by {
            assert forall|k: int| 0 <= k < pats[q].len() implies #[trigger] crate::pattern::apply_edge(t, pats[q])[k]
                == crate::pattern::apply_edge(t2, pats2[q])[k] by {
                crate::pattern::lemma_overlay(t2, m, pats[q][k]);
            }
            assert(crate::pattern::apply_edge(t, pats[q]) =~= crate::pattern::apply_edge(t2, pats2[q]));
            if q == pos {
                assert(partial2[q] is Some);
                crate::pattern::lemma_apply_positive(t2, ta[c as int]);
            } else {
                assert(partial2[q] is None);
            }
        }
        assert(binds(t, pats, partial, ta, ins));
        assert(partial2[pos] is Some);
        assert(ins[pos] == c);
        assert forall|q: int| 0 <= q < pats.len() && #[trigger] partial[q] is Some implies ins[q] == partial[q]->Some_0 by {
            assert(q != pos);
            assert(partial2[q] == partial[q]);
            assert(partial2[q] is Some);
        }
        assert(is_completion(pats, partial, ta, indexed, ins));
    }
    if is_completion(pats, partial, ta, indexed, ins) && ins[pos] == c {
        let t = choose|t: Map<Atom, Atom>| #[trigger] binds(t, pats, partial, ta, ins);
        assert(crate::pattern::apply_edge(t, pats[pos]) == ta[ins[pos] as int]);
        assert forall|k: int| 0 <= k < pats[pos].len() implies crate::pattern::apply_atom(t, #[trigger] pats[pos][k])
            == ta[c as int][k] by {
            assert(crate::pattern::apply_edge(t, pats[pos])[k] == ta[c as int][k]);
        }
        crate::pattern::lemma_unify_complete(e, t, pats[pos], ta[c as int], 0);
        assert forall|q: int| 0 <= q < pats2.len() && partial2[q] is None implies #[trigger] crate::pattern::apply_edge(
            t,
            pats2[q],
        ) == ta[ins[q] as int] by {
            assert forall|k: int| 0 <= k < pats[q].len() implies #[trigger] crate::pattern::apply_edge(t, pats2[q])[k]
                == crate::pattern::apply_edge(t, pats[q])[k] by {
                crate::pattern::lemma_apply_compose(m, t, pats[q][k]);
            }
            assert(crate::pattern::apply_edge(t, pats2[q]) =~= crate::pattern::apply_edge(t, pats[q]));
        }
        assert(binds(t, pats2, partial2, ta, ins));
        assert forall|q: int| 0 <= q < pats2.len() && #[trigger] partial2[q] is Some implies ins[q] == partial2[q]->Some_0 by {
            if q != pos {
                assert(partial[q] is Some);
            }
        }
        assert(is_completion(pats2, partial2, ta, indexed, ins));
    }
    if forall|q: int| 0 <= q < partial.len() && #[trigger] partial[q] is Some ==> partial[q]->Some_0 != c {
        assert forall|q: int| 0 <= q < partial2.len() && #[trigger] partial2[q] is Some implies indexed.contains(partial2[q]->Some_0)
            && pats2[q] == ta[partial2[q]->Some_0 as int] by {
            if q != pos {
                assert(partial[q] is Some);
            }
        }
        assert forall|q: int, r: int|
            0 <= q < partial2.len() && 0 <= r < partial2.len() && q != r && #[trigger] partial2[q] is Some
                && #[trigger] partial2[r] is Some implies partial2[q]->Some_0 != partial2[r]->Some_0 by {
            if q != pos {
                assert(partial[q] is Some);
            }
            if r != pos {
                assert(partial[r] is Some);
            }
        }
        assert(partial_ok(pats2, partial2, ta, indexed));
    }
    if partial_ok(pats2, partial2, ta, indexed) {
        assert forall|q: int| 0 <= q < partial.len() && #[trigger] partial[q] is Some implies partial[q]->Some_0 != c by {
            assert(q != pos);
            assert(partial2[q] is Some);
            assert(partial2[pos] is Some);
        }
    }
}


/// The matches of rule `r` completing a partial match.
pub open spec fn completions(
    r: usize,
    pats: Seq<Seq<Atom>>,
    partial: Seq<Option<TokenId>>,
    ta: Seq<Seq<Atom>>,
    indexed: Set<TokenId>,
) -> Set<MatchSpec> {
    Set::new(|x: MatchSpec| x.0 == r && is_completion(pats, partial, ta, indexed, x.1))
}

/// The patterns of a vector of edges.
pub open spec fn pats_of(v: Seq<Vec<Atom>>) -> Seq<Seq<Atom>> {
    v.map_values(|e: Vec<Atom>| e@)
}

/// Whether the atoms hold every concrete atom of the pattern.
fn token_holds_concrete(atoms: &Vec<Atom>, pattern: &Vec<Atom>) -> (r: bool)
    ensures
        r == holds_concrete(atoms@, pattern@),
{
    let mut k: usize = 0;
    while k < pattern.len()
        invariant
            k <= pattern.len(),
            forall|kk: int| 0 <= kk < k && pattern@[kk] > 0 ==> atoms@.contains(#[trigger] pattern@[kk]),
        decreases pattern.len() - k,
    {
        let a = pattern[k];
        if a > 0 {
            let mut j: usize = 0;
            let mut found = false;
            while j < atoms.len()
                invariant
                    j <= atoms.len(),
                    !found ==> forall|jj: int| 0 <= jj < j ==> atoms@[jj] != a,
                    found ==> atoms@.contains(a),
                decreases atoms.len() - j,
            {
                if atoms[j] == a {
                    found = true;
                }
                j = j + 1;
            }
            if !found {
                assert(!atoms@.contains(pattern@[k as int]));
                return false;
            }
        }
        k = k + 1;
    }
    true
}

/// The indexed tokens holding every concrete atom of a pattern, in
/// increasing order.
fn candidates_for(pattern: &Vec<Atom>, index: &AtomsIndex, tokens: &Vec<Token>) -> (r: Vec<TokenId>)
    requires
        index.wf(crate::token::atoms_seq(tokens@)),
        has_concrete(pattern@),
    ensures
        crate::atoms_index::strictly_sorted(r@),
        forall|t: TokenId| #[trigger] r@.contains(t) <==> (index.indexed().contains(t) && holds_concrete(
            crate::token::atoms_seq(tokens@)[t as int],
            pattern@,
        )),
{
    let ghost ta = crate::token::atoms_seq(tokens@);
    let mut k: usize = 0;
    while k < pattern.len() && pattern[k] <= 0
        invariant
            k <= pattern.len(),
            forall|kk: int| 0 <= kk < k ==> pattern@[kk] <= 0,
        decreases pattern.len() - k,
    {
        k = k + 1;
    }
    assert(k < pattern.len());
    let a0 = pattern[k];
    let mut out: Vec<TokenId> = Vec::new();
    match index.tokens_containing(a0, Ghost(ta)) {
        None => {
            proof {
                assert forall|t: TokenId| #[trigger] out@.contains(t) <==> (index.indexed().contains(t) && holds_concrete(ta[t as int], pattern@)) by {
                    if index.indexed().contains(t) && holds_concrete(ta[t as int], pattern@) {
                        assert(ta[t as int].contains(pattern@[k as int]));
                    }
                }
            }
        },
        Some(list) => {
            let mut i: usize = 0;
            while i < list.len()
                invariant
                    i <= list.len(),
                    ta == crate::token::atoms_seq(tokens@),
                    index.wf(ta),
                    a0 == pattern@[k as int],
                    k < pattern.len(),
                    crate::atoms_index::strictly_sorted(list@),
                    forall|t: TokenId| #[trigger] list@.contains(t) <==> (index.indexed().contains(t) && ta[t as int].contains(a0)),
                    crate::atoms_index::strictly_sorted(out@),
                    forall|t: TokenId| #[trigger] out@.contains(t) <==> (list@.take(i as int).contains(t) && holds_concrete(ta[t as int], pattern@)),
                decreases list.len() - i,
            {
                let t = list[i];
                assert(list@.contains(t));
                assert(list@.take(i + 1) =~= list@.take(i as int).push(t));
                assert(t < tokens.len()) by {
                    assert(index.indexed().contains(t));
                    index.lemma_indexed_within(ta, t);
                }
                assert(tokens@[t as int].atoms@ == ta[t as int]);
                if token_holds_concrete(&tokens[t].atoms, pattern) {
                    let ghost before = out@;
                    out.push(t);
                    proof {
                        assert forall|a: int, b: int| 0 <= a < b < out@.len() implies out@[a] < out@[b] by {
                            if b == out@.len() - 1 {
                                assert(before.contains(before[a]));
                                let j = choose|j: int| 0 <= j < i && #[trigger] list@.take(i as int)[j] == before[a];
                                assert(list@[j] == before[a]);
                            }
                        }
                    }
                }
                i = i + 1;
            }
            proof {
                assert(list@.take(list.len() as int) =~= list@);
                assert forall|t: TokenId| #[trigger] out@.contains(t) <==> (index.indexed().contains(t) && holds_concrete(ta[t as int], pattern@)) by {
                    if index.indexed().contains(t) && holds_concrete(ta[t as int], pattern@) {
                        assert(ta[t as int].contains(pattern@[k as int]));
                        assert(list@.contains(t));
                    }
                }
            }
        },
    }
    out
}

/// Whether the pattern has a concrete atom.
fn pattern_has_concrete(pattern: &Vec<Atom>) -> (r: bool)
    ensures
        r == has_concrete(pattern@),
{
    let mut k: usize = 0;
    while k < pattern.len()
        invariant
            k <= pattern.len(),
            forall|kk: int| 0 <= kk < k ==> pattern@[kk] <= 0,
        decreases pattern.len() - k,
    {
        if pattern[k] > 0 {
            assert(pattern@[k as int] > 0);
            return true;
        }
        k = k + 1;
    }
    false
}

/// Two edges share an atom.
pub open spec fn edges_share(a: Seq<Atom>, b: Seq<Atom>) -> bool {
    exists|x: Atom| a.contains(x) && #[trigger] b.contains(x)
}

/// No edge inside `part` shares an atom with an edge outside it.
pub open spec fn closed_group(es: Seq<Seq<Atom>>, part: Set<int>) -> bool {
    forall|i: int, j: int|
        0 <= i < es.len() && 0 <= j < es.len() && #[trigger] part.contains(i) && !#[trigger] part.contains(j)
            ==> !edges_share(es[i], es[j])
}

/// The edges form a connected hypergraph: the only groups of them that share
/// no atom with the rest are none and all.
pub open spec fn linked_edges(es: Seq<Seq<Atom>>) -> bool {
    forall|part: Set<int>|
        #[trigger] closed_group(es, part) ==> (forall|i: int| 0 <= i < es.len() ==> part.contains(i)) || (forall|i: int|
            0 <= i < es.len() ==> !part.contains(i))
}

/// Every rule's inputs form a connected hypergraph.
pub open spec fn rules_linked(rules: Seq<Rule>) -> bool {
    forall|k: int| 0 <= k < rules.len() ==> linked_edges(#[trigger] rules[k].spec_inputs())
}

/// Substitution keeps edges connected.
proof fn lemma_linked_apply(m: Map<Atom, Atom>, es: Seq<Seq<Atom>>)
    requires
        linked_edges(es),
    ensures
        linked_edges(crate::pattern::apply_edges(m, es)),
{
    let ap = crate::pattern::apply_edges(m, es);
    assert forall|part: Set<int>| #[trigger] closed_group(ap, part) implies (forall|i: int| 0 <= i < ap.len() ==> part.contains(i))
        || (forall|i: int| 0 <= i < ap.len() ==> !part.contains(i)) by {
        assert forall|i: int, j: int|
            0 <= i < es.len() && 0 <= j < es.len() && #[trigger] part.contains(i) && !#[trigger] part.contains(j) implies !edges_share(
            es[i],
            es[j],
        ) by {
            if edges_share(es[i], es[j]) {
                let x = choose|x: Atom| es[i].contains(x) && #[trigger] es[j].contains(x);
                let a = choose|a: int| 0 <= a < es[i].len() && es[i][a] == x;
                let b = choose|b: int| 0 <= b < es[j].len() && es[j][b] == x;
                let y = crate::pattern::apply_atom(m, x);
                assert(ap[i][a] == y);
                assert(ap[j][b] == y);
                assert(ap[i].contains(y));
                assert(ap[j].contains(y));
                assert(edges_share(ap[i], ap[j]));
            }
        }
        assert(closed_group(es, part));
    }
}

/// The candidates for a pattern: indexed tokens holding all its concrete atoms.
pub open spec fn candidate_set(indexed: Set<TokenId>, ta: Seq<Seq<Atom>>, pattern: Seq<Atom>) -> Set<TokenId> {
    Set::new(|t: TokenId| indexed.contains(t) && holds_concrete(ta[t as int], pattern))
}

/// A strictly sorted sequence has as many entries as its set.
proof fn lemma_sorted_len(s: Seq<TokenId>)
    requires
        crate::atoms_index::strictly_sorted(s),
    ensures
        s.to_set().len() == s.len(),
{
    assert(s.no_duplicates()) by {
        assert forall|i: int, j: int| 0 <= i < s.len() && 0 <= j < s.len() && i != j implies s[i] != s[j] by {
            if i < j {
                assert(s[i] < s[j]);
            } else {
                assert(s[j] < s[i]);
            }
        }
    }
    s.unique_seq_to_set();
}

/// The position a search extends next: unfilled, with a concrete atom, with
/// the fewest candidate tokens, earliest among equals.
pub open spec fn best_position(
    pats: Seq<Seq<Atom>>,
    partial: Seq<Option<TokenId>>,
    ta: Seq<Seq<Atom>>,
    idx: Set<TokenId>,
    pos: int,
) -> bool {
    &&& 0 <= pos < partial.len()
    &&& partial[pos] is None
    &&& has_concrete(pats[pos])
    &&& forall|q: int|
        0 <= q < partial.len() && #[trigger] partial[q] is None && has_concrete(pats[q]) ==> candidate_set(idx, ta, pats[pos]).len()
            < candidate_set(idx, ta, pats[q]).len() || candidate_set(idx, ta, pats[pos]).len() == candidate_set(
            idx,
            ta,
            pats[q],
        ).len() && pos <= q
}

/// Completing the partial match reaches a partial match with an unfilled
/// position and no unfilled pattern that has a concrete atom: from a partial
/// match with an unfilled position, either no unfilled pattern has a concrete
/// atom, or some candidate token for the best position, not yet used, whose
/// atoms the pattern unifies with, leads there.
pub open spec fn search_sticks(
    pats: Seq<Seq<Atom>>,
    partial: Seq<Option<TokenId>>,
    ta: Seq<Seq<Atom>>,
    idx: Set<TokenId>,
) -> bool
    decreases unfilled(partial),
    via search_sticks_decreases
{
    if forall|q: int| 0 <= q < partial.len() ==> #[trigger] partial[q] is Some {
        false
    } else if forall|q: int| 0 <= q < partial.len() && #[trigger] partial[q] is None ==> !has_concrete(pats[q]) {
        true
    } else {
        exists|pos: int, c: TokenId|
            #[trigger] best_position(pats, partial, ta, idx, pos) && #[trigger] candidate_set(idx, ta, pats[pos]).contains(c)
                && !partial.contains(Some(c)) && crate::pattern::unify_spec(Map::empty(), pats[pos], ta[c as int]) is Some
                && search_sticks(
                crate::pattern::apply_edges(crate::pattern::unify_spec(Map::empty(), pats[pos], ta[c as int])->Some_0, pats),
                partial.update(pos, Some(c)),
                ta,
                idx,
            )
    }
}

#[via_fn]
proof fn search_sticks_decreases(
    pats: Seq<Seq<Atom>>,
    partial: Seq<Option<TokenId>>,
    ta: Seq<Seq<Atom>>,
    idx: Set<TokenId>,
) {
    assert forall|pos: int, c: TokenId| #[trigger] best_position(pats, partial, ta, idx, pos) implies #[trigger] unfilled(
        partial.update(pos, Some(c)),
    ) < unfilled(partial) by {
        lemma_unfilled_update(partial, pos, c);
    }
}

/// Only one position is best.
proof fn lemma_best_unique(
    pats: Seq<Seq<Atom>>,
    partial: Seq<Option<TokenId>>,
    ta: Seq<Seq<Atom>>,
    idx: Set<TokenId>,
    a: int,
    b: int,
)
    requires
        best_position(pats, partial, ta, idx, a),
        best_position(pats, partial, ta, idx, b),
    ensures
        a == b,
{
    assert(partial[b] is None && has_concrete(pats[b]));
    assert(partial[a] is None && has_concrete(pats[a]));
}

/// Filling the best position `pos` with token `c` leads to a partial match
/// whose completion sticks.
pub open spec fn child_sticks(
    pats: Seq<Seq<Atom>>,
    partial: Seq<Option<TokenId>>,
    ta: Seq<Seq<Atom>>,
    idx: Set<TokenId>,
    pos: int,
    c: TokenId,
) -> bool {
    &&& candidate_set(idx, ta, pats[pos]).contains(c)
    &&& !partial.contains(Some(c))
    &&& crate::pattern::unify_spec(Map::empty(), pats[pos], ta[c as int]) is Some
    &&& search_sticks(
        crate::pattern::apply_edges(crate::pattern::unify_spec(Map::empty(), pats[pos], ta[c as int])->Some_0, pats),
        partial.update(pos, Some(c)),
        ta,
        idx,
    )
}

/// With the best position `pos`, the completion sticks exactly when some
/// token's child does.
proof fn lemma_sticks_at(
    pats: Seq<Seq<Atom>>,
    partial: Seq<Option<TokenId>>,
    ta: Seq<Seq<Atom>>,
    idx: Set<TokenId>,
    pos: int,
)
    requires
        best_position(pats, partial, ta, idx, pos),
    ensures
        search_sticks(pats, partial, ta, idx) <==> exists|c: TokenId| #[trigger] child_sticks(pats, partial, ta, idx, pos, c),
{
    assert(partial[pos] is None);
    assert(!forall|q: int| 0 <= q < partial.len() ==> #[trigger] partial[q] is Some);
    assert(!forall|q: int| 0 <= q < partial.len() && #[trigger] partial[q] is None ==> !has_concrete(pats[q]));
    if search_sticks(pats, partial, ta, idx) {
        let (p2, c) = choose|p2: int, c: TokenId|
            #[trigger] best_position(pats, partial, ta, idx, p2) && #[trigger] candidate_set(idx, ta, pats[p2]).contains(c)
                && !partial.contains(Some(c)) && crate::pattern::unify_spec(Map::empty(), pats[p2], ta[c as int]) is Some
                && search_sticks(
                crate::pattern::apply_edges(crate::pattern::unify_spec(Map::empty(), pats[p2], ta[c as int])->Some_0, pats),
                partial.update(p2, Some(c)),
                ta,
                idx,
            );
        lemma_best_unique(pats, partial, ta, idx, pos, p2);
        assert(child_sticks(pats, partial, ta, idx, pos, c));
    }
    if exists|c: TokenId| #[trigger] child_sticks(pats, partial, ta, idx, pos, c) {
        let c = choose|c: TokenId| #[trigger] child_sticks(pats, partial, ta, idx, pos, c);
        assert(candidate_set(idx, ta, pats[pos]).contains(c));
    }
}

/// Picks the unfilled input position with the fewest candidate tokens
/// (earliest among equals), with its candidates. Candidates for a position are
/// the indexed tokens containing *all* of its concrete atoms. Positions whose
/// pattern has no concrete atoms (after substitution of variables bound so far)
/// cannot be looked up; if no position is eligible, the rule's inputs are
/// disconnected, which is unsupported.
pub fn next_best_input(
    partial: &Vec<Option<TokenId>>,
    patterns: &Vec<Vec<Atom>>,
    index: &AtomsIndex,
    tokens: &Vec<Token>,
) -> (r: Result<(usize, Vec<TokenId>), Error>)
    requires
        index.wf(crate::token::atoms_seq(tokens@)),
        partial.len() == patterns.len(),
    ensures
        r matches Ok((pos, cands)) ==> pos < partial.len() && partial@[pos as int] is None && has_concrete(
            patterns@[pos as int]@,
        ) && crate::atoms_index::strictly_sorted(cands@) && forall|t: TokenId| #[trigger] cands@.contains(t) <==> (
            index.indexed().contains(t) && holds_concrete(crate::token::atoms_seq(tokens@)[t as int], patterns@[pos as int]@)),
        r matches Ok((pos, cands)) ==> cands.len() == candidate_set(
            index.indexed(),
            crate::token::atoms_seq(tokens@),
            patterns@[pos as int]@,
        ).len(),
        r matches Ok((pos, cands)) ==> forall|q: int|
            0 <= q < partial.len() && #[trigger] partial@[q] is None && has_concrete(patterns@[q]@) ==> cands.len()
                <= candidate_set(index.indexed(), crate::token::atoms_seq(tokens@), patterns@[q]@).len() && (cands.len()
                == candidate_set(index.indexed(), crate::token::atoms_seq(tokens@), patterns@[q]@).len() ==> pos <= q),
        r matches Err(e) ==> e is DisconnectedInputs && forall|q: int|
            0 <= q < partial.len() && #[trigger] partial@[q] is None ==> !has_concrete(patterns@[q]@),
{
    let ghost ta = crate::token::atoms_seq(tokens@);
    let mut best: Option<(usize, Vec<TokenId>)> = None;
    let mut i: usize = 0;
    while i < patterns.len()
        invariant
            i <= patterns.len(),
            partial.len() == patterns.len(),
            ta == crate::token::atoms_seq(tokens@),
            index.wf(ta),
            best is None ==> forall|q: int| 0 <= q < i && #[trigger] partial@[q] is None ==> !has_concrete(patterns@[q]@),
            best matches Some((pos, cands)) ==> pos < partial.len() && partial@[pos as int] is None && has_concrete(
                patterns@[pos as int]@,
            ) && crate::atoms_index::strictly_sorted(cands@) && forall|t: TokenId| #[trigger] cands@.contains(t) <==> (
                index.indexed().contains(t) && holds_concrete(ta[t as int], patterns@[pos as int]@)),
            best matches Some((pos, cands)) ==> pos < i,
            best matches Some((pos, cands)) ==> cands.len() == candidate_set(index.indexed(), ta, patterns@[pos as int]@).len(),
            best matches Some((pos, cands)) ==> forall|q: int|
                0 <= q < i && #[trigger] partial@[q] is None && has_concrete(patterns@[q]@) ==> cands.len() <= candidate_set(
                    index.indexed(),
                    ta,
                    patterns@[q]@,
                ).len() && (cands.len() == candidate_set(index.indexed(), ta, patterns@[q]@).len() ==> pos <= q),
        decreases patterns.len() - i,
    {
        if partial[i].is_none() && pattern_has_concrete(&patterns[i]) {
            let cands = candidates_for(&patterns[i], index, tokens);
            proof {
                lemma_sorted_len(cands@);
                assert(cands@.to_set() =~= candidate_set(index.indexed(), ta, patterns@[i as int]@));
            }
            let better = match &best {
                None => true,
                Some((_, b)) => cands.len() < b.len(),
            };
            let ghost old_best = best;
            let ghost found = cands@;
            if better {
                best = Some((i, cands));
            }
            proof {
                let count_i = candidate_set(index.indexed(), ta, patterns@[i as int]@).len();
                assert(found.len() == count_i);
                assert forall|q: int|
                    0 <= q < i + 1 && #[trigger] partial@[q] is None && has_concrete(patterns@[q]@) implies best->Some_0.1.len()
                        <= candidate_set(index.indexed(), ta, patterns@[q]@).len() && (best->Some_0.1.len() == candidate_set(
                        index.indexed(),
                        ta,
                        patterns@[q]@,
                    ).len() ==> best->Some_0.0 <= q) by {
                    if q < i {
                        assert(old_best is Some);
                    }
                }
            }
        }
        i = i + 1;
    }
    match best {
        Some(b) => Ok(b),
        None => Err(Error::DisconnectedInputs),
    }
}


/// A binding keeps the concrete atoms of a pattern.
proof fn lemma_concrete_kept(m: Map<Atom, Atom>, p: Seq<Atom>)
    requires
        has_concrete(p),
    ensures
        has_concrete(crate::pattern::apply_edge(m, p)),
{
    let k = choose|k: int| 0 <= k < p.len() && #[trigger] p[k] > 0;
    assert(crate::pattern::apply_edge(m, p)[k] > 0);
}

/// The token a completion puts at an unfilled position unifies with that
/// position's pattern and holds its concrete atoms.
proof fn lemma_completion_unifies(
    pats: Seq<Seq<Atom>>,
    partial: Seq<Option<TokenId>>,
    ta: Seq<Seq<Atom>>,
    indexed: Set<TokenId>,
    ins: Seq<TokenId>,
    pos: int,
)
    requires
        crate::token::positive_tokens(ta),
        indexed_within(ta, indexed),
        is_completion(pats, partial, ta, indexed, ins),
        0 <= pos < pats.len(),
        partial[pos] is None,
    ensures
        crate::pattern::unify_spec(Map::empty(), pats[pos], ta[ins[pos] as int]) is Some,
        holds_concrete(ta[ins[pos] as int], pats[pos]),
{
    let t = choose|t: Map<Atom, Atom>| #[trigger] binds(t, pats, partial, ta, ins);
    let c = ins[pos];
    assert(indexed.contains(c));
    assert(crate::pattern::apply_edge(t, pats[pos]) == ta[c as int]);
    let e = Map::<Atom, Atom>::empty();
    assert(crate::pattern::all_positive(ta[c as int]));
    assert forall|k: int| 0 <= k < pats[pos].len() implies crate::pattern::apply_atom(t, #[trigger] pats[pos][k])
        == ta[c as int][k] by {
        assert(crate::pattern::apply_edge(t, pats[pos])[k] == ta[c as int][k]);
    }
    crate::pattern::lemma_unify_complete(e, t, pats[pos], ta[c as int], 0);
    assert forall|k: int| 0 <= k < pats[pos].len() && pats[pos][k] > 0 implies ta[c as int].contains(
        #[trigger] pats[pos][k],
    ) by {
        assert(crate::pattern::apply_edge(t, pats[pos])[k] == ta[c as int][k]);
    }
}

/// Whether some position of the partial match already holds `t`.
fn holds_token(partial: &Vec<Option<TokenId>>, t: TokenId) -> (r: bool)
    ensures
        r == exists|q: int| 0 <= q < partial.len() && #[trigger] partial@[q] == Some(t),
{
    let mut q: usize = 0;
    while q < partial.len()
        invariant
            q <= partial.len(),
            forall|qq: int| 0 <= qq < q ==> #[trigger] partial@[qq] != Some(t),
        decreases partial.len() - q,
    {
        if partial[q] == Some(t) {
            assert(partial@[q as int] == Some(t));
            return true;
        }
        q = q + 1;
    }
    false
}

/// The tokens of a complete partial match, or `None` while a position is
/// unfilled.
fn filled_inputs(partial: &Vec<Option<TokenId>>) -> (r: Option<Vec<TokenId>>)
    ensures
        r matches Some(v) ==> v.len() == partial.len() && forall|q: int| 0 <= q < partial.len() ==> #[trigger] partial@[q] == Some(v@[q]),
        r is None ==> exists|q: int| 0 <= q < partial.len() && #[trigger] partial@[q] is None,
{
    let mut out: Vec<TokenId> = Vec::new();
    let mut q: usize = 0;
    while q < partial.len()
        invariant
            q <= partial.len(),
            out.len() == q,
            forall|qq: int| 0 <= qq < q ==> #[trigger] partial@[qq] == Some(out@[qq]),
        decreases partial.len() - q,
    {
        match partial[q] {
            Some(t) => out.push(t),
            None => {
                assert(partial@[q as int] is None);
                return None;
            },
        }
        q = q + 1;
    }
    Some(out)
}

/// In a connected partial match with a filled and an unfilled position,
/// some unfilled pattern holds a concrete atom of a filled one.
proof fn lemma_filled_share(pats: Seq<Seq<Atom>>, partial: Seq<Option<TokenId>>, ta: Seq<Seq<Atom>>, idx: Set<TokenId>)
    requires
        partial_ok(pats, partial, ta, idx),
        crate::token::positive_tokens(ta),
        indexed_within(ta, idx),
        linked_edges(pats),
        exists|q: int| 0 <= q < partial.len() && #[trigger] partial[q] is Some,
        exists|q: int| 0 <= q < partial.len() && #[trigger] partial[q] is None,
    ensures
        exists|j: int| 0 <= j < partial.len() && #[trigger] partial[j] is None && has_concrete(pats[j]),
{
    let part = Set::new(|q: int| 0 <= q < partial.len() && partial[q] is Some);
    let f = choose|q: int| 0 <= q < partial.len() && #[trigger] partial[q] is Some;
    let u = choose|q: int| 0 <= q < partial.len() && #[trigger] partial[q] is None;
    assert(part.contains(f));
    assert(!part.contains(u));
    assert(!closed_group(pats, part));
    let (i, j) = choose|i: int, j: int|
        0 <= i < pats.len() && 0 <= j < pats.len() && #[trigger] part.contains(i) && !#[trigger] part.contains(j)
            && edges_share(pats[i], pats[j]);
    let x = choose|x: Atom| pats[i].contains(x) && #[trigger] pats[j].contains(x);
    let t = partial[i]->Some_0;
    assert(pats[i] == ta[t as int]);
    assert(t < ta.len());
    let a = choose|a: int| 0 <= a < pats[i].len() && pats[i][a] == x;
    assert(ta[t as int][a] > 0);
    let b = choose|b: int| 0 <= b < pats[j].len() && pats[j][b] == x;
    assert(pats[j][b] > 0);
    assert(partial[j] is None);
}

impl Matcher {
    /// Adds every completion of a partial match of rule `rule_idx` (whose
    /// remaining patterns already carry the bindings made so far), exploring
    /// at each step the position with the fewest candidate tokens. The partial
    /// match is left as it was given. Fails with `DisconnectedInputs` when it
    /// reaches a partial match none of whose unfilled patterns has a concrete
    /// atom; that cannot happen when every unfilled pattern has one.
    pub fn complete_match(
        &mut self,
        rule_idx: usize,
        partial: &mut Vec<Option<TokenId>>,
        patterns: &Vec<Vec<Atom>>,
        tokens: &Vec<Token>,
        index: &AtomsIndex,
    ) -> (r: Result<(), Error>)
        requires
            old(self).wf(),
            crate::token::positive_tokens(crate::token::atoms_seq(tokens@)),
            index.wf(crate::token::atoms_seq(tokens@)),
            partial_ok(pats_of(patterns@), old(partial)@, crate::token::atoms_seq(tokens@), index.indexed()),
        ensures
            final(self).wf(),
            final(self).chain() == old(self).chain(),
            final(self).ends_with_any() == old(self).ends_with_any(),
            final(self).rng_state() == old(self).rng_state(),
            final(self).rng_inc() == old(self).rng_inc(),
            final(partial)@ == old(partial)@,
            r is Ok ==> final(self).matches() == old(self).matches() + completions(
                rule_idx,
                pats_of(patterns@),
                old(partial)@,
                crate::token::atoms_seq(tokens@),
                index.indexed(),
            ),
            r matches Err(e) ==> e is DisconnectedInputs && old(self).matches() <= final(self).matches()
                && final(self).matches() <= old(self).matches() + completions(
                rule_idx,
                pats_of(patterns@),
                old(partial)@,
                crate::token::atoms_seq(tokens@),
                index.indexed(),
            ),
            (forall|q: int| 0 <= q < old(partial)@.len() && #[trigger] old(partial)@[q] is None ==> has_concrete(
                patterns@[q]@,
            )) ==> r is Ok,
            (exists|q: int| 0 <= q < old(partial)@.len() && #[trigger] old(partial)@[q] is Some) && linked_edges(
                pats_of(patterns@),
            ) ==> r is Ok,
            r is Err <==> search_sticks(pats_of(patterns@), old(partial)@, crate::token::atoms_seq(tokens@), index.indexed()),
        decreases unfilled(old(partial)@),
    {
        let ghost ta = crate::token::atoms_seq(tokens@);
        let ghost idx = index.indexed();
        let ghost pats = pats_of(patterns@);
        let ghost p0 = partial@;
        let ghost m0 = self.matches();
        let ghost cs = completions(rule_idx, pats, p0, ta, idx);
        proof {
            assert(indexed_within(ta, idx)) by {
                assert forall|t: TokenId| #[trigger] idx.contains(t) implies t < ta.len() by {
                    index.lemma_indexed_within(ta, t);
                }
            }
        }
        match filled_inputs(partial) {
            Some(inputs) => {
                let ghost x: MatchSpec = (rule_idx, inputs@);
                proof {
                    assert forall|y: MatchSpec| #[trigger] cs.contains(y) <==> y == x by {
                        if cs.contains(y) {
                            assert(y.1 =~= inputs@) by {
                                assert forall|q: int| 0 <= q < y.1.len() implies y.1[q] == inputs@[q] by {
                                    assert(p0[q] is Some);
                                }
                            }
                        }
                        if y == x {
                            assert(binds(Map::empty(), pats, p0, ta, inputs@));
                            assert(inputs@.no_duplicates()) by {
                                assert forall|a: int, b: int| 0 <= a < inputs.len() && 0 <= b < inputs.len() && a != b implies inputs@[a] != inputs@[b] by {
                                    assert(p0[a] is Some && p0[b] is Some);
                                }
                            }
                            assert forall|q: int| 0 <= q < pats.len() implies idx.contains(#[trigger] inputs@[q]) by {
                                assert(p0[q] is Some);
                            }
                            assert(is_completion(pats, p0, ta, idx, inputs@));
                        }
                    }
                }
                self.insert_match(Match { rule: rule_idx, inputs });
                proof {
                    assert(self.matches() =~= m0 + cs);
                    assert(forall|q: int| 0 <= q < p0.len() ==> #[trigger] p0[q] is Some);
                    assert(!search_sticks(pats, p0, ta, idx));
                }
                return Ok(());
            },
            None => {},
        }
        let (pos, cands) = match next_best_input(partial, patterns, index, tokens) {
            Ok(b) => b,
            Err(e) => {
                proof {
                    assert(m0 <= m0 + cs);
                    assert forall|q: int| 0 <= q < p0.len() && #[trigger] p0[q] is None implies !has_concrete(pats[q]) by {
                        assert(pats[q] == patterns@[q]@);
                    }
                    let q0 = choose|q: int| 0 <= q < p0.len() && #[trigger] p0[q] is None;
                    assert(!(forall|q: int| 0 <= q < p0.len() ==> #[trigger] p0[q] is Some));
                    assert(search_sticks(pats, p0, ta, idx));
                    if (exists|q: int| 0 <= q < p0.len() && #[trigger] p0[q] is Some) && linked_edges(pats) {
                        lemma_filled_share(pats, p0, ta, idx);
                        let j = choose|j: int| 0 <= j < p0.len() && #[trigger] p0[j] is None && has_concrete(pats[j]);
                        assert(pats[j] == patterns@[j]@);
                    }
                }
                return Err(e);
            },
        };
        let ghost done = |i: int| cs.filter(|y: MatchSpec| cands@.take(i).contains(y.1[pos as int]));
        proof {
            assert(pats[pos as int] == patterns@[pos as int]@);
            assert forall|q: int| 0 <= q < p0.len() && #[trigger] p0[q] is None && has_concrete(pats[q]) implies candidate_set(
                idx,
                ta,
                pats[pos as int],
            ).len() < candidate_set(idx, ta, pats[q]).len() || candidate_set(idx, ta, pats[pos as int]).len() == candidate_set(
                idx,
                ta,
                pats[q],
            ).len() && pos <= q by {
                assert(pats[q] == patterns@[q]@);
            }
            assert(best_position(pats, p0, ta, idx, pos as int));
            lemma_sticks_at(pats, p0, ta, idx, pos as int);
            assert(done(0) =~= Set::<MatchSpec>::empty());
            assert(self.matches() =~= m0 + done(0));
        }
        let mut i: usize = 0;
        while i < cands.len()
            invariant
                self.wf(),
                self.chain() == old(self).chain(),
                self.ends_with_any() == old(self).ends_with_any(),
                self.rng_state() == old(self).rng_state(),
                self.rng_inc() == old(self).rng_inc(),
                i <= cands.len(),
                partial@ == p0,
                p0 == old(partial)@,
                m0 == old(self).matches(),
                ta == crate::token::atoms_seq(tokens@),
                idx == index.indexed(),
                pats == pats_of(patterns@),
                cs == completions(rule_idx, pats, p0, ta, idx),
                crate::token::positive_tokens(ta),
                index.wf(ta),
                indexed_within(ta, idx),
                partial_ok(pats, p0, ta, idx),
                pos < p0.len(),
                p0[pos as int] is None,
                crate::atoms_index::strictly_sorted(cands@),
                forall|t: TokenId| #[trigger] cands@.contains(t) <==> (idx.contains(t) && holds_concrete(ta[t as int], patterns@[pos as int]@)),
                done == (|i: int| cs.filter(|y: MatchSpec| cands@.take(i).contains(y.1[pos as int]))),
                self.matches() == m0 + done(i as int),
                best_position(pats, p0, ta, idx, pos as int),
                forall|k: int| 0 <= k < i ==> !child_sticks(pats, p0, ta, idx, pos as int, #[trigger] cands@[k]),
            decreases cands.len() - i,
        {
            let cand = cands[i];
            let ghost step = cs.filter(|y: MatchSpec| y.1[pos as int] == cand);
            proof {
                assert(cands@.take(i + 1) =~= cands@.take(i as int).push(cand));
                assert(done(i + 1) =~= done(i as int) + step);
            }
            if holds_token(partial, cand) {
                proof {
                    let q = choose|q: int| 0 <= q < p0.len() && #[trigger] p0[q] == Some(cand);
                    assert forall|y: MatchSpec| !(#[trigger] step.contains(y)) by {
                        if step.contains(y) {
                            assert(q != pos);
                            assert(y.1[q] == cand);
                        }
                    }
                    assert(step =~= Set::<MatchSpec>::empty());
                    assert(self.matches() =~= m0 + done(i + 1));
                    assert(p0.contains(Some(cand)));
                }
            } else {
                let mut map = Binding::new();
                proof {
                    assert(cands@.contains(cand));
                    assert(idx.contains(cand));
                    index.lemma_indexed_within(ta, cand);
                    assert(tokens@[cand as int].atoms@ == ta[cand as int]);
                    assert(crate::pattern::all_positive(ta[cand as int]));
                    assert(crate::pattern::proper_binding(map@));
                }
                if unify_edge(&patterns[pos], &tokens[cand].atoms, &mut map) {
                    let new_patterns = substitute(patterns, &map);
                    let ghost bm = map@;
                    let ghost p2 = p0.update(pos as int, Some(cand));
                    let ghost pats2 = crate::pattern::apply_edges(bm, pats);
                    proof {
                        assert(pats[pos as int] == patterns@[pos as int]@);
                        crate::search::lemma_step(pats, p0, ta, idx, pos as int, cand, bm, Seq::empty());
                        assert forall|q: int| 0 <= q < p0.len() && #[trigger] p0[q] is Some implies p0[q]->Some_0 != cand by {
                            if p0[q]->Some_0 == cand {
                                assert(p0[q] == Some(cand));
                            }
                        }
                        assert(partial_ok(pats2, p2, ta, idx));
                        assert forall|y: MatchSpec| #[trigger] completions(rule_idx, pats2, p2, ta, idx).contains(y) <==> step.contains(y) by {
                            crate::search::lemma_step(pats, p0, ta, idx, pos as int, cand, bm, y.1);
                        }
                        assert(completions(rule_idx, pats2, p2, ta, idx) =~= step);
                        lemma_unfilled_update(p0, pos as int, cand);
                    }
                    partial.set(pos, Some(cand));
                    proof {
                        assert(partial@ == p2);
                    }
                    let r = self.complete_match(rule_idx, partial, &new_patterns, tokens, index);
                    partial.set(pos, None);
                    proof {
                        assert(partial@ =~= p0);
                    }
                    proof {
                        assert(pats_of(new_patterns@) =~= pats2) by {
                            assert forall|q: int| 0 <= q < pats2.len() implies #[trigger] pats_of(new_patterns@)[q] == pats2[q] by {
                                assert(new_patterns@[q]@ == pats2[q]);
                            }
                        }
                        assert(!p0.contains(Some(cand))) by {
                            if p0.contains(Some(cand)) {
                                let q = choose|q: int| 0 <= q < p0.len() && p0[q] == Some(cand);
                                assert(p0[q] == Some(cand));
                            }
                        }
                        assert(candidate_set(idx, ta, pats[pos as int]).contains(cand));
                        assert(r is Err <==> child_sticks(pats, p0, ta, idx, pos as int, cand));
                    }
                    match r {
                        Ok(()) => {
                            proof {
                                assert(self.matches() =~= m0 + done(i + 1));
                            }
                        },
                        Err(e) => {
                            proof {
                                assert(done(i as int) <= cs);
                                assert(step <= cs);
                                assert forall|y: MatchSpec| #[trigger] m0.contains(y) implies self.matches().contains(y) by {
                                    assert((m0 + done(i as int)).contains(y));
                                }
                                assert forall|y: MatchSpec| #[trigger] self.matches().contains(y) implies (m0 + cs).contains(y) by {
                                    assert((m0 + done(i as int) + step).contains(y));
                                    if done(i as int).contains(y) {
                                        assert(cs.contains(y));
                                    }
                                    if step.contains(y) {
                                        assert(cs.contains(y));
                                    }
                                }
                                if linked_edges(pats) {
                                    lemma_linked_apply(bm, pats);
                                    assert(pats_of(new_patterns@) =~= pats2) by {
                                        assert forall|q: int| 0 <= q < pats2.len() implies #[trigger] pats_of(new_patterns@)[q] == pats2[q] by {
                                            assert(new_patterns@[q]@ == pats2[q]);
                                        }
                                    }
                                    assert(p2[pos as int] is Some);
                                }
                                let q = choose|q: int| 0 <= q < patterns.len() && #[trigger] p2[q] is None && !has_concrete(new_patterns@[q]@);
                                assert(new_patterns@[q]@ == pats2[q]);
                                assert(p0[q] is None);
                                if has_concrete(patterns@[q]@) {
                                    lemma_concrete_kept(bm, pats[q]);
                                }
                            }
                            return Err(e);
                        },
                    }
                } else {
                    proof {
                        assert forall|y: MatchSpec| !(#[trigger] step.contains(y)) by {
                            if step.contains(y) {
                                lemma_completion_unifies(pats, p0, ta, idx, y.1, pos as int);
                                assert(pats[pos as int] == patterns@[pos as int]@);
                            }
                        }
                        assert(step =~= Set::<MatchSpec>::empty());
                        assert(self.matches() =~= m0 + done(i + 1));
                        assert(!child_sticks(pats, p0, ta, idx, pos as int, cand));
                    }
                }
            }
            i = i + 1;
        }
        proof {
            assert forall|c: TokenId| !#[trigger] child_sticks(pats, p0, ta, idx, pos as int, c) by {
                if child_sticks(pats, p0, ta, idx, pos as int, c) {
                    assert(cands@.contains(c));
                    let k = choose|k: int| 0 <= k < cands.len() && cands@[k] == c;
                }
            }
            assert(cands@.take(cands.len() as int) =~= cands@);
            assert forall|y: MatchSpec| #[trigger] cs.contains(y) implies done(cands.len() as int).contains(y) by {
                lemma_completion_unifies(pats, p0, ta, idx, y.1, pos as int);
                assert(pats[pos as int] == patterns@[pos as int]@);
                assert(cands@.contains(y.1[pos as int]));
            }
            assert(self.matches() =~= m0 + cs);
        }
        Ok(())
    }
}


/// Anchoring token `t` at position `p` of the patterns `pats` leads to a
/// completion that sticks.
pub open spec fn anchor_sticks(pats: Seq<Seq<Atom>>, p: int, t: TokenId, ta: Seq<Seq<Atom>>, idx: Set<TokenId>) -> bool {
    &&& crate::pattern::unify_spec(Map::empty(), pats[p], ta[t as int]) is Some
    &&& search_sticks(
        crate::pattern::apply_edges(crate::pattern::unify_spec(Map::empty(), pats[p], ta[t as int])->Some_0, pats),
        nothing_chosen(pats.len()).update(p, Some(t)),
        ta,
        idx,
    )
}

/// Some new token, anchored at some input position of some rule, leads to a
/// completion that sticks.
pub open spec fn tokens_stick(pa: Seq<Seq<Seq<Atom>>>, ta: Seq<Seq<Atom>>, idx: Set<TokenId>, ids: Seq<TokenId>) -> bool {
    exists|r: int, p: int, j: int|
        0 <= r < pa.len() && 0 <= p < pa[r].len() && 0 <= j < ids.len() && #[trigger] anchor_sticks(pa[r], p, ids[j], ta, idx)
}


/// Matches found so far while scanning rules, anchor positions and new tokens
/// in order: those of earlier rules, and those of rule `r` with a new token at
/// an earlier position or with one of the first `j` new tokens at position `p`.
spec fn found_so_far(
    pats: Seq<Seq<Seq<Atom>>>,
    ta: Seq<Seq<Atom>>,
    indexed: Set<TokenId>,
    ids: Seq<TokenId>,
    r: int,
    p: int,
    j: int,
) -> Set<MatchSpec> {
    Set::new(
        |x: MatchSpec|
            valid_match(pats, ta, indexed, x) && ((x.0 < r && crate::matcher::involves(x, ids)) || (x.0 == r && ((
            exists|q: int| 0 <= q < p && q < x.1.len() && ids.contains(#[trigger] x.1[q])) || (p < x.1.len()
                && ids.take(j).contains(x.1[p]))))),
    )
}

impl Matcher {
    /// Adds every match of a rule (given by its input patterns) that has token
    /// `t` at input position `p`.
    fn add_anchored(
        &mut self,
        rule_idx: usize,
        inputs: &Vec<Vec<Atom>>,
        p: usize,
        t: TokenId,
        tokens: &Vec<Token>,
        index: &AtomsIndex,
    ) -> (r: Result<(), Error>)
        requires
            old(self).wf(),
            crate::token::positive_tokens(crate::token::atoms_seq(tokens@)),
            index.wf(crate::token::atoms_seq(tokens@)),
            index.indexed().contains(t),
            p < inputs.len(),
        ensures
            final(self).wf(),
            final(self).chain() == old(self).chain(),
            final(self).ends_with_any() == old(self).ends_with_any(),
            final(self).rng_state() == old(self).rng_state(),
            final(self).rng_inc() == old(self).rng_inc(),
            r is Ok ==> final(self).matches() == old(self).matches() + anchored_matches(
                rule_idx,
                pats_of(inputs@),
                p as int,
                t,
                crate::token::atoms_seq(tokens@),
                index.indexed(),
            ),
            r matches Err(e) ==> e is DisconnectedInputs && old(self).matches() <= final(self).matches()
                && final(self).matches() <= old(self).matches() + anchored_matches(
                rule_idx,
                pats_of(inputs@),
                p as int,
                t,
                crate::token::atoms_seq(tokens@),
                index.indexed(),
            ),
            r is Err ==> !linked_edges(pats_of(inputs@)),
            r is Err <==> anchor_sticks(pats_of(inputs@), p as int, t, crate::token::atoms_seq(tokens@), index.indexed()),
    {
        let ghost ta = crate::token::atoms_seq(tokens@);
        let ghost idx = index.indexed();
        let ghost pats = pats_of(inputs@);
        let ghost none = nothing_chosen(pats.len());
        let ghost target = anchored_matches(rule_idx, pats, p as int, t, ta, idx);
        proof {
            assert forall|u: TokenId| #[trigger] idx.contains(u) implies u < ta.len() by {
                index.lemma_indexed_within(ta, u);
            }
            assert(indexed_within(ta, idx));
            assert(tokens@[t as int].atoms@ == ta[t as int]);
            assert(pats[p as int] == inputs@[p as int]@);
        }
        let mut map = Binding::new();
        if !unify_edge(&inputs[p], &tokens[t].atoms, &mut map) {
            proof {
                assert forall|x: MatchSpec| !(#[trigger] target.contains(x)) by {
                    if target.contains(x) {
                        lemma_completion_unifies(pats, none, ta, idx, x.1, p as int);
                    }
                }
                assert(self.matches() =~= self.matches() + target);
            }
            return Ok(());
        }
        let patterns = substitute(inputs, &map);
        proof {
            assert(pats_of(patterns@) =~= crate::pattern::apply_edges(map@, pats));
        }
        let ghost m = map@;
        let mut partial: Vec<Option<TokenId>> = Vec::new();
        let mut q: usize = 0;
        while q < inputs.len()
            invariant
                q <= inputs.len(),
                p < inputs.len(),
                partial@.len() == q,
                forall|k: int| 0 <= k < q ==> #[trigger] partial@[k] == none.update(p as int, Some(t))[k],
                none == nothing_chosen(pats.len()),
                pats.len() == inputs.len(),
            decreases inputs.len() - q,
        {
            if q == p {
                partial.push(Some(t));
            } else {
                partial.push(None);
            }
            q = q + 1;
        }
        proof {
            assert(partial@ =~= none.update(p as int, Some(t)));
            assert(partial_ok(pats, none, ta, idx));
            crate::search::lemma_step(pats, none, ta, idx, p as int, t, m, Seq::empty());
            assert(pats_of(patterns@) == crate::pattern::apply_edges(m, pats));
            assert forall|x: MatchSpec| #[trigger] completions(rule_idx, pats_of(patterns@), partial@, ta, idx).contains(x) <==> target.contains(x) by {
                crate::search::lemma_step(pats, none, ta, idx, p as int, t, m, x.1);
            }
            assert(completions(rule_idx, pats_of(patterns@), partial@, ta, idx) =~= target);
            assert(partial@[p as int] is Some);
            if linked_edges(pats) {
                lemma_linked_apply(m, pats);
            }
        }
        self.complete_match(rule_idx, &mut partial, &patterns, tokens, index)
    }

    /// Finds and adds every match that uses at least one of `new_ids`: each
    /// new token is tried as an anchor at every input position of every rule
    /// and the rest is completed through the atoms index. A match found from
    /// several anchors is added once.
    pub fn add_matches_involving_tokens(
        &mut self,
        new_ids: &Vec<TokenId>,
        rules: &Vec<crate::rule::Rule>,
        tokens: &Vec<Token>,
        index: &AtomsIndex,
    ) -> (r: Result<(), Error>)
        requires
            old(self).wf(),
            crate::token::positive_tokens(crate::token::atoms_seq(tokens@)),
            index.wf(crate::token::atoms_seq(tokens@)),
            forall|k: int| 0 <= k < new_ids.len() ==> index.indexed().contains(#[trigger] new_ids@[k]),
        ensures
            final(self).wf(),
            final(self).chain() == old(self).chain(),
            final(self).ends_with_any() == old(self).ends_with_any(),
            final(self).rng_state() == old(self).rng_state(),
            final(self).rng_inc() == old(self).rng_inc(),
            r is Ok ==> final(self).matches() == old(self).matches() + new_matches(
                rule_patterns(rules@),
                crate::token::atoms_seq(tokens@),
                index.indexed(),
                new_ids@,
            ),
            r matches Err(e) ==> e is DisconnectedInputs && old(self).matches() <= final(self).matches()
                && final(self).matches() <= old(self).matches() + new_matches(
                rule_patterns(rules@),
                crate::token::atoms_seq(tokens@),
                index.indexed(),
                new_ids@,
            ),
            r is Err ==> !rules_linked(rules@),
            r is Err <==> tokens_stick(rule_patterns(rules@), crate::token::atoms_seq(tokens@), index.indexed(), new_ids@),
    {
        let ghost ta = crate::token::atoms_seq(tokens@);
        let ghost idx = index.indexed();
        let ghost pa = rule_patterns(rules@);
        let ghost ids = new_ids@;
        let ghost m0 = self.matches();
        let ghost goal = new_matches(pa, ta, idx, ids);
        proof {
            assert(found_so_far(pa, ta, idx, ids, 0, 0, 0) =~= Set::<MatchSpec>::empty()) by {
                assert forall|x: MatchSpec| !(#[trigger] found_so_far(pa, ta, idx, ids, 0, 0, 0).contains(x)) by {
                    assert(ids.take(0) =~= Seq::<TokenId>::empty());
                }
            }
            assert(self.matches() =~= m0 + found_so_far(pa, ta, idx, ids, 0, 0, 0));
        }
        let mut ri: usize = 0;
        while ri < rules.len()
            invariant
                self.wf(),
                self.chain() == old(self).chain(),
                self.ends_with_any() == old(self).ends_with_any(),
                self.rng_state() == old(self).rng_state(),
                self.rng_inc() == old(self).rng_inc(),
                ri <= rules.len(),
                ta == crate::token::atoms_seq(tokens@),
                idx == index.indexed(),
                pa == rule_patterns(rules@),
                ids == new_ids@,
                m0 == old(self).matches(),
                goal == new_matches(pa, ta, idx, ids),
                crate::token::positive_tokens(ta),
                index.wf(ta),
                forall|k: int| 0 <= k < new_ids.len() ==> idx.contains(#[trigger] new_ids@[k]),
                self.matches() == m0 + found_so_far(pa, ta, idx, ids, ri as int, 0, 0),
                forall|r2: int, p2: int, j2: int|
                    0 <= r2 < ri && 0 <= p2 < pa[r2].len() && 0 <= j2 < ids.len() ==> !#[trigger] anchor_sticks(pa[r2], p2, ids[j2], ta, idx),
            decreases rules.len() - ri,
        {
            let inputs = &rules[ri].inputs;
            let mut p: usize = 0;
            while p < inputs.len()
                invariant
                    self.wf(),
                    self.chain() == old(self).chain(),
                    self.ends_with_any() == old(self).ends_with_any(),
                    self.rng_state() == old(self).rng_state(),
                    self.rng_inc() == old(self).rng_inc(),
                    ri < rules.len(),
                    p <= inputs.len(),
                    inputs == rules@[ri as int].inputs,
                    ta == crate::token::atoms_seq(tokens@),
                    idx == index.indexed(),
                    pa == rule_patterns(rules@),
                    ids == new_ids@,
                    m0 == old(self).matches(),
                    goal == new_matches(pa, ta, idx, ids),
                    crate::token::positive_tokens(ta),
                    index.wf(ta),
                    forall|k: int| 0 <= k < new_ids.len() ==> idx.contains(#[trigger] new_ids@[k]),
                    self.matches() == m0 + found_so_far(pa, ta, idx, ids, ri as int, p as int, 0),
                    forall|r2: int, p2: int, j2: int|
                        0 <= r2 < ri && 0 <= p2 < pa[r2].len() && 0 <= j2 < ids.len() ==> !#[trigger] anchor_sticks(pa[r2], p2, ids[j2], ta, idx),
                    forall|p2: int, j2: int| 0 <= p2 < p && 0 <= j2 < ids.len() ==> !#[trigger] anchor_sticks(pa[ri as int], p2, ids[j2], ta, idx),
                decreases inputs.len() - p,
            {
                let mut j: usize = 0;
                while j < new_ids.len()
                    invariant
                        self.wf(),
                        self.chain() == old(self).chain(),
                        self.ends_with_any() == old(self).ends_with_any(),
                        self.rng_state() == old(self).rng_state(),
                        self.rng_inc() == old(self).rng_inc(),
                        ri < rules.len(),
                        p < inputs.len(),
                        j <= new_ids.len(),
                        inputs == rules@[ri as int].inputs,
                        ta == crate::token::atoms_seq(tokens@),
                        idx == index.indexed(),
                        pa == rule_patterns(rules@),
                        ids == new_ids@,
                        m0 == old(self).matches(),
                        goal == new_matches(pa, ta, idx, ids),
                        crate::token::positive_tokens(ta),
                        index.wf(ta),
                        forall|k: int| 0 <= k < new_ids.len() ==> idx.contains(#[trigger] new_ids@[k]),
                        self.matches() == m0 + found_so_far(pa, ta, idx, ids, ri as int, p as int, j as int),
                        forall|r2: int, p2: int, j2: int|
                            0 <= r2 < ri && 0 <= p2 < pa[r2].len() && 0 <= j2 < ids.len() ==> !#[trigger] anchor_sticks(pa[r2], p2, ids[j2], ta, idx),
                        forall|p2: int, j2: int| 0 <= p2 < p && 0 <= j2 < ids.len() ==> !#[trigger] anchor_sticks(pa[ri as int], p2, ids[j2], ta, idx),
                        forall|j2: int| 0 <= j2 < j ==> !#[trigger] anchor_sticks(pa[ri as int], p as int, ids[j2], ta, idx),
                    decreases new_ids.len() - j,
                {
                    let t = new_ids[j];
                    let ghost before = self.matches();
                    let ghost step = anchored_matches(ri, pats_of(inputs@), p as int, t, ta, idx);
                    proof {
                        assert(idx.contains(new_ids@[j as int]));
                        assert(pa[ri as int] == pats_of(inputs@));
                        assert(ids.take(j + 1) =~= ids.take(j as int).push(t));
                        assert(found_so_far(pa, ta, idx, ids, ri as int, p as int, j + 1) =~= found_so_far(
                            pa,
                            ta,
                            idx,
                            ids,
                            ri as int,
                            p as int,
                            j as int,
                        ) + step);
                        assert(step <= goal) by {
                            assert forall|x: MatchSpec| #[trigger] step.contains(x) implies goal.contains(x) by {
                                assert(ids.contains(x.1[p as int]));
                            }
                        }
                        assert(found_so_far(pa, ta, idx, ids, ri as int, p as int, j as int) <= goal) by {
                            assert forall|x: MatchSpec| #[trigger] found_so_far(pa, ta, idx, ids, ri as int, p as int, j as int).contains(x) implies goal.contains(x) by {
                                if x.0 == ri && !(exists|q: int| 0 <= q < p && q < x.1.len() && ids.contains(#[trigger] x.1[q])) {
                                    let k = choose|k: int| 0 <= k < j && ids.take(j as int)[k] == x.1[p as int];
                                    assert(ids.contains(x.1[p as int]));
                                }
                            }
                        }
                    }
                    let res = self.add_anchored(ri, inputs, p, t, tokens, index);
                    proof {
                        assert(pa[ri as int] == pats_of(inputs@));
                        assert(res is Err <==> anchor_sticks(pa[ri as int], p as int, ids[j as int], ta, idx));
                    }
                    match res {
                        Ok(()) => {},
                        Err(e) => {
                            proof {
                                assert(pa[ri as int].len() == inputs.len());
                                assert(tokens_stick(pa, ta, idx, ids));
                                assert(rules@[ri as int].spec_inputs() =~= pats_of(inputs@));
                                assert forall|y: MatchSpec| #[trigger] m0.contains(y) implies self.matches().contains(y) by {
                                    assert(before.contains(y));
                                }
                                assert forall|y: MatchSpec| #[trigger] self.matches().contains(y) implies (m0 + goal).contains(y) by {
                                    assert((before + step).contains(y));
                                    if step.contains(y) {
                                        assert(goal.contains(y));
                                    }
                                    if found_so_far(pa, ta, idx, ids, ri as int, p as int, j as int).contains(y) {
                                        assert(goal.contains(y));
                                    }
                                }
                            }
                            return Err(e);
                        },
                    }
                    proof {
                        assert(self.matches() =~= m0 + found_so_far(pa, ta, idx, ids, ri as int, p as int, j + 1));
                    }
                    j = j + 1;
                }
                proof {
                    assert(ids.take(ids.len() as int) =~= ids);
                    assert(ids.take(0) =~= Seq::<TokenId>::empty());
                    assert(found_so_far(pa, ta, idx, ids, ri as int, p as int, ids.len() as int) =~= found_so_far(
                        pa,
                        ta,
                        idx,
                        ids,
                        ri as int,
                        p + 1,
                        0,
                    )) by {
                        assert forall|x: MatchSpec| #[trigger] found_so_far(pa, ta, idx, ids, ri as int, p + 1, 0).contains(x) implies found_so_far(pa, ta, idx, ids, ri as int, p as int, ids.len() as int).contains(x) by {
                            if x.0 == ri {
                                let q = choose|q: int| 0 <= q < p + 1 && q < x.1.len() && ids.contains(#[trigger] x.1[q]);
                                if q == p {
                                    assert(ids.take(ids.len() as int).contains(x.1[p as int]));
                                }
                            }
                        }
                    }
                    assert(self.matches() =~= m0 + found_so_far(pa, ta, idx, ids, ri as int, p + 1, 0));
                }
                p = p + 1;
            }
            proof {
                assert(ids.take(0) =~= Seq::<TokenId>::empty());
                assert(found_so_far(pa, ta, idx, ids, ri as int, inputs.len() as int, 0) =~= found_so_far(
                    pa,
                    ta,
                    idx,
                    ids,
                    ri + 1,
                    0,
                    0,
                )) by {
                    assert forall|x: MatchSpec| #[trigger] found_so_far(pa, ta, idx, ids, ri + 1, 0, 0).contains(x) implies found_so_far(pa, ta, idx, ids, ri as int, inputs.len() as int, 0).contains(x) by {
                        if x.0 == ri {
                            assert(pa[ri as int].len() == inputs.len());
                            let k = choose|k: int| 0 <= k < x.1.len() && ids.contains(#[trigger] x.1[k]);
                            assert(0 <= k < inputs.len() && k < x.1.len() && ids.contains(x.1[k]));
                        }
                    }
                    assert forall|x: MatchSpec| #[trigger] found_so_far(pa, ta, idx, ids, ri as int, inputs.len() as int, 0).contains(x) implies found_so_far(pa, ta, idx, ids, ri + 1, 0, 0).contains(x) by {
                        if x.0 == ri {
                            let q = choose|q: int| 0 <= q < inputs.len() && q < x.1.len() && ids.contains(#[trigger] x.1[q]);
                            assert(crate::matcher::involves(x, ids));
                        }
                    }
                }
                assert(self.matches() =~= m0 + found_so_far(pa, ta, idx, ids, ri + 1, 0, 0));
            }
            ri = ri + 1;
        }
        proof {
            assert(found_so_far(pa, ta, idx, ids, rules.len() as int, 0, 0) =~= goal);
            assert(!tokens_stick(pa, ta, idx, ids));
        }
        Ok(())
    }
}

} // verus!
