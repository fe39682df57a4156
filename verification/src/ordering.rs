//! Event-ordering functions and the comparison of matches they induce.

use vstd::prelude::*;
use vstd::relations::sorted_by;
use vstd::relations::total_ordering;

use crate::token::TokenId;

verus! {

broadcast use vstd::seq_lib::group_to_multiset_ensures;

/// Event-ordering functions, named as in SetReplace's
/// `"EventOrderingFunction"` option.
///
/// An ordering specification is a sequence of these; each is applied in turn
/// to break ties left by the previous ones. Any remaining ambiguity is
/// resolved uniformly at random (seeded), unless the specification ends with
/// [`OrderingFunction::Any`].
#[derive(Debug, Clone, Copy, PartialEq, Eq)]
pub enum OrderingFunction {
    /// Match whose sorted input-token IDs are lexicographically smallest
    /// (prefers matches containing the oldest edges).
    OldestEdge,
    /// Reverse of [`OrderingFunction::OldestEdge`].
    LeastOldEdge,
    /// Match whose descending-sorted input-token IDs are lexicographically
    /// smallest (prefers matches whose *newest* edge is as old as possible).
    /// First element of the default ordering.
    LeastRecentEdge,
    /// Reverse of [`OrderingFunction::LeastRecentEdge`].
    NewestEdge,
    /// Match whose input-token IDs, in the order they instantiate the rule's
    /// input edges, are lexicographically smallest.
    RuleOrdering,
    /// Reverse of [`OrderingFunction::RuleOrdering`].
    ReverseRuleOrdering,
    /// Match with the smallest rule index.
    RuleIndex,
    /// Reverse of [`OrderingFunction::RuleIndex`].
    ReverseRuleIndex,
    /// No-op: randomness is already the implicit final tie-breaker, so this
    /// merely documents intent.
    Random,
    /// When last in the specification, picks an unspecified but deterministic
    /// representative from the final bucket instead of a random one.
    Any,
}

/// The default event ordering: `{LeastRecentEdge, RuleOrdering, RuleIndex}`.
pub open spec fn spec_default_event_ordering() -> Seq<OrderingFunction> {
    seq![OrderingFunction::LeastRecentEdge, OrderingFunction::RuleOrdering, OrderingFunction::RuleIndex]
}

/// The default `"EventOrderingFunction"`:
/// `{"LeastRecentEdge", "RuleOrdering", "RuleIndex"}`.
pub fn default_event_ordering() -> (r: Vec<OrderingFunction>)
    ensures
        r@ == spec_default_event_ordering(),
{
    let mut v = Vec::new();
    v.push(OrderingFunction::LeastRecentEdge);
    v.push(OrderingFunction::RuleOrdering);
    v.push(OrderingFunction::RuleIndex);
    assert(v@ =~= spec_default_event_ordering());
    v
}

/// Ordering primitives.
#[derive(Debug, Clone, Copy, PartialEq, Eq)]
pub enum OrdFn {
    SortedIds,
    ReverseSortedIds,
    InputIds,
    RuleIdx,
    Any,
}

/// The primitive (and whether it is reversed) an ordering function stands
/// for; `None` for `Random`, which stands for nothing.
pub open spec fn primitive_of(f: OrderingFunction) -> Option<(OrdFn, bool)> {
    match f {
        OrderingFunction::OldestEdge => Some((OrdFn::SortedIds, false)),
        OrderingFunction::LeastOldEdge => Some((OrdFn::SortedIds, true)),
        OrderingFunction::LeastRecentEdge => Some((OrdFn::ReverseSortedIds, false)),
        OrderingFunction::NewestEdge => Some((OrdFn::ReverseSortedIds, true)),
        OrderingFunction::RuleOrdering => Some((OrdFn::InputIds, false)),
        OrderingFunction::ReverseRuleOrdering => Some((OrdFn::InputIds, true)),
        OrderingFunction::RuleIndex => Some((OrdFn::RuleIdx, false)),
        OrderingFunction::ReverseRuleIndex => Some((OrdFn::RuleIdx, true)),
        OrderingFunction::Random => None,
        OrderingFunction::Any => Some((OrdFn::Any, false)),
    }
}

/// The chain of primitives an ordering specification stands for.
pub open spec fn translate(spec: Seq<OrderingFunction>) -> Seq<(OrdFn, bool)>
    decreases spec.len(),
{
    if spec.len() == 0 {
        Seq::empty()
    } else {
        match primitive_of(spec.last()) {
            Some(p) => translate(spec.drop_last()).push(p),
            None => translate(spec.drop_last()),
        }
    }
}

/// Whether a chain ends with `Any`.
pub open spec fn chain_ends_with_any(chain: Seq<(OrdFn, bool)>) -> bool {
    chain.len() > 0 && chain.last().0 == OrdFn::Any
}

/// Translates an ordering specification into its chain of primitives, and
/// whether the chain ends with `Any`.
pub fn translate_spec(spec: &Vec<OrderingFunction>) -> (r: (Vec<(OrdFn, bool)>, bool))
    ensures
        r.0@ == translate(spec@),
        r.1 == chain_ends_with_any(translate(spec@)),
{
    let mut out: Vec<(OrdFn, bool)> = Vec::new();
    let mut i: usize = 0;
    while i < spec.len()
        invariant
            i <= spec.len(),
            out@ == translate(spec@.take(i as int)),
        decreases spec.len() - i,
    {
        assert(spec@.take(i + 1).drop_last() =~= spec@.take(i as int));
        let pair = match spec[i] {
            OrderingFunction::OldestEdge => (OrdFn::SortedIds, false),
            OrderingFunction::LeastOldEdge => (OrdFn::SortedIds, true),
            OrderingFunction::LeastRecentEdge => (OrdFn::ReverseSortedIds, false),
            OrderingFunction::NewestEdge => (OrdFn::ReverseSortedIds, true),
            OrderingFunction::RuleOrdering => (OrdFn::InputIds, false),
            OrderingFunction::ReverseRuleOrdering => (OrdFn::InputIds, true),
            OrderingFunction::RuleIndex => (OrdFn::RuleIdx, false),
            OrderingFunction::ReverseRuleIndex => (OrdFn::RuleIdx, true),
            OrderingFunction::Random => {
                i = i + 1;
                continue;
            },
            OrderingFunction::Any => (OrdFn::Any, false),
        };
        out.push(pair);
        i = i + 1;
    }
    assert(spec@.take(spec.len() as int) =~= spec@);
    let ends = out.len() > 0 && matches!(out[out.len() - 1].0, OrdFn::Any);
    (out, ends)
}

/// A match as the matcher sees it: a rule index and the tokens instantiating
/// its input edges, in rule input order.
pub type MatchSpec = (usize, Seq<TokenId>);

/// Lexicographic comparison of id sequences (a proper prefix comes first):
/// -1, 0 or 1.
pub open spec fn lex_order(a: Seq<TokenId>, b: Seq<TokenId>) -> int
    decreases a.len(),
{
    if a.len() == 0 {
        if b.len() == 0 {
            0
        } else {
            -1
        }
    } else if b.len() == 0 {
        1
    } else if a[0] < b[0] {
        -1
    } else if a[0] > b[0] {
        1
    } else {
        lex_order(a.drop_first(), b.drop_first())
    }
}

/// Comparison of integers: -1, 0 or 1.
pub open spec fn int_order(a: int, b: int) -> int {
    if a < b {
        -1
    } else if a > b {
        1
    } else {
        0
    }
}

/// The order relation used to sort ids (descending when `desc`).
pub open spec fn ids_leq(desc: bool) -> spec_fn(TokenId, TokenId) -> bool {
    |x: TokenId, y: TokenId| if desc { x >= y } else { x <= y }
}

/// The ids in increasing order.
pub open spec fn ascending(s: Seq<TokenId>) -> Seq<TokenId> {
    s.sort_by(ids_leq(false))
}

/// The ids in decreasing order.
pub open spec fn descending(s: Seq<TokenId>) -> Seq<TokenId> {
    s.sort_by(ids_leq(true))
}

/// Comparison of two matches under one primitive.
pub open spec fn component_order(f: OrdFn, a: MatchSpec, b: MatchSpec) -> int {
    match f {
        OrdFn::SortedIds => lex_order(ascending(a.1), ascending(b.1)),
        OrdFn::ReverseSortedIds => lex_order(descending(a.1), descending(b.1)),
        OrdFn::InputIds => lex_order(a.1, b.1),
        OrdFn::RuleIdx => int_order(a.0 as int, b.0 as int),
        OrdFn::Any => 0,
    }
}

/// Comparison under one (possibly reversed) primitive.
pub open spec fn step_order(f: (OrdFn, bool), a: MatchSpec, b: MatchSpec) -> int {
    if f.1 {
        -component_order(f.0, a, b)
    } else {
        component_order(f.0, a, b)
    }
}

/// Comparison under a chain: the first primitive that tells the matches
/// apart decides; 0 when none does.
pub open spec fn chain_order(chain: Seq<(OrdFn, bool)>, a: MatchSpec, b: MatchSpec) -> int
    decreases chain.len(),
{
    if chain.len() == 0 {
        0
    } else {
        let c = step_order(chain[0], a, b);
        if c != 0 {
            c
        } else {
            chain_order(chain.drop_first(), a, b)
        }
    }
}

/// Lexicographic comparison is antisymmetric and identifies equal sequences.
pub proof fn lemma_lex_order_basics(a: Seq<TokenId>, b: Seq<TokenId>)
    ensures
        lex_order(a, b) == -lex_order(b, a),
        -1 <= lex_order(a, b) <= 1,
        lex_order(a, b) == 0 <==> a == b,
    decreases a.len(),
{
    if a.len() > 0 && b.len() > 0 && a[0] == b[0] {
        lemma_lex_order_basics(a.drop_first(), b.drop_first());
        if a.drop_first() == b.drop_first() {
            assert forall|k: int| 0 <= k < a.len() implies a[k] == b[k] by {
                if k > 0 {
                    assert(a[k] == a.drop_first()[k - 1]);
                    assert(b[k] == b.drop_first()[k - 1]);
                }
            }
            assert(a =~= b);
        }
    }
    if a == b && a.len() > 0 {
        assert(a.drop_first() == b.drop_first());
    }
    if a.len() == 0 && b.len() == 0 {
        assert(a =~= b);
    }
}

/// Lexicographic comparison is transitive.
pub proof fn lemma_lex_order_trans(a: Seq<TokenId>, b: Seq<TokenId>, c: Seq<TokenId>)
    requires
        lex_order(a, b) <= 0,
        lex_order(b, c) <= 0,
    ensures
        lex_order(a, c) <= 0,
    decreases a.len(),
{
    if a.len() > 0 && b.len() > 0 && c.len() > 0 && a[0] == b[0] && b[0] == c[0] {
        lemma_lex_order_trans(a.drop_first(), b.drop_first(), c.drop_first());
    }
}

proof fn lemma_component_basics(f: OrdFn, a: MatchSpec, b: MatchSpec)
    ensures
        component_order(f, a, b) == -component_order(f, b, a),
        -1 <= component_order(f, a, b) <= 1,
{
    match f {
        OrdFn::SortedIds => lemma_lex_order_basics(ascending(a.1), ascending(b.1)),
        OrdFn::ReverseSortedIds => lemma_lex_order_basics(descending(a.1), descending(b.1)),
        OrdFn::InputIds => lemma_lex_order_basics(a.1, b.1),
        _ => {},
    }
}

proof fn lemma_component_trans(f: OrdFn, a: MatchSpec, b: MatchSpec, c: MatchSpec)
    requires
        component_order(f, a, b) <= 0,
        component_order(f, b, c) <= 0,
    ensures
        component_order(f, a, c) <= 0,
{
    match f {
        OrdFn::SortedIds => lemma_lex_order_trans(ascending(a.1), ascending(b.1), ascending(c.1)),
        OrdFn::ReverseSortedIds => lemma_lex_order_trans(descending(a.1), descending(b.1), descending(c.1)),
        OrdFn::InputIds => lemma_lex_order_trans(a.1, b.1, c.1),
        _ => {},
    }
}

proof fn lemma_step_props(f: (OrdFn, bool), a: MatchSpec, b: MatchSpec, c: MatchSpec)
    ensures
        step_order(f, a, b) == -step_order(f, b, a),
        -1 <= step_order(f, a, b) <= 1,
        step_order(f, a, b) <= 0 && step_order(f, b, c) <= 0 ==> step_order(f, a, c) <= 0,
{
    lemma_component_basics(f.0, a, b);
    lemma_component_basics(f.0, b, c);
    lemma_component_basics(f.0, a, c);
    if step_order(f, a, b) <= 0 && step_order(f, b, c) <= 0 {
        if f.1 {
            lemma_component_trans(f.0, c, b, a);
        } else {
            lemma_component_trans(f.0, a, b, c);
        }
    }
}

/// A chain comparison is antisymmetric and takes the values -1, 0 and 1.
pub proof fn lemma_chain_antisym(chain: Seq<(OrdFn, bool)>, a: MatchSpec, b: MatchSpec)
    ensures
        chain_order(chain, a, b) == -chain_order(chain, b, a),
        -1 <= chain_order(chain, a, b) <= 1,
    decreases chain.len(),
{
    if chain.len() > 0 {
        lemma_step_props(chain[0], a, b, a);
        lemma_chain_antisym(chain.drop_first(), a, b);
    }
}

/// A chain comparison is a total preorder: transitive, and two matches that
/// are both "at most" a third in a row are equivalent only if each step is.
pub proof fn lemma_chain_trans(chain: Seq<(OrdFn, bool)>, a: MatchSpec, b: MatchSpec, c: MatchSpec)
    requires
        chain_order(chain, a, b) <= 0,
        chain_order(chain, b, c) <= 0,
    ensures
        chain_order(chain, a, c) <= 0,
        chain_order(chain, a, c) == 0 ==> chain_order(chain, a, b) == 0 && chain_order(chain, b, c) == 0,
    decreases chain.len(),
{
    if chain.len() > 0 {
        let f = chain[0];
        lemma_step_props(f, a, b, c);
        lemma_step_props(f, c, b, a);
        lemma_step_props(f, b, c, a);
        lemma_step_props(f, a, c, b);
        lemma_step_props(f, b, a, c);
        lemma_step_props(f, c, a, b);
        let x = step_order(f, a, b);
        let y = step_order(f, b, c);
        if x == 0 && y == 0 {
            lemma_chain_trans(chain.drop_first(), a, b, c);
        }
    }
}

/// With a chain that holds both `RuleOrdering` (in either direction) and
/// `RuleIndex` (in either direction), distinct matches are never tied.
pub proof fn lemma_chain_total(chain: Seq<(OrdFn, bool)>, a: MatchSpec, b: MatchSpec)
    requires
        exists|i: int| 0 <= i < chain.len() && #[trigger] chain[i].0 == OrdFn::InputIds,
        exists|i: int| 0 <= i < chain.len() && #[trigger] chain[i].0 == OrdFn::RuleIdx,
        chain_order(chain, a, b) == 0,
    ensures
        a == b,
{
    lemma_chain_zero_steps(chain, a, b);
    let i = choose|i: int| 0 <= i < chain.len() && #[trigger] chain[i].0 == OrdFn::InputIds;
    let j = choose|j: int| 0 <= j < chain.len() && #[trigger] chain[j].0 == OrdFn::RuleIdx;
    assert(step_order(chain[i], a, b) == 0);
    assert(step_order(chain[j], a, b) == 0);
    lemma_lex_order_basics(a.1, b.1);
}

/// Tied matches are tied under every step of the chain.
pub proof fn lemma_chain_zero_steps(chain: Seq<(OrdFn, bool)>, a: MatchSpec, b: MatchSpec)
    requires
        chain_order(chain, a, b) == 0,
    ensures
        forall|i: int| 0 <= i < chain.len() ==> #[trigger] step_order(chain[i], a, b) == 0,
    decreases chain.len(),
{
    if chain.len() > 0 {
        lemma_chain_zero_steps(chain.drop_first(), a, b);
        assert forall|i: int| 0 <= i < chain.len() implies #[trigger] step_order(chain[i], a, b) == 0 by {
            if i > 0 {
                assert(chain[i] == chain.drop_first()[i - 1]);
            }
        }
    }
}

/// The default ordering tells all distinct matches apart.
pub proof fn lemma_default_ordering_total(a: MatchSpec, b: MatchSpec)
    requires
        chain_order(translate(spec_default_event_ordering()), a, b) == 0,
    ensures
        a == b,
{
    let chain = translate(spec_default_event_ordering());
    reveal_with_fuel(translate, 4);
    assert(chain =~= seq![(OrdFn::ReverseSortedIds, false), (OrdFn::InputIds, false), (OrdFn::RuleIdx, false)]);
    assert(chain[1].0 == OrdFn::InputIds);
    assert(chain[2].0 == OrdFn::RuleIdx);
    lemma_chain_total(chain, a, b);
}

/// `ids_leq(desc)` on two ids.
fn ids_le(desc: bool, a: TokenId, b: TokenId) -> (r: bool)
    ensures
        r == (ids_leq(desc))(a, b),
{
    if desc {
        a >= b
    } else {
        a <= b
    }
}

/// Sorts ids (in decreasing order when `desc`).
pub fn sort_ids(v: &Vec<TokenId>, desc: bool) -> (r: Vec<TokenId>)
    ensures
        r@ == v@.sort_by(ids_leq(desc)),
{
    let ghost leq = ids_leq(desc);
    assert(total_ordering(leq));
    let mut out: Vec<TokenId> = Vec::new();
    let mut i: usize = 0;
    while i < v.len()
        invariant
            i <= v.len(),
            leq == ids_leq(desc),
            sorted_by(out@, leq),
            out@.to_multiset() == v@.take(i as int).to_multiset(),
        decreases v.len() - i,
    {
        let x = v[i];
        let mut p: usize = 0;
        while p < out.len() && ids_le(desc, out[p], x)
            invariant
                p <= out.len(),
                leq == ids_leq(desc),
                forall|k: int| 0 <= k < p ==> leq(out@[k], x),
            decreases out.len() - p,
        {
            p = p + 1;
        }
        let ghost before = out@;
        out.insert(p, x);
        proof {
            assert(v@.take(i + 1) =~= v@.take(i as int).push(x));
            assert forall|a: int, b: int| 0 <= a < b < out@.len() implies #[trigger] leq(out@[a], out@[b]) by {
                if b < p {
                    assert(out@[a] == before[a] && out@[b] == before[b]);
                } else if b == p {
                    assert(out@[a] == before[a]);
                } else if a == p {
                    assert(out@[b] == before[b - 1]);
                    if p < before.len() {
                        assert(!leq(before[p as int], x));
                        if b - 1 > p {
                            assert(leq(before[p as int], before[b - 1]));
                        }
                    }
                } else if a < p {
                    assert(out@[a] == before[a] && out@[b] == before[b - 1]);
                } else {
                    assert(out@[a] == before[a - 1] && out@[b] == before[b - 1]);
                }
            }
        }
        i = i + 1;
    }
    proof {
        assert(v@.take(v.len() as int) =~= v@);
        v@.lemma_sort_by_ensures(leq);
        vstd::seq_lib::lemma_sorted_unique(out@, v@.sort_by(leq), leq);
    }
    out
}

/// Lexicographic comparison of two id vectors: -1, 0 or 1.
pub fn lex_compare(a: &Vec<TokenId>, b: &Vec<TokenId>) -> (r: i8)
    ensures
        r as int == lex_order(a@, b@),
{
    let mut i: usize = 0;
    assert(a@.skip(0) =~= a@);
    assert(b@.skip(0) =~= b@);
    while i < a.len() && i < b.len()
        invariant
            i <= a.len(),
            i <= b.len(),
            lex_order(a@, b@) == lex_order(a@.skip(i as int), b@.skip(i as int)),
        decreases a.len() - i,
    {
        if a[i] < b[i] {
            return -1;
        }
        if a[i] > b[i] {
            return 1;
        }
        assert(a@.skip(i as int).drop_first() =~= a@.skip(i + 1));
        assert(b@.skip(i as int).drop_first() =~= b@.skip(i + 1));
        i = i + 1;
    }
    if a.len() == i && b.len() == i {
        0
    } else if a.len() == i {
        -1
    } else {
        1
    }
}

/// Comparing under a chain with one more primitive: the chain decides when
/// it tells the matches apart, the new primitive otherwise.
proof fn lemma_chain_push(chain: Seq<(OrdFn, bool)>, f: (OrdFn, bool), a: MatchSpec, b: MatchSpec)
    ensures
        chain_order(chain.push(f), a, b) == if chain_order(chain, a, b) != 0 {
            chain_order(chain, a, b)
        } else {
            step_order(f, a, b)
        },
    decreases chain.len(),
{
    let c2 = chain.push(f);
    assert(c2.len() > 0);
    if chain.len() == 0 {
        assert(c2.drop_first() =~= Seq::<(OrdFn, bool)>::empty());
        assert(c2[0] == f);
        assert(chain_order(c2.drop_first(), a, b) == 0);
        assert(chain_order(chain, a, b) == 0);
    } else {
        assert(c2[0] == chain[0]);
        assert(c2.drop_first() =~= chain.drop_first().push(f));
        lemma_chain_push(chain.drop_first(), f, a, b);
        assert(chain_order(c2, a, b) == if step_order(chain[0], a, b) != 0 {
            step_order(chain[0], a, b)
        } else {
            chain_order(c2.drop_first(), a, b)
        });
    }
}

/// Law: each ordering function compares two matches as its description
/// says, and each reverse function compares them the opposite way:
/// `OldestEdge` by the input ids sorted up, `LeastRecentEdge` by the input
/// ids sorted down, `RuleOrdering` by the input ids in rule order,
/// `RuleIndex` by the rule index (each lexicographically, smaller first);
/// `Random` adds no comparison, and `Any` tells no matches apart but marks
/// the chain as ending with it.
pub proof fn ordering_functions_compare_as_described(a: MatchSpec, b: MatchSpec)
    ensures
        chain_order(translate(seq![OrderingFunction::OldestEdge]), a, b) == lex_order(ascending(a.1), ascending(b.1)),
        chain_order(translate(seq![OrderingFunction::LeastOldEdge]), a, b) == lex_order(ascending(b.1), ascending(a.1)),
        chain_order(translate(seq![OrderingFunction::LeastRecentEdge]), a, b) == lex_order(descending(a.1), descending(b.1)),
        chain_order(translate(seq![OrderingFunction::NewestEdge]), a, b) == lex_order(descending(b.1), descending(a.1)),
        chain_order(translate(seq![OrderingFunction::RuleOrdering]), a, b) == lex_order(a.1, b.1),
        chain_order(translate(seq![OrderingFunction::ReverseRuleOrdering]), a, b) == lex_order(b.1, a.1),
        chain_order(translate(seq![OrderingFunction::ReverseRuleOrdering]), a, b) == -chain_order(
            translate(seq![OrderingFunction::RuleOrdering]),
            a,
            b,
        ),
        chain_order(translate(seq![OrderingFunction::RuleIndex]), a, b) < 0 <==> a.0 < b.0,
        chain_order(translate(seq![OrderingFunction::RuleIndex]), a, b) == 0 <==> a.0 == b.0,
        chain_order(translate(seq![OrderingFunction::ReverseRuleIndex]), a, b) < 0 <==> b.0 < a.0,
        chain_order(translate(seq![OrderingFunction::ReverseRuleIndex]), a, b) == 0 <==> a.0 == b.0,
        translate(seq![OrderingFunction::Random]).len() == 0,
        chain_order(translate(seq![OrderingFunction::Any]), a, b) == 0,
        chain_ends_with_any(translate(seq![OrderingFunction::Any])),
{
    lemma_lex_order_basics(a.1, b.1);
    lemma_lex_order_basics(ascending(a.1), ascending(b.1));
    lemma_lex_order_basics(descending(a.1), descending(b.1));
    let fs = seq![
        OrderingFunction::OldestEdge,
        OrderingFunction::LeastOldEdge,
        OrderingFunction::LeastRecentEdge,
        OrderingFunction::NewestEdge,
        OrderingFunction::RuleOrdering,
        OrderingFunction::ReverseRuleOrdering,
        OrderingFunction::RuleIndex,
        OrderingFunction::ReverseRuleIndex,
        OrderingFunction::Random,
        OrderingFunction::Any,
    ];
    assert forall|k: int| 0 <= k < fs.len() implies translate(seq![#[trigger] fs[k]]) == match primitive_of(fs[k]) {
        Some(p) => seq![p],
        None => Seq::<(OrdFn, bool)>::empty(),
    } by {
        let one = seq![fs[k]];
        assert(one.drop_last() =~= Seq::<OrderingFunction>::empty());
        assert(one.last() == fs[k]);
        assert(translate(one.drop_last()) =~= Seq::<(OrdFn, bool)>::empty());
        match primitive_of(fs[k]) {
            Some(p) => {
                assert(Seq::<(OrdFn, bool)>::empty().push(p) =~= seq![p]);
            },
            None => {},
        }
    }
    assert(fs[0] == OrderingFunction::OldestEdge);
    assert(fs[1] == OrderingFunction::LeastOldEdge);
    assert(fs[2] == OrderingFunction::LeastRecentEdge);
    assert(fs[3] == OrderingFunction::NewestEdge);
    assert(fs[4] == OrderingFunction::RuleOrdering);
    assert(fs[5] == OrderingFunction::ReverseRuleOrdering);
    assert(fs[6] == OrderingFunction::RuleIndex);
    assert(fs[7] == OrderingFunction::ReverseRuleIndex);
    assert(fs[8] == OrderingFunction::Random);
    assert(fs[9] == OrderingFunction::Any);
    let ps = seq![
        (OrdFn::SortedIds, false),
        (OrdFn::SortedIds, true),
        (OrdFn::ReverseSortedIds, false),
        (OrdFn::ReverseSortedIds, true),
        (OrdFn::InputIds, false),
        (OrdFn::InputIds, true),
        (OrdFn::RuleIdx, false),
        (OrdFn::RuleIdx, true),
        (OrdFn::Any, false),
    ];
    assert forall|k: int| 0 <= k < ps.len() implies chain_order(seq![#[trigger] ps[k]], a, b) == step_order(ps[k], a, b) by {
        let one = seq![ps[k]];
        assert(one.len() == 1);
        assert(one[0] == ps[k]);
        assert(one.drop_first() =~= Seq::<(OrdFn, bool)>::empty());
        assert(chain_order(one.drop_first(), a, b) == 0);
    }
    assert(ps[0] == (OrdFn::SortedIds, false));
    assert(ps[1] == (OrdFn::SortedIds, true));
    assert(ps[2] == (OrdFn::ReverseSortedIds, false));
    assert(ps[3] == (OrdFn::ReverseSortedIds, true));
    assert(ps[4] == (OrdFn::InputIds, false));
    assert(ps[5] == (OrdFn::InputIds, true));
    assert(ps[6] == (OrdFn::RuleIdx, false));
    assert(ps[7] == (OrdFn::RuleIdx, true));
    assert(ps[8] == (OrdFn::Any, false));
}

/// Law: each function of an ordering specification only breaks the ties
/// the functions before it leave: comparing under the specification with
/// one more function decides as before where that did, and by the new
/// function alone otherwise.
pub proof fn later_functions_only_break_ties(spec: Seq<OrderingFunction>, f: OrderingFunction, a: MatchSpec, b: MatchSpec)
    ensures
        chain_order(translate(spec.push(f)), a, b) == if chain_order(translate(spec), a, b) != 0 {
            chain_order(translate(spec), a, b)
        } else {
            chain_order(translate(seq![f]), a, b)
        },
{
    let one = seq![f];
    assert(one.drop_last() =~= Seq::<OrderingFunction>::empty());
    assert(one.last() == f);
    assert(translate(one.drop_last()) =~= Seq::<(OrdFn, bool)>::empty());
    assert(spec.push(f).drop_last() =~= spec);
    assert(spec.push(f).last() == f);
    match primitive_of(f) {
        Some(p) => {
            lemma_chain_push(translate(spec), p, a, b);
            assert(Seq::<(OrdFn, bool)>::empty().push(p) =~= seq![p]);
            assert(translate(one) =~= seq![p]);
            let c1 = seq![p];
            assert(c1[0] == p);
            assert(c1.drop_first() =~= Seq::<(OrdFn, bool)>::empty());
            assert(chain_order(c1.drop_first(), a, b) == 0);
        },
        None => {
            assert(translate(one) =~= Seq::<(OrdFn, bool)>::empty());
            assert(chain_order(translate(one), a, b) == 0);
        },
    }
}

/// Law: the sorted ids the edge orderings compare are the match's ids, each
/// as often, sorted up for `ascending` and down for `descending`.
pub proof fn sorted_ids_are_the_ids_in_order(s: Seq<TokenId>)
    ensures
        ascending(s).to_multiset() == s.to_multiset(),
        descending(s).to_multiset() == s.to_multiset(),
        forall|i: int, j: int| 0 <= i < j < ascending(s).len() ==> ascending(s)[i] <= ascending(s)[j],
        forall|i: int, j: int| 0 <= i < j < descending(s).len() ==> descending(s)[i] >= descending(s)[j],
{
    let up = ids_leq(false);
    let down = ids_leq(true);
    assert(total_ordering(up));
    assert(total_ordering(down));
    s.lemma_sort_by_ensures(up);
    s.lemma_sort_by_ensures(down);
    assert forall|i: int, j: int| 0 <= i < j < ascending(s).len() implies ascending(s)[i] <= ascending(s)[j] by {
        assert(up(ascending(s)[i], ascending(s)[j]));
    }
    assert forall|i: int, j: int| 0 <= i < j < descending(s).len() implies descending(s)[i] >= descending(s)[j] by {
        assert(down(descending(s)[i], descending(s)[j]));
    }
}

} // verus!
