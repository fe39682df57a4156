//! The set of all possible matches at the current state, kept in a sorted
//! queue of buckets of matches that the event ordering cannot tell apart.
//!
//! When tokens are created, new matches involving them are discovered; when
//! tokens are consumed, matches involving them are removed. The next event is
//! drawn uniformly at random from the first bucket (randomness is the
//! implicit final tie-breaker), or its front element is taken when the
//! ordering ends with `Any`.

use vstd::prelude::*;

use crate::ordering::lex_compare;
use crate::ordering::sort_ids;
use crate::ordering::MatchSpec;
use crate::ordering::OrdFn;
use crate::ordering::OrderingFunction;
use crate::pcg::Pcg32;
use crate::token::TokenId;

verus! {

/// A potential event: a rule and the tokens instantiating its input edges
/// (in rule input order). Two matches with the same token *set* but different
/// assignment order are distinct.
#[derive(Debug)]
pub struct Match {
    pub rule: usize,
    pub inputs: Vec<TokenId>,
}

impl View for Match {
    type V = MatchSpec;

    open spec fn view(&self) -> MatchSpec {
        (self.rule, self.inputs@)
    }
}

impl Match {
    /// A copy of this match.
    pub fn copy(&self) -> (r: Match)
        ensures
            r@ == self@,
    {
        let v = self.inputs.clone();
        assert(v@ =~= self.inputs@);
        Match { rule: self.rule, inputs: v }
    }

    /// Equality of matches.
    pub fn same(&self, other: &Match) -> (r: bool)
        ensures
            r == (self@ == other@),
    {
        proof {
            crate::ordering::lemma_lex_order_basics(self.inputs@, other.inputs@);
        }
        self.rule == other.rule && lex_compare(&self.inputs, &other.inputs) == 0
    }
}

/// Sort key of a match: its rule, its inputs, and its inputs sorted both ways.
pub struct QueueKey {
    rule: usize,
    inputs: Vec<TokenId>,
    sorted: Vec<TokenId>,
    rev_sorted: Vec<TokenId>,
}

impl QueueKey {
    /// The match this key was made from.
    pub closed spec fn source(&self) -> MatchSpec {
        (self.rule, self.inputs@)
    }

    /// The sorted fields agree with the inputs.
    pub closed spec fn wf(&self) -> bool {
        &&& self.sorted@ == crate::ordering::ascending(self.inputs@)
        &&& self.rev_sorted@ == crate::ordering::descending(self.inputs@)
    }

    /// The key of a match.
    pub fn new(m: &Match) -> (k: QueueKey)
        ensures
            k.wf(),
            k.source() == m@,
    {
        let sorted = sort_ids(&m.inputs, false);
        let rev_sorted = sort_ids(&m.inputs, true);
        let inputs = m.inputs.clone();
        assert(inputs@ =~= m.inputs@);
        QueueKey { rule: m.rule, inputs, sorted, rev_sorted }
    }
}

/// Compares two keys under a chain of ordering primitives: -1, 0 or 1.
pub fn compare_keys(chain: &Vec<(OrdFn, bool)>, a: &QueueKey, b: &QueueKey) -> (r: i8)
    requires
        a.wf(),
        b.wf(),
    ensures
        r as int == crate::ordering::chain_order(chain@, a.source(), b.source()),
{
    let ghost x = a.source();
    let ghost y = b.source();
    let mut i: usize = 0;
    assert(chain@.skip(0) =~= chain@);
    while i < chain.len()
        invariant
            i <= chain.len(),
            a.wf(),
            b.wf(),
            x == a.source(),
            y == b.source(),
            crate::ordering::chain_order(chain@, x, y) == crate::ordering::chain_order(chain@.skip(i as int), x, y),
        decreases chain.len() - i,
    {
        let (f, reverse) = chain[i];
        let c: i8 = match f {
            OrdFn::SortedIds => lex_compare(&a.sorted, &b.sorted),
            OrdFn::ReverseSortedIds => lex_compare(&a.rev_sorted, &b.rev_sorted),
            OrdFn::InputIds => lex_compare(&a.inputs, &b.inputs),
            OrdFn::RuleIdx => if a.rule < b.rule {
                -1
            } else if a.rule > b.rule {
                1
            } else {
                0
            },
            OrdFn::Any => 0,
        };
        proof {
            crate::ordering::lemma_lex_order_basics(a.sorted@, b.sorted@);
            crate::ordering::lemma_lex_order_basics(a.rev_sorted@, b.rev_sorted@);
            crate::ordering::lemma_lex_order_basics(a.inputs@, b.inputs@);
            assert(c as int == crate::ordering::component_order(f, x, y));
            assert(chain@.skip(i as int)[0] == chain@[i as int]);
            assert(chain@.skip(i as int).drop_first() =~= chain@.skip(i + 1));
        }
        let c = if reverse { -c } else { c };
        if c != 0 {
            return c;
        }
        i = i + 1;
    }
    0
}

/// One equivalence class of matches, with the key of the match it was
/// created for.
pub struct Bucket {
    key: QueueKey,
    items: Vec<Match>,
}

/// The matcher: all matches at the current state, in a queue of buckets
/// ordered by the event ordering.
pub struct Matcher {
    chain: Vec<(OrdFn, bool)>,
    ends_with_any: bool,
    buckets: Vec<Bucket>,
    rng: Pcg32,
}

/// `m` is the `i`-th item of bucket `b`.
pub closed spec fn item_at(buckets: Seq<Bucket>, b: int, i: int) -> MatchSpec {
    buckets[b].items@[i]@
}

/// Position of bucket `b` after a bucket is inserted at `p`.
pub open spec fn shift_index(b: int, p: int) -> int {
    if b < p {
        b
    } else {
        b + 1
    }
}

/// The match uses one of the given tokens.
pub open spec fn involves(x: MatchSpec, ids: Seq<TokenId>) -> bool {
    exists|k: int| 0 <= k < x.1.len() && ids.contains(#[trigger] x.1[k])
}

fn involves_any(m: &Match, ids: &Vec<TokenId>) -> (r: bool)
    ensures
        r == involves(m@, ids@),
{
    let mut k: usize = 0;
    while k < m.inputs.len()
        invariant
            k <= m.inputs.len(),
            forall|kk: int| 0 <= kk < k ==> !ids@.contains(#[trigger] m.inputs@[kk]),
        decreases m.inputs.len() - k,
    {
        let t = m.inputs[k];
        let mut j: usize = 0;
        while j < ids.len()
            invariant
                j <= ids.len(),
                k < m.inputs.len(),
                t == m.inputs@[k as int],
                forall|jj: int| 0 <= jj < j ==> ids@[jj] != t,
            decreases ids.len() - j,
        {
            if ids[j] == t {
                assert(ids@.contains(m.inputs@[k as int]));
                assert(ids@.contains(m@.1[k as int]));
                return true;
            }
            j = j + 1;
        }
        k = k + 1;
    }
    false
}

/// The order of deletions: `a` comes before `b` by rule, then by inputs
/// lexicographically.
pub open spec fn match_lt(a: MatchSpec, b: MatchSpec) -> bool {
    a.0 < b.0 || a.0 == b.0 && crate::ordering::lex_order(a.1, b.1) < 0
}

/// The matches of a sequence, as values.
pub open spec fn match_views(v: Seq<Match>) -> Seq<MatchSpec> {
    v.map_values(|m: Match| m@)
}

/// Each match of `v` comes before none of the earlier ones.
pub open spec fn matches_ascending(v: Seq<Match>) -> bool {
    forall|i: int, j: int| 0 <= i < j < v.len() ==> !match_lt(#[trigger] v[j]@, #[trigger] v[i]@)
}

/// A match before another is not after it; and not being after is
/// transitive.
proof fn lemma_match_order(a: MatchSpec, b: MatchSpec, c: MatchSpec)
    ensures
        match_lt(a, b) ==> !match_lt(b, a),
        !match_lt(a, b) && !match_lt(b, c) ==> !match_lt(a, c),
{
    crate::ordering::lemma_lex_order_basics(a.1, b.1);
    crate::ordering::lemma_lex_order_basics(b.1, c.1);
    crate::ordering::lemma_lex_order_basics(a.1, c.1);
    if !match_lt(a, b) && !match_lt(b, c) && a.0 == c.0 {
        crate::ordering::lemma_lex_order_trans(c.1, b.1, a.1);
    }
}

/// Match order used for deletions: by rule, then inputs lexicographically.
fn match_before(a: &Match, b: &Match) -> (r: bool)
    ensures
        r == match_lt(a@, b@),
{
    a.rule < b.rule || (a.rule == b.rule && lex_compare(&a.inputs, &b.inputs) < 0)
}

/// The sequence holds a copy of the match `x`.
pub open spec fn holds_match(v: Seq<Match>, x: MatchSpec) -> bool {
    exists|i: int| 0 <= i < v.len() && #[trigger] v[i]@ == x
}

/// Sorts matches by rule, then inputs (insertion sort); keeps every match.
fn sort_matches(v: Vec<Match>) -> (r: Vec<Match>)
    ensures
        r.len() == v.len(),
        forall|x: MatchSpec| #[trigger] holds_match(r@, x) <==> holds_match(v@, x),
        match_views(r@).to_multiset() == match_views(v@).to_multiset(),
        matches_ascending(r@),
{
    let mut out: Vec<Match> = Vec::new();
    let mut i: usize = 0;
    proof {
        assert(match_views(out@) =~= match_views(v@.take(0)));
    }
    while i < v.len()
        invariant
            i <= v.len(),
            out.len() == i,
            forall|x: MatchSpec| #[trigger] holds_match(out@, x) <==> holds_match(v@.take(i as int), x),
            match_views(out@).to_multiset() == match_views(v@.take(i as int)).to_multiset(),
            matches_ascending(out@),
        decreases v.len() - i,
    {
        let m = v[i].copy();
        let mut p: usize = 0;
        while p < out.len() && match_before(&out[p], &m)
            invariant
                p <= out.len(),
                forall|q: int| 0 <= q < p ==> match_lt(#[trigger] out@[q]@, m@),
            decreases out.len() - p,
        {
            p = p + 1;
        }
        let ghost before = out@;
        let ghost mv = m@;
        out.insert(p, m);
        proof {
            assert(match_views(out@) =~= match_views(before).insert(p as int, mv));
            vstd::seq_lib::to_multiset_insert(match_views(before), p as int, mv);
            assert(match_views(v@.take(i + 1)) =~= match_views(v@.take(i as int)).push(v@[i as int]@));
            vstd::seq_lib::to_multiset_insert(match_views(v@.take(i as int)), i as int, v@[i as int]@);
            assert(match_views(v@.take(i as int)).insert(i as int, v@[i as int]@) =~= match_views(v@.take(i as int)).push(
                v@[i as int]@,
            ));
            assert forall|a: int, b: int| 0 <= a < b < out@.len() implies !match_lt(#[trigger] out@[b]@, #[trigger] out@[a]@) by {
                if b < p {
                    assert(out@[a] == before[a] && out@[b] == before[b]);
                } else if b == p {
                    assert(out@[a] == before[a]);
                    lemma_match_order(before[a]@, mv, mv);
                } else if a == p {
                    assert(out@[b] == before[b - 1]);
                    assert(!match_lt(before[p as int]@, mv));
                    if b - 1 > p {
                        assert(!match_lt(before[b - 1]@, before[p as int]@));
                    }
                    lemma_match_order(before[b - 1]@, before[p as int]@, mv);
                } else if a < p {
                    assert(out@[a] == before[a] && out@[b] == before[b - 1]);
                } else {
                    assert(out@[a] == before[a - 1] && out@[b] == before[b - 1]);
                }
            }
            assert forall|x: MatchSpec| #[trigger] holds_match(out@, x) <==> holds_match(v@.take(i + 1), x) by {
                let vt = v@.take(i as int);
                let vt1 = v@.take(i + 1);
                if holds_match(out@, x) {
                    let k = choose|k: int| 0 <= k < out.len() && #[trigger] out@[k]@ == x;
                    if k < p {
                        assert(before[k]@ == x);
                        assert(holds_match(before, x));
                        let kk = choose|kk: int| 0 <= kk < vt.len() && #[trigger] vt[kk]@ == x;
                        assert(vt1[kk]@ == x);
                    } else if k > p {
                        assert(before[k - 1]@ == x);
                        assert(holds_match(before, x));
                        let kk = choose|kk: int| 0 <= kk < vt.len() && #[trigger] vt[kk]@ == x;
                        assert(vt1[kk]@ == x);
                    } else {
                        assert(vt1[i as int]@ == x);
                    }
                }
                if holds_match(vt1, x) {
                    let k = choose|k: int| 0 <= k < vt1.len() && #[trigger] vt1[k]@ == x;
                    if k < i {
                        assert(vt[k]@ == x);
                        assert(holds_match(vt, x));
                        assert(holds_match(before, x));
                        let kk = choose|kk: int| 0 <= kk < before.len() && #[trigger] before[kk]@ == x;
                        if kk < p {
                            assert(out@[kk]@ == x);
                        } else {
                            assert(out@[kk + 1]@ == x);
                        }
                    } else {
                        assert(out@[p as int]@ == x);
                    }
                }
            }
        }
        i = i + 1;
    }
    assert(v@.take(v.len() as int) =~= v@);
    out
}

impl Matcher {
    /// The chain of ordering primitives in use.
    pub closed spec fn chain(&self) -> Seq<(OrdFn, bool)> {
        self.chain@
    }

    /// Whether the chain ends with `Any` (deterministic pick).
    pub closed spec fn ends_with_any(&self) -> bool {
        self.ends_with_any
    }

    /// The state of the tie-breaking generator.
    pub closed spec fn rng_state(&self) -> u64 {
        self.rng.spec_state()
    }

    /// The stream increment of the tie-breaking generator.
    pub closed spec fn rng_inc(&self) -> u64 {
        self.rng.spec_inc()
    }

    /// All matches in the queue.
    pub closed spec fn matches(&self) -> Set<MatchSpec> {
        Set::new(
            |m: MatchSpec|
                exists|b: int, i: int|
                    0 <= b < self.buckets.len() && 0 <= i < self.buckets@[b].items.len() && #[trigger] item_at(
                        self.buckets@,
                        b,
                        i,
                    ) == m,
        )
    }

    /// The queue's structure: nonempty buckets of tied matches, ordered
    /// strictly, each match once.
    pub closed spec fn wf(&self) -> bool {
        &&& self.ends_with_any == crate::ordering::chain_ends_with_any(self.chain@)
        &&& forall|b: int| 0 <= b < self.buckets.len() ==> (#[trigger] self.buckets@[b]).key.wf()
        &&& forall|b: int| 0 <= b < self.buckets.len() ==> (#[trigger] self.buckets@[b]).items.len() > 0
        &&& forall|b: int, i: int|
            0 <= b < self.buckets.len() && 0 <= i < self.buckets@[b].items.len() ==> crate::ordering::chain_order(
                self.chain@,
                self.buckets@[b].key.source(),
                #[trigger] item_at(self.buckets@, b, i),
            ) == 0
        &&& forall|b: int, c: int|
            0 <= b < c < self.buckets.len() ==> crate::ordering::chain_order(
                self.chain@,
                #[trigger] self.buckets@[b].key.source(),
                #[trigger] self.buckets@[c].key.source(),
            ) < 0
        &&& forall|b: int, i: int, c: int, j: int|
            0 <= b < self.buckets.len() && 0 <= i < self.buckets@[b].items.len() && 0 <= c
                < self.buckets.len() && 0 <= j < self.buckets@[c].items.len() && #[trigger] item_at(
                self.buckets@,
                b,
                i,
            ) == #[trigger] item_at(self.buckets@, c, j) ==> b == c && i == j
    }

    /// Items of an earlier bucket come strictly before items of a later one.
    proof fn lemma_item_order(&self, b: int, i: int, c: int, j: int)
        requires
            self.wf(),
            0 <= b < c < self.buckets.len(),
            0 <= i < self.buckets@[b].items.len(),
            0 <= j < self.buckets@[c].items.len(),
        ensures
            crate::ordering::chain_order(self.chain@, item_at(self.buckets@, b, i), item_at(self.buckets@, c, j)) < 0,
    {
        let ch = self.chain@;
        let rb = self.buckets@[b].key.source();
        let rc = self.buckets@[c].key.source();
        let x = item_at(self.buckets@, b, i);
        let y = item_at(self.buckets@, c, j);
        assert(crate::ordering::chain_order(ch, rb, x) == 0);
        assert(crate::ordering::chain_order(ch, rc, y) == 0);
        assert(crate::ordering::chain_order(ch, rb, rc) < 0);
        crate::ordering::lemma_chain_antisym(ch, rb, x);
        crate::ordering::lemma_chain_antisym(ch, rc, y);
        crate::ordering::lemma_chain_trans(ch, x, rb, rc);
        crate::ordering::lemma_chain_trans(ch, x, rc, y);
    }

    /// Adds a match to the queue (no effect if already present).
    pub fn insert_match(&mut self, m: Match)
        requires
            old(self).wf(),
        ensures
            final(self).wf(),
            final(self).matches() == old(self).matches().insert(m@),
            final(self).chain() == old(self).chain(),
            final(self).ends_with_any() == old(self).ends_with_any(),
            final(self).rng_state() == old(self).rng_state(),
            final(self).rng_inc() == old(self).rng_inc(),
    {
        let ghost ch = self.chain@;
        let ghost mv = m@;
        let key = QueueKey::new(&m);
        let mut p: usize = 0;
        while p < self.buckets.len() && compare_keys(&self.chain, &key, &self.buckets[p].key) > 0
            invariant
                self.wf(),
                ch == self.chain@,
                key.wf(),
                key.source() == mv,
                p <= self.buckets.len(),
                forall|b: int| 0 <= b < p ==> crate::ordering::chain_order(ch, mv, #[trigger] self.buckets@[b].key.source()) > 0,
            decreases self.buckets.len() - p,
        {
            p = p + 1;
        }
        let c: i8 = if p < self.buckets.len() {
            compare_keys(&self.chain, &key, &self.buckets[p].key)
        } else {
            1
        };
        let ghost old_buckets = self.buckets@;
        proof {
            assert forall|b: int, i: int| 0 <= b < p && 0 <= i < old_buckets[b].items.len() implies
                crate::ordering::chain_order(ch, mv, #[trigger] item_at(old_buckets, b, i)) > 0 by {
                let rb = old_buckets[b].key.source();
                let x = item_at(old_buckets, b, i);
                crate::ordering::lemma_chain_antisym(ch, rb, x);
                crate::ordering::lemma_chain_antisym(ch, mv, rb);
                crate::ordering::lemma_chain_antisym(ch, mv, x);
                crate::ordering::lemma_chain_trans(ch, x, rb, mv);
            }
            if p < self.buckets.len() {
                assert(c <= 0 && c as int == crate::ordering::chain_order(ch, mv, old_buckets[p as int].key.source()));
                assert forall|b: int, i: int| p < b < old_buckets.len() && 0 <= i < old_buckets[b].items.len() implies
                    crate::ordering::chain_order(ch, mv, #[trigger] item_at(old_buckets, b, i)) < 0 by {
                    let rp = old_buckets[p as int].key.source();
                    let rb = old_buckets[b].key.source();
                    let x = item_at(old_buckets, b, i);
                    assert(crate::ordering::chain_order(ch, rp, rb) < 0);
                    crate::ordering::lemma_chain_antisym(ch, rb, x);
                    crate::ordering::lemma_chain_trans(ch, mv, rp, rb);
                    crate::ordering::lemma_chain_trans(ch, mv, rb, x);
                }
                if c < 0 {
                    assert forall|i: int| 0 <= i < old_buckets[p as int].items.len() implies
                        crate::ordering::chain_order(ch, mv, #[trigger] item_at(old_buckets, p as int, i)) < 0 by {
                        let rp = old_buckets[p as int].key.source();
                        let x = item_at(old_buckets, p as int, i);
                        crate::ordering::lemma_chain_antisym(ch, rp, x);
                        crate::ordering::lemma_chain_trans(ch, mv, rp, x);
                    }
                }
            }
            crate::ordering::lemma_chain_antisym(ch, mv, mv);
        }
        if p < self.buckets.len() && c == 0 {
            let mut k: usize = 0;
            while k < self.buckets[p].items.len()
                invariant
                    self.wf(),
                    self == old(self),
                    ch == self.chain@,
                    mv == m@,
                    p < self.buckets.len(),
                    k <= self.buckets@[p as int].items.len(),
                    forall|kk: int| 0 <= kk < k ==> item_at(self.buckets@, p as int, kk) != mv,
                decreases self.buckets@[p as int].items.len() - k,
            {
                if self.buckets[p].items[k].same(&m) {
                    proof {
                        assert(item_at(self.buckets@, p as int, k as int) == mv);
                        assert(self.matches() =~= self.matches().insert(mv));
                    }
                    return;
                }
                k = k + 1;
            }
            let bucket = &mut self.buckets[p];
            bucket.items.push(m);
            proof {
                let nb = self.buckets@;
                let n = old_buckets[p as int].items.len() as int;
                assert forall|b: int, i: int| 0 <= b < old_buckets.len() && 0 <= i < old_buckets[b].items.len() implies
                    #[trigger] item_at(nb, b, i) == item_at(old_buckets, b, i) by {
                    if b == p {
                        assert(nb[b].items@[i] == old_buckets[b].items@[i]);
                    }
                }
                assert(item_at(nb, p as int, n) == mv);
                crate::ordering::lemma_chain_antisym(ch, mv, old_buckets[p as int].key.source());
                assert forall|b: int, i: int|
                    0 <= b < nb.len() && 0 <= i < nb[b].items.len() implies crate::ordering::chain_order(
                        ch,
                        nb[b].key.source(),
                        #[trigger] item_at(nb, b, i),
                    ) == 0 by {
                    if !(b == p && i == n) {
                        assert(item_at(nb, b, i) == item_at(old_buckets, b, i));
                    }
                }
                assert forall|b: int, i: int, cc: int, j: int|
                    0 <= b < nb.len() && 0 <= i < nb[b].items.len() && 0 <= cc < nb.len() && 0 <= j
                        < nb[cc].items.len() && #[trigger] item_at(nb, b, i) == #[trigger] item_at(nb, cc, j) implies b == cc
                        && i == j by {
                    if b == p && i == n && !(cc == p && j == n) {
                        assert(item_at(nb, cc, j) == item_at(old_buckets, cc, j));
                        if cc < p {
                            assert(crate::ordering::chain_order(ch, mv, item_at(old_buckets, cc, j)) > 0);
                        } else if cc > p {
                            assert(crate::ordering::chain_order(ch, mv, item_at(old_buckets, cc, j)) < 0);
                        } else {
                            assert(j < n);
                            assert(item_at(old_buckets, p as int, j) != mv);
                        }
                    } else if cc == p && j == n && !(b == p && i == n) {
                        assert(item_at(nb, b, i) == item_at(old_buckets, b, i));
                        if b < p {
                            assert(crate::ordering::chain_order(ch, mv, item_at(old_buckets, b, i)) > 0);
                        } else if b > p {
                            assert(crate::ordering::chain_order(ch, mv, item_at(old_buckets, b, i)) < 0);
                        } else {
                            assert(i < n);
                            assert(item_at(old_buckets, p as int, i) != mv);
                        }
                    } else if !(b == p && i == n) && !(cc == p && j == n) {
                        assert(item_at(nb, b, i) == item_at(old_buckets, b, i));
                        assert(item_at(nb, cc, j) == item_at(old_buckets, cc, j));
                    }
                }
                assert forall|x: MatchSpec| self.matches().contains(x) <==> old(self).matches().contains(x) || x == mv by {
                    if self.matches().contains(x) {
                        let (b, i) = choose|b: int, i: int| 0 <= b < nb.len() && 0 <= i < nb[b].items.len() && #[trigger] item_at(nb, b, i) == x;
                        if !(b == p && i == n) {
                            assert(item_at(old_buckets, b, i) == x);
                        }
                    }
                    if old(self).matches().contains(x) {
                        let (b, i) = choose|b: int, i: int| 0 <= b < old_buckets.len() && 0 <= i < old_buckets[b].items.len() && #[trigger] item_at(old_buckets, b, i) == x;
                        assert(item_at(nb, b, i) == x);
                    }
                    if x == mv {
                        assert(item_at(nb, p as int, n) == x);
                    }
                }
                assert(self.matches() =~= old(self).matches().insert(mv));
            }
        } else {
            let mut items = Vec::new();
            items.push(m);
            self.buckets.insert(p, Bucket { key, items });
            proof {
                let nb = self.buckets@;
                assert forall|b: int, i: int| 0 <= b < old_buckets.len() && 0 <= i < old_buckets[b].items.len() implies
                    item_at(nb, shift_index(b, p as int), i) == #[trigger] item_at(old_buckets, b, i) by {
                    if b < p {
                        assert(nb[b] == old_buckets[b]);
                    } else {
                        assert(nb[b + 1] == old_buckets[b]);
                    }
                }
                assert(item_at(nb, p as int, 0) == mv);
                assert(nb[p as int].key.source() == mv);
                assert forall|b: int, i: int|
                    0 <= b < nb.len() && 0 <= i < nb[b].items.len() implies crate::ordering::chain_order(
                        ch,
                        nb[b].key.source(),
                        #[trigger] item_at(nb, b, i),
                    ) == 0 by {
                    if b < p {
                        assert(nb[b] == old_buckets[b]);
                        assert(item_at(nb, b, i) == item_at(old_buckets, b, i));
                    } else if b > p {
                        assert(nb[b] == old_buckets[b - 1]);
                        assert(item_at(nb, b, i) == item_at(old_buckets, b - 1, i));
                    } else {
                        assert(i == 0);
                        crate::ordering::lemma_chain_antisym(ch, mv, mv);
                    }
                }
                assert forall|b: int, cc: int|
                    0 <= b < cc < nb.len() implies crate::ordering::chain_order(
                        ch,
                        #[trigger] nb[b].key.source(),
                        #[trigger] nb[cc].key.source(),
                    ) < 0 by {
                    if b < p && cc < p {
                        assert(nb[b] == old_buckets[b] && nb[cc] == old_buckets[cc]);
                    } else if b < p && cc == p {
                        assert(nb[b] == old_buckets[b]);
                        assert(crate::ordering::chain_order(ch, mv, old_buckets[b].key.source()) > 0);
                        crate::ordering::lemma_chain_antisym(ch, mv, old_buckets[b].key.source());
                    } else if b < p && cc > p {
                        assert(nb[b] == old_buckets[b] && nb[cc] == old_buckets[cc - 1]);
                    } else if b == p {
                        assert(nb[cc] == old_buckets[cc - 1]);
                        let rp = old_buckets[p as int].key.source();
                        if cc - 1 == p {
                        } else {
                            assert(crate::ordering::chain_order(ch, rp, old_buckets[cc - 1].key.source()) < 0);
                            crate::ordering::lemma_chain_trans(ch, mv, rp, old_buckets[cc - 1].key.source());
                        }
                    } else {
                        assert(nb[b] == old_buckets[b - 1] && nb[cc] == old_buckets[cc - 1]);
                    }
                }
                assert forall|x: MatchSpec| self.matches().contains(x) <==> old(self).matches().contains(x) || x == mv by {
                    if self.matches().contains(x) {
                        let (b, i) = choose|b: int, i: int| 0 <= b < nb.len() && 0 <= i < nb[b].items.len() && #[trigger] item_at(nb, b, i) == x;
                        if b < p {
                            assert(item_at(old_buckets, b, i) == x);
                        } else if b > p {
                            assert(item_at(old_buckets, b - 1, i) == x);
                        }
                    }
                    if old(self).matches().contains(x) {
                        let (b, i) = choose|b: int, i: int| 0 <= b < old_buckets.len() && 0 <= i < old_buckets[b].items.len() && #[trigger] item_at(old_buckets, b, i) == x;
                        assert(item_at(nb, shift_index(b, p as int), i) == x);
                    }
                    if x == mv {
                        assert(item_at(nb, p as int, 0) == x);
                    }
                }
                assert(self.matches() =~= old(self).matches().insert(mv));
                assert forall|b: int, i: int, cc: int, j: int|
                    0 <= b < nb.len() && 0 <= i < nb[b].items.len() && 0 <= cc < nb.len() && 0 <= j
                        < nb[cc].items.len() && #[trigger] item_at(nb, b, i) == #[trigger] item_at(nb, cc, j) implies b == cc
                        && i == j by {
                    let ob = if b < p { b } else { b - 1 };
                    let oc = if cc < p { cc } else { cc - 1 };
                    if b == p && cc != p {
                        assert(item_at(nb, cc, j) == item_at(old_buckets, oc, j));
                        if oc < p {
                            assert(crate::ordering::chain_order(ch, mv, item_at(old_buckets, oc, j)) > 0);
                        } else if oc == p {
                            assert(crate::ordering::chain_order(ch, mv, item_at(old_buckets, oc, j)) < 0);
                        } else {
                            assert(crate::ordering::chain_order(ch, mv, item_at(old_buckets, oc, j)) < 0);
                        }
                    } else if cc == p && b != p {
                        assert(item_at(nb, b, i) == item_at(old_buckets, ob, i));
                        if ob < p {
                            assert(crate::ordering::chain_order(ch, mv, item_at(old_buckets, ob, i)) > 0);
                        } else if ob == p {
                            assert(crate::ordering::chain_order(ch, mv, item_at(old_buckets, ob, i)) < 0);
                        } else {
                            assert(crate::ordering::chain_order(ch, mv, item_at(old_buckets, ob, i)) < 0);
                        }
                    } else if b != p && cc != p {
                        assert(item_at(nb, b, i) == item_at(old_buckets, ob, i));
                        assert(item_at(nb, cc, j) == item_at(old_buckets, oc, j));
                    }
                }
            }
        }
    }

    /// Removes a match from the queue (no effect if absent). Removal swaps the
    /// last match of its bucket into its place.
    pub fn delete_match(&mut self, m: &Match)
        requires
            old(self).wf(),
        ensures
            final(self).wf(),
            final(self).matches() == old(self).matches().remove(m@),
            final(self).chain() == old(self).chain(),
            final(self).ends_with_any() == old(self).ends_with_any(),
            final(self).rng_state() == old(self).rng_state(),
            final(self).rng_inc() == old(self).rng_inc(),
    {
        let ghost ch = self.chain@;
        let ghost mv = m@;
        let key = QueueKey::new(m);
        proof {
            crate::ordering::lemma_chain_antisym(ch, mv, mv);
        }
        let mut p: usize = 0;
        while p < self.buckets.len() && compare_keys(&self.chain, &key, &self.buckets[p].key) != 0
            invariant
                self.wf(),
                self == old(self),
                ch == self.chain@,
                key.wf(),
                key.source() == mv,
                p <= self.buckets.len(),
                forall|b: int| 0 <= b < p ==> crate::ordering::chain_order(ch, mv, #[trigger] self.buckets@[b].key.source()) != 0,
            decreases self.buckets.len() - p,
        {
            p = p + 1;
        }
        let ghost old_buckets = self.buckets@;
        if p == self.buckets.len() {
            proof {
                assert forall|b: int, i: int| 0 <= b < old_buckets.len() && 0 <= i < old_buckets[b].items.len() implies
                    #[trigger] item_at(old_buckets, b, i) != mv by {
                    let rb = old_buckets[b].key.source();
                    if item_at(old_buckets, b, i) == mv {
                        assert(crate::ordering::chain_order(ch, rb, mv) == 0);
                        crate::ordering::lemma_chain_antisym(ch, rb, mv);
                    }
                }
                assert(self.matches() =~= self.matches().remove(mv));
            }
            return;
        }
        proof {
            let rp = old_buckets[p as int].key.source();
            assert(crate::ordering::chain_order(ch, mv, rp) == 0);
            assert forall|b: int, i: int| 0 <= b < old_buckets.len() && b != p && 0 <= i < old_buckets[b].items.len() implies
                #[trigger] item_at(old_buckets, b, i) != mv by {
                let rb = old_buckets[b].key.source();
                if item_at(old_buckets, b, i) == mv {
                    assert(crate::ordering::chain_order(ch, rb, mv) == 0);
                    crate::ordering::lemma_chain_antisym(ch, rb, mv);
                    crate::ordering::lemma_chain_antisym(ch, rp, mv);
                    crate::ordering::lemma_chain_antisym(ch, rb, rp);
                    crate::ordering::lemma_chain_trans(ch, rb, mv, rp);
                    crate::ordering::lemma_chain_trans(ch, rp, mv, rb);
                    if b < p {
                        assert(crate::ordering::chain_order(ch, rb, rp) < 0);
                    } else {
                        assert(crate::ordering::chain_order(ch, rp, rb) < 0);
                    }
                }
            }
        }
        let mut k: usize = 0;
        while k < self.buckets[p].items.len() && !self.buckets[p].items[k].same(m)
            invariant
                self.wf(),
                self == old(self),
                mv == m@,
                p < self.buckets.len(),
                k <= self.buckets@[p as int].items.len(),
                forall|kk: int| 0 <= kk < k ==> item_at(self.buckets@, p as int, kk) != mv,
            decreases self.buckets@[p as int].items.len() - k,
        {
            k = k + 1;
        }
        if k == self.buckets[p].items.len() {
            proof {
                assert forall|b: int, i: int| 0 <= b < old_buckets.len() && 0 <= i < old_buckets[b].items.len() implies
                    #[trigger] item_at(old_buckets, b, i) != mv by {}
                assert(self.matches() =~= self.matches().remove(mv));
            }
            return;
        }
        assert(item_at(old_buckets, p as int, k as int) == mv);
        let n = self.buckets[p].items.len();
        let bucket = &mut self.buckets[p];
        bucket.items.swap_remove(k);
        let ghost mid = self.buckets@;
        proof {
            let ob = old_buckets[p as int].items@;
            let nbk = mid[p as int].items@;
            assert(nbk == ob.update(k as int, ob.last()).drop_last());
            assert forall|b: int| 0 <= b < old_buckets.len() && b != p implies #[trigger] mid[b] == old_buckets[b] by {}
        }
        if self.buckets[p].items.len() == 0 {
            self.buckets.remove(p);
            proof {
                let nb = self.buckets@;
                assert forall|b: int| 0 <= b < nb.len() implies #[trigger] nb[b] == old_buckets[if b < p { b } else { b + 1 }] by {
                    if b < p {
                        assert(nb[b] == mid[b]);
                    } else {
                        assert(nb[b] == mid[b + 1]);
                    }
                }
                assert(n == 1 && k == 0);
                assert forall|b: int, i: int|
                    0 <= b < nb.len() && 0 <= i < nb[b].items.len() implies crate::ordering::chain_order(
                        ch,
                        nb[b].key.source(),
                        #[trigger] item_at(nb, b, i),
                    ) == 0 by {
                    let ob = if b < p { b } else { b + 1 };
                    assert(item_at(nb, b, i) == item_at(old_buckets, ob, i));
                }
                assert forall|b: int, cc: int|
                    0 <= b < cc < nb.len() implies crate::ordering::chain_order(
                        ch,
                        #[trigger] nb[b].key.source(),
                        #[trigger] nb[cc].key.source(),
                    ) < 0 by {
                    let ob = if b < p { b } else { b + 1 };
                    let oc = if cc < p { cc } else { cc + 1 };
                    assert(nb[b] == old_buckets[ob]);
                    assert(nb[cc] == old_buckets[oc]);
                }
                assert forall|b: int, i: int, cc: int, j: int|
                    0 <= b < nb.len() && 0 <= i < nb[b].items.len() && 0 <= cc < nb.len() && 0 <= j
                        < nb[cc].items.len() && #[trigger] item_at(nb, b, i) == #[trigger] item_at(nb, cc, j) implies b == cc
                        && i == j by {
                    let ob = if b < p { b } else { b + 1 };
                    let oc = if cc < p { cc } else { cc + 1 };
                    assert(item_at(nb, b, i) == item_at(old_buckets, ob, i));
                    assert(item_at(nb, cc, j) == item_at(old_buckets, oc, j));
                }
                assert forall|x: MatchSpec| self.matches().contains(x) <==> old(self).matches().contains(x) && x != mv by {
                    if self.matches().contains(x) {
                        let (b, i) = choose|b: int, i: int| 0 <= b < nb.len() && 0 <= i < nb[b].items.len() && #[trigger] item_at(nb, b, i) == x;
                        let ob = if b < p { b } else { b + 1 };
                        assert(item_at(old_buckets, ob, i) == x);
                    }
                    if old(self).matches().contains(x) && x != mv {
                        let (b, i) = choose|b: int, i: int| 0 <= b < old_buckets.len() && 0 <= i < old_buckets[b].items.len() && #[trigger] item_at(old_buckets, b, i) == x;
                        assert(b != p);
                        let nbi = if b < p { b } else { b - 1 };
                        assert(nb[nbi] == old_buckets[b]);
                        assert(item_at(nb, nbi, i) == x);
                    }
                }
                assert(self.matches() =~= old(self).matches().remove(mv));
            }
        } else {
            proof {
                let nb = self.buckets@;
                let ob = old_buckets[p as int].items@;
                let last = (n - 1) as int;
                assert forall|i: int| 0 <= i < nb[p as int].items.len() implies #[trigger] item_at(nb, p as int, i) == item_at(old_buckets, p as int, if i == k { last } else { i }) by {}
                assert forall|b: int, i: int|
                    0 <= b < nb.len() && 0 <= i < nb[b].items.len() implies crate::ordering::chain_order(
                        ch,
                        nb[b].key.source(),
                        #[trigger] item_at(nb, b, i),
                    ) == 0 by {
                    if b == p {
                        assert(item_at(nb, b, i) == item_at(old_buckets, p as int, if i == k { last } else { i }));
                    } else {
                        assert(item_at(nb, b, i) == item_at(old_buckets, b, i));
                    }
                }
                assert forall|b: int, cc: int|
                    0 <= b < cc < nb.len() implies crate::ordering::chain_order(
                        ch,
                        #[trigger] nb[b].key.source(),
                        #[trigger] nb[cc].key.source(),
                    ) < 0 by {
                    assert(nb[b].key == old_buckets[b].key);
                    assert(nb[cc].key == old_buckets[cc].key);
                }
                assert forall|b: int, i: int, cc: int, j: int|
                    0 <= b < nb.len() && 0 <= i < nb[b].items.len() && 0 <= cc < nb.len() && 0 <= j
                        < nb[cc].items.len() && #[trigger] item_at(nb, b, i) == #[trigger] item_at(nb, cc, j) implies b == cc
                        && i == j by {
                    let oi = if b == p && i == k { last } else { i };
                    let oj = if cc == p && j == k { last } else { j };
                    assert(item_at(nb, b, i) == item_at(old_buckets, b, oi));
                    assert(item_at(nb, cc, j) == item_at(old_buckets, cc, oj));
                }
                assert forall|x: MatchSpec| self.matches().contains(x) <==> old(self).matches().contains(x) && x != mv by {
                    if self.matches().contains(x) {
                        let (b, i) = choose|b: int, i: int| 0 <= b < nb.len() && 0 <= i < nb[b].items.len() && #[trigger] item_at(nb, b, i) == x;
                        let oi = if b == p && i == k { last } else { i };
                        assert(item_at(old_buckets, b, oi) == x);
                        if x == mv {
                            assert(b == p && oi == k);
                        }
                    }
                    if old(self).matches().contains(x) && x != mv {
                        let (b, i) = choose|b: int, i: int| 0 <= b < old_buckets.len() && 0 <= i < old_buckets[b].items.len() && #[trigger] item_at(old_buckets, b, i) == x;
                        if b == p {
                            assert(i != k);
                            let ni = if i == last { k as int } else { i };
                            assert(item_at(nb, p as int, ni) == x);
                        } else {
                            assert(item_at(nb, b, i) == x);
                        }
                    }
                }
                assert(self.matches() =~= old(self).matches().remove(mv));
            }
        }
    }

    /// The first bucket holds each match once, and exactly the matches that
    /// come no later than any other in the event ordering.
    proof fn lemma_tied_minimal(&self)
        requires
            self.wf(),
        ensures
            self.tied().no_duplicates(),
            forall|x: MatchSpec| #[trigger] self.tied().contains(x) <==> self.matches().contains(x) && forall|y: MatchSpec|
                #[trigger] self.matches().contains(y) ==> crate::ordering::chain_order(self.chain(), x, y) <= 0,
    {
        let ch = self.chain@;
        let bs = self.buckets@;
        if bs.len() == 0 {
            assert forall|x: MatchSpec| !#[trigger] self.tied().contains(x) by {}
            assert forall|x: MatchSpec| !#[trigger] self.matches().contains(x) by {}
        } else {
            let t = self.tied();
            assert forall|i: int, j: int| 0 <= i < t.len() && 0 <= j < t.len() && i != j implies t[i] != t[j] by {
                assert(t[i] == item_at(bs, 0, i));
                assert(t[j] == item_at(bs, 0, j));
            }
            let r0 = bs[0].key.source();
            assert forall|x: MatchSpec| #[trigger] t.contains(x) <==> self.matches().contains(x) && forall|y: MatchSpec|
                #[trigger] self.matches().contains(y) ==> crate::ordering::chain_order(ch, x, y) <= 0 by {
                if t.contains(x) {
                    let i = choose|i: int| 0 <= i < t.len() && t[i] == x;
                    assert(item_at(bs, 0, i) == x);
                    assert(self.matches().contains(x));
                    assert(crate::ordering::chain_order(ch, r0, x) == 0);
                    crate::ordering::lemma_chain_antisym(ch, r0, x);
                    assert forall|y: MatchSpec| #[trigger] self.matches().contains(y) implies crate::ordering::chain_order(ch, x, y) <= 0 by {
                        let (b, j) = choose|b: int, j: int| 0 <= b < bs.len() && 0 <= j < bs[b].items.len() && #[trigger] item_at(bs, b, j) == y;
                        if b == 0 {
                            assert(crate::ordering::chain_order(ch, r0, y) == 0);
                            crate::ordering::lemma_chain_trans(ch, x, r0, y);
                        } else {
                            self.lemma_item_order(0, i, b, j);
                        }
                    }
                }
                if self.matches().contains(x) && forall|y: MatchSpec|
                    #[trigger] self.matches().contains(y) ==> crate::ordering::chain_order(ch, x, y) <= 0 {
                    let (b, j) = choose|b: int, j: int| 0 <= b < bs.len() && 0 <= j < bs[b].items.len() && #[trigger] item_at(bs, b, j) == x;
                    if b > 0 {
                        let y = item_at(bs, 0, 0);
                        assert(self.matches().contains(y));
                        self.lemma_item_order(0, 0, b, j);
                        crate::ordering::lemma_chain_antisym(ch, y, x);
                        assert(false);
                    }
                    assert(t[j] == x);
                }
            }
        }
    }

    /// How many matches are tied for first place (the size of the first bucket).
    pub closed spec fn tied_count(&self) -> nat {
        if self.buckets.len() == 0 {
            0
        } else {
            self.buckets@[0].items@.len()
        }
    }

    /// The matches tied for first place, in the order the first bucket holds
    /// them.
    pub closed spec fn tied(&self) -> Seq<MatchSpec> {
        if self.buckets.len() == 0 {
            Seq::empty()
        } else {
            self.buckets@[0].items@.map_values(|m: Match| m@)
        }
    }

    /// The match the next event should instantiate, per the ordering: a
    /// uniformly random element among the matches tied for first place, or the
    /// front one if the ordering ends with `Any`. `None` when there is no match.
    pub fn next_match(&mut self) -> (r: Option<Match>)
        requires
            old(self).wf(),
        ensures
            final(self).wf(),
            final(self).matches() == old(self).matches(),
            final(self).chain() == old(self).chain(),
            final(self).ends_with_any() == old(self).ends_with_any(),
            final(self).tied_count() == old(self).tied_count(),
            final(self).rng_inc() == old(self).rng_inc(),
            r is None <==> old(self).matches().is_empty(),
            r matches Some(m) ==> old(self).matches().contains(m@) && forall|x: MatchSpec| #[trigger] old(
                self,
            ).matches().contains(x) ==> crate::ordering::chain_order(old(self).chain(), m@, x) <= 0,
            (r is None || old(self).ends_with_any()) ==> final(self).rng_state() == old(self).rng_state(),
            (r is Some && !old(self).ends_with_any()) ==> final(self).rng_state() == crate::pcg::gen_index_spec(
                old(self).rng_state(),
                old(self).rng_inc(),
                old(self).tied_count(),
                u64::MAX as nat,
            ).1,
            old(self).tied().len() == old(self).tied_count(),
            old(self).tied().no_duplicates(),
            forall|x: MatchSpec| #[trigger] old(self).tied().contains(x) <==> old(self).matches().contains(x) && forall|y: MatchSpec|
                #[trigger] old(self).matches().contains(y) ==> crate::ordering::chain_order(old(self).chain(), x, y) <= 0,
            old(self).ends_with_any() == crate::ordering::chain_ends_with_any(old(self).chain()),
            final(self).tied() == old(self).tied(),
            r matches Some(m) ==> m@ == old(self).tied()[if old(self).ends_with_any() {
                0int
            } else {
                crate::pcg::gen_index_spec(
                    old(self).rng_state(),
                    old(self).rng_inc(),
                    old(self).tied_count(),
                    u64::MAX as nat,
                ).0 as int
            }],
    {
        let ghost ch = self.chain@;
        proof {
            self.lemma_tied_minimal();
        }
        if self.buckets.len() == 0 {
            proof {
                assert forall|x: MatchSpec| !self.matches().contains(x) by {}
                assert(self.matches() =~= Set::<MatchSpec>::empty());
            }
            return None;
        }
        let n = self.buckets[0].items.len();
        let idx = if self.ends_with_any {
            0
        } else {
            self.rng.gen_index(n)
        };
        let m = self.buckets[0].items[idx].copy();
        proof {
            assert(item_at(self.buckets@, 0, idx as int) == m@);
            assert(self.matches().contains(m@));
            let r0 = self.buckets@[0].key.source();
            assert(crate::ordering::chain_order(ch, r0, m@) == 0);
            crate::ordering::lemma_chain_antisym(ch, r0, m@);
            assert forall|x: MatchSpec| #[trigger] self.matches().contains(x) implies crate::ordering::chain_order(ch, m@, x) <= 0 by {
                let (b, i) = choose|b: int, i: int| 0 <= b < self.buckets.len() && 0 <= i < self.buckets@[b].items.len() && #[trigger] item_at(self.buckets@, b, i) == x;
                if b == 0 {
                    assert(crate::ordering::chain_order(ch, r0, x) == 0);
                    crate::ordering::lemma_chain_trans(ch, m@, r0, x);
                } else {
                    self.lemma_item_order(0, idx as int, b, i);
                }
            }
        }
        Some(m)
    }

    /// Every match in the queue, each once, in the order of the event
    /// ordering (bucket by bucket).
    pub fn iter(&self) -> (r: Vec<Match>)
        requires
            self.wf(),
        ensures
            forall|i: int| 0 <= i < r.len() ==> self.matches().contains(#[trigger] r@[i]@),
            forall|x: MatchSpec| #[trigger] self.matches().contains(x) ==> holds_match(r@, x),
            forall|i: int, j: int| 0 <= i < j < r.len() ==> #[trigger] r@[i]@ != #[trigger] r@[j]@,
            forall|i: int, j: int|
                0 <= i < j < r.len() ==> crate::ordering::chain_order(self.chain(), #[trigger] r@[i]@, #[trigger] r@[j]@)
                    <= 0,
    {
        let mut out: Vec<Match> = Vec::new();
        let ghost mut src: Seq<(int, int)> = Seq::empty();
        let mut b: usize = 0;
        while b < self.buckets.len()
            invariant
                b <= self.buckets.len(),
                src.len() == out.len(),
                forall|k: int|
                    0 <= k < out.len() ==> 0 <= (#[trigger] src[k]).0 < b && 0 <= src[k].1 < self.buckets@[src[k].0].items.len()
                        && out@[k]@ == item_at(self.buckets@, src[k].0, src[k].1),
                forall|k1: int, k2: int|
                    0 <= k1 < k2 < out.len() ==> (#[trigger] src[k1]).0 < (#[trigger] src[k2]).0 || src[k1].0 == src[k2].0
                        && src[k1].1 < src[k2].1,
                forall|i: int| 0 <= i < out.len() ==> self.matches().contains(#[trigger] out@[i]@),
                forall|bb: int, i: int| 0 <= bb < b && 0 <= i < self.buckets@[bb].items.len() ==> holds_match(
                    out@,
                    #[trigger] item_at(self.buckets@, bb, i),
                ),
            decreases self.buckets.len() - b,
        {
            let mut i: usize = 0;
            while i < self.buckets[b].items.len()
                invariant
                    b < self.buckets.len(),
                    i <= self.buckets@[b as int].items.len(),
                    src.len() == out.len(),
                    forall|k: int|
                        0 <= k < out.len() ==> 0 <= (#[trigger] src[k]).0 <= b && 0 <= src[k].1 < self.buckets@[src[k].0].items.len()
                            && (src[k].0 == b ==> src[k].1 < i) && out@[k]@ == item_at(self.buckets@, src[k].0, src[k].1),
                    forall|k1: int, k2: int|
                        0 <= k1 < k2 < out.len() ==> (#[trigger] src[k1]).0 < (#[trigger] src[k2]).0 || src[k1].0 == src[k2].0
                            && src[k1].1 < src[k2].1,
                    forall|k: int| 0 <= k < out.len() ==> self.matches().contains(#[trigger] out@[k]@),
                    forall|bb: int, ii: int| 0 <= bb < b && 0 <= ii < self.buckets@[bb].items.len() ==> holds_match(
                        out@,
                        #[trigger] item_at(self.buckets@, bb, ii),
                    ),
                    forall|ii: int| 0 <= ii < i ==> holds_match(out@, #[trigger] item_at(self.buckets@, b as int, ii)),
                decreases self.buckets@[b as int].items.len() - i,
            {
                let m = self.buckets[b].items[i].copy();
                proof {
                    assert(item_at(self.buckets@, b as int, i as int) == m@);
                    assert(self.matches().contains(m@));
                }
                let ghost before = out@;
                let ghost src0 = src;
                out.push(m);
                proof {
                    src = src.push((b as int, i as int));
                    assert forall|k: int| 0 <= k < out.len() implies 0 <= (#[trigger] src[k]).0 <= b && 0 <= src[k].1
                        < self.buckets@[src[k].0].items.len() && (src[k].0 == b ==> src[k].1 < i + 1) && out@[k]@ == item_at(
                        self.buckets@,
                        src[k].0,
                        src[k].1,
                    ) by {
                        if k < before.len() {
                            assert(src[k] == src0[k] && out@[k] == before[k]);
                        }
                    }
                    assert forall|k1: int, k2: int| 0 <= k1 < k2 < out.len() implies (#[trigger] src[k1]).0 < (
                    #[trigger] src[k2]).0 || src[k1].0 == src[k2].0 && src[k1].1 < src[k2].1 by {
                        assert(src[k1] == src0[k1]);
                        if k2 < before.len() {
                            assert(src[k2] == src0[k2]);
                        }
                    }
                    assert(out@[before.len() as int]@ == item_at(self.buckets@, b as int, i as int));
                    assert forall|x: MatchSpec| holds_match(before, x) implies #[trigger] holds_match(out@, x) by {
                        let k = choose|k: int| 0 <= k < before.len() && #[trigger] before[k]@ == x;
                        assert(out@[k] == before[k]);
                    }
                    assert(holds_match(out@, item_at(self.buckets@, b as int, i as int)));
                }
                i = i + 1;
            }
            proof {
                assert forall|bb: int, ii: int| 0 <= bb < b + 1 && 0 <= ii < self.buckets@[bb].items.len() implies holds_match(
                    out@,
                    #[trigger] item_at(self.buckets@, bb, ii),
                ) by {
                    if bb == b {
                    }
                }
            }
            b = b + 1;
        }
        proof {
            assert forall|x: MatchSpec| #[trigger] self.matches().contains(x) implies holds_match(out@, x) by {
                let (bb, ii) = choose|bb: int, ii: int| 0 <= bb < self.buckets.len() && 0 <= ii < self.buckets@[bb].items.len() && #[trigger] item_at(self.buckets@, bb, ii) == x;
                assert(holds_match(out@, item_at(self.buckets@, bb, ii)));
            }
            assert forall|k1: int, k2: int| 0 <= k1 < k2 < out.len() implies #[trigger] out@[k1]@ != #[trigger] out@[k2]@ && crate::ordering::chain_order(
                self.chain(),
                out@[k1]@,
                out@[k2]@,
            ) <= 0 by {
                let (b1, i1) = src[k1];
                let (b2, i2) = src[k2];
                let x = item_at(self.buckets@, b1, i1);
                let y = item_at(self.buckets@, b2, i2);
                assert(out@[k1]@ == x && out@[k2]@ == y);
                if b1 < b2 {
                    self.lemma_item_order(b1, i1, b2, i2);
                    crate::ordering::lemma_chain_antisym(self.chain@, x, y);
                    crate::ordering::lemma_chain_antisym(self.chain@, y, x);
                } else {
                    let key = self.buckets@[b1].key.source();
                    assert(crate::ordering::chain_order(self.chain@, key, x) == 0);
                    assert(crate::ordering::chain_order(self.chain@, key, y) == 0);
                    crate::ordering::lemma_chain_antisym(self.chain@, key, x);
                    crate::ordering::lemma_chain_trans(self.chain@, x, key, y);
                }
            }
        }
        out
    }

    /// Removes every match that uses any of the given tokens. Deletion happens
    /// in a canonical order (by rule, then inputs) so the evolution stays
    /// deterministic (bucket-internal order is perturbed by deletions).
    pub fn remove_matches_involving_tokens(&mut self, ids: &Vec<TokenId>)
        requires
            old(self).wf(),
        ensures
            final(self).wf(),
            final(self).matches() == old(self).matches().filter(|x: MatchSpec| !involves(x, ids@)),
            final(self).chain() == old(self).chain(),
            final(self).ends_with_any() == old(self).ends_with_any(),
            final(self).rng_state() == old(self).rng_state(),
            final(self).rng_inc() == old(self).rng_inc(),
    {
        let all = self.iter();
        let mut doomed: Vec<Match> = Vec::new();
        let mut i: usize = 0;
        while i < all.len()
            invariant
                i <= all.len(),
                forall|k: int| 0 <= k < doomed.len() ==> (#[trigger] doomed@[k]@ == doomed@[k]@) && involves(doomed@[k]@, ids@)
                    && self.matches().contains(doomed@[k]@),
                forall|k: int| 0 <= k < all.len() ==> self.matches().contains(#[trigger] all@[k]@),
                forall|k: int| 0 <= k < i && involves(#[trigger] all@[k]@, ids@) ==> exists|j: int|
                    0 <= j < doomed.len() && doomed@[j]@ == all@[k]@,
            decreases all.len() - i,
        {
            if involves_any(&all[i], ids) {
                let ghost before = doomed@;
                doomed.push(all[i].copy());
                proof {
                    assert forall|k: int| 0 <= k < i + 1 && involves(#[trigger] all@[k]@, ids@) implies exists|j: int|
                        0 <= j < doomed.len() && doomed@[j]@ == all@[k]@ by {
                        if k < i {
                            let j = choose|j: int| 0 <= j < before.len() && before[j]@ == all@[k]@;
                            assert(doomed@[j] == before[j]);
                        } else {
                            assert(doomed@[before.len() as int]@ == all@[k]@);
                        }
                    }
                }
            }
            i = i + 1;
        }
        let ghost unsorted = doomed@;
        let doomed = sort_matches(doomed);
        let ghost target = self.matches().filter(|x: MatchSpec| !involves(x, ids@));
        let ghost start = self.matches();
        proof {
            assert forall|x: MatchSpec| start.contains(x) && involves(x, ids@) implies exists|j: int|
                0 <= j < doomed.len() && doomed@[j]@ == x by {
                assert(holds_match(all@, x));
                let k = choose|k: int| 0 <= k < all.len() && #[trigger] all@[k]@ == x;
                assert(involves(all@[k]@, ids@));
                let j0 = choose|j: int| 0 <= j < unsorted.len() && unsorted[j]@ == all@[k]@;
                assert(holds_match(unsorted, x));
                assert(holds_match(doomed@, x));
            }
            assert forall|k: int| 0 <= k < doomed.len() implies involves(#[trigger] doomed@[k]@, ids@) by {
                assert(holds_match(doomed@, doomed@[k]@));
                let j0 = choose|j: int| 0 <= j < unsorted.len() && #[trigger] unsorted[j]@ == doomed@[k]@;
            }
        }
        let mut j: usize = 0;
        while j < doomed.len()
            invariant
                self.wf(),
                j <= doomed.len(),
                self.chain() == old(self).chain(),
                self.ends_with_any() == old(self).ends_with_any(),
                self.rng_state() == old(self).rng_state(),
                self.rng_inc() == old(self).rng_inc(),
                start == old(self).matches(),
                forall|k: int| 0 <= k < doomed.len() ==> involves(#[trigger] doomed@[k]@, ids@),
                forall|x: MatchSpec| start.contains(x) && involves(x, ids@) ==> exists|k: int|
                    0 <= k < doomed.len() && doomed@[k]@ == x,
                forall|x: MatchSpec| #[trigger] self.matches().contains(x) <==> start.contains(x) && !(exists|k: int|
                    0 <= k < j && doomed@[k]@ == x),
            decreases doomed.len() - j,
        {
            let ghost before = self.matches();
            self.delete_match(&doomed[j]);
            proof {
                assert forall|x: MatchSpec| #[trigger] self.matches().contains(x) <==> start.contains(x) && !(exists|k: int|
                    0 <= k < j + 1 && doomed@[k]@ == x) by {
                    if exists|k: int| 0 <= k < j + 1 && doomed@[k]@ == x {
                        let k = choose|k: int| 0 <= k < j + 1 && doomed@[k]@ == x;
                        if k < j {
                            assert(!before.contains(x));
                        }
                    }
                    if before.contains(x) && x != doomed@[j as int]@ {
                        if exists|k: int| 0 <= k < j + 1 && doomed@[k]@ == x {
                            let k = choose|k: int| 0 <= k < j + 1 && doomed@[k]@ == x;
                            assert(k < j);
                        }
                    }
                }
            }
            j = j + 1;
        }
        proof {
            assert forall|x: MatchSpec| self.matches().contains(x) <==> target.contains(x) by {
                if exists|k: int| 0 <= k < doomed.len() && doomed@[k]@ == x {
                    let k = choose|k: int| 0 <= k < doomed.len() && doomed@[k]@ == x;
                    assert(involves(doomed@[k]@, ids@));
                }
            }
            assert(self.matches() =~= target);
        }
    }

    /// An empty matcher for an ordering specification and a seed.
    pub fn new(ordering: &Vec<OrderingFunction>, random_seed: u64) -> (r: Matcher)
        ensures
            r.wf(),
            r.matches() == Set::<MatchSpec>::empty(),
            r.chain() == crate::ordering::translate(ordering@),
            r.rng_state() == crate::pcg::pcg_seeded_state(random_seed),
            r.rng_inc() == crate::pcg::pcg_increment(),
    {
        let (chain, ends_with_any) = crate::ordering::translate_spec(ordering);
        let r = Matcher { chain, ends_with_any, buckets: Vec::new(), rng: Pcg32::new(random_seed) };
        assert(r.matches() =~= Set::<MatchSpec>::empty());
        r
    }
}

} // verus!
