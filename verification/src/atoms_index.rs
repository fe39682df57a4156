//! Index from atoms to the tokens that contain them. Only tokens that are
//! eligible for matching are kept in the index.

use vstd::prelude::*;

use crate::rule::Atom;
use crate::token::Token;
use crate::token::TokenId;

verus! {

broadcast use vstd::seq_lib::lemma_seq_contains_after_push;

/// The tokens of one atom, in increasing order.
pub struct IndexEntry {
    atom: Atom,
    tokens: Vec<TokenId>,
}

/// The atoms index: for each atom, the indexed tokens containing it.
pub struct AtomsIndex {
    entries: Vec<IndexEntry>,
    indexed: Ghost<Set<TokenId>>,
}

/// Some entry is for atom `a`.
pub closed spec fn entries_have(entries: Seq<IndexEntry>, a: Atom) -> bool {
    exists|i: int| 0 <= i < entries.len() && #[trigger] entries[i].atom == a
}

/// A strictly increasing sequence of token ids.
pub open spec fn strictly_sorted(s: Seq<TokenId>) -> bool {
    forall|i: int, j: int| 0 <= i < j < s.len() ==> s[i] < s[j]
}

impl AtomsIndex {
    /// The set of indexed tokens.
    pub closed spec fn indexed(&self) -> Set<TokenId> {
        self.indexed@
    }

    /// Consistency with the atoms `ta` of the tokens.
    pub closed spec fn wf(&self, ta: Seq<Seq<Atom>>) -> bool {
        &&& forall|t: TokenId| #[trigger] self.indexed@.contains(t) ==> t < ta.len()
        &&& forall|i: int, j: int|
            0 <= i < j < self.entries.len() ==> self.entries@[i].atom != self.entries@[j].atom
        &&& forall|i: int| 0 <= i < self.entries.len() ==> strictly_sorted(#[trigger] self.entries@[i].tokens@)
        &&& forall|i: int, t: TokenId|
            0 <= i < self.entries.len() ==> (#[trigger] self.entries@[i].tokens@.contains(t) <==> (
            self.indexed@.contains(t) && ta[t as int].contains(self.entries@[i].atom)))
        &&& forall|t: TokenId, k: int|
            self.indexed@.contains(t) && 0 <= k < ta[t as int].len() ==> entries_have(self.entries@, #[trigger] ta[t as int][k])
    }

    /// The empty index.
    pub fn new() -> (r: AtomsIndex)
        ensures
            r.indexed() == Set::<TokenId>::empty(),
            forall|ta: Seq<Seq<Atom>>| r.wf(ta),
    {
        AtomsIndex { entries: Vec::new(), indexed: Ghost(Set::empty()) }
    }

    /// Indexed tokens exist.
    pub proof fn lemma_indexed_within(&self, ta: Seq<Seq<Atom>>, t: TokenId)
        requires
            self.wf(ta),
            self.indexed().contains(t),
        ensures
            t < ta.len(),
    {
    }

    /// More tokens may be created without affecting the index.
    pub proof fn lemma_wf_extend(&self, ta: Seq<Seq<Atom>>, ta2: Seq<Seq<Atom>>)
        requires
            self.wf(ta),
            ta.len() <= ta2.len(),
            forall|t: int| 0 <= t < ta.len() ==> ta2[t] == ta[t],
        ensures
            self.wf(ta2),
    {
        assert forall|i: int, t: TokenId|
            0 <= i < self.entries.len() implies (#[trigger] self.entries@[i].tokens@.contains(t) <==> (
            self.indexed@.contains(t) && ta2[t as int].contains(self.entries@[i].atom))) by {
            if self.entries@[i].tokens@.contains(t) {
                assert(self.indexed@.contains(t));
            }
        }
        assert forall|t: TokenId, k: int|
            self.indexed@.contains(t) && 0 <= k < ta2[t as int].len() implies entries_have(self.entries@, #[trigger] ta2[t as int][k]) by {
            assert(ta2[t as int] == ta[t as int]);
            assert(ta[t as int][k] == ta2[t as int][k]);
            assert(entries_have(self.entries@, ta[t as int][k]));
        }
    }

    fn find(&self, atom: Atom) -> (r: Option<usize>)
        ensures
            r matches Some(i) ==> i < self.entries.len() && self.entries@[i as int].atom == atom,
            r is None ==> forall|i: int| 0 <= i < self.entries.len() ==> self.entries@[i].atom != atom,
    {
        let mut i: usize = 0;
        while i < self.entries.len()
            invariant
                i <= self.entries.len(),
                forall|j: int| 0 <= j < i ==> self.entries@[j].atom != atom,
            decreases self.entries.len() - i,
        {
            if self.entries[i].atom == atom {
                return Some(i);
            }
            i = i + 1;
        }
        None
    }

    /// The indexed tokens containing `atom`, in increasing order; `None` when
    /// no indexed token contains it.
    pub fn tokens_containing(&self, atom: Atom, Ghost(ta): Ghost<Seq<Seq<Atom>>>) -> (r: Option<&Vec<TokenId>>)
        requires
            self.wf(ta),
        ensures
            r matches Some(v) ==> strictly_sorted(v@) && forall|t: TokenId| #[trigger] v@.contains(t) <==> (
                self.indexed().contains(t) && ta[t as int].contains(atom)),
            r is None ==> forall|t: TokenId| #[trigger] self.indexed().contains(t) ==> !ta[t as int].contains(atom),
    {
        match self.find(atom) {
            Some(i) => Some(&self.entries[i].tokens),
            None => {
                proof {
                    assert forall|t: TokenId| #[trigger] self.indexed().contains(t) implies !ta[t as int].contains(atom) by {
                        if ta[t as int].contains(atom) {
                            let k = choose|k: int| 0 <= k < ta[t as int].len() && #[trigger] ta[t as int][k] == atom;
                            assert(ta[t as int][k] == atom);
                        }
                    }
                }
                None
            },
        }
    }

    /// Adds the given tokens to the index.
    pub fn add_tokens(&mut self, ids: &Vec<TokenId>, tokens: &Vec<Token>)
        requires
            old(self).wf(crate::token::atoms_seq(tokens@)),
            forall|k: int| 0 <= k < ids.len() ==> #[trigger] ids@[k] < tokens.len(),
        ensures
            final(self).wf(crate::token::atoms_seq(tokens@)),
            final(self).indexed() == old(self).indexed().union(ids@.to_set()),
    {
        let ghost ta = crate::token::atoms_seq(tokens@);
        let mut n: usize = 0;
        while n < ids.len()
            invariant
                n <= ids.len(),
                ta == crate::token::atoms_seq(tokens@),
                forall|k: int| 0 <= k < ids.len() ==> #[trigger] ids@[k] < tokens.len(),
                self.wf(ta),
                self.indexed() == old(self).indexed().union(ids@.take(n as int).to_set()),
            decreases ids.len() - n,
        {
            let id = ids[n];
            self.add_one(id, tokens);
            proof {
                assert(ids@.take(n + 1) =~= ids@.take(n as int).push(id));
                lemma_push_to_set(ids@.take(n as int), id);
            }
            n = n + 1;
        }
        assert(ids@.take(ids.len() as int) =~= ids@);
    }

    fn add_one(&mut self, id: TokenId, tokens: &Vec<Token>)
        requires
            old(self).wf(crate::token::atoms_seq(tokens@)),
            id < tokens.len(),
        ensures
            final(self).wf(crate::token::atoms_seq(tokens@)),
            final(self).indexed() == old(self).indexed().insert(id),
    {
        let ghost ta = crate::token::atoms_seq(tokens@);
        let atoms = &tokens[id].atoms;
        assert(atoms@ == ta[id as int]);
        let ghost old_ix = self.indexed@;
        let ghost new_ix = old_ix.insert(id);
        let mut j: usize = 0;
        while j < atoms.len()
            invariant
                j <= atoms.len(),
                atoms@ == ta[id as int],
                id < ta.len(),
                self.indexed@ == old_ix,
                forall|t: TokenId| #[trigger] old_ix.contains(t) ==> t < ta.len(),
                forall|i: int, k: int|
                    0 <= i < k < self.entries.len() ==> self.entries@[i].atom != self.entries@[k].atom,
                forall|i: int| 0 <= i < self.entries.len() ==> strictly_sorted(#[trigger] self.entries@[i].tokens@),
                forall|i: int, t: TokenId|
                    0 <= i < self.entries.len() ==> (#[trigger] self.entries@[i].tokens@.contains(t) <==> (
                    (old_ix.contains(t) && ta[t as int].contains(self.entries@[i].atom))
                    || (t == id && atoms@.take(j as int).contains(self.entries@[i].atom)))),
                forall|t: TokenId, k: int|
                    old_ix.contains(t) && 0 <= k < ta[t as int].len() ==> entries_have(self.entries@, #[trigger] ta[t as int][k]),
                forall|k: int| 0 <= k < j ==> entries_have(self.entries@, #[trigger] atoms@[k]),
            decreases atoms.len() - j,
        {
            let a = atoms[j];
            let ghost before = self.entries@;
            proof {
                assert(atoms@.take(j + 1) =~= atoms@.take(j as int).push(a));
            }
            match self.find(a) {
                Some(i) => {
                    let e = &mut self.entries[i];
                    sorted_insert(&mut e.tokens, id);
                    proof {
                        assert forall|ii: int| 0 <= ii < self.entries.len() && ii != i implies #[trigger] self.entries@[ii] == before[ii] by {}
                        assert forall|ii: int, t: TokenId|
                            0 <= ii < self.entries.len() implies (#[trigger] self.entries@[ii].tokens@.contains(t) <==> (
                            (old_ix.contains(t) && ta[t as int].contains(self.entries@[ii].atom))
                            || (t == id && atoms@.take(j + 1).contains(self.entries@[ii].atom)))) by {
                            assert(atoms@.take(j + 1)[j as int] == a);
                            if ii != i {
                                assert(self.entries@[ii] == before[ii]);
                                assert(before[ii].atom != a);
                                if atoms@.take(j + 1).contains(self.entries@[ii].atom) {
                                    let kk = choose|kk: int| 0 <= kk < j + 1 && #[trigger] atoms@.take(j + 1)[kk] == self.entries@[ii].atom;
                                    assert(atoms@.take(j as int)[kk] == self.entries@[ii].atom);
                                }
                            }
                        }
                        assert forall|t: TokenId, k: int|
                            old_ix.contains(t) && 0 <= k < ta[t as int].len() implies entries_have(self.entries@, #[trigger] ta[t as int][k]) by {
                            let ii = choose|ii: int| 0 <= ii < before.len() && #[trigger] before[ii].atom == ta[t as int][k];
                            assert(self.entries@[ii].atom == before[ii].atom);
                            assert(entries_have(self.entries@, ta[t as int][k]));
                        }
                        assert forall|k: int| 0 <= k < j + 1 implies entries_have(self.entries@, #[trigger] atoms@[k]) by {
                            if k < j {
                                let ii = choose|ii: int| 0 <= ii < before.len() && #[trigger] before[ii].atom == atoms@[k];
                                assert(self.entries@[ii].atom == before[ii].atom);
                                assert(entries_have(self.entries@, atoms@[k]));
                            } else {
                                assert(self.entries@[i as int].atom == atoms@[k]);
                                assert(entries_have(self.entries@, atoms@[k]));
                            }
                        }
                    }
                },
                None => {
                    let mut v = Vec::new();
                    v.push(id);
                    self.entries.push(IndexEntry { atom: a, tokens: v });
                    proof {
                        let n = before.len() as int;
                        assert forall|ii: int, t: TokenId|
                            0 <= ii < self.entries.len() implies (#[trigger] self.entries@[ii].tokens@.contains(t) <==> (
                            (old_ix.contains(t) && ta[t as int].contains(self.entries@[ii].atom))
                            || (t == id && atoms@.take(j + 1).contains(self.entries@[ii].atom)))) by {
                            assert(atoms@.take(j + 1)[j as int] == a);
                            if ii == n {
                                if old_ix.contains(t) && ta[t as int].contains(a) {
                                    let k = choose|k: int| 0 <= k < ta[t as int].len() && #[trigger] ta[t as int][k] == a;
                                    assert(old_ix.contains(t) && 0 <= k < ta[t as int].len());
                                    let i2 = choose|i2: int| 0 <= i2 < before.len() && #[trigger] before[i2].atom == ta[t as int][k];
                                    assert(false);
                                }
                                if self.entries@[ii].tokens@.contains(t) {
                                    assert(self.entries@[ii].tokens@ =~= seq![id]);
                                }
                            } else {
                                assert(self.entries@[ii] == before[ii]);
                                if atoms@.take(j + 1).contains(self.entries@[ii].atom) {
                                    let kk = choose|kk: int| 0 <= kk < j + 1 && #[trigger] atoms@.take(j + 1)[kk] == self.entries@[ii].atom;
                                    assert(atoms@.take(j as int)[kk] == self.entries@[ii].atom);
                                }
                            }
                        }
                        assert forall|t: TokenId, k: int|
                            old_ix.contains(t) && 0 <= k < ta[t as int].len() implies entries_have(self.entries@, #[trigger] ta[t as int][k]) by {
                            let ii = choose|ii: int| 0 <= ii < before.len() && #[trigger] before[ii].atom == ta[t as int][k];
                            assert(self.entries@[ii].atom == before[ii].atom);
                            assert(entries_have(self.entries@, ta[t as int][k]));
                        }
                        assert forall|k: int| 0 <= k < j + 1 implies entries_have(self.entries@, #[trigger] atoms@[k]) by {
                            if k < j {
                                let ii = choose|ii: int| 0 <= ii < before.len() && #[trigger] before[ii].atom == atoms@[k];
                                assert(self.entries@[ii].atom == before[ii].atom);
                                assert(entries_have(self.entries@, atoms@[k]));
                            } else {
                                assert(self.entries@[n].atom == atoms@[k]);
                                assert(entries_have(self.entries@, atoms@[k]));
                            }
                        }
                        assert(strictly_sorted(self.entries@[n].tokens@));
                    }
                },
            }
            j = j + 1;
        }
        proof {
            assert(atoms@.take(atoms.len() as int) =~= atoms@);
        }
        self.indexed = Ghost(new_ix);
        proof {
            assert forall|t: TokenId, k: int|
                new_ix.contains(t) && 0 <= k < ta[t as int].len() implies entries_have(self.entries@, #[trigger] ta[t as int][k]) by {
                if !old_ix.contains(t) {
                    assert(t == id);
                    assert(atoms@[k] == ta[t as int][k]);
                    assert(entries_have(self.entries@, atoms@[k]));
                } else {
                    assert(entries_have(self.entries@, ta[t as int][k]));
                }
            }
        }
    }

    /// Removes the given tokens from the index.
    pub fn remove_tokens(&mut self, ids: &Vec<TokenId>, tokens: &Vec<Token>)
        requires
            old(self).wf(crate::token::atoms_seq(tokens@)),
            forall|k: int| 0 <= k < ids.len() ==> #[trigger] ids@[k] < tokens.len(),
        ensures
            final(self).wf(crate::token::atoms_seq(tokens@)),
            final(self).indexed() == old(self).indexed().difference(ids@.to_set()),
    {
        let ghost ta = crate::token::atoms_seq(tokens@);
        let mut n: usize = 0;
        while n < ids.len()
            invariant
                n <= ids.len(),
                ta == crate::token::atoms_seq(tokens@),
                forall|k: int| 0 <= k < ids.len() ==> #[trigger] ids@[k] < tokens.len(),
                self.wf(ta),
                self.indexed() == old(self).indexed().difference(ids@.take(n as int).to_set()),
            decreases ids.len() - n,
        {
            let id = ids[n];
            self.remove_one(id, tokens);
            proof {
                assert(ids@.take(n + 1) =~= ids@.take(n as int).push(id));
                lemma_push_to_set(ids@.take(n as int), id);
                assert(self.indexed() =~= old(self).indexed().difference(ids@.take(n + 1).to_set()));
            }
            n = n + 1;
        }
        assert(ids@.take(ids.len() as int) =~= ids@);
    }

    fn remove_one(&mut self, id: TokenId, tokens: &Vec<Token>)
        requires
            old(self).wf(crate::token::atoms_seq(tokens@)),
            id < tokens.len(),
        ensures
            final(self).wf(crate::token::atoms_seq(tokens@)),
            final(self).indexed() == old(self).indexed().remove(id),
    {
        let ghost ta = crate::token::atoms_seq(tokens@);
        let atoms = &tokens[id].atoms;
        assert(atoms@ == ta[id as int]);
        let ghost old_ix = self.indexed@;
        let ghost new_ix = old_ix.remove(id);
        let mut j: usize = 0;
        while j < atoms.len()
            invariant
                j <= atoms.len(),
                atoms@ == ta[id as int],
                id < ta.len(),
                self.indexed@ == old_ix,
                forall|t: TokenId| #[trigger] old_ix.contains(t) ==> t < ta.len(),
                forall|i: int, k: int|
                    0 <= i < k < self.entries.len() ==> self.entries@[i].atom != self.entries@[k].atom,
                forall|i: int| 0 <= i < self.entries.len() ==> strictly_sorted(#[trigger] self.entries@[i].tokens@),
                forall|i: int, t: TokenId|
                    0 <= i < self.entries.len() ==> (#[trigger] self.entries@[i].tokens@.contains(t) <==> (
                    old_ix.contains(t) && ta[t as int].contains(self.entries@[i].atom)
                    && !(t == id && atoms@.take(j as int).contains(self.entries@[i].atom)))),
                forall|t: TokenId, k: int|
                    old_ix.contains(t) && 0 <= k < ta[t as int].len() ==> entries_have(self.entries@, #[trigger] ta[t as int][k]),
            decreases atoms.len() - j,
        {
            let a = atoms[j];
            let ghost before = self.entries@;
            proof {
                assert(atoms@.take(j + 1) =~= atoms@.take(j as int).push(a));
            }
            match self.find(a) {
                Some(i) => {
                    let e = &mut self.entries[i];
                    sorted_remove(&mut e.tokens, id);
                    proof {
                        assert forall|ii: int, t: TokenId|
                            0 <= ii < self.entries.len() implies (#[trigger] self.entries@[ii].tokens@.contains(t) <==> (
                            old_ix.contains(t) && ta[t as int].contains(self.entries@[ii].atom)
                            && !(t == id && atoms@.take(j + 1).contains(self.entries@[ii].atom)))) by {
                            assert(atoms@.take(j + 1)[j as int] == a);
                            if ii != i {
                                assert(self.entries@[ii] == before[ii]);
                                if atoms@.take(j + 1).contains(self.entries@[ii].atom) {
                                    let kk = choose|kk: int| 0 <= kk < j + 1 && #[trigger] atoms@.take(j + 1)[kk] == self.entries@[ii].atom;
                                    assert(atoms@.take(j as int)[kk] == self.entries@[ii].atom);
                                }
                            }
                        }
                        assert forall|t: TokenId, k: int|
                            old_ix.contains(t) && 0 <= k < ta[t as int].len() implies entries_have(self.entries@, #[trigger] ta[t as int][k]) by {
                            let ii = choose|ii: int| 0 <= ii < before.len() && #[trigger] before[ii].atom == ta[t as int][k];
                            assert(self.entries@[ii].atom == before[ii].atom);
                            assert(entries_have(self.entries@, ta[t as int][k]));
                        }
                    }
                },
                None => {
                    proof {
                        assert forall|ii: int, t: TokenId|
                            0 <= ii < self.entries.len() implies (#[trigger] self.entries@[ii].tokens@.contains(t) <==> (
                            old_ix.contains(t) && ta[t as int].contains(self.entries@[ii].atom)
                            && !(t == id && atoms@.take(j + 1).contains(self.entries@[ii].atom)))) by {
                            assert(atoms@.take(j + 1)[j as int] == a);
                            if atoms@.take(j + 1).contains(self.entries@[ii].atom) {
                                let kk = choose|kk: int| 0 <= kk < j + 1 && #[trigger] atoms@.take(j + 1)[kk] == self.entries@[ii].atom;
                                if kk < j {
                                    assert(atoms@.take(j as int)[kk] == self.entries@[ii].atom);
                                }
                            }
                        }
                    }
                },
            }
            j = j + 1;
        }
        self.indexed = Ghost(new_ix);
        proof {
            assert(atoms@.take(atoms.len() as int) =~= atoms@);
        }
    }
}

/// Removes `x` from a strictly increasing vector, if present.
fn sorted_remove(v: &mut Vec<TokenId>, x: TokenId)
    requires
        strictly_sorted(old(v)@),
    ensures
        strictly_sorted(final(v)@),
        forall|t: TokenId| #[trigger] final(v)@.contains(t) <==> (old(v)@.contains(t) && t != x),
{
    let mut p: usize = 0;
    while p < v.len() && v[p] < x
        invariant
            p <= v.len(),
            forall|k: int| 0 <= k < p ==> v@[k] < x,
        decreases v.len() - p,
    {
        p = p + 1;
    }
    if p < v.len() && v[p] == x {
        let ghost before = v@;
        v.remove(p);
        proof {
            assert forall|t: TokenId| #[trigger] v@.contains(t) <==> (before.contains(t) && t != x) by {
                if v@.contains(t) {
                    let k = choose|k: int| 0 <= k < v@.len() && #[trigger] v@[k] == t;
                    if k < p {
                        assert(before[k] == t);
                    } else {
                        assert(before[k + 1] == t);
                    }
                }
                if before.contains(t) && t != x {
                    let k = choose|k: int| 0 <= k < before.len() && #[trigger] before[k] == t;
                    if k < p {
                        assert(v@[k] == t);
                    } else {
                        assert(k != p);
                        assert(v@[k - 1] == t);
                    }
                }
            }
        }
    } else {
        proof {
            assert forall|t: TokenId| #[trigger] v@.contains(t) implies t != x by {
                let k = choose|k: int| 0 <= k < v@.len() && #[trigger] v@[k] == t;
                if k >= p {
                    assert(v@[k] >= v@[p as int]);
                }
            }
        }
    }
}

/// The elements of a sequence with one more element.
pub proof fn lemma_push_to_set(s: Seq<TokenId>, x: TokenId)
    ensures
        s.push(x).to_set() == s.to_set().insert(x),
{
    assert forall|y: TokenId| s.push(x).contains(y) <==> (s.contains(y) || y == x) by {
        if s.push(x).contains(y) {
            let k = choose|k: int| 0 <= k < s.push(x).len() && #[trigger] s.push(x)[k] == y;
            if k < s.len() {
                assert(s[k] == y);
            }
        }
        if s.contains(y) {
            let k = choose|k: int| 0 <= k < s.len() && #[trigger] s[k] == y;
            assert(s.push(x)[k] == y);
        }
        if y == x {
            assert(s.push(x)[s.len() as int] == x);
        }
    }
    assert(s.push(x).to_set() =~= s.to_set().insert(x));
}

/// Inserts `x` into a strictly increasing vector, unless present.
fn sorted_insert(v: &mut Vec<TokenId>, x: TokenId)
    requires
        strictly_sorted(old(v)@),
    ensures
        strictly_sorted(final(v)@),
        forall|t: TokenId| #[trigger] final(v)@.contains(t) <==> (old(v)@.contains(t) || t == x),
{
    let mut p: usize = 0;
    while p < v.len() && v[p] < x
        invariant
            p <= v.len(),
            forall|k: int| 0 <= k < p ==> v@[k] < x,
        decreases v.len() - p,
    {
        p = p + 1;
    }
    if p < v.len() && v[p] == x {
        return;
    }
    let ghost before = v@;
    v.insert(p, x);
    proof {
        assert forall|t: TokenId| #[trigger] v@.contains(t) <==> (before.contains(t) || t == x) by {
            if v@.contains(t) {
                let k = choose|k: int| 0 <= k < v@.len() && #[trigger] v@[k] == t;
                if k < p {
                    assert(before[k] == t);
                } else if k > p {
                    assert(before[k - 1] == t);
                }
            }
            if before.contains(t) {
                let k = choose|k: int| 0 <= k < before.len() && #[trigger] before[k] == t;
                if k < p {
                    assert(v@[k] == t);
                } else {
                    assert(v@[k + 1] == t);
                }
            }
            if t == x {
                assert(v@[p as int] == x);
            }
        }
    }
}

} // verus!
