//! Substitution rules and a small parser for Wolfram-Language-like rule syntax.

use vstd::prelude::*;

use vstd::string::StringSliceAdditionalSpecFns;

use crate::error::Error;
use crate::text::push_char;
use crate::text::push_decimal;

verus! {

/// An atom (hypergraph vertex). Positive values are concrete atoms, negative
/// values are pattern variables (only meaningful inside rules). Zero is invalid.
pub type Atom = i64;

/// A substitution rule: a list of input pattern hyperedges and a list of
/// output hyperedges. Negative atoms are pattern variables; a variable that
/// appears only in the outputs creates a fresh atom each time the rule fires.
#[derive(Debug, Clone, PartialEq, Eq)]
pub struct Rule {
    pub inputs: Vec<Vec<Atom>>,
    pub outputs: Vec<Vec<Atom>>,
}

/// The mathematical content of a list of hyperedges.
pub open spec fn edges_of(v: Vec<Vec<Atom>>) -> Seq<Seq<Atom>> {
    v@.map_values(|e: Vec<Atom>| e@)
}

/// Whether some edge of the list holds the atom `a`.
pub open spec fn edges_contain(es: Seq<Seq<Atom>>, a: Atom) -> bool {
    exists|i: int, j: int| 0 <= i < es.len() && 0 <= j < es[i].len() && es[i][j] == a
}

/// The conventions every rule obeys: at least one input edge and no atom 0.
pub open spec fn valid_rule(inputs: Seq<Seq<Atom>>, outputs: Seq<Seq<Atom>>) -> bool {
    &&& inputs.len() > 0
    &&& !edges_contain(inputs, 0)
    &&& !edges_contain(outputs, 0)
}

impl Rule {
    /// The input patterns as sequences.
    pub open spec fn spec_inputs(&self) -> Seq<Seq<Atom>> {
        edges_of(self.inputs)
    }

    /// The output patterns as sequences.
    pub open spec fn spec_outputs(&self) -> Seq<Seq<Atom>> {
        edges_of(self.outputs)
    }

    /// The rule obeys the conventions (see [`valid_rule`]).
    pub open spec fn wf(&self) -> bool {
        valid_rule(self.spec_inputs(), self.spec_outputs())
    }

    /// A copy of the rule.
    pub fn copy(&self) -> (r: Rule)
        ensures
            r.spec_inputs() == self.spec_inputs(),
            r.spec_outputs() == self.spec_outputs(),
    {
        Rule { inputs: copy_edges(&self.inputs), outputs: copy_edges(&self.outputs) }
    }

    /// Creates a rule, validating the conventions: at least one input edge,
    /// and no zero atoms anywhere.
    pub fn new(inputs: Vec<Vec<Atom>>, outputs: Vec<Vec<Atom>>) -> (r: Result<Rule, Error>)
        ensures
            r is Ok <==> valid_rule(edges_of(inputs), edges_of(outputs)),
            r matches Ok(rule) ==> rule.spec_inputs() == edges_of(inputs)
                && rule.spec_outputs() == edges_of(outputs),
            r matches Err(e) ==> e is InvalidRule,
            r matches Err(Error::InvalidRule(m)) ==> (if edges_of(inputs).len() == 0 {
                m@ == "rule must have at least one input edge"@
            } else {
                m@ == "atom 0 is invalid; use positive atoms (concrete) or negative (variables)"@
            }),
    {
        if inputs.len() == 0 {
            return Err(Error::InvalidRule(String::from_str("rule must have at least one input edge")));
        }
        if edges_hold_zero(&inputs) || edges_hold_zero(&outputs) {
            return Err(Error::InvalidRule(String::from_str(
                "atom 0 is invalid; use positive atoms (concrete) or negative (variables)",
            )));
        }
        Ok(Rule { inputs, outputs })
    }

    /// Parses a rule written in Wolfram-Language-like syntax, e.g.
    ///
    /// ```text
    /// {{x, y}} -> {{x, y}, {y, z}}
    /// {{a_, b_}, {b_, c_}} :> {{a, c}}
    /// {{1}, {2}} -> {{3}}
    /// ```
    ///
    /// Identifiers (with or without a trailing `_`) are pattern variables and
    /// are assigned negative atom ids in order of first appearance. Integer
    /// literals are concrete atoms.
    pub fn parse(s: &str) -> (r: Result<Rule, Error>)
        ensures
            r is Ok <==> parse_rule_spec(s.spec_bytes()) is Some,
            r matches Ok(rule) ==> Some((rule.spec_inputs(), rule.spec_outputs())) == parse_rule_spec(
                s.spec_bytes(),
            ),
            r matches Err(e) ==> (if rule_resolved_spec(s.spec_bytes()) is Some {
                e is InvalidRule
            } else {
                e is Parse
            }),
    {
        let tokens = lex(s)?;
        let mut p = Parser { tokens: &tokens, pos: 0 };
        let inputs = p.edge_list()?;
        p.arrow()?;
        let outputs = p.edge_list()?;
        p.end()?;
        let mut vars: Vec<Vec<u8>> = Vec::new();
        assert(vars_view(vars@) =~= Seq::<Seq<u8>>::empty());
        let ins = match resolve_edges(&mut vars, &inputs) {
            Some(x) => x,
            None => {
                return Err(parse_error("too many distinct variables"));
            },
        };
        let outs = match resolve_edges(&mut vars, &outputs) {
            Some(x) => x,
            None => {
                return Err(parse_error("too many distinct variables"));
            },
        };
        proof {
            lemma_int_edges(ins@);
            lemma_int_edges(outs@);
        }
        Rule::new(ins, outs)
    }
}

/// Atom edges read as integers and back give the same edges.
proof fn lemma_int_edges(v: Seq<Vec<Atom>>)
    ensures
        int_edges(v.map_values(|e: Vec<Atom>| e@.map_values(|a: Atom| a as int))) == v.map_values(|e: Vec<Atom>| e@),
{
    let l = int_edges(v.map_values(|e: Vec<Atom>| e@.map_values(|a: Atom| a as int)));
    let r = v.map_values(|e: Vec<Atom>| e@);
    assert forall|i: int| 0 <= i < v.len() implies l[i] == r[i] by {
        assert(l[i] =~= v[i]@);
    }
    assert(l =~= r);
}

/// Parses an initial state written as a list of hyperedges of integers,
/// e.g. `{{1, 2}, {2, 3}}`.
pub fn parse_state(s: &str) -> (r: Result<Vec<Vec<Atom>>, Error>)
    ensures
        r is Ok <==> parse_state_spec(s.spec_bytes()) is Some,
        r matches Ok(v) ==> parse_state_spec(s.spec_bytes()) == Some(edges_of(v)),
        r matches Err(e) ==> e is Parse,
{
    let tokens = lex(s)?;
    let mut p = Parser { tokens: &tokens, pos: 0 };
    let edges = p.edge_list()?;
    p.end()?;
    let ghost ev = raw_edges_view(edges@);
    assert(state_syntax_spec(s.spec_bytes()) == Some(ev));
    let mut out: Vec<Vec<Atom>> = Vec::new();
    let mut i: usize = 0;
    while i < edges.len()
        invariant
            i <= edges.len(),
            ev == raw_edges_view(edges@),
            ev.len() == edges@.len(),
            state_syntax_spec(s.spec_bytes()) == Some(ev),
            out@.len() == i,
            forall|k: int, j: int| 0 <= k < i && 0 <= j < ev[k].len() ==> raw_is_int(#[trigger] ev[k][j]),
            forall|k: int| 0 <= k < i ==> #[trigger] out@[k]@ == ev[k].map_values(|a: RawAtomSpec| (a->Int_0) as Atom),
        decreases edges.len() - i,
    {
        let e = &edges[i];
        let mut row: Vec<Atom> = Vec::new();
        let mut j: usize = 0;
        while j < e.len()
            invariant
                j <= e.len(),
                i < edges.len(),
                e == edges@[i as int],
                ev == raw_edges_view(edges@),
                ev.len() == edges@.len(),
                ev[i as int] == e@.map_values(|a: RawAtom| a@),
                state_syntax_spec(s.spec_bytes()) == Some(ev),
                row@.len() == j,
                forall|jj: int| 0 <= jj < j ==> raw_is_int(#[trigger] ev[i as int][jj]),
                forall|jj: int| 0 <= jj < j ==> #[trigger] row@[jj] == (ev[i as int][jj]->Int_0) as Atom,
            decreases e.len() - j,
        {
            match &e[j] {
                RawAtom::Int(n) => {
                    row.push(*n);
                },
                RawAtom::Var(name) => {
                    proof {
                        assert(!raw_is_int(ev[i as int][j as int]));
                    }
                    let mut msg = String::from_str("initial states must contain integer atoms only, found `");
                    let mut k: usize = 0;
                    while k < name.len()
                        decreases name.len() - k,
                    {
                        push_char(&mut msg, name[k] as char);
                        k = k + 1;
                    }
                    msg.append("`");
                    return Err(Error::Parse(msg));
                },
            }
            j = j + 1;
        }
        proof {
            assert(row@ =~= ev[i as int].map_values(|a: RawAtomSpec| (a->Int_0) as Atom));
        }
        out.push(row);
        i = i + 1;
    }
    proof {
        let spec_v = ev.map_values(|e: Seq<RawAtomSpec>| e.map_values(|a: RawAtomSpec| (a->Int_0) as Atom));
        assert(edges_of(out) =~= spec_v);
    }
    Ok(out)
}

/// A copy of each edge.
pub fn copy_edges(v: &Vec<Vec<Atom>>) -> (r: Vec<Vec<Atom>>)
    ensures
        edges_of(r) == edges_of(*v),
{
    let mut out: Vec<Vec<Atom>> = Vec::new();
    let mut i: usize = 0;
    while i < v.len()
        invariant
            i <= v.len(),
            edges_of(out) == edges_of(*v).take(i as int),
        decreases v.len() - i,
    {
        let e = v[i].clone();
        let ghost before = edges_of(out);
        proof {
            assert(e@ == v@[i as int]@);
        }
        out.push(e);
        proof {
            assert(edges_of(out) =~= before.push(e@));
            assert(edges_of(*v).take(i + 1) =~= edges_of(*v).take(i as int).push(e@));
        }
        i = i + 1;
    }
    assert(edges_of(*v).take(v.len() as int) =~= edges_of(*v));
    out
}

/// Whether some edge holds the atom 0.
pub(crate) fn edges_hold_zero(edges: &Vec<Vec<Atom>>) -> (r: bool)
    ensures
        r == edges_contain(edges_of(*edges), 0),
{
    let mut i: usize = 0;
    while i < edges.len()
        invariant
            i <= edges.len(),
            forall|k: int, j: int| 0 <= k < i && 0 <= j < edges@[k]@.len() ==> edges@[k]@[j] != 0,
        decreases edges.len() - i,
    {
        let e = &edges[i];
        let mut j: usize = 0;
        while j < e.len()
            invariant
                j <= e.len(),
                i < edges.len(),
                e == edges@[i as int],
                i < edges.len(),
                forall|jj: int| 0 <= jj < j ==> e@[jj] != 0,
            decreases e.len() - j,
        {
            if e[j] == 0 {
                proof {
                    let es = edges_of(*edges);
                    assert(es[i as int][j as int] == 0);
                }
                return true;
            }
            j = j + 1;
        }
        i = i + 1;
    }
    proof {
        let es = edges_of(*edges);
        assert forall|k: int, jj: int| 0 <= k < es.len() && 0 <= jj < es[k].len() implies es[k][jj] != 0 by {
            assert(es[k] == edges@[k]@);
        }
    }
    false
}

// ------------------------------------------------------------------ lexing

/// A parsed atom before variable resolution: an integer literal or a
/// variable name (as bytes).
pub ghost enum RawAtomSpec {
    Int(int),
    Var(Seq<u8>),
}

/// A lexical token.
pub ghost enum TokSpec {
    Open,
    Close,
    Comma,
    Arrow,
    Atom(RawAtomSpec),
}

/// Whitespace skipped between tokens: space, tab, newline, carriage return.
pub open spec fn is_space_byte(c: u8) -> bool {
    c == 32 || c == 9 || c == 10 || c == 13
}

/// An ASCII decimal digit.
pub open spec fn is_digit_byte(c: u8) -> bool {
    48 <= c <= 57
}

/// An ASCII letter.
pub open spec fn is_alpha_byte(c: u8) -> bool {
    (65 <= c <= 90) || (97 <= c <= 122)
}

/// A byte that may continue an identifier: letter, digit or `_`.
pub open spec fn is_ident_byte(c: u8) -> bool {
    is_alpha_byte(c) || is_digit_byte(c) || c == 95
}

/// End of the run of digits starting at `i`.
pub open spec fn digit_run_end(b: Seq<u8>, i: int) -> int
    decreases b.len() - i,
{
    if 0 <= i < b.len() && is_digit_byte(b[i]) {
        digit_run_end(b, i + 1)
    } else {
        i
    }
}

/// End of the run of identifier bytes starting at `i`.
pub open spec fn ident_run_end(b: Seq<u8>, i: int) -> int
    decreases b.len() - i,
{
    if 0 <= i < b.len() && is_ident_byte(b[i]) {
        ident_run_end(b, i + 1)
    } else {
        i
    }
}

/// The value of a sequence of decimal digits.
pub open spec fn digits_value(d: Seq<u8>) -> int
    decreases d.len(),
{
    if d.len() == 0 {
        0
    } else {
        digits_value(d.drop_last()) * 10 + (d.last() - 48)
    }
}

/// An identifier with one trailing `_` (the `a_` blank syntax) removed.
pub open spec fn strip_blank(name: Seq<u8>) -> Seq<u8> {
    if name.len() > 0 && name.last() == 95 {
        name.drop_last()
    } else {
        name
    }
}

pub proof fn lemma_digit_run_end(b: Seq<u8>, i: int)
    requires
        0 <= i <= b.len(),
    ensures
        i <= digit_run_end(b, i) <= b.len(),
        forall|k: int| i <= k < digit_run_end(b, i) ==> is_digit_byte(#[trigger] b[k]),
        digit_run_end(b, i) < b.len() ==> !is_digit_byte(b[digit_run_end(b, i)]),
    decreases b.len() - i,
{
    if i < b.len() && is_digit_byte(b[i]) {
        lemma_digit_run_end(b, i + 1);
    }
}

pub proof fn lemma_ident_run_end(b: Seq<u8>, i: int)
    requires
        0 <= i <= b.len(),
    ensures
        i <= ident_run_end(b, i) <= b.len(),
        forall|k: int| i <= k < ident_run_end(b, i) ==> is_ident_byte(#[trigger] b[k]),
        ident_run_end(b, i) < b.len() ==> !is_ident_byte(b[ident_run_end(b, i)]),
    decreases b.len() - i,
{
    if i < b.len() && is_ident_byte(b[i]) {
        lemma_ident_run_end(b, i + 1);
    }
}

/// Prepends a token to a lexing result.
pub open spec fn cons_tok(t: TokSpec, rest: Option<Seq<TokSpec>>) -> Option<Seq<TokSpec>> {
    match rest {
        Some(r) => Some(seq![t] + r),
        None => None,
    }
}

/// The tokens of `b` from position `i` on, or `None` on a lexical error.
pub open spec fn lex_from(b: Seq<u8>, i: int) -> Option<Seq<TokSpec>>
    decreases b.len() - i,
{
    if i < 0 || i >= b.len() {
        Some(Seq::empty())
    } else {
        let c = b[i];
        if is_space_byte(c) {
            lex_from(b, i + 1)
        } else if c == 123 {
            cons_tok(TokSpec::Open, lex_from(b, i + 1))
        } else if c == 125 {
            cons_tok(TokSpec::Close, lex_from(b, i + 1))
        } else if c == 44 {
            cons_tok(TokSpec::Comma, lex_from(b, i + 1))
        } else if c == 45 || c == 58 {
            if i + 1 < b.len() && b[i + 1] == 62 {
                cons_tok(TokSpec::Arrow, lex_from(b, i + 2))
            } else {
                None
            }
        } else if is_digit_byte(c) {
            let e = digit_run_end(b, i);
            proof {
                lemma_digit_run_end(b, i + 1);
            }
            let v = digits_value(b.subrange(i, e));
            if v > i64::MAX {
                None
            } else {
                cons_tok(TokSpec::Atom(RawAtomSpec::Int(v)), lex_from(b, e))
            }
        } else if is_alpha_byte(c) || c == 95 {
            let e = ident_run_end(b, i);
            proof {
                lemma_ident_run_end(b, i + 1);
            }
            let name = strip_blank(b.subrange(i, e));
            if name.len() == 0 {
                None
            } else {
                cons_tok(TokSpec::Atom(RawAtomSpec::Var(name)), lex_from(b, e))
            }
        } else {
            None
        }
    }
}

/// An atom as the lexer produces it.
pub enum RawAtom {
    Int(i64),
    Var(Vec<u8>),
}

/// A token as the lexer produces it.
pub enum Tok {
    Open,
    Close,
    Comma,
    Arrow,
    Atom(RawAtom),
}

impl View for RawAtom {
    type V = RawAtomSpec;

    open spec fn view(&self) -> RawAtomSpec {
        match self {
            RawAtom::Int(n) => RawAtomSpec::Int(*n as int),
            RawAtom::Var(v) => RawAtomSpec::Var(v@),
        }
    }
}

impl View for Tok {
    type V = TokSpec;

    open spec fn view(&self) -> TokSpec {
        match self {
            Tok::Open => TokSpec::Open,
            Tok::Close => TokSpec::Close,
            Tok::Comma => TokSpec::Comma,
            Tok::Arrow => TokSpec::Arrow,
            Tok::Atom(a) => TokSpec::Atom(a@),
        }
    }
}

/// The content of a token list.
pub open spec fn toks_view(t: Seq<Tok>) -> Seq<TokSpec> {
    t.map_values(|x: Tok| x@)
}

/// The content of a list of raw edges.
pub open spec fn raw_edges_view(es: Seq<Vec<RawAtom>>) -> Seq<Seq<RawAtomSpec>> {
    es.map_values(|e: Vec<RawAtom>| e@.map_values(|a: RawAtom| a@))
}

impl RawAtom {
    fn copy(&self) -> (r: RawAtom)
        ensures
            r@ == self@,
    {
        match self {
            RawAtom::Int(n) => RawAtom::Int(*n),
            RawAtom::Var(v) => {
                let w = v.clone();
                assert(w@ =~= v@);
                RawAtom::Var(w)
            },
        }
    }
}

fn parse_error(msg: &str) -> (e: Error)
    ensures
        e is Parse,
{
    Error::Parse(String::from_str(msg))
}

fn parse_error_at(msg: &str, at: usize) -> (e: Error)
    ensures
        e is Parse,
{
    let mut s = String::from_str(msg);
    push_decimal(&mut s, at as u64);
    Error::Parse(s)
}

fn unexpected_character(c: u8, at: usize) -> (e: Error)
    ensures
        e is Parse,
{
    let mut s = String::from_str("unexpected character `");
    push_char(&mut s, c as char);
    s.append("` at ");
    push_decimal(&mut s, at as u64);
    Error::Parse(s)
}

proof fn lemma_cons_tok(prefix: Seq<TokSpec>, t: TokSpec, rest: Option<Seq<TokSpec>>)
    ensures
        prepend_toks(prefix, cons_tok(t, rest)) == prepend_toks(prefix.push(t), rest),
{
    match rest {
        Some(r) => {
            assert(prefix + (seq![t] + r) =~= prefix.push(t) + r);
        },
        None => {},
    }
}

/// A token prefix followed by a lexing result.
pub open spec fn prepend_toks(prefix: Seq<TokSpec>, rest: Option<Seq<TokSpec>>) -> Option<Seq<TokSpec>> {
    match rest {
        Some(r) => Some(prefix + r),
        None => None,
    }
}

fn lex(s: &str) -> (r: Result<Vec<Tok>, Error>)
    ensures
        r is Ok <==> lex_from(s.spec_bytes(), 0) is Some,
        r matches Ok(t) ==> lex_from(s.spec_bytes(), 0) == Some(toks_view(t@)),
        r matches Err(e) ==> e is Parse,
{
    let bytes = s.as_bytes();
    let ghost b = s.spec_bytes();
    let mut out: Vec<Tok> = Vec::new();
    let mut i: usize = 0;
    while i < bytes.len()
        invariant
            bytes@ == b,
            b == s.spec_bytes(),
            i <= bytes.len(),
            lex_from(b, 0) == prepend_toks(toks_view(out@), lex_from(b, i as int)),
        decreases bytes.len() - i,
    {
        let c = bytes[i];
        let ghost before = toks_view(out@);
        if c == 32 || c == 9 || c == 10 || c == 13 {
            i = i + 1;
        } else if c == 123 {
            out.push(Tok::Open);
            proof {
                lemma_cons_tok(before, TokSpec::Open, lex_from(b, i + 1));
                assert(toks_view(out@) =~= before.push(TokSpec::Open));
            }
            i = i + 1;
        } else if c == 125 {
            out.push(Tok::Close);
            proof {
                lemma_cons_tok(before, TokSpec::Close, lex_from(b, i + 1));
                assert(toks_view(out@) =~= before.push(TokSpec::Close));
            }
            i = i + 1;
        } else if c == 44 {
            out.push(Tok::Comma);
            proof {
                lemma_cons_tok(before, TokSpec::Comma, lex_from(b, i + 1));
                assert(toks_view(out@) =~= before.push(TokSpec::Comma));
            }
            i = i + 1;
        } else if c == 45 || c == 58 {
            if i + 1 < bytes.len() && bytes[i + 1] == 62 {
                out.push(Tok::Arrow);
                proof {
                    lemma_cons_tok(before, TokSpec::Arrow, lex_from(b, i + 2));
                    assert(toks_view(out@) =~= before.push(TokSpec::Arrow));
                }
                i = i + 2;
            } else {
                assert(lex_from(b, i as int) is None);
                return Err(unexpected_character(c, i));
            }
        } else if 48 <= c && c <= 57 {
            let start = i;
            let mut value: i64 = 0;
            proof {
                lemma_digit_run_end(b, i as int);
            }
            while i < bytes.len() && 48 <= bytes[i] && bytes[i] <= 57
                invariant
                    bytes@ == b,
                    b == s.spec_bytes(),
                    start <= i <= bytes.len(),
                    digit_run_end(b, start as int) == digit_run_end(b, i as int),
                    value as int == digits_value(b.subrange(start as int, i as int)),
                    value >= 0,
                    start < bytes.len(),
                    is_digit_byte(b[start as int]),
                    lex_from(b, 0) == prepend_toks(toks_view(out@), lex_from(b, start as int)),
                decreases bytes.len() - i,
            {
                let d = (bytes[i] - 48) as i64;
                assert(b.subrange(start as int, i + 1).drop_last() =~= b.subrange(start as int, i as int));
                assert(digits_value(b.subrange(start as int, i + 1)) == value * 10 + d);
                if value > (i64::MAX - d) / 10 {
                    proof {
                        assert(value * 10 + d > i64::MAX) by (nonlinear_arith)
                            requires
                                value > (i64::MAX - d) / 10,
                                0 <= d <= 9,
                        ;
                        lemma_digit_run_end(b, i as int);
                        lemma_digit_run_end(b, start as int);
                        lemma_digits_value_grows(b, start as int, i + 1, digit_run_end(b, start as int));
                        assert(lex_from(b, start as int) is None);
                    }
                    return Err(parse_error_at("invalid integer at ", start));
                }
                assert(value * 10 + d <= i64::MAX) by (nonlinear_arith)
                    requires
                        value <= (i64::MAX - d) / 10,
                        0 <= d <= 9,
                        value >= 0,
                ;
                value = value * 10 + d;
                i = i + 1;
            }
            out.push(Tok::Atom(RawAtom::Int(value)));
            proof {
                let e = digit_run_end(b, start as int);
                assert(e == i);
                lemma_cons_tok(before, TokSpec::Atom(RawAtomSpec::Int(value as int)), lex_from(b, i as int));
                assert(toks_view(out@) =~= before.push(TokSpec::Atom(RawAtomSpec::Int(value as int))));
            }
        } else if (65 <= c && c <= 90) || (97 <= c && c <= 122) || c == 95 {
            let start = i;
            proof {
                lemma_ident_run_end(b, i as int);
            }
            let mut name: Vec<u8> = Vec::new();
            while i < bytes.len() && ((65 <= bytes[i] && bytes[i] <= 90) || (97 <= bytes[i] && bytes[i]
                <= 122) || (48 <= bytes[i] && bytes[i] <= 57) || bytes[i] == 95)
                invariant
                    bytes@ == b,
                    b == s.spec_bytes(),
                    start <= i <= bytes.len(),
                    ident_run_end(b, start as int) == ident_run_end(b, i as int),
                    name@ == b.subrange(start as int, i as int),
                decreases bytes.len() - i,
            {
                name.push(bytes[i]);
                assert(name@ =~= b.subrange(start as int, i + 1));
                i = i + 1;
            }
            if name.len() > 0 && name[name.len() - 1] == 95 {
                name.pop();
            }
            if name.len() == 0 {
                return Err(parse_error_at("invalid identifier at ", start));
            }
            proof {
                let e = ident_run_end(b, start as int);
                assert(e == i);
                assert(name@ =~= strip_blank(b.subrange(start as int, i as int)));
            }
            let ghost tk = TokSpec::Atom(RawAtomSpec::Var(name@));
            out.push(Tok::Atom(RawAtom::Var(name)));
            proof {
                lemma_cons_tok(before, tk, lex_from(b, i as int));
                assert(toks_view(out@) =~= before.push(tk));
            }
        } else {
            assert(lex_from(b, i as int) is None);
            return Err(unexpected_character(c, i));
        }
    }
    assert(toks_view(out@) + Seq::empty() =~= toks_view(out@));
    Ok(out)
}

/// Once the running value of a digit run is too large, the whole run's value
/// exceeds `i64::MAX`.
proof fn lemma_digits_value_grows(b: Seq<u8>, start: int, i: int, e: int)
    requires
        0 <= start < i <= e <= b.len(),
        forall|k: int| start <= k < e ==> is_digit_byte(#[trigger] b[k]),
        digits_value(b.subrange(start, i)) > i64::MAX,
    ensures
        digits_value(b.subrange(start, e)) > i64::MAX,
    decreases e - i,
{
    if i < e {
        let s = b.subrange(start, i + 1);
        assert(s.drop_last() =~= b.subrange(start, i));
        assert(digits_value(s) >= digits_value(b.subrange(start, i)) * 10);
        lemma_digits_value_grows(b, start, i + 1, e);
    }
}

// ----------------------------------------------------------------- parsing

/// The atoms of an edge after its opening `{`: `atom (, atom)* }`, appended to
/// `acc`; the edge and the position after it.
pub open spec fn parse_atoms(t: Seq<TokSpec>, p: int, acc: Seq<RawAtomSpec>) -> Option<(Seq<RawAtomSpec>, int)>
    decreases t.len() - p,
{
    if 0 <= p < t.len() && t[p] is Atom {
        let acc2 = acc.push(t[p]->Atom_0);
        if p + 1 < t.len() && t[p + 1] == TokSpec::Comma {
            parse_atoms(t, p + 2, acc2)
        } else if p + 1 < t.len() && t[p + 1] == TokSpec::Close {
            Some((acc2, p + 2))
        } else {
            None
        }
    } else {
        None
    }
}

/// One edge `{ atom, ... }` (possibly empty) starting at `p`.
pub open spec fn parse_edge(t: Seq<TokSpec>, p: int) -> Option<(Seq<RawAtomSpec>, int)> {
    if 0 <= p < t.len() && t[p] == TokSpec::Open {
        if p + 1 < t.len() && t[p + 1] == TokSpec::Close {
            Some((Seq::empty(), p + 2))
        } else {
            parse_atoms(t, p + 1, Seq::empty())
        }
    } else {
        None
    }
}

pub proof fn lemma_parse_atoms_advances(t: Seq<TokSpec>, p: int, acc: Seq<RawAtomSpec>)
    ensures
        parse_atoms(t, p, acc) matches Some((_, q)) ==> p < q <= t.len(),
    decreases t.len() - p,
{
    if 0 <= p < t.len() && t[p] is Atom {
        let acc2 = acc.push(t[p]->Atom_0);
        if p + 1 < t.len() && t[p + 1] == TokSpec::Comma {
            lemma_parse_atoms_advances(t, p + 2, acc2);
        }
    }
}

pub proof fn lemma_parse_edge_advances(t: Seq<TokSpec>, p: int)
    ensures
        parse_edge(t, p) matches Some((_, q)) ==> p < q <= t.len(),
{
    lemma_parse_atoms_advances(t, p + 1, Seq::empty());
}

/// The edges of an edge list after its opening `{`: `edge (, edge)* }`,
/// appended to `acc`.
pub open spec fn parse_edges(t: Seq<TokSpec>, p: int, acc: Seq<Seq<RawAtomSpec>>) -> Option<(Seq<Seq<RawAtomSpec>>, int)>
    decreases t.len() - p,
{
    match parse_edge(t, p) {
        Some((e, q)) => {
            proof {
                lemma_parse_edge_advances(t, p);
            }
            let acc2 = acc.push(e);
            if q < t.len() && t[q] == TokSpec::Comma {
                parse_edges(t, q + 1, acc2)
            } else if q < t.len() && t[q] == TokSpec::Close {
                Some((acc2, q + 1))
            } else {
                None
            }
        },
        None => None,
    }
}

/// An edge list `{ edge, ... }` (possibly empty) starting at `p`.
pub open spec fn parse_edge_list(t: Seq<TokSpec>, p: int) -> Option<(Seq<Seq<RawAtomSpec>>, int)> {
    if 0 <= p < t.len() && t[p] == TokSpec::Open {
        if p + 1 < t.len() && t[p + 1] == TokSpec::Close {
            Some((Seq::empty(), p + 2))
        } else {
            parse_edges(t, p + 1, Seq::empty())
        }
    } else {
        None
    }
}

/// The two edge lists of `inputs -> outputs` (or `:>`), before variables are
/// resolved; `None` on a lexical or syntax error.
pub open spec fn rule_syntax_spec(b: Seq<u8>) -> Option<(Seq<Seq<RawAtomSpec>>, Seq<Seq<RawAtomSpec>>)> {
    match lex_from(b, 0) {
        Some(t) => match parse_edge_list(t, 0) {
            Some((ins, p1)) => if 0 <= p1 < t.len() && t[p1] == TokSpec::Arrow {
                match parse_edge_list(t, p1 + 1) {
                    Some((outs, p2)) => if p2 == t.len() {
                        Some((ins, outs))
                    } else {
                        None
                    },
                    None => None,
                }
            } else {
                None
            },
            None => None,
        },
        None => None,
    }
}

/// The edge list of a state, before checking that its atoms are integers.
pub open spec fn state_syntax_spec(b: Seq<u8>) -> Option<Seq<Seq<RawAtomSpec>>> {
    match lex_from(b, 0) {
        Some(t) => match parse_edge_list(t, 0) {
            Some((es, p)) => if p == t.len() {
                Some(es)
            } else {
                None
            },
            None => None,
        },
        None => None,
    }
}

/// Index of `name` in `vars`, if present.
pub open spec fn var_index(vars: Seq<Seq<u8>>, name: Seq<u8>) -> Option<nat>
    decreases vars.len(),
{
    if vars.len() == 0 {
        None
    } else {
        match var_index(vars.drop_last(), name) {
            Some(i) => Some(i),
            None => if vars.last() == name {
                Some((vars.len() - 1) as nat)
            } else {
                None
            },
        }
    }
}

/// Resolves one atom given the variables seen so far: integers stay, the
/// k-th distinct variable name (0-based, first appearance) becomes `-(k+1)`.
/// `None` once more than `i64::MAX` distinct names would be needed.
pub open spec fn resolve_atom_spec(vars: Seq<Seq<u8>>, a: RawAtomSpec) -> Option<(int, Seq<Seq<u8>>)> {
    match a {
        RawAtomSpec::Int(n) => Some((n, vars)),
        RawAtomSpec::Var(name) => match var_index(vars, name) {
            Some(k) => Some((-(k + 1), vars)),
            None => if vars.len() < i64::MAX {
                Some((-(vars.len() + 1), vars.push(name)))
            } else {
                None
            },
        },
    }
}

/// Resolves an edge left to right.
pub open spec fn resolve_edge_spec(vars: Seq<Seq<u8>>, e: Seq<RawAtomSpec>) -> Option<(Seq<int>, Seq<Seq<u8>>)>
    decreases e.len(),
{
    if e.len() == 0 {
        Some((Seq::empty(), vars))
    } else {
        match resolve_edge_spec(vars, e.drop_last()) {
            Some((front, v1)) => match resolve_atom_spec(v1, e.last()) {
                Some((a, v2)) => Some((front.push(a), v2)),
                None => None,
            },
            None => None,
        }
    }
}

/// Resolves a list of edges left to right.
pub open spec fn resolve_edges_spec(vars: Seq<Seq<u8>>, es: Seq<Seq<RawAtomSpec>>) -> Option<(Seq<Seq<int>>, Seq<Seq<u8>>)>
    decreases es.len(),
{
    if es.len() == 0 {
        Some((Seq::empty(), vars))
    } else {
        match resolve_edges_spec(vars, es.drop_last()) {
            Some((front, v1)) => match resolve_edge_spec(v1, es.last()) {
                Some((e, v2)) => Some((front.push(e), v2)),
                None => None,
            },
            None => None,
        }
    }
}

/// The two edge lists of a rule text with variables resolved (inputs first);
/// `None` on a lexical or syntax error.
pub open spec fn rule_resolved_spec(b: Seq<u8>) -> Option<(Seq<Seq<Atom>>, Seq<Seq<Atom>>)> {
    match rule_syntax_spec(b) {
        Some((ins, outs)) => match resolve_edges_spec(Seq::empty(), ins) {
            Some((ri, v1)) => match resolve_edges_spec(v1, outs) {
                Some((ro, v2)) => Some((int_edges(ri), int_edges(ro))),
                None => None,
            },
            None => None,
        },
        None => None,
    }
}

/// Integer edges as atom edges.
pub open spec fn int_edges(es: Seq<Seq<int>>) -> Seq<Seq<Atom>> {
    es.map_values(|e: Seq<int>| e.map_values(|a: int| a as Atom))
}

/// The rule a text denotes: inputs and outputs with variables resolved in
/// order of first appearance (inputs first), provided the text is well
/// formed and the rule is valid.
pub open spec fn parse_rule_spec(b: Seq<u8>) -> Option<(Seq<Seq<Atom>>, Seq<Seq<Atom>>)> {
    match rule_resolved_spec(b) {
        Some((ins, outs)) => if valid_rule(ins, outs) {
            Some((ins, outs))
        } else {
            None
        },
        None => None,
    }
}

/// Whether an atom is an integer literal.
pub open spec fn raw_is_int(a: RawAtomSpec) -> bool {
    a is Int
}

/// The state a text denotes, provided it is a well-formed list of edges of
/// integer literals.
pub open spec fn parse_state_spec(b: Seq<u8>) -> Option<Seq<Seq<Atom>>> {
    match state_syntax_spec(b) {
        Some(es) => if forall|i: int, j: int| 0 <= i < es.len() && 0 <= j < es[i].len() ==> raw_is_int(#[trigger] es[i][j]) {
            Some(es.map_values(|e: Seq<RawAtomSpec>| e.map_values(|a: RawAtomSpec| (a->Int_0) as Atom)))
        } else {
            None
        },
        None => None,
    }
}

struct Parser<'a> {
    tokens: &'a Vec<Tok>,
    pos: usize,
}

impl<'a> Parser<'a> {
    spec fn t(&self) -> Seq<TokSpec> {
        toks_view(self.tokens@)
    }

    proof fn lemma_t_len(&self)
        ensures
            self.t().len() == self.tokens@.len(),
            self.tokens@.len() == self.tokens.len(),
            forall|i: int| 0 <= i < self.tokens@.len() ==> #[trigger] self.t()[i] == self.tokens@[i]@,
    {
    }

    fn is_open(&self) -> (r: bool)
        ensures
            r == (self.pos < self.t().len() && self.t()[self.pos as int] == TokSpec::Open),
    {
        self.pos < self.tokens.len() && matches!(self.tokens[self.pos], Tok::Open)
    }

    fn is_close(&self) -> (r: bool)
        ensures
            r == (self.pos < self.t().len() && self.t()[self.pos as int] == TokSpec::Close),
    {
        self.pos < self.tokens.len() && matches!(self.tokens[self.pos], Tok::Close)
    }

    fn is_comma(&self) -> (r: bool)
        ensures
            r == (self.pos < self.t().len() && self.t()[self.pos as int] == TokSpec::Comma),
    {
        self.pos < self.tokens.len() && matches!(self.tokens[self.pos], Tok::Comma)
    }

    /// `{ atom, atom, ... }` (possibly empty)
    fn edge(&mut self) -> (r: Result<Vec<RawAtom>, Error>)
        requires
            old(self).pos <= old(self).t().len(),
        ensures
            final(self).tokens == old(self).tokens,
            r is Ok <==> parse_edge(old(self).t(), old(self).pos as int) is Some,
            r matches Ok(e) ==> parse_edge(old(self).t(), old(self).pos as int) == Some(
                (e@.map_values(|a: RawAtom| a@), final(self).pos as int),
            ),
            r matches Err(e) ==> e is Parse,
    {
        let ghost t = self.t();
        let ghost p0 = self.pos as int;
        proof {
            self.lemma_t_len();
        }
        if !self.is_open() {
            return Err(parse_error("expected `{`"));
        }
        self.pos = self.pos + 1;
        let mut atoms: Vec<RawAtom> = Vec::new();
        if self.is_close() {
            self.pos = self.pos + 1;
            assert(atoms@.map_values(|a: RawAtom| a@) =~= Seq::<RawAtomSpec>::empty());
            return Ok(atoms);
        }
        assert(atoms@.map_values(|a: RawAtom| a@) =~= Seq::<RawAtomSpec>::empty());
        loop
            invariant
                self.tokens == old(self).tokens,
                t == self.t(),
                t == old(self).t(),
                p0 == old(self).pos as int,
                self.pos <= t.len(),
                parse_edge(t, p0) == parse_atoms(t, self.pos as int, atoms@.map_values(|a: RawAtom| a@)),
            decreases t.len() - self.pos,
        {
            let ghost acc = atoms@.map_values(|a: RawAtom| a@);
            proof {
                self.lemma_t_len();
            }
            if self.pos < self.tokens.len() {
                match &self.tokens[self.pos] {
                    Tok::Atom(a) => {
                        atoms.push(a.copy());
                        assert(atoms@.map_values(|a: RawAtom| a@) =~= acc.push(t[self.pos as int]->Atom_0));
                        self.pos = self.pos + 1;
                    },
                    _ => {
                        assert(!(t[self.pos as int] is Atom));
                        return Err(parse_error("expected atom"));
                    },
                }
            } else {
                return Err(parse_error("expected atom"));
            }
            if self.is_comma() {
                self.pos = self.pos + 1;
            } else if self.is_close() {
                self.pos = self.pos + 1;
                return Ok(atoms);
            } else {
                return Err(parse_error("expected `,` or `}`"));
            }
        }
    }

    /// `{ edge, edge, ... }` (possibly empty)
    fn edge_list(&mut self) -> (r: Result<Vec<Vec<RawAtom>>, Error>)
        requires
            old(self).pos <= old(self).t().len(),
        ensures
            final(self).tokens == old(self).tokens,
            r is Ok <==> parse_edge_list(old(self).t(), old(self).pos as int) is Some,
            r matches Ok(es) ==> parse_edge_list(old(self).t(), old(self).pos as int) == Some(
                (raw_edges_view(es@), final(self).pos as int),
            ),
            r matches Err(e) ==> e is Parse,
    {
        let ghost t = self.t();
        let ghost p0 = self.pos as int;
        proof {
            self.lemma_t_len();
        }
        if !self.is_open() {
            return Err(parse_error("expected `{`"));
        }
        self.pos = self.pos + 1;
        let mut edges: Vec<Vec<RawAtom>> = Vec::new();
        if self.is_close() {
            self.pos = self.pos + 1;
            assert(raw_edges_view(edges@) =~= Seq::<Seq<RawAtomSpec>>::empty());
            return Ok(edges);
        }
        assert(raw_edges_view(edges@) =~= Seq::<Seq<RawAtomSpec>>::empty());
        loop
            invariant
                self.tokens == old(self).tokens,
                t == self.t(),
                t == old(self).t(),
                p0 == old(self).pos as int,
                self.pos <= t.len(),
                parse_edge_list(t, p0) == parse_edges(t, self.pos as int, raw_edges_view(edges@)),
            decreases t.len() - self.pos,
        {
            let ghost acc = raw_edges_view(edges@);
            let ghost q0 = self.pos as int;
            proof {
                lemma_parse_edge_advances(t, q0);
                self.lemma_t_len();
            }
            let e = match self.edge() {
                Ok(e) => e,
                Err(err) => {
                    assert(parse_edges(t, q0, acc) is None);
                    return Err(err);
                },
            };
            let ghost ev = e@.map_values(|a: RawAtom| a@);
            edges.push(e);
            assert(raw_edges_view(edges@) =~= acc.push(ev));
            proof {
                self.lemma_t_len();
            }
            if self.is_comma() {
                self.pos = self.pos + 1;
            } else if self.is_close() {
                self.pos = self.pos + 1;
                return Ok(edges);
            } else {
                return Err(parse_error("expected `,` or `}`"));
            }
        }
    }

    fn arrow(&mut self) -> (r: Result<(), Error>)
        ensures
            final(self).tokens == old(self).tokens,
            r is Ok <==> (old(self).pos < old(self).t().len() && old(self).t()[old(self).pos as int]
                == TokSpec::Arrow),
            r is Ok ==> final(self).pos == old(self).pos + 1,
            r matches Err(e) ==> e is Parse,
    {
        if self.pos < self.tokens.len() && matches!(self.tokens[self.pos], Tok::Arrow) {
            self.pos = self.pos + 1;
            Ok(())
        } else {
            Err(parse_error_at("expected `->` or `:>` at token ", self.pos))
        }
    }

    fn end(&self) -> (r: Result<(), Error>)
        ensures
            r is Ok <==> self.pos == self.t().len(),
            r matches Err(e) ==> e is Parse,
    {
        if self.pos == self.tokens.len() {
            Ok(())
        } else {
            Err(parse_error("unexpected trailing input"))
        }
    }
}

fn bytes_eq(a: &Vec<u8>, b: &Vec<u8>) -> (r: bool)
    ensures
        r == (a@ == b@),
{
    if a.len() != b.len() {
        return false;
    }
    let mut i: usize = 0;
    while i < a.len()
        invariant
            a.len() == b.len(),
            i <= a.len(),
            forall|k: int| 0 <= k < i ==> a@[k] == b@[k],
        decreases a.len() - i,
    {
        if a[i] != b[i] {
            return false;
        }
        i = i + 1;
    }
    assert(a@ =~= b@);
    true
}

fn vars_position(vars: &Vec<Vec<u8>>, name: &Vec<u8>) -> (r: Option<usize>)
    ensures
        r matches Some(k) ==> var_index(vars_view(vars@), name@) == Some(k as nat) && k < vars.len(),
        r is None ==> var_index(vars_view(vars@), name@) is None,
{
    let mut i: usize = 0;
    while i < vars.len()
        invariant
            i <= vars.len(),
            var_index(vars_view(vars@).take(i as int), name@) is None,
        decreases vars.len() - i,
    {
        let ghost vv = vars_view(vars@);
        assert(vv.take(i + 1).drop_last() =~= vv.take(i as int));
        if bytes_eq(&vars[i], name) {
            proof {
                lemma_var_index_prefix(vv, name@, i + 1);
            }
            return Some(i);
        }
        i = i + 1;
    }
    assert(vars_view(vars@).take(vars.len() as int) =~= vars_view(vars@));
    None
}

/// `var_index` on a prefix that already holds the name agrees with the whole.
proof fn lemma_var_index_prefix(vars: Seq<Seq<u8>>, name: Seq<u8>, k: int)
    requires
        0 < k <= vars.len(),
        var_index(vars.take(k), name) is Some,
    ensures
        var_index(vars, name) == var_index(vars.take(k), name),
    decreases vars.len(),
{
    if k < vars.len() {
        assert(vars.drop_last().take(k) =~= vars.take(k));
        lemma_var_index_prefix(vars.drop_last(), name, k);
    } else {
        assert(vars.take(k) =~= vars);
    }
}

/// The variable names as sequences.
pub open spec fn vars_view(v: Seq<Vec<u8>>) -> Seq<Seq<u8>> {
    v.map_values(|x: Vec<u8>| x@)
}

fn resolve_atom(vars: &mut Vec<Vec<u8>>, a: &RawAtom) -> (r: Option<Atom>)
    requires
        old(vars).len() <= i64::MAX,
    ensures
        final(vars).len() <= i64::MAX,
        r matches Some(x) ==> resolve_atom_spec(vars_view(old(vars)@), a@) == Some(
            (x as int, vars_view(final(vars)@)),
        ),
        r is None ==> resolve_atom_spec(vars_view(old(vars)@), a@) is None,
{
    match a {
        RawAtom::Int(n) => Some(*n),
        RawAtom::Var(name) => {
            match vars_position(vars, name) {
                Some(k) => Some(-((k + 1) as i64)),
                None => {
                    if vars.len() as u64 >= 0x7fff_ffff_ffff_ffffu64 {
                        return None;
                    }
                    let ghost before = vars_view(vars@);
                    let n = name.clone();
                    assert(n@ =~= name@);
                    vars.push(n);
                    assert(vars_view(vars@) =~= before.push(name@));
                    Some(-(vars.len() as i64))
                },
            }
        },
    }
}

fn resolve_edges(vars: &mut Vec<Vec<u8>>, edges: &Vec<Vec<RawAtom>>) -> (r: Option<Vec<Vec<Atom>>>)
    requires
        old(vars).len() <= i64::MAX,
    ensures
        final(vars).len() <= i64::MAX,
        r matches Some(out) ==> resolve_edges_spec(vars_view(old(vars)@), raw_edges_view(edges@))
            == Some((out@.map_values(|e: Vec<Atom>| e@.map_values(|a: Atom| a as int)), vars_view(final(vars)@))),
        r is None ==> resolve_edges_spec(vars_view(old(vars)@), raw_edges_view(edges@)) is None,
{
    let ghost v0 = vars_view(vars@);
    let ghost ev = raw_edges_view(edges@);
    assert(ev.len() == edges@.len());
    let mut out: Vec<Vec<Atom>> = Vec::new();
    let mut i: usize = 0;
    while i < edges.len()
        invariant
            i <= edges.len(),
            ev == raw_edges_view(edges@),
            v0 == vars_view(old(vars)@),
            vars.len() <= i64::MAX,
            resolve_edges_spec(v0, ev.take(i as int)) == Some(
                (out@.map_values(|e: Vec<Atom>| e@.map_values(|a: Atom| a as int)), vars_view(vars@)),
            ),
        decreases edges.len() - i,
    {
        let e = &edges[i];
        let ghost eview = ev[i as int];
        let ghost vs = vars_view(vars@);
        let ghost outv = out@.map_values(|e: Vec<Atom>| e@.map_values(|a: Atom| a as int));
        assert(ev.take(i + 1).drop_last() =~= ev.take(i as int));
        assert(eview == e@.map_values(|a: RawAtom| a@));
        let mut row: Vec<Atom> = Vec::new();
        let mut j: usize = 0;
        while j < e.len()
            invariant
                j <= e.len(),
                i < edges.len(),
                e == edges@[i as int],
                eview == e@.map_values(|a: RawAtom| a@),
                ev == raw_edges_view(edges@),
                v0 == vars_view(old(vars)@),
                ev.len() == edges@.len(),
                eview == ev[i as int],
                resolve_edges_spec(v0, ev.take(i as int)) == Some((outv, vs)),
                vars.len() <= i64::MAX,
                resolve_edge_spec(vs, eview.take(j as int)) == Some(
                    (row@.map_values(|a: Atom| a as int), vars_view(vars@)),
                ),
            decreases e.len() - j,
        {
            assert(eview.take(j + 1).drop_last() =~= eview.take(j as int));
            let ghost rv = row@.map_values(|a: Atom| a as int);
            match resolve_atom(vars, &e[j]) {
                Some(x) => {
                    row.push(x);
                    assert(row@.map_values(|a: Atom| a as int) =~= rv.push(x as int));
                },
                None => {
                    proof {
                        assert(ev.take(i + 1).last() == eview);
                        assert(eview.take(j + 1).last() == eview[j as int]);
                        lemma_resolve_edge_none(vs, eview, j as int + 1);
                        assert(eview.take(e.len() as int) =~= eview);
                        assert(ev.take(i + 1).drop_last() =~= ev.take(i as int));
                        assert(resolve_edge_spec(vs, eview) is None);
                        assert(resolve_edges_spec(v0, ev.take(i + 1)) is None);
                        lemma_resolve_edges_none(v0, ev, i as int + 1);
                        assert(ev.take(edges.len() as int) =~= ev);
                    }
                    return None;
                },
            }
            j = j + 1;
        }
        assert(eview.take(e.len() as int) =~= eview);
        let ghost rowv = row@.map_values(|a: Atom| a as int);
        out.push(row);
        assert(out@.map_values(|e: Vec<Atom>| e@.map_values(|a: Atom| a as int)) =~= outv.push(rowv));
        i = i + 1;
    }
    assert(ev.take(edges.len() as int) =~= ev);
    Some(out)
}

proof fn lemma_resolve_edge_none(vars: Seq<Seq<u8>>, e: Seq<RawAtomSpec>, k: int)
    requires
        0 <= k <= e.len(),
        resolve_edge_spec(vars, e.take(k)) is None,
    ensures
        resolve_edge_spec(vars, e) is None,
    decreases e.len() - k,
{
    if k < e.len() {
        assert(e.take(k + 1).drop_last() =~= e.take(k));
        lemma_resolve_edge_none(vars, e, k + 1);
    } else {
        assert(e.take(k) =~= e);
    }
}

proof fn lemma_resolve_edges_none(vars: Seq<Seq<u8>>, es: Seq<Seq<RawAtomSpec>>, k: int)
    requires
        0 <= k <= es.len(),
        resolve_edges_spec(vars, es.take(k)) is None,
    ensures
        resolve_edges_spec(vars, es) is None,
    decreases es.len() - k,
{
    if k < es.len() {
        assert(es.take(k + 1).drop_last() =~= es.take(k));
        lemma_resolve_edges_none(vars, es, k + 1);
    } else {
        assert(es.take(k) =~= es);
    }
}

proof fn lemma_ident_run_to(b: Seq<u8>, k: int, e: int)
    requires
        0 <= k <= e <= b.len(),
        forall|j: int| k <= j < e ==> is_ident_byte(#[trigger] b[j]),
        e < b.len() ==> !is_ident_byte(b[e]),
    ensures
        ident_run_end(b, k) == e,
    decreases e - k,
{
    if k < e {
        lemma_ident_run_to(b, k + 1, e);
    }
}

/// Law: an identifier is a letter followed by any run of letters, digits
/// and `_`. Lexing at a letter takes the whole run, up to the first byte
/// that is none of these, as one pattern variable, named by the run less
/// one trailing `_`, and lexing goes on after the run.
pub proof fn identifiers_take_letters_digits_and_underscores(b: Seq<u8>, i: int, e: int)
    requires
        0 <= i < e <= b.len(),
        (65 <= b[i] <= 90) || (97 <= b[i] <= 122),
        forall|k: int|
            i <= k < e ==> (65 <= #[trigger] b[k] <= 90) || (97 <= b[k] <= 122) || (48 <= b[k] <= 57) || b[k] == 95,
        e < b.len() ==> !((65 <= b[e] <= 90) || (97 <= b[e] <= 122) || (48 <= b[e] <= 57) || b[e] == 95),
    ensures
        lex_from(b, i) == cons_tok(TokSpec::Atom(RawAtomSpec::Var(strip_blank(b.subrange(i, e)))), lex_from(b, e)),
{
    lemma_ident_run_to(b, i, e);
    let name = b.subrange(i, e);
    assert(name[0] == b[i]);
    if name.len() > 0 && name.last() == 95 {
        assert(name.len() >= 2);
        assert(strip_blank(name).len() > 0);
    }
}

} // verus!
