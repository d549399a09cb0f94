//! The raw grammar: what the parser produces, before validation.
//!
//! ```text
//! grammar := rule (rule)*
//! rule    := "<" id [":" string] ">" "::=" alts ";"
//! alts    := alt ("|" alt)*
//! alt     := [weight] symbol* [limit]
//! weight  := integer
//! limit   := "{" integer ["," [integer]] "}"
//! symbol  := string | "<" id [":" string] ">" | "re" "(" string ")"
//! ```
//!
//! A missing weight is 1; a missing limit is unlimited. `{n}` means
//! `{n,n}`; `{n,}` means at least `n` with no ceiling, which for `n = 0`
//! is the same as no limit at all.

use vstd::prelude::*;

use crate::error::Error;
use crate::grammar::alt::{alt_views, Alternative, AlternativeView, Limit};
use crate::grammar::checked::{alt_wf, grammar_wf, CheckedEntry, CheckedGrammar};
use crate::grammar::graph::{in_names, name_views, nidx, rule_refs, rule_views};
use crate::grammar::production::WeightedProduction;
use crate::grammar::rule::{Rule, RuleView};
use crate::grammar::symbol::{symbol_views, NonTerminal, NonTerminalView, Symbol, SymbolKind,
    SymbolKindView, SymbolView, Ty, TyView};
use crate::lexer::triple_views;
use crate::regex::Regex;
use crate::span::Span;
use crate::token::{Token, TokenView};

verus! {

/// Well-formedness of a raw grammar: every pattern symbol compiled to
/// a well-formed tree.
pub open spec fn raw_wf(rs: Seq<RuleView>) -> bool {
    forall|i: int, j: int|
        0 <= i < rs.len() && 0 <= j < rs[i].production.len() ==> alt_wf(
            #[trigger] rs[i].production[j],
        )
}

/// Whether some reference in rule `i` of `rs` at alternative `j`,
/// symbol `k` has a name that no rule of `rs` defines.
pub open spec fn has_undefined_ref(rs: Seq<RuleView>) -> bool {
    exists|i: int, j: int, k: int|
        0 <= i < rs.len() && 0 <= j < rs[i].production.len() && 0 <= k
            < rs[i].production[j].symbols.len() && ((#[trigger] rs[i].production[j].symbols[k]).kind
            matches SymbolKindView::NonTerminal(nt) && !defines_name(rs, nt.name))
}

/// Whether some rule of `rs` has the left-hand name `name` (type tags
/// are not considered).
pub open spec fn defines_name(rs: Seq<RuleView>, name: Seq<char>) -> bool {
    exists|i: int| 0 <= i < rs.len() && (#[trigger] rs[i]).lhs.name == name
}

/// Whether some bounded invoke limit of `rs` has `min > max`.
pub open spec fn has_bad_limit(rs: Seq<RuleView>) -> bool {
    exists|i: int, j: int|
        0 <= i < rs.len() && 0 <= j < rs[i].production.len() && ((#[trigger] rs[i].production[j]).invoke_limit
            matches Limit::Limited { min, max } && min > max)
}

/// Whether two rules of `rs` share both name and type tag.
pub open spec fn has_duplicate(rs: Seq<RuleView>) -> bool {
    exists|i: int, j: int|
        0 <= i < j < rs.len() && (#[trigger] rs[i]).lhs == (#[trigger] rs[j]).lhs
}

/// Pushing an edge keeps every edge that was already there.
proof fn lemma_edge_push(es: Seq<(usize, usize)>, e: (usize, usize), a: int, b: int)
    requires
        crate::grammar::graph::has_edge(es, a, b),
    ensures
        crate::grammar::graph::has_edge(es.push(e), a, b),
{
    let q = choose|q: int| 0 <= q < es.len() && (#[trigger] es[q]).0 == a && es[q].1 == b;
    assert(es.push(e)[q] == es[q]);
}

/// An ordered sequence of rules, as parsed.
#[derive(Debug)]
pub struct RawGrammar {
    pub rules: Vec<Rule>,
}

impl View for RawGrammar {
    type V = Seq<RuleView>;

    open spec fn view(&self) -> Seq<RuleView> {
        Seq::new(self.rules@.len(), |i: int| self.rules@[i]@)
    }
}

impl RawGrammar {
    /// Parses grammar text into a raw grammar: exactly the grammar (or
    /// the error, with its span) that `spec_parse` denotes for the
    /// text. On success every pattern in the grammar compiled to a
    /// well-formed tree.
    pub fn parse(input: &str) -> (r: crate::error::Result<RawGrammar>)
        ensures
            r matches Ok(g) ==> raw_wf(g@) && g@.len() >= 1,
            match spec_parse(input@) {
                ParseModel::Grammar(rs) => r matches Ok(g) && g@ == rs,
                ParseModel::Tok(a, b, x) => r matches Err(e) && (e matches
                Error::UnrecognizedToken { span, expect } && span == (Span {
                    start: a as usize,
                    end: b as usize,
                }) && expect@ == x),
                ParseModel::Eof(x) => r matches Err(e) && (e matches Error::UnrecognizedEof {
                    span,
                    expect,
                } && span == sp_eof_span(input@.len() as int) && expect@ == x),
                ParseModel::Extra(a, b) => r matches Err(e) && e == (Error::ExtraToken {
                    span: Span { start: a as usize, end: b as usize },
                }),
                ParseModel::Re(a, b) => r matches Err(e) && e == (Error::InvalidRegex {
                    span: Span { start: a as usize, end: b as usize },
                }),
                ParseModel::BadByte(a, b) => r matches Err(e) && e == (Error::LexicalError(
                    crate::error::LexicalError::InvalidToken(
                        Span { start: a as usize, end: b as usize },
                    ),
                )),
                ParseModel::BadInt(a, b) => r matches Err(e) && e == (Error::LexicalError(
                    crate::error::LexicalError::InvalidInteger(
                        Span { start: a as usize, end: b as usize },
                    ),
                )),
            },
    {
        let n_in = input.unicode_len();
        let toks = match crate::lexer::tokenize(input) {
            Ok(v) => v,
            Err(e) => {
                return Err(Error::LexicalError(e));
            },
        };
        match p_rules(&toks, n_in) {
            Ok((rules, _)) => {
                let g = RawGrammar { rules };
                proof {
                    assert(g@ =~= crate::grammar::graph::rule_views(g.rules@));
                }
                Ok(g)
            },
            Err(e) => Err(e),
        }
    }

    /// Validates the grammar (undefined references, duplicate rules,
    /// invalid invoke-limit ranges) and, on success, hands over a
    /// checked grammar with one entry per rule, in rule order.
    pub fn to_checked(self) -> (r: crate::error::Result<CheckedGrammar>)
        requires
            raw_wf(self@),
        ensures
            r matches Ok(g) ==> grammar_wf(g@) && g@.len() == self@.len() && (forall|i: int|
                0 <= i < self@.len() ==> (#[trigger] g@[i]).key == self@[i].lhs && g@[i].alts
                    == self@[i].production) && !has_undefined_ref(self@) && !has_duplicate(self@)
                && !has_bad_limit(self@),
            r matches Err(e) ==> {
                ||| (e matches Error::UndefinedNonTerminal { .. }) && has_undefined_ref(self@)
                ||| (e matches Error::DuplicatedRules { .. }) && has_duplicate(self@)
                ||| (e matches Error::InvalidRepeatRange { .. }) && has_bad_limit(self@)
            },
    {
        match self.check_undefined() {
            Ok(_) => {},
            Err(e) => {
                return Err(e);
            },
        }
        match self.check_duplicate() {
            Ok(_) => {},
            Err(e) => {
                return Err(e);
            },
        }
        match self.check_repeats() {
            Ok(_) => {},
            Err(e) => {
                return Err(e);
            },
        }
        let ghost rs = self@;
        let mut entries: Vec<CheckedEntry> = Vec::new();
        let mut rules = self.rules;
        let nn = rules.len();
        let ghost n = rules@.len();
        proof {
            assert(rs.len() == n);
            assert(forall|i: int| 0 <= i < n ==> rs[i] == (#[trigger] rules@[i])@);
        }
        let mut i: usize = 0;
        while rules.len() > 0
            invariant
                rs.len() == n,
                n == nn,
                i + rules@.len() == n,
                entries@.len() == i,
                forall|k: int| 0 <= k < rules@.len() ==> (#[trigger] rules@[k])@ == rs[i + k],
                forall|k: int|
                    0 <= k < i ==> (#[trigger] entries@[k])@.key == rs[k].lhs && entries@[k]@.alts
                        == rs[k].production,
            decreases rules@.len(),
        {
            let rule = rules.remove(0);
            proof {
                assert(rule@ == rs[i as int]);
            }
            entries.push(CheckedEntry { key: rule.lhs, production: rule.production });
            i = i + 1;
        }
        let out = CheckedGrammar { entries };
        proof {
            assert forall|k: int| 0 <= k < out@.len() implies crate::grammar::checked::entry_wf(
                #[trigger] out@[k],
            ) by {
                assert(out@[k].alts == rs[k].production);
                assert forall|j: int|
                    0 <= j < out@[k].alts.len() implies alt_wf(#[trigger] out@[k].alts[j]) by {
                    assert(alt_wf(rs[k].production[j]));
                }
            }
        }
        Ok(out)
    }

    /// Builds the reference graph: one node per distinct rule name,
    /// one edge per reference. Callers run the undefined-reference
    /// check first, so every reference has a node.
    #[verifier::rlimit(100)]
    #[verifier::spinoff_prover]
    pub fn graph(&self) -> (r: crate::grammar::graph::GrammarGraph)
        requires
            !has_undefined_ref(self@),
        ensures
            r.rules@ == self.rules@,
            crate::grammar::graph::graph_wf(r),
    {
        let ghost rs0 = self@;
        let mut names: Vec<String> = Vec::new();
        let mut i: usize = 0;
        while i < self.rules.len()
            invariant
                rs0 == self@,
                rs0.len() == self.rules@.len(),
                forall|k: int| 0 <= k < rs0.len() ==> rs0[k] == (#[trigger] self.rules@[k])@,
                i <= rs0.len(),
                forall|a: int, b: int|
                    0 <= a < b < name_views(names@).len() ==> name_views(names@)[a]
                        != name_views(names@)[b],
                forall|q: int|
                    0 <= q < name_views(names@).len() ==> defines_name(
                        rs0,
                        #[trigger] name_views(names@)[q],
                    ),
                forall|k: int|
                    0 <= k < i ==> in_names(name_views(names@), (#[trigger] rs0[k]).lhs.name),
            decreases self.rules@.len() - i,
        {
            let ghost before = name_views(names@);
            if !crate::grammar::graph::contains_name(&names, &self.rules[i].lhs.name) {
                names.push(self.rules[i].lhs.name.clone());
                proof {
                    let ns2 = name_views(names@);
                    assert(ns2.len() == before.len() + 1);
                    assert(forall|q: int| 0 <= q < before.len() ==> ns2[q] == before[q]);
                    assert(ns2[before.len() as int] == rs0[i as int].lhs.name);
                    assert forall|q: int| 0 <= q < ns2.len() implies defines_name(
                        rs0,
                        #[trigger] ns2[q],
                    ) by {
                        if q < before.len() {
                            assert(defines_name(rs0, before[q]));
                        } else {
                            assert(rs0[i as int].lhs.name == ns2[q]);
                        }
                    }
                    assert forall|k: int| 0 <= k < i + 1 implies in_names(
                        ns2,
                        (#[trigger] rs0[k]).lhs.name,
                    ) by {
                        if k < i {
                            let w = choose|w: int|
                                0 <= w < before.len() && before[w] == rs0[k].lhs.name;
                            assert(ns2[w] == rs0[k].lhs.name);
                        } else {
                            assert(ns2[before.len() as int] == rs0[k].lhs.name);
                        }
                    }
                }
            } else {
                proof {
                    assert(in_names(name_views(names@), rs0[i as int].lhs.name));
                }
            }
            i = i + 1;
        }
        let ghost ns = name_views(names@);
        proof {
            assert forall|a: int, b: int|
                0 <= a < ns.len() && 0 <= b < ns.len() && crate::grammar::graph::has_edge(
                    Seq::<(usize, usize)>::empty(),
                    a,
                    b,
                ) implies false by {}
        }
        // one edge per reference, from the defining rule's node
        let mut edges: Vec<(usize, usize)> = Vec::new();
        let mut i2: usize = 0;
        while i2 < self.rules.len()
            invariant
                rs0 == self@,
                rs0.len() == self.rules@.len(),
                forall|k: int| 0 <= k < rs0.len() ==> rs0[k] == (#[trigger] self.rules@[k])@,
                !has_undefined_ref(rs0),
                ns == name_views(names@),
                forall|a: int, b: int| 0 <= a < b < ns.len() ==> ns[a] != ns[b],
                forall|q: int| 0 <= q < ns.len() ==> defines_name(rs0, #[trigger] ns[q]),
                forall|k: int| 0 <= k < rs0.len() ==> in_names(ns, (#[trigger] rs0[k]).lhs.name),
                i2 <= rs0.len(),
                forall|q: int|
                    0 <= q < edges@.len() ==> (#[trigger] edges@[q]).0 < ns.len() && edges@[q].1
                        < ns.len() && rule_refs(rs0, ns[edges@[q].0 as int], ns[edges@[q].1 as int]),
                forall|i3: int, j3: int, k3: int|
                    0 <= i3 < i2 && 0 <= j3 < rs0[i3].production.len() && 0 <= k3
                        < rs0[i3].production[j3].symbols.len() && (
                    #[trigger] rs0[i3].production[j3].symbols[k3]).kind is NonTerminal
                        ==> crate::grammar::graph::has_edge(
                        edges@,
                        nidx(ns, rs0[i3].lhs.name),
                        nidx(ns, rs0[i3].production[j3].symbols[k3].kind->NonTerminal_0.name),
                    ),
            decreases self.rules@.len() - i2,
        {
            let a = crate::grammar::graph::name_index(&names, &self.rules[i2].lhs.name);
            proof {
                crate::grammar::graph::lemma_nidx(ns, rs0[i2 as int].lhs.name);
                assert(a < ns.len());
            }
            let alts = &self.rules[i2].production.alts;
            let ghost prod = rs0[i2 as int].production;
            let mut j: usize = 0;
            while j < alts.len()
                invariant
                    rs0 == self@,
                    rs0.len() == self.rules@.len(),
                    forall|k: int| 0 <= k < rs0.len() ==> rs0[k] == (#[trigger] self.rules@[k])@,
                    !has_undefined_ref(rs0),
                    ns == name_views(names@),
                    forall|a2: int, b2: int| 0 <= a2 < b2 < ns.len() ==> ns[a2] != ns[b2],
                    forall|q: int| 0 <= q < ns.len() ==> defines_name(rs0, #[trigger] ns[q]),
                    forall|k: int|
                        0 <= k < rs0.len() ==> in_names(ns, (#[trigger] rs0[k]).lhs.name),
                    i2 < rs0.len(),
                    a as int == nidx(ns, rs0[i2 as int].lhs.name),
                    a < ns.len(),
                    prod == rs0[i2 as int].production,
                    prod.len() == alts@.len(),
                    forall|k: int| 0 <= k < prod.len() ==> prod[k] == (#[trigger] alts@[k])@,
                    j <= prod.len(),
                    forall|q: int|
                        0 <= q < edges@.len() ==> (#[trigger] edges@[q]).0 < ns.len()
                            && edges@[q].1 < ns.len() && rule_refs(
                            rs0,
                            ns[edges@[q].0 as int],
                            ns[edges@[q].1 as int],
                        ),
                    forall|i3: int, j3: int, k3: int|
                        0 <= i3 < i2 && 0 <= j3 < rs0[i3].production.len() && 0 <= k3
                            < rs0[i3].production[j3].symbols.len() && (
                        #[trigger] rs0[i3].production[j3].symbols[k3]).kind is NonTerminal
                            ==> crate::grammar::graph::has_edge(
                            edges@,
                            nidx(ns, rs0[i3].lhs.name),
                            nidx(ns, rs0[i3].production[j3].symbols[k3].kind->NonTerminal_0.name),
                        ),
                    forall|j3: int, k3: int|
                        0 <= j3 < j && 0 <= k3 < prod[j3].symbols.len() && (
                        #[trigger] prod[j3].symbols[k3]).kind is NonTerminal
                            ==> crate::grammar::graph::has_edge(
                            edges@,
                            a as int,
                            nidx(ns, prod[j3].symbols[k3].kind->NonTerminal_0.name),
                        ),
                decreases alts@.len() - j,
            {
                let syms = &alts[j].symbols;
                let ghost av = prod[j as int];
                let mut k: usize = 0;
                while k < syms.len()
                    invariant
                        rs0 == self@,
                        rs0.len() == self.rules@.len(),
                        forall|k2: int|
                            0 <= k2 < rs0.len() ==> rs0[k2] == (#[trigger] self.rules@[k2])@,
                        !has_undefined_ref(rs0),
                        ns == name_views(names@),
                        forall|a2: int, b2: int| 0 <= a2 < b2 < ns.len() ==> ns[a2] != ns[b2],
                        forall|q: int| 0 <= q < ns.len() ==> defines_name(rs0, #[trigger] ns[q]),
                        forall|k2: int|
                            0 <= k2 < rs0.len() ==> in_names(ns, (#[trigger] rs0[k2]).lhs.name),
                        i2 < rs0.len(),
                        a as int == nidx(ns, rs0[i2 as int].lhs.name),
                        a < ns.len(),
                        j < rs0[i2 as int].production.len(),
                        av == rs0[i2 as int].production[j as int],
                        av.symbols.len() == syms@.len(),
                        forall|q: int|
                            0 <= q < av.symbols.len() ==> av.symbols[q] == (
                            #[trigger] syms@[q])@,
                        k <= syms@.len(),
                        forall|q: int|
                            0 <= q < edges@.len() ==> (#[trigger] edges@[q]).0 < ns.len()
                                && edges@[q].1 < ns.len() && rule_refs(
                                rs0,
                                ns[edges@[q].0 as int],
                                ns[edges@[q].1 as int],
                            ),
                        forall|i3: int, j3: int, k3: int|
                            0 <= i3 < i2 && 0 <= j3 < rs0[i3].production.len() && 0 <= k3
                                < rs0[i3].production[j3].symbols.len() && (
                            #[trigger] rs0[i3].production[j3].symbols[k3]).kind is NonTerminal
                                ==> crate::grammar::graph::has_edge(
                                edges@,
                                nidx(ns, rs0[i3].lhs.name),
                                nidx(ns, rs0[i3].production[j3].symbols[k3].kind->NonTerminal_0.name),
                            ),
                        forall|j3: int, k3: int|
                            0 <= j3 < rs0[i2 as int].production.len() && 0 <= k3 < rs0[i2 as int].production[j3].symbols.len()
                                && (j3 < j || (j3 == j && k3 < k)) && (
                            #[trigger] rs0[i2 as int].production[j3].symbols[k3]).kind is NonTerminal
                                ==> crate::grammar::graph::has_edge(
                                edges@,
                                a as int,
                                nidx(ns, rs0[i2 as int].production[j3].symbols[k3].kind->NonTerminal_0.name),
                            ),
                    decreases syms@.len() - k,
                {
                    let ghost edges_before = edges@;
                    match &syms[k].kind {
                        SymbolKind::NonTerminal(nt) => {
                            let b = crate::grammar::graph::name_index(&names, &nt.name);
                            proof {
                                assert(av.symbols[k as int].kind matches
                                    SymbolKindView::NonTerminal(n2) && n2.name == nt@.name);
                                assert(rs0[i2 as int].production[j as int].symbols[k as int]
                                    == av.symbols[k as int]);
                                if !in_names(ns, nt@.name) {
                                    crate::grammar::graph::lemma_nidx(ns, nt@.name);
                                    assert(!defines_name(rs0, nt@.name)) by {
                                        if defines_name(rs0, nt@.name) {
                                            let w = choose|w: int|
                                                0 <= w < rs0.len() && (#[trigger] rs0[w]).lhs.name
                                                    == nt@.name;
                                            assert(in_names(ns, rs0[w].lhs.name));
                                            let w2 = choose|w2: int|
                                                0 <= w2 < ns.len() && ns[w2] == rs0[w].lhs.name;
                                            assert(ns[w2] == nt@.name);
                                        }
                                    }
                                    assert(has_undefined_ref(rs0));
                                    assert(false);
                                }
                                crate::grammar::graph::lemma_nidx(ns, nt@.name);
                                assert(b < ns.len());
                                assert(ns[b as int] == nt@.name);
                            }
                            edges.push((a, b));
                            proof {
                                assert(edges@ == edges_before.push((a, b)));
                                assert(rule_refs(rs0, ns[a as int], ns[b as int])) by {
                                    crate::grammar::graph::lemma_nidx(
                                        ns,
                                        rs0[i2 as int].lhs.name,
                                    );
                                    assert(rs0[i2 as int].lhs.name == ns[a as int]);
                                    assert((rs0[i2 as int].production[j as int].symbols[k as int]).kind
                                        matches SymbolKindView::NonTerminal(n2) && n2.name
                                        == ns[b as int]);
                                }
                                assert(edges@[edges_before.len() as int] == (a, b));
                                assert forall|q: int|
                                    0 <= q < edges@.len() implies (#[trigger] edges@[q]).0
                                        < ns.len() && edges@[q].1 < ns.len() && rule_refs(
                                        rs0,
                                        ns[edges@[q].0 as int],
                                        ns[edges@[q].1 as int],
                                    ) by {
                                    if q < edges_before.len() {
                                        assert(edges@[q] == edges_before[q]);
                                    }
                                }
                                assert forall|i3: int, j3: int, k3: int|
                                    0 <= i3 < i2 && 0 <= j3 < rs0[i3].production.len() && 0 <= k3
                                        < rs0[i3].production[j3].symbols.len() && (
                                    #[trigger] rs0[i3].production[j3].symbols[k3]).kind is NonTerminal
                                        implies crate::grammar::graph::has_edge(
                                        edges@,
                                        nidx(ns, rs0[i3].lhs.name),
                                        nidx(ns, rs0[i3].production[j3].symbols[k3].kind->NonTerminal_0.name),
                                    ) by {
                                    lemma_edge_push(
                                        edges_before,
                                        (a, b),
                                        nidx(ns, rs0[i3].lhs.name),
                                        nidx(ns, rs0[i3].production[j3].symbols[k3].kind->NonTerminal_0.name),
                                    );
                                }
                                assert forall|j3: int, k3: int|
                                    0 <= j3 < rs0[i2 as int].production.len() && 0 <= k3 < rs0[i2 as int].production[j3].symbols.len()
                                        && (j3 < j || (j3 == j && k3 < k + 1)) && (
                                    #[trigger] rs0[i2 as int].production[j3].symbols[k3]).kind
                                        is NonTerminal
                                        implies crate::grammar::graph::has_edge(
                                        edges@,
                                        a as int,
                                        nidx(ns, rs0[i2 as int].production[j3].symbols[k3].kind->NonTerminal_0.name),
                                    ) by {
                                    if j3 == j && k3 == k {
                                        assert(nidx(ns, nt@.name) == b as int);
                                        assert(crate::grammar::graph::has_edge(
                                            edges@,
                                            a as int,
                                            b as int,
                                        ));
                                    } else {
                                        lemma_edge_push(
                                            edges_before,
                                            (a, b),
                                            a as int,
                                            nidx(ns, rs0[i2 as int].production[j3].symbols[k3].kind->NonTerminal_0.name),
                                        );
                                    }
                                }
                            }
                        },
                        _ => {
                            proof {
                                assert(!(av.symbols[k as int].kind matches
                                    SymbolKindView::NonTerminal(n2)));
                                assert(rs0[i2 as int].production[j as int].symbols[k as int]
                                    == av.symbols[k as int]);
                            }
                        },
                    }
                    k = k + 1;
                }
                j = j + 1;
            }
            i2 = i2 + 1;
        }
        let out = crate::grammar::graph::GrammarGraph { rules: &self.rules, names, edges };
        proof {
            assert(name_views(out.names@) == ns);
            assert(rule_views(out.rules@) =~= rs0);
            assert forall|a: int, b: int|
                0 <= a < ns.len() && 0 <= b < ns.len() implies (crate::grammar::graph::has_edge(
                out.edges@,
                a,
                b,
            ) <==> rule_refs(rs0, #[trigger] ns[a], #[trigger] ns[b])) by {
                if crate::grammar::graph::has_edge(out.edges@, a, b) {
                    let q = choose|q: int|
                        0 <= q < out.edges@.len() && (#[trigger] out.edges@[q]).0 == a
                            && out.edges@[q].1 == b;
                }
                if rule_refs(rs0, ns[a], ns[b]) {
                    let (i3, j3, k3): (int, int, int) = choose|i3: int, j3: int, k3: int|
                        0 <= i3 < rs0.len() && (#[trigger] rs0[i3]).lhs.name == ns[a] && 0 <= j3
                            < rs0[i3].production.len() && 0 <= k3
                            < rs0[i3].production[j3].symbols.len() && ((
                        #[trigger] rs0[i3].production[j3].symbols[k3]).kind matches
                            SymbolKindView::NonTerminal(nt) && nt.name == ns[b]);
                    crate::grammar::graph::lemma_nidx(ns, ns[a]);
                    crate::grammar::graph::lemma_nidx(ns, ns[b]);
                    assert(nidx(ns, rs0[i3].lhs.name) == a);
                    assert(nidx(
                        ns,
                        rs0[i3].production[j3].symbols[k3].kind->NonTerminal_0.name,
                    ) == b);
                }
            }
        }
        out
    }

    /// Rejects a reference to a name that no rule defines; the error
    /// carries the span of such a reference.
    #[verifier::rlimit(100)]
    #[verifier::spinoff_prover]
    pub fn check_undefined(&self) -> (r: crate::error::Result<&RawGrammar>)
        ensures
            r is Ok <==> !has_undefined_ref(self@),
            r matches Err(e) ==> (e matches Error::UndefinedNonTerminal { span } && (exists|
                i: int,
                j: int,
                k: int,
            |
                0 <= i < self@.len() && 0 <= j < self@[i].production.len() && 0 <= k
                    < self@[i].production[j].symbols.len() && ((
                #[trigger] self@[i].production[j].symbols[k]).kind
                    matches SymbolKindView::NonTerminal(nt) && !defines_name(self@, nt.name))
                    && span == self@[i].production[j].symbols[k].span)),
    {
        let ghost rs = self@;
        let mut i: usize = 0;
        while i < self.rules.len()
            invariant
                rs == self@,
                rs.len() == self.rules@.len(),
                forall|k: int| 0 <= k < rs.len() ==> rs[k] == (#[trigger] self.rules@[k])@,
                i <= rs.len(),
                forall|i2: int, j2: int, k2: int|
                    0 <= i2 < i && 0 <= j2 < rs[i2].production.len() && 0 <= k2
                        < rs[i2].production[j2].symbols.len() ==> !((
                    #[trigger] rs[i2].production[j2].symbols[k2]).kind
                        matches SymbolKindView::NonTerminal(nt) && !defines_name(rs, nt.name)),
            decreases self.rules@.len() - i,
        {
            let alts = &self.rules[i].production.alts;
            let ghost prod = rs[i as int].production;
            let mut j: usize = 0;
            while j < alts.len()
                invariant
                    rs == self@,
                    rs.len() == self.rules@.len(),
                    forall|k: int| 0 <= k < rs.len() ==> rs[k] == (#[trigger] self.rules@[k])@,
                    i < rs.len(),
                    prod == rs[i as int].production,
                    prod.len() == alts@.len(),
                    forall|k: int| 0 <= k < prod.len() ==> prod[k] == (#[trigger] alts@[k])@,
                    j <= prod.len(),
                    forall|j2: int, k2: int|
                        0 <= j2 < j && 0 <= k2 < prod[j2].symbols.len() ==> !((
                        #[trigger] prod[j2].symbols[k2]).kind matches SymbolKindView::NonTerminal(
                            nt,
                        ) && !defines_name(rs, nt.name)),
                decreases alts@.len() - j,
            {
                let syms = &alts[j].symbols;
                let ghost av = prod[j as int];
                let mut k: usize = 0;
                while k < syms.len()
                    invariant
                        rs == self@,
                        rs.len() == self.rules@.len(),
                        forall|q: int| 0 <= q < rs.len() ==> rs[q] == (#[trigger] self.rules@[q])@,
                        i < rs.len(),
                        j < rs[i as int].production.len(),
                        av == rs[i as int].production[j as int],
                        av.symbols.len() == syms@.len(),
                        forall|q: int|
                            0 <= q < av.symbols.len() ==> av.symbols[q] == (
                            #[trigger] syms@[q])@,
                        k <= syms@.len(),
                        forall|k2: int|
                            0 <= k2 < k ==> !((#[trigger] av.symbols[k2]).kind
                                matches SymbolKindView::NonTerminal(nt) && !defines_name(
                                rs,
                                nt.name,
                            )),
                    decreases syms@.len() - k,
                {
                    match &syms[k].kind {
                        SymbolKind::NonTerminal(nt) => {
                            if !self.defines(&nt.name) {
                                proof {
                                    assert(rs[i as int].production[j as int] == av);
                                    assert((rs[i as int].production[j as int].symbols[k as int]).kind
                                        matches SymbolKindView::NonTerminal(n2) && !defines_name(
                                        rs,
                                        n2.name,
                                    ));
                                    assert(has_undefined_ref(rs));
                                    assert(rs[i as int].production[j as int].symbols[k as int].span
                                        == syms@[k as int]@.span);
                                }
                                return Err(
                                    Error::UndefinedNonTerminal { span: syms[k].span },
                                );
                            }
                            proof {
                                assert(av.symbols[k as int].kind
                                    matches SymbolKindView::NonTerminal(n2) && defines_name(
                                    rs,
                                    n2.name,
                                ));
                            }
                        },
                        _ => {},
                    }
                    k = k + 1;
                }
                j = j + 1;
            }
            i = i + 1;
        }
        proof {
            assert(!has_undefined_ref(rs));
        }
        Ok(self)
    }

    /// Whether some rule defines the name.
    fn defines(&self, name: &String) -> (r: bool)
        ensures
            r == defines_name(self@, name@),
    {
        let mut i: usize = 0;
        while i < self.rules.len()
            invariant
                i <= self.rules@.len(),
                forall|k: int| 0 <= k < i ==> (#[trigger] self@[k]).lhs.name != name@,
            decreases self.rules@.len() - i,
        {
            if self.rules[i].lhs.name.eq(name) {
                proof {
                    assert(self@[i as int].lhs.name == name@);
                }
                return true;
            }
            proof {
                assert(self@[i as int].lhs.name != name@);
            }
            i = i + 1;
        }
        false
    }

    /// Rejects two rules sharing both name and type tag; the error
    /// carries the later definition's span and the earlier one's.
    pub fn check_duplicate(&self) -> (r: crate::error::Result<&RawGrammar>)
        ensures
            r is Ok <==> !has_duplicate(self@),
            r matches Err(e) ==> (e matches Error::DuplicatedRules { span, prev } && (exists|
                i: int,
                j: int,
            |
                0 <= i < j < self@.len() && (#[trigger] self@[i]).lhs == (
                #[trigger] self@[j]).lhs && prev == self@[i].span && span == self@[j].span)),
    {
        let ghost rs = self@;
        let mut j: usize = 0;
        while j < self.rules.len()
            invariant
                rs == self@,
                rs.len() == self.rules@.len(),
                forall|k: int| 0 <= k < rs.len() ==> rs[k] == (#[trigger] self.rules@[k])@,
                j <= rs.len(),
                forall|a: int, b: int| 0 <= a < b < j ==> (#[trigger] rs[a]).lhs != (
                #[trigger] rs[b]).lhs,
            decreases self.rules@.len() - j,
        {
            let mut a: usize = 0;
            while a < j
                invariant
                    rs == self@,
                    rs.len() == self.rules@.len(),
                    forall|k: int| 0 <= k < rs.len() ==> rs[k] == (#[trigger] self.rules@[k])@,
                    a <= j < rs.len(),
                    forall|a2: int| 0 <= a2 < a ==> (#[trigger] rs[a2]).lhs != rs[j as int].lhs,
                decreases j - a,
            {
                if self.rules[a].lhs.key_eq(&self.rules[j].lhs) {
                    proof {
                        assert(rs[a as int].lhs == rs[j as int].lhs);
                        assert(rs[a as int].span == self.rules@[a as int].span);
                        assert(rs[j as int].span == self.rules@[j as int].span);
                    }
                    return Err(
                        Error::DuplicatedRules {
                            span: self.rules[j].span,
                            prev: self.rules[a].span,
                        },
                    );
                }
                a = a + 1;
            }
            j = j + 1;
        }
        proof {
            assert(!has_duplicate(rs));
        }
        Ok(self)
    }

    /// Rejects a bounded invoke limit with `min > max`; the error
    /// carries the span of such an alternative.
    pub fn check_repeats(&self) -> (r: crate::error::Result<&RawGrammar>)
        ensures
            r is Ok <==> !has_bad_limit(self@),
            r matches Err(e) ==> (e matches Error::InvalidRepeatRange { span } && (exists|
                i: int,
                j: int,
            |
                0 <= i < self@.len() && 0 <= j < self@[i].production.len() && ((
                #[trigger] self@[i].production[j]).invoke_limit matches Limit::Limited {
                    min,
                    max,
                } && min > max) && span == self@[i].production[j].span)),
    {
        let ghost rs = self@;
        let mut i: usize = 0;
        while i < self.rules.len()
            invariant
                rs == self@,
                rs.len() == self.rules@.len(),
                forall|k: int| 0 <= k < rs.len() ==> rs[k] == (#[trigger] self.rules@[k])@,
                i <= rs.len(),
                forall|i2: int, j2: int|
                    0 <= i2 < i && 0 <= j2 < rs[i2].production.len() ==> !((
                    #[trigger] rs[i2].production[j2]).invoke_limit matches Limit::Limited {
                        min,
                        max,
                    } && min > max),
            decreases self.rules@.len() - i,
        {
            let alts = &self.rules[i].production.alts;
            let ghost prod = rs[i as int].production;
            let mut j: usize = 0;
            while j < alts.len()
                invariant
                    rs == self@,
                    i < rs.len(),
                    prod == rs[i as int].production,
                    prod.len() == alts@.len(),
                    forall|k: int| 0 <= k < prod.len() ==> prod[k] == (#[trigger] alts@[k])@,
                    j <= prod.len(),
                    forall|j2: int|
                        0 <= j2 < j ==> !((#[trigger] prod[j2]).invoke_limit
                            matches Limit::Limited { min, max } && min > max),
                decreases alts@.len() - j,
            {
                match alts[j].invoke_limit {
                    Limit::Limited { min, max } => {
                        if min > max {
                            proof {
                                assert(rs[i as int].production[j as int] == prod[j as int]);
                                assert((rs[i as int].production[j as int]).invoke_limit == (
                                Limit::Limited { min, max }));
                                assert(has_bad_limit(rs));
                                assert(rs[i as int].production[j as int].span == alts@[j as int]@.span);
                            }
                            return Err(Error::InvalidRepeatRange { span: alts[j].span });
                        }
                        proof {
                            assert(prod[j as int].invoke_limit == (Limit::Limited { min, max }));
                        }
                    },
                    Limit::Unlimited => {
                        proof {
                            assert(prod[j as int].invoke_limit == Limit::Unlimited);
                        }
                    },
                }
                j = j + 1;
            }
            i = i + 1;
        }
        proof {
            assert(!has_bad_limit(rs));
        }
        Ok(self)
    }

    /// Runs every independent structural check and collects the
    /// errors, one per failing check, in check order (undefined
    /// references, duplicate rules, invalid limit ranges), rather than
    /// stopping at the first.
    pub fn validate_collect(&self) -> (r: Vec<Error>)
        ensures
            r@.len() == 0 <==> (!has_undefined_ref(self@) && !has_duplicate(self@)
                && !has_bad_limit(self@)),
            r@.len() <= 3,
            has_undefined_ref(self@) <==> (exists|k: int|
                0 <= k < r@.len() && (#[trigger] r@[k]) matches Error::UndefinedNonTerminal {
                    ..
                }),
            has_duplicate(self@) <==> (exists|k: int|
                0 <= k < r@.len() && (#[trigger] r@[k]) matches Error::DuplicatedRules { .. }),
            has_bad_limit(self@) <==> (exists|k: int|
                0 <= k < r@.len() && (#[trigger] r@[k]) matches Error::InvalidRepeatRange {
                    ..
                }),
    {
        let mut out: Vec<Error> = Vec::new();
        let mut fail_u = false;
        let mut fail_d = false;
        let mut fail_r = false;
        match self.check_undefined() {
            Ok(_) => {},
            Err(e) => {
                out.push(e);
                fail_u = true;
                proof {
                    assert(out@.len() == 1 && (out@[0] matches Error::UndefinedNonTerminal {
                        ..
                    }));
                }
            },
        }
        match self.check_duplicate() {
            Ok(_) => {},
            Err(e) => {
                let ghost before = out@;
                out.push(e);
                fail_d = true;
                proof {
                    assert(out@ == before.push(e));
                    assert(out@[out@.len() - 1] matches Error::DuplicatedRules { .. });
                }
            },
        }
        match self.check_repeats() {
            Ok(_) => {},
            Err(e) => {
                let ghost before = out@;
                out.push(e);
                fail_r = true;
                proof {
                    assert(out@ == before.push(e));
                    assert(out@[out@.len() - 1] matches Error::InvalidRepeatRange { .. });
                }
            },
        }
        proof {
            assert(fail_u == has_undefined_ref(self@));
            assert(fail_d == has_duplicate(self@));
            assert(fail_r == has_bad_limit(self@));
            if fail_u {
                assert(out@[0] matches Error::UndefinedNonTerminal { .. });
            }
            if fail_d {
                let j: int = if fail_u {
                    1
                } else {
                    0
                };
                assert(out@[j] matches Error::DuplicatedRules { .. });
            }
            if fail_r {
                let j: int = (if fail_u {
                    1int
                } else {
                    0int
                }) + (if fail_d {
                    1int
                } else {
                    0int
                });
                assert(out@[j] matches Error::InvalidRepeatRange { .. });
            }
            assert forall|k: int| 0 <= k < out@.len() implies ((#[trigger] out@[k]) matches
                Error::UndefinedNonTerminal { .. } ==> fail_u) && (out@[k] matches
                Error::DuplicatedRules { .. } ==> fail_d) && (out@[k] matches
                Error::InvalidRepeatRange { .. } ==> fail_r) by {}
        }
        out
    }

    /// Prints the grammar back to its surface syntax: exactly the text
    /// that `spec_emit` denotes — one rule per line, terminals
    /// re-escaped, patterns as `re("...")`, weights and limits where
    /// they differ from the defaults.
    pub fn to_text(&self) -> (r: String)
        ensures
            r@ == spec_emit(self@, 0),
    {
        let ghost rs = self@;
        let mut out = String::new();
        let mut i: usize = 0;
        while i < self.rules.len()
            invariant
                rs == self@,
                rs.len() == self.rules@.len(),
                forall|k: int| 0 <= k < rs.len() ==> rs[k] == (#[trigger] self.rules@[k])@,
                i <= rs.len(),
                spec_emit(rs, 0) =~= out@ + spec_emit(rs, i as int),
            decreases self.rules@.len() - i,
        {
            let ghost before = out@;
            let piece = emit_rule_str(&self.rules[i]);
            out.append(piece.as_str());
            proof {
                assert((before + emit_rule(rs[i as int])) + spec_emit(rs, i as int + 1) =~= before
                    + (emit_rule(rs[i as int]) + spec_emit(rs, i as int + 1)));
            }
            i = i + 1;
        }
        proof {
            assert(spec_emit(rs, rs.len() as int) =~= Seq::<char>::empty());
            assert(out@ + Seq::<char>::empty() =~= out@);
        }
        out
    }
}

/// The decimal digit character of a value below ten.
pub open spec fn sp_digit_char(d: nat) -> char {
    crate::regex::code_to_char(('0' as u32 + d) as u32)
}

/// The decimal digits of `n`, most significant first.
pub open spec fn dec_digits(n: nat) -> Seq<char>
    decreases n,
{
    if n < 10 {
        seq![sp_digit_char(n)]
    } else {
        dec_digits(n / 10).push(sp_digit_char(n % 10))
    }
}

/// How one character of a terminal literal is printed inside quotes.
pub open spec fn esc_char(c: char) -> Seq<char> {
    if c == '"' {
        seq!['\\', '"']
    } else if c == '\\' {
        seq!['\\', '\\']
    } else if c == '\n' {
        seq!['\\', 'n']
    } else if c == '\t' {
        seq!['\\', 't']
    } else if c == '\r' {
        seq!['\\', 'r']
    } else {
        seq![c]
    }
}

/// A terminal literal re-escaped for printing, from character `i` on.
pub open spec fn esc_lit(s: Seq<char>, i: int) -> Seq<char>
    decreases s.len() - i,
{
    if i < 0 || i >= s.len() {
        Seq::empty()
    } else {
        esc_char(s[i]) + esc_lit(s, i + 1)
    }
}

/// How a type tag is printed after a name.
pub open spec fn emit_ty(ty: TyView) -> Seq<char> {
    match ty {
        TyView::Untyped => Seq::empty(),
        TyView::Typed(t) => ": \""@ + t + "\""@,
    }
}

/// How one symbol is printed, with its trailing space.
pub open spec fn emit_symbol(sym: SymbolView) -> Seq<char> {
    match sym.kind {
        SymbolKindView::Terminal(s) => "\""@ + esc_lit(s, 0) + "\" "@,
        SymbolKindView::NonTerminal(nt) => "<"@ + nt.name + emit_ty(nt.ty) + "> "@,
        SymbolKindView::Regex(re) => "re(\""@ + re.source + "\") "@,
    }
}

/// The symbols of an alternative, printed in order from index `k` on.
pub open spec fn emit_symbols(syms: Seq<SymbolView>, k: int) -> Seq<char>
    decreases syms.len() - k,
{
    if k < 0 || k >= syms.len() {
        Seq::empty()
    } else {
        emit_symbol(syms[k]) + emit_symbols(syms, k + 1)
    }
}

/// How an invoke limit is printed; an unbounded ceiling prints as
/// `{n, }` and no limit prints nothing.
pub open spec fn emit_limit(lim: Limit) -> Seq<char> {
    match lim {
        Limit::Unlimited => Seq::empty(),
        Limit::Limited { min, max } => "{"@ + dec_digits(min as nat) + (if max == usize::MAX {
            ", "@
        } else if max != min {
            ", "@ + dec_digits(max as nat)
        } else {
            Seq::empty()
        }) + "} "@,
    }
}

/// How one alternative is printed: its weight when not 1, its symbols,
/// and its limit.
pub open spec fn emit_alt(a: AlternativeView) -> Seq<char> {
    (if a.weight != 1 {
        dec_digits(a.weight as nat) + " "@
    } else {
        Seq::empty()
    }) + emit_symbols(a.symbols, 0) + emit_limit(a.invoke_limit)
}

/// The alternatives of a rule, printed with `| ` between them, from
/// index `j` on.
pub open spec fn emit_alts(alts: Seq<AlternativeView>, j: int) -> Seq<char>
    decreases alts.len() - j,
{
    if j < 0 || j >= alts.len() {
        Seq::empty()
    } else {
        (if j > 0 {
            "| "@
        } else {
            Seq::empty()
        }) + emit_alt(alts[j]) + emit_alts(alts, j + 1)
    }
}

/// How one rule is printed, on its own line.
pub open spec fn emit_rule(r: RuleView) -> Seq<char> {
    "<"@ + r.lhs.name + emit_ty(r.lhs.ty) + "> ::= "@ + emit_alts(r.production, 0) + ";\n"@
}

/// The emit function: the whole grammar printed back to its surface
/// syntax, from rule `i` on.
pub open spec fn spec_emit(rs: Seq<RuleView>, i: int) -> Seq<char>
    decreases rs.len() - i,
{
    if i < 0 || i >= rs.len() {
        Seq::empty()
    } else {
        emit_rule(rs[i]) + spec_emit(rs, i + 1)
    }
}

/// The decimal digits of `n`.
fn usize_to_string(n: usize) -> (r: String)
    ensures
        r@ == dec_digits(n as nat),
    decreases n,
{
    if n < 10 {
        match crate::regex::digit_char(n as u32) {
            Option::Some(c) => {
                let s = crate::regex::char_to_string(c);
                proof {
                    assert(s@ =~= seq![sp_digit_char(n as nat)]);
                }
                s
            },
            Option::None => String::new(),
        }
    } else {
        let mut s = usize_to_string(n / 10);
        match crate::regex::digit_char((n % 10) as u32) {
            Option::Some(c) => {
                crate::regex::push_char(&mut s, c);
                proof {
                    assert(c == sp_digit_char(n as nat % 10));
                }
            },
            Option::None => {},
        }
        s
    }
}

/// Re-escapes a terminal literal for printing inside quotes.
fn escape_literal(s: &String) -> (r: String)
    ensures
        r@ == esc_lit(s@, 0),
{
    let ghost sv = s@;
    let chars = crate::regex::str_to_chars(s.as_str());
    let mut out = String::new();
    let mut i: usize = 0;
    while i < chars.len()
        invariant
            chars@ == sv,
            i <= sv.len(),
            esc_lit(sv, 0) =~= out@ + esc_lit(sv, i as int),
        decreases chars@.len() - i,
    {
        let ghost before = out@;
        let c = chars[i];
        if c == '"' {
            out.append("\\\"");
            proof {
                reveal_strlit("\\\"");
                assert(out@ =~= before + esc_char(sv[i as int]));
            }
        } else if c == '\\' {
            out.append("\\\\");
            proof {
                reveal_strlit("\\\\");
                assert(out@ =~= before + esc_char(sv[i as int]));
            }
        } else if c == '\n' {
            out.append("\\n");
            proof {
                reveal_strlit("\\n");
                assert(out@ =~= before + esc_char(sv[i as int]));
            }
        } else if c == '\t' {
            out.append("\\t");
            proof {
                reveal_strlit("\\t");
                assert(out@ =~= before + esc_char(sv[i as int]));
            }
        } else if c == '\r' {
            out.append("\\r");
            proof {
                reveal_strlit("\\r");
                assert(out@ =~= before + esc_char(sv[i as int]));
            }
        } else {
            crate::regex::push_char(&mut out, c);
            proof {
                assert(out@ =~= before + esc_char(sv[i as int]));
            }
        }
        proof {
            assert((before + esc_char(sv[i as int])) + esc_lit(sv, i as int + 1) =~= before + (
            esc_char(sv[i as int]) + esc_lit(sv, i as int + 1)));
        }
        i = i + 1;
    }
    proof {
        assert(esc_lit(sv, sv.len() as int) =~= Seq::<char>::empty());
        assert(out@ + Seq::<char>::empty() =~= out@);
    }
    out
}

/// Prints a type tag.
fn emit_ty_str(ty: &Ty) -> (r: String)
    ensures
        r@ == emit_ty(ty@),
{
    match ty {
        Ty::Untyped => String::new(),
        Ty::Typed(t) => {
            let mut out = String::new();
            out.append(": \"");
            out.append(t.as_str());
            out.append("\"");
            out
        },
    }
}

/// Prints one symbol, with its trailing space.
fn emit_symbol_str(sym: &Symbol) -> (r: String)
    ensures
        r@ == emit_symbol(sym@),
{
    let mut out = String::new();
    match &sym.kind {
        SymbolKind::Terminal(s) => {
            out.append("\"");
            let esc = escape_literal(s);
            out.append(esc.as_str());
            out.append("\" ");
        },
        SymbolKind::NonTerminal(nt) => {
            out.append("<");
            out.append(nt.name.as_str());
            let tag = emit_ty_str(&nt.ty);
            out.append(tag.as_str());
            out.append("> ");
        },
        SymbolKind::Regex(re) => {
            out.append("re(\"");
            out.append(re.source.as_str());
            out.append("\") ");
        },
    }
    out
}

/// Prints one alternative: weight, symbols, limit.
fn emit_alt_str(alt: &Alternative) -> (r: String)
    ensures
        r@ == emit_alt(alt@),
{
    let ghost av = alt@;
    let mut out = String::new();
    if alt.weight != 1 {
        let w = usize_to_string(alt.weight);
        out.append(w.as_str());
        out.append(" ");
    }
    let ghost wpart = out@;
    proof {
        assert(wpart =~= (if av.weight != 1 {
            dec_digits(av.weight as nat) + " "@
        } else {
            Seq::<char>::empty()
        }));
    }
    let mut k: usize = 0;
    while k < alt.symbols.len()
        invariant
            av == alt@,
            av.symbols.len() == alt.symbols@.len(),
            forall|q: int| 0 <= q < av.symbols.len() ==> av.symbols[q] == (
            #[trigger] alt.symbols@[q])@,
            k <= av.symbols.len(),
            wpart == (if av.weight != 1 {
                dec_digits(av.weight as nat) + " "@
            } else {
                Seq::<char>::empty()
            }),
            wpart + emit_symbols(av.symbols, 0) =~= out@ + emit_symbols(av.symbols, k as int),
        decreases alt.symbols@.len() - k,
    {
        let ghost before = out@;
        let piece = emit_symbol_str(&alt.symbols[k]);
        out.append(piece.as_str());
        proof {
            assert((before + emit_symbol(av.symbols[k as int])) + emit_symbols(
                av.symbols,
                k as int + 1,
            ) =~= before + (emit_symbol(av.symbols[k as int]) + emit_symbols(
                av.symbols,
                k as int + 1,
            )));
        }
        k = k + 1;
    }
    proof {
        assert(emit_symbols(av.symbols, av.symbols.len() as int) =~= Seq::<char>::empty());
        assert(out@ =~= wpart + emit_symbols(av.symbols, 0));
    }
    match alt.invoke_limit {
        Limit::Limited { min, max } => {
            out.append("{");
            let lo = usize_to_string(min);
            out.append(lo.as_str());
            if max == usize::MAX {
                out.append(", ");
            } else if max != min {
                out.append(", ");
                let hi = usize_to_string(max);
                out.append(hi.as_str());
            }
            out.append("} ");
        },
        Limit::Unlimited => {},
    }
    proof {
        assert(out@ =~= emit_alt(av));
    }
    out
}

/// Prints one rule, on its own line.
fn emit_rule_str(rule: &Rule) -> (r: String)
    ensures
        r@ == emit_rule(rule@),
{
    let ghost rv = rule@;
    let mut out = String::new();
    out.append("<");
    out.append(rule.lhs.name.as_str());
    let tag = emit_ty_str(&rule.lhs.ty);
    out.append(tag.as_str());
    out.append("> ::= ");
    let ghost head = out@;
    proof {
        assert(head =~= "<"@ + rv.lhs.name + emit_ty(rv.lhs.ty) + "> ::= "@);
    }
    let alts = &rule.production.alts;
    let mut j: usize = 0;
    while j < alts.len()
        invariant
            rv == rule@,
            rv.production.len() == alts@.len(),
            forall|q: int| 0 <= q < rv.production.len() ==> rv.production[q] == (
            #[trigger] alts@[q])@,
            j <= rv.production.len(),
            head == "<"@ + rv.lhs.name + emit_ty(rv.lhs.ty) + "> ::= "@,
            head + emit_alts(rv.production, 0) =~= out@ + emit_alts(rv.production, j as int),
        decreases alts@.len() - j,
    {
        let ghost before = out@;
        if j > 0 {
            out.append("| ");
        }
        let piece = emit_alt_str(&alts[j]);
        out.append(piece.as_str());
        proof {
            let sep: Seq<char> = if j > 0 {
                "| "@
            } else {
                Seq::<char>::empty()
            };
            assert(out@ =~= before + (sep + emit_alt(rv.production[j as int])));
            assert((before + (sep + emit_alt(rv.production[j as int]))) + emit_alts(
                rv.production,
                j as int + 1,
            ) =~= before + ((sep + emit_alt(rv.production[j as int])) + emit_alts(
                rv.production,
                j as int + 1,
            )));
        }
        j = j + 1;
    }
    proof {
        assert(emit_alts(rv.production, rv.production.len() as int) =~= Seq::<char>::empty());
        assert(out@ =~= head + emit_alts(rv.production, 0));
    }
    out.append(";\n");
    proof {
        assert(out@ =~= emit_rule(rv));
    }
    out
}

/// A parse failure: what the parser expected and where./// A parse failure: what the parser expected and where.
pub enum ParseErrModel {
    /// An unexpected token at `[start, end)`, with what was expected.
    Tok(int, int, Seq<char>),
    /// The input ended early, with what was expected.
    Eof(Seq<char>),
    /// A token after a complete grammar, at `[start, end)`.
    Extra(int, int),
    /// A pattern literal at `[start, end)` that does not compile.
    Re(int, int),
}

/// A partial parse: a value and the position after it, or a failure.
pub enum PRes<T> {
    Val(T, int),
    Fail(ParseErrModel),
}

/// What parsing a whole text does.
pub enum ParseModel {
    /// The parsed rules, in order.
    Grammar(Seq<RuleView>),
    /// An unexpected token, with its span and the expectation.
    Tok(int, int, Seq<char>),
    /// An early end of input, with the expectation.
    Eof(Seq<char>),
    /// A token after a complete grammar.
    Extra(int, int),
    /// A pattern literal that does not compile.
    Re(int, int),
    /// A byte that starts no token.
    BadByte(int, int),
    /// An overflowing integer literal.
    BadInt(int, int),
}

/// The span reported for an unexpected end of input of length `n`.
pub open spec fn sp_eof_span(n: int) -> Span {
    if n > 0 {
        Span { start: (n - 1) as usize, end: n as usize }
    } else {
        Span { start: 0, end: 0 }
    }
}

/// Whether the error value is the one the failure model describes.
pub open spec fn perr_matches(pe: ParseErrModel, e: Error, n_in: int) -> bool {
    match pe {
        ParseErrModel::Tok(a, b, x) => e matches Error::UnrecognizedToken { span, expect }
            && span == (Span { start: a as usize, end: b as usize }) && expect@ == x,
        ParseErrModel::Eof(x) => e matches Error::UnrecognizedEof { span, expect } && span
            == sp_eof_span(n_in) && expect@ == x,
        ParseErrModel::Extra(a, b) => e == (Error::ExtraToken {
            span: Span { start: a as usize, end: b as usize },
        }),
        ParseErrModel::Re(a, b) => e == (Error::InvalidRegex {
            span: Span { start: a as usize, end: b as usize },
        }),
    }
}

/// One `"<" id [":" string] ">"` head or reference: the non-terminal,
/// its span, and the position after it.
#[verifier::opaque]
pub open spec fn sp_nonterminal(tv: Seq<(int, TokenView, int)>, pos: int) -> PRes<
    (NonTerminalView, Span),
> {
    if !(0 <= pos < tv.len()) {
        PRes::Fail(ParseErrModel::Eof("\"<\""@))
    } else if !(tv[pos].1 is LAngle) {
        PRes::Fail(ParseErrModel::Tok(tv[pos].0, tv[pos].2, "\"<\""@))
    } else if pos + 1 >= tv.len() {
        PRes::Fail(ParseErrModel::Eof("an identifier"@))
    } else {
        match tv[pos + 1].1 {
            TokenView::Id(nm) => {
                let tagged = if pos + 2 < tv.len() && tv[pos + 2].1 is Colon {
                    if pos + 3 >= tv.len() {
                        PRes::Fail(ParseErrModel::Eof("a string literal"@))
                    } else {
                        match tv[pos + 3].1 {
                            TokenView::Str(t) => PRes::Val(TyView::Typed(t), pos + 4),
                            _ => PRes::Fail(
                                ParseErrModel::Tok(
                                    tv[pos + 3].0,
                                    tv[pos + 3].2,
                                    "a string literal"@,
                                ),
                            ),
                        }
                    }
                } else {
                    PRes::Val(TyView::Untyped, pos + 2)
                };
                match tagged {
                    PRes::Fail(pe) => PRes::Fail(pe),
                    PRes::Val(ty, p) => {
                        if p >= tv.len() {
                            PRes::Fail(ParseErrModel::Eof("\">\""@))
                        } else if !(tv[p].1 is RAngle) {
                            PRes::Fail(ParseErrModel::Tok(tv[p].0, tv[p].2, "\">\""@))
                        } else {
                            PRes::Val(
                                (
                                    NonTerminalView { name: nm, ty },
                                    Span { start: tv[pos].0 as usize, end: tv[p].2 as usize },
                                ),
                                p + 1,
                            )
                        }
                    },
                }
            },
            _ => PRes::Fail(ParseErrModel::Tok(tv[pos + 1].0, tv[pos + 1].2, "an identifier"@)),
        }
    }
}

/// One `"{" integer ["," [integer]] "}"` invoke limit; `{0,}` is no
/// limit at all.
#[verifier::opaque]
pub open spec fn sp_limit(tv: Seq<(int, TokenView, int)>, pos: int) -> PRes<Limit> {
    if !(0 <= pos < tv.len()) || pos + 1 >= tv.len() {
        PRes::Fail(ParseErrModel::Eof("an integer"@))
    } else {
        match tv[pos + 1].1 {
            TokenView::Int(lo) => {
                if pos + 2 >= tv.len() {
                    PRes::Fail(ParseErrModel::Eof("\",\" or \"}\""@))
                } else {
                    match tv[pos + 2].1 {
                        TokenView::RBrace => PRes::Val(Limit::Limited { min: lo, max: lo }, pos + 3),
                        TokenView::Comma => {
                            if pos + 3 >= tv.len() {
                                PRes::Fail(ParseErrModel::Eof("an integer or \"}\""@))
                            } else {
                                match tv[pos + 3].1 {
                                    TokenView::RBrace => {
                                        if lo == 0 {
                                            PRes::Val(Limit::Unlimited, pos + 4)
                                        } else {
                                            PRes::Val(
                                                Limit::Limited { min: lo, max: usize::MAX },
                                                pos + 4,
                                            )
                                        }
                                    },
                                    TokenView::Int(hi) => {
                                        if pos + 4 >= tv.len() {
                                            PRes::Fail(ParseErrModel::Eof("\"}\""@))
                                        } else {
                                            match tv[pos + 4].1 {
                                                TokenView::RBrace => PRes::Val(
                                                    Limit::Limited { min: lo, max: hi },
                                                    pos + 5,
                                                ),
                                                _ => PRes::Fail(
                                                    ParseErrModel::Tok(
                                                        tv[pos + 4].0,
                                                        tv[pos + 4].2,
                                                        "\"}\""@,
                                                    ),
                                                ),
                                            }
                                        }
                                    },
                                    _ => PRes::Fail(
                                        ParseErrModel::Tok(
                                            tv[pos + 3].0,
                                            tv[pos + 3].2,
                                            "an integer or \"}\""@,
                                        ),
                                    ),
                                }
                            }
                        },
                        _ => PRes::Fail(
                            ParseErrModel::Tok(tv[pos + 2].0, tv[pos + 2].2, "\",\" or \"}\""@),
                        ),
                    }
                }
            },
            _ => PRes::Fail(ParseErrModel::Tok(tv[pos + 1].0, tv[pos + 1].2, "an integer"@)),
        }
    }
}

/// Whether the token can start a symbol.
pub open spec fn sp_starts_symbol(t: TokenView) -> bool {
    t is Str || t is LAngle || t is Re
}

/// One symbol: a terminal, a pattern, or a reference.
#[verifier::opaque]
pub open spec fn sp_symbol(tv: Seq<(int, TokenView, int)>, pos: int) -> PRes<SymbolView> {
    if !(0 <= pos < tv.len()) {
        PRes::Fail(ParseErrModel::Eof("a symbol"@))
    } else {
        match tv[pos].1 {
            TokenView::Str(s) => PRes::Val(
                SymbolView {
                    kind: SymbolKindView::Terminal(s),
                    span: Span { start: tv[pos].0 as usize, end: tv[pos].2 as usize },
                },
                pos + 1,
            ),
            TokenView::Re => {
                if pos + 1 >= tv.len() {
                    PRes::Fail(ParseErrModel::Eof("\"(\""@))
                } else if !(tv[pos + 1].1 is LParen) {
                    PRes::Fail(ParseErrModel::Tok(tv[pos + 1].0, tv[pos + 1].2, "\"(\""@))
                } else if pos + 2 >= tv.len() {
                    PRes::Fail(ParseErrModel::Eof("a string literal"@))
                } else {
                    match tv[pos + 2].1 {
                        TokenView::Str(body) => {
                            if pos + 3 >= tv.len() {
                                PRes::Fail(ParseErrModel::Eof("\")\""@))
                            } else if !(tv[pos + 3].1 is RParen) {
                                PRes::Fail(
                                    ParseErrModel::Tok(tv[pos + 3].0, tv[pos + 3].2, "\")\""@),
                                )
                            } else {
                                match crate::regex::spec_pattern(body) {
                                    Option::Some(node) => PRes::Val(
                                        SymbolView {
                                            kind: SymbolKindView::Regex(
                                                crate::regex::RegexView { source: body, node },
                                            ),
                                            span: Span {
                                                start: tv[pos].0 as usize,
                                                end: tv[pos + 3].2 as usize,
                                            },
                                        },
                                        pos + 4,
                                    ),
                                    Option::None => PRes::Fail(
                                        ParseErrModel::Re(tv[pos + 2].0, tv[pos + 2].2),
                                    ),
                                }
                            }
                        },
                        _ => PRes::Fail(
                            ParseErrModel::Tok(
                                tv[pos + 2].0,
                                tv[pos + 2].2,
                                "a string literal"@,
                            ),
                        ),
                    }
                }
            },
            TokenView::LAngle => match sp_nonterminal(tv, pos) {
                PRes::Fail(pe) => PRes::Fail(pe),
                PRes::Val((nt, span), p) => PRes::Val(
                    SymbolView { kind: SymbolKindView::NonTerminal(nt), span },
                    p,
                ),
            },
            _ => PRes::Fail(ParseErrModel::Tok(tv[pos].0, tv[pos].2, "a symbol"@)),
        }
    }
}

/// The symbols of one alternative from `pos` on, appended to `acc`.
pub open spec fn sp_symbols(
    tv: Seq<(int, TokenView, int)>,
    pos: int,
    acc: Seq<SymbolView>,
) -> PRes<Seq<SymbolView>>
    decreases tv.len() - pos,
{
    if !(0 <= pos <= tv.len()) {
        PRes::Val(acc, pos)
    } else if pos >= tv.len() || !sp_starts_symbol(tv[pos].1) {
        PRes::Val(acc, pos)
    } else {
        match sp_symbol(tv, pos) {
            PRes::Fail(pe) => PRes::Fail(pe),
            PRes::Val(sym, p) => {
                if pos < p <= tv.len() {
                    sp_symbols(tv, p, acc.push(sym))
                } else {
                    // never taken: a symbol always advances
                    PRes::Val(acc, pos)
                }
            },
        }
    }
}

/// One `[weight] symbol* [limit]` alternative. A missing weight is 1;
/// a missing limit is unlimited; the span runs from the first token of
/// the alternative (or the point where it would start) to its last.
#[verifier::opaque]
pub open spec fn sp_alt(tv: Seq<(int, TokenView, int)>, pos: int, n_in: int) -> PRes<
    AlternativeView,
> {
    let start: int = if 0 <= pos < tv.len() {
        tv[pos].0
    } else {
        n_in
    };
    let weighted: (usize, int) = if 0 <= pos < tv.len() && (tv[pos].1 matches TokenView::Int(_)) {
        (tv[pos].1->Int_0, pos + 1)
    } else {
        (1usize, pos)
    };
    match sp_symbols(tv, weighted.1, Seq::empty()) {
        PRes::Fail(pe) => PRes::Fail(pe),
        PRes::Val(syms, p2) => {
            let end0: int = if p2 > pos && 0 <= p2 - 1 < tv.len() {
                tv[p2 - 1].2
            } else {
                start
            };
            if 0 <= p2 < tv.len() && tv[p2].1 is LBrace {
                match sp_limit(tv, p2) {
                    PRes::Fail(pe) => PRes::Fail(pe),
                    PRes::Val(lim, p3) => {
                        if 0 <= p3 - 1 < tv.len() {
                            PRes::Val(
                                AlternativeView {
                                    span: Span {
                                        start: start as usize,
                                        end: tv[p3 - 1].2 as usize,
                                    },
                                    weight: weighted.0,
                                    invoke_limit: lim,
                                    symbols: syms,
                                },
                                p3,
                            )
                        } else {
                            // never taken: a limit always ends at its brace
                            PRes::Fail(ParseErrModel::Eof("\"}\""@))
                        }
                    },
                }
            } else {
                PRes::Val(
                    AlternativeView {
                        span: Span { start: start as usize, end: end0 as usize },
                        weight: weighted.0,
                        invoke_limit: Limit::Unlimited,
                        symbols: syms,
                    },
                    p2,
                )
            }
        },
    }
}

/// The remaining `"|" alt` arms, appended to `acc`.
pub open spec fn sp_alts_rest(
    tv: Seq<(int, TokenView, int)>,
    pos: int,
    n_in: int,
    acc: Seq<AlternativeView>,
) -> PRes<Seq<AlternativeView>>
    decreases tv.len() - pos,
{
    if !(0 <= pos <= tv.len()) {
        PRes::Val(acc, pos)
    } else if pos >= tv.len() || !(tv[pos].1 is Or) {
        PRes::Val(acc, pos)
    } else {
        match sp_alt(tv, pos + 1, n_in) {
            PRes::Fail(pe) => PRes::Fail(pe),
            PRes::Val(a, p2) => {
                if pos < p2 <= tv.len() {
                    sp_alts_rest(tv, p2, n_in, acc.push(a))
                } else {
                    // never taken: an alternative never moves backwards
                    PRes::Val(acc, pos)
                }
            },
        }
    }
}

/// The whole `alt ("|" alt)*` right-hand side.
pub open spec fn sp_alts(tv: Seq<(int, TokenView, int)>, pos: int, n_in: int) -> PRes<
    Seq<AlternativeView>,
> {
    match sp_alt(tv, pos, n_in) {
        PRes::Fail(pe) => PRes::Fail(pe),
        PRes::Val(first, p) => sp_alts_rest(tv, p, n_in, seq![first]),
    }
}

/// One `"<" id [":" string] ">" "::=" alts ";"` rule.
#[verifier::opaque]
pub open spec fn sp_rule(tv: Seq<(int, TokenView, int)>, pos: int, n_in: int) -> PRes<RuleView> {
    match sp_nonterminal(tv, pos) {
        PRes::Fail(pe) => PRes::Fail(pe),
        PRes::Val((nt, lspan), p1) => {
            if !(0 <= p1 < tv.len()) {
                PRes::Fail(ParseErrModel::Eof("\"::=\""@))
            } else if !(tv[p1].1 is Def) {
                PRes::Fail(ParseErrModel::Tok(tv[p1].0, tv[p1].2, "\"::=\""@))
            } else {
                match sp_alts(tv, p1 + 1, n_in) {
                    PRes::Fail(pe) => PRes::Fail(pe),
                    PRes::Val(alts, p2) => {
                        if !(0 <= p2 < tv.len()) {
                            PRes::Fail(ParseErrModel::Eof("\";\""@))
                        } else if !(tv[p2].1 is Semi) {
                            PRes::Fail(ParseErrModel::Tok(tv[p2].0, tv[p2].2, "\"|\" or \";\""@))
                        } else {
                            PRes::Val(
                                RuleView {
                                    lhs: nt,
                                    production: alts,
                                    span: Span { start: lspan.start, end: tv[p2].2 as usize },
                                },
                                p2 + 1,
                            )
                        }
                    },
                }
            }
        },
    }
}

/// The rules after the first, appended to `acc`; a token other than
/// `<` after a complete rule is an extra token.
pub open spec fn sp_rules_rest(
    tv: Seq<(int, TokenView, int)>,
    pos: int,
    n_in: int,
    acc: Seq<RuleView>,
) -> PRes<Seq<RuleView>>
    decreases tv.len() - pos,
{
    if !(0 <= pos <= tv.len()) {
        PRes::Val(acc, pos)
    } else if pos >= tv.len() {
        PRes::Val(acc, pos)
    } else if !(tv[pos].1 is LAngle) {
        PRes::Fail(ParseErrModel::Extra(tv[pos].0, tv[pos].2))
    } else {
        match sp_rule(tv, pos, n_in) {
            PRes::Fail(pe) => PRes::Fail(pe),
            PRes::Val(rule, p2) => {
                if pos < p2 <= tv.len() {
                    sp_rules_rest(tv, p2, n_in, acc.push(rule))
                } else {
                    // never taken: a rule always advances
                    PRes::Val(acc, pos)
                }
            },
        }
    }
}

/// The whole `rule (rule)*` grammar.
pub open spec fn sp_rules(tv: Seq<(int, TokenView, int)>, n_in: int) -> PRes<Seq<RuleView>> {
    match sp_rule(tv, 0, n_in) {
        PRes::Fail(pe) => PRes::Fail(pe),
        PRes::Val(first, p) => sp_rules_rest(tv, p, n_in, seq![first]),
    }
}

/// The parse function: the grammar (or the error) that grammar text
/// denotes.
pub open spec fn spec_parse(s: Seq<char>) -> ParseModel {
    match crate::lexer::spec_tokens(s, 0) {
        crate::lexer::TokensModel::BadByte(a, b) => ParseModel::BadByte(a, b),
        crate::lexer::TokensModel::BadInt(a, b) => ParseModel::BadInt(a, b),
        crate::lexer::TokensModel::Toks(tv) => match sp_rules(tv, s.len() as int) {
            PRes::Val(rs, _) => ParseModel::Grammar(rs),
            PRes::Fail(ParseErrModel::Tok(a, b, x)) => ParseModel::Tok(a, b, x),
            PRes::Fail(ParseErrModel::Eof(x)) => ParseModel::Eof(x),
            PRes::Fail(ParseErrModel::Extra(a, b)) => ParseModel::Extra(a, b),
            PRes::Fail(ParseErrModel::Re(a, b)) => ParseModel::Re(a, b),
        },
    }
}

/// Parses the whole token stream as `rule (rule)*`.
fn p_rules(toks: &Vec<(usize, Token, usize)>, n_in: usize) -> (r: crate::error::Result<
    (Vec<Rule>, usize),
>)
    ensures
        r matches Ok(p) ==> p.0@.len() >= 1 && (forall|i: int, j: int|
            0 <= i < p.0@.len() && 0 <= j < (#[trigger] p.0@[i])@.production.len() ==> alt_wf(
                #[trigger] p.0@[i]@.production[j],
            )),
        (match sp_rules(triple_views(toks@), n_in as int) {
            PRes::Val(rs, p2) => r matches Ok(x) && crate::grammar::graph::rule_views(x.0@) == rs
                && x.1 as int == p2,
            PRes::Fail(pe) => r matches Err(e) && perr_matches(pe, e, n_in as int),
        }),
{
    let ghost tv = triple_views(toks@);
    let mut rules: Vec<Rule> = Vec::new();
    let first_parse = p_rule(toks, 0, n_in);
    let mut pos: usize;
    match first_parse {
        Ok((first, p0)) => {
            rules.push(first);
            pos = p0;
            proof {
                assert(crate::grammar::graph::rule_views(rules@) =~= seq![rules@[0]@]);
            }
        },
        Err(e) => {
            return Err(e);
        },
    }
    while pos < toks.len()
        invariant
            tv == triple_views(toks@),
            tv.len() == toks@.len(),
            pos <= toks@.len(),
            rules@.len() >= 1,
            forall|i: int, j: int|
                0 <= i < rules@.len() && 0 <= j < (#[trigger] rules@[i])@.production.len()
                    ==> alt_wf(#[trigger] rules@[i]@.production[j]),
            sp_rules(tv, n_in as int) == sp_rules_rest(
                tv,
                pos as int,
                n_in as int,
                crate::grammar::graph::rule_views(rules@),
            ),
        decreases toks@.len() - pos,
    {
        let ghost rv = crate::grammar::graph::rule_views(rules@);
        match &toks[pos].1 {
            Token::LAngle => {},
            _ => {
                proof {
                    assert(!(tv[pos as int].1 is LAngle));
                }
                return Err(Error::ExtraToken { span: Span::new(toks[pos].0, toks[pos].2) });
            },
        }
        let rule_parse = p_rule(toks, pos, n_in);
        match rule_parse {
            Ok((rule, pos2)) => {
                proof {
                    assert(crate::grammar::graph::rule_views(rules@.push(rule)) =~= rv.push(
                        rule@,
                    ));
                }
                rules.push(rule);
                pos = pos2;
            },
            Err(e) => {
                return Err(e);
            },
        }
    }
    proof {
        assert(sp_rules_rest(
            tv,
            pos as int,
            n_in as int,
            crate::grammar::graph::rule_views(rules@),
        ) == PRes::<Seq<RuleView>>::Val(
            crate::grammar::graph::rule_views(rules@),
            pos as int,
        ));
    }
    Ok((rules, pos))
}

/// The span to report for an unexpected end of input.
fn eof_span(n_in: usize) -> (r: Span)
    ensures
        r == sp_eof_span(n_in as int),
{
    if n_in > 0 {
        Span::new(n_in - 1, n_in)
    } else {
        Span::new(0, 0)
    }
}

/// Parses one `"<" id [":" string] ">" "::=" alts ";"` rule.
fn p_rule(toks: &Vec<(usize, Token, usize)>, pos: usize, n_in: usize) -> (r: crate::error::Result<
    (Rule, usize),
>)
    requires
        pos <= toks@.len(),
    ensures
        r matches Ok(p) ==> pos < p.1 <= toks@.len() && (forall|j: int|
            0 <= j < p.0@.production.len() ==> alt_wf(#[trigger] p.0@.production[j])),
        (match sp_rule(triple_views(toks@), pos as int, n_in as int) {
            PRes::Val(rv, p2) => r matches Ok(x) && x.0@ == rv && x.1 as int == p2,
            PRes::Fail(pe) => r matches Err(e) && perr_matches(pe, e, n_in as int),
        }),
{
    proof {
        reveal(sp_rule);
    }
    let ghost tv = triple_views(toks@);
    let nt_parse = p_nonterminal(toks, pos, n_in);
    match nt_parse {
        Err(e) => Err(e),
        Ok(((lhs, lspan), pos1)) => {
            if pos1 >= toks.len() {
                return Err(
                    Error::UnrecognizedEof {
                        span: eof_span(n_in),
                        expect: String::from_str("\"::=\""),
                    },
                );
            }
            match &toks[pos1].1 {
                Token::Def => {},
                _ => {
                    return Err(
                        Error::UnrecognizedToken {
                            span: Span::new(toks[pos1].0, toks[pos1].2),
                            expect: String::from_str("\"::=\""),
                        },
                    );
                },
            }
            let alts_parse = p_alts(toks, pos1 + 1, n_in);
            match alts_parse {
                Err(e) => Err(e),
                Ok((alts, pos2)) => {
                    if pos2 >= toks.len() {
                        return Err(
                            Error::UnrecognizedEof {
                                span: eof_span(n_in),
                                expect: String::from_str("\";\""),
                            },
                        );
                    }
                    match &toks[pos2].1 {
                        Token::Semi => {},
                        _ => {
                            return Err(
                                Error::UnrecognizedToken {
                                    span: Span::new(toks[pos2].0, toks[pos2].2),
                                    expect: String::from_str("\"|\" or \";\""),
                                },
                            );
                        },
                    }
                    let span = Span::new(lspan.start, toks[pos2].2);
                    let rule = Rule { lhs, production: WeightedProduction { alts }, span };
                    proof {
                        assert(rule@.production =~= alt_views(rule.production.alts@));
                    }
                    Ok((rule, pos2 + 1))
                },
            }
        },
    }
}

/// Parses `"<" id [":" string] ">"`, the shape shared by rule heads
/// and references.
fn p_nonterminal(toks: &Vec<(usize, Token, usize)>, pos: usize, n_in: usize) -> (r:
    crate::error::Result<((NonTerminal, Span), usize)>)
    requires
        pos <= toks@.len(),
    ensures
        r matches Ok(p) ==> pos < p.1 <= toks@.len(),
        (match sp_nonterminal(triple_views(toks@), pos as int) {
            PRes::Val(v, p2) => r matches Ok(x) && x.0.0@ == v.0 && x.0.1 == v.1 && x.1 as int
                == p2,
            PRes::Fail(pe) => r matches Err(e) && perr_matches(pe, e, n_in as int),
        }),
{
    proof {
        reveal(sp_nonterminal);
    }
    let ghost tv = triple_views(toks@);
    if pos >= toks.len() {
        return Err(
            Error::UnrecognizedEof { span: eof_span(n_in), expect: String::from_str("\"<\"") },
        );
    }
    match &toks[pos].1 {
        Token::LAngle => {},
        _ => {
            return Err(
                Error::UnrecognizedToken {
                    span: Span::new(toks[pos].0, toks[pos].2),
                    expect: String::from_str("\"<\""),
                },
            );
        },
    }
    if pos + 1 >= toks.len() {
        return Err(
            Error::UnrecognizedEof {
                span: eof_span(n_in),
                expect: String::from_str("an identifier"),
            },
        );
    }
    let name: String;
    match &toks[pos + 1].1 {
        Token::Id(s) => {
            name = s.clone();
        },
        _ => {
            return Err(
                Error::UnrecognizedToken {
                    span: Span::new(toks[pos + 1].0, toks[pos + 1].2),
                    expect: String::from_str("an identifier"),
                },
            );
        },
    }
    let mut p = pos + 2;
    let mut ty = Ty::Untyped;
    if p < toks.len() {
        match &toks[p].1 {
            Token::Colon => {
                if p + 1 >= toks.len() {
                    return Err(
                        Error::UnrecognizedEof {
                            span: eof_span(n_in),
                            expect: String::from_str("a string literal"),
                        },
                    );
                }
                match &toks[p + 1].1 {
                    Token::Str(t) => {
                        ty = Ty::Typed(t.clone());
                        p = p + 2;
                    },
                    _ => {
                        return Err(
                            Error::UnrecognizedToken {
                                span: Span::new(toks[p + 1].0, toks[p + 1].2),
                                expect: String::from_str("a string literal"),
                            },
                        );
                    },
                }
            },
            _ => {},
        }
    }
    if p >= toks.len() {
        return Err(
            Error::UnrecognizedEof { span: eof_span(n_in), expect: String::from_str("\">\"") },
        );
    }
    match &toks[p].1 {
        Token::RAngle => {},
        _ => {
            return Err(
                Error::UnrecognizedToken {
                    span: Span::new(toks[p].0, toks[p].2),
                    expect: String::from_str("\">\""),
                },
            );
        },
    }
    let span = Span::new(toks[pos].0, toks[p].2);
    Ok(((NonTerminal { name, ty }, span), p + 1))
}

/// Parses `alt ("|" alt)*`.
fn p_alts(toks: &Vec<(usize, Token, usize)>, pos: usize, n_in: usize) -> (r: crate::error::Result<
    (Vec<Alternative>, usize),
>)
    requires
        pos <= toks@.len(),
    ensures
        r matches Ok(p) ==> pos <= p.1 <= toks@.len() && (forall|j: int|
            0 <= j < p.0@.len() ==> alt_wf((#[trigger] p.0@[j])@)),
        (match sp_alts(triple_views(toks@), pos as int, n_in as int) {
            PRes::Val(v, p2) => r matches Ok(x) && alt_views(x.0@) == v && x.1 as int == p2,
            PRes::Fail(pe) => r matches Err(e) && perr_matches(pe, e, n_in as int),
        }),
{
    let ghost tv = triple_views(toks@);
    let mut alts: Vec<Alternative> = Vec::new();
    let first_parse = p_alt(toks, pos, n_in);
    let mut pos1: usize;
    match first_parse {
        Err(e) => {
            return Err(e);
        },
        Ok((first, p0)) => {
            alts.push(first);
            pos1 = p0;
            proof {
                assert(alt_views(alts@) =~= seq![alts@[0]@]);
            }
        },
    }
    while pos1 < toks.len() && is_or(&toks[pos1].1)
        invariant
            tv == triple_views(toks@),
            tv.len() == toks@.len(),
            pos <= pos1 <= toks@.len(),
            forall|j: int| 0 <= j < alts@.len() ==> alt_wf((#[trigger] alts@[j])@),
            sp_alts(tv, pos as int, n_in as int) == sp_alts_rest(
                tv,
                pos1 as int,
                n_in as int,
                alt_views(alts@),
            ),
        decreases toks@.len() - pos1,
    {
        let ghost av = alt_views(alts@);
        let next_parse = p_alt(toks, pos1 + 1, n_in);
        match next_parse {
            Err(e) => {
                return Err(e);
            },
            Ok((next, pos2)) => {
                proof {
                    assert(alt_views(alts@.push(next)) =~= av.push(next@));
                }
                alts.push(next);
                pos1 = pos2;
            },
        }
    }
    proof {
        assert(sp_alts_rest(tv, pos1 as int, n_in as int, alt_views(alts@)) == PRes::<
            Seq<AlternativeView>,
        >::Val(alt_views(alts@), pos1 as int));
    }
    Ok((alts, pos1))
}

/// Whether the token is `|`.
fn is_or(t: &Token) -> (r: bool)
    ensures
        r == (t@ is Or),
{
    match t {
        Token::Or => true,
        _ => false,
    }
}

/// Parses one `[weight] symbol* [limit]` alternative.
fn p_alt(toks: &Vec<(usize, Token, usize)>, pos: usize, n_in: usize) -> (r: crate::error::Result<
    (Alternative, usize),
>)
    requires
        pos <= toks@.len(),
    ensures
        r matches Ok(p) ==> pos <= p.1 <= toks@.len() && alt_wf(p.0@),
        (match sp_alt(triple_views(toks@), pos as int, n_in as int) {
            PRes::Val(v, p2) => r matches Ok(x) && x.0@ == v && x.1 as int == p2,
            PRes::Fail(pe) => r matches Err(e) && perr_matches(pe, e, n_in as int),
        }),
{
    proof {
        reveal(sp_alt);
    }
    let ghost tv = triple_views(toks@);
    let start: usize = if pos < toks.len() {
        toks[pos].0
    } else {
        n_in
    };
    let mut weight: usize = 1;
    let mut p = pos;
    if p < toks.len() {
        match &toks[p].1 {
            Token::Int(w) => {
                weight = *w;
                p = p + 1;
            },
            _ => {},
        }
    }
    let ghost pw = p as int;
    let mut symbols: Vec<Symbol> = Vec::new();
    proof {
        assert(symbol_views(symbols@) =~= Seq::<SymbolView>::empty());
    }
    while p < toks.len() && starts_symbol(&toks[p].1)
        invariant
            tv == triple_views(toks@),
            tv.len() == toks@.len(),
            pos <= p <= toks@.len(),
            pw <= p as int,
            start as int == (if 0 <= pos < tv.len() {
                tv[pos as int].0
            } else {
                n_in as int
            }),
            (if 0 <= pos < tv.len() && (tv[pos as int].1 matches TokenView::Int(_)) {
                pw == pos + 1 && weight == tv[pos as int].1->Int_0
            } else {
                pw == pos as int && weight == 1
            }),
            forall|k: int|
                0 <= k < symbols@.len() ==> crate::grammar::checked::sym_wf(
                    (#[trigger] symbols@[k])@.kind,
                ),
            sp_symbols(tv, pw, Seq::empty()) == sp_symbols(tv, p as int, symbol_views(symbols@)),
        decreases toks@.len() - p,
    {
        let ghost sv = symbol_views(symbols@);
        let sym_parse = p_symbol(toks, p, n_in);
        match sym_parse {
            Err(e) => {
                proof {
                    reveal(sp_alt);
                    assert(sp_symbols(tv, pw, Seq::empty()) == sp_symbols(tv, p as int, sv));
                }
                return Err(e);
            },
            Ok((sym, p2)) => {
                proof {
                    assert(symbol_views(symbols@.push(sym)) =~= sv.push(sym@));
                }
                symbols.push(sym);
                p = p2;
            },
        }
    }
    proof {
        assert(sp_symbols(tv, p as int, symbol_views(symbols@)) == PRes::<Seq<SymbolView>>::Val(
            symbol_views(symbols@),
            p as int,
        ));
    }
    let mut limit = Limit::Unlimited;
    let mut end: usize = if p > pos {
        toks[p - 1].2
    } else {
        start
    };
    if p < toks.len() && is_lbrace(&toks[p].1) {
        let limit_parse = p_limit(toks, p, n_in);
        match limit_parse {
            Err(e) => {
                return Err(e);
            },
            Ok((lim, p2)) => {
                limit = lim;
                p = p2;
                end = toks[p - 1].2;
            },
        }
    }
    let alt = Alternative { span: Span::new(start, end), weight, invoke_limit: limit, symbols };
    proof {
        assert(alt@.symbols =~= symbol_views(alt.symbols@));
        assert(alt_wf(alt@));
    }
    Ok((alt, p))
}

/// Whether the token is `{`.
fn is_lbrace(t: &Token) -> (r: bool)
    ensures
        r == (t@ is LBrace),
{
    match t {
        Token::LBrace => true,
        _ => false,
    }
}

/// Whether the token can start a symbol: a string literal, `<`, or
/// the keyword `re`.
fn starts_symbol(t: &Token) -> (r: bool)
    ensures
        r == sp_starts_symbol(t@),
{
    match t {
        Token::Str(_) => true,
        Token::LAngle => true,
        Token::Re => true,
        _ => false,
    }
}

/// Parses one symbol: a terminal, a reference, or a pattern.
fn p_symbol(toks: &Vec<(usize, Token, usize)>, pos: usize, n_in: usize) -> (r:
    crate::error::Result<(Symbol, usize)>)
    requires
        pos < toks@.len(),
    ensures
        r matches Ok(p) ==> pos < p.1 <= toks@.len() && crate::grammar::checked::sym_wf(
            p.0@.kind,
        ),
        (match sp_symbol(triple_views(toks@), pos as int) {
            PRes::Val(v, p2) => r matches Ok(x) && x.0@ == v && x.1 as int == p2,
            PRes::Fail(pe) => r matches Err(e) && perr_matches(pe, e, n_in as int),
        }),
{
    proof {
        reveal(sp_symbol);
    }
    let ghost tv = triple_views(toks@);
    let n = toks.len();
    match &toks[pos].1 {
        Token::Str(s) => {
            let sym = Symbol {
                kind: SymbolKind::Terminal(s.clone()),
                span: Span::new(toks[pos].0, toks[pos].2),
            };
            Ok((sym, pos + 1))
        },
        Token::Re => {
            // re "(" string ")"
            if pos + 1 >= n {
                return Err(
                    Error::UnrecognizedEof {
                        span: eof_span(n_in),
                        expect: String::from_str("\"(\""),
                    },
                );
            }
            match &toks[pos + 1].1 {
                Token::LParen => {},
                _ => {
                    return Err(
                        Error::UnrecognizedToken {
                            span: Span::new(toks[pos + 1].0, toks[pos + 1].2),
                            expect: String::from_str("\"(\""),
                        },
                    );
                },
            }
            if pos + 2 >= n {
                return Err(
                    Error::UnrecognizedEof {
                        span: eof_span(n_in),
                        expect: String::from_str("a string literal"),
                    },
                );
            }
            let body: &String;
            match &toks[pos + 2].1 {
                Token::Str(s) => {
                    body = s;
                },
                _ => {
                    return Err(
                        Error::UnrecognizedToken {
                            span: Span::new(toks[pos + 2].0, toks[pos + 2].2),
                            expect: String::from_str("a string literal"),
                        },
                    );
                },
            }
            if pos + 3 >= n {
                return Err(
                    Error::UnrecognizedEof {
                        span: eof_span(n_in),
                        expect: String::from_str("\")\""),
                    },
                );
            }
            match &toks[pos + 3].1 {
                Token::RParen => {},
                _ => {
                    return Err(
                        Error::UnrecognizedToken {
                            span: Span::new(toks[pos + 3].0, toks[pos + 3].2),
                            expect: String::from_str("\")\""),
                        },
                    );
                },
            }
            let re_parse = Regex::spanned(body.as_str(), toks[pos + 2].0, toks[pos + 2].2);
            match re_parse {
                Ok(re) => {
                    let sym = Symbol {
                        kind: SymbolKind::Regex(re),
                        span: Span::new(toks[pos].0, toks[pos + 3].2),
                    };
                    Ok((sym, pos + 4))
                },
                Err(e) => Err(e),
            }
        },
        Token::LAngle => {
            let nt_parse = p_nonterminal(toks, pos, n_in);
            match nt_parse {
                Err(e) => Err(e),
                Ok(((nt, span), p2)) => {
                    let sym = Symbol { kind: SymbolKind::NonTerminal(nt), span };
                    Ok((sym, p2))
                },
            }
        },
        _ => Err(
            Error::UnrecognizedToken {
                span: Span::new(toks[pos].0, toks[pos].2),
                expect: String::from_str("a symbol"),
            },
        ),
    }
}

/// Parses `"{" integer ["," [integer]] "}"`; `{0,}` is no limit at
/// all.
fn p_limit(toks: &Vec<(usize, Token, usize)>, pos: usize, n_in: usize) -> (r:
    crate::error::Result<(Limit, usize)>)
    requires
        pos < toks@.len(),
    ensures
        r matches Ok(p) ==> pos < p.1 <= toks@.len(),
        (match sp_limit(triple_views(toks@), pos as int) {
            PRes::Val(v, p2) => r matches Ok(x) && x.0 == v && x.1 as int == p2,
            PRes::Fail(pe) => r matches Err(e) && perr_matches(pe, e, n_in as int),
        }),
{
    proof {
        reveal(sp_limit);
    }
    let ghost tv = triple_views(toks@);
    let n = toks.len();
    // callers check for `{` before calling
    if pos + 1 >= n {
        return Err(
            Error::UnrecognizedEof { span: eof_span(n_in), expect: String::from_str("an integer") },
        );
    }
    let lo: usize;
    match &toks[pos + 1].1 {
        Token::Int(v) => {
            lo = *v;
        },
        _ => {
            return Err(
                Error::UnrecognizedToken {
                    span: Span::new(toks[pos + 1].0, toks[pos + 1].2),
                    expect: String::from_str("an integer"),
                },
            );
        },
    }
    if pos + 2 >= n {
        return Err(
            Error::UnrecognizedEof {
                span: eof_span(n_in),
                expect: String::from_str("\",\" or \"}\""),
            },
        );
    }
    let lim: Limit;
    let np: usize;
    match &toks[pos + 2].1 {
        Token::RBrace => {
            lim = Limit::Limited { min: lo, max: lo };
            np = pos + 3;
        },
        Token::Comma => {
            if pos + 3 >= n {
                return Err(
                    Error::UnrecognizedEof {
                        span: eof_span(n_in),
                        expect: String::from_str("an integer or \"}\""),
                    },
                );
            }
            match &toks[pos + 3].1 {
                Token::RBrace => {
                    if lo == 0 {
                        lim = Limit::Unlimited;
                    } else {
                        lim = Limit::Limited { min: lo, max: usize::MAX };
                    }
                    np = pos + 4;
                },
                Token::Int(hi) => {
                    if pos + 4 >= n {
                        return Err(
                            Error::UnrecognizedEof {
                                span: eof_span(n_in),
                                expect: String::from_str("\"}\""),
                            },
                        );
                    }
                    match &toks[pos + 4].1 {
                        Token::RBrace => {
                            lim = Limit::Limited { min: lo, max: *hi };
                            np = pos + 5;
                        },
                        _ => {
                            return Err(
                                Error::UnrecognizedToken {
                                    span: Span::new(toks[pos + 4].0, toks[pos + 4].2),
                                    expect: String::from_str("\"}\""),
                                },
                            );
                        },
                    }
                },
                _ => {
                    return Err(
                        Error::UnrecognizedToken {
                            span: Span::new(toks[pos + 3].0, toks[pos + 3].2),
                            expect: String::from_str("an integer or \"}\""),
                        },
                    );
                },
            }
        },
        _ => {
            return Err(
                Error::UnrecognizedToken {
                    span: Span::new(toks[pos + 2].0, toks[pos + 2].2),
                    expect: String::from_str("\",\" or \"}\""),
                },
            );
        },
    }
    Ok((lim, np))
}

} // verus!
