//! The checked grammar: a validated mapping from `(identifier, tag)` to
//! a weighted production, and the reduction of one symbol.
//!
//! Lookup: a typed reference resolves by exact match of name and tag; an
//! untyped reference draws uniformly among the entries that share its
//! name, whatever their tags.

use vstd::prelude::*;

use crate::error::Error;
use crate::grammar::production::{prod_non_re, spec_choose, ChooseModel, WeightedProduction,
    append_strings};
use crate::grammar::state::{State, StateView};
use crate::grammar::symbol::{kind_views, NonTerminal, NonTerminalView, SymbolKind,
    SymbolKindView, TyView};
use crate::regex::{pat_wf, spec_pick, RESAMPLE_TRIES};
use crate::rng::{rng_out_below, rng_step};

verus! {

/// One entry of the checked grammar: a key and its production.
#[derive(Debug)]
pub struct CheckedEntry {
    pub key: NonTerminal,
    pub production: WeightedProduction,
}

/// Mathematical model of an entry.
pub struct EntryView {
    pub key: NonTerminalView,
    pub alts: Seq<crate::grammar::alt::AlternativeView>,
}

impl View for CheckedEntry {
    type V = EntryView;

    open spec fn view(&self) -> EntryView {
        EntryView { key: self.key@, alts: self.production@ }
    }
}

/// A validated grammar: entries in insertion order, with pairwise
/// distinct keys.
#[derive(Debug)]
pub struct CheckedGrammar {
    pub entries: Vec<CheckedEntry>,
}

impl View for CheckedGrammar {
    type V = Seq<EntryView>;

    open spec fn view(&self) -> Seq<EntryView> {
        Seq::new(self.entries@.len(), |i: int| self.entries@[i]@)
    }
}

/// Whether a symbol payload is well formed (its pattern, if any,
/// compiled to a well-formed tree).
pub open spec fn sym_wf(k: SymbolKindView) -> bool {
    match k {
        SymbolKindView::Regex(re) => pat_wf(re.node),
        _ => true,
    }
}

/// Whether every symbol of the alternative is well formed.
pub open spec fn alt_wf(a: crate::grammar::alt::AlternativeView) -> bool {
    forall|j: int| 0 <= j < a.symbols.len() ==> sym_wf((#[trigger] a.symbols[j]).kind)
}

/// Whether every alternative of the entry is well formed.
pub open spec fn entry_wf(e: EntryView) -> bool {
    forall|i: int| 0 <= i < e.alts.len() ==> alt_wf(#[trigger] e.alts[i])
}

/// Whether every entry of the grammar is well formed.
pub open spec fn grammar_wf(g: Seq<EntryView>) -> bool {
    forall|i: int| 0 <= i < g.len() ==> entry_wf(#[trigger] g[i])
}

/// The grammar-wide set of non-pattern terminal literals, in entry
/// order, from entry `i` on. Pattern samples colliding with one of
/// these are drawn again.
pub open spec fn spec_terminals(g: Seq<EntryView>, i: int) -> Seq<Seq<char>>
    decreases g.len() - i,
{
    if i < 0 || i >= g.len() {
        Seq::empty()
    } else {
        prod_non_re(g[i].alts, 0) + spec_terminals(g, i + 1)
    }
}

/// The indices of the entries whose key has the given name, whatever
/// their tags, from entry `i` on, in order.
pub open spec fn cands_by_name(g: Seq<EntryView>, name: Seq<char>, i: int) -> Seq<int>
    decreases g.len() - i,
{
    if i < 0 || i >= g.len() {
        Seq::empty()
    } else {
        (if g[i].key.name == name {
            seq![i]
        } else {
            Seq::empty()
        }) + cands_by_name(g, name, i + 1)
    }
}

/// The first entry whose key equals `nt` exactly (name and tag), from
/// entry `i` on.
pub open spec fn find_key(g: Seq<EntryView>, nt: NonTerminalView, i: int) -> Option<int>
    decreases g.len() - i,
{
    if i < 0 || i >= g.len() {
        Option::None
    } else if g[i].key == nt {
        Option::Some(i)
    } else {
        find_key(g, nt, i + 1)
    }
}

/// Every candidate index denotes an entry whose key has the given
/// name.
pub proof fn lemma_cands_by_name(g: Seq<EntryView>, name: Seq<char>, i: int)
    ensures
        forall|j: int|
            0 <= j < cands_by_name(g, name, i).len() ==> {
                let c = #[trigger] cands_by_name(g, name, i)[j];
                0 <= c < g.len() && g[c].key.name == name
            },
    decreases g.len() - i,
{
    if 0 <= i < g.len() {
        lemma_cands_by_name(g, name, i + 1);
        let cur = cands_by_name(g, name, i);
        let rest = cands_by_name(g, name, i + 1);
        assert forall|j: int|
            0 <= j < cur.len() implies {
                let c = #[trigger] cur[j];
                0 <= c < g.len() && g[c].key.name == name
            } by {
            if g[i].key.name == name {
                assert(cur =~= seq![i] + rest);
                if j == 0 {
                    assert(cur[0] == i);
                } else {
                    assert(cur[j] == rest[j - 1]);
                }
            } else {
                assert(cur =~= Seq::<int>::empty() + rest);
                assert(cur[j] == rest[j]);
            }
        }
    }
}

/// A found key is in range, equals `nt` exactly, and is the first such
/// entry.
pub proof fn lemma_find_key(g: Seq<EntryView>, nt: NonTerminalView, i: int)
    requires
        0 <= i,
    ensures
        find_key(g, nt, i) matches Some(e) ==> i <= e < g.len() && g[e].key == nt && forall|k: int|
            i <= k < e ==> (#[trigger] g[k]).key != nt,
        find_key(g, nt, i) is None ==> forall|k: int| i <= k < g.len() ==> (#[trigger] g[k]).key
            != nt,
    decreases g.len() - i,
{
    if i < g.len() && g[i].key != nt {
        lemma_find_key(g, nt, i + 1);
    }
}

/// A selection hands back the chosen alternative's symbol payloads:
/// the chosen index is a real alternative and, when the grammar is
/// well formed, so are the payloads.
pub proof fn lemma_choose_shape(alts: Seq<crate::grammar::alt::AlternativeView>, st: StateView)
    ensures
        spec_choose(alts, st) matches ChooseModel::Chosen { cand, syms, .. } ==> 0 <= cand
            < alts.len() && syms == Seq::new(
            alts[cand].symbols.len(),
            |k: int| alts[cand].symbols[k].kind,
        ),
{
    let um = crate::grammar::production::any_under(alts, st.counts);
    let cands = crate::grammar::production::cand_indices(alts, st.counts, um, 0);
    if cands.len() > 0 {
        let total = crate::grammar::production::sum_weights(alts, cands, 0);
        if total != 0 {
            crate::grammar::production::lemma_cands_in_range(alts, st.counts, um, 0);
            crate::grammar::production::lemma_sum_weights_bound(alts, cands, 0);
            let d1 = crate::rng::rng_out(st.rng);
            let s1 = rng_step(st.rng);
            let d2 = crate::rng::rng_out(s1);
            let x = (d1 * 0x10000000000000000 + d2) % total;
            crate::grammar::production::lemma_pick_in_range(alts, cands, x, 0);
        }
    }
}

/// When the grammar is well formed, every symbol that an expansion
/// hands back is well formed.
pub proof fn lemma_reduce_wf(g: Seq<EntryView>, sym: SymbolKindView, st: StateView)
    requires
        grammar_wf(g),
    ensures
        spec_reduce(g, sym, st) matches ReduceModel::Expand { syms, .. } ==> forall|k: int|
            0 <= k < syms.len() ==> sym_wf(#[trigger] syms[k]),
{
    reveal(spec_reduce);
    match sym {
        SymbolKindView::Terminal(_) => {},
        SymbolKindView::Regex(_) => {},
        SymbolKindView::NonTerminal(nt) => match nt.ty {
            TyView::Untyped => {
                let cs = cands_by_name(g, nt.name, 0);
                if cs.len() > 0 {
                    lemma_cands_by_name(g, nt.name, 0);
                    let j = rng_out_below(st.rng, cs.len() as u64) as int;
                    let st1 = StateView {
                        rng: rng_step(st.rng),
                        counts: st.counts,
                        attempts: st.attempts,
                    };
                    lemma_entry_expand_wf(g, cs[j], nt.name, st1);
                }
            },
            TyView::Typed(_) => {
                lemma_find_key(g, nt, 0);
                match find_key(g, nt, 0) {
                    Option::Some(e) => {
                        lemma_entry_expand_wf(g, e, nt.name, st);
                    },
                    Option::None => {},
                }
            },
        },
    }
}

/// The symbols handed back by a selection from a well-formed entry are
/// well formed.
proof fn lemma_entry_expand_wf(g: Seq<EntryView>, e: int, name: Seq<char>, st: StateView)
    requires
        grammar_wf(g),
        0 <= e < g.len(),
    ensures
        spec_reduce_entry(g[e], name, st) matches ReduceModel::Expand { syms, .. } ==> forall|
            k: int,
        |
            0 <= k < syms.len() ==> sym_wf(#[trigger] syms[k]),
{
    lemma_choose_shape(g[e].alts, st);
    match spec_choose(g[e].alts, st) {
        ChooseModel::Chosen { cand, syms, .. } => {
            assert(entry_wf(g[e]));
            let a = g[e].alts[cand];
            assert(alt_wf(a));
            assert forall|k: int| 0 <= k < syms.len() implies sym_wf(#[trigger] syms[k]) by {
                assert(syms[k] == a.symbols[k].kind);
                assert(sym_wf(a.symbols[k].kind));
            }
        },
        ChooseModel::NoCandidates => {},
    }
}

/// The outcome of reducing one symbol.
#[derive(Debug)]
pub enum ReduceOutput {
    /// The symbol became a terminal to append to the output.
    Terminal(String),
    /// The symbol was a reference: the chosen alternative's symbols
    /// are to be expanded next, in order.
    NonTerminal { name: String, syms: Vec<SymbolKind> },
}

/// What reducing one symbol does.
pub enum ReduceModel {
    /// A terminal was produced and the state advanced to `st`.
    Terminal(Seq<char>, StateView),
    /// The reference `name` expanded to `syms`; the state advanced to
    /// `st`.
    Expand { name: Seq<char>, syms: Seq<SymbolKindView>, st: StateView },
    /// No alternative of `name` was selectable; the state at the
    /// failing selection was `st`.
    NoCandidates(Seq<char>, StateView),
}

/// Reduction of a resolved entry: select one alternative.
pub open spec fn spec_reduce_entry(e: EntryView, name: Seq<char>, st: StateView) -> ReduceModel {
    match spec_choose(e.alts, st) {
        ChooseModel::Chosen { syms, st: st2, .. } => ReduceModel::Expand { name, syms, st: st2 },
        ChooseModel::NoCandidates => ReduceModel::NoCandidates(name, st),
    }
}

/// The reduction function: what `reduce` returns and how it advances
/// the state. Kept opaque so that callers reason about its value, not
/// its unfolding.
#[verifier::opaque]
pub open spec fn spec_reduce(g: Seq<EntryView>, sym: SymbolKindView, st: StateView) -> ReduceModel {
    match sym {
        SymbolKindView::Terminal(s) => ReduceModel::Terminal(s, st),
        SymbolKindView::Regex(re) => {
            let pick = spec_pick(re.node, spec_terminals(g, 0), st.rng, RESAMPLE_TRIES as nat);
            ReduceModel::Terminal(
                pick.0,
                StateView { rng: pick.1, counts: st.counts, attempts: st.attempts },
            )
        },
        SymbolKindView::NonTerminal(nt) => match nt.ty {
            TyView::Untyped => {
                let cs = cands_by_name(g, nt.name, 0);
                if cs.len() == 0 {
                    ReduceModel::NoCandidates(nt.name, st)
                } else {
                    let j = rng_out_below(st.rng, cs.len() as u64) as int;
                    let st1 = StateView {
                        rng: rng_step(st.rng),
                        counts: st.counts,
                        attempts: st.attempts,
                    };
                    spec_reduce_entry(g[cs[j]], nt.name, st1)
                }
            },
            TyView::Typed(_) => match find_key(g, nt, 0) {
                Option::None => ReduceModel::NoCandidates(nt.name, st),
                Option::Some(e) => spec_reduce_entry(g[e], nt.name, st),
            },
        },
    }
}

impl CheckedGrammar {
    /// The grammar-wide set of non-pattern terminal literals, in entry
    /// order.
    pub fn collect_terminals(&self) -> (r: Vec<String>)
        ensures
            r.deep_view() == spec_terminals(self@, 0),
    {
        let ghost g = self@;
        let mut out: Vec<String> = Vec::new();
        let mut i: usize = 0;
        while i < self.entries.len()
            invariant
                i <= self.entries@.len(),
                g == self@,
                g.len() == self.entries@.len(),
                forall|k: int| 0 <= k < g.len() ==> g[k] == self.entries@[k]@,
                spec_terminals(g, 0) =~= out.deep_view() + spec_terminals(g, i as int),
            decreases self.entries@.len() - i,
        {
            let ghost before = out.deep_view();
            let mut part = self.entries[i].production.non_re_terminals();
            let ghost part_v = part.deep_view();
            append_strings(&mut out, &mut part);
            proof {
                assert(out.deep_view() =~= before + part_v);
                assert((before + part_v) + spec_terminals(g, i as int + 1) =~= before + (part_v
                    + spec_terminals(g, i as int + 1)));
            }
            i = i + 1;
        }
        proof {
            assert(spec_terminals(g, g.len() as int) =~= Seq::<Seq<char>>::empty());
            assert(out.deep_view() + Seq::<Seq<char>>::empty() =~= out.deep_view());
        }
        out
    }

    /// The indices of the entries whose key has the given name.
    fn candidates_by_name(&self, name: &String) -> (r: Vec<usize>)
        ensures
            crate::grammar::production::ints_of(r@) == cands_by_name(self@, name@, 0),
    {
        let ghost g = self@;
        let ghost cs = cands_by_name(g, name@, 0);
        let mut idxs: Vec<usize> = Vec::new();
        let mut i: usize = 0;
        while i < self.entries.len()
            invariant
                i <= self.entries@.len(),
                g == self@,
                g.len() == self.entries@.len(),
                forall|k: int| 0 <= k < g.len() ==> g[k] == self.entries@[k]@,
                cs == cands_by_name(g, name@, 0),
                cs =~= crate::grammar::production::ints_of(idxs@) + cands_by_name(
                    g,
                    name@,
                    i as int,
                ),
            decreases self.entries@.len() - i,
        {
            let ghost before = idxs@;
            if self.entries[i].key.name.eq(name) {
                idxs.push(i);
                proof {
                    assert(crate::grammar::production::ints_of(idxs@)
                        =~= crate::grammar::production::ints_of(before).push(i as int));
                    assert(crate::grammar::production::ints_of(before).push(i as int)
                        + cands_by_name(g, name@, i as int + 1)
                        =~= crate::grammar::production::ints_of(before) + (seq![i as int]
                        + cands_by_name(g, name@, i as int + 1)));
                }
            } else {
                proof {
                    assert(Seq::<int>::empty() + cands_by_name(g, name@, i as int + 1)
                        =~= cands_by_name(g, name@, i as int + 1));
                }
            }
            i = i + 1;
        }
        proof {
            assert(cands_by_name(g, name@, g.len() as int) =~= Seq::<int>::empty());
            assert(crate::grammar::production::ints_of(idxs@) + Seq::<int>::empty()
                =~= crate::grammar::production::ints_of(idxs@));
            assert(cands_by_name(g, name@, 0) =~= crate::grammar::production::ints_of(idxs@));
        }
        idxs
    }

    /// The first entry whose key equals `nt` exactly, if any.
    fn find_entry(&self, nt: &NonTerminal) -> (r: Option<usize>)
        ensures
            match find_key(self@, nt@, 0) {
                Option::Some(e) => r matches Some(i) && i as int == e,
                Option::None => r is None,
            },
    {
        let ghost g = self@;
        let mut i: usize = 0;
        while i < self.entries.len()
            invariant
                i <= self.entries@.len(),
                g == self@,
                g.len() == self.entries@.len(),
                forall|k: int| 0 <= k < g.len() ==> g[k] == self.entries@[k]@,
                find_key(g, nt@, 0) == find_key(g, nt@, i as int),
            decreases self.entries@.len() - i,
        {
            if self.entries[i].key.key_eq(nt) {
                return Some(i);
            }
            i = i + 1;
        }
        None
    }

    /// Reduces one symbol: a terminal is handed back as-is, a pattern
    /// is sampled (avoiding the grammar's literal terminals), and a
    /// reference resolves to a production from which one alternative
    /// is selected under the invoke-limit policy.
    pub fn reduce(&self, symbol: SymbolKind, state: &mut State) -> (r: crate::error::Result<
        ReduceOutput,
    >)
        requires
            sym_wf(symbol@),
        ensures
            match spec_reduce(self@, symbol@, old(state)@) {
                ReduceModel::Terminal(s, st) => r matches Ok(out) && (out matches
                ReduceOutput::Terminal(t) && t@ == s) && final(state)@ == st,
                ReduceModel::Expand { name, syms, st } => r matches Ok(out) && (out matches
                ReduceOutput::NonTerminal { name: n2, syms: v } && n2@ == name && kind_views(v@)
                    == syms) && final(state)@ == st,
                ReduceModel::NoCandidates(name, st) => r matches Err(e) && (e matches
                Error::NoCandidatesAvailable { name: n2 } && n2@ == name) && final(state)@ == st,
            },
    {
        proof {
            reveal(spec_reduce);
        }
        match symbol {
            SymbolKind::Terminal(s) => Ok(ReduceOutput::Terminal(s)),
            SymbolKind::Regex(re) => {
                let terminals = self.collect_terminals();
                let out = re.generate(&mut state.rng, &terminals);
                Ok(ReduceOutput::Terminal(out))
            },
            SymbolKind::NonTerminal(nt) => {
                let e: usize;
                match &nt.ty {
                    crate::grammar::symbol::Ty::Untyped => {
                        let cands = self.candidates_by_name(&nt.name);
                        proof {
                            assert(cands_by_name(self@, nt@.name, 0).len() == cands@.len());
                        }
                        if cands.len() == 0 {
                            return Err(Error::NoCandidatesAvailable { name: nt.name });
                        }
                        let j = state.rng.below_idx(cands.len());
                        proof {
                            assert(crate::grammar::production::ints_of(cands@)[j as int]
                                == cands@[j as int] as int);
                            lemma_cands_by_name(self@, nt@.name, 0);
                        }
                        e = cands[j];
                    },
                    crate::grammar::symbol::Ty::Typed(_) => {
                        match self.find_entry(&nt) {
                            Option::Some(found) => {
                                proof {
                                    lemma_find_key(self@, nt@, 0);
                                }
                                e = found;
                            },
                            Option::None => {
                                return Err(Error::NoCandidatesAvailable { name: nt.name });
                            },
                        }
                    },
                }
                let syms = self.entries[e].production.choose_by_state(state, nt.name.as_str())?;
                Ok(ReduceOutput::NonTerminal { name: nt.name, syms })
            },
        }
    }
}

} // verus!
