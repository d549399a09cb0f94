//! Alternatives: one right-hand branch of a rule, with its weight and
//! invoke limit.
//!
//! Two alternatives are identical for counting purposes when their
//! symbol sequences are structurally equal; the stable identity used
//! for invoke-limit counting is a content hash of the symbol sequence.

use vstd::prelude::*;

use crate::grammar::state::{count_of, State};
use crate::grammar::symbol::{Symbol, SymbolKindView, SymbolView, TyView};
use crate::span::Span;

verus! {

/// How often one alternative may be selected during a single
/// derivation.
#[derive(Debug, Clone, Copy, PartialEq, Eq, Structural)]
pub enum Limit {
    /// May be selected any number of times.
    Unlimited,
    /// Should be selected at least `min` times (a soft floor: the
    /// alternative is preferred while under it) and is forbidden once
    /// its count exceeds `max` (a hard ceiling).
    Limited { min: usize, max: usize },
}

/// The stable identity of an alternative.
pub type AltId = u64;

/// One step of the content hash: fold one value into the accumulator.
pub open spec fn h_step(h: u64, x: u64) -> u64 {
    (h ^ x).wrapping_mul(0x100000001B3)
}

/// Folds the characters of `s` from index `i` into the accumulator.
pub open spec fn h_chars(h: u64, s: Seq<char>, i: int) -> u64
    decreases s.len() - i,
{
    if i < 0 || i >= s.len() {
        h
    } else {
        h_chars(h_step(h, s[i] as u64), s, i + 1)
    }
}

/// Folds one string (its length, then its characters).
pub open spec fn h_text(h: u64, s: Seq<char>) -> u64 {
    h_chars(h_step(h, s.len() as u64), s, 0)
}

/// Folds one symbol payload: a tag for the variant, then its text.
pub open spec fn h_kind(h: u64, k: SymbolKindView) -> u64 {
    match k {
        SymbolKindView::Terminal(s) => h_text(h_step(h, 1), s),
        SymbolKindView::NonTerminal(nt) => {
            let h1 = h_text(h_step(h, 2), nt.name);
            match nt.ty {
                TyView::Untyped => h_step(h1, 0),
                TyView::Typed(t) => h_text(h_step(h1, 1), t),
            }
        },
        SymbolKindView::Regex(re) => h_text(h_step(h, 3), re.source),
    }
}

/// Folds the symbol payloads from index `i` on.
pub open spec fn h_syms(h: u64, syms: Seq<SymbolView>, i: int) -> u64
    decreases syms.len() - i,
{
    if i < 0 || i >= syms.len() {
        h
    } else {
        h_syms(h_kind(h, syms[i].kind), syms, i + 1)
    }
}

/// The content hash of an alternative's symbol sequence: equal symbol
/// sequences have equal identities.
pub open spec fn alt_identity(syms: Seq<SymbolView>) -> AltId {
    h_syms(0xCBF29CE484222325, syms, 0)
}

/// The non-pattern terminal literals among `syms`, from index `i` on,
/// in order.
pub open spec fn non_re_of(syms: Seq<SymbolView>, i: int) -> Seq<Seq<char>>
    decreases syms.len() - i,
{
    if i < 0 || i >= syms.len() {
        Seq::empty()
    } else {
        (match syms[i].kind {
            SymbolKindView::Terminal(s) => seq![s],
            _ => Seq::empty(),
        }) + non_re_of(syms, i + 1)
    }
}

/// The models of a sequence of alternatives, in order.
pub open spec fn alt_views(s: Seq<Alternative>) -> Seq<AlternativeView> {
    Seq::new(s.len(), |i: int| s[i]@)
}

/// One alternative of a production: an ordered sequence of symbols, a
/// positive weight (1 by default), and an invoke limit.
#[derive(Debug)]
pub struct Alternative {
    pub span: Span,
    pub weight: usize,
    pub invoke_limit: Limit,
    pub symbols: Vec<Symbol>,
}

/// Mathematical model of an alternative.
pub struct AlternativeView {
    pub span: Span,
    pub weight: usize,
    pub invoke_limit: Limit,
    pub symbols: Seq<SymbolView>,
}

impl View for Alternative {
    type V = AlternativeView;

    open spec fn view(&self) -> AlternativeView {
        AlternativeView {
            span: self.span,
            weight: self.weight,
            invoke_limit: self.invoke_limit,
            symbols: Seq::new(self.symbols@.len(), |i: int| self.symbols@[i]@),
        }
    }
}

/// Whether the alternative is invoke-limited and still under its soft
/// floor.
pub open spec fn under_floor(a: AlternativeView, counts: Seq<(u64, usize)>) -> bool {
    match a.invoke_limit {
        Limit::Unlimited => false,
        Limit::Limited { min, .. } => count_of(counts, alt_identity(a.symbols)) < min,
    }
}

/// Whether the alternative is invoke-limited and past its hard
/// ceiling.
pub open spec fn over_ceiling(a: AlternativeView, counts: Seq<(u64, usize)>) -> bool {
    match a.invoke_limit {
        Limit::Unlimited => false,
        Limit::Limited { max, .. } => count_of(counts, alt_identity(a.symbols)) > max,
    }
}

impl Alternative {
    /// The stable identity of this alternative: a content hash of its
    /// symbol sequence.
    pub fn id(&self) -> (r: AltId)
        ensures
            r == alt_identity(self@.symbols),
    {
        let ghost syms = self@.symbols;
        let mut h: u64 = 0xCBF29CE484222325;
        let mut i: usize = 0;
        while i < self.symbols.len()
            invariant
                i <= self.symbols@.len(),
                syms == self@.symbols,
                syms.len() == self.symbols@.len(),
                forall|k: int| 0 <= k < syms.len() ==> syms[k] == self.symbols@[k]@,
                alt_identity(syms) == h_syms(h, syms, i as int),
            decreases self.symbols@.len() - i,
        {
            h = hash_kind(h, &self.symbols[i].kind);
            i = i + 1;
        }
        h
    }

    /// Whether this alternative carries a bounded invoke limit.
    pub fn has_invoke_limits(&self) -> (r: bool)
        ensures
            r == (self@.invoke_limit is Limited),
    {
        match self.invoke_limit {
            Limit::Unlimited => false,
            Limit::Limited { .. } => true,
        }
    }

    /// Whether this alternative has been selected more than its hard
    /// ceiling allows.
    pub fn exceeds_invoke_limit(&self, state: &State) -> (r: bool)
        ensures
            r == over_ceiling(self@, state@.counts),
    {
        match self.invoke_limit {
            Limit::Unlimited => false,
            Limit::Limited { max, .. } => state.count(self.id()) > max,
        }
    }

    /// Whether this alternative is still under its soft floor and must
    /// be preferred.
    pub fn lose_invoke_limit(&self, state: &State) -> (r: bool)
        ensures
            r == under_floor(self@, state@.counts),
    {
        match self.invoke_limit {
            Limit::Unlimited => false,
            Limit::Limited { min, .. } => state.count(self.id()) < min,
        }
    }

    /// The non-pattern terminal literals of this alternative, in
    /// order.
    pub fn non_re_terminals(&self) -> (r: Vec<String>)
        ensures
            r.deep_view() == non_re_of(self@.symbols, 0),
    {
        let ghost syms = self@.symbols;
        let mut out: Vec<String> = Vec::new();
        let mut i: usize = 0;
        while i < self.symbols.len()
            invariant
                i <= self.symbols@.len(),
                syms == self@.symbols,
                syms.len() == self.symbols@.len(),
                forall|k: int| 0 <= k < syms.len() ==> syms[k] == self.symbols@[k]@,
                non_re_of(syms, 0) =~= out.deep_view() + non_re_of(syms, i as int),
            decreases self.symbols@.len() - i,
        {
            let ghost before = out.deep_view();
            match &self.symbols[i].kind {
                crate::grammar::symbol::SymbolKind::Terminal(s) => {
                    out.push(s.clone());
                    proof {
                        assert(out.deep_view() =~= before.push(s@));
                        assert(before.push(s@) =~= before + seq![s@]);
                        assert((before + seq![s@]) + non_re_of(syms, i as int + 1) =~= before + (
                        seq![s@] + non_re_of(syms, i as int + 1)));
                    }
                },
                _ => {
                    proof {
                        assert(Seq::<Seq<char>>::empty() + non_re_of(syms, i as int + 1)
                            =~= non_re_of(syms, i as int + 1));
                    }
                },
            }
            i = i + 1;
        }
        proof {
            assert(non_re_of(syms, syms.len() as int) =~= Seq::<Seq<char>>::empty());
            assert(out.deep_view() + Seq::<Seq<char>>::empty() =~= out.deep_view());
        }
        out
    }
}

/// One step of the content hash, executable form.
fn hash_step(h: u64, x: u64) -> (r: u64)
    ensures
        r == h_step(h, x),
{
    (h ^ x).wrapping_mul(0x100000001B3)
}

/// Folds a string into the hash, executable form.
fn hash_text(h: u64, s: &str) -> (r: u64)
    ensures
        r == h_text(h, s@),
{
    let n = s.unicode_len();
    let mut acc = hash_step(h, n as u64);
    let mut i: usize = 0;
    while i < n
        invariant
            n == s@.len(),
            i <= n,
            h_chars(h_step(h, s@.len() as u64), s@, 0) == h_chars(acc, s@, i as int),
        decreases n - i,
    {
        acc = hash_step(acc, s.get_char(i) as u64);
        i = i + 1;
    }
    acc
}

/// Folds one symbol payload into the hash, executable form.
fn hash_kind(h: u64, k: &crate::grammar::symbol::SymbolKind) -> (r: u64)
    ensures
        r == h_kind(h, k@),
{
    match k {
        crate::grammar::symbol::SymbolKind::Terminal(s) => hash_text(hash_step(h, 1), s.as_str()),
        crate::grammar::symbol::SymbolKind::NonTerminal(nt) => {
            let h1 = hash_text(hash_step(h, 2), nt.name.as_str());
            match &nt.ty {
                crate::grammar::symbol::Ty::Untyped => hash_step(h1, 0),
                crate::grammar::symbol::Ty::Typed(t) => hash_text(hash_step(h1, 1), t.as_str()),
            }
        },
        crate::grammar::symbol::SymbolKind::Regex(re) => hash_text(
            hash_step(h, 3),
            re.source.as_str(),
        ),
    }
}

} // verus!
