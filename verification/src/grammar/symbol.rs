//! Symbols: terminals, non-terminals with an optional type tag, and
//! patterns.

use vstd::prelude::*;

use crate::regex::{Regex, RegexView};
use crate::span::Span;

verus! {

/// The text of a literal terminal.
pub type Terminal = String;

/// The optional type tag of a non-terminal.
#[derive(Debug)]
pub enum Ty {
    /// No tag: a reference resolves to any rule with the same name.
    Untyped,
    /// A tag: a reference resolves only to the rule with the same name
    /// and the same tag.
    Typed(String),
}

/// Mathematical model of a type tag.
pub enum TyView {
    Untyped,
    Typed(Seq<char>),
}

impl View for Ty {
    type V = TyView;

    open spec fn view(&self) -> TyView {
        match self {
            Ty::Untyped => TyView::Untyped,
            Ty::Typed(s) => TyView::Typed(s@),
        }
    }
}

impl Clone for Ty {
    /// A structural copy; the copy has the same mathematical model.
    fn clone(&self) -> (r: Self)
        ensures
            r@ == self@,
    {
        match self {
            Ty::Untyped => Ty::Untyped,
            Ty::Typed(s) => Ty::Typed(s.clone()),
        }
    }
}

impl Ty {
    /// The untyped tag.
    pub fn untyped() -> (r: Ty)
        ensures
            r@ == TyView::Untyped,
    {
        Ty::Untyped
    }

    /// The tag with the given label.
    pub fn typed(s: &str) -> (r: Ty)
        ensures
            r@ == TyView::Typed(s@),
    {
        Ty::Typed(s.to_owned())
    }

    /// The label of a typed tag, or `None` when untyped.
    pub fn ty(&self) -> (r: Option<&str>)
        ensures
            match self@ {
                TyView::Untyped => r is None,
                TyView::Typed(t) => r matches Some(s) && s@ == t,
            },
    {
        match self {
            Ty::Untyped => None,
            Ty::Typed(s) => Some(s.as_str()),
        }
    }

    /// Whether two tags are the same tag with the same label.
    pub fn tag_eq(&self, other: &Ty) -> (r: bool)
        ensures
            r == (self@ == other@),
    {
        match (self, other) {
            (Ty::Untyped, Ty::Untyped) => true,
            (Ty::Typed(a), Ty::Typed(b)) => a.eq(b),
            _ => {
                proof {
                    assert(self@ != other@);
                }
                false
            },
        }
    }
}

/// A non-terminal: an identifier with an optional type tag.
#[derive(Debug)]
pub struct NonTerminal {
    pub name: String,
    pub ty: Ty,
}

/// Mathematical model of a non-terminal.
pub struct NonTerminalView {
    pub name: Seq<char>,
    pub ty: TyView,
}

impl View for NonTerminal {
    type V = NonTerminalView;

    open spec fn view(&self) -> NonTerminalView {
        NonTerminalView { name: self.name@, ty: self.ty@ }
    }
}

impl Clone for NonTerminal {
    /// A structural copy; the copy has the same mathematical model.
    fn clone(&self) -> (r: Self)
        ensures
            r@ == self@,
    {
        NonTerminal { name: self.name.clone(), ty: self.ty.clone() }
    }
}

impl NonTerminal {
    /// The untyped non-terminal with the given name.
    pub fn untyped(name: &str) -> (r: NonTerminal)
        ensures
            r@.name == name@,
            r@.ty == TyView::Untyped,
    {
        NonTerminal { name: name.to_owned(), ty: Ty::Untyped }
    }

    /// The non-terminal with the given name and tag.
    pub fn typed(name: &str, ty: Ty) -> (r: NonTerminal)
        ensures
            r@.name == name@,
            r@.ty == ty@,
    {
        NonTerminal { name: name.to_owned(), ty }
    }

    /// The name, without the tag.
    pub fn as_str(&self) -> (r: &str)
        ensures
            r@ == self@.name,
    {
        self.name.as_str()
    }

    /// Whether two non-terminals have the same name and the same tag.
    pub fn key_eq(&self, other: &NonTerminal) -> (r: bool)
        ensures
            r == (self@ == other@),
    {
        self.name.eq(&other.name) && self.ty.tag_eq(&other.ty)
    }
}

/// The payload of one symbol.
#[derive(Debug)]
pub enum SymbolKind {
    /// A string literal emitted verbatim.
    Terminal(String),
    /// A reference to a rule, resolved at derivation time.
    NonTerminal(NonTerminal),
    /// A pattern synthesizing a terminal at derivation time.
    Regex(Regex),
}

/// Mathematical model of a symbol payload.
pub enum SymbolKindView {
    Terminal(Seq<char>),
    NonTerminal(NonTerminalView),
    Regex(RegexView),
}

impl View for SymbolKind {
    type V = SymbolKindView;

    open spec fn view(&self) -> SymbolKindView {
        match self {
            SymbolKind::Terminal(s) => SymbolKindView::Terminal(s@),
            SymbolKind::NonTerminal(nt) => SymbolKindView::NonTerminal(nt@),
            SymbolKind::Regex(re) => SymbolKindView::Regex(re@),
        }
    }
}

impl Clone for SymbolKind {
    /// A structural copy; the copy has the same mathematical model.
    fn clone(&self) -> (r: Self)
        ensures
            r@ == self@,
    {
        match self {
            SymbolKind::Terminal(s) => SymbolKind::Terminal(s.clone()),
            SymbolKind::NonTerminal(nt) => SymbolKind::NonTerminal(nt.clone()),
            SymbolKind::Regex(re) => {
                let c = re.clone();
                proof {
                    assert(c@.source == re@.source && c@.node == re@.node);
                }
                SymbolKind::Regex(c)
            },
        }
    }
}

impl SymbolKind {
    /// The literal of a non-pattern terminal, or `None`.
    pub fn non_re_terminal(&self) -> (r: Option<&str>)
        ensures
            match self@ {
                SymbolKindView::Terminal(s) => r matches Some(t) && t@ == s,
                _ => r is None,
            },
    {
        match self {
            SymbolKind::Terminal(s) => Some(s.as_str()),
            _ => None,
        }
    }

    /// Whether the symbol is ground: a terminal or a pattern.
    pub fn is_terminal(&self) -> (r: bool)
        ensures
            r == !(self@ is NonTerminal),
    {
        match self {
            SymbolKind::Terminal(_) => true,
            SymbolKind::Regex(_) => true,
            SymbolKind::NonTerminal(_) => false,
        }
    }

    /// The name of a non-terminal reference, or `None`.
    pub fn non_terminal(&self) -> (r: Option<&str>)
        ensures
            match self@ {
                SymbolKindView::NonTerminal(nt) => r matches Some(t) && t@ == nt.name,
                _ => r is None,
            },
    {
        match self {
            SymbolKind::NonTerminal(nt) => Some(nt.name.as_str()),
            _ => None,
        }
    }
}

/// The models of a sequence of spanned symbols, in order.
pub open spec fn symbol_views(s: Seq<Symbol>) -> Seq<SymbolView> {
    Seq::new(s.len(), |i: int| s[i]@)
}

/// The models of a sequence of symbol payloads, in order.
pub open spec fn kind_views(s: Seq<SymbolKind>) -> Seq<SymbolKindView> {
    Seq::new(s.len(), |i: int| s[i]@)
}

/// A symbol together with its source span.
#[derive(Debug)]
pub struct Symbol {
    pub kind: SymbolKind,
    pub span: Span,
}

/// Mathematical model of a spanned symbol.
pub struct SymbolView {
    pub kind: SymbolKindView,
    pub span: Span,
}

impl View for Symbol {
    type V = SymbolView;

    open spec fn view(&self) -> SymbolView {
        SymbolView { kind: self.kind@, span: self.span }
    }
}

impl Clone for Symbol {
    /// A structural copy; the copy has the same mathematical model.
    fn clone(&self) -> (r: Self)
        ensures
            r@ == self@,
    {
        Symbol { kind: self.kind.clone(), span: self.span }
    }
}

impl Symbol {
    /// Whether the symbol is ground: a terminal or a pattern.
    pub fn is_terminal(&self) -> (r: bool)
        ensures
            r == !(self@.kind is NonTerminal),
    {
        self.kind.is_terminal()
    }

    /// The name of a non-terminal reference, or `None`.
    pub fn non_terminal(&self) -> (r: Option<&str>)
        ensures
            match self@.kind {
                SymbolKindView::NonTerminal(nt) => r matches Some(t) && t@ == nt.name,
                _ => r is None,
            },
    {
        self.kind.non_terminal()
    }
}

} // verus!
