//! Rules: a left-hand non-terminal, its weighted production, and the
//! source span of the definition.

use vstd::prelude::*;

use crate::grammar::alt::{Alternative, AlternativeView};
use crate::grammar::production::WeightedProduction;
use crate::grammar::symbol::{NonTerminal, NonTerminalView};
use crate::span::Span;

verus! {

/// One `<lhs> ::= ... ;` definition.
#[derive(Debug)]
pub struct Rule {
    pub lhs: NonTerminal,
    pub production: WeightedProduction,
    pub span: Span,
}

/// Mathematical model of a rule.
pub struct RuleView {
    pub lhs: NonTerminalView,
    pub production: Seq<AlternativeView>,
    pub span: Span,
}

impl View for Rule {
    type V = RuleView;

    open spec fn view(&self) -> RuleView {
        RuleView { lhs: self.lhs@, production: self.production@, span: self.span }
    }
}

/// Whether every symbol of the alternative is ground (a terminal or a
/// pattern).
pub open spec fn alt_all_ground(a: AlternativeView) -> bool {
    forall|j: int| 0 <= j < a.symbols.len() ==> !((#[trigger] a.symbols[j]).kind is NonTerminal)
}

/// Whether some alternative of the rule consists of ground symbols
/// only, so that one expansion of the rule can emit terminals alone.
pub open spec fn rule_produces_terminals(r: RuleView) -> bool {
    exists|i: int| 0 <= i < r.production.len() && alt_all_ground(#[trigger] r.production[i])
}

impl Rule {
    /// The alternatives of the right-hand side, in order.
    pub fn rhs(&self) -> (r: &Vec<Alternative>)
        ensures
            r@.len() == self@.production.len(),
            forall|i: int| 0 <= i < r@.len() ==> (#[trigger] r@[i])@ == self@.production[i],
    {
        &self.production.alts
    }

    /// Whether some alternative of this rule consists of ground
    /// symbols only.
    pub fn produce_terminals(&self) -> (r: bool)
        ensures
            r == rule_produces_terminals(self@),
    {
        let ghost rv = self@;
        let mut i: usize = 0;
        while i < self.production.alts.len()
            invariant
                i <= self.production.alts@.len(),
                rv == self@,
                rv.production.len() == self.production.alts@.len(),
                forall|k: int|
                    0 <= k < rv.production.len() ==> rv.production[k]
                        == self.production.alts@[k]@,
                forall|k: int| 0 <= k < i ==> !alt_all_ground(#[trigger] rv.production[k]),
            decreases self.production.alts@.len() - i,
        {
            let a = &self.production.alts[i];
            let ghost av = rv.production[i as int];
            let mut ground = true;
            let mut j: usize = 0;
            while j < a.symbols.len()
                invariant
                    j <= a.symbols@.len(),
                    av == rv.production[i as int],
                    av.symbols.len() == a.symbols@.len(),
                    forall|k: int| 0 <= k < av.symbols.len() ==> av.symbols[k] == a.symbols@[k]@,
                    ground == (forall|k: int|
                        0 <= k < j ==> !((#[trigger] av.symbols[k]).kind is NonTerminal)),
                decreases a.symbols@.len() - j,
            {
                let t = a.symbols[j].is_terminal();
                proof {
                    assert(av.symbols[j as int] == a.symbols@[j as int]@);
                }
                if !t {
                    ground = false;
                }
                j = j + 1;
            }
            if ground {
                proof {
                    assert(alt_all_ground(av));
                }
                return true;
            }
            i = i + 1;
        }
        false
    }
}

} // verus!
