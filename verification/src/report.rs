//! Collecting diagnostics for rendering.
//!
//! The reporter gathers structured errors; turning them into annotated
//! source listings is the business of an external renderer, which only
//! needs each error's message and spans. The plain-text form offered
//! here lists one message per line.

use vstd::prelude::*;

use crate::error::{msg_of, Error};

verus! {

/// The collected messages, one per line, in order, from diagnostic
/// `i` on.
pub open spec fn rendered(ds: Seq<Error>, i: int) -> Seq<char>
    decreases ds.len() - i,
{
    if i < 0 || i >= ds.len() {
        Seq::empty()
    } else {
        msg_of(ds[i]) + "
"@ + rendered(ds, i + 1)
    }
}

/// How diagnostics should be rendered.
#[derive(Debug, Clone, Copy, PartialEq, Eq, Structural)]
pub enum Style {
    /// With decorations, for terminals that support them.
    Fancy,
    /// Plain text.
    NoColor,
}

/// An ordered collection of diagnostics.
#[derive(Debug)]
pub struct Reporter {
    pub style: Style,
    pub diagnostics: Vec<Error>,
}

impl Reporter {
    /// An empty reporter with the given style.
    pub fn new(style: Style) -> (r: Reporter)
        ensures
            r.diagnostics@.len() == 0,
            r.style == style,
    {
        Reporter { style, diagnostics: Vec::new() }
    }

    /// Adds one diagnostic.
    pub fn push(&mut self, diagnostic: Error)
        ensures
            final(self).diagnostics@ == old(self).diagnostics@.push(diagnostic),
            final(self).style == old(self).style,
    {
        self.diagnostics.push(diagnostic);
    }

    /// Adds every diagnostic of the collection, in order.
    pub fn extend(&mut self, diagnostics: Vec<Error>)
        ensures
            final(self).diagnostics@ == old(self).diagnostics@ + diagnostics@,
            final(self).style == old(self).style,
    {
        let ghost d0 = self.diagnostics@;
        let ghost add = diagnostics@;
        let mut rest = diagnostics;
        let n = rest.len();
        let mut i: usize = 0;
        while i < n
            invariant
                n == add.len(),
                i <= n,
                rest@ =~= add.subrange(i as int, n as int),
                self.diagnostics@ =~= d0 + add.subrange(0, i as int),
                self.style == old(self).style,
            decreases n - i,
        {
            let e = rest.remove(0);
            proof {
                assert(e == add[i as int]);
            }
            self.diagnostics.push(e);
            proof {
                assert(self.diagnostics@ =~= d0 + add.subrange(0, i as int + 1));
                assert(rest@ =~= add.subrange(i as int + 1, n as int));
            }
            i = i + 1;
        }
        proof {
            assert(add.subrange(0, n as int) =~= add);
        }
    }

    /// The collected messages, one per line, in order.
    pub fn report_to_string(&self) -> (r: String)
        ensures
            r@ == rendered(self.diagnostics@, 0),
    {
        let ghost ds = self.diagnostics@;
        let mut out = String::new();
        let mut i: usize = 0;
        while i < self.diagnostics.len()
            invariant
                ds == self.diagnostics@,
                i <= ds.len(),
                rendered(ds, 0) =~= out@ + rendered(ds, i as int),
            decreases self.diagnostics@.len() - i,
        {
            let ghost before = out@;
            let m = self.diagnostics[i].message();
            out.append(m.as_str());
            out.append("\n");
            proof {
                assert(out@ =~= before + (msg_of(ds[i as int]) + "\n"@));
                assert((before + (msg_of(ds[i as int]) + "\n"@)) + rendered(ds, i as int + 1)
                    =~= before + ((msg_of(ds[i as int]) + "\n"@) + rendered(ds, i as int + 1)));
            }
            i = i + 1;
        }
        proof {
            assert(rendered(ds, ds.len() as int) =~= Seq::<char>::empty());
            assert(out@ + Seq::<char>::empty() =~= out@);
        }
        out
    }

    /// Whether any diagnostic has been collected.
    pub fn has_diagnostics(&self) -> (r: bool)
        ensures
            r == (self.diagnostics@.len() > 0),
    {
        self.diagnostics.len() > 0
    }
}

} // verus!
