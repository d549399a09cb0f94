//! Derivation of strings from a checked grammar.
//!
//! The generator keeps a worklist of pending symbols. Each step reduces
//! the front symbol: a terminal is appended to the output, a pattern is
//! sampled into a terminal, and a reference expands into the chosen
//! alternative's symbols, prepended so that the leftmost is reduced
//! next. When the worklist empties, the collected terminals are joined
//! with single spaces. Each reduction consumes one step of the caller's
//! step ceiling; the result of a run is a function of the grammar, the
//! start symbol, the seed of the random source and the ceiling, so
//! seeded generation is reproducible.

use vstd::prelude::*;

use crate::error::Error;
use crate::grammar::checked::{grammar_wf, lemma_reduce_wf, spec_reduce, sym_wf, CheckedGrammar,
    EntryView, ReduceModel, ReduceOutput};
use crate::grammar::state::{State, StateView};
use crate::grammar::symbol::{kind_views, NonTerminal, NonTerminalView, SymbolKind,
    SymbolKindView, TyView};
use crate::rng::Rng;

verus! {

/// The parts joined by one space between adjacent terminals.
pub open spec fn join_space(parts: Seq<Seq<char>>) -> Seq<char>
    decreases parts.len(),
{
    if parts.len() == 0 {
        Seq::empty()
    } else if parts.len() == 1 {
        parts[0]
    } else {
        join_space(parts.drop_last()) + seq![' '] + parts.last()
    }
}

/// What one derivation run does.
pub enum RunModel {
    /// The worklist emptied: the joined output, and the final state.
    Finished(Seq<char>, StateView),
    /// Selection for `name` found no candidates; the state at the
    /// failure.
    NoCandidates(Seq<char>, StateView),
    /// The step ceiling was hit with work pending; the state at that
    /// point.
    StepsExceeded(StateView),
}

/// The run function: reduces the front of the worklist until it
/// empties, a selection fails, or the fuel runs out.
pub open spec fn spec_run(
    g: Seq<EntryView>,
    stack: Seq<SymbolKindView>,
    buf: Seq<Seq<char>>,
    st: StateView,
    fuel: nat,
) -> RunModel
    decreases fuel,
{
    if stack.len() == 0 {
        RunModel::Finished(join_space(buf), st)
    } else if fuel == 0 {
        RunModel::StepsExceeded(st)
    } else {
        match spec_reduce(g, stack[0], st) {
            ReduceModel::Terminal(s, st1) => spec_run(
                g,
                stack.drop_first(),
                buf.push(s),
                st1,
                (fuel - 1) as nat,
            ),
            ReduceModel::Expand { syms, st: st1, .. } => spec_run(
                g,
                syms + stack.drop_first(),
                buf,
                st1,
                (fuel - 1) as nat,
            ),
            ReduceModel::NoCandidates(name, st1) => RunModel::NoCandidates(name, st1),
        }
    }
}

/// A whole derivation: one untyped start reference, an empty output,
/// a fresh state seeded with `seed`, and `max_steps` of fuel.
pub open spec fn spec_generate(
    g: Seq<EntryView>,
    start: Seq<char>,
    seed: u64,
    max_steps: nat,
) -> RunModel {
    spec_run(
        g,
        seq![
            SymbolKindView::NonTerminal(NonTerminalView { name: start, ty: TyView::Untyped }),
        ],
        Seq::empty(),
        StateView { rng: seed, counts: Seq::empty(), attempts: 0 },
        max_steps,
    )
}

/// Joins the collected terminals with one space between adjacent
/// parts.
fn join_with_spaces(parts: &Vec<String>) -> (r: String)
    ensures
        r@ == join_space(parts.deep_view()),
{
    let ghost ps = parts.deep_view();
    let mut out = String::new();
    let mut i: usize = 0;
    while i < parts.len()
        invariant
            i <= parts@.len(),
            ps == parts.deep_view(),
            ps.len() == parts@.len(),
            forall|k: int| 0 <= k < ps.len() ==> ps[k] == parts@[k]@,
            out@ == join_space(ps.subrange(0, i as int)),
        decreases parts@.len() - i,
    {
        let ghost before = out@;
        if i > 0 {
            out.append(" ");
        }
        out.append(parts[i].as_str());
        proof {
            let prefix = ps.subrange(0, i as int);
            let prefix1 = ps.subrange(0, i as int + 1);
            assert(prefix1.drop_last() =~= prefix);
            assert(prefix1.last() == ps[i as int]);
            if i == 0 {
                reveal_strlit(" ");
                assert(prefix1.len() == 1);
                assert(out@ =~= ps[0]);
            } else {
                reveal_strlit(" ");
                assert(" "@ =~= seq![' ']);
                assert(out@ =~= join_space(prefix) + seq![' '] + ps[i as int]);
            }
        }
        i = i + 1;
    }
    proof {
        assert(ps.subrange(0, ps.len() as int) =~= ps);
    }
    out
}

/// Whether every pending symbol is well formed. Kept opaque so that
/// callers reason about it as one fact.
#[verifier::opaque]
pub open spec fn syms_wf(s: Seq<SymbolKindView>) -> bool {
    forall|k: int| 0 <= k < s.len() ==> sym_wf(#[trigger] s[k])
}

/// One unfolding of `spec_run` when work and fuel remain.
pub proof fn lemma_run_unfold(
    g: Seq<EntryView>,
    stack: Seq<SymbolKindView>,
    buf: Seq<Seq<char>>,
    st: StateView,
    fuel: nat,
)
    requires
        stack.len() > 0,
        fuel > 0,
    ensures
        spec_run(g, stack, buf, st, fuel) == (match spec_reduce(g, stack[0], st) {
            ReduceModel::Terminal(s, st1) => spec_run(
                g,
                stack.drop_first(),
                buf.push(s),
                st1,
                (fuel - 1) as nat,
            ),
            ReduceModel::Expand { syms, st: st1, .. } => spec_run(
                g,
                syms + stack.drop_first(),
                buf,
                st1,
                (fuel - 1) as nat,
            ),
            ReduceModel::NoCandidates(name, st1) => RunModel::NoCandidates(name, st1),
        }),
{
}

/// Stack-based iterative string generator over a checked grammar.
#[derive(Debug)]
pub struct Generator {
    pub grammar: CheckedGrammar,
}

impl Generator {
    /// Wraps a checked grammar for repeated derivations.
    pub fn new(grammar: CheckedGrammar) -> (r: Generator)
        ensures
            r.grammar@ == grammar@,
    {
        Generator { grammar }
    }

    /// Derives one string from the `start` non-terminal, taking at
    /// most `max_steps` reductions. The result and the advance of the
    /// random source are exactly what `spec_generate` describes for
    /// the grammar, the start name, the source's state and the
    /// ceiling: repeated calls from equal seeds give equal results.
    #[verifier::rlimit(100)]
    pub fn generate(&self, start: &str, rng: &mut Rng, max_steps: usize) -> (r: crate::error::Result<
        String,
    >)
        requires
            grammar_wf(self.grammar@),
        ensures
            match spec_generate(self.grammar@, start@, old(rng).state, max_steps as nat) {
                RunModel::Finished(s, st) => r matches Ok(out) && out@ == s && final(rng).state
                    == st.rng,
                RunModel::NoCandidates(name, st) => r matches Err(e) && (e matches
                Error::NoCandidatesAvailable { name: n2 } && n2@ == name) && final(rng).state
                    == st.rng,
                RunModel::StepsExceeded(st) => r matches Err(e) && e == Error::MaxStepsExceeded
                    && final(rng).state == st.rng,
            },
    {
        let ghost g = self.grammar@;
        let mut state = State::new(*rng);
        let mut stack: Vec<SymbolKind> = Vec::new();
        stack.push(SymbolKind::NonTerminal(NonTerminal::untyped(start)));
        let mut buf: Vec<String> = Vec::new();
        let mut steps = max_steps;
        let ghost target = spec_generate(g, start@, old(rng).state, max_steps as nat);
        proof {
            assert(kind_views(stack@) =~= seq![
                SymbolKindView::NonTerminal(
                    NonTerminalView { name: start@, ty: TyView::Untyped },
                ),
            ]);
            assert(buf.deep_view() =~= Seq::<Seq<char>>::empty());
            assert(state@ == (StateView {
                rng: old(rng).state,
                counts: Seq::empty(),
                attempts: 0,
            }));
            reveal(syms_wf);
            assert(syms_wf(kind_views(stack@)));
        }
        while stack.len() != 0
            invariant
                grammar_wf(g),
                g == self.grammar@,
                target == spec_generate(g, start@, old(rng).state, max_steps as nat),
                syms_wf(kind_views(stack@)),
                target == spec_run(g, kind_views(stack@), buf.deep_view(), state@, steps as nat),
            decreases steps,
        {
            if steps == 0 {
                proof {
                    assert(kind_views(stack@).len() == stack@.len());
                    assert(target == RunModel::StepsExceeded(state@));
                }
                *rng = state.rng;
                return Err(Error::MaxStepsExceeded);
            }
            let ghost st0 = state@;
            let ghost stack0 = kind_views(stack@);
            let ghost buf0 = buf.deep_view();
            let ghost steps0 = steps as nat;
            proof {
                lemma_run_unfold(g, stack0, buf0, st0, steps0);
            }
            match self.run_step(&mut stack, &mut buf, &mut state) {
                Ok(_) => {},
                Err(e) => {
                    proof {
                        match spec_reduce(g, stack0[0], st0) {
                            ReduceModel::NoCandidates(nm, stx) => {
                                assert(target == RunModel::NoCandidates(nm, stx));
                            },
                            ReduceModel::Terminal(_, _) => {
                                assert(false);
                            },
                            ReduceModel::Expand { .. } => {
                                assert(false);
                            },
                        }
                    }
                    *rng = state.rng;
                    return Err(e);
                },
            }
            steps = steps - 1;
        }
        proof {
            assert(kind_views(stack@).len() == 0);
            assert(target == RunModel::Finished(join_space(buf.deep_view()), state@));
        }
        let out = join_with_spaces(&buf);
        *rng = state.rng;
        Ok(out)
    }

    /// Derives `count` strings from the `start` non-terminal, seeding
    /// the random source with `seed`. A failed attempt (no candidates,
    /// or the step ceiling) is retried with a fresh derivation state
    /// and the same random stream advanced, up to `max_attempts`
    /// retries; past the cap, the last failure is surfaced. The whole
    /// batch is what `spec_drive` describes, so it is reproducible
    /// from the seed.
    pub fn generate_many(
        &self,
        start: &str,
        seed: u64,
        count: usize,
        max_steps: usize,
        max_attempts: usize,
    ) -> (r: crate::error::Result<Vec<String>>)
        requires
            grammar_wf(self.grammar@),
        ensures
            match spec_drive(
                self.grammar@,
                start@,
                seed,
                Seq::empty(),
                count as nat,
                max_attempts as nat,
                max_steps as nat,
            ) {
                DriveModel::Done(outs, _) => r matches Ok(v) && v.deep_view() == outs,
                DriveModel::FailNoCand(name, _) => r matches Err(e) && (e matches
                Error::NoCandidatesAvailable { name: n2 } && n2@ == name),
                DriveModel::FailSteps(_) => r matches Err(e) && e == Error::MaxStepsExceeded,
            },
    {
        let ghost g = self.grammar@;
        let ghost target = spec_drive(
            g,
            start@,
            seed,
            Seq::empty(),
            count as nat,
            max_attempts as nat,
            max_steps as nat,
        );
        let mut rng = Rng::seeded(seed);
        let mut outs: Vec<String> = Vec::new();
        let mut fails_left = max_attempts;
        proof {
            assert(outs.deep_view() =~= Seq::<Seq<char>>::empty());
        }
        while outs.len() < count
            invariant
                grammar_wf(g),
                g == self.grammar@,
                outs@.len() <= count,
                target == spec_drive(
                    g,
                    start@,
                    seed,
                    Seq::empty(),
                    count as nat,
                    max_attempts as nat,
                    max_steps as nat,
                ),
                target == spec_drive(
                    g,
                    start@,
                    rng.state,
                    outs.deep_view(),
                    (count - outs@.len()) as nat,
                    fails_left as nat,
                    max_steps as nat,
                ),
            decreases count - outs@.len(), fails_left,
        {
            let ghost before = outs.deep_view();
            match self.generate(start, &mut rng, max_steps) {
                Ok(s) => {
                    outs.push(s);
                    proof {
                        assert(outs.deep_view() =~= before.push(outs@[outs@.len() - 1]@));
                    }
                },
                Err(e) => {
                    if fails_left == 0 {
                        return Err(e);
                    }
                    fails_left = fails_left - 1;
                },
            }
        }
        Ok(outs)
    }

    /// One reduction: takes the front symbol of the worklist, emits a
    /// terminal or prepends the expansion, exactly as one unfolding of
    /// `spec_run` describes.
    fn run_step(&self, stack: &mut Vec<SymbolKind>, buf: &mut Vec<String>, state: &mut State) -> (r:
        crate::error::Result<()>)
        requires
            grammar_wf(self.grammar@),
            old(stack)@.len() > 0,
            syms_wf(kind_views(old(stack)@)),
        ensures
            syms_wf(kind_views(final(stack)@)),
            match spec_reduce(self.grammar@, kind_views(old(stack)@)[0], old(state)@) {
                ReduceModel::Terminal(s, st1) => r is Ok && kind_views(final(stack)@)
                    == kind_views(old(stack)@).drop_first() && final(buf).deep_view() == old(
                    buf,
                ).deep_view().push(s) && final(state)@ == st1,
                ReduceModel::Expand { syms, st: st1, .. } => r is Ok && kind_views(final(stack)@)
                    == syms + kind_views(old(stack)@).drop_first() && final(buf).deep_view()
                    == old(buf).deep_view() && final(state)@ == st1,
                ReduceModel::NoCandidates(name, st1) => r matches Err(e) && (e matches
                Error::NoCandidatesAvailable { name: n2 } && n2@ == name) && final(state)@ == st1,
            },
    {
        let ghost g = self.grammar@;
        let ghost st0 = state@;
        let ghost stack0 = kind_views(stack@);
        proof {
            reveal(syms_wf);
        }
        let sym = stack.remove(0);
        proof {
            assert(sym@ == stack0[0]);
            assert(kind_views(stack@) =~= stack0.drop_first());
            lemma_reduce_wf(g, sym@, st0);
        }
        match self.grammar.reduce(sym, state) {
            Ok(out) => {
                match out {
                    ReduceOutput::Terminal(s) => {
                        let ghost before = buf.deep_view();
                        buf.push(s);
                        proof {
                            assert(buf.deep_view() =~= before.push(s@));
                        }
                    },
                    ReduceOutput::NonTerminal { syms, .. } => {
                        let ghost syms_v = kind_views(syms@);
                        let mut ns = syms;
                        ns.append(stack);
                        let ghost rest = kind_views(stack@);
                        *stack = ns;
                        proof {
                            assert(kind_views(stack@) =~= syms_v + stack0.drop_first());
                            assert forall|k: int|
                                0 <= k < kind_views(stack@).len() implies sym_wf(
                                #[trigger] kind_views(stack@)[k],
                            ) by {
                                if k < syms_v.len() {
                                    assert(kind_views(stack@)[k] == syms_v[k]);
                                } else {
                                    assert(kind_views(stack@)[k] == stack0.drop_first()[k
                                        - syms_v.len()]);
                                    assert(stack0.drop_first()[k - syms_v.len()] == stack0[k
                                        - syms_v.len() + 1]);
                                }
                            }
                        }
                    },
                }
                Ok(())
            },
            Err(e) => Err(e),
        }
    }
}

/// What driving repeated derivations does.
pub enum DriveModel {
    /// All requested outputs were produced; the random source ends in
    /// the given state.
    Done(Seq<Seq<char>>, u64),
    /// The attempt cap was exhausted on a failed selection for the
    /// named non-terminal.
    FailNoCand(Seq<char>, u64),
    /// The attempt cap was exhausted on a hit step ceiling.
    FailSteps(u64),
}

/// The driver function: runs derivations until `need` outputs are
/// collected, retrying a failed attempt with a fresh state (the same
/// random stream, advanced) while `fails_left` retries remain.
pub open spec fn spec_drive(
    g: Seq<EntryView>,
    start: Seq<char>,
    rng: u64,
    produced: Seq<Seq<char>>,
    need: nat,
    fails_left: nat,
    max_steps: nat,
) -> DriveModel
    decreases need, fails_left,
{
    if need == 0 {
        DriveModel::Done(produced, rng)
    } else {
        match spec_generate(g, start, rng, max_steps) {
            RunModel::Finished(s, stf) => spec_drive(
                g,
                start,
                stf.rng,
                produced.push(s),
                (need - 1) as nat,
                fails_left,
                max_steps,
            ),
            RunModel::NoCandidates(name, stf) => {
                if fails_left == 0 {
                    DriveModel::FailNoCand(name, stf.rng)
                } else {
                    spec_drive(g, start, stf.rng, produced, need, (fails_left - 1) as nat, max_steps)
                }
            },
            RunModel::StepsExceeded(stf) => {
                if fails_left == 0 {
                    DriveModel::FailSteps(stf.rng)
                } else {
                    spec_drive(g, start, stf.rng, produced, need, (fails_left - 1) as nat, max_steps)
                }
            },
        }
    }
}

/// What one tree reduction does.
pub enum TreeModel {
    /// The finished tree, the state after it, and the unused fuel.
    Done(crate::parse_tree::tree::TreeView, StateView, nat),
    /// Selection for `name` found no candidates; the state at the
    /// failure.
    NoCand(Seq<char>, StateView),
    /// The step ceiling was hit; the state at that point.
    Steps(StateView),
}

/// What deriving a list of sibling trees does.
pub enum TreeListModel {
    /// The finished trees in order, the state after them, and the
    /// unused fuel.
    Done(Seq<crate::parse_tree::tree::TreeView>, StateView, nat),
    /// Selection for `name` found no candidates.
    NoCand(Seq<char>, StateView),
    /// The step ceiling was hit.
    Steps(StateView),
}

/// The tree derivation function: reduces one symbol into a leaf or a
/// branch whose children derive left to right, drawing from the same
/// reduction rules, in the same order, as the string run.
pub open spec fn spec_tree(
    g: Seq<EntryView>,
    sym: SymbolKindView,
    st: StateView,
    fuel: nat,
) -> TreeModel
    decreases fuel, 0nat, 0nat,
{
    if fuel == 0 {
        TreeModel::Steps(st)
    } else {
        match spec_reduce(g, sym, st) {
            ReduceModel::Terminal(s, st1) => TreeModel::Done(
                crate::parse_tree::tree::TreeView::Leaf(SymbolKindView::Terminal(s)),
                st1,
                (fuel - 1) as nat,
            ),
            ReduceModel::NoCandidates(name, st1) => TreeModel::NoCand(name, st1),
            ReduceModel::Expand { name, syms, st: st1 } => match spec_tree_list(
                g,
                syms,
                0,
                st1,
                (fuel - 1) as nat,
            ) {
                TreeListModel::Done(ts, st2, f2) => TreeModel::Done(
                    crate::parse_tree::tree::TreeView::Branch(name, ts),
                    st2,
                    f2,
                ),
                TreeListModel::NoCand(n2, st2) => TreeModel::NoCand(n2, st2),
                TreeListModel::Steps(st2) => TreeModel::Steps(st2),
            },
        }
    }
}

/// Derives the trees of `syms` from index `i` on, threading the state
/// and the fuel left to right.
pub open spec fn spec_tree_list(
    g: Seq<EntryView>,
    syms: Seq<SymbolKindView>,
    i: int,
    st: StateView,
    fuel: nat,
) -> TreeListModel
    decreases fuel, 1nat, syms.len() - i,
{
    if i < 0 || i >= syms.len() {
        TreeListModel::Done(Seq::empty(), st, fuel)
    } else {
        match spec_tree(g, syms[i], st, fuel) {
            TreeModel::NoCand(n, st1) => TreeListModel::NoCand(n, st1),
            TreeModel::Steps(st1) => TreeListModel::Steps(st1),
            TreeModel::Done(t, st2, f2) => {
                if f2 < fuel {
                    match spec_tree_list(g, syms, i + 1, st2, f2) {
                        TreeListModel::Done(rest, st3, f3) => TreeListModel::Done(
                            seq![t] + rest,
                            st3,
                            f3,
                        ),
                        e => e,
                    }
                } else {
                    // never taken: a reduction always burns fuel
                    TreeListModel::Steps(st2)
                }
            },
        }
    }
}

/// A whole tree derivation: one untyped start reference, a fresh
/// state seeded with `seed`, and `max_steps` of fuel.
pub open spec fn spec_tree_generate(
    g: Seq<EntryView>,
    start: Seq<char>,
    seed: u64,
    max_steps: nat,
) -> TreeModel {
    spec_tree(
        g,
        SymbolKindView::NonTerminal(NonTerminalView { name: start, ty: TyView::Untyped }),
        StateView { rng: seed, counts: Seq::empty(), attempts: 0 },
        max_steps,
    )
}

/// A finished drive returns exactly the requested number of outputs.
pub proof fn lemma_drive_len(
    g: Seq<EntryView>,
    start: Seq<char>,
    rng: u64,
    produced: Seq<Seq<char>>,
    need: nat,
    fails_left: nat,
    max_steps: nat,
)
    ensures
        spec_drive(g, start, rng, produced, need, fails_left, max_steps) matches DriveModel::Done(
            outs,
            _,
        ) ==> outs.len() == produced.len() + need,
    decreases need, fails_left,
{
    if need != 0 {
        match spec_generate(g, start, rng, max_steps) {
            RunModel::Finished(s, stf) => {
                lemma_drive_len(
                    g,
                    start,
                    stf.rng,
                    produced.push(s),
                    (need - 1) as nat,
                    fails_left,
                    max_steps,
                );
            },
            RunModel::NoCandidates(_, stf) => {
                if fails_left != 0 {
                    lemma_drive_len(
                        g,
                        start,
                        stf.rng,
                        produced,
                        need,
                        (fails_left - 1) as nat,
                        max_steps,
                    );
                }
            },
            RunModel::StepsExceeded(stf) => {
                if fails_left != 0 {
                    lemma_drive_len(
                        g,
                        start,
                        stf.rng,
                        produced,
                        need,
                        (fails_left - 1) as nat,
                        max_steps,
                    );
                }
            },
        }
    }
}

/// Recursive tree-building generator over a checked grammar.
///
/// It draws from the same reduction rules as [`Generator`], in the
/// same left-to-right order, but keeps the derivation structure as a
/// tree instead of flattening it to a string.
#[derive(Debug)]
pub struct TreeGenerator {
    pub grammar: CheckedGrammar,
}

impl TreeGenerator {
    /// Wraps a checked grammar for tree derivations.
    pub fn new(grammar: CheckedGrammar) -> (r: TreeGenerator)
        ensures
            r.grammar@ == grammar@,
    {
        TreeGenerator { grammar }
    }

    /// Derives one parse tree from the `start` non-terminal, taking at
    /// most `max_steps` reductions. The tree and the advance of the
    /// random source are exactly what `spec_tree_generate` describes:
    /// repeated calls from equal seeds give equal trees.
    pub fn generate(&self, start: &str, rng: &mut Rng, max_steps: usize) -> (r:
        crate::error::Result<crate::parse_tree::tree::ParseTree<SymbolKind>>)
        requires
            grammar_wf(self.grammar@),
        ensures
            match spec_tree_generate(self.grammar@, start@, old(rng).state, max_steps as nat) {
                TreeModel::Done(t, st, _) => r matches Ok(tree) && tree@ == t && final(rng).state
                    == st.rng,
                TreeModel::NoCand(name, st) => r matches Err(e) && (e matches
                Error::NoCandidatesAvailable { name: n2 } && n2@ == name) && final(rng).state
                    == st.rng,
                TreeModel::Steps(st) => r matches Err(e) && e == Error::MaxStepsExceeded
                    && final(rng).state == st.rng,
            },
    {
        let mut state = State::new(*rng);
        let sym = SymbolKind::NonTerminal(NonTerminal::untyped(start));
        let out = self.generate_tree(sym, &mut state, max_steps);
        *rng = state.rng;
        match out {
            Ok((tree, _)) => Ok(tree),
            Err(e) => Err(e),
        }
    }

    /// Reduces one symbol into a tree node, recursively deriving the
    /// children of an expansion; hands back the unused fuel. Exactly
    /// one unfolding of `spec_tree`.
    fn generate_tree(&self, symbol: SymbolKind, state: &mut State, fuel: usize) -> (r:
        crate::error::Result<(crate::parse_tree::tree::ParseTree<SymbolKind>, usize)>)
        requires
            grammar_wf(self.grammar@),
            sym_wf(symbol@),
        ensures
            r matches Ok(p) ==> p.1 < fuel,
            match spec_tree(self.grammar@, symbol@, old(state)@, fuel as nat) {
                TreeModel::Done(t, st, f2) => r matches Ok(p) && p.0@ == t && p.1 as nat == f2
                    && final(state)@ == st,
                TreeModel::NoCand(name, st) => r matches Err(e) && (e matches
                Error::NoCandidatesAvailable { name: n2 } && n2@ == name) && final(state)@ == st,
                TreeModel::Steps(st) => r matches Err(e) && e == Error::MaxStepsExceeded
                    && final(state)@ == st,
            },
        decreases fuel,
    {
        if fuel == 0 {
            return Err(Error::MaxStepsExceeded);
        }
        let ghost g = self.grammar@;
        let ghost st0 = state@;
        let ghost symv = symbol@;
        proof {
            lemma_reduce_wf(g, symv, st0);
        }
        match self.grammar.reduce(symbol, state) {
            Ok(out) => match out {
                ReduceOutput::Terminal(s) => {
                    let leaf = crate::parse_tree::tree::ParseTree::leaf(SymbolKind::Terminal(s));
                    Ok((leaf, fuel - 1))
                },
                ReduceOutput::NonTerminal { name, syms } => {
                    let ghost syms_v = kind_views(syms@);
                    let ghost st1 = state@;
                    proof {
                        assert forall|k: int| 0 <= k < syms@.len() implies sym_wf(
                            (#[trigger] syms@[k])@,
                        ) by {
                            assert(syms@[k]@ == syms_v[k]);
                        }
                    }
                    let ghost tgt = spec_tree_list(g, syms_v, 0, st1, (fuel - 1) as nat);
                    let ghost namev = name@;
                    proof {
                        assert(spec_tree(g, symv, st0, fuel as nat) == (match tgt {
                            TreeListModel::Done(ts, st3, f3) => TreeModel::Done(
                                crate::parse_tree::tree::TreeView::Branch(namev, ts),
                                st3,
                                f3,
                            ),
                            TreeListModel::NoCand(a, b) => TreeModel::NoCand(a, b),
                            TreeListModel::Steps(x) => TreeModel::Steps(x),
                        }));
                    }
                    let mut children: Vec<crate::parse_tree::tree::ParseTree<SymbolKind>> =
                        Vec::new();
                    let mut rest = fuel - 1;
                    let mut q: usize = 0;
                    let n = syms.len();
                    let work = syms;
                    proof {
                        assert(crate::parse_tree::tree::tree_views(children@) =~= Seq::<
                            crate::parse_tree::tree::TreeView,
                        >::empty());
                    }
                    while q < n
                        invariant
                            grammar_wf(g),
                            g == self.grammar@,
                            symv == symbol@,
                            st0 == old(state)@,
                            namev == name@,
                            spec_tree(g, symv, st0, fuel as nat) == (match tgt {
                                TreeListModel::Done(ts, st3, f3) => TreeModel::Done(
                                    crate::parse_tree::tree::TreeView::Branch(namev, ts),
                                    st3,
                                    f3,
                                ),
                                TreeListModel::NoCand(a, b) => TreeModel::NoCand(a, b),
                                TreeListModel::Steps(x) => TreeModel::Steps(x),
                            }),
                            n == work@.len(),
                            n == syms_v.len(),
                            forall|k: int| 0 <= k < n ==> (#[trigger] work@[k])@ == syms_v[k],
                            q <= n,
                            rest < fuel,
                            forall|k: int| 0 <= k < n ==> sym_wf(#[trigger] syms_v[k]),
                            tgt == (match spec_tree_list(
                                g,
                                syms_v,
                                q as int,
                                state@,
                                rest as nat,
                            ) {
                                TreeListModel::Done(ts2, st3, f3) => TreeListModel::Done(
                                    crate::parse_tree::tree::tree_views(children@) + ts2,
                                    st3,
                                    f3,
                                ),
                                e => e,
                            }),
                        decreases n - q,
                    {
                        let ghost stq = state@;
                        let ghost restq = rest as nat;
                        let ghost ch0 = crate::parse_tree::tree::tree_views(children@);
                        let sym2 = work[q].clone();
                        proof {
                            assert(sym2@ == work@[q as int]@);
                        }
                        match self.generate_tree(sym2, state, rest) {
                            Ok((child, rest2)) => {
                                proof {
                                    assert(children@.push(child).drop_last() =~= children@);
                                    assert(children@.push(child).last() == child);
                                    assert(crate::parse_tree::tree::tree_views(
                                        children@.push(child),
                                    ) == ch0.push(child@));
                                    match spec_tree_list(g, syms_v, q as int + 1, state@, rest2 as nat) {
                                        TreeListModel::Done(rest_ts, st3, f3) => {
                                            assert((ch0 + (seq![child@] + rest_ts)) =~= (ch0.push(
                                                child@,
                                            ) + rest_ts));
                                        },
                                        TreeListModel::NoCand(_, _) => {},
                                        TreeListModel::Steps(_) => {},
                                    }
                                }
                                children.push(child);
                                rest = rest2;
                            },
                            Err(e) => {
                                proof {
                                    assert(sym2@ == syms_v[q as int]);
                                    assert(spec_tree_list(g, syms_v, q as int, stq, restq) == (
                                    match spec_tree(g, syms_v[q as int], stq, restq) {
                                        TreeModel::NoCand(a2, b2) => TreeListModel::NoCand(
                                            a2,
                                            b2,
                                        ),
                                        TreeModel::Steps(x2) => TreeListModel::Steps(x2),
                                        TreeModel::Done(t2, st2, f2) => {
                                            if f2 < restq {
                                                match spec_tree_list(
                                                    g,
                                                    syms_v,
                                                    q as int + 1,
                                                    st2,
                                                    f2,
                                                ) {
                                                    TreeListModel::Done(
                                                        rest_ts,
                                                        st3,
                                                        f3,
                                                    ) => TreeListModel::Done(
                                                        seq![t2] + rest_ts,
                                                        st3,
                                                        f3,
                                                    ),
                                                    e2 => e2,
                                                }
                                            } else {
                                                TreeListModel::Steps(st2)
                                            }
                                        },
                                    }));
                                }
                                return Err(e);
                            },
                        }
                        q = q + 1;
                    }
                    proof {
                        assert(spec_tree_list(g, syms_v, n as int, state@, rest as nat)
                            == TreeListModel::Done(
                            Seq::<crate::parse_tree::tree::TreeView>::empty(),
                            state@,
                            rest as nat,
                        ));
                        assert(crate::parse_tree::tree::tree_views(children@) + Seq::<
                            crate::parse_tree::tree::TreeView,
                        >::empty() =~= crate::parse_tree::tree::tree_views(children@));
                    }
                    let branch = crate::parse_tree::tree::ParseTree::branch(name, children);
                    Ok((branch, rest))
                },
            },
            Err(e) => {
                proof {
                    match crate::grammar::checked::spec_reduce(g, symv, st0) {
                        crate::grammar::checked::ReduceModel::NoCandidates(_, _) => {},
                        crate::grammar::checked::ReduceModel::Terminal(_, _) => {
                            assert(false);
                        },
                        crate::grammar::checked::ReduceModel::Expand { .. } => {
                            assert(false);
                        },
                    }
                }
                Err(e)
            },
        }
    }
}

} // verus!
