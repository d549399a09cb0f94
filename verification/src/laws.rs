//! The library's stated laws, proved once and for all inputs.
//!
//! Each law is a proof function whose contract states the property
//! over the same spec functions that the executable functions'
//! contracts use, so what is proved here is exactly what the engine is
//! specified to do.

use vstd::prelude::*;

use crate::grammar::alt::{alt_identity, under_floor, AlternativeView, Limit};
use crate::grammar::checked::{cands_by_name, find_key, lemma_cands_by_name, lemma_choose_shape,
    lemma_find_key, spec_reduce, EntryView, ReduceModel};
use crate::grammar::production::{any_under, cand_indices, eligible, lemma_cands_in_range,
    lemma_pick_in_range, lemma_sum_weights_bound, spec_choose, sum_weights, ChooseModel};
use crate::grammar::state::{count_of, spec_track, StateView};
use crate::grammar::symbol::{NonTerminalView, SymbolKindView, TyView};
use crate::generator::{spec_generate, RunModel};
use crate::rng::{rng_out, rng_step};

verus! {

/// Law: seeded generation is deterministic. A whole derivation is the
/// mathematical function `spec_generate` of the grammar, the start
/// name, the seed and the step ceiling — and `Generator::generate`
/// ensures that its result and its advance of the random source are
/// exactly what that function describes. Two derivations from equal
/// inputs are therefore equal.
pub proof fn law_generation_deterministic(
    g: Seq<EntryView>,
    start: Seq<char>,
    seed: u64,
    max_steps: nat,
    r1: RunModel,
    r2: RunModel,
)
    requires
        r1 == spec_generate(g, start, seed, max_steps),
        r2 == spec_generate(g, start, seed, max_steps),
    ensures
        r1 == r2,
{
}

/// Law: selection respects invoke limits. Whenever selection picks an
/// alternative with a bounded limit `{min, max}` (with `min <= max`,
/// as validation guarantees), its count at that moment is at most
/// `max`, and the new state increments exactly that alternative's
/// count. Moreover, while any alternative of the production is still
/// under its soft floor, only under-floor alternatives are picked.
pub proof fn law_selection_respects_limits(alts: Seq<AlternativeView>, st: StateView)
    requires
        forall|j: int|
            0 <= j < alts.len() ==> ((#[trigger] alts[j]).invoke_limit matches Limit::Limited {
                min,
                max,
            } ==> min <= max),
    ensures
        spec_choose(alts, st) matches ChooseModel::Chosen { cand, st: st2, .. } ==> {
            &&& 0 <= cand < alts.len()
            &&& (alts[cand].invoke_limit matches Limit::Limited { min, max } ==> count_of(
                st.counts,
                alt_identity(alts[cand].symbols),
            ) <= max && st2.counts == spec_track(
                st.counts,
                alt_identity(alts[cand].symbols),
            ))
            &&& (any_under(alts, st.counts) ==> under_floor(alts[cand], st.counts))
        },
{
    let um = any_under(alts, st.counts);
    let cands = cand_indices(alts, st.counts, um, 0);
    if cands.len() > 0 {
        let total = sum_weights(alts, cands, 0);
        if total != 0 {
            lemma_cands_in_range(alts, st.counts, um, 0);
            lemma_sum_weights_bound(alts, cands, 0);
            let d1 = rng_out(st.rng);
            let s1 = rng_step(st.rng);
            let d2 = rng_out(s1);
            let x = (d1 * 0x10000000000000000 + d2) % total;
            lemma_pick_in_range(alts, cands, x, 0);
            let j = crate::grammar::production::pick_position(alts, cands, x, 0);
            let ci = cands[j];
            assert(eligible(alts[ci], st.counts, um));
        }
    }
}

/// Whether every bounded limit of the grammar has `min <= max`, as
/// validation guarantees.
pub open spec fn limits_sane(g: Seq<EntryView>) -> bool {
    forall|e: int, j: int|
        0 <= e < g.len() && 0 <= j < g[e].alts.len() ==> ((#[trigger] g[e].alts[j]).invoke_limit
            matches Limit::Limited { min, max } ==> min <= max)
}

/// Whether alternatives that share a content identity share their
/// invoke limit (equal symbol sequences have equal identities; this
/// also excludes accidental hash collisions between alternatives with
/// different limits).
pub open spec fn identities_coherent(g: Seq<EntryView>) -> bool {
    forall|e1: int, j1: int, e2: int, j2: int|
        0 <= e1 < g.len() && 0 <= j1 < g[e1].alts.len() && 0 <= e2 < g.len() && 0 <= j2
            < g[e2].alts.len() && alt_identity((#[trigger] g[e1].alts[j1]).symbols)
            == alt_identity((#[trigger] g[e2].alts[j2]).symbols) ==> g[e1].alts[j1].invoke_limit
            == g[e2].alts[j2].invoke_limit
}

/// Whether no bounded alternative of the grammar has been selected
/// past its hard ceiling: each selection happens at a count of at most
/// `max`, so a count never passes `max + 1`.
pub open spec fn limits_respected(g: Seq<EntryView>, counts: Seq<(u64, usize)>) -> bool {
    forall|e: int, j: int|
        0 <= e < g.len() && 0 <= j < g[e].alts.len() ==> ((#[trigger] g[e].alts[j]).invoke_limit
            matches Limit::Limited { min, max } ==> count_of(
            counts,
            alt_identity(g[e].alts[j].symbols),
        ) <= max + 1)
}

/// Tracking one identity changes only that identity's count, by one
/// (saturating).
pub proof fn lemma_track_count(counts: Seq<(u64, usize)>, id: u64, id2: u64)
    ensures
        id2 == id ==> count_of(spec_track(counts, id), id2) == (if count_of(counts, id)
            == usize::MAX {
            count_of(counts, id)
        } else {
            (count_of(counts, id) + 1) as usize
        }),
        id2 != id ==> count_of(spec_track(counts, id), id2) == count_of(counts, id2),
    decreases counts.len(),
{
    let t = spec_track(counts, id);
    if counts.len() == 0 {
        assert(t =~= seq![(id, 1usize)]);
        assert(t[0] == (id, 1usize));
        assert(t.drop_first() =~= Seq::<(u64, usize)>::empty());
        if id2 != id {
            assert(count_of(t, id2) == count_of(t.drop_first(), id2));
            assert(count_of(t.drop_first(), id2) == 0);
        }
    } else if counts[0].0 == id {
        assert(t[0].0 == id);
        assert(t.drop_first() =~= counts.drop_first());
        if id2 != id {
            assert(count_of(t, id2) == count_of(t.drop_first(), id2));
            assert(count_of(counts, id2) == count_of(counts.drop_first(), id2));
        }
    } else {
        lemma_track_count(counts.drop_first(), id, id2);
        assert(t[0] == counts[0]);
        assert(t.drop_first() =~= spec_track(counts.drop_first(), id));
        if t[0].0 == id2 {
            assert(count_of(t, id2) == t[0].1);
            assert(count_of(counts, id2) == counts[0].1);
        } else {
            assert(count_of(t, id2) == count_of(t.drop_first(), id2));
            assert(count_of(counts, id2) == count_of(counts.drop_first(), id2));
        }
    }
}

/// One reduction keeps every bounded count within its ceiling.
pub proof fn law_reduce_respects_limits(g: Seq<EntryView>, sym: SymbolKindView, st: StateView)
    requires
        limits_sane(g),
        identities_coherent(g),
        limits_respected(g, st.counts),
    ensures
        spec_reduce(g, sym, st) matches ReduceModel::Terminal(_, st1) ==> limits_respected(
            g,
            st1.counts,
        ),
        spec_reduce(g, sym, st) matches ReduceModel::Expand { st: st1, .. }
            ==> limits_respected(g, st1.counts),
        spec_reduce(g, sym, st) matches ReduceModel::NoCandidates(_, st1)
            ==> limits_respected(g, st1.counts),
{
    reveal(spec_reduce);
    match sym {
        SymbolKindView::Terminal(_) => {},
        SymbolKindView::Regex(_) => {},
        SymbolKindView::NonTerminal(nt) => {
            match nt.ty {
                TyView::Untyped => {
                    let cs = cands_by_name(g, nt.name, 0);
                    if cs.len() > 0 {
                        lemma_cands_by_name(g, nt.name, 0);
                        let j = crate::rng::rng_out_below(st.rng, cs.len() as u64) as int;
                        let st1 = StateView {
                            rng: rng_step(st.rng),
                            counts: st.counts,
                            attempts: st.attempts,
                        };
                        lemma_entry_choose_limits(g, cs[j], st1);
                    }
                },
                TyView::Typed(_) => {
                    lemma_find_key(g, nt, 0);
                    match find_key(g, nt, 0) {
                        Option::Some(e) => {
                            lemma_entry_choose_limits(g, e, st);
                        },
                        Option::None => {},
                    }
                },
            }
        },
    }
}

/// A selection from one entry of the grammar keeps every bounded count
/// within its ceiling.
proof fn lemma_entry_choose_limits(g: Seq<EntryView>, e: int, st: StateView)
    requires
        limits_sane(g),
        identities_coherent(g),
        limits_respected(g, st.counts),
        0 <= e < g.len(),
    ensures
        spec_choose(g[e].alts, st) matches ChooseModel::Chosen { st: st2, .. }
            ==> limits_respected(g, st2.counts),
{
    let alts = g[e].alts;
    assert(forall|j: int|
        0 <= j < alts.len() ==> ((#[trigger] alts[j]).invoke_limit matches Limit::Limited {
            min,
            max,
        } ==> min <= max)) by {
        assert(forall|j: int|
            0 <= j < g[e].alts.len() ==> (#[trigger] g[e].alts[j]).invoke_limit
                == alts[j].invoke_limit);
    }
    law_selection_respects_limits(alts, st);
    match spec_choose(alts, st) {
        ChooseModel::Chosen { cand, st: st2, .. } => {
            let a = alts[cand];
            match a.invoke_limit {
                Limit::Unlimited => {
                    assert(st2.counts == st.counts);
                },
                Limit::Limited { min, max } => {
                    let id = alt_identity(a.symbols);
                    assert(count_of(st.counts, id) <= max);
                    assert(st2.counts == spec_track(st.counts, id));
                    assert forall|e2: int, j2: int|
                        0 <= e2 < g.len() && 0 <= j2 < g[e2].alts.len() implies ((
                    #[trigger] g[e2].alts[j2]).invoke_limit matches Limit::Limited {
                        min: min2,
                        max: max2,
                    } ==> count_of(st2.counts, alt_identity(g[e2].alts[j2].symbols)) <= max2
                        + 1) by {
                        let id2 = alt_identity(g[e2].alts[j2].symbols);
                        lemma_track_count(st.counts, id, id2);
                        if id2 == id {
                            assert(g[e].alts[cand].invoke_limit == g[e2].alts[j2].invoke_limit);
                        }
                    }
                },
            }
        },
        ChooseModel::NoCandidates => {},
    }
}

/// Law: across any derivation, no bounded alternative is ever selected
/// once its count has passed its hard ceiling: starting from counts
/// within the ceilings, every state the run ends in — successful or
/// not — still has every bounded count at most `max + 1`, because each
/// selection happened at a count of at most `max`.
pub proof fn law_run_respects_limits(
    g: Seq<EntryView>,
    stack: Seq<SymbolKindView>,
    buf: Seq<Seq<char>>,
    st: StateView,
    fuel: nat,
)
    requires
        limits_sane(g),
        identities_coherent(g),
        limits_respected(g, st.counts),
    ensures
        crate::generator::spec_run(g, stack, buf, st, fuel) matches RunModel::Finished(_, stF)
            ==> limits_respected(g, stF.counts),
        crate::generator::spec_run(g, stack, buf, st, fuel) matches RunModel::NoCandidates(
            _,
            stF,
        ) ==> limits_respected(g, stF.counts),
        crate::generator::spec_run(g, stack, buf, st, fuel) matches RunModel::StepsExceeded(stF)
            ==> limits_respected(g, stF.counts),
    decreases fuel,
{
    if stack.len() != 0 && fuel != 0 {
        law_reduce_respects_limits(g, stack[0], st);
        match spec_reduce(g, stack[0], st) {
            ReduceModel::Terminal(s, st1) => {
                law_run_respects_limits(g, stack.drop_first(), buf.push(s), st1, (fuel - 1) as nat);
            },
            ReduceModel::Expand { syms, st: st1, .. } => {
                law_run_respects_limits(
                    g,
                    syms + stack.drop_first(),
                    buf,
                    st1,
                    (fuel - 1) as nat,
                );
            },
            ReduceModel::NoCandidates(_, _) => {},
        }
    }
}

/// Law: a typed reference resolves only to its exact definition. When
/// reducing `(id, Typed(t))` expands, the production chosen is the one
/// defined with exactly that name and tag; no cross-type substitution
/// occurs.
pub proof fn law_typed_resolution(g: Seq<EntryView>, nt: NonTerminalView, st: StateView)
    requires
        nt.ty is Typed,
    ensures
        spec_reduce(g, SymbolKindView::NonTerminal(nt), st) matches ReduceModel::Expand {
            name,
            syms,
            ..
        } ==> name == nt.name && (exists|e: int, j: int|
            #![trigger g[e].alts[j]]
            0 <= e < g.len() && g[e].key == nt && 0 <= j < g[e].alts.len() && syms == Seq::new(
                g[e].alts[j].symbols.len(),
                |k: int| g[e].alts[j].symbols[k].kind,
            )),
{
    reveal(spec_reduce);
    lemma_find_key(g, nt, 0);
    match find_key(g, nt, 0) {
        Option::Some(e) => {
            lemma_choose_shape(g[e].alts, st);
            match spec_choose(g[e].alts, st) {
                ChooseModel::Chosen { cand, syms, .. } => {
                    assert(g[e].key == nt);
                },
                ChooseModel::NoCandidates => {},
            }
        },
        Option::None => {},
    }
}

/// Law: an untyped reference draws only among same-name definitions.
/// When reducing `(id, Untyped)` expands, the production chosen is one
/// whose left-hand identifier is exactly `id`, whatever its tag.
pub proof fn law_untyped_resolution(g: Seq<EntryView>, nt: NonTerminalView, st: StateView)
    requires
        nt.ty is Untyped,
    ensures
        spec_reduce(g, SymbolKindView::NonTerminal(nt), st) matches ReduceModel::Expand {
            name,
            syms,
            ..
        } ==> name == nt.name && (exists|e: int, j: int|
            #![trigger g[e].alts[j]]
            0 <= e < g.len() && g[e].key.name == nt.name && 0 <= j < g[e].alts.len() && syms
                == Seq::new(
                g[e].alts[j].symbols.len(),
                |k: int| g[e].alts[j].symbols[k].kind,
            )),
{
    reveal(spec_reduce);
    let cs = cands_by_name(g, nt.name, 0);
    if cs.len() > 0 {
        lemma_cands_by_name(g, nt.name, 0);
        let j = crate::rng::rng_out_below(st.rng, cs.len() as u64) as int;
        let st1 = StateView { rng: rng_step(st.rng), counts: st.counts, attempts: st.attempts };
        let e = cs[j];
        lemma_choose_shape(g[e].alts, st1);
        match spec_choose(g[e].alts, st1) {
            ChooseModel::Chosen { .. } => {
                assert(g[e].key.name == nt.name);
            },
            ChooseModel::NoCandidates => {},
        }
    }
}

} // verus!
