//! Weighted productions and the selection of one alternative.
//!
//! Selection prefers alternatives that are still under their soft
//! floor; otherwise any alternative not past its hard ceiling is a
//! candidate. Among the candidates, one is chosen by weighted random
//! selection; an empty candidate set or a zero weight sum means no
//! candidate is available.

use vstd::prelude::*;

use crate::grammar::alt::{alt_identity, over_ceiling, under_floor, Alternative, AlternativeView,
    Limit, non_re_of};
use crate::grammar::state::{spec_track, State, StateView};
use crate::grammar::symbol::{kind_views, SymbolKind, SymbolKindView};
use crate::rng::{rng_out, rng_step};

verus! {

/// Whether any alternative is still under its soft floor.
pub open spec fn any_under(alts: Seq<AlternativeView>, counts: Seq<(u64, usize)>) -> bool {
    exists|i: int| 0 <= i < alts.len() && under_floor(#[trigger] alts[i], counts)
}

/// Whether the alternative is a selection candidate: under-floor in
/// preference mode, else merely not past its ceiling.
pub open spec fn eligible(
    a: AlternativeView,
    counts: Seq<(u64, usize)>,
    under_mode: bool,
) -> bool {
    if under_mode {
        under_floor(a, counts)
    } else {
        !over_ceiling(a, counts)
    }
}

/// The indices of the candidates, in order, from index `i` on.
pub open spec fn cand_indices(
    alts: Seq<AlternativeView>,
    counts: Seq<(u64, usize)>,
    under_mode: bool,
    i: int,
) -> Seq<int>
    decreases alts.len() - i,
{
    if i < 0 || i >= alts.len() {
        Seq::empty()
    } else {
        (if eligible(alts[i], counts, under_mode) {
            seq![i]
        } else {
            Seq::empty()
        }) + cand_indices(alts, counts, under_mode, i + 1)
    }
}

/// The sum of the candidates' weights, from candidate position `j` on.
pub open spec fn sum_weights(alts: Seq<AlternativeView>, cands: Seq<int>, j: int) -> int
    decreases cands.len() - j,
{
    if j < 0 || j >= cands.len() {
        0
    } else {
        alts[cands[j]].weight + sum_weights(alts, cands, j + 1)
    }
}

/// The candidate position selected by draw `x`: the first position
/// whose cumulative weight exceeds `x`.
pub open spec fn pick_position(alts: Seq<AlternativeView>, cands: Seq<int>, x: int, j: int) -> int
    decreases cands.len() - j,
{
    if j < 0 || j >= cands.len() {
        j
    } else if x < alts[cands[j]].weight {
        j
    } else {
        pick_position(alts, cands, x - alts[cands[j]].weight, j + 1)
    }
}

/// What selecting from a production does.
pub enum ChooseModel {
    /// The alternative at index `cand` was selected: its symbol
    /// payloads are handed back and the state advances to `st` (two
    /// draws of the random source; the count of an invoke-limited
    /// alternative is incremented).
    Chosen { cand: int, syms: Seq<SymbolKindView>, st: StateView },
    /// No alternative is selectable: every candidate is past its
    /// ceiling, or the candidates' weights sum to zero.
    NoCandidates,
}

/// The selection function: what `choose_by_state` returns and how it
/// advances the state.
pub open spec fn spec_choose(alts: Seq<AlternativeView>, st: StateView) -> ChooseModel {
    let um = any_under(alts, st.counts);
    let cands = cand_indices(alts, st.counts, um, 0);
    if cands.len() == 0 {
        ChooseModel::NoCandidates
    } else {
        let total = sum_weights(alts, cands, 0);
        if total == 0 {
            ChooseModel::NoCandidates
        } else {
            let d1 = rng_out(st.rng);
            let s1 = rng_step(st.rng);
            let d2 = rng_out(s1);
            let s2 = rng_step(s1);
            let x = (d1 * 0x10000000000000000 + d2) % total;
            let j = pick_position(alts, cands, x, 0);
            let ci = cands[j];
            let a = alts[ci];
            let counts2 = if a.invoke_limit is Limited {
                spec_track(st.counts, alt_identity(a.symbols))
            } else {
                st.counts
            };
            ChooseModel::Chosen {
                cand: ci,
                syms: Seq::new(a.symbols.len(), |k: int| a.symbols[k].kind),
                st: StateView { rng: s2, counts: counts2, attempts: st.attempts },
            }
        }
    }
}

/// The models of a sequence of usize indices.
pub open spec fn ints_of(s: Seq<usize>) -> Seq<int> {
    Seq::new(s.len(), |i: int| s[i] as int)
}

/// Every candidate index is a valid index into the alternatives.
pub proof fn lemma_cands_in_range(
    alts: Seq<AlternativeView>,
    counts: Seq<(u64, usize)>,
    um: bool,
    i: int,
)
    ensures
        forall|j: int|
            0 <= j < cand_indices(alts, counts, um, i).len() ==> {
                let c = #[trigger] cand_indices(alts, counts, um, i)[j];
                0 <= c < alts.len() && eligible(alts[c], counts, um)
            },
    decreases alts.len() - i,
{
    if 0 <= i < alts.len() {
        lemma_cands_in_range(alts, counts, um, i + 1);
        let cur = cand_indices(alts, counts, um, i);
        let rest = cand_indices(alts, counts, um, i + 1);
        assert forall|j: int|
            0 <= j < cur.len() implies {
                let c = #[trigger] cur[j];
                0 <= c < alts.len() && eligible(alts[c], counts, um)
            } by {
            if eligible(alts[i], counts, um) {
                assert(cur =~= seq![i] + rest);
                if j == 0 {
                    assert(cur[0] == i);
                } else {
                    assert(cur[j] == rest[j - 1]);
                }
            } else {
                assert(cur =~= Seq::<int>::empty() + rest);
                assert(cur[j] == rest[j]);
            }
        }
    }
}

/// The weight sum is nonnegative and bounded by the number of
/// candidates times the largest machine weight.
pub proof fn lemma_sum_weights_bound(alts: Seq<AlternativeView>, cands: Seq<int>, j: int)
    ensures
        0 <= sum_weights(alts, cands, j),
        sum_weights(alts, cands, j) <= (cands.len() - j) * (usize::MAX as int) || j
            >= cands.len(),
    decreases cands.len() - j,
{
    if 0 <= j < cands.len() {
        lemma_sum_weights_bound(alts, cands, j + 1);
        assert(alts[cands[j]].weight <= usize::MAX as int);
        assert((cands.len() - j) * (usize::MAX as int) == (usize::MAX as int) + (cands.len() - j
            - 1) * (usize::MAX as int)) by (nonlinear_arith);
    } else {
        if j < 0 {
        }
    }
}

/// When the draw is below the remaining weight, the picked position is
/// a candidate position.
pub proof fn lemma_pick_in_range(alts: Seq<AlternativeView>, cands: Seq<int>, x: int, j: int)
    requires
        0 <= j <= cands.len(),
        0 <= x < sum_weights(alts, cands, j),
    ensures
        j <= pick_position(alts, cands, x, j) < cands.len(),
    decreases cands.len() - j,
{
    if j < cands.len() {
        if x < alts[cands[j]].weight {
        } else {
            lemma_pick_in_range(alts, cands, x - alts[cands[j]].weight, j + 1);
        }
    }
}

/// An ordered sequence of alternatives, sampled by weight.
#[derive(Debug)]
pub struct WeightedProduction {
    pub alts: Vec<Alternative>,
}

impl View for WeightedProduction {
    type V = Seq<AlternativeView>;

    open spec fn view(&self) -> Seq<AlternativeView> {
        Seq::new(self.alts@.len(), |i: int| self.alts@[i]@)
    }
}

impl WeightedProduction {
    /// Selects one alternative under the invoke-limit policy and
    /// returns its symbol payloads; fails with `NoCandidatesAvailable`
    /// for `nt_name` when nothing is selectable.
    pub fn choose_by_state(&self, state: &mut State, nt_name: &str) -> (r: crate::error::Result<
        Vec<SymbolKind>,
    >)
        ensures
            match spec_choose(self@, old(state)@) {
                ChooseModel::Chosen { cand, syms, st } => r matches Ok(v) && kind_views(v@) == syms
                    && final(state)@ == st,
                ChooseModel::NoCandidates => r matches Err(e) && (e matches
                crate::error::Error::NoCandidatesAvailable { name } && name@ == nt_name@)
                    && final(state)@ == old(state)@,
            },
    {
        let ghost alts_v = self@;
        let ghost counts0 = state@.counts;
        // preference mode: is any alternative still under its floor?
        let mut um = false;
        let mut i: usize = 0;
        while i < self.alts.len()
            invariant
                i <= self.alts@.len(),
                alts_v == self@,
                alts_v.len() == self.alts@.len(),
                forall|k: int| 0 <= k < alts_v.len() ==> alts_v[k] == self.alts@[k]@,
                counts0 == state@.counts,
                um == exists|k: int| 0 <= k < i && under_floor(#[trigger] alts_v[k], counts0),
            decreases self.alts@.len() - i,
        {
            if self.alts[i].lose_invoke_limit(state) {
                um = true;
                proof {
                    assert(under_floor(alts_v[i as int], counts0));
                }
            }
            i = i + 1;
        }
        proof {
            assert(um == any_under(alts_v, counts0));
        }
        // the candidate set, as indices into the alternatives
        let ghost cands = cand_indices(alts_v, counts0, um, 0);
        let mut idxs: Vec<usize> = Vec::new();
        let mut i2: usize = 0;
        while i2 < self.alts.len()
            invariant
                i2 <= self.alts@.len(),
                alts_v == self@,
                alts_v.len() == self.alts@.len(),
                forall|k: int| 0 <= k < alts_v.len() ==> alts_v[k] == self.alts@[k]@,
                counts0 == state@.counts,
                um == any_under(alts_v, counts0),
                cands == cand_indices(alts_v, counts0, um, 0),
                cands =~= ints_of(idxs@) + cand_indices(alts_v, counts0, um, i2 as int),
                forall|k: int| 0 <= k < idxs@.len() ==> (#[trigger] idxs@[k]) < alts_v.len(),
            decreases self.alts@.len() - i2,
        {
            let ok = if um {
                self.alts[i2].lose_invoke_limit(state)
            } else {
                !self.alts[i2].exceeds_invoke_limit(state)
            };
            if ok {
                let ghost before = idxs@;
                idxs.push(i2);
                proof {
                    assert(ints_of(idxs@) =~= ints_of(before).push(i2 as int));
                    assert(ints_of(before).push(i2 as int) + cand_indices(
                        alts_v,
                        counts0,
                        um,
                        i2 as int + 1,
                    ) =~= ints_of(before) + (seq![i2 as int] + cand_indices(
                        alts_v,
                        counts0,
                        um,
                        i2 as int + 1,
                    )));
                }
            } else {
                proof {
                    assert(Seq::<int>::empty() + cand_indices(alts_v, counts0, um, i2 as int + 1)
                        =~= cand_indices(alts_v, counts0, um, i2 as int + 1));
                }
            }
            i2 = i2 + 1;
        }
        proof {
            assert(cand_indices(alts_v, counts0, um, alts_v.len() as int) =~= Seq::<int>::empty());
            assert(ints_of(idxs@) + Seq::<int>::empty() =~= ints_of(idxs@));
            assert(cands =~= ints_of(idxs@));
        }
        if idxs.len() == 0 {
            return Err(crate::error::Error::NoCandidatesAvailable { name: nt_name.to_owned() });
        }
        // total weight of the candidates
        proof {
            lemma_cands_in_range(alts_v, counts0, um, 0);
            lemma_sum_weights_bound(alts_v, cands, 0);
        }
        let mut total: u128 = 0;
        let mut j: usize = 0;
        while j < idxs.len()
            invariant
                j <= idxs@.len(),
                alts_v == self@,
                alts_v.len() == self.alts@.len(),
                forall|k: int| 0 <= k < alts_v.len() ==> alts_v[k] == self.alts@[k]@,
                cands == ints_of(idxs@),
                cands.len() == idxs@.len(),
                forall|k: int| 0 <= k < cands.len() ==> cands[k] == idxs@[k] as int,
                forall|k: int|
                    0 <= k < cands.len() ==> 0 <= #[trigger] cands[k] < alts_v.len(),
                total == sum_weights(alts_v, cands, 0) - sum_weights(alts_v, cands, j as int),
                total <= (j as int) * (usize::MAX as int),
            decreases idxs@.len() - j,
        {
            let w = self.alts[idxs[j]].weight;
            proof {
                assert(sum_weights(alts_v, cands, j as int) == alts_v[cands[j as int]].weight
                    + sum_weights(alts_v, cands, j as int + 1));
                assert((j as int + 1) * (usize::MAX as int) == (j as int) * (usize::MAX as int) + (
                usize::MAX as int)) by (nonlinear_arith);
                assert((j as int) * (usize::MAX as int) <= (idxs@.len() as int) * (
                usize::MAX as int)) by (nonlinear_arith)
                    requires
                        0 <= j as int <= idxs@.len() as int,
                ;
                assert((idxs@.len() as int) * (usize::MAX as int) < 0x100000000000000000000000000000000int)
                    by (nonlinear_arith)
                    requires
                        idxs@.len() as int <= usize::MAX as int,
                ;
            }
            total = total + (w as u128);
            j = j + 1;
        }
        proof {
            assert(sum_weights(alts_v, cands, idxs@.len() as int) == 0);
            assert(total == sum_weights(alts_v, cands, 0));
        }
        if total == 0 {
            return Err(crate::error::Error::NoCandidatesAvailable { name: nt_name.to_owned() });
        }
        // two draws make one wide draw below the total weight
        let d1 = state.rng.next_u64();
        let d2 = state.rng.next_u64();
        let big: u128 = (d1 as u128) * 0x10000000000000000u128 + (d2 as u128);
        let x: u128 = big % total;
        // walk the candidates to the picked position
        let ghost xg = x as int;
        proof {
            lemma_pick_in_range(alts_v, cands, xg, 0);
        }
        let p = self.pick_index(&idxs, x, 0, Ghost(cands));
        let ci = idxs[p];
        let chosen = &self.alts[ci];
        // track the selection of an invoke-limited alternative
        if chosen.has_invoke_limits() {
            let id = chosen.id();
            state.track(id);
        }
        // hand back the chosen alternative's symbol payloads
        let mut syms: Vec<SymbolKind> = Vec::new();
        let mut q: usize = 0;
        while q < chosen.symbols.len()
            invariant
                q <= chosen.symbols@.len(),
                syms@.len() == q,
                forall|k: int| 0 <= k < q ==> (#[trigger] syms@[k])@ == chosen.symbols@[k].kind@,
            decreases chosen.symbols@.len() - q,
        {
            syms.push(chosen.symbols[q].kind.clone());
            q = q + 1;
        }
        proof {
            let a = alts_v[ci as int];
            assert(a == self.alts@[ci as int]@);
            assert forall|k: int| 0 <= k < a.symbols.len() implies kind_views(syms@)[k]
                == a.symbols[k].kind by {
                assert(a.symbols[k] == self.alts@[ci as int].symbols@[k]@);
                assert(syms@[k]@ == chosen.symbols@[k].kind@);
            }
            assert(kind_views(syms@) =~= Seq::new(a.symbols.len(), |k: int| a.symbols[k].kind));
        }
        Ok(syms)
    }

    /// Walks the candidate positions from `p` to the one selected by
    /// draw `rem`: the first whose cumulative weight exceeds the draw.
    fn pick_index(
        &self,
        idxs: &Vec<usize>,
        rem: u128,
        p: usize,
        Ghost(cands): Ghost<Seq<int>>,
    ) -> (r: usize)
        requires
            cands == ints_of(idxs@),
            forall|k: int| 0 <= k < cands.len() ==> 0 <= #[trigger] cands[k] < self@.len(),
            p <= idxs@.len(),
            rem < sum_weights(self@, cands, p as int),
        ensures
            p <= r < idxs@.len(),
            r as int == pick_position(self@, cands, rem as int, p as int),
        decreases idxs@.len() - p,
    {
        let ghost alts_v = self@;
        let n = idxs.len();
        proof {
            lemma_sum_weights_bound(alts_v, cands, p as int);
            assert(p < n);
            assert(cands[p as int] == idxs@[p as int] as int);
        }
        let w = self.alts[idxs[p]].weight;
        if rem < w as u128 {
            p
        } else {
            proof {
                assert(sum_weights(alts_v, cands, p as int) == alts_v[cands[p as int]].weight
                    + sum_weights(alts_v, cands, p as int + 1));
            }
            self.pick_index(idxs, rem - (w as u128), p + 1, Ghost(cands))
        }
    }

    /// The non-pattern terminal literals of every alternative, in
    /// order.
    pub fn non_re_terminals(&self) -> (r: Vec<String>)
        ensures
            r.deep_view() == prod_non_re(self@, 0),
    {
        let ghost alts_v = self@;
        let mut out: Vec<String> = Vec::new();
        let mut i: usize = 0;
        while i < self.alts.len()
            invariant
                i <= self.alts@.len(),
                alts_v == self@,
                alts_v.len() == self.alts@.len(),
                forall|k: int| 0 <= k < alts_v.len() ==> alts_v[k] == self.alts@[k]@,
                prod_non_re(alts_v, 0) =~= out.deep_view() + prod_non_re(alts_v, i as int),
            decreases self.alts@.len() - i,
        {
            let ghost before = out.deep_view();
            let mut part = self.alts[i].non_re_terminals();
            let ghost part_v = part.deep_view();
            append_strings(&mut out, &mut part);
            proof {
                assert(out.deep_view() =~= before + part_v);
                assert((before + part_v) + prod_non_re(alts_v, i as int + 1) =~= before + (part_v
                    + prod_non_re(alts_v, i as int + 1)));
            }
            i = i + 1;
        }
        proof {
            assert(prod_non_re(alts_v, alts_v.len() as int) =~= Seq::<Seq<char>>::empty());
            assert(out.deep_view() + Seq::<Seq<char>>::empty() =~= out.deep_view());
        }
        out
    }
}

/// The non-pattern terminal literals of the alternatives from index
/// `i` on, in order.
pub open spec fn prod_non_re(alts: Seq<AlternativeView>, i: int) -> Seq<Seq<char>>
    decreases alts.len() - i,
{
    if i < 0 || i >= alts.len() {
        Seq::empty()
    } else {
        non_re_of(alts[i].symbols, 0) + prod_non_re(alts, i + 1)
    }
}

/// Moves the strings of `src` onto the end of `dst`.
pub fn append_strings(dst: &mut Vec<String>, src: &mut Vec<String>)
    ensures
        final(dst).deep_view() == old(dst).deep_view() + old(src).deep_view(),
{
    let ghost d0 = dst.deep_view();
    let ghost s0 = src.deep_view();
    let n = src.len();
    let mut i: usize = 0;
    while i < n
        invariant
            n == old(src)@.len(),
            i <= n,
            src@.len() == n,
            forall|k: int| 0 <= k < n ==> src@[k] == old(src)@[k],
            s0 == old(src).deep_view(),
            d0 == old(dst).deep_view(),
            dst.deep_view() =~= d0 + s0.subrange(0, i as int),
        decreases n - i,
    {
        let s = src[i].clone();
        let ghost before = dst.deep_view();
        dst.push(s);
        proof {
            assert(dst.deep_view() =~= before.push(src@[i as int]@));
            assert(s0.subrange(0, i as int + 1) =~= s0.subrange(0, i as int).push(s0[i as int]));
            assert(s0[i as int] == src@[i as int]@);
            assert(dst.deep_view() =~= d0 + s0.subrange(0, i as int + 1));
        }
        i = i + 1;
    }
    proof {
        assert(s0.subrange(0, n as int) =~= s0);
    }
}

} // verus!
