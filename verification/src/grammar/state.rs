//! Per-derivation state: the random source and the selection counts of
//! the invoke-limited alternatives.

use vstd::prelude::*;

use crate::rng::Rng;

verus! {

/// The number of times the alternative with identity `id` has been
/// selected, according to the count table `counts` (0 when untracked).
pub open spec fn count_of(counts: Seq<(u64, usize)>, id: u64) -> usize
    decreases counts.len(),
{
    if counts.len() == 0 {
        0
    } else if counts[0].0 == id {
        counts[0].1
    } else {
        count_of(counts.drop_first(), id)
    }
}

/// The count table after one more selection of `id`: the entry of `id`
/// is incremented (saturating), or appended with count 1 when absent.
pub open spec fn spec_track(counts: Seq<(u64, usize)>, id: u64) -> Seq<(u64, usize)>
    decreases counts.len(),
{
    if counts.len() == 0 {
        seq![(id, 1usize)]
    } else if counts[0].0 == id {
        let c = counts[0].1;
        let c1: usize = if c == usize::MAX {
            c
        } else {
            (c + 1) as usize
        };
        seq![(id, c1)] + counts.drop_first()
    } else {
        seq![counts[0]] + spec_track(counts.drop_first(), id)
    }
}

/// Mathematical model of a derivation state.
pub struct StateView {
    /// State of the random source.
    pub rng: u64,
    /// Selection counts, keyed by alternative identity.
    pub counts: Seq<(u64, usize)>,
    /// Number of derivation attempts started with this state.
    pub attempts: usize,
}

/// State of one generation attempt: the random source, and how many
/// times each invoke-limited alternative has been selected so far.
#[derive(Debug)]
pub struct State {
    /// The random source; exclusively owned by this attempt.
    pub rng: Rng,
    /// Selection counts, keyed by alternative identity. Only
    /// alternatives with a bounded invoke limit are tracked.
    pub tracking: Vec<(u64, usize)>,
    /// Total number of attempts made through this state.
    pub attempts: usize,
}

impl View for State {
    type V = StateView;

    open spec fn view(&self) -> StateView {
        StateView { rng: self.rng.state, counts: self.tracking@, attempts: self.attempts }
    }
}

impl State {
    /// A fresh state around the given random source: no alternative has
    /// been selected yet.
    pub fn new(rng: Rng) -> (r: State)
        ensures
            r@.rng == rng.state,
            r@.counts =~= Seq::<(u64, usize)>::empty(),
            r@.attempts == 0,
    {
        State { rng, tracking: Vec::new(), attempts: 0 }
    }

    /// Records one more selection of the alternative with identity
    /// `id`.
    pub fn track(&mut self, id: u64)
        ensures
            final(self)@.counts == spec_track(old(self)@.counts, id),
            final(self)@.rng == old(self)@.rng,
            final(self)@.attempts == old(self)@.attempts,
    {
        let mut i: usize = 0;
        while i < self.tracking.len()
            invariant
                i <= self.tracking@.len(),
                forall|k: int| 0 <= k < i ==> (#[trigger] self.tracking@[k]).0 != id,
                self.rng == old(self).rng,
                self.attempts == old(self).attempts,
                self.tracking@ == old(self)@.counts,
            decreases self.tracking@.len() - i,
        {
            if self.tracking[i].0 == id {
                let c = self.tracking[i].1;
                let c1: usize = if c == usize::MAX {
                    c
                } else {
                    c + 1
                };
                self.tracking.set(i, (id, c1));
                proof {
                    lemma_track_at(old(self)@.counts, id, i as int, c1);
                }
                return ;
            }
            i = i + 1;
        }
        self.tracking.push((id, 1));
        proof {
            lemma_track_append(old(self)@.counts, id);
        }
    }

    /// The number of times the alternative with identity `id` has been
    /// selected.
    pub fn count(&self, id: u64) -> (r: usize)
        ensures
            r == count_of(self@.counts, id),
    {
        let mut i: usize = 0;
        while i < self.tracking.len()
            invariant
                i <= self.tracking@.len(),
                forall|k: int| 0 <= k < i ==> (#[trigger] self.tracking@[k]).0 != id,
            decreases self.tracking@.len() - i,
        {
            if self.tracking[i].0 == id {
                proof {
                    lemma_count_at(self@.counts, id, i as int);
                }
                return self.tracking[i].1;
            }
            i = i + 1;
        }
        proof {
            lemma_count_absent(self@.counts, id);
        }
        0
    }

    /// The total number of attempts made through this state.
    pub fn total_attempts(&self) -> (r: usize)
        ensures
            r == self@.attempts,
    {
        self.attempts
    }

    /// Records the start of one more derivation attempt.
    pub fn make_attempt(&mut self)
        ensures
            final(self)@.attempts == (if old(self)@.attempts == usize::MAX {
                old(self)@.attempts
            } else {
                (old(self)@.attempts + 1) as usize
            }),
            final(self)@.rng == old(self)@.rng,
            final(self)@.counts == old(self)@.counts,
    {
        if self.attempts < usize::MAX {
            self.attempts = self.attempts + 1;
        }
    }
}

/// When `id` first occurs at index `i` with count `c`, `count_of` finds
/// `c`.
proof fn lemma_count_at(counts: Seq<(u64, usize)>, id: u64, i: int)
    requires
        0 <= i < counts.len(),
        counts[i].0 == id,
        forall|k: int| 0 <= k < i ==> (#[trigger] counts[k]).0 != id,
    ensures
        count_of(counts, id) == counts[i].1,
    decreases i,
{
    if i > 0 {
        lemma_count_at(counts.drop_first(), id, i - 1);
    }
}

/// When `id` occurs nowhere, its count is 0.
proof fn lemma_count_absent(counts: Seq<(u64, usize)>, id: u64)
    requires
        forall|k: int| 0 <= k < counts.len() ==> (#[trigger] counts[k]).0 != id,
    ensures
        count_of(counts, id) == 0,
    decreases counts.len(),
{
    if counts.len() > 0 {
        lemma_count_absent(counts.drop_first(), id);
    }
}

/// Updating the first occurrence of `id` in place is what `spec_track`
/// describes.
proof fn lemma_track_at(counts: Seq<(u64, usize)>, id: u64, i: int, c1: usize)
    requires
        0 <= i < counts.len(),
        counts[i].0 == id,
        forall|k: int| 0 <= k < i ==> (#[trigger] counts[k]).0 != id,
        c1 == (if counts[i].1 == usize::MAX {
            counts[i].1
        } else {
            (counts[i].1 + 1) as usize
        }),
    ensures
        spec_track(counts, id) == counts.update(i, (id, c1)),
    decreases i,
{
    if i == 0 {
        assert(spec_track(counts, id) =~= counts.update(0, (id, c1)));
    } else {
        lemma_track_at(counts.drop_first(), id, i - 1, c1);
        assert(counts.drop_first().update(i - 1, (id, c1)) =~= counts.update(
            i,
            (id, c1),
        ).drop_first());
        assert(spec_track(counts, id) =~= counts.update(i, (id, c1)));
    }
}

/// Appending a fresh entry for `id` is what `spec_track` describes when
/// `id` is absent.
proof fn lemma_track_append(counts: Seq<(u64, usize)>, id: u64)
    requires
        forall|k: int| 0 <= k < counts.len() ==> (#[trigger] counts[k]).0 != id,
    ensures
        spec_track(counts, id) == counts.push((id, 1usize)),
    decreases counts.len(),
{
    if counts.len() == 0 {
        assert(spec_track(counts, id) =~= counts.push((id, 1usize)));
    } else {
        lemma_track_append(counts.drop_first(), id);
        assert(spec_track(counts, id) =~= counts.push((id, 1usize)));
    }
}

} // verus!
