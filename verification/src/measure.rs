//! Settings of the mean-squared-displacement measurement.

use vstd::prelude::*;

verus! {

/// Default sampling interval of the MSD, in steps.
pub fn default_interval() -> (n: usize)
    ensures
        n == 10,
{
    10
}

/// Default interval between writes of the MSD output, in steps.
pub fn default_output_interval() -> (n: usize)
    ensures
        n == 1000,
{
    1000
}

/// `[msd]` settings: sample every `interval` steps, write every `output_interval` steps.
#[derive(Debug, Clone, Copy, PartialEq, Eq, Structural)]
pub struct MsdConfig {
    pub interval: usize,
    pub output_interval: usize,
}

impl Default for MsdConfig {
    fn default() -> (c: Self)
        ensures
            c.interval == 10,
            c.output_interval == 1000,
    {
        MsdConfig { interval: default_interval(), output_interval: default_output_interval() }
    }
}

/// Per-type MSD measurement plugin.
pub struct TypeMsdPlugin;


/// `step` is a positive multiple of `interval` (a zero interval has no positive multiple).
pub open spec fn positive_multiple(step: usize, interval: usize) -> bool {
    step != 0 && interval != 0 && step % interval == 0
}

/// A measurement sampled every `interval` steps takes a sample at `step`:
/// a positive multiple of the interval.
pub fn sample_due(step: usize, interval: usize) -> (r: bool)
    ensures
        r == positive_multiple(step, interval),
{
    step != 0 && interval != 0 && step % interval == 0
}

// ── Tags a displacement tracker holds ───────────────────────────────────────

/// Length of a tag-indexed table of length `len` after it grew to hold the
/// first `m` tags of `tags`.
pub open spec fn grown_len(len: int, tags: Seq<u32>, m: int) -> int
    decreases m,
{
    if m <= 0 {
        len
    } else {
        let l = grown_len(len, tags, m - 1);
        if tags[m - 1] >= l {
            tags[m - 1] + 1
        } else {
            l
        }
    }
}

/// One of the first `m` tags is `t`.
pub open spec fn tag_among(tags: Seq<u32>, m: int, t: int) -> bool {
    exists|j: int| 0 <= j < m && tags[j] == t
}

/// Which atom tags a per-atom displacement tracker holds an entry for,
/// indexed by tag.
pub struct TagTracker {
    pub has_entry: Vec<bool>,
}

impl TagTracker {
    /// A tracker with no entry.
    pub fn new() -> (r: Self)
        ensures
            r.has_entry@.len() == 0,
    {
        TagTracker { has_entry: Vec::new() }
    }

    /// Records the tags of the local atoms `0..nlocal`, growing the table
    /// to the largest tag seen. Returns, atom by atom, whether the tracker
    /// already held its tag (then its displacement since the last record counts).
    pub fn record(&mut self, tags: &[u32], nlocal: usize) -> (seen: Vec<bool>)
        requires
            nlocal <= tags@.len(),
        ensures
            final(self).has_entry@.len() == grown_len(old(self).has_entry@.len() as int, tags@, nlocal as int),
            forall|t: int| 0 <= t < final(self).has_entry@.len() ==> #[trigger] final(self).has_entry@[t] == ((t
                < old(self).has_entry@.len() && old(self).has_entry@[t]) || tag_among(tags@, nlocal as int, t)),
            seen@.len() == nlocal,
            forall|i: int| 0 <= i < nlocal ==> #[trigger] seen@[i] == ((tags@[i] < old(self).has_entry@.len()
                && old(self).has_entry@[tags@[i] as int]) || tag_among(tags@, i, tags@[i] as int)),
    {
        let ghost old_tab = self.has_entry@;
        let mut seen: Vec<bool> = Vec::new();
        let mut i: usize = 0;
        while i < nlocal
            invariant
                nlocal <= tags@.len(),
                i <= nlocal,
                self.has_entry@.len() == grown_len(old_tab.len() as int, tags@, i as int),
                self.has_entry@.len() >= old_tab.len(),
                forall|t: int| 0 <= t < self.has_entry@.len() ==> #[trigger] self.has_entry@[t] == ((t < old_tab.len()
                    && old_tab[t]) || tag_among(tags@, i as int, t)),
                forall|j: int| 0 <= j < i ==> (#[trigger] tags@[j]) < self.has_entry@.len(),
                seen@.len() == i,
                forall|j: int| 0 <= j < i ==> #[trigger] seen@[j] == ((tags@[j] < old_tab.len() && old_tab[tags@[j] as int])
                    || tag_among(tags@, j, tags@[j] as int)),
            decreases nlocal - i,
        {
            let idx = tags[i] as usize;
            let ghost before = self.has_entry@;
            while self.has_entry.len() <= idx
                invariant
                    before.len() <= self.has_entry@.len(),
                    self.has_entry@.len() == before.len() || self.has_entry@.len() <= idx + 1,
                    self.has_entry@.take(before.len() as int) == before,
                    forall|t: int| before.len() <= t < self.has_entry@.len() ==> !(#[trigger] self.has_entry@[t]),
                decreases idx + 1 - self.has_entry@.len(),
            {
                self.has_entry.push(false);
                proof {
                    assert(self.has_entry@.take(before.len() as int) =~= before);
                }
            }
            let ghost grown = self.has_entry@;
            proof {
                assert forall|t: int| 0 <= t < before.len() implies grown[t] == before[t] by {
                    assert(grown.take(before.len() as int)[t] == before[t]);
                }
                assert(grown.len() == grown_len(old_tab.len() as int, tags@, i + 1));
            }
            let was = self.has_entry[idx];
            seen.push(was);
            self.has_entry.set(idx, true);
            proof {
                assert forall|t: int| 0 <= t < self.has_entry@.len() implies #[trigger] self.has_entry@[t] == ((t < old_tab.len()
                    && old_tab[t]) || tag_among(tags@, i + 1, t)) by {
                    if t == idx {
                        assert(tags@[i as int] == t);
                    } else {
                        assert(self.has_entry@[t] == grown[t]);
                        if tag_among(tags@, i + 1, t) {
                            let j = choose|j: int| 0 <= j < i + 1 && tags@[j] == t;
                            assert(j < i);
                            assert(tag_among(tags@, i as int, t));
                            assert(t < before.len());
                        }
                        if t < before.len() {
                            if tag_among(tags@, i as int, t) {
                                let j = choose|j: int| 0 <= j < i && tags@[j] == t;
                                assert(tag_among(tags@, i + 1, t));
                            }
                        }
                    }
                }
                assert(seen@[i as int] == ((tags@[i as int] < old_tab.len() && old_tab[tags@[i as int] as int]) || tag_among(tags@, i as int, tags@[i as int] as int))) by {
                    if (idx as int) < before.len() {
                        assert(grown[idx as int] == before[idx as int]);
                    } else {
                        assert(!grown[idx as int]);
                        if tag_among(tags@, i as int, idx as int) {
                            let j = choose|j: int| 0 <= j < i && tags@[j] == idx;
                            assert(tags@[j] < before.len());
                        }
                    }
                }
            }
            i = i + 1;
        }
        seen
    }
}

/// Number of the local atoms `0..nlocal` of each type `0..ntypes`.
pub fn type_histogram(types: &[u32], nlocal: usize, ntypes: usize) -> (r: Vec<usize>)
    requires
        nlocal <= types@.len(),
    ensures
        r@.len() == ntypes,
        forall|t: int| 0 <= t < ntypes ==> #[trigger] r@[t] == crate::type_rdf::type_count(types@, nlocal as int, t),
{
    let mut r: Vec<usize> = Vec::new();
    let mut t: usize = 0;
    while t < ntypes
        invariant
            nlocal <= types@.len(),
            t <= ntypes,
            r@.len() == t,
            forall|q: int| 0 <= q < t ==> #[trigger] r@[q] == 0,
        decreases ntypes - t,
    {
        r.push(0);
        t = t + 1;
    }
    let mut i: usize = 0;
    while i < nlocal
        invariant
            nlocal <= types@.len(),
            i <= nlocal,
            r@.len() == ntypes,
            forall|q: int| 0 <= q < ntypes ==> #[trigger] r@[q] == crate::type_rdf::type_count(types@, i as int, q),
            forall|q: int| 0 <= q < ntypes ==> #[trigger] r@[q] <= i,
        decreases nlocal - i,
    {
        let ty = types[i] as usize;
        if ty < ntypes {
            let c = r[ty];
            r.set(ty, c + 1);
        }
        proof {
            assert forall|q: int| 0 <= q < ntypes implies #[trigger] r@[q] == crate::type_rdf::type_count(types@, i + 1, q) by {
                assert(ty == types@[i as int]);
            }
        }
        i = i + 1;
    }
    r
}

} // verus!
