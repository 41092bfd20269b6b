//! Symmetric `ntypes × ntypes` table of pair coefficients, indexed by atom type.

use vstd::prelude::*;

verus! {

/// Mixing rule for combining per-type parameters into pair parameters.
#[derive(Clone, Copy, Debug, PartialEq, Eq, Structural)]
pub enum MixingRule {
    /// `sqrt(a_i * a_j)`
    Geometric,
    /// `(a_i + a_j) / 2`
    Arithmetic,
}

/// Symmetric NxN storage for pair coefficients, indexed by atom type.
///
/// Coefficients live in a flat row-major `ntypes × ntypes` vector; setting
/// `(i, j)` also sets `(j, i)`.
pub struct PairCoeffTable<T: Clone> {
    ntypes: usize,
    coeffs: Vec<T>,
}

/// Flat position of entry `(i, j)` in a table for `n` types.
pub open spec fn flat_index(n: int, i: int, j: int) -> int {
    i * n + j
}

proof fn lemma_flat_index_bounds(n: int, i: int, j: int)
    requires
        0 <= i < n,
        0 <= j < n,
    ensures
        0 <= flat_index(n, i, j) < n * n,
        0 <= i * n <= flat_index(n, i, j),
{
    assert(0 <= i * n + j < n * n && 0 <= i * n) by (nonlinear_arith)
        requires
            0 <= i < n,
            0 <= j < n,
    ;
}

proof fn lemma_flat_index_injective(n: int, i: int, j: int, k: int, l: int)
    requires
        0 <= i < n,
        0 <= j < n,
        0 <= k < n,
        0 <= l < n,
        flat_index(n, i, j) == flat_index(n, k, l),
    ensures
        i == k && j == l,
{
    if i < k {
        assert(i * n + j < k * n) by (nonlinear_arith)
            requires
                i < k,
                0 <= j < n,
        ;
    } else if k < i {
        assert(k * n + l < i * n) by (nonlinear_arith)
            requires
                k < i,
                0 <= l < n,
        ;
    }
}

impl<T: Clone> PairCoeffTable<T> {
    /// The flat storage holds exactly `ntypes × ntypes` entries.
    pub closed spec fn wf(self) -> bool {
        self.coeffs.len() == self.ntypes * self.ntypes
    }

    /// Number of atom types (spec view).
    pub closed spec fn spec_ntypes(self) -> nat {
        self.ntypes as nat
    }

    /// Coefficient stored for the pair `(i, j)` (spec view).
    pub closed spec fn entry(self, i: int, j: int) -> T {
        self.coeffs@[flat_index(self.ntypes as int, i, j)]
    }

    /// A table for `ntypes` atom types whose entries are all clones of `default`.
    pub fn new(ntypes: usize, default: T) -> (t: Self)
        requires
            ntypes * ntypes <= usize::MAX,
        ensures
            t.wf(),
            t.spec_ntypes() == ntypes,
            forall|i: int, j: int| 0 <= i < ntypes && 0 <= j < ntypes ==> cloned(default, #[trigger] t.entry(i, j)),
    {
        let t = PairCoeffTable { ntypes, coeffs: vec![default; ntypes * ntypes] };
        proof {
            assert forall|i: int, j: int| 0 <= i < ntypes && 0 <= j < ntypes implies cloned(default, #[trigger] t.entry(i, j)) by {
                lemma_flat_index_bounds(ntypes as int, i, j);
            }
        }
        t
    }

    /// The coefficient for atom types `i` and `j`.
    pub fn get(&self, i: u32, j: u32) -> (c: &T)
        requires
            self.wf(),
            i < self.spec_ntypes(),
            j < self.spec_ntypes(),
        ensures
            *c == self.entry(i as int, j as int),
    {
        proof {
            lemma_flat_index_bounds(self.ntypes as int, i as int, j as int);
        }
        &self.coeffs[i as usize * self.ntypes + j as usize]
    }

    /// Sets the coefficient of the pairs `(i, j)` and `(j, i)` to `val`
    /// (`(i, j)` receives a clone of `val`, `(j, i)` the value itself).
    pub fn set(&mut self, i: usize, j: usize, val: T)
        requires
            old(self).wf(),
            i < old(self).spec_ntypes(),
            j < old(self).spec_ntypes(),
        ensures
            Self::set_effect(*old(self), *final(self), i as int, j as int, val),
            final(self).wf(),
            final(self).spec_ntypes() == old(self).spec_ntypes(),
            final(self).entry(j as int, i as int) == val,
            cloned(val, final(self).entry(i as int, j as int)),
            forall|k: int, l: int|
                0 <= k < old(self).spec_ntypes() && 0 <= l < old(self).spec_ntypes() && !(k == i && l == j) && !(k == j
                    && l == i) ==> #[trigger] final(self).entry(k, l) == old(self).entry(k, l),
    {
        proof {
            lemma_flat_index_bounds(self.ntypes as int, i as int, j as int);
            lemma_flat_index_bounds(self.ntypes as int, j as int, i as int);
        }
        let n = self.ntypes;
        let ghost old_coeffs = self.coeffs@;
        let v2 = val.clone();
        self.coeffs.set(i * n + j, v2);
        self.coeffs.set(j * n + i, val);
        proof {
            let nn = n as int;
            assert forall|k: int, l: int|
                0 <= k < nn && 0 <= l < nn && !(k == i && l == j) && !(k == j && l == i) implies #[trigger] self.entry(k, l)
                == old_coeffs[flat_index(nn, k, l)] by {
                lemma_flat_index_bounds(nn, k, l);
                if flat_index(nn, k, l) == flat_index(nn, i as int, j as int) {
                    lemma_flat_index_injective(nn, k, l, i as int, j as int);
                }
                if flat_index(nn, k, l) == flat_index(nn, j as int, i as int) {
                    lemma_flat_index_injective(nn, k, l, j as int, i as int);
                }
            }
            if i != j {
                if flat_index(nn, i as int, j as int) == flat_index(nn, j as int, i as int) {
                    lemma_flat_index_injective(nn, i as int, j as int, j as int, i as int);
                }
            }
        }
    }

    /// `b` is table `a` after setting the pair `(i, j)` to `val`: still well
    /// formed with the same number of types, `(j, i)` holding `val`, `(i, j)` a
    /// clone of it, every other entry unchanged.
    pub open spec fn set_effect(a: Self, b: Self, i: int, j: int, val: T) -> bool {
        &&& b.wf()
        &&& b.spec_ntypes() == a.spec_ntypes()
        &&& b.entry(j, i) == val
        &&& cloned(val, b.entry(i, j))
        &&& forall|k: int, l: int|
            0 <= k < a.spec_ntypes() && 0 <= l < a.spec_ntypes() && !(k == i && l == j) && !(k == j && l == i)
                ==> #[trigger] b.entry(k, l) == a.entry(k, l)
    }

    /// A table keeps its number of types through any sequence of `set` calls:
    /// starting from a well-formed table of `n` types (as `new(n, ..)` makes
    /// it), every table reached by setting pairs of types below `n` is well
    /// formed and has `n` types.
    pub proof fn lemma_sets_keep_type_count(tables: Seq<Self>, n: nat, pairs: Seq<(int, int)>, vals: Seq<T>)
        requires
            tables.len() == pairs.len() + 1,
            vals.len() == pairs.len(),
            tables[0].wf(),
            tables[0].spec_ntypes() == n,
            forall|k: int|
                0 <= k < pairs.len() ==> {
                    let (i, j) = #[trigger] pairs[k];
                    &&& 0 <= i < n
                    &&& 0 <= j < n
                    &&& Self::set_effect(tables[k], tables[k + 1], i, j, vals[k])
                },
        ensures
            forall|k: int| 0 <= k < tables.len() ==> (#[trigger] tables[k]).wf() && tables[k].spec_ntypes() == n,
    {
        assert forall|k: int| 0 <= k < tables.len() implies (#[trigger] tables[k]).wf() && tables[k].spec_ntypes() == n by {
            Self::lemma_prefix_keeps_type_count(tables, n, pairs, vals, k);
        }
    }

    proof fn lemma_prefix_keeps_type_count(tables: Seq<Self>, n: nat, pairs: Seq<(int, int)>, vals: Seq<T>, m: int)
        requires
            tables.len() == pairs.len() + 1,
            vals.len() == pairs.len(),
            tables[0].wf(),
            tables[0].spec_ntypes() == n,
            forall|k: int|
                0 <= k < pairs.len() ==> {
                    let (i, j) = #[trigger] pairs[k];
                    &&& 0 <= i < n
                    &&& 0 <= j < n
                    &&& Self::set_effect(tables[k], tables[k + 1], i, j, vals[k])
                },
            0 <= m < tables.len(),
        ensures
            tables[m].wf(),
            tables[m].spec_ntypes() == n,
        decreases m,
    {
        if m > 0 {
            Self::lemma_prefix_keeps_type_count(tables, n, pairs, vals, m - 1);
            let _ = pairs[m - 1];
        }
    }

    /// Number of atom types.
    pub fn ntypes(&self) -> (n: usize)
        ensures
            n == self.spec_ntypes(),
    {
        self.ntypes
    }
}

} // verus!
