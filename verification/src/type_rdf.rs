//! Pair selection of the type-filtered radial distribution function g(r)
//! between atoms of types `type_i` and `type_j`.
//!
//! Between two local atoms a pair is counted once: for equal types from the
//! lower index to the higher, for different types from the atom of type
//! `type_i` to the atom of type `type_j`. Pairs with a ghost atom are counted
//! from the local side in either orientation (with half weight, the other
//! process counting the other half).

use vstd::prelude::*;
use crate::measure::positive_multiple;

verus! {

/// Atom types `ti` and `tj` match the measured pair with `ti` as `type_i` and `tj` as `type_j`.
pub open spec fn oriented_match(ti: u32, tj: u32, type_i: u32, type_j: u32) -> bool {
    ti == type_i && tj == type_j
}

/// A pair of atoms of types `ti` and `tj` counts: in the given orientation,
/// or in either one when `either` holds.
pub open spec fn pair_counts(ti: u32, tj: u32, type_i: u32, type_j: u32, either: bool) -> bool {
    oriented_match(ti, tj, type_i, type_j) || (either && oriented_match(tj, ti, type_i, type_j))
}

/// The atoms `j` with `lo <= j < m`, in index order, that pair with atom `i`.
pub open spec fn partners_in(types: Seq<u32>, i: int, lo: int, m: int, type_i: u32, type_j: u32, either: bool) -> Seq<usize>
    decreases m - lo,
{
    if m <= lo {
        Seq::empty()
    } else {
        partners_in(types, i, lo, m - 1, type_i, type_j, either) + if pair_counts(types[i], types[m - 1], type_i, type_j, either) {
            seq![(m - 1) as usize]
        } else {
            Seq::empty()
        }
    }
}

/// The local atoms paired with local atom `i`: the later atoms of the type
/// when both types are equal, otherwise every atom of type `type_j` when `i`
/// is of type `type_i`.
pub open spec fn local_partners_spec(types: Seq<u32>, nlocal: int, i: int, type_i: u32, type_j: u32) -> Seq<usize> {
    partners_in(types, i, if type_i == type_j { i + 1 } else { 0 }, nlocal, type_i, type_j, false)
}

/// The ghost atoms (indices `nlocal..`) paired with local atom `i`, in either orientation.
pub open spec fn ghost_partners_spec(types: Seq<u32>, nlocal: int, i: int, type_i: u32, type_j: u32) -> Seq<usize> {
    partners_in(types, i, nlocal, types.len() as int, type_i, type_j, true)
}

/// Number of the first `m` atoms of type `t`.
pub open spec fn type_count(types: Seq<u32>, m: int, t: int) -> nat
    decreases m,
{
    if m <= 0 {
        0
    } else {
        type_count(types, m - 1, t) + if types[m - 1] == t {
            1nat
        } else {
            0nat
        }
    }
}

/// The atoms `j` of `lo..hi` that pair with atom `i`, in index order.
fn partners_between(types: &[u32], i: usize, lo: usize, hi: usize, type_i: u32, type_j: u32, either: bool) -> (r: Vec<usize>)
    requires
        i < types@.len(),
        lo <= hi <= types@.len(),
    ensures
        r@ == partners_in(types@, i as int, lo as int, hi as int, type_i, type_j, either),
{
    let ti = types[i];
    let mut r: Vec<usize> = Vec::new();
    let mut j: usize = lo;
    while j < hi
        invariant
            i < types@.len(),
            ti == types@[i as int],
            lo <= j <= hi <= types@.len(),
            r@ == partners_in(types@, i as int, lo as int, j as int, type_i, type_j, either),
        decreases hi - j,
    {
        let tj = types[j];
        let counts = (ti == type_i && tj == type_j) || (either && tj == type_i && ti == type_j);
        if counts {
            r.push(j);
        }
        proof {
            assert(r@ =~= partners_in(types@, i as int, lo as int, j + 1, type_i, type_j, either));
        }
        j = j + 1;
    }
    r
}

/// The local atoms whose distance to local atom `i` enters the histogram of
/// the pair of types (`type_i`, `type_j`).
pub fn rdf_local_partners(types: &[u32], nlocal: usize, i: usize, type_i: u32, type_j: u32) -> (r: Vec<usize>)
    requires
        i < nlocal <= types@.len(),
    ensures
        r@ == local_partners_spec(types@, nlocal as int, i as int, type_i, type_j),
{
    let lo = if type_i == type_j { i + 1 } else { 0 };
    partners_between(types, i, lo, nlocal, type_i, type_j, false)
}

/// The ghost atoms whose distance to local atom `i` enters the histogram
/// (with half weight) of the pair of types (`type_i`, `type_j`).
pub fn rdf_ghost_partners(types: &[u32], nlocal: usize, i: usize, type_i: u32, type_j: u32) -> (r: Vec<usize>)
    requires
        i < nlocal <= types@.len(),
    ensures
        r@ == ghost_partners_spec(types@, nlocal as int, i as int, type_i, type_j),
{
    partners_between(types, i, nlocal, types.len(), type_i, type_j, true)
}

/// Number of the first `nlocal` atoms of type `t`.
pub fn count_of_type(types: &[u32], nlocal: usize, t: u32) -> (r: usize)
    requires
        nlocal <= types@.len(),
    ensures
        r == type_count(types@, nlocal as int, t as int),
{
    let mut r: usize = 0;
    let mut k: usize = 0;
    while k < nlocal
        invariant
            nlocal <= types@.len(),
            k <= nlocal,
            r == type_count(types@, k as int, t as int),
            r <= k,
        decreases nlocal - k,
    {
        if types[k] == t {
            r = r + 1;
        }
        k = k + 1;
    }
    r
}

proof fn lemma_partners_member(types: Seq<u32>, i: int, lo: int, m: int, type_i: u32, type_j: u32, either: bool, x: int)
    requires
        0 <= lo,
        m <= types.len() <= usize::MAX,
        0 <= i < types.len(),
        0 <= x < types.len(),
    ensures
        partners_in(types, i, lo, m, type_i, type_j, either).contains(x as usize) <==> (lo <= x < m && pair_counts(
            types[i],
            types[x],
            type_i,
            type_j,
            either,
        )),
    decreases m - lo,
{
    if m > lo {
        lemma_partners_member(types, i, lo, m - 1, type_i, type_j, either, x);
        let prev = partners_in(types, i, lo, m - 1, type_i, type_j, either);
        let last = if pair_counts(types[i], types[m - 1], type_i, type_j, either) {
            seq![(m - 1) as usize]
        } else {
            Seq::<usize>::empty()
        };
        let all = prev + last;
        if all.contains(x as usize) {
            let p = choose|p: int| 0 <= p < all.len() && all[p] == x as usize;
            if p < prev.len() {
                assert(prev[p] == x as usize);
                assert(prev.contains(x as usize));
            } else {
                assert(last[p - prev.len()] == x as usize);
            }
        }
        if lo <= x < m - 1 && pair_counts(types[i], types[x], type_i, type_j, either) {
            assert(prev.contains(x as usize));
            let p = choose|p: int| 0 <= p < prev.len() && prev[p] == x as usize;
            assert(all[p] == x as usize);
        }
        if x == m - 1 && pair_counts(types[i], types[x], type_i, type_j, either) {
            assert(all[prev.len() as int] == x as usize);
        }
    }
}

/// Every pair of distinct local atoms whose types make up the measured pair
/// (in either orientation) is counted exactly once, from one of its two atoms;
/// no other pair is counted, and no atom is paired with itself.
pub proof fn lemma_local_pair_counted_once(types: Seq<u32>, nlocal: int, a: int, b: int, type_i: u32, type_j: u32)
    requires
        0 <= a < nlocal <= types.len() <= usize::MAX,
        0 <= b < nlocal,
        a != b,
    ensures
        !local_partners_spec(types, nlocal, a, type_i, type_j).contains(a as usize),
        (local_partners_spec(types, nlocal, a, type_i, type_j).contains(b as usize)
            || local_partners_spec(types, nlocal, b, type_i, type_j).contains(a as usize))
            <==> (oriented_match(types[a], types[b], type_i, type_j) || oriented_match(types[b], types[a], type_i, type_j)),
        !(local_partners_spec(types, nlocal, a, type_i, type_j).contains(b as usize)
            && local_partners_spec(types, nlocal, b, type_i, type_j).contains(a as usize)),
{
    let lo_a = if type_i == type_j { a + 1 } else { 0 };
    let lo_b = if type_i == type_j { b + 1 } else { 0 };
    lemma_partners_member(types, a, lo_a, nlocal, type_i, type_j, false, a);
    lemma_partners_member(types, a, lo_a, nlocal, type_i, type_j, false, b);
    lemma_partners_member(types, b, lo_b, nlocal, type_i, type_j, false, a);
}


/// The averaged g(r) is written at `step`: by the first process, at a
/// positive multiple of the output interval, once at least one sample was taken.
pub fn rdf_write_due(step: usize, output_interval: usize, n_samples: usize, rank: i32) -> (r: bool)
    ensures
        r == (positive_multiple(step, output_interval) && n_samples > 0 && rank == 0),
{
    rank == 0 && step != 0 && output_interval != 0 && step % output_interval == 0 && n_samples > 0
}

} // verus!
