//! Spatial sorting of the local atoms by neighbor bin.
//!
//! Atoms are reordered so that atoms of the same bin cell are contiguous:
//! each atom gets the linear index of its (clamped) bin cell, the atoms are
//! ordered by cell index (ties by their current position), the permutation is
//! applied to every per-atom array, and ghost atoms that point at a local atom
//! are re-pointed at that atom's new position.

use vstd::prelude::*;

verus! {

/// Registers the per-atom arrays and their bookkeeping.
pub struct AtomPlugin;

/// `c` clamped to the cell range `0..n`.
pub open spec fn clamp_cell(c: int, n: int) -> int {
    if c < 0 {
        0
    } else if c > n - 1 {
        n - 1
    } else {
        c
    }
}

/// Linear index of cell `(cx, cy, cz)` (each clamped into the grid) in a grid
/// of `n[0] × n[1] × n[2]` cells, z fastest.
pub open spec fn cell_index_spec(cx: int, cy: int, cz: int, n: [i32; 3]) -> int {
    clamp_cell(cx, n[0] as int) * n[1] * n[2] + clamp_cell(cy, n[1] as int) * n[2] + clamp_cell(cz, n[2] as int)
}

fn clamp_i32(c: i32, n: i32) -> (r: i32)
    requires
        n >= 1,
    ensures
        r == clamp_cell(c as int, n as int),
{
    if c < 0 {
        0
    } else if c > n - 1 {
        n - 1
    } else {
        c
    }
}

/// The bin cell of an atom whose floored cell coordinates are `(cx, cy, cz)`,
/// in a grid of `counts` cells per axis. The index is computed in `i32`, so
/// it must fit there.
pub fn bin_cell_index(cx: i32, cy: i32, cz: i32, counts: [i32; 3]) -> (r: u32)
    requires
        counts[0] >= 1,
        counts[1] >= 1,
        counts[2] >= 1,
        cell_index_spec(cx as int, cy as int, cz as int, counts) <= i32::MAX,
    ensures
        r == cell_index_spec(cx as int, cy as int, cz as int, counts),
        r < counts[0] * counts[1] * counts[2],
{
    let nx = counts[0];
    let ny = counts[1];
    let nz = counts[2];
    let x = clamp_i32(cx, nx);
    let y = clamp_i32(cy, ny);
    let z = clamp_i32(cz, nz);
    proof {
        assert(0 <= x * ny <= x * ny * nz) by (nonlinear_arith)
            requires
                0 <= x,
                1 <= ny,
                1 <= nz,
        ;
        assert(0 <= y * nz) by (nonlinear_arith)
            requires
                0 <= y,
                1 <= nz,
        ;
        assert(x * ny * nz + y * nz + z < nx * ny * nz) by (nonlinear_arith)
            requires
                0 <= x < nx,
                0 <= y < ny,
                0 <= z < nz,
        ;
    }
    let v = x * ny * nz + y * nz + z;
    v as u32
}

/// Atom `p` comes before atom `q` in bin order: a smaller bin, or the same
/// bin and a smaller current position.
pub open spec fn bin_before(bins: Seq<u32>, p: int, q: int) -> bool {
    bins[p] < bins[q] || (bins[p] == bins[q] && p < q)
}

/// `perm` lists the atoms `0..n` in bin order.
pub open spec fn is_bin_order(bins: Seq<u32>, n: int, perm: Seq<usize>) -> bool {
    &&& perm.len() == n
    &&& forall|i: int, j: int| 0 <= i < j < perm.len() ==> bin_before(bins, perm[i] as int, perm[j] as int)
    &&& forall|x: usize| perm.contains(x) <==> x < n
}

proof fn lemma_insert_in_order(bins: Seq<u32>, e: Seq<usize>, pos: int, k: usize)
    requires
        0 <= pos <= e.len(),
        forall|i: int, j: int| 0 <= i < j < e.len() ==> bin_before(bins, e[i] as int, e[j] as int),
        forall|i: int| 0 <= i < pos ==> bin_before(bins, e[i] as int, k as int),
        pos < e.len() ==> bin_before(bins, k as int, e[pos] as int),
    ensures
        forall|i: int, j: int|
            0 <= i < j < e.insert(pos, k).len() ==> bin_before(bins, e.insert(pos, k)[i] as int, e.insert(pos, k)[j] as int),
        forall|x: usize| e.insert(pos, k).contains(x) <==> (e.contains(x) || x == k),
{
    let f = e.insert(pos, k);
    assert forall|i: int, j: int| 0 <= i < j < f.len() implies bin_before(bins, f[i] as int, f[j] as int) by {
        if j < pos {
        } else if j == pos {
        } else if i < pos {
            assert(bin_before(bins, e[i] as int, e[pos] as int) || i == pos);
            if j - 1 > pos {
                assert(bin_before(bins, e[pos] as int, e[j - 1] as int));
            }
        } else if i == pos {
            if j - 1 > pos {
                assert(bin_before(bins, e[pos] as int, e[j - 1] as int));
            }
        } else {
        }
    }
    assert forall|x: usize| f.contains(x) <==> (e.contains(x) || x == k) by {
        if f.contains(x) {
            let i = choose|i: int| 0 <= i < f.len() && f[i] == x;
            if i < pos {
                assert(e[i] == x);
            } else if i > pos {
                assert(e[i - 1] == x);
            }
        }
        if e.contains(x) {
            let i = choose|i: int| 0 <= i < e.len() && e[i] == x;
            if i < pos {
                assert(f[i] == x);
            } else {
                assert(f[i + 1] == x);
            }
        }
        if x == k {
            assert(f[pos] == x);
        }
    }
}

/// The order in which the first `n` atoms are placed when sorted by their bins `bins`.
pub fn bin_sort_permutation(bins: &[u32], n: usize) -> (perm: Vec<usize>)
    requires
        n <= bins@.len(),
    ensures
        is_bin_order(bins@, n as int, perm@),
{
    let mut perm: Vec<usize> = Vec::new();
    let mut k: usize = 0;
    while k < n
        invariant
            n <= bins@.len(),
            k <= n,
            is_bin_order(bins@, k as int, perm@),
        decreases n - k,
    {
        proof {
            assert forall|i: int| 0 <= i < perm@.len() implies perm@[i] < k by {
                assert(perm@.contains(perm@[i]));
            }
        }
        let mut pos: usize = 0;
        while pos < perm.len() && bins[perm[pos]] <= bins[k]
            invariant
                n <= bins@.len(),
                k < n,
                is_bin_order(bins@, k as int, perm@),
                pos <= perm@.len(),
                forall|i: int| 0 <= i < perm@.len() ==> perm@[i] < k,
                forall|i: int| 0 <= i < pos ==> bins@[perm@[i] as int] <= bins@[k as int],
            decreases perm.len() - pos,
        {
            proof {
                assert(perm@.contains(perm@[pos as int]));
            }
            pos = pos + 1;
        }
        let ghost before = perm@;
        proof {
            assert forall|i: int| 0 <= i < pos implies bin_before(bins@, before[i] as int, k as int) by {
                assert(before.contains(before[i]));
            }
        }
        proof {
            if pos < before.len() {
                assert(bins@[before[pos as int] as int] > bins@[k as int]);
                assert(bin_before(bins@, k as int, before[pos as int] as int));
            }
        }
        perm.insert(pos, k);
        proof {
            lemma_insert_in_order(bins@, before, pos as int, k);
            assert(perm@ == before.insert(pos as int, k));
            assert(perm@.len() == k + 1);
            assert forall|x: usize| perm@.contains(x) <==> x < k + 1 by {
                assert(before.contains(x) <==> x < k);
            }
        }
        k = k + 1;
    }
    perm
}

/// Whether `perm` leaves every atom where it is.
pub fn is_identity(perm: &[usize]) -> (r: bool)
    ensures
        r == (forall|i: int| 0 <= i < perm@.len() ==> perm@[i] == i),
{
    let mut i: usize = 0;
    while i < perm.len()
        invariant
            i <= perm@.len(),
            forall|q: int| 0 <= q < i ==> perm@[q] == q,
        decreases perm.len() - i,
    {
        if perm[i] != i {
            return false;
        }
        i = i + 1;
    }
    true
}

/// Entry `k` of the result is entry `perm[k]` of `v`.
pub fn gather<T: Copy>(v: &[T], perm: &[usize]) -> (r: Vec<T>)
    requires
        forall|k: int| 0 <= k < perm@.len() ==> (#[trigger] perm@[k]) < v@.len(),
    ensures
        r@.len() == perm@.len(),
        forall|k: int| 0 <= k < perm@.len() ==> #[trigger] r@[k] == v@[perm@[k] as int],
{
    let mut r: Vec<T> = Vec::new();
    let mut k: usize = 0;
    while k < perm.len()
        invariant
            forall|q: int| 0 <= q < perm@.len() ==> (#[trigger] perm@[q]) < v@.len(),
            k <= perm@.len(),
            r@.len() == k,
            forall|q: int| 0 <= q < k ==> #[trigger] r@[q] == v@[perm@[q] as int],
        decreases perm.len() - k,
    {
        r.push(v[perm[k]]);
        k = k + 1;
    }
    r
}

/// After reordering the first `nlocal` atoms by `perm`, re-points the ghost
/// atoms `nlocal..nlocal + nghost` whose origin is a local atom at that atom's
/// new position; origins outside the local atoms are left as they are.
pub fn remap_ghost_origins(origin: &mut Vec<i32>, perm: &[usize], nlocal: usize, nghost: usize)
    requires
        nlocal + nghost <= old(origin)@.len(),
        nlocal <= i32::MAX,
        is_reordering(perm@, nlocal as int),
    ensures
        final(origin)@.len() == old(origin)@.len(),
        forall|g: int|
            0 <= g < old(origin)@.len() ==> {
                let o = #[trigger] old(origin)@[g];
                if nlocal <= g < nlocal + nghost && 0 <= o < nlocal {
                    0 <= final(origin)@[g] < nlocal && perm@[final(origin)@[g] as int] == o
                } else {
                    final(origin)@[g] == o
                }
            },
{
    let total = origin.len();
    let end = nlocal + nghost;
    if nghost == 0 {
        return;
    }
    let mut inv: Vec<usize> = Vec::new();
    let mut q: usize = 0;
    while q < nlocal
        invariant
            q <= nlocal,
            inv@.len() == q,
            forall|a: int| 0 <= a < q ==> #[trigger] inv@[a] == 0,
        decreases nlocal - q,
    {
        inv.push(0);
        q = q + 1;
    }
    let mut new_i: usize = 0;
    while new_i < nlocal
        invariant
            is_reordering(perm@, nlocal as int),
            inv@.len() == nlocal,
            new_i <= nlocal,
            forall|a: int| 0 <= a < new_i ==> #[trigger] inv@[perm@[a] as int] == a,
            forall|a: int| 0 <= a < new_i ==> perm@[a] < nlocal,
        decreases nlocal - new_i,
    {
        let old_i = perm[new_i];
        proof {
            assert(perm@.contains(old_i));
        }
        inv.set(old_i, new_i);
        proof {
            assert forall|a: int| 0 <= a < new_i + 1 implies #[trigger] inv@[perm@[a] as int] == a by {
                if a < new_i {
                    assert(perm@.contains(perm@[a]));
                }
            }
        }
        new_i = new_i + 1;
    }
    let ghost start = origin@;
    let mut g: usize = nlocal;
    while g < end
        invariant
            nlocal + nghost <= start.len(),
            nlocal <= i32::MAX,
            is_reordering(perm@, nlocal as int),
            inv@.len() == nlocal,
            forall|a: int| 0 <= a < nlocal ==> #[trigger] inv@[perm@[a] as int] == a,
            end == nlocal + nghost,
            end <= total,
            nlocal <= g <= nlocal + nghost,
            origin@.len() == start.len(),
            forall|h: int|
                0 <= h < start.len() ==> {
                    let o = #[trigger] start[h];
                    if nlocal <= h < g && 0 <= o < nlocal {
                        0 <= origin@[h] < nlocal && perm@[origin@[h] as int] == o
                    } else {
                        origin@[h] == o
                    }
                },
        decreases nlocal + nghost - g,
    {
        let o = origin[g];
        if o >= 0 && (o as usize) < nlocal {
            let ni = inv[o as usize];
            proof {
                let x = o as usize;
                assert(perm@.contains(x));
                let a = choose|a: int| 0 <= a < perm@.len() && perm@[a] == x;
                assert(inv@[perm@[a] as int] == a);
            }
            origin.set(g, ni as i32);
        }
        g = g + 1;
    }
}

/// `perm` lists each of `0..n` exactly once.
pub open spec fn is_reordering(perm: Seq<usize>, n: int) -> bool {
    &&& perm.len() == n
    &&& forall|i: int, j: int| 0 <= i < j < n ==> perm[i] != perm[j]
    &&& forall|x: usize| perm.contains(x) <==> x < n
}

/// The bin order of the atoms is a reordering of them: every atom appears
/// exactly once.
pub proof fn lemma_bin_order_is_reordering(bins: Seq<u32>, n: int, perm: Seq<usize>)
    requires
        is_bin_order(bins, n, perm),
    ensures
        is_reordering(perm, n),
{
    assert forall|i: int, j: int| 0 <= i < j < n implies perm[i] != perm[j] by {
        assert(bin_before(bins, perm[i] as int, perm[j] as int));
    }
}

} // verus!
