//! Neighbor-list bookkeeping: when the list must be rebuilt, when the atoms
//! are re-sorted, and the cell-ordered (CSR) layout of the atoms over the bin
//! grid that the bin-based pair search walks.
//!
//! The layout is a counting sort of the atoms by cell: `bin_start[c]` is the
//! number of atoms in cells below `c`, and the atoms of cell `c` occupy the
//! slots `bin_start[c] .. bin_start[c + 1]` of `sorted`, in index order.

use vstd::prelude::*;
use crate::atom_order::bin_before;

verus! {

/// Default number of steps between spatial re-sorts of the atoms.
pub fn default_sort_every() -> (n: usize)
    ensures
        n == 1000,
{
    1000
}

/// Default of the fixed rebuild interval (0: rebuild on displacement only).
pub fn default_zero_usize() -> (n: usize)
    ensures
        n == 0,
{
    0
}

/// Default of the displacement check when rebuilding at a fixed interval.
pub fn default_true() -> (b: bool)
    ensures
        b,
{
    true
}

/// Whether the neighbor list must be rebuilt this step. `displaced` is whether
/// some atom moved further than half the skin since the last build.
pub open spec fn rebuild_needed_spec(
    last_build_len: usize,
    nlocal: usize,
    communicate_only: bool,
    every: usize,
    check: bool,
    steps_since_build: usize,
    displaced: bool,
) -> bool {
    if last_build_len != nlocal || nlocal == 0 || !communicate_only {
        true
    } else if every == 0 {
        displaced
    } else if check {
        steps_since_build >= every || displaced
    } else {
        steps_since_build >= every
    }
}

/// When the neighbor list is rebuilt: whenever the local atom count differs
/// from the count at the last build (atoms arrived or left), when there are no
/// local atoms, or when a full rebuild was asked for; on displacement beyond
/// half the skin when the displacement check is on (or the interval is 0);
/// when the rebuild interval has elapsed. It is never rebuilt for any other
/// reason (in particular not on displacement alone when a positive interval
/// runs without the check).
pub proof fn lemma_rebuild_triggers(
    last_build_len: usize,
    nlocal: usize,
    communicate_only: bool,
    every: usize,
    check: bool,
    steps_since_build: usize,
    displaced: bool,
)
    ensures
        ({
            let r = rebuild_needed_spec(last_build_len, nlocal, communicate_only, every, check, steps_since_build, displaced);
            &&& last_build_len != nlocal ==> r
            &&& nlocal == 0 ==> r
            &&& !communicate_only ==> r
            &&& displaced && (every == 0 || check) ==> r
            &&& every > 0 && steps_since_build >= every ==> r
            &&& r ==> last_build_len != nlocal || nlocal == 0 || !communicate_only || (displaced && (every == 0
                || check)) || (every > 0 && steps_since_build >= every)
        }),
{
}

/// Decides whether the neighbor list must be rebuilt: always when the local
/// atom count changed since the last build, when there are no local atoms, or
/// when a full rebuild was requested (`!communicate_only`); otherwise on
/// displacement alone (`every == 0`), at the fixed interval `every` (and also
/// on displacement when `check`).
pub fn rebuild_needed(
    last_build_len: usize,
    nlocal: usize,
    communicate_only: bool,
    every: usize,
    check: bool,
    steps_since_build: usize,
    displaced: bool,
) -> (r: bool)
    ensures
        r == rebuild_needed_spec(last_build_len, nlocal, communicate_only, every, check, steps_since_build, displaced),
        last_build_len != nlocal ==> r,
        nlocal == 0 ==> r,
        !communicate_only ==> r,
        displaced && (every == 0 || check) ==> r,
        every > 0 && steps_since_build >= every ==> r,
        r ==> last_build_len != nlocal || nlocal == 0 || !communicate_only || (displaced && (every == 0 || check))
            || (every > 0 && steps_since_build >= every),
{
    if last_build_len != nlocal || nlocal == 0 {
        return true;
    }
    if !communicate_only {
        return true;
    }
    if every == 0 {
        displaced
    } else if check {
        steps_since_build >= every || displaced
    } else {
        steps_since_build >= every
    }
}

/// Advances the re-sort counter by one step. Returns the new counter and
/// whether a periodic re-sort is due (the counter then restarts at 0).
/// With `sort_every == 0` periodic re-sorting is off.
pub fn advance_sort_counter(counter: usize, sort_every: usize) -> (r: (usize, bool))
    requires
        counter < usize::MAX,
    ensures
        r.1 == (sort_every > 0 && counter + 1 >= sort_every),
        r.0 == (if r.1 {
            0
        } else {
            counter + 1
        }),
{
    let c = counter + 1;
    let due = sort_every > 0 && c >= sort_every;
    if due {
        (0, true)
    } else {
        (c, false)
    }
}

/// Number of the first `n` atoms whose cell is below `c`.
pub open spec fn count_below(cells: Seq<u32>, n: int, c: int) -> nat
    decreases n,
{
    if n <= 0 {
        0
    } else {
        count_below(cells, n - 1, c) + if cells[n - 1] < c {
            1nat
        } else {
            0nat
        }
    }
}

/// Number of the first `n` atoms in cell `c`.
pub open spec fn count_in(cells: Seq<u32>, n: int, c: int) -> nat
    decreases n,
{
    if n <= 0 {
        0
    } else {
        count_in(cells, n - 1, c) + if cells[n - 1] == c {
            1nat
        } else {
            0nat
        }
    }
}

/// Slot of atom `i` in the cell-ordered layout of the first `n` atoms: after
/// every atom of a lower cell and every earlier atom of its own cell.
pub open spec fn slot(cells: Seq<u32>, n: int, i: int) -> int {
    (count_below(cells, n, cells[i] as int) + count_in(cells, i, cells[i] as int)) as int
}

proof fn lemma_counts_bounded(cells: Seq<u32>, n: int, c: int)
    requires
        0 <= n <= cells.len(),
    ensures
        count_below(cells, n, c) <= n,
        count_in(cells, n, c) <= n,
        count_below(cells, n, c) + count_in(cells, n, c) <= n,
    decreases n,
{
    if n > 0 {
        lemma_counts_bounded(cells, n - 1, c);
    }
}

proof fn lemma_below_zero(cells: Seq<u32>, n: int)
    ensures
        count_below(cells, n, 0) == 0,
    decreases n,
{
    if n > 0 {
        lemma_below_zero(cells, n - 1);
    }
}

proof fn lemma_below_next(cells: Seq<u32>, n: int, c: int)
    requires
        0 <= n <= cells.len(),
    ensures
        count_below(cells, n, c + 1) == count_below(cells, n, c) + count_in(cells, n, c),
    decreases n,
{
    if n > 0 {
        lemma_below_next(cells, n - 1, c);
    }
}

proof fn lemma_below_monotone(cells: Seq<u32>, n: int, c1: int, c2: int)
    requires
        0 <= n <= cells.len(),
        c1 <= c2,
    ensures
        count_below(cells, n, c1) <= count_below(cells, n, c2),
    decreases n,
{
    if n > 0 {
        lemma_below_monotone(cells, n - 1, c1, c2);
    }
}

proof fn lemma_in_grows(cells: Seq<u32>, j: int, i: int, c: int)
    requires
        0 <= j < i <= cells.len(),
        cells[j] == c,
    ensures
        count_in(cells, j, c) + 1 <= count_in(cells, i, c),
    decreases i,
{
    if i - 1 > j {
        lemma_in_grows(cells, j, i - 1, c);
    }
    if i - 1 == j {
    }
    lemma_in_monotone(cells, j + 1, i, c);
}

proof fn lemma_in_monotone(cells: Seq<u32>, a: int, b: int, c: int)
    requires
        0 <= a <= b <= cells.len(),
    ensures
        count_in(cells, a, c) <= count_in(cells, b, c),
    decreases b - a,
{
    if a < b {
        lemma_in_monotone(cells, a, b - 1, c);
    }
}

/// The slots of two different atoms differ, and every slot lies below `n`.
pub proof fn lemma_slots_distinct(cells: Seq<u32>, n: int, i: int, j: int)
    requires
        0 <= j < i < n <= cells.len(),
    ensures
        slot(cells, n, i) != slot(cells, n, j),
        0 <= slot(cells, n, i) < n,
        0 <= slot(cells, n, j) < n,
{
    lemma_slot_bound(cells, n, i);
    lemma_slot_bound(cells, n, j);
    let ci = cells[i] as int;
    let cj = cells[j] as int;
    if ci == cj {
        lemma_in_grows(cells, j, i, ci);
    } else if cj < ci {
        lemma_below_next(cells, n, cj);
        lemma_below_monotone(cells, n, cj + 1, ci);
        lemma_in_grows(cells, j, n, cj);
        lemma_in_monotone(cells, 0, j, cj);
    } else {
        lemma_below_next(cells, n, ci);
        lemma_below_monotone(cells, n, ci + 1, cj);
        lemma_in_grows(cells, i, n, ci);
    }
}

proof fn lemma_slot_bound(cells: Seq<u32>, n: int, i: int)
    requires
        0 <= i < n <= cells.len(),
    ensures
        0 <= slot(cells, n, i) < count_below(cells, n, cells[i] as int + 1) <= n,
{
    let c = cells[i] as int;
    lemma_in_grows(cells, i, n, c);
    lemma_below_next(cells, n, c);
    lemma_counts_bounded(cells, n, c);
}

/// The cell-ordered layout of atoms over `total_cells` bin cells, `cells[i]`
/// being the cell of atom `i`. Returns `bin_start` (one entry per cell plus a
/// final one), the atoms in slot order, and the slot of each atom.
pub fn build_bins(cells: &[u32], total_cells: usize) -> (r: (Vec<u32>, Vec<u32>, Vec<u32>))
    requires
        cells@.len() <= u32::MAX,
        total_cells < usize::MAX,
        forall|i: int| 0 <= i < cells@.len() ==> (#[trigger] cells@[i]) < total_cells,
    ensures
        r.0@.len() == total_cells + 1,
        forall|c: int| 0 <= c <= total_cells ==> #[trigger] r.0@[c] == count_below(cells@, cells@.len() as int, c),
        r.1@.len() == cells@.len(),
        r.2@.len() == cells@.len(),
        forall|i: int|
            0 <= i < cells@.len() ==> #[trigger] r.2@[i] == slot(cells@, cells@.len() as int, i) && r.1@[r.2@[i] as int]
                == i,
        forall|p: int| 0 <= p < cells@.len() ==> #[trigger] r.1@[p] < cells@.len(),
        cells_delimited(r.0@, r.1@),
        r.1@.no_duplicates(),
        forall|i: int| 0 <= i < cells@.len() ==> in_cell(r.0@, #[trigger] cells@[i] as int, r.2@[i] as int),
{
    let n = cells.len();
    let ghost cs = cells@;
    // Atoms per cell.
    let mut counts: Vec<u32> = Vec::new();
    let mut c: usize = 0;
    while c < total_cells
        invariant
            c <= total_cells,
            counts@.len() == c,
            forall|q: int| 0 <= q < c ==> #[trigger] counts@[q] == 0,
        decreases total_cells - c,
    {
        counts.push(0);
        c = c + 1;
    }
    let mut i: usize = 0;
    while i < n
        invariant
            n == cs.len(),
            cs == cells@,
            n <= u32::MAX,
            forall|q: int| 0 <= q < n ==> (#[trigger] cs[q]) < total_cells,
            i <= n,
            counts@.len() == total_cells,
            forall|q: int| 0 <= q < total_cells ==> #[trigger] counts@[q] == count_in(cs, i as int, q),
        decreases n - i,
    {
        let ci = cells[i] as usize;
        proof {
            lemma_counts_bounded(cs, i as int, ci as int);
        }
        let v = counts[ci];
        counts.set(ci, v + 1);
        i = i + 1;
    }
    // Prefix sums.
    let mut start: Vec<u32> = Vec::new();
    start.push(0);
    proof {
        lemma_below_zero(cs, n as int);
    }
    let mut c: usize = 0;
    while c < total_cells
        invariant
            n == cs.len(),
            n <= u32::MAX,
            c <= total_cells,
            counts@.len() == total_cells,
            forall|q: int| 0 <= q < total_cells ==> #[trigger] counts@[q] == count_in(cs, n as int, q),
            start@.len() == c + 1,
            forall|q: int| 0 <= q <= c ==> #[trigger] start@[q] == count_below(cs, n as int, q),
        decreases total_cells - c,
    {
        proof {
            lemma_below_next(cs, n as int, c as int);
            lemma_counts_bounded(cs, n as int, c as int + 1);
        }
        let next = start[c] + counts[c];
        start.push(next);
        c = c + 1;
    }
    // Scatter the atoms into their slots.
    let mut cursor: Vec<u32> = Vec::new();
    let mut c: usize = 0;
    while c < total_cells
        invariant
            c <= total_cells,
            start@.len() == total_cells + 1,
            cursor@.len() == c,
            forall|q: int| 0 <= q < c ==> #[trigger] cursor@[q] == start@[q],
        decreases total_cells - c,
    {
        cursor.push(start[c]);
        c = c + 1;
    }
    let mut sorted: Vec<u32> = Vec::new();
    let mut slot_of: Vec<u32> = Vec::new();
    let mut q: usize = 0;
    while q < n
        invariant
            q <= n,
            sorted@.len() == q,
            slot_of@.len() == q,
            forall|p: int| 0 <= p < q ==> #[trigger] sorted@[p] == 0,
        decreases n - q,
    {
        sorted.push(0);
        slot_of.push(0);
        q = q + 1;
    }
    let mut i: usize = 0;
    while i < n
        invariant
            n == cs.len(),
            cs == cells@,
            n <= u32::MAX,
            forall|q: int| 0 <= q < n ==> (#[trigger] cs[q]) < total_cells,
            i <= n,
            start@.len() == total_cells + 1,
            forall|q: int| 0 <= q <= total_cells ==> #[trigger] start@[q] == count_below(cs, n as int, q),
            cursor@.len() == total_cells,
            forall|q: int| 0 <= q < total_cells ==> #[trigger] cursor@[q] == start@[q] + count_in(cs, i as int, q),
            sorted@.len() == n,
            slot_of@.len() == n,
            forall|j: int| 0 <= j < i ==> #[trigger] slot_of@[j] == slot(cs, n as int, j) && sorted@[slot_of@[j] as int] == j,
            forall|p: int| 0 <= p < n ==> #[trigger] sorted@[p] < n,
        decreases n - i,
    {
        let ci = cells[i] as usize;
        let pos = cursor[ci];
        proof {
            lemma_slot_bound(cs, n as int, i as int);
            assert(pos == slot(cs, n as int, i as int));
            assert forall|j: int| 0 <= j < i implies slot(cs, n as int, j) != pos by {
                lemma_slots_distinct(cs, n as int, i as int, j);
            }
        }
        sorted.set(pos as usize, i as u32);
        slot_of.set(i, pos);
        cursor.set(ci, pos + 1);
        proof {
            assert forall|j: int| 0 <= j < i + 1 implies #[trigger] slot_of@[j] == slot(cs, n as int, j) && sorted@[slot_of@[j] as int] == j by {
                if j < i {
                    lemma_slots_distinct(cs, n as int, i as int, j);
                }
            }
        }
        i = i + 1;
    }
    proof {
        lemma_layout_wellformed(cs, total_cells as int, start@, sorted@, slot_of@);
    }
    (start, sorted, slot_of)
}

/// The layout of the counting sort delimits the cells, puts every atom in its
/// own cell, and lists every atom exactly once.
proof fn lemma_layout_wellformed(cells: Seq<u32>, total_cells: int, start: Seq<u32>, sorted: Seq<u32>, slots: Seq<u32>)
    requires
        forall|i: int| 0 <= i < cells.len() ==> (#[trigger] cells[i]) < total_cells,
        start.len() == total_cells + 1,
        forall|c: int| 0 <= c <= total_cells ==> #[trigger] start[c] == count_below(cells, cells.len() as int, c),
        sorted.len() == cells.len(),
        slots.len() == cells.len(),
        forall|i: int|
            0 <= i < cells.len() ==> #[trigger] slots[i] == slot(cells, cells.len() as int, i) && sorted[slots[i] as int] == i,
    ensures
        cells_delimited(start, sorted),
        sorted.no_duplicates(),
        forall|i: int| 0 <= i < cells.len() ==> in_cell(start, #[trigger] cells[i] as int, slots[i] as int),
{
    let n = cells.len() as int;
    assert forall|c: int, d: int| 0 <= c <= d < start.len() implies #[trigger] start[c] <= #[trigger] start[d] by {
        lemma_below_monotone(cells, n, c, d);
    }
    assert forall|c: int| 0 <= c < start.len() implies #[trigger] start[c] <= sorted.len() by {
        lemma_counts_bounded(cells, n, c);
    }
    assert forall|i: int| 0 <= i < n implies in_cell(start, #[trigger] cells[i] as int, slots[i] as int) by {
        lemma_slot_bound(cells, n, i);
        assert(slots[i] == slot(cells, n, i));
    }
    let s2 = slots.map_values(|x: u32| x as usize);
    assert forall|i: int| 0 <= i < s2.len() implies #[trigger] s2[i] < n by {
        lemma_slot_bound(cells, n, i);
        assert(slots[i] == slot(cells, n, i));
    }
    assert forall|i: int, j: int| 0 <= i < j < s2.len() implies s2[i] != s2[j] by {
        lemma_slots_distinct(cells, n, j, i);
        assert(slots[i] == slot(cells, n, i));
        assert(slots[j] == slot(cells, n, j));
    }
    crate::ordering::lemma_distinct_below_len(s2, n);
    assert forall|p: int, q: int| 0 <= p < sorted.len() && 0 <= q < sorted.len() && p != q implies sorted[p] != sorted[q] by {
        assert(crate::ordering::appears(s2, p));
        assert(crate::ordering::appears(s2, q));
        let i = choose|i: int| 0 <= i < s2.len() && s2[i] == p;
        let j = choose|j: int| 0 <= j < s2.len() && s2[j] == q;
        assert(slots[i] == p);
        assert(slots[j] == q);
        assert(sorted[p] == i);
        assert(sorted[q] == j);
    }
}


/// Row of pair `p` in a list over `nlocal` local atoms: its first atom, or the
/// overflow row `nlocal` for pairs that start at a non-local atom.
pub open spec fn pair_row(p: (usize, usize), nlocal: usize) -> u32 {
    if p.0 < nlocal {
        p.0 as u32
    } else {
        nlocal as u32
    }
}

/// The rows of all pairs.
pub open spec fn pair_rows(pairs: Seq<(usize, usize)>, nlocal: usize) -> Seq<u32> {
    pairs.map_values(|p: (usize, usize)| pair_row(p, nlocal))
}

/// `offsets` and `indices` are the CSR form of the pairs of `pairs` that start
/// at a local atom: `offsets[i]` is the number of pairs whose first atom is
/// below `i` (for `i <= nlocal`), and the second atom of each such pair sits
/// at its slot (the pairs of one first atom in pair-list order).
pub open spec fn is_csr_of(pairs: Seq<(usize, usize)>, nlocal: usize, offsets: Seq<u32>, indices: Seq<u32>) -> bool {
    &&& offsets.len() == nlocal + 1
    &&& forall|i: int| 0 <= i <= nlocal ==> #[trigger] offsets[i] == count_below(pair_rows(pairs, nlocal), pairs.len() as int, i)
    &&& indices.len() == offsets[nlocal as int]
    &&& forall|k: int|
        0 <= k < pairs.len() && (#[trigger] pairs[k]).0 < nlocal ==> {
            let s = slot(pair_rows(pairs, nlocal), pairs.len() as int, k);
            &&& 0 <= s < indices.len()
            &&& indices[s] == pairs[k].1 as u32
        }
}

/// The half neighbor list of a pair list in CSR form: `offsets[i]` is the
/// number of pairs whose first atom is below `i` (for `i <= nlocal`), and the
/// second atoms of the pairs starting at local atom `i` follow one another
/// from `offsets[i]` on, in the order of the pair list. Pairs starting at a
/// non-local atom are left out.
pub fn build_csr_from_pairs(pairs: &[(usize, usize)], nlocal: usize) -> (r: (Vec<u32>, Vec<u32>))
    requires
        pairs@.len() <= u32::MAX,
        nlocal < u32::MAX - 1,
    ensures
        is_csr_of(pairs@, nlocal, r.0@, r.1@),
{
    let m = pairs.len();
    let ghost rows = pair_rows(pairs@, nlocal);
    let mut cells: Vec<u32> = Vec::new();
    let mut k: usize = 0;
    while k < m
        invariant
            m == pairs@.len(),
            nlocal < u32::MAX - 1,
            k <= m,
            rows == pair_rows(pairs@, nlocal),
            cells@ == rows.take(k as int),
        decreases m - k,
    {
        let p = pairs[k];
        let c = if p.0 < nlocal {
            p.0 as u32
        } else {
            nlocal as u32
        };
        cells.push(c);
        proof {
            assert(cells@ =~= rows.take(k + 1));
        }
        k = k + 1;
    }
    proof {
        assert(cells@ =~= rows);
    }
    let (start, sorted, slot_of) = build_bins(cells.as_slice(), nlocal + 1);
    let n_local_pairs = start[nlocal];
    proof {
        lemma_counts_bounded(rows, m as int, nlocal as int);
        assert(n_local_pairs == count_below(rows, m as int, nlocal as int));
    }
    let ghost n_local = count_below(rows, m as int, nlocal as int);
    let mut offsets: Vec<u32> = Vec::new();
    let mut i: usize = 0;
    while i <= nlocal
        invariant
            i <= nlocal + 1,
            nlocal < u32::MAX - 1,
            start@.len() == nlocal + 2,
            offsets@.len() == i,
            forall|q: int| 0 <= q < i ==> #[trigger] offsets@[q] == start@[q],
        decreases nlocal + 1 - i,
    {
        offsets.push(start[i]);
        i = i + 1;
    }
    let mut indices: Vec<u32> = Vec::new();
    let mut q: usize = 0;
    while q < n_local_pairs as usize
        invariant
            m == pairs@.len(),
            rows == pair_rows(pairs@, nlocal),
            cells@ == rows,
            sorted@.len() == m,
            n_local_pairs as int <= m,
            forall|j: int| 0 <= j < m ==> #[trigger] slot_of@[j] == slot(rows, m as int, j) && sorted@[slot_of@[j] as int] == j,
            slot_of@.len() == m,
            q <= n_local_pairs,
            n_local_pairs == n_local,
            indices@.len() == q,
            forall|p: int| 0 <= p < q ==> #[trigger] indices@[p] == pairs@[sorted@[p] as int].1 as u32,
            forall|p: int| 0 <= p < m ==> #[trigger] sorted@[p] < m,
        decreases n_local_pairs - q,
    {
        let src = sorted[q] as usize;
        indices.push(pairs[src].1 as u32);
        q = q + 1;
    }
    proof {
        assert forall|k: int| 0 <= k < m && (#[trigger] pairs@[k]).0 < nlocal implies {
            let s = slot(rows, m as int, k);
            &&& 0 <= s < indices@.len()
            &&& indices@[s] == pairs@[k].1 as u32
        } by {
            lemma_slot_bound(rows, m as int, k);
            assert(rows[k] == pairs@[k].0 as u32);
            lemma_below_monotone(rows, m as int, rows[k] as int + 1, nlocal as int);
            assert(indices@.len() == n_local);
            assert(slot_of@[k] == slot(rows, m as int, k));
            assert(sorted@[slot_of@[k] as int] == k);
        }
    }
    (offsets, indices)
}


/// The cell-ordered layout follows bin order: an atom of a lower cell, or an
/// earlier atom of the same cell, gets the lower slot. In particular the
/// atoms of one cell appear in index order.
pub proof fn lemma_slot_order(cells: Seq<u32>, n: int, i: int, j: int)
    requires
        0 <= i < n <= cells.len(),
        0 <= j < n,
        bin_before(cells, i, j),
    ensures
        slot(cells, n, i) < slot(cells, n, j),
{
    let ci = cells[i] as int;
    let cj = cells[j] as int;
    if ci == cj {
        lemma_in_grows(cells, i, j, ci);
    } else {
        lemma_slot_bound(cells, n, i);
        lemma_below_monotone(cells, n, ci + 1, cj);
        lemma_in_monotone(cells, 0, j, cj);
    }
}


// ── Candidate pairs of the binned search ───────────────────────────────────

/// The atoms of cell `c`, in slot order.
pub open spec fn cell_atoms(bin_start: Seq<u32>, sorted: Seq<u32>, c: int) -> Seq<u32> {
    sorted.subrange(bin_start[c] as int, bin_start[c + 1] as int)
}

/// The atoms after slot `s` in cell `c` (none when `s` is not below the end of the cell).
pub open spec fn self_cell_atoms(bin_start: Seq<u32>, sorted: Seq<u32>, c: int, s: int) -> Seq<u32> {
    if s < bin_start[c + 1] {
        sorted.subrange(s + 1, bin_start[c + 1] as int)
    } else {
        Seq::empty()
    }
}

/// The atoms of the cells `c + stencil[0]`, …, `c + stencil[k - 1]`, cell after cell.
pub open spec fn stencil_atoms(bin_start: Seq<u32>, sorted: Seq<u32>, c: int, stencil: Seq<i32>, k: int) -> Seq<u32>
    decreases k,
{
    if k <= 0 {
        Seq::empty()
    } else {
        stencil_atoms(bin_start, sorted, c, stencil, k - 1) + cell_atoms(bin_start, sorted, c + stencil[k - 1])
    }
}

/// The candidate neighbors of an atom in cell `c` at slot `s`: the later atoms
/// of its own cell when the stencil holds that cell, then the atoms of each
/// forward stencil cell.
pub open spec fn bin_candidates_spec(
    bin_start: Seq<u32>,
    sorted: Seq<u32>,
    c: int,
    s: int,
    stencil: Seq<i32>,
    has_self: bool,
) -> Seq<u32> {
    (if has_self {
        self_cell_atoms(bin_start, sorted, c, s)
    } else {
        Seq::empty()
    }) + stencil_atoms(bin_start, sorted, c, stencil, stencil.len() as int)
}

/// `bin_start` delimits cells over `sorted`: it never decreases and never passes the end.
pub open spec fn cells_delimited(bin_start: Seq<u32>, sorted: Seq<u32>) -> bool {
    &&& forall|c: int, d: int| 0 <= c <= d < bin_start.len() ==> #[trigger] bin_start[c] <= #[trigger] bin_start[d]
    &&& forall|c: int| 0 <= c < bin_start.len() ==> #[trigger] bin_start[c] <= sorted.len()
}

/// The candidate neighbors of local atom `i` in the binned pair search: the
/// atoms after `i` in its own cell (when `has_self`), then the atoms of each
/// forward stencil cell in stencil order. Which of them are neighbors is
/// decided by the caller's distance test.
pub fn bin_candidates(
    i: usize,
    atom_cell: &[u32],
    atom_slot: &[u32],
    bin_start: &[u32],
    sorted: &[u32],
    stencil_forward: &[i32],
    has_self: bool,
) -> (r: Vec<u32>)
    requires
        i < atom_cell@.len(),
        i < atom_slot@.len(),
        atom_cell@[i as int] + 1 < bin_start@.len(),
        cells_delimited(bin_start@, sorted@),
        forall|k: int| 0 <= k < stencil_forward@.len() ==>
            0 <= atom_cell@[i as int] + #[trigger] stencil_forward@[k] && atom_cell@[i as int] + stencil_forward@[k] + 1 < bin_start@.len(),
    ensures
        r@ == bin_candidates_spec(bin_start@, sorted@, atom_cell@[i as int] as int, atom_slot@[i as int] as int, stencil_forward@, has_self),
        forall|k: int, q: int|
            #![trigger in_cell(bin_start@, atom_cell@[i as int] + stencil_forward@[k], q)]
            0 <= k < stencil_forward@.len() && in_cell(bin_start@, atom_cell@[i as int] + stencil_forward@[k], q)
                ==> r@.contains(sorted@[q]),
        forall|q: int|
            #![trigger in_cell(bin_start@, atom_cell@[i as int] as int, q)]
            has_self && atom_slot@[i as int] < q && in_cell(bin_start@, atom_cell@[i as int] as int, q)
                ==> r@.contains(sorted@[q]),
        in_cell(bin_start@, atom_cell@[i as int] as int, atom_slot@[i as int] as int) ==> forall|x: u32|
            #[trigger] r@.contains(x) ==> exists|q: int|
                #[trigger] candidate_slot(bin_start@, atom_cell@[i as int] as int, atom_slot@[i as int] as int, stencil_forward@, has_self, q)
                    && sorted@[q] == x,
        r@.len() == (if has_self && atom_slot@[i as int] < bin_start@[atom_cell@[i as int] + 1] {
            bin_start@[atom_cell@[i as int] + 1] - atom_slot@[i as int] - 1
        } else {
            0
        }) + stencil_count(bin_start@, atom_cell@[i as int] as int, stencil_forward@, stencil_forward@.len() as int),
{
    let cell = atom_cell[i] as usize;
    let nb = bin_start.len();
    assert(cell + 1 < nb);
    let ghost bs = bin_start@;
    let ghost so = sorted@;
    let mut r: Vec<u32> = Vec::new();
    if has_self {
        let end = bin_start[cell + 1] as usize;
        let idx = atom_slot[i] as usize;
        if idx < end {
            let mut m: usize = idx + 1;
            while m < end
                invariant
                    idx < end <= so.len(),
                    so == sorted@,
                    idx + 1 <= m <= end,
                    r@ == so.subrange(idx + 1, m as int),
                decreases end - m,
            {
                r.push(sorted[m]);
                m = m + 1;
                proof {
                    assert(r@ =~= so.subrange(idx + 1, m as int));
                }
            }
        }
        proof {
            assert(r@ =~= self_cell_atoms(bs, so, cell as int, idx as int));
        }
    }
    let ghost head = r@;
    proof {
        assert(head + stencil_atoms(bs, so, cell as int, stencil_forward@, 0) =~= head);
    }
    let mut k: usize = 0;
    while k < stencil_forward.len()
        invariant
            bs == bin_start@,
            so == sorted@,
            cells_delimited(bs, so),
            nb == bs.len(),
            i < atom_cell@.len(),
            cell == atom_cell@[i as int],
            forall|k2: int| 0 <= k2 < stencil_forward@.len() ==>
                0 <= cell + #[trigger] stencil_forward@[k2] && cell + stencil_forward@[k2] + 1 < bs.len(),
            k <= stencil_forward.len(),
            r@ == head + stencil_atoms(bs, so, cell as int, stencil_forward@, k as int),
        decreases stencil_forward.len() - k,
    {
        let c = (cell as i128 + stencil_forward[k] as i128) as usize;
        let start = bin_start[c] as usize;
        let end = bin_start[c + 1] as usize;
        let ghost before = r@;
        let mut m: usize = start;
        while m < end
            invariant
                so == sorted@,
                start <= end <= so.len(),
                start <= m <= end,
                r@ == before + so.subrange(start as int, m as int),
            decreases end - m,
        {
            r.push(sorted[m]);
            m = m + 1;
            proof {
                assert(r@ =~= before + so.subrange(start as int, m as int));
            }
        }
        proof {
            assert(c == cell + stencil_forward@[k as int]);
            assert(r@ =~= head + stencil_atoms(bs, so, cell as int, stencil_forward@, k + 1));
        }
        k = k + 1;
    }
    proof {
        assert(stencil_fits(bs, cell as int, stencil_forward@));
        let slot = atom_slot@[i as int] as int;
        lemma_candidates_complete(bs, so, cell as int, slot, stencil_forward@, has_self);
        lemma_stencil_count(bs, so, cell as int, stencil_forward@, stencil_forward@.len() as int);
        assert(bs[cell as int + 1] <= so.len());
        if in_cell(bs, cell as int, slot) {
            assert forall|x: u32| #[trigger] r@.contains(x) implies exists|q: int|
                #[trigger] candidate_slot(bs, cell as int, slot, stencil_forward@, has_self, q) && so[q] == x by {
                let q = lemma_candidate_member(bs, so, cell as int, slot, stencil_forward@, has_self, x);
                assert(candidate_slot(bs, cell as int, slot, stencil_forward@, has_self, q));
            }
        }
    }
    r
}


/// Slot `q` lies in cell `c`.
pub open spec fn in_cell(bin_start: Seq<u32>, c: int, q: int) -> bool {
    0 <= c && c + 1 < bin_start.len() && bin_start[c] <= q < bin_start[c + 1]
}

/// The forward offsets keep cell `c` inside the grid.
pub open spec fn stencil_fits(bin_start: Seq<u32>, c: int, stencil: Seq<i32>) -> bool {
    forall|k: int| 0 <= k < stencil.len() ==> 0 <= c + #[trigger] stencil[k] && c + stencil[k] + 1 < bin_start.len()
}

proof fn lemma_cell_unique(bin_start: Seq<u32>, sorted: Seq<u32>, c1: int, c2: int, q: int)
    requires
        cells_delimited(bin_start, sorted),
        in_cell(bin_start, c1, q),
        in_cell(bin_start, c2, q),
    ensures
        c1 == c2,
{
    if c1 < c2 {
        assert(bin_start[c1 + 1] <= bin_start[c2]);
    } else if c2 < c1 {
        assert(bin_start[c2 + 1] <= bin_start[c1]);
    }
}

/// Slot `q` may hold a candidate of the atom at slot `s` of cell `c`: it lies
/// after `s` in cell `c` (when the stencil holds that cell) or in a forward
/// stencil cell.
pub open spec fn candidate_slot(bin_start: Seq<u32>, c: int, s: int, stencil: Seq<i32>, has_self: bool, q: int) -> bool {
    (has_self && s < q && in_cell(bin_start, c, q))
        || exists|k: int| 0 <= k < stencil.len() && in_cell(bin_start, c + #[trigger] stencil[k], q)
}

/// Number of slots in the cells `c + stencil[0]`, …, `c + stencil[k - 1]`.
pub open spec fn stencil_count(bin_start: Seq<u32>, c: int, stencil: Seq<i32>, k: int) -> int
    decreases k,
{
    if k <= 0 {
        0
    } else {
        stencil_count(bin_start, c, stencil, k - 1) + (bin_start[c + stencil[k - 1] + 1] - bin_start[c + stencil[k - 1]])
    }
}

proof fn lemma_stencil_count(bin_start: Seq<u32>, sorted: Seq<u32>, c: int, stencil: Seq<i32>, k: int)
    requires
        cells_delimited(bin_start, sorted),
        stencil_fits(bin_start, c, stencil),
        0 <= k <= stencil.len(),
    ensures
        stencil_atoms(bin_start, sorted, c, stencil, k).len() == stencil_count(bin_start, c, stencil, k),
    decreases k,
{
    if k > 0 {
        lemma_stencil_count(bin_start, sorted, c, stencil, k - 1);
        let d = c + stencil[k - 1];
        assert(0 <= d && d + 1 < bin_start.len());
        assert(bin_start[d] <= bin_start[d + 1]);
        assert(bin_start[d + 1] <= sorted.len());
    }
}

/// Every atom of the stencil cells `c + stencil[0]`, …, `c + stencil[k - 1]`
/// is among their atoms.
proof fn lemma_stencil_complete(bin_start: Seq<u32>, sorted: Seq<u32>, c: int, stencil: Seq<i32>, k: int, j: int, q: int)
    requires
        cells_delimited(bin_start, sorted),
        stencil_fits(bin_start, c, stencil),
        0 <= j < k <= stencil.len(),
        in_cell(bin_start, c + stencil[j], q),
    ensures
        stencil_atoms(bin_start, sorted, c, stencil, k).contains(sorted[q]),
    decreases k,
{
    let prev = stencil_atoms(bin_start, sorted, c, stencil, k - 1);
    let cell = cell_atoms(bin_start, sorted, c + stencil[k - 1]);
    assert(stencil_atoms(bin_start, sorted, c, stencil, k) == prev + cell);
    if j < k - 1 {
        lemma_stencil_complete(bin_start, sorted, c, stencil, k - 1, j, q);
        let p = choose|p: int| 0 <= p < prev.len() && prev[p] == sorted[q];
        assert((prev + cell)[p] == sorted[q]);
    } else {
        let d = c + stencil[j];
        assert(bin_start[d + 1] <= sorted.len());
        let p = q - bin_start[d];
        assert(cell[p] == sorted[q]);
        assert((prev + cell)[prev.len() + p] == sorted[q]);
    }
}

/// Completeness of the candidates of the atom at slot `s` of cell `c`: every
/// atom whose slot lies in a forward stencil cell is a candidate, and so is
/// every atom after slot `s` in the atom's own cell when the stencil holds
/// that cell. No pair within the stencil escapes the distance test.
pub proof fn lemma_candidates_complete(
    bin_start: Seq<u32>,
    sorted: Seq<u32>,
    c: int,
    s: int,
    stencil: Seq<i32>,
    has_self: bool,
)
    requires
        cells_delimited(bin_start, sorted),
        stencil_fits(bin_start, c, stencil),
        0 <= s,
    ensures
        forall|k: int, q: int|
            #![trigger in_cell(bin_start, c + stencil[k], q)]
            0 <= k < stencil.len() && in_cell(bin_start, c + stencil[k], q)
                ==> bin_candidates_spec(bin_start, sorted, c, s, stencil, has_self).contains(sorted[q]),
        forall|q: int|
            #![trigger in_cell(bin_start, c, q)]
            has_self && s < q && in_cell(bin_start, c, q)
                ==> bin_candidates_spec(bin_start, sorted, c, s, stencil, has_self).contains(sorted[q]),
{
    let own = if has_self {
        self_cell_atoms(bin_start, sorted, c, s)
    } else {
        Seq::empty()
    };
    let rest = stencil_atoms(bin_start, sorted, c, stencil, stencil.len() as int);
    assert forall|k: int, q: int|
        0 <= k < stencil.len() && in_cell(bin_start, c + stencil[k], q) implies
        bin_candidates_spec(bin_start, sorted, c, s, stencil, has_self).contains(sorted[q]) by {
        lemma_stencil_complete(bin_start, sorted, c, stencil, stencil.len() as int, k, q);
        let p = choose|p: int| 0 <= p < rest.len() && rest[p] == sorted[q];
        assert((own + rest)[own.len() + p] == sorted[q]);
    }
    assert forall|q: int| has_self && s < q && in_cell(bin_start, c, q) implies
        bin_candidates_spec(bin_start, sorted, c, s, stencil, has_self).contains(sorted[q]) by {
        assert(bin_start[c + 1] <= sorted.len());
        assert(own == sorted.subrange(s + 1, bin_start[c + 1] as int));
        assert(own[q - s - 1] == sorted[q]);
        assert((own + rest)[q - s - 1] == sorted[q]);
    }
}

/// A member of the atoms of the first `k` stencil cells sits in one of those cells.
proof fn lemma_stencil_member(bin_start: Seq<u32>, sorted: Seq<u32>, c: int, stencil: Seq<i32>, k: int, x: u32) -> (r: (int, int))
    requires
        cells_delimited(bin_start, sorted),
        stencil_fits(bin_start, c, stencil),
        0 <= k <= stencil.len(),
        stencil_atoms(bin_start, sorted, c, stencil, k).contains(x),
    ensures
        0 <= r.0 < k,
        in_cell(bin_start, c + stencil[r.0], r.1),
        sorted[r.1] == x,
    decreases k,
{
    let prev = stencil_atoms(bin_start, sorted, c, stencil, k - 1);
    let cell = cell_atoms(bin_start, sorted, c + stencil[k - 1]);
    let p = choose|p: int| 0 <= p < prev.len() + cell.len() && (prev + cell)[p] == x;
    if p < prev.len() {
        assert(prev[p] == x);
        lemma_stencil_member(bin_start, sorted, c, stencil, k - 1, x)
    } else {
        let d = c + stencil[k - 1];
        assert(0 <= d && d + 1 < bin_start.len());
        assert(bin_start[d] <= bin_start[d + 1]);
        assert(cell[p - prev.len()] == x);
        (k - 1, bin_start[d] + p - prev.len())
    }
}

/// A candidate of the atom at slot `s` of cell `c` sits after `s` in cell `c`,
/// or in a forward stencil cell.
proof fn lemma_candidate_member(
    bin_start: Seq<u32>,
    sorted: Seq<u32>,
    c: int,
    s: int,
    stencil: Seq<i32>,
    has_self: bool,
    x: u32,
) -> (q: int)
    requires
        cells_delimited(bin_start, sorted),
        in_cell(bin_start, c, s),
        stencil_fits(bin_start, c, stencil),
        bin_candidates_spec(bin_start, sorted, c, s, stencil, has_self).contains(x),
    ensures
        sorted[q] == x,
        (has_self && s < q && in_cell(bin_start, c, q))
            || exists|k: int| 0 <= k < stencil.len() && in_cell(bin_start, c + #[trigger] stencil[k], q),
{
    let own = if has_self {
        self_cell_atoms(bin_start, sorted, c, s)
    } else {
        Seq::empty()
    };
    let rest = stencil_atoms(bin_start, sorted, c, stencil, stencil.len() as int);
    let p = choose|p: int| 0 <= p < (own + rest).len() && (own + rest)[p] == x;
    if p < own.len() {
        assert(own[p] == x);
        assert(sorted[s + 1 + p] == x);
        s + 1 + p
    } else {
        assert(rest[p - own.len()] == x);
        assert(rest.contains(x));
        let (k, q) = lemma_stencil_member(bin_start, sorted, c, stencil, stencil.len() as int, x);
        assert(in_cell(bin_start, c + stencil[k], q));
        q
    }
}

/// The binned search finds each pair from at most one of its two atoms, and
/// never pairs an atom with itself: when the slot order lists each atom once
/// and every forward offset is positive, an atom is not its own candidate, and
/// if the atom at slot `sb` is a candidate of the atom at slot `sa`, the latter
/// is not a candidate of the former.
pub proof fn lemma_pair_found_once(
    bin_start: Seq<u32>,
    sorted: Seq<u32>,
    a: int,
    sa: int,
    b: int,
    sb: int,
    stencil: Seq<i32>,
    has_self: bool,
)
    requires
        cells_delimited(bin_start, sorted),
        sorted.no_duplicates(),
        in_cell(bin_start, a, sa),
        in_cell(bin_start, b, sb),
        stencil_fits(bin_start, a, stencil),
        stencil_fits(bin_start, b, stencil),
        forall|k: int| 0 <= k < stencil.len() ==> 0 < #[trigger] stencil[k],
    ensures
        !bin_candidates_spec(bin_start, sorted, a, sa, stencil, has_self).contains(sorted[sa]),
        bin_candidates_spec(bin_start, sorted, a, sa, stencil, has_self).contains(sorted[sb])
            ==> !bin_candidates_spec(bin_start, sorted, b, sb, stencil, has_self).contains(sorted[sa]),
{
    assert(sa < sorted.len() && sb < sorted.len()) by {
        assert(bin_start[a + 1] <= sorted.len());
        assert(bin_start[b + 1] <= sorted.len());
    }
    if bin_candidates_spec(bin_start, sorted, a, sa, stencil, has_self).contains(sorted[sa]) {
        let q = lemma_candidate_member(bin_start, sorted, a, sa, stencil, has_self, sorted[sa]);
        assert(q == sa);
        if !(has_self && sa < q && in_cell(bin_start, a, q)) {
            let k = choose|k: int| 0 <= k < stencil.len() && in_cell(bin_start, a + #[trigger] stencil[k], q);
            lemma_cell_unique(bin_start, sorted, a, a + stencil[k], sa);
        }
    }
    if bin_candidates_spec(bin_start, sorted, a, sa, stencil, has_self).contains(sorted[sb])
        && bin_candidates_spec(bin_start, sorted, b, sb, stencil, has_self).contains(sorted[sa]) {
        let q1 = lemma_candidate_member(bin_start, sorted, a, sa, stencil, has_self, sorted[sb]);
        assert(q1 == sb);
        let q2 = lemma_candidate_member(bin_start, sorted, b, sb, stencil, has_self, sorted[sa]);
        assert(q2 == sa);
        // From a's side: b == a with sb > sa, or b lies past a.
        let fwd1 = !(has_self && sa < q1 && in_cell(bin_start, a, q1));
        if fwd1 {
            let k = choose|k: int| 0 <= k < stencil.len() && in_cell(bin_start, a + #[trigger] stencil[k], q1);
            lemma_cell_unique(bin_start, sorted, b, a + stencil[k], sb);
        } else {
            lemma_cell_unique(bin_start, sorted, b, a, sb);
        }
        assert((b == a && sb > sa) || b > a);
        let fwd2 = !(has_self && sb < q2 && in_cell(bin_start, b, q2));
        if fwd2 {
            let k = choose|k: int| 0 <= k < stencil.len() && in_cell(bin_start, b + #[trigger] stencil[k], q2);
            lemma_cell_unique(bin_start, sorted, a, b + stencil[k], sa);
        } else {
            lemma_cell_unique(bin_start, sorted, a, b, sa);
        }
        assert(false);
    }
}


// ── Walking a CSR neighbor list ────────────────────────────────────────────

/// The pairs `(i, j)` of row `i` of a CSR list, `j` running over
/// `indices[offsets[i] .. offsets[i + 1]]` (none when the bounds are reversed).
pub open spec fn csr_row_pairs(offsets: Seq<u32>, indices: Seq<u32>, i: int) -> Seq<(usize, usize)> {
    if offsets[i] < offsets[i + 1] {
        Seq::new((offsets[i + 1] - offsets[i]) as nat, |k: int| (i as usize, indices[offsets[i] + k] as usize))
    } else {
        Seq::empty()
    }
}

/// The pairs of rows `0..m` of a CSR list, row after row.
pub open spec fn csr_pairs_upto(offsets: Seq<u32>, indices: Seq<u32>, m: int) -> Seq<(usize, usize)>
    decreases m,
{
    if m <= 0 {
        Seq::empty()
    } else {
        csr_pairs_upto(offsets, indices, m - 1) + csr_row_pairs(offsets, indices, m - 1)
    }
}

/// All pairs `(i, j)` of a CSR neighbor list over `nlocal` local atoms, row
/// after row, each row in list order.
pub fn pairs(offsets: &[u32], indices: &[u32], nlocal: usize) -> (r: Vec<(usize, usize)>)
    requires
        nlocal == 0 || nlocal < offsets@.len(),
        forall|i: int, j: int|
            #![trigger offsets@[i], offsets@[j]]
            0 <= i < nlocal && j == i + 1 && offsets@[i] < offsets@[j] ==> offsets@[j] <= indices@.len(),
    ensures
        r@ == csr_pairs_upto(offsets@, indices@, nlocal as int),
{
    let mut r: Vec<(usize, usize)> = Vec::new();
    let mut i: usize = 0;
    while i < nlocal
        invariant
            nlocal == 0 || nlocal < offsets@.len(),
            forall|q: int, j: int|
                #![trigger offsets@[q], offsets@[j]]
                0 <= q < nlocal && j == q + 1 && offsets@[q] < offsets@[j] ==> offsets@[j] <= indices@.len(),
            i <= nlocal,
            r@ == csr_pairs_upto(offsets@, indices@, i as int),
        decreases nlocal - i,
    {
        let lo = offsets[i] as usize;
        let hi = offsets[i + 1] as usize;
        let ghost before = r@;
        if lo < hi {
            let mut k: usize = lo;
            while k < hi
                invariant
                    lo < hi <= indices@.len(),
                    lo <= k <= hi,
                    lo == offsets@[i as int],
                    hi == offsets@[i + 1],
                    r@.len() == before.len() + (k - lo),
                    forall|p: int| 0 <= p < before.len() ==> #[trigger] r@[p] == before[p],
                    forall|p: int| before.len() <= p < r@.len() ==> #[trigger] r@[p] == (i, indices@[lo + p - before.len()] as usize),
                decreases hi - k,
            {
                r.push((i, indices[k] as usize));
                k = k + 1;
            }
        }
        proof {
            assert(r@ =~= csr_pairs_upto(offsets@, indices@, i + 1));
        }
        i = i + 1;
    }
    r
}

/// Positions `offsets[i] .. offsets[i + 1]` of the walk of rows `0..m` hold row `i`.
proof fn lemma_csr_walk_positions(offsets: Seq<u32>, indices: Seq<u32>, m: int)
    requires
        0 <= m < offsets.len(),
        offsets[0] == 0,
        forall|a: int, b: int| 0 <= a <= b < offsets.len() ==> #[trigger] offsets[a] <= #[trigger] offsets[b],
    ensures
        csr_pairs_upto(offsets, indices, m).len() == offsets[m],
        forall|i: int, p: int|
            #![trigger offsets[i], csr_pairs_upto(offsets, indices, m)[p]]
            0 <= i < m && offsets[i] <= p < offsets[i + 1] ==> csr_pairs_upto(offsets, indices, m)[p] == (i as usize, indices[p] as usize),
    decreases m,
{
    if m > 0 {
        lemma_csr_walk_positions(offsets, indices, m - 1);
        let prev = csr_pairs_upto(offsets, indices, m - 1);
        let row = csr_row_pairs(offsets, indices, m - 1);
        let all = csr_pairs_upto(offsets, indices, m);
        assert(offsets[m - 1] <= offsets[m]);
        assert forall|i: int, p: int|
            #![trigger offsets[i], all[p]]
            0 <= i < m && offsets[i] <= p < offsets[i + 1] implies all[p] == (i as usize, indices[p] as usize) by {
            if i < m - 1 {
                assert(offsets[i + 1] <= offsets[m - 1]);
                assert(all[p] == prev[p]);
                assert(offsets[i] <= offsets[i]);
                assert(prev[p] == (i as usize, indices[p] as usize));
            } else {
                assert(all[p] == row[p - offsets[m - 1]]);
            }
        }
    }
}

/// Slots of the pairs among the first `m` that start at a local atom, in pair order.
spec fn local_slots(rows: Seq<u32>, n: int, nlocal: int, m: int) -> Seq<usize>
    decreases m,
{
    if m <= 0 {
        Seq::empty()
    } else {
        local_slots(rows, n, nlocal, m - 1) + if rows[m - 1] < nlocal {
            seq![slot(rows, n, m - 1) as usize]
        } else {
            Seq::empty()
        }
    }
}

#[verifier::spinoff_prover]
proof fn lemma_local_slots(rows: Seq<u32>, n: int, nlocal: int, m: int)
    requires
        0 <= m <= n <= rows.len(),
        n <= usize::MAX,
        forall|k: int| 0 <= k < n ==> #[trigger] rows[k] <= nlocal,
    ensures
        local_slots(rows, n, nlocal, m).len() == count_below(rows, m, nlocal),
        forall|p: int| 0 <= p < local_slots(rows, n, nlocal, m).len() ==> {
            let v = #[trigger] local_slots(rows, n, nlocal, m)[p];
            exists|k: int| 0 <= k < m && rows[k] < nlocal && slot(rows, n, k) == v
        },
        forall|p: int, q: int|
            0 <= p < q < local_slots(rows, n, nlocal, m).len() ==> local_slots(rows, n, nlocal, m)[p] != local_slots(
                rows,
                n,
                nlocal,
                m,
            )[q],
        forall|p: int| 0 <= p < local_slots(rows, n, nlocal, m).len() ==> #[trigger] local_slots(rows, n, nlocal, m)[p]
            < count_below(rows, n, nlocal),
    decreases m,
{
    if m > 0 {
        lemma_local_slots(rows, n, nlocal, m - 1);
        let prev = local_slots(rows, n, nlocal, m - 1);
        let all = local_slots(rows, n, nlocal, m);
        if rows[m - 1] < nlocal {
            let k = m - 1;
            lemma_slot_bound(rows, n, k);
            lemma_below_monotone(rows, n, rows[k] as int + 1, nlocal);
            assert forall|p: int| 0 <= p < all.len() implies {
                let v = #[trigger] all[p];
                exists|k2: int| 0 <= k2 < m && rows[k2] < nlocal && slot(rows, n, k2) == v
            } by {
                if p < prev.len() {
                    assert(all[p] == prev[p]);
                    let k2 = choose|k2: int| 0 <= k2 < m - 1 && rows[k2] < nlocal && slot(rows, n, k2) == prev[p];
                    assert(0 <= k2 < m && rows[k2] < nlocal && slot(rows, n, k2) == all[p]);
                } else {
                    assert(all[p] == slot(rows, n, k) as usize);
                    assert(0 <= k < m && rows[k] < nlocal && slot(rows, n, k) == all[p]);
                }
            }
            assert forall|p: int, q: int| 0 <= p < q < all.len() implies all[p] != all[q] by {
                if q == all.len() - 1 {
                    assert(all[p] == prev[p]);
                    let k2 = choose|k2: int| 0 <= k2 < m - 1 && rows[k2] < nlocal && slot(rows, n, k2) == prev[p];
                    lemma_slots_distinct(rows, n, k, k2);
                } else {
                    assert(all[p] == prev[p]);
                    assert(all[q] == prev[q]);
                }
            }
            assert forall|p: int| 0 <= p < all.len() implies #[trigger] all[p] < count_below(rows, n, nlocal) by {
                if p < prev.len() {
                    assert(all[p] == prev[p]);
                }
            }
        } else {
            assert(all =~= prev);
            assert forall|p: int| 0 <= p < all.len() implies {
                let v = #[trigger] all[p];
                exists|k2: int| 0 <= k2 < m && rows[k2] < nlocal && slot(rows, n, k2) == v
            } by {
                let k2 = choose|k2: int| 0 <= k2 < m - 1 && rows[k2] < nlocal && slot(rows, n, k2) == prev[p];
                assert(0 <= k2 < m && rows[k2] < nlocal && slot(rows, n, k2) == all[p]);
            }
        }
    }
}

/// Walking the half neighbor list that `build_csr_from_pairs` makes from a
/// pair list gives back exactly the pairs that start at a local atom: the
/// walk meets each of them, meets nothing else, and is as long as there are
/// such pairs (atom indices fitting in 32 bits).
pub proof fn lemma_csr_round_trip(pairs: Seq<(usize, usize)>, nlocal: usize, offsets: Seq<u32>, indices: Seq<u32>)
    requires
        pairs.len() <= u32::MAX,
        nlocal < u32::MAX - 1,
        forall|k: int| 0 <= k < pairs.len() ==> (#[trigger] pairs[k]).1 <= u32::MAX,
        is_csr_of(pairs, nlocal, offsets, indices),
    ensures
        csr_pairs_upto(offsets, indices, nlocal as int).len() == count_below(
            pair_rows(pairs, nlocal),
            pairs.len() as int,
            nlocal as int,
        ),
        forall|k: int|
            0 <= k < pairs.len() && (#[trigger] pairs[k]).0 < nlocal ==> csr_pairs_upto(offsets, indices, nlocal as int).contains(
                pairs[k],
            ),
        forall|q: int|
            0 <= q < csr_pairs_upto(offsets, indices, nlocal as int).len() ==> exists|k: int|
                0 <= k < pairs.len() && pairs[k].0 < nlocal && pairs[k] == #[trigger] csr_pairs_upto(
                    offsets,
                    indices,
                    nlocal as int,
                )[q],
{
    let rows = pair_rows(pairs, nlocal);
    let n = pairs.len() as int;
    let walk = csr_pairs_upto(offsets, indices, nlocal as int);
    lemma_below_zero(rows, n);
    assert forall|a: int, b: int| 0 <= a <= b < offsets.len() implies #[trigger] offsets[a] <= #[trigger] offsets[b] by {
        lemma_below_monotone(rows, n, a, b);
    }
    lemma_csr_walk_positions(offsets, indices, nlocal as int);
    assert forall|k: int| 0 <= k < n && (#[trigger] pairs[k]).0 < nlocal implies walk.contains(pairs[k]) && walk[slot(rows, n, k)]
        == pairs[k] by {
        let r = rows[k] as int;
        assert(r == pairs[k].0);
        let s = slot(rows, n, k);
        lemma_slot_bound(rows, n, k);
        assert(offsets[r] <= s < offsets[r + 1]);
        assert(walk[s] == (r as usize, indices[s] as usize));
        assert(indices[s] == pairs[k].1 as u32);
        assert(walk[s] == pairs[k]);
    }
    assert forall|k: int| 0 <= k < n ==> #[trigger] rows[k] <= nlocal by {}
    lemma_local_slots(rows, n, nlocal as int, n);
    let ls = local_slots(rows, n, nlocal as int, n);
    crate::ordering::lemma_distinct_below_len(ls, count_below(rows, n, nlocal as int) as int);
    assert forall|q: int| 0 <= q < walk.len() implies exists|k: int|
        0 <= k < pairs.len() && pairs[k].0 < nlocal && pairs[k] == #[trigger] walk[q] by {
        assert(crate::ordering::appears(ls, q));
        let p = choose|p: int| 0 <= p < ls.len() && ls[p] == q;
        assert(ls[p] == q);
        let k = choose|k: int| 0 <= k < n && rows[k] < nlocal && slot(rows, n, k) == ls[p];
        assert(pairs[k].0 < nlocal);
        assert(walk[slot(rows, n, k)] == pairs[k]);
    }
}


// ── A CSR neighbor list from per-atom neighbor lists ───────────────────────

/// Total length of the first `m` rows.
pub open spec fn rows_len_upto(rows: Seq<Vec<u32>>, m: int) -> nat
    decreases m,
{
    if m <= 0 {
        0
    } else {
        rows_len_upto(rows, m - 1) + rows[m - 1]@.len()
    }
}

/// The first `m` rows one after the other.
pub open spec fn rows_flat_upto(rows: Seq<Vec<u32>>, m: int) -> Seq<u32>
    decreases m,
{
    if m <= 0 {
        Seq::empty()
    } else {
        rows_flat_upto(rows, m - 1) + rows[m - 1]@
    }
}

/// `offsets` and `indices` are the CSR form of `rows`: row `i` of the list is
/// `rows[i]`, starting at the total length of the rows before it.
pub open spec fn is_csr_of_rows(rows: Seq<Vec<u32>>, offsets: Seq<u32>, indices: Seq<u32>) -> bool {
    &&& offsets.len() == rows.len() + 1
    &&& forall|i: int| 0 <= i <= rows.len() ==> #[trigger] offsets[i] == rows_len_upto(rows, i)
    &&& indices == rows_flat_upto(rows, rows.len() as int)
}

/// The invariant of a half neighbor list over `nlocal` local atoms among
/// `total` atoms: one offset per local atom plus a final one, starting at 0,
/// never decreasing, the last one the number of indices; every neighbor of
/// atom `i` is an atom below `total` other than `i`.
pub open spec fn neighbor_list_invariant(offsets: Seq<u32>, indices: Seq<u32>, nlocal: int, total: int) -> bool {
    &&& offsets.len() == nlocal + 1
    &&& offsets[0] == 0
    &&& forall|a: int, b: int| 0 <= a <= b <= nlocal ==> #[trigger] offsets[a] <= #[trigger] offsets[b]
    &&& offsets[nlocal] == indices.len()
    &&& forall|i: int, p: int|
        #![trigger offsets[i], indices[p]]
        0 <= i < nlocal && offsets[i] <= p < offsets[i + 1] ==> indices[p] < total && indices[p] != i
}

proof fn lemma_rows_len_mono(rows: Seq<Vec<u32>>, a: int, b: int)
    requires
        0 <= a <= b,
    ensures
        rows_len_upto(rows, a) <= rows_len_upto(rows, b),
    decreases b - a,
{
    if a < b {
        lemma_rows_len_mono(rows, a, b - 1);
    }
}

proof fn lemma_rows_flat_positions(rows: Seq<Vec<u32>>, m: int)
    requires
        0 <= m <= rows.len(),
    ensures
        rows_flat_upto(rows, m).len() == rows_len_upto(rows, m),
        forall|i: int, p: int|
            #![trigger rows[i], rows_flat_upto(rows, m)[p]]
            0 <= i < m && rows_len_upto(rows, i) <= p < rows_len_upto(rows, i + 1) ==> rows_flat_upto(rows, m)[p]
                == rows[i]@[p - rows_len_upto(rows, i)],
    decreases m,
{
    if m > 0 {
        lemma_rows_flat_positions(rows, m - 1);
        let prev = rows_flat_upto(rows, m - 1);
        let all = rows_flat_upto(rows, m);
        assert forall|i: int, p: int|
            #![trigger rows[i], all[p]]
            0 <= i < m && rows_len_upto(rows, i) <= p < rows_len_upto(rows, i + 1) implies all[p] == rows[i]@[p
                - rows_len_upto(rows, i)] by {
            if i < m - 1 {
                lemma_rows_len_mono(rows, i + 1, m - 1);
                assert(all[p] == prev[p]);
                assert(prev[p] == rows[i]@[p - rows_len_upto(rows, i)]);
            }
        }
    }
}

/// The half neighbor list in CSR form from the neighbors of each local atom,
/// row after row (`rows[i]` the neighbors of atom `i`, in order).
pub fn csr_from_rows(rows: &Vec<Vec<u32>>) -> (r: (Vec<u32>, Vec<u32>))
    requires
        rows_len_upto(rows@, rows@.len() as int) <= u32::MAX,
    ensures
        is_csr_of_rows(rows@, r.0@, r.1@),
{
    let n = rows.len();
    let mut offsets: Vec<u32> = Vec::new();
    let mut indices: Vec<u32> = Vec::new();
    offsets.push(0);
    let mut i: usize = 0;
    while i < n
        invariant
            n == rows@.len(),
            rows_len_upto(rows@, n as int) <= u32::MAX,
            i <= n,
            offsets@.len() == i + 1,
            forall|q: int| 0 <= q <= i ==> #[trigger] offsets@[q] == rows_len_upto(rows@, q),
            indices@ == rows_flat_upto(rows@, i as int),
            indices@.len() == rows_len_upto(rows@, i as int),
        decreases n - i,
    {
        let row = &rows[i];
        let ghost base = indices@;
        let mut k: usize = 0;
        while k < row.len()
            invariant
                row == &rows@[i as int],
                k <= row@.len(),
                indices@ == base + row@.take(k as int),
            decreases row@.len() - k,
        {
            indices.push(row[k]);
            k = k + 1;
            proof {
                assert(indices@ =~= base + row@.take(k as int));
            }
        }
        proof {
            assert(row@.take(row@.len() as int) =~= row@);
            lemma_rows_len_mono(rows@, i + 1, n as int);
            assert(indices@.len() == rows_len_upto(rows@, i + 1));
        }
        offsets.push(indices.len() as u32);
        i = i + 1;
    }
    (offsets, indices)
}

/// A CSR list built from per-atom neighbor lists keeps the neighbor-list
/// invariant when every listed neighbor of atom `i` is an atom below `total`
/// other than `i`.
pub proof fn lemma_rows_csr_invariant(rows: Seq<Vec<u32>>, offsets: Seq<u32>, indices: Seq<u32>, total: int)
    requires
        is_csr_of_rows(rows, offsets, indices),
        forall|i: int, k: int|
            0 <= i < rows.len() && 0 <= k < rows[i]@.len() ==> (#[trigger] rows[i]@[k]) < total && rows[i]@[k] != i,
    ensures
        neighbor_list_invariant(offsets, indices, rows.len() as int, total),
{
    let n = rows.len() as int;
    lemma_rows_flat_positions(rows, n);
    assert forall|a: int, b: int| 0 <= a <= b <= n implies #[trigger] offsets[a] <= #[trigger] offsets[b] by {
        lemma_rows_len_mono(rows, a, b);
    }
    assert forall|i: int, p: int|
        #![trigger offsets[i], indices[p]]
        0 <= i < n && offsets[i] <= p < offsets[i + 1] implies indices[p] < total && indices[p] != i by {
        assert(offsets[i] == rows_len_upto(rows, i));
        assert(offsets[i + 1] == rows_len_upto(rows, i + 1));
        assert(indices[p] == rows[i]@[p - rows_len_upto(rows, i)]);
    }
}

} // verus!
