//! The structure of the schedule diagram: clusters of consecutive systems of
//! one phase, the edges that chain the systems and the clusters in run order,
//! and the `before`/`after` constraint edges between labelled systems.
//!
//! Systems are identified by their position in the organized list; a phase is
//! identified by its numeric value.

use vstd::prelude::*;
use crate::schedule::ScheduleSet;
use crate::ordering::{StoredSystemEntry, find_label, label_target, lemma_label_target};

verus! {

/// Maximal runs of equal consecutive values among the first `m` of `sets`, as
/// (first, last) positions, in order.
pub open spec fn runs_upto(sets: Seq<u32>, m: int) -> Seq<(usize, usize)>
    decreases m,
{
    if m <= 0 {
        Seq::empty()
    } else {
        let r = runs_upto(sets, m - 1);
        if m >= 2 && sets[m - 1] == sets[m - 2] {
            r.update(r.len() - 1, (r.last().0, (m - 1) as usize))
        } else {
            r.push(((m - 1) as usize, (m - 1) as usize))
        }
    }
}

/// The runs of all of `sets`.
pub open spec fn runs_of(sets: Seq<u32>) -> Seq<(usize, usize)> {
    runs_upto(sets, sets.len() as int)
}

/// `runs` cuts positions `0..m` into consecutive runs, each of one value,
/// neighbouring runs having different values.
pub open spec fn is_run_partition(sets: Seq<u32>, m: int, runs: Seq<(usize, usize)>) -> bool {
    &&& m == 0 <==> runs.len() == 0
    &&& runs.len() > 0 ==> runs[0].0 == 0 && runs.last().1 == m - 1
    &&& forall|k: int| 0 <= k < runs.len() ==> (#[trigger] runs[k]).0 <= runs[k].1
    &&& forall|j: int, k: int| 0 <= j && k == j + 1 && k < runs.len() ==> (#[trigger] runs[k]).0 == (#[trigger] runs[j]).1 + 1
    &&& forall|k: int, p: int|
        #![trigger runs[k], sets[p]]
        0 <= k < runs.len() && runs[k].0 <= p <= runs[k].1 ==> sets[p] == sets[runs[k].0 as int]
    &&& forall|j: int, k: int| 0 <= j && k == j + 1 && k < runs.len() ==> sets[(#[trigger] runs[j]).1 as int] != sets[(#[trigger] runs[k]).0 as int]
}

proof fn lemma_runs_extend(sets: Seq<u32>, m: int, r: Seq<(usize, usize)>)
    requires
        2 <= m <= sets.len() <= usize::MAX,
        sets[m - 1] == sets[m - 2],
        is_run_partition(sets, m - 1, r),
    ensures
        is_run_partition(sets, m, r.update(r.len() - 1, (r.last().0, (m - 1) as usize))),
{
    let last = r.len() - 1;
    let r2 = r.update(last, (r[last].0, (m - 1) as usize));
    assert(r2.len() == r.len());
    assert forall|k: int| 0 <= k < r2.len() implies (#[trigger] r2[k]).0 <= r2[k].1 by {
        if k != last {
            assert(r2[k] == r[k]);
        }
    }
    assert forall|j: int, k: int| 0 <= j && k == j + 1 && k < r2.len() implies (#[trigger] r2[k]).0 == (#[trigger] r2[j]).1 + 1 by {
        assert(r2[j] == r[j]);
        if k != last {
            assert(r2[k] == r[k]);
        }
    }
    assert forall|k: int, p: int|
        #![trigger r2[k], sets[p]]
        0 <= k < r2.len() && r2[k].0 <= p <= r2[k].1 implies sets[p] == sets[r2[k].0 as int] by {
        if k != last {
            assert(r2[k] == r[k]);
            assert(r[k].0 <= p <= r[k].1);
        } else if p == m - 1 {
            assert(r[last].0 <= m - 2 <= r[last].1);
            assert(sets[m - 2] == sets[r[last].0 as int]);
        } else {
            assert(r[last].0 <= p <= r[last].1);
        }
    }
    assert forall|j: int, k: int| 0 <= j && k == j + 1 && k < r2.len() implies sets[(#[trigger] r2[j]).1 as int] != sets[(#[trigger] r2[k]).0 as int] by {
        assert(r2[j] == r[j]);
        assert(r2[k].0 == r[k].0);
        assert(sets[r[j].1 as int] != sets[r[k].0 as int]);
    }
}

proof fn lemma_runs_new(sets: Seq<u32>, m: int, r: Seq<(usize, usize)>)
    requires
        1 <= m <= sets.len() <= usize::MAX,
        m < 2 || sets[m - 1] != sets[m - 2],
        is_run_partition(sets, m - 1, r),
    ensures
        is_run_partition(sets, m, r.push(((m - 1) as usize, (m - 1) as usize))),
{
    let r2 = r.push(((m - 1) as usize, (m - 1) as usize));
    assert forall|k: int| 0 <= k < r2.len() implies (#[trigger] r2[k]).0 <= r2[k].1 by {
        if k < r.len() {
            assert(r2[k] == r[k]);
        }
    }
    assert forall|j: int, k: int| 0 <= j && k == j + 1 && k < r2.len() implies (#[trigger] r2[k]).0 == (#[trigger] r2[j]).1 + 1 by {
        assert(r2[j] == r[j]);
        if k < r.len() {
            assert(r2[k] == r[k]);
        }
    }
    assert forall|k: int, p: int|
        #![trigger r2[k], sets[p]]
        0 <= k < r2.len() && r2[k].0 <= p <= r2[k].1 implies sets[p] == sets[r2[k].0 as int] by {
        if k < r.len() {
            assert(r2[k] == r[k]);
            assert(r[k].0 <= p <= r[k].1);
        }
    }
    assert forall|j: int, k: int| 0 <= j && k == j + 1 && k < r2.len() implies sets[(#[trigger] r2[j]).1 as int] != sets[(#[trigger] r2[k]).0 as int] by {
        assert(r2[j] == r[j]);
        if k < r.len() {
            assert(r2[k] == r[k]);
            assert(sets[r[j].1 as int] != sets[r[k].0 as int]);
        }
    }
}

/// The runs of consecutive equal values cut the positions into clusters: in
/// order, without gap or overlap, each of one value, and each as long as it can be.
pub proof fn lemma_runs_partition(sets: Seq<u32>, m: int)
    requires
        0 <= m <= sets.len() <= usize::MAX,
    ensures
        is_run_partition(sets, m, runs_upto(sets, m)),
    decreases m,
{
    if m > 0 {
        lemma_runs_partition(sets, m - 1);
        let r = runs_upto(sets, m - 1);
        if m >= 2 && sets[m - 1] == sets[m - 2] {
            lemma_runs_extend(sets, m, r);
        } else {
            lemma_runs_new(sets, m, r);
        }
    }
}

/// The runs of consecutive equal phase values, as (first, last) positions.
pub fn set_runs(sets: &[u32]) -> (r: Vec<(usize, usize)>)
    ensures
        r@ == runs_of(sets@),
{
    let n = sets.len();
    let mut r: Vec<(usize, usize)> = Vec::new();
    let mut i: usize = 0;
    while i < n
        invariant
            n == sets@.len(),
            i <= n,
            r@ == runs_upto(sets@, i as int),
            i > 0 ==> r@.len() > 0,
        decreases n - i,
    {
        if i > 0 && sets[i] == sets[i - 1] {
            let last = r.len() - 1;
            let first = r[last].0;
            r.set(last, (first, i));
        } else {
            r.push((i, i));
        }
        i = i + 1;
    }
    r
}

/// Edges from the last system of each cluster to the first of the next.
pub open spec fn chain_edges_spec(runs: Seq<(usize, usize)>) -> Seq<(usize, usize)> {
    Seq::new(
        (if runs.len() > 0 {
            runs.len() - 1
        } else {
            0
        }) as nat,
        |k: int| (runs[k].1, runs[k + 1].0),
    )
}

/// The edges that chain the clusters in run order.
pub fn cluster_chain_edges(runs: &[(usize, usize)]) -> (r: Vec<(usize, usize)>)
    ensures
        r@ == chain_edges_spec(runs@),
{
    let mut r: Vec<(usize, usize)> = Vec::new();
    if runs.len() == 0 {
        return r;
    }
    let len = runs.len();
    let mut k: usize = 0;
    while k < len - 1
        invariant
            len == runs@.len(),
            runs@.len() > 0,
            k + 1 <= runs@.len(),
            r@.len() == k,
            forall|q: int| 0 <= q < k ==> #[trigger] r@[q] == (runs@[q].1, runs@[q + 1].0),
        decreases runs@.len() - k,
    {
        r.push((runs[k].1, runs[k + 1].0));
        k = k + 1;
    }
    proof {
        assert(r@ =~= chain_edges_spec(runs@));
    }
    r
}

/// Edges between neighbouring systems of one cluster among the first `m`.
pub open spec fn within_edges_upto(sets: Seq<u32>, m: int) -> Seq<(usize, usize)>
    decreases m,
{
    if m <= 1 {
        Seq::empty()
    } else {
        within_edges_upto(sets, m - 1) + if sets[m - 2] == sets[m - 1] {
            seq![((m - 2) as usize, (m - 1) as usize)]
        } else {
            Seq::empty()
        }
    }
}

/// The edges from each system to the next one of the same cluster, in order.
pub fn within_cluster_edges(sets: &[u32]) -> (r: Vec<(usize, usize)>)
    ensures
        r@ == within_edges_upto(sets@, sets@.len() as int),
{
    let n = sets.len();
    let mut r: Vec<(usize, usize)> = Vec::new();
    if n == 0 {
        return r;
    }
    let mut i: usize = 1;
    while i < n
        invariant
            n == sets@.len(),
            1 <= i <= n,
            r@ == within_edges_upto(sets@, i as int),
        decreases n - i,
    {
        if sets[i - 1] == sets[i] {
            r.push((i - 1, i));
        }
        proof {
            assert(r@ =~= within_edges_upto(sets@, i + 1));
        }
        i = i + 1;
    }
    r
}

/// The closing edge of the run loop, from the last update cluster back to the
/// first, when there are at least two clusters.
pub fn run_loop_edge(runs: &[(usize, usize)]) -> (r: Option<(usize, usize)>)
    ensures
        r == if runs@.len() >= 2 {
            Some((runs@.last().1, runs@[0].0))
        } else {
            None::<(usize, usize)>
        },
{
    if runs.len() >= 2 {
        Some((runs[runs.len() - 1].1, runs[0].0))
    } else {
        None
    }
}

/// The edge from the last setup system to the first update system, when both exist.
pub fn start_run_edge(setup_runs: &[(usize, usize)], update_runs: &[(usize, usize)]) -> (r: Option<(usize, usize)>)
    ensures
        r == if setup_runs@.len() > 0 && update_runs@.len() > 0 {
            Some((setup_runs@.last().1, update_runs@[0].0))
        } else {
            None::<(usize, usize)>
        },
{
    if setup_runs.len() > 0 && update_runs.len() > 0 {
        Some((setup_runs[setup_runs.len() - 1].1, update_runs[0].0))
    } else {
        None
    }
}

/// `before` edges of system `i` from its first `k` `before` names: to the
/// system each name labels (the last one carrying it); unknown names are skipped.
pub open spec fn before_edges<S>(g: Seq<(StoredSystemEntry<S>, ScheduleSet)>, i: int, k: int) -> Seq<(usize, usize, bool)>
    decreases k,
{
    if k <= 0 {
        Seq::empty()
    } else {
        before_edges(g, i, k - 1) + match label_target(g, g[i].0.befores@[k - 1]@) {
            Some(t) => seq![(i as usize, t as usize, true)],
            None => Seq::empty(),
        }
    }
}

/// `after` edges of system `i` from its first `k` `after` names: from the
/// system each name labels to `i`; unknown names are skipped.
pub open spec fn after_edges<S>(g: Seq<(StoredSystemEntry<S>, ScheduleSet)>, i: int, k: int) -> Seq<(usize, usize, bool)>
    decreases k,
{
    if k <= 0 {
        Seq::empty()
    } else {
        after_edges(g, i, k - 1) + match label_target(g, g[i].0.afters@[k - 1]@) {
            Some(s) => seq![(s as usize, i as usize, false)],
            None => Seq::empty(),
        }
    }
}

/// Constraint edges of the first `m` systems, system after system: its
/// `before` edges, then its `after` edges. The flag tells a `before` edge.
pub open spec fn constraint_edges_upto<S>(g: Seq<(StoredSystemEntry<S>, ScheduleSet)>, m: int) -> Seq<(usize, usize, bool)>
    decreases m,
{
    if m <= 0 {
        Seq::empty()
    } else {
        constraint_edges_upto(g, m - 1) + before_edges(g, m - 1, g[m - 1].0.befores@.len() as int) + after_edges(
            g,
            m - 1,
            g[m - 1].0.afters@.len() as int,
        )
    }
}

/// The `before`/`after` constraint edges among the update systems, as
/// (from, to, is-`before`) triples in the order the systems declare them.
pub fn constraint_edges<S>(systems: &Vec<(StoredSystemEntry<S>, ScheduleSet)>) -> (r: Vec<(usize, usize, bool)>)
    ensures
        r@ == constraint_edges_upto(systems@, systems@.len() as int),
{
    let n = systems.len();
    let ghost g = systems@;
    let mut r: Vec<(usize, usize, bool)> = Vec::new();
    let mut i: usize = 0;
    while i < n
        invariant
            n == systems@.len(),
            g == systems@,
            i <= n,
            r@ == constraint_edges_upto(g, i as int),
        decreases n - i,
    {
        let ghost base = r@;
        let nb = systems[i].0.befores.len();
        let mut k: usize = 0;
        while k < nb
            invariant
                n == systems@.len(),
                g == systems@,
                i < n,
                nb == g[i as int].0.befores@.len(),
                k <= nb,
                r@ == base + before_edges(g, i as int, k as int),
            decreases nb - k,
        {
            let found = find_label(systems, &systems[i].0.befores[k]);
            proof {
                lemma_label_target(g, g[i as int].0.befores@[k as int]@, found);
            }
            if let Some(t) = found {
                r.push((i, t, true));
            }
            proof {
                assert(r@ =~= base + before_edges(g, i as int, k + 1));
            }
            k = k + 1;
        }
        let ghost mid = r@;
        let na = systems[i].0.afters.len();
        let mut k: usize = 0;
        while k < na
            invariant
                n == systems@.len(),
                g == systems@,
                i < n,
                na == g[i as int].0.afters@.len(),
                k <= na,
                r@ == mid + after_edges(g, i as int, k as int),
            decreases na - k,
        {
            let found = find_label(systems, &systems[i].0.afters[k]);
            proof {
                lemma_label_target(g, g[i as int].0.afters@[k as int]@, found);
            }
            if let Some(s) = found {
                r.push((s, i, false));
            }
            proof {
                assert(r@ =~= mid + after_edges(g, i as int, k + 1));
            }
            k = k + 1;
        }
        proof {
            assert(mid + after_edges(g, i as int, 0) =~= mid);
            assert(base + before_edges(g, i as int, 0) =~= base);
            assert(r@ =~= constraint_edges_upto(g, i + 1));
        }
        i = i + 1;
    }
    r
}


// ── Short system names ─────────────────────────────────────────────────────

/// Start of the last `"::"` of `t` that ends at or before position `end`.
pub open spec fn last_sep_before(t: Seq<char>, end: int) -> Option<int>
    decreases end,
{
    if end < 2 {
        None
    } else if t[end - 2] == ':' && t[end - 1] == ':' {
        Some(end - 2)
    } else {
        last_sep_before(t, end - 1)
    }
}

/// The last two `::`-separated components of a path (the whole text when it
/// has at most two).
pub open spec fn short_name_spec(t: Seq<char>) -> Seq<char> {
    match last_sep_before(t, t.len() as int) {
        Some(p1) => match last_sep_before(t, p1) {
            Some(p2) => t.subrange(p2 + 2, t.len() as int),
            None => t,
        },
        None => t,
    }
}

proof fn lemma_last_sep_bounds(t: Seq<char>, end: int)
    ensures
        last_sep_before(t, end) matches Some(p) ==> 0 <= p && p + 2 <= end,
    decreases end,
{
    if end >= 2 && !(t[end - 2] == ':' && t[end - 1] == ':') {
        lemma_last_sep_bounds(t, end - 1);
    }
}

fn last_sep(s: &str, end: usize) -> (r: Option<usize>)
    requires
        end <= s@.len(),
    ensures
        r == match last_sep_before(s@, end as int) {
            Some(p) => Some(p as usize),
            None => None::<usize>,
        },
{
    let mut e = end;
    proof {
        lemma_last_sep_bounds(s@, end as int);
    }
    while e >= 2
        invariant
            e <= end <= s@.len(),
            last_sep_before(s@, end as int) == last_sep_before(s@, e as int),
        decreases e,
    {
        if s.get_char(e - 2) == ':' && s.get_char(e - 1) == ':' {
            return Some(e - 2);
        }
        e = e - 1;
    }
    None
}

/// The short display name of a system: the last two components of its path.
pub fn short_name(full: &str) -> (r: String)
    ensures
        r@ == short_name_spec(full@),
{
    let n = full.unicode_len();
    proof {
        lemma_last_sep_bounds(full@, n as int);
    }
    match last_sep(full, n) {
        Some(p1) => {
            proof {
                lemma_last_sep_bounds(full@, p1 as int);
            }
            match last_sep(full, p1) {
                Some(p2) => full.substring_char(p2 + 2, n).to_owned(),
                None => full.to_owned(),
            }
        },
        None => full.to_owned(),
    }
}

} // verus!
