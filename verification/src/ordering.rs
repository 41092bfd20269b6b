//! Ordering of the systems registered in one schedule phase: `before`/`after`
//! constraints between labelled systems are turned into a dependency graph and
//! the systems are put in a topological order (Kahn's algorithm, FIFO queue).

use vstd::prelude::*;
use crate::schedule::ScheduleSet;

verus! {

/// Why a schedule cannot be organized.
#[derive(Debug, Clone, PartialEq, Eq)]
pub enum ScheduleError {
    /// The `before`/`after` constraints of the systems of one phase form a cycle.
    Cycle { set: ScheduleSet },
    /// System `system` in phase `set` requires a label that no system of that phase carries.
    MissingLabel { system: String, set: ScheduleSet, label: String },
}

/// A registered system together with its ordering metadata.
///
/// `system` is whatever the caller runs; this library only moves it around.
pub struct StoredSystemEntry<S> {
    pub system: S,
    pub name: String,
    pub label: Option<String>,
    pub befores: Vec<String>,
    pub afters: Vec<String>,
    pub requires: Vec<String>,
}

/// Entry `e` carries the label `l`.
pub open spec fn has_label<S>(e: StoredSystemEntry<S>, l: Seq<char>) -> bool {
    e.label matches Some(x) && x@ == l
}

/// `i` is the last position of `g` whose entry carries label `l`
/// (a later registration of a label shadows an earlier one).
pub open spec fn is_last_label<S>(g: Seq<(StoredSystemEntry<S>, ScheduleSet)>, l: Seq<char>, i: int) -> bool {
    &&& 0 <= i < g.len()
    &&& has_label(g[i].0, l)
    &&& forall|j: int| i < j < g.len() ==> !has_label(#[trigger] g[j].0, l)
}

/// No entry of `g` carries label `l`.
pub open spec fn label_absent<S>(g: Seq<(StoredSystemEntry<S>, ScheduleSet)>, l: Seq<char>) -> bool {
    forall|j: int| 0 <= j < g.len() ==> !has_label(#[trigger] g[j].0, l)
}

/// Entry `u` names (in its `befores`) the label resolved to entry `v`.
pub open spec fn before_edge<S>(g: Seq<(StoredSystemEntry<S>, ScheduleSet)>, u: int, v: int, kmax: int) -> bool {
    exists|k: int| 0 <= k < kmax && is_last_label(g, #[trigger] g[u].0.befores@[k]@, v)
}

/// Entry `v` names (in its `afters`) the label resolved to entry `u`.
pub open spec fn after_edge<S>(g: Seq<(StoredSystemEntry<S>, ScheduleSet)>, u: int, v: int, kmax: int) -> bool {
    exists|k: int| 0 <= k < kmax && is_last_label(g, #[trigger] g[v].0.afters@[k]@, u)
}

/// Entry `u` must run before entry `v`: `u` declares `before(label of v)` or `v`
/// declares `after(label of u)`. Labels that no entry carries impose nothing.
pub open spec fn edge<S>(g: Seq<(StoredSystemEntry<S>, ScheduleSet)>, u: int, v: int) -> bool {
    &&& 0 <= u < g.len()
    &&& 0 <= v < g.len()
    &&& (before_edge(g, u, v, g[u].0.befores@.len() as int) || after_edge(g, u, v, g[v].0.afters@.len() as int))
}

/// `o` lists every position of a sequence of length `n` exactly once.
pub open spec fn is_permutation(o: Seq<usize>, n: int) -> bool {
    &&& o.len() == n
    &&& forall|i: int| 0 <= i < n ==> #[trigger] o[i] < n
    &&& forall|i: int, j: int| 0 <= i < j < n ==> o[i] != o[j]
    &&& forall|v: int| 0 <= v < n ==> #[trigger] appears(o, v)
}

/// Value `v` occurs in `o`.
pub open spec fn appears(o: Seq<usize>, v: int) -> bool {
    exists|i: int| 0 <= i < o.len() && o[i] == v
}

/// `o` is an execution order of the entries of `g` that honours every constraint.
pub open spec fn is_topo_order<S>(g: Seq<(StoredSystemEntry<S>, ScheduleSet)>, o: Seq<usize>) -> bool {
    &&& is_permutation(o, g.len() as int)
    &&& forall|p: int, q: int| 0 <= p < g.len() && 0 <= q < g.len() && edge(g, o[p] as int, o[q] as int)
        ==> p < q
}

/// The constraints of `g` can all be honoured at once (the constraint graph has no cycle).
pub open spec fn orderable<S>(g: Seq<(StoredSystemEntry<S>, ScheduleSet)>) -> bool {
    exists|o: Seq<usize>| is_topo_order(g, o)
}

/// `g` holds no effective constraint at all.
pub open spec fn unconstrained<S>(g: Seq<(StoredSystemEntry<S>, ScheduleSet)>) -> bool {
    forall|u: int, v: int| !edge(g, u, v)
}

/// `r` is `g` rearranged so that position `i` holds the entry from position `o[i]`.
pub open spec fn rearranged<T>(g: Seq<T>, o: Seq<usize>, r: Seq<T>) -> bool {
    &&& r.len() == g.len()
    &&& o.len() == g.len()
    &&& forall|i: int| 0 <= i < r.len() ==> #[trigger] r[i] == g[o[i] as int]
}

/// `r` is `g` put into an order that honours all constraints of `g`; when `g`
/// has no constraint at all, that order is the registration order.
pub open spec fn topo_rearrangement<S>(
    g: Seq<(StoredSystemEntry<S>, ScheduleSet)>,
    r: Seq<(StoredSystemEntry<S>, ScheduleSet)>,
) -> bool {
    exists|o: Seq<usize>|
        {
            &&& is_topo_order(g, o)
            &&& rearranged(g, o, r)
            &&& (unconstrained(g) ==> identity_order(o, g.len() as int))
        }
}

/// The identity order `0, 1, …, n-1`.
pub open spec fn identity_order(o: Seq<usize>, n: int) -> bool {
    o.len() == n && forall|i: int| 0 <= i < n ==> #[trigger] o[i] == i
}

/// Number of ordering constraints (`before` plus `after` names) of the first `m` entries.
pub open spec fn constraint_count<S>(g: Seq<(StoredSystemEntry<S>, ScheduleSet)>, m: int) -> nat
    decreases m,
{
    if m <= 0 {
        0
    } else {
        constraint_count(g, m - 1) + g[m - 1].0.befores@.len() + g[m - 1].0.afters@.len()
    }
}

proof fn lemma_constraint_count_mono<S>(g: Seq<(StoredSystemEntry<S>, ScheduleSet)>, a: int, b: int)
    requires
        0 <= a <= b,
    ensures
        constraint_count(g, a) <= constraint_count(g, b),
    decreases b - a,
{
    if a < b {
        lemma_constraint_count_mono(g, a, b - 1);
    }
}

// ── Counting occurrences in adjacency lists ─────────────────────────────────

/// Occurrences of `v` in `s`.
pub open spec fn occurrences(s: Seq<usize>, v: usize) -> nat
    decreases s.len(),
{
    if s.len() == 0 {
        0
    } else {
        occurrences(s.drop_last(), v) + (if s.last() == v { 1nat } else { 0nat })
    }
}

/// Edges into `v` (with multiplicity) whose source is among the first `m` nodes and not in `done`.
pub open spec fn pending_in(adj: Seq<Vec<usize>>, done: Seq<usize>, v: usize, m: int) -> nat
    decreases m,
{
    if m <= 0 {
        0
    } else {
        pending_in(adj, done, v, m - 1) + (if appears(done, m - 1) {
            0nat
        } else {
            occurrences(adj[m - 1]@, v)
        })
    }
}

proof fn lemma_occurrences_push(s: Seq<usize>, x: usize, v: usize)
    ensures
        occurrences(s.push(x), v) == occurrences(s, v) + (if x == v { 1nat } else { 0nat }),
{
    assert(s.push(x).drop_last() =~= s);
}

proof fn lemma_occurrences_take(s: Seq<usize>, k: int, v: usize)
    requires
        0 <= k < s.len(),
    ensures
        occurrences(s.take(k + 1), v) == occurrences(s.take(k), v) + (if s[k] == v { 1nat } else { 0nat }),
{
    assert(s.take(k + 1).drop_last() =~= s.take(k));
}

proof fn lemma_occurrences_contains(s: Seq<usize>, v: usize)
    ensures
        occurrences(s, v) > 0 <==> s.contains(v),
    decreases s.len(),
{
    if s.len() > 0 {
        lemma_occurrences_contains(s.drop_last(), v);
        if s.drop_last().contains(v) {
            let i = choose|i: int| 0 <= i < s.drop_last().len() && s.drop_last()[i] == v;
            assert(s[i] == v);
        }
        if s.contains(v) {
            let i = choose|i: int| 0 <= i < s.len() && s[i] == v;
            if i < s.len() - 1 {
                assert(s.drop_last()[i] == v);
            }
        }
    }
}

proof fn lemma_occurrences_prefix_le(s: Seq<usize>, k: int, v: usize)
    requires
        0 <= k <= s.len(),
    ensures
        occurrences(s.take(k), v) <= occurrences(s, v),
    decreases s.len() - k,
{
    if k < s.len() {
        lemma_occurrences_take(s, k, v);
        lemma_occurrences_prefix_le(s, k + 1, v);
    } else {
        assert(s.take(k) =~= s);
    }
}

/// Marking node `u` done removes exactly its outgoing edges from the pending count.
proof fn lemma_pending_mark_done(adj: Seq<Vec<usize>>, done: Seq<usize>, u: usize, v: usize, m: int)
    requires
        0 <= m,
        !appears(done, u as int),
    ensures
        pending_in(adj, done, v, m) == pending_in(adj, done.push(u), v, m) + (if (u as int) < m {
            occurrences(adj[u as int]@, v)
        } else {
            0nat
        }),
    decreases m,
{
    if m > 0 {
        lemma_pending_mark_done(adj, done, u, v, m - 1);
        let w = m - 1;
        assert(appears(done.push(u), w) <==> (appears(done, w) || w == u)) by {
            if appears(done.push(u), w) {
                let i = choose|i: int| 0 <= i < done.push(u).len() && done.push(u)[i] == w;
                if i < done.len() {
                    assert(done[i] == w);
                }
            }
            if appears(done, w) {
                let i = choose|i: int| 0 <= i < done.len() && done[i] == w;
                assert(done.push(u)[i] == w);
            }
            if w == u {
                assert(done.push(u)[done.len() as int] == w);
            }
        }
    }
}

/// A pending source node with an edge into `v` contributes to the pending count.
proof fn lemma_pending_ge(adj: Seq<Vec<usize>>, done: Seq<usize>, u: usize, v: usize, m: int)
    requires
        0 <= u < m,
        !appears(done, u as int),
    ensures
        pending_in(adj, done, v, m) >= occurrences(adj[u as int]@, v),
    decreases m,
{
    if u < m - 1 {
        lemma_pending_ge(adj, done, u, v, m - 1);
    }
}

/// A positive pending count has a pending source that points at `v`.
proof fn lemma_pending_witness(adj: Seq<Vec<usize>>, done: Seq<usize>, v: usize, m: int) -> (u: int)
    requires
        0 <= m,
        pending_in(adj, done, v, m) > 0,
    ensures
        0 <= u < m,
        !appears(done, u),
        adj[u]@.contains(v),
    decreases m,
{
    let w = m - 1;
    if !appears(done, w) && occurrences(adj[m - 1]@, v) > 0 {
        lemma_occurrences_contains(adj[m - 1]@, v);
        w
    } else {
        lemma_pending_witness(adj, done, v, m - 1)
    }
}

/// Pushing `j` onto list `i` adds one to the count of edges into `j` (nothing is done yet).
proof fn lemma_pending_push(adj: Seq<Vec<usize>>, adj2: Seq<Vec<usize>>, i: int, j: usize, v: usize, m: int)
    requires
        0 <= i < adj.len(),
        adj2.len() == adj.len(),
        adj2[i]@ == adj[i]@.push(j),
        forall|w: int| 0 <= w < adj.len() && w != i ==> adj2[w]@ == adj[w]@,
        0 <= m <= adj.len(),
    ensures
        pending_in(adj2, Seq::empty(), v, m) == pending_in(adj, Seq::empty(), v, m) + (if i < m && j == v {
            1nat
        } else {
            0nat
        }),
    decreases m,
{
    if m > 0 {
        lemma_pending_push(adj, adj2, i, j, v, m - 1);
        if m - 1 == i {
            lemma_occurrences_push(adj[i]@, j, v);
        }
    }
}

// ── Pigeonhole facts about lists of distinct node indices ───────────────────

pub(crate) proof fn lemma_distinct_below_len(s: Seq<usize>, n: int)
    requires
        0 <= n,
        forall|i: int| 0 <= i < s.len() ==> #[trigger] s[i] < n,
        forall|i: int, j: int| 0 <= i < j < s.len() ==> s[i] != s[j],
    ensures
        s.len() <= n,
        s.len() == n ==> forall|v: int| 0 <= v < n ==> #[trigger] appears(s, v),
        (forall|v: int| 0 <= v < n ==> #[trigger] appears(s, v)) ==> s.len() == n,
{
    let si = s.map_values(|x: usize| x as int);
    assert(si.no_duplicates()) by {
        assert forall|i: int, j: int| 0 <= i < si.len() && 0 <= j < si.len() && i != j implies si[i] != si[j] by {
            if i < j {
                assert(s[i] != s[j]);
            } else {
                assert(s[j] != s[i]);
            }
        }
    }
    si.unique_seq_to_set();
    let range = vstd::set_lib::set_int_range(0, n);
    vstd::set_lib::lemma_int_range(0, n);
    assert(si.to_set().subset_of(range)) by {
        assert forall|x: int| si.to_set().contains(x) implies range.contains(x) by {
            let i = choose|i: int| 0 <= i < si.len() && si[i] == x;
            assert(s[i] < n);
        }
    }
    vstd::set_lib::lemma_len_subset(si.to_set(), range);
    if forall|v: int| 0 <= v < n ==> #[trigger] appears(s, v) {
        assert(range.subset_of(si.to_set())) by {
            assert forall|x: int| range.contains(x) implies si.to_set().contains(x) by {
                assert(appears(s, x));
                let i = choose|i: int| 0 <= i < s.len() && s[i] == x;
                assert(si[i] == x);
            }
        }
        vstd::set_lib::lemma_len_subset(range, si.to_set());
    }
    if s.len() == n {
        vstd::set_lib::lemma_subset_equality(si.to_set(), range);
        assert forall|v: int| 0 <= v < n implies #[trigger] appears(s, v) by {
            assert(range.contains(v));
            assert(si.to_set().contains(v));
            let i = choose|i: int| 0 <= i < si.len() && si[i] == v;
            assert(s[i] == v);
        }
    }
}

proof fn lemma_before_edge_step<S>(g: Seq<(StoredSystemEntry<S>, ScheduleSet)>, u: int, v: int, k: int)
    requires
        0 <= k,
    ensures
        before_edge(g, u, v, k + 1) <==> (before_edge(g, u, v, k) || is_last_label(g, g[u].0.befores@[k]@, v)),
{
    if before_edge(g, u, v, k + 1) {
        let w = choose|w: int| 0 <= w < k + 1 && is_last_label(g, #[trigger] g[u].0.befores@[w]@, v);
        if w < k {
            assert(before_edge(g, u, v, k));
        }
    }
    if before_edge(g, u, v, k) {
        let w = choose|w: int| 0 <= w < k && is_last_label(g, #[trigger] g[u].0.befores@[w]@, v);
        assert(before_edge(g, u, v, k + 1));
    }
    if is_last_label(g, g[u].0.befores@[k]@, v) {
        assert(before_edge(g, u, v, k + 1));
    }
}

proof fn lemma_after_edge_step<S>(g: Seq<(StoredSystemEntry<S>, ScheduleSet)>, u: int, v: int, k: int)
    requires
        0 <= k,
    ensures
        after_edge(g, u, v, k + 1) <==> (after_edge(g, u, v, k) || is_last_label(g, g[v].0.afters@[k]@, u)),
{
    if after_edge(g, u, v, k + 1) {
        let w = choose|w: int| 0 <= w < k + 1 && is_last_label(g, #[trigger] g[v].0.afters@[w]@, u);
        if w < k {
            assert(after_edge(g, u, v, k));
        }
    }
    if after_edge(g, u, v, k) {
        let w = choose|w: int| 0 <= w < k && is_last_label(g, #[trigger] g[v].0.afters@[w]@, u);
        assert(after_edge(g, u, v, k + 1));
    }
    if is_last_label(g, g[v].0.afters@[k]@, u) {
        assert(after_edge(g, u, v, k + 1));
    }
}

proof fn lemma_last_label_unique<S>(g: Seq<(StoredSystemEntry<S>, ScheduleSet)>, l: Seq<char>, a: int, b: int)
    requires
        is_last_label(g, l, a),
        is_last_label(g, l, b),
    ensures
        a == b,
{
    if a < b {
        assert(!has_label(g[b].0, l));
    } else if b < a {
        assert(!has_label(g[a].0, l));
    }
}

/// Position of the last entry of `group` labelled `target`, if any.
pub fn find_label<S>(group: &Vec<(StoredSystemEntry<S>, ScheduleSet)>, target: &String) -> (r: Option<usize>)
    ensures
        match r {
            Some(i) => is_last_label(group@, target@, i as int),
            None => label_absent(group@, target@),
        },
{
    let mut i = group.len();
    while i > 0
        invariant
            i <= group.len(),
            forall|j: int| i <= j < group.len() ==> !has_label(#[trigger] group@[j].0, target@),
        decreases i,
    {
        i = i - 1;
        match &group[i].0.label {
            Some(l) => {
                if *l == *target {
                    return Some(i);
                }
            },
            None => {},
        }
    }
    None
}

// ── The exact adjacency lists and the Kahn order ───────────────────────────

/// Position of the last of the first `m` entries of `g` labelled `l`, if any.
pub open spec fn last_label_upto<S>(g: Seq<(StoredSystemEntry<S>, ScheduleSet)>, l: Seq<char>, m: int) -> Option<int>
    decreases m,
{
    if m <= 0 {
        None
    } else if has_label(g[m - 1].0, l) {
        Some(m - 1)
    } else {
        last_label_upto(g, l, m - 1)
    }
}

/// The entry a label names: the last entry carrying it, if any.
pub open spec fn label_target<S>(g: Seq<(StoredSystemEntry<S>, ScheduleSet)>, l: Seq<char>) -> Option<int> {
    last_label_upto(g, l, g.len() as int)
}

proof fn lemma_last_label_upto<S>(g: Seq<(StoredSystemEntry<S>, ScheduleSet)>, l: Seq<char>, m: int)
    requires
        0 <= m <= g.len(),
    ensures
        match last_label_upto(g, l, m) {
            Some(j) => 0 <= j < m && has_label(g[j].0, l) && forall|q: int| j < q < m ==> !has_label(#[trigger] g[q].0, l),
            None => forall|q: int| 0 <= q < m ==> !has_label(#[trigger] g[q].0, l),
        },
    decreases m,
{
    if m > 0 {
        lemma_last_label_upto(g, l, m - 1);
    }
}

pub(crate) proof fn lemma_label_target<S>(g: Seq<(StoredSystemEntry<S>, ScheduleSet)>, l: Seq<char>, r: Option<usize>)
    requires
        match r {
            Some(i) => is_last_label(g, l, i as int),
            None => label_absent(g, l),
        },
    ensures
        label_target(g, l) == match r {
            Some(i) => Some(i as int),
            None => None::<int>,
        },
{
    lemma_last_label_upto(g, l, g.len() as int);
    match last_label_upto(g, l, g.len() as int) {
        Some(j) => {
            if let Some(i) = r {
                lemma_last_label_unique(g, l, i as int, j);
            } else {
                assert(!has_label(g[j].0, l));
            }
        },
        None => {
            if let Some(i) = r {
                assert(!has_label(g[i as int].0, l));
            }
        },
    }
}

/// Targets of the first `k` `before` names of entry `u`, in order (names no entry carries are skipped).
pub open spec fn before_targets<S>(g: Seq<(StoredSystemEntry<S>, ScheduleSet)>, u: int, k: int) -> Seq<usize>
    decreases k,
{
    if k <= 0 {
        Seq::empty()
    } else {
        before_targets(g, u, k - 1) + match label_target(g, g[u].0.befores@[k - 1]@) {
            Some(j) => seq![j as usize],
            None => Seq::empty(),
        }
    }
}

/// One copy of `i` for each of the first `k` `after` names of entry `i` that name entry `u`.
pub open spec fn after_sources<S>(g: Seq<(StoredSystemEntry<S>, ScheduleSet)>, i: int, u: int, k: int) -> Seq<usize>
    decreases k,
{
    if k <= 0 {
        Seq::empty()
    } else {
        after_sources(g, i, u, k - 1) + if label_target(g, g[i].0.afters@[k - 1]@) == Some(u) {
            seq![i as usize]
        } else {
            Seq::empty()
        }
    }
}

/// What entry `i` adds to the successor list of entry `u`: its own `before`
/// targets when `i` is `u`, then itself once per `after` name of `i` naming `u`.
pub open spec fn contribution<S>(g: Seq<(StoredSystemEntry<S>, ScheduleSet)>, i: int, u: int) -> Seq<usize> {
    (if i == u {
        before_targets(g, u, g[u].0.befores@.len() as int)
    } else {
        Seq::empty()
    }) + after_sources(g, i, u, g[i].0.afters@.len() as int)
}

/// Successor list of entry `u` built from the first `m` entries.
pub open spec fn adjacency_upto<S>(g: Seq<(StoredSystemEntry<S>, ScheduleSet)>, u: int, m: int) -> Seq<usize>
    decreases m,
{
    if m <= 0 {
        Seq::empty()
    } else {
        adjacency_upto(g, u, m - 1) + contribution(g, m - 1, u)
    }
}

/// Successor list of entry `u`: the entries that must run after it, in the
/// order the constraints are declared (with one copy per constraint).
pub open spec fn adjacency<S>(g: Seq<(StoredSystemEntry<S>, ScheduleSet)>, u: int) -> Seq<usize> {
    adjacency_upto(g, u, g.len() as int)
}

/// Constraints into `v` (with multiplicity) from the first `m` entries not in `done`.
pub open spec fn pending_of<S>(g: Seq<(StoredSystemEntry<S>, ScheduleSet)>, done: Seq<usize>, v: usize, m: int) -> nat
    decreases m,
{
    if m <= 0 {
        0
    } else {
        pending_of(g, done, v, m - 1) + (if appears(done, m - 1) {
            0nat
        } else {
            occurrences(adjacency(g, m - 1), v)
        })
    }
}

/// The initial ready list: entries `0..m` without incoming constraints, in index order.
pub open spec fn kahn_init<S>(g: Seq<(StoredSystemEntry<S>, ScheduleSet)>, m: int) -> Seq<usize>
    decreases m,
{
    if m <= 0 {
        Seq::empty()
    } else if pending_of(g, Seq::empty(), (m - 1) as usize, g.len() as int) == 0 {
        kahn_init(g, m - 1).push((m - 1) as usize)
    } else {
        kahn_init(g, m - 1)
    }
}

/// The ready list `q` after releasing the first `k` successors `nbrs` of the
/// entry taken after `done`: a successor becomes ready when its last pending
/// constraint is released.
pub open spec fn kahn_release<S>(
    g: Seq<(StoredSystemEntry<S>, ScheduleSet)>,
    q: Seq<usize>,
    done: Seq<usize>,
    nbrs: Seq<usize>,
    k: int,
) -> Seq<usize>
    decreases k,
{
    if k <= 0 {
        q
    } else {
        let q1 = kahn_release(g, q, done, nbrs, k - 1);
        let v = nbrs[k - 1];
        if pending_of(g, done, v, g.len() as int) == occurrences(nbrs.take(k), v) {
            q1.push(v)
        } else {
            q1
        }
    }
}

/// The ready list of Kahn's algorithm (ready entries taken first-in,
/// first-out) after `h` entries have been taken.
pub open spec fn kahn_queue<S>(g: Seq<(StoredSystemEntry<S>, ScheduleSet)>, h: int) -> Seq<usize>
    decreases h,
{
    if h <= 0 {
        kahn_init(g, g.len() as int)
    } else {
        let q = kahn_queue(g, h - 1);
        if h - 1 < q.len() {
            let node = q[h - 1];
            let nbrs = adjacency(g, node as int);
            kahn_release(g, q, q.take(h - 1), nbrs, nbrs.len() as int)
        } else {
            q
        }
    }
}

/// The order Kahn's algorithm takes the entries of `g` in (all of them
/// exactly when the constraints have no cycle).
pub open spec fn kahn_order<S>(g: Seq<(StoredSystemEntry<S>, ScheduleSet)>) -> Seq<usize> {
    kahn_queue(g, g.len() as int)
}

proof fn lemma_pending_bridge<S>(g: Seq<(StoredSystemEntry<S>, ScheduleSet)>, adj: Seq<Vec<usize>>, done: Seq<usize>, v: usize, m: int)
    requires
        0 <= m <= adj.len(),
        forall|u: int| 0 <= u < adj.len() ==> #[trigger] adj[u]@ == adjacency(g, u),
    ensures
        pending_in(adj, done, v, m) == pending_of(g, done, v, m),
    decreases m,
{
    if m > 0 {
        lemma_pending_bridge(g, adj, done, v, m - 1);
    }
}

proof fn lemma_kahn_queue_settled<S>(g: Seq<(StoredSystemEntry<S>, ScheduleSet)>, h: int, h2: int)
    requires
        0 <= h <= h2,
        kahn_queue(g, h).len() == h,
    ensures
        kahn_queue(g, h2) == kahn_queue(g, h),
    decreases h2 - h,
{
    if h2 > h {
        lemma_kahn_queue_settled(g, h, h2 - 1);
    }
}

/// Adjacency lists (`u -> v` when `u` must run first) and in-degrees of the
/// constraint graph of `group`.
fn build_graph<S>(group: &Vec<(StoredSystemEntry<S>, ScheduleSet)>) -> (res: (Vec<Vec<usize>>, Vec<usize>))
    requires
        constraint_count(group@, group.len() as int) < usize::MAX,
    ensures
        res.0.len() == group.len(),
        res.1.len() == group.len(),
        forall|u: int, k: int| 0 <= u < group.len() && 0 <= k < res.0[u].len() ==> #[trigger] res.0[u]@[k] < group.len(),
        forall|u: int, v: int| 0 <= u < group.len() && 0 <= v < group.len() ==>
            (#[trigger] res.0[u]@.contains(v as usize) <==> edge(group@, u, v)),
        forall|v: int| 0 <= v < group.len() ==> #[trigger] res.1[v] == pending_in(res.0@, Seq::empty(), v as usize, group.len() as int),
        forall|u: int| 0 <= u < group.len() ==> #[trigger] res.0[u]@ == adjacency(group@, u),
{
    let n = group.len();
    let ghost g = group@;
    let mut adj: Vec<Vec<usize>> = Vec::new();
    let mut in_degree: Vec<usize> = Vec::new();
    let mut t: usize = 0;
    while t < n
        invariant
            t <= n,
            n == group.len(),
            adj.len() == t,
            in_degree.len() == t,
            forall|u: int| 0 <= u < t ==> (#[trigger] adj[u])@.len() == 0,
            forall|v: int| 0 <= v < t ==> #[trigger] in_degree[v] == 0,
        decreases n - t,
    {
        adj.push(Vec::new());
        in_degree.push(0);
        t = t + 1;
    }
    proof {
        assert forall|v: int| 0 <= v < n implies #[trigger] in_degree[v] == pending_in(adj@, Seq::empty(), v as usize, n as int) by {
            lemma_pending_zero(adj@, v as usize, n as int);
        }
        assert forall|u: int| 0 <= u < n implies #[trigger] adj[u]@ == adjacency_upto(g, u, 0) by {
            assert(adj[u]@ =~= Seq::<usize>::empty());
        }
    }
    let ghost mut steps: int = 0;
    let mut i: usize = 0;
    while i < n
        invariant
            i <= n,
            n == group.len(),
            g == group@,
            adj.len() == n,
            in_degree.len() == n,
            constraint_count(g, n as int) < usize::MAX,
            steps == constraint_count(g, i as int),
            forall|v: int| 0 <= v < n ==> #[trigger] in_degree[v] <= steps,
            forall|u: int, k: int| 0 <= u < n && 0 <= k < adj[u].len() ==> #[trigger] adj[u]@[k] < n,
            forall|u: int, v: int| 0 <= u < n && 0 <= v < n ==>
                (#[trigger] adj[u]@.contains(v as usize) <==>
                    ((u < i && before_edge(g, u, v, g[u].0.befores@.len() as int))
                    || (v < i && after_edge(g, u, v, g[v].0.afters@.len() as int)))),
            forall|v: int| 0 <= v < n ==> #[trigger] in_degree[v] == pending_in(adj@, Seq::empty(), v as usize, n as int),
            forall|u: int| 0 <= u < n ==> #[trigger] adj[u]@ == adjacency_upto(g, u, i as int),
        decreases n - i,
    {
        proof {
            lemma_constraint_count_mono(g, i as int + 1, n as int);
            assert forall|u: int| 0 <= u < n implies #[trigger] adj[u]@ == adjacency_upto(g, u, i as int) + (if u == i {
                before_targets(g, i as int, 0)
            } else {
                Seq::<usize>::empty()
            }) by {
                assert(adjacency_upto(g, u, i as int) + Seq::<usize>::empty() =~= adjacency_upto(g, u, i as int));
            }
        }
        let nb = group[i].0.befores.len();
        let mut k: usize = 0;
        while k < nb
            invariant
                i < n,
                n == group.len(),
                g == group@,
                nb == g[i as int].0.befores@.len(),
                k <= nb,
                adj.len() == n,
                in_degree.len() == n,
                constraint_count(g, i as int + 1) <= constraint_count(g, n as int),
                constraint_count(g, n as int) < usize::MAX,
                steps == constraint_count(g, i as int) + k,
                forall|v: int| 0 <= v < n ==> #[trigger] in_degree[v] <= steps,
                forall|u: int, k2: int| 0 <= u < n && 0 <= k2 < adj[u].len() ==> #[trigger] adj[u]@[k2] < n,
                forall|u: int, v: int| 0 <= u < n && 0 <= v < n ==>
                    (#[trigger] adj[u]@.contains(v as usize) <==>
                        ((u < i && before_edge(g, u, v, g[u].0.befores@.len() as int))
                        || (u == i && before_edge(g, u, v, k as int))
                        || (v < i && after_edge(g, u, v, g[v].0.afters@.len() as int)))),
                forall|v: int| 0 <= v < n ==> #[trigger] in_degree[v] == pending_in(adj@, Seq::empty(), v as usize, n as int),
                forall|u: int| 0 <= u < n ==> #[trigger] adj[u]@ == adjacency_upto(g, u, i as int) + (if u == i {
                    before_targets(g, i as int, k as int)
                } else {
                    Seq::<usize>::empty()
                }),
            decreases nb - k,
        {
            let found = find_label(group, &group[i].0.befores[k]);
            proof {
                lemma_label_target(g, g[i as int].0.befores@[k as int]@, found);
            }
            let ghost old_adj = adj@;
            if let Some(j) = found {
                adj[i].push(j);
                in_degree[j] = in_degree[j] + 1;
                proof {
                    assert forall|v: int| 0 <= v < n implies #[trigger] in_degree[v] == pending_in(adj@, Seq::empty(), v as usize, n as int) by {
                        lemma_pending_push(old_adj, adj@, i as int, j, v as usize, n as int);
                    }
                }
            }
            proof {
                assert forall|u: int, v: int| 0 <= u < n && 0 <= v < n implies
                    (#[trigger] adj[u]@.contains(v as usize) <==>
                        ((u < i && before_edge(g, u, v, g[u].0.befores@.len() as int))
                        || (u == i && before_edge(g, u, v, k + 1))
                        || (v < i && after_edge(g, u, v, g[v].0.afters@.len() as int)))) by {
                    lemma_before_edge_step(g, u, v, k as int);
                    if u == i {
                        if let Some(j) = found {
                            assert(adj[u]@ == old_adj[u]@.push(j));
                            assert(adj[u]@.contains(v as usize) <==> (old_adj[u]@.contains(v as usize) || v == j)) by {
                                if adj[u]@.contains(v as usize) {
                                    let w = choose|w: int| 0 <= w < adj[u]@.len() && adj[u]@[w] == v as usize;
                                    if w < old_adj[u]@.len() {
                                        assert(old_adj[u]@[w] == v as usize);
                                    }
                                }
                                if old_adj[u]@.contains(v as usize) {
                                    let w = choose|w: int| 0 <= w < old_adj[u]@.len() && old_adj[u]@[w] == v as usize;
                                    assert(adj[u]@[w] == v as usize);
                                }
                                if v == j {
                                    assert(adj[u]@[old_adj[u]@.len() as int] == v as usize);
                                }
                            }
                            if is_last_label(g, g[i as int].0.befores@[k as int]@, v) {
                                lemma_last_label_unique(g, g[i as int].0.befores@[k as int]@, v, j as int);
                            }
                        }
                    }
                }
                steps = steps + 1;
                assert forall|u: int| 0 <= u < n implies #[trigger] adj[u]@ == adjacency_upto(g, u, i as int) + (if u == i {
                    before_targets(g, i as int, k + 1)
                } else {
                    Seq::<usize>::empty()
                }) by {
                    if u == i {
                        if let Some(j) = found {
                            assert(adj[u]@ =~= adjacency_upto(g, u, i as int) + before_targets(g, i as int, k + 1));
                        } else {
                            assert(before_targets(g, i as int, k + 1) =~= before_targets(g, i as int, k as int));
                        }
                    }
                }
            }
            k = k + 1;
        }
        proof {
            assert forall|u: int| 0 <= u < n implies #[trigger] adj[u]@ == adjacency_upto(g, u, i as int) + (if u == i {
                before_targets(g, i as int, g[i as int].0.befores@.len() as int)
            } else {
                Seq::<usize>::empty()
            }) + after_sources(g, i as int, u, 0) by {
                let a = adjacency_upto(g, u, i as int) + (if u == i {
                    before_targets(g, i as int, g[i as int].0.befores@.len() as int)
                } else {
                    Seq::<usize>::empty()
                });
                assert(a + after_sources(g, i as int, u, 0) =~= a);
            }
        }
        let na = group[i].0.afters.len();
        let mut k: usize = 0;
        while k < na
            invariant
                i < n,
                n == group.len(),
                g == group@,
                na == g[i as int].0.afters@.len(),
                k <= na,
                adj.len() == n,
                in_degree.len() == n,
                constraint_count(g, i as int + 1) <= constraint_count(g, n as int),
                constraint_count(g, n as int) < usize::MAX,
                steps == constraint_count(g, i as int) + g[i as int].0.befores@.len() + k,
                forall|v: int| 0 <= v < n ==> #[trigger] in_degree[v] <= steps,
                forall|u: int, k2: int| 0 <= u < n && 0 <= k2 < adj[u].len() ==> #[trigger] adj[u]@[k2] < n,
                forall|u: int, v: int| 0 <= u < n && 0 <= v < n ==>
                    (#[trigger] adj[u]@.contains(v as usize) <==>
                        ((u <= i && before_edge(g, u, v, g[u].0.befores@.len() as int))
                        || (v < i && after_edge(g, u, v, g[v].0.afters@.len() as int))
                        || (v == i && after_edge(g, u, v, k as int)))),
                forall|v: int| 0 <= v < n ==> #[trigger] in_degree[v] == pending_in(adj@, Seq::empty(), v as usize, n as int),
                forall|u: int| 0 <= u < n ==> #[trigger] adj[u]@ == adjacency_upto(g, u, i as int) + (if u == i {
                    before_targets(g, i as int, g[i as int].0.befores@.len() as int)
                } else {
                    Seq::<usize>::empty()
                }) + after_sources(g, i as int, u, k as int),
            decreases na - k,
        {
            let found = find_label(group, &group[i].0.afters[k]);
            proof {
                lemma_label_target(g, g[i as int].0.afters@[k as int]@, found);
            }
            let ghost old_adj = adj@;
            if let Some(j) = found {
                adj[j].push(i);
                in_degree[i] = in_degree[i] + 1;
                proof {
                    assert forall|v: int| 0 <= v < n implies #[trigger] in_degree[v] == pending_in(adj@, Seq::empty(), v as usize, n as int) by {
                        lemma_pending_push(old_adj, adj@, j as int, i, v as usize, n as int);
                    }
                }
            }
            proof {
                assert forall|u: int, v: int| 0 <= u < n && 0 <= v < n implies
                    (#[trigger] adj[u]@.contains(v as usize) <==>
                        ((u <= i && before_edge(g, u, v, g[u].0.befores@.len() as int))
                        || (v < i && after_edge(g, u, v, g[v].0.afters@.len() as int))
                        || (v == i && after_edge(g, u, v, k + 1)))) by {
                    lemma_after_edge_step(g, u, v, k as int);
                    if let Some(j) = found {
                        if u == j {
                            assert(adj[u]@ == old_adj[u]@.push(i));
                            assert(adj[u]@.contains(v as usize) <==> (old_adj[u]@.contains(v as usize) || v == i)) by {
                                if adj[u]@.contains(v as usize) {
                                    let w = choose|w: int| 0 <= w < adj[u]@.len() && adj[u]@[w] == v as usize;
                                    if w < old_adj[u]@.len() {
                                        assert(old_adj[u]@[w] == v as usize);
                                    }
                                }
                                if old_adj[u]@.contains(v as usize) {
                                    let w = choose|w: int| 0 <= w < old_adj[u]@.len() && old_adj[u]@[w] == v as usize;
                                    assert(adj[u]@[w] == v as usize);
                                }
                                if v == i {
                                    assert(adj[u]@[old_adj[u]@.len() as int] == v as usize);
                                }
                            }
                        }
                        if v == i && is_last_label(g, g[i as int].0.afters@[k as int]@, u) {
                            lemma_last_label_unique(g, g[i as int].0.afters@[k as int]@, u, j as int);
                        }
                    }
                }
                steps = steps + 1;
                assert forall|u: int| 0 <= u < n implies #[trigger] adj[u]@ == adjacency_upto(g, u, i as int) + (if u == i {
                    before_targets(g, i as int, g[i as int].0.befores@.len() as int)
                } else {
                    Seq::<usize>::empty()
                }) + after_sources(g, i as int, u, k + 1) by {
                    let a = adjacency_upto(g, u, i as int) + (if u == i {
                        before_targets(g, i as int, g[i as int].0.befores@.len() as int)
                    } else {
                        Seq::<usize>::empty()
                    });
                    if found == Some(u as usize) {
                        assert(adj[u]@ =~= a + after_sources(g, i as int, u, k + 1));
                    } else {
                        assert(after_sources(g, i as int, u, k + 1) =~= after_sources(g, i as int, u, k as int));
                    }
                }
            }
            k = k + 1;
        }
        proof {
            assert forall|u: int| 0 <= u < n implies #[trigger] adj[u]@ == adjacency_upto(g, u, i + 1) by {
                assert(adjacency_upto(g, u, i + 1) == adjacency_upto(g, u, i as int) + contribution(g, i as int, u));
                assert(adj[u]@ =~= adjacency_upto(g, u, i as int) + contribution(g, i as int, u));
            }
        }
        i = i + 1;
    }
    (adj, in_degree)
}

proof fn lemma_pending_none(adj: Seq<Vec<usize>>, done: Seq<usize>, v: usize, m: int)
    requires
        0 <= m,
        forall|u: int| 0 <= u < m ==> !(#[trigger] adj[u])@.contains(v),
    ensures
        pending_in(adj, done, v, m) == 0,
    decreases m,
{
    if m > 0 {
        lemma_pending_none(adj, done, v, m - 1);
        lemma_occurrences_contains(adj[m - 1]@, v);
    }
}

/// Among positions `0..=p0` of `o`, the first whose node is not in `q`.
proof fn lemma_first_missing(o: Seq<usize>, q: Seq<usize>, p0: int) -> (p: int)
    requires
        0 <= p0 < o.len(),
        !appears(q, o[p0] as int),
    ensures
        0 <= p <= p0,
        !appears(q, o[p] as int),
        forall|p2: int| 0 <= p2 < p ==> appears(q, #[trigger] o[p2] as int),
    decreases p0,
{
    if exists|p2: int| 0 <= p2 < p0 && !appears(q, #[trigger] o[p2] as int) {
        let p2 = choose|p2: int| 0 <= p2 < p0 && !appears(q, #[trigger] o[p2] as int);
        lemma_first_missing(o, q, p2)
    } else {
        p0
    }
}

/// When Kahn's algorithm stalls, every node left over still has a left-over
/// predecessor, so no order can honour all constraints.
proof fn lemma_stall_not_orderable<S>(
    g: Seq<(StoredSystemEntry<S>, ScheduleSet)>,
    adj: Seq<Vec<usize>>,
    queue: Seq<usize>,
    v0: int,
)
    requires
        adj.len() == g.len(),
        forall|u: int, v: int| 0 <= u < g.len() && 0 <= v < g.len() ==>
            (#[trigger] adj[u]@.contains(v as usize) <==> edge(g, u, v)),
        forall|v: int| 0 <= v < g.len() && !appears(queue, v) ==> #[trigger] pending_in(adj, queue, v as usize, g.len() as int) > 0,
        0 <= v0 < g.len(),
        !appears(queue, v0),
    ensures
        !orderable(g),
{
    if orderable(g) {
        let o = choose|o: Seq<usize>| is_topo_order(g, o);
        assert(appears(o, v0));
        let p0 = choose|i: int| 0 <= i < o.len() && o[i] == v0;
        let p = lemma_first_missing(o, queue, p0);
        let v = o[p] as int;
        assert(pending_in(adj, queue, v as usize, g.len() as int) > 0);
        let u = lemma_pending_witness(adj, queue, v as usize, g.len() as int);
        assert(edge(g, u, v));
        assert(appears(o, u));
        let q = choose|i: int| 0 <= i < o.len() && o[i] == u;
        assert(edge(g, o[q] as int, o[p] as int));
        assert(q < p);
        assert(appears(queue, o[q] as int));
    }
}

proof fn lemma_pending_zero(adj: Seq<Vec<usize>>, v: usize, m: int)
    requires
        0 <= m <= adj.len(),
        forall|u: int| 0 <= u < adj.len() ==> (#[trigger] adj[u])@.len() == 0,
    ensures
        pending_in(adj, Seq::empty(), v, m) == 0,
    decreases m,
{
    if m > 0 {
        lemma_pending_zero(adj, v, m - 1);
    }
}

/// A topological order of the systems of one phase, computed with Kahn's
/// algorithm (ready systems are taken in first-in, first-out order), or `None`
/// when the constraints contain a cycle.
pub fn topo_order<S>(group: &Vec<(StoredSystemEntry<S>, ScheduleSet)>) -> (r: Option<Vec<usize>>)
    requires
        constraint_count(group@, group.len() as int) < usize::MAX,
    ensures
        r is Some <==> orderable(group@),
        r matches Some(o) ==> is_topo_order(group@, o@),
        r matches Some(o) ==> (unconstrained(group@) ==> identity_order(o@, group.len() as int)),
        r matches Some(o) ==> o@ == kahn_order(group@),
        r is Some <==> kahn_order(group@).len() == group.len(),
{
    let n = group.len();
    let ghost g = group@;
    let (adj, mut in_degree) = build_graph(group);
    let mut queue: Vec<usize> = Vec::new();
    let mut i: usize = 0;
    while i < n
        invariant
            i <= n,
            n == group.len(),
            g == group@,
            adj.len() == n,
            in_degree.len() == n,
            forall|u: int, v: int| 0 <= u < n && 0 <= v < n ==>
                (#[trigger] adj[u]@.contains(v as usize) <==> edge(g, u, v)),
            forall|v: int| 0 <= v < n ==> #[trigger] in_degree[v] == pending_in(adj@, Seq::empty(), v as usize, n as int),
            forall|p: int| 0 <= p < queue.len() ==> #[trigger] queue[p] < i,
            forall|p: int, q: int| 0 <= p < q < queue.len() ==> queue[p] < queue[q],
            forall|v: int| 0 <= v < i ==> (#[trigger] appears(queue@, v) <==> in_degree[v] == 0),
            unconstrained(g) ==> identity_order(queue@, i as int),
            forall|u: int| 0 <= u < n ==> #[trigger] adj[u]@ == adjacency(g, u),
            queue@ == kahn_init(g, i as int),
        decreases n - i,
    {
        let ghost old_q = queue@;
        proof {
            lemma_pending_bridge(g, adj@, Seq::empty(), i, n as int);
        }
        if in_degree[i] == 0 {
            queue.push(i);
        }
        proof {
            assert forall|v: int| 0 <= v < i + 1 implies (#[trigger] appears(queue@, v) <==> in_degree[v] == 0) by {
                if appears(queue@, v) {
                    let p = choose|p: int| 0 <= p < queue@.len() && queue@[p] == v;
                    if p < old_q.len() {
                        assert(old_q[p] == v);
                    }
                }
                if v < i && appears(old_q, v) {
                    let p = choose|p: int| 0 <= p < old_q.len() && old_q[p] == v;
                    assert(queue@[p] == v);
                }
                if v == i && in_degree[v] == 0 {
                    assert(queue@[queue@.len() - 1] == v);
                }
            }
            if unconstrained(g) {
                assert forall|u: int| 0 <= u < n implies !(#[trigger] adj[u])@.contains(i) by {
                    assert(!edge(g, u, i as int));
                }
                lemma_pending_none(adj@, Seq::empty(), i, n as int);
            }
        }
        i = i + 1;
    }
    proof {
        assert forall|v: int| 0 <= v < n implies #[trigger] in_degree[v] == pending_in(adj@, queue@.take(0), v as usize, n as int) by {
            assert(queue@.take(0) =~= Seq::<usize>::empty());
        }
        lemma_distinct_below_len(queue@, n as int);
        assert forall|p: int, u: int| 0 <= p < queue.len() && #[trigger] edge(g, u, queue[p] as int) implies
            exists|j: int| 0 <= j < p && j < 0 && queue[j] == u by {
            let v = queue[p] as int;
            assert(edge(g, u, v));
            assert(adj[u]@.contains(v as usize));
            lemma_occurrences_contains(adj[u]@, v as usize);
            lemma_pending_ge(adj@, Seq::empty(), u as usize, v as usize, n as int);
            assert(appears(queue@, v));
        }
    }
    let mut head: usize = 0;
    while head < queue.len()
        invariant
            n == group.len(),
            g == group@,
            adj.len() == n,
            in_degree.len() == n,
            forall|u: int, k: int| 0 <= u < n && 0 <= k < adj[u].len() ==> #[trigger] adj[u]@[k] < n,
            forall|u: int, v: int| 0 <= u < n && 0 <= v < n ==>
                (#[trigger] adj[u]@.contains(v as usize) <==> edge(g, u, v)),
            head <= queue.len() <= n,
            forall|p: int| 0 <= p < queue.len() ==> #[trigger] queue[p] < n,
            forall|p: int, q: int| 0 <= p < q < queue.len() ==> queue[p] != queue[q],
            forall|v: int| 0 <= v < n ==> (#[trigger] appears(queue@, v) <==> in_degree[v] == 0),
            forall|v: int| 0 <= v < n ==> #[trigger] in_degree[v] == pending_in(adj@, queue@.take(head as int), v as usize, n as int),
            forall|p: int, u: int| 0 <= p < queue.len() && #[trigger] edge(g, u, queue[p] as int) ==>
                exists|j: int| 0 <= j < p && j < head && queue[j] == u,
            unconstrained(g) ==> identity_order(queue@, n as int),
            forall|u: int| 0 <= u < n ==> #[trigger] adj[u]@ == adjacency(g, u),
            queue@ == kahn_queue(g, head as int),
        decreases n - head,
    {
        let node = queue[head];
        head = head + 1;
        let ghost done_old = queue@.take(head - 1);
        let ghost q0 = queue@;
        proof {
            assert(queue@.take(head as int) =~= done_old.push(node));
            assert(!appears(done_old, node as int)) by {
                if appears(done_old, node as int) {
                    let j = choose|j: int| 0 <= j < done_old.len() && done_old[j] == node;
                    assert(queue[j] == queue[head - 1]);
                }
            }
            assert forall|v: int| 0 <= v < n implies #[trigger] in_degree[v] + occurrences(adj[node as int]@.take(0), v as usize)
                == pending_in(adj@, done_old, v as usize, n as int) by {
                assert(adj[node as int]@.take(0).len() == 0);
            }
        }
        let nbrs = &adj[node];
        let mut k: usize = 0;
        while k < nbrs.len()
            invariant
                n == group.len(),
                g == group@,
                adj.len() == n,
                in_degree.len() == n,
                nbrs == &adj[node as int],
                node < n,
                0 < head <= q0.len(),
                q0[head - 1] == node,
                done_old == q0.take(head - 1),
                !appears(done_old, node as int),
                forall|u: int, k2: int| 0 <= u < n && 0 <= k2 < adj[u].len() ==> #[trigger] adj[u]@[k2] < n,
                forall|u: int, v: int| 0 <= u < n && 0 <= v < n ==>
                    (#[trigger] adj[u]@.contains(v as usize) <==> edge(g, u, v)),
                k <= nbrs.len(),
                q0.len() <= queue.len() <= n,
                queue@.take(q0.len() as int) == q0,
                forall|p: int| 0 <= p < queue.len() ==> #[trigger] queue[p] < n,
                forall|p: int, q: int| 0 <= p < q < queue.len() ==> queue[p] != queue[q],
                forall|v: int| 0 <= v < n ==> (#[trigger] appears(queue@, v) <==> in_degree[v] == 0),
                forall|v: int| 0 <= v < n ==> #[trigger] in_degree[v] + occurrences(nbrs@.take(k as int), v as usize)
                    == pending_in(adj@, done_old, v as usize, n as int),
                forall|p: int, u: int| 0 <= p < queue.len() && #[trigger] edge(g, u, queue[p] as int) ==>
                    exists|j: int| 0 <= j < p && j < head && queue[j] == u,
                unconstrained(g) ==> identity_order(queue@, n as int),
                forall|u: int| 0 <= u < n ==> #[trigger] adj[u]@ == adjacency(g, u),
                q0 == kahn_queue(g, head - 1),
                queue@ == kahn_release(g, q0, done_old, nbrs@, k as int),
            decreases nbrs.len() - k,
        {
            let nbr = nbrs[k];
            proof {
                lemma_pending_bridge(g, adj@, done_old, nbr, n as int);
                lemma_occurrences_take(nbrs@, k as int, nbr);
                lemma_occurrences_prefix_le(nbrs@, k as int + 1, nbr);
                lemma_pending_mark_done(adj@, done_old, node, nbr, n as int);
                assert(nbr < n);
                if unconstrained(g) {
                    assert(nbrs@.contains(nbr));
                    assert(adj[node as int]@.contains(nbr));
                    assert(adj[node as int]@.contains((nbr as int) as usize));
                    assert(edge(g, node as int, nbr as int));
                }
            }
            let ghost q1 = queue@;
            in_degree[nbr] = in_degree[nbr] - 1;
            if in_degree[nbr] == 0 {
                queue.push(nbr);
                proof {
                    assert(!appears(q1, nbr as int));
                    assert(pending_in(adj@, done_old.push(node), nbr, n as int) == 0);
                    assert forall|u: int| #[trigger] edge(g, u, nbr as int) implies
                        exists|j: int| 0 <= j < queue.len() - 1 && j < head && queue[j] == u by {
                        if !appears(done_old.push(node), u) {
                            lemma_pending_ge(adj@, done_old.push(node), u as usize, nbr, n as int);
                            lemma_occurrences_contains(adj[u]@, nbr);
                            assert(adj[u]@.contains(nbr));
                        }
                        let j = choose|j: int| 0 <= j < done_old.push(node).len() && done_old.push(node)[j] == u;
                        assert(q0[j] == u);
                        assert(queue[j] == u);
                    }
                    lemma_distinct_below_len(q1, n as int);
                    if q1.len() == n {
                        assert(appears(q1, nbr as int));
                    }
                }
            }
            proof {
                assert forall|v: int| 0 <= v < n implies #[trigger] in_degree[v] + occurrences(nbrs@.take(k + 1), v as usize)
                    == pending_in(adj@, done_old, v as usize, n as int) by {
                    lemma_occurrences_take(nbrs@, k as int, v as usize);
                }
                assert forall|v: int| 0 <= v < n implies (#[trigger] appears(queue@, v) <==> in_degree[v] == 0) by {
                    if appears(queue@, v) {
                        let p = choose|p: int| 0 <= p < queue@.len() && queue@[p] == v;
                        if p < q1.len() {
                            assert(q1[p] == v);
                        }
                    }
                    if appears(q1, v) {
                        let p = choose|p: int| 0 <= p < q1.len() && q1[p] == v;
                        assert(queue@[p] == v);
                    }
                    if v == nbr && in_degree[v] == 0 {
                        assert(queue@[queue@.len() - 1] == v);
                    }
                }
                assert(queue@.take(q0.len() as int) =~= q0) by {
                    assert(q1.take(q0.len() as int) == q0);
                }
                assert forall|p: int, u: int| 0 <= p < queue.len() && #[trigger] edge(g, u, queue[p] as int) implies
                    exists|j: int| 0 <= j < p && j < head && queue[j] == u by {
                    if p < q1.len() {
                        assert(queue[p] == q1[p]);
                        let j = choose|j: int| 0 <= j < p && j < head && q1[j] == u;
                        assert(queue[j] == u);
                    }
                }
            }
            k = k + 1;
        }
        proof {
            assert(nbrs@ == adjacency(g, node as int));
            assert(kahn_queue(g, head as int) == kahn_release(g, q0, q0.take(head - 1), nbrs@, nbrs@.len() as int));
            assert(nbrs@.take(nbrs@.len() as int) =~= nbrs@);
            assert(queue@.take(head as int) =~= done_old.push(node)) by {
                assert(q0.take(head as int) =~= done_old.push(node));
                assert(queue@.take(head as int) =~= q0.take(head as int));
            }
            assert forall|v: int| 0 <= v < n implies #[trigger] in_degree[v] == pending_in(adj@, queue@.take(head as int), v as usize, n as int) by {
                lemma_pending_mark_done(adj@, done_old, node, v as usize, n as int);
            }
        }
    }
    proof {
        assert(queue@.take(head as int) =~= queue@);
        lemma_distinct_below_len(queue@, n as int);
        lemma_kahn_queue_settled(g, head as int, n as int);
    }
    if queue.len() != n {
        proof {
            let v0 = choose|v: int| 0 <= v < n && !#[trigger] appears(queue@, v);
            lemma_stall_not_orderable(g, adj@, queue@, v0);
        }
        return None;
    }
    proof {
        assert forall|p: int, q: int| 0 <= p < n && 0 <= q < n && edge(g, queue[p] as int, queue[q] as int) implies p < q by {
            let j = choose|j: int| 0 <= j < q && j < head && queue[j] == queue[p] as int;
            if j != p {
                if j < p {
                    assert(queue[j] != queue[p]);
                } else {
                    assert(queue[p] != queue[j]);
                }
            }
        }
        assert(is_topo_order(g, queue@));
    }
    Some(queue)
}

/// Rearranges `v` so that position `i` holds the element that was at `o[i]`.
pub fn rearrange<T>(v: &mut Vec<T>, o: &Vec<usize>)
    requires
        is_permutation(o@, old(v).len() as int),
    ensures
        rearranged(old(v)@, o@, final(v)@),
{
    let n = v.len();
    let ghost orig = v@;
    let mut slots: Vec<Option<T>> = Vec::new();
    while v.len() > 0
        invariant
            n == orig.len(),
            v.len() + slots.len() == n,
            v@ == orig.take(v.len() as int),
            forall|s: int| 0 <= s < slots.len() ==> #[trigger] slots[s] == Some(orig[n - 1 - s]),
        decreases v.len(),
    {
        let x = v.pop().unwrap();
        slots.push(Some(x));
        proof {
            assert(v@ =~= orig.take(v.len() as int));
        }
    }
    let mut i: usize = 0;
    while i < n
        invariant
            n == orig.len(),
            slots.len() == n,
            is_permutation(o@, n as int),
            i <= n,
            v.len() == i,
            forall|j: int| 0 <= j < i ==> #[trigger] v[j] == orig[o[j] as int],
            forall|s: int| 0 <= s < n ==> (#[trigger] slots[s] == if appears(o@.take(i as int), n - 1 - s) {
                None
            } else {
                Some(orig[n - 1 - s])
            }),
        decreases n - i,
    {
        let idx = o[i];
        let slot = n - 1 - idx;
        proof {
            let t0 = o@.take(i as int);
            assert(!appears(t0, idx as int)) by {
                if appears(t0, idx as int) {
                    let j = choose|j: int| 0 <= j < t0.len() && t0[j] == idx as int;
                    assert(o[j] == o[i as int]);
                }
            }
        }
        let x = slots[slot].take();
        v.push(x.unwrap());
        proof {
            let t0 = o@.take(i as int);
            let t1 = o@.take(i + 1);
            assert forall|s: int| 0 <= s < n implies (#[trigger] slots[s] == if appears(t1, n - 1 - s) {
                None
            } else {
                Some(orig[n - 1 - s])
            }) by {
                assert(appears(t1, n - 1 - s) <==> (appears(t0, n - 1 - s) || idx == n - 1 - s)) by {
                    if appears(t1, n - 1 - s) {
                        let j = choose|j: int| 0 <= j < t1.len() && t1[j] == n - 1 - s;
                        if j < i {
                            assert(t0[j] == n - 1 - s);
                        }
                    }
                    if appears(t0, n - 1 - s) {
                        let j = choose|j: int| 0 <= j < t0.len() && t0[j] == n - 1 - s;
                        assert(t1[j] == n - 1 - s);
                    }
                    if idx == n - 1 - s {
                        assert(t1[i as int] == n - 1 - s);
                    }
                }
            }
        }
        i = i + 1;
    }
}

/// Puts the systems of one phase into an order that honours their
/// `before`/`after` constraints (Kahn's algorithm). Phases with at most one
/// system are left as they are. A cyclic set of constraints is reported as
/// [`ScheduleError::Cycle`] and leaves the group unchanged.
pub fn topo_sort_group<S>(group: &mut Vec<(StoredSystemEntry<S>, ScheduleSet)>) -> (r: Result<(), ScheduleError>)
    requires
        constraint_count(old(group)@, old(group).len() as int) < usize::MAX,
    ensures
        old(group).len() <= 1 ==> (r is Ok) && final(group)@ == old(group)@,
        old(group).len() > 1 ==> ((r is Ok) <==> orderable(old(group)@)),
        (r is Err) ==> final(group)@ == old(group)@,
        (r is Err) ==> r == Err::<(), ScheduleError>((ScheduleError::Cycle { set: old(group)@[0].1 })),
        (r is Ok) && old(group).len() > 1 ==> topo_rearrangement(old(group)@, final(group)@),
        (r is Ok) && old(group).len() > 1 ==> rearranged(old(group)@, kahn_order(old(group)@), final(group)@),
{
    let n = group.len();
    if n <= 1 {
        return Ok(());
    }
    match topo_order(group) {
        None => {
            let set = group[0].1;
            Err(ScheduleError::Cycle { set })
        },
        Some(order) => {
            let ghost o = order@;
            let ghost before = group@;
            rearrange(group, &order);
            proof {
                assert(is_topo_order(before, o));
                assert(rearranged(before, o, group@));
            }
            Ok(())
        },
    }
}

} // verus!
