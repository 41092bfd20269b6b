//! Polymer chains: settings of chain initialization and chain statistics, and
//! the discovery of linear chains from the bond topology.
//!
//! Chain discovery works on the local atoms' tags and, per local atom, the
//! tags of its bond partners. A chain end is a tag with exactly one partner;
//! the ends are taken in increasing tag order, and from each end not yet
//! visited a chain is grown by repeatedly stepping to the first partner of the
//! current atom that has not been visited. Chains of at least two atoms are kept.

use vstd::prelude::*;
use crate::angle::AngleEntry;

verus! {

broadcast use vstd::seq_lib::group_seq_properties;

/// Default number of chains.
pub fn default_n_chains() -> (n: usize)
    ensures
        n == 1,
{
    1
}

/// Default number of beads per chain.
pub fn default_chain_length() -> (n: usize)
    ensures
        n == 50,
{
    50
}

/// Default chain initialization style.
pub fn default_init_style() -> (s: String)
    ensures
        s@ == seq!['r', 'a', 'n', 'd', 'o', 'm', '_', 'w', 'a', 'l', 'k'],
{
    let lit = "random_walk";
    proof {
        reveal_strlit("random_walk");
    }
    lit.to_owned()
}

/// Default seed of the chain initialization.
pub fn default_seed() -> (s: u64)
    ensures
        s == 42,
{
    42
}

/// Default interval between chain measurements, in steps.
pub fn default_measure_interval() -> (n: usize)
    ensures
        n == 100,
{
    100
}

/// Default interval between writes of the chain statistics, in steps.
pub fn default_output_interval() -> (n: usize)
    ensures
        n == 1000,
{
    1000
}

/// Default number of initial steps skipped before measuring.
pub fn default_equilibration_steps() -> (n: usize)
    ensures
        n == 0,
{
    0
}

/// `[chain_stats]` settings: sample R_ee and R_g every `measure_interval`
/// steps (never when 0), write every `output_interval` steps, and skip the
/// first `equilibration_steps` steps.
#[derive(Debug, Clone, Copy, PartialEq, Eq, Structural)]
pub struct ChainStatsConfig {
    pub measure_interval: usize,
    pub output_interval: usize,
    pub equilibration_steps: usize,
}

impl Default for ChainStatsConfig {
    fn default() -> (c: Self)
        ensures
            c.measure_interval == 100,
            c.output_interval == 1000,
            c.equilibration_steps == 0,
    {
        ChainStatsConfig { measure_interval: 100, output_interval: 1000, equilibration_steps: 0 }
    }
}

/// Chain initialization plugin (`[polymer_init]`).
pub struct PolymerInitPlugin;

/// Chain statistics plugin (`[chain_stats]`).
pub struct ChainStatsPlugin;

/// Both polymer plugins, configured from the combined `[polymer]` section.
pub struct PolymerPlugin;

/// Whether step `step` is a measurement step: measuring is enabled, the step
/// is a positive multiple of the interval, equilibration is over, and this is
/// the root rank.
pub open spec fn measure_step_spec(config: ChainStatsConfig, step: usize, rank: i32) -> bool {
    &&& config.measure_interval != 0
    &&& step != 0
    &&& step % config.measure_interval == 0
    &&& step >= config.equilibration_steps
    &&& rank == 0
}

/// Whether chain statistics are measured at `step` on rank `rank`.
pub fn is_measure_step(config: &ChainStatsConfig, step: usize, rank: i32) -> (r: bool)
    ensures
        r == measure_step_spec(*config, step, rank),
{
    config.measure_interval != 0 && step != 0 && step % config.measure_interval == 0
        && step >= config.equilibration_steps && rank == 0
}

// ── Bond graph ─────────────────────────────────────────────────────────────

/// Partner tags recorded for tag `t` by the first `k` atoms, atom after atom.
pub open spec fn partners_upto(tags: Seq<u32>, bonds: Seq<Vec<u32>>, k: int, t: u32) -> Seq<u32>
    decreases k,
{
    if k <= 0 {
        Seq::empty()
    } else {
        partners_upto(tags, bonds, k - 1, t) + if tags[k - 1] == t {
            bonds[k - 1]@
        } else {
            Seq::empty()
        }
    }
}

/// All partner tags recorded by the first `k` atoms.
pub open spec fn all_partners_upto(bonds: Seq<Vec<u32>>, k: int) -> Seq<u32>
    decreases k,
{
    if k <= 0 {
        Seq::empty()
    } else {
        all_partners_upto(bonds, k - 1) + bonds[k - 1]@
    }
}

/// Number of atoms whose bonds are read: the local atoms that have a bond list.
pub open spec fn bonded_count(tags: Seq<u32>, bonds: Seq<Vec<u32>>, nlocal: int) -> int {
    if nlocal <= bonds.len() {
        nlocal
    } else {
        bonds.len() as int
    }
}

/// The partner tags of tag `t`.
pub open spec fn partners(tags: Seq<u32>, bonds: Seq<Vec<u32>>, nlocal: int, t: u32) -> Seq<u32> {
    partners_upto(tags, bonds, bonded_count(tags, bonds, nlocal), t)
}

/// Every tag that occurs as a bond partner.
pub open spec fn partner_pool(tags: Seq<u32>, bonds: Seq<Vec<u32>>, nlocal: int) -> Set<u32> {
    all_partners_upto(bonds, bonded_count(tags, bonds, nlocal)).to_set()
}

/// Tag `t` ends a chain: it has exactly one partner.
pub open spec fn is_chain_end(tags: Seq<u32>, bonds: Seq<Vec<u32>>, nlocal: int, t: u32) -> bool {
    partners(tags, bonds, nlocal, t).len() == 1
}

/// `e` lists the chain ends in strictly increasing order.
pub open spec fn sorted_chain_ends(tags: Seq<u32>, bonds: Seq<Vec<u32>>, nlocal: int, e: Seq<u32>) -> bool {
    &&& forall|i: int, j: int| 0 <= i < j < e.len() ==> e[i] < e[j]
    &&& forall|t: u32| e.contains(t) <==> is_chain_end(tags, bonds, nlocal, t)
}

/// The first element of `s` not in `visited`.
pub open spec fn first_unvisited(s: Seq<u32>, visited: Set<u32>) -> Option<u32>
    decreases s.len(),
{
    if s.len() == 0 {
        None
    } else if !visited.contains(s[0]) {
        Some(s[0])
    } else {
        first_unvisited(s.drop_first(), visited)
    }
}

pub proof fn lemma_first_unvisited(s: Seq<u32>, visited: Set<u32>)
    ensures
        first_unvisited(s, visited) matches Some(n) ==> s.contains(n) && !visited.contains(n),
        first_unvisited(s, visited) is None ==> forall|x: u32| s.contains(x) ==> visited.contains(x),
    decreases s.len(),
{
    if s.len() > 0 && visited.contains(s[0]) {
        lemma_first_unvisited(s.drop_first(), visited);
        assert forall|x: u32| s.contains(x) && !s.drop_first().contains(x) implies x == s[0] by {
            let i = choose|i: int| 0 <= i < s.len() && s[i] == x;
            if i > 0 {
                assert(s.drop_first()[i - 1] == x);
            }
        }
        if let Some(n) = first_unvisited(s, visited) {
            let i = choose|i: int| 0 <= i < s.drop_first().len() && s.drop_first()[i] == n;
            assert(s[i + 1] == n);
        }
    } else if s.len() > 0 {
        assert(s[0] == s[0]);
    }
}

pub proof fn lemma_partners_in_pool(tags: Seq<u32>, bonds: Seq<Vec<u32>>, k: int, t: u32, x: u32)
    requires
        0 <= k <= bonds.len(),
        partners_upto(tags, bonds, k, t).contains(x),
    ensures
        all_partners_upto(bonds, k).contains(x),
    decreases k,
{
    if k > 0 {
        let prev = partners_upto(tags, bonds, k - 1, t);
        let extra = if tags[k - 1] == t {
            bonds[k - 1]@
        } else {
            Seq::<u32>::empty()
        };
        let i = choose|i: int| 0 <= i < (prev + extra).len() && (prev + extra)[i] == x;
        let all_prev = all_partners_upto(bonds, k - 1);
        if i < prev.len() {
            assert(prev[i] == x);
            lemma_partners_in_pool(tags, bonds, k - 1, t, x);
            let j = choose|j: int| 0 <= j < all_prev.len() && all_prev[j] == x;
            assert((all_prev + bonds[k - 1]@)[j] == x);
        } else {
            assert(extra[i - prev.len()] == x);
            assert((all_prev + bonds[k - 1]@)[all_prev.len() + i - prev.len()] == x);
        }
    }
}

proof fn lemma_partners_need_tag(tags: Seq<u32>, bonds: Seq<Vec<u32>>, k: int, t: u32)
    requires
        0 <= k <= tags.len(),
        partners_upto(tags, bonds, k, t).len() > 0,
    ensures
        exists|j: int| 0 <= j < k && tags[j] == t,
    decreases k,
{
    if k > 0 {
        if tags[k - 1] != t {
            lemma_partners_need_tag(tags, bonds, k - 1, t);
        }
    }
}

/// Growing a chain from `current`: step to the first unvisited partner until
/// there is none. Gives the grown chain and the visited set afterwards.
pub open spec fn walk(
    tags: Seq<u32>,
    bonds: Seq<Vec<u32>>,
    nlocal: int,
    visited: Set<u32>,
    current: u32,
    chain: Seq<u32>,
) -> (Seq<u32>, Set<u32>)
    decreases partner_pool(tags, bonds, nlocal).difference(visited).len(),
{
    match first_unvisited(partners(tags, bonds, nlocal, current), visited) {
        None => (chain, visited),
        Some(n) => {
            proof {
                lemma_walk_step_decreases(tags, bonds, nlocal, visited, current, n);
            }
            walk(tags, bonds, nlocal, visited.insert(n), n, chain.push(n))
        },
    }
}

pub proof fn lemma_walk_step_decreases(
    tags: Seq<u32>,
    bonds: Seq<Vec<u32>>,
    nlocal: int,
    visited: Set<u32>,
    current: u32,
    n: u32,
)
    requires
        first_unvisited(partners(tags, bonds, nlocal, current), visited) == Some(n),
    ensures
        partner_pool(tags, bonds, nlocal).difference(visited.insert(n)).len() < partner_pool(
            tags,
            bonds,
            nlocal,
        ).difference(visited).len(),
{
    let m = bonded_count(tags, bonds, nlocal);
    lemma_first_unvisited(partners(tags, bonds, nlocal, current), visited);
    if m < 0 {
        assert(partners(tags, bonds, nlocal, current).len() == 0);
    } else {
        lemma_partners_in_pool(tags, bonds, m, current, n);
    }
    let pool = partner_pool(tags, bonds, nlocal);
    vstd::seq_lib::seq_to_set_is_finite(all_partners_upto(bonds, m));
    pool.lemma_set_insert_diff_decreases(visited, n);
}

/// The chains found from the first `k` chain ends of `ends`, with the visited set.
pub open spec fn chains_upto(
    tags: Seq<u32>,
    bonds: Seq<Vec<u32>>,
    nlocal: int,
    ends: Seq<u32>,
    k: int,
) -> (Seq<Seq<u32>>, Set<u32>)
    decreases k,
{
    if k <= 0 {
        (Seq::empty(), Set::empty())
    } else {
        let (cs, vis) = chains_upto(tags, bonds, nlocal, ends, k - 1);
        let s = ends[k - 1];
        if vis.contains(s) {
            (cs, vis)
        } else {
            let (chain, vis2) = walk(tags, bonds, nlocal, vis.insert(s), s, seq![s]);
            (
                if chain.len() >= 2 {
                    cs.push(chain)
                } else {
                    cs
                },
                vis2,
            )
        }
    }
}

/// The chains, each as its tags, of a list of chains.
pub open spec fn chain_views(cs: Seq<Vec<u32>>) -> Seq<Seq<u32>> {
    cs.map_values(|c: Vec<u32>| c@)
}

fn contains_tag(v: &Vec<u32>, x: u32) -> (r: bool)
    ensures
        r == v@.contains(x),
{
    let mut k: usize = 0;
    while k < v.len()
        invariant
            k <= v.len(),
            forall|j: int| 0 <= j < k ==> v@[j] != x,
        decreases v.len() - k,
    {
        if v[k] == x {
            proof {
                assert(v@[k as int] == x);
            }
            return true;
        }
        k = k + 1;
    }
    false
}

fn partners_of(tags: &[u32], bonds: &[Vec<u32>], m: usize, t: u32) -> (r: Vec<u32>)
    requires
        m <= tags@.len(),
        m <= bonds@.len(),
    ensures
        r@ == partners_upto(tags@, bonds@, m as int, t),
{
    let mut r: Vec<u32> = Vec::new();
    let mut i: usize = 0;
    while i < m
        invariant
            m <= tags@.len(),
            m <= bonds@.len(),
            i <= m,
            r@ == partners_upto(tags@, bonds@, i as int, t),
        decreases m - i,
    {
        if tags[i] == t {
            let b = &bonds[i];
            let mut j: usize = 0;
            let ghost start = r@;
            while j < b.len()
                invariant
                    j <= b@.len(),
                    r@ == start + b@.take(j as int),
                decreases b.len() - j,
            {
                r.push(b[j]);
                proof {
                    assert(b@.take(j + 1) =~= b@.take(j as int).push(b@[j as int]));
                    assert(r@ =~= start + b@.take(j + 1));
                }
                j = j + 1;
            }
            proof {
                assert(b@.take(b@.len() as int) =~= b@);
            }
        } else {
            proof {
                assert(r@ =~= r@ + Seq::<u32>::empty());
            }
        }
        i = i + 1;
    }
    r
}

fn first_unvisited_of(s: &Vec<u32>, visited: &Vec<u32>) -> (r: Option<u32>)
    ensures
        r == first_unvisited(s@, visited@.to_set()),
{
    let mut k: usize = 0;
    while k < s.len()
        invariant
            k <= s@.len(),
            first_unvisited(s@, visited@.to_set()) == first_unvisited(s@.skip(k as int), visited@.to_set()),
        decreases s.len() - k,
    {
        proof {
            assert(s@.skip(k as int).drop_first() =~= s@.skip(k + 1));
            assert(s@.skip(k as int)[0] == s@[k as int]);
        }
        if !contains_tag(visited, s[k]) {
            return Some(s[k]);
        }
        k = k + 1;
    }
    proof {
        assert(s@.skip(k as int).len() == 0);
    }
    None
}

proof fn lemma_inserted_sorted(e: Seq<u32>, pos: int, t: u32)
    requires
        0 <= pos <= e.len(),
        forall|i: int, j: int| 0 <= i < j < e.len() ==> e[i] < e[j],
        forall|i: int| 0 <= i < pos ==> e[i] < t,
        pos < e.len() ==> t < e[pos],
    ensures
        forall|i: int, j: int| 0 <= i < j < e.insert(pos, t).len() ==> e.insert(pos, t)[i] < e.insert(pos, t)[j],
        forall|x: u32| e.insert(pos, t).contains(x) <==> (e.contains(x) || x == t),
{
    let f = e.insert(pos, t);
    assert forall|i: int, j: int| 0 <= i < j < f.len() implies f[i] < f[j] by {
        if j < pos {
        } else if j == pos {
        } else if i < pos {
            assert(e[i] < e[pos]);
        } else if i == pos {
            assert(t < e[pos]);
            if j - 1 > pos {
                assert(e[pos] < e[j - 1]);
            }
        } else {
        }
    }
    assert forall|x: u32| f.contains(x) <==> (e.contains(x) || x == t) by {
        if f.contains(x) {
            let i = choose|i: int| 0 <= i < f.len() && f[i] == x;
            if i < pos {
                assert(e[i] == x);
            } else if i > pos {
                assert(e[i - 1] == x);
            }
        }
        if e.contains(x) {
            let i = choose|i: int| 0 <= i < e.len() && e[i] == x;
            if i < pos {
                assert(f[i] == x);
            } else {
                assert(f[i + 1] == x);
            }
        }
        if x == t {
            assert(f[pos] == x);
        }
    }
}

/// The chain ends among the first `nlocal` atoms, in strictly increasing order.
pub fn chain_ends(tags: &[u32], bonds: &[Vec<u32>], nlocal: usize) -> (e: Vec<u32>)
    requires
        bonded_count(tags@, bonds@, nlocal as int) <= tags@.len(),
    ensures
        sorted_chain_ends(tags@, bonds@, nlocal as int, e@),
{
    let m = if nlocal <= bonds.len() {
        nlocal
    } else {
        bonds.len()
    };
    let mut ends: Vec<u32> = Vec::new();
    let mut i: usize = 0;
    while i < m
        invariant
            m == bonded_count(tags@, bonds@, nlocal as int),
            m <= tags@.len(),
            m <= bonds@.len(),
            i <= m,
            forall|a: int, b: int| 0 <= a < b < ends@.len() ==> ends@[a] < ends@[b],
            forall|x: u32|
                ends@.contains(x) <==> (is_chain_end(tags@, bonds@, nlocal as int, x) && exists|j: int|
                    0 <= j < i && tags@[j] == x),
        decreases m - i,
    {
        let t = tags[i];
        let p = partners_of(tags, bonds, m, t);
        let ghost prev_ends = ends@;
        proof {
            assert(p@ == partners(tags@, bonds@, nlocal as int, t));
        }
        if p.len() == 1 {
            let mut pos: usize = 0;
            while pos < ends.len() && ends[pos] < t
                invariant
                    pos <= ends@.len(),
                    forall|a: int| 0 <= a < pos ==> ends@[a] < t,
                decreases ends.len() - pos,
            {
                pos = pos + 1;
            }
            if pos < ends.len() && ends[pos] == t {
                proof {
                    assert(ends@[pos as int] == t);
                }
            } else {
                let ghost old_ends = ends@;
                ends.insert(pos, t);
                proof {
                    lemma_inserted_sorted(old_ends, pos as int, t);
                }
            }
        }
        proof {
            assert(is_chain_end(tags@, bonds@, nlocal as int, t) == (p@.len() == 1));
            assert(is_chain_end(tags@, bonds@, nlocal as int, t) ==> ends@.contains(t));
            assert(forall|x: u32| x != t ==> (ends@.contains(x) == prev_ends.contains(x)));
            assert(!is_chain_end(tags@, bonds@, nlocal as int, t) ==> ends@ == prev_ends);
            assert forall|x: u32|
                ends@.contains(x) <==> (is_chain_end(tags@, bonds@, nlocal as int, x) && exists|j: int|
                    0 <= j < i + 1 && tags@[j] == x) by {
                if x == t {
                    assert(tags@[i as int] == x);
                    if !is_chain_end(tags@, bonds@, nlocal as int, t) {
                        assert(!prev_ends.contains(t));
                        assert(!ends@.contains(t));
                    }
                } else {
                    assert(ends@.contains(x) == prev_ends.contains(x));
                    if exists|j: int| 0 <= j < i + 1 && tags@[j] == x {
                        let j = choose|j: int| 0 <= j < i + 1 && tags@[j] == x;
                        assert(j < i);
                    }
                    if exists|j: int| 0 <= j < i && tags@[j] == x {
                        let j = choose|j: int| 0 <= j < i && tags@[j] == x;
                        assert(0 <= j < i + 1 && tags@[j] == x);
                    }
                }
            }
        }
        i = i + 1;
    }
    proof {
        assert forall|x: u32| is_chain_end(tags@, bonds@, nlocal as int, x) implies exists|j: int|
            0 <= j < m && tags@[j] == x by {
            lemma_partners_need_tag(tags@, bonds@, m as int, x);
        }
    }
    ends
}

/// The chains grown from the chain ends `ends`, taken in order.
pub fn walk_chains(tags: &[u32], bonds: &[Vec<u32>], nlocal: usize, ends: &Vec<u32>) -> (r: Vec<Vec<u32>>)
    requires
        bonded_count(tags@, bonds@, nlocal as int) <= tags@.len(),
    ensures
        chain_views(r@) == chains_upto(tags@, bonds@, nlocal as int, ends@, ends@.len() as int).0,
{
    let m = if nlocal <= bonds.len() {
        nlocal
    } else {
        bonds.len()
    };
    let ghost pool = partner_pool(tags@, bonds@, nlocal as int);
    proof {
        vstd::seq_lib::seq_to_set_is_finite(all_partners_upto(bonds@, m as int));
    }
    let mut chains: Vec<Vec<u32>> = Vec::new();
    let mut visited: Vec<u32> = Vec::new();
    let mut k: usize = 0;
    while k < ends.len()
        invariant
            m == bonded_count(tags@, bonds@, nlocal as int),
            m <= tags@.len(),
            m <= bonds@.len(),
            pool == partner_pool(tags@, bonds@, nlocal as int),
            pool.finite(),
            k <= ends@.len(),
            (chain_views(chains@), visited@.to_set()) == chains_upto(tags@, bonds@, nlocal as int, ends@, k as int),
        decreases ends.len() - k,
    {
        let s = ends[k];
        let ghost prev_chains = chain_views(chains@);
        let ghost prev_vis = visited@.to_set();
        if !contains_tag(&visited, s) {
            let mut chain: Vec<u32> = Vec::new();
            chain.push(s);
            visited.push(s);
            let mut current = s;
            let ghost target = walk(tags@, bonds@, nlocal as int, prev_vis.insert(s), s, seq![s]);
            proof {
                assert(chain@ =~= seq![s]);
                assert(visited@.to_set() =~= prev_vis.insert(s));
            }
            loop
                invariant
                    m == bonded_count(tags@, bonds@, nlocal as int),
                    m <= tags@.len(),
                    m <= bonds@.len(),
                    pool == partner_pool(tags@, bonds@, nlocal as int),
                    pool.finite(),
                    walk(tags@, bonds@, nlocal as int, visited@.to_set(), current, chain@) == target,
                ensures
                    target == (chain@, visited@.to_set()),
                decreases pool.difference(visited@.to_set()).len(),
            {
                let p = partners_of(tags, bonds, m, current);
                match first_unvisited_of(&p, &visited) {
                    None => {
                        proof {
                            assert(p@ == partners(tags@, bonds@, nlocal as int, current));
                            assert(walk(tags@, bonds@, nlocal as int, visited@.to_set(), current, chain@) == (
                            chain@, visited@.to_set()));
                        }
                        break ;
                    },
                    Some(n) => {
                        proof {
                            lemma_walk_step_decreases(tags@, bonds@, nlocal as int, visited@.to_set(), current, n);
                        }
                        let ghost before = visited@;
                        proof {
                            assert(p@ == partners(tags@, bonds@, nlocal as int, current));
                        }
                        chain.push(n);
                        visited.push(n);
                        current = n;
                        proof {
                            assert(visited@.to_set() =~= before.to_set().insert(n));
                        }
                    },
                }
            }
            if chain.len() >= 2 {
                let ghost before = chains@;
                chains.push(chain);
                proof {
                    assert(chain_views(chains@) =~= chain_views(before).push(target.0));
                }
            }
        }
        proof {
            assert(ends@[k as int] == s);
        }
        k = k + 1;
    }
    chains
}

/// Any two increasing lists of the chain ends are the same list.
pub proof fn lemma_chain_ends_unique(
    tags: Seq<u32>,
    bonds: Seq<Vec<u32>>,
    nlocal: int,
    e1: Seq<u32>,
    e2: Seq<u32>,
)
    requires
        sorted_chain_ends(tags, bonds, nlocal, e1),
        sorted_chain_ends(tags, bonds, nlocal, e2),
    ensures
        e1 == e2,
{
    lemma_sorted_same_elements(e1, e2);
}

proof fn lemma_sorted_same_elements(e1: Seq<u32>, e2: Seq<u32>)
    requires
        forall|i: int, j: int| 0 <= i < j < e1.len() ==> e1[i] < e1[j],
        forall|i: int, j: int| 0 <= i < j < e2.len() ==> e2[i] < e2[j],
        forall|t: u32| e1.contains(t) <==> e2.contains(t),
    ensures
        e1 == e2,
    decreases e1.len() + e2.len(),
{
    if e1.len() == 0 {
        if e2.len() > 0 {
            assert(e2.contains(e2[0]));
        }
        assert(e1 =~= e2);
    } else if e2.len() == 0 {
        assert(e1.contains(e1[0]));
    } else {
        assert(e1.contains(e1[0]));
        assert(e2.contains(e2[0]));
        let i2 = choose|i: int| 0 <= i < e2.len() && e2[i] == e1[0];
        let i1 = choose|i: int| 0 <= i < e1.len() && e1[i] == e2[0];
        if i2 > 0 {
            assert(e2[0] < e2[i2]);
        }
        if i1 > 0 {
            assert(e1[0] < e1[i1]);
        }
        assert(e1[0] == e2[0]);
        let r1 = e1.drop_first();
        let r2 = e2.drop_first();
        assert forall|t: u32| r1.contains(t) <==> r2.contains(t) by {
            if r1.contains(t) {
                let i = choose|i: int| 0 <= i < r1.len() && r1[i] == t;
                assert(e1[i + 1] == t);
                assert(e1[0] < e1[i + 1]);
                assert(e2.contains(t));
                let j = choose|j: int| 0 <= j < e2.len() && e2[j] == t;
                assert(j != 0);
                assert(r2[j - 1] == t);
            }
            if r2.contains(t) {
                let i = choose|i: int| 0 <= i < r2.len() && r2[i] == t;
                assert(e2[i + 1] == t);
                assert(e2[0] < e2[i + 1]);
                assert(e1.contains(t));
                let j = choose|j: int| 0 <= j < e1.len() && e1[j] == t;
                assert(j != 0);
                assert(r1[j - 1] == t);
            }
        }
        lemma_sorted_same_elements(r1, r2);
        assert(e1 =~= seq![e1[0]] + r1);
        assert(e2 =~= seq![e2[0]] + r2);
    }
}

/// Linear chains of the bond topology of the first `nlocal` atoms, each as
/// the tags from one end to the other: the chains grown from the chain ends
/// in increasing tag order (see the module documentation).
pub fn discover_chains_from_bonds(tags: &[u32], bonds: &[Vec<u32>], nlocal: usize) -> (r: Vec<Vec<u32>>)
    requires
        bonded_count(tags@, bonds@, nlocal as int) <= tags@.len(),
    ensures
        exists|e: Seq<u32>|
            sorted_chain_ends(tags@, bonds@, nlocal as int, e) && chain_views(r@) == chains_upto(
                tags@,
                bonds@,
                nlocal as int,
                e,
                e.len() as int,
            ).0,
{
    let ends = chain_ends(tags, bonds, nlocal);
    walk_chains(tags, bonds, nlocal, &ends)
}


/// Largest of the first `n` tags (0 when there are none).
pub open spec fn max_tag(tags: Seq<u32>, n: int) -> u32
    decreases n,
{
    if n <= 0 {
        0
    } else if tags[n - 1] > max_tag(tags, n - 1) {
        tags[n - 1]
    } else {
        max_tag(tags, n - 1)
    }
}

proof fn lemma_max_tag_bounds(tags: Seq<u32>, n: int)
    requires
        0 <= n <= tags.len(),
    ensures
        forall|i: int| 0 <= i < n ==> tags[i] <= max_tag(tags, n),
    decreases n,
{
    if n > 0 {
        lemma_max_tag_bounds(tags, n - 1);
    }
}

/// Index entry `map[t]` of a tag lookup table over the first `n` atoms: the
/// last atom carrying tag `t`, or `usize::MAX` when none does.
pub open spec fn last_index_of(tags: Seq<u32>, n: int, t: int) -> usize
    decreases n,
{
    if n <= 0 {
        usize::MAX
    } else if tags[n - 1] == t {
        (n - 1) as usize
    } else {
        last_index_of(tags, n - 1, t)
    }
}

/// A dense lookup table from tag to atom index over the first `nlocal` atoms:
/// one entry per tag up to the largest one, `usize::MAX` for absent tags.
pub fn tag_index_map(tags: &[u32], nlocal: usize) -> (map: Vec<usize>)
    requires
        nlocal <= tags@.len(),
        max_tag(tags@, nlocal as int) < usize::MAX,
    ensures
        map@.len() == max_tag(tags@, nlocal as int) + 1,
        forall|t: int| 0 <= t < map@.len() ==> #[trigger] map@[t] == last_index_of(tags@, nlocal as int, t),
{
    let mut mx: u32 = 0;
    let mut i: usize = 0;
    while i < nlocal
        invariant
            nlocal <= tags@.len(),
            i <= nlocal,
            mx == max_tag(tags@, i as int),
            max_tag(tags@, nlocal as int) < usize::MAX,
        decreases nlocal - i,
    {
        if tags[i] > mx {
            mx = tags[i];
        }
        i = i + 1;
    }
    proof {
        lemma_max_tag_bounds(tags@, nlocal as int);
    }
    let len = mx as usize + 1;
    let mut map: Vec<usize> = Vec::new();
    let mut t: usize = 0;
    while t < len
        invariant
            t <= len,
            map@.len() == t,
            forall|q: int| 0 <= q < t ==> #[trigger] map@[q] == usize::MAX,
        decreases len - t,
    {
        map.push(usize::MAX);
        t = t + 1;
    }
    let mut i: usize = 0;
    while i < nlocal
        invariant
            nlocal <= tags@.len(),
            i <= nlocal,
            map@.len() == len,
            len == max_tag(tags@, nlocal as int) + 1,
            forall|q: int| 0 <= q < nlocal ==> tags@[q] <= max_tag(tags@, nlocal as int),
            forall|q: int| 0 <= q < len ==> #[trigger] map@[q] == last_index_of(tags@, i as int, q),
        decreases nlocal - i,
    {
        let tg = tags[i] as usize;
        map.set(tg, i);
        i = i + 1;
    }
    map
}

/// The atom indices of the tags of `chain`, or `None` when one of its tags
/// has no atom.
pub fn resolve_chain(map: &Vec<usize>, chain: &Vec<u32>) -> (r: Option<Vec<usize>>)
    requires
        forall|k: int| 0 <= k < chain@.len() ==> (#[trigger] chain@[k]) < map@.len(),
    ensures
        match r {
            Some(v) => v@.len() == chain@.len() && forall|k: int|
                0 <= k < chain@.len() ==> #[trigger] v@[k] == map@[chain@[k] as int] && v@[k] != usize::MAX,
            None => exists|k: int| 0 <= k < chain@.len() && map@[(#[trigger] chain@[k]) as int] == usize::MAX,
        },
{
    let mut v: Vec<usize> = Vec::new();
    let mut k: usize = 0;
    while k < chain.len()
        invariant
            forall|q: int| 0 <= q < chain@.len() ==> (#[trigger] chain@[q]) < map@.len(),
            k <= chain@.len(),
            v@.len() == k,
            forall|q: int| 0 <= q < k ==> #[trigger] v@[q] == map@[chain@[q] as int] && v@[q] != usize::MAX,
        decreases chain.len() - k,
    {
        let idx = map[chain[k] as usize];
        if idx == usize::MAX {
            proof {
                assert(map@[chain@[k as int] as int] == usize::MAX);
            }
            return None;
        }
        v.push(idx);
        k = k + 1;
    }
    Some(v)
}


// ── Chain creation ─────────────────────────────────────────────────────────

/// Bond partners of tag `t` in straight chains of `len` beads with
/// consecutive tags: the previous bead, then the next one, within its chain.
pub open spec fn bead_partners(t: int, len: int) -> Seq<u32> {
    let b = t % len;
    if len <= 1 {
        Seq::empty()
    } else if b == 0 {
        seq![(t + 1) as u32]
    } else if b == len - 1 {
        seq![(t - 1) as u32]
    } else {
        seq![(t - 1) as u32, (t + 1) as u32]
    }
}

/// The tags and bonds of `n_chains` chains of `chain_len` beads: chain `k`
/// holds the tags `k·chain_len .. (k+1)·chain_len` in order, and consecutive
/// beads of a chain are bonded (each bond recorded on both beads).
pub fn chain_topology(n_chains: usize, chain_len: usize) -> (r: (Vec<Vec<u32>>, Vec<Vec<u32>>))
    requires
        n_chains * chain_len <= u32::MAX,
    ensures
        r.0@.len() == n_chains,
        forall|k: int| 0 <= k < n_chains ==> (#[trigger] r.0@[k])@.len() == chain_len,
        forall|k: int, b: int| 0 <= k < n_chains && 0 <= b < chain_len ==> #[trigger] r.0@[k]@[b] == k * chain_len + b,
        r.1@.len() == n_chains * chain_len,
        forall|t: int| 0 <= t < n_chains * chain_len ==> (#[trigger] r.1@[t])@ == bead_partners(t, chain_len as int),
{
    let total = n_chains * chain_len;
    proof {
        if chain_len == 0 {
            assert(n_chains * chain_len == 0) by (nonlinear_arith)
                requires
                    chain_len == 0,
            ;
        }
    }
    let mut chains: Vec<Vec<u32>> = Vec::new();
    let mut k: usize = 0;
    while k < n_chains
        invariant
            n_chains * chain_len <= u32::MAX,
            k <= n_chains,
            chains@.len() == k,
            forall|q: int| 0 <= q < k ==> (#[trigger] chains@[q])@.len() == chain_len,
            forall|q: int, b: int| 0 <= q < k && 0 <= b < chain_len ==> #[trigger] chains@[q]@[b] == q * chain_len + b,
        decreases n_chains - k,
    {
        proof {
            assert(k * chain_len + chain_len <= n_chains * chain_len) by (nonlinear_arith)
                requires
                    k < n_chains,
            ;
        }
        let base = k * chain_len;
        let mut list: Vec<u32> = Vec::new();
        let mut b: usize = 0;
        while b < chain_len
            invariant
                base == k * chain_len,
                base + chain_len <= u32::MAX,
                b <= chain_len,
                list@.len() == b,
                forall|q: int| 0 <= q < b ==> #[trigger] list@[q] == base + q,
            decreases chain_len - b,
        {
            list.push((base + b) as u32);
            b = b + 1;
        }
        chains.push(list);
        k = k + 1;
    }
    let mut partners: Vec<Vec<u32>> = Vec::new();
    let mut t: usize = 0;
    while t < total
        invariant
            total == 0 || chain_len >= 1,
            total == n_chains * chain_len,
            total <= u32::MAX,
            t <= total,
            partners@.len() == t,
            forall|q: int| 0 <= q < t ==> (#[trigger] partners@[q])@ == bead_partners(q, chain_len as int),
        decreases total - t,
    {
        let b = t % chain_len;
        proof {
            assert(b <= t) by (nonlinear_arith)
                requires
                    b == t % chain_len,
                    chain_len >= 1,
            ;
        }
        let mut p: Vec<u32> = Vec::new();
        if chain_len > 1 {
            if b > 0 {
                p.push((t - 1) as u32);
            }
            if b < chain_len - 1 {
                p.push((t + 1) as u32);
            }
        }
        proof {
            assert(p@ =~= bead_partners(t as int, chain_len as int));
        }
        partners.push(p);
        t = t + 1;
    }
    (chains, partners)
}

/// The angles stored on bead `t` of chains of `len` beads with consecutive
/// tags: one angle over its two neighbours when it is an inner bead, none on
/// a chain end.
pub open spec fn bead_angles(t: int, len: int) -> Seq<AngleEntry> {
    let b = t % len;
    if len >= 3 && 0 < b < len - 1 {
        seq![AngleEntry { tag_i: (t - 1) as u32, tag_k: (t + 1) as u32, angle_type: 0 }]
    } else {
        Seq::empty()
    }
}

/// The angle lists of `n_chains` chains of `chain_len` beads (tags as
/// `chain_topology` assigns them): every triple of consecutive beads of a
/// chain gives one angle, stored on its central bead.
pub fn chain_angles(n_chains: usize, chain_len: usize) -> (r: Vec<Vec<AngleEntry>>)
    requires
        n_chains * chain_len <= u32::MAX,
    ensures
        r@.len() == n_chains * chain_len,
        forall|t: int| 0 <= t < n_chains * chain_len ==> (#[trigger] r@[t])@ == bead_angles(t, chain_len as int),
        forall|t: int|
            0 <= t < n_chains * chain_len && 0 < t % (chain_len as int) < chain_len - 1 ==> (#[trigger] r@[t])@
                == seq![AngleEntry { tag_i: (t - 1) as u32, tag_k: (t + 1) as u32, angle_type: 0 }],
        forall|t: int|
            0 <= t < n_chains * chain_len && (t % (chain_len as int) == 0 || t % (chain_len as int) == chain_len - 1)
                ==> (#[trigger] r@[t])@.len() == 0,
{
    let total = n_chains * chain_len;
    proof {
        if chain_len == 0 {
            assert(n_chains * chain_len == 0) by (nonlinear_arith)
                requires
                    chain_len == 0,
            ;
        }
    }
    let mut angles: Vec<Vec<AngleEntry>> = Vec::new();
    let mut t: usize = 0;
    while t < total
        invariant
            total == 0 || chain_len >= 1,
            total == n_chains * chain_len,
            total <= u32::MAX,
            t <= total,
            angles@.len() == t,
            forall|q: int| 0 <= q < t ==> (#[trigger] angles@[q])@ == bead_angles(q, chain_len as int),
        decreases total - t,
    {
        let b = t % chain_len;
        proof {
            assert(b <= t) by (nonlinear_arith)
                requires
                    b == t % chain_len,
                    chain_len >= 1,
            ;
        }
        let mut list: Vec<AngleEntry> = Vec::new();
        if chain_len >= 3 && b > 0 && b < chain_len - 1 {
            list.push(AngleEntry { tag_i: (t - 1) as u32, tag_k: (t + 1) as u32, angle_type: 0 });
        }
        proof {
            assert(list@ =~= bead_angles(t as int, chain_len as int));
        }
        angles.push(list);
        t = t + 1;
    }
    angles
}


/// Every triple of consecutive beads of a chain gives one angle, on its
/// central bead: for chain `k` of `len` beads, the inner bead at position `b`
/// (`0 < b < len - 1`) carries exactly the angle over beads `b - 1` and
/// `b + 1` of the same chain, and the two chain ends carry none.
pub proof fn lemma_chain_angle_placement(k: int, b: int, len: int)
    requires
        0 <= k,
        0 <= b < len,
    ensures
        0 < b < len - 1 ==> bead_angles(k * len + b, len) == seq![
            AngleEntry { tag_i: (k * len + b - 1) as u32, tag_k: (k * len + b + 1) as u32, angle_type: 0 },
        ],
        b == 0 || b == len - 1 ==> bead_angles(k * len + b, len) == Seq::<AngleEntry>::empty(),
{
    vstd::arithmetic::div_mod::lemma_fundamental_div_mod_converse(k * len + b, len, k, b);
}


// ── Created chains are found again ─────────────────────────────────────────

/// Tags of chain `k` among chains of `len` beads with consecutive tags.
pub open spec fn created_chain(k: int, len: int) -> Seq<u32> {
    Seq::new(len as nat, |b: int| (k * len + b) as u32)
}

/// The `n` chains of `len` beads with consecutive tags.
pub open spec fn created_chains(n: int, len: int) -> Seq<Seq<u32>> {
    Seq::new(n as nat, |k: int| created_chain(k, len))
}

/// Atoms `0..n·len` carry the tags `0..n·len` in order, and their bonds are
/// those of `n` chains of `len` beads (as `chain_topology` creates them).
pub open spec fn created_layout(tags: Seq<u32>, bonds: Seq<Vec<u32>>, n: int, len: int) -> bool {
    &&& len >= 2
    &&& n >= 0
    &&& n * len <= u32::MAX
    &&& tags.len() == n * len
    &&& bonds.len() == n * len
    &&& forall|i: int| 0 <= i < n * len ==> #[trigger] tags[i] == i
    &&& forall|t: int| 0 <= t < n * len ==> (#[trigger] bonds[t])@ == bead_partners(t, len)
}

spec fn tags_below(b: int) -> Set<u32> {
    Set::new(|x: u32| (x as int) < b)
}

spec fn created_ends(n: int, len: int) -> Seq<u32> {
    Seq::new(
        (2 * n) as nat,
        |j: int|
            if j % 2 == 0 {
                ((j / 2) * len) as u32
            } else {
                ((j / 2) * len + len - 1) as u32
            },
    )
}

proof fn lemma_created_partners_upto(tags: Seq<u32>, bonds: Seq<Vec<u32>>, n: int, len: int, k: int, t: u32)
    requires
        created_layout(tags, bonds, n, len),
        0 <= k <= n * len,
    ensures
        partners_upto(tags, bonds, k, t) == if (t as int) < k {
            bonds[t as int]@
        } else {
            Seq::<u32>::empty()
        },
    decreases k,
{
    if k > 0 {
        lemma_created_partners_upto(tags, bonds, n, len, k - 1, t);
        assert(tags[k - 1] == k - 1);
        let prev = partners_upto(tags, bonds, k - 1, t);
        if (t as int) < k - 1 {
            assert(prev + Seq::<u32>::empty() =~= prev);
        } else if (t as int) == k - 1 {
            assert(Seq::<u32>::empty() + bonds[k - 1]@ =~= bonds[k - 1]@);
        } else {
            assert(Seq::<u32>::empty() + Seq::<u32>::empty() =~= Seq::<u32>::empty());
        }
    }
}

proof fn lemma_created_partners(tags: Seq<u32>, bonds: Seq<Vec<u32>>, n: int, len: int, t: u32)
    requires
        created_layout(tags, bonds, n, len),
    ensures
        partners(tags, bonds, n * len, t) == if (t as int) < n * len {
            bead_partners(t as int, len)
        } else {
            Seq::<u32>::empty()
        },
{
    lemma_created_partners_upto(tags, bonds, n, len, n * len, t);
}

proof fn lemma_split(k: int, len: int, j: int)
    requires
        len >= 1,
        0 <= j < len,
    ensures
        (k * len + j) % len == j,
        (k * len + j) / len == k,
{
    vstd::arithmetic::div_mod::lemma_fundamental_div_mod_converse(k * len + j, len, k, j);
}

proof fn lemma_in_chain_range(k: int, n: int, len: int, j: int)
    requires
        0 <= k < n,
        len >= 1,
        0 <= j < len,
    ensures
        0 <= k * len + j < n * len,
        k * len + len <= n * len,
{
    assert(k * len + len <= n * len) by (nonlinear_arith)
        requires
            k < n,
            len >= 1,
    ;
    assert(0 <= k * len) by (nonlinear_arith)
        requires
            0 <= k,
            len >= 1,
    ;
}

proof fn lemma_created_walk(tags: Seq<u32>, bonds: Seq<Vec<u32>>, n: int, len: int, k: int, j: int)
    requires
        created_layout(tags, bonds, n, len),
        0 <= k < n,
        0 <= j < len,
    ensures
        walk(
            tags,
            bonds,
            n * len,
            tags_below(k * len + j + 1),
            (k * len + j) as u32,
            created_chain(k, len).take(j + 1),
        ) == (created_chain(k, len), tags_below((k + 1) * len)),
    decreases len - j,
{
    let t = k * len + j;
    lemma_in_chain_range(k, n, len, j);
    lemma_split(k, len, j);
    assert((k + 1) * len == k * len + len) by (nonlinear_arith);
    let vis = tags_below(t + 1);
    let chain = created_chain(k, len).take(j + 1);
    lemma_created_partners(tags, bonds, n, len, t as u32);
    let p = partners(tags, bonds, n * len, t as u32);
    assert(p == bead_partners(t, len));
    if j == len - 1 {
        assert(p =~= seq![(t - 1) as u32]);
        assert(vis.contains((t - 1) as u32));
        assert(p.drop_first().len() == 0);
        assert(first_unvisited(p.drop_first(), vis) is None);
        assert(first_unvisited(p, vis) is None);
        assert(chain =~= created_chain(k, len));
        assert(vis =~= tags_below((k + 1) * len));
    } else {
        let nx = (t + 1) as u32;
        if j == 0 {
            assert(p =~= seq![nx]);
        } else {
            assert(p =~= seq![(t - 1) as u32, nx]);
            assert(vis.contains((t - 1) as u32));
            assert(p.drop_first() =~= seq![nx]);
            assert(!vis.contains(nx));
            assert(first_unvisited(p.drop_first(), vis) == Some(nx));
        }
        assert(!vis.contains(nx));
        assert(first_unvisited(p, vis) == Some(nx));
        lemma_created_walk(tags, bonds, n, len, k, j + 1);
        assert(vis.insert(nx) =~= tags_below(k * len + (j + 1) + 1));
        assert(chain.push(nx) =~= created_chain(k, len).take(j + 2));
    }
}

proof fn lemma_created_ends(tags: Seq<u32>, bonds: Seq<Vec<u32>>, n: int, len: int)
    requires
        created_layout(tags, bonds, n, len),
    ensures
        sorted_chain_ends(tags, bonds, n * len, created_ends(n, len)),
{
    let e = created_ends(n, len);
    assert forall|j: int| 0 <= j < e.len() implies (#[trigger] e[j]) as int == (if j % 2 == 0 {
        (j / 2) * len
    } else {
        (j / 2) * len + len - 1
    }) && 0 <= e[j] < n * len by {
        lemma_in_chain_range(j / 2, n, len, 0);
        lemma_in_chain_range(j / 2, n, len, len - 1);
    }
    assert forall|i: int, j: int| 0 <= i < j < e.len() implies e[i] < e[j] by {
        let qi = i / 2;
        let qj = j / 2;
        if qi < qj {
            assert(qi * len + len <= qj * len) by (nonlinear_arith)
                requires
                    qi < qj,
                    len >= 1,
            ;
        } else {
            assert(qi == qj);
            assert(i % 2 == 0 && j % 2 == 1);
        }
    }
    assert forall|t: u32| e.contains(t) <==> is_chain_end(tags, bonds, n * len, t) by {
        lemma_created_partners(tags, bonds, n, len, t);
        if e.contains(t) {
            let j = choose|j: int| 0 <= j < e.len() && e[j] == t;
            let q = j / 2;
            if j % 2 == 0 {
                lemma_split(q, len, 0);
            } else {
                lemma_split(q, len, len - 1);
            }
        }
        if is_chain_end(tags, bonds, n * len, t) {
            let ti = t as int;
            let q = ti / len;
            let r = ti % len;
            vstd::arithmetic::div_mod::lemma_fundamental_div_mod(ti, len);
            assert(ti == q * len + r) by (nonlinear_arith)
                requires
                    ti == len * q + r,
            ;
            assert(q < n) by (nonlinear_arith)
                requires
                    ti == q * len + r,
                    0 <= r,
                    ti < n * len,
                    len >= 1,
            ;
            assert(0 <= q) by (nonlinear_arith)
                requires
                    ti == q * len + r,
                    r < len,
                    ti >= 0,
                    len >= 1,
            ;
            if r == 0 {
                assert(e[2 * q] == t);
            } else {
                assert(r == len - 1);
                assert(e[2 * q + 1] == t);
            }
        }
    }
}

proof fn lemma_created_chains_upto(tags: Seq<u32>, bonds: Seq<Vec<u32>>, n: int, len: int, k: int)
    requires
        created_layout(tags, bonds, n, len),
        0 <= k <= n,
    ensures
        chains_upto(tags, bonds, n * len, created_ends(n, len), 2 * k) == (created_chains(k, len), tags_below(k * len)),
    decreases k,
{
    let e = created_ends(n, len);
    if k == 0 {
        assert(created_chains(0, len) =~= Seq::<Seq<u32>>::empty());
        assert(tags_below(0) =~= Set::<u32>::empty());
    } else {
        let p = k - 1;
        lemma_created_chains_upto(tags, bonds, n, len, p);
        lemma_in_chain_range(p, n, len, 0);
        lemma_in_chain_range(p, n, len, len - 1);
        assert((p + 1) * len == p * len + len) by (nonlinear_arith);
        assert(e[2 * p] == (p * len) as u32);
        assert(e[2 * p + 1] == (p * len + len - 1) as u32);
        let s = e[2 * p];
        assert(!tags_below(p * len).contains(s));
        lemma_created_walk(tags, bonds, n, len, p, 0);
        assert(tags_below(p * len).insert(s) =~= tags_below(p * len + 0 + 1));
        assert(created_chain(p, len).take(1) =~= seq![s]);
        assert(created_chains(p, len).push(created_chain(p, len)) =~= created_chains(k, len));
        assert(s == (p * len + 0) as u32);
        let w = walk(tags, bonds, n * len, tags_below(p * len).insert(s), s, seq![s]);
        assert(w == (created_chain(p, len), tags_below(k * len)));
        assert(created_chain(p, len).len() >= 2);
        let mid = chains_upto(tags, bonds, n * len, e, 2 * p + 1);
        assert(mid == (created_chains(k, len), tags_below(k * len)));
        assert(tags_below(k * len).contains(e[2 * p + 1]));
    }
}

/// Chains laid out as `chain_topology` creates them (tags in order, each bead
/// bonded to its neighbours in the chain) are found again by chain discovery:
/// the discovered chains are exactly the created ones, in order.
pub proof fn lemma_created_chains_rediscovered(tags: Seq<u32>, bonds: Seq<Vec<u32>>, n: int, len: int, e: Seq<u32>)
    requires
        created_layout(tags, bonds, n, len),
        sorted_chain_ends(tags, bonds, n * len, e),
    ensures
        chains_upto(tags, bonds, n * len, e, e.len() as int).0 == created_chains(n, len),
{
    lemma_created_ends(tags, bonds, n, len);
    lemma_chain_ends_unique(tags, bonds, n * len, e, created_ends(n, len));
    lemma_created_chains_upto(tags, bonds, n, len, n);
}

} // verus!
