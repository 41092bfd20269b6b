//! Plugin registration rules: duplicate detection and dependency checks.
//!
//! A dependency is met when some registered plugin name contains it or is
//! contained in it, so both full paths (`"dem_atom::DemAtomPlugin"`) and short
//! names (`"DemAtomPlugin"`) match.

use vstd::prelude::*;
use crate::schedule::same_text;

verus! {

/// `t` occurs in `s` as a contiguous run of characters.
pub open spec fn has_substring(s: Seq<char>, t: Seq<char>) -> bool {
    exists|i: int| 0 <= i && i + t.len() <= s.len() && #[trigger] s.subrange(i, i + t.len()) == t
}

/// Whether `t` occurs in `s` (as `str::contains` with a string pattern).
pub fn contains_text(s: &str, t: &str) -> (r: bool)
    ensures
        r == has_substring(s@, t@),
{
    let n = s.unicode_len();
    let m = t.unicode_len();
    if m > n {
        proof {
            assert forall|i: int| 0 <= i && i + t@.len() <= s@.len() implies #[trigger] s@.subrange(i, i + t@.len()) != t@ by {}
        }
        return false;
    }
    let mut i: usize = 0;
    while i <= n - m
        invariant
            n == s@.len(),
            m == t@.len(),
            m <= n,
            i <= n - m + 1,
            forall|q: int| 0 <= q < i ==> #[trigger] s@.subrange(q, q + m) != t@,
        decreases n - m + 1 - i,
    {
        let mut j: usize = 0;
        let mut same = true;
        while j < m
            invariant
                n == s@.len(),
                m == t@.len(),
                i + m <= n,
                j <= m,
                same == (forall|q: int| 0 <= q < j ==> s@[i + q] == t@[q]),
            decreases m - j,
        {
            if s.get_char(i + j) != t.get_char(j) {
                same = false;
            }
            j = j + 1;
        }
        if same {
            proof {
                assert(s@.subrange(i as int, i + m) =~= t@);
            }
            return true;
        }
        proof {
            let k = choose|q: int| 0 <= q < m && s@[i + q] != t@[q];
            assert(s@.subrange(i as int, i + m)[k] != t@[k]);
        }
        i = i + 1;
    }
    proof {
        assert forall|q: int| 0 <= q && q + t@.len() <= s@.len() implies #[trigger] s@.subrange(q, q + t@.len()) != t@ by {
            assert(q < i);
        }
    }
    false
}

/// A registered plugin name satisfies dependency `dep`.
pub open spec fn satisfies(name: Seq<char>, dep: Seq<char>) -> bool {
    has_substring(name, dep) || has_substring(dep, name)
}

/// Some registered name satisfies dependency `dep`.
pub open spec fn dependency_met(registered: Seq<String>, dep: Seq<char>) -> bool {
    exists|k: int| 0 <= k < registered.len() && satisfies((#[trigger] registered[k])@, dep)
}

fn is_met(registered: &Vec<String>, dep: &str) -> (r: bool)
    ensures
        r == dependency_met(registered@, dep@),
{
    let mut k: usize = 0;
    while k < registered.len()
        invariant
            k <= registered@.len(),
            forall|q: int| 0 <= q < k ==> !satisfies((#[trigger] registered@[q])@, dep@),
        decreases registered.len() - k,
    {
        let name = registered[k].as_str();
        if contains_text(name, dep) || contains_text(dep, name) {
            return true;
        }
        k = k + 1;
    }
    false
}

/// The dependencies of a plugin that no registered plugin meets, in order.
pub fn missing_dependencies(deps: &Vec<String>, registered: &Vec<String>) -> (r: Vec<String>)
    ensures
        r@.map_values(|s: String| s@) == deps@.map_values(|s: String| s@).filter(
            |d: Seq<char>| !dependency_met(registered@, d),
        ),
{
    let ghost f = |d: Seq<char>| !dependency_met(registered@, d);
    let mut r: Vec<String> = Vec::new();
    let mut i: usize = 0;
    while i < deps.len()
        invariant
            i <= deps@.len(),
            f == (|d: Seq<char>| !dependency_met(registered@, d)),
            r@.map_values(|s: String| s@) == deps@.take(i as int).map_values(|s: String| s@).filter(f),
        decreases deps.len() - i,
    {
        let ghost prefix = deps@.take(i as int).map_values(|s: String| s@);
        let ghost before = r@;
        proof {
            assert(deps@.take(i + 1).map_values(|s: String| s@) =~= prefix.push(deps@[i as int]@));
            prefix.lemma_filter_push(deps@[i as int]@, f);
        }
        if !is_met(registered, deps[i].as_str()) {
            r.push(deps[i].clone());
            proof {
                assert(r@.map_values(|s: String| s@) =~= before.map_values(|s: String| s@).push(deps@[i as int]@));
            }
        }
        i = i + 1;
    }
    proof {
        assert(deps@.take(deps@.len() as int) =~= deps@);
    }
    r
}

/// Adding plugin `name` is a duplicate: the plugin is unique and a plugin of
/// that name is already registered.
pub fn is_duplicate_plugin(unique: bool, name: &str, registered: &Vec<String>) -> (r: bool)
    ensures
        r == (unique && exists|k: int| 0 <= k < registered@.len() && (#[trigger] registered@[k])@ == name@),
{
    if !unique {
        return false;
    }
    let mut k: usize = 0;
    while k < registered.len()
        invariant
            unique,
            k <= registered@.len(),
            forall|q: int| 0 <= q < k ==> (#[trigger] registered@[q])@ != name@,
        decreases registered.len() - k,
    {
        if same_text(registered[k].as_str(), name) {
            proof {
                assert(registered@[k as int]@ == name@);
            }
            return true;
        }
        k = k + 1;
    }
    false
}

} // verus!
