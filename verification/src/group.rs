//! Atom groups: named subsets of the local atoms selected by type and region.
//!
//! The registry always starts with the built-in group "all". A group's mask
//! marks the atoms that meet every criterion of its definition: the type list,
//! when there is one, and the region bounds (whose floating-point comparisons
//! the caller evaluates per atom and hands in as flags).

use vstd::prelude::*;
use crate::schedule::same_text;

verus! {

/// Name of the built-in group holding every local atom.
pub open spec fn all_name() -> Seq<char> {
    seq!['a', 'l', 'l']
}

/// Whether `name` is the built-in group's name.
pub fn is_all_name(name: &str) -> (r: bool)
    ensures
        r == (name@ == all_name()),
{
    let all = "all";
    proof {
        reveal_strlit("all");
        assert(all@ =~= all_name());
    }
    same_text(name, all)
}

/// The type list of a filter, as a sequence.
pub open spec fn filter_view(types: Option<Vec<u32>>) -> Option<Seq<u32>> {
    match types {
        Some(t) => Some(t@),
        None => None,
    }
}

/// Atom `i` belongs to a group with type filter `types` and region flags `in_region`.
pub open spec fn member(types: Option<Seq<u32>>, atom_types: Seq<u32>, in_region: Seq<bool>, i: int) -> bool {
    &&& (types matches Some(t) ==> t.contains(atom_types[i]))
    &&& in_region[i]
}

/// Number of `true` flags among the first `k` of `m`.
pub open spec fn count_true(m: Seq<bool>, k: int) -> nat
    decreases k,
{
    if k <= 0 {
        0
    } else {
        count_true(m, k - 1) + if m[k - 1] {
            1nat
        } else {
            0nat
        }
    }
}

proof fn lemma_count_true_le(m: Seq<bool>, k: int)
    requires
        0 <= k,
    ensures
        count_true(m, k) <= k,
    decreases k,
{
    if k > 0 {
        lemma_count_true_le(m, k - 1);
    }
}

fn contains_u32(v: &Vec<u32>, x: u32) -> (r: bool)
    ensures
        r == v@.contains(x),
{
    let mut k: usize = 0;
    while k < v.len()
        invariant
            k <= v.len(),
            forall|j: int| 0 <= j < k ==> v@[j] != x,
        decreases v.len() - k,
    {
        if v[k] == x {
            return true;
        }
        k = k + 1;
    }
    false
}

/// The mask of a group over the first `nlocal` atoms and the number of its
/// members. The group "all" (`is_all`) holds every atom; any other group holds
/// the atoms that pass its type filter and lie in its region.
pub fn group_mask(
    is_all: bool,
    types: &Option<Vec<u32>>,
    atom_types: &[u32],
    in_region: &[bool],
    nlocal: usize,
) -> (r: (Vec<bool>, usize))
    requires
        is_all || atom_types@.len() >= nlocal,
        is_all || in_region@.len() >= nlocal,
    ensures
        r.0@.len() == nlocal,
        forall|i: int|
            0 <= i < nlocal ==> #[trigger] r.0@[i] == (is_all || member(
                filter_view(*types),
                atom_types@,
                in_region@,
                i,
            )),
        r.1 == count_true(r.0@, nlocal as int),
{
    let ghost filter: Option<Seq<u32>> = filter_view(*types);
    let mut mask: Vec<bool> = Vec::new();
    let mut count: usize = 0;
    let mut i: usize = 0;
    while i < nlocal
        invariant
            is_all || atom_types@.len() >= nlocal,
            is_all || in_region@.len() >= nlocal,
            filter == filter_view(*types),
            i <= nlocal,
            mask@.len() == i,
            forall|j: int| 0 <= j < i ==> #[trigger] mask@[j] == (is_all || member(filter, atom_types@, in_region@, j)),
            count == count_true(mask@, i as int),
            count <= i,
        decreases nlocal - i,
    {
        let m = if is_all {
            true
        } else {
            let type_ok = match types {
                Some(t) => contains_u32(t, atom_types[i]),
                None => true,
            };
            type_ok && in_region[i]
        };
        let ghost prev = mask@;
        mask.push(m);
        proof {
            lemma_count_true_prefix(mask@, prev, i as int);
        }
        if m {
            count = count + 1;
        }
        i = i + 1;
    }
    (mask, count)
}

proof fn lemma_count_true_prefix(a: Seq<bool>, b: Seq<bool>, k: int)
    requires
        0 <= k <= a.len(),
        k <= b.len(),
        forall|j: int| 0 <= j < k ==> a[j] == b[j],
    ensures
        count_true(a, k) == count_true(b, k),
    decreases k,
{
    if k > 0 {
        lemma_count_true_prefix(a, b, k - 1);
    }
}

/// Position of the first group named `name`, if any.
pub fn find_group(names: &Vec<String>, name: &str) -> (r: Option<usize>)
    ensures
        match r {
            Some(i) => i < names@.len() && names@[i as int]@ == name@ && forall|j: int|
                0 <= j < i ==> (#[trigger] names@[j])@ != name@,
            None => forall|j: int| 0 <= j < names@.len() ==> (#[trigger] names@[j])@ != name@,
        },
{
    let mut k: usize = 0;
    while k < names.len()
        invariant
            k <= names@.len(),
            forall|j: int| 0 <= j < k ==> (#[trigger] names@[j])@ != name@,
        decreases names.len() - k,
    {
        if same_text(names[k].as_str(), name) {
            return Some(k);
        }
        k = k + 1;
    }
    None
}

/// Names of the registered groups for the configured group names `defined`:
/// the built-in "all" first, then each configured name in order, except any
/// configured "all", which cannot be redefined and is skipped. The second
/// result is the number of skipped definitions (each earns a warning).
pub fn registered_group_names(defined: &Vec<String>) -> (r: (Vec<String>, usize))
    ensures
        r.0@.len() >= 1,
        r.0@[0]@ == all_name(),
        r.0@.len() - 1 + r.1 == defined@.len(),
        r.0@.skip(1).map_values(|s: String| s@) == defined@.map_values(|s: String| s@).filter(
            |s: Seq<char>| s != all_name(),
        ),
{
    let mut names: Vec<String> = Vec::new();
    let all = "all";
    proof {
        reveal_strlit("all");
    }
    names.push(all.to_owned());
    let mut skipped: usize = 0;
    let mut k: usize = 0;
    let ghost f = |s: Seq<char>| s != all_name();
    while k < defined.len()
        invariant
            k <= defined@.len(),
            names@.len() >= 1,
            names@[0]@ == all_name(),
            names@.len() - 1 + skipped == k,
            f == (|s: Seq<char>| s != all_name()),
            names@.skip(1).map_values(|s: String| s@) == defined@.take(k as int).map_values(|s: String| s@).filter(f),
        decreases defined.len() - k,
    {
        let ghost before = names@;
        let ghost prefix = defined@.take(k as int).map_values(|s: String| s@);
        let ghost next = defined@.take(k + 1).map_values(|s: String| s@);
        proof {
            assert(next.drop_last() =~= prefix);
            assert(next.last() == defined@[k as int]@);
            prefix.lemma_filter_push(defined@[k as int]@, f);
            assert(next =~= prefix.push(defined@[k as int]@));
        }
        if is_all_name(defined[k].as_str()) {
            skipped = skipped + 1;
        } else {
            names.push(defined[k].clone());
            proof {
                assert(names@.skip(1).map_values(|s: String| s@) =~= before.skip(1).map_values(
                    |s: String| s@,
                ).push(defined@[k as int]@));
            }
        }
        k = k + 1;
    }
    proof {
        assert(defined@.take(defined@.len() as int) =~= defined@);
    }
    (names, skipped)
}

/// Registers the group setup and per-step mask rebuild systems.
pub struct GroupPlugin;

} // verus!
