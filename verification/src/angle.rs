//! Per-atom angle (3-body) topology storage for bond angle potentials.
//!
//! Angles travel between ranks as flat word buffers: for one atom, the number
//! of its angles followed by `(tag_i, tag_k, angle_type)` per angle.

use vstd::prelude::*;

verus! {

/// One angle i—j—k, stored on its central atom j.
#[derive(Clone, Copy, Debug, PartialEq, Eq, Structural)]
pub struct AngleEntry {
    /// Global tag of the first end atom.
    pub tag_i: u32,
    /// Global tag of the second end atom.
    pub tag_k: u32,
    /// Angle type index (for coefficient lookups).
    pub angle_type: u32,
}

/// Per-atom angle lists, indexed by local atom index; each atom holds the
/// angles of which it is the central atom.
pub struct AngleStore {
    pub angles: Vec<Vec<AngleEntry>>,
}

/// The words of one angle.
pub open spec fn entry_words(e: AngleEntry) -> Seq<u64> {
    seq![e.tag_i as u64, e.tag_k as u64, e.angle_type as u64]
}

/// The words of a list of angles, angle after angle.
pub open spec fn entries_words(l: Seq<AngleEntry>) -> Seq<u64>
    decreases l.len(),
{
    if l.len() == 0 {
        Seq::empty()
    } else {
        entries_words(l.drop_last()) + entry_words(l.last())
    }
}

/// Packed form of an atom's angle list: its length, then its angles.
pub open spec fn packed_list(l: Seq<AngleEntry>) -> Seq<u64> {
    seq![l.len() as u64] + entries_words(l)
}

proof fn lemma_entries_words_len(l: Seq<AngleEntry>)
    ensures
        entries_words(l).len() == 3 * l.len(),
    decreases l.len(),
{
    if l.len() > 0 {
        lemma_entries_words_len(l.drop_last());
    }
}

proof fn lemma_entries_words_index(l: Seq<AngleEntry>, k: int)
    requires
        0 <= k < l.len(),
    ensures
        entries_words(l)[3 * k] == l[k].tag_i as u64,
        entries_words(l)[3 * k + 1] == l[k].tag_k as u64,
        entries_words(l)[3 * k + 2] == l[k].angle_type as u64,
    decreases l.len(),
{
    lemma_entries_words_len(l.drop_last());
    if k < l.len() - 1 {
        lemma_entries_words_index(l.drop_last(), k);
    }
}


/// A packed word read back as a 32-bit value: the word itself, or the largest
/// 32-bit value when it does not fit.
pub open spec fn saturated(w: u64) -> u32 {
    if w > u32::MAX {
        u32::MAX
    } else {
        w as u32
    }
}

/// The angle `c` that unpacking reads from the words after the count.
pub open spec fn unpacked_entry(buf: Seq<u64>, c: int) -> AngleEntry {
    AngleEntry {
        tag_i: saturated(buf[1 + 3 * c]),
        tag_k: saturated(buf[2 + 3 * c]),
        angle_type: saturated(buf[3 + 3 * c]),
    }
}

/// The words after the count, up to `end`, all fit in 32 bits.
pub open spec fn words_fit(buf: Seq<u64>, end: int) -> bool {
    forall|p: int| 1 <= p < end ==> #[trigger] buf[p] <= u32::MAX
}

fn saturate_word(w: u64) -> (r: u32)
    ensures
        r == saturated(w),
{
    if w > 0xffff_ffff {
        0xffff_ffff
    } else {
        w as u32
    }
}

fn copy_list(l: &Vec<AngleEntry>) -> (r: Vec<AngleEntry>)
    ensures
        r@ == l@,
{
    let mut r: Vec<AngleEntry> = Vec::new();
    let mut k: usize = 0;
    while k < l.len()
        invariant
            k <= l.len(),
            r@ == l@.take(k as int),
        decreases l.len() - k,
    {
        r.push(l[k]);
        proof {
            assert(r@ =~= l@.take(k + 1));
        }
        k = k + 1;
    }
    proof {
        assert(l@.take(l.len() as int) =~= l@);
    }
    r
}

impl AngleStore {
    /// A store without atoms.
    pub fn new() -> (s: Self)
        ensures
            s.angles@.len() == 0,
    {
        AngleStore { angles: Vec::new() }
    }

    /// Resizes to `n` atoms: atoms beyond `n` are dropped, new atoms get no angles.
    pub fn truncate(&mut self, n: usize)
        ensures
            final(self).angles@.len() == n,
            forall|i: int| 0 <= i < n && i < old(self).angles@.len() ==> #[trigger] final(self).angles@[i] == old(self).angles@[i],
            forall|i: int| old(self).angles@.len() <= i < n ==> (#[trigger] final(self).angles@[i])@.len() == 0,
    {
        if self.angles.len() > n {
            self.angles.truncate(n);
        } else {
            let ghost start = self.angles@;
            while self.angles.len() < n
                invariant
                    start.len() <= self.angles@.len() <= n,
                    forall|i: int| 0 <= i < start.len() ==> #[trigger] self.angles@[i] == start[i],
                    forall|i: int| start.len() <= i < self.angles@.len() ==> (#[trigger] self.angles@[i])@.len() == 0,
                decreases n - self.angles@.len(),
            {
                self.angles.push(Vec::new());
            }
        }
    }

    /// Removes atom `i` by moving the last atom into its place (no effect when
    /// `i` is out of range).
    pub fn swap_remove(&mut self, i: usize)
        ensures
            i < old(self).angles@.len() ==> final(self).angles@ == old(self).angles@.update(
                i as int,
                old(self).angles@.last(),
            ).drop_last(),
            i >= old(self).angles@.len() ==> final(self).angles@ == old(self).angles@,
    {
        if i < self.angles.len() {
            self.angles.swap_remove(i);
        }
    }

    /// Reorders the first `n` atoms so that atom `k` gets the angles of atom `perm[k]`.
    pub fn apply_permutation(&mut self, perm: &[usize], n: usize)
        requires
            perm@.len() == n,
            n <= old(self).angles@.len(),
            forall|k: int| 0 <= k < n ==> #[trigger] perm@[k] < old(self).angles@.len(),
        ensures
            final(self).angles@.len() == old(self).angles@.len(),
            forall|k: int| 0 <= k < n ==> (#[trigger] final(self).angles@[k])@ == old(self).angles@[perm@[k] as int]@,
            forall|k: int| n <= k < old(self).angles@.len() ==> #[trigger] final(self).angles@[k] == old(self).angles@[k],
    {
        let ghost orig = self.angles@;
        let mut new_angles: Vec<Vec<AngleEntry>> = Vec::new();
        let mut k: usize = 0;
        while k < n
            invariant
                perm@.len() == n,
                n <= orig.len(),
                self.angles@ == orig,
                forall|q: int| 0 <= q < n ==> #[trigger] perm@[q] < orig.len(),
                k <= n,
                new_angles@.len() == k,
                forall|q: int| 0 <= q < k ==> (#[trigger] new_angles@[q])@ == orig[perm@[q] as int]@,
            decreases n - k,
        {
            new_angles.push(copy_list(&self.angles[perm[k]]));
            k = k + 1;
        }
        let mut k: usize = 0;
        while k < n
            invariant
                n <= orig.len(),
                self.angles@.len() == orig.len(),
                new_angles@.len() == n,
                k <= n,
                forall|q: int| 0 <= q < n ==> (#[trigger] new_angles@[q])@ == orig[perm@[q] as int]@,
                forall|q: int| 0 <= q < k ==> (#[trigger] self.angles@[q])@ == orig[perm@[q] as int]@,
                forall|q: int| k <= q < orig.len() ==> #[trigger] self.angles@[q] == orig[q],
            decreases n - k,
        {
            let l = copy_list(&new_angles[k]);
            self.angles.set(k, l);
            k = k + 1;
        }
    }

    /// Appends the packed angle list of atom `i` to `buf` (a count of zero when
    /// the store has no atom `i`).
    pub fn pack(&self, i: usize, buf: &mut Vec<u64>)
        ensures
            i < self.angles@.len() ==> final(buf)@ == old(buf)@ + packed_list(self.angles@[i as int]@),
            i >= self.angles@.len() ==> final(buf)@ == old(buf)@.push(0),
    {
        if i < self.angles.len() {
            let list = &self.angles[i];
            let ghost start = buf@;
            buf.push(list.len() as u64);
            let mut k: usize = 0;
            while k < list.len()
                invariant
                    k <= list.len(),
                    buf@ == start + seq![list@.len() as u64] + entries_words(list@.take(k as int)),
                decreases list.len() - k,
            {
                let e = list[k];
                buf.push(e.tag_i as u64);
                buf.push(e.tag_k as u64);
                buf.push(e.angle_type as u64);
                proof {
                    assert(list@.take(k + 1).drop_last() =~= list@.take(k as int));
                    assert(buf@ =~= start + seq![list@.len() as u64] + entries_words(list@.take(k + 1)));
                }
                k = k + 1;
            }
            proof {
                assert(list@.take(list.len() as int) =~= list@);
                assert(buf@ =~= start + packed_list(list@));
            }
        } else {
            buf.push(0);
        }
    }

    /// Reads one packed angle list from the front of `buf`, appends it as a new
    /// atom and returns the number of words read. A word too large for 32 bits
    /// is read as the largest 32-bit value.
    pub fn unpack(&mut self, buf: &[u64]) -> (consumed: usize)
        requires
            buf@.len() >= 1,
            buf@[0] <= (usize::MAX - 1) / 3,
            buf@.len() >= 1 + 3 * buf@[0],
        ensures
            consumed == 1 + 3 * buf@[0],
            final(self).angles@.len() == old(self).angles@.len() + 1,
            final(self).angles@.drop_last() == old(self).angles@,
            final(self).angles@.last()@.len() == buf@[0],
            forall|c: int| 0 <= c < buf@[0] ==> #[trigger] final(self).angles@.last()@[c] == unpacked_entry(buf@, c),
            words_fit(buf@, consumed as int) ==> packed_list(final(self).angles@.last()@) == buf@.take(consumed as int),
    {
        let count = buf[0] as usize;
        let ghost fits = words_fit(buf@, 1 + 3 * count);
        let mut list: Vec<AngleEntry> = Vec::new();
        let mut pos: usize = 1;
        let mut c: usize = 0;
        while c < count
            invariant
                count == buf@[0],
                count <= (usize::MAX - 1) / 3,
                buf@.len() >= 1 + 3 * count,
                fits == words_fit(buf@, 1 + 3 * count),
                c <= count,
                pos == 1 + 3 * c,
                list@.len() == c,
                forall|q: int| 0 <= q < c ==> #[trigger] list@[q] == unpacked_entry(buf@, q),
                fits ==> entries_words(list@) == buf@.subrange(1, pos as int),
            decreases count - c,
        {
            let tag_i = saturate_word(buf[pos]);
            let tag_k = saturate_word(buf[pos + 1]);
            let angle_type = saturate_word(buf[pos + 2]);
            let ghost old_list = list@;
            list.push(AngleEntry { tag_i, tag_k, angle_type });
            proof {
                assert(list@.drop_last() =~= old_list);
                if fits {
                    assert(buf@[pos as int] <= u32::MAX);
                    assert(buf@[pos + 1] <= u32::MAX);
                    assert(buf@[pos + 2] <= u32::MAX);
                    assert(entries_words(list@) =~= buf@.subrange(1, pos + 3));
                }
            }
            pos = pos + 3;
            c = c + 1;
        }
        let ghost l = list@;
        self.angles.push(list);
        proof {
            assert(self.angles@.drop_last() =~= old(self).angles@);
            if fits {
                assert(packed_list(l) =~= buf@.take(pos as int));
            }
        }
        pos
    }
}

/// Unpacking what `pack` wrote for an atom restores that atom's angle list:
/// two lists (of lengths that a count word can hold) with the same packed form
/// are the same list, and the packed form is one count word plus three words
/// per angle.
pub proof fn lemma_pack_unpack_round_trip(l: Seq<AngleEntry>, restored: Seq<AngleEntry>)
    requires
        l.len() <= u64::MAX,
        restored.len() <= u64::MAX,
        packed_list(restored) == packed_list(l),
    ensures
        restored == l,
        packed_list(l).len() == 1 + 3 * l.len(),
{
    lemma_entries_words_len(l);
    lemma_entries_words_len(restored);
    assert(packed_list(l)[0] == l.len() as u64);
    assert(packed_list(restored)[0] == restored.len() as u64);
    assert(packed_list(restored)[0] == packed_list(l)[0]);
    assert(restored.len() == l.len());
    assert(entries_words(restored) =~= packed_list(restored).skip(1));
    assert(entries_words(l) =~= packed_list(l).skip(1));
    assert forall|k: int| 0 <= k < l.len() implies #[trigger] restored[k] == l[k] by {
        lemma_entries_words_index(l, k);
        lemma_entries_words_index(restored, k);
    }
    assert(restored =~= l);
}

/// Registers the angle store among the per-atom data.
pub struct AnglePlugin;

} // verus!
