//! Which restart file a process reads: among the files named
//! `restart_{step}_rank{rank}.{ext}` for its rank and the configured format,
//! the one with the highest step.

use vstd::prelude::*;
use crate::schedule::same_text;

verus! {

/// `p` ends at position `end` of `t`.
pub open spec fn ends_at(t: Seq<char>, end: int, p: Seq<char>) -> bool {
    p.len() <= end <= t.len() && t.subrange(end - p.len(), end) == p
}

/// The decimal digit `d` (`0 <= d < 10`).
pub open spec fn digit_char(d: int) -> char {
    if d == 0 {
        '0'
    } else if d == 1 {
        '1'
    } else if d == 2 {
        '2'
    } else if d == 3 {
        '3'
    } else if d == 4 {
        '4'
    } else if d == 5 {
        '5'
    } else if d == 6 {
        '6'
    } else if d == 7 {
        '7'
    } else if d == 8 {
        '8'
    } else {
        '9'
    }
}

/// The value of a decimal digit character, or -1 for any other character.
pub open spec fn char_digit(c: char) -> int {
    if c == '0' {
        0
    } else if c == '1' {
        1
    } else if c == '2' {
        2
    } else if c == '3' {
        3
    } else if c == '4' {
        4
    } else if c == '5' {
        5
    } else if c == '6' {
        6
    } else if c == '7' {
        7
    } else if c == '8' {
        8
    } else if c == '9' {
        9
    } else {
        -1
    }
}

/// The decimal text of `n`, without leading zeros.
pub open spec fn nat_text(n: nat) -> Seq<char>
    decreases n,
{
    if n < 10 {
        seq![digit_char(n as int)]
    } else {
        nat_text(n / 10) + seq![digit_char((n % 10) as int)]
    }
}

/// The decimal text of `r`, with a leading `-` when it is negative.
pub open spec fn int_text(r: int) -> Seq<char> {
    if r < 0 {
        seq!['-'] + nat_text((-r) as nat)
    } else {
        nat_text(r as nat)
    }
}

/// All characters of `s` are decimal digits.
pub open spec fn all_digits(s: Seq<char>) -> bool {
    forall|i: int| 0 <= i < s.len() ==> 0 <= #[trigger] char_digit(s[i])
}

/// The value of a text of decimal digits.
pub open spec fn digits_value(s: Seq<char>) -> nat
    decreases s.len(),
{
    if s.len() == 0 {
        0
    } else {
        digits_value(s.drop_last()) * 10 + char_digit(s.last()) as nat
    }
}

/// The digits of an unsigned number text: the text after one optional `+`.
pub open spec fn unsigned_digits(s: Seq<char>) -> Seq<char> {
    if s.len() > 0 && s[0] == '+' {
        s.subrange(1, s.len() as int)
    } else {
        s
    }
}

/// `s` read as a `usize`: one or more decimal digits after an optional `+`,
/// of a value that fits.
pub open spec fn usize_text_value(s: Seq<char>) -> Option<usize> {
    let d = unsigned_digits(s);
    if d.len() > 0 && all_digits(d) && digits_value(d) <= usize::MAX {
        Some(digits_value(d) as usize)
    } else {
        None
    }
}

/// The file extension of a restart format: `json` for `"json"`, `bin` otherwise.
pub open spec fn restart_ext(format: Seq<char>) -> Seq<char> {
    if format == "json"@ {
        "json"@
    } else {
        "bin"@
    }
}

/// The end of the name of a restart file of `rank` in `format`.
pub open spec fn restart_suffix(rank: int, format: Seq<char>) -> Seq<char> {
    "_rank"@ + int_text(rank) + "."@ + restart_ext(format)
}

/// The name `t` starts with `restart_` and ends with the suffix of `rank` and
/// `format`, the two overlapping (a name the step cannot be cut out of).
pub open spec fn restart_name_overlaps(t: Seq<char>, rank: int, format: Seq<char>) -> bool {
    &&& ends_at(t, "restart_"@.len() as int, "restart_"@)
    &&& ends_at(t, t.len() as int, restart_suffix(rank, format))
    &&& "restart_"@.len() + restart_suffix(rank, format).len() > t.len()
}

/// The step of the restart file named `t` for `rank` and `format`: the text
/// between `restart_` and the suffix read as a `usize`; `None` for any other name.
pub open spec fn restart_step_spec(t: Seq<char>, rank: int, format: Seq<char>) -> Option<usize> {
    let p = "restart_"@;
    let s = restart_suffix(rank, format);
    if ends_at(t, p.len() as int, p) && ends_at(t, t.len() as int, s) && p.len() + s.len() <= t.len() {
        usize_text_value(t.subrange(p.len() as int, t.len() - s.len()))
    } else {
        None
    }
}

/// The highest step among the restart files of the first `m` names, if any
/// (the first name with that step is the one kept).
pub open spec fn latest_step_upto(names: Seq<String>, m: int, rank: int, format: Seq<char>) -> Option<usize>
    decreases m,
{
    if m <= 0 {
        None
    } else {
        let prev = latest_step_upto(names, m - 1, rank, format);
        match restart_step_spec(names[m - 1]@, rank, format) {
            Some(s) => match prev {
                Some(p) => if s > p {
                    Some(s)
                } else {
                    prev
                },
                None => Some(s),
            },
            None => prev,
        }
    }
}

proof fn lemma_ends_at_concat(t: Seq<char>, end: int, a: Seq<char>, b: Seq<char>)
    ensures
        ends_at(t, end, a + b) <==> (ends_at(t, end, b) && ends_at(t, end - b.len(), a)),
{
    let ab = a + b;
    if ends_at(t, end, ab) {
        assert(t.subrange(end - b.len(), end) =~= b) by {
            assert forall|i: int| 0 <= i < b.len() implies t.subrange(end - b.len(), end)[i] == b[i] by {
                assert(t.subrange(end - ab.len(), end)[a.len() + i] == ab[a.len() + i]);
            }
        }
        assert(t.subrange(end - b.len() - a.len(), end - b.len()) =~= a) by {
            assert forall|i: int| 0 <= i < a.len() implies t.subrange(end - b.len() - a.len(), end - b.len())[i] == a[i] by {
                assert(t.subrange(end - ab.len(), end)[i] == ab[i]);
            }
        }
    }
    if ends_at(t, end, b) && ends_at(t, end - b.len(), a) {
        assert(t.subrange(end - ab.len(), end) =~= ab) by {
            assert forall|i: int| 0 <= i < ab.len() implies t.subrange(end - ab.len(), end)[i] == ab[i] by {
                if i < a.len() {
                    assert(t.subrange(end - b.len() - a.len(), end - b.len())[i] == a[i]);
                } else {
                    assert(t.subrange(end - b.len(), end)[i - a.len()] == b[i - a.len()]);
                }
            }
        }
    }
}

/// Whether the text `p` ends at position `end` of `t`.
fn ends_at_exec(t: &str, end: usize, p: &str) -> (r: bool)
    requires
        end <= t@.len(),
    ensures
        r == ends_at(t@, end as int, p@),
{
    let m = p.unicode_len();
    if m > end {
        return false;
    }
    let start = end - m;
    let mut i: usize = 0;
    while i < m
        invariant
            m == p@.len(),
            start + m == end <= t@.len(),
            i <= m,
            forall|q: int| 0 <= q < i ==> t@[start + q] == p@[q],
        decreases m - i,
    {
        if t.get_char(start + i) != p.get_char(i) {
            proof {
                assert(t@.subrange(start as int, end as int)[i as int] != p@[i as int]);
            }
            return false;
        }
        i = i + 1;
    }
    proof {
        assert(t@.subrange(start as int, end as int) =~= p@);
    }
    true
}

fn digit_exec(d: u32) -> (c: char)
    requires
        d < 10,
    ensures
        c == digit_char(d as int),
{
    match d {
        0 => '0',
        1 => '1',
        2 => '2',
        3 => '3',
        4 => '4',
        5 => '5',
        6 => '6',
        7 => '7',
        8 => '8',
        _ => '9',
    }
}

fn char_digit_exec(c: char) -> (d: i32)
    ensures
        d == char_digit(c),
{
    match c {
        '0' => 0,
        '1' => 1,
        '2' => 2,
        '3' => 3,
        '4' => 4,
        '5' => 5,
        '6' => 6,
        '7' => 7,
        '8' => 8,
        '9' => 9,
        _ => -1,
    }
}

/// Where the decimal text of `n` starts when it ends at `end` of `t`, if it does.
fn nat_text_start(t: &str, end: usize, n: u32) -> (r: Option<usize>)
    requires
        end <= t@.len(),
    ensures
        r == if ends_at(t@, end as int, nat_text(n as nat)) {
            Some((end - nat_text(n as nat).len()) as usize)
        } else {
            None::<usize>
        },
    decreases n,
{
    if end == 0 {
        proof {
            if n >= 10 {
                lemma_ends_at_concat(t@, end as int, nat_text((n / 10) as nat), seq![digit_char((n % 10) as int)]);
            }
        }
        return None;
    }
    let last = t.get_char(end - 1);
    let d = digit_exec(n % 10);
    proof {
        let one = seq![digit_char((n % 10) as int)];
        assert(ends_at(t@, end as int, one) <==> last == digit_char((n % 10) as int)) by {
            if last == digit_char((n % 10) as int) {
                assert(t@.subrange(end - 1, end as int) =~= one);
            }
            if ends_at(t@, end as int, one) {
                assert(t@.subrange(end - 1, end as int)[0] == one[0]);
            }
        }
        if n >= 10 {
            lemma_ends_at_concat(t@, end as int, nat_text((n / 10) as nat), one);
        }
    }
    if last != d {
        return None;
    }
    if n < 10 {
        return Some(end - 1);
    }
    nat_text_start(t, end - 1, n / 10)
}

/// The extension of restart files in `format`: `json` for `"json"`, `bin` otherwise.
pub fn restart_extension(format: &str) -> (e: &'static str)
    ensures
        e@ == restart_ext(format@),
{
    if same_text(format, "json") {
        "json"
    } else {
        "bin"
    }
}

proof fn lemma_digits_prefix(s: Seq<char>, k: int)
    requires
        0 <= k <= s.len(),
        all_digits(s),
    ensures
        digits_value(s.take(k)) <= digits_value(s),
    decreases s.len() - k,
{
    if k < s.len() {
        lemma_digits_prefix(s, k + 1);
        assert(s.take(k + 1).drop_last() =~= s.take(k));
        assert(0 <= char_digit(s[k]));
    } else {
        assert(s.take(k) =~= s);
    }
}

/// `t[from..to]` read as a `usize`, as `str::parse::<usize>` reads it.
fn parse_usize(t: &str, from: usize, to: usize) -> (r: Option<usize>)
    requires
        from <= to <= t@.len(),
    ensures
        r == usize_text_value(t@.subrange(from as int, to as int)),
{
    let ghost s = t@.subrange(from as int, to as int);
    let mut start = from;
    if from < to && t.get_char(from) == '+' {
        start = from + 1;
    }
    let ghost d = unsigned_digits(s);
    proof {
        assert(d =~= t@.subrange(start as int, to as int));
    }
    if start == to {
        return None;
    }
    let mut v: usize = 0;
    let mut i: usize = start;
    while i < to
        invariant
            start <= i <= to <= t@.len(),
            d == t@.subrange(start as int, to as int),
            d == unsigned_digits(t@.subrange(from as int, to as int)),
            d.len() > 0,
            forall|q: int| 0 <= q < i - start ==> 0 <= #[trigger] char_digit(d[q]),
            v == digits_value(d.take(i - start)),
        decreases to - i,
    {
        let c = char_digit_exec(t.get_char(i));
        let ghost k = i - start;
        proof {
            assert(d[k] == t@[i as int]);
            assert(d.take(k + 1).drop_last() =~= d.take(k));
        }
        if c < 0 {
            proof {
                assert(!all_digits(d));
            }
            return None;
        }
        match v.checked_mul(10) {
            None => {
                proof {
                    if all_digits(d) {
                        lemma_digits_prefix(d, k + 1);
                    }
                }
                return None;
            },
            Some(w) => match w.checked_add(c as usize) {
                None => {
                    proof {
                        if all_digits(d) {
                            lemma_digits_prefix(d, k + 1);
                        }
                    }
                    return None;
                },
                Some(x) => {
                    v = x;
                },
            },
        }
        i = i + 1;
    }
    proof {
        assert(d.take(d.len() as int) =~= d);
    }
    Some(v)
}

/// Where the suffix of the restart files of `rank` in `format` starts, when
/// `name` ends with it.
fn suffix_start(name: &str, rank: i32, format: &str) -> (r: Option<usize>)
    ensures
        r == if ends_at(name@, name@.len() as int, restart_suffix(rank as int, format@)) {
            Some((name@.len() - restart_suffix(rank as int, format@).len()) as usize)
        } else {
            None::<usize>
        },
{
    let ghost t = name@;
    let n = name.unicode_len();
    let ext = restart_extension(format);
    let ghost ext_s = ext@;
    let ghost rank_s = int_text(rank as int);
    let ghost head = "_rank"@ + rank_s;
    let ghost suffix = restart_suffix(rank as int, format@);
    let ghost mag: nat = if rank < 0 { (-(rank as int)) as nat } else { rank as nat };
    proof {
        assert(suffix == head + "."@ + ext_s);
        lemma_ends_at_concat(t, n as int, head + "."@, ext_s);
    }
    if !ends_at_exec(name, n, ext) {
        return None;
    }
    let e1 = n - ext.unicode_len();
    proof {
        lemma_ends_at_concat(t, e1 as int, head, "."@);
    }
    if !ends_at_exec(name, e1, ".") {
        return None;
    }
    let e2 = e1 - ".".unicode_len();
    proof {
        lemma_ends_at_concat(t, e2 as int, "_rank"@, rank_s);
    }
    let m: u32 = if rank < 0 {
        (-(rank as i64)) as u32
    } else {
        rank as u32
    };
    assert(m as nat == mag);
    let e3 = match nat_text_start(name, e2, m) {
        Some(e3) => e3,
        None => {
            proof {
                if rank < 0 {
                    lemma_ends_at_concat(t, e2 as int, seq!['-'], nat_text(mag));
                }
            }
            return None;
        },
    };
    let e4 = if rank < 0 {
        proof {
            lemma_ends_at_concat(t, e2 as int, seq!['-'], nat_text(mag));
            if e3 >= 1 {
                assert(ends_at(t, e3 as int, seq!['-']) <==> t[e3 - 1] == '-') by {
                    if t[e3 - 1] == '-' {
                        assert(t.subrange(e3 - 1, e3 as int) =~= seq!['-']);
                    }
                    if ends_at(t, e3 as int, seq!['-']) {
                        assert(t.subrange(e3 - 1, e3 as int)[0] == '-');
                    }
                }
            }
        }
        if e3 >= 1 && name.get_char(e3 - 1) == '-' {
            e3 - 1
        } else {
            return None;
        }
    } else {
        e3
    };
    assert(ends_at(t, e2 as int, rank_s) && e4 == e2 - rank_s.len());
    if !ends_at_exec(name, e4, "_rank") {
        return None;
    }
    Some(e4 - "_rank".unicode_len())
}

/// The step of the restart file named `name` for `rank` and `format` (the text
/// between `restart_` and `_rank{rank}.{ext}` read as a `usize`), or `None`
/// when the name is not such a file.
pub fn restart_step_of(name: &str, rank: i32, format: &str) -> (r: Option<usize>)
    requires
        !restart_name_overlaps(name@, rank as int, format@),
    ensures
        r == restart_step_spec(name@, rank as int, format@),
{
    let ghost t = name@;
    let n = name.unicode_len();
    let prefix = "restart_";
    let plen = prefix.unicode_len();
    let ghost suffix = restart_suffix(rank as int, format@);
    let starts = if plen <= n {
        ends_at_exec(name, plen, prefix)
    } else {
        false
    };
    let found = suffix_start(name, rank, format);
    if !starts {
        return None;
    }
    match found {
        Some(f) => {
            if f < plen {
                return None;
            }
            parse_usize(name, plen, f)
        },
        None => None,
    }
}

/// The highest step among the restart files in `names` for `rank` and
/// `format`, if there is any (the first name with that step is the one read).
pub fn latest_restart_step(names: &Vec<String>, rank: i32, format: &str) -> (r: Option<usize>)
    requires
        forall|k: int| 0 <= k < names@.len() ==> !restart_name_overlaps(#[trigger] names@[k]@, rank as int, format@),
    ensures
        r == latest_step_upto(names@, names@.len() as int, rank as int, format@),
{
    let mut latest: Option<usize> = None;
    let mut k: usize = 0;
    while k < names.len()
        invariant
            k <= names@.len(),
            forall|q: int| 0 <= q < names@.len() ==> !restart_name_overlaps(#[trigger] names@[q]@, rank as int, format@),
            latest == latest_step_upto(names@, k as int, rank as int, format@),
        decreases names@.len() - k,
    {
        let step = restart_step_of(names[k].as_str(), rank, format);
        match step {
            Some(s) => {
                let newer = match latest {
                    Some(p) => s > p,
                    None => true,
                };
                if newer {
                    latest = Some(s);
                }
            },
            None => {},
        }
        k = k + 1;
    }
    latest
}

} // verus!
