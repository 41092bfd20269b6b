//! Thermo output columns: parsing of the `[thermo] columns` specifications
//! (`"compute"` or `"compute/group"`) into headers and display widths.

use vstd::prelude::*;
use crate::schedule::same_text;

verus! {

/// What `char::to_uppercase` yields for `c`.
pub uninterp spec fn uppercase_of(c: char) -> Seq<char>;

/// `char::to_uppercase`, collected into a string: the uppercase mapping of
/// `c`, one or more characters (`c` itself when it has no uppercase form).
/// Which characters Unicode maps to which is left to the name `uppercase_of`.
#[verifier::external_body]
fn char_to_uppercase(c: char) -> (r: String)
    ensures
        r@ == uppercase_of(c),
        r@.len() >= 1,
{
    c.to_uppercase().collect()
}

/// `t` with its first character replaced by its uppercase form.
pub open spec fn capitalized(t: Seq<char>) -> Seq<char> {
    if t.len() == 0 {
        Seq::empty()
    } else {
        uppercase_of(t[0]) + t.subrange(1, t.len() as int)
    }
}

/// Capitalizes the first character of `s`.
pub fn capitalize(s: &str) -> (r: String)
    ensures
        r@ == capitalized(s@),
{
    let n = s.unicode_len();
    if n == 0 {
        return String::new();
    }
    let first = s.get_char(0);
    let mut r = char_to_uppercase(first);
    let rest = s.substring_char(1, n);
    r.append(rest);
    r
}

/// Position of the first `'/'` in `t` at or after `from`, if any.
pub open spec fn slash_from(t: Seq<char>, from: int) -> Option<int>
    decreases t.len() - from,
{
    if from >= t.len() || from < 0 {
        None
    } else if t[from] == '/' {
        Some(from)
    } else {
        slash_from(t, from + 1)
    }
}

/// Position of the first `'/'` in `t`, if any.
pub open spec fn first_slash(t: Seq<char>) -> Option<int> {
    slash_from(t, 0)
}

proof fn lemma_slash_from_bounds(t: Seq<char>, from: int)
    requires
        0 <= from,
    ensures
        slash_from(t, from) matches Some(k) ==> from <= k < t.len() && t[k] == '/',
    decreases t.len() - from,
{
    if from < t.len() && t[from] != '/' {
        lemma_slash_from_bounds(t, from + 1);
    }
}

/// The compute name of a column specification: the text before the first `'/'`.
pub open spec fn compute_part(t: Seq<char>) -> Seq<char> {
    match first_slash(t) {
        Some(k) => t.subrange(0, k),
        None => t,
    }
}

/// The group name of a column specification: the text after the first `'/'`.
pub open spec fn group_part(t: Seq<char>) -> Option<Seq<char>> {
    match first_slash(t) {
        Some(k) => Some(t.subrange(k + 1, t.len() as int)),
        None => None,
    }
}

/// The header of a column: the capitalized compute name, followed by `/` and
/// the group name when there is one.
pub open spec fn header_text(t: Seq<char>) -> Seq<char> {
    match group_part(t) {
        Some(g) => capitalized(compute_part(t)) + seq!['/'] + g,
        None => capitalized(compute_part(t)),
    }
}

/// A parsed thermo column.
pub struct ThermoColumn {
    /// The column specification as configured (e.g. `"ke/mobile"`).
    pub raw: String,
    /// The compute name (e.g. `"ke"`).
    pub compute_name: String,
    /// The group the value is restricted to, if any (e.g. `"mobile"`).
    pub group_name: Option<String>,
    /// The console header (e.g. `"Ke/mobile"`).
    pub header: String,
    /// The display width: the header's length in bytes, at least 12.
    pub width: usize,
}

/// Minimum display width of a thermo column.
pub const MIN_COLUMN_WIDTH: usize = 12;

/// The display width of a column with header `h`: its UTF-8 length, at least 12.
pub open spec fn column_width(h: Seq<char>) -> int {
    let n = (vstd::utf8::encode_utf8(h).len() as usize) as int;
    if n > MIN_COLUMN_WIDTH {
        n
    } else {
        MIN_COLUMN_WIDTH as int
    }
}

fn find_slash(s: &str) -> (r: Option<usize>)
    ensures
        match first_slash(s@) {
            Some(k) => r == Some(k as usize),
            None => r is None,
        },
{
    let n = s.unicode_len();
    let mut i: usize = 0;
    while i < n
        invariant
            n == s@.len(),
            i <= n,
            first_slash(s@) == slash_from(s@, i as int),
        decreases n - i,
    {
        if s.get_char(i) == '/' {
            return Some(i);
        }
        i = i + 1;
    }
    None
}

/// Parses a column specification such as `"ke/mobile"` or `"step"`.
pub fn parse_thermo_column(raw: &str) -> (c: ThermoColumn)
    ensures
        c.raw@ == raw@,
        c.compute_name@ == compute_part(raw@),
        match group_part(raw@) {
            Some(g) => c.group_name matches Some(n) && n@ == g,
            None => c.group_name is None,
        },
        c.header@ == header_text(raw@),
        c.width == column_width(c.header@),
{
    proof {
        lemma_slash_from_bounds(raw@, 0);
    }
    let n = raw.unicode_len();
    let slash = find_slash(raw);
    let (compute, group) = match slash {
        Some(k) => (raw.substring_char(0, k), Some(raw.substring_char(k + 1, n))),
        None => (raw, None),
    };
    let mut header = capitalize(compute);
    let group_name = match group {
        Some(g) => {
            let sep = "/";
            proof {
                reveal_strlit("/");
                assert(sep@ =~= seq!['/']);
            }
            header.append(sep);
            header.append(g);
            Some(g.to_owned())
        },
        None => None,
    };
    let hs = header.as_str();
    let bytes = hs.len();
    let width = if bytes > MIN_COLUMN_WIDTH {
        bytes
    } else {
        MIN_COLUMN_WIDTH
    };
    ThermoColumn { raw: raw.to_owned(), compute_name: compute.to_owned(), group_name, header, width }
}

/// The column names shown when `[thermo] columns` is not configured.
pub open spec fn default_column_texts() -> Seq<Seq<char>> {
    seq![
        seq!['s', 't', 'e', 'p'],
        seq!['a', 't', 'o', 'm', 's'],
        seq!['k', 'e'],
        seq!['n', 'e', 'i', 'g', 'h', 'b', 'o', 'r', 's'],
        seq!['w', 'a', 'l', 'l', 't', 'i', 'm', 'e'],
        seq!['s', 't', 'e', 'p', 'p', 's'],
    ]
}

fn owned(s: &str) -> (r: String)
    ensures
        r@ == s@,
{
    s.to_owned()
}

/// The default thermo column names.
pub fn default_columns() -> (cols: Vec<String>)
    ensures
        cols@.map_values(|s: String| s@) == default_column_texts(),
{
    let mut cols: Vec<String> = Vec::new();
    let step = "step";
    let atoms = "atoms";
    let ke = "ke";
    let neighbors = "neighbors";
    let walltime = "walltime";
    let stepps = "stepps";
    proof {
        reveal_strlit("step");
        reveal_strlit("atoms");
        reveal_strlit("ke");
        reveal_strlit("neighbors");
        reveal_strlit("walltime");
        reveal_strlit("stepps");
    }
    cols.push(owned(step));
    cols.push(owned(atoms));
    cols.push(owned(ke));
    cols.push(owned(neighbors));
    cols.push(owned(walltime));
    cols.push(owned(stepps));
    proof {
        let m = cols@.map_values(|s: String| s@);
        let d = default_column_texts();
        assert(step@ =~= d[0]);
        assert(atoms@ =~= d[1]);
        assert(ke@ =~= d[2]);
        assert(neighbors@ =~= d[3]);
        assert(walltime@ =~= d[4]);
        assert(stepps@ =~= d[5]);
        assert(m.len() == d.len());
        assert forall|i: int| 0 <= i < m.len() implies m[i] == d[i] by {}
        assert(m =~= d);
    }
    cols
}

/// Sum of the first `k` column widths.
pub open spec fn widths_sum(cols: Seq<ThermoColumn>, k: int) -> int
    decreases k,
{
    if k <= 0 {
        0
    } else {
        widths_sum(cols, k - 1) + cols[k - 1].width
    }
}

/// Width of the header line: the column widths plus one separating space
/// between neighbouring columns.
pub fn header_line_width(cols: &Vec<ThermoColumn>) -> (w: usize)
    requires
        widths_sum(cols@, cols@.len() as int) + cols@.len() <= usize::MAX,
    ensures
        w == widths_sum(cols@, cols@.len() as int) + if cols@.len() > 0 {
            cols@.len() - 1
        } else {
            0
        },
{
    let mut total: usize = 0;
    let mut k: usize = 0;
    while k < cols.len()
        invariant
            k <= cols@.len(),
            total == widths_sum(cols@, k as int),
            widths_sum(cols@, cols@.len() as int) + cols@.len() <= usize::MAX,
        decreases cols.len() - k,
    {
        proof {
            lemma_widths_sum_monotone(cols@, k + 1, cols@.len() as int);
        }
        total = total + cols[k].width;
        k = k + 1;
    }
    if cols.len() > 0 {
        total + (cols.len() - 1)
    } else {
        total
    }
}

proof fn lemma_widths_sum_monotone(cols: Seq<ThermoColumn>, a: int, b: int)
    requires
        0 <= a <= b,
    ensures
        widths_sum(cols, a) <= widths_sum(cols, b),
    decreases b - a,
{
    if a < b {
        lemma_widths_sum_monotone(cols, a, b - 1);
    }
}


/// `[thermo]` settings: the column specifications to show (the default set when absent).
pub struct ThermoConfig {
    pub columns: Option<Vec<String>>,
}

impl Default for ThermoConfig {
    fn default() -> (c: Self)
        ensures
            c.columns is None,
    {
        ThermoConfig { columns: None }
    }
}

/// The parsed columns of the configured specifications, in order.
pub fn parse_columns(specs: &Vec<String>) -> (cols: Vec<ThermoColumn>)
    ensures
        cols@.len() == specs@.len(),
        forall|k: int|
            0 <= k < specs@.len() ==> {
                let c = #[trigger] cols@[k];
                &&& c.raw@ == specs@[k]@
                &&& c.header@ == header_text(specs@[k]@)
                &&& c.compute_name@ == compute_part(specs@[k]@)
                &&& match group_part(specs@[k]@) {
                    Some(g) => c.group_name matches Some(n) && n@ == g,
                    None => c.group_name is None,
                }
                &&& c.width == column_width(c.header@)
            },
{
    let mut cols: Vec<ThermoColumn> = Vec::new();
    let mut k: usize = 0;
    while k < specs.len()
        invariant
            k <= specs@.len(),
            cols@.len() == k,
            forall|q: int|
                0 <= q < k ==> {
                    let c = #[trigger] cols@[q];
                    &&& c.raw@ == specs@[q]@
                    &&& c.header@ == header_text(specs@[q]@)
                    &&& c.compute_name@ == compute_part(specs@[q]@)
                    &&& match group_part(specs@[q]@) {
                        Some(g) => c.group_name matches Some(n) && n@ == g,
                        None => c.group_name is None,
                    }
                    &&& c.width == column_width(c.header@)
                },
        decreases specs.len() - k,
    {
        cols.push(parse_thermo_column(specs[k].as_str()));
        k = k + 1;
    }
    cols
}


// ── What a column shows ────────────────────────────────────────────────────

/// The quantity a thermo column shows, chosen by its compute name.
#[derive(Debug, Clone, Copy, PartialEq, Eq, Structural)]
pub enum ColumnKind {
    /// The step number.
    Step,
    /// The number of atoms (of the group, if any).
    Atoms,
    /// The kinetic energy (of the group, if any).
    Ke,
    /// The temperature (of the group, if any).
    Temp,
    /// The total number of neighbor pairs.
    Neighbors,
    /// Wall time since the previous line.
    Walltime,
    /// Steps per second since the previous line.
    StepsPerSecond,
    /// A value set by a plugin under the column's compute name.
    User,
}

/// The kind of a column with compute name `t`.
pub open spec fn column_kind_spec(t: Seq<char>) -> ColumnKind {
    if t == "step"@ {
        ColumnKind::Step
    } else if t == "atoms"@ {
        ColumnKind::Atoms
    } else if t == "ke"@ {
        ColumnKind::Ke
    } else if t == "temp"@ {
        ColumnKind::Temp
    } else if t == "neighbors"@ {
        ColumnKind::Neighbors
    } else if t == "walltime"@ {
        ColumnKind::Walltime
    } else if t == "stepps"@ {
        ColumnKind::StepsPerSecond
    } else {
        ColumnKind::User
    }
}

/// The quantity shown by a column with compute name `compute_name`.
pub fn column_kind(compute_name: &str) -> (k: ColumnKind)
    ensures
        k == column_kind_spec(compute_name@),
{
    if same_text(compute_name, "step") {
        ColumnKind::Step
    } else if same_text(compute_name, "atoms") {
        ColumnKind::Atoms
    } else if same_text(compute_name, "ke") {
        ColumnKind::Ke
    } else if same_text(compute_name, "temp") {
        ColumnKind::Temp
    } else if same_text(compute_name, "neighbors") {
        ColumnKind::Neighbors
    } else if same_text(compute_name, "walltime") {
        ColumnKind::Walltime
    } else if same_text(compute_name, "stepps") {
        ColumnKind::StepsPerSecond
    } else {
        ColumnKind::User
    }
}

/// The group names of the first `m` columns, each once, in order of first use.
pub open spec fn column_groups_upto(cols: Seq<ThermoColumn>, m: int) -> Seq<Seq<char>>
    decreases m,
{
    if m <= 0 {
        Seq::empty()
    } else {
        let g = column_groups_upto(cols, m - 1);
        match cols[m - 1].group_name {
            Some(name) => if g.contains(name@) {
                g
            } else {
                g.push(name@)
            },
            None => g,
        }
    }
}

/// The groups whose kinetic energy and atom count a thermo line needs: the
/// group names of the columns, each once, in order of first use.
pub fn column_groups(cols: &Vec<ThermoColumn>) -> (r: Vec<String>)
    ensures
        r@.len() == column_groups_upto(cols@, cols@.len() as int).len(),
        forall|k: int| 0 <= k < r@.len() ==> #[trigger] r@[k]@ == column_groups_upto(cols@, cols@.len() as int)[k],
{
    let mut r: Vec<String> = Vec::new();
    let mut i: usize = 0;
    while i < cols.len()
        invariant
            i <= cols@.len(),
            r@.len() == column_groups_upto(cols@, i as int).len(),
            forall|k: int| 0 <= k < r@.len() ==> #[trigger] r@[k]@ == column_groups_upto(cols@, i as int)[k],
        decreases cols@.len() - i,
    {
        let ghost g = column_groups_upto(cols@, i as int);
        match &cols[i].group_name {
            Some(name) => {
                let mut found = false;
                let mut k: usize = 0;
                while k < r.len()
                    invariant
                        k <= r@.len(),
                        r@.len() == g.len(),
                        forall|q: int| 0 <= q < r@.len() ==> #[trigger] r@[q]@ == g[q],
                        found == exists|q: int| 0 <= q < k && g[q] == name@,
                    decreases r@.len() - k,
                {
                    if same_text(r[k].as_str(), name.as_str()) {
                        found = true;
                    }
                    k = k + 1;
                }
                proof {
                    if g.contains(name@) {
                        let q = choose|q: int| 0 <= q < g.len() && g[q] == name@;
                        assert(r@[q]@ == g[q]);
                    }
                }
                if !found {
                    r.push(name.clone());
                }
            },
            None => {},
        }
        i = i + 1;
    }
    r
}

} // verus!
