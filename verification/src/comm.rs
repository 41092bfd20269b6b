//! Processor-grid arithmetic of the domain decomposition: which cell of the
//! `px × py × pz` grid a rank owns, the rank of a cell, and the neighbouring
//! ranks a rank exchanges ghost atoms with.

use vstd::prelude::*;

verus! {

/// `[comm]` settings: number of ranks along x, y and z.
pub struct CommConfig {
    pub processors_x: i32,
    pub processors_y: i32,
    pub processors_z: i32,
}

/// Default number of ranks along an axis.
pub fn default_one_i32() -> (v: i32)
    ensures
        v == 1,
{
    1
}

impl Default for CommConfig {
    fn default() -> (c: Self)
        ensures
            c.processors_x == 1,
            c.processors_y == 1,
            c.processors_z == 1,
    {
        CommConfig { processors_x: 1, processors_y: 1, processors_z: 1 }
    }
}

/// Why a processor grid cannot be used.
#[derive(Debug, Clone, Copy, PartialEq, Eq, Structural)]
pub enum CommError {
    /// The grid has `product` cells but the communicator has `size` ranks.
    GridMismatch { product: i32, size: i32 },
}

/// Quotient of `a / b` rounded toward zero (integer division as executed).
pub open spec fn trunc_div(a: int, b: int) -> int {
    let q = (if a >= 0 { a } else { -a }) / (if b >= 0 { b } else { -b });
    if (a >= 0) == (b > 0) || q == 0 {
        q
    } else {
        -q
    }
}

/// Remainder of `a % b` with the sign of `a` (integer remainder as executed).
pub open spec fn trunc_rem(a: int, b: int) -> int {
    a - b * trunc_div(a, b)
}

/// `a / b`, rounded toward zero.
fn div_toward_zero(a: i32, b: i32) -> (q: i32)
    requires
        b != 0,
        a != i32::MIN,
        b != i32::MIN,
    ensures
        q == trunc_div(a as int, b as int),
{
    let ua: i32 = if a >= 0 { a } else { -a };
    let ub: i32 = if b >= 0 { b } else { -b };
    let q = ua / ub;
    proof {
        assert(0 <= q <= ua) by (nonlinear_arith)
            requires
                ua >= 0,
                ub >= 1,
                q == ua / ub,
        ;
    }
    if (a >= 0) == (b > 0) || q == 0 {
        q
    } else {
        -q
    }
}

/// `a % b`, with the sign of `a`.
fn rem_toward_zero(a: i32, b: i32) -> (r: i32)
    requires
        b != 0,
        a != i32::MIN,
        b != i32::MIN,
    ensures
        r == trunc_rem(a as int, b as int),
{
    let q = div_toward_zero(a, b);
    let ghost ua: int = if a >= 0 { a as int } else { -a };
    let ghost ub: int = if b >= 0 { b as int } else { -b };
    proof {
        let uq = ua / ub;
        assert(0 <= ua - ub * uq < ub) by (nonlinear_arith)
            requires
                ua >= 0,
                ub >= 1,
                uq == ua / ub,
        ;
        if b > 0 {
            if a >= 0 || uq == 0 {
                assert(q == uq);
            } else {
                assert(q == -uq);
                assert(b * q == -(ub * uq)) by (nonlinear_arith)
                    requires
                        q == -uq,
                        ub == b,
                ;
            }
        } else {
            if a < 0 || uq == 0 {
                assert(q == uq);
                assert(b * q == -(ub * uq)) by (nonlinear_arith)
                    requires
                        q == uq,
                        ub == -b,
                ;
            } else {
                assert(q == -uq);
                assert(b * q == ub * uq) by (nonlinear_arith)
                    requires
                        q == -uq,
                        ub == -b,
                ;
            }
        }
        assert(-ub < a - b * q < ub);
    }
    ((a as i64) - (b as i64) * (q as i64)) as i32
}

/// Grid cell `(x, y, z)` owned by `rank` in a `py`·`pz` row-major layout.
pub open spec fn position_of(rank: int, py: int, pz: int) -> (int, int, int) {
    (trunc_div(rank, py * pz), trunc_rem(trunc_div(rank, pz), py), trunc_rem(rank, pz))
}

/// Rank owning grid cell `pos` of a grid with `decomp` cells per axis.
pub open spec fn rank_of(pos: (int, int, int), decomp: (int, int, int)) -> int {
    pos.0 * decomp.1 * decomp.2 + pos.1 * decomp.2 + pos.2
}

/// Checks that the configured grid has exactly `size` cells and returns the
/// grid and the cell of `rank`. A grid of another size is refused.
pub fn processor_grid(config: &CommConfig, rank: i32, size: i32) -> (r: Result<([i32; 3], [i32; 3]), CommError>)
    requires
        size >= 1,
        0 <= rank < size,
        i32::MIN <= config.processors_x * config.processors_y <= i32::MAX,
        i32::MIN <= config.processors_x * config.processors_y * config.processors_z <= i32::MAX,
        i32::MIN <= config.processors_y * config.processors_z <= i32::MAX,
    ensures
        config.processors_x * config.processors_y * config.processors_z != size ==> r == Err::<([i32; 3], [i32; 3]), CommError>(
            (CommError::GridMismatch { product: (config.processors_x * config.processors_y * config.processors_z) as i32, size: size }),
        ),
        config.processors_x * config.processors_y * config.processors_z == size ==> (r is Ok),
        r matches Ok(grid) ==> {
            &&& grid.0@ == seq![config.processors_x, config.processors_y, config.processors_z]
            &&& (grid.1[0] as int, grid.1[1] as int, grid.1[2] as int) == position_of(
                rank as int,
                config.processors_y as int,
                config.processors_z as int,
            )
        },
{
    let px = config.processors_x;
    let py = config.processors_y;
    let pz = config.processors_z;
    let pxy = px * py;
    let mul = pxy * pz;
    if mul != size {
        return Err(CommError::GridMismatch { product: mul, size });
    }
    let pyz = py * pz;
    proof {
        assert(px * py * pz == px * (py * pz)) by (nonlinear_arith);
        assert(pyz != 0 && py != 0 && pz != 0) by (nonlinear_arith)
            requires
                px * py * pz == size,
                size >= 1,
                pyz == py * pz,
                px * py * pz == px * (py * pz),
        ;
        assert(pyz != i32::MIN && py != i32::MIN && pz != i32::MIN) by (nonlinear_arith)
            requires
                px * (py * pz) == size,
                size >= 1,
                size <= i32::MAX,
                pyz == py * pz,
                pyz != 0,
                py != 0,
                pz != 0,
                px * py <= i32::MAX,
                px * py >= i32::MIN,
                py * pz >= i32::MIN,
                py * pz <= i32::MAX,
        ;
    }
    let x = div_toward_zero(rank, pyz);
    let t = div_toward_zero(rank, pz);
    proof {
        assert(t != i32::MIN) by (nonlinear_arith)
            requires
                t == trunc_div(rank as int, pz as int),
                rank >= 0,
                pz != 0,
        {
        }
    }
    let y = rem_toward_zero(t, py);
    let z = rem_toward_zero(rank, pz);
    Ok(([px, py, pz], [x, y, z]))
}

/// A grid of `decomp` cells per axis (all at least one) whose cell count fits an `i32`.
pub open spec fn valid_grid(decomp: [i32; 3]) -> bool {
    &&& decomp[0] >= 1
    &&& decomp[1] >= 1
    &&& decomp[2] >= 1
    &&& decomp[0] * decomp[1] * decomp[2] <= i32::MAX
}

/// `pos` is a cell of the grid `decomp`.
pub open spec fn in_grid(pos: [i32; 3], decomp: [i32; 3]) -> bool {
    &&& 0 <= pos[0] < decomp[0]
    &&& 0 <= pos[1] < decomp[1]
    &&& 0 <= pos[2] < decomp[2]
}

pub open spec fn as_triple(a: [i32; 3]) -> (int, int, int) {
    (a[0] as int, a[1] as int, a[2] as int)
}

proof fn lemma_rank_bounds(pos: [i32; 3], decomp: [i32; 3])
    requires
        valid_grid(decomp),
        in_grid(pos, decomp),
    ensures
        0 <= rank_of(as_triple(pos), as_triple(decomp)) < decomp[0] * decomp[1] * decomp[2],
        0 <= pos[0] * decomp[1] * decomp[2] <= rank_of(as_triple(pos), as_triple(decomp)),
        0 <= pos[1] * decomp[2] <= rank_of(as_triple(pos), as_triple(decomp)),
        0 <= pos[0] * decomp[1] <= pos[0] * decomp[1] * decomp[2],
{
    let (x, y, z) = (pos[0] as int, pos[1] as int, pos[2] as int);
    let (px, py, pz) = (decomp[0] as int, decomp[1] as int, decomp[2] as int);
    assert(0 <= y * pz + z < py * pz) by (nonlinear_arith)
        requires
            0 <= y < py,
            0 <= z < pz,
    ;
    assert(0 <= x * py * pz + (y * pz + z) < px * py * pz) by (nonlinear_arith)
        requires
            0 <= x < px,
            0 <= y * pz + z < py * pz,
    ;
    assert(0 <= x * py * pz && 0 <= y * pz && 0 <= x * py <= x * py * pz) by (nonlinear_arith)
        requires
            0 <= x,
            0 <= y,
            1 <= py,
            1 <= pz,
    ;
}

/// Rank owning grid cell `pos`.
pub fn pos_to_rank(pos: [i32; 3], decomp: [i32; 3]) -> (r: i32)
    requires
        valid_grid(decomp),
        in_grid(pos, decomp),
    ensures
        r == rank_of(as_triple(pos), as_triple(decomp)),
{
    proof {
        lemma_rank_bounds(pos, decomp);
    }
    pos[0] * decomp[1] * decomp[2] + pos[1] * decomp[2] + pos[2]
}

/// Each rank owns the cell it computes for itself: numbering the cell of
/// `rank` back gives `rank` again.
pub proof fn lemma_rank_position_round_trip(rank: int, py: int, pz: int)
    requires
        rank >= 0,
        py >= 1,
        pz >= 1,
    ensures
        rank_of(position_of(rank, py, pz), (0, py, pz)) == rank,
{
    let t = rank / pz;
    vstd::arithmetic::div_mod::lemma_fundamental_div_mod(rank, pz);
    vstd::arithmetic::div_mod::lemma_fundamental_div_mod(t, py);
    vstd::arithmetic::div_mod::lemma_div_denominator(rank, pz, py);
    assert(pz * py == py * pz) by (nonlinear_arith);
    assert(t >= 0) by {
        vstd::arithmetic::div_mod::lemma_div_pos_is_pos(rank, pz);
    }
    let x = rank / (py * pz);
    let y = t % py;
    let z = rank % pz;
    assert(x == t / py);
    assert(x * py * pz + y * pz + z == pz * (py * (t / py) + t % py) + rank % pz) by (nonlinear_arith)
        requires
            x == t / py,
            y == t % py,
            z == rank % pz,
    ;
}

/// Each cell of the grid is owned by the rank that numbers it.
pub proof fn lemma_position_rank_round_trip(pos: [i32; 3], decomp: [i32; 3])
    requires
        valid_grid(decomp),
        in_grid(pos, decomp),
    ensures
        position_of(rank_of(as_triple(pos), as_triple(decomp)), decomp[1] as int, decomp[2] as int) == as_triple(pos),
{
    let (x, y, z) = (pos[0] as int, pos[1] as int, pos[2] as int);
    let (py, pz) = (decomp[1] as int, decomp[2] as int);
    let rank = x * py * pz + y * pz + z;
    lemma_rank_bounds(pos, decomp);
    assert(rank == pz * (x * py + y) + z) by (nonlinear_arith)
        requires
            rank == x * py * pz + y * pz + z,
    ;
    vstd::arithmetic::div_mod::lemma_div_multiples_vanish_fancy(x * py + y, z, pz);
    vstd::arithmetic::div_mod::lemma_mod_multiples_vanish(x * py + y, z, pz);
    vstd::arithmetic::div_mod::lemma_small_mod(z as nat, pz as nat);
    assert(rank / pz == x * py + y);
    assert(rank % pz == z);
    assert(x * py + y >= 0) by (nonlinear_arith)
        requires
            x >= 0,
            y >= 0,
            py >= 1,
    ;
    vstd::arithmetic::div_mod::lemma_div_multiples_vanish_fancy(x, y, py);
    vstd::arithmetic::div_mod::lemma_mod_multiples_vanish(x, y, py);
    vstd::arithmetic::div_mod::lemma_small_mod(y as nat, py as nat);
    assert(py * x == x * py) by (nonlinear_arith);
    vstd::arithmetic::div_mod::lemma_div_denominator(rank, pz, py);
    assert(pz * py == py * pz) by (nonlinear_arith);
}

/// Neighbouring ranks of a rank along each axis, and the periodic image shift
/// (in box lengths) applied to atoms sent across a periodic boundary.
/// `-1` stands for "no neighbour".
pub struct CommNeighbors {
    pub backward: [i32; 3],
    pub forward: [i32; 3],
    pub backward_shift: [i32; 3],
    pub forward_shift: [i32; 3],
}

/// `pos` with coordinate `d` replaced by `v`.
pub open spec fn with_coord(pos: [i32; 3], d: int, v: int) -> (int, int, int) {
    (
        if d == 0 { v } else { pos[0] as int },
        if d == 1 { v } else { pos[1] as int },
        if d == 2 { v } else { pos[2] as int },
    )
}

/// The neighbour of cell `pos` one step forward along axis `d` (wrapping on a
/// periodic axis), or `-1` at a non-periodic upper edge.
pub open spec fn forward_rank(pos: [i32; 3], decomp: [i32; 3], periodic: [bool; 3], d: int) -> int {
    if pos[d] + 1 < decomp[d] {
        rank_of(with_coord(pos, d, pos[d] + 1), as_triple(decomp))
    } else if periodic[d] {
        rank_of(with_coord(pos, d, 0), as_triple(decomp))
    } else {
        -1
    }
}

/// The neighbour of cell `pos` one step backward along axis `d` (wrapping on a
/// periodic axis), or `-1` at a non-periodic lower edge.
pub open spec fn backward_rank(pos: [i32; 3], decomp: [i32; 3], periodic: [bool; 3], d: int) -> int {
    if pos[d] - 1 >= 0 {
        rank_of(with_coord(pos, d, pos[d] - 1), as_triple(decomp))
    } else if periodic[d] {
        rank_of(with_coord(pos, d, decomp[d] - 1), as_triple(decomp))
    } else {
        -1
    }
}

/// Neighbours at the box boundary: on a non-periodic axis the cell at the
/// lower edge has no backward neighbour and the cell at the upper edge no
/// forward neighbour; on a periodic axis they wrap to the cell at the other
/// edge; inside the grid they are the cells one step away along the axis.
pub proof fn lemma_neighbor_edges(pos: [i32; 3], decomp: [i32; 3], periodic: [bool; 3], d: int)
    requires
        valid_grid(decomp),
        in_grid(pos, decomp),
        0 <= d < 3,
    ensures
        !periodic[d] && pos[d] == 0 ==> backward_rank(pos, decomp, periodic, d) == -1,
        !periodic[d] && pos[d] == decomp[d] - 1 ==> forward_rank(pos, decomp, periodic, d) == -1,
        periodic[d] && pos[d] == 0 ==> backward_rank(pos, decomp, periodic, d) == rank_of(
            with_coord(pos, d, decomp[d] - 1),
            as_triple(decomp),
        ),
        periodic[d] && pos[d] == decomp[d] - 1 ==> forward_rank(pos, decomp, periodic, d) == rank_of(
            with_coord(pos, d, 0),
            as_triple(decomp),
        ),
        pos[d] > 0 ==> backward_rank(pos, decomp, periodic, d) == rank_of(with_coord(pos, d, pos[d] - 1), as_triple(decomp)),
        pos[d] < decomp[d] - 1 ==> forward_rank(pos, decomp, periodic, d) == rank_of(
            with_coord(pos, d, pos[d] + 1),
            as_triple(decomp),
        ),
{
}

fn neighbor_along(pos: [i32; 3], decomp: [i32; 3], periodic: [bool; 3], d: usize) -> (r: (i32, i32, i32, i32))
    requires
        valid_grid(decomp),
        in_grid(pos, decomp),
        d < 3,
    ensures
        r.0 == backward_rank(pos, decomp, periodic, d as int),
        r.1 == forward_rank(pos, decomp, periodic, d as int),
        r.2 == (if pos[d as int] - 1 < 0 && periodic[d as int] { 1int } else { 0int }),
        r.3 == (if pos[d as int] + 1 >= decomp[d as int] && periodic[d as int] { -1int } else { 0int }),
{
    let mut fwd: i32 = -1;
    let mut fshift: i32 = 0;
    if pos[d] + 1 < decomp[d] {
        let mut p = pos;
        p[d] = pos[d] + 1;
        fwd = pos_to_rank(p, decomp);
        proof {
            assert(as_triple(p) == with_coord(pos, d as int, pos[d as int] + 1));
        }
    } else if periodic[d] {
        let mut p = pos;
        p[d] = 0;
        fwd = pos_to_rank(p, decomp);
        fshift = -1;
        proof {
            assert(as_triple(p) == with_coord(pos, d as int, 0));
        }
    }
    let mut bwd: i32 = -1;
    let mut bshift: i32 = 0;
    if pos[d] - 1 >= 0 {
        let mut p = pos;
        p[d] = pos[d] - 1;
        bwd = pos_to_rank(p, decomp);
        proof {
            assert(as_triple(p) == with_coord(pos, d as int, pos[d as int] - 1));
        }
    } else if periodic[d] {
        let mut p = pos;
        p[d] = decomp[d] - 1;
        bwd = pos_to_rank(p, decomp);
        bshift = 1;
        proof {
            assert(as_triple(p) == with_coord(pos, d as int, decomp[d as int] - 1));
        }
    }
    (bwd, fwd, bshift, fshift)
}

/// Ranks that the owner of cell `pos` exchanges ghost atoms with along each
/// axis, with the periodic shifts of atoms sent across the box boundary.
pub fn neighbor_ranks(pos: [i32; 3], decomp: [i32; 3], periodic: [bool; 3]) -> (n: CommNeighbors)
    requires
        valid_grid(decomp),
        in_grid(pos, decomp),
    ensures
        forall|d: int| 0 <= d < 3 ==> n.backward[d] == backward_rank(pos, decomp, periodic, d),
        forall|d: int| 0 <= d < 3 ==> n.forward[d] == forward_rank(pos, decomp, periodic, d),
        forall|d: int| 0 <= d < 3 ==> n.backward_shift[d] == (if pos[d] - 1 < 0 && periodic[d] { 1int } else { 0int }),
        forall|d: int| 0 <= d < 3 ==> n.forward_shift[d] == (if pos[d] + 1 >= decomp[d] && periodic[d] { -1int } else { 0int }),
        forall|d: int| 0 <= d < 3 && !periodic[d] && pos[d] == 0 ==> #[trigger] n.backward[d] == -1,
        forall|d: int| 0 <= d < 3 && !periodic[d] && pos[d] == decomp[d] - 1 ==> #[trigger] n.forward[d] == -1,
        forall|d: int| 0 <= d < 3 && periodic[d] && pos[d] == 0 ==> #[trigger] n.backward[d] == rank_of(
            with_coord(pos, d, decomp[d] - 1),
            as_triple(decomp),
        ),
        forall|d: int| 0 <= d < 3 && periodic[d] && pos[d] == decomp[d] - 1 ==> #[trigger] n.forward[d] == rank_of(
            with_coord(pos, d, 0),
            as_triple(decomp),
        ),
        forall|d: int| 0 <= d < 3 && pos[d] > 0 ==> #[trigger] n.backward[d] == rank_of(
            with_coord(pos, d, pos[d] - 1),
            as_triple(decomp),
        ),
        forall|d: int| 0 <= d < 3 && pos[d] < decomp[d] - 1 ==> #[trigger] n.forward[d] == rank_of(
            with_coord(pos, d, pos[d] + 1),
            as_triple(decomp),
        ),
{
    let a = neighbor_along(pos, decomp, periodic, 0);
    let b = neighbor_along(pos, decomp, periodic, 1);
    let c = neighbor_along(pos, decomp, periodic, 2);
    let n = CommNeighbors {
        backward: [a.0, b.0, c.0],
        forward: [a.1, b.1, c.1],
        backward_shift: [a.2, b.2, c.2],
        forward_shift: [a.3, b.3, c.3],
    };
    proof {
        assert forall|d: int| 0 <= d < 3 implies n.backward[d] == backward_rank(pos, decomp, periodic, d) by {
            if d == 0 {} else if d == 1 {} else {}
        }
        assert forall|d: int| 0 <= d < 3 implies n.forward[d] == forward_rank(pos, decomp, periodic, d) by {
            if d == 0 {} else if d == 1 {} else {}
        }
        assert forall|d: int| 0 <= d < 3 implies n.backward_shift[d] == (if pos[d] - 1 < 0 && periodic[d] { 1int } else { 0int }) by {
            if d == 0 {} else if d == 1 {} else {}
        }
        assert forall|d: int| 0 <= d < 3 implies n.forward_shift[d] == (if pos[d] + 1 >= decomp[d] && periodic[d] { -1int } else { 0int }) by {
            if d == 0 {} else if d == 1 {} else {}
        }
    }
    n
}

/// How the ghost atoms are refreshed this step.
#[derive(Debug, Clone, Copy, PartialEq, Eq, Structural)]
pub enum CommState {
    /// Full rebuild: periodic wrap, exchange, full borders, neighbor build.
    FullRebuild,
    /// Lightweight path: only the ghost positions are sent forward.
    CommunicateOnly,
}

impl Default for CommState {
    fn default() -> (s: Self)
        ensures
            s == CommState::FullRebuild,
    {
        CommState::FullRebuild
    }
}

/// Communication plugin of a single-process run (no message passing).
pub struct SingleProcessCommPlugin;

/// Communication plugin of a multi-process run.
pub struct CommunicationPlugin;

/// The communication backend of a run on one process: rank 0 of 1, holding
/// the processor grid it was given (initially one cell, this process at its origin).
pub struct SingleProcessComm {
    pub processor_decomposition: [i32; 3],
    pub processor_position: [i32; 3],
}

impl SingleProcessComm {
    /// A backend on a grid of one cell.
    pub fn new() -> (c: Self)
        ensures
            c.processor_decomposition == [1i32, 1, 1],
            c.processor_position == [0i32, 0, 0],
    {
        SingleProcessComm { processor_decomposition: [1, 1, 1], processor_position: [0, 0, 0] }
    }

    /// This process's rank.
    pub fn rank(&self) -> (r: i32)
        ensures
            r == 0,
    {
        0
    }

    /// The number of processes.
    pub fn size(&self) -> (r: i32)
        ensures
            r == 1,
    {
        1
    }

    /// The processor grid's cells per axis.
    pub fn processor_decomposition(&self) -> (d: [i32; 3])
        ensures
            d == self.processor_decomposition,
    {
        self.processor_decomposition
    }

    /// This process's cell in the processor grid.
    pub fn processor_position(&self) -> (p: [i32; 3])
        ensures
            p == self.processor_position,
    {
        self.processor_position
    }

    /// Records the processor grid and this process's cell in it.
    pub fn set_processor_grid(&mut self, decomp: [i32; 3], position: [i32; 3])
        ensures
            final(self).processor_decomposition == decomp,
            final(self).processor_position == position,
    {
        self.processor_decomposition = decomp;
        self.processor_position = position;
    }
}

impl Default for SingleProcessComm {
    fn default() -> (c: Self)
        ensures
            c.processor_decomposition == [1i32, 1, 1],
            c.processor_position == [0i32, 0, 0],
    {
        SingleProcessComm::new()
    }
}

/// Releases the message-passing runtime at the end of the program. A build
/// without a message-passing backend holds no such runtime, so there is
/// nothing to release.
pub fn finalize_mpi() {
}

} // verus!
