//! Cell-grid A* for grounded actors.
//!
//! An actor is one cell wide and two cells tall. It walks in the four
//! horizontal directions, may climb or descend one cell per step, and never
//! jumps a gap. Costs are exact fixed-point numbers: [`COST_ONE`] is the price
//! of one level step over ordinary ground.

use crate::ord_map::CellMap;
use crate::cells::{axis_gap, dir_dx, dir_dz, fits_i32, gap, shifted, IVec3};
use vstd::prelude::*;

verus! {

/// What the pathfinder needs to know about the world.
pub trait Walkability {
    /// The cell carries weight: an actor can stand on top of it.
    spec fn solid(&self, cell: IVec3) -> bool;

    /// The cell stops an actor's body.
    spec fn body_blocked(&self, cell: IVec3) -> bool;

    /// Price of walking onto the cell, in units of one thousandth.
    spec fn price(&self, cell: IVec3) -> nat;

    /// True if `cell` is occupied. Unloaded ground counts as occupied, so a
    /// search never commits to unknown territory.
    fn is_solid(&self, cell: IVec3) -> (r: bool)
        ensures
            r == self.solid(cell),
    ;

    /// True if an actor's body cannot pass through `cell`.
    fn blocks_body(&self, cell: IVec3) -> (r: bool)
        ensures
            r == self.body_blocked(cell),
    ;

    /// Price of walking onto `cell`; [`COST_ONE`] for ordinary ground.
    fn cost(&self, cell: IVec3) -> (r: u32)
        ensures
            r == self.price(cell),
    ;
}

/// The price of ordinary ground.
pub const COST_ONE: u32 = 1000;

/// A level or downward step costs the cell's price times ten, in
/// ten-thousandths of a step.
pub const LEVEL_FACTOR: u32 = 10;

/// A climb costs the cell's price times fourteen, so a search prefers a
/// slightly longer level detour.
pub const STEP_UP_FACTOR: u32 = 14;

/// One level step over ordinary ground, in ten-thousandths.
pub const STEP_UNIT: u32 = 10000;

/// A world given by the set of its occupied cells; everything else is air.
pub struct CellGrid {
    cells: CellMap<()>,
}

impl View for CellGrid {
    type V = Set<IVec3>;

    closed spec fn view(&self) -> Set<IVec3> {
        self.cells@.dom()
    }
}

impl Walkability for CellGrid {
    open spec fn solid(&self, cell: IVec3) -> bool {
        self@.contains(cell)
    }

    open spec fn body_blocked(&self, cell: IVec3) -> bool {
        self@.contains(cell)
    }

    open spec fn price(&self, cell: IVec3) -> nat {
        COST_ONE as nat
    }

    fn is_solid(&self, cell: IVec3) -> (r: bool) {
        self.cells.contains(cell)
    }

    fn blocks_body(&self, cell: IVec3) -> (r: bool) {
        self.cells.contains(cell)
    }

    fn cost(&self, cell: IVec3) -> (r: u32) {
        COST_ONE
    }
}

impl CellGrid {
    pub fn new() -> (r: CellGrid)
        ensures
            r@ == Set::<IVec3>::empty(),
    {
        let r = CellGrid { cells: CellMap::new() };
        assert(r@ =~= Set::<IVec3>::empty());
        r
    }

    pub fn insert(&mut self, cell: IVec3)
        ensures
            final(self)@ == old(self)@.insert(cell),
    {
        let _ = self.cells.insert(cell, ());
        assert(self@ =~= old(self)@.insert(cell));
    }

    pub fn remove(&mut self, cell: IVec3)
        ensures
            final(self)@ == old(self)@.remove(cell),
    {
        let _ = self.cells.remove(cell);
        assert(self@ =~= old(self)@.remove(cell));
    }
}

/// An actor fits at `foot`: foot and head cell empty, supporting cell solid.
pub open spec fn can_stand<W: Walkability>(world: &W, foot: IVec3) -> bool {
    &&& i32::MIN < foot.y < i32::MAX
    &&& !world.solid(foot)
    &&& !world.solid(shifted(foot, 0, 1, 0))
    &&& world.solid(shifted(foot, 0, -1, 0))
}

/// True when an actor with a one by two cell body can stand at `foot`.
pub fn standable<W: Walkability>(world: &W, foot: IVec3) -> (r: bool)
    ensures
        r == can_stand(world, foot),
{
    if foot.y == i32::MIN || foot.y == i32::MAX {
        return false;
    }
    !world.is_solid(foot) && !world.is_solid(foot.shift(0, 1, 0)) && world.is_solid(
        foot.shift(0, -1, 0),
    )
}

/// Sign of the way from `a` to `b` on one axis.
pub open spec fn heading(a: int, b: int) -> int {
    if b > a {
        1
    } else if b < a {
        -1
    } else {
        0
    }
}

/// The straight segment between the centre of cell `(0, 0)` and the centre of
/// cell `(nx, nz)` meets cell `(i, j)`, a shared corner included.
pub open spec fn segment_meets(nx: int, nz: int, i: int, j: int) -> bool {
    &&& (2 * i - 1) * nz <= (2 * j + 1) * nx
    &&& (2 * j - 1) * nx <= (2 * i + 1) * nz
}

/// The cell `i` steps along x and `j` steps along z on the way from `a` to `b`.
pub open spec fn on_the_way(a: IVec3, b: IVec3, i: int, j: int) -> IVec3 {
    shifted(a, heading(a.x as int, b.x as int) * i, 0, heading(a.z as int, b.z as int) * j)
}

/// A body can go in a straight line from `a` to `b`: same height, and an actor
/// can stand on every cell that the line between the two centres meets.
pub open spec fn clear_line<W: Walkability>(world: &W, a: IVec3, b: IVec3) -> bool {
    let nx = gap(a.x as int, b.x as int);
    let nz = gap(a.z as int, b.z as int);
    a.y == b.y && (a == b || forall|i: int, j: int|
        #![trigger on_the_way(a, b, i, j)]
        0 <= i <= nx && 0 <= j <= nz && segment_meets(nx, nz, i, j) ==> can_stand(
            world,
            on_the_way(a, b, i, j),
        ))
}

proof fn lemma_line_bounds(nx: int, nz: int, i: int, j: int)
    requires
        0 <= i <= nx,
        0 <= j <= nz,
        nx + nz > 0,
        (i, j) != (nx, nz),
        (2 * i - 1) * nz < (2 * j + 1) * nx,
        (2 * j - 1) * nx < (2 * i + 1) * nz,
    ensures
        (2 * i + 1) * nz < (2 * j + 1) * nx ==> i < nx,
        (2 * i + 1) * nz > (2 * j + 1) * nx ==> j < nz,
        (2 * i + 1) * nz == (2 * j + 1) * nx ==> i < nx && j < nz,
{
    if i == nx {
        assert((2 * j + 1) * nx <= (2 * nz - 1) * nx) by (nonlinear_arith)
            requires
                j <= nz - 1,
                nx >= 0,
        ;
        assert((2 * nz - 1) * nx == 2 * (nx * nz) - nx) by (nonlinear_arith);
        assert((2 * nx + 1) * nz == 2 * (nx * nz) + nz) by (nonlinear_arith);
    }
    if j == nz {
        assert((2 * i + 1) * nz <= (2 * nx - 1) * nz) by (nonlinear_arith)
            requires
                i <= nx - 1,
                nz >= 0,
        ;
        assert((2 * nx - 1) * nz == 2 * (nx * nz) - nz) by (nonlinear_arith);
        assert((2 * nz + 1) * nx == 2 * (nx * nz) + nx) by (nonlinear_arith);
    }
}

proof fn lemma_signed(sign: int, k: int)
    requires
        sign == 1 || sign == -1 || sign == 0,
    ensures
        sign * k == (if sign == 1 {
            k
        } else if sign == -1 {
            -k
        } else {
            0
        }),
{
}

/// Cells of an earlier row that meet the segment lie behind the current one.
proof fn lemma_line_column(nx: int, nz: int, i: int, j: int)
    requires
        0 <= nx,
        0 <= nz,
        nx + nz > 0,
        (2 * i - 1) * nz < (2 * j + 1) * nx,
        (2 * j - 1) * nx < (2 * i + 1) * nz,
    ensures
        forall|q: int| q < j ==> !(#[trigger] segment_meets(nx, nz, i + 1, q)),
        forall|p: int| p < i ==> !(#[trigger] segment_meets(nx, nz, p, j + 1)),
{
    assert forall|q: int| q < j implies !(#[trigger] segment_meets(nx, nz, i + 1, q)) by {
        assert((2 * q + 1) * nx <= (2 * j - 1) * nx) by (nonlinear_arith)
            requires
                q <= j - 1,
                nx >= 0,
        ;
        assert((2 * (i + 1) - 1) * nz == (2 * i + 1) * nz) by (nonlinear_arith);
    }
    assert forall|p: int| p < i implies !(#[trigger] segment_meets(nx, nz, p, j + 1)) by {
        assert((2 * p + 1) * nz <= (2 * i - 1) * nz) by (nonlinear_arith)
            requires
                p <= i - 1,
                nz >= 0,
        ;
        assert((2 * (j + 1) - 1) * nx == (2 * j + 1) * nx) by (nonlinear_arith);
    }
}

/// True if a body can travel in a straight line from cell `a` to cell `b`
/// without entering a cell it cannot stand on. Where the line runs exactly
/// through a corner, both flanking cells count as entered.
pub fn line_of_sight<W: Walkability>(a: IVec3, b: IVec3, world: &W) -> (r: bool)
    ensures
        r == clear_line(world, a, b),
{
    if a.y != b.y {
        return false;
    }
    if a == b {
        return true;
    }
    let nx: i64 = crate::cells::axis_gap(a.x, b.x);
    let nz: i64 = crate::cells::axis_gap(a.z, b.z);
    let step_x: i32 = if b.x > a.x {
        1
    } else if b.x < a.x {
        -1
    } else {
        0
    };
    let step_z: i32 = if b.z > a.z {
        1
    } else if b.z < a.z {
        -1
    } else {
        0
    };
    let ghost gx = nx as int;
    let ghost gz = nz as int;
    let mut cell: IVec3 = a;
    let mut i: i64 = 0;
    let mut j: i64 = 0;
    assert(on_the_way(a, b, 0, 0) == a);
    assert(segment_meets(gx, gz, 0, 0)) by (nonlinear_arith)
        requires
            gx >= 0,
            gz >= 0,
    ;
    if !standable(world, cell) {
        return false;
    }
    assert((2 * 0 - 1) * gz < (2 * 0 + 1) * gx);
    assert((2 * 0 - 1) * gx < (2 * 0 + 1) * gz);
    assert forall|p: int, q: int|
        #![trigger on_the_way(a, b, p, q)]
        0 <= p <= 0 && 0 <= q <= 0 && segment_meets(gx, gz, p, q) implies can_stand(
        world,
        on_the_way(a, b, p, q),
    ) by {
        assert(p == 0 && q == 0);
    }
    while i != nx || j != nz
        invariant
            gx == nx,
            gz == nz,
            nx == gap(a.x as int, b.x as int),
            nz == gap(a.z as int, b.z as int),
            0 <= nx < 0x1_0000_0000,
            0 <= nz < 0x1_0000_0000,
            nx + nz > 0,
            a != b,
            a.y == b.y,
            step_x == heading(a.x as int, b.x as int),
            step_z == heading(a.z as int, b.z as int),
            0 <= i <= nx,
            0 <= j <= nz,
            cell.x == a.x + step_x * i,
            cell.y == a.y,
            cell.z == a.z + step_z * j,
            (2 * i - 1) * gz < (2 * j + 1) * gx,
            (2 * j - 1) * gx < (2 * i + 1) * gz,
            forall|p: int, q: int|
                #![trigger on_the_way(a, b, p, q)]
                0 <= p <= i && 0 <= q <= j && segment_meets(gx, gz, p, q) ==> can_stand(
                    world,
                    on_the_way(a, b, p, q),
                ),
        decreases nx - i + nz - j,
    {
        proof {
            lemma_line_bounds(gx, gz, i as int, j as int);
            lemma_line_column(gx, gz, i as int, j as int);
            assert(0 <= (2 * i + 1) * gz <= 0x2_0000_0001 * 0x1_0000_0000) by (nonlinear_arith)
                requires
                    0 <= i <= 0x1_0000_0000,
                    0 <= gz <= 0x1_0000_0000,
            ;
            assert(0 <= (2 * j + 1) * gx <= 0x2_0000_0001 * 0x1_0000_0000) by (nonlinear_arith)
                requires
                    0 <= j <= 0x1_0000_0000,
                    0 <= gx <= 0x1_0000_0000,
            ;
        }
        let at_x: i128 = (2 * i as i128 + 1) * nz as i128;
        let at_z: i128 = (2 * j as i128 + 1) * nx as i128;
        let ghost i0 = i as int;
        let ghost j0 = j as int;
        assert((2 * (i0 + 1) - 1) * gz == (2 * i0 + 1) * gz) by (nonlinear_arith);
        assert((2 * (j0 + 1) - 1) * gx == (2 * j0 + 1) * gx) by (nonlinear_arith);
        assert((2 * (i0 + 1) + 1) * gz == (2 * i0 + 1) * gz + 2 * gz) by (nonlinear_arith);
        assert((2 * (j0 + 1) + 1) * gx == (2 * j0 + 1) * gx + 2 * gx) by (nonlinear_arith);
        proof {
            lemma_signed(step_x as int, i0);
            lemma_signed(step_x as int, i0 + 1);
            lemma_signed(step_z as int, j0);
            lemma_signed(step_z as int, j0 + 1);
        }
        if at_x == at_z {
            let flank_x: IVec3 = cell.shift(step_x, 0, 0);
            let flank_z: IVec3 = cell.shift(0, 0, step_z);
            assert(flank_x == on_the_way(a, b, i0 + 1, j0));
            assert(flank_z == on_the_way(a, b, i0, j0 + 1));
            assert(segment_meets(gx, gz, i0 + 1, j0));
            assert(segment_meets(gx, gz, i0, j0 + 1));
            assert(segment_meets(gx, gz, i0 + 1, j0 + 1));
            if !standable(world, flank_x) || !standable(world, flank_z) {
                return false;
            }
            cell = cell.shift(step_x, 0, step_z);
            i = i + 1;
            j = j + 1;
        } else if at_x < at_z {
            assert(segment_meets(gx, gz, i0 + 1, j0));
            cell = cell.shift(step_x, 0, 0);
            i = i + 1;
        } else {
            assert(segment_meets(gx, gz, i0, j0 + 1));
            cell = cell.shift(0, 0, step_z);
            j = j + 1;
        }
        assert(cell == on_the_way(a, b, i as int, j as int));
        if !standable(world, cell) {
            return false;
        }
        assert forall|p: int, q: int|
            #![trigger on_the_way(a, b, p, q)]
            0 <= p <= i && 0 <= q <= j && segment_meets(gx, gz, p, q) implies can_stand(
            world,
            on_the_way(a, b, p, q),
        ) by {
            if p <= i0 && q <= j0 {
            } else if p == i0 + 1 && q < j0 {
            } else if q == j0 + 1 && p < i0 {
            }
        }
    }
    true
}

/// What string pulling keeps of `path` from position `i` on, when `anchor` is
/// the last waypoint kept: a waypoint is dropped while the anchor sees past it.
pub open spec fn pulled<W: Walkability>(
    world: &W,
    path: Seq<IVec3>,
    anchor: IVec3,
    i: int,
) -> Seq<IVec3>
    decreases path.len() - i,
{
    if i + 1 >= path.len() {
        seq![path.last()]
    } else if clear_line(world, anchor, path[i + 1]) {
        pulled(world, path, anchor, i + 1)
    } else {
        seq![path[i]] + pulled(world, path, path[i], i + 1)
    }
}

/// The string-pulled form of a path.
pub open spec fn smoothed<W: Walkability>(world: &W, path: Seq<IVec3>) -> Seq<IVec3> {
    if path.len() <= 2 {
        path
    } else {
        seq![path[0]] + pulled(world, path, path[0], 1)
    }
}

/// String-pulling smoother: drops every waypoint that the straight line from
/// the previously kept cell could bypass. Height changes always survive,
/// because a line never spans two heights.
pub fn smooth_path<W: Walkability>(path: Vec<IVec3>, world: &W) -> (out: Vec<IVec3>)
    ensures
        out@ == smoothed(world, path@),
        path@.len() > 0 ==> out@.len() > 0,
{
    if path.len() <= 2 {
        return path;
    }
    let mut out: Vec<IVec3> = Vec::with_capacity(path.len());
    out.push(path[0]);
    let mut anchor: IVec3 = path[0];
    let mut i: usize = 1;
    assert(out@ + pulled(world, path@, anchor, 1) =~= smoothed(world, path@));
    while i < path.len() - 1
        invariant
            path@.len() > 2,
            1 <= i < path@.len(),
            out@.len() > 0,
            out@ + pulled(world, path@, anchor, i as int) == smoothed(world, path@),
        decreases path@.len() - i,
    {
        if line_of_sight(anchor, path[i + 1], world) {
            i = i + 1;
        } else {
            let ghost rest = pulled(world, path@, path@[i as int], i + 1);
            assert(out@ + (seq![path@[i as int]] + rest) =~= out@.push(path@[i as int]) + rest);
            out.push(path[i]);
            anchor = path[i];
            i = i + 1;
        }
    }
    assert(out@ + seq![path@.last()] =~= out@.push(path@.last()));
    out.push(path[path.len() - 1]);
    out
}

/// `idx` lists positions of `path` in increasing order, starting after `from`,
/// and every hop between them (the first one from `from`) is either between
/// neighbours of `path` or along a clear line.
pub open spec fn pulls<W: Walkability>(
    world: &W,
    path: Seq<IVec3>,
    from: int,
    idx: Seq<int>,
) -> bool
    decreases idx.len(),
{
    idx.len() > 0 ==> {
        &&& from < idx[0] < path.len()
        &&& idx[0] == from + 1 || clear_line(world, path[from], path[idx[0]])
        &&& pulls(world, path, idx[0], idx.drop_first())
    }
}

proof fn lemma_pulled<W: Walkability>(world: &W, path: Seq<IVec3>, a: int, i: int) -> (idx: Seq<
    int,
>)
    requires
        0 <= a < i < path.len(),
        i == a + 1 || clear_line(world, path[a], path[i]),
    ensures
        pulls(world, path, a, idx),
        idx.len() > 0,
        idx.last() == path.len() - 1,
        pulled(world, path, path[a], i) == Seq::new(idx.len(), |k: int| path[idx[k]]),
        forall|k: int, j: int|
            #![trigger idx[k], idx[j]]
            0 <= k < idx.len() - 1 && j == k - 1 ==> !clear_line(
                world,
                path[if k == 0 {
                    a
                } else {
                    idx[j]
                }],
                path[idx[k] + 1],
            ),
        idx.len() > 1 ==> !clear_line(world, path[a], path[idx[0] + 1]),
    decreases path.len() - i,
{
    if i + 1 >= path.len() {
        let idx = seq![i];
        assert(idx.drop_first() =~= Seq::<int>::empty());
        assert(pulls(world, path, i, idx.drop_first()));
        assert(pulled(world, path, path[a], i) =~= Seq::new(idx.len(), |k: int| path[idx[k]]));
        idx
    } else if clear_line(world, path[a], path[i + 1]) {
        lemma_pulled(world, path, a, i + 1)
    } else {
        let rest = lemma_pulled(world, path, i, i + 1);
        let idx = seq![i] + rest;
        assert(idx.drop_first() =~= rest);
        assert(pulled(world, path, path[a], i) =~= Seq::new(idx.len(), |k: int| path[idx[k]]));
        assert forall|k: int, j: int|
            #![trigger idx[k], idx[j]]
            0 <= k < idx.len() - 1 && j == k - 1 implies !clear_line(
            world,
            path[if k == 0 {
                a
            } else {
                idx[j]
            }],
            path[idx[k] + 1],
        ) by {
            if k == 1 {
                assert(rest[0] == idx[1]);
            } else if k > 1 {
                assert(rest[k - 1] == idx[k]);
                assert(rest[j - 1] == idx[j]);
            }
        }
        idx
    }
}

/// Smoothing keeps both ends, only ever drops waypoints, and joins two kept
/// waypoints only where they were neighbours already or see each other. It keeps
/// a waypoint between its ends only where the one kept before does not see the
/// cell that came next.
pub proof fn law_smoothing_pulls_clear_lines<W: Walkability>(world: &W, path: Seq<IVec3>) -> (idx:
    Seq<int>)
    requires
        path.len() > 0,
    ensures
        smoothed(world, path).len() == idx.len() + 1,
        smoothed(world, path)[0] == path[0],
        smoothed(world, path).last() == path.last(),
        pulls(world, path, 0, idx),
        forall|k: int| 0 <= k < idx.len() ==> smoothed(world, path)[k + 1] == path[#[trigger] idx[k]],
        path.len() > 2 && idx.len() > 1 ==> !clear_line(world, path[0], path[idx[0] + 1]),
        forall|k: int, j: int|
            #![trigger idx[k], idx[j]]
            path.len() > 2 && 0 < k < idx.len() - 1 && j == k - 1 ==> !clear_line(
                world,
                path[idx[j]],
                path[idx[k] + 1],
            ),
{
    if path.len() == 1 {
        assert(pulls(world, path, 0, Seq::empty()));
        Seq::empty()
    } else if path.len() == 2 {
        let idx = seq![1int];
        assert(idx.drop_first() =~= Seq::<int>::empty());
        assert(pulls(world, path, 1, idx.drop_first()));
        idx
    } else {
        lemma_pulled(world, path, 0, 1)
    }
}

/// A step that leads off the level is never part of a clear line: where the
/// line to the cell after next is clear, the step would have been level.
proof fn lemma_level_first<W: Walkability>(world: &W, a: IVec3, b: IVec3, c: IVec3)
    requires
        legal_step(world, a, b),
        legal_step(world, b, c),
        a != c,
        clear_line(world, a, c),
    ensures
        b.y == a.y,
{
    let d = choose|d: int| 0 <= d < 4 && #[trigger] step_to(world, a, d) == Some(b);
    let e = choose|e: int| 0 <= e < 4 && #[trigger] step_to(world, b, e) == Some(c);
    assert(step_to(world, a, d) == Some(b));
    assert(step_to(world, b, e) == Some(c));
    let i = if d == 0 || d == 1 {
        1int
    } else {
        0
    };
    let j = 1 - i;
    let nx = gap(a.x as int, c.x as int);
    let nz = gap(a.z as int, c.z as int);
    assert(b.x == a.x + dir_dx(d) && b.z == a.z + dir_dz(d));
    assert(c.x == b.x + dir_dx(e) && c.z == b.z + dir_dz(e));
    if dir_dx(d) + dir_dx(e) == 0 && dir_dz(d) + dir_dz(e) == 0 {
        assert(a == c);
    } else {
        assert((nx == 2 && nz == 0 && i == 1) || (nx == 0 && nz == 2 && i == 0) || (nx == 1 && nz
            == 1));
        assert(segment_meets(nx, nz, i, j)) by {
            if nx == 2 {
                assert(segment_meets(2, 0, 1, 0));
            } else if nz == 2 {
                assert(segment_meets(0, 2, 0, 1));
            } else if i == 1 {
                assert(segment_meets(1, 1, 1, 0));
            } else {
                assert(segment_meets(1, 1, 0, 1));
            }
        }
        assert(can_stand(world, on_the_way(a, c, i, j)));
        assert(on_the_way(a, c, i, j) == shifted(a, dir_dx(d), 0, dir_dz(d)));
    }
}

/// The two cells stand side by side in the list, at `j`.
pub open spec fn side_by_side(list: Seq<IVec3>, a: IVec3, b: IVec3, j: int) -> bool {
    0 <= j < list.len() - 1 && list[j] == a && list[j + 1] == b
}

/// The anchor at `a` sees every cell from the one after next up to `i`.
spec fn seen_from<W: Walkability>(world: &W, path: Seq<IVec3>, a: int, i: int) -> bool {
    &&& 0 <= a < i < path.len()
    &&& forall|m: int| a + 2 <= m <= i ==> clear_line(world, path[a], #[trigger] path[m])
}

proof fn lemma_change_kept<W: Walkability>(
    world: &W,
    path: Seq<IVec3>,
    start: IVec3,
    goal: IVec3,
    a: int,
    i: int,
    k: int,
) -> (j: int)
    requires
        is_walk(world, path, start, goal),
        path.no_duplicates(),
        seen_from(world, path, a, i),
        a <= k < path.len() - 1,
        path[k].y != path[k + 1].y,
    ensures
        side_by_side(seq![path[a]] + pulled(world, path, path[a], i), path[k], path[k + 1], j),
    decreases path.len() - i,
{
    let out = seq![path[a]] + pulled(world, path, path[a], i);
    if k < i && i > a + 1 {
        assert(steps_on(world, path, a));
        assert(steps_on(world, path, a + 1));
        assert(clear_line(world, path[a], path[a + 2]));
        assert(path[a] != path[a + 2]);
        lemma_level_first(world, path[a], path[a + 1], path[a + 2]);
        if k > a {
            if k >= a + 2 {
                assert(clear_line(world, path[a], path[k]));
            }
            assert(clear_line(world, path[a], path[k + 1]));
        }
        assert(path[k].y == path[a].y);
        assert(path[k + 1].y == path[a].y);
        0
    } else if i + 1 >= path.len() {
        assert(pulled(world, path, path[a], i) =~= seq![path.last()]);
        assert(out[0] == path[a] && out[1] == path[i]);
        0
    } else if clear_line(world, path[a], path[i + 1]) {
        lemma_change_kept(world, path, start, goal, a, i + 1, k)
    } else {
        let rest = seq![path[i]] + pulled(world, path, path[i], i + 1);
        assert(pulled(world, path, path[a], i) == rest);
        if k < i {
            assert(out[0] == path[a] && out[1] == rest[0]);
            0
        } else {
            let j = lemma_change_kept(world, path, start, goal, i, i + 1, k);
            assert(out[j + 1] == rest[j] && out[j + 2] == rest[j + 1]);
            j + 1
        }
    }
}

/// No step up or down is smoothed away: where a walk without repeated cells,
/// such as a path that was found, changes its height, both cells stay in the
/// smoothed path, side by side.
pub proof fn law_smoothing_keeps_height_changes<W: Walkability>(
    world: &W,
    path: Seq<IVec3>,
    start: IVec3,
    goal: IVec3,
    k: int,
) -> (j: int)
    requires
        is_walk(world, path, start, goal),
        path.no_duplicates(),
        0 <= k < path.len() - 1,
        path[k].y != path[k + 1].y,
    ensures
        side_by_side(smoothed(world, path), path[k], path[k + 1], j),
{
    if path.len() <= 2 {
        k
    } else {
        lemma_change_kept(world, path, start, goal, 0, 1, k)
    }
}

/// Drops straight down from `from` to the highest cell an actor can stand on,
/// at most `max_drop` cells below.
pub fn nearest_standable_below<W: Walkability>(
    world: &W,
    from: IVec3,
    max_drop: i32,
) -> (r: Option<IVec3>)
    requires
        max_drop >= 0 ==> from.y - max_drop >= i32::MIN,
    ensures
        r is None <==> forall|dy: int|
            0 <= dy <= max_drop ==> !can_stand(world, #[trigger] shifted(from, 0, -dy, 0)),
        r matches Some(c) ==> {
            &&& c.x == from.x && c.z == from.z
            &&& 0 <= from.y - c.y <= max_drop
            &&& can_stand(world, c)
            &&& forall|dy: int|
                0 <= dy < from.y - c.y ==> !can_stand(world, #[trigger] shifted(from, 0, -dy, 0))
        },
{
    let mut dy: i32 = 0;
    while dy <= max_drop
        invariant
            0 <= dy,
            max_drop >= 0 ==> dy <= max_drop + 1,
            max_drop >= 0 ==> from.y - max_drop >= i32::MIN,
            forall|k: int| 0 <= k < dy ==> !can_stand(world, #[trigger] shifted(from, 0, -k, 0)),
        decreases max_drop + 1 - dy,
    {
        let cell: IVec3 = from.shift(0, -dy, 0);
        assert(cell == shifted(from, 0, -(dy as int), 0));
        if standable(world, cell) {
            return Some(cell);
        }
        if dy == max_drop {
            return None;
        }
        dy = dy + 1;
    }
    None
}

/// Where a walker at `from` ends up when it takes one step in direction `d`:
/// level if possible, else one up (with head room to climb), else one down
/// (with room to walk through). No step leads beyond the coordinates.
pub open spec fn step_to<W: Walkability>(world: &W, from: IVec3, d: int) -> Option<IVec3> {
    let same = shifted(from, dir_dx(d), 0, dir_dz(d));
    let up = shifted(same, 0, 1, 0);
    let down = shifted(same, 0, -1, 0);
    if !fits_i32(from.x + dir_dx(d)) || !fits_i32(from.z + dir_dz(d)) {
        None
    } else if can_stand(world, same) {
        Some(same)
    } else if from.y + 2 <= i32::MAX && !world.solid(shifted(from, 0, 2, 0)) && can_stand(world, up) {
        Some(up)
    } else if from.y - 1 >= i32::MIN && !world.solid(same) && can_stand(world, down) {
        Some(down)
    } else {
        None
    }
}

/// One step leads from `a` to `b`.
pub open spec fn legal_step<W: Walkability>(world: &W, a: IVec3, b: IVec3) -> bool {
    exists|d: int| 0 <= d < 4 && #[trigger] step_to(world, a, d) == Some(b)
}

/// What the kind of step from `a` to `b` costs, before the ground counts.
pub open spec fn step_factor(a: IVec3, b: IVec3) -> int {
    if b.y > a.y {
        STEP_UP_FACTOR as int
    } else {
        LEVEL_FACTOR as int
    }
}

/// What the step from `a` to `b` costs, in ten-thousandths of a level step.
pub open spec fn step_price<W: Walkability>(world: &W, a: IVec3, b: IVec3) -> int {
    world.price(b) * step_factor(a, b)
}

pub open spec fn steps_on<W: Walkability>(world: &W, p: Seq<IVec3>, i: int) -> bool {
    legal_step(world, p[i], p[i + 1])
}

/// A walk from `a` to `b`: each cell is one step from the one before.
pub open spec fn is_walk<W: Walkability>(world: &W, p: Seq<IVec3>, a: IVec3, b: IVec3) -> bool {
    &&& p.len() > 0
    &&& p[0] == a
    &&& p.last() == b
    &&& forall|i: int| 0 <= i < p.len() - 1 ==> #[trigger] steps_on(world, p, i)
}

/// Cost of the walk from position `i` to its end.
pub open spec fn cost_from<W: Walkability>(world: &W, p: Seq<IVec3>, i: int) -> int
    decreases p.len() - i,
{
    if i + 1 >= p.len() {
        0
    } else {
        step_price(world, p[i], p[i + 1]) + cost_from(world, p, i + 1)
    }
}

/// Cost of a whole walk.
pub open spec fn walk_cost<W: Walkability>(world: &W, p: Seq<IVec3>) -> int {
    cost_from(world, p, 0)
}

/// Some walk from `a` reaches `b` at exactly this cost.
pub open spec fn reaches_at<W: Walkability>(world: &W, a: IVec3, b: IVec3, cost: int) -> bool {
    exists|p: Seq<IVec3>| #[trigger] is_walk(world, p, a, b) && walk_cost(world, p) == cost
}

pub open spec fn priced_fully<W: Walkability>(world: &W, p: Seq<IVec3>, i: int) -> bool {
    world.price(p[i + 1]) >= COST_ONE
}

/// The walk enters only cells that cost at least what ordinary ground does.
pub open spec fn full_price<W: Walkability>(world: &W, p: Seq<IVec3>) -> bool {
    forall|i: int| 0 <= i < p.len() - 1 ==> #[trigger] priced_fully(world, p, i)
}

/// The fewest steps from `a` to `b`: heights do not count, since a step up or
/// down also leads one cell on.
pub open spec fn steps_between(a: IVec3, b: IVec3) -> int {
    gap(a.x as int, b.x as int) + gap(a.z as int, b.z as int)
}

/// The largest cost that `max_path_len` level steps allow.
pub open spec fn cost_limit(max_path_len: usize) -> int {
    max_path_len * STEP_UNIT
}

// ---------- the search ----------

/// What the search knows about a cell: the cost of the best way found so far,
/// and the cell before it on that way.
pub struct Label {
    pub g: int,
    pub prev: Option<IVec3>,
}

/// A search under way: the cells reached, and those that wait, each with the
/// estimated cost of a walk through it, in the order in which they came.
pub struct SearchView {
    pub known: Map<IVec3, Label>,
    pub open: Seq<(int, IVec3)>,
}

/// The estimated cost of a walk to `goal` that reaches `c` at cost `g`.
pub open spec fn estimate(g: int, c: IVec3, goal: IVec3) -> int {
    g + STEP_UNIT * steps_between(c, goal)
}

/// A search that has only begun.
pub open spec fn search_begun(start: IVec3, goal: IVec3) -> SearchView {
    SearchView {
        known: Map::empty().insert(start, Label { g: 0, prev: None }),
        open: seq![(estimate(0, start, goal), start)],
    }
}

/// The search after the step out of `cell` in direction `d` was looked at: it
/// counts where it stays within the limit and beats what is known.
pub open spec fn offered<W: Walkability>(
    world: &W,
    goal: IVec3,
    limit: int,
    cell: IVec3,
    s: SearchView,
    d: int,
) -> SearchView {
    match step_to(world, cell, d) {
        None => s,
        Some(next) => {
            let g = s.known[cell].g + step_price(world, cell, next);
            if g <= limit && (s.known.contains_key(next) ==> g < s.known[next].g) {
                SearchView {
                    known: s.known.insert(next, Label { g, prev: Some(cell) }),
                    open: s.open.push((estimate(g, next, goal), next)),
                }
            } else {
                s
            }
        },
    }
}

/// The search after the first `dirs` steps out of `cell` were looked at.
pub open spec fn expanded<W: Walkability>(
    world: &W,
    goal: IVec3,
    limit: int,
    cell: IVec3,
    s: SearchView,
    dirs: nat,
) -> SearchView
    decreases dirs,
{
    if dirs == 0 {
        s
    } else {
        let before = expanded(world, goal, limit, cell, s, (dirs - 1) as nat);
        offered(world, goal, limit, cell, before, dirs - 1)
    }
}

/// Place of the smallest estimate; of equal ones, of the one that came first.
pub open spec fn first_best(open: Seq<(int, IVec3)>) -> int
    decreases open.len(),
{
    if open.len() <= 1 {
        0
    } else {
        let b = first_best(open.drop_last());
        if open.last().0 < open[b].0 {
            open.len() - 1
        } else {
            b
        }
    }
}

/// The search without its most promising entry.
pub open spec fn popped(s: SearchView) -> SearchView {
    SearchView { known: s.known, open: s.open.remove(first_best(s.open)) }
}

/// What is known when the search comes to its goal, if it does within
/// `budget` more expansions: it always goes on from the most promising cell.
pub open spec fn search_end<W: Walkability>(
    world: &W,
    goal: IVec3,
    limit: int,
    s: SearchView,
    budget: nat,
) -> Option<Map<IVec3, Label>>
    decreases budget,
{
    if s.open.len() == 0 {
        None
    } else {
        let cell = s.open[first_best(s.open)].1;
        if cell == goal {
            Some(s.known)
        } else if budget == 0 {
            None
        } else {
            search_end(
                world,
                goal,
                limit,
                expanded(world, goal, limit, cell, popped(s), 4),
                (budget - 1) as nat,
            )
        }
    }
}

pub open spec fn came_from(known: Map<IVec3, Label>, p: Seq<IVec3>, i: int) -> bool {
    known[p[i + 1]].prev == Some(p[i])
}

/// The path leads along the best ways known to `goal`.
pub open spec fn traces(known: Map<IVec3, Label>, p: Seq<IVec3>, goal: IVec3) -> bool {
    &&& p.len() > 0
    &&& p.last() == goal
    &&& known[p[0]].prev is None
    &&& forall|i: int| 0 <= i < p.len() - 1 ==> #[trigger] came_from(known, p, i)
}

/// The path that the search finds, if it finds one within its budgets.
pub open spec fn searched<W: Walkability>(
    world: &W,
    start: IVec3,
    goal: IVec3,
    max_nodes: usize,
    max_path_len: usize,
) -> Option<Seq<IVec3>> {
    if start == goal {
        Some(seq![start])
    } else if !can_stand(world, start) || !can_stand(world, goal) {
        None
    } else {
        match search_end(
            world,
            goal,
            cost_limit(max_path_len),
            search_begun(start, goal),
            max_nodes as nat,
        ) {
            Some(known) => Some(choose|p: Seq<IVec3>| traces(known, p, goal)),
            None => None,
        }
    }
}

/// A cell reached at some cost within the limit.
pub open spec fn arrival<W: Walkability>(
    world: &W,
    start: IVec3,
    limit: int,
    a: (IVec3, int),
) -> bool {
    a.1 <= limit && reaches_at(world, start, a.0, a.1)
}

/// A walk to the goal over ground of full price, within the limit.
pub open spec fn fair_walk<W: Walkability>(
    world: &W,
    p: Seq<IVec3>,
    start: IVec3,
    goal: IVec3,
    limit: int,
) -> bool {
    is_walk(world, p, start, goal) && full_price(world, p) && walk_cost(world, p) <= limit
}

/// These are different arrivals, each of which promises a walk to the goal no
/// dearer than any fair one.
pub open spec fn promising<W: Walkability>(
    world: &W,
    start: IVec3,
    goal: IVec3,
    limit: int,
    s: Seq<(IVec3, int)>,
) -> bool {
    &&& s.no_duplicates()
    &&& forall|k: int| 0 <= k < s.len() ==> arrival(world, start, limit, #[trigger] s[k])
    &&& forall|k: int, p: Seq<IVec3>|
        #![trigger s[k], fair_walk(world, p, start, goal, limit)]
        0 <= k < s.len() && fair_walk(world, p, start, goal, limit) ==> estimate(
            s[k].1,
            s[k].0,
            goal,
        ) <= walk_cost(world, p)
}

/// There are more promising arrivals than the search may expand.
pub open spec fn over_budget<W: Walkability>(
    world: &W,
    start: IVec3,
    goal: IVec3,
    limit: int,
    max_nodes: usize,
) -> bool {
    exists|s: Seq<(IVec3, int)>|
        s.len() > max_nodes && #[trigger] promising(world, start, goal, limit, s)
}

/// What the search answers: a walk without detours into itself, within both
/// budgets, and no dearer than any fair walk; or none where no walk is within
/// the limit, or where too many cells are as promising as the goal.
pub open spec fn path_answer<W: Walkability>(
    world: &W,
    start: IVec3,
    goal: IVec3,
    max_nodes: usize,
    max_path_len: usize,
    r: Option<Seq<IVec3>>,
) -> bool {
    let limit = cost_limit(max_path_len);
    &&& r == searched(world, start, goal, max_nodes, max_path_len)
    &&& start == goal ==> r == Some(seq![start])
    &&& start != goal ==> match r {
        Some(path) => {
            &&& can_stand(world, start)
            &&& can_stand(world, goal)
            &&& is_walk(world, path, start, goal)
            &&& path.no_duplicates()
            &&& path.len() - 1 <= max_nodes
            &&& walk_cost(world, path) <= limit
            &&& forall|p: Seq<IVec3>| #[trigger]
                fair_walk(world, p, start, goal, limit) ==> walk_cost(world, path) <= walk_cost(
                    world,
                    p,
                )
        },
        None => {
            ||| !can_stand(world, start)
            ||| !can_stand(world, goal)
            ||| forall|p: Seq<IVec3>| #[trigger]
                is_walk(world, p, start, goal) ==> walk_cost(world, p) > limit
            ||| over_budget(world, start, goal, limit, max_nodes)
        },
    }
}

// ---------- what a search keeps ----------

/// The past of a search: when each cell got its label, and the entries that
/// were taken out.
struct Trail {
    stamp: Map<IVec3, nat>,
    clock: nat,
    taken: Seq<(int, IVec3)>,
}

/// The cell was taken out and looked at.
spec fn visited(t: Trail, c: IVec3) -> bool {
    exists|k: int| 0 <= k < t.taken.len() && (#[trigger] t.taken[k]).1 == c
}

/// `a` got its place before `b`: nearer, or as near and earlier.
spec fn earlier(known: Map<IVec3, Label>, t: Trail, a: IVec3, b: IVec3) -> bool {
    known[a].g < known[b].g || (known[a].g == known[b].g && t.stamp[a] < t.stamp[b])
}

spec fn way_in<W: Walkability>(
    world: &W,
    known: Map<IVec3, Label>,
    t: Trail,
    start: IVec3,
    c: IVec3,
) -> bool {
    match known[c].prev {
        None => c == start,
        Some(p) => {
            &&& c != start
            &&& known.contains_key(p)
            &&& visited(t, p)
            &&& legal_step(world, p, c)
            &&& known[p].g + step_price(world, p, c) <= known[c].g
            &&& earlier(known, t, p, c)
        },
    }
}

spec fn label_ok<W: Walkability>(
    world: &W,
    known: Map<IVec3, Label>,
    t: Trail,
    start: IVec3,
    limit: int,
    c: IVec3,
) -> bool {
    &&& 0 <= known[c].g <= limit
    &&& t.stamp[c] < t.clock
    &&& way_in(world, known, t, start, c)
    &&& reaches_at(world, start, c, known[c].g)
}

spec fn labels_ok<W: Walkability>(
    world: &W,
    known: Map<IVec3, Label>,
    t: Trail,
    start: IVec3,
    limit: int,
) -> bool {
    &&& known.contains_key(start)
    &&& known[start] == (Label { g: 0, prev: None })
    &&& forall|c: IVec3| #[trigger] known.contains_key(c) ==> label_ok(world, known, t, start, limit, c)
}

/// The cell waits with its best cost.
spec fn queued(s: SearchView, goal: IVec3, c: IVec3) -> bool {
    s.open.contains((estimate(s.known[c].g, c, goal), c))
}

spec fn relaxed<W: Walkability>(
    world: &W,
    known: Map<IVec3, Label>,
    limit: int,
    c: IVec3,
    d: int,
) -> bool {
    match step_to(world, c, d) {
        None => true,
        Some(u) => known[c].g + step_price(world, c, u) <= limit ==> known.contains_key(u)
            && known[u].g <= known[c].g + step_price(world, c, u),
    }
}

spec fn relaxed_until<W: Walkability>(
    world: &W,
    known: Map<IVec3, Label>,
    limit: int,
    c: IVec3,
    dirs: int,
) -> bool {
    forall|d: int| 0 <= d < dirs ==> #[trigger] relaxed(world, known, limit, c, d)
}

spec fn settled<W: Walkability>(
    world: &W,
    s: SearchView,
    goal: IVec3,
    limit: int,
    c: IVec3,
) -> bool {
    queued(s, goal, c) || relaxed_until(world, s.known, limit, c, 4)
}

/// The entry stands for an arrival no better than what is known of its cell.
spec fn entry_ok<W: Walkability>(
    world: &W,
    known: Map<IVec3, Label>,
    start: IVec3,
    goal: IVec3,
    limit: int,
    e: (int, IVec3),
) -> bool {
    let g = e.0 - STEP_UNIT * steps_between(e.1, goal);
    known.contains_key(e.1) && known[e.1].g <= g && arrival(world, start, limit, (e.1, g))
}

spec fn entries_ok<W: Walkability>(
    world: &W,
    known: Map<IVec3, Label>,
    start: IVec3,
    goal: IVec3,
    limit: int,
    list: Seq<(int, IVec3)>,
) -> bool {
    &&& list.no_duplicates()
    &&& forall|k: int|
        0 <= k < list.len() ==> entry_ok(world, known, start, goal, limit, #[trigger] list[k])
}

/// No entry taken out was dearer than a fair walk.
spec fn taken_well<W: Walkability>(
    world: &W,
    t: Trail,
    start: IVec3,
    goal: IVec3,
    limit: int,
) -> bool {
    forall|k: int, p: Seq<IVec3>|
        #![trigger t.taken[k], fair_walk(world, p, start, goal, limit)]
        0 <= k < t.taken.len() && fair_walk(world, p, start, goal, limit) ==> t.taken[k].0
            <= walk_cost(world, p)
}

/// What holds between expansions; during one, `except` is being expanded.
spec fn search_ok<W: Walkability>(
    world: &W,
    s: SearchView,
    t: Trail,
    start: IVec3,
    goal: IVec3,
    limit: int,
    except: Option<IVec3>,
) -> bool {
    &&& labels_ok(world, s.known, t, start, limit)
    &&& entries_ok(world, s.known, start, goal, limit, s.open)
    &&& entries_ok(world, s.known, start, goal, limit, t.taken)
    &&& forall|k: int| 0 <= k < t.taken.len() ==> !s.open.contains(#[trigger] t.taken[k])
    &&& taken_well(world, t, start, goal, limit)
    &&& forall|c: IVec3| #[trigger]
        s.known.contains_key(c) && Some(c) != except ==> settled(world, s, goal, limit, c)
    &&& s.known.contains_key(goal) ==> queued(s, goal, goal)
}

proof fn lemma_push_cost<W: Walkability>(world: &W, p: Seq<IVec3>, c: IVec3, i: int)
    requires
        0 <= i < p.len(),
    ensures
        cost_from(world, p.push(c), i) == cost_from(world, p, i) + step_price(world, p.last(), c),
    decreases p.len() - i,
{
    if i + 1 < p.len() {
        lemma_push_cost(world, p, c, i + 1);
    } else {
        assert(cost_from(world, p.push(c), i + 1) == 0);
    }
}

proof fn lemma_reach_next<W: Walkability>(world: &W, start: IVec3, a: IVec3, b: IVec3, cost: int)
    requires
        reaches_at(world, start, a, cost),
        legal_step(world, a, b),
    ensures
        reaches_at(world, start, b, cost + step_price(world, a, b)),
{
    let p = choose|p: Seq<IVec3>| #[trigger] is_walk(world, p, start, a) && walk_cost(world, p) == cost;
    let q = p.push(b);
    lemma_push_cost(world, p, b, 0);
    assert forall|i: int| 0 <= i < q.len() - 1 implies #[trigger] steps_on(world, q, i) by {
        if i < p.len() - 1 {
            assert(steps_on(world, p, i));
        }
    }
    assert(is_walk(world, q, start, b));
}

proof fn lemma_step_price<W: Walkability>(world: &W, a: IVec3, b: IVec3)
    ensures
        step_price(world, a, b) >= 0,
        world.price(b) >= COST_ONE ==> step_price(world, a, b) >= STEP_UNIT,
{
    assert(world.price(b) * step_factor(a, b) >= 0 && (world.price(b) >= 1000 ==> world.price(b)
        * step_factor(a, b) >= 10000)) by (nonlinear_arith)
        requires
            world.price(b) >= 0,
            step_factor(a, b) >= 10,
    ;
}

/// No fair walk costs less than the estimate at any of its cells says: what is
/// left of it from position `i` pays at least one level step for each cell.
pub proof fn law_estimates_never_exceed<W: Walkability>(
    world: &W,
    p: Seq<IVec3>,
    start: IVec3,
    goal: IVec3,
    i: int,
)
    requires
        is_walk(world, p, start, goal),
        full_price(world, p),
        0 <= i < p.len(),
    ensures
        STEP_UNIT * steps_between(p[i], goal) <= cost_from(world, p, i),
    decreases p.len() - i,
{
    if i + 1 < p.len() {
        law_estimates_never_exceed(world, p, start, goal, i + 1);
        assert(priced_fully(world, p, i));
        assert(steps_on(world, p, i));
        let d = choose|d: int| 0 <= d < 4 && #[trigger] step_to(world, p[i], d) == Some(p[i + 1]);
        assert(step_to(world, p[i], d) == Some(p[i + 1]));
        lemma_step_price(world, p[i], p[i + 1]);
        assert(steps_between(p[i], p[i + 1]) <= 1);
        assert(steps_between(p[i], goal) <= 1 + steps_between(p[i + 1], goal));
    }
}

proof fn lemma_cost_nonneg<W: Walkability>(world: &W, p: Seq<IVec3>, i: int)
    ensures
        cost_from(world, p, i) >= 0,
    decreases p.len() - i,
{
    if i + 1 < p.len() {
        lemma_cost_nonneg(world, p, i + 1);
        lemma_step_price(world, p[i], p[i + 1]);
    }
}

/// Either the labels already cover the walk from position `i` to its end, or
/// one of its cells still waits in the queue with a label no worse than the
/// walk's own cost so far.
proof fn lemma_follow<W: Walkability>(
    world: &W,
    s: SearchView,
    start: IVec3,
    goal: IVec3,
    limit: int,
    p: Seq<IVec3>,
    i: int,
) -> (w: int)
    requires
        is_walk(world, p, start, goal),
        walk_cost(world, p) <= limit,
        0 <= i < p.len(),
        s.known.contains_key(p[i]),
        s.known[p[i]].g <= walk_cost(world, p) - cost_from(world, p, i),
        forall|c: IVec3| #[trigger]
            s.known.contains_key(c) ==> settled(world, s, goal, limit, c),
        s.known.contains_key(goal) ==> queued(s, goal, goal),
    ensures
        i <= w < p.len(),
        s.known.contains_key(p[w]),
        s.known[p[w]].g <= walk_cost(world, p) - cost_from(world, p, w),
        queued(s, goal, p[w]),
    decreases p.len() - i,
{
    if i == p.len() - 1 || queued(s, goal, p[i]) {
        i
    } else {
        assert(settled(world, s, goal, limit, p[i]));
        assert(steps_on(world, p, i));
        let d = choose|d: int| 0 <= d < 4 && #[trigger] step_to(world, p[i], d) == Some(p[i + 1]);
        assert(step_to(world, p[i], d) == Some(p[i + 1]));
        assert(relaxed(world, s.known, limit, p[i], d));
        lemma_cost_nonneg(world, p, i + 1);
        lemma_follow(world, s, start, goal, limit, p, i + 1)
    }
}

/// The best entry has the smallest estimate.
proof fn lemma_first_best(open: Seq<(int, IVec3)>)
    requires
        open.len() > 0,
    ensures
        0 <= first_best(open) < open.len(),
        forall|k: int|
            0 <= k < open.len() ==> open[first_best(open)].0 <= (#[trigger] open[k]).0,
    decreases open.len(),
{
    if open.len() > 1 {
        let rest = open.drop_last();
        lemma_first_best(rest);
        assert forall|k: int| 0 <= k < open.len() implies open[first_best(open)].0 <= (
        #[trigger] open[k]).0 by {
            if k < open.len() - 1 {
                assert(rest[k] == open[k]);
            }
            assert(rest[first_best(rest)] == open[first_best(rest)]);
        }
    }
}

proof fn lemma_begun<W: Walkability>(
    world: &W,
    start: IVec3,
    goal: IVec3,
    limit: int,
) -> (t: Trail)
    requires
        start != goal,
        limit >= 0,
    ensures
        search_ok(world, search_begun(start, goal), t, start, goal, limit, None),
        t.taken.len() == 0,
{
    let s = search_begun(start, goal);
    let t = Trail { stamp: Map::empty().insert(start, 0), clock: 1, taken: Seq::empty() };
    let only = seq![start];
    assert(is_walk(world, only, start, start));
    assert(walk_cost(world, only) == 0);
    assert(reaches_at(world, start, start, 0));
    assert(s.open[0] == (estimate(0, start, goal), start));
    assert(s.open.contains((estimate(0, start, goal), start)));
    assert(queued(s, goal, start));
    t
}

/// A fair walk has a waiting cell, so the best entry is no dearer than it.
proof fn lemma_best_is_cheap<W: Walkability>(
    world: &W,
    s: SearchView,
    t: Trail,
    start: IVec3,
    goal: IVec3,
    limit: int,
    p: Seq<IVec3>,
)
    requires
        search_ok(world, s, t, start, goal, limit, None),
        s.open.len() > 0,
        fair_walk(world, p, start, goal, limit),
    ensures
        s.open[first_best(s.open)].0 <= walk_cost(world, p),
{
    lemma_first_best(s.open);
    let w = lemma_follow(world, s, start, goal, limit, p, 0);
    let k = s.open.index_of((estimate(s.known[p[w]].g, p[w], goal), p[w]));
    assert(s.open[first_best(s.open)].0 <= s.open[k].0);
    law_estimates_never_exceed(world, p, start, goal, w);
}

/// Taking an entry out leaves both lists in order, with nothing in common.
proof fn lemma_taken_entries<W: Walkability>(
    world: &W,
    s: SearchView,
    t: Trail,
    start: IVec3,
    goal: IVec3,
    limit: int,
    b: int,
)
    requires
        0 <= b < s.open.len(),
        entries_ok(world, s.known, start, goal, limit, s.open),
        entries_ok(world, s.known, start, goal, limit, t.taken),
        forall|k: int| 0 <= k < t.taken.len() ==> !s.open.contains(#[trigger] t.taken[k]),
    ensures
        entries_ok(world, s.known, start, goal, limit, s.open.remove(b)),
        entries_ok(world, s.known, start, goal, limit, t.taken.push(s.open[b])),
        forall|k: int|
            0 <= k < t.taken.push(s.open[b]).len() ==> !s.open.remove(b).contains(
                #[trigger] t.taken.push(s.open[b])[k],
            ),
{
    let e = s.open[b];
    let open = s.open.remove(b);
    let taken = t.taken.push(e);
    assert(entry_ok(world, s.known, start, goal, limit, e));
    assert forall|k: int| 0 <= k < open.len() implies #[trigger] open[k] == if k < b {
        s.open[k]
    } else {
        s.open[k + 1]
    } by {}
    assert(open.no_duplicates()) by {
        assert forall|i: int, j: int|
            0 <= i < open.len() && 0 <= j < open.len() && i != j implies open[i]
            != open[j] by {}
    }
    assert forall|k: int| 0 <= k < open.len() implies entry_ok(
        world,
        s.known,
        start,
        goal,
        limit,
        #[trigger] open[k],
    ) by {
        assert(entry_ok(world, s.known, start, goal, limit, s.open[if k < b {
            k
        } else {
            k + 1
        }]));
    }
    assert(!t.taken.contains(e)) by {
        if t.taken.contains(e) {
            let k = t.taken.index_of(e);
            assert(!s.open.contains(t.taken[k]));
        }
    }
    assert(taken.no_duplicates()) by {
        assert forall|i: int, j: int|
            0 <= i < taken.len() && 0 <= j < taken.len() && i != j implies taken[i]
            != taken[j] by {
            if i < t.taken.len() && j < t.taken.len() {
                assert(t.taken[i] != t.taken[j]);
            } else if i < t.taken.len() {
                assert(t.taken.contains(t.taken[i]));
            } else {
                assert(t.taken.contains(t.taken[j]));
            }
        }
    }
    assert forall|k: int| 0 <= k < taken.len() implies entry_ok(
        world,
        s.known,
        start,
        goal,
        limit,
        #[trigger] taken[k],
    ) && !open.contains(taken[k]) by {
        if k < t.taken.len() {
            assert(taken[k] == t.taken[k]);
            assert(!s.open.contains(t.taken[k]));
        }
        if open.contains(taken[k]) {
            let j = open.index_of(taken[k]);
            assert(s.open.contains(open[j]));
        }
    }
}

proof fn lemma_taken_labels<W: Walkability>(
    world: &W,
    known: Map<IVec3, Label>,
    t: Trail,
    t2: Trail,
    start: IVec3,
    limit: int,
    e: (int, IVec3),
)
    requires
        labels_ok(world, known, t, start, limit),
        t2 == (Trail { taken: t.taken.push(e), ..t }),
    ensures
        labels_ok(world, known, t2, start, limit),
{
    assert forall|c: IVec3| #[trigger] known.contains_key(c) implies label_ok(
        world,
        known,
        t2,
        start,
        limit,
        c,
    ) by {
        assert(label_ok(world, known, t, start, limit, c));
        if let Some(p) = known[c].prev {
            let k = choose|k: int| 0 <= k < t.taken.len() && (#[trigger] t.taken[k]).1 == p;
            assert(t2.taken[k] == t.taken[k]);
            assert(visited(t2, p));
        }
    }
}

/// Another cell still waits when an entry is taken out.
proof fn lemma_taken_queued(s: SearchView, goal: IVec3, b: int, c: IVec3)
    requires
        0 <= b < s.open.len(),
        c != s.open[b].1,
    ensures
        queued(s, goal, c) ==> queued(
            SearchView { known: s.known, open: s.open.remove(b) },
            goal,
            c,
        ),
{
    if queued(s, goal, c) {
        let x = (estimate(s.known[c].g, c, goal), c);
        let k = s.open.index_of(x);
        let m = if k < b {
            k
        } else {
            k - 1
        };
        assert(s.open.remove(b)[m] == x);
    }
}

/// Taking the best entry out for expansion.
proof fn lemma_taken<W: Walkability>(
    world: &W,
    s: SearchView,
    t: Trail,
    start: IVec3,
    goal: IVec3,
    limit: int,
) -> (t2: Trail)
    requires
        search_ok(world, s, t, start, goal, limit, None),
        s.open.len() > 0,
        s.open[first_best(s.open)].1 != goal,
    ensures
        t2.taken == t.taken.push(s.open[first_best(s.open)]),
        visited(t2, s.open[first_best(s.open)].1),
        s.known.contains_key(s.open[first_best(s.open)].1),
        search_ok(
            world,
            popped(s),
            t2,
            start,
            goal,
            limit,
            Some(s.open[first_best(s.open)].1),
        ),
{
    lemma_first_best(s.open);
    let b = first_best(s.open);
    let e = s.open[b];
    let s2 = popped(s);
    let t2 = Trail { taken: t.taken.push(e), ..t };
    assert(t2.taken[t.taken.len() as int] == e);
    assert(entry_ok(world, s.known, start, goal, limit, s.open[b]));
    lemma_taken_labels(world, s.known, t, t2, start, limit, e);
    lemma_taken_entries(world, s, t, start, goal, limit, b);
    assert forall|k: int, p: Seq<IVec3>|
        #![trigger t2.taken[k], fair_walk(world, p, start, goal, limit)]
        0 <= k < t2.taken.len() && fair_walk(world, p, start, goal, limit) implies t2.taken[k].0
        <= walk_cost(world, p) by {
        if k < t.taken.len() {
            assert(t2.taken[k] == t.taken[k]);
        } else {
            lemma_best_is_cheap(world, s, t, start, goal, limit, p);
        }
    }
    assert forall|c: IVec3| #[trigger]
        s2.known.contains_key(c) && Some(c) != Some(e.1) implies settled(world, s2, goal, limit, c) by {
        assert(settled(world, s, goal, limit, c));
        lemma_taken_queued(s, goal, b, c);
    }
    lemma_taken_queued(s, goal, b, goal);
    assert(taken_well(world, t2, start, goal, limit));
    t2
}

/// A better label for one cell keeps another settled cell settled.
proof fn lemma_settled_kept<W: Walkability>(
    world: &W,
    s: SearchView,
    s2: SearchView,
    goal: IVec3,
    limit: int,
    c: IVec3,
    u: IVec3,
    r: Label,
    entry: (int, IVec3),
)
    requires
        s2.known == s.known.insert(u, r),
        s2.open == s.open.push(entry),
        c != u,
        s.known.contains_key(u) ==> r.g < s.known[u].g,
        settled(world, s, goal, limit, c),
    ensures
        settled(world, s2, goal, limit, c),
{
    if queued(s, goal, c) {
        let x = (estimate(s.known[c].g, c, goal), c);
        let k = s.open.index_of(x);
        assert(s2.open[k] == x);
        assert(queued(s2, goal, c));
    } else {
        assert forall|d: int| 0 <= d < 4 implies #[trigger] relaxed(world, s2.known, limit, c, d) by {
            assert(relaxed(world, s.known, limit, c, d));
        }
    }
}

/// Looking at one step keeps the search in order.
proof fn lemma_offered<W: Walkability>(
    world: &W,
    s: SearchView,
    t: Trail,
    start: IVec3,
    goal: IVec3,
    limit: int,
    cell: IVec3,
    d: int,
) -> (t2: Trail)
    requires
        search_ok(world, s, t, start, goal, limit, Some(cell)),
        s.known.contains_key(cell),
        visited(t, cell),
        0 <= d < 4,
        relaxed_until(world, s.known, limit, cell, d),
    ensures
        search_ok(
            world,
            offered(world, goal, limit, cell, s, d),
            t2,
            start,
            goal,
            limit,
            Some(cell),
        ),
        t2.taken == t.taken,
        offered(world, goal, limit, cell, s, d).known.contains_key(cell),
        relaxed_until(
            world,
            offered(world, goal, limit, cell, s, d).known,
            limit,
            cell,
            d + 1,
        ),
{
    let s2 = offered(world, goal, limit, cell, s, d);
    if s2 == s {
        assert forall|e: int| 0 <= e < d + 1 implies #[trigger] relaxed(
            world,
            s2.known,
            limit,
            cell,
            e,
        ) by {
            if e < d {
                assert(relaxed(world, s.known, limit, cell, e));
            } else if let Some(next) = step_to(world, cell, d) {
                let g = s.known[cell].g + step_price(world, cell, next);
                if g <= limit && (s.known.contains_key(next) ==> g < s.known[next].g) {
                    assert(s2.open.len() == s.open.len() + 1);
                }
            }
        }
        t
    } else {
        lemma_offered_better(world, s, t, start, goal, limit, cell, d)
    }
}

proof fn lemma_offered_better<W: Walkability>(
    world: &W,
    s: SearchView,
    t: Trail,
    start: IVec3,
    goal: IVec3,
    limit: int,
    cell: IVec3,
    d: int,
) -> (t2: Trail)
    requires
        search_ok(world, s, t, start, goal, limit, Some(cell)),
        s.known.contains_key(cell),
        visited(t, cell),
        0 <= d < 4,
        relaxed_until(world, s.known, limit, cell, d),
        offered(world, goal, limit, cell, s, d) != s,
    ensures
        search_ok(
            world,
            offered(world, goal, limit, cell, s, d),
            t2,
            start,
            goal,
            limit,
            Some(cell),
        ),
        t2.taken == t.taken,
        offered(world, goal, limit, cell, s, d).known.contains_key(cell),
        relaxed_until(
            world,
            offered(world, goal, limit, cell, s, d).known,
            limit,
            cell,
            d + 1,
        ),
{
    let s2 = offered(world, goal, limit, cell, s, d);
    let next = step_to(world, cell, d)->0;
    let g = s.known[cell].g + step_price(world, cell, next);
    let r = Label { g, prev: Some(cell) };
    let e = (estimate(g, next, goal), next);
    let t2 = Trail { stamp: t.stamp.insert(next, t.clock), clock: t.clock + 1, taken: t.taken };
    assert(s2.known == s.known.insert(next, r));
    assert(s2.open == s.open.push(e));
    assert(legal_step(world, cell, next));
    assert(next != cell);
    lemma_step_price(world, cell, next);
    assert(label_ok(world, s.known, t, start, limit, cell));
    lemma_reach_next(world, start, cell, next, s.known[cell].g);
    assert(label_ok(world, s.known, t, start, limit, start));
    assert(next != start);
    assert forall|c: IVec3| #[trigger] s2.known.contains_key(c) implies label_ok(
        world,
        s2.known,
        t2,
        start,
        limit,
        c,
    ) by {
        if c != next {
            assert(label_ok(world, s.known, t, start, limit, c));
            if let Some(p) = s.known[c].prev {
                assert(visited(t, p));
                let k = choose|k: int| 0 <= k < t.taken.len() && (#[trigger] t.taken[k]).1 == p;
                assert(t2.taken[k].1 == p);
                assert(visited(t2, p));
                lemma_step_price(world, p, c);
            }
        } else {
            let k = choose|k: int| 0 <= k < t.taken.len() && (#[trigger] t.taken[k]).1 == cell;
            assert(t2.taken[k].1 == cell);
            assert(visited(t2, cell));
        }
    }
    assert forall|x: (int, IVec3)| #[trigger]
        entry_ok(world, s.known, start, goal, limit, x) implies x != e && entry_ok(
        world,
        s2.known,
        start,
        goal,
        limit,
        x,
    ) by {}
    assert(arrival(world, start, limit, (next, g)));
    assert(entry_ok(world, s2.known, start, goal, limit, e));
    assert(s2.open.no_duplicates()) by {
        assert forall|i: int, j: int|
            0 <= i < s2.open.len() && 0 <= j < s2.open.len() && i != j implies s2.open[i]
            != s2.open[j] by {
            if i < s.open.len() {
                assert(entry_ok(world, s.known, start, goal, limit, s.open[i]));
            }
            if j < s.open.len() {
                assert(entry_ok(world, s.known, start, goal, limit, s.open[j]));
            }
        }
    }
    assert forall|k: int| 0 <= k < s2.open.len() implies entry_ok(
        world,
        s2.known,
        start,
        goal,
        limit,
        #[trigger] s2.open[k],
    ) by {
        if k < s.open.len() {
            assert(entry_ok(world, s.known, start, goal, limit, s.open[k]));
        }
    }
    assert forall|k: int| 0 <= k < t2.taken.len() implies entry_ok(
        world,
        s2.known,
        start,
        goal,
        limit,
        #[trigger] t2.taken[k],
    ) && !s2.open.contains(t2.taken[k]) by {
        assert(entry_ok(world, s.known, start, goal, limit, t.taken[k]));
        assert(!s.open.contains(t.taken[k]));
        if s2.open.contains(t2.taken[k]) {
            let j = s2.open.index_of(t2.taken[k]);
            if j < s.open.len() {
                assert(s.open.contains(s.open[j]));
            }
        }
    }
    assert(queued(s2, goal, next)) by {
        assert(s2.open[s.open.len() as int] == e);
    }
    assert forall|c: IVec3| #[trigger]
        s2.known.contains_key(c) && Some(c) != Some(cell) implies settled(world, s2, goal, limit, c) by {
        if c != next {
            assert(settled(world, s, goal, limit, c));
            lemma_settled_kept(world, s, s2, goal, limit, c, next, r, e);
        }
    }
    if s2.known.contains_key(goal) && goal != next {
        let x = (estimate(s.known[goal].g, goal, goal), goal);
        let k = s.open.index_of(x);
        assert(s2.open[k] == x);
    }
    assert forall|x: int| 0 <= x < d + 1 implies #[trigger] relaxed(
        world,
        s2.known,
        limit,
        cell,
        x,
    ) by {
        if x < d {
            assert(relaxed(world, s.known, limit, cell, x));
        }
    }
    t2
}

/// Looking at the steps out of a cell one after the other.
proof fn lemma_expanded<W: Walkability>(
    world: &W,
    s: SearchView,
    t: Trail,
    start: IVec3,
    goal: IVec3,
    limit: int,
    cell: IVec3,
    dirs: nat,
) -> (t2: Trail)
    requires
        search_ok(world, s, t, start, goal, limit, Some(cell)),
        s.known.contains_key(cell),
        visited(t, cell),
        dirs <= 4,
    ensures
        search_ok(
            world,
            expanded(world, goal, limit, cell, s, dirs),
            t2,
            start,
            goal,
            limit,
            Some(cell),
        ),
        t2.taken == t.taken,
        expanded(world, goal, limit, cell, s, dirs).known.contains_key(cell),
        relaxed_until(
            world,
            expanded(world, goal, limit, cell, s, dirs).known,
            limit,
            cell,
            dirs as int,
        ),
    decreases dirs,
{
    if dirs == 0 {
        t
    } else {
        let less = (dirs - 1) as nat;
        let t1 = lemma_expanded(world, s, t, start, goal, limit, cell, less);
        let k = choose|k: int| 0 <= k < t.taken.len() && (#[trigger] t.taken[k]).1 == cell;
        assert(t1.taken[k].1 == cell);
        assert(visited(t1, cell));
        lemma_offered(
            world,
            expanded(world, goal, limit, cell, s, less),
            t1,
            start,
            goal,
            limit,
            cell,
            dirs - 1,
        )
    }
}

/// One whole step of the search.
proof fn lemma_step<W: Walkability>(
    world: &W,
    s: SearchView,
    t: Trail,
    start: IVec3,
    goal: IVec3,
    limit: int,
) -> (t2: Trail)
    requires
        search_ok(world, s, t, start, goal, limit, None),
        s.open.len() > 0,
        s.open[first_best(s.open)].1 != goal,
    ensures
        t2.taken == t.taken.push(s.open[first_best(s.open)]),
        search_ok(
            world,
            expanded(world, goal, limit, s.open[first_best(s.open)].1, popped(s), 4),
            t2,
            start,
            goal,
            limit,
            None,
        ),
{
    let cell = s.open[first_best(s.open)].1;
    let t1 = lemma_taken(world, s, t, start, goal, limit);
    lemma_expanded(world, popped(s), t1, start, goal, limit, cell, 4)
}

/// The entries taken out, as arrivals.
spec fn arrivals(list: Seq<(int, IVec3)>, goal: IVec3) -> Seq<(IVec3, int)> {
    Seq::new(
        list.len(),
        |k: int| (list[k].1, list[k].0 - STEP_UNIT * steps_between(list[k].1, goal)),
    )
}

/// Where the budget runs out, as many promising arrivals have been taken out.
proof fn lemma_over_budget<W: Walkability>(
    world: &W,
    s: SearchView,
    t: Trail,
    start: IVec3,
    goal: IVec3,
    limit: int,
    except: Option<IVec3>,
    max_nodes: usize,
)
    requires
        search_ok(world, s, t, start, goal, limit, except),
        t.taken.len() > max_nodes,
    ensures
        over_budget(world, start, goal, limit, max_nodes),
{
    let list = arrivals(t.taken, goal);
    assert(list.no_duplicates()) by {
        assert forall|i: int, j: int|
            0 <= i < list.len() && 0 <= j < list.len() && i != j implies list[i] != list[j] by {
            assert(t.taken[i] != t.taken[j]);
        }
    }
    assert forall|k: int| 0 <= k < list.len() implies arrival(world, start, limit, #[trigger] list[k]) by {
        assert(entry_ok(world, s.known, start, goal, limit, t.taken[k]));
    }
    assert forall|k: int, p: Seq<IVec3>|
        #![trigger list[k], fair_walk(world, p, start, goal, limit)]
        0 <= k < list.len() && fair_walk(world, p, start, goal, limit) implies estimate(
        list[k].1,
        list[k].0,
        goal,
    ) <= walk_cost(world, p) by {
        assert(t.taken[k].0 <= walk_cost(world, p));
    }
    assert(promising(world, start, goal, limit, list));
}

/// Two paths along the same best ways to one goal are the same path.
proof fn lemma_one_trace(known: Map<IVec3, Label>, p: Seq<IVec3>, q: Seq<IVec3>, goal: IVec3)
    requires
        traces(known, p, goal),
        traces(known, q, goal),
    ensures
        p == q,
    decreases p.len(),
{
    if p.len() == 1 {
        if q.len() > 1 {
            assert(came_from(known, q, q.len() - 2));
        }
        assert(p =~= q);
    } else {
        assert(came_from(known, p, p.len() - 2));
        if q.len() == 1 {
            assert(q[0] == goal);
        } else {
            assert(came_from(known, q, q.len() - 2));
            let a = p.drop_last();
            let b = q.drop_last();
            assert forall|i: int| 0 <= i < a.len() - 1 implies #[trigger] came_from(known, a, i) by {
                assert(came_from(known, p, i));
            }
            assert forall|i: int| 0 <= i < b.len() - 1 implies #[trigger] came_from(known, b, i) by {
                assert(came_from(known, q, i));
            }
            lemma_one_trace(known, a, b, a.last());
            assert(p =~= a.push(goal));
            assert(q =~= b.push(goal));
        }
    }
}

proof fn lemma_more_budget<W: Walkability>(
    world: &W,
    goal: IVec3,
    limit: int,
    s: SearchView,
    n: nat,
    m: nat,
)
    requires
        search_end(world, goal, limit, s, n) is Some,
        n <= m,
    ensures
        search_end(world, goal, limit, s, m) == search_end(world, goal, limit, s, n),
    decreases n,
{
    let cell = s.open[first_best(s.open)].1;
    if cell != goal {
        lemma_more_budget(
            world,
            goal,
            limit,
            expanded(world, goal, limit, cell, popped(s), 4),
            (n - 1) as nat,
            (m - 1) as nat,
        );
    }
}

/// A larger node budget never loses or changes a path that was found.
pub proof fn law_larger_budget_keeps_the_path<W: Walkability>(
    world: &W,
    start: IVec3,
    goal: IVec3,
    n: usize,
    m: usize,
    max_path_len: usize,
)
    requires
        searched(world, start, goal, n, max_path_len) is Some,
        n <= m,
    ensures
        searched(world, start, goal, m, max_path_len) == searched(
            world,
            start,
            goal,
            n,
            max_path_len,
        ),
{
    if start != goal {
        lemma_more_budget(
            world,
            goal,
            cost_limit(max_path_len),
            search_begun(start, goal),
            n as nat,
            m as nat,
        );
    }
}

// ---------- running the search ----------

/// Best known way to a cell.
struct Reached {
    g: u128,
    prev: Option<IVec3>,
}

/// State of one search.
struct Search {
    known: CellMap<Reached>,
    open: Vec<(u128, IVec3)>,
}

spec fn label_of(r: Reached) -> Label {
    Label { g: r.g as int, prev: r.prev }
}

spec fn entries_of(open: Seq<(u128, IVec3)>) -> Seq<(int, IVec3)> {
    Seq::new(open.len(), |k: int| (open[k].0 as int, open[k].1))
}

impl View for Search {
    type V = SearchView;

    closed spec fn view(&self) -> SearchView {
        SearchView {
            known: Map::new(
                |c: IVec3| self.known@.contains_key(c),
                |c: IVec3| label_of(self.known@[c]),
            ),
            open: entries_of(self.open@),
        }
    }
}

/// The cell one step from `from` in the given direction, and what this kind of
/// step costs. The caller multiplies the price of the ground in.
fn step_neighbour<W: Walkability>(world: &W, from: IVec3, dir: u8) -> (r: Option<(IVec3, u32)>)
    requires
        dir < 4,
    ensures
        r is Some <==> step_to(world, from, dir as int) is Some,
        r matches Some((c, factor)) ==> step_to(world, from, dir as int) == Some(c) && factor
            == step_factor(from, c),
{
    let beside: Option<IVec3> = if dir == 0 {
        from.checked_shift(1, 0, 0)
    } else if dir == 1 {
        from.checked_shift(-1, 0, 0)
    } else if dir == 2 {
        from.checked_shift(0, 0, 1)
    } else {
        from.checked_shift(0, 0, -1)
    };
    let same: IVec3 = match beside {
        Some(c) => c,
        None => {
            return None;
        },
    };
    assert(same == shifted(from, dir_dx(dir as int), 0, dir_dz(dir as int)));
    if standable(world, same) {
        return Some((same, LEVEL_FACTOR));
    }
    if let Some(over) = from.checked_shift(0, 2, 0) {
        let up: IVec3 = same.shift(0, 1, 0);
        if !world.is_solid(over) && standable(world, up) {
            return Some((up, STEP_UP_FACTOR));
        }
    }
    if let Some(down) = same.checked_shift(0, -1, 0) {
        if !world.is_solid(same) && standable(world, down) {
            return Some((down, LEVEL_FACTOR));
        }
    }
    None
}

/// Position of the entry with the smallest estimate that came first.
fn best_entry(open: &Vec<(u128, IVec3)>) -> (best: usize)
    requires
        open@.len() > 0,
    ensures
        best < open@.len(),
        best == first_best(entries_of(open@)),
{
    let mut best: usize = 0;
    let mut k: usize = 1;
    while k < open.len()
        invariant
            best < k <= open@.len(),
            best == first_best(entries_of(open@).take(k as int)),
        decreases open@.len() - k,
    {
        assert(entries_of(open@).take(k + 1).drop_last() =~= entries_of(open@).take(k as int));
        if open[k].0 < open[best].0 {
            best = k;
        }
        k = k + 1;
    }
    assert(entries_of(open@).take(k as int) =~= entries_of(open@));
    best
}

/// What a walk between two cells costs at least: a level step for each cell
/// across.
pub fn heuristic(a: IVec3, b: IVec3) -> (r: u128)
    ensures
        r == STEP_UNIT * steps_between(a, b),
        r < 0x1_0000_0000_0000,
{
    (axis_gap(a.x, b.x) + axis_gap(a.z, b.z)) as u128 * STEP_UNIT as u128
}

/// Nothing in the search is beyond the limit.
spec fn bounded(s: SearchView, limit: int) -> bool {
    forall|c: IVec3| #[trigger] s.known.contains_key(c) ==> 0 <= s.known[c].g <= limit
}

/// Looks at one step out of a cell.
fn offer<W: Walkability>(s: &mut Search, world: &W, goal: IVec3, cell: IVec3, limit: u128, dir: u8)
    requires
        old(s)@.known.contains_key(cell),
        bounded(old(s)@, limit as int),
        limit < 0x1_0000_0000_0000_0000_0000_0000,
        dir < 4,
    ensures
        final(s)@ == offered(world, goal, limit as int, cell, old(s)@, dir as int),
        final(s)@.known.contains_key(cell),
        bounded(final(s)@, limit as int),
{
    let g_cell: u128 = match s.known.get(cell) {
        Some(r) => r.g,
        None => 0,
    };
    let ghost before = s@;
    let ghost open = s.open@;
    let ghost known = s.known@;
    assert(before.known.contains_key(cell));
    assert(before.known[cell].g == g_cell);
    if let Some((next, factor)) = step_neighbour(world, cell, dir) {
        let price: u32 = world.cost(next);
        assert(0 <= price * factor <= 0xffff_ffff * 0xffff_ffff) by (nonlinear_arith)
            requires
                0 <= price <= 0xffff_ffff,
                0 <= factor <= 0xffff_ffff,
        ;
        let tentative: u128 = g_cell + price as u128 * factor as u128;
        assert(tentative == before.known[cell].g + step_price(world, cell, next));
        let better: bool = match s.known.get(next) {
            Some(r) => tentative < r.g,
            None => true,
        };
        assert(better == (before.known.contains_key(next) ==> tentative < before.known[next].g));
        if tentative <= limit && better {
            let f: u128 = tentative + heuristic(next, goal);
            let _ = s.known.insert(next, Reached { g: tentative, prev: Some(cell) });
            s.open.push((f, next));
            proof {
                let label = Label { g: tentative as int, prev: Some(cell) };
                assert(s@.known =~= before.known.insert(next, label));
                assert(s@.open =~= before.open.push((f as int, next)));
            }
        }
    }
}

/// Expands one cell: looks at every step out of it.
fn expand<W: Walkability>(s: &mut Search, world: &W, goal: IVec3, cell: IVec3, limit: u128)
    requires
        old(s)@.known.contains_key(cell),
        bounded(old(s)@, limit as int),
        limit < 0x1_0000_0000_0000_0000_0000_0000,
    ensures
        final(s)@ == expanded(world, goal, limit as int, cell, old(s)@, 4),
{
    let mut dir: u8 = 0;
    while dir < 4
        invariant
            dir <= 4,
            s@.known.contains_key(cell),
            bounded(s@, limit as int),
            limit < 0x1_0000_0000_0000_0000_0000_0000,
            s@ == expanded(world, goal, limit as int, cell, old(s)@, dir as nat),
        decreases 4 - dir,
    {
        offer(s, world, goal, cell, limit, dir);
        dir = dir + 1;
    }
}

/// Takes the most promising entry out of the queue.
fn pop_best(s: &mut Search) -> (cell: IVec3)
    requires
        old(s)@.open.len() > 0,
    ensures
        cell == old(s)@.open[first_best(old(s)@.open)].1,
        final(s)@ == popped(old(s)@),
{
    let ghost before = s@;
    let best: usize = best_entry(&s.open);
    proof {
        lemma_first_best(before.open);
    }
    let entry = s.open.remove(best);
    assert(s@.open =~= before.open.remove(best as int));
    entry.1
}

proof fn lemma_prepend_cost<W: Walkability>(world: &W, p: Seq<IVec3>, c: IVec3, i: int)
    requires
        0 <= i < p.len(),
    ensures
        cost_from(world, seq![c] + p, i + 1) == cost_from(world, p, i),
        i == 0 ==> walk_cost(world, seq![c] + p) == step_price(world, c, p[0]) + walk_cost(world, p),
    decreases p.len() - i,
{
    assert((seq![c] + p)[0] == c);
    assert((seq![c] + p)[i + 1] == p[i]);
    if i + 1 < p.len() {
        assert((seq![c] + p)[i + 2] == p[i + 1]);
        lemma_prepend_cost(world, p, c, i + 1);
    } else {
        assert(cost_from(world, seq![c] + p, i + 1) == 0);
    }
    if i == 0 {
        assert(walk_cost(world, seq![c] + p) == step_price(world, c, p[0]) + cost_from(
            world,
            seq![c] + p,
            1,
        ));
    }
}

/// The cells before the end of `walk` were all visited, each once.
spec fn visited_in_order(known: Map<IVec3, Label>, t: Trail, walk: Seq<IVec3>) -> bool {
    &&& forall|i: int| 0 <= i < walk.len() - 1 ==> visited(t, #[trigger] walk[i])
    &&& forall|i: int, j: int|
        #![trigger walk[i], walk[j]]
        0 <= i < j < walk.len() ==> earlier(known, t, walk[i], walk[j])
}

/// Going one cell further back keeps everything in order.
proof fn lemma_back<W: Walkability>(
    world: &W,
    s: SearchView,
    t: Trail,
    start: IVec3,
    goal: IVec3,
    limit: int,
    walk: Seq<IVec3>,
    p: IVec3,
)
    requires
        labels_ok(world, s.known, t, start, limit),
        walk.len() > 0,
        is_walk(world, walk, walk[0], goal),
        s.known.contains_key(walk[0]),
        s.known[walk[0]].prev == Some(p),
        walk_cost(world, walk) + s.known[walk[0]].g <= s.known[goal].g,
        visited_in_order(s.known, t, walk),
        forall|i: int| 0 <= i < walk.len() - 1 ==> #[trigger] came_from(s.known, walk, i),
    ensures
        s.known.contains_key(p),
        earlier(s.known, t, p, walk[0]),
        is_walk(world, seq![p] + walk, p, goal),
        walk_cost(world, seq![p] + walk) + s.known[p].g <= s.known[goal].g,
        visited_in_order(s.known, t, seq![p] + walk),
        forall|i: int|
            0 <= i < walk.len() ==> #[trigger] came_from(s.known, seq![p] + walk, i),
{
    let longer = seq![p] + walk;
    assert(label_ok(world, s.known, t, start, limit, walk[0]));
    assert forall|i: int| 0 <= i < longer.len() - 1 implies #[trigger] steps_on(world, longer, i) by {
        if i > 0 {
            assert(steps_on(world, walk, i - 1));
        }
    }
    assert forall|i: int| 0 <= i < walk.len() implies #[trigger] came_from(s.known, longer, i) by {
        if i > 0 {
            assert(came_from(s.known, walk, i - 1));
        }
    }
    assert forall|i: int| 0 <= i < longer.len() - 1 implies visited(t, #[trigger] longer[i]) by {
        if i > 0 {
            assert(longer[i] == walk[i - 1]);
        }
    }
    assert forall|i: int, j: int|
        #![trigger longer[i], longer[j]]
        0 <= i < j < longer.len() implies earlier(s.known, t, longer[i], longer[j]) by {
        assert(longer[j] == walk[j - 1]);
        if i > 0 {
            assert(longer[i] == walk[i - 1]);
        } else if j > 1 {
            assert(earlier(s.known, t, walk[0], walk[j - 1]));
        }
    }
    lemma_prepend_cost(world, walk, p, 0);
}

/// A path of visited cells, each once, is no longer than the visits allow.
proof fn lemma_path_within_visits(known: Map<IVec3, Label>, t: Trail, path: Seq<IVec3>)
    requires
        path.len() > 0,
        visited_in_order(known, t, path),
    ensures
        path.no_duplicates(),
        path.len() - 1 <= t.taken.len(),
{
    assert forall|i: int, j: int|
        0 <= i < path.len() && 0 <= j < path.len() && i != j implies path[i] != path[j] by {
        if i < j {
            assert(earlier(known, t, path[i], path[j]));
        } else {
            assert(earlier(known, t, path[j], path[i]));
        }
    }
    let inner = path.drop_last();
    let cells = Seq::new(t.taken.len(), |k: int| t.taken[k].1);
    assert(inner.no_duplicates()) by {
        assert forall|i: int, j: int|
            0 <= i < inner.len() && 0 <= j < inner.len() && i != j implies inner[i] != inner[j] by {
            assert(path[i] != path[j]);
        }
    }
    inner.unique_seq_to_set();
    cells.lemma_cardinality_of_set();
    assert(inner.to_set().subset_of(cells.to_set())) by {
        assert forall|c: IVec3| #[trigger] inner.to_set().contains(c) implies cells.to_set().contains(
            c,
        ) by {
            let i = inner.index_of(c);
            assert(visited(t, path[i]));
            let k = choose|k: int| 0 <= k < t.taken.len() && (#[trigger] t.taken[k]).1 == c;
            assert(cells[k] == c);
        }
    }
    vstd::set_lib::lemma_len_subset(inner.to_set(), cells.to_set());
}

/// Follows the predecessors back from `goal`.
fn reconstruct<W: Walkability>(
    s: &Search,
    start: IVec3,
    goal: IVec3,
    world: &W,
    Ghost(limit): Ghost<int>,
    Ghost(t): Ghost<Trail>,
) -> (path: Vec<IVec3>)
    requires
        labels_ok(world, s@.known, t, start, limit),
        s@.known.contains_key(goal),
    ensures
        is_walk(world, path@, start, goal),
        walk_cost(world, path@) <= s@.known[goal].g,
        traces(s@.known, path@, goal),
        visited_in_order(s@.known, t, path@),
{
    let mut back: Vec<IVec3> = Vec::new();
    back.push(goal);
    let mut cell: IVec3 = goal;
    let ghost mut walk: Seq<IVec3> = seq![goal];
    assert(is_walk(world, walk, goal, goal));
    let mut going: bool = true;
    assert(back@ =~= walk.reverse());
    while going
        invariant
            labels_ok(world, s@.known, t, start, limit),
            s@.known.contains_key(cell),
            s@.known.contains_key(goal),
            walk.len() > 0,
            walk[0] == cell,
            is_walk(world, walk, cell, goal),
            walk_cost(world, walk) + s@.known[cell].g <= s@.known[goal].g,
            visited_in_order(s@.known, t, walk),
            forall|i: int| 0 <= i < walk.len() - 1 ==> #[trigger] came_from(s@.known, walk, i),
            back@ == walk.reverse(),
            !going ==> cell == start,
        decreases (if going { 1int } else { 0int }), s@.known[cell].g, t.stamp[cell],
    {
        assert(label_ok(world, s@.known, t, start, limit, cell));
        match s.known.get(cell) {
            None => {
                going = false;
            },
            Some(r) => {
                assert(s@.known[cell].prev == r.prev);
                match r.prev {
                    None => {
                        going = false;
                    },
                    Some(p) => {
                        proof {
                            lemma_back(world, s@, t, start, goal, limit, walk, p);
                            assert(label_ok(world, s@.known, t, start, limit, p));
                            let longer = seq![p] + walk;
                            assert(back@.push(p) =~= longer.reverse());
                            walk = longer;
                        }
                        back.push(p);
                        cell = p;
                    },
                }
            },
        }
    }
    let mut path: Vec<IVec3> = Vec::with_capacity(back.len());
    let mut k: usize = back.len();
    while k > 0
        invariant
            k <= back@.len(),
            back@ == walk.reverse(),
            path@.len() == back@.len() - k,
            forall|i: int| 0 <= i < path@.len() ==> path@[i] == walk[i],
        decreases k,
    {
        k = k - 1;
        path.push(back[k]);
    }
    assert(path@ =~= walk);
    proof {
        lemma_cost_nonneg(world, walk, 0);
    }
    path
}

/// The path of an answer, as a value.
pub open spec fn path_view(r: Option<Vec<IVec3>>) -> Option<Seq<IVec3>> {
    match r {
        Some(p) => Some(p@),
        None => None,
    }
}

/// Finds a path of foot cells from `start` to `goal`, both included.
///
/// `max_nodes` caps the number of expansions and `max_path_len` the cost of
/// the path, counted in level steps over ordinary ground. The path repeats no
/// cell, and no walk over ground of full price is cheaper. Of several equally
/// cheap paths it is the one that the search comes to first.
pub fn find_path<W: Walkability>(
    start: IVec3,
    goal: IVec3,
    world: &W,
    max_nodes: usize,
    max_path_len: usize,
) -> (r: Option<Vec<IVec3>>)
    ensures
        path_answer(world, start, goal, max_nodes, max_path_len, path_view(r)),
{
    if start == goal {
        let mut only: Vec<IVec3> = Vec::new();
        only.push(start);
        assert(only@ =~= seq![start]);
        return Some(only);
    }
    if !standable(world, start) || !standable(world, goal) {
        return None;
    }
    let limit: u128 = max_path_len as u128 * STEP_UNIT as u128;
    let ghost lim = cost_limit(max_path_len);
    let mut s = Search { known: CellMap::new(), open: Vec::new() };
    let _ = s.known.insert(start, Reached { g: 0, prev: None });
    s.open.push((heuristic(start, goal), start));
    let ghost begun = search_begun(start, goal);
    let ghost mut t: Trail = lemma_begun(world, start, goal, lim);
    let mut spent: usize = 0;
    proof {
        assert(s@.known =~= begun.known);
        assert(s@.open =~= begun.open);
    }
    while s.open.len() > 0
        invariant
            start != goal,
            can_stand(world, start),
            can_stand(world, goal),
            limit == lim,
            limit < 0x1_0000_0000_0000_0000_0000_0000,
            lim == cost_limit(max_path_len),
            spent <= max_nodes,
            t.taken.len() == spent,
            search_ok(world, s@, t, start, goal, lim, None),
            search_end(world, goal, lim, s@, (max_nodes - spent) as nat) == search_end(
                world,
                goal,
                lim,
                search_begun(start, goal),
                max_nodes as nat,
            ),
        decreases max_nodes - spent,
    {
        let ghost before = s@;
        proof {
            lemma_first_best(before.open);
        }
        let cell: IVec3 = pop_best(&mut s);
        if cell == goal {
            proof {
                let e = before.open[first_best(before.open)];
                assert(entry_ok(world, before.known, start, goal, lim, e));
                assert(steps_between(goal, goal) == 0);
                assert forall|p: Seq<IVec3>| #[trigger]
                    fair_walk(world, p, start, goal, lim) implies before.known[goal].g <= walk_cost(
                    world,
                    p,
                ) by {
                    lemma_best_is_cheap(world, before, t, start, goal, lim, p);
                }
            }
            let path = reconstruct(&s, start, goal, world, Ghost(lim), Ghost(t));
            proof {
                lemma_path_within_visits(s@.known, t, path@);
                assert(label_ok(world, before.known, t, start, lim, goal));
                let known = before.known;
                let found = choose|p: Seq<IVec3>| traces(known, p, goal);
                assert(traces(known, path@, goal));
                lemma_one_trace(known, path@, found, goal);
            }
            return Some(path);
        }
        if spent >= max_nodes {
            proof {
                let t2 = lemma_taken(world, before, t, start, goal, lim);
                lemma_over_budget(
                    world,
                    popped(before),
                    t2,
                    start,
                    goal,
                    lim,
                    Some(cell),
                    max_nodes,
                );
            }
            return None;
        }
        spent = spent + 1;
        proof {
            let t1 = lemma_taken(world, before, t, start, goal, lim);
            assert forall|c: IVec3| #[trigger] s@.known.contains_key(c) implies 0 <= s@.known[c].g
                <= lim by {
                assert(label_ok(world, before.known, t, start, lim, c));
            }
            t = lemma_step(world, before, t, start, goal, lim);
        }
        expand(&mut s, world, goal, cell, limit);
    }
    proof {
        assert(s@.open.len() == 0);
        assert forall|p: Seq<IVec3>| #[trigger] is_walk(world, p, start, goal) implies walk_cost(
            world,
            p,
        ) > lim by {
            if walk_cost(world, p) <= lim {
                let w = lemma_follow(world, s@, start, goal, lim, p, 0);
            }
        }
    }
    None
}

// ---------- what steps and walks are ----------

/// An actor can stand exactly where its own cell and the one above are free and
/// the one below carries it.
pub proof fn law_standing_room<W: Walkability>(world: &W, c: IVec3)
    ensures
        can_stand(world, c) <==> i32::MIN < c.y < i32::MAX && !world.solid(c) && !world.solid(
            IVec3 { x: c.x, y: (c.y + 1) as i32, z: c.z },
        ) && world.solid(IVec3 { x: c.x, y: (c.y - 1) as i32, z: c.z }),
{
}

/// The steps open to an actor at `a` are the same in each of the four
/// directions: to the cell beside, where it can stand there; one up, where it
/// can stand there and the cell two above `a` is free; one down, where it can
/// stand there and the cell beside is free. There are no others.
pub proof fn law_steps_lead_to_all_sides<W: Walkability>(world: &W, a: IVec3, b: IVec3)
    ensures
        legal_step(world, a, b) <==> {
            let dx = b.x - a.x;
            let dz = b.z - a.z;
            &&& (dx == 1 && dz == 0) || (dx == -1 && dz == 0) || (dx == 0 && dz == 1) || (dx == 0
                && dz == -1)
            &&& i32::MIN < b.y < i32::MAX
            &&& !world.solid(b)
            &&& !world.solid(IVec3 { x: b.x, y: (b.y + 1) as i32, z: b.z })
            &&& world.solid(IVec3 { x: b.x, y: (b.y - 1) as i32, z: b.z })
            &&& {
                ||| b.y == a.y
                ||| b.y == a.y + 1 && a.y + 2 <= i32::MAX && !world.solid(
                    IVec3 { x: a.x, y: (a.y + 2) as i32, z: a.z },
                )
                ||| b.y == a.y - 1 && !world.solid(IVec3 { x: b.x, y: a.y, z: b.z })
            }
        },
{
    let dx = b.x - a.x;
    let dz = b.z - a.z;
    let d: int = if dx == 1 {
        0
    } else if dx == -1 {
        1
    } else if dz == 1 {
        2
    } else {
        3
    };
    let beside = IVec3 { x: b.x, y: a.y, z: b.z };
    if (dx == 1 && dz == 0) || (dx == -1 && dz == 0) || (dx == 0 && dz == 1) || (dx == 0 && dz
        == -1) {
        assert(shifted(a, dir_dx(d), 0, dir_dz(d)) == beside);
        if b.y == a.y + 1 {
            assert(shifted(beside, 0, 1, 0) == b);
            assert(shifted(b, 0, -1, 0) == beside);
        }
        if b.y == a.y - 1 {
            assert(shifted(beside, 0, -1, 0) == b);
            assert(shifted(b, 0, 1, 0) == beside);
            if beside.y < i32::MAX {
                assert(shifted(shifted(beside, 0, 1, 0), 0, -1, 0) == beside);
            }
        }
        assert(step_to(world, a, d) == Some(b) ==> legal_step(world, a, b));
    }
    if legal_step(world, a, b) {
        let e = choose|e: int| 0 <= e < 4 && #[trigger] step_to(world, a, e) == Some(b);
        assert(step_to(world, a, e) == Some(b));
    }
}

/// A walk is a list of cells from its start to its end, each one legal step
/// from the one before.
pub proof fn law_walks_go_step_by_step<W: Walkability>(
    world: &W,
    p: Seq<IVec3>,
    a: IVec3,
    b: IVec3,
)
    ensures
        is_walk(world, p, a, b) <==> {
            &&& p.len() > 0
            &&& p[0] == a
            &&& p[p.len() - 1] == b
            &&& forall|i: int, j: int|
                #![trigger p[i], p[j]]
                0 <= i < p.len() && j == i + 1 && j < p.len() ==> legal_step(world, p[i], p[j])
        },
{
    if is_walk(world, p, a, b) {
        assert forall|i: int, j: int|
            #![trigger p[i], p[j]]
            0 <= i < p.len() && j == i + 1 && j < p.len() implies legal_step(world, p[i], p[j]) by {
            assert(steps_on(world, p, i));
        }
    }
    if p.len() > 0 && p[0] == a && p[p.len() - 1] == b && (forall|i: int, j: int|
        #![trigger p[i], p[j]]
        0 <= i < p.len() && j == i + 1 && j < p.len() ==> legal_step(world, p[i], p[j])) {
        assert forall|i: int| 0 <= i < p.len() - 1 implies #[trigger] steps_on(world, p, i) by {
            assert(legal_step(world, p[i], p[i + 1]));
        }
    }
}

proof fn lemma_cost_of_pushed<W: Walkability>(world: &W, p: Seq<IVec3>, c: IVec3, i: int)
    requires
        0 <= i < p.len(),
    ensures
        cost_from(world, p.push(c), i) == cost_from(world, p, i) + step_price(world, p.last(), c),
    decreases p.len() - i,
{
    let q = p.push(c);
    if i + 1 < p.len() {
        lemma_cost_of_pushed(world, p, c, i + 1);
    } else {
        assert(q[i + 1] == c);
        assert(cost_from(world, q, i + 1) == 0);
    }
}

/// Standing still costs nothing, and going on to one more cell adds the price
/// of that cell ten times, or fourteen times where it lies higher.
pub proof fn law_walks_cost_what_their_steps_do<W: Walkability>(
    world: &W,
    p: Seq<IVec3>,
    c: IVec3,
)
    requires
        p.len() > 0,
    ensures
        p.len() == 1 ==> walk_cost(world, p) == 0,
        c.y > p[p.len() - 1].y ==> walk_cost(world, p.push(c)) == walk_cost(world, p) + 14
            * world.price(c),
        c.y <= p[p.len() - 1].y ==> walk_cost(world, p.push(c)) == walk_cost(world, p) + 10
            * world.price(c),
{
    lemma_cost_of_pushed(world, p, c, 0);
    let price = world.price(c);
    let factor = step_factor(p.last(), c);
    assert((factor == 14 ==> price * factor == 14 * price) && (factor == 10 ==> price * factor == 10
        * price)) by (nonlinear_arith);
}

/// What a search is owed: a path that it finds costs no more than ten thousand
/// for each unit of its length budget and no more than any walk over ground of
/// full price within that budget. It finds none although such a walk leads
/// between two cells that can be stood on only where more cells than it may look
/// at are within its reach, each of which, with ten thousand for every cell that
/// is still missing to the goal on either axis, costs no more than that walk.
pub proof fn law_search_gives_up_only_when_spent<W: Walkability>(
    world: &W,
    start: IVec3,
    goal: IVec3,
    max_nodes: usize,
    max_path_len: usize,
    r: Option<Seq<IVec3>>,
    p: Seq<IVec3>,
) -> (s: Seq<(IVec3, int)>)
    requires
        path_answer(world, start, goal, max_nodes, max_path_len, r),
        start != goal,
        is_walk(world, p, start, goal),
        forall|i: int| 0 < i < p.len() ==> world.price(#[trigger] p[i]) >= 1000,
        walk_cost(world, p) <= max_path_len * 10000,
    ensures
        r matches Some(path) ==> is_walk(world, path, start, goal) && walk_cost(world, path)
            <= max_path_len * 10000 && walk_cost(world, path) <= walk_cost(world, p)
            && path.no_duplicates(),
        r is None && can_stand(world, start) && can_stand(world, goal) ==> {
            &&& s.len() > max_nodes
            &&& s.no_duplicates()
            &&& forall|k: int|
                0 <= k < s.len() ==> reaches_at(world, start, (#[trigger] s[k]).0, s[k].1) && s[k].1
                    + 10000 * (gap(s[k].0.x as int, goal.x as int) + gap(
                    s[k].0.z as int,
                    goal.z as int,
                )) <= walk_cost(world, p)
        },
{
    let limit = cost_limit(max_path_len);
    assert forall|i: int| 0 <= i < p.len() - 1 implies #[trigger] priced_fully(world, p, i) by {
        assert(world.price(p[i + 1]) >= 1000);
    }
    assert(fair_walk(world, p, start, goal, limit));
    if r is None && can_stand(world, start) && can_stand(world, goal) {
        assert(over_budget(world, start, goal, limit, max_nodes));
        let s = choose|s: Seq<(IVec3, int)>|
            s.len() > max_nodes && #[trigger] promising(world, start, goal, limit, s);
        assert forall|k: int| 0 <= k < s.len() implies reaches_at(
            world,
            start,
            (#[trigger] s[k]).0,
            s[k].1,
        ) && s[k].1 + 10000 * (gap(s[k].0.x as int, goal.x as int) + gap(
            s[k].0.z as int,
            goal.z as int,
        )) <= walk_cost(world, p) by {
            assert(arrival(world, start, limit, s[k]));
        }
        s
    } else {
        Seq::empty()
    }
}

/// The estimate between two cells pays ten thousand for each cell across, on
/// either axis and in either sense; heights do not count.
pub proof fn law_estimates_count_cells_across(a: IVec3, b: IVec3)
    ensures
        steps_between(a, b) == steps_between(b, a),
        b.x >= a.x && b.z >= a.z ==> steps_between(a, b) == (b.x - a.x) + (b.z - a.z),
        b.x >= a.x && b.z <= a.z ==> steps_between(a, b) == (b.x - a.x) + (a.z - b.z),
{
}

// ---------- what lines of sight are ----------

/// The point that lies `k` out of `n` parts of the way from the centre of `a`
/// to the centre of `b` belongs to cell `c`, its edges included.
pub open spec fn passes(a: IVec3, b: IVec3, c: IVec3, k: int, n: int) -> bool {
    let x = 2 * (n * (a.x - c.x) + k * (b.x - a.x));
    let z = 2 * (n * (a.z - c.z) + k * (b.z - a.z));
    &&& n > 0
    &&& 0 <= k <= n
    &&& c.y == a.y
    &&& -n <= x <= n
    &&& -n <= z <= n
}

proof fn lemma_passes_axis(a: int, b: int, c: int, k: int, n: int) -> (i: int)
    requires
        n > 0,
        0 <= k <= n,
        -n <= 2 * (n * (a - c) + k * (b - a)) <= n,
    ensures
        0 <= i <= gap(a, b),
        c == a + heading(a, b) * i,
        n * (2 * i - 1) <= 2 * k * gap(a, b) <= n * (2 * i + 1),
{
    let sign = heading(a, b);
    let i = if sign == -1 {
        a - c
    } else {
        c - a
    };
    let g = gap(a, b);
    assert(-n <= 2 * (k * g - n * i) <= n) by {
        if sign == -1 {
            assert(2 * (n * (a - c) + k * (b - a)) == -(2 * (k * g - n * i))) by (nonlinear_arith)
                requires
                    i == a - c,
                    g == a - b,
            ;
        } else {
            assert(2 * (n * (a - c) + k * (b - a)) == 2 * (k * g - n * i)) by (nonlinear_arith)
                requires
                    i == c - a,
                    g == b - a,
            ;
        }
    }
    assert(n * (2 * i - 1) == 2 * (n * i) - n && n * (2 * i + 1) == 2 * (n * i) + n && 2 * k * g == 2
        * (k * g)) by (nonlinear_arith);
    assert(0 <= k * g <= n * g) by (nonlinear_arith)
        requires
            0 <= k <= n,
            g >= 0,
    ;
    assert(i >= 0) by (nonlinear_arith)
        requires
            2 * (n * i) + n >= 0,
            n > 0,
    ;
    assert(i <= g) by (nonlinear_arith)
        requires
            2 * (n * i) - n <= 2 * (n * g),
            n > 0,
    ;
    lemma_signed(sign, i);
    i
}

/// On a clear line an actor can stand on every cell that holds a point of the
/// straight way between the two centres.
pub proof fn law_clear_lines_are_clear<W: Walkability>(
    world: &W,
    a: IVec3,
    b: IVec3,
    c: IVec3,
    k: int,
    n: int,
)
    requires
        clear_line(world, a, b),
        a != b,
        passes(a, b, c, k, n),
    ensures
        a.y == b.y,
        can_stand(world, c),
{
    let i = lemma_passes_axis(a.x as int, b.x as int, c.x as int, k, n);
    let j = lemma_passes_axis(a.z as int, b.z as int, c.z as int, k, n);
    let nx = gap(a.x as int, b.x as int);
    let nz = gap(a.z as int, b.z as int);
    assert((2 * i - 1) * nz <= (2 * j + 1) * nx) by (nonlinear_arith)
        requires
            n > 0,
            nx >= 0,
            nz >= 0,
            n * (2 * i - 1) <= 2 * k * nx,
            2 * k * nz <= n * (2 * j + 1),
    {
        assert((n * (2 * i - 1)) * nz <= (2 * k * nx) * nz);
        assert((2 * k * nz) * nx <= (n * (2 * j + 1)) * nx);
        assert((n * (2 * i - 1)) * nz == n * ((2 * i - 1) * nz));
        assert((n * (2 * j + 1)) * nx == n * ((2 * j + 1) * nx));
        assert((2 * k * nx) * nz == (2 * k * nz) * nx);
    }
    assert((2 * j - 1) * nx <= (2 * i + 1) * nz) by (nonlinear_arith)
        requires
            n > 0,
            nx >= 0,
            nz >= 0,
            n * (2 * j - 1) <= 2 * k * nz,
            2 * k * nx <= n * (2 * i + 1),
    {
        assert((n * (2 * j - 1)) * nx <= (2 * k * nz) * nx);
        assert((2 * k * nx) * nz <= (n * (2 * i + 1)) * nz);
        assert((n * (2 * j - 1)) * nx == n * ((2 * j - 1) * nx));
        assert((n * (2 * i + 1)) * nz == n * ((2 * i + 1) * nz));
        assert((2 * k * nx) * nz == (2 * k * nz) * nx);
    }
    assert(segment_meets(nx, nz, i, j));
    assert(on_the_way(a, b, i, j) == c);
}

proof fn lemma_axis_passes(a: int, b: int, i: int, k: int, n: int)
    requires
        n * (2 * i - 1) <= 2 * k * gap(a, b) <= n * (2 * i + 1),
        a == b ==> i == 0,
    ensures
        ({
            let c = a + heading(a, b) * i;
            -n <= 2 * (n * (a - c) + k * (b - a)) <= n
        }),
{
    let sign = heading(a, b);
    let g = gap(a, b);
    let c = a + sign * i;
    lemma_signed(sign, i);
    assert(n * (2 * i - 1) == 2 * (n * i) - n && n * (2 * i + 1) == 2 * (n * i) + n && 2 * k * g == 2
        * (k * g)) by (nonlinear_arith);
    if sign == -1 {
        assert(2 * (n * (a - c) + k * (b - a)) == -(2 * (k * g - n * i))) by (nonlinear_arith)
            requires
                i == a - c,
                g == a - b,
        ;
    } else {
        assert(2 * (n * (a - c) + k * (b - a)) == 2 * (k * g - n * i)) by (nonlinear_arith)
            requires
                i == c - a,
                g == b - a,
        ;
    }
}

/// A line between two cells of one height is clear where an actor can stand on
/// every cell that holds a point of the straight way between the two centres.
pub proof fn law_open_ways_are_clear<W: Walkability>(world: &W, a: IVec3, b: IVec3)
    requires
        a.y == b.y,
        forall|c: IVec3, k: int, n: int| #[trigger] passes(a, b, c, k, n) ==> can_stand(world, c),
    ensures
        clear_line(world, a, b),
{
    let nx = gap(a.x as int, b.x as int);
    let nz = gap(a.z as int, b.z as int);
    if a != b {
        assert forall|i: int, j: int|
            #![trigger on_the_way(a, b, i, j)]
            0 <= i <= nx && 0 <= j <= nz && segment_meets(nx, nz, i, j) implies can_stand(
            world,
            on_the_way(a, b, i, j),
        ) by {
            lemma_signed(heading(a.x as int, b.x as int), i);
            lemma_signed(heading(a.z as int, b.z as int), j);
            let c = on_the_way(a, b, i, j);
            let (k, n): (int, int) = if nx == 0 {
                (j, nz)
            } else if nz == 0 {
                (i, nx)
            } else {
                let u = (2 * i - 1) * nz;
                let w = (2 * j - 1) * nx;
                (
                    if u >= w && u >= 0 {
                        u
                    } else if w >= 0 {
                        w
                    } else {
                        0
                    },
                    2 * nx * nz,
                )
            };
            if nx == 0 || nz == 0 {
                assert(n * (2 * i - 1) <= 2 * k * nx <= n * (2 * i + 1) && n * (2 * j - 1) <= 2 * k
                    * nz <= n * (2 * j + 1)) by (nonlinear_arith)
                    requires
                        (nx == 0 && i == 0 && k == j && n == nz) || (nz == 0 && j == 0 && k == i && n
                            == nx),
                        nx >= 0,
                        nz >= 0,
                ;
            } else {
                lemma_meeting_point(nx, nz, i, j, k, n);
            }
            lemma_axis_passes(a.x as int, b.x as int, i, k, n);
            lemma_axis_passes(a.z as int, b.z as int, j, k, n);
            assert(passes(a, b, c, k, n));
        }
    }
}

proof fn lemma_meeting_point(nx: int, nz: int, i: int, j: int, k: int, n: int)
    requires
        nx > 0,
        nz > 0,
        0 <= i <= nx,
        0 <= j <= nz,
        segment_meets(nx, nz, i, j),
        n == 2 * nx * nz,
        k == (2 * i - 1) * nz || k == (2 * j - 1) * nx || k == 0,
        k >= (2 * i - 1) * nz,
        k >= (2 * j - 1) * nx,
        k >= 0,
    ensures
        0 <= k <= n,
        n > 0,
        n * (2 * i - 1) <= 2 * k * nx <= n * (2 * i + 1),
        n * (2 * j - 1) <= 2 * k * nz <= n * (2 * j + 1),
{
    assert((2 * i - 1) * nz <= (2 * i + 1) * nz && 0 <= (2 * i + 1) * nz && (2 * i - 1) * nz <= 2 * nx
        * nz) by (nonlinear_arith)
        requires
            nz > 0,
            0 <= i <= nx,
    ;
    assert((2 * j - 1) * nx <= (2 * j + 1) * nx && 0 <= (2 * j + 1) * nx && (2 * j - 1) * nx <= 2 * nx
        * nz) by (nonlinear_arith)
        requires
            nx > 0,
            0 <= j <= nz,
    ;
    assert(2 * nx * nz > 0) by (nonlinear_arith)
        requires
            nx > 0,
            nz > 0,
    ;
    let lo = (2 * i - 1) * nz;
    let hi = (2 * i + 1) * nz;
    assert(n * (2 * i - 1) == 2 * lo * nx && n * (2 * i + 1) == 2 * hi * nx) by (nonlinear_arith)
        requires
            n == 2 * nx * nz,
            lo == (2 * i - 1) * nz,
            hi == (2 * i + 1) * nz,
    ;
    assert(2 * lo * nx <= 2 * k * nx <= 2 * hi * nx) by (nonlinear_arith)
        requires
            lo <= k <= hi,
            nx > 0,
    ;
    let lo2 = (2 * j - 1) * nx;
    let hi2 = (2 * j + 1) * nx;
    assert(n * (2 * j - 1) == 2 * lo2 * nz && n * (2 * j + 1) == 2 * hi2 * nz) by (nonlinear_arith)
        requires
            n == 2 * nx * nz,
            lo2 == (2 * j - 1) * nx,
            hi2 == (2 * j + 1) * nx,
    ;
    assert(2 * lo2 * nz <= 2 * k * nz <= 2 * hi2 * nz) by (nonlinear_arith)
        requires
            lo2 <= k <= hi2,
            nz > 0,
    ;
}

} // verus!
