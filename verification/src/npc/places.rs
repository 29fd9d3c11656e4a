//! Where villagers stand, and how they get there.

use crate::blocks::{Cardinal, UseSlot};
use crate::cells::{
    chebyshev_spec, clear_of_limits, fits_i32, manhattan_spec, shifted, IVec3,
};
use crate::npc::rng::{bits_of, lemma_two_draws, next_bits, next_seed, seed_after};
use crate::npc_mover::traversable;
use crate::pathfinding::{
    can_stand, clear_line, find_path, line_of_sight, nearest_standable_below, path_answer,
    path_view, smooth_path, smoothed, standable, Walkability,
};
use crate::plan_ghosts::{footprint_cell, footprint_fits};
use crate::plans::drag::{box_cells, rect_cells_on_plane};
use vstd::prelude::*;

verus! {

// ---------- choosing among cells ----------

/// The first cell of the list, from `i` on, where one can stand.
pub open spec fn first_footing<W: Walkability>(world: &W, cells: Seq<IVec3>, i: int) -> Option<IVec3>
    decreases cells.len() - i,
{
    if i >= cells.len() {
        None
    } else if can_stand(world, cells[i]) {
        Some(cells[i])
    } else {
        first_footing(world, cells, i + 1)
    }
}

pub fn first_standable<W: Walkability>(world: &W, cells: &Vec<IVec3>) -> (r: Option<IVec3>)
    ensures
        r == first_footing(world, cells@, 0),
        r matches Some(c) ==> can_stand(world, c),
{
    let mut i: usize = 0;
    while i < cells.len()
        invariant
            i <= cells@.len(),
            first_footing(world, cells@, 0) == first_footing(world, cells@, i as int),
        decreases cells@.len() - i,
    {
        if standable(world, cells[i]) {
            return Some(cells[i]);
        }
        i = i + 1;
    }
    None
}

/// The `k`-th cell offers footing, and the nearest to `from`; of several
/// equally near ones it is the first.
pub open spec fn closest_at<W: Walkability>(world: &W, cells: Seq<IVec3>, from: IVec3, k: int) -> bool {
    &&& 0 <= k < cells.len()
    &&& can_stand(world, cells[k])
    &&& forall|j: int|
        0 <= j < cells.len() && can_stand(world, #[trigger] cells[j]) ==> manhattan_spec(
            cells[k],
            from,
        ) <= manhattan_spec(cells[j], from) && (j < k ==> manhattan_spec(cells[k], from)
            < manhattan_spec(cells[j], from))
}

/// Some cell of the list offers footing.
pub open spec fn any_footing<W: Walkability>(world: &W, cells: Seq<IVec3>) -> bool {
    exists|k: int| 0 <= k < cells.len() && can_stand(world, #[trigger] cells[k])
}

/// The nearest footing in the list.
pub open spec fn closest_footing<W: Walkability>(world: &W, cells: Seq<IVec3>, from: IVec3) -> Option<
    IVec3,
> {
    if any_footing(world, cells) {
        Some(cells[choose|k: int| closest_at(world, cells, from, k)])
    } else {
        None
    }
}

proof fn lemma_closest_is_unique<W: Walkability>(
    world: &W,
    cells: Seq<IVec3>,
    from: IVec3,
    k: int,
)
    requires
        closest_at(world, cells, from, k),
    ensures
        closest_footing(world, cells, from) == Some(cells[k]),
{
    let m = choose|m: int| closest_at(world, cells, from, m);
    assert(closest_at(world, cells, from, m));
    if m != k {
        assert(can_stand(world, cells[k]) && can_stand(world, cells[m]));
    }
}

/// Finds the nearest footing in a list.
pub fn closest_standable<W: Walkability>(world: &W, cells: &Vec<IVec3>, from: IVec3) -> (r: Option<
    IVec3,
>)
    ensures
        r == closest_footing(world, cells@, from),
        r matches Some(c) ==> can_stand(world, c) && cells@.contains(c),
        r is None <==> !any_footing(world, cells@),
{
    let mut best: Option<usize> = None;
    let mut best_distance: i64 = 0;
    let mut i: usize = 0;
    while i < cells.len()
        invariant
            i <= cells@.len(),
            best is None ==> forall|j: int|
                0 <= j < i ==> !can_stand(world, #[trigger] cells@[j]),
            best matches Some(b) ==> b < i && best_distance == manhattan_spec(cells@[b as int], from)
                && can_stand(world, cells@[b as int]) && forall|j: int|
                0 <= j < i && can_stand(world, #[trigger] cells@[j]) ==> best_distance
                    <= manhattan_spec(cells@[j], from) && (j < b ==> best_distance < manhattan_spec(
                    cells@[j],
                    from,
                )),
        decreases cells@.len() - i,
    {
        if standable(world, cells[i]) {
            let d: i64 = cells[i].manhattan(from);
            if best.is_none() || d < best_distance {
                best = Some(i);
                best_distance = d;
            }
        }
        i = i + 1;
    }
    match best {
        None => None,
        Some(b) => {
            proof {
                lemma_closest_is_unique(world, cells@, from, b as int);
                assert(can_stand(world, cells@[b as int]));
            }
            Some(cells[b])
        },
    }
}

// ---------- the feet of a body ----------

/// The cell that a body stands on: the one under its middle, or else the first
/// other one that it covers, from `lo` to `hi`, where it can stand.
pub open spec fn standing_foot<W: Walkability>(world: &W, nominal: IVec3, lo: IVec3, hi: IVec3)
    -> Option<IVec3> {
    if can_stand(world, nominal) {
        Some(nominal)
    } else {
        first_footing(world, box_cells(lo, hi), 0)
    }
}

/// Finds the cell that a body stands on.
pub fn pose_to_standable_foot<W: Walkability>(world: &W, nominal: IVec3, lo: IVec3, hi: IVec3) -> (r:
    Option<IVec3>)
    ensures
        r == standing_foot(world, nominal, lo, hi),
        r matches Some(c) ==> can_stand(world, c),
{
    if standable(world, nominal) {
        return Some(nominal);
    }
    let cells: Vec<IVec3> = rect_cells_on_plane(lo, hi);
    first_standable(world, &cells)
}

/// The cells at exactly this distance.
pub open spec fn at_distance(cells: Seq<IVec3>, centre: IVec3, d: int) -> Seq<IVec3>
    decreases cells.len(),
{
    if cells.len() == 0 {
        cells
    } else {
        let rest = at_distance(cells.drop_last(), centre, d);
        if chebyshev_spec(cells.last(), centre) == d {
            rest.push(cells.last())
        } else {
            rest
        }
    }
}

/// The shell of cells around a centre, by x, then y, then z.
pub open spec fn shell(centre: IVec3, d: int) -> Seq<IVec3> {
    at_distance(
        box_cells(shifted(centre, -d, -d, -d), shifted(centre, d, d, d)),
        centre,
        d,
    )
}

/// The nearest footing in the innermost shell that has one, from shell `d` on.
pub open spec fn rescue_cell<W: Walkability>(world: &W, centre: IVec3, d: int, max: int) -> Option<
    IVec3,
>
    decreases max - d + 1,
{
    if d > max {
        None
    } else {
        match closest_footing(world, shell(centre, d), centre) {
            Some(c) => Some(c),
            None => rescue_cell(world, centre, d + 1, max),
        }
    }
}

fn shell_cells(centre: IVec3, d: i32) -> (r: Vec<IVec3>)
    requires
        0 <= d,
        clear_of_limits(centre, d as int),
    ensures
        r@ == shell(centre, d as int),
{
    let all: Vec<IVec3> = rect_cells_on_plane(centre.shift(-d, -d, -d), centre.shift(d, d, d));
    let mut out: Vec<IVec3> = Vec::new();
    let mut i: usize = 0;
    assert(all@.take(0) =~= Seq::empty());
    while i < all.len()
        invariant
            i <= all@.len(),
            out@ == at_distance(all@.take(i as int), centre, d as int),
        decreases all@.len() - i,
    {
        assert(all@.take(i + 1).drop_last() =~= all@.take(i as int));
        if all[i].chebyshev(centre) == d as i64 {
            out.push(all[i]);
        }
        i = i + 1;
    }
    assert(all@.take(all@.len() as int) =~= all@);
    out
}

/// Finds a place for a body that has none under its feet, within a radius.
pub fn rescue_to_nearby_standable<W: Walkability>(world: &W, centre: IVec3, max_radius: i32) -> (r:
    Option<IVec3>)
    requires
        clear_of_limits(centre, max_radius as int),
        max_radius < i32::MAX,
    ensures
        r == rescue_cell(world, centre, 1, max_radius as int),
        r matches Some(c) ==> can_stand(world, c),
{
    let mut d: i32 = 1;
    while d <= max_radius
        invariant
            1 <= d,
            max_radius < i32::MAX,
            clear_of_limits(centre, max_radius as int),
            rescue_cell(world, centre, 1, max_radius as int) == rescue_cell(
                world,
                centre,
                d as int,
                max_radius as int,
            ),
        decreases max_radius - d + 1,
    {
        let cells: Vec<IVec3> = shell_cells(centre, d);
        if let Some(c) = closest_standable(world, &cells, centre) {
            return Some(c);
        }
        d = d + 1;
    }
    None
}

// ---------- beside a block ----------

/// The four sides of a cell, `dy` higher.
pub open spec fn sides(target: IVec3, dy: int) -> Seq<IVec3> {
    seq![
        shifted(target, 1, dy, 0),
        shifted(target, -1, dy, 0),
        shifted(target, 0, dy, 1),
        shifted(target, 0, dy, -1),
    ]
}

/// Where to stand to work on a cell: beside it on its own level, one up, one
/// down or two down, in this order, and then right under it.
pub open spec fn place_beside<W: Walkability>(world: &W, target: IVec3, from: IVec3) -> Option<IVec3> {
    match closest_footing(world, sides(target, 0), from) {
        Some(c) => Some(c),
        None => match closest_footing(world, sides(target, 1), from) {
            Some(c) => Some(c),
            None => match closest_footing(world, sides(target, -1), from) {
                Some(c) => Some(c),
                None => match closest_footing(world, sides(target, -2), from) {
                    Some(c) => Some(c),
                    None => if can_stand(world, shifted(target, 0, -2, 0)) {
                        Some(shifted(target, 0, -2, 0))
                    } else {
                        None
                    },
                },
            },
        },
    }
}

fn side_cells(target: IVec3, dy: i32) -> (r: Vec<IVec3>)
    requires
        -2 <= dy <= 1,
        clear_of_limits(target, 3),
    ensures
        r@ == sides(target, dy as int),
{
    let mut out: Vec<IVec3> = Vec::new();
    out.push(target.shift(1, dy, 0));
    out.push(target.shift(-1, dy, 0));
    out.push(target.shift(0, dy, 1));
    out.push(target.shift(0, dy, -1));
    assert(out@ =~= sides(target, dy as int));
    out
}

/// Finds where to stand to work on a cell.
pub fn nearest_standable_neighbor<W: Walkability>(world: &W, target: IVec3, from: IVec3) -> (r: Option<
    IVec3,
>)
    requires
        clear_of_limits(target, 3),
    ensures
        r == place_beside(world, target, from),
        r matches Some(c) ==> can_stand(world, c),
{
    let level: Vec<IVec3> = side_cells(target, 0);
    if let Some(c) = closest_standable(world, &level, from) {
        return Some(c);
    }
    let above: Vec<IVec3> = side_cells(target, 1);
    if let Some(c) = closest_standable(world, &above, from) {
        return Some(c);
    }
    let below: Vec<IVec3> = side_cells(target, -1);
    if let Some(c) = closest_standable(world, &below, from) {
        return Some(c);
    }
    let deep: Vec<IVec3> = side_cells(target, -2);
    if let Some(c) = closest_standable(world, &deep, from) {
        return Some(c);
    }
    let under: IVec3 = target.shift(0, -2, 0);
    if standable(world, under) {
        Some(under)
    } else {
        None
    }
}

/// Whoever stands where they are told to is near the block.
pub proof fn law_place_beside_is_near<W: Walkability>(world: &W, target: IVec3, from: IVec3)
    requires
        clear_of_limits(target, 3),
        place_beside(world, target, from) is Some,
    ensures
        ({
            let c = place_beside(world, target, from)->0;
            can_stand(world, c) && manhattan_spec(c, target) <= 3
        }),
{
    lemma_closest_exists(world, sides(target, 0), from);
    lemma_closest_exists(world, sides(target, 1), from);
    lemma_closest_exists(world, sides(target, -1), from);
    lemma_closest_exists(world, sides(target, -2), from);
}

/// Where there is footing there is a nearest one.
proof fn lemma_closest_exists<W: Walkability>(world: &W, cells: Seq<IVec3>, from: IVec3)
    requires
        cells.len() == 4,
    ensures
        closest_footing(world, cells, from) matches Some(c) ==> can_stand(world, c) && (c == cells[0]
            || c == cells[1] || c == cells[2] || c == cells[3]),
{
    if any_footing(world, cells) {
        assert(cells.take(4) =~= cells);
        lemma_some_closest(world, cells, from, 4);
        let k = choose|k: int| closest_at(world, cells, from, k);
        assert(closest_at(world, cells, from, k));
    }
}

proof fn lemma_some_closest<W: Walkability>(world: &W, cells: Seq<IVec3>, from: IVec3, n: int)
    requires
        0 <= n <= cells.len(),
        any_footing(world, cells.take(n)),
    ensures
        exists|k: int| closest_at(world, cells.take(n), from, k),
    decreases n,
{
    let here = cells.take(n);
    let rest = cells.take(n - 1);
    let last = cells[n - 1];
    if any_footing(world, rest) {
        lemma_some_closest(world, cells, from, n - 1);
        let k = choose|k: int| closest_at(world, rest, from, k);
        assert(here[k] == rest[k]);
        if can_stand(world, last) && manhattan_spec(last, from) < manhattan_spec(rest[k], from) {
            assert forall|j: int| 0 <= j < here.len() && can_stand(world, #[trigger] here[j]) implies
                manhattan_spec(here[n - 1], from) <= manhattan_spec(here[j], from) && (j < n - 1
                ==> manhattan_spec(here[n - 1], from) < manhattan_spec(here[j], from)) by {
                if j < n - 1 {
                    assert(rest[j] == here[j]);
                }
            }
            assert(closest_at(world, here, from, n - 1));
        } else {
            assert forall|j: int| 0 <= j < here.len() && can_stand(world, #[trigger] here[j]) implies
                manhattan_spec(here[k], from) <= manhattan_spec(here[j], from) && (j < k
                ==> manhattan_spec(here[k], from) < manhattan_spec(here[j], from)) by {
                if j < n - 1 {
                    assert(rest[j] == here[j]);
                }
            }
            assert(closest_at(world, here, from, k));
        }
    } else {
        assert forall|j: int| 0 <= j < here.len() && can_stand(world, #[trigger] here[j]) implies j
            == n - 1 by {
            if j < n - 1 {
                assert(rest[j] == here[j]);
            }
        }
        let m = choose|m: int| 0 <= m < here.len() && can_stand(world, #[trigger] here[m]);
        assert(closest_at(world, here, from, n - 1));
    }
}

// ---------- using a block ----------

/// The cells from which a block is used, turned with it.
pub open spec fn approach_cells(approach: Seq<IVec3>, anchor: IVec3, facing: Cardinal) -> Seq<IVec3> {
    Seq::new(approach.len(), |i: int| footprint_cell(anchor, approach[i], facing))
}

fn turn_approach(slot: &UseSlot, anchor: IVec3, facing: Cardinal) -> (r: Vec<IVec3>)
    requires
        footprint_fits(anchor, slot.approach@, facing),
    ensures
        r@ == approach_cells(slot.approach@, anchor, facing),
{
    let mut out: Vec<IVec3> = Vec::new();
    let mut i: usize = 0;
    while i < slot.approach.len()
        invariant
            footprint_fits(anchor, slot.approach@, facing),
            i <= slot.approach@.len(),
            out@ == approach_cells(slot.approach@, anchor, facing).take(i as int),
        decreases slot.approach@.len() - i,
    {
        let off: IVec3 = slot.approach[i];
        assert(off == slot.approach@[i as int]);
        let t: IVec3 = facing.rotate_offset(off);
        out.push(anchor.shift(t.x, t.y, t.z));
        assert(out@ =~= approach_cells(slot.approach@, anchor, facing).take(i + 1));
        i = i + 1;
    }
    assert(out@ =~= approach_cells(slot.approach@, anchor, facing));
    out
}

/// Where to stand to use a block: at one of its own places if it has any, and
/// else beside the cell.
pub open spec fn use_place<W: Walkability>(
    world: &W,
    slot: Option<UseSlot>,
    anchor: IVec3,
    facing: Cardinal,
    target: IVec3,
    foot: IVec3,
) -> Option<IVec3> {
    match slot {
        Some(s) => closest_footing(world, approach_cells(s.approach@, anchor, facing), foot),
        None => place_beside(world, target, foot),
    }
}

/// The places of a block exist.
pub open spec fn use_fits(slot: Option<UseSlot>, anchor: IVec3, facing: Cardinal) -> bool {
    slot matches Some(s) ==> footprint_fits(anchor, s.approach@, facing)
}

/// Finds where to stand to use a block.
pub fn resolve_use_slot_target<W: Walkability>(
    world: &W,
    slot: &Option<UseSlot>,
    anchor: IVec3,
    facing: Cardinal,
    target: IVec3,
    foot: IVec3,
) -> (r: Option<IVec3>)
    requires
        use_fits(*slot, anchor, facing),
        clear_of_limits(target, 3),
    ensures
        r == use_place(world, *slot, anchor, facing, target, foot),
        r matches Some(c) ==> can_stand(world, c),
{
    match slot {
        Some(s) => {
            let cells: Vec<IVec3> = turn_approach(s, anchor, facing);
            closest_standable(world, &cells, foot)
        },
        None => nearest_standable_neighbor(world, target, foot),
    }
}

/// Where a body goes when it leaves a block: to one of the places from which it
/// is used, and failing these on top.
pub open spec fn eject_cells(slot: Option<UseSlot>, anchor: IVec3, facing: Cardinal) -> Seq<IVec3> {
    (match slot {
        Some(s) => approach_cells(s.approach@, anchor, facing),
        None => Seq::empty(),
    }).push(shifted(anchor, 0, 1, 0)).push(shifted(anchor, 0, 2, 0))
}

pub fn eject_candidates_for_slot(slot: &Option<UseSlot>, anchor: IVec3, facing: Cardinal) -> (r: Vec<
    IVec3,
>)
    requires
        use_fits(*slot, anchor, facing),
        clear_of_limits(anchor, 2),
    ensures
        r@ == eject_cells(*slot, anchor, facing),
{
    let mut out: Vec<IVec3> = match slot {
        Some(s) => turn_approach(s, anchor, facing),
        None => Vec::new(),
    };
    out.push(anchor.shift(0, 1, 0));
    out.push(anchor.shift(0, 2, 0));
    out
}

// ---------- routes ----------

/// How far a search may go.
pub const ASTAR_NODE_BUDGET: usize = 2000;

pub const ASTAR_PATH_BUDGET: usize = 64;

/// What the search answers between two places: a cheapest walk, or none where
/// there is none within the budget.
pub open spec fn search_answer<W: Walkability>(
    world: &W,
    start: IVec3,
    goal: IVec3,
    r: Option<Seq<IVec3>>,
) -> bool {
    path_answer(world, start, goal, ASTAR_NODE_BUDGET, ASTAR_PATH_BUDGET, r)
}

/// A path that goes somewhere, smoothed.
pub open spec fn smoothed_route<W: Walkability>(world: &W, raw: Option<Seq<IVec3>>) -> Option<
    Seq<IVec3>,
> {
    match raw {
        Some(p) => if smoothed(world, p).len() >= 2 {
            Some(smoothed(world, p))
        } else {
            None
        },
        None => None,
    }
}

/// `r` is a route between two places, or none where there is none.
pub open spec fn route_answer<W: Walkability>(
    world: &W,
    start: IVec3,
    goal: IVec3,
    r: Option<Seq<IVec3>>,
) -> bool {
    exists|raw: Option<Seq<IVec3>>|
        #[trigger] search_answer(world, start, goal, raw) && r == smoothed_route(world, raw)
}

/// Finds a route to another place.
pub fn plan_route<W: Walkability>(world: &W, start: IVec3, goal: IVec3) -> (r: Option<Vec<IVec3>>)
    ensures
        route_answer(world, start, goal, path_view(r)),
        r matches Some(p) ==> p@.len() >= 2,
{
    match find_path(start, goal, world, ASTAR_NODE_BUDGET, ASTAR_PATH_BUDGET) {
        None => {
            assert(search_answer(world, start, goal, None));
            assert(smoothed_route::<W>(world, None) is None);
            None
        },
        Some(raw) => {
            let ghost found = raw@;
            assert(search_answer(world, start, goal, Some(found)));
            let path: Vec<IVec3> = smooth_path(raw, world);
            if path.len() >= 2 {
                assert(smoothed_route(world, Some(found)) == Some(path@));
                Some(path)
            } else {
                assert(smoothed_route(world, Some(found)) is None);
                None
            }
        },
    }
}

// ---------- keeping to a path ----------

/// The way from one waypoint to the next is still open.
pub open spec fn leg_open<W: Walkability>(world: &W, a: IVec3, b: IVec3) -> bool {
    if b.y == a.y {
        clear_line(world, a, b)
    } else if b.y == a.y + 1 {
        !world.body_blocked(shifted(a, 0, 2, 0))
    } else if b.y == a.y - 1 {
        !world.body_blocked(shifted(b, 0, 1, 0))
    } else {
        false
    }
}

/// The waypoint can still be stood on, and the way on from it is open.
pub open spec fn waypoint_open<W: Walkability>(world: &W, path: Seq<IVec3>, i: int) -> bool {
    can_stand(world, path[i]) && (i + 1 < path.len() ==> leg_open(world, path[i], path[i + 1]))
}

/// The rest of the path, from the edge that is being walked, is still open.
pub open spec fn rest_open<W: Walkability>(world: &W, path: Seq<IVec3>, edge: int) -> bool {
    forall|i: int|
        edge <= i < path.len() || (path.len() > 0 && i == path.len() - 1)
            ==> #[trigger] waypoint_open(world, path, i)
}

/// Is the rest of the path still open?
pub fn remaining_path_valid<W: Walkability>(path: &Vec<IVec3>, from_edge: usize, world: &W) -> (r:
    bool)
    ensures
        r == rest_open(world, path@, from_edge as int),
{
    let n: usize = path.len();
    if n == 0 {
        return true;
    }
    let first: usize = if from_edge < n - 1 {
        from_edge
    } else {
        n - 1
    };
    let mut i: usize = first;
    while i < n
        invariant
            n == path@.len(),
            first <= i <= n,
            first < n,
            forall|k: int| first <= k < i ==> #[trigger] waypoint_open(world, path@, k),
            first == from_edge || (first == n - 1 && from_edge >= n - 1),
        decreases n - i,
    {
        let cell: IVec3 = path[i];
        let mut open: bool = standable(world, cell);
        if open && i + 1 < n {
            let next: IVec3 = path[i + 1];
            let dy: i64 = next.y as i64 - cell.y as i64;
            if dy == 0 {
                open = line_of_sight(cell, next, world);
            } else if dy == 1 {
                if next.y == i32::MAX {
                    assert(!waypoint_open(world, path@, i + 1));
                    return false;
                }
                open = !world.blocks_body(cell.shift(0, 2, 0));
            } else if dy == -1 {
                open = !world.blocks_body(next.shift(0, 1, 0));
            } else {
                open = false;
            }
        }
        if !open {
            assert(!waypoint_open(world, path@, i as int));
            return false;
        }
        assert(waypoint_open(world, path@, i as int));
        i = i + 1;
    }
    true
}

/// A body can take every edge of a path that is still open.
pub proof fn law_open_paths_are_traversable<W: Walkability>(
    world: &W,
    path: Seq<IVec3>,
    edge: int,
    i: int,
)
    requires
        rest_open(world, path, edge),
        0 <= edge <= i,
        i + 1 < path.len(),
    ensures
        traversable(world, path[i], path[i + 1]),
{
    assert(waypoint_open(world, path, i));
    assert(waypoint_open(world, path, i + 1));
}

/// The change lies so near a path that it may matter to it: within one cell
/// around its waypoints, and two above them.
pub open spec fn near_path(path: Seq<IVec3>, e: IVec3) -> bool {
    &&& exists|i: int| 0 <= i < path.len() && (#[trigger] path[i]).x - 1 <= e.x
    &&& exists|i: int| 0 <= i < path.len() && e.x <= (#[trigger] path[i]).x + 1
    &&& exists|i: int| 0 <= i < path.len() && (#[trigger] path[i]).y - 1 <= e.y
    &&& exists|i: int| 0 <= i < path.len() && e.y <= (#[trigger] path[i]).y + 2
    &&& exists|i: int| 0 <= i < path.len() && (#[trigger] path[i]).z - 1 <= e.z
    &&& exists|i: int| 0 <= i < path.len() && e.z <= (#[trigger] path[i]).z + 1
}

/// Some of the changes may matter to the path.
pub open spec fn any_near_path(path: Seq<IVec3>, edited: Seq<IVec3>) -> bool {
    exists|k: int| 0 <= k < edited.len() && near_path(path, #[trigger] edited[k])
}

fn is_near_path(path: &Vec<IVec3>, e: IVec3) -> (r: bool)
    ensures
        r == near_path(path@, e),
{
    let mut x0: bool = false;
    let mut x1: bool = false;
    let mut y0: bool = false;
    let mut y1: bool = false;
    let mut z0: bool = false;
    let mut z1: bool = false;
    let mut i: usize = 0;
    while i < path.len()
        invariant
            i <= path@.len(),
            x0 == exists|k: int| 0 <= k < i && (#[trigger] path@[k]).x - 1 <= e.x,
            x1 == exists|k: int| 0 <= k < i && e.x <= (#[trigger] path@[k]).x + 1,
            y0 == exists|k: int| 0 <= k < i && (#[trigger] path@[k]).y - 1 <= e.y,
            y1 == exists|k: int| 0 <= k < i && e.y <= (#[trigger] path@[k]).y + 2,
            z0 == exists|k: int| 0 <= k < i && (#[trigger] path@[k]).z - 1 <= e.z,
            z1 == exists|k: int| 0 <= k < i && e.z <= (#[trigger] path@[k]).z + 1,
        decreases path@.len() - i,
    {
        let p: IVec3 = path[i];
        assert(path@[i as int] == p);
        x0 = x0 || p.x as i64 - 1 <= e.x as i64;
        x1 = x1 || e.x as i64 <= p.x as i64 + 1;
        y0 = y0 || p.y as i64 - 1 <= e.y as i64;
        y1 = y1 || e.y as i64 <= p.y as i64 + 2;
        z0 = z0 || p.z as i64 - 1 <= e.z as i64;
        z1 = z1 || e.z as i64 <= p.z as i64 + 1;
        i = i + 1;
    }
    x0 && x1 && y0 && y1 && z0 && z1
}

/// May some of the changes matter to the path?
pub fn path_envelope_hit(path: &Vec<IVec3>, edited: &Vec<IVec3>) -> (r: bool)
    ensures
        r == any_near_path(path@, edited@),
{
    let mut k: usize = 0;
    while k < edited.len()
        invariant
            k <= edited@.len(),
            forall|j: int| 0 <= j < k ==> !near_path(path@, #[trigger] edited@[j]),
        decreases edited@.len() - k,
    {
        if is_near_path(path, edited[k]) {
            return true;
        }
        k = k + 1;
    }
    false
}

// ---------- wandering ----------

pub const MAX_WANDER_ATTEMPTS: usize = 6;

pub const WANDER_DROP_BUDGET: i32 = 16;

/// A number of 2^32ths, rounded towards zero.
pub open spec fn whole_part(num: int) -> int {
    if num >= 0 {
        num / 0x1_0000_0000
    } else {
        -((-num) / 0x1_0000_0000)
    }
}

/// Where a wanderer looks for a goal: somewhere in the home area, from just
/// above it, or else somewhere within the radius.
#[verifier::opaque]
pub open spec fn wander_probe(
    foot: IVec3,
    radius: int,
    home: Option<(IVec3, IVec3)>,
    bits_x: u32,
    bits_z: u32,
) -> IVec3 {
    match home {
        Some((lo, hi)) => {
            let span_x = if hi.x > lo.x {
                hi.x - lo.x
            } else {
                0
            };
            let span_z = if hi.z > lo.z {
                hi.z - lo.z
            } else {
                0
            };
            IVec3 {
                x: whole_part(lo.x * 0x1_0000_0000 + bits_x * span_x) as i32,
                y: (hi.y + 4) as i32,
                z: whole_part(lo.z * 0x1_0000_0000 + bits_z * span_z) as i32,
            }
        },
        None => IVec3 {
            x: whole_part(foot.x * 0x1_0000_0000 + (2 * bits_x - 0x1_0000_0000) * radius) as i32,
            y: (foot.y + 4) as i32,
            z: whole_part(foot.z * 0x1_0000_0000 + (2 * bits_z - 0x1_0000_0000) * radius) as i32,
        },
    }
}

/// The area in which a wanderer looks has coordinates.
pub open spec fn wander_fits(foot: IVec3, radius: int, home: Option<(IVec3, IVec3)>) -> bool {
    match home {
        Some((lo, hi)) => i32::MIN + 12 <= hi.y <= i32::MAX - 4,
        None => 1 <= radius <= 0x1_0000 && clear_of_limits(foot, radius + 12),
    }
}

fn round_to_zero(num: i128) -> (r: i128)
    requires
        -0x1_0000_0000_0000_0000_0000 < num < 0x1_0000_0000_0000_0000_0000,
    ensures
        r == whole_part(num as int),
{
    if num >= 0 {
        num / 0x1_0000_0000
    } else {
        -((-num) / 0x1_0000_0000)
    }
}

fn span(lo: i32, hi: i32) -> (r: i128)
    ensures
        r == if hi > lo {
            hi - lo
        } else {
            0
        },
{
    if hi > lo {
        hi as i128 - lo as i128
    } else {
        0
    }
}

/// A random coordinate between two others.
fn between(lo: i32, hi: i32, bits: u32) -> (r: i32)
    ensures
        r == whole_part(
            lo * 0x1_0000_0000 + bits * (if hi > lo {
                hi - lo
            } else {
                0
            }),
        ),
        fits_i32(
            whole_part(
                lo * 0x1_0000_0000 + bits * (if hi > lo {
                    hi - lo
                } else {
                    0
                }),
            ),
        ),
{
    let s: i128 = span(lo, hi);
    assert(0 <= bits * s <= 0xffff_ffff * s) by (nonlinear_arith)
        requires
            0 <= bits <= 0xffff_ffff,
            0 <= s,
    ;
    let num: i128 = lo as i128 * 0x1_0000_0000 + bits as i128 * s;
    let v: i128 = round_to_zero(num);
    v as i32
}

/// A random coordinate around another.
fn around(centre: i32, radius: i32, bits: u32) -> (r: i32)
    requires
        1 <= radius <= 0x1_0000,
        i32::MIN + radius + 12 <= centre <= i32::MAX - radius - 12,
    ensures
        r == whole_part(centre * 0x1_0000_0000 + (2 * bits - 0x1_0000_0000) * radius),
        centre - radius - 1 <= r <= centre + radius + 1,
{
    let swing: i128 = 2 * bits as i128 - 0x1_0000_0000;
    assert(-0x1_0000_0000 * radius <= swing * radius <= 0x1_0000_0000 * radius)
        by (nonlinear_arith)
        requires
            -0x1_0000_0000 <= swing <= 0x1_0000_0000,
            1 <= radius,
    ;
    let num: i128 = centre as i128 * 0x1_0000_0000 + swing * radius as i128;
    let v: i128 = round_to_zero(num);
    v as i32
}

/// What one attempt at wandering comes to: the first footing below the probe,
/// and a route to it.
#[verifier::opaque]
pub open spec fn attempt_answer<W: Walkability>(
    world: &W,
    foot: IVec3,
    probe: IVec3,
    r: Option<Seq<IVec3>>,
) -> bool {
    match footing_below(world, probe, WANDER_DROP_BUDGET as int, 0) {
        None => r is None,
        Some(target) => route_answer(world, foot, target, r),
    }
}

/// The first footing at or below a cell.
pub open spec fn footing_below<W: Walkability>(world: &W, from: IVec3, max: int, dy: int) -> Option<
    IVec3,
>
    decreases max - dy + 1,
{
    if dy > max {
        None
    } else if can_stand(world, shifted(from, 0, -dy, 0)) {
        Some(shifted(from, 0, -dy, 0))
    } else {
        footing_below(world, from, max, dy + 1)
    }
}

proof fn lemma_footing_below<W: Walkability>(world: &W, from: IVec3, max: int, dy: int, at: Option<
    IVec3,
>)
    requires
        0 <= dy,
        at is None ==> forall|k: int|
            dy <= k <= max ==> !can_stand(world, #[trigger] shifted(from, 0, -k, 0)),
        at matches Some(c) ==> exists|m: int|
            dy <= m <= max && c == #[trigger] shifted(from, 0, -m, 0) && can_stand(world, c)
                && forall|k: int|
                dy <= k < m ==> !can_stand(world, #[trigger] shifted(from, 0, -k, 0)),
    ensures
        footing_below(world, from, max, dy) == at,
    decreases max - dy + 1,
{
    if dy <= max {
        let here = shifted(from, 0, -dy, 0);
        if can_stand(world, here) {
            if at is Some {
                let m = choose|m: int|
                    dy <= m <= max && at->0 == #[trigger] shifted(from, 0, -m, 0) && can_stand(
                        world,
                        at->0,
                    ) && forall|k: int|
                        dy <= k < m ==> !can_stand(world, #[trigger] shifted(from, 0, -k, 0));
                if m > dy {
                    assert(!can_stand(world, shifted(from, 0, -dy, 0)));
                }
            }
        } else {
            if at is Some {
                let m = choose|m: int|
                    dy <= m <= max && at->0 == #[trigger] shifted(from, 0, -m, 0) && can_stand(
                        world,
                        at->0,
                    ) && forall|k: int|
                        dy <= k < m ==> !can_stand(world, #[trigger] shifted(from, 0, -k, 0));
                assert(m > dy);
                assert(at->0 == shifted(from, 0, -m, 0));
            }
            lemma_footing_below(world, from, max, dy + 1, at);
        }
    }
}

/// The probe of the `k`-th attempt.
pub open spec fn probe_at(
    foot: IVec3,
    radius: int,
    home: Option<(IVec3, IVec3)>,
    seed: u64,
    k: int,
) -> IVec3 {
    wander_probe(
        foot,
        radius,
        home,
        bits_of(seed_after(seed, (2 * k) as nat)),
        bits_of(seed_after(seed, (2 * k + 1) as nat)),
    )
}

/// The `k`-th attempt was the first to give a route.
pub open spec fn succeeded_at<W: Walkability>(
    world: &W,
    foot: IVec3,
    radius: int,
    home: Option<(IVec3, IVec3)>,
    seed: u64,
    after: u64,
    path: Seq<IVec3>,
    k: int,
) -> bool {
    &&& 0 <= k < MAX_WANDER_ATTEMPTS
    &&& after == seed_after(seed, (2 * k + 2) as nat)
    &&& attempt_answer(world, foot, probe_at(foot, radius, home, seed, k), Some(path))
    &&& attempts_failed(world, foot, radius, home, seed, k)
}

/// Some attempt gave a route.
pub open spec fn some_attempt<W: Walkability>(
    world: &W,
    foot: IVec3,
    radius: int,
    home: Option<(IVec3, IVec3)>,
    seed: u64,
    after: u64,
    path: Seq<IVec3>,
) -> bool {
    exists|k: int| #[trigger] succeeded_at(world, foot, radius, home, seed, after, path, k)
}

/// Attempts failed until one gave a route, or all failed.
pub open spec fn wander_answer<W: Walkability>(
    world: &W,
    foot: IVec3,
    radius: int,
    home: Option<(IVec3, IVec3)>,
    seed: u64,
    after: u64,
    r: Option<Seq<IVec3>>,
) -> bool {
    match r {
        Some(p) => some_attempt(world, foot, radius, home, seed, after, p),
        None => after == seed_after(seed, 2 * MAX_WANDER_ATTEMPTS as nat) && attempts_failed(
            world,
            foot,
            radius,
            home,
            seed,
            MAX_WANDER_ATTEMPTS as int,
        ),
    }
}

/// The first `n` attempts failed.
pub open spec fn attempts_failed<W: Walkability>(
    world: &W,
    foot: IVec3,
    radius: int,
    home: Option<(IVec3, IVec3)>,
    seed: u64,
    n: int,
) -> bool {
    forall|k: int|
        0 <= k < n ==> attempt_answer(world, foot, #[trigger] probe_at(foot, radius, home, seed, k), None)
}

fn wander_attempt<W: Walkability>(world: &W, foot: IVec3, probe: IVec3) -> (r: Option<Vec<IVec3>>)
    requires
        probe.y >= i32::MIN + WANDER_DROP_BUDGET,
    ensures
        attempt_answer(world, foot, probe, path_view(r)),
        r matches Some(p) ==> p@.len() >= 2,
{
    let below: Option<IVec3> = nearest_standable_below(world, probe, WANDER_DROP_BUDGET);
    proof {
        reveal(attempt_answer);
        if let Some(c) = below {
            let m = probe.y - c.y;
            assert(c == shifted(probe, 0, -m, 0));
        }
        lemma_footing_below(world, probe, WANDER_DROP_BUDGET as int, 0, below);
    }
    match below {
        None => None,
        Some(target) => plan_route(world, foot, target),
    }
}

fn draw_probe(foot: IVec3, radius: i32, home: Option<(IVec3, IVec3)>, seed: &mut u64) -> (r: IVec3)
    requires
        wander_fits(foot, radius as int, home),
    ensures
        r == wander_probe(
            foot,
            radius as int,
            home,
            bits_of(*old(seed)),
            bits_of(next_seed(*old(seed))),
        ),
        *final(seed) == next_seed(next_seed(*old(seed))),
        r.y >= i32::MIN + WANDER_DROP_BUDGET,
{
    proof {
        reveal(wander_probe);
    }
    let bits_x: u32 = next_bits(seed);
    let bits_z: u32 = next_bits(seed);
    match home {
        Some((lo, hi)) => IVec3::new(
            between(lo.x, hi.x, bits_x),
            hi.y + 4,
            between(lo.z, hi.z, bits_z),
        ),
        None => IVec3::new(
            around(foot.x, radius, bits_x),
            foot.y + 4,
            around(foot.z, radius, bits_z),
        ),
    }
}

/// Picks a random route to wander.
pub fn pick_wander_path<W: Walkability>(
    foot: IVec3,
    radius: i32,
    home: Option<(IVec3, IVec3)>,
    seed: &mut u64,
    world: &W,
) -> (r: Option<Vec<IVec3>>)
    requires
        wander_fits(foot, radius as int, home),
    ensures
        wander_answer(
            world,
            foot,
            radius as int,
            home,
            *old(seed),
            *final(seed),
            path_view(r),
        ),
        r matches Some(p) ==> p@.len() >= 2,
{
    proof {
        lemma_two_draws(*seed, 0);
    }
    let mut k: usize = 0;
    while k < MAX_WANDER_ATTEMPTS
        invariant
            k <= MAX_WANDER_ATTEMPTS,
            wander_fits(foot, radius as int, home),
            *seed == seed_after(*old(seed), (2 * k) as nat),
            attempts_failed(world, foot, radius as int, home, *old(seed), k as int),
        decreases MAX_WANDER_ATTEMPTS - k,
    {
        let probe: IVec3 = draw_probe(foot, radius, home, seed);
        proof {
            lemma_two_draws(*old(seed), k as nat);
        }
        assert(probe == probe_at(foot, radius as int, home, *old(seed), k as int));
        let r: Option<Vec<IVec3>> = wander_attempt(world, foot, probe);
        if r.is_some() {
            proof {
                let p = (r->0)@;
                assert(path_view(r) == Some(p));
                assert(succeeded_at(
                    world,
                    foot,
                    radius as int,
                    home,
                    *old(seed),
                    *seed,
                    p,
                    k as int,
                ));
            }
            return r;
        }
        proof {
            assert forall|j: int| 0 <= j < k + 1 implies attempt_answer(
                world,
                foot,
                #[trigger] probe_at(foot, radius as int, home, *old(seed), j),
                None,
            ) by {
                if j == k {
                    assert(path_view(r) is None);
                }
            }
        }
        k = k + 1;
    }
    None
}

// ---------- what the chosen places are ----------

/// The nearest footing of a list is one of its cells, can be stood on, and no
/// other cell of the list that can be stood on is nearer; there is one exactly
/// where some cell of the list can be stood on. Of two equally near ones it is
/// not the later.
pub proof fn law_nearest_footing<W: Walkability>(
    world: &W,
    cells: Seq<IVec3>,
    from: IVec3,
    k: int,
)
    ensures
        closest_footing(world, cells, from) matches Some(c) ==> cells.contains(c) && can_stand(
            world,
            c,
        ),
        0 <= k < cells.len() && can_stand(world, cells[k]) ==> {
            &&& closest_footing(world, cells, from) is Some
            &&& manhattan_spec(closest_footing(world, cells, from)->0, from) <= manhattan_spec(
                cells[k],
                from,
            )
        },
        (0 <= k < cells.len() && can_stand(world, cells[k]) && forall|j: int|
            0 <= j < cells.len() && j != k && can_stand(world, #[trigger] cells[j])
                ==> manhattan_spec(cells[k], from) < manhattan_spec(cells[j], from) || (j > k
                && manhattan_spec(cells[k], from) == manhattan_spec(cells[j], from)))
            ==> closest_footing(world, cells, from) == Some(cells[k]),
        (forall|j: int| 0 <= j < cells.len() ==> !can_stand(world, #[trigger] cells[j]))
            ==> closest_footing(world, cells, from) is None,
{
    if any_footing(world, cells) {
        assert(cells.take(cells.len() as int) =~= cells);
        lemma_some_closest(world, cells, from, cells.len() as int);
        let m = choose|m: int| closest_at(world, cells, from, m);
        assert(closest_at(world, cells, from, m));
        assert(cells[m] == closest_footing(world, cells, from)->0);
        if 0 <= k < cells.len() && can_stand(world, cells[k]) {
            assert(can_stand(world, cells[m]));
        }
    }
    if 0 <= k < cells.len() && can_stand(world, cells[k]) {
        assert(any_footing(world, cells));
    }
}

/// No side of the cell, `dy` higher, can be stood on.
pub open spec fn no_side<W: Walkability>(world: &W, t: IVec3, dy: int) -> bool {
    &&& !can_stand(world, IVec3 { x: (t.x + 1) as i32, y: (t.y + dy) as i32, z: t.z })
    &&& !can_stand(world, IVec3 { x: (t.x - 1) as i32, y: (t.y + dy) as i32, z: t.z })
    &&& !can_stand(world, IVec3 { x: t.x, y: (t.y + dy) as i32, z: (t.z + 1) as i32 })
    &&& !can_stand(world, IVec3 { x: t.x, y: (t.y + dy) as i32, z: (t.z - 1) as i32 })
}

/// Whoever is to work on a cell stands beside it on its own level where any of
/// the four sides can be stood on; else one up, else one down, else two down,
/// and only where all of these fail right under it, two down. It stands on the
/// side of that level that is nearest to where it comes from.
pub proof fn law_places_beside_in_order<W: Walkability>(
    world: &W,
    t: IVec3,
    from: IVec3,
    dx: int,
    dz: int,
    dy: int,
)
    requires
        clear_of_limits(t, 3),
        (dx == 1 && dz == 0) || (dx == -1 && dz == 0) || (dx == 0 && dz == 1) || (dx == 0 && dz
            == -1),
        dy == 0 || dy == 1 || dy == -1 || dy == -2,
    ensures
        ({
            let place = place_beside(world, t, from);
            let side = IVec3 { x: (t.x + dx) as i32, y: (t.y + dy) as i32, z: (t.z + dz) as i32 };
            let under = IVec3 { x: t.x, y: (t.y - 2) as i32, z: t.z };
            let turn = if dy == 0 {
                true
            } else if dy == 1 {
                no_side(world, t, 0)
            } else if dy == -1 {
                no_side(world, t, 0) && no_side(world, t, 1)
            } else {
                no_side(world, t, 0) && no_side(world, t, 1) && no_side(world, t, -1)
            };
            &&& can_stand(world, side) && turn ==> {
                &&& place is Some
                &&& can_stand(world, place->0)
                &&& (place->0).y == t.y + dy
                &&& manhattan_spec(place->0, t) == manhattan_spec(side, t)
                &&& manhattan_spec(place->0, from) <= manhattan_spec(side, from)
            }
            &&& no_side(world, t, 0) && no_side(world, t, 1) && no_side(world, t, -1) && no_side(
                world,
                t,
                -2,
            ) ==> place == (if can_stand(world, under) {
                Some(under)
            } else {
                None
            })
        }),
{
    let k: int = if dx == 1 {
        0
    } else if dx == -1 {
        1
    } else if dz == 1 {
        2
    } else {
        3
    };
    lemma_sides(world, t, from, 0, k);
    lemma_sides(world, t, from, 1, k);
    lemma_sides(world, t, from, -1, k);
    lemma_sides(world, t, from, -2, k);
}

proof fn lemma_sides<W: Walkability>(world: &W, t: IVec3, from: IVec3, dy: int, k: int)
    requires
        clear_of_limits(t, 3),
        -2 <= dy <= 1,
        0 <= k < 4,
    ensures
        ({
            let cells = sides(t, dy);
            let found = closest_footing(world, cells, from);
            &&& no_side(world, t, dy) <==> found is None
            &&& found matches Some(c) ==> can_stand(world, c) && c.y == t.y + dy && manhattan_spec(
                c,
                t,
            ) == manhattan_spec(cells[k], t)
            &&& can_stand(world, cells[k]) ==> found is Some && manhattan_spec(found->0, from)
                <= manhattan_spec(cells[k], from)
        }),
{
    let cells = sides(t, dy);
    law_nearest_footing(world, cells, from, 0);
    law_nearest_footing(world, cells, from, 1);
    law_nearest_footing(world, cells, from, 2);
    law_nearest_footing(world, cells, from, 3);
    let found = closest_footing(world, cells, from);
    if let Some(c) = found {
        let m = cells.index_of(c);
        assert(cells[m] == c);
        assert(m == 0 || m == 1 || m == 2 || m == 3);
    }
}

/// A thing with places of its own is used from one of them, turned as the thing
/// is; the place can be stood on and is the nearest such.
pub proof fn law_things_are_used_from_their_places<W: Walkability>(
    world: &W,
    s: UseSlot,
    anchor: IVec3,
    facing: Cardinal,
    target: IVec3,
    foot: IVec3,
    k: int,
)
    requires
        0 <= k < s.approach@.len(),
        footprint_fits(anchor, s.approach@, facing),
    ensures
        ({
            let t = crate::blocks::turned(facing, s.approach@[k]);
            let c = IVec3 {
                x: (anchor.x + t.0) as i32,
                y: (anchor.y + t.1) as i32,
                z: (anchor.z + t.2) as i32,
            };
            let place = use_place(world, Some(s), anchor, facing, target, foot);
            can_stand(world, c) ==> place is Some && can_stand(world, place->0) && manhattan_spec(
                place->0,
                foot,
            ) <= manhattan_spec(c, foot)
        }),
        use_place(world, Some(s), anchor, facing, target, foot) matches Some(c) ==> exists|j: int|
            0 <= j < s.approach@.len() && c == #[trigger] footprint_cell(
                anchor,
                s.approach@[j],
                facing,
            ),
        use_place(world, None, anchor, facing, target, foot) == place_beside(world, target, foot),
{
    let cells = approach_cells(s.approach@, anchor, facing);
    law_nearest_footing(world, cells, foot, k);
    assert(cells[k] == footprint_cell(anchor, s.approach@[k], facing));
    if let Some(c) = use_place(world, Some(s), anchor, facing, target, foot) {
        let j = cells.index_of(c);
        assert(cells[j] == footprint_cell(anchor, s.approach@[j], facing));
    }
}

/// A body leaves a block to the first of the places from which the block is
/// used that can be stood on, failing these to the cell above the block, and
/// failing that to the one above that.
pub proof fn law_bodies_leave_to_the_first_footing<W: Walkability>(
    world: &W,
    cells: Seq<IVec3>,
    k: int,
)
    ensures
        (0 <= k < cells.len() && can_stand(world, cells[k]) && forall|j: int|
            0 <= j < k ==> !can_stand(world, #[trigger] cells[j])) ==> first_footing(world, cells, 0)
            == Some(cells[k]),
        (forall|j: int| 0 <= j < cells.len() ==> !can_stand(world, #[trigger] cells[j]))
            ==> first_footing(world, cells, 0) is None,
{
    lemma_first_footing(world, cells, 0, k);
}

proof fn lemma_first_footing<W: Walkability>(world: &W, cells: Seq<IVec3>, i: int, k: int)
    requires
        0 <= i,
    ensures
        (i <= k < cells.len() && can_stand(world, cells[k]) && forall|j: int|
            i <= j < k ==> !can_stand(world, #[trigger] cells[j])) ==> first_footing(world, cells, i)
            == Some(cells[k]),
        (forall|j: int| i <= j < cells.len() ==> !can_stand(world, #[trigger] cells[j]))
            ==> first_footing(world, cells, i) is None,
        first_footing(world, cells, i) matches Some(c) ==> can_stand(world, c) && cells.contains(c),
    decreases cells.len() - i,
{
    if i < cells.len() {
        if can_stand(world, cells[i]) {
            assert(cells[i] == first_footing(world, cells, i)->0);
        } else {
            lemma_first_footing(world, cells, i + 1, k);
        }
    }
}

/// The places to which a body leaves a block: those from which it is used, then
/// the cell above its anchor and the one above that.
pub proof fn law_places_to_leave_to(s: UseSlot, anchor: IVec3, facing: Cardinal, k: int)
    requires
        clear_of_limits(anchor, 2),
    ensures
        ({
            let n = s.approach@.len() as int;
            let cells = eject_cells(Some(s), anchor, facing);
            let bare = eject_cells(None, anchor, facing);
            let up = IVec3 { x: anchor.x, y: (anchor.y + 1) as i32, z: anchor.z };
            let upper = IVec3 { x: anchor.x, y: (anchor.y + 2) as i32, z: anchor.z };
            &&& cells.len() == n + 2
            &&& 0 <= k < n ==> cells[k] == footprint_cell(anchor, s.approach@[k], facing)
            &&& cells[n] == up
            &&& cells[n + 1] == upper
            &&& bare.len() == 2 && bare[0] == up && bare[1] == upper
        }),
{
}

/// A body stands on the cell under its middle where that can be stood on; else
/// on a cell that it covers and that can be stood on; and on none only where
/// none of these can be.
pub proof fn law_bodies_stand_on_what_they_cover<W: Walkability>(
    world: &W,
    nominal: IVec3,
    lo: IVec3,
    hi: IVec3,
    c: IVec3,
)
    requires
        lo.x <= hi.x,
        lo.y <= hi.y,
        lo.z <= hi.z,
    ensures
        can_stand(world, nominal) ==> standing_foot(world, nominal, lo, hi) == Some(nominal),
        standing_foot(world, nominal, lo, hi) matches Some(f) ==> can_stand(world, f) && (f == nominal
            || (lo.x <= f.x <= hi.x && lo.y <= f.y <= hi.y && lo.z <= f.z <= hi.z)),
        standing_foot(world, nominal, lo, hi) is None && lo.x <= c.x <= hi.x && lo.y <= c.y <= hi.y
            && lo.z <= c.z <= hi.z ==> !can_stand(world, c),
{
    let cells = box_cells(lo, hi);
    crate::plans::drag::law_box_cells(lo, hi);
    lemma_first_footing(world, cells, 0, 0);
    if let Some(f) = first_footing(world, cells, 0) {
        assert(cells.contains(f));
    }
    if cells.contains(c) {
        let k = cells.index_of(c);
        if can_stand(world, c) {
            lemma_footing_found(world, cells, 0, k);
        }
    }
}

proof fn lemma_footing_found<W: Walkability>(world: &W, cells: Seq<IVec3>, i: int, k: int)
    requires
        0 <= i <= k < cells.len(),
        can_stand(world, cells[k]),
    ensures
        first_footing(world, cells, i) is Some,
    decreases cells.len() - i,
{
    if !can_stand(world, cells[i]) {
        lemma_footing_found(world, cells, i + 1, k);
    }
}

proof fn lemma_at_distance(cells: Seq<IVec3>, centre: IVec3, d: int)
    ensures
        forall|c: IVec3| #[trigger]
            at_distance(cells, centre, d).contains(c) <==> cells.contains(c) && chebyshev_spec(
                c,
                centre,
            ) == d,
    decreases cells.len(),
{
    if cells.len() > 0 {
        let rest = cells.drop_last();
        lemma_at_distance(rest, centre, d);
        let few = at_distance(rest, centre, d);
        let all = at_distance(cells, centre, d);
        let last = cells.last();
        assert forall|c: IVec3| #[trigger] all.contains(c) <==> cells.contains(c) && chebyshev_spec(
            c,
            centre,
        ) == d by {
            assert(cells == rest.push(last));
            if cells.contains(c) {
                let k = cells.index_of(c);
                if k < rest.len() {
                    assert(rest[k] == c);
                    assert(rest.contains(c));
                }
            }
            if rest.contains(c) {
                let k = rest.index_of(c);
                assert(cells[k] == c);
            }
            if few.contains(c) {
                let k = few.index_of(c);
                assert(all[k] == c);
            }
            if chebyshev_spec(last, centre) == d {
                assert(all[all.len() - 1] == last);
                if all.contains(c) {
                    let k = all.index_of(c);
                    if k < few.len() {
                        assert(few[k] == c);
                        assert(few.contains(c));
                    }
                }
                assert(cells[cells.len() - 1] == last);
            }
        }
    }
}

proof fn lemma_rescue<W: Walkability>(world: &W, centre: IVec3, d: int, max: int, c: IVec3)
    requires
        1 <= d,
        clear_of_limits(centre, max),
    ensures
        rescue_cell(world, centre, d, max) matches Some(f) ==> {
            &&& can_stand(world, f)
            &&& d <= chebyshev_spec(f, centre) <= max
            &&& can_stand(world, c) && d <= chebyshev_spec(c, centre) ==> chebyshev_spec(f, centre)
                <= chebyshev_spec(c, centre)
            &&& can_stand(world, c) && chebyshev_spec(c, centre) == chebyshev_spec(f, centre)
                ==> manhattan_spec(f, centre) <= manhattan_spec(c, centre)
        },
        rescue_cell(world, centre, d, max) is None && d <= chebyshev_spec(c, centre) <= max
            ==> !can_stand(world, c),
    decreases max - d + 1,
{
    if d <= max {
        let lo = shifted(centre, -d, -d, -d);
        let hi = shifted(centre, d, d, d);
        let cells = shell(centre, d);
        crate::plans::drag::law_box_cells(lo, hi);
        lemma_at_distance(box_cells(lo, hi), centre, d);
        if chebyshev_spec(c, centre) == d {
            assert(box_cells(lo, hi).contains(c));
            assert(cells.contains(c));
            let k = cells.index_of(c);
            law_nearest_footing(world, cells, centre, k);
        } else {
            law_nearest_footing(world, cells, centre, 0);
        }
        if let Some(f) = closest_footing(world, cells, centre) {
            assert(cells.contains(f));
        } else {
            lemma_rescue(world, centre, d + 1, max, c);
        }
    }
}

/// A body that has lost its footing is put on footing within the radius, as near
/// as can be: no cell that can be stood on lies in a nearer shell around it, nor
/// nearer within the same shell. It is left where it is only where there is none
/// within the radius.
pub proof fn law_rescues_are_near<W: Walkability>(world: &W, centre: IVec3, max: int, c: IVec3)
    requires
        clear_of_limits(centre, max),
        c != centre,
    ensures
        rescue_cell(world, centre, 1, max) matches Some(f) ==> {
            &&& can_stand(world, f)
            &&& f != centre
            &&& chebyshev_spec(f, centre) <= max
            &&& can_stand(world, c) ==> chebyshev_spec(f, centre) <= chebyshev_spec(c, centre)
            &&& can_stand(world, c) && chebyshev_spec(c, centre) == chebyshev_spec(f, centre)
                ==> manhattan_spec(f, centre) <= manhattan_spec(c, centre)
        },
        rescue_cell(world, centre, 1, max) is None && chebyshev_spec(c, centre) <= max ==> !can_stand(
            world,
            c,
        ),
{
    lemma_rescue(world, centre, 1, max, c);
}

/// A route leads from its start to its goal by at least one hop, and each of its
/// waypoints after the start can be stood on.
pub proof fn law_routes_lead_there<W: Walkability>(
    world: &W,
    start: IVec3,
    goal: IVec3,
    r: Seq<IVec3>,
)
    requires
        route_answer(world, start, goal, Some(r)),
    ensures
        r.len() >= 2,
        r[0] == start,
        r[r.len() - 1] == goal,
        start != goal,
        can_stand(world, start),
        can_stand(world, goal),
{
    let raw = choose|raw: Option<Seq<IVec3>>|
        #[trigger] search_answer(world, start, goal, raw) && Some(r) == smoothed_route(world, raw);
    assert(search_answer(world, start, goal, raw));
    let idx = crate::pathfinding::law_smoothing_pulls_clear_lines(world, raw->0);
    if start == goal {
        assert(raw->0 == seq![start]);
        assert(smoothed(world, raw->0).len() == 1);
    }
}

/// A route is found wherever a walk over ground of full price leads there in at
/// most sixty-four level steps, unless more than two thousand cells were as
/// promising.
pub proof fn law_routes_are_found<W: Walkability>(
    world: &W,
    start: IVec3,
    goal: IVec3,
    r: Option<Seq<IVec3>>,
    p: Seq<IVec3>,
) -> (s: Seq<(IVec3, int)>)
    requires
        route_answer(world, start, goal, r),
        start != goal,
        can_stand(world, start),
        can_stand(world, goal),
        crate::pathfinding::is_walk(world, p, start, goal),
        forall|i: int| 0 < i < p.len() ==> world.price(#[trigger] p[i]) >= 1000,
        crate::pathfinding::walk_cost(world, p) <= 640000,
    ensures
        r is None ==> {
            &&& s.len() > 2000
            &&& s.no_duplicates()
            &&& forall|k: int|
                0 <= k < s.len() ==> crate::pathfinding::reaches_at(
                    world,
                    start,
                    (#[trigger] s[k]).0,
                    s[k].1,
                ) && s[k].1 <= crate::pathfinding::walk_cost(world, p)
        },
{
    let raw = choose|raw: Option<Seq<IVec3>>|
        #[trigger] search_answer(world, start, goal, raw) && r == smoothed_route(world, raw);
    assert(search_answer(world, start, goal, raw));
    let s = crate::pathfinding::law_search_gives_up_only_when_spent(
        world,
        start,
        goal,
        ASTAR_NODE_BUDGET,
        ASTAR_PATH_BUDGET,
        raw,
        p,
    );
    if let Some(q) = raw {
        let idx = crate::pathfinding::law_smoothing_pulls_clear_lines(world, q);
        if smoothed(world, q).len() == 1 {
            assert(smoothed(world, q)[0] == start);
            assert(smoothed(world, q).last() == goal);
        }
    }
    s
}

/// What is left of a path holds exactly while each of its waypoints can be stood
/// on and each hop is open: on the level along a clear line, one up with room
/// over the head of who climbs, one down with room over the edge, and never more
/// than one.
pub proof fn law_paths_hold_hop_by_hop<W: Walkability>(
    world: &W,
    path: Seq<IVec3>,
    edge: int,
    i: int,
)
    requires
        0 <= edge <= i < path.len(),
    ensures
        rest_open(world, path, edge) ==> can_stand(world, path[i]),
        rest_open(world, path, edge) && i + 1 < path.len() ==> {
            let a = path[i];
            let b = path[i + 1];
            ||| b.y == a.y && clear_line(world, a, b)
            ||| b.y == a.y + 1 && !world.body_blocked(
                IVec3 { x: a.x, y: (a.y + 2) as i32, z: a.z },
            )
            ||| b.y == a.y - 1 && !world.body_blocked(
                IVec3 { x: b.x, y: (b.y + 1) as i32, z: b.z },
            )
        },
        edge == path.len() - 1 && can_stand(world, path[edge]) ==> rest_open(world, path, edge),
        i + 1 < path.len() && edge == i && rest_open(world, path, i + 1) && can_stand(world, path[i])
            && ({
            let a = path[i];
            let b = path[i + 1];
            ||| b.y == a.y && clear_line(world, a, b)
            ||| b.y == a.y + 1 && !world.body_blocked(
                IVec3 { x: a.x, y: (a.y + 2) as i32, z: a.z },
            )
            ||| b.y == a.y - 1 && !world.body_blocked(
                IVec3 { x: b.x, y: (b.y + 1) as i32, z: b.z },
            )
        }) ==> rest_open(world, path, i),
{
    if rest_open(world, path, edge) {
        assert(waypoint_open(world, path, i));
    }
    if i + 1 < path.len() && rest_open(world, path, i + 1) && waypoint_open(world, path, i) {
        assert forall|k: int|
            i <= k < path.len() || (path.len() > 0 && k == path.len() - 1) implies #[trigger] waypoint_open(
            world,
            path,
            k,
        ) by {}
    }
}

/// A change matters to a path where it lies within one cell of a waypoint, or up
/// to two above it; it does not where it lies further off than that from all of
/// them on some axis.
pub proof fn law_changes_near_a_path(path: Seq<IVec3>, e: IVec3, i: int)
    ensures
        (0 <= i < path.len() && -1 <= e.x - path[i].x <= 1 && -1 <= e.z - path[i].z <= 1 && -1 <= e.y
            - path[i].y <= 2) ==> near_path(path, e),
        (forall|k: int| 0 <= k < path.len() ==> e.x < (#[trigger] path[k]).x - 1) ==> !near_path(
            path,
            e,
        ),
        (forall|k: int| 0 <= k < path.len() ==> e.x > (#[trigger] path[k]).x + 1) ==> !near_path(
            path,
            e,
        ),
        (forall|k: int| 0 <= k < path.len() ==> e.y < (#[trigger] path[k]).y - 1) ==> !near_path(
            path,
            e,
        ),
        (forall|k: int| 0 <= k < path.len() ==> e.y > (#[trigger] path[k]).y + 2) ==> !near_path(
            path,
            e,
        ),
        (forall|k: int| 0 <= k < path.len() ==> e.z < (#[trigger] path[k]).z - 1) ==> !near_path(
            path,
            e,
        ),
        (forall|k: int| 0 <= k < path.len() ==> e.z > (#[trigger] path[k]).z + 1) ==> !near_path(
            path,
            e,
        ),
{
    if 0 <= i < path.len() {
        let p = path[i];
        assert(path[i] == p);
    }
}

/// A change anywhere between two waypoints of a path, axis by axis, matters too.
pub proof fn law_changes_between_waypoints(path: Seq<IVec3>, e: IVec3, i: int, j: int)
    requires
        0 <= i < path.len(),
        0 <= j < path.len(),
        path[i].x <= e.x <= path[j].x || path[j].x <= e.x <= path[i].x,
        path[i].y <= e.y <= path[j].y || path[j].y <= e.y <= path[i].y,
        path[i].z <= e.z <= path[j].z || path[j].z <= e.z <= path[i].z,
    ensures
        near_path(path, e),
{
    let p = path[i];
    let q = path[j];
    assert(path[i] == p && path[j] == q);
}

proof fn lemma_whole_part_between(lo: int, hi: int, num: int)
    requires
        lo * 0x1_0000_0000 <= num <= hi * 0x1_0000_0000,
    ensures
        lo <= whole_part(num) <= hi,
{
}

/// `cell` is what is left of a number of 2^32nds of cells without the fraction:
/// the cell that the number lies in, and towards zero where it lies between.
pub open spec fn near_fraction(cell: int, parts: int) -> bool {
    &&& parts >= 0 ==> cell * 0x1_0000_0000 <= parts < (cell + 1) * 0x1_0000_0000
    &&& parts < 0 ==> (cell - 1) * 0x1_0000_0000 < parts <= cell * 0x1_0000_0000
}

/// A wanderer without a home looks for a goal no further off than its radius on
/// either axis, from four cells above: the middle of the range of random bits is
/// the cell itself, and none of them is the far edge. One with a home looks
/// between the edges of its settlement, from four cells above that.
pub proof fn law_wanderers_look_around(
    foot: IVec3,
    radius: int,
    home: Option<(IVec3, IVec3)>,
    bits_x: u32,
    bits_z: u32,
)
    requires
        wander_fits(foot, radius, home),
    ensures
        ({
            let p = wander_probe(foot, radius, home, bits_x, bits_z);
            match home {
                None => {
                    &&& foot.x - radius <= p.x <= foot.x + radius
                    &&& foot.z - radius <= p.z <= foot.z + radius
                    &&& p.y == foot.y + 4
                    &&& bits_x == 0x8000_0000 ==> p.x == foot.x
                    &&& bits_z == 0x8000_0000 ==> p.z == foot.z
                    &&& bits_x == 0 ==> p.x == foot.x - radius
                    &&& bits_z == 0 ==> p.z == foot.z - radius
                    &&& near_fraction(
                        p.x as int,
                        foot.x * 0x1_0000_0000 + 2 * bits_x * radius - radius * 0x1_0000_0000,
                    )
                    &&& near_fraction(
                        p.z as int,
                        foot.z * 0x1_0000_0000 + 2 * bits_z * radius - radius * 0x1_0000_0000,
                    )
                },
                Some((lo, hi)) => {
                    &&& lo.x <= hi.x ==> lo.x <= p.x <= hi.x
                    &&& lo.z <= hi.z ==> lo.z <= p.z <= hi.z
                    &&& bits_x == 0 ==> p.x == lo.x
                    &&& bits_z == 0 ==> p.z == lo.z
                    &&& lo.x <= hi.x ==> near_fraction(
                        p.x as int,
                        lo.x * 0x1_0000_0000 + bits_x * (hi.x - lo.x),
                    )
                    &&& lo.z <= hi.z ==> near_fraction(
                        p.z as int,
                        lo.z * 0x1_0000_0000 + bits_z * (hi.z - lo.z),
                    )
                    &&& p.y == hi.y + 4
                },
            }
        }),
{
    reveal(wander_probe);
    match home {
        None => {
            assert((2 * bits_x - 0x1_0000_0000) * radius == 2 * bits_x * radius - radius
                * 0x1_0000_0000) by (nonlinear_arith);
            assert((2 * bits_z - 0x1_0000_0000) * radius == 2 * bits_z * radius - radius
                * 0x1_0000_0000) by (nonlinear_arith);
            lemma_swing(foot.x as int, radius, bits_x);
            lemma_swing(foot.z as int, radius, bits_z);
        },
        Some((lo, hi)) => {
            lemma_span(lo.x as int, hi.x as int, bits_x);
            lemma_span(lo.z as int, hi.z as int, bits_z);
        },
    }
}

proof fn lemma_swing(centre: int, radius: int, bits: u32)
    requires
        radius >= 1,
    ensures
        ({
            let v = whole_part(centre * 0x1_0000_0000 + (2 * bits - 0x1_0000_0000) * radius);
            &&& centre - radius <= v <= centre + radius
            &&& bits == 0x8000_0000 ==> v == centre
            &&& bits == 0 ==> v == centre - radius
        }),
{
    let swing = 2 * bits - 0x1_0000_0000;
    assert(-0x1_0000_0000 * radius <= swing * radius <= 0x1_0000_0000 * radius) by (nonlinear_arith)
        requires
            -0x1_0000_0000 <= swing <= 0x1_0000_0000,
            1 <= radius,
    ;
    lemma_whole_part_between(
        centre - radius,
        centre + radius,
        centre * 0x1_0000_0000 + swing * radius,
    );
    if bits == 0x8000_0000 {
        assert(swing == 0);
        assert(swing * radius == 0) by (nonlinear_arith)
            requires
                swing == 0,
        ;
    }
    if bits == 0 {
        assert(swing * radius == -0x1_0000_0000 * radius) by (nonlinear_arith)
            requires
                swing == -0x1_0000_0000,
        ;
        lemma_whole_part_between(
            centre - radius,
            centre - radius,
            centre * 0x1_0000_0000 + swing * radius,
        );
    }
}

proof fn lemma_span(lo: int, hi: int, bits: u32)
    ensures
        ({
            let span = if hi > lo {
                hi - lo
            } else {
                0
            };
            let v = whole_part(lo * 0x1_0000_0000 + bits * span);
            &&& lo <= hi ==> lo <= v <= hi
            &&& bits == 0 ==> v == lo
            &&& lo <= v <= lo + span
        }),
{
    let span = if hi > lo {
        hi - lo
    } else {
        0
    };
    assert(0 <= bits * span <= 0x1_0000_0000 * span) by (nonlinear_arith)
        requires
            0 <= bits <= 0x1_0000_0000,
            span >= 0,
    ;
    lemma_whole_part_between(lo, lo + span, lo * 0x1_0000_0000 + bits * span);
    if bits == 0 {
        assert(bits * span == 0) by (nonlinear_arith)
            requires
                bits == 0,
        ;
        lemma_whole_part_between(lo, lo, lo * 0x1_0000_0000 + bits * span);
    }
}

/// Wherever a wanderer sets out for, it goes by a route to footing at most
/// sixteen cells below where it looked, and nothing nearer below can be stood
/// on.
pub proof fn law_wanderers_go_to_footing<W: Walkability>(
    world: &W,
    foot: IVec3,
    radius: int,
    home: Option<(IVec3, IVec3)>,
    seed: u64,
    after: u64,
    p: Seq<IVec3>,
) -> (bits: (u32, u32))
    requires
        wander_answer(world, foot, radius, home, seed, after, Some(p)),
        wander_fits(foot, radius, home),
    ensures
        ({
            let probe = wander_probe(foot, radius, home, bits.0, bits.1);
            &&& p.len() >= 2
            &&& p[0] == foot
            &&& can_stand(world, p[p.len() - 1])
            &&& p[p.len() - 1].x == probe.x
            &&& p[p.len() - 1].z == probe.z
            &&& probe.y - 16 <= p[p.len() - 1].y <= probe.y
        }),
{
    let k = choose|k: int| #[trigger] succeeded_at(world, foot, radius, home, seed, after, p, k);
    assert(succeeded_at(world, foot, radius, home, seed, after, p, k));
    reveal(attempt_answer);
    let bits = (
        bits_of(seed_after(seed, (2 * k) as nat)),
        bits_of(seed_after(seed, (2 * k + 1) as nat)),
    );
    let probe = probe_at(foot, radius, home, seed, k);
    law_wanderers_look_around(foot, radius, home, bits.0, bits.1);
    lemma_footing_is_below(world, probe, 16, 0);
    let target = footing_below(world, probe, 16, 0)->0;
    law_routes_lead_there(world, foot, target, p);
    bits
}

proof fn lemma_footing_is_below<W: Walkability>(world: &W, from: IVec3, max: int, dy: int)
    requires
        0 <= dy,
        from.y - max >= i32::MIN,
    ensures
        footing_below(world, from, max, dy) matches Some(c) ==> {
            &&& can_stand(world, c)
            &&& c.x == from.x && c.z == from.z
            &&& from.y - max <= c.y <= from.y - dy
        },
    decreases max - dy + 1,
{
    if dy <= max && !can_stand(world, shifted(from, 0, -dy, 0)) {
        lemma_footing_is_below(world, from, max, dy + 1);
    }
}

} // verus!
