//! Floor cells, virtual doorways and the floor flood fill.

use crate::blocks::{BlockFlags, BlockRegistry, BlockSlot, BlockWorld};
use crate::cells::{clear_of_limits, dir_dx, dir_dz, fits_i32, neighbour, shifted, IVec3};
use crate::ord_map::CellMap;
use vstd::prelude::*;

verus! {

/// Ceilings, walls and contents are probed this far above the floor.
pub const PROBE_HEIGHT: i32 = 33;

/// The cell is far enough from the coordinate limits to be probed: by `side`
/// cells in every direction, and by the height of the probes above.
pub open spec fn clear_to_probe(c: IVec3, side: int) -> bool {
    clear_of_limits(c, side) && c.y <= i32::MAX - side - PROBE_HEIGHT
}

pub open spec fn flags_at(world: &BlockWorld, reg: &BlockRegistry, c: IVec3) -> BlockFlags {
    reg.flags(world.slot(c))
}

pub open spec fn air_at(world: &BlockWorld, c: IVec3) -> bool {
    world.slot(c) == BlockSlot(0)
}

/// A passable cell whose support comes from below (solid ground, water) or
/// from the cell itself (a ladder, a rail).
pub open spec fn floor_cell(world: &BlockWorld, reg: &BlockRegistry, c: IVec3) -> bool {
    &&& clear_to_probe(c, 2)
    &&& flags_at(world, reg, c).support_in_cell || (air_at(world, c) && flags_at(
        world,
        reg,
        shifted(c, 0, -1, 0),
    ).support_below)
}

pub fn is_floor_cell(c: IVec3, world: &BlockWorld, reg: &BlockRegistry) -> (r: bool)
    requires
        world.covered_by(reg),
    ensures
        r == floor_cell(world, reg, c),
{
    let lo: i32 = i32::MIN + 2;
    let hi: i32 = i32::MAX - 2;
    if !c.inside(IVec3::new(lo, lo, lo), IVec3::new(hi, hi - PROBE_HEIGHT, hi)) {
        return false;
    }
    let here: BlockSlot = world.get(c);
    if reg.def(here).flags.support_in_cell {
        return true;
    }
    if !here.is_empty() {
        return false;
    }
    let below: BlockSlot = world.get(c.shift(0, -1, 0));
    reg.def(below).flags.support_below
}

/// The block bounds a room: walls, doors, glass, furniture.
pub open spec fn bounding(reg: &BlockRegistry, slot: BlockSlot) -> bool {
    slot != BlockSlot(0) && (reg.flags(slot).room_boundary || reg.flags(slot).solid)
}

pub fn bounds_room(slot: BlockSlot, reg: &BlockRegistry) -> (r: bool)
    requires
        reg.knows(slot),
    ensures
        r == bounding(reg, slot),
{
    if slot.is_empty() {
        return false;
    }
    let f: BlockFlags = reg.def(slot).flags;
    f.room_boundary || f.solid
}

/// A wall, a door or terrain, as opposed to air or mere furniture.
pub open spec fn wall_at(world: &BlockWorld, reg: &BlockRegistry, c: IVec3) -> bool {
    !air_at(world, c) && flags_at(world, reg, c).room_boundary
}

/// Both cells next to `c` along `axis` are walls: a gap one cell wide.
pub open spec fn choke_along(
    world: &BlockWorld,
    reg: &BlockRegistry,
    c: IVec3,
    axis: IVec3,
) -> bool {
    &&& wall_at(world, reg, shifted(c, axis.x as int, axis.y as int, axis.z as int))
    &&& wall_at(world, reg, shifted(c, -axis.x as int, -axis.y as int, -axis.z as int))
}

/// Is `c` a gap one cell wide in a wall that runs along `axis`?
pub fn is_choke_along(c: IVec3, axis: IVec3, world: &BlockWorld, reg: &BlockRegistry) -> (r: bool)
    requires
        world.covered_by(reg),
        clear_of_limits(c, 1),
        -1 <= axis.x <= 1,
        -1 <= axis.y <= 1,
        -1 <= axis.z <= 1,
    ensures
        r == choke_along(world, reg, c, axis),
{
    let a: BlockSlot = world.get(c.shift(axis.x, axis.y, axis.z));
    let b: BlockSlot = world.get(c.shift(-axis.x, -axis.y, -axis.z));
    !a.is_empty() && reg.def(a).flags.room_boundary && !b.is_empty() && reg.def(
        b,
    ).flags.room_boundary
}

/// The axis across direction `d`.
pub open spec fn across(d: int) -> IVec3 {
    IVec3 { x: dir_dz(d) as i32, y: 0, z: dir_dx(d) as i32 }
}

/// The cell above is passable.
pub open spec fn headroom(world: &BlockWorld, reg: &BlockRegistry, c: IVec3) -> bool {
    air_at(world, shifted(c, 0, 1, 0)) || flags_at(
        world,
        reg,
        shifted(c, 0, 1, 0),
    ).support_in_cell
}

pub fn has_headroom(c: IVec3, world: &BlockWorld, reg: &BlockRegistry) -> (r: bool)
    requires
        world.covered_by(reg),
        fits_i32(c.y + 1),
    ensures
        r == headroom(world, reg, c),
{
    let above: BlockSlot = world.get(c.shift(0, 1, 0));
    above.is_empty() || reg.def(above).flags.support_in_cell
}

/// The fill walks from `c` one cell in direction `d`: onto floor that is not a
/// doorway across its way.
pub open spec fn fill_edge(world: &BlockWorld, reg: &BlockRegistry, c: IVec3, d: int) -> bool {
    floor_cell(world, reg, neighbour(c, d)) && !choke_along(world, reg, neighbour(c, d), across(d))
}

pub open spec fn fill_steps_on(
    world: &BlockWorld,
    reg: &BlockRegistry,
    seen: Set<IVec3>,
    p: Seq<IVec3>,
    i: int,
) -> bool {
    exists|d: int|
        #![trigger neighbour(p[i], d)]
        0 <= d < 4 && p[i + 1] == neighbour(p[i], d) && fill_edge(world, reg, p[i], d)
            && !seen.contains(p[i + 1])
}

/// A way the fill can take from `seed` to `c` around the cells already seen.
pub open spec fn fill_path(
    world: &BlockWorld,
    reg: &BlockRegistry,
    seen: Set<IVec3>,
    seed: IVec3,
    c: IVec3,
    p: Seq<IVec3>,
) -> bool {
    &&& p.len() > 0
    &&& p[0] == seed
    &&& p.last() == c
    &&& forall|i: int| 0 <= i < p.len() - 1 ==> #[trigger] fill_steps_on(world, reg, seen, p, i)
}

/// The cell belongs to the region around `seed`.
pub open spec fn in_region(
    world: &BlockWorld,
    reg: &BlockRegistry,
    seen: Set<IVec3>,
    seed: IVec3,
    c: IVec3,
) -> bool {
    exists|p: Seq<IVec3>| fill_path(world, reg, seen, seed, c, p)
}

/// Floor next to one of the cells that the fill must not enter from there.
pub open spec fn gap_of(
    world: &BlockWorld,
    reg: &BlockRegistry,
    seen: Set<IVec3>,
    cells: Seq<IVec3>,
    g: IVec3,
) -> bool {
    !seen.contains(g) && exists|k: int, d: int|
        #![trigger neighbour(cells[k], d)]
        0 <= k < cells.len() && 0 <= d < 4 && g == neighbour(cells[k], d) && floor_cell(
            world,
            reg,
            g,
        ) && choke_along(world, reg, g, across(d))
}

/// Result of one floor flood fill.
pub struct FloorFill {
    pub cells: Vec<IVec3>,
    /// Gaps one cell wide at which the fill stopped. They seal the perimeter.
    pub boundary_gaps: CellMap<()>,
    /// The gaps with headroom: doorways an actor fits through.
    pub doorways: CellMap<()>,
}

/// The cells lie on one level, without repetition, clear of the limits.
pub open spec fn level_cells(cells: Seq<IVec3>) -> bool {
    &&& cells.len() > 0
    &&& cells.no_duplicates()
    &&& forall|i: int|
        0 <= i < cells.len() ==> (#[trigger] cells[i]).y == cells[0].y && clear_to_probe(
            cells[i],
            2,
        )
}

/// The fill is the region around `seed`, given the cells already seen: its
/// cells on one level, the doorways at which it stops, and which of those an
/// actor fits through.
pub open spec fn fills_region(
    world: &BlockWorld,
    reg: &BlockRegistry,
    seen: Set<IVec3>,
    seed: IVec3,
    fill: FloorFill,
) -> bool {
    let cells = fill.cells@;
    &&& level_cells(cells)
    &&& cells[0] == seed
    &&& forall|c: IVec3| #[trigger] cells.contains(c) <==> in_region(world, reg, seen, seed, c)
    &&& forall|g: IVec3| #[trigger]
        fill.boundary_gaps@.contains_key(g) ==> gap_of(world, reg, seen, cells, g)
    &&& forall|g: IVec3| #[trigger]
        gap_of(world, reg, seen, cells, g) && !cells.contains(g)
            ==> fill.boundary_gaps@.contains_key(g)
    &&& forall|g: IVec3| #[trigger]
        fill.doorways@.contains_key(g) <==> fill.boundary_gaps@.contains_key(g) && headroom(
            world,
            reg,
            g,
        )
}

/// The region around `seed` has more than `cap` cells.
pub open spec fn region_exceeds(
    world: &BlockWorld,
    reg: &BlockRegistry,
    seen: Set<IVec3>,
    seed: IVec3,
    cap: u32,
) -> bool {
    exists|s: Seq<IVec3>|
        {
            &&& s.len() > cap
            &&& #[trigger] s.no_duplicates()
            &&& forall|k: int|
                0 <= k < s.len() ==> in_region(world, reg, seen, seed, #[trigger] s[k])
        }
}

proof fn lemma_region_next(
    world: &BlockWorld,
    reg: &BlockRegistry,
    seen: Set<IVec3>,
    seed: IVec3,
    c: IVec3,
    d: int,
)
    requires
        in_region(world, reg, seen, seed, c),
        0 <= d < 4,
        fill_edge(world, reg, c, d),
        !seen.contains(neighbour(c, d)),
    ensures
        in_region(world, reg, seen, seed, neighbour(c, d)),
{
    let p = choose|p: Seq<IVec3>| fill_path(world, reg, seen, seed, c, p);
    let q = p.push(neighbour(c, d));
    assert forall|i: int| 0 <= i < q.len() - 1 implies #[trigger] fill_steps_on(
        world,
        reg,
        seen,
        q,
        i,
    ) by {
        if i < p.len() - 1 {
            assert(fill_steps_on(world, reg, seen, p, i));
            let e = choose|e: int|
                #![trigger neighbour(p[i], e)]
                0 <= e < 4 && p[i + 1] == neighbour(p[i], e) && fill_edge(world, reg, p[i], e)
                    && !seen.contains(p[i + 1]);
            assert(q[i + 1] == neighbour(q[i], e));
        } else {
            assert(q[i + 1] == neighbour(q[i], d));
        }
    }
    assert(fill_path(world, reg, seen, seed, neighbour(c, d), q));
}

/// A set that holds the seed and every step out of it holds the whole region.
proof fn lemma_region_closed(
    world: &BlockWorld,
    reg: &BlockRegistry,
    seen: Set<IVec3>,
    seed: IVec3,
    cells: Seq<IVec3>,
    p: Seq<IVec3>,
    i: int,
)
    requires
        0 <= i < p.len(),
        p[0] == seed,
        forall|k: int| 0 <= k < p.len() - 1 ==> #[trigger] fill_steps_on(world, reg, seen, p, k),
        cells.contains(seed),
        forall|c: IVec3, d: int|
            #![trigger cells.contains(c), neighbour(c, d)]
            cells.contains(c) && 0 <= d < 4 && fill_edge(world, reg, c, d) && !seen.contains(
                neighbour(c, d),
            ) ==> cells.contains(neighbour(c, d)),
    ensures
        cells.contains(p[i]),
    decreases i,
{
    if i > 0 {
        lemma_region_closed(world, reg, seen, seed, cells, p, i - 1);
        assert(fill_steps_on(world, reg, seen, p, i - 1));
    }
}

spec fn explored(
    world: &BlockWorld,
    reg: &BlockRegistry,
    visited: Set<IVec3>,
    gaps: Set<IVec3>,
    c: IVec3,
    dirs: int,
) -> bool {
    forall|d: int|
        #![trigger neighbour(c, d)]
        0 <= d < dirs && floor_cell(world, reg, neighbour(c, d)) && !visited.contains(
            neighbour(c, d),
        ) ==> choke_along(world, reg, neighbour(c, d), across(d)) && gaps.contains(neighbour(c, d))
}

proof fn lemma_explored_kept(
    world: &BlockWorld,
    reg: &BlockRegistry,
    visited: Set<IVec3>,
    gaps: Set<IVec3>,
    visited2: Set<IVec3>,
    gaps2: Set<IVec3>,
    c: IVec3,
    dirs: int,
)
    requires
        explored(world, reg, visited, gaps, c, dirs),
        visited.subset_of(visited2),
        gaps.subset_of(gaps2),
    ensures
        explored(world, reg, visited2, gaps2, c, dirs),
{
}

/// Walks the floor around `seed` on its own level and stops at doorways.
///
/// `None` means that the region has more than `cap` cells. Cells already in
/// `visited` are left alone, and everything walked over is added to it.
pub fn flood_fill_floor(
    seed: IVec3,
    world: &BlockWorld,
    reg: &BlockRegistry,
    cap: u32,
    visited: &mut CellMap<()>,
) -> (r: Option<FloorFill>)
    requires
        world.covered_by(reg),
        floor_cell(world, reg, seed),
    ensures
        old(visited)@.dom().subset_of(final(visited)@.dom()),
        final(visited)@.contains_key(seed),
        forall|c: IVec3| #[trigger]
            final(visited)@.contains_key(c) ==> old(visited)@.contains_key(c) || in_region(
                world,
                reg,
                old(visited)@.dom(),
                seed,
                c,
            ),
        match r {
            Some(fill) => {
                &&& fills_region(world, reg, old(visited)@.dom(), seed, fill)
                &&& fill.cells@.len() <= cap
                &&& forall|c: IVec3| #[trigger]
                    fill.cells@.contains(c) ==> final(visited)@.contains_key(c)
                &&& forall|c: IVec3| #[trigger]
                    final(visited)@.contains_key(c) ==> old(visited)@.contains_key(c)
                        || fill.cells@.contains(c)
            },
            None => region_exceeds(world, reg, old(visited)@.dom(), seed, cap),
        },
{
    let ghost seen = visited@.dom();
    let mut cells: Vec<IVec3> = Vec::new();
    let mut gaps: CellMap<()> = CellMap::new();
    let mut doorways: CellMap<()> = CellMap::new();
    cells.push(seed);
    let _ = visited.insert(seed, ());
    let mut head: usize = 0;
    proof {
        let p = seq![seed];
        assert(fill_path(world, reg, seen, seed, seed, p));
        assert(in_region(world, reg, seen, seed, seed));
        assert(cells@ =~= seq![seed]);
    }
    while head < cells.len()
        invariant
            world.covered_by(reg),
            seen == old(visited)@.dom(),
            head <= cells@.len(),
            head <= cap,
            level_cells(cells@),
            cells@[0] == seed,
            forall|k: int|
                0 <= k < cells@.len() ==> in_region(world, reg, seen, seed, #[trigger] cells@[k]),
            forall|c: IVec3| #[trigger]
                visited@.contains_key(c) <==> seen.contains(c) || cells@.contains(c),
            forall|k: int|
                0 <= k < head ==> explored(
                    world,
                    reg,
                    visited@.dom(),
                    gaps@.dom(),
                    #[trigger] cells@[k],
                    4,
                ),
            forall|g: IVec3| #[trigger]
                gaps@.contains_key(g) ==> gap_of(world, reg, seen, cells@, g),
            forall|g: IVec3| #[trigger]
                doorways@.contains_key(g) <==> gaps@.contains_key(g) && headroom(world, reg, g),
        decreases cap - head,
    {
        if head as u64 >= cap as u64 {
            proof {
                let s = cells@.take(cap + 1);
                assert(s.len() == cap + 1);
                assert forall|i: int, j: int| 0 <= i < s.len() && 0 <= j < s.len() && i
                    != j implies s[i] != s[j] by {
                    assert(cells@[i] != cells@[j]);
                }
                assert(s.no_duplicates());
                assert forall|k: int| 0 <= k < s.len() implies in_region(
                    world,
                    reg,
                    seen,
                    seed,
                    #[trigger] s[k],
                ) by {
                    assert(s[k] == cells@[k]);
                }
            }
            assert forall|c: IVec3| #[trigger] visited@.contains_key(c) implies seen.contains(c)
                || in_region(world, reg, seen, seed, c) by {
                if cells@.contains(c) {
                    let k = choose|k: int| 0 <= k < cells@.len() && cells@[k] == c;
                    assert(in_region(world, reg, seen, seed, cells@[k]));
                }
            }
            assert(visited@.contains_key(seed)) by {
                assert(cells@.contains(cells@[0]));
            }
            return None;
        }
        let c: IVec3 = cells[head];
        let mut dir: u8 = 0;
        while dir < 4
            invariant
                world.covered_by(reg),
                seen == old(visited)@.dom(),
                head < cells@.len(),
                head < cap,
                dir <= 4,
                c == cells@[head as int],
                level_cells(cells@),
                cells@[0] == seed,
                forall|k: int|
                    0 <= k < cells@.len() ==> in_region(
                        world,
                        reg,
                        seen,
                        seed,
                        #[trigger] cells@[k],
                    ),
                forall|c: IVec3| #[trigger]
                    visited@.contains_key(c) <==> seen.contains(c) || cells@.contains(c),
                forall|k: int|
                    0 <= k < head ==> explored(
                        world,
                        reg,
                        visited@.dom(),
                        gaps@.dom(),
                        #[trigger] cells@[k],
                        4,
                    ),
                explored(world, reg, visited@.dom(), gaps@.dom(), c, dir as int),
                forall|g: IVec3| #[trigger]
                    gaps@.contains_key(g) ==> gap_of(world, reg, seen, cells@, g),
                forall|g: IVec3| #[trigger]
                    doorways@.contains_key(g) <==> gaps@.contains_key(g) && headroom(
                        world,
                        reg,
                        g,
                    ),
            decreases 4 - dir,
        {
            let n: IVec3 = c.side(dir);
            let ghost d = dir as int;
            let ghost cells0 = cells@;
            let ghost visited0 = visited@;
            let ghost gaps0 = gaps@;
            if !visited.contains(n) && is_floor_cell(n, world, reg) {
                let axis: IVec3 = if dir < 2 {
                    IVec3::new(
                        0,
                        0,
                        if dir == 0 {
                            1
                        } else {
                            -1
                        },
                    )
                } else {
                    IVec3::new(
                        if dir == 2 {
                            1
                        } else {
                            -1
                        },
                        0,
                        0,
                    )
                };
                assert(axis == across(d));
                if is_choke_along(n, axis, world, reg) {
                    let _ = gaps.insert(n, ());
                    if has_headroom(n, world, reg) {
                        let _ = doorways.insert(n, ());
                    }
                    assert(gap_of(world, reg, seen, cells@, n)) by {
                        assert(n == neighbour(cells@[head as int], d));
                    }
                } else {
                    let _ = visited.insert(n, ());
                    cells.push(n);
                    proof {
                        assert(in_region(world, reg, seen, seed, cells0[head as int]));
                        lemma_region_next(world, reg, seen, seed, c, d);
                        assert(!cells0.contains(n));
                        assert forall|i: int, j: int|
                            0 <= i < cells@.len() && 0 <= j < cells@.len() && i != j implies cells@[i]
                            != cells@[j] by {
                            if i == cells0.len() {
                                assert(cells0.contains(cells0[j]));
                            }
                            if j == cells0.len() {
                                assert(cells0.contains(cells0[i]));
                            }
                        }
                        assert(cells@ =~= cells0.push(n));
                        assert forall|x: IVec3| #[trigger] visited@.contains_key(x) <==> (
                        seen.contains(x) || cells@.contains(x)) by {
                            if cells@.contains(x) {
                                let k = choose|k: int| 0 <= k < cells@.len() && cells@[k] == x;
                                if k < cells0.len() {
                                    assert(cells0.contains(cells0[k]));
                                }
                            }
                            if cells0.contains(x) {
                                let k = choose|k: int| 0 <= k < cells0.len() && cells0[k] == x;
                                assert(cells@[k] == x);
                            }
                            assert(cells@[cells0.len() as int] == n);
                        }
                        assert forall|g: IVec3| #[trigger]
                            gaps@.contains_key(g) implies gap_of(world, reg, seen, cells@, g) by {
                            assert(gap_of(world, reg, seen, cells0, g));
                            let (k, e) = choose|k: int, e: int|
                                #![trigger neighbour(cells0[k], e)]
                                0 <= k < cells0.len() && 0 <= e < 4 && g == neighbour(
                                    cells0[k],
                                    e,
                                ) && floor_cell(world, reg, g) && choke_along(
                                    world,
                                    reg,
                                    g,
                                    across(e),
                                );
                            assert(g == neighbour(cells@[k], e));
                        }
                    }
                }
            }
            proof {
                assert forall|k: int| 0 <= k < head implies explored(
                    world,
                    reg,
                    visited@.dom(),
                    gaps@.dom(),
                    #[trigger] cells@[k],
                    4,
                ) by {
                    assert(cells@[k] == cells0[k]);
                    lemma_explored_kept(
                        world,
                        reg,
                        visited0.dom(),
                        gaps0.dom(),
                        visited@.dom(),
                        gaps@.dom(),
                        cells0[k],
                        4,
                    );
                }
                lemma_explored_kept(
                    world,
                    reg,
                    visited0.dom(),
                    gaps0.dom(),
                    visited@.dom(),
                    gaps@.dom(),
                    c,
                    d,
                );
                assert(n == neighbour(c, d));
                assert(explored(world, reg, visited@.dom(), gaps@.dom(), c, d + 1)) by {
                    assert forall|e: int|
                        #![trigger neighbour(c, e)]
                        0 <= e < d + 1 && floor_cell(world, reg, neighbour(c, e))
                            && !visited@.dom().contains(neighbour(c, e)) implies choke_along(
                        world,
                        reg,
                        neighbour(c, e),
                        across(e),
                    ) && gaps@.dom().contains(neighbour(c, e)) by {
                        if e < d {
                        } else {
                            assert(e == d);
                        }
                    }
                }
            }
            dir = dir + 1;
        }
        head = head + 1;
    }
    proof {
        assert forall|c: IVec3, d: int|
            #![trigger cells@.contains(c), neighbour(c, d)]
            cells@.contains(c) && 0 <= d < 4 && fill_edge(world, reg, c, d) && !seen.contains(
                neighbour(c, d),
            ) implies cells@.contains(neighbour(c, d)) by {
            let k = choose|k: int| 0 <= k < cells@.len() && cells@[k] == c;
            assert(explored(world, reg, visited@.dom(), gaps@.dom(), cells@[k], 4));
            assert(visited@.dom().contains(neighbour(c, d)) ==> visited@.contains_key(
                neighbour(c, d),
            ));
        }
        assert(cells@.contains(cells@[0]));
        assert forall|c: IVec3| #[trigger] cells@.contains(c) <==> in_region(
            world,
            reg,
            seen,
            seed,
            c,
        ) by {
            if cells@.contains(c) {
                let k = choose|k: int| 0 <= k < cells@.len() && cells@[k] == c;
                assert(in_region(world, reg, seen, seed, cells@[k]));
            }
            if in_region(world, reg, seen, seed, c) {
                let p = choose|p: Seq<IVec3>| fill_path(world, reg, seen, seed, c, p);
                lemma_region_closed(world, reg, seen, seed, cells@, p, p.len() - 1);
            }
        }
        assert forall|g: IVec3| #[trigger]
            gap_of(world, reg, seen, cells@, g) && !cells@.contains(g) implies gaps@.contains_key(
            g,
        ) by {
            let (k, d) = choose|k: int, d: int|
                #![trigger neighbour(cells@[k], d)]
                0 <= k < cells@.len() && 0 <= d < 4 && g == neighbour(cells@[k], d) && floor_cell(
                    world,
                    reg,
                    g,
                ) && choke_along(world, reg, g, across(d));
            assert(explored(world, reg, visited@.dom(), gaps@.dom(), cells@[k], 4));
            assert(!visited@.contains_key(g));
            assert(!visited@.dom().contains(neighbour(cells@[k], d)));
        }
    }
    Some(FloorFill { cells, boundary_gaps: gaps, doorways })
}

// ---------- what regions are ----------

/// A cell is floor exactly where it is far enough from the limits and either the
/// block in it carries by itself, or it is air over a block that carries.
pub proof fn law_floor_is_carried(world: &BlockWorld, reg: &BlockRegistry, c: IVec3)
    requires
        clear_to_probe(c, 2),
    ensures
        ({
            let here = world.slot(c);
            let below = world.slot(IVec3 { x: c.x, y: (c.y - 1) as i32, z: c.z });
            floor_cell(world, reg, c) <==> reg.defs@[here.0 as int].flags.support_in_cell || (here
                == BlockSlot(0) && reg.defs@[below.0 as int].flags.support_below)
        }),
{
}

/// Air bounds no room. Any other block does where it is solid or marked as a
/// boundary. An actor has headroom under air and under what carries by itself.
pub proof fn law_blocks_bound_rooms(world: &BlockWorld, reg: &BlockRegistry, c: IVec3)
    ensures
        ({
            let s = world.slot(c);
            let f = reg.defs@[s.0 as int].flags;
            let above = world.slot(IVec3 { x: c.x, y: (c.y + 1) as i32, z: c.z });
            &&& s == BlockSlot(0) ==> !bounding(reg, s) && !wall_at(world, reg, c)
            &&& s != BlockSlot(0) && f.solid ==> bounding(reg, s)
            &&& s != BlockSlot(0) && f.room_boundary ==> bounding(reg, s) && wall_at(world, reg, c)
            &&& !f.solid && !f.room_boundary ==> !bounding(reg, s)
            &&& !f.room_boundary ==> !wall_at(world, reg, c)
            &&& headroom(world, reg, c) <==> above == BlockSlot(0)
                || reg.defs@[above.0 as int].flags.support_in_cell
        }),
{
}

/// A region goes on in each of the four directions alike: from a cell of it onto
/// the floor beside, unless that was seen before or is a gap one cell wide, with
/// a wall on either side of the way.
pub proof fn law_regions_spread_to_all_sides(
    world: &BlockWorld,
    reg: &BlockRegistry,
    seen: Set<IVec3>,
    seed: IVec3,
    c: IVec3,
    dx: int,
    dz: int,
)
    requires
        clear_of_limits(c, 3),
        (dx == 1 && dz == 0) || (dx == -1 && dz == 0) || (dx == 0 && dz == 1) || (dx == 0 && dz
            == -1),
        in_region(world, reg, seen, seed, c),
    ensures
        ({
            let n = IVec3 { x: (c.x + dx) as i32, y: c.y, z: (c.z + dz) as i32 };
            let left = IVec3 { x: (n.x + dz) as i32, y: n.y, z: (n.z + dx) as i32 };
            let right = IVec3 { x: (n.x - dz) as i32, y: n.y, z: (n.z - dx) as i32 };
            let narrow = wall_at(world, reg, left) && wall_at(world, reg, right);
            floor_cell(world, reg, n) && !seen.contains(n) && !narrow ==> in_region(
                world,
                reg,
                seen,
                seed,
                n,
            )
        }),
{
    let d: int = if dx == 1 {
        0
    } else if dx == -1 {
        1
    } else if dz == 1 {
        2
    } else {
        3
    };
    let n = IVec3 { x: (c.x + dx) as i32, y: c.y, z: (c.z + dz) as i32 };
    assert(neighbour(c, d) == n);
    if floor_cell(world, reg, n) && !seen.contains(n) && fill_edge(world, reg, c, d) {
        lemma_region_next(world, reg, seen, seed, c, d);
    }
}

/// Every cell of a region but the first is floor that was not seen before, on
/// the level of the seed, and beside another cell of the region, with no wall on
/// one side or the other of the way between them.
pub proof fn law_regions_hang_together(
    world: &BlockWorld,
    reg: &BlockRegistry,
    seen: Set<IVec3>,
    seed: IVec3,
    c: IVec3,
) -> (from: IVec3)
    requires
        in_region(world, reg, seen, seed, c),
        c != seed,
        clear_of_limits(seed, 1),
        floor_cell(world, reg, seed),
    ensures
        c.y == seed.y,
        floor_cell(world, reg, c),
        !seen.contains(c),
        in_region(world, reg, seen, seed, from),
        from.y == c.y,
        ({
            let dx = c.x - from.x;
            let dz = c.z - from.z;
            let left = IVec3 { x: (c.x + dz) as i32, y: c.y, z: (c.z + dx) as i32 };
            let right = IVec3 { x: (c.x - dz) as i32, y: c.y, z: (c.z - dx) as i32 };
            &&& (dx == 1 && dz == 0) || (dx == -1 && dz == 0) || (dx == 0 && dz == 1) || (dx == 0
                && dz == -1)
            &&& !wall_at(world, reg, left) || !wall_at(world, reg, right)
        }),
{
    let p = choose|p: Seq<IVec3>| fill_path(world, reg, seen, seed, c, p);
    let i = p.len() - 2;
    assert(p.len() >= 2) by {
        if p.len() == 1 {
            assert(p[0] == p.last());
        }
    }
    lemma_path_level(world, reg, seen, seed, p, i);
    assert(fill_steps_on(world, reg, seen, p, i));
    let q = p.drop_last();
    assert forall|k: int| 0 <= k < q.len() - 1 implies #[trigger] fill_steps_on(
        world,
        reg,
        seen,
        q,
        k,
    ) by {
        assert(fill_steps_on(world, reg, seen, p, k));
        let e = choose|e: int|
            #![trigger neighbour(p[k], e)]
            0 <= e < 4 && p[k + 1] == neighbour(p[k], e) && fill_edge(world, reg, p[k], e)
                && !seen.contains(p[k + 1]);
        assert(q[k + 1] == neighbour(q[k], e));
    }
    assert(fill_path(world, reg, seen, seed, p[i], q));
    let d = choose|d: int|
        #![trigger neighbour(p[i], d)]
        0 <= d < 4 && p[i + 1] == neighbour(p[i], d) && fill_edge(world, reg, p[i], d)
            && !seen.contains(p[i + 1]);
    assert(p[i + 1] == c);
    assert(neighbour(p[i], d) == c);
    p[i]
}

/// The cells of a way lie on one level, away from the limits.
proof fn lemma_path_level(
    world: &BlockWorld,
    reg: &BlockRegistry,
    seen: Set<IVec3>,
    seed: IVec3,
    p: Seq<IVec3>,
    i: int,
)
    requires
        0 <= i < p.len(),
        p[0] == seed,
        floor_cell(world, reg, seed),
        forall|k: int| 0 <= k < p.len() - 1 ==> #[trigger] fill_steps_on(world, reg, seen, p, k),
    ensures
        p[i].y == seed.y,
        floor_cell(world, reg, p[i]),
    decreases i,
{
    if i > 0 {
        lemma_path_level(world, reg, seen, seed, p, i - 1);
        assert(fill_steps_on(world, reg, seen, p, i - 1));
    }
}

/// The doorways of a fill are those of its gaps that an actor fits through, and
/// wherever the floor goes on from the fill, outside of it and unseen, it does so
/// through a gap.
pub proof fn law_fills_end_at_gaps(
    world: &BlockWorld,
    reg: &BlockRegistry,
    seen: Set<IVec3>,
    seed: IVec3,
    fill: FloorFill,
    c: IVec3,
    dx: int,
    dz: int,
)
    requires
        fills_region(world, reg, seen, seed, fill),
        fill.cells@.contains(c),
        clear_of_limits(c, 3),
        (dx == 1 && dz == 0) || (dx == -1 && dz == 0) || (dx == 0 && dz == 1) || (dx == 0 && dz
            == -1),
    ensures
        ({
            let n = IVec3 { x: (c.x + dx) as i32, y: c.y, z: (c.z + dz) as i32 };
            let above = world.slot(IVec3 { x: n.x, y: (n.y + 1) as i32, z: n.z });
            &&& floor_cell(world, reg, n) && !seen.contains(n) && !fill.cells@.contains(n)
                ==> fill.boundary_gaps@.contains_key(n)
            &&& fill.doorways@.contains_key(n) <==> fill.boundary_gaps@.contains_key(n) && (above
                == BlockSlot(0) || reg.defs@[above.0 as int].flags.support_in_cell)
        }),
{
    let n = IVec3 { x: (c.x + dx) as i32, y: c.y, z: (c.z + dz) as i32 };
    let d: int = if dx == 1 {
        0
    } else if dx == -1 {
        1
    } else if dz == 1 {
        2
    } else {
        3
    };
    assert(neighbour(c, d) == n);
    let k = fill.cells@.index_of(c);
    assert(fill.cells@[k] == c);
    assert(neighbour(fill.cells@[k], d) == n);
    assert(in_region(world, reg, seen, seed, c));
    if floor_cell(world, reg, n) && !seen.contains(n) && !fill.cells@.contains(n) {
        if !choke_along(world, reg, n, across(d)) {
            assert(fill_edge(world, reg, c, d));
            lemma_region_next(world, reg, seen, seed, c, d);
        }
        assert(gap_of(world, reg, seen, fill.cells@, n));
    }
}

} // verus!
