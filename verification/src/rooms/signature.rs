//! What a detected region looks like: its size, walls, ceiling and contents.

use crate::blocks::{BlockRegistry, BlockWorld};
use crate::cells::{in_box, max_of, min_of, neighbour, shifted, IVec3};
use crate::ord_map::CellMap;
use crate::rooms::contents::{
    count_tags, lists_pairs, lists_tags, scan_cells, scan_set, AdjacentPairCount, TagCount,
};
use crate::rooms::counting::{
    how_many, lemma_tally_set, lemma_tally_step, lemma_tally_whole, tally,
};
use crate::rooms::fill::{
    bounding, bounds_room, clear_to_probe, flags_at, has_headroom, headroom, level_cells, FloorFill,
};
use vstd::prelude::*;

verus! {

/// A column without a ceiling block within this many layers is open to the sky.
pub const ROOF_SCAN_CAP: i32 = 32;

/// A region is roofed when at least this many hundredths of its floor columns
/// have a ceiling.
pub const HAS_ROOF_MIN_HUNDREDTHS: u32 = 85;

/// What kind of region a signature or a pattern speaks of.
#[derive(Clone, Copy, Debug, PartialEq, Eq, Structural)]
pub enum PatternDomain {
    Volumetric,
    Connective,
}

/// `part` out of `whole`.
#[derive(Clone, Copy, Debug, PartialEq, Eq, Structural)]
pub struct Fraction {
    pub part: u32,
    pub whole: u32,
}

/// How many floor cells rest on solid ground, on water, or on their own.
#[derive(Clone, Copy, Debug, PartialEq, Eq, Structural)]
pub struct FloorComposition {
    pub solid: u32,
    pub water_below: u32,
    pub support_in_cell: u32,
}

#[derive(Clone, Copy, Debug, PartialEq, Eq, Structural)]
pub struct BBox {
    pub min: IVec3,
    pub max: IVec3,
}

pub struct RoomSignature {
    pub domain: PatternDomain,
    pub bbox: BBox,
    pub cell_count: u32,
    pub volume: Option<u32>,
    pub walkable_count: Option<u32>,
    pub enclosure_height: Option<u32>,
    pub has_roof: Option<bool>,
    pub roof_fraction: Option<Fraction>,
    pub door_count: Option<u32>,
    pub floor_composition: Option<FloorComposition>,
    pub tag_counts: Vec<TagCount>,
    pub adjacent_pairs: Vec<AdjacentPairCount>,
}

// ---------- floor ----------

/// The floor cell is a ladder, a rail or the like.
pub open spec fn self_supported(world: &BlockWorld, reg: &BlockRegistry) -> spec_fn(IVec3) -> bool {
    |c: IVec3| flags_at(world, reg, c).support_in_cell
}

/// The floor cell rests on a solid block.
pub open spec fn on_solid(world: &BlockWorld, reg: &BlockRegistry) -> spec_fn(IVec3) -> bool {
    |c: IVec3|
        !flags_at(world, reg, c).support_in_cell && flags_at(
            world,
            reg,
            shifted(c, 0, -1, 0),
        ).solid
}

/// The floor cell rests on something that supports without being solid.
pub open spec fn on_water(world: &BlockWorld, reg: &BlockRegistry) -> spec_fn(IVec3) -> bool {
    |c: IVec3|
        !flags_at(world, reg, c).support_in_cell && !flags_at(
            world,
            reg,
            shifted(c, 0, -1, 0),
        ).solid && flags_at(world, reg, shifted(c, 0, -1, 0)).support_below
}

/// An actor can stand on the floor cell.
pub open spec fn walkable(world: &BlockWorld, reg: &BlockRegistry) -> spec_fn(IVec3) -> bool {
    |c: IVec3| headroom(world, reg, c)
}

/// The box spanned by the cells.
pub open spec fn spans(cells: Seq<IVec3>, b: BBox) -> bool {
    &&& forall|i: int| 0 <= i < cells.len() ==> in_box(#[trigger] cells[i], b.min, b.max)
    &&& exists|i: int| 0 <= i < cells.len() && (#[trigger] cells[i]).x == b.min.x
    &&& exists|i: int| 0 <= i < cells.len() && (#[trigger] cells[i]).y == b.min.y
    &&& exists|i: int| 0 <= i < cells.len() && (#[trigger] cells[i]).z == b.min.z
    &&& exists|i: int| 0 <= i < cells.len() && (#[trigger] cells[i]).x == b.max.x
    &&& exists|i: int| 0 <= i < cells.len() && (#[trigger] cells[i]).y == b.max.y
    &&& exists|i: int| 0 <= i < cells.len() && (#[trigger] cells[i]).z == b.max.z
}

/// What a fill must satisfy to be measured: one level, no repetition.
pub open spec fn measurable(fill: &FloorFill) -> bool {
    level_cells(fill.cells@) && fill.cells@.len() <= u32::MAX
}

fn measure_box(cells: &Vec<IVec3>) -> (b: BBox)
    requires
        cells@.len() > 0,
    ensures
        spans(cells@, b),
{
    let mut min: IVec3 = cells[0];
    let mut max: IVec3 = cells[0];
    let mut i: usize = 1;
    assert(spans(cells@.take(1), BBox { min, max })) by {
        assert(cells@.take(1)[0] == cells@[0]);
    }
    while i < cells.len()
        invariant
            1 <= i <= cells@.len(),
            spans(cells@.take(i as int), BBox { min, max }),
        decreases cells@.len() - i,
    {
        let ghost min0 = min;
        let ghost max0 = max;
        let c: IVec3 = cells[i];
        min = min.min(c);
        max = max.max(c);
        proof {
            let s = cells@.take(i as int);
            let t = cells@.take(i + 1);
            assert(t[i as int] == c);
            assert forall|k: int| 0 <= k < t.len() implies in_box(#[trigger] t[k], min, max) by {
                if k < i {
                    assert(t[k] == s[k]);
                }
            }
            let b0 = BBox { min: min0, max: max0 };
            let kx = choose|k: int| 0 <= k < s.len() && (#[trigger] s[k]).x == b0.min.x;
            let ky = choose|k: int| 0 <= k < s.len() && (#[trigger] s[k]).y == b0.min.y;
            let kz = choose|k: int| 0 <= k < s.len() && (#[trigger] s[k]).z == b0.min.z;
            let lx = choose|k: int| 0 <= k < s.len() && (#[trigger] s[k]).x == b0.max.x;
            let ly = choose|k: int| 0 <= k < s.len() && (#[trigger] s[k]).y == b0.max.y;
            let lz = choose|k: int| 0 <= k < s.len() && (#[trigger] s[k]).z == b0.max.z;
            assert(t[kx] == s[kx] && t[ky] == s[ky] && t[kz] == s[kz]);
            assert(t[lx] == s[lx] && t[ly] == s[ly] && t[lz] == s[lz]);
        }
        i = i + 1;
    }
    assert(cells@.take(cells@.len() as int) =~= cells@);
    BBox { min, max }
}

fn measure_floor(cells: &Vec<IVec3>, world: &BlockWorld, reg: &BlockRegistry) -> (r: (
    FloorComposition,
    u32,
))
    requires
        world.covered_by(reg),
        level_cells(cells@),
        cells@.len() <= u32::MAX,
    ensures
        r.0.solid == how_many(cells@.to_set(), on_solid(world, reg)),
        r.0.water_below == how_many(cells@.to_set(), on_water(world, reg)),
        r.0.support_in_cell == how_many(cells@.to_set(), self_supported(world, reg)),
        r.1 == how_many(cells@.to_set(), walkable(world, reg)),
{
    let mut solid: u32 = 0;
    let mut water: u32 = 0;
    let mut own: u32 = 0;
    let mut standing: u32 = 0;
    let mut i: usize = 0;
    while i < cells.len()
        invariant
            world.covered_by(reg),
            level_cells(cells@),
            cells@.len() <= u32::MAX,
            i <= cells@.len(),
            solid == tally(cells@.take(i as int), on_solid(world, reg)),
            water == tally(cells@.take(i as int), on_water(world, reg)),
            own == tally(cells@.take(i as int), self_supported(world, reg)),
            standing == tally(cells@.take(i as int), walkable(world, reg)),
        decreases cells@.len() - i,
    {
        proof {
            lemma_tally_step(cells@, i as int, on_solid(world, reg));
            lemma_tally_step(cells@, i as int, on_water(world, reg));
            lemma_tally_step(cells@, i as int, self_supported(world, reg));
            lemma_tally_step(cells@, i as int, walkable(world, reg));
        }
        let c: IVec3 = cells[i];
        if reg.def(world.get(c)).flags.support_in_cell {
            own = own + 1;
        } else {
            let below = reg.def(world.get(c.shift(0, -1, 0))).flags;
            if below.solid {
                solid = solid + 1;
            } else if below.support_below {
                water = water + 1;
            }
        }
        if has_headroom(c, world, reg) {
            standing = standing + 1;
        }
        i = i + 1;
    }
    proof {
        lemma_tally_whole(cells@, on_solid(world, reg));
        lemma_tally_whole(cells@, on_water(world, reg));
        lemma_tally_whole(cells@, self_supported(world, reg));
        lemma_tally_whole(cells@, walkable(world, reg));
    }
    (FloorComposition { solid, water_below: water, support_in_cell: own }, standing)
}

// ---------- perimeter ----------

/// A cell outside the floor that touches it sideways.
pub open spec fn on_perimeter(floor: Set<IVec3>, p: IVec3) -> bool {
    !floor.contains(p) && exists|c: IVec3, d: int|
        #![trigger neighbour(c, d)]
        floor.contains(c) && 0 <= d < 4 && p == neighbour(c, d)
}

/// A door block on the perimeter.
pub open spec fn door_at(world: &BlockWorld, reg: &BlockRegistry) -> spec_fn(IVec3) -> bool {
    |p: IVec3| flags_at(world, reg, p).walkable_boundary
}

/// Outside the floor's box: part of the exterior wall ring rather than a
/// pillar or a piece of furniture.
pub open spec fn exterior(b: BBox, p: IVec3) -> bool {
    p.x < b.min.x || p.x > b.max.x || p.z < b.min.z || p.z > b.max.z
}

pub fn is_exterior(b: BBox, p: IVec3) -> (r: bool)
    ensures
        r == exterior(b, p),
{
    p.x < b.min.x || p.x > b.max.x || p.z < b.min.z || p.z > b.max.z
}

/// Every perimeter cell bounds the room or is one of the fill's doorways.
pub open spec fn sealed(
    world: &BlockWorld,
    reg: &BlockRegistry,
    perimeter: Set<IVec3>,
    gaps: Set<IVec3>,
) -> bool {
    forall|p: IVec3| #[trigger]
        perimeter.contains(p) ==> bounding(reg, world.slot(p)) || gaps.contains(p)
}

/// The perimeter as a set.
pub open spec fn perimeter_of(floor: Set<IVec3>) -> Set<IVec3> {
    Set::new(|p: IVec3| on_perimeter(floor, p))
}

fn measure_perimeter(cells: &Vec<IVec3>) -> (r: CellMap<()>)
    requires
        level_cells(cells@),
    ensures
        r@.dom() == perimeter_of(cells@.to_set()),
        forall|p: IVec3| #[trigger]
            r@.contains_key(p) ==> p.y == cells@[0].y && clear_to_probe(p, 1),
{
    let mut floor: CellMap<()> = CellMap::new();
    let mut k: usize = 0;
    while k < cells.len()
        invariant
            k <= cells@.len(),
            floor@.dom() == cells@.take(k as int).to_set(),
        decreases cells@.len() - k,
    {
        let _ = floor.insert(cells[k], ());
        proof {
            let s = cells@.take(k as int);
            let t = cells@.take(k + 1);
            assert(t =~= s.push(cells@[k as int]));
            assert(floor@.dom() =~= s.to_set().insert(cells@[k as int]));
            assert(t.to_set() =~= s.to_set().insert(cells@[k as int])) by {
                assert forall|x: IVec3| t.contains(x) <==> (s.contains(x) || x
                    == cells@[k as int]) by {
                    if s.contains(x) {
                        let j = choose|j: int| 0 <= j < s.len() && s[j] == x;
                        assert(t[j] == x);
                    }
                    if t.contains(x) {
                        let j = choose|j: int| 0 <= j < t.len() && t[j] == x;
                        if j < k {
                            assert(s[j] == x);
                        }
                    }
                    assert(t[k as int] == cells@[k as int]);
                }
            }
        }
        k = k + 1;
    }
    assert(cells@.take(cells@.len() as int) =~= cells@);
    let ghost fl = cells@.to_set();
    let mut out: CellMap<()> = CellMap::new();
    let mut i: usize = 0;
    while i < cells.len()
        invariant
            level_cells(cells@),
            fl == cells@.to_set(),
            floor@.dom() == fl,
            i <= cells@.len(),
            forall|p: IVec3| #[trigger]
                out@.contains_key(p) ==> on_perimeter(fl, p) && p.y == cells@[0].y
                    && clear_to_probe(p, 1),
            forall|j: int, d: int|
                #![trigger neighbour(cells@[j], d)]
                0 <= j < i && 0 <= d < 4 && !fl.contains(neighbour(cells@[j], d))
                    ==> out@.contains_key(neighbour(cells@[j], d)),
        decreases cells@.len() - i,
    {
        let c: IVec3 = cells[i];
        let mut dir: u8 = 0;
        while dir < 4
            invariant
                level_cells(cells@),
                fl == cells@.to_set(),
                floor@.dom() == fl,
                i < cells@.len(),
                c == cells@[i as int],
                dir <= 4,
                forall|p: IVec3| #[trigger]
                    out@.contains_key(p) ==> on_perimeter(fl, p) && p.y == cells@[0].y
                        && clear_to_probe(p, 1),
                forall|j: int, d: int|
                    #![trigger neighbour(cells@[j], d)]
                    0 <= j < i && 0 <= d < 4 && !fl.contains(neighbour(cells@[j], d))
                        ==> out@.contains_key(neighbour(cells@[j], d)),
                forall|d: int|
                    #![trigger neighbour(c, d)]
                    0 <= d < dir && !fl.contains(neighbour(c, d)) ==> out@.contains_key(
                        neighbour(c, d),
                    ),
            decreases 4 - dir,
        {
            let n: IVec3 = c.side(dir);
            if !floor.contains(n) {
                let _ = out.insert(n, ());
                assert(on_perimeter(fl, n)) by {
                    assert(fl.contains(c)) by {
                        assert(cells@.contains(cells@[i as int]));
                    }
                    assert(n == neighbour(c, dir as int));
                }
            }
            assert(n == neighbour(c, dir as int));
            dir = dir + 1;
        }
        i = i + 1;
    }
    proof {
        assert(out@.dom() =~= perimeter_of(fl)) by {
            assert forall|p: IVec3| on_perimeter(fl, p) implies out@.contains_key(p) by {
                let (c, d) = choose|c: IVec3, d: int|
                    #![trigger neighbour(c, d)]
                    fl.contains(c) && 0 <= d < 4 && p == neighbour(c, d);
                assert(cells@.contains(c));
                let j = choose|j: int| 0 <= j < cells@.len() && cells@[j] == c;
                assert(p == neighbour(cells@[j], d));
            }
        }
    }
    out
}

// ---------- heights ----------

/// Height of the first bounding block at `dy` or more above `c`.
pub open spec fn ceiling_from(world: &BlockWorld, reg: &BlockRegistry, c: IVec3, dy: int) -> Option<
    int,
>
    decreases ROOF_SCAN_CAP + 1 - dy,
{
    if dy > ROOF_SCAN_CAP {
        None
    } else if bounding(reg, world.slot(shifted(c, 0, dy, 0))) {
        Some(dy)
    } else {
        ceiling_from(world, reg, c, dy + 1)
    }
}

/// Height of the ceiling over a floor cell.
pub open spec fn ceiling(world: &BlockWorld, reg: &BlockRegistry, c: IVec3) -> Option<int> {
    ceiling_from(world, reg, c, 1)
}

pub open spec fn roofed(world: &BlockWorld, reg: &BlockRegistry) -> spec_fn(IVec3) -> bool {
    |c: IVec3| ceiling(world, reg, c) is Some
}

/// The ceiling over the cell is at most `h` layers up.
pub open spec fn ceiling_within(world: &BlockWorld, reg: &BlockRegistry, h: int) -> spec_fn(
    IVec3,
) -> bool {
    |c: IVec3| ceiling(world, reg, c) is Some && ceiling(world, reg, c)->0 <= h
}

/// Number of bounding blocks stacked up from `dy` above `p`.
pub open spec fn run_from(world: &BlockWorld, reg: &BlockRegistry, p: IVec3, dy: int) -> int
    decreases ROOF_SCAN_CAP + 1 - dy,
{
    if dy > ROOF_SCAN_CAP || !bounding(reg, world.slot(shifted(p, 0, dy, 0))) {
        0
    } else {
        1 + run_from(world, reg, p, dy + 1)
    }
}

/// Height of the wall that stands at a perimeter cell.
pub open spec fn wall_run(world: &BlockWorld, reg: &BlockRegistry, p: IVec3) -> int {
    run_from(world, reg, p, 0)
}

fn probe_ceiling(c: IVec3, world: &BlockWorld, reg: &BlockRegistry) -> (r: Option<u32>)
    requires
        world.covered_by(reg),
        clear_to_probe(c, 2),
    ensures
        r is Some <==> ceiling(world, reg, c) is Some,
        r matches Some(h) ==> h == ceiling(world, reg, c)->0 && 1 <= h <= ROOF_SCAN_CAP,
{
    let mut dy: i32 = 1;
    while dy <= ROOF_SCAN_CAP
        invariant
            world.covered_by(reg),
            clear_to_probe(c, 2),
            1 <= dy <= ROOF_SCAN_CAP + 1,
            ceiling(world, reg, c) == ceiling_from(world, reg, c, dy as int),
        decreases ROOF_SCAN_CAP + 1 - dy,
    {
        if bounds_room(world.get(c.shift(0, dy, 0)), reg) {
            return Some(dy as u32);
        }
        dy = dy + 1;
    }
    None
}

fn probe_run(p: IVec3, world: &BlockWorld, reg: &BlockRegistry) -> (r: u32)
    requires
        world.covered_by(reg),
        clear_to_probe(p, 1),
    ensures
        r == wall_run(world, reg, p),
        r <= ROOF_SCAN_CAP + 1,
{
    let mut dy: i32 = 0;
    while dy <= ROOF_SCAN_CAP
        invariant
            world.covered_by(reg),
            clear_to_probe(p, 1),
            0 <= dy <= ROOF_SCAN_CAP + 1,
            wall_run(world, reg, p) == dy + run_from(world, reg, p, dy as int),
        decreases ROOF_SCAN_CAP + 1 - dy,
    {
        if !bounds_room(world.get(p.shift(0, dy, 0)), reg) {
            return dy as u32;
        }
        dy = dy + 1;
    }
    dy as u32
}

/// Number of ceilings, and the lower median of their heights.
pub open spec fn median_ceiling(
    world: &BlockWorld,
    reg: &BlockRegistry,
    floor: Set<IVec3>,
    h: int,
) -> bool {
    let half = (how_many(floor, roofed(world, reg)) - 1) / 2;
    &&& how_many(floor, ceiling_within(world, reg, h - 1)) <= half
    &&& half < how_many(floor, ceiling_within(world, reg, h))
}

struct Ceilings {
    count: u32,
    tallest: u32,
    median: u32,
}

pub open spec fn tallest_ceiling(
    world: &BlockWorld,
    reg: &BlockRegistry,
    cells: Seq<IVec3>,
    t: int,
) -> bool {
    &&& t >= 1
    &&& forall|i: int|
        0 <= i < cells.len() && ceiling(world, reg, #[trigger] cells[i]) is Some ==> ceiling(
            world,
            reg,
            cells[i],
        )->0 <= t
    &&& t == 1 || exists|i: int|
        0 <= i < cells.len() && ceiling(world, reg, #[trigger] cells[i]) == Some(t)
}

fn measure_ceilings(cells: &Vec<IVec3>, world: &BlockWorld, reg: &BlockRegistry) -> (r: Ceilings)
    requires
        world.covered_by(reg),
        level_cells(cells@),
        cells@.len() <= u32::MAX,
    ensures
        r.count == how_many(cells@.to_set(), roofed(world, reg)),
        r.count <= cells@.len(),
        r.count > 0 ==> median_ceiling(world, reg, cells@.to_set(), r.median as int) && 1 <= r.median
            <= ROOF_SCAN_CAP,
        tallest_ceiling(world, reg, cells@, r.tallest as int),
        r.tallest <= ROOF_SCAN_CAP,
{
    let mut count: u32 = 0;
    let mut tallest: u32 = 1;
    let mut heights: Vec<u32> = Vec::new();
    let mut i: usize = 0;
    while i < cells.len()
        invariant
            world.covered_by(reg),
            level_cells(cells@),
            cells@.len() <= u32::MAX,
            i <= cells@.len(),
            count == tally(cells@.take(i as int), roofed(world, reg)),
            heights@.len() == i,
            forall|k: int|
                0 <= k < i ==> (#[trigger] heights@[k]) == (match ceiling(world, reg, cells@[k]) {
                    Some(h) => h,
                    None => 0,
                }),
            1 <= tallest <= ROOF_SCAN_CAP,
            forall|k: int| 0 <= k < i ==> (#[trigger] heights@[k]) <= tallest,
            tallest == 1 || exists|k: int| 0 <= k < i && (#[trigger] heights@[k]) == tallest,
        decreases cells@.len() - i,
    {
        proof {
            lemma_tally_step(cells@, i as int, roofed(world, reg));
        }
        let ghost heights0 = heights@;
        match probe_ceiling(cells[i], world, reg) {
            Some(h) => {
                count = count + 1;
                heights.push(h);
                if h > tallest {
                    tallest = h;
                    assert(heights@[i as int] == tallest);
                }
            },
            None => {
                heights.push(0);
            },
        }
        assert forall|k: int| 0 <= k < i implies heights@[k] == heights0[k] by {}
        i = i + 1;
    }
    assert(tallest_ceiling(world, reg, cells@, tallest as int)) by {
        assert forall|k: int|
            0 <= k < cells@.len() && ceiling(world, reg, #[trigger] cells@[k]) is Some implies ceiling(
            world,
            reg,
            cells@[k],
        )->0 <= tallest by {
            assert(heights@[k] <= tallest);
        }
        if tallest != 1 {
            let k = choose|k: int| 0 <= k < heights@.len() && (#[trigger] heights@[k]) == tallest;
            assert(ceiling(world, reg, cells@[k]) == Some(tallest as int));
        }
    }
    proof {
        lemma_tally_whole(cells@, roofed(world, reg));
        lemma_tally_set(cells@, roofed(world, reg));
    }
    if count == 0 {
        return Ceilings { count, tallest, median: 0 };
    }
    let half: u32 = (count - 1) / 2;
    let mut h: u32 = 1;
    proof {
        let f = ceiling_within(world, reg, 0);
        assert(cells@.to_set().filter(f) =~= Set::empty()) by {
            assert forall|c: IVec3| cells@.to_set().contains(c) implies !f(c) by {
                lemma_ceiling_range(world, reg, c, 1);
            }
        }
    }
    while h <= ROOF_SCAN_CAP as u32
        invariant
            cells@.len() <= u32::MAX,
            level_cells(cells@),
            heights@.len() == cells@.len(),
            forall|k: int|
                0 <= k < cells@.len() ==> (#[trigger] heights@[k]) == (match ceiling(
                    world,
                    reg,
                    cells@[k],
                ) {
                    Some(x) => x,
                    None => 0,
                }),
            forall|k: int|
                0 <= k < cells@.len() ==> (#[trigger] heights@[k]) <= ROOF_SCAN_CAP,
            1 <= h <= ROOF_SCAN_CAP + 1,
            count == how_many(cells@.to_set(), roofed(world, reg)),
            count > 0,
            half == (count - 1) / 2,
            how_many(cells@.to_set(), ceiling_within(world, reg, h - 1)) <= half,
            tallest_ceiling(world, reg, cells@, tallest as int),
            tallest <= ROOF_SCAN_CAP,
            count <= cells@.len(),
        decreases ROOF_SCAN_CAP + 1 - h,
    {
        let mut within: u32 = 0;
        let mut k: usize = 0;
        while k < cells.len()
            invariant
                cells@.len() <= u32::MAX,
                heights@.len() == cells@.len(),
                forall|k: int|
                    0 <= k < cells@.len() ==> (#[trigger] heights@[k]) == (match ceiling(
                        world,
                        reg,
                        cells@[k],
                    ) {
                        Some(x) => x,
                        None => 0,
                    }),
                k <= cells@.len(),
                h >= 1,
                within == tally(cells@.take(k as int), ceiling_within(world, reg, h as int)),
            decreases cells@.len() - k,
        {
            proof {
                lemma_tally_step(cells@, k as int, ceiling_within(world, reg, h as int));
                lemma_ceiling_range(world, reg, cells@[k as int], 1);
            }
            if heights[k] > 0 && heights[k] <= h {
                within = within + 1;
            }
            k = k + 1;
        }
        proof {
            lemma_tally_whole(cells@, ceiling_within(world, reg, h as int));
        }
        if within > half {
            return Ceilings { count, tallest, median: h };
        }
        h = h + 1;
    }
    proof {
        let f = ceiling_within(world, reg, ROOF_SCAN_CAP as int);
        let g = roofed(world, reg);
        assert(cells@.to_set().filter(f) =~= cells@.to_set().filter(g)) by {
            assert forall|c: IVec3| cells@.to_set().contains(c) implies f(c) == g(c) by {
                lemma_ceiling_range(world, reg, c, 1);
            }
        }
        assert(false);
    }
    Ceilings { count, tallest, median: 0 }
}

proof fn lemma_ceiling_range(world: &BlockWorld, reg: &BlockRegistry, c: IVec3, dy: int)
    ensures
        ceiling_from(world, reg, c, dy) matches Some(h) ==> dy <= h <= ROOF_SCAN_CAP,
    decreases ROOF_SCAN_CAP + 1 - dy,
{
    if dy <= ROOF_SCAN_CAP {
        lemma_ceiling_range(world, reg, c, dy + 1);
    }
}

/// A column of the exterior wall ring that is not a doorway.
pub open spec fn ring_column(
    perimeter: Set<IVec3>,
    gaps: Set<IVec3>,
    b: BBox,
    p: IVec3,
) -> bool {
    perimeter.contains(p) && exterior(b, p) && !gaps.contains(p)
}

/// The lowest wall of the exterior ring, 0 where there is none.
pub open spec fn lowest_wall(
    world: &BlockWorld,
    reg: &BlockRegistry,
    perimeter: Set<IVec3>,
    gaps: Set<IVec3>,
    b: BBox,
    h: int,
) -> bool {
    &&& forall|p: IVec3| #[trigger]
        ring_column(perimeter, gaps, b, p) ==> wall_run(world, reg, p) >= h
    &&& if exists|p: IVec3| ring_column(perimeter, gaps, b, p) {
        exists|p: IVec3| #[trigger] ring_column(perimeter, gaps, b, p) && wall_run(world, reg, p) == h
    } else {
        h == 0
    }
}

pub open spec fn tallest_wall(
    world: &BlockWorld,
    reg: &BlockRegistry,
    perimeter: Set<IVec3>,
    gaps: Set<IVec3>,
    b: BBox,
    t: int,
) -> bool {
    &&& t >= 1
    &&& forall|p: IVec3| #[trigger]
        ring_column(perimeter, gaps, b, p) ==> wall_run(world, reg, p) <= t
    &&& t == 1 || exists|p: IVec3| #[trigger]
        ring_column(perimeter, gaps, b, p) && wall_run(world, reg, p) == t
}

fn measure_walls(
    perimeter: &CellMap<()>,
    gaps: &CellMap<()>,
    b: BBox,
    world: &BlockWorld,
    reg: &BlockRegistry,
) -> (r: (u32, u32))
    requires
        world.covered_by(reg),
        forall|p: IVec3| #[trigger]
            perimeter@.contains_key(p) ==> clear_to_probe(p, 1),
    ensures
        lowest_wall(world, reg, perimeter@.dom(), gaps@.dom(), b, r.0 as int),
        tallest_wall(world, reg, perimeter@.dom(), gaps@.dom(), b, r.1 as int),
        r.0 <= ROOF_SCAN_CAP + 1,
        r.1 <= ROOF_SCAN_CAP + 1,
{
    let ghost per = perimeter@.dom();
    let ghost gp = gaps@.dom();
    let mut lowest: u32 = 0;
    let mut tallest: u32 = 1;
    let mut any: bool = false;
    let n: usize = perimeter.len();
    let mut i: usize = 0;
    while i < n
        invariant
            world.covered_by(reg),
            forall|p: IVec3| #[trigger]
                perimeter@.contains_key(p) ==> clear_to_probe(p, 1),
            per == perimeter@.dom(),
            gp == gaps@.dom(),
            n == perimeter.keys().len(),
            i <= n,
            any <==> exists|k: int|
                0 <= k < i && ring_column(per, gp, b, #[trigger] perimeter.keys()[k]),
            any ==> exists|k: int|
                0 <= k < i && ring_column(per, gp, b, #[trigger] perimeter.keys()[k]) && wall_run(
                    world,
                    reg,
                    perimeter.keys()[k],
                ) == lowest,
            !any ==> lowest == 0,
            lowest <= ROOF_SCAN_CAP + 1,
            1 <= tallest <= ROOF_SCAN_CAP + 1,
            tallest == 1 || exists|k: int|
                0 <= k < i && ring_column(per, gp, b, #[trigger] perimeter.keys()[k]) && wall_run(
                    world,
                    reg,
                    perimeter.keys()[k],
                ) == tallest,
            forall|k: int|
                0 <= k < i && ring_column(per, gp, b, #[trigger] perimeter.keys()[k]) ==> lowest
                    <= wall_run(world, reg, perimeter.keys()[k]) <= tallest,
        decreases n - i,
    {
        let p: IVec3 = perimeter.key_at(i);
        assert(per.contains(p));
        if is_exterior(b, p) && !gaps.contains(p) {
            assert(ring_column(per, gp, b, perimeter.keys()[i as int]));
            let run: u32 = probe_run(p, world, reg);
            if !any || run < lowest {
                lowest = run;
            }
            if run > tallest {
                tallest = run;
            }
            any = true;
        }
        i = i + 1;
    }
    proof {
        assert forall|p: IVec3| #[trigger] ring_column(per, gp, b, p) implies lowest <= wall_run(
            world,
            reg,
            p,
        ) <= tallest && any by {
            assert(perimeter@.contains_key(p));
            assert(perimeter.keys().contains(p));
            let k = choose|k: int| 0 <= k < n && perimeter.keys()[k] == p;
            assert(ring_column(per, gp, b, perimeter.keys()[k]));
        }
    }
    (lowest, tallest)
}

fn count_doors(perimeter: &CellMap<()>, world: &BlockWorld, reg: &BlockRegistry) -> (r: usize)
    requires
        world.covered_by(reg),
    ensures
        r == how_many(perimeter@.dom(), door_at(world, reg)),
{
    let n: usize = perimeter.len();
    let ghost keys = perimeter.keys();
    let mut doors: usize = 0;
    let mut i: usize = 0;
    while i < n
        invariant
            world.covered_by(reg),
            keys == perimeter.keys(),
            n == keys.len(),
            i <= n,
            doors == tally(keys.take(i as int), door_at(world, reg)),
        decreases n - i,
    {
        proof {
            lemma_tally_step(keys, i as int, door_at(world, reg));
        }
        if reg.def(world.get(perimeter.key_at(i))).flags.walkable_boundary {
            doors = doors + 1;
        }
        i = i + 1;
    }
    proof {
        lemma_tally_whole(keys, door_at(world, reg));
        assert(keys.to_set() =~= perimeter@.dom());
    }
    doors
}

fn check_sealed(
    perimeter: &CellMap<()>,
    gaps: &CellMap<()>,
    world: &BlockWorld,
    reg: &BlockRegistry,
) -> (r: bool)
    requires
        world.covered_by(reg),
    ensures
        r == sealed(world, reg, perimeter@.dom(), gaps@.dom()),
{
    let n: usize = perimeter.len();
    let mut i: usize = 0;
    while i < n
        invariant
            world.covered_by(reg),
            n == perimeter.keys().len(),
            i <= n,
            forall|k: int|
                0 <= k < i ==> bounding(reg, world.slot(#[trigger] perimeter.keys()[k]))
                    || gaps@.dom().contains(perimeter.keys()[k]),
        decreases n - i,
    {
        let p: IVec3 = perimeter.key_at(i);
        if !bounds_room(world.get(p), reg) && !gaps.contains(p) {
            assert(perimeter@.dom().contains(p));
            return false;
        }
        i = i + 1;
    }
    assert forall|p: IVec3| #[trigger] perimeter@.dom().contains(p) implies bounding(
        reg,
        world.slot(p),
    ) || gaps@.dom().contains(p) by {
        assert(perimeter@.contains_key(p));
        assert(perimeter.keys().contains(p));
    }
    true
}

// ---------- the whole signature ----------

/// Detector-internal geometry that is no part of the signature.
pub struct SignatureExtras {
    /// Tallest ceiling or wall probed, in layers above the floor.
    pub max_probe_height: u32,
}

/// Number of columns that count as roofed: none while the perimeter leaks.
pub open spec fn roofed_columns(world: &BlockWorld, reg: &BlockRegistry, fill: &FloorFill) -> int {
    let floor = fill.cells@.to_set();
    if sealed(world, reg, perimeter_of(floor), fill.boundary_gaps@.dom()) {
        how_many(floor, roofed(world, reg)) as int
    } else {
        0
    }
}

/// Enough columns are roofed.
pub open spec fn counts_as_roofed(
    world: &BlockWorld,
    reg: &BlockRegistry,
    fill: &FloorFill,
) -> bool {
    100 * roofed_columns(world, reg, fill) >= HAS_ROOF_MIN_HUNDREDTHS * fill.cells@.len()
}

/// The interior height: 0 while the perimeter leaks; under a roof the median
/// height of the ceilings; else the lowest wall of the exterior ring.
pub open spec fn interior_height(
    world: &BlockWorld,
    reg: &BlockRegistry,
    fill: &FloorFill,
    b: BBox,
    h: int,
) -> bool {
    let floor = fill.cells@.to_set();
    let gaps = fill.boundary_gaps@.dom();
    if !sealed(world, reg, perimeter_of(floor), gaps) {
        h == 0
    } else if counts_as_roofed(world, reg, fill) {
        median_ceiling(world, reg, floor, h)
    } else {
        lowest_wall(world, reg, perimeter_of(floor), gaps, b, h)
    }
}

/// The cells whose contents count toward the signature.
pub open spec fn contents_of(fill: &FloorFill, b: BBox, h: int) -> Set<IVec3> {
    scan_set(fill.cells@.to_set(), b, fill.cells@[0].y as int, max_of(h, 1) - 1)
}

/// The signature describes the fill.
pub open spec fn describes(
    world: &BlockWorld,
    reg: &BlockRegistry,
    fill: &FloorFill,
    sig: RoomSignature,
) -> bool {
    let floor = fill.cells@.to_set();
    let n = fill.cells@.len() as int;
    &&& sig.domain == PatternDomain::Volumetric
    &&& spans(fill.cells@, sig.bbox)
    &&& sig.cell_count == n
    &&& sig.walkable_count is Some && sig.walkable_count->0 == how_many(floor, walkable(world, reg))
    &&& sig.floor_composition matches Some(comp) && comp.solid == how_many(
        floor,
        on_solid(world, reg),
    ) && comp.water_below == how_many(floor, on_water(world, reg)) && comp.support_in_cell
        == how_many(floor, self_supported(world, reg))
    &&& sig.door_count is Some && sig.door_count->0 == min_of(
        (how_many(perimeter_of(floor), door_at(world, reg)) + fill.doorways@.dom().len()) as int,
        u32::MAX as int,
    )
    &&& sig.roof_fraction matches Some(f) && f.part == roofed_columns(world, reg, fill) && f.whole
        == n
    &&& sig.has_roof == Some(counts_as_roofed(world, reg, fill))
    &&& sig.enclosure_height matches Some(h) && interior_height(
        world,
        reg,
        fill,
        sig.bbox,
        h as int,
    ) && sig.volume is Some && sig.volume->0 == min_of(h * n, u32::MAX as int) && lists_tags(
        world,
        reg,
        contents_of(fill, sig.bbox, h as int),
        sig.tag_counts@,
    ) && lists_pairs(
        world,
        reg,
        contents_of(fill, sig.bbox, h as int),
        sig.adjacent_pairs@,
    )
}

/// The tallest thing probed: a ceiling, or under open sky a wall of the
/// exterior ring; at least 1.
pub open spec fn tallest_probe(
    world: &BlockWorld,
    reg: &BlockRegistry,
    fill: &FloorFill,
    b: BBox,
    t: int,
) -> bool {
    let floor = fill.cells@.to_set();
    let gaps = fill.boundary_gaps@.dom();
    if !sealed(world, reg, perimeter_of(floor), gaps) {
        t == 1
    } else if counts_as_roofed(world, reg, fill) {
        tallest_ceiling(world, reg, fill.cells@, t)
    } else {
        exists|x: int, y: int|
            #![trigger tallest_ceiling(world, reg, fill.cells@, x), tallest_wall(world, reg, perimeter_of(floor), gaps, b, y)]
            tallest_ceiling(world, reg, fill.cells@, x) && tallest_wall(
                world,
                reg,
                perimeter_of(floor),
                gaps,
                b,
                y,
            ) && t == max_of(x, y)
    }
}

/// Measures a fill.
pub fn compute_signature(fill: &FloorFill, world: &BlockWorld, reg: &BlockRegistry) -> (r: (
    RoomSignature,
    SignatureExtras,
))
    requires
        world.covered_by(reg),
        reg.defs@.len() <= 0x1_0000,
        measurable(fill),
    ensures
        describes(world, reg, fill, r.0),
        tallest_probe(world, reg, fill, r.0.bbox, r.1.max_probe_height as int),
        r.0.enclosure_height->0 <= ROOF_SCAN_CAP + 1,
        1 <= r.1.max_probe_height <= ROOF_SCAN_CAP + 1,
{
    let ghost floor = fill.cells@.to_set();
    let b: BBox = measure_box(&fill.cells);
    let (comp, walkable_count) = measure_floor(&fill.cells, world, reg);
    let perimeter: CellMap<()> = measure_perimeter(&fill.cells);
    let doors: usize = count_doors(&perimeter, world, reg);
    let gates: usize = fill.doorways.len();
    let openings: u128 = doors as u128 + gates as u128;
    let door_count: u32 = if openings < u32::MAX as u128 {
        openings as u32
    } else {
        u32::MAX
    };
    let n: u32 = fill.cells.len() as u32;
    let tight: bool = check_sealed(&perimeter, &fill.boundary_gaps, world, reg);
    let mut roofed_count: u32 = 0;
    let mut max_probe_height: u32 = 1;
    let mut has_roof: bool = false;
    let mut height: u32 = 0;
    if tight {
        let ceilings = measure_ceilings(&fill.cells, world, reg);
        roofed_count = ceilings.count;
        max_probe_height = ceilings.tallest;
        has_roof = 100 * roofed_count as u64 >= HAS_ROOF_MIN_HUNDREDTHS as u64 * n as u64;
        if has_roof {
            height = ceilings.median;
        } else {
            let (lowest, tallest) = measure_walls(
                &perimeter,
                &fill.boundary_gaps,
                b,
                world,
                reg,
            );
            height = lowest;
            if tallest > max_probe_height {
                max_probe_height = tallest;
            }
            assert(tallest_ceiling(world, reg, fill.cells@, ceilings.tallest as int)
                && tallest_wall(
                world,
                reg,
                perimeter_of(floor),
                fill.boundary_gaps@.dom(),
                b,
                tallest as int,
            ));
        }
    }
    assert(height * n <= 0x40 * 0x1_0000_0000) by (nonlinear_arith)
        requires
            height <= 0x40,
            n <= 0x1_0000_0000,
    ;
    let room: u64 = height as u64 * n as u64;
    let volume: u32 = if room < u32::MAX as u64 {
        room as u32
    } else {
        u32::MAX
    };
    let top: u32 = if height > 1 {
        height - 1
    } else {
        0
    };
    let scan: Vec<IVec3> = scan_cells(&fill.cells, &perimeter, b, top);
    let (tag_counts, adjacent_pairs) = count_tags(&scan, world, reg);
    let signature = RoomSignature {
        domain: PatternDomain::Volumetric,
        bbox: b,
        cell_count: n,
        volume: Some(volume),
        walkable_count: Some(walkable_count),
        enclosure_height: Some(height),
        has_roof: Some(has_roof),
        roof_fraction: Some(Fraction { part: roofed_count, whole: n }),
        door_count: Some(door_count),
        floor_composition: Some(comp),
        tag_counts,
        adjacent_pairs,
    };
    (signature, SignatureExtras { max_probe_height })
}

// ---------- what a signature promises ----------

/// The cells around a floor are those outside of it with one of their four
/// sides in it.
pub proof fn law_perimeters_touch_the_floor(floor: Set<IVec3>, p: IVec3)
    requires
        crate::cells::clear_of_limits(p, 1),
        forall|c: IVec3| #[trigger] floor.contains(c) ==> crate::cells::clear_of_limits(c, 1),
    ensures
        perimeter_of(floor).contains(p) <==> !floor.contains(p) && (floor.contains(
            IVec3 { x: (p.x + 1) as i32, ..p },
        ) || floor.contains(IVec3 { x: (p.x - 1) as i32, ..p }) || floor.contains(
            IVec3 { z: (p.z + 1) as i32, ..p },
        ) || floor.contains(IVec3 { z: (p.z - 1) as i32, ..p })),
{
    let e = IVec3 { x: (p.x + 1) as i32, ..p };
    let w = IVec3 { x: (p.x - 1) as i32, ..p };
    let s = IVec3 { z: (p.z + 1) as i32, ..p };
    let n = IVec3 { z: (p.z - 1) as i32, ..p };
    assert(neighbour(e, 1) == p);
    assert(neighbour(w, 0) == p);
    assert(neighbour(s, 3) == p);
    assert(neighbour(n, 2) == p);
    if on_perimeter(floor, p) {
        let (c, d) = choose|c: IVec3, d: int|
            #![trigger neighbour(c, d)]
            floor.contains(c) && 0 <= d < 4 && p == neighbour(c, d);
        assert(c == e || c == w || c == s || c == n);
    }
}

proof fn lemma_same_count(cells: Set<IVec3>, f: spec_fn(IVec3) -> bool, g: spec_fn(IVec3) -> bool)
    requires
        forall|c: IVec3| #[trigger] f(c) == g(c),
    ensures
        how_many(cells, f) == cells.filter(g).len(),
{
    assert(cells.filter(f) =~= cells.filter(g));
}

/// A signature counts the floor cell by cell: those under whose head there is
/// room are walkable; those whose own block carries them support themselves; of
/// the others those over a solid block rest on it, and those over a block that
/// only carries rest on water. Doors are the blocks around the floor that can be
/// walked through, and the doorways of the fill.
pub proof fn law_signatures_count_the_floor(
    world: &BlockWorld,
    reg: &BlockRegistry,
    fill: &FloorFill,
    sig: RoomSignature,
)
    requires
        describes(world, reg, fill, sig),
    ensures
        ({
            let floor = fill.cells@.to_set();
            let comp = sig.floor_composition->0;
            let own = |c: IVec3| reg.defs@[world.slot(c).0 as int].flags.support_in_cell;
            let below = |c: IVec3|
                reg.defs@[world.slot(IVec3 { x: c.x, y: (c.y - 1) as i32, z: c.z }).0 as int].flags;
            let above = |c: IVec3| world.slot(IVec3 { x: c.x, y: (c.y + 1) as i32, z: c.z });
            &&& sig.cell_count == fill.cells@.len()
            &&& comp.support_in_cell == floor.filter(own).len()
            &&& comp.solid == floor.filter(|c: IVec3| !own(c) && below(c).solid).len()
            &&& comp.water_below == floor.filter(
                |c: IVec3| !own(c) && !below(c).solid && below(c).support_below,
            ).len()
            &&& sig.walkable_count == Some(
                floor.filter(
                    |c: IVec3|
                        above(c) == crate::blocks::BlockSlot(0)
                            || reg.defs@[above(c).0 as int].flags.support_in_cell,
                ).len() as u32,
            )
            &&& sig.door_count is Some
            &&& perimeter_of(floor).filter(
                |p: IVec3| reg.defs@[world.slot(p).0 as int].flags.walkable_boundary,
            ).len() + fill.doorways@.dom().len() <= u32::MAX ==> sig.door_count->0
                == perimeter_of(floor).filter(
                |p: IVec3| reg.defs@[world.slot(p).0 as int].flags.walkable_boundary,
            ).len() + fill.doorways@.dom().len()
        }),
{
    let floor = fill.cells@.to_set();
    let own = |c: IVec3| reg.defs@[world.slot(c).0 as int].flags.support_in_cell;
    let below = |c: IVec3|
        reg.defs@[world.slot(IVec3 { x: c.x, y: (c.y - 1) as i32, z: c.z }).0 as int].flags;
    let above = |c: IVec3| world.slot(IVec3 { x: c.x, y: (c.y + 1) as i32, z: c.z });
    lemma_same_count(floor, self_supported(world, reg), own);
    lemma_same_count(floor, on_solid(world, reg), |c: IVec3| !own(c) && below(c).solid);
    lemma_same_count(
        floor,
        on_water(world, reg),
        |c: IVec3| !own(c) && !below(c).solid && below(c).support_below,
    );
    lemma_same_count(
        floor,
        walkable(world, reg),
        |c: IVec3|
            above(c) == crate::blocks::BlockSlot(0)
                || reg.defs@[above(c).0 as int].flags.support_in_cell,
    );
    lemma_same_count(
        perimeter_of(floor),
        door_at(world, reg),
        |p: IVec3| reg.defs@[world.slot(p).0 as int].flags.walkable_boundary,
    );
}

/// The block so many layers above a cell.
pub open spec fn layer(world: &BlockWorld, c: IVec3, up: int) -> crate::blocks::BlockSlot {
    world.slot(IVec3 { x: c.x, y: (c.y + up) as i32, z: c.z })
}

/// The ceiling over a cell is the first block above it that bounds a room,
/// within thirty-two layers; without one the cell lies under open sky.
pub proof fn law_ceilings_are_the_first_block(
    world: &BlockWorld,
    reg: &BlockRegistry,
    c: IVec3,
    h: int,
)
    ensures
        ceiling(world, reg, c) == Some(h) <==> 1 <= h <= 32 && bounding(reg, layer(world, c, h))
            && forall|k: int| 1 <= k < h ==> !bounding(reg, #[trigger] layer(world, c, k)),
        ceiling(world, reg, c) is None <==> forall|k: int|
            1 <= k <= 32 ==> !bounding(reg, #[trigger] layer(world, c, k)),
{
    lemma_ceiling_from(world, reg, c, 1, h);
}

proof fn lemma_ceiling_from(world: &BlockWorld, reg: &BlockRegistry, c: IVec3, dy: int, h: int)
    requires
        1 <= dy,
    ensures
        ceiling_from(world, reg, c, dy) == Some(h) <==> dy <= h <= 32 && bounding(
            reg,
            layer(world, c, h),
        ) && forall|k: int| dy <= k < h ==> !bounding(reg, #[trigger] layer(world, c, k)),
        ceiling_from(world, reg, c, dy) is None <==> forall|k: int|
            dy <= k <= 32 ==> !bounding(reg, #[trigger] layer(world, c, k)),
    decreases ROOF_SCAN_CAP + 1 - dy,
{
    assert(shifted(c, 0, dy, 0) == (IVec3 { x: c.x, y: (c.y + dy) as i32, z: c.z }));
    if dy <= ROOF_SCAN_CAP {
        assert(layer(world, c, dy) == world.slot(shifted(c, 0, dy, 0)));
        if !bounding(reg, layer(world, c, dy)) {
            lemma_ceiling_from(world, reg, c, dy + 1, h);
        }
    }
}

/// A wall stands as high as blocks that bound a room are stacked from its foot,
/// without a gap, up to thirty-three of them.
pub proof fn law_walls_are_unbroken(world: &BlockWorld, reg: &BlockRegistry, p: IVec3, k: int)
    ensures
        0 <= wall_run(world, reg, p) <= 33,
        0 <= k < wall_run(world, reg, p) ==> bounding(reg, layer(world, p, k)),
        wall_run(world, reg, p) <= 32 ==> !bounding(
            reg,
            layer(world, p, wall_run(world, reg, p)),
        ),
{
    lemma_run_from(world, reg, p, 0, k);
}

proof fn lemma_run_from(world: &BlockWorld, reg: &BlockRegistry, p: IVec3, dy: int, k: int)
    requires
        0 <= dy <= 33,
    ensures
        0 <= run_from(world, reg, p, dy) <= 33 - dy,
        dy <= k < dy + run_from(world, reg, p, dy) ==> bounding(reg, layer(world, p, k)),
        dy + run_from(world, reg, p, dy) <= 32 ==> !bounding(
            reg,
            layer(world, p, dy + run_from(world, reg, p, dy)),
        ),
    decreases ROOF_SCAN_CAP + 1 - dy,
{
    if dy <= ROOF_SCAN_CAP {
        assert(layer(world, p, dy) == world.slot(shifted(p, 0, dy, 0)));
        if bounding(reg, layer(world, p, dy)) {
            lemma_run_from(world, reg, p, dy + 1, k);
        }
    }
}

/// A region whose surroundings leak has no roof, no height and no volume. A
/// sealed one has as much roof as it has cells with a ceiling, and counts as
/// roofed from eighty-five of a hundred on. Its volume is its height over all
/// its cells.
pub proof fn law_signatures_measure_the_roof(
    world: &BlockWorld,
    reg: &BlockRegistry,
    fill: &FloorFill,
    sig: RoomSignature,
)
    requires
        describes(world, reg, fill, sig),
    ensures
        ({
            let floor = fill.cells@.to_set();
            let tight = forall|p: IVec3| #[trigger]
                perimeter_of(floor).contains(p) ==> bounding(reg, world.slot(p))
                    || fill.boundary_gaps@.contains_key(p);
            let f = sig.roof_fraction->0;
            let h = sig.enclosure_height->0;
            let n = fill.cells@.len();
            &&& sig.roof_fraction is Some && sig.enclosure_height is Some && sig.volume is Some
            &&& f.whole == n
            &&& !tight ==> f.part == 0 && h == 0 && sig.volume->0 == 0
            &&& tight ==> f.part == floor.filter(|c: IVec3| ceiling(world, reg, c) is Some).len()
            &&& sig.has_roof == Some(100 * f.part >= 85 * n)
            &&& h * n <= u32::MAX ==> sig.volume->0 == h * n
            &&& h * n > u32::MAX ==> sig.volume->0 == u32::MAX
        }),
{
    let floor = fill.cells@.to_set();
    lemma_same_count(
        floor,
        roofed(world, reg),
        |c: IVec3| ceiling(world, reg, c) is Some,
    );
    let n = fill.cells@.len() as int;
    assert(0int * n == 0) by (nonlinear_arith);
}

/// Under a roof the height is the lower median of the ceilings: fewer than half
/// of them are lower, and at least half are no higher. Under open sky it is the
/// height of the lowest wall of the outer ring, doorways aside.
pub proof fn law_heights_are_medians_or_lowest_walls(
    world: &BlockWorld,
    reg: &BlockRegistry,
    fill: &FloorFill,
    sig: RoomSignature,
    p: IVec3,
)
    requires
        describes(world, reg, fill, sig),
        forall|q: IVec3| #[trigger]
            perimeter_of(fill.cells@.to_set()).contains(q) ==> bounding(reg, world.slot(q))
                || fill.boundary_gaps@.contains_key(q),
    ensures
        ({
            let floor = fill.cells@.to_set();
            let h = sig.enclosure_height->0 as int;
            let ceilings = floor.filter(|c: IVec3| ceiling(world, reg, c) is Some).len();
            let lower = floor.filter(
                |c: IVec3| ceiling(world, reg, c) is Some && ceiling(world, reg, c)->0 < h,
            ).len();
            let up_to = floor.filter(
                |c: IVec3| ceiling(world, reg, c) is Some && ceiling(world, reg, c)->0 <= h,
            ).len();
            let ring = perimeter_of(floor).contains(p) && !fill.boundary_gaps@.contains_key(p) && (p.x
                < sig.bbox.min.x || p.x > sig.bbox.max.x || p.z < sig.bbox.min.z || p.z
                > sig.bbox.max.z);
            &&& sig.has_roof == Some(true) && ceilings > 0 ==> 2 * lower < ceilings && ceilings <= 2
                * up_to
            &&& sig.has_roof == Some(false) && ring ==> h <= wall_run(world, reg, p)
        }),
        sig.has_roof == Some(false) && sig.enclosure_height->0 > 0 ==> exists|q: IVec3|
            ring_column(
                perimeter_of(fill.cells@.to_set()),
                fill.boundary_gaps@.dom(),
                sig.bbox,
                q,
            ) && wall_run(world, reg, q) == sig.enclosure_height->0,
{
    let floor = fill.cells@.to_set();
    let h = sig.enclosure_height->0 as int;
    lemma_same_count(
        floor,
        roofed(world, reg),
        |c: IVec3| ceiling(world, reg, c) is Some,
    );
    lemma_same_count(
        floor,
        ceiling_within(world, reg, h - 1),
        |c: IVec3| ceiling(world, reg, c) is Some && ceiling(world, reg, c)->0 < h,
    );
    lemma_same_count(
        floor,
        ceiling_within(world, reg, h),
        |c: IVec3| ceiling(world, reg, c) is Some && ceiling(world, reg, c)->0 <= h,
    );
    assert(sealed(world, reg, perimeter_of(floor), fill.boundary_gaps@.dom()));
    if sig.has_roof == Some(false) {
        assert(lowest_wall(
            world,
            reg,
            perimeter_of(floor),
            fill.boundary_gaps@.dom(),
            sig.bbox,
            h,
        ));
        assert(ring_column(perimeter_of(floor), fill.boundary_gaps@.dom(), sig.bbox, p) ==> h
            <= wall_run(world, reg, p));
    }
}

/// The box of a region holds all of its cells, and no smaller box does.
pub proof fn law_boxes_are_tight(cells: Seq<IVec3>, b: BBox, lo: IVec3, hi: IVec3)
    requires
        spans(cells, b),
        forall|i: int|
            0 <= i < cells.len() ==> lo.x <= (#[trigger] cells[i]).x <= hi.x && lo.y <= cells[i].y
                <= hi.y && lo.z <= cells[i].z <= hi.z,
    ensures
        lo.x <= b.min.x && b.max.x <= hi.x,
        lo.y <= b.min.y && b.max.y <= hi.y,
        lo.z <= b.min.z && b.max.z <= hi.z,
        forall|i: int|
            0 <= i < cells.len() ==> b.min.x <= (#[trigger] cells[i]).x <= b.max.x && b.min.y
                <= cells[i].y <= b.max.y && b.min.z <= cells[i].z <= b.max.z,
{
}

/// What a signature lists is counted over all of the region's inside: from the
/// level of the floor up to just below its height, and on the floor's own layer
/// alone where it has none; over the floor and over the cells around it that
/// its box holds.
pub proof fn law_signatures_count_the_inside(
    world: &BlockWorld,
    reg: &BlockRegistry,
    fill: &FloorFill,
    sig: RoomSignature,
    inside: Set<IVec3>,
)
    requires
        describes(world, reg, fill, sig),
        fill.cells@.len() > 0,
        forall|c: IVec3| #[trigger]
            inside.contains(c) <==> {
                let level = fill.cells@[0].y;
                let foot = IVec3 { x: c.x, y: level, z: c.z };
                let height = sig.enclosure_height->0;
                &&& level <= c.y
                &&& c.y < level + height || c.y == level
                &&& fill.cells@.contains(foot) || (perimeter_of(fill.cells@.to_set()).contains(foot)
                    && sig.bbox.min.x <= c.x <= sig.bbox.max.x && sig.bbox.min.z <= c.z
                    <= sig.bbox.max.z)
            },
    ensures
        lists_tags(world, reg, inside, sig.tag_counts@),
        lists_pairs(world, reg, inside, sig.adjacent_pairs@),
{
    let floor = fill.cells@.to_set();
    let level = fill.cells@[0].y as int;
    let top = max_of(sig.enclosure_height->0 as int, 1) - 1;
    assert forall|c: IVec3| inside.contains(c) <==> #[trigger] contents_of(
        fill,
        sig.bbox,
        sig.enclosure_height->0 as int,
    ).contains(c) by {
        let foot = IVec3 { x: c.x, y: level as i32, z: c.z };
        crate::rooms::contents::law_contents_lie_within(floor, sig.bbox, level, top, c);
        assert(floor.contains(foot) <==> fill.cells@.contains(foot));
    }
    assert(inside =~= contents_of(fill, sig.bbox, sig.enclosure_height->0 as int));
}

} // verus!
