//! What stands inside a region: how often each tag occurs, and which tags
//! stand next to each other.

use crate::blocks::{BlockRegistry, BlockSlot, BlockWorld};
use crate::cells::{max_of, min_of, neighbour, IVec3};
use crate::ord_map::CellMap;
use crate::rooms::counting::{how_many, lemma_tally_step, lemma_tally_whole, tally};
use crate::rooms::fill::{clear_to_probe, level_cells};
use crate::rooms::signature::{exterior, is_exterior, on_perimeter, perimeter_of, BBox};
use crate::strings::{contains_text, has_text, insert_sorted, text_before, texts_sorted};
use vstd::prelude::*;

verus! {

/// How many placements carry a tag.
pub struct TagCount {
    pub tag: String,
    pub count: u32,
}

/// How many placements with tag `a` stand next to a cell with tag `b`.
pub struct AdjacentPairCount {
    pub a: String,
    pub b: String,
    pub count: u32,
}

/// The cells whose blocks furnish the region: every floor column, and every
/// column of a pillar or a piece of furniture inside the floor's box, from the
/// floor up through `top` layers above it.
pub open spec fn scanned(
    floor: Set<IVec3>,
    b: BBox,
    y: int,
    top: int,
    c: IVec3,
) -> bool {
    let column = IVec3 { x: c.x, y: y as i32, z: c.z };
    &&& y <= c.y <= y + top
    &&& floor.contains(column) || (on_perimeter(floor, column) && !exterior(b, column))
}

pub open spec fn scan_set(floor: Set<IVec3>, b: BBox, y: int, top: int) -> Set<IVec3> {
    Set::new(|c: IVec3| scanned(floor, b, y, top, c))
}

fn scan_columns(cells: &Vec<IVec3>, perimeter: &CellMap<()>, b: BBox) -> (cols: Vec<IVec3>)
    requires
        level_cells(cells@),
        perimeter@.dom() == perimeter_of(cells@.to_set()),
        forall|p: IVec3| #[trigger]
            perimeter@.contains_key(p) ==> p.y == cells@[0].y && clear_to_probe(p, 1),
    ensures
        cols@.no_duplicates(),
        forall|k: int|
            0 <= k < cols@.len() ==> (#[trigger] cols@[k]).y == cells@[0].y
                && clear_to_probe(cols@[k], 1),
        forall|c: IVec3| #[trigger]
            cols@.contains(c) <==> cells@.to_set().contains(c) || (on_perimeter(cells@.to_set(), c)
                && !exterior(b, c)),
{
    let ghost floor = cells@.to_set();
    let mut cols: Vec<IVec3> = Vec::new();
    let mut i: usize = 0;
    while i < cells.len()
        invariant
            level_cells(cells@),
            i <= cells@.len(),
            cols@ == cells@.take(i as int),
        decreases cells@.len() - i,
    {
        cols.push(cells[i]);
        assert(cells@.take(i + 1) =~= cells@.take(i as int).push(cells@[i as int]));
        i = i + 1;
    }
    assert(cells@.take(cells@.len() as int) =~= cells@);
    let n: usize = perimeter.len();
    let mut j: usize = 0;
    while j < n
        invariant
            level_cells(cells@),
            floor == cells@.to_set(),
            perimeter@.dom() == perimeter_of(floor),
            forall|p: IVec3| #[trigger]
                perimeter@.contains_key(p) ==> p.y == cells@[0].y && clear_to_probe(
                    p,
                    1,
                ),
            n == perimeter.keys().len(),
            perimeter.keys().no_duplicates(),
            j <= n,
            cols@.no_duplicates(),
            forall|k: int|
                0 <= k < cols@.len() ==> (#[trigger] cols@[k]).y == cells@[0].y
                    && clear_to_probe(cols@[k], 1),
            forall|c: IVec3| #[trigger]
                cols@.contains(c) <==> floor.contains(c) || (exists|k: int|
                    0 <= k < j && #[trigger] perimeter.keys()[k] == c && !exterior(b, c)),
        decreases n - j,
    {
        let p: IVec3 = perimeter.key_at(j);
        let ghost cols0 = cols@;
        if !is_exterior(b, p) {
            assert(perimeter@.dom().contains(p));
            assert(!cols0.contains(p)) by {
                assert(on_perimeter(floor, p));
            }
            cols.push(p);
            assert forall|x: int, y: int| 0 <= x < cols@.len() && 0 <= y < cols@.len() && x
                != y implies cols@[x] != cols@[y] by {
                if x == cols0.len() {
                    assert(cols0.contains(cols0[y]));
                } else if y == cols0.len() {
                    assert(cols0.contains(cols0[x]));
                }
            }
        }
        assert forall|c: IVec3| #[trigger] cols@.contains(c) <==> (floor.contains(c) || (exists|
            k: int,
        |
            0 <= k < j + 1 && #[trigger] perimeter.keys()[k] == c && !exterior(b, c))) by {
            if cols@.contains(c) {
                let k = choose|k: int| 0 <= k < cols@.len() && cols@[k] == c;
                if k < cols0.len() {
                    assert(cols0.contains(cols0[k]));
                    if !floor.contains(c) {
                        let m = choose|m: int|
                            0 <= m < j && #[trigger] perimeter.keys()[m] == c && !exterior(b, c);
                        assert(perimeter.keys()[m] == c);
                    }
                } else {
                    assert(perimeter.keys()[j as int] == c);
                }
            }
            if floor.contains(c) || (exists|k: int|
                0 <= k < j && #[trigger] perimeter.keys()[k] == c && !exterior(b, c)) {
                assert(cols0.contains(c));
                let k = choose|k: int| 0 <= k < cols0.len() && cols0[k] == c;
                assert(cols@[k] == c);
            } else if perimeter.keys()[j as int] == c && !exterior(b, c) {
                assert(cols@[cols0.len() as int] == c);
            }
        }
        j = j + 1;
    }
    proof {
        assert forall|c: IVec3| #[trigger] cols@.contains(c) <==> floor.contains(c) || (
        on_perimeter(floor, c) && !exterior(b, c)) by {
            if on_perimeter(floor, c) {
                assert(perimeter@.dom().contains(c));
                assert(perimeter@.contains_key(c));
                assert(perimeter.keys().contains(c));
                let k = choose|k: int| 0 <= k < n && perimeter.keys()[k] == c;
                assert(perimeter.keys()[k] == c);
            }
            if cols@.contains(c) && !floor.contains(c) {
                let k = choose|k: int|
                    0 <= k < n && #[trigger] perimeter.keys()[k] == c && !exterior(b, c);
                assert(perimeter@.contains_key(perimeter.keys()[k]));
                assert(perimeter@.dom().contains(c));
            }
        }
    }
    cols
}

spec fn stacked(cols: Seq<IVec3>, upto: int, top: int, c: IVec3) -> bool {
    exists|k: int|
        0 <= k < upto && (#[trigger] cols[k]).x == c.x && cols[k].z == c.z && cols[k].y <= c.y
            <= cols[k].y + top
}

pub fn scan_cells(cells: &Vec<IVec3>, perimeter: &CellMap<()>, b: BBox, top: u32) -> (scan: Vec<IVec3>)
    requires
        level_cells(cells@),
        perimeter@.dom() == perimeter_of(cells@.to_set()),
        forall|p: IVec3| #[trigger]
            perimeter@.contains_key(p) ==> p.y == cells@[0].y && clear_to_probe(p, 1),
        top <= 33,
    ensures
        scan@.no_duplicates(),
        scan@.to_set() == scan_set(cells@.to_set(), b, cells@[0].y as int, top as int),
        forall|k: int|
            0 <= k < scan@.len() ==> crate::cells::clear_of_limits(#[trigger] scan@[k], 1),
{
    let ghost y = cells@[0].y as int;
    let cols: Vec<IVec3> = scan_columns(cells, perimeter, b);
    let mut scan: Vec<IVec3> = Vec::new();
    let mut k: usize = 0;
    while k < cols.len()
        invariant
            y == cells@[0].y,
            top <= 33,
            cols@.no_duplicates(),
            forall|k: int|
                0 <= k < cols@.len() ==> (#[trigger] cols@[k]).y == y
                    && clear_to_probe(cols@[k], 1),
            k <= cols@.len(),
            scan@.no_duplicates(),
            forall|k: int|
                0 <= k < scan@.len() ==> crate::cells::clear_of_limits(#[trigger] scan@[k], 1),
            forall|c: IVec3| #[trigger]
                scan@.contains(c) <==> stacked(cols@, k as int, top as int, c),
        decreases cols@.len() - k,
    {
        let col: IVec3 = cols[k];
        let mut dy: u32 = 0;
        while dy <= top
            invariant
                y == cells@[0].y,
                top <= 33,
                cols@.no_duplicates(),
                forall|k: int|
                    0 <= k < cols@.len() ==> (#[trigger] cols@[k]).y == y
                        && clear_to_probe(cols@[k], 1),
                k < cols@.len(),
                col == cols@[k as int],
                dy <= top + 1,
                scan@.no_duplicates(),
                forall|k: int|
                    0 <= k < scan@.len() ==> crate::cells::clear_of_limits(#[trigger] scan@[k], 1),
                forall|c: IVec3| #[trigger]
                    scan@.contains(c) <==> stacked(cols@, k as int, top as int, c) || (c.x == col.x
                        && c.z == col.z && col.y <= c.y < col.y + dy),
            decreases top + 1 - dy,
        {
            let c: IVec3 = col.shift(0, dy as i32, 0);
            let ghost scan0 = scan@;
            assert(!scan0.contains(c)) by {
                if stacked(cols@, k as int, top as int, c) {
                    let j = choose|j: int|
                        0 <= j < k && (#[trigger] cols@[j]).x == c.x && cols@[j].z == c.z
                            && cols@[j].y <= c.y <= cols@[j].y + top;
                    assert(cols@[j] == cols@[k as int]);
                }
            }
            scan.push(c);
            assert forall|i: int, j: int| 0 <= i < scan@.len() && 0 <= j < scan@.len() && i
                != j implies scan@[i] != scan@[j] by {
                if i == scan0.len() {
                    assert(scan0.contains(scan0[j]));
                } else if j == scan0.len() {
                    assert(scan0.contains(scan0[i]));
                }
            }
            assert forall|x: IVec3| #[trigger] scan@.contains(x) <==> (stacked(
                cols@,
                k as int,
                top as int,
                x,
            ) || (x.x == col.x && x.z == col.z && col.y <= x.y < col.y + dy + 1)) by {
                if scan@.contains(x) {
                    let j = choose|j: int| 0 <= j < scan@.len() && scan@[j] == x;
                    if j < scan0.len() {
                        assert(scan0.contains(scan0[j]));
                    }
                }
                if scan0.contains(x) {
                    let j = choose|j: int| 0 <= j < scan0.len() && scan0[j] == x;
                    assert(scan@[j] == x);
                }
                assert(scan@[scan0.len() as int] == c);
            }
            dy = dy + 1;
        }
        assert forall|c: IVec3| #[trigger] scan@.contains(c) <==> stacked(
            cols@,
            k + 1,
            top as int,
            c,
        ) by {
            if stacked(cols@, k as int, top as int, c) {
                let j = choose|j: int|
                    0 <= j < k && (#[trigger] cols@[j]).x == c.x && cols@[j].z == c.z && cols@[j].y
                        <= c.y <= cols@[j].y + top;
                assert(cols@[j].x == c.x);
            }
            assert(cols@[k as int] == col);
        }
        k = k + 1;
    }
    proof {
        let floor = cells@.to_set();
        assert forall|c: IVec3| scan@.contains(c) <==> scanned(floor, b, y, top as int, c) by {
            let column = IVec3 { x: c.x, y: y as i32, z: c.z };
            if stacked(cols@, cols@.len() as int, top as int, c) {
                let j = choose|j: int|
                    0 <= j < cols@.len() && (#[trigger] cols@[j]).x == c.x && cols@[j].z == c.z
                        && cols@[j].y <= c.y <= cols@[j].y + top;
                assert(cols@[j] == column);
                assert(cols@.contains(column));
            }
            if scanned(floor, b, y, top as int, c) {
                assert(cols@.contains(column));
                let j = choose|j: int| 0 <= j < cols@.len() && cols@[j] == column;
                assert(cols@[j].x == c.x);
            }
        }
        assert(scan@.to_set() =~= scan_set(floor, b, y, top as int));
    }
    scan
}

/// The cell holds the block kind in slot `s`.
pub open spec fn of_slot(world: &BlockWorld, s: int) -> spec_fn(IVec3) -> bool {
    |c: IVec3| world.slot(c).0 == s
}

/// The block at the cell carries tag `t`.
pub open spec fn tagged(world: &BlockWorld, reg: &BlockRegistry, t: Seq<char>, c: IVec3) -> bool {
    world.slot(c) != BlockSlot(0) && has_text(reg.spec_def(world.slot(c)).tags@, t)
}

/// A scanned cell right next to `c`, on the same layer, carries tag `t`.
pub open spec fn next_to(
    world: &BlockWorld,
    reg: &BlockRegistry,
    scan: Set<IVec3>,
    t: Seq<char>,
    c: IVec3,
) -> bool {
    exists|d: int|
        0 <= d < 4 && scan.contains(#[trigger] neighbour(c, d)) && tagged(
            world,
            reg,
            t,
            neighbour(c, d),
        )
}

/// The cell holds slot `s` and stands next to tag `t`.
pub open spec fn touching(
    world: &BlockWorld,
    reg: &BlockRegistry,
    scan: Set<IVec3>,
    s: int,
    t: Seq<char>,
) -> spec_fn(IVec3) -> bool {
    |c: IVec3| world.slot(c).0 == s && next_to(world, reg, scan, t, c)
}

/// How many placements `n` cells make when one placement covers `size` cells.
pub open spec fn placements(n: nat, size: nat) -> nat {
    let f = max_of(size as int, 1);
    ((n + f - 1) / f) as nat
}

/// Placements that carry tag `t`, over the slots below `upto`.
pub open spec fn tag_total(
    world: &BlockWorld,
    reg: &BlockRegistry,
    scan: Set<IVec3>,
    t: Seq<char>,
    upto: int,
) -> nat
    decreases upto,
{
    if upto <= 1 {
        0
    } else {
        tag_total(world, reg, scan, t, upto - 1) + if has_text(reg.defs@[upto - 1].tags@, t) {
            placements(
                how_many(scan, of_slot(world, upto - 1)),
                reg.defs@[upto - 1].footprint@.len(),
            )
        } else {
            0
        }
    }
}

/// Placements with tag `a` next to tag `b`, over the slots below `upto`.
pub open spec fn pair_total(
    world: &BlockWorld,
    reg: &BlockRegistry,
    scan: Set<IVec3>,
    a: Seq<char>,
    b: Seq<char>,
    upto: int,
) -> nat
    decreases upto,
{
    if upto <= 1 {
        0
    } else {
        pair_total(world, reg, scan, a, b, upto - 1) + if has_text(reg.defs@[upto - 1].tags@, a) {
            placements(
                how_many(scan, touching(world, reg, scan, upto - 1, b)),
                reg.defs@[upto - 1].footprint@.len(),
            )
        } else {
            0
        }
    }
}

/// The counts list every tag present, each once, in text order.
pub open spec fn lists_tags(
    world: &BlockWorld,
    reg: &BlockRegistry,
    scan: Set<IVec3>,
    list: Seq<TagCount>,
) -> bool {
    let n = reg.defs@.len() as int;
    &&& forall|i: int|
        0 <= i < list.len() ==> tag_total(world, reg, scan, (#[trigger] list[i]).tag@, n) > 0
            && list[i].count == min_of(
            tag_total(world, reg, scan, list[i].tag@, n) as int,
            u32::MAX as int,
        )
    &&& forall|i: int, j: int|
        #![trigger list[i], list[j]]
        0 <= i < j < list.len() ==> text_before(list[i].tag@, list[j].tag@)
    &&& forall|t: Seq<char>| #[trigger]
        tag_total(world, reg, scan, t, n) > 0 ==> exists|i: int|
            0 <= i < list.len() && (#[trigger] list[i]).tag@ == t
}

/// The counts list every pair of tags that touch, each once, in text order.
pub open spec fn lists_pairs(
    world: &BlockWorld,
    reg: &BlockRegistry,
    scan: Set<IVec3>,
    list: Seq<AdjacentPairCount>,
) -> bool {
    let n = reg.defs@.len() as int;
    &&& forall|i: int|
        0 <= i < list.len() ==> pair_total(
            world,
            reg,
            scan,
            (#[trigger] list[i]).a@,
            list[i].b@,
            n,
        ) > 0 && list[i].count == min_of(
            pair_total(world, reg, scan, list[i].a@, list[i].b@, n) as int,
            u32::MAX as int,
        )
    &&& forall|i: int, j: int|
        #![trigger list[i], list[j]]
        0 <= i < j < list.len() ==> text_before(list[i].a@, list[j].a@) || (list[i].a@
            == list[j].a@ && text_before(list[i].b@, list[j].b@))
    &&& forall|a: Seq<char>, b: Seq<char>| #[trigger]
        pair_total(world, reg, scan, a, b, n) > 0 ==> exists|i: int|
            0 <= i < list.len() && (#[trigger] list[i]).a@ == a && list[i].b@ == b
}

/// Number of scanned cells per slot.
fn count_slots(scan: &Vec<IVec3>, world: &BlockWorld, reg: &BlockRegistry) -> (counts: Vec<usize>)
    requires
        world.covered_by(reg),
        scan@.no_duplicates(),
    ensures
        counts@.len() == reg.defs@.len(),
        forall|s: int|
            0 <= s < counts@.len() ==> (#[trigger] counts@[s]) == how_many(
                scan@.to_set(),
                of_slot(world, s),
            ),
{
    let mut counts: Vec<usize> = Vec::new();
    let mut s: usize = 0;
    while s < reg.slot_count()
        invariant
            s <= reg.defs@.len(),
            counts@.len() == s,
            forall|k: int| 0 <= k < s ==> (#[trigger] counts@[k]) == 0,
        decreases reg.defs@.len() - s,
    {
        counts.push(0);
        s = s + 1;
    }
    let mut i: usize = 0;
    while i < scan.len()
        invariant
            world.covered_by(reg),
            counts@.len() == reg.defs@.len(),
            i <= scan@.len(),
            forall|s: int|
                0 <= s < counts@.len() ==> (#[trigger] counts@[s]) == tally(
                    scan@.take(i as int),
                    of_slot(world, s),
                ),
        decreases scan@.len() - i,
    {
        let slot: usize = world.get(scan[i]).0 as usize;
        let ghost counts0 = counts@;
        proof {
            assert(reg.knows(world.slot(scan@[i as int])));
            assert forall|s: int| 0 <= s < counts@.len() implies tally(
                scan@.take(i + 1),
                #[trigger] of_slot(world, s),
            ) == counts@[s] + (if s == slot {
                1int
            } else {
                0
            }) && counts@[s] <= i by {
                lemma_tally_step(scan@, i as int, of_slot(world, s));
                assert(counts@[s] == tally(scan@.take(i as int), of_slot(world, s)));
            }
            assert(of_slot(world, slot as int)(scan@[i as int]));
            lemma_tally_step(scan@, i as int, of_slot(world, slot as int));
            assert(counts@[slot as int] <= i);
        }
        let n: usize = counts[slot] + 1;
        counts.set(slot, n);
        assert forall|s: int| 0 <= s < counts@.len() implies (#[trigger] counts@[s]) == tally(
            scan@.take(i + 1),
            of_slot(world, s),
        ) by {
            assert(tally(scan@.take(i + 1), of_slot(world, s)) == counts0[s] + (if s == slot {
                1int
            } else {
                0
            }));
        }
        i = i + 1;
    }
    proof {
        assert forall|s: int| 0 <= s < counts@.len() implies (#[trigger] counts@[s]) == how_many(
            scan@.to_set(),
            of_slot(world, s),
        ) by {
            lemma_tally_whole(scan@, of_slot(world, s));
        }
    }
    counts
}

/// Does a scanned cell next to `c` carry the tag?
fn stands_next_to(
    c: IVec3,
    tag: &String,
    scan: &CellMap<()>,
    world: &BlockWorld,
    reg: &BlockRegistry,
) -> (r: bool)
    requires
        world.covered_by(reg),
        crate::cells::clear_of_limits(c, 1),
    ensures
        r == next_to(world, reg, scan@.dom(), tag@, c),
{
    let mut dir: u8 = 0;
    while dir < 4
        invariant
            world.covered_by(reg),
            crate::cells::clear_of_limits(c, 1),
            dir <= 4,
            forall|d: int|
                0 <= d < dir ==> !(scan@.dom().contains(#[trigger] neighbour(c, d)) && tagged(
                    world,
                    reg,
                    tag@,
                    neighbour(c, d),
                )),
        decreases 4 - dir,
    {
        let n: IVec3 = c.side(dir);
        if scan.contains(n) {
            let slot: BlockSlot = world.get(n);
            if !slot.is_empty() && contains_text(&reg.def(slot).tags, tag) {
                assert(scan@.dom().contains(neighbour(c, dir as int)));
                return true;
            }
        }
        assert(n == neighbour(c, dir as int));
        dir = dir + 1;
    }
    false
}

/// Number of scanned cells per slot that stand next to the tag.
fn count_touching(
    tag: &String,
    scan: &Vec<IVec3>,
    scan_map: &CellMap<()>,
    world: &BlockWorld,
    reg: &BlockRegistry,
) -> (counts: Vec<usize>)
    requires
        world.covered_by(reg),
        scan@.no_duplicates(),
        scan_map@.dom() == scan@.to_set(),
        forall|k: int|
            0 <= k < scan@.len() ==> crate::cells::clear_of_limits(#[trigger] scan@[k], 1),
    ensures
        counts@.len() == reg.defs@.len(),
        forall|s: int|
            0 <= s < counts@.len() ==> (#[trigger] counts@[s]) == how_many(
                scan@.to_set(),
                touching(world, reg, scan@.to_set(), s, tag@),
            ),
{
    let ghost set = scan@.to_set();
    let ghost t = tag@;
    let mut counts: Vec<usize> = Vec::new();
    let mut s: usize = 0;
    while s < reg.slot_count()
        invariant
            s <= reg.defs@.len(),
            counts@.len() == s,
            forall|k: int| 0 <= k < s ==> (#[trigger] counts@[k]) == 0,
        decreases reg.defs@.len() - s,
    {
        counts.push(0);
        s = s + 1;
    }
    let mut i: usize = 0;
    while i < scan.len()
        invariant
            world.covered_by(reg),
            set == scan@.to_set(),
            t == tag@,
            scan_map@.dom() == set,
            forall|k: int|
                0 <= k < scan@.len() ==> crate::cells::clear_of_limits(#[trigger] scan@[k], 1),
            counts@.len() == reg.defs@.len(),
            i <= scan@.len(),
            forall|s: int|
                0 <= s < counts@.len() ==> (#[trigger] counts@[s]) == tally(
                    scan@.take(i as int),
                    touching(world, reg, set, s, t),
                ),
        decreases scan@.len() - i,
    {
        let c: IVec3 = scan[i];
        let slot: usize = world.get(c).0 as usize;
        let hit: bool = stands_next_to(c, tag, scan_map, world, reg);
        let ghost counts0 = counts@;
        proof {
            assert(reg.knows(world.slot(scan@[i as int])));
            assert forall|s: int| 0 <= s < counts@.len() implies tally(
                scan@.take(i + 1),
                #[trigger] touching(world, reg, set, s, t),
            ) == counts@[s] + (if s == slot && hit {
                1int
            } else {
                0
            }) && counts@[s] <= i by {
                lemma_tally_step(scan@, i as int, touching(world, reg, set, s, t));
                assert(counts@[s] == tally(
                    scan@.take(i as int),
                    touching(world, reg, set, s, t),
                ));
            }
            lemma_tally_step(scan@, i as int, touching(world, reg, set, slot as int, t));
            assert(counts@[slot as int] <= i);
        }
        if hit {
            let n: usize = counts[slot] + 1;
            counts.set(slot, n);
        }
        assert forall|s: int| 0 <= s < counts@.len() implies (#[trigger] counts@[s]) == tally(
            scan@.take(i + 1),
            touching(world, reg, set, s, t),
        ) by {
            assert(tally(scan@.take(i + 1), touching(world, reg, set, s, t)) == counts0[s] + (if s
                == slot && hit {
                1int
            } else {
                0
            }));
        }
        i = i + 1;
    }
    proof {
        assert forall|s: int| 0 <= s < counts@.len() implies (#[trigger] counts@[s]) == how_many(
            set,
            touching(world, reg, set, s, t),
        ) by {
            lemma_tally_whole(scan@, touching(world, reg, set, s, t));
        }
    }
    counts
}

fn count_placements(n: usize, size: usize) -> (r: usize)
    ensures
        r == placements(n as nat, size as nat),
        r <= n,
        r > 0 <==> n > 0,
{
    let f: usize = if size > 1 {
        size
    } else {
        1
    };
    let q: usize = n / f;
    proof {
        lemma_placements(n as int, f as int);
    }
    if n % f == 0 {
        q
    } else {
        q + 1
    }
}

proof fn lemma_placements(n: int, f: int)
    requires
        n >= 0,
        f >= 1,
    ensures
        n % f == 0 ==> (n + f - 1) / f == n / f,
        n % f != 0 ==> (n + f - 1) / f == n / f + 1,
        (n + f - 1) / f <= n,
        (n + f - 1) / f > 0 <==> n > 0,
        n % f != 0 ==> n / f + 1 <= n,
        n / f <= n,
{
    let q = n / f;
    let r = n % f;
    assert(n == f * q + r && 0 <= r < f) by (nonlinear_arith)
        requires
            f >= 1,
            q == n / f,
            r == n % f,
    ;
    if r == 0 {
        assert((n + f - 1) / f == q) by (nonlinear_arith)
            requires
                n == f * q,
                f >= 1,
        ;
    } else {
        assert((n + f - 1) / f == q + 1) by (nonlinear_arith)
            requires
                n == f * q + r,
                1 <= r < f,
        ;
    }
    assert(q >= 0 && q <= f * q) by (nonlinear_arith)
        requires
            n == f * q + r,
            0 <= r < f,
            n >= 0,
            f >= 1,
    ;
    if n == 0 {
        assert(q == 0);
    } else if r == 0 {
        assert(q > 0) by (nonlinear_arith)
            requires
                n == f * q,
                n > 0,
                f >= 1,
        ;
    }
}

fn sum_tag(
    tag: &String,
    counts: &Vec<usize>,
    reg: &BlockRegistry,
    world: &BlockWorld,
    Ghost(scan): Ghost<Set<IVec3>>,
) -> (r: u128)
    requires
        counts@.len() == reg.defs@.len(),
        reg.defs@.len() <= 0x1_0000,
        forall|s: int|
            0 <= s < counts@.len() ==> (#[trigger] counts@[s]) == how_many(scan, of_slot(world, s)),
    ensures
        r == tag_total(world, reg, scan, tag@, reg.defs@.len() as int),
{
    let mut total: u128 = 0;
    let mut s: usize = 1;
    while s < counts.len()
        invariant
            counts@.len() == reg.defs@.len(),
            reg.defs@.len() <= 0x1_0000,
            forall|s: int|
                0 <= s < counts@.len() ==> (#[trigger] counts@[s]) == how_many(
                    scan,
                    of_slot(world, s),
                ),
            1 <= s,
            s <= counts@.len() || s == 1,
            total == tag_total(world, reg, scan, tag@, s as int),
            total <= s * 0x1_0000_0000_0000_0000,
        decreases counts@.len() - s,
    {
        if contains_text(&reg.defs[s].tags, tag) {
            let n: usize = count_placements(counts[s], reg.defs[s].footprint.len());
            total = total + n as u128;
        }
        s = s + 1;
    }
    total
}

fn sum_pair(
    a: &String,
    b: &String,
    touch: &Vec<usize>,
    reg: &BlockRegistry,
    world: &BlockWorld,
    Ghost(scan): Ghost<Set<IVec3>>,
) -> (r: u128)
    requires
        touch@.len() == reg.defs@.len(),
        reg.defs@.len() <= 0x1_0000,
        forall|s: int|
            0 <= s < touch@.len() ==> (#[trigger] touch@[s]) == how_many(
                scan,
                touching(world, reg, scan, s, b@),
            ),
    ensures
        r == pair_total(world, reg, scan, a@, b@, reg.defs@.len() as int),
{
    let mut total: u128 = 0;
    let mut s: usize = 1;
    while s < touch.len()
        invariant
            touch@.len() == reg.defs@.len(),
            reg.defs@.len() <= 0x1_0000,
            forall|s: int|
                0 <= s < touch@.len() ==> (#[trigger] touch@[s]) == how_many(
                    scan,
                    touching(world, reg, scan, s, b@),
                ),
            1 <= s,
            s <= touch@.len() || s == 1,
            total == pair_total(world, reg, scan, a@, b@, s as int),
            total <= s * 0x1_0000_0000_0000_0000,
        decreases touch@.len() - s,
    {
        if contains_text(&reg.defs[s].tags, a) {
            let n: usize = count_placements(touch[s], reg.defs[s].footprint.len());
            total = total + n as u128;
        }
        s = s + 1;
    }
    total
}

fn clamp_count(n: u128) -> (r: u32)
    ensures
        r == min_of(n as int, u32::MAX as int),
{
    if n < u32::MAX as u128 {
        n as u32
    } else {
        u32::MAX
    }
}

spec fn slot_present(
    world: &BlockWorld,
    reg: &BlockRegistry,
    scan: Set<IVec3>,
    s: int,
    t: Seq<char>,
) -> bool {
    has_text(reg.defs@[s].tags@, t) && how_many(scan, of_slot(world, s)) > 0
}

proof fn lemma_tag_total_positive(
    world: &BlockWorld,
    reg: &BlockRegistry,
    scan: Set<IVec3>,
    t: Seq<char>,
    upto: int,
)
    ensures
        tag_total(world, reg, scan, t, upto) > 0 <==> exists|s: int|
            1 <= s < upto && slot_present(world, reg, scan, s, t),
    decreases upto,
{
    if upto > 1 {
        lemma_tag_total_positive(world, reg, scan, t, upto - 1);
        let n = how_many(scan, of_slot(world, upto - 1)) as int;
        let f = max_of(reg.defs@[upto - 1].footprint@.len() as int, 1);
        lemma_placements(n, f);
        if tag_total(world, reg, scan, t, upto - 1) > 0 {
            let s = choose|s: int| 1 <= s < upto - 1 && slot_present(world, reg, scan, s, t);
            assert(slot_present(world, reg, scan, s, t));
        } else if tag_total(world, reg, scan, t, upto) > 0 {
            assert(slot_present(world, reg, scan, upto - 1, t));
        }
        if exists|s: int| 1 <= s < upto && slot_present(world, reg, scan, s, t) {
            let s = choose|s: int| 1 <= s < upto && slot_present(world, reg, scan, s, t);
            if s < upto - 1 {
                assert(slot_present(world, reg, scan, s, t));
            }
        }
    }
}

proof fn lemma_pair_total_positive(
    world: &BlockWorld,
    reg: &BlockRegistry,
    scan: Set<IVec3>,
    a: Seq<char>,
    b: Seq<char>,
    upto: int,
) -> (s: int)
    requires
        pair_total(world, reg, scan, a, b, upto) > 0,
    ensures
        1 <= s < upto,
        has_text(reg.defs@[s].tags@, a),
        how_many(scan, touching(world, reg, scan, s, b)) > 0,
    decreases upto,
{
    let n = how_many(scan, touching(world, reg, scan, upto - 1, b)) as int;
    let f = max_of(reg.defs@[upto - 1].footprint@.len() as int, 1);
    lemma_placements(n, f);
    if pair_total(world, reg, scan, a, b, upto - 1) > 0 {
        lemma_pair_total_positive(world, reg, scan, a, b, upto - 1)
    } else {
        upto - 1
    }
}

/// Tags that touch each other are both present.
proof fn lemma_pair_tags_present(
    world: &BlockWorld,
    reg: &BlockRegistry,
    scan: Set<IVec3>,
    a: Seq<char>,
    b: Seq<char>,
)
    requires
        world.covered_by(reg),
        scan.finite(),
        pair_total(world, reg, scan, a, b, reg.defs@.len() as int) > 0,
    ensures
        tag_total(world, reg, scan, a, reg.defs@.len() as int) > 0,
        tag_total(world, reg, scan, b, reg.defs@.len() as int) > 0,
{
    let n = reg.defs@.len() as int;
    let s = lemma_pair_total_positive(world, reg, scan, a, b, n);
    let f = touching(world, reg, scan, s, b);
    let hits = scan.filter(f);
    assert(hits.len() > 0);
    let c = hits.choose();
    assert(hits.contains(c)) by {
        if hits =~= Set::empty() {
            assert(false);
        }
    }
    assert(f(c));
    assert(next_to(world, reg, scan, b, c));
    let d = choose|d: int|
        0 <= d < 4 && scan.contains(#[trigger] neighbour(c, d)) && tagged(
            world,
            reg,
            b,
            neighbour(c, d),
        );
    let m = neighbour(c, d);
    let sb = world.slot(m).0 as int;
    assert(reg.knows(world.slot(m)));
    lemma_some(scan, of_slot(world, s), c);
    lemma_some(scan, of_slot(world, sb), m);
    assert(slot_present(world, reg, scan, s, a));
    assert(slot_present(world, reg, scan, sb, b));
    lemma_tag_total_positive(world, reg, scan, a, n);
    lemma_tag_total_positive(world, reg, scan, b, n);
}

proof fn lemma_some(scan: Set<IVec3>, f: spec_fn(IVec3) -> bool, c: IVec3)
    requires
        scan.finite(),
        scan.contains(c),
        f(c),
    ensures
        how_many(scan, f) > 0,
{
    assert(scan.filter(f).contains(c));
    assert(scan.filter(f).finite());
    if scan.filter(f).len() == 0 {
        assert(scan.filter(f) =~= Set::empty());
    }
}

/// The tags of every slot that occurs, in text order.
fn present_tags(
    counts: &Vec<usize>,
    reg: &BlockRegistry,
    world: &BlockWorld,
    Ghost(scan): Ghost<Set<IVec3>>,
) -> (tags: Vec<String>)
    requires
        counts@.len() == reg.defs@.len(),
        forall|s: int|
            0 <= s < counts@.len() ==> (#[trigger] counts@[s]) == how_many(scan, of_slot(world, s)),
    ensures
        texts_sorted(tags@),
        forall|t: Seq<char>| #[trigger]
            has_text(tags@, t) <==> tag_total(world, reg, scan, t, reg.defs@.len() as int) > 0,
{
    let mut tags: Vec<String> = Vec::new();
    let mut s: usize = 1;
    while s < counts.len()
        invariant
            counts@.len() == reg.defs@.len(),
            forall|s: int|
                0 <= s < counts@.len() ==> (#[trigger] counts@[s]) == how_many(
                    scan,
                    of_slot(world, s),
                ),
            1 <= s,
            s <= counts@.len() || s == 1,
            texts_sorted(tags@),
            forall|t: Seq<char>| #[trigger]
                has_text(tags@, t) <==> exists|k: int|
                    1 <= k < s && slot_present(world, reg, scan, k, t),
        decreases counts@.len() - s,
    {
        if counts[s] > 0 {
            let ghost tags0 = tags@;
            let list: &Vec<String> = &reg.defs[s].tags;
            let mut i: usize = 0;
            while i < list.len()
                invariant
                    i <= list@.len(),
                    texts_sorted(tags@),
                    forall|t: Seq<char>| #[trigger]
                        has_text(tags@, t) <==> has_text(tags0, t) || has_text(
                            list@.take(i as int),
                            t,
                        ),
                decreases list@.len() - i,
            {
                insert_sorted(&mut tags, &list[i]);
                assert forall|t: Seq<char>|
                    #![trigger has_text(list@.take(i + 1), t)]
                    #![trigger has_text(list@.take(i as int), t)]
                    has_text(list@.take(i + 1), t) <==> (has_text(list@.take(i as int), t) || t
                        == list@[i as int]@) by {
                    let p = list@.take(i as int);
                    let q = list@.take(i + 1);
                    if has_text(p, t) {
                        let k = choose|k: int| 0 <= k < p.len() && (#[trigger] p[k])@ == t;
                        assert(q[k]@ == t);
                    }
                    if has_text(q, t) {
                        let k = choose|k: int| 0 <= k < q.len() && (#[trigger] q[k])@ == t;
                        if k < i {
                            assert(p[k]@ == t);
                        }
                    }
                    assert(q[i as int] == list@[i as int]);
                }
                i = i + 1;
            }
            assert(list@.take(list@.len() as int) =~= list@);
            assert forall|t: Seq<char>| #[trigger] has_text(tags@, t) <==> exists|k: int|
                1 <= k < s + 1 && slot_present(world, reg, scan, k, t) by {
                if has_text(list@, t) {
                    assert(slot_present(world, reg, scan, s as int, t));
                }
                if has_text(tags0, t) {
                    let k = choose|k: int| 1 <= k < s && slot_present(world, reg, scan, k, t);
                    assert(slot_present(world, reg, scan, k, t));
                }
                if exists|k: int| 1 <= k < s + 1 && slot_present(world, reg, scan, k, t) {
                    let k = choose|k: int| 1 <= k < s + 1 && slot_present(world, reg, scan, k, t);
                    if k < s {
                        assert(has_text(tags0, t));
                    } else {
                        assert(has_text(list@, t));
                    }
                }
            }
        } else {
            assert forall|t: Seq<char>| #[trigger] has_text(tags@, t) <==> exists|k: int|
                1 <= k < s + 1 && slot_present(world, reg, scan, k, t) by {
                if has_text(tags@, t) {
                    let k = choose|k: int| 1 <= k < s && slot_present(world, reg, scan, k, t);
                    assert(slot_present(world, reg, scan, k, t));
                }
                if exists|k: int| 1 <= k < s + 1 && slot_present(world, reg, scan, k, t) {
                    let k = choose|k: int| 1 <= k < s + 1 && slot_present(world, reg, scan, k, t);
                    assert(k < s);
                }
            }
        }
        s = s + 1;
    }
    proof {
        assert forall|t: Seq<char>| #[trigger] has_text(tags@, t) <==> tag_total(
            world,
            reg,
            scan,
            t,
            reg.defs@.len() as int,
        ) > 0 by {
            lemma_tag_total_positive(world, reg, scan, t, reg.defs@.len() as int);
            if has_text(tags@, t) {
                let k = choose|k: int| 1 <= k < s && slot_present(world, reg, scan, k, t);
                assert(slot_present(world, reg, scan, k, t));
            }
        }
    }
    tags
}

/// Counts the tags of the scanned cells, and the pairs of tags that touch.
pub fn count_tags(scan: &Vec<IVec3>, world: &BlockWorld, reg: &BlockRegistry) -> (r: (
    Vec<TagCount>,
    Vec<AdjacentPairCount>,
))
    requires
        world.covered_by(reg),
        reg.defs@.len() <= 0x1_0000,
        scan@.no_duplicates(),
        forall|k: int|
            0 <= k < scan@.len() ==> crate::cells::clear_of_limits(#[trigger] scan@[k], 1),
    ensures
        lists_tags(world, reg, scan@.to_set(), r.0@),
        lists_pairs(world, reg, scan@.to_set(), r.1@),
{
    let ghost set = scan@.to_set();
    let ghost n = reg.defs@.len() as int;
    let counts: Vec<usize> = count_slots(scan, world, reg);
    let tags: Vec<String> = present_tags(&counts, reg, world, Ghost(set));
    let mut totals: Vec<TagCount> = Vec::new();
    let mut i: usize = 0;
    while i < tags.len()
        invariant
            n == reg.defs@.len(),
            reg.defs@.len() <= 0x1_0000,
            counts@.len() == reg.defs@.len(),
            forall|s: int|
                0 <= s < counts@.len() ==> (#[trigger] counts@[s]) == how_many(
                    set,
                    of_slot(world, s),
                ),
            i <= tags@.len(),
            totals@.len() == i,
            forall|k: int|
                0 <= k < i ==> (#[trigger] totals@[k]).tag@ == tags@[k]@ && totals@[k].count
                    == min_of(tag_total(world, reg, set, tags@[k]@, n) as int, u32::MAX as int),
        decreases tags@.len() - i,
    {
        let total: u128 = sum_tag(&tags[i], &counts, reg, world, Ghost(set));
        totals.push(TagCount { tag: tags[i].clone(), count: clamp_count(total) });
        i = i + 1;
    }
    assert(lists_tags(world, reg, set, totals@)) by {
        assert forall|k: int| 0 <= k < totals@.len() implies tag_total(
            world,
            reg,
            set,
            (#[trigger] totals@[k]).tag@,
            n,
        ) > 0 by {
            assert(tags@[k]@ == totals@[k].tag@);
            assert(has_text(tags@, tags@[k]@));
        }
        assert forall|a: int, b: int| 0 <= a < b < totals@.len() implies text_before(
            totals@[a].tag@,
            totals@[b].tag@,
        ) by {
            assert(text_before(tags@[a]@, tags@[b]@));
        }
        assert forall|t: Seq<char>| #[trigger] tag_total(world, reg, set, t, n) > 0 implies exists|
            k: int,
        | 0 <= k < totals@.len() && (#[trigger] totals@[k]).tag@ == t by {
            assert(has_text(tags@, t));
            let k = choose|k: int| 0 <= k < tags@.len() && (#[trigger] tags@[k])@ == t;
            assert(totals@[k].tag@ == t);
        }
    }
    let mut scan_map: CellMap<()> = CellMap::new();
    let mut k: usize = 0;
    while k < scan.len()
        invariant
            k <= scan@.len(),
            forall|c: IVec3| #[trigger]
                scan_map@.contains_key(c) <==> exists|j: int| 0 <= j < k && #[trigger] scan@[j] == c,
        decreases scan@.len() - k,
    {
        let _ = scan_map.insert(scan[k], ());
        k = k + 1;
    }
    assert(scan_map@.dom() =~= set) by {
        assert forall|c: IVec3| scan_map@.dom().contains(c) <==> set.contains(c) by {
            assert(scan_map@.contains_key(c) <==> exists|j: int|
                0 <= j < scan@.len() && #[trigger] scan@[j] == c);
        }
    }
    let mut touch: Vec<Vec<usize>> = Vec::new();
    let mut j: usize = 0;
    while j < tags.len()
        invariant
            world.covered_by(reg),
            set == scan@.to_set(),
            scan_map@.dom() == set,
            scan@.no_duplicates(),
            forall|k: int|
                0 <= k < scan@.len() ==> crate::cells::clear_of_limits(#[trigger] scan@[k], 1),
            j <= tags@.len(),
            touch@.len() == j,
            forall|q: int|
                0 <= q < j ==> (#[trigger] touch@[q])@.len() == reg.defs@.len() && forall|s: int|
                    0 <= s < reg.defs@.len() ==> (#[trigger] touch@[q]@[s]) == how_many(
                        set,
                        touching(world, reg, set, s, tags@[q]@),
                    ),
        decreases tags@.len() - j,
    {
        let counted: Vec<usize> = count_touching(&tags[j], scan, &scan_map, world, reg);
        touch.push(counted);
        j = j + 1;
    }
    let mut pairs: Vec<AdjacentPairCount> = Vec::new();
    let mut x: usize = 0;
    while x < tags.len()
        invariant
            n == reg.defs@.len(),
            reg.defs@.len() <= 0x1_0000,
            texts_sorted(tags@),
            touch@.len() == tags@.len(),
            forall|q: int|
                0 <= q < tags@.len() ==> (#[trigger] touch@[q])@.len() == reg.defs@.len() && forall|
                    s: int,
                |
                    0 <= s < reg.defs@.len() ==> (#[trigger] touch@[q]@[s]) == how_many(
                        set,
                        touching(world, reg, set, s, tags@[q]@),
                    ),
            x <= tags@.len(),
            pairs_upto(world, reg, set, tags@, pairs@, x as int, 0),
        decreases tags@.len() - x,
    {
        let mut y: usize = 0;
        while y < tags.len()
            invariant
                n == reg.defs@.len(),
                reg.defs@.len() <= 0x1_0000,
                texts_sorted(tags@),
                touch@.len() == tags@.len(),
                forall|q: int|
                    0 <= q < tags@.len() ==> (#[trigger] touch@[q])@.len() == reg.defs@.len()
                        && forall|s: int|
                        0 <= s < reg.defs@.len() ==> (#[trigger] touch@[q]@[s]) == how_many(
                            set,
                            touching(world, reg, set, s, tags@[q]@),
                        ),
                x < tags@.len(),
                y <= tags@.len(),
                pairs_upto(world, reg, set, tags@, pairs@, x as int, y as int),
            decreases tags@.len() - y,
        {
            let total: u128 = sum_pair(&tags[x], &tags[y], &touch[y], reg, world, Ghost(set));
            let ghost pairs0 = pairs@;
            if total > 0 {
                pairs.push(
                    AdjacentPairCount {
                        a: tags[x].clone(),
                        b: tags[y].clone(),
                        count: clamp_count(total),
                    },
                );
            }
            proof {
                if total > 0 {
                    assert(pairs@.drop_last() =~= pairs0);
                }
                lemma_pairs_step(
                    world,
                    reg,
                    set,
                    tags@,
                    pairs0,
                    pairs@,
                    x as int,
                    y as int,
                    total as nat,
                );
            }
            y = y + 1;
        }
        proof {
            lemma_pairs_row(world, reg, set, tags@, pairs@, x as int);
        }
        x = x + 1;
    }
    proof {
        assert forall|a: Seq<char>, b: Seq<char>| #[trigger]
            pair_total(world, reg, set, a, b, n) > 0 implies exists|i: int|
            0 <= i < pairs@.len() && (#[trigger] pairs@[i]).a@ == a && pairs@[i].b@ == b by {
            lemma_pair_tags_present(world, reg, set, a, b);
            assert(has_text(tags@, a));
            assert(has_text(tags@, b));
            let p = choose|p: int| 0 <= p < tags@.len() && (#[trigger] tags@[p])@ == a;
            let q = choose|q: int| 0 <= q < tags@.len() && (#[trigger] tags@[q])@ == b;
            assert(pair_at(world, reg, set, tags@, p, q) > 0);
        }
    }
    (totals, pairs)
}

spec fn pair_at(
    world: &BlockWorld,
    reg: &BlockRegistry,
    scan: Set<IVec3>,
    tags: Seq<String>,
    p: int,
    q: int,
) -> nat {
    pair_total(world, reg, scan, tags[p]@, tags[q]@, reg.defs@.len() as int)
}

/// `(p, q)` comes before `(x, y)` in row order.
spec fn earlier(p: int, q: int, x: int, y: int) -> bool {
    p < x || (p == x && q < y)
}

spec fn pairs_upto(
    world: &BlockWorld,
    reg: &BlockRegistry,
    scan: Set<IVec3>,
    tags: Seq<String>,
    pairs: Seq<AdjacentPairCount>,
    x: int,
    y: int,
) -> bool {
    let n = reg.defs@.len() as int;
    &&& forall|i: int|
        0 <= i < pairs.len() ==> {
            let e = #[trigger] pairs[i];
            &&& pair_total(world, reg, scan, e.a@, e.b@, n) > 0
            &&& e.count == min_of(
                pair_total(world, reg, scan, e.a@, e.b@, n) as int,
                u32::MAX as int,
            )
            &&& exists|p: int, q: int|
                #![trigger tags[p], tags[q]]
                0 <= p < tags.len() && 0 <= q < tags.len() && earlier(p, q, x, y) && tags[p]@ == e.a@
                    && tags[q]@ == e.b@
        }
    &&& forall|i: int, j: int|
        #![trigger pairs[i], pairs[j]]
        0 <= i < j < pairs.len() ==> text_before(pairs[i].a@, pairs[j].a@) || (pairs[i].a@
            == pairs[j].a@ && text_before(pairs[i].b@, pairs[j].b@))
    &&& forall|p: int, q: int|
        0 <= p < tags.len() && 0 <= q < tags.len() && earlier(p, q, x, y) && #[trigger] pair_at(
            world,
            reg,
            scan,
            tags,
            p,
            q,
        ) > 0 ==> exists|i: int|
            0 <= i < pairs.len() && (#[trigger] pairs[i]).a@ == tags[p]@ && pairs[i].b@ == tags[q]@
}

proof fn lemma_pairs_step(
    world: &BlockWorld,
    reg: &BlockRegistry,
    scan: Set<IVec3>,
    tags: Seq<String>,
    before: Seq<AdjacentPairCount>,
    after: Seq<AdjacentPairCount>,
    x: int,
    y: int,
    total: nat,
)
    requires
        texts_sorted(tags),
        0 <= x < tags.len(),
        0 <= y < tags.len(),
        pairs_upto(world, reg, scan, tags, before, x, y),
        total == pair_at(world, reg, scan, tags, x, y),
        total == 0 ==> after == before,
        total > 0 ==> {
            &&& after.len() == before.len() + 1
            &&& after.drop_last() == before
            &&& after.last().a@ == tags[x]@
            &&& after.last().b@ == tags[y]@
            &&& after.last().count == min_of(total as int, u32::MAX as int)
        },
    ensures
        pairs_upto(world, reg, scan, tags, after, x, y + 1),
{
    let n = reg.defs@.len() as int;
    assert forall|i: int| 0 <= i < before.len() implies after[i] == before[i] by {
        if total > 0 {
            assert(after.drop_last()[i] == after[i]);
        }
    }
    assert forall|i: int| 0 <= i < after.len() implies {
        let e = #[trigger] after[i];
        &&& pair_total(world, reg, scan, e.a@, e.b@, n) > 0
        &&& e.count == min_of(
            pair_total(world, reg, scan, e.a@, e.b@, n) as int,
            u32::MAX as int,
        )
        &&& exists|p: int, q: int|
            #![trigger tags[p], tags[q]]
            0 <= p < tags.len() && 0 <= q < tags.len() && earlier(p, q, x, y + 1) && tags[p]@
                == e.a@ && tags[q]@ == e.b@
    } by {
        if i < before.len() {
            let e = before[i];
            assert(after[i] == e);
            let (p, q) = choose|p: int, q: int|
                #![trigger tags[p], tags[q]]
                0 <= p < tags.len() && 0 <= q < tags.len() && earlier(p, q, x, y) && tags[p]@
                    == e.a@ && tags[q]@ == e.b@;
            assert(earlier(p, q, x, y + 1) && tags[p]@ == e.a@ && tags[q]@ == e.b@);
        } else {
            assert(earlier(x, y, x, y + 1));
            assert(tags[x]@ == after[i].a@ && tags[y]@ == after[i].b@);
        }
    }
    assert forall|i: int, j: int|
        #![trigger after[i], after[j]]
        0 <= i < j < after.len() implies text_before(after[i].a@, after[j].a@) || (after[i].a@
        == after[j].a@ && text_before(after[i].b@, after[j].b@)) by {
        if j < before.len() {
            assert(after[i] == before[i] && after[j] == before[j]);
        } else {
            let e = before[i];
            assert(after[i] == e);
            let (p, q) = choose|p: int, q: int|
                #![trigger tags[p], tags[q]]
                0 <= p < tags.len() && 0 <= q < tags.len() && earlier(p, q, x, y) && tags[p]@
                    == e.a@ && tags[q]@ == e.b@;
            if p < x {
                assert(text_before(tags[p]@, tags[x]@));
            } else {
                assert(text_before(tags[q]@, tags[y]@));
            }
        }
    }
    assert forall|p: int, q: int|
        0 <= p < tags.len() && 0 <= q < tags.len() && earlier(p, q, x, y + 1) && #[trigger] pair_at(
            world,
            reg,
            scan,
            tags,
            p,
            q,
        ) > 0 implies exists|i: int|
        0 <= i < after.len() && (#[trigger] after[i]).a@ == tags[p]@ && after[i].b@ == tags[q]@ by {
        if earlier(p, q, x, y) {
            let i = choose|i: int|
                0 <= i < before.len() && (#[trigger] before[i]).a@ == tags[p]@ && before[i].b@
                    == tags[q]@;
            assert(after[i] == before[i]);
        } else {
            assert(p == x && q == y);
            assert(after[after.len() - 1].a@ == tags[p]@);
        }
    }
}

proof fn lemma_pairs_row(
    world: &BlockWorld,
    reg: &BlockRegistry,
    scan: Set<IVec3>,
    tags: Seq<String>,
    pairs: Seq<AdjacentPairCount>,
    x: int,
)
    requires
        0 <= x < tags.len(),
        pairs_upto(world, reg, scan, tags, pairs, x, tags.len() as int),
    ensures
        pairs_upto(world, reg, scan, tags, pairs, x + 1, 0),
{
    let n = tags.len() as int;
    assert forall|i: int| 0 <= i < pairs.len() implies exists|p: int, q: int|
        #![trigger tags[p], tags[q]]
        0 <= p < tags.len() && 0 <= q < tags.len() && earlier(p, q, x + 1, 0) && tags[p]@ == (
        #[trigger] pairs[i]).a@ && tags[q]@ == pairs[i].b@ by {
        let e = pairs[i];
        let (p, q) = choose|p: int, q: int|
            #![trigger tags[p], tags[q]]
            0 <= p < tags.len() && 0 <= q < tags.len() && earlier(p, q, x, n) && tags[p]@ == e.a@
                && tags[q]@ == e.b@;
        assert(earlier(p, q, x + 1, 0) && tags[p]@ == e.a@ && tags[q]@ == e.b@);
    }
    assert forall|p: int, q: int|
        0 <= p < tags.len() && 0 <= q < tags.len() && earlier(p, q, x + 1, 0) && #[trigger] pair_at(
            world,
            reg,
            scan,
            tags,
            p,
            q,
        ) > 0 implies exists|i: int|
        0 <= i < pairs.len() && (#[trigger] pairs[i]).a@ == tags[p]@ && pairs[i].b@ == tags[q]@ by {
        assert(earlier(p, q, x, n));
    }
}

// ---------- what counts promise ----------

/// As many placements as it takes to cover the cells, if each covers `size` of
/// them, and one cell each where no size is given.
pub proof fn law_placements_cover_the_cells(n: nat, size: nat)
    ensures
        n == 0 ==> placements(n, size) == 0,
        size <= 1 ==> placements(n, size) == n,
        size > 0 && n > 0 ==> (placements(n, size) - 1) * size < n <= placements(n, size) * size,
{
    let f = max_of(size as int, 1);
    let q = (n + f - 1) / f;
    assert(f * q <= n + f - 1 < f * q + f && q >= 0) by (nonlinear_arith)
        requires
            f >= 1,
            n >= 0,
            q == (n + f - 1) / f,
    ;
    if n == 0 {
        assert(q == 0) by (nonlinear_arith)
            requires
                f * q <= f - 1,
                f >= 1,
                q >= 0,
        ;
    }
    if size <= 1 {
        assert(f == 1);
        assert(f * q == q) by (nonlinear_arith)
            requires
                f == 1,
        ;
    }
    if size > 0 && n > 0 {
        assert((q - 1) * size < n <= q * size) by (nonlinear_arith)
            requires
                f == size,
                f * q <= n + f - 1 < f * q + f,
        ;
    }
}

/// Which cells are looked through: those over a floor cell, or over a cell inside
/// the box of the floor that touches it, from the level of the floor up to the
/// top.
pub proof fn law_contents_lie_within(floor: Set<IVec3>, b: BBox, y: int, top: int, c: IVec3)
    requires
        i32::MIN <= y <= i32::MAX,
    ensures
        ({
            let foot = IVec3 { x: c.x, y: y as i32, z: c.z };
            let inside = b.min.x <= c.x <= b.max.x && b.min.z <= c.z <= b.max.z;
            &&& (y <= c.y <= y + top && floor.contains(foot)) ==> scan_set(floor, b, y, top).contains(c)
            &&& (y <= c.y <= y + top && inside && perimeter_of(floor).contains(foot)) ==> scan_set(
                floor,
                b,
                y,
                top,
            ).contains(c)
            &&& c.y < y || c.y > y + top ==> !scan_set(floor, b, y, top).contains(c)
            &&& !floor.contains(foot) && (!inside || !perimeter_of(floor).contains(foot))
                ==> !scan_set(floor, b, y, top).contains(c)
        }),
{
}

/// A tag carried by one kind of block alone counts the placements of that kind;
/// one carried by none counts nothing; and whatever else is registered, one more
/// kind adds its own placements exactly when it carries the tag.
pub proof fn law_tags_count_their_blocks(
    world: &BlockWorld,
    reg: &BlockRegistry,
    scan: Set<IVec3>,
    t: Seq<char>,
    s: int,
)
    requires
        1 <= s < reg.defs@.len(),
        forall|k: int|
            1 <= k < reg.defs@.len() && k != s ==> !has_text((#[trigger] reg.defs@[k]).tags@, t),
    ensures
        ({
            let n = reg.defs@.len() as int;
            let size = reg.defs@[s].footprint@.len();
            let cells = scan.filter(|c: IVec3| world.slot(c).0 == s).len();
            &&& has_text(reg.defs@[s].tags@, t) ==> tag_total(world, reg, scan, t, n) == placements(
                cells,
                size,
            )
            &&& !has_text(reg.defs@[s].tags@, t) ==> tag_total(world, reg, scan, t, n) == 0
        }),
{
    lemma_one_tagged(world, reg, scan, t, s, reg.defs@.len() as int);
    assert(scan.filter(of_slot(world, s)) =~= scan.filter(|c: IVec3| world.slot(c).0 == s));
}

proof fn lemma_one_tagged(
    world: &BlockWorld,
    reg: &BlockRegistry,
    scan: Set<IVec3>,
    t: Seq<char>,
    s: int,
    upto: int,
)
    requires
        1 <= s < reg.defs@.len(),
        upto <= reg.defs@.len(),
        forall|k: int|
            1 <= k < reg.defs@.len() && k != s ==> !has_text((#[trigger] reg.defs@[k]).tags@, t),
    ensures
        tag_total(world, reg, scan, t, upto) == (if upto > s && has_text(reg.defs@[s].tags@, t) {
            placements(how_many(scan, of_slot(world, s)), reg.defs@[s].footprint@.len())
        } else {
            0
        }),
    decreases upto,
{
    if upto > 1 {
        lemma_one_tagged(world, reg, scan, t, s, upto - 1);
        assert(upto - 1 != s ==> !has_text(reg.defs@[upto - 1].tags@, t));
    }
}

/// Two tags side by side count, where one kind of block alone carries the first,
/// the placements made of those of its cells that have the second on one of their
/// four sides, on the same layer and within what is looked through.
pub proof fn law_pairs_count_neighbours(
    world: &BlockWorld,
    reg: &BlockRegistry,
    scan: Set<IVec3>,
    a: Seq<char>,
    b: Seq<char>,
    s: int,
)
    requires
        1 <= s < reg.defs@.len(),
        has_text(reg.defs@[s].tags@, a),
        forall|k: int|
            1 <= k < reg.defs@.len() && k != s ==> !has_text((#[trigger] reg.defs@[k]).tags@, a),
        forall|c: IVec3| #[trigger] scan.contains(c) ==> crate::cells::clear_of_limits(c, 1),
    ensures
        ({
            let holds = |c: IVec3|
                scan.contains(c) && world.slot(c) != BlockSlot(0) && has_text(
                    reg.defs@[world.slot(c).0 as int].tags@,
                    b,
                );
            let cells = scan.filter(
                |c: IVec3|
                    world.slot(c).0 == s && (holds(IVec3 { x: (c.x + 1) as i32, ..c }) || holds(
                        IVec3 { x: (c.x - 1) as i32, ..c },
                    ) || holds(IVec3 { z: (c.z + 1) as i32, ..c }) || holds(
                        IVec3 { z: (c.z - 1) as i32, ..c },
                    )),
            ).len();
            pair_total(world, reg, scan, a, b, reg.defs@.len() as int) == placements(
                cells,
                reg.defs@[s].footprint@.len(),
            )
        }),
{
    let holds = |c: IVec3|
        scan.contains(c) && world.slot(c) != BlockSlot(0) && has_text(
            reg.defs@[world.slot(c).0 as int].tags@,
            b,
        );
    let near = |c: IVec3|
        world.slot(c).0 == s && (holds(IVec3 { x: (c.x + 1) as i32, ..c }) || holds(
            IVec3 { x: (c.x - 1) as i32, ..c },
        ) || holds(IVec3 { z: (c.z + 1) as i32, ..c }) || holds(IVec3 { z: (c.z - 1) as i32, ..c }));
    assert forall|c: IVec3| scan.contains(c) implies #[trigger] touching(world, reg, scan, s, b)(c)
        == near(c) by {
        assert(neighbour(c, 0) == (IVec3 { x: (c.x + 1) as i32, ..c }));
        assert(neighbour(c, 1) == (IVec3 { x: (c.x - 1) as i32, ..c }));
        assert(neighbour(c, 2) == (IVec3 { z: (c.z + 1) as i32, ..c }));
        assert(neighbour(c, 3) == (IVec3 { z: (c.z - 1) as i32, ..c }));
        if next_to(world, reg, scan, b, c) {
            let d = choose|d: int|
                0 <= d < 4 && scan.contains(#[trigger] neighbour(c, d)) && tagged(
                    world,
                    reg,
                    b,
                    neighbour(c, d),
                );
            assert(d == 0 || d == 1 || d == 2 || d == 3);
        }
    }
    assert(scan.filter(touching(world, reg, scan, s, b)) =~= scan.filter(near));
    lemma_one_paired(world, reg, scan, a, b, s, reg.defs@.len() as int);
}

proof fn lemma_one_paired(
    world: &BlockWorld,
    reg: &BlockRegistry,
    scan: Set<IVec3>,
    a: Seq<char>,
    b: Seq<char>,
    s: int,
    upto: int,
)
    requires
        1 <= s < reg.defs@.len(),
        upto <= reg.defs@.len(),
        has_text(reg.defs@[s].tags@, a),
        forall|k: int|
            1 <= k < reg.defs@.len() && k != s ==> !has_text((#[trigger] reg.defs@[k]).tags@, a),
    ensures
        pair_total(world, reg, scan, a, b, upto) == (if upto > s {
            placements(
                how_many(scan, touching(world, reg, scan, s, b)),
                reg.defs@[s].footprint@.len(),
            )
        } else {
            0
        }),
    decreases upto,
{
    if upto > 1 {
        lemma_one_paired(world, reg, scan, a, b, s, upto - 1);
        assert(upto - 1 != s ==> !has_text(reg.defs@[upto - 1].tags@, a));
    }
}

/// A signature lists a tag with the number of its placements exactly where there
/// are any, and no tag twice.
pub proof fn law_listed_tags_are_the_present_ones(
    world: &BlockWorld,
    reg: &BlockRegistry,
    scan: Set<IVec3>,
    list: Seq<TagCount>,
    t: Seq<char>,
    i: int,
    j: int,
)
    requires
        lists_tags(world, reg, scan, list),
        0 <= i < list.len(),
        0 <= j < list.len(),
    ensures
        list[i].tag@ == list[j].tag@ ==> i == j,
        list[i].tag@ == t && tag_total(world, reg, scan, t, reg.defs@.len() as int) <= u32::MAX
            ==> list[i].count == tag_total(world, reg, scan, t, reg.defs@.len() as int),
        tag_total(world, reg, scan, t, reg.defs@.len() as int) > 0 <==> exists|k: int|
            0 <= k < list.len() && (#[trigger] list[k]).tag@ == t,
{
    if i < j && list[i].tag@ == list[j].tag@ {
        crate::strings::lemma_text_irreflexive(list[i].tag@);
    }
    if j < i && list[i].tag@ == list[j].tag@ {
        crate::strings::lemma_text_irreflexive(list[i].tag@);
    }
}

} // verus!
