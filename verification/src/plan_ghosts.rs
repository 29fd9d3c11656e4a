//! The overlays that show plans in the world.

use crate::blocks::{turned, BlockSlot, Cardinal};
use crate::cells::{cell_before, fits_i32, IVec3};
use crate::ord_map::CellMap;
use crate::plans::drag::tight_box;
use crate::plans::Plans;
use crate::protocol::{satisfied, PlanKind, PlanState, PlanView};
use vstd::prelude::*;

verus! {

/// What one planned cell shows. Any difference calls for a new overlay.
#[derive(Clone, Copy, Debug, PartialEq, Eq, Structural)]
pub enum OverlayDesired {
    Build { slot: BlockSlot, orientation: Cardinal, satisfied: bool },
    RemoveHatch,
}

/// An overlay that exists, and what it shows.
#[derive(Clone, Copy, Debug, PartialEq, Eq, Structural)]
pub struct GhostEntry {
    pub entity: u64,
    pub desired: OverlayDesired,
}

/// The overlays that exist, by cell.
pub struct PlanGhostIndex {
    by_cell: CellMap<GhostEntry>,
}

impl View for PlanGhostIndex {
    type V = Map<IVec3, GhostEntry>;

    closed spec fn view(&self) -> Map<IVec3, GhostEntry> {
        self.by_cell@
    }
}

/// What a plan should show. A block that is not registered shows nothing.
pub open spec fn overlay_of(plan: PlanView, slot_count: int) -> Option<OverlayDesired> {
    match plan.kind {
        PlanKind::Build { slot, orientation } => if slot.0 < slot_count {
            Some(
                OverlayDesired::Build { slot, orientation, satisfied: satisfied(plan.materials) },
            )
        } else {
            None
        },
        PlanKind::Remove => Some(OverlayDesired::RemoveHatch),
    }
}

/// What a cell should show.
pub open spec fn wanted(plans: Map<IVec3, PlanView>, slot_count: int, cell: IVec3) -> Option<
    OverlayDesired,
> {
    if plans.contains_key(cell) {
        overlay_of(plans[cell], slot_count)
    } else {
        None
    }
}

/// The overlay of the cell shows what it should.
pub open spec fn up_to_date(
    index: Map<IVec3, GhostEntry>,
    plans: Map<IVec3, PlanView>,
    slot_count: int,
    cell: IVec3,
) -> bool {
    wanted(plans, slot_count, cell) == Some(index[cell].desired)
}

/// What is to be done about the overlays.
pub struct GhostChanges {
    /// Overlays to take away.
    pub despawn: Vec<u64>,
    /// Overlays to make, in cell order.
    pub spawn: Vec<(IVec3, OverlayDesired)>,
}

/// Overlays that are out of date, among the cells of a list.
pub open spec fn stale_entities(
    index: Map<IVec3, GhostEntry>,
    cells: Seq<IVec3>,
    plans: Map<IVec3, PlanView>,
    slot_count: int,
) -> Seq<u64>
    decreases cells.len(),
{
    if cells.len() == 0 {
        Seq::empty()
    } else {
        let rest = stale_entities(index, cells.drop_last(), plans, slot_count);
        if up_to_date(index, plans, slot_count, cells.last()) {
            rest
        } else {
            rest.push(index[cells.last()].entity)
        }
    }
}

/// What a plan should show.
pub fn overlay_for(plan: &PlanState, slot_count: usize) -> (r: Option<OverlayDesired>)
    ensures
        r == overlay_of(plan@, slot_count as int),
{
    match plan.kind {
        PlanKind::Build { slot, orientation } => {
            if (slot.0 as usize) < slot_count {
                Some(
                    OverlayDesired::Build { slot, orientation, satisfied: plan.is_satisfied() },
                )
            } else {
                None
            }
        },
        PlanKind::Remove => Some(OverlayDesired::RemoveHatch),
    }
}

fn wanted_at(plans: &Plans, slot_count: usize, cell: IVec3) -> (r: Option<OverlayDesired>)
    ensures
        r == wanted(plans@, slot_count as int, cell),
{
    match plans.get(cell) {
        Some(p) => overlay_for(p, slot_count),
        None => None,
    }
}

impl PlanGhostIndex {
    pub fn new() -> (r: PlanGhostIndex)
        ensures
            r@ == Map::<IVec3, GhostEntry>::empty(),
    {
        PlanGhostIndex { by_cell: CellMap::new() }
    }

    /// The cells with an overlay, ascending.
    pub closed spec fn cells(&self) -> Seq<IVec3> {
        self.by_cell.keys()
    }

    /// Forgets all overlays.
    pub fn reset(&mut self)
        ensures
            final(self)@ == Map::<IVec3, GhostEntry>::empty(),
    {
        self.by_cell = CellMap::new();
    }

    /// Notes an overlay that was made.
    pub fn record(&mut self, cell: IVec3, entity: u64, desired: OverlayDesired)
        ensures
            final(self)@ == old(self)@.insert(cell, GhostEntry { entity, desired }),
    {
        let _ = self.by_cell.insert(cell, GhostEntry { entity, desired });
    }

    /// Compares the overlays with the plans: drops what is out of date and
    /// says what to take away and what to make.
    pub fn sync(&mut self, plans: &Plans, slot_count: usize) -> (r: GhostChanges)
        ensures
            r.despawn@ == stale_entities(old(self)@, old(self).cells(), plans@, slot_count as int),
            forall|c: IVec3| #[trigger]
                old(self)@.contains_key(c) <==> old(self).cells().contains(c),
            forall|c: IVec3| #[trigger]
                final(self)@.contains_key(c) <==> old(self)@.contains_key(c) && up_to_date(
                    old(self)@,
                    plans@,
                    slot_count as int,
                    c,
                ),
            forall|c: IVec3| #[trigger]
                final(self)@.contains_key(c) ==> final(self)@[c] == old(self)@[c],
            forall|i: int, j: int|
                #![trigger r.spawn@[i], r.spawn@[j]]
                0 <= i < j < r.spawn@.len() ==> cell_before(r.spawn@[i].0, r.spawn@[j].0),
            forall|i: int|
                0 <= i < r.spawn@.len() ==> !final(self)@.contains_key((#[trigger] r.spawn@[i]).0)
                    && wanted(plans@, slot_count as int, r.spawn@[i].0) == Some(r.spawn@[i].1),
            forall|c: IVec3|
                (#[trigger] wanted(plans@, slot_count as int, c)) is Some
                    && !final(self)@.contains_key(c) ==> exists|i: int|
                    0 <= i < r.spawn@.len() && (#[trigger] r.spawn@[i]).0 == c,
    {
        let ghost sc = slot_count as int;
        let mut despawn: Vec<u64> = Vec::new();
        let mut kept: CellMap<GhostEntry> = CellMap::new();
        let n: usize = self.by_cell.len();
        let ghost keys = self.by_cell.keys();
        let mut i: usize = 0;
        assert(keys.take(0) =~= Seq::empty());
        while i < n
            invariant
                i <= n,
                n == keys.len(),
                keys == self.by_cell.keys(),
                sc == slot_count,
                *self == *old(self),
                forall|k: int| 0 <= k < n ==> self.by_cell@.contains_key(#[trigger] keys[k]),
                despawn@ == stale_entities(self@, keys.take(i as int), plans@, sc),
                forall|c: IVec3| #[trigger] kept@.contains_key(c) <==> exists|k: int|
                    0 <= k < i && #[trigger] keys[k] == c && up_to_date(self@, plans@, sc, c),
                forall|c: IVec3| #[trigger] kept@.contains_key(c) ==> kept@[c] == self@[c],
            decreases n - i,
        {
            let cell: IVec3 = self.by_cell.key_at(i);
            let entry: GhostEntry = *self.by_cell.value_at(i);
            assert(keys.take(i + 1).drop_last() =~= keys.take(i as int));
            let keep: bool = match wanted_at(plans, slot_count, cell) {
                Some(d) => d == entry.desired,
                None => false,
            };
            let ghost before = kept@;
            if keep {
                let _ = kept.insert(cell, entry);
            } else {
                despawn.push(entry.entity);
            }
            proof {
                assert forall|c: IVec3| #[trigger] kept@.contains_key(c) <==> exists|k: int|
                    0 <= k < i + 1 && #[trigger] keys[k] == c && up_to_date(self@, plans@, sc, c) by {
                    assert(before.contains_key(c) <==> exists|k: int|
                        0 <= k < i && #[trigger] keys[k] == c && up_to_date(self@, plans@, sc, c));
                    assert(keys[i as int] == cell);
                }
            }
            i = i + 1;
        }
        assert(keys.take(n as int) =~= keys);
        proof {
            assert forall|c: IVec3| #[trigger] self@.contains_key(c) <==> keys.contains(c) by {
                if keys.contains(c) {
                    let k = keys.index_of(c);
                    assert(self.by_cell@.contains_key(keys[k]));
                }
            }
            assert forall|c: IVec3| #[trigger] kept@.contains_key(c) <==> self@.contains_key(c)
                && up_to_date(self@, plans@, sc, c) by {
                if self@.contains_key(c) {
                    assert(keys.contains(c));
                    let k = keys.index_of(c);
                    assert(keys[k] == c);
                }
            }
        }
        self.by_cell = kept;
        let spawn: Vec<(IVec3, OverlayDesired)> = self.missing(plans, slot_count);
        GhostChanges { despawn, spawn }
    }

    /// The overlays that plans call for and that do not exist.
    fn missing(&self, plans: &Plans, slot_count: usize) -> (r: Vec<(IVec3, OverlayDesired)>)
        ensures
            forall|i: int, j: int|
                #![trigger r@[i], r@[j]]
                0 <= i < j < r@.len() ==> cell_before(r@[i].0, r@[j].0),
            forall|i: int|
                0 <= i < r@.len() ==> !self@.contains_key((#[trigger] r@[i]).0) && wanted(
                    plans@,
                    slot_count as int,
                    r@[i].0,
                ) == Some(r@[i].1),
            forall|c: IVec3|
                (#[trigger] wanted(plans@, slot_count as int, c)) is Some && !self@.contains_key(c)
                    ==> exists|i: int| 0 <= i < r@.len() && (#[trigger] r@[i]).0 == c,
    {
        let ghost sc = slot_count as int;
        let mut out: Vec<(IVec3, OverlayDesired)> = Vec::new();
        let n: usize = plans.len();
        let ghost cells = plans.cells();
        let mut i: usize = 0;
        while i < n
            invariant
                i <= n,
                n == cells.len(),
                cells == plans.cells(),
                sc == slot_count,
                forall|k: int| 0 <= k < n ==> plans@.contains_key(#[trigger] cells[k]),
                forall|j: int, k: int|
                    #![trigger cells[j], cells[k]]
                    0 <= j < k < n ==> cell_before(cells[j], cells[k]),
                forall|j: int, k: int|
                    #![trigger out@[j], out@[k]]
                    0 <= j < k < out@.len() ==> cell_before(out@[j].0, out@[k].0),
                forall|j: int|
                    0 <= j < out@.len() ==> !self@.contains_key((#[trigger] out@[j]).0) && wanted(
                        plans@,
                        sc,
                        out@[j].0,
                    ) == Some(out@[j].1) && came_from(cells, i as int, out@[j].0),
                forall|k: int|
                    0 <= k < i && wanted(plans@, sc, #[trigger] cells[k]) is Some
                        && !self@.contains_key(cells[k]) ==> exists|j: int|
                        0 <= j < out@.len() && (#[trigger] out@[j]).0 == cells[k],
            decreases n - i,
        {
            let cell: IVec3 = plans.cell_at(i);
            let ghost before = out@;
            if !self.by_cell.contains(cell) {
                if let Some(d) = overlay_for(plans.plan_at(i), slot_count) {
                    out.push((cell, d));
                    assert(out@[before.len() as int].0 == cells[i as int]);
                }
            }
            proof {
                assert(came_from(cells, i + 1, cell)) by {
                    assert(cells[i as int] == cell);
                }
                assert forall|j: int| 0 <= j < out@.len() implies came_from(
                    cells,
                    i + 1,
                    (#[trigger] out@[j]).0,
                ) by {
                    if j < before.len() {
                        assert(before[j] == out@[j]);
                        assert(came_from(cells, i as int, before[j].0));
                    }
                }
                assert forall|j: int, k: int|
                    #![trigger out@[j], out@[k]]
                    0 <= j < k < out@.len() implies cell_before(out@[j].0, out@[k].0) by {
                    if k == before.len() {
                        assert(before[j] == out@[j]);
                        assert(came_from(cells, i as int, before[j].0));
                    } else {
                        assert(before[j] == out@[j] && before[k] == out@[k]);
                    }
                }
                assert forall|k: int|
                    0 <= k < i + 1 && wanted(plans@, sc, #[trigger] cells[k]) is Some
                        && !self@.contains_key(cells[k]) implies exists|j: int|
                    0 <= j < out@.len() && (#[trigger] out@[j]).0 == cells[k] by {
                    if k < i {
                        let j = choose|j: int|
                            0 <= j < before.len() && (#[trigger] before[j]).0 == cells[k];
                        assert(out@[j].0 == cells[k]);
                    }
                }
            }
            i = i + 1;
        }
        proof {
            assert forall|c: IVec3|
                (#[trigger] wanted(plans@, sc, c)) is Some && !self@.contains_key(
                    c,
                ) implies exists|j: int| 0 <= j < out@.len() && (#[trigger] out@[j]).0 == c by {
                assert(plans@.contains_key(c));
                assert(cells.contains(c));
                let k = cells.index_of(c);
                assert(cells[k] == c);
            }
        }
        out
    }
}

/// The cell is among the first `n` of the list.
spec fn came_from(cells: Seq<IVec3>, n: int, c: IVec3) -> bool {
    exists|k: int| 0 <= k < n && #[trigger] cells[k] == c
}

/// The overlays with the ones to be made recorded.
pub open spec fn all_recorded(
    index: Map<IVec3, GhostEntry>,
    spawn: Seq<(IVec3, OverlayDesired)>,
    entities: Seq<u64>,
) -> Map<IVec3, GhostEntry>
    decreases spawn.len(),
{
    if spawn.len() == 0 {
        index
    } else {
        all_recorded(index, spawn.drop_last(), entities).insert(
            spawn.last().0,
            GhostEntry { entity: entities[spawn.len() - 1], desired: spawn.last().1 },
        )
    }
}

/// Once the overlays that a comparison asked for are made and recorded, every
/// cell shows exactly what its plan calls for.
pub proof fn law_overlays_match_plans(
    kept: Map<IVec3, GhostEntry>,
    spawn: Seq<(IVec3, OverlayDesired)>,
    entities: Seq<u64>,
    plans: Map<IVec3, PlanView>,
    slot_count: int,
    c: IVec3,
)
    requires
        forall|k: IVec3| #[trigger] kept.contains_key(k) ==> up_to_date(kept, plans, slot_count, k),
        forall|i: int|
            0 <= i < spawn.len() ==> wanted(plans, slot_count, (#[trigger] spawn[i]).0) == Some(
                spawn[i].1,
            ),
        (wanted(plans, slot_count, c) is Some && !kept.contains_key(c)) ==> exists|i: int|
            0 <= i < spawn.len() && (#[trigger] spawn[i]).0 == c,
    ensures
        ({
            let index = all_recorded(kept, spawn, entities);
            &&& index.contains_key(c) <==> wanted(plans, slot_count, c) is Some
            &&& index.contains_key(c) ==> up_to_date(index, plans, slot_count, c)
        }),
{
    lemma_recorded(kept, spawn, entities, plans, slot_count, c);
}

proof fn lemma_recorded(
    kept: Map<IVec3, GhostEntry>,
    spawn: Seq<(IVec3, OverlayDesired)>,
    entities: Seq<u64>,
    plans: Map<IVec3, PlanView>,
    slot_count: int,
    c: IVec3,
)
    requires
        forall|k: IVec3| #[trigger] kept.contains_key(k) ==> up_to_date(kept, plans, slot_count, k),
        forall|i: int|
            0 <= i < spawn.len() ==> wanted(plans, slot_count, (#[trigger] spawn[i]).0) == Some(
                spawn[i].1,
            ),
    ensures
        ({
            let index = all_recorded(kept, spawn, entities);
            &&& index.contains_key(c) <==> kept.contains_key(c) || exists|i: int|
                0 <= i < spawn.len() && (#[trigger] spawn[i]).0 == c
            &&& index.contains_key(c) ==> up_to_date(index, plans, slot_count, c)
        }),
    decreases spawn.len(),
{
    if spawn.len() > 0 {
        let rest = spawn.drop_last();
        assert forall|i: int| 0 <= i < rest.len() implies wanted(
            plans,
            slot_count,
            (#[trigger] rest[i]).0,
        ) == Some(rest[i].1) by {
            assert(spawn[i] == rest[i]);
        }
        lemma_recorded(kept, rest, entities, plans, slot_count, c);
        let n = spawn.len() - 1;
        assert(spawn[n] == spawn.last());
        if exists|i: int| 0 <= i < rest.len() && (#[trigger] rest[i]).0 == c {
            let i = choose|i: int| 0 <= i < rest.len() && (#[trigger] rest[i]).0 == c;
            assert(spawn[i].0 == c);
        }
        if exists|i: int| 0 <= i < spawn.len() && (#[trigger] spawn[i]).0 == c {
            let i = choose|i: int| 0 <= i < spawn.len() && (#[trigger] spawn[i]).0 == c;
            if i < n {
                assert(rest[i].0 == c);
            }
        }
    }
}

// ---------- the box of a ghost ----------

/// The cell of a block's footprint, turned with the block.
pub open spec fn footprint_cell(anchor: IVec3, off: IVec3, facing: Cardinal) -> IVec3 {
    let t = turned(facing, off);
    IVec3 { x: (anchor.x + t.0) as i32, y: (anchor.y + t.1) as i32, z: (anchor.z + t.2) as i32 }
}

/// The anchor and the cells of a footprint around it.
pub open spec fn ghost_cells(anchor: IVec3, footprint: Seq<IVec3>, facing: Cardinal) -> Seq<IVec3> {
    seq![anchor] + Seq::new(
        footprint.len(),
        |i: int| footprint_cell(anchor, footprint[i], facing),
    )
}

/// The footprint stays within the cells that have coordinates.
pub open spec fn footprint_fits(anchor: IVec3, footprint: Seq<IVec3>, facing: Cardinal) -> bool {
    forall|i: int|
        0 <= i < footprint.len() ==> {
            let off = #[trigger] footprint[i];
            let t = turned(facing, off);
            off.x > i32::MIN && off.z > i32::MIN && fits_i32(anchor.x + t.0) && fits_i32(
                anchor.y + t.1,
            ) && fits_i32(anchor.z + t.2)
        }
}

/// The box that the ghost of a block fills.
pub fn ghost_box(anchor: IVec3, footprint: &Vec<IVec3>, facing: Cardinal) -> (r: (IVec3, IVec3))
    requires
        footprint_fits(anchor, footprint@, facing),
    ensures
        tight_box(ghost_cells(anchor, footprint@, facing), r.0, r.1),
{
    let mut lo: IVec3 = anchor;
    let mut hi: IVec3 = anchor;
    let ghost all = ghost_cells(anchor, footprint@, facing);
    let mut i: usize = 0;
    assert(tight_box(all.take(1), lo, hi)) by {
        assert(all.take(1)[0] == anchor);
    }
    while i < footprint.len()
        invariant
            footprint_fits(anchor, footprint@, facing),
            all == ghost_cells(anchor, footprint@, facing),
            i <= footprint@.len(),
            tight_box(all.take(i + 1), lo, hi),
        decreases footprint@.len() - i,
    {
        let off: IVec3 = footprint[i];
        assert(off == footprint@[i as int]);
        let t: IVec3 = facing.rotate_offset(off);
        let cell: IVec3 = anchor.shift(t.x, t.y, t.z);
        assert(cell == all[i + 1]);
        let ghost (lo0, hi0) = (lo, hi);
        lo = lo.min(cell);
        hi = hi.max(cell);
        proof {
            assert(all.take(i + 2).drop_last() =~= all.take(i + 1));
            assert(all.take(i + 2).last() == cell);
            crate::plans::drag::lemma_box_grows(
                all.take(i + 1),
                all.take(i + 2),
                lo0,
                hi0,
                lo,
                hi,
            );
        }
        i = i + 1;
    }
    assert(all.take(all.len() as int) =~= all);
    (lo, hi)
}

/// A planned removal shows the hatch. A planned block shows itself, turned as
/// planned, if it is registered, and nothing else does; it shows as complete
/// exactly if no material is short of what is needed.
pub proof fn law_overlays_show_their_plan(plan: PlanView, slot_count: int)
    ensures
        plan.kind is Remove ==> overlay_of(plan, slot_count) is Some && overlay_of(
            plan,
            slot_count,
        )->0 is RemoveHatch,
        plan.kind is Build ==> (overlay_of(plan, slot_count) is Some <==> (plan.kind->slot).0
            < slot_count),
        plan.kind is Build && overlay_of(plan, slot_count) is Some ==> {
            let shown = overlay_of(plan, slot_count)->0;
            &&& shown is Build
            &&& shown->slot == plan.kind->slot
            &&& shown->orientation == plan.kind->orientation
            &&& !shown->satisfied <==> exists|i: int|
                0 <= i < plan.materials.len() && (#[trigger] plan.materials[i]).present
                    < plan.materials[i].needed
        },
{
    if plan.kind is Build && overlay_of(plan, slot_count) is Some && !(overlay_of(
        plan,
        slot_count,
    )->0)->satisfied {
        let i = choose|i: int|
            0 <= i < plan.materials.len() && (#[trigger] plan.materials[i]).present
                < plan.materials[i].needed;
    }
}

/// A cell without a plan shows nothing, whatever the plans elsewhere; a cell
/// with one shows what any other cell with the same plan would.
pub proof fn law_cells_show_their_own_plan(
    plans: Map<IVec3, PlanView>,
    slot_count: int,
    cell: IVec3,
    other: IVec3,
    elsewhere: PlanView,
)
    ensures
        !plans.contains_key(cell) ==> wanted(plans, slot_count, cell) is None,
        other != cell ==> wanted(plans.insert(other, elsewhere), slot_count, cell) == wanted(
            plans,
            slot_count,
            cell,
        ),
        wanted(plans.insert(cell, elsewhere), slot_count, cell) == wanted(
            plans.insert(other, elsewhere),
            slot_count,
            other,
        ),
        wanted(plans.remove(cell), slot_count, cell) is None,
{
}

/// An overlay is taken away exactly if its cell is to show something else now,
/// or nothing.
pub proof fn law_outdated_overlays_go(
    index: Map<IVec3, GhostEntry>,
    cells: Seq<IVec3>,
    plans: Map<IVec3, PlanView>,
    slot_count: int,
    entity: u64,
)
    ensures
        stale_entities(index, cells, plans, slot_count).contains(entity) <==> exists|i: int|
            0 <= i < cells.len() && index[#[trigger] cells[i]].entity == entity && (wanted(
                plans,
                slot_count,
                cells[i],
            ) is None || (wanted(plans, slot_count, cells[i])->0) != index[cells[i]].desired),
    decreases cells.len(),
{
    let all = stale_entities(index, cells, plans, slot_count);
    if cells.len() > 0 {
        let short = cells.drop_last();
        let rest = stale_entities(index, short, plans, slot_count);
        let n = cells.len() - 1;
        law_outdated_overlays_go(index, short, plans, slot_count, entity);
        let stale = |c: IVec3|
            index[c].entity == entity && (wanted(plans, slot_count, c) is None || (wanted(
                plans,
                slot_count,
                c,
            )->0) != index[c].desired);
        if rest.contains(entity) {
            let k = rest.index_of(entity);
            assert(all[k] == entity);
            let i = choose|i: int|
                0 <= i < short.len() && index[#[trigger] short[i]].entity == entity && (wanted(
                    plans,
                    slot_count,
                    short[i],
                ) is None || (wanted(plans, slot_count, short[i])->0) != index[short[i]].desired);
            assert(cells[i] == short[i]);
        }
        if stale(cells[n]) {
            assert(all[rest.len() as int] == entity);
        }
        if exists|i: int| 0 <= i < cells.len() && stale(#[trigger] cells[i]) {
            let i = choose|i: int| 0 <= i < cells.len() && stale(#[trigger] cells[i]);
            if i < n {
                assert(short[i] == cells[i]);
                assert(rest.contains(entity));
            }
        }
        if all.contains(entity) && !rest.contains(entity) {
            let k = all.index_of(entity);
            if k < rest.len() {
                assert(rest[k] == entity);
            }
            assert(stale(cells[n]));
        }
    }
}

/// The ghost of a block covers its anchor and each of its other cells, moved
/// with the anchor and turned with the block: unturned towards the east, and
/// by half a turn more on the opposite side of the anchor.
pub proof fn law_ghosts_cover_their_cells(
    anchor: IVec3,
    footprint: Seq<IVec3>,
    facing: Cardinal,
    i: int,
)
    requires
        0 <= i < footprint.len(),
        footprint_fits(anchor, footprint, facing),
    ensures
        ({
            let cells = ghost_cells(anchor, footprint, facing);
            let (off, c) = (footprint[i], cells[i + 1]);
            &&& cells.len() == footprint.len() + 1
            &&& cells[0] == anchor
            &&& c.y - anchor.y == off.y
            &&& facing is East ==> c.x - anchor.x == off.x && c.z - anchor.z == off.z
            &&& facing is West ==> anchor.x - c.x == off.x && anchor.z - c.z == off.z
            &&& facing is North ==> c.x - anchor.x == off.z && anchor.z - c.z == off.x
            &&& facing is South ==> anchor.x - c.x == off.z && c.z - anchor.z == off.x
        }),
{
    let off = footprint[i];
    assert(fits_i32(anchor.x + turned(facing, off).0));
}

} // verus!
