//! Blocks that grow back by themselves after a while.

use crate::blocks::{BlockRegistry, BlockSlot, BlockWorld};
use crate::cells::{in_box, shifted, IVec3};
use crate::ord_map::CellMap;
use crate::plans::drag::{high_corner, law_box_cells, low_corner, rect_cells_on_plane};
use crate::registry::lemma_position;
use vstd::prelude::*;

verus! {

/// When the block of a cell is due, in milliseconds.
pub struct RegrowSchedule {
    due: CellMap<u64>,
}

impl View for RegrowSchedule {
    type V = Map<IVec3, u64>;

    closed spec fn view(&self) -> Map<IVec3, u64> {
        self.due@
    }
}

/// A block that was put at a cell, or taken away.
#[derive(Clone, Copy, Debug, PartialEq, Eq, Structural)]
pub struct CellEdit {
    pub world: IVec3,
    pub slot: BlockSlot,
}

/// How long the block takes to turn into something else, if it does.
pub open spec fn regrow_delay(reg: &BlockRegistry, slot: BlockSlot) -> Option<u64> {
    if slot == BlockSlot(0) {
        None
    } else {
        match reg.spec_def(slot).regrow {
            Some(r) => Some(r.after_ms),
            None => None,
        }
    }
}

/// The schedule with a timer for the cell. A timer that runs is kept.
pub open spec fn armed(m: Map<IVec3, u64>, cell: IVec3, at: u64) -> Map<IVec3, u64> {
    if m.contains_key(cell) {
        m
    } else {
        m.insert(cell, at)
    }
}

/// The schedule after a block changed.
pub open spec fn after_edit(m: Map<IVec3, u64>, edit: CellEdit, reg: &BlockRegistry, now: u64)
    -> Map<IVec3, u64> {
    match regrow_delay(reg, edit.slot) {
        Some(d) => armed(m, edit.world, (now + d) as u64),
        None => m.remove(edit.world),
    }
}

/// The schedule after several changes, in order.
pub open spec fn after_edits(
    m: Map<IVec3, u64>,
    edits: Seq<CellEdit>,
    reg: &BlockRegistry,
    now: u64,
) -> Map<IVec3, u64>
    decreases edits.len(),
{
    if edits.len() == 0 {
        m
    } else {
        after_edit(after_edits(m, edits.drop_last(), reg, now), edits.last(), reg, now)
    }
}

/// Adding any delay to the time stays in range.
pub open spec fn time_fits(reg: &BlockRegistry, now: u64) -> bool {
    forall|k: int|
        0 <= k < reg.defs@.len() ==> ((#[trigger] reg.defs@[k]).regrow matches Some(r) ==> now
            + r.after_ms <= u64::MAX)
}

/// The corner cells of a chunk.
pub open spec fn chunk_low(coord: IVec3) -> IVec3 {
    IVec3 { x: (coord.x * 32) as i32, y: (coord.y * 32) as i32, z: (coord.z * 32) as i32 }
}

pub open spec fn chunk_high(coord: IVec3) -> IVec3 {
    shifted(chunk_low(coord), 31, 31, 31)
}

/// The chunk lies within the cells that have coordinates.
pub open spec fn chunk_exists(coord: IVec3) -> bool {
    &&& -0x400_0000 <= coord.x < 0x400_0000
    &&& -0x400_0000 <= coord.y < 0x400_0000
    &&& -0x400_0000 <= coord.z < 0x400_0000
}

/// The schedule after a chunk was looked through: each of its blocks that
/// grows back has a timer.
pub open spec fn scanned(
    m: Map<IVec3, u64>,
    coord: IVec3,
    world: &BlockWorld,
    reg: &BlockRegistry,
    now: u64,
) -> Map<IVec3, u64> {
    Map::new(
        |c: IVec3|
            m.contains_key(c) || (in_box(c, chunk_low(coord), chunk_high(coord)) && regrow_delay(
                reg,
                world.slot(c),
            ) is Some),
        |c: IVec3|
            if m.contains_key(c) {
                m[c]
            } else {
                (now + regrow_delay(reg, world.slot(c))->0) as u64
            },
    )
}

/// What the block at a cell turns into: nothing where there is no block, or
/// one that does not grow back, or into something unknown.
pub open spec fn regrow_target(cell: IVec3, world: &BlockWorld, reg: &BlockRegistry) -> Option<
    BlockSlot,
> {
    let slot = world.slot(cell);
    if slot == BlockSlot(0) {
        None
    } else {
        match reg.spec_def(slot).regrow {
            Some(r) => reg.find(r.into@),
            None => None,
        }
    }
}

fn delay_of(reg: &BlockRegistry, slot: BlockSlot) -> (r: Option<u64>)
    requires
        reg.knows(slot),
    ensures
        r == regrow_delay(reg, slot),
{
    if slot.0 == 0 {
        return None;
    }
    match &reg.def(slot).regrow {
        Some(r) => Some(r.after_ms),
        None => None,
    }
}

impl RegrowSchedule {
    pub fn new() -> (r: RegrowSchedule)
        ensures
            r@ == Map::<IVec3, u64>::empty(),
    {
        RegrowSchedule { due: CellMap::new() }
    }

    /// When the cell is due.
    pub fn due_at(&self, cell: IVec3) -> (r: Option<u64>)
        ensures
            r is Some <==> self@.contains_key(cell),
            r matches Some(at) ==> at == self@[cell],
    {
        match self.due.get(cell) {
            Some(at) => Some(*at),
            None => None,
        }
    }

    /// Starts a timer, unless one runs already.
    pub fn arm(&mut self, cell: IVec3, at: u64)
        ensures
            final(self)@ == armed(old(self)@, cell, at),
    {
        if !self.due.contains(cell) {
            let _ = self.due.insert(cell, at);
        }
    }

    /// Follows the changes of the world: blocks that grow back get a timer,
    /// all others lose theirs.
    pub fn arm_from_cell_edits(&mut self, edits: &Vec<CellEdit>, reg: &BlockRegistry, now: u64)
        requires
            time_fits(reg, now),
            forall|i: int| 0 <= i < edits@.len() ==> reg.knows((#[trigger] edits@[i]).slot),
        ensures
            final(self)@ == after_edits(old(self)@, edits@, reg, now),
    {
        let mut i: usize = 0;
        assert(edits@.take(0) =~= Seq::empty());
        while i < edits.len()
            invariant
                time_fits(reg, now),
                forall|k: int| 0 <= k < edits@.len() ==> reg.knows((#[trigger] edits@[k]).slot),
                i <= edits@.len(),
                self@ == after_edits(old(self)@, edits@.take(i as int), reg, now),
            decreases edits@.len() - i,
        {
            assert(edits@.take(i + 1).drop_last() =~= edits@.take(i as int));
            let edit: CellEdit = edits[i];
            assert(reg.knows(edit.slot));
            match delay_of(reg, edit.slot) {
                Some(d) => {
                    assert(reg.defs@[edit.slot.0 as int].regrow is Some);
                    self.arm(edit.world, now + d);
                },
                None => {
                    let _ = self.due.remove(edit.world);
                },
            }
            i = i + 1;
        }
        assert(edits@.take(edits@.len() as int) =~= edits@);
    }

    /// Looks through a chunk that was just loaded.
    pub fn scan_chunk(&mut self, coord: IVec3, world: &BlockWorld, reg: &BlockRegistry, now: u64)
        requires
            chunk_exists(coord),
            world.covered_by(reg),
            time_fits(reg, now),
        ensures
            final(self)@ == scanned(old(self)@, coord, world, reg, now),
    {
        let lo: IVec3 = IVec3::new(coord.x * 32, coord.y * 32, coord.z * 32);
        let hi: IVec3 = lo.shift(31, 31, 31);
        let cells: Vec<IVec3> = rect_cells_on_plane(lo, hi);
        proof {
            law_box_cells(lo, hi);
            assert(low_corner(lo, hi) == lo);
            assert(high_corner(lo, hi) == hi);
        }
        let mut i: usize = 0;
        while i < cells.len()
            invariant
                world.covered_by(reg),
                time_fits(reg, now),
                i <= cells@.len(),
                forall|c: IVec3| #[trigger]
                    self@.contains_key(c) <==> old(self)@.contains_key(c) || (cells@.take(
                        i as int,
                    ).contains(c) && regrow_delay(reg, world.slot(c)) is Some),
                forall|c: IVec3| #[trigger]
                    self@.contains_key(c) ==> self@[c] == if old(self)@.contains_key(c) {
                        old(self)@[c]
                    } else {
                        (now + regrow_delay(reg, world.slot(c))->0) as u64
                    },
            decreases cells@.len() - i,
        {
            let cell: IVec3 = cells[i];
            let ghost seen = cells@.take(i as int);
            let ghost more = cells@.take(i + 1);
            proof {
                assert(reg.knows(world.slot(cell)));
                assert forall|c: IVec3| #[trigger] more.contains(c) <==> seen.contains(c) || c
                    == cell by {
                    assert(more =~= seen.push(cell));
                    if seen.contains(c) {
                        let k = seen.index_of(c);
                        assert(more[k] == c);
                    }
                    assert(more[i as int] == cell);
                    if more.contains(c) && c != cell {
                        let k = more.index_of(c);
                        assert(seen[k] == c);
                    }
                }
            }
            if let Some(d) = delay_of(reg, world.get(cell)) {
                assert(reg.defs@[world.slot(cell).0 as int].regrow is Some);
                self.arm(cell, now + d);
            }
            i = i + 1;
        }
        assert(cells@.take(cells@.len() as int) =~= cells@);
        assert(self@ =~= scanned(old(self)@, coord, world, reg, now));
    }

    /// Takes the cells that are due off the schedule.
    pub fn take_due(&mut self, now: u64) -> (r: Vec<IVec3>)
        ensures
            r@.no_duplicates(),
            forall|c: IVec3| #[trigger]
                r@.contains(c) <==> old(self)@.contains_key(c) && old(self)@[c] <= now,
            final(self)@ == old(self)@.remove_keys(r@.to_set()),
    {
        let mut r: Vec<IVec3> = Vec::new();
        let mut kept: CellMap<u64> = CellMap::new();
        let n: usize = self.due.len();
        let mut i: usize = 0;
        while i < n
            invariant
                i <= n,
                n == self.due.keys().len(),
                self@ == old(self)@,
                forall|k: int|
                    0 <= k < n ==> self.due@.contains_key(#[trigger] self.due.keys()[k]),
                forall|j: int, k: int|
                    #![trigger self.due.keys()[j], self.due.keys()[k]]
                    0 <= j < k < n ==> self.due.keys()[j] != self.due.keys()[k],
                forall|c: IVec3| #[trigger] r@.contains(c) <==> exists|k: int|
                    0 <= k < i && #[trigger] self.due.keys()[k] == c && self@[c] <= now,
                forall|c: IVec3| #[trigger] kept@.contains_key(c) <==> exists|k: int|
                    0 <= k < i && #[trigger] self.due.keys()[k] == c && self@[c] > now,
                forall|c: IVec3| #[trigger] kept@.contains_key(c) ==> kept@[c] == self@[c],
                r@.no_duplicates(),
            decreases n - i,
        {
            let cell: IVec3 = self.due.key_at(i);
            let at: u64 = *self.due.value_at(i);
            let ghost before = r@;
            let ghost kept_before = kept@;
            if at <= now {
                proof {
                    if r@.contains(cell) {
                        let k = choose|k: int|
                            0 <= k < i && #[trigger] self.due.keys()[k] == cell && self@[cell]
                                <= now;
                        assert(self.due.keys()[k] != self.due.keys()[i as int]);
                    }
                }
                r.push(cell);
            } else {
                let _ = kept.insert(cell, at);
            }
            proof {
                assert forall|c: IVec3| #[trigger] r@.contains(c) <==> exists|k: int|
                    0 <= k < i + 1 && #[trigger] self.due.keys()[k] == c && self@[c] <= now by {
                    assert(before.contains(c) <==> exists|k: int|
                        0 <= k < i && #[trigger] self.due.keys()[k] == c && self@[c] <= now);
                    if before.contains(c) {
                        let m = before.index_of(c);
                        assert(r@[m] == c);
                    }
                    if r@.contains(c) && !before.contains(c) {
                        let m = r@.index_of(c);
                        assert(m == before.len());
                        assert(self.due.keys()[i as int] == c);
                    }
                    if at <= now {
                        assert(r@[before.len() as int] == cell);
                    }
                }
                assert forall|c: IVec3| #[trigger] kept@.contains_key(c) <==> exists|k: int|
                    0 <= k < i + 1 && #[trigger] self.due.keys()[k] == c && self@[c] > now by {
                    assert(kept_before.contains_key(c) <==> exists|k: int|
                        0 <= k < i && #[trigger] self.due.keys()[k] == c && self@[c] > now);
                    if at > now && c == cell {
                        assert(self.due.keys()[i as int] == c);
                    }
                }
            }
            i = i + 1;
        }
        proof {
            assert forall|c: IVec3| #[trigger] r@.contains(c) <==> self@.contains_key(c) && self@[c]
                <= now by {
                if self@.contains_key(c) {
                    assert(self.due.keys().contains(c));
                    let k = self.due.keys().index_of(c);
                    assert(self.due.keys()[k] == c);
                }
            }
            assert forall|c: IVec3| #[trigger] kept@.contains_key(c) <==> self@.contains_key(c)
                && self@[c] > now by {
                if self@.contains_key(c) {
                    assert(self.due.keys().contains(c));
                    let k = self.due.keys().index_of(c);
                    assert(self.due.keys()[k] == c);
                }
            }
            assert forall|c: IVec3| #[trigger] r@.to_set().contains(c) <==> r@.contains(c) by {}
            assert(kept@ =~= self@.remove_keys(r@.to_set()));
        }
        self.due = kept;
        r
    }
}

/// What the block at a due cell turns into now.
pub fn current_regrow_target(cell: IVec3, world: &BlockWorld, reg: &BlockRegistry) -> (r: Option<
    BlockSlot,
>)
    requires
        reg.valid(),
        world.covered_by(reg),
    ensures
        r == regrow_target(cell, world, reg),
{
    let slot: BlockSlot = world.get(cell);
    assert(reg.knows(slot));
    if slot.0 == 0 {
        return None;
    }
    match &reg.def(slot).regrow {
        Some(r) => reg.slot_of(&r.into),
        None => None,
    }
}

/// However often a cell is armed, the first timer counts.
pub proof fn law_running_timers_are_kept(m: Map<IVec3, u64>, cell: IVec3, first: u64, later: u64)
    requires
        !m.contains_key(cell),
    ensures
        armed(armed(m, cell, first), cell, later) == armed(m, cell, first),
        armed(armed(m, cell, first), cell, later)[cell] == first,
{
}

/// Looking through a chunk again changes nothing.
pub proof fn law_scanning_again_changes_nothing(
    m: Map<IVec3, u64>,
    coord: IVec3,
    world: &BlockWorld,
    reg: &BlockRegistry,
    now: u64,
    later: u64,
)
    ensures
        scanned(scanned(m, coord, world, reg, now), coord, world, reg, later) == scanned(
            m,
            coord,
            world,
            reg,
            now,
        ),
{
    assert(scanned(scanned(m, coord, world, reg, now), coord, world, reg, later) =~= scanned(
        m,
        coord,
        world,
        reg,
        now,
    ));
}

/// Putting a block that grows back starts the timer of its cell, due after the
/// block's own delay, unless one runs there; any other block, or none, stops
/// it. Other cells keep theirs.
pub proof fn law_edits_start_and_stop_timers(
    m: Map<IVec3, u64>,
    edit: CellEdit,
    reg: &BlockRegistry,
    now: u64,
    other: IVec3,
)
    requires
        reg.knows(edit.slot),
        time_fits(reg, now),
    ensures
        ({
            let after = after_edit(m, edit, reg, now);
            let regrow = reg.defs@[edit.slot.0 as int].regrow;
            let grows = edit.slot.0 != 0 && regrow is Some;
            let c = edit.world;
            &&& after.contains_key(c) <==> grows
            &&& grows && m.contains_key(c) ==> after[c] == m[c]
            &&& grows && !m.contains_key(c) ==> after[c] == now + (regrow->0).after_ms
            &&& other != c ==> (after.contains_key(other) <==> m.contains_key(other))
            &&& other != c && m.contains_key(other) ==> after[other] == m[other]
        }),
{
}

/// Edits count in the order in which they come: the last one decides.
pub proof fn law_edits_count_in_order(
    m: Map<IVec3, u64>,
    edits: Seq<CellEdit>,
    last: CellEdit,
    reg: &BlockRegistry,
    now: u64,
)
    requires
        last.slot.0 == 0,
    ensures
        !after_edits(m, edits.push(last), reg, now).contains_key(last.world),
        forall|c: IVec3|
            c != last.world ==> (#[trigger] after_edits(
                m,
                edits.push(last),
                reg,
                now,
            ).contains_key(c) <==> after_edits(m, edits, reg, now).contains_key(c)),
{
    assert(edits.push(last).drop_last() =~= edits);
    assert(BlockSlot(0) == last.slot);
}

/// Looking through a chunk starts a timer in every cell of its 32 by 32 by 32
/// cells that holds a block which grows back, and in no other; timers that run
/// already go on unchanged.
pub proof fn law_scans_find_what_grows_back(
    m: Map<IVec3, u64>,
    coord: IVec3,
    world: &BlockWorld,
    reg: &BlockRegistry,
    now: u64,
    c: IVec3,
)
    requires
        chunk_exists(coord),
        world.covered_by(reg),
        time_fits(reg, now),
    ensures
        ({
            let after = scanned(m, coord, world, reg, now);
            let slot = world.slot(c);
            let regrow = reg.spec_def(slot).regrow;
            let inside = coord.x * 32 <= c.x < coord.x * 32 + 32 && coord.y * 32 <= c.y < coord.y
                * 32 + 32 && coord.z * 32 <= c.z < coord.z * 32 + 32;
            let grows = inside && slot.0 != 0 && regrow is Some;
            &&& after.contains_key(c) <==> m.contains_key(c) || grows
            &&& m.contains_key(c) ==> after[c] == m[c]
            &&& !m.contains_key(c) && grows ==> after[c] == now + (regrow->0).after_ms
        }),
{
    let slot = world.slot(c);
    assert(reg.knows(slot));
    assert(slot == BlockSlot(0) <==> slot.0 == 0);
    if reg.spec_def(slot).regrow is Some {
        assert(reg.defs@[slot.0 as int].regrow is Some);
    }
}

/// A due cell turns into what its block names, if there is a block, it grows
/// back, and what it names is registered; and else into nothing.
pub proof fn law_due_cells_turn_into_what_they_name(
    cell: IVec3,
    world: &BlockWorld,
    reg: &BlockRegistry,
)
    requires
        reg.valid(),
        world.covered_by(reg),
    ensures
        ({
            let slot = world.slot(cell);
            let regrow = reg.defs@[slot.0 as int].regrow;
            let target = regrow_target(cell, world, reg);
            &&& slot.0 == 0 || regrow is None ==> target is None
            &&& target is Some ==> (target->0).0 < reg.defs@.len() && reg.defs@[(
            target->0).0 as int].id@ == (regrow->0).into@
            &&& slot.0 != 0 && regrow is Some && target is None ==> forall|k: int|
                0 <= k < reg.defs@.len() ==> (#[trigger] reg.defs@[k]).id@ != (regrow->0).into@
        }),
{
    let slot = world.slot(cell);
    assert(reg.knows(slot));
    if slot != BlockSlot(0) && reg.spec_def(slot).regrow is Some {
        lemma_position(reg.defs@, (reg.spec_def(slot).regrow->0).into@, 0);
    }
}

} // verus!
