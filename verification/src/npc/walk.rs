//! The world as villagers walk it.

use crate::blocks::{BlockDef, BlockRegistry, BlockSlot, BlockWorld};
use crate::cells::IVec3;
use crate::ord_map::CellMap;
use crate::pathfinding::{Walkability, COST_ONE};
use crate::room_sync::{chunk_of, world_to_chunk};
use vstd::prelude::*;

verus! {

/// The loaded blocks, seen by a walker.
pub struct WorldWalk<'a> {
    blocks: &'a BlockWorld,
    registry: &'a BlockRegistry,
    loaded: &'a CellMap<()>,
    passable_cost: u32,
}

/// What a walker finds at a cell.
pub open spec fn flags_block_feet(reg: &BlockRegistry, slot: BlockSlot) -> bool {
    slot != BlockSlot(0) && !reg.flags(slot).walkable_boundary
}

pub open spec fn flags_block_body(reg: &BlockRegistry, slot: BlockSlot) -> bool {
    slot != BlockSlot(0) && !reg.flags(slot).walkable_boundary && !reg.flags(slot).nav_passable
}

impl<'a> WorldWalk<'a> {
    #[verifier::type_invariant]
    spec fn registered(self) -> bool {
        self.blocks.covered_by(self.registry)
    }

    pub closed spec fn world(&self) -> BlockWorld {
        *self.blocks
    }

    pub closed spec fn reg(&self) -> BlockRegistry {
        *self.registry
    }

    pub closed spec fn chunks(&self) -> Map<IVec3, ()> {
        self.loaded@
    }

    pub closed spec fn passable_price(&self) -> nat {
        self.passable_cost as nat
    }

    /// The chunk of the cell is loaded.
    pub open spec fn known(&self, cell: IVec3) -> bool {
        self.chunks().contains_key(chunk_of(cell))
    }

    /// `passable_cost` is the price of pushing through a block that gives way.
    pub fn new(
        blocks: &'a BlockWorld,
        registry: &'a BlockRegistry,
        loaded: &'a CellMap<()>,
        passable_cost: u32,
    ) -> (r: WorldWalk<'a>)
        requires
            blocks.covered_by(registry),
        ensures
            r.world() == *blocks,
            r.reg() == *registry,
            r.chunks() == loaded@,
            r.passable_price() == passable_cost,
    {
        WorldWalk { blocks, registry, loaded, passable_cost }
    }

    pub fn def_of(&self, slot: BlockSlot) -> (r: &BlockDef)
        requires
            self.reg().knows(slot),
        ensures
            *r == self.reg().spec_def(slot),
    {
        self.registry.def(slot)
    }

    /// The block at a cell, if its chunk is loaded.
    pub fn slot_at(&self, cell: IVec3) -> (r: Option<BlockSlot>)
        ensures
            r is Some <==> self.known(cell),
            r matches Some(s) ==> s == self.world().slot(cell) && self.reg().knows(s),
    {
        proof {
            use_type_invariant(self);
        }
        if !self.loaded.contains(world_to_chunk(cell)) {
            return None;
        }
        let s: BlockSlot = self.blocks.get(cell);
        assert(self.registry.knows(self.blocks.slot(cell)));
        Some(s)
    }
}

impl<'a> Walkability for WorldWalk<'a> {
    open spec fn solid(&self, cell: IVec3) -> bool {
        !self.known(cell) || flags_block_feet(&self.reg(), self.world().slot(cell))
    }

    open spec fn body_blocked(&self, cell: IVec3) -> bool {
        !self.known(cell) || flags_block_body(&self.reg(), self.world().slot(cell))
    }

    open spec fn price(&self, cell: IVec3) -> nat {
        if self.known(cell) && self.world().slot(cell) != BlockSlot(0) && self.reg().flags(
            self.world().slot(cell),
        ).nav_passable {
            self.passable_price()
        } else {
            COST_ONE as nat
        }
    }

    fn is_solid(&self, cell: IVec3) -> bool {
        match self.slot_at(cell) {
            None => true,
            Some(slot) => slot.0 != 0 && !self.registry.def(slot).flags.walkable_boundary,
        }
    }

    fn blocks_body(&self, cell: IVec3) -> bool {
        match self.slot_at(cell) {
            None => true,
            Some(slot) => {
                if slot.0 == 0 {
                    false
                } else {
                    let flags = &self.registry.def(slot).flags;
                    !flags.walkable_boundary && !flags.nav_passable
                }
            },
        }
    }

    fn cost(&self, cell: IVec3) -> u32 {
        match self.slot_at(cell) {
            Some(slot) => {
                if slot.0 != 0 && self.registry.def(slot).flags.nav_passable {
                    self.passable_cost
                } else {
                    COST_ONE
                }
            },
            None => COST_ONE,
        }
    }
}

/// In this world whatever stops a body also carries weight, and nobody walks
/// into what is not loaded.
pub proof fn law_walk_world(w: &WorldWalk, cell: IVec3)
    ensures
        w.body_blocked(cell) ==> w.solid(cell),
        !w.known(cell) ==> w.solid(cell) && w.body_blocked(cell)
            && !crate::pathfinding::can_stand(w, cell),
{
}

/// Where the chunk is loaded, a cell stops feet exactly if it holds a block
/// that no one steps through, and it stops a body exactly if the block does
/// not give way to one either. An empty cell stops nothing.
pub proof fn law_blocks_in_the_way(w: &WorldWalk, cell: IVec3)
    requires
        w.chunks().contains_key(chunk_of(cell)),
    ensures
        ({
            let slot = w.world().slot(cell);
            let flags = w.reg().defs@[slot.0 as int].flags;
            &&& w.solid(cell) <==> slot.0 != 0 && !flags.walkable_boundary
            &&& w.body_blocked(cell) <==> slot.0 != 0 && !flags.walkable_boundary
                && !flags.nav_passable
            &&& slot.0 != 0 && flags.nav_passable ==> w.price(cell) == w.passable_price()
            &&& slot.0 == 0 || !flags.nav_passable ==> w.price(cell) == COST_ONE
        }),
{
    let slot = w.world().slot(cell);
    assert(slot == BlockSlot(0) <==> slot.0 == 0);
}

/// Where the chunk is not loaded, everything is in the way, at the usual
/// price.
pub proof fn law_nothing_is_known_of_other_chunks(w: &WorldWalk, cell: IVec3)
    requires
        !w.chunks().contains_key(chunk_of(cell)),
    ensures
        w.solid(cell),
        w.body_blocked(cell),
        w.price(cell) == COST_ONE,
{
}

} // verus!
