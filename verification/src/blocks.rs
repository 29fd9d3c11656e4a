//! Block kinds and the blocks of the world.

use crate::cells::IVec3;
use crate::ord_map::CellMap;
use crate::registry::{find_named, lemma_position, position_of, Named};
use vstd::prelude::*;

verus! {

/// Index of a block kind in the registry; slot 0 is air.
#[derive(Clone, Copy, Debug, PartialEq, Eq, Hash, Structural)]
pub struct BlockSlot(pub u16);

impl BlockSlot {
    pub fn empty() -> (r: BlockSlot)
        ensures
            r == BlockSlot(0),
    {
        BlockSlot(0)
    }

    pub fn is_empty(self) -> (r: bool)
        ensures
            r == (self == BlockSlot(0)),
    {
        self.0 == 0
    }
}

/// What a block does to bodies and rooms.
#[derive(Clone, Copy, Debug, PartialEq, Eq, Structural)]
pub struct BlockFlags {
    pub solid: bool,
    pub room_boundary: bool,
    pub walkable_boundary: bool,
    pub support_below: bool,
    pub support_in_cell: bool,
    /// A body can push through it.
    pub nav_passable: bool,
}

impl Default for BlockFlags {
    fn default() -> (r: BlockFlags)
        ensures
            r == (BlockFlags {
                solid: false,
                room_boundary: false,
                walkable_boundary: false,
                support_below: false,
                support_in_cell: false,
                nav_passable: false,
            }),
    {
        BlockFlags {
            solid: false,
            room_boundary: false,
            walkable_boundary: false,
            support_below: false,
            support_in_cell: false,
            nav_passable: false,
        }
    }
}

/// Which way a placed block faces.
#[derive(Clone, Copy, Debug, PartialEq, Eq, Hash, Structural)]
pub enum Cardinal {
    East,
    North,
    West,
    South,
}

impl Default for Cardinal {
    fn default() -> (r: Cardinal)
        ensures
            r == Cardinal::East,
    {
        Cardinal::East
    }
}

/// The offset `off`, given for a block that faces east, turned with the block.
pub open spec fn turned(facing: Cardinal, off: IVec3) -> (int, int, int) {
    match facing {
        Cardinal::East => (off.x as int, off.y as int, off.z as int),
        Cardinal::North => (off.z as int, off.y as int, -off.x),
        Cardinal::West => (-off.x, off.y as int, -off.z),
        Cardinal::South => (-off.z, off.y as int, off.x as int),
    }
}

impl Cardinal {
    /// Turns an offset given for a block that faces east.
    pub fn rotate_offset(self, off: IVec3) -> (r: IVec3)
        requires
            off.x > i32::MIN,
            off.z > i32::MIN,
        ensures
            (r.x as int, r.y as int, r.z as int) == turned(self, off),
    {
        match self {
            Cardinal::East => off,
            Cardinal::North => IVec3::new(off.z, off.y, -off.x),
            Cardinal::West => IVec3::new(-off.x, off.y, -off.z),
            Cardinal::South => IVec3::new(-off.z, off.y, off.x),
        }
    }
}

/// What a worker does to a block.
#[derive(Clone, Copy, Debug, PartialEq, Eq, Structural)]
pub enum WorkVerb {
    Build,
    Destroy,
}

/// How much of an item a block is made of.
pub struct MaterialNeed {
    pub item: String,
    pub count: u32,
}

/// How an action eases a need, in billionths of the need's full range.
pub struct NeedRestore {
    pub need: String,
    pub restores: u32,
}

impl NeedRestore {
    pub fn copy(&self) -> (r: NeedRestore)
        ensures
            r == *self,
    {
        NeedRestore { need: self.need.clone(), restores: self.restores }
    }
}

/// The tool that a piece of work asks for.
pub struct ToolGate {
    pub tool: Option<String>,
    /// How much longer the work takes without the tool, in thousandths;
    /// `None` means that it cannot be done without it.
    pub bare_handed: Option<u32>,
}

/// What working on a block takes and gives.
pub struct WorkAction {
    pub duration_ms: u32,
    pub need_restore: Option<NeedRestore>,
    pub build_gate: ToolGate,
    pub destroy_gate: ToolGate,
}

/// The duration factor of ordinary work, in thousandths.
pub const FULL_SPEED: u32 = 1000;

impl WorkAction {
    pub open spec fn gate(&self, verb: WorkVerb) -> ToolGate {
        match verb {
            WorkVerb::Build => self.build_gate,
            WorkVerb::Destroy => self.destroy_gate,
        }
    }

    /// The factor by which the work is stretched; `None` without a tool that
    /// is indispensable.
    pub open spec fn stretch(&self, verb: WorkVerb, has_tool: bool) -> Option<u32> {
        if has_tool {
            Some(FULL_SPEED)
        } else {
            self.gate(verb).bare_handed
        }
    }

    pub fn tool_for(&self, verb: WorkVerb) -> (r: &Option<String>)
        ensures
            *r == self.gate(verb).tool,
    {
        match verb {
            WorkVerb::Build => &self.build_gate.tool,
            WorkVerb::Destroy => &self.destroy_gate.tool,
        }
    }

    pub fn duration_multiplier(&self, verb: WorkVerb, has_tool: bool) -> (r: Option<u32>)
        ensures
            r == self.stretch(verb, has_tool),
    {
        if has_tool {
            return Some(FULL_SPEED);
        }
        match verb {
            WorkVerb::Build => self.build_gate.bare_handed,
            WorkVerb::Destroy => self.destroy_gate.bare_handed,
        }
    }
}

/// A block that villagers use: a bed, a basket, a well.
pub struct Interactable {
    /// Only one villager at a time.
    pub exclusive: bool,
    pub duration_ms: u32,
    pub need_restore: Option<NeedRestore>,
}

/// How a villager gets at a block: offsets of the cells to stand on, for a
/// block that faces east, and what the body does meanwhile.
pub struct UseSlot {
    pub approach: Vec<IVec3>,
    pub animation: Option<String>,
}

/// One block kind.
pub struct BlockDef {
    pub id: String,
    pub flags: BlockFlags,
    pub tags: Vec<String>,
    pub footprint: Vec<IVec3>,
    pub materials: Vec<MaterialNeed>,
    pub work_action: Option<WorkAction>,
    pub interactable: Option<Interactable>,
    pub use_slot: Option<UseSlot>,
    /// The kind of crafting station that the block is.
    pub station_tag: Option<String>,
    pub regrow: Option<Regrow>,
}

/// What a block turns into by itself, and when.
pub struct Regrow {
    pub into: String,
    pub after_ms: u64,
}

impl Named for BlockDef {
    open spec fn name(&self) -> Seq<char> {
        self.id@
    }

    fn is_named(&self, id: &String) -> bool {
        self.id == *id
    }
}

impl BlockDef {
    /// A block with nothing but an id and flags.
    pub fn plain(id: String, flags: BlockFlags) -> (r: BlockDef)
        ensures
            r.id == id,
            r.flags == flags,
            r.tags@.len() == 0,
            r.footprint@.len() == 0,
            r.materials@.len() == 0,
            r.work_action is None,
            r.interactable is None,
            r.use_slot is None,
            r.station_tag is None,
            r.regrow is None,
    {
        BlockDef {
            id,
            flags,
            tags: Vec::new(),
            footprint: Vec::new(),
            materials: Vec::new(),
            work_action: None,
            interactable: None,
            use_slot: None,
            station_tag: None,
            regrow: None,
        }
    }
}

/// Every block kind, by slot. Slot 0 describes air.
pub struct BlockRegistry {
    pub defs: Vec<BlockDef>,
}

impl BlockRegistry {
    /// The slot names a registered kind.
    pub open spec fn knows(&self, slot: BlockSlot) -> bool {
        slot.0 < self.defs@.len()
    }

    pub open spec fn spec_def(&self, slot: BlockSlot) -> BlockDef {
        self.defs@[slot.0 as int]
    }

    pub open spec fn flags(&self, slot: BlockSlot) -> BlockFlags {
        self.spec_def(slot).flags
    }

    pub fn def(&self, slot: BlockSlot) -> (r: &BlockDef)
        requires
            self.knows(slot),
        ensures
            *r == self.spec_def(slot),
    {
        &self.defs[slot.0 as usize]
    }

    pub fn slot_count(&self) -> (r: usize)
        ensures
            r == self.defs@.len(),
    {
        self.defs.len()
    }

    /// Slots fit their index type.
    pub open spec fn valid(&self) -> bool {
        self.defs@.len() <= 0x1_0000
    }

    /// The slot of a block id.
    pub open spec fn find(&self, id: Seq<char>) -> Option<BlockSlot> {
        match position_of(self.defs@, id, 0) {
            Some(k) => Some(BlockSlot(k as u16)),
            None => None,
        }
    }

    pub fn slot_of(&self, id: &String) -> (r: Option<BlockSlot>)
        requires
            self.valid(),
        ensures
            r == self.find(id@),
            r matches Some(slot) ==> self.knows(slot) && self.spec_def(slot).id@ == id@,
    {
        match find_named(&self.defs, id) {
            Some(k) => Some(BlockSlot(k as u16)),
            None => None,
        }
    }
}

/// The blocks of the world; a cell without an entry is air.
pub struct BlockWorld {
    blocks: CellMap<BlockSlot>,
}

impl View for BlockWorld {
    type V = Map<IVec3, BlockSlot>;

    closed spec fn view(&self) -> Map<IVec3, BlockSlot> {
        self.blocks@
    }
}

impl BlockWorld {
    /// The block at a cell, air where nothing was placed.
    pub open spec fn slot(&self, c: IVec3) -> BlockSlot {
        if self@.contains_key(c) {
            self@[c]
        } else {
            BlockSlot(0)
        }
    }

    /// Every block of the world, air included, is registered.
    pub open spec fn covered_by(&self, reg: &BlockRegistry) -> bool {
        forall|c: IVec3| reg.knows(#[trigger] self.slot(c))
    }

    pub fn new() -> (r: BlockWorld)
        ensures
            r@ == Map::<IVec3, BlockSlot>::empty(),
    {
        BlockWorld { blocks: CellMap::new() }
    }

    pub fn set(&mut self, c: IVec3, slot: BlockSlot)
        ensures
            final(self)@ == old(self)@.insert(c, slot),
    {
        let _ = self.blocks.insert(c, slot);
    }

    pub fn clear(&mut self, c: IVec3)
        ensures
            final(self)@ == old(self)@.remove(c),
    {
        let _ = self.blocks.remove(c);
    }

    pub fn get(&self, c: IVec3) -> (r: BlockSlot)
        ensures
            r == self.slot(c),
    {
        match self.blocks.get(c) {
            Some(s) => *s,
            None => BlockSlot(0),
        }
    }
}

/// Turning keeps heights and lengths. East is as given; north is a quarter turn
/// that takes what lies ahead, in the east, to the side of falling z; west is
/// two such turns and south three; a fourth leads back.
pub proof fn law_turns_are_quarter_turns(off: IVec3)
    requires
        off.x > i32::MIN,
        off.z > i32::MIN,
    ensures
        ({
            let once = turned(Cardinal::North, off);
            let n1 = IVec3 { x: once.0 as i32, y: once.1 as i32, z: once.2 as i32 };
            let twice = turned(Cardinal::North, n1);
            let n2 = IVec3 { x: twice.0 as i32, y: twice.1 as i32, z: twice.2 as i32 };
            let thrice = turned(Cardinal::North, n2);
            let n3 = IVec3 { x: thrice.0 as i32, y: thrice.1 as i32, z: thrice.2 as i32 };
            &&& turned(Cardinal::East, off) == (off.x as int, off.y as int, off.z as int)
            &&& twice == turned(Cardinal::West, off)
            &&& thrice == turned(Cardinal::South, off)
            &&& turned(Cardinal::North, n3) == turned(Cardinal::East, off)
            &&& once.1 == off.y
            &&& off.z == 0 ==> once.0 == 0 && once.2 == -off.x
            &&& off.x == 0 ==> once.0 == off.z && once.2 == 0
            &&& once.0 * once.0 + once.2 * once.2 == off.x * off.x + off.z * off.z
        }),
{
    assert((-off.x) * (-off.x) == off.x * off.x) by (nonlinear_arith);
}

/// A block id stands for the first block that has it, and for none exactly if
/// no block has it.
pub proof fn law_blocks_are_found_by_id(reg: &BlockRegistry, id: Seq<char>)
    requires
        reg.valid(),
    ensures
        reg.find(id) is None <==> forall|k: int|
            0 <= k < reg.defs@.len() ==> (#[trigger] reg.defs@[k]).id@ != id,
        reg.find(id) is Some ==> {
            let slot = (reg.find(id)->0).0 as int;
            &&& slot < reg.defs@.len() && reg.defs@[slot].id@ == id
            &&& forall|k: int| 0 <= k < slot ==> (#[trigger] reg.defs@[k]).id@ != id
        },
{
    lemma_position(reg.defs@, id, 0);
    assert forall|k: int| 0 <= k < reg.defs@.len() implies (#[trigger] reg.defs@[k]).name()
        == reg.defs@[k].id@ by {}
}

} // verus!
