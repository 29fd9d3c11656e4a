//! What a villager sees around it when it makes up its mind.

use crate::blocks::{
    BlockDef, BlockRegistry, BlockSlot, Cardinal, NeedRestore, WorkAction, WorkVerb,
};
use crate::cells::{chebyshev_spec, gap, manhattan_spec, IVec3};
use crate::items::{ItemRegistry, ItemSlot};
use crate::npc::goals::copy_restore;
use crate::npc::holds::{still_avoided, HaulStore, HaulTarget, InteractionClaims};
use crate::npc::needs::Needs;
use crate::npc::spawn::{copy_stats, StatValue};
use crate::npc::walk::WorldWalk;
use crate::npc::NpcId;
use crate::npc_registry::WorkDefaults;
use crate::ord_map::CellMap;
use crate::plan_claims::{open_to, PlanClaims};
use crate::plans::Plans;
use crate::protocol::{satisfied, PlanKind, PlanState, WorldClock};
use crate::ranking::{
    at_most, law_sorted_by_rank, law_the_lowest_are_kept, nearest_of, sorted_by_rank, Ranked,
};
use crate::rooms::map::{is_anchor, lists_matched, matched_in, sound_state, RoomId, RoomMap};
use vstd::prelude::*;

verus! {

pub const SNAPSHOT_PLAN_RADIUS_CELLS: i32 = 48;

pub const SNAPSHOT_PLAN_LIMIT: usize = 8;

pub const SNAPSHOT_ROOM_LIMIT: usize = 8;

pub const SNAPSHOT_INTERACTION_LIMIT: usize = 8;

pub const SNAPSHOT_INTERACTION_RADIUS_CELLS: i32 = 48;

// ---------- work ----------

/// The block that a plan is about: the one to be built, or the one that stands
/// there.
pub open spec fn plan_block(walk: &WorldWalk, kind: PlanKind, cell: IVec3) -> Option<BlockSlot> {
    match kind {
        PlanKind::Build { slot, .. } => Some(slot),
        PlanKind::Remove => if walk.known(cell) && walk.world().slot(cell) != BlockSlot(0) {
            Some(walk.world().slot(cell))
        } else {
            None
        },
    }
}

/// What the block of a plan says about work on it.
pub open spec fn plan_action(walk: &WorldWalk, kind: PlanKind, cell: IVec3) -> Option<WorkAction> {
    match plan_block(walk, kind, cell) {
        Some(slot) => walk.reg().spec_def(slot).work_action,
        None => None,
    }
}

/// The block to be built is registered.
pub open spec fn plan_known(walk: &WorldWalk, kind: PlanKind) -> bool {
    kind matches PlanKind::Build { slot, .. } ==> walk.reg().knows(slot)
}

/// How long the work takes and what it gives, before tools count.
pub open spec fn work_terms(
    walk: &WorldWalk,
    kind: PlanKind,
    cell: IVec3,
    defaults: &WorkDefaults,
) -> (u32, Option<NeedRestore>) {
    match plan_action(walk, kind, cell) {
        Some(w) => (w.duration_ms, w.need_restore),
        None => (defaults.duration_ms, defaults.need_restore),
    }
}

/// The tool in hand serves the work.
pub open spec fn tool_serves(
    work: WorkAction,
    verb: WorkVerb,
    items: &ItemRegistry,
    tool: Option<ItemSlot>,
) -> bool {
    match work.gate(verb).tool {
        Some(tag) => items.has_tool_tag(tool, tag@),
        None => true,
    }
}

/// The factor by which the work is stretched, in thousandths; `None` where it
/// cannot be done with what is in hand.
pub open spec fn work_stretch(
    action: Option<WorkAction>,
    verb: WorkVerb,
    items: &ItemRegistry,
    tool: Option<ItemSlot>,
) -> Option<u32> {
    match action {
        None => Some(1000),
        Some(w) => w.stretch(verb, tool_serves(w, verb, items, tool)),
    }
}

impl<'a> WorldWalk<'a> {
    /// What the block of a plan says about work on it.
    pub fn action_at(&self, kind: PlanKind, cell: IVec3) -> (r: Option<&WorkAction>)
        requires
            plan_known(self, kind),
        ensures
            match plan_action(self, kind, cell) {
                Some(w) => r == Some(&w),
                None => r is None,
            },
    {
        let slot: Option<BlockSlot> = match kind {
            PlanKind::Build { slot, .. } => Some(slot),
            PlanKind::Remove => match self.slot_at(cell) {
                Some(s) => if s.0 != 0 {
                    Some(s)
                } else {
                    None
                },
                None => None,
            },
        };
        match slot {
            Some(s) => match &self.def_of(s).work_action {
                Some(w) => Some(w),
                None => None,
            },
            None => None,
        }
    }
}

/// How long the work takes and what it gives, before tools count.
pub fn resolve_work_action(
    walk: &WorldWalk,
    kind: PlanKind,
    cell: IVec3,
    defaults: &WorkDefaults,
) -> (r: (u32, Option<NeedRestore>))
    requires
        plan_known(walk, kind),
    ensures
        r == work_terms(walk, kind, cell, defaults),
{
    match walk.action_at(kind, cell) {
        Some(w) => (w.duration_ms, copy_restore(&w.need_restore)),
        None => (defaults.duration_ms, copy_restore(&defaults.need_restore)),
    }
}

/// The factor by which the work is stretched with the tool in hand.
pub fn tool_multiplier(
    action: Option<&WorkAction>,
    verb: WorkVerb,
    items: &ItemRegistry,
    tool: Option<ItemSlot>,
) -> (r: Option<u32>)
    ensures
        r == work_stretch(
            match action {
                Some(w) => Some(*w),
                None => None,
            },
            verb,
            items,
            tool,
        ),
{
    match action {
        None => Some(1000),
        Some(w) => {
            let serves: bool = match w.tool_for(verb) {
                Some(tag) => items.tool_has_tag(tool, tag),
                None => true,
            };
            w.duration_multiplier(verb, serves)
        },
    }
}

// ---------- plans ----------

/// A plan that a villager could work on.
pub struct NearbyPlan {
    pub cell: IVec3,
    pub verb: WorkVerb,
    pub need: Option<String>,
    pub restores: u32,
    pub distance: u64,
}

impl Ranked for NearbyPlan {
    open spec fn rank(&self) -> int {
        self.distance as int
    }

    fn rank_value(&self) -> u64 {
        self.distance
    }
}

/// What is known about plans and who works on them.
pub struct PlanScene<'a> {
    pub plans: &'a Plans,
    pub claims: &'a PlanClaims,
    pub haul: &'a HaulStore,
    pub items: &'a ItemRegistry,
    pub defaults: &'a WorkDefaults,
    pub now: u64,
}

/// A villager who looks around.
#[derive(Clone, Copy, Debug, PartialEq, Eq, Structural)]
pub struct Onlooker {
    pub id: NpcId,
    pub foot: IVec3,
    pub tool: Option<ItemSlot>,
}

/// The villager can work on the plan now: it is near, free, reachable as far as
/// is known, has all its material, and the tool in hand will do.
pub open spec fn plan_workable(
    scene: &PlanScene,
    walk: &WorldWalk,
    who: Onlooker,
    cell: IVec3,
    radius: int,
) -> bool {
    let plan = scene.plans@[cell];
    &&& manhattan_spec(cell, who.foot) <= radius
    &&& open_to(scene.claims@, cell, who.id)
    &&& !still_avoided(scene.haul@.plan_memos, cell, scene.now)
    &&& satisfied(plan.materials)
    &&& work_stretch(
        plan_action(walk, plan.kind, cell),
        plan.kind.verb(),
        scene.items,
        who.tool,
    ) is Some
}

pub open spec fn restore_need(r: Option<NeedRestore>) -> Option<String> {
    match r {
        Some(nr) => Some(nr.need),
        None => None,
    }
}

pub open spec fn restore_amount(r: Option<NeedRestore>) -> u32 {
    match r {
        Some(nr) => nr.restores,
        None => 0,
    }
}

/// How a plan is described to a villager.
pub open spec fn plan_entry(scene: &PlanScene, walk: &WorldWalk, who: Onlooker, cell: IVec3)
    -> NearbyPlan {
    let kind = scene.plans@[cell].kind;
    let gives = work_terms(walk, kind, cell, scene.defaults).1;
    NearbyPlan {
        cell,
        verb: kind.verb(),
        need: restore_need(gives),
        restores: restore_amount(gives),
        distance: manhattan_spec(cell, who.foot) as u64,
    }
}

/// The workable plans among some cells, in order.
pub open spec fn workable_plans(
    scene: &PlanScene,
    walk: &WorldWalk,
    who: Onlooker,
    cells: Seq<IVec3>,
    radius: int,
) -> Seq<NearbyPlan>
    decreases cells.len(),
{
    if cells.len() == 0 {
        Seq::empty()
    } else {
        let rest = workable_plans(scene, walk, who, cells.drop_last(), radius);
        if plan_workable(scene, walk, who, cells.last(), radius) {
            rest.push(plan_entry(scene, walk, who, cells.last()))
        } else {
            rest
        }
    }
}

/// Every block that is to be built is registered.
pub open spec fn plans_known(scene: &PlanScene, walk: &WorldWalk) -> bool {
    forall|c: IVec3| #[trigger]
        scene.plans@.contains_key(c) ==> plan_known(walk, scene.plans@[c].kind)
}

fn split_restore(gives: Option<NeedRestore>) -> (r: (Option<String>, u32))
    ensures
        r == (restore_need(gives), restore_amount(gives)),
{
    match gives {
        Some(nr) => (Some(nr.need), nr.restores),
        None => (None, 0),
    }
}

/// Describes a plan to a villager, if it can work on it.
pub fn nearby_plan(
    scene: &PlanScene,
    walk: &WorldWalk,
    who: Onlooker,
    cell: IVec3,
    plan: &PlanState,
    radius: i32,
) -> (r: Option<NearbyPlan>)
    requires
        scene.plans@.contains_key(cell),
        plan@ == scene.plans@[cell],
        plan_known(walk, plan.kind),
    ensures
        r is Some <==> plan_workable(scene, walk, who, cell, radius as int),
        r matches Some(p) ==> p == plan_entry(scene, walk, who, cell),
{
    if cell.manhattan(who.foot) > radius as i64 {
        return None;
    }
    if scene.claims.is_taken_by_other(cell, who.id) {
        return None;
    }
    if scene.haul.is_unreachable(HaulTarget::Plan(cell), scene.now) {
        return None;
    }
    if !plan.is_satisfied() {
        return None;
    }
    let verb: WorkVerb = plan.kind.work_verb();
    if tool_multiplier(walk.action_at(plan.kind, cell), verb, scene.items, who.tool).is_none() {
        return None;
    }
    let (_, gives) = resolve_work_action(walk, plan.kind, cell, scene.defaults);
    let (need, restores) = split_restore(gives);
    Some(
        NearbyPlan {
            cell,
            verb,
            need,
            restores,
            distance: cell.manhattan(who.foot) as u64,
        },
    )
}

/// The nearest plans that the villager can work on.
pub fn collect_nearby_plans(
    scene: &PlanScene,
    walk: &WorldWalk,
    who: Onlooker,
    radius: i32,
    limit: usize,
) -> (r: Vec<NearbyPlan>)
    requires
        plans_known(scene, walk),
    ensures
        r@ == at_most(
            sorted_by_rank(workable_plans(scene, walk, who, scene.plans.cells(), radius as int)),
            limit as int,
        ),
{
    let mut out: Vec<NearbyPlan> = Vec::new();
    let n: usize = scene.plans.len();
    let ghost cells = scene.plans.cells();
    let mut i: usize = 0;
    assert(cells.take(0) =~= Seq::empty());
    while i < n
        invariant
            plans_known(scene, walk),
            i <= n,
            n == cells.len(),
            cells == scene.plans.cells(),
            out@ == workable_plans(scene, walk, who, cells.take(i as int), radius as int),
        decreases n - i,
    {
        assert(cells.take(i + 1).drop_last() =~= cells.take(i as int));
        let cell: IVec3 = scene.plans.cell_at(i);
        let plan: &PlanState = scene.plans.plan_at(i);
        if let Some(p) = nearby_plan(scene, walk, who, cell, plan, radius) {
            out.push(p);
        }
        i = i + 1;
    }
    assert(cells.take(n as int) =~= cells);
    nearest_of(out, limit)
}

// ---------- things to use ----------

/// What the entity store knows about a cell of a block: it is the anchor, or
/// one of the other cells of a block anchored elsewhere.
#[derive(Clone, Copy, Debug, PartialEq, Eq, Structural)]
pub enum EntryKind {
    Anchor { orientation: Cardinal },
    Part { anchor: IVec3 },
}

/// The anchor of the block at a cell.
pub open spec fn anchor_of(entries: Map<IVec3, EntryKind>, cell: IVec3) -> IVec3 {
    if entries.contains_key(cell) {
        match entries[cell] {
            EntryKind::Part { anchor } => anchor,
            EntryKind::Anchor { .. } => cell,
        }
    } else {
        cell
    }
}

/// Which way the block at a cell faces.
pub open spec fn facing_of(entries: Map<IVec3, EntryKind>, cell: IVec3) -> Cardinal {
    let anchor = anchor_of(entries, cell);
    if entries.contains_key(anchor) {
        match entries[anchor] {
            EntryKind::Anchor { orientation } => orientation,
            EntryKind::Part { .. } => Cardinal::East,
        }
    } else {
        Cardinal::East
    }
}

pub fn resolve_anchor_cell(entries: &CellMap<EntryKind>, cell: IVec3) -> (r: IVec3)
    ensures
        r == anchor_of(entries@, cell),
{
    match entries.get(cell) {
        Some(EntryKind::Part { anchor }) => *anchor,
        _ => cell,
    }
}

pub fn resolve_anchor_with_orientation(entries: &CellMap<EntryKind>, cell: IVec3) -> (r: (
    IVec3,
    Cardinal,
))
    ensures
        r.0 == anchor_of(entries@, cell),
        r.1 == facing_of(entries@, cell),
{
    let anchor: IVec3 = resolve_anchor_cell(entries, cell);
    let facing: Cardinal = match entries.get(anchor) {
        Some(EntryKind::Anchor { orientation }) => *orientation,
        _ => Cardinal::East,
    };
    (anchor, facing)
}

/// A thing that a villager could use.
pub struct NearbyInteraction {
    pub cell: IVec3,
    pub need: Option<String>,
    pub restores: u32,
    pub exclusive: bool,
    pub distance: u64,
}

impl Ranked for NearbyInteraction {
    open spec fn rank(&self) -> int {
        self.distance as int
    }

    fn rank_value(&self) -> u64 {
        self.distance
    }
}

/// Cells with a block that can be used, and what is known about using them.
pub struct ThingScene<'a> {
    pub cells: &'a CellMap<BlockSlot>,
    pub entries: &'a CellMap<EntryKind>,
    pub claims: &'a InteractionClaims,
    pub registry: &'a BlockRegistry,
    pub now: u64,
}

/// The block at a listed cell can be used, and is near.
pub open spec fn thing_near(scene: &ThingScene, foot: IVec3, cell: IVec3, radius: int) -> bool {
    chebyshev_spec(cell, foot) <= radius && scene.registry.spec_def(
        scene.cells@[cell],
    ).interactable is Some
}

/// The cell is the first in the list that belongs to its block.
pub open spec fn first_of_block(
    scene: &ThingScene,
    foot: IVec3,
    cells: Seq<IVec3>,
    k: int,
    radius: int,
) -> bool {
    forall|j: int|
        0 <= j < k && thing_near(scene, foot, #[trigger] cells[j], radius) ==> anchor_of(
            scene.entries@,
            cells[j],
        ) != anchor_of(scene.entries@, cells[k])
}

/// The thing is free for the villager, and reachable as far as is known.
pub open spec fn thing_free(scene: &ThingScene, who: NpcId, cell: IVec3) -> bool {
    let anchor = anchor_of(scene.entries@, cell);
    let thing = scene.registry.spec_def(scene.cells@[cell]).interactable->0;
    (thing.exclusive ==> open_to(scene.claims@.claims, anchor, who)) && !still_avoided(
        scene.claims@.memos,
        anchor,
        scene.now,
    )
}

pub open spec fn thing_entry(scene: &ThingScene, foot: IVec3, cell: IVec3) -> NearbyInteraction {
    let anchor = anchor_of(scene.entries@, cell);
    let thing = scene.registry.spec_def(scene.cells@[cell]).interactable->0;
    NearbyInteraction {
        cell: anchor,
        need: restore_need(thing.need_restore),
        restores: restore_amount(thing.need_restore),
        exclusive: thing.exclusive,
        distance: manhattan_spec(anchor, foot) as u64,
    }
}

/// The usable things among the first `n` cells of a list, one entry per block.
pub open spec fn usable_things(
    scene: &ThingScene,
    who: NpcId,
    foot: IVec3,
    cells: Seq<IVec3>,
    n: int,
    radius: int,
) -> Seq<NearbyInteraction>
    decreases n,
{
    if n <= 0 {
        Seq::empty()
    } else {
        let rest = usable_things(scene, who, foot, cells, n - 1, radius);
        if thing_near(scene, foot, cells[n - 1], radius) && first_of_block(
            scene,
            foot,
            cells,
            n - 1,
            radius,
        ) && thing_free(scene, who, cells[n - 1]) {
            rest.push(thing_entry(scene, foot, cells[n - 1]))
        } else {
            rest
        }
    }
}

/// Every listed block is registered.
pub open spec fn things_known(scene: &ThingScene) -> bool {
    forall|c: IVec3| #[trigger]
        scene.cells@.contains_key(c) ==> scene.registry.knows(scene.cells@[c])
}

/// The nearest things that the villager can use.
pub fn collect_nearby_interactions(
    scene: &ThingScene,
    who: NpcId,
    foot: IVec3,
    radius: i32,
    limit: usize,
) -> (r: Vec<NearbyInteraction>)
    requires
        things_known(scene),
    ensures
        r@ == at_most(
            sorted_by_rank(
                usable_things(
                    scene,
                    who,
                    foot,
                    scene.cells.keys(),
                    scene.cells.keys().len() as int,
                    radius as int,
                ),
            ),
            limit as int,
        ),
{
    let mut out: Vec<NearbyInteraction> = Vec::new();
    let mut seen: CellMap<()> = CellMap::new();
    let n: usize = scene.cells.len();
    let ghost cells = scene.cells.keys();
    let mut i: usize = 0;
    while i < n
        invariant
            things_known(scene),
            i <= n,
            n == cells.len(),
            cells == scene.cells.keys(),
            out@ == usable_things(scene, who, foot, cells, i as int, radius as int),
            forall|a: IVec3| #[trigger] seen@.contains_key(a) <==> exists|j: int|
                0 <= j < i && thing_near(scene, foot, #[trigger] cells[j], radius as int)
                    && anchor_of(scene.entries@, cells[j]) == a,
        decreases n - i,
    {
        let cell: IVec3 = scene.cells.key_at(i);
        let slot: BlockSlot = *scene.cells.value_at(i);
        assert(cell == cells[i as int]);
        let def: &BlockDef = scene.registry.def(slot);
        if cell.chebyshev(foot) <= radius as i64 {
            if let Some(thing) = &def.interactable {
                let anchor: IVec3 = resolve_anchor_cell(scene.entries, cell);
                let fresh: bool = !seen.contains(anchor);
                assert(fresh == first_of_block(scene, foot, cells, i as int, radius as int)) by {
                    if !fresh {
                        let j = choose|j: int|
                            0 <= j < i && thing_near(
                                scene,
                                foot,
                                #[trigger] cells[j],
                                radius as int,
                            ) && anchor_of(scene.entries@, cells[j]) == anchor;
                        assert(thing_near(scene, foot, cells[j], radius as int));
                    }
                }
                let ghost before = seen@;
                let _ = seen.insert(anchor, ());
                proof {
                    assert forall|a: IVec3| #[trigger] seen@.contains_key(a) <==> exists|j: int|
                        0 <= j < i + 1 && thing_near(scene, foot, #[trigger] cells[j], radius as int)
                            && anchor_of(scene.entries@, cells[j]) == a by {
                        assert(before.contains_key(a) <==> exists|j: int|
                            0 <= j < i && thing_near(
                                scene,
                                foot,
                                #[trigger] cells[j],
                                radius as int,
                            ) && anchor_of(scene.entries@, cells[j]) == a);
                        assert(thing_near(scene, foot, cells[i as int], radius as int));
                    }
                }
                if fresh && !(thing.exclusive && scene.claims.is_taken_by_other(anchor, who))
                    && !scene.claims.is_unreachable(anchor, scene.now) {
                    let (need, restores) = split_restore(copy_restore(&thing.need_restore));
                    out.push(
                        NearbyInteraction {
                            cell: anchor,
                            need,
                            restores,
                            exclusive: thing.exclusive,
                            distance: anchor.manhattan(foot) as u64,
                        },
                    );
                }
            }
        }
        i = i + 1;
    }
    nearest_of(out, limit)
}

// ---------- rooms ----------

pub struct NearbyRoom {
    pub id: u32,
    pub pattern: String,
    pub anchor: IVec3,
    pub distance: u64,
}

impl Ranked for NearbyRoom {
    open spec fn rank(&self) -> int {
        self.distance as int
    }

    fn rank_value(&self) -> u64 {
        self.distance
    }
}

/// The list names each matched room once, by increasing id, with its pattern
/// and anchor.
pub open spec fn room_list(rooms: &RoomMap, foot: IVec3, list: Seq<NearbyRoom>) -> bool {
    exists|ids: Seq<u32>| #[trigger]
        lists_matched(rooms@.rooms, ids) && list.len() == ids.len() && forall|i: int|
            0 <= i < ids.len() ==> (#[trigger] list[i]).id == ids[i] && Some(list[i].pattern)
                == rooms@.rooms[ids[i]].pattern && is_anchor(
                rooms@.rooms[ids[i]].floor_cells@,
                list[i].anchor,
            ) && list[i].distance == manhattan_spec(list[i].anchor, foot)
}

/// The answer is the nearest of all matched rooms.
pub open spec fn nearest_rooms(rooms: &RoomMap, foot: IVec3, limit: int, r: Seq<NearbyRoom>) -> bool {
    exists|list: Seq<NearbyRoom>| #[trigger]
        room_list(rooms, foot, list) && r == at_most(sorted_by_rank(list), limit)
}

/// The nearest matched rooms.
pub fn collect_nearby_rooms(rooms: &RoomMap, foot: IVec3, limit: usize) -> (r: Vec<NearbyRoom>)
    requires
        sound_state(rooms@),
    ensures
        nearest_rooms(rooms, foot, limit as int, r@),
{
    let matched: Vec<(RoomId, String, IVec3)> = rooms.iter_matched();
    let mut list: Vec<NearbyRoom> = Vec::new();
    let mut i: usize = 0;
    while i < matched.len()
        invariant
            i <= matched@.len(),
            list@.len() == i,
            forall|k: int|
                0 <= k < i ==> (#[trigger] list@[k]).id == matched@[k].0.0 && list@[k].pattern
                    == matched@[k].1 && list@[k].anchor == matched@[k].2 && list@[k].distance
                    == manhattan_spec(matched@[k].2, foot),
        decreases matched@.len() - i,
    {
        let anchor: IVec3 = matched[i].2;
        list.push(
            NearbyRoom {
                id: matched[i].0.0,
                pattern: matched[i].1.clone(),
                anchor,
                distance: anchor.manhattan(foot) as u64,
            },
        );
        i = i + 1;
    }
    proof {
        let ids = choose|ids: Seq<u32>| #[trigger]
            lists_matched(rooms@.rooms, ids) && matched@.len() == ids.len() && forall|i: int|
                0 <= i < ids.len() ==> (#[trigger] matched@[i]).0 == RoomId(ids[i]) && Some(
                    matched@[i].1,
                ) == rooms@.rooms[ids[i]].pattern && is_anchor(
                    rooms@.rooms[ids[i]].floor_cells@,
                    matched@[i].2,
                );
        assert(lists_matched(rooms@.rooms, ids));
        assert(room_list(rooms, foot, list@));
    }
    nearest_of(list, limit)
}

// ---------- the whole picture ----------

/// An errand that is still to be done.
#[derive(Clone, Copy, Debug, PartialEq, Eq, Structural)]
pub struct PendingAssignment {
    pub cell: IVec3,
    pub items_remaining: u32,
}

/// Everything that a planner is told.
pub struct NpcSnapshot {
    pub id: u64,
    pub kind: String,
    pub foot: IVec3,
    pub needs: Needs,
    pub stats: Vec<StatValue>,
    pub nearby_rooms: Vec<NearbyRoom>,
    pub nearby_interactions: Vec<NearbyInteraction>,
    pub nearby_plans: Vec<NearbyPlan>,
    pub is_night: bool,
    pub pending: Option<PendingAssignment>,
}

/// Puts together what a planner is told.
pub fn build_snapshot(
    who: Onlooker,
    kind: &String,
    needs: &Needs,
    stats: &Vec<StatValue>,
    rooms: &RoomMap,
    things: &ThingScene,
    scene: &PlanScene,
    walk: &WorldWalk,
    clock: WorldClock,
) -> (r: NpcSnapshot)
    requires
        sound_state(rooms@),
        things_known(things),
        plans_known(scene, walk),
        scene.haul@.assignments.contains_key(who.id.0)
            ==> scene.haul@.assignments[who.id.0].queue.len() <= u32::MAX,
    ensures
        r.id == who.id.0,
        r.kind == *kind,
        r.foot == who.foot,
        r.needs@ == needs@,
        r.stats@ == stats@,
        nearest_rooms(rooms, who.foot, 8, r.nearby_rooms@),
        r.nearby_interactions@ == at_most(
            sorted_by_rank(
                usable_things(
                    things,
                    who.id,
                    who.foot,
                    things.cells.keys(),
                    things.cells.keys().len() as int,
                    48,
                ),
            ),
            8,
        ),
        r.nearby_plans@ == at_most(
            sorted_by_rank(
                workable_plans(
                    scene,
                    walk,
                    who,
                    scene.plans.cells(),
                    48,
                ),
            ),
            8,
        ),
        r.is_night == clock.night(),
        r.pending == if scene.haul@.assignments.contains_key(who.id.0) {
            Some(
                PendingAssignment {
                    cell: scene.haul@.assignments[who.id.0].target.place(),
                    items_remaining: scene.haul@.assignments[who.id.0].queue.len() as u32,
                },
            )
        } else {
            None
        },
{
    let nearby_rooms: Vec<NearbyRoom> = collect_nearby_rooms(rooms, who.foot, SNAPSHOT_ROOM_LIMIT);
    let nearby_interactions: Vec<NearbyInteraction> = collect_nearby_interactions(
        things,
        who.id,
        who.foot,
        SNAPSHOT_INTERACTION_RADIUS_CELLS,
        SNAPSHOT_INTERACTION_LIMIT,
    );
    let nearby_plans: Vec<NearbyPlan> = collect_nearby_plans(
        scene,
        walk,
        who,
        SNAPSHOT_PLAN_RADIUS_CELLS,
        SNAPSHOT_PLAN_LIMIT,
    );
    let pending: Option<PendingAssignment> = match scene.haul.assignment_of(who.id) {
        Some(a) => Some(
            PendingAssignment { cell: a.target.cell(), items_remaining: a.queue.len() as u32 },
        ),
        None => None,
    };
    NpcSnapshot {
        id: who.id.0,
        kind: kind.clone(),
        foot: who.foot,
        needs: needs.copy(),
        stats: copy_stats(stats),
        nearby_rooms,
        nearby_interactions,
        nearby_plans,
        is_night: clock.is_night(),
        pending,
    }
}

/// Whatever plan a villager is told of, it can work on it now, and it is told
/// of no more than the limit, the nearest first.
pub proof fn law_offered_plans_are_workable(
    scene: &PlanScene,
    walk: &WorldWalk,
    who: Onlooker,
    cells: Seq<IVec3>,
    radius: int,
    i: int,
)
    requires
        0 <= i < workable_plans(scene, walk, who, cells, radius).len(),
    ensures
        exists|k: int|
            0 <= k < cells.len() && plan_workable(scene, walk, who, #[trigger] cells[k], radius)
                && workable_plans(scene, walk, who, cells, radius)[i] == plan_entry(
                scene,
                walk,
                who,
                cells[k],
            ),
    decreases cells.len(),
{
    let all = workable_plans(scene, walk, who, cells, radius);
    let rest = workable_plans(scene, walk, who, cells.drop_last(), radius);
    if i < rest.len() {
        law_offered_plans_are_workable(scene, walk, who, cells.drop_last(), radius, i);
        let k = choose|k: int|
            0 <= k < cells.len() - 1 && plan_workable(
                scene,
                walk,
                who,
                #[trigger] cells.drop_last()[k],
                radius,
            ) && rest[i] == plan_entry(scene, walk, who, cells.drop_last()[k]);
        assert(cells.drop_last()[k] == cells[k]);
        assert(plan_workable(scene, walk, who, cells[k], radius));
    } else {
        assert(plan_workable(scene, walk, who, cells[cells.len() - 1], radius));
    }
}

/// The cells of a block that are not its anchor belong to their anchor, and face
/// as it does; a cell of which nothing is noted is its own anchor and faces east.
pub proof fn law_parts_belong_to_their_anchor(
    entries: Map<IVec3, EntryKind>,
    cell: IVec3,
    anchor: IVec3,
    facing: Cardinal,
)
    ensures
        !entries.contains_key(cell) ==> anchor_of(entries, cell) == cell && facing_of(entries, cell)
            == Cardinal::East,
        entries.contains_key(cell) && entries[cell] == (EntryKind::Anchor { orientation: facing })
            ==> anchor_of(entries, cell) == cell && facing_of(entries, cell) == facing,
        entries.contains_key(cell) && entries[cell] == (EntryKind::Part { anchor }) ==> {
            &&& anchor_of(entries, cell) == anchor
            &&& entries.contains_key(anchor) && entries[anchor] == (EntryKind::Anchor {
                orientation: facing,
            }) ==> facing_of(entries, cell) == facing
        },
{
}

/// Every plan that the villager could work on is among those it chooses from.
pub proof fn law_workable_plans_are_offered(
    scene: &PlanScene,
    walk: &WorldWalk,
    who: Onlooker,
    cells: Seq<IVec3>,
    radius: int,
    k: int,
)
    requires
        0 <= k < cells.len(),
        plan_workable(scene, walk, who, cells[k], radius),
    ensures
        workable_plans(scene, walk, who, cells, radius).contains(
            plan_entry(scene, walk, who, cells[k]),
        ),
    decreases cells.len(),
{
    let all = workable_plans(scene, walk, who, cells, radius);
    let rest = workable_plans(scene, walk, who, cells.drop_last(), radius);
    let e = plan_entry(scene, walk, who, cells[k]);
    if k < cells.len() - 1 {
        assert(cells.drop_last()[k] == cells[k]);
        law_workable_plans_are_offered(scene, walk, who, cells.drop_last(), radius, k);
        let p = rest.index_of(e);
        assert(all[p] == e);
    } else {
        assert(all[all.len() - 1] == e);
    }
}

/// How a plan is described: where it is, how far off, what is to be done, and
/// what the work eases and by how much, as its block says or as is usual.
pub proof fn law_plans_are_described(
    scene: &PlanScene,
    walk: &WorldWalk,
    who: Onlooker,
    cell: IVec3,
    slot: BlockSlot,
)
    requires
        scene.plans@.contains_key(cell),
        match scene.plans@[cell].kind {
            PlanKind::Build { slot: planned, .. } => slot == planned,
            PlanKind::Remove => walk.known(cell) && slot == walk.world().slot(cell) && slot
                != BlockSlot(0),
        },
    ensures
        ({
            let e = plan_entry(scene, walk, who, cell);
            let gives: Option<NeedRestore> = match walk.reg().defs@[slot.0 as int].work_action {
                Some(w) => w.need_restore,
                None => scene.defaults.need_restore,
            };
            &&& e.cell == cell
            &&& scene.plans@[cell].kind is Build ==> e.verb == WorkVerb::Build
            &&& scene.plans@[cell].kind is Remove ==> e.verb == WorkVerb::Destroy
            &&& gives is None ==> e.need is None && e.restores == 0
            &&& gives matches Some(nr) ==> e.need == Some(nr.need) && e.restores == nr.restores
            &&& cell.x >= who.foot.x && cell.y >= who.foot.y && cell.z >= who.foot.z ==> e.distance
                == (cell.x - who.foot.x) + (cell.y - who.foot.y) + (cell.z - who.foot.z)
            &&& e.distance == manhattan_spec(who.foot, cell)
        }),
{
}

/// A thing that can be used, lies within the radius on every axis, and is free is
/// offered, once for all cells of its block, under its anchor, with what it eases
/// and by how much; and nothing else is.
pub proof fn law_usable_things_are_offered(
    scene: &ThingScene,
    who: NpcId,
    foot: IVec3,
    cells: Seq<IVec3>,
    n: int,
    radius: int,
    k: int,
)
    requires
        0 <= k < n <= cells.len(),
    ensures
        ({
            let cell = cells[k];
            let anchor = anchor_of(scene.entries@, cell);
            let d = scene.registry.defs@[scene.cells@[cell].0 as int];
            let t = d.interactable->0;
            let near = -radius <= cell.x - foot.x <= radius && -radius <= cell.y - foot.y <= radius
                && -radius <= cell.z - foot.z <= radius && d.interactable is Some;
            let free = (t.exclusive && scene.claims@.claims.contains_key(anchor)
                ==> scene.claims@.claims[anchor] == who) && !(scene.claims@.memos.contains_key(anchor)
                && scene.claims@.memos[anchor] > scene.now);
            let list = usable_things(scene, who, foot, cells, n, radius);
            let entry = NearbyInteraction {
                cell: anchor,
                need: match t.need_restore {
                    Some(nr) => Some(nr.need),
                    None => None,
                },
                restores: match t.need_restore {
                    Some(nr) => nr.restores,
                    None => 0,
                },
                exclusive: t.exclusive,
                distance: manhattan_spec(anchor, foot) as u64,
            };
            &&& near && free && (forall|j: int|
                0 <= j < k ==> anchor_of(scene.entries@, #[trigger] cells[j]) != anchor)
                ==> list.contains(entry)
            &&& list.len() <= n
        }),
    decreases n,
{
    let list = usable_things(scene, who, foot, cells, n, radius);
    let rest = usable_things(scene, who, foot, cells, n - 1, radius);
    if k < n - 1 {
        law_usable_things_are_offered(scene, who, foot, cells, n - 1, radius, k);
        let e = thing_entry(scene, foot, cells[k]);
        if rest.contains(e) {
            let p = rest.index_of(e);
            assert(list[p] == e);
        }
    } else {
        lemma_no_more_things(scene, who, foot, cells, n - 1, radius);
        if list.len() > rest.len() {
            assert(list[list.len() - 1] == thing_entry(scene, foot, cells[n - 1]));
        }
    }
}

proof fn lemma_no_more_things(
    scene: &ThingScene,
    who: NpcId,
    foot: IVec3,
    cells: Seq<IVec3>,
    n: int,
    radius: int,
)
    requires
        0 <= n,
    ensures
        usable_things(scene, who, foot, cells, n, radius).len() <= n,
    decreases n,
{
    if n > 0 {
        lemma_no_more_things(scene, who, foot, cells, n - 1, radius);
    }
}

/// Whatever thing a villager is told of can be used, is near and is free.
pub proof fn law_offered_things_are_usable(
    scene: &ThingScene,
    who: NpcId,
    foot: IVec3,
    cells: Seq<IVec3>,
    n: int,
    radius: int,
    i: int,
) -> (k: int)
    requires
        0 <= n <= cells.len(),
        0 <= i < usable_things(scene, who, foot, cells, n, radius).len(),
    ensures
        0 <= k < n,
        ({
            let cell = cells[k];
            let anchor = anchor_of(scene.entries@, cell);
            let d = scene.registry.defs@[scene.cells@[cell].0 as int];
            let t = d.interactable->0;
            let e = usable_things(scene, who, foot, cells, n, radius)[i];
            &&& d.interactable is Some
            &&& -radius <= cell.x - foot.x <= radius && -radius <= cell.y - foot.y <= radius
                && -radius <= cell.z - foot.z <= radius
            &&& t.exclusive && scene.claims@.claims.contains_key(anchor)
                ==> scene.claims@.claims[anchor] == who
            &&& scene.claims@.memos.contains_key(anchor) ==> scene.claims@.memos[anchor] <= scene.now
            &&& e.cell == anchor
            &&& e.exclusive == t.exclusive
            &&& t.need_restore matches Some(nr) ==> e.need == Some(nr.need) && e.restores
                == nr.restores
        }),
    decreases n,
{
    let rest = usable_things(scene, who, foot, cells, n - 1, radius);
    if i < rest.len() {
        law_offered_things_are_usable(scene, who, foot, cells, n - 1, radius, i)
    } else {
        n - 1
    }
}

/// Of the plans, things and rooms that there are to choose from, a villager is
/// told of up to eight each, none of them farther off than one that it is not
/// told of, and the nearest first.
pub proof fn law_the_nearest_come_first(
    plans: Seq<NearbyPlan>,
    things: Seq<NearbyInteraction>,
    rooms: Seq<NearbyRoom>,
    i: int,
    j: int,
    k: int,
)
    requires
        0 <= i < j,
        0 <= k,
    ensures
        ({
            let told = at_most(sorted_by_rank(plans), 8);
            &&& told.len() <= 8 && (plans.len() <= 8 ==> told.len() == plans.len())
            &&& j < told.len() ==> told[i].distance <= told[j].distance
            &&& k < plans.len() && i < told.len() && !told.contains(plans[k]) ==> told.len() == 8
                && told[i].distance <= plans[k].distance
        }),
        ({
            let told = at_most(sorted_by_rank(things), 8);
            &&& told.len() <= 8 && (things.len() <= 8 ==> told.len() == things.len())
            &&& j < told.len() ==> told[i].distance <= told[j].distance
            &&& k < things.len() && i < told.len() && !told.contains(things[k]) ==> told.len() == 8
                && told[i].distance <= things[k].distance
        }),
        ({
            let told = at_most(sorted_by_rank(rooms), 8);
            &&& told.len() <= 8 && (rooms.len() <= 8 ==> told.len() == rooms.len())
            &&& j < told.len() ==> told[i].distance <= told[j].distance
            &&& k < rooms.len() && i < told.len() && !told.contains(rooms[k]) ==> told.len() == 8
                && told[i].distance <= rooms[k].distance
        }),
{
    law_sorted_by_rank(plans);
    law_sorted_by_rank(things);
    law_sorted_by_rank(rooms);
    if k < plans.len() {
        law_the_lowest_are_kept(plans, 8, k);
    }
    if k < things.len() {
        law_the_lowest_are_kept(things, 8, k);
    }
    if k < rooms.len() {
        law_the_lowest_are_kept(rooms, 8, k);
    }
}

/// The rooms to choose from are those that match a pattern, each once, with its
/// pattern, and as far off as the way along the axes to its anchor, a cell of
/// its floor, is long.
pub proof fn law_matched_rooms_are_offered(
    rooms: &RoomMap,
    foot: IVec3,
    list: Seq<NearbyRoom>,
    id: u32,
    i: int,
    j: int,
)
    requires
        room_list(rooms, foot, list),
        0 <= i < list.len(),
        0 <= j < list.len(),
    ensures
        ({
            let e = list[i];
            let room = rooms@.rooms[e.id];
            &&& rooms@.rooms.contains_key(e.id) && room.pattern == Some(e.pattern)
            &&& room.floor_cells@.contains(e.anchor)
            &&& e.distance == gap(e.anchor.x as int, foot.x as int) + gap(
                e.anchor.y as int,
                foot.y as int,
            ) + gap(e.anchor.z as int, foot.z as int)
            &&& e.id == list[j].id ==> i == j
        }),
        (exists|k: int| 0 <= k < list.len() && (#[trigger] list[k]).id == id) <==> (
        rooms@.rooms.contains_key(id) && rooms@.rooms[id].pattern is Some),
{
    let ids = choose|ids: Seq<u32>| #[trigger]
        lists_matched(rooms@.rooms, ids) && list.len() == ids.len() && forall|i: int|
            0 <= i < ids.len() ==> (#[trigger] list[i]).id == ids[i] && Some(list[i].pattern)
                == rooms@.rooms[ids[i]].pattern && is_anchor(
                rooms@.rooms[ids[i]].floor_cells@,
                list[i].anchor,
            ) && list[i].distance == manhattan_spec(list[i].anchor, foot);
    assert(list[i].id == ids[i] && list[j].id == ids[j]);
    assert(matched_in(rooms@.rooms, ids[i]));
    if i < j {
        assert(ids[i] < ids[j]);
    }
    if j < i {
        assert(ids[j] < ids[i]);
    }
    if exists|k: int| 0 <= k < list.len() && (#[trigger] list[k]).id == id {
        let k = choose|k: int| 0 <= k < list.len() && (#[trigger] list[k]).id == id;
        assert(matched_in(rooms@.rooms, ids[k]));
    }
    if rooms@.rooms.contains_key(id) && rooms@.rooms[id].pattern is Some {
        assert(matched_in(rooms@.rooms, id));
        let k = ids.index_of(id);
        assert(list[k].id == id);
    }
}

} // verus!
