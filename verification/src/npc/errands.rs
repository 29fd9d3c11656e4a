//! Errands: fetching things and taking them where they are wanted.

use crate::cells::{clear_of_limits, IVec3};
use crate::npc::goals::{walk_goal, ArrivalAction, Goal};
use crate::npc::holds::{
    haul_avoiding, haul_released, AssignmentView, HaulAssignment, HaulTarget, ReservedItem,
};
use crate::npc::places::{
    nearest_standable_neighbor, place_beside, plan_route, route_answer,
};
use crate::npc::village::{
    copy_path, idle_now, path_sound, wants_any, StationView, Stations, Village, VillageView, Villager,
    VillagerView,
};
use crate::npc_registry::NpcKindRegistry;
use crate::pathfinding::{path_view, Walkability};
use crate::plans::Plans;
use crate::protocol::{satisfied, Carrying, PlanView};
use vstd::prelude::*;

verus! {

/// How long one leg of an errand may take.
pub const HAUL_LEG_TIMEOUT_MS: u32 = 60000;

/// How long something out of reach is left alone.
pub const UNREACHABLE_RETRY_MS: u64 = 30000;

/// How much a villager of unknown kind carries.
pub const DEFAULT_NPC_CARRY_CAPACITY: u32 = 3;

/// How much a villager of a kind carries.
pub open spec fn capacity_of(kinds: &NpcKindRegistry, kind: Seq<char>) -> u32 {
    match kinds.find(kind) {
        Some(d) => d.carry_capacity,
        None => DEFAULT_NPC_CARRY_CAPACITY,
    }
}

pub fn carry_capacity(kinds: &NpcKindRegistry, kind: &String) -> (r: u32)
    ensures
        r == capacity_of(kinds, kind@),
{
    match kinds.get(kind) {
        Some(d) => d.carry_capacity,
        None => DEFAULT_NPC_CARRY_CAPACITY,
    }
}

// ---------- getting beside something ----------

/// `r` is a way to stand beside a cell: none at all for one who stands there
/// already, or a route, or `None` where there is no way.
pub open spec fn approach_answer<W: Walkability>(
    world: &W,
    foot: IVec3,
    target: IVec3,
    r: Option<Seq<IVec3>>,
) -> bool {
    match place_beside(world, target, foot) {
        None => r is None,
        Some(stand) => if stand == foot {
            r == Some(seq![foot])
        } else {
            route_answer(world, foot, stand, r)
        },
    }
}

/// Finds a way to stand beside a cell.
pub fn approach_route<W: Walkability>(world: &W, foot: IVec3, target: IVec3) -> (r: Option<
    Vec<IVec3>,
>)
    requires
        clear_of_limits(target, 3),
    ensures
        approach_answer(world, foot, target, path_view(r)),
        r matches Some(p) ==> p@.len() >= 1,
{
    match nearest_standable_neighbor(world, target, foot) {
        None => None,
        Some(stand) => {
            if stand == foot {
                let mut path: Vec<IVec3> = Vec::new();
                path.push(foot);
                assert(path@ =~= seq![foot]);
                Some(path)
            } else {
                plan_route(world, foot, stand)
            }
        },
    }
}

// ---------- the next leg ----------

/// The next leg of an errand.
#[derive(Clone, Copy, Debug, PartialEq, Eq, Structural)]
pub enum Leg {
    FetchTool(ReservedItem),
    Pickup(ReservedItem),
    Deliver(HaulTarget),
    Done,
}

/// The place of an errand still wants something.
pub open spec fn still_wanted(
    target: HaulTarget,
    plans: Map<IVec3, PlanView>,
    stations: Map<IVec3, StationView>,
) -> bool {
    match target {
        HaulTarget::Plan(cell) => plans.contains_key(cell) && !satisfied(plans[cell].materials),
        HaulTarget::Station(cell) => wants_any(stations, cell),
    }
}

/// What an errand does next: the tool first; then deliver once nothing more is
/// to be had or carried or wanted; else collect; and end with empty hands.
pub open spec fn next_leg(
    a: AssignmentView,
    carrying: Carrying,
    cap: u32,
    plans: Map<IVec3, PlanView>,
    stations: Map<IVec3, StationView>,
) -> Leg {
    let wanted = still_wanted(a.target, plans, stations);
    if a.pending_tool is Some {
        Leg::FetchTool(a.pending_tool->0)
    } else if !carrying.empty_handed() && (a.queue.len() == 0 || carrying.count >= cap || !wanted) {
        Leg::Deliver(a.target)
    } else if a.queue.len() > 0 && wanted {
        Leg::Pickup(a.queue[0])
    } else {
        Leg::Done
    }
}

/// Where a leg leads.
pub open spec fn leg_cell(leg: Leg) -> IVec3 {
    match leg {
        Leg::FetchTool(i) => i.cell,
        Leg::Pickup(i) => i.cell,
        Leg::Deliver(t) => t.place(),
        Leg::Done => IVec3 { x: 0, y: 0, z: 0 },
    }
}

/// What is done at the end of a leg.
pub open spec fn leg_action(leg: Leg, target: HaulTarget) -> ArrivalAction {
    match leg {
        Leg::FetchTool(i) => ArrivalAction::PickupTool { item_entity: i.entity, item_slot: i.item },
        Leg::Pickup(i) => ArrivalAction::PickupForPlan {
            item_entity: i.entity,
            item_slot: i.item,
            plan_cell: target.place(),
        },
        Leg::Deliver(HaulTarget::Plan(c)) => ArrivalAction::DepositAtPlan { plan_cell: c },
        Leg::Deliver(HaulTarget::Station(c)) => ArrivalAction::DepositAtStation { station_cell: c },
        Leg::Done => ArrivalAction::Nothing,
    }
}

fn is_wanted(target: HaulTarget, plans: &Plans, stations: &Stations) -> (r: bool)
    ensures
        r == still_wanted(target, plans@, stations@),
{
    match target {
        HaulTarget::Plan(cell) => match plans.get(cell) {
            Some(p) => !p.is_satisfied(),
            None => false,
        },
        HaulTarget::Station(cell) => stations.has_demand(cell),
    }
}

/// Decides the next leg of an errand.
pub fn pick_next_haul_leg(
    a: &HaulAssignment,
    carrying: &Carrying,
    cap: u32,
    plans: &Plans,
    stations: &Stations,
) -> (r: Leg)
    ensures
        r == next_leg(a@, *carrying, cap, plans@, stations@),
{
    if let Some(tool) = a.pending_tool {
        return Leg::FetchTool(tool);
    }
    let wanted: bool = is_wanted(a.target, plans, stations);
    if !carrying.is_empty() && (a.queue.len() == 0 || carrying.count >= cap || !wanted) {
        return Leg::Deliver(a.target);
    }
    if a.queue.len() > 0 && wanted {
        return Leg::Pickup(a.queue[0]);
    }
    Leg::Done
}

fn action_for(leg: Leg, target: HaulTarget) -> (r: ArrivalAction)
    ensures
        r == leg_action(leg, target),
{
    match leg {
        Leg::FetchTool(i) => ArrivalAction::PickupTool { item_entity: i.entity, item_slot: i.item },
        Leg::Pickup(i) => ArrivalAction::PickupForPlan {
            item_entity: i.entity,
            item_slot: i.item,
            plan_cell: target.cell(),
        },
        Leg::Deliver(HaulTarget::Plan(c)) => ArrivalAction::DepositAtPlan { plan_cell: c },
        Leg::Deliver(HaulTarget::Station(c)) => ArrivalAction::DepositAtStation { station_cell: c },
        Leg::Done => ArrivalAction::Nothing,
    }
}

// ---------- going on with an errand ----------

/// The leg that a villager is about to set out on.
pub open spec fn upcoming_leg(v: VillagerView, village: VillageView, cap: u32) -> Leg {
    if village.haul.assignments.contains_key(v.id.0) {
        next_leg(
            village.haul.assignments[v.id.0],
            v.carrying,
            cap,
            village.plans,
            village.stations,
        )
    } else {
        Leg::Done
    }
}

/// What becomes of the villager and the village, given the way to the next leg.
pub open spec fn errand_result(
    v: VillagerView,
    village: VillageView,
    cap: u32,
    now: u64,
    route: Option<Seq<IVec3>>,
) -> (VillagerView, VillageView, bool) {
    let leg = upcoming_leg(v, village, cap);
    let ended = VillageView { haul: haul_released(village.haul, v.id), ..village };
    if leg is Done {
        (idle_now(v), ended, false)
    } else {
        let target = village.haul.assignments[v.id.0].target;
        match route {
            Some(path) => (
                VillagerView {
                    goal: walk_goal(path, HAUL_LEG_TIMEOUT_MS, leg_action(leg, target), None),
                    path,
                    ..v
                },
                village,
                true,
            ),
            None => (
                idle_now(v),
                VillageView {
                    haul: haul_released(
                        haul_avoiding(
                            village.haul,
                            target,
                            (now + UNREACHABLE_RETRY_MS) as u64,
                        ),
                        v.id,
                    ),
                    ..village
                },
                false,
            ),
        }
    }
}

/// The villager went on with its errand, by some way to the next leg, or ended
/// it.
pub open spec fn errand_goes_on<W: Walkability>(
    world: &W,
    foot: IVec3,
    cap: u32,
    now: u64,
    before: (VillagerView, VillageView),
    after: (VillagerView, VillageView, bool),
) -> bool {
    exists|route: Option<Seq<IVec3>>| #[trigger]
        errand_by(world, foot, cap, now, before, after, route)
}

/// The villager went on with its errand by this way.
pub open spec fn errand_by<W: Walkability>(
    world: &W,
    foot: IVec3,
    cap: u32,
    now: u64,
    before: (VillagerView, VillageView),
    after: (VillagerView, VillageView, bool),
    route: Option<Seq<IVec3>>,
) -> bool {
    let leg = upcoming_leg(before.0, before.1, cap);
    &&& leg is Done || approach_answer(world, foot, leg_cell(leg), route)
    &&& after == errand_result(before.0, before.1, cap, now, route)
}

/// Every place of the villager's errand has coordinates all around it.
pub open spec fn errand_in_bounds(village: VillageView, id: u64) -> bool {
    village.haul.assignments.contains_key(id) ==> {
        let a = village.haul.assignments[id];
        &&& clear_of_limits(a.target.place(), 3)
        &&& a.pending_tool matches Some(t) ==> clear_of_limits(t.cell, 3)
        &&& forall|i: int|
            0 <= i < a.queue.len() ==> clear_of_limits((#[trigger] a.queue[i]).cell, 3)
    }
}

/// Sets out on the next leg of the errand, or ends it: `true` when under way.
pub fn continue_haul_or_release<W: Walkability>(
    v: &mut Villager,
    village: &mut Village,
    world: &W,
    foot: IVec3,
    cap: u32,
    now: u64,
) -> (r: bool)
    requires
        errand_in_bounds(old(village)@, old(v).id.0),
        now <= u64::MAX - UNREACHABLE_RETRY_MS,
    ensures
        errand_goes_on(
            world,
            foot,
            cap,
            now,
            (old(v)@, old(village)@),
            (final(v)@, final(village)@, r),
        ),
        path_sound(final(v)@),
        errand_in_bounds(final(village)@, final(v).id.0),
{
    let (leg, target) = match village.haul.assignment_of(v.id) {
        None => (Leg::Done, HaulTarget::Plan(foot)),
        Some(a) => (
            pick_next_haul_leg(a, &v.carrying, cap, &village.plans, &village.stations),
            a.target,
        ),
    };
    assert(leg == upcoming_leg(v@, village@, cap));
    let cell: IVec3 = match leg {
        Leg::FetchTool(i) => i.cell,
        Leg::Pickup(i) => i.cell,
        Leg::Deliver(t) => t.cell(),
        Leg::Done => {
            village.haul.release_for_npc(v.id);
            v.go_idle();
            assert(errand_by(
                world,
                foot,
                cap,
                now,
                (old(v)@, old(village)@),
                (v@, village@, false),
                None,
            ));
            return false;
        },
    };
    let route: Option<Vec<IVec3>> = approach_route(world, foot, cell);
    let ghost answer = path_view(route);
    match route {
        Some(path) => {
            v.path = copy_path(&path);
            v.goal = Goal::move_to(path, HAUL_LEG_TIMEOUT_MS, action_for(leg, target), None);
            assert(errand_by(
                world,
                foot,
                cap,
                now,
                (old(v)@, old(village)@),
                (v@, village@, true),
                answer,
            ));
            true
        },
        None => {
            village.haul.memo_unreachable(target, now + UNREACHABLE_RETRY_MS);
            village.haul.release_for_npc(v.id);
            v.go_idle();
            assert(errand_by(
                world,
                foot,
                cap,
                now,
                (old(v)@, old(village)@),
                (v@, village@, false),
                answer,
            ));
            false
        },
    }
}

/// An errand that cannot go on leaves nothing set aside, and the villager free.
pub proof fn law_ended_errands_free_everything<W: Walkability>(
    world: &W,
    foot: IVec3,
    cap: u32,
    now: u64,
    before: (VillagerView, VillageView),
    after: (VillagerView, VillageView, bool),
    item: u64,
)
    requires
        errand_goes_on(world, foot, cap, now, before, after),
        !after.2,
    ensures
        after.0.goal is Idle,
        after.0.carrying == before.0.carrying,
        !after.1.haul.assignments.contains_key(before.0.id.0),
        after.1.haul.reserved.contains_key(item) ==> after.1.haul.reserved[item] != before.0.id,
        after.1.plans == before.1.plans,
{
}

/// A villager under way on an errand walks to the errand's next place and keeps
/// what it carries.
pub proof fn law_errand_legs_lead_on<W: Walkability>(
    world: &W,
    foot: IVec3,
    cap: u32,
    now: u64,
    before: (VillagerView, VillageView),
    after: (VillagerView, VillageView, bool),
)
    requires
        errand_goes_on(world, foot, cap, now, before, after),
        after.2,
    ensures
        crate::npc::goals::on_errand(after.0.goal),
        after.0.carrying == before.0.carrying,
        after.1 == before.1,
        before.1.haul.assignments.contains_key(before.0.id.0),
{
}

} // verus!
