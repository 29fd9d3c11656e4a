//! What can be relied on about villagers, over whole ticks and over several of
//! their steps taken together.

use crate::blocks::{BlockSlot, NeedRestore, ToolGate, UseSlot, WorkAction};
use crate::cells::{gap, IVec3};
use crate::items::{ItemRegistry, ItemSlot};
use crate::npc::arrive::ArrivalResult;
use crate::npc::commit::{
    craft_by, footing_of, goes_crafting, goes_to, goes_using, goes_wandering, goes_working, goto_by,
    goto_target, home_box, turned_to, use_by, wander_by, wander_radius, work_by, Choice, Footing,
    PlannerGoal, PlannerScene,
};
use crate::npc::errands::{approach_answer, errand_by, errand_goes_on};
use crate::npc::goals::{shown_animation, ArrivalAction, GoalView};
use crate::npc::holds::HaulTarget;
use crate::npc::mind::{ticked, Surroundings};
use crate::npc::nearby::{anchor_of, facing_of, plan_workable, EntryKind, Onlooker, PlanScene};
use crate::npc::needs::{any_pressing, grown, law_easing_lowers_one_need, level_of};
use crate::npc::places::{
    eject_cells, law_routes_lead_there, law_wanderers_go_to_footing, law_wanderers_look_around, place_beside,
    use_place, wander_fits,
};
use crate::npc::rng::{bits_of, next_seed};
use crate::npc::tick::{leave_effect, Body};
use crate::npc::village::{wanted_at, Effect, VillageView, VillagerView};
use crate::npc::walk::WorldWalk;
use crate::npc_registry::{NpcKindRegistry, WorkDefaults};
use crate::pathfinding::can_stand;
use crate::protocol::{remaining, Carrying, PlanKind, PoseBits};
use crate::rooms::map::{in_matched_room, sound_state, spread_index, RoomState};
use vstd::prelude::*;

verus! {

// ---------- using things ----------

/// The level once it was lowered by an amount, though not below zero.
pub open spec fn lowered(level: u32, by: int) -> int {
    if level >= by {
        level - by
    } else {
        0
    }
}

/// While a villager uses something, the time left runs down and nothing else of
/// the use changes. When it is up, the need that the thing eases has dropped by
/// what the thing restores, every other need is what time made of it, the
/// villager is free, and what it had to itself is free too. Whoever slept is at
/// home in the settlement around the bed.
pub proof fn law_uses_run_their_course(
    s: &Surroundings,
    before: (VillagerView, VillageView),
    after: (VillagerView, VillageView, Seq<Effect>, ArrivalResult),
    remaining_ms: u32,
    need_restore: Option<NeedRestore>,
    target_cell: IVec3,
    anchor_cell: IVec3,
    exclusive: bool,
    animation: Option<String>,
    other: Seq<char>,
)
    requires
        ticked(s, before, after),
        before.0.goal == (GoalView::Interacting {
            remaining_ms,
            need_restore,
            target_cell,
            anchor_cell,
            exclusive,
            animation,
        }),
    ensures
        remaining_ms > s.dt ==> {
            &&& after.0.goal == (GoalView::Interacting {
                remaining_ms: (remaining_ms - s.dt) as u32,
                need_restore,
                target_cell,
                anchor_cell,
                exclusive,
                animation,
            })
            &&& after.0.needs == grown(before.0.needs, s.needs, s.dt as int)
            &&& after.0.locked == before.0.locked
            &&& after.0.home == before.0.home
            &&& after.1 == before.1
        },
        remaining_ms <= s.dt ==> {
            let later = grown(before.0.needs, s.needs, s.dt as int);
            &&& after.0.goal is Idle
            &&& !after.0.locked
            &&& need_restore is None ==> after.0.needs == later
            &&& need_restore is Some ==> level_of(after.0.needs, (need_restore->0).need@) == lowered(
                level_of(later, (need_restore->0).need@),
                (need_restore->0).restores as int,
            )
            &&& need_restore is Some && other != (need_restore->0).need@ ==> level_of(
                after.0.needs,
                other,
            ) == level_of(later, other)
            &&& (need_restore is Some && (need_restore->0).need@ == "sleep"@ && s.cluster is Some)
                ==> after.0.home == s.cluster
            &&& (need_restore is None || (need_restore->0).need@ != "sleep"@ || s.cluster is None)
                ==> after.0.home == before.0.home
            &&& exclusive && before.1.things.claims.contains_key(anchor_cell)
                && before.1.things.claims[anchor_cell] == before.0.id
                ==> !after.1.things.claims.contains_key(anchor_cell)
        },
        after.0.carrying == before.0.carrying,
        after.0.tool == before.0.tool,
{
    let later = grown(before.0.needs, s.needs, s.dt as int);
    if let Some(nr) = need_restore {
        law_easing_lowers_one_need(later, nr.need@, other, nr.restores as int);
    }
}

/// A villager that comes to the end of its way to a thing that can still be used
/// goes over to using it, with the same time, need, cells and animation that it
/// set out with, whatever happens around it.
pub proof fn law_arrivals_begin_the_use(
    s: &Surroundings,
    before: (VillagerView, VillageView),
    after: (VillagerView, VillageView, Seq<Effect>, ArrivalResult),
    path: Seq<IVec3>,
    edge: usize,
    deadline_ms: u32,
    need_restore: Option<NeedRestore>,
    duration_ms: u32,
    target_cell: IVec3,
    anchor_cell: IVec3,
    exclusive: bool,
    animation: Option<String>,
    snap: Option<PoseBits>,
)
    requires
        ticked(s, before, after),
        before.0.goal == (GoalView::MoveTo {
            path,
            edge,
            blocked: false,
            deadline_ms,
            on_arrive: ArrivalAction::Interact {
                need_restore,
                duration_ms,
                target_cell,
                anchor_cell,
                exclusive,
                animation,
            },
            snap,
        }),
        edge + 1 >= path.len(),
        !s.dirty,
    ensures
        ({
            let slot = s.walk.world().slot(target_cell);
            let usable = s.walk.known(target_cell) && slot != BlockSlot(0) && s.walk.reg().defs@[
                slot.0 as int
            ].interactable is Some;
            &&& usable ==> {
                &&& after.0.goal == (GoalView::Interacting {
                    remaining_ms: duration_ms,
                    need_restore,
                    target_cell,
                    anchor_cell,
                    exclusive,
                    animation,
                })
                &&& after.0.locked == (before.0.locked || snap is Some)
                &&& after.1 == before.1
                &&& snap matches Some(p) ==> after.2 == seq![Effect::SnapTo(p)]
            }
            &&& !usable ==> {
                &&& after.0.goal is Idle
                &&& exclusive && before.1.things.claims.contains_key(anchor_cell)
                    && before.1.things.claims[anchor_cell] == before.0.id
                    ==> !after.1.things.claims.contains_key(anchor_cell)
            }
        }),
        after.0.needs == grown(before.0.needs, s.needs, s.dt as int),
        after.0.carrying == before.0.carrying,
{
}

/// A villager that turns to a thing takes over what the thing's own kind says
/// about its use: for how long, within the limits of a tenth of a second and two
/// minutes, which need it eases and by how much, whether for one villager only,
/// and how the body moves. It makes no difference whether the villager stands
/// there already or has to walk first.
pub proof fn law_uses_are_what_the_thing_says(
    walk: &WorldWalk,
    entries: Map<IVec3, EntryKind>,
    foot: IVec3,
    cell: IVec3,
    timeout_ms: u32,
    pose: Option<PoseBits>,
    now: u64,
    before: (VillagerView, VillageView),
    after: Choice,
)
    requires
        goes_using(walk, entries, foot, cell, timeout_ms, pose, now, before, after),
    ensures
        ({
            let slot = walk.world().slot(cell);
            let d = walk.reg().defs@[slot.0 as int];
            let t = d.interactable->0;
            let lasts: int = if t.duration_ms < 100 {
                100
            } else if t.duration_ms > 120000 {
                120000
            } else {
                t.duration_ms as int
            };
            let usable = walk.known(cell) && slot != BlockSlot(0) && d.interactable is Some;
            match after.v.goal {
                GoalView::Interacting {
                    remaining_ms,
                    need_restore,
                    target_cell,
                    exclusive,
                    animation,
                    ..
                } => {
                    &&& usable
                    &&& remaining_ms == lasts
                    &&& need_restore == t.need_restore
                    &&& target_cell == cell
                    &&& exclusive == t.exclusive
                    &&& animation == (match d.use_slot {
                        Some(u) => u.animation,
                        None => None,
                    })
                    &&& after.pose == (match d.use_slot {
                        Some(u) => pose,
                        None => None,
                    })
                },
                GoalView::MoveTo { path, edge, blocked, on_arrive, snap, deadline_ms } => {
                    &&& usable
                    &&& edge == 0 && !blocked
                    &&& after.v.path == path
                    &&& 1000 <= deadline_ms <= 120000
                    &&& 1000 <= timeout_ms <= 120000 ==> deadline_ms == timeout_ms
                    &&& snap == (match d.use_slot {
                        Some(u) => pose,
                        None => None,
                    })
                    &&& match on_arrive {
                        ArrivalAction::Interact {
                            need_restore,
                            duration_ms,
                            target_cell,
                            exclusive,
                            animation,
                            ..
                        } => {
                            &&& duration_ms == lasts
                            &&& need_restore == t.need_restore
                            &&& target_cell == cell
                            &&& exclusive == t.exclusive
                            &&& animation == (match d.use_slot {
                                Some(u) => u.animation,
                                None => None,
                            })
                        },
                        _ => false,
                    }
                },
                GoalView::Resting { remaining_ms } => remaining_ms == 500,
                _ => false,
            }
        }),
        after.v.needs == before.0.needs,
        after.v.carrying == before.0.carrying,
        after.village.plans == before.1.plans,
        after.village.stations == before.1.stations,
{
}

// ---------- working on plans ----------

/// The tool in the villager's hands is good for what the block's work asks for.
pub open spec fn has_the_tool(items: &ItemRegistry, tool: Option<ItemSlot>, gate: ToolGate) -> bool {
    match gate.tool {
        None => true,
        Some(tag) => match tool {
            None => false,
            Some(slot) => slot.0 < items.defs@.len() && exists|k: int|
                0 <= k < items.defs@[slot.0 as int].tool_tags@.len() && (
                #[trigger] items.defs@[slot.0 as int].tool_tags@[k])@ == tag@,
        },
    }
}

/// The work of a villager that turns to a plan takes the time that the block's
/// kind gives, with the tool that its kind names or without need of one; in
/// hands without that tool it takes so many thousandths of that time as the kind
/// says for bare hands, and cannot be done where it says nothing for them. A
/// need that wears workers down stretches it once more, from the level on at
/// which it counts. Building and taking down each have their own tool and their
/// own terms for bare hands, and those of what is planned apply.
pub proof fn law_work_takes_its_time(
    walk: &WorldWalk,
    items: &ItemRegistry,
    defaults: &WorkDefaults,
    foot: IVec3,
    cell: IVec3,
    timeout_ms: u32,
    now: u64,
    before: (VillagerView, VillageView),
    after: (VillagerView, VillageView, bool),
    slot: BlockSlot,
    work: WorkAction,
    gate: ToolGate,
)
    requires
        goes_working(walk, items, defaults, foot, cell, timeout_ms, now, before, after),
        before.1.plans.contains_key(cell),
        match before.1.plans[cell].kind {
            PlanKind::Build { slot: planned, .. } => slot == planned && gate == work.build_gate,
            PlanKind::Remove => walk.known(cell) && slot == walk.world().slot(cell) && slot
                != BlockSlot(0) && gate == work.destroy_gate,
        },
        walk.reg().defs@[slot.0 as int].work_action == Some(work),
    ensures
        ({
            let worn: int = match defaults.worn_down {
                Some(b) => if level_of(before.0.needs, b.need@) >= b.above {
                    b.multiplier as int
                } else {
                    1000
                },
                None => 1000,
            };
            let served = has_the_tool(items, before.0.tool, gate);
            let bare: int = if gate.bare_handed is Some {
                gate.bare_handed->0 as int
            } else {
                0
            };
            let whole: int = if served {
                (work.duration_ms * 1000 * worn) / 1000000
            } else {
                (work.duration_ms * bare * worn) / 1000000
            };
            let lasts: int = if whole > u32::MAX {
                u32::MAX as int
            } else {
                whole
            };
            let can = served || gate.bare_handed is Some;
            let free = before.1.plan_claims.contains_key(cell) ==> before.1.plan_claims[cell]
                == before.0.id;
            &&& match after.0.goal {
                GoalView::Working { remaining_ms, target_cell, plan_kind, need_restore } => {
                    &&& can && free
                    &&& remaining_ms == lasts
                    &&& target_cell == cell
                    &&& plan_kind == before.1.plans[cell].kind
                    &&& need_restore == work.need_restore
                    &&& after.1.plan_claims == before.1.plan_claims.insert(cell, before.0.id)
                },
                GoalView::MoveTo { on_arrive, path, edge, blocked, .. } => {
                    &&& can && free
                    &&& edge == 0 && !blocked && after.0.path == path
                    &&& after.1.plan_claims == before.1.plan_claims.insert(cell, before.0.id)
                    &&& match on_arrive {
                        ArrivalAction::Work { duration_ms, target_cell, plan_kind, need_restore } => {
                            &&& duration_ms == lasts
                            &&& target_cell == cell
                            &&& plan_kind == before.1.plans[cell].kind
                            &&& need_restore == work.need_restore
                        },
                        _ => false,
                    }
                },
                GoalView::Resting { remaining_ms } => remaining_ms == 500,
                _ => false,
            }
            &&& (can && free && place_beside(walk, cell, foot) == Some(foot)) ==> after.0.goal
                is Working
            &&& served && worn == 1000 ==> lasts == work.duration_ms
            &&& !served && worn == 1000 && (work.duration_ms * bare) / 1000 <= u32::MAX ==> lasts == (
            work.duration_ms * bare) / 1000
        }),
        after.1.plans == before.1.plans,
        after.0.needs == before.0.needs,
{
    let worn: int = match defaults.worn_down {
        Some(b) => if level_of(before.0.needs, b.need@) >= b.above {
            b.multiplier as int
        } else {
            1000
        },
        None => 1000,
    };
    let bare: int = if gate.bare_handed is Some {
        gate.bare_handed->0 as int
    } else {
        0
    };
    let served = has_the_tool(items, before.0.tool, gate);
    assert(served == (match gate.tool {
        Some(tag) => items.has_tool_tag(before.0.tool, tag@),
        None => true,
    }));
    let d = work.duration_ms as int;
    assert(d * 1000 * 1000 == 1000000 * d);
    let part = d * bare;
    assert(part * 1000 == 1000 * part);
    assert((1000 * part) / 1000000 == part / 1000);
    let kind = before.1.plans[cell].kind;
    assert(crate::npc::nearby::plan_action(walk, kind, cell) == Some(work));
    assert(work.gate(kind.verb()) == gate);
}

/// A plan about a block that says nothing of work on it, or about nothing that
/// stands there, takes the usual time, whatever the villager holds.
pub proof fn law_other_work_takes_the_usual_time(
    walk: &WorldWalk,
    items: &ItemRegistry,
    defaults: &WorkDefaults,
    foot: IVec3,
    cell: IVec3,
    timeout_ms: u32,
    now: u64,
    before: (VillagerView, VillageView),
    after: (VillagerView, VillageView, bool),
)
    requires
        goes_working(walk, items, defaults, foot, cell, timeout_ms, now, before, after),
        before.1.plans.contains_key(cell),
        match before.1.plans[cell].kind {
            PlanKind::Build { slot, .. } => walk.reg().defs@[slot.0 as int].work_action is None,
            PlanKind::Remove => walk.known(cell) && walk.world().slot(cell) != BlockSlot(0)
                ==> walk.reg().defs@[walk.world().slot(cell).0 as int].work_action is None,
        },
        defaults.worn_down is None,
    ensures
        after.0.goal matches GoalView::Working { remaining_ms, need_restore, .. } ==> remaining_ms
            == defaults.duration_ms && need_restore == defaults.need_restore,
        after.0.goal matches GoalView::MoveTo {
            on_arrive: ArrivalAction::Work { duration_ms, need_restore, .. },
            ..
        } ==> duration_ms == defaults.duration_ms && need_restore == defaults.need_restore,
{
    let d = defaults.duration_ms as int;
    assert(d * 1000 * 1000 == 1000000 * d);
}

/// A villager that was not interrupted and comes to the end of its way to a plan
/// that still stands as it was works on it for the time and the need that it set
/// out with; where the plan is gone or another, it is idle and the plan is free.
pub proof fn law_arrivals_begin_the_work(
    s: &Surroundings,
    before: (VillagerView, VillageView),
    after: (VillagerView, VillageView, Seq<Effect>, ArrivalResult),
    path: Seq<IVec3>,
    edge: usize,
    deadline_ms: u32,
    duration_ms: u32,
    target_cell: IVec3,
    plan_kind: PlanKind,
    need_restore: Option<NeedRestore>,
    snap: Option<PoseBits>,
)
    requires
        ticked(s, before, after),
        before.0.goal == (GoalView::MoveTo {
            path,
            edge,
            blocked: false,
            deadline_ms,
            on_arrive: ArrivalAction::Work { duration_ms, target_cell, plan_kind, need_restore },
            snap,
        }),
        edge + 1 >= path.len(),
        !s.dirty,
        before.0.cooldown_ms > s.dt || !any_pressing(
            grown(before.0.needs, s.needs, s.dt as int),
            s.needs,
        ),
    ensures
        before.1.plans.contains_key(target_cell) && before.1.plans[target_cell].kind == plan_kind
            ==> after.0.goal == (GoalView::Working {
            remaining_ms: duration_ms,
            target_cell,
            plan_kind,
            need_restore,
        }) && after.1 == before.1,
        !(before.1.plans.contains_key(target_cell) && before.1.plans[target_cell].kind == plan_kind)
            ==> after.0.goal is Idle && after.1.plans == before.1.plans && !(
        after.1.plan_claims.contains_key(target_cell) && after.1.plan_claims[target_cell]
            == before.0.id),
        after.0.needs == grown(before.0.needs, s.needs, s.dt as int),
{
}

/// Work that is not interrupted goes on until its time is up. Then the plan is
/// reported as carried out, exactly where it still stands as it was, its need
/// has dropped by what the work restores, and the plan is free.
pub proof fn law_work_runs_its_course(
    s: &Surroundings,
    before: (VillagerView, VillageView),
    after: (VillagerView, VillageView, Seq<Effect>, ArrivalResult),
    remaining_ms: u32,
    target_cell: IVec3,
    plan_kind: PlanKind,
    need_restore: Option<NeedRestore>,
    other: Seq<char>,
)
    requires
        ticked(s, before, after),
        before.0.goal == (GoalView::Working { remaining_ms, target_cell, plan_kind, need_restore }),
        before.0.cooldown_ms > s.dt || !any_pressing(
            grown(before.0.needs, s.needs, s.dt as int),
            s.needs,
        ),
    ensures
        remaining_ms > s.dt ==> after.0.goal == (GoalView::Working {
            remaining_ms: (remaining_ms - s.dt) as u32,
            target_cell,
            plan_kind,
            need_restore,
        }) && after.1 == before.1 && after.2.len() == 0 && after.0.needs == grown(
            before.0.needs,
            s.needs,
            s.dt as int,
        ),
        remaining_ms <= s.dt ==> {
            let later = grown(before.0.needs, s.needs, s.dt as int);
            &&& after.0.goal is Idle
            &&& !after.0.locked
            &&& after.2.contains(Effect::WorkCompleted { cell: target_cell, kind: plan_kind })
                == (before.1.plans.contains_key(target_cell) && before.1.plans[target_cell].kind
                == plan_kind)
            &&& need_restore is None ==> after.0.needs == later
            &&& need_restore is Some ==> level_of(after.0.needs, (need_restore->0).need@) == lowered(
                level_of(later, (need_restore->0).need@),
                (need_restore->0).restores as int,
            )
            &&& need_restore is Some && other != (need_restore->0).need@ ==> level_of(
                after.0.needs,
                other,
            ) == level_of(later, other)
            &&& !(after.1.plan_claims.contains_key(target_cell) && after.1.plan_claims[target_cell]
                == before.0.id)
            &&& after.1.plans == before.1.plans
        },
        after.0.carrying == before.0.carrying,
        after.0.tool == before.0.tool,
{
    let later = grown(before.0.needs, s.needs, s.dt as int);
    if let Some(nr) = need_restore {
        law_easing_lowers_one_need(later, nr.need@, other, nr.restores as int);
    }
    if remaining_ms <= s.dt {
        let done = Effect::WorkCompleted { cell: target_cell, kind: plan_kind };
        if before.1.plans.contains_key(target_cell) && before.1.plans[target_cell].kind == plan_kind {
            assert(after.2[0] == done);
        }
    }
}

// ---------- errands ----------

/// The errand's target still wants something, of whatever kind.
pub open spec fn target_wants(village: VillageView, target: HaulTarget) -> bool {
    match target {
        HaulTarget::Plan(c) => village.plans.contains_key(c) && exists|k: int|
            0 <= k < village.plans[c].materials.len() && (
            #[trigger] village.plans[c].materials[k]).present < village.plans[c].materials[k].needed,
        HaulTarget::Station(c) => village.stations.contains_key(c) && exists|k: int|
            0 <= k < village.stations[c].demand.len() && (
            #[trigger] village.stations[c].demand[k]).count > 0,
    }
}

/// What a villager on an errand sets out for fits the errand. The tool comes
/// first. With something in hand, and nothing left to fetch, or hands as full as
/// they may be, or nothing more wanted, the villager goes to deliver: to the
/// plan where the errand is for a plan, to the station where it is for a
/// station. While something is wanted and left to fetch it goes for the first
/// item of its list. Where neither is so, the errand ends.
pub proof fn law_errand_legs_serve_their_target(
    walk: &WorldWalk,
    foot: IVec3,
    cap: u32,
    now: u64,
    before: (VillagerView, VillageView),
    after: (VillagerView, VillageView, bool),
)
    requires
        errand_goes_on(walk, foot, cap, now, before, after),
        before.1.haul.assignments.contains_key(before.0.id.0),
    ensures
        ({
            let a = before.1.haul.assignments[before.0.id.0];
            let hands = before.0.carrying.item is Some && before.0.carrying.count > 0;
            let wanted = target_wants(before.1, a.target);
            let delivers = hands && (a.queue.len() == 0 || before.0.carrying.count >= cap || !wanted);
            &&& after.2 ==> match after.0.goal {
                GoalView::MoveTo { path, edge, blocked, deadline_ms, on_arrive, snap } => {
                    &&& edge == 0 && !blocked && deadline_ms == 60000 && snap is None
                    &&& after.0.path == path
                    &&& match on_arrive {
                        ArrivalAction::PickupTool { item_entity, item_slot } => {
                            &&& a.pending_tool is Some
                            &&& item_entity == (a.pending_tool->0).entity
                            &&& item_slot == (a.pending_tool->0).item
                        },
                        ArrivalAction::DepositAtPlan { plan_cell } => a.pending_tool is None
                            && delivers && a.target == HaulTarget::Plan(plan_cell),
                        ArrivalAction::DepositAtStation { station_cell } => a.pending_tool is None
                            && delivers && a.target == HaulTarget::Station(station_cell),
                        ArrivalAction::PickupForPlan { item_entity, item_slot, plan_cell } => {
                            &&& a.pending_tool is None && !delivers && wanted && a.queue.len() > 0
                            &&& item_entity == a.queue[0].entity
                            &&& item_slot == a.queue[0].item
                            &&& (a.target == HaulTarget::Plan(plan_cell) || a.target
                                == HaulTarget::Station(plan_cell))
                        },
                        _ => false,
                    }
                },
                _ => false,
            }
            &&& after.2 && a.pending_tool is None && delivers && a.target is Plan
                ==> after.0.goal->on_arrive is DepositAtPlan
            &&& after.2 && a.pending_tool is None && delivers && a.target is Station
                ==> after.0.goal->on_arrive is DepositAtStation
            &&& after.2 && a.pending_tool is Some ==> after.0.goal->on_arrive is PickupTool
            &&& a.pending_tool is None && !delivers && !(wanted && a.queue.len() > 0) ==> !after.2
            &&& !after.2 ==> after.0.goal is Idle && !after.1.haul.assignments.contains_key(
                before.0.id.0,
            )
        }),
        after.0.carrying == before.0.carrying,
        after.0.tool == before.0.tool,
        after.0.needs == before.0.needs,
        after.1.plans == before.1.plans,
        after.1.stations == before.1.stations,
{
    let a = before.1.haul.assignments[before.0.id.0];
    if let HaulTarget::Plan(c) = a.target {
        if before.1.plans.contains_key(c) {
            let list = before.1.plans[c].materials;
            if !crate::protocol::satisfied(list) {
                let k = choose|k: int|
                    0 <= k < list.len() && !((#[trigger] list[k]).present >= list[k].needed);
                assert(list[k].present < list[k].needed);
            }
        }
    }
}

/// A villager that was not interrupted and comes to the station it delivers to
/// leaves there as much of what it carries as the station wants, no more, and
/// the station's want drops by just that. Other wants stay. A station that is
/// gone or wants nothing of it ends the errand, and the villager keeps what it
/// carries.
pub proof fn law_deliveries_reach_the_station(
    s: &Surroundings,
    before: (VillagerView, VillageView),
    after: (VillagerView, VillageView, Seq<Effect>, ArrivalResult),
    path: Seq<IVec3>,
    edge: usize,
    deadline_ms: u32,
    station_cell: IVec3,
    snap: Option<PoseBits>,
    item: ItemSlot,
)
    requires
        ticked(s, before, after),
        before.0.goal == (GoalView::MoveTo {
            path,
            edge,
            blocked: false,
            deadline_ms,
            on_arrive: ArrivalAction::DepositAtStation { station_cell },
            snap,
        }),
        edge + 1 >= path.len(),
        !s.dirty,
        before.0.cooldown_ms > s.dt || !any_pressing(
            grown(before.0.needs, s.needs, s.dt as int),
            s.needs,
        ),
        before.0.carrying.item == Some(item),
        before.0.carrying.count > 0,
    ensures
        ({
            let slot = s.walk.world().slot(station_cell);
            let stands = s.walk.known(station_cell) && slot != BlockSlot(0) && s.walk.reg().defs@[
                slot.0 as int
            ].station_tag is Some;
            let wants = wanted_at(before.1.stations, station_cell, item);
            let carried = before.0.carrying.count;
            &&& stands && 0 < wants < carried ==> {
                &&& wanted_at(after.1.stations, station_cell, item) == 0
                &&& after.0.carrying == (Carrying {
                    item: Some(item),
                    count: (carried - wants) as u32,
                })
            }
            &&& stands && wants > carried ==> {
                &&& wanted_at(after.1.stations, station_cell, item) == wants - carried
                &&& after.0.carrying == (Carrying { item: None, count: 0 })
            }
            &&& stands && wants == carried ==> {
                &&& wanted_at(after.1.stations, station_cell, item) == 0
                &&& after.0.carrying == (Carrying { item: None, count: 0 })
            }
            &&& stands && wants > 0 ==> after.2.contains(Effect::AnnounceStation(station_cell))
            &&& !stands || wants == 0 ==> {
                &&& after.0.goal is Idle
                &&& after.0.carrying == before.0.carrying
                &&& after.1.stations == before.1.stations
                &&& !after.1.haul.assignments.contains_key(before.0.id.0)
            }
        }),
        forall|c: IVec3, other: ItemSlot|
            c != station_cell || other != item ==> #[trigger] wanted_at(after.1.stations, c, other)
                == wanted_at(before.1.stations, c, other),
        after.1.plans == before.1.plans,
        after.0.tool == before.0.tool,
{
    crate::npc::village::law_delivery_meets_demand(
        before.1.stations,
        station_cell,
        item,
        before.0.carrying.count as int,
    );
    assert forall|c: IVec3, other: ItemSlot|
        c != station_cell || other != item implies #[trigger] wanted_at(after.1.stations, c, other)
        == wanted_at(before.1.stations, c, other) by {
        crate::npc::village::lemma_other_wants_stay(
            before.1.stations,
            station_cell,
            item,
            crate::cells::min_of(
                wanted_at(before.1.stations, station_cell, item) as int,
                before.0.carrying.count as int,
            ),
            c,
            other,
        );
    }
    let announce = Effect::AnnounceStation(station_cell);
    if after.2.len() > 0 && after.2[after.2.len() - 1] == announce {
        assert(after.2.contains(announce));
    }
}

/// A villager that was not interrupted and comes to the plan it delivers to
/// leaves there as much of what it carries as the plan lacks, no more, and the
/// plan lacks just so much less. A plan that is gone, is not one to build, or
/// lacks nothing of it ends the errand, and the villager keeps what it carries.
pub proof fn law_deliveries_reach_the_plan(
    s: &Surroundings,
    before: (VillagerView, VillageView),
    after: (VillagerView, VillageView, Seq<Effect>, ArrivalResult),
    path: Seq<IVec3>,
    edge: usize,
    deadline_ms: u32,
    plan_cell: IVec3,
    snap: Option<PoseBits>,
    item: ItemSlot,
    other: ItemSlot,
)
    requires
        ticked(s, before, after),
        before.0.goal == (GoalView::MoveTo {
            path,
            edge,
            blocked: false,
            deadline_ms,
            on_arrive: ArrivalAction::DepositAtPlan { plan_cell },
            snap,
        }),
        edge + 1 >= path.len(),
        !s.dirty,
        before.0.cooldown_ms > s.dt || !any_pressing(
            grown(before.0.needs, s.needs, s.dt as int),
            s.needs,
        ),
        before.0.carrying.item == Some(item),
        before.0.carrying.count > 0,
        other != item,
    ensures
        ({
            let stands = before.1.plans.contains_key(plan_cell) && before.1.plans[plan_cell].kind
                is Build;
            let lacks = remaining(before.1.plans[plan_cell].materials, item);
            let carried = before.0.carrying.count;
            &&& stands && lacks > 0 ==> {
                &&& after.1.plans.contains_key(plan_cell)
                &&& after.1.plans[plan_cell].kind == before.1.plans[plan_cell].kind
                &&& lacks < carried ==> remaining(after.1.plans[plan_cell].materials, item) == 0
                    && after.0.carrying == (Carrying {
                    item: Some(item),
                    count: (carried - lacks) as u32,
                })
                &&& lacks >= carried ==> remaining(after.1.plans[plan_cell].materials, item) == lacks
                    - carried && after.0.carrying == (Carrying { item: None, count: 0 })
                &&& remaining(after.1.plans[plan_cell].materials, other) == remaining(
                    before.1.plans[plan_cell].materials,
                    other,
                )
                &&& after.2.contains(Effect::AnnouncePlan(plan_cell))
            }
            &&& !stands || lacks == 0 ==> {
                &&& after.0.goal is Idle
                &&& after.0.carrying == before.0.carrying
                &&& after.1.plans == before.1.plans
                &&& !after.1.haul.assignments.contains_key(before.0.id.0)
            }
        }),
        forall|c: IVec3|
            c != plan_cell ==> (#[trigger] after.1.plans.contains_key(c)
                == before.1.plans.contains_key(c)) && (before.1.plans.contains_key(c)
                ==> after.1.plans[c] == before.1.plans[c]),
        after.1.stations == before.1.stations,
        after.0.tool == before.0.tool,
{
    if before.1.plans.contains_key(plan_cell) {
        crate::plans::law_deliveries_are_taken_up(
            before.1.plans[plan_cell],
            item,
            before.0.carrying.count as int,
            other,
        );
    }
    let announce = Effect::AnnouncePlan(plan_cell);
    if after.2.len() > 0 && after.2[after.2.len() - 1] == announce {
        assert(after.2.contains(announce));
    }
}

/// A villager that was not interrupted and comes to an item it was to fetch
/// takes one of it, where it still lies there and fits into the hands: the hands
/// hold one more of that kind and the item leaves the world. Else the errand
/// ends with the hands as they were.
pub proof fn law_fetched_items_are_in_hand(
    s: &Surroundings,
    before: (VillagerView, VillageView),
    after: (VillagerView, VillageView, Seq<Effect>, ArrivalResult),
    path: Seq<IVec3>,
    edge: usize,
    deadline_ms: u32,
    item_entity: u64,
    item_slot: ItemSlot,
    plan_cell: IVec3,
    snap: Option<PoseBits>,
)
    requires
        ticked(s, before, after),
        before.0.goal == (GoalView::MoveTo {
            path,
            edge,
            blocked: false,
            deadline_ms,
            on_arrive: ArrivalAction::PickupForPlan { item_entity, item_slot, plan_cell },
            snap,
        }),
        edge + 1 >= path.len(),
        !s.dirty,
        before.0.cooldown_ms > s.dt || !any_pressing(
            grown(before.0.needs, s.needs, s.dt as int),
            s.needs,
        ),
    ensures
        ({
            let lies = s.ground@.contains_key(item_entity) && s.ground@[item_entity] == item_slot;
            let none = before.0.carrying.item is None || before.0.carrying.count == 0;
            let fits = if none {
                s.cap > 0
            } else {
                before.0.carrying.item == Some(item_slot) && before.0.carrying.count < s.cap
            };
            &&& lies && fits ==> {
                &&& after.0.carrying.item == Some(item_slot)
                &&& after.0.carrying.count == (if none {
                    1
                } else {
                    before.0.carrying.count + 1
                })
                &&& after.2.contains(Effect::TakeItem(item_entity))
                &&& !(after.1.haul.reserved.contains_key(item_entity)
                    && after.1.haul.reserved[item_entity] == before.0.id)
                &&& after.1.haul.assignments.contains_key(before.0.id.0) ==> forall|k: int|
                    0 <= k < after.1.haul.assignments[before.0.id.0].queue.len() ==> (
                    #[trigger] after.1.haul.assignments[before.0.id.0].queue[k]).entity != item_entity
            }
            &&& !lies || !fits ==> {
                &&& after.0.goal is Idle
                &&& after.0.carrying == before.0.carrying
                &&& !after.2.contains(Effect::TakeItem(item_entity))
                &&& !after.1.haul.assignments.contains_key(before.0.id.0)
            }
        }),
        after.1.plans == before.1.plans,
        after.1.stations == before.1.stations,
        after.0.tool == before.0.tool,
{
    let take = Effect::TakeItem(item_entity);
    if after.2.len() > 0 && after.2[after.2.len() - 1] == take {
        assert(after.2.contains(take));
    }
    if before.1.haul.assignments.contains_key(before.0.id.0) {
        crate::npc::holds::law_dropped_items_leave_the_list(
            before.1.haul.assignments[before.0.id.0].queue,
            item_entity,
        );
    }
}

/// A villager that was not interrupted and comes to a tool it was to fetch, where
/// the tool still lies there, has it as its tool; the tool it had before is put
/// down, unless it is of the same kind.
pub proof fn law_fetched_tools_are_in_hand(
    s: &Surroundings,
    before: (VillagerView, VillageView),
    after: (VillagerView, VillageView, Seq<Effect>, ArrivalResult),
    path: Seq<IVec3>,
    edge: usize,
    deadline_ms: u32,
    item_entity: u64,
    item_slot: ItemSlot,
    snap: Option<PoseBits>,
)
    requires
        ticked(s, before, after),
        before.0.goal == (GoalView::MoveTo {
            path,
            edge,
            blocked: false,
            deadline_ms,
            on_arrive: ArrivalAction::PickupTool { item_entity, item_slot },
            snap,
        }),
        edge + 1 >= path.len(),
        !s.dirty,
        before.0.cooldown_ms > s.dt || !any_pressing(
            grown(before.0.needs, s.needs, s.dt as int),
            s.needs,
        ),
    ensures
        ({
            let lies = s.ground@.contains_key(item_entity) && s.ground@[item_entity] == item_slot;
            &&& lies ==> {
                &&& after.0.tool == Some(item_slot)
                &&& before.0.tool is None || before.0.tool == Some(item_slot) ==> after.2.contains(
                    Effect::SwapTool { taken: item_entity, dropped: None },
                )
                &&& before.0.tool is Some && before.0.tool != Some(item_slot) ==> after.2.contains(
                    Effect::SwapTool { taken: item_entity, dropped: before.0.tool },
                )
                &&& after.1.haul.assignments.contains_key(before.0.id.0)
                    ==> after.1.haul.assignments[before.0.id.0].pending_tool is None
            }
            &&& !lies ==> {
                &&& after.0.goal is Idle
                &&& after.0.tool == before.0.tool
                &&& !after.1.haul.assignments.contains_key(before.0.id.0)
            }
        }),
        after.0.carrying == before.0.carrying,
        after.1.plans == before.1.plans,
        after.1.stations == before.1.stations,
{
    let plain = Effect::SwapTool { taken: item_entity, dropped: None };
    let swap = Effect::SwapTool { taken: item_entity, dropped: before.0.tool };
    if after.2.len() > 0 {
        let last = after.2[after.2.len() - 1];
        assert(after.2.contains(last));
    }
}

// ---------- time and ways ----------

/// A villager that rests does so until its time is up, and then has nothing to
/// do.
pub proof fn law_rests_end(
    s: &Surroundings,
    before: (VillagerView, VillageView),
    after: (VillagerView, VillageView, Seq<Effect>, ArrivalResult),
    remaining_ms: u32,
)
    requires
        ticked(s, before, after),
        before.0.goal == (GoalView::Resting { remaining_ms }),
    ensures
        remaining_ms > s.dt ==> after.0.goal == (GoalView::Resting {
            remaining_ms: (remaining_ms - s.dt) as u32,
        }),
        remaining_ms <= s.dt ==> after.0.goal is Idle,
        after.0.needs == grown(before.0.needs, s.needs, s.dt as int),
        after.1 == before.1,
        after.2.len() == 0,
{
}

/// Sleep on the ground eases its need by its share of the time slept, and ends
/// when its time is up or the need is gone.
pub proof fn law_sleep_eases_with_time(
    s: &Surroundings,
    before: (VillagerView, VillageView),
    after: (VillagerView, VillageView, Seq<Effect>, ArrivalResult),
    remaining_ms: u32,
    need: String,
    restores: u32,
    over_ms: u32,
    animation: Option<String>,
    other: Seq<char>,
)
    requires
        ticked(s, before, after),
        before.0.goal == (GoalView::SleepingGround {
            remaining_ms,
            need,
            restores,
            over_ms,
            animation,
        }),
        over_ms > 0,
        other != need@,
    ensures
        ({
            let later = grown(before.0.needs, s.needs, s.dt as int);
            let eases = (restores * s.dt) / (over_ms as int);
            let has = exists|k: int|
                0 <= k < before.0.needs.len() && (#[trigger] before.0.needs[k]).id@ == need@;
            &&& level_of(after.0.needs, need@) == lowered(level_of(later, need@), eases)
            &&& level_of(after.0.needs, other) == level_of(later, other)
            &&& after.0.goal is Idle <==> remaining_ms <= s.dt || (has && level_of(later, need@)
                <= eases)
            &&& !(after.0.goal is Idle) ==> after.0.goal == (GoalView::SleepingGround {
                remaining_ms: (remaining_ms - s.dt) as u32,
                need,
                restores,
                over_ms,
                animation,
            })
        }),
        after.1 == before.1,
{
    let later = grown(before.0.needs, s.needs, s.dt as int);
    let eases = (restores * s.dt) / (over_ms as int);
    assert(restores * s.dt >= 0) by (nonlinear_arith)
        requires
            restores >= 0,
            s.dt >= 0,
    ;
    assert(eases >= 0) by (nonlinear_arith)
        requires
            eases == (restores * s.dt) / (over_ms as int),
            restores * s.dt >= 0,
            over_ms > 0,
    ;
    law_easing_lowers_one_need(later, need@, other, eases);
    crate::registry::lemma_position(later, need@, 0);
    assert forall|k: int| 0 <= k < later.len() implies (#[trigger] later[k]).id
        == before.0.needs[k].id by {}
    if let Some(k) = crate::registry::position_of(later, need@, 0) {
        assert(later[k].id@ == need@);
        assert(before.0.needs[k].id@ == need@);
    } else {
        assert forall|k: int| 0 <= k < before.0.needs.len() implies (
        #[trigger] before.0.needs[k]).id@ != need@ by {
            assert(later[k].id == before.0.needs[k].id);
            assert(crate::registry::Named::name(&later[k]) == later[k].id@);
        }
    }
}

/// A villager on a way that holds, with cells still before it, walks on while
/// there is time: its way, what it is to do at the end of it and its place on it
/// stay, and the time left runs down. When the time is up it gives up and is
/// idle.
pub proof fn law_walks_go_on_in_time(
    s: &Surroundings,
    before: (VillagerView, VillageView),
    after: (VillagerView, VillageView, Seq<Effect>, ArrivalResult),
    path: Seq<IVec3>,
    edge: usize,
    deadline_ms: u32,
    on_arrive: ArrivalAction,
    snap: Option<PoseBits>,
)
    requires
        ticked(s, before, after),
        before.0.goal == (GoalView::MoveTo {
            path,
            edge,
            blocked: false,
            deadline_ms,
            on_arrive,
            snap,
        }),
        edge + 1 < path.len(),
        !s.dirty,
        before.0.cooldown_ms > s.dt || !any_pressing(
            grown(before.0.needs, s.needs, s.dt as int),
            s.needs,
        ),
    ensures
        deadline_ms > s.dt ==> after.0.goal == (GoalView::MoveTo {
            path,
            edge,
            blocked: false,
            deadline_ms: (deadline_ms - s.dt) as u32,
            on_arrive,
            snap,
        }) && after.1 == before.1 && after.0.path == before.0.path,
        deadline_ms <= s.dt ==> after.0.goal is Idle && after.0.path.len() == 0,
        after.0.carrying == before.0.carrying,
        after.0.needs == grown(before.0.needs, s.needs, s.dt as int),
        after.2.len() == 0,
        after.1.plans == before.1.plans,
{
}

/// What a villager gives up on the way because its time is up is left alone for
/// half a minute, and free: the thing it was to use, the plan it was to work on,
/// the target of its errand, the station it was booked for.
pub proof fn law_given_up_ways_wait(
    s: &Surroundings,
    before: (VillagerView, VillageView),
    after: (VillagerView, VillageView, Seq<Effect>, ArrivalResult),
    path: Seq<IVec3>,
    edge: usize,
    deadline_ms: u32,
    on_arrive: ArrivalAction,
    snap: Option<PoseBits>,
)
    requires
        ticked(s, before, after),
        before.0.goal == (GoalView::MoveTo {
            path,
            edge,
            blocked: false,
            deadline_ms,
            on_arrive,
            snap,
        }),
        edge + 1 < path.len(),
        !s.dirty,
        deadline_ms <= s.dt,
        before.0.cooldown_ms > s.dt || !any_pressing(
            grown(before.0.needs, s.needs, s.dt as int),
            s.needs,
        ),
        s.now <= u64::MAX - 30000,
    ensures
        match on_arrive {
            ArrivalAction::Interact { anchor_cell, exclusive, .. } => {
                &&& after.1.things.memos.contains_key(anchor_cell)
                &&& after.1.things.memos[anchor_cell] == s.now + 30000
                &&& exclusive ==> !(after.1.things.claims.contains_key(anchor_cell)
                    && after.1.things.claims[anchor_cell] == before.0.id)
            },
            ArrivalAction::Work { target_cell, .. } => {
                &&& after.1.haul.plan_memos.contains_key(target_cell)
                &&& after.1.haul.plan_memos[target_cell] == s.now + 30000
                &&& !(after.1.plan_claims.contains_key(target_cell)
                    && after.1.plan_claims[target_cell] == before.0.id)
            },
            ArrivalAction::WorkStation { .. } => !after.1.bookings.stations.contains_key(
                before.0.id.0,
            ),
            ArrivalAction::Nothing => after.1 == before.1,
            _ => {
                &&& !after.1.haul.assignments.contains_key(before.0.id.0)
                &&& before.1.haul.assignments.contains_key(before.0.id.0) ==> match before.1.haul.assignments[before.0.id.0].target {
                    HaulTarget::Plan(c) => after.1.haul.plan_memos.contains_key(c)
                        && after.1.haul.plan_memos[c] == s.now + 30000,
                    HaulTarget::Station(c) => after.1.haul.station_memos.contains_key(c)
                        && after.1.haul.station_memos[c] == s.now + 30000,
                }
            },
        },
{
}

/// Crafting goes on while the villager is booked for the station and registered
/// at it and there is work, begun or ready; else it ends and the villager is
/// free for another station.
pub proof fn law_crafting_needs_work(
    s: &Surroundings,
    before: (VillagerView, VillageView),
    after: (VillagerView, VillageView, Seq<Effect>, ArrivalResult),
    station_cell: IVec3,
)
    requires
        ticked(s, before, after),
        before.0.goal == (GoalView::CraftingAtStation { station_cell }),
        before.0.cooldown_ms > s.dt || !any_pressing(
            grown(before.0.needs, s.needs, s.dt as int),
            s.needs,
        ),
    ensures
        ({
            let b = before.1.bookings;
            let goes_on = b.workers.contains_key(station_cell) && b.workers[station_cell]
                == before.0.entity && b.stations.contains_key(before.0.id.0)
                && b.stations[before.0.id.0] == station_cell && before.1.stations.contains_key(
                station_cell,
            ) && (before.1.stations[station_cell].active || before.1.stations[station_cell].ready);
            &&& goes_on ==> after.0.goal == before.0.goal && after.1 == before.1
            &&& !goes_on ==> after.0.goal is Idle && !after.1.bookings.stations.contains_key(
                before.0.id.0,
            )
        }),
        after.0.carrying == before.0.carrying,
{
}

/// A villager that was not interrupted and comes to the station it is booked for
/// takes over work that is under way there and has no worker; where there is
/// none it tries to begin an order; and where the station is gone it is free for
/// another.
pub proof fn law_arrivals_at_stations(
    s: &Surroundings,
    before: (VillagerView, VillageView),
    after: (VillagerView, VillageView, Seq<Effect>, ArrivalResult),
    path: Seq<IVec3>,
    edge: usize,
    deadline_ms: u32,
    station_cell: IVec3,
    snap: Option<PoseBits>,
)
    requires
        ticked(s, before, after),
        before.0.goal == (GoalView::MoveTo {
            path,
            edge,
            blocked: false,
            deadline_ms,
            on_arrive: ArrivalAction::WorkStation { station_cell },
            snap,
        }),
        edge + 1 >= path.len(),
        !s.dirty,
        before.0.cooldown_ms > s.dt || !any_pressing(
            grown(before.0.needs, s.needs, s.dt as int),
            s.needs,
        ),
    ensures
        ({
            let slot = s.walk.world().slot(station_cell);
            let stands = s.walk.known(station_cell) && slot != BlockSlot(0) && s.walk.reg().defs@[
                slot.0 as int
            ].station_tag is Some;
            let active = before.1.stations.contains_key(station_cell)
                && before.1.stations[station_cell].active;
            let manned = before.1.bookings.workers.contains_key(station_cell);
            &&& !stands ==> after.0.goal is Idle && !after.1.bookings.stations.contains_key(
                before.0.id.0,
            )
            &&& stands && active && !manned ==> {
                &&& after.0.goal == (GoalView::CraftingAtStation { station_cell })
                &&& after.1.bookings.workers.contains_key(station_cell)
                &&& after.1.bookings.workers[station_cell] == before.0.entity
                &&& after.1.bookings.stations == before.1.bookings.stations
            }
            &&& stands && (!active || manned) ==> after.3 == ArrivalResult::StartOrder(station_cell)
                && after.1 == before.1
        }),
        after.1.stations == before.1.stations,
{
}

/// Which goals a pressing need may interrupt: work, crafting, and ways to work,
/// to a station or of an errand; neither rest nor sleep, nor the use of things
/// or the way to them, nor a walk for its own sake. It does so at once where the
/// last interruption lies far enough back, and the next one is five seconds off.
pub proof fn law_pressing_needs_interrupt(
    s: &Surroundings,
    before: (VillagerView, VillageView),
    after: (VillagerView, VillageView, Seq<Effect>, ArrivalResult),
)
    requires
        ticked(s, before, after),
        any_pressing(grown(before.0.needs, s.needs, s.dt as int), s.needs),
        before.0.cooldown_ms <= s.dt,
        match before.0.goal {
            GoalView::Working { .. } => true,
            GoalView::CraftingAtStation { .. } => true,
            GoalView::MoveTo { on_arrive, .. } => match on_arrive {
                ArrivalAction::Nothing => false,
                ArrivalAction::Interact { .. } => false,
                _ => true,
            },
            _ => false,
        },
    ensures
        after.0.goal is Idle,
        after.0.cooldown_ms == 5000,
        after.0.path.len() == 0,
        after.0.carrying == before.0.carrying,
        after.0.needs == grown(before.0.needs, s.needs, s.dt as int),
        after.1.plans == before.1.plans,
        after.1.stations == before.1.stations,
        after.2.len() == 0,
        match before.0.goal {
            GoalView::Working { target_cell, .. } => !(after.1.plan_claims.contains_key(target_cell)
                && after.1.plan_claims[target_cell] == before.0.id),
            GoalView::CraftingAtStation { .. } => !after.1.bookings.stations.contains_key(
                before.0.id.0,
            ),
            GoalView::MoveTo { on_arrive, .. } => match on_arrive {
                ArrivalAction::Work { target_cell, .. } => !(after.1.plan_claims.contains_key(
                    target_cell,
                ) && after.1.plan_claims[target_cell] == before.0.id),
                ArrivalAction::WorkStation { .. } => !after.1.bookings.stations.contains_key(
                    before.0.id.0,
                ),
                _ => !after.1.haul.assignments.contains_key(before.0.id.0),
            },
            _ => true,
        },
{
}

// ---------- where ways lead ----------

/// The way of a leg starts where the villager stands and ends where it can work
/// on what the leg is about: the tool, the first item of its list, or the plan
/// or station of the errand.
pub proof fn law_errand_ways_end_beside(
    walk: &WorldWalk,
    foot: IVec3,
    cap: u32,
    now: u64,
    before: (VillagerView, VillageView),
    after: (VillagerView, VillageView, bool),
)
    requires
        errand_goes_on(walk, foot, cap, now, before, after),
        after.2,
    ensures
        ({
            let a = before.1.haul.assignments[before.0.id.0];
            let goal = after.0.goal;
            let cell = match goal->on_arrive {
                ArrivalAction::PickupTool { .. } => (a.pending_tool->0).cell,
                ArrivalAction::PickupForPlan { .. } => a.queue[0].cell,
                ArrivalAction::DepositAtPlan { plan_cell } => plan_cell,
                ArrivalAction::DepositAtStation { station_cell } => station_cell,
                _ => foot,
            };
            &&& goal is MoveTo
            &&& goal->path.len() >= 1
            &&& goal->path[0] == foot
            &&& place_beside(walk, cell, foot) == Some(goal->path[goal->path.len() - 1])
        }),
{
    let route = choose|route: Option<Seq<IVec3>>| #[trigger]
        errand_by(walk, foot, cap, now, before, after, route);
    assert(errand_by(walk, foot, cap, now, before, after, route));
    lemma_approach_ends_beside(
        walk,
        foot,
        crate::npc::errands::leg_cell(
            crate::npc::errands::upcoming_leg(before.0, before.1, cap),
        ),
        route,
    );
}

proof fn lemma_approach_ends_beside(
    walk: &WorldWalk,
    foot: IVec3,
    cell: IVec3,
    route: Option<Seq<IVec3>>,
)
    requires
        approach_answer(walk, foot, cell, route),
    ensures
        route matches Some(path) ==> {
            &&& path.len() >= 1
            &&& path[0] == foot
            &&& place_beside(walk, cell, foot) == Some(path[path.len() - 1])
            &&& path.len() == 1 <==> place_beside(walk, cell, foot) == Some(foot)
        },
        place_beside(walk, cell, foot) is None ==> route is None,
        place_beside(walk, cell, foot) == Some(foot) ==> route == Some(seq![foot]),
{
    if let Some(path) = route {
        if let Some(stand) = place_beside(walk, cell, foot) {
            if stand != foot {
                law_routes_lead_there(walk, foot, stand, path);
            }
        }
    }
}

/// The way to work on a plan, or to use a thing, starts where the villager
/// stands and ends where the work can be done or the thing be used.
pub proof fn law_ways_to_work_end_beside(
    walk: &WorldWalk,
    items: &ItemRegistry,
    defaults: &WorkDefaults,
    foot: IVec3,
    cell: IVec3,
    timeout_ms: u32,
    now: u64,
    before: (VillagerView, VillageView),
    after: (VillagerView, VillageView, bool),
)
    requires
        goes_working(walk, items, defaults, foot, cell, timeout_ms, now, before, after),
        before.1.plans.contains_key(cell),
    ensures
        after.0.goal matches GoalView::MoveTo { path, deadline_ms, .. } ==> {
            &&& path.len() >= 2
            &&& path[0] == foot
            &&& place_beside(walk, cell, foot) == Some(path[path.len() - 1])
            &&& 1000 <= deadline_ms <= 120000
            &&& 1000 <= timeout_ms <= 120000 ==> deadline_ms == timeout_ms
        },
        after.0.goal is Working ==> place_beside(walk, cell, foot) == Some(foot),
        place_beside(walk, cell, foot) is None ==> after.0.goal is Resting,
{
    let route = choose|route: Option<Seq<IVec3>>| #[trigger]
        work_by(walk, items, defaults, foot, cell, timeout_ms, now, before, after, route);
    assert(work_by(walk, items, defaults, foot, cell, timeout_ms, now, before, after, route));
    if let Some(stand) = place_beside(walk, cell, foot) {
        if stand != foot && route is Some {
            law_routes_lead_there(walk, foot, stand, route->0);
        }
    }
}

/// The way to a thing ends where the thing is used: at one of its own places, or
/// beside it where it has none.
pub proof fn law_ways_to_things_end_at_their_places(
    walk: &WorldWalk,
    entries: Map<IVec3, EntryKind>,
    foot: IVec3,
    cell: IVec3,
    timeout_ms: u32,
    pose: Option<PoseBits>,
    now: u64,
    before: (VillagerView, VillageView),
    after: Choice,
)
    requires
        goes_using(walk, entries, foot, cell, timeout_ms, pose, now, before, after),
        walk.known(cell),
        walk.world().slot(cell) != BlockSlot(0),
        walk.reg().defs@[walk.world().slot(cell).0 as int].interactable is Some,
    ensures
        ({
            let d = walk.reg().defs@[walk.world().slot(cell).0 as int];
            let place = use_place(
                walk,
                d.use_slot,
                anchor_of(entries, cell),
                facing_of(entries, cell),
                cell,
                foot,
            );
            let mine = before.1.things.claims.contains_key(anchor_of(entries, cell))
                ==> before.1.things.claims[anchor_of(entries, cell)] == before.0.id;
            &&& after.v.goal is Interacting <==> place == Some(foot) && ((d.interactable->0).exclusive
                ==> mine)
            &&& after.v.goal matches GoalView::MoveTo { path, .. } ==> path.len() >= 2 && path[0]
                == foot && place == Some(path[path.len() - 1])
            &&& after.v.goal matches GoalView::Interacting { anchor_cell, .. } ==> anchor_cell
                == anchor_of(entries, cell)
        }),
{
    let route = choose|route: Option<Seq<IVec3>>| #[trigger]
        use_by(walk, entries, foot, cell, timeout_ms, pose, now, before, after, route);
    assert(use_by(walk, entries, foot, cell, timeout_ms, pose, now, before, after, route));
    let d = walk.reg().defs@[walk.world().slot(cell).0 as int];
    let place = use_place(
        walk,
        d.use_slot,
        anchor_of(entries, cell),
        facing_of(entries, cell),
        cell,
        foot,
    );
    if let Some(stand) = place {
        if stand != foot && route is Some {
            law_routes_lead_there(walk, foot, stand, route->0);
        }
    }
}

/// A villager that is booked for a station sets out to it, by a way that ends
/// beside it, or is there already; where no way leads there it waits half a
/// second and is free for another.
pub proof fn law_ways_to_stations_end_beside(
    walk: &WorldWalk,
    foot: IVec3,
    station: IVec3,
    before: (VillagerView, VillageView),
    after: (VillagerView, VillageView),
)
    requires
        goes_crafting(walk, foot, station, before, after),
    ensures
        match after.0.goal {
            GoalView::MoveTo { path, edge, blocked, on_arrive, snap, .. } => {
                &&& on_arrive == (ArrivalAction::WorkStation { station_cell: station })
                &&& edge == 0 && !blocked && snap is None
                &&& path.len() >= 1
                &&& path[0] == foot
                &&& place_beside(walk, station, foot) == Some(path[path.len() - 1])
                &&& after.1 == before.1
            },
            GoalView::Resting { remaining_ms } => {
                &&& remaining_ms == 500
                &&& place_beside(walk, station, foot) != Some(foot)
                &&& !after.1.bookings.stations.contains_key(before.0.id.0)
            },
            _ => false,
        },
        place_beside(walk, station, foot) == Some(foot) ==> after.0.goal is MoveTo,
        after.1.haul == before.1.haul,
        after.0.carrying == before.0.carrying,
{
    let route = choose|route: Option<Seq<IVec3>>| #[trigger]
        craft_by(walk, foot, station, before, after, route);
    assert(craft_by(walk, foot, station, before, after, route));
    lemma_approach_ends_beside(walk, foot, station, route);
}

// ---------- what planners choose ----------

/// A planner's rest lasts as long as it says, though no less than half a second
/// and no more than a minute; to be idle is to rest half a second. Sleep on the
/// ground lasts within the same limits and restores no more than a whole need.
pub proof fn law_chosen_rests_keep_their_limits(
    scene: &PlannerScene,
    goal: PlannerGoal,
    before: (VillagerView, VillageView),
    after: Choice,
)
    requires
        turned_to(scene, goal, before, after),
    ensures
        match goal {
            PlannerGoal::Idle => after.v.goal == (GoalView::Resting { remaining_ms: 500 }),
            PlannerGoal::Rest { duration_ms } => match after.v.goal {
                GoalView::Resting { remaining_ms } => {
                    &&& duration_ms < 500 ==> remaining_ms == 500
                    &&& 500 <= duration_ms <= 60000 ==> remaining_ms == duration_ms
                    &&& duration_ms > 60000 ==> remaining_ms == 60000
                },
                _ => false,
            },
            PlannerGoal::SleepGround { duration_ms, restores, need, animation } => match after.v.goal {
                GoalView::SleepingGround {
                    remaining_ms,
                    need: eased_need,
                    restores: gives,
                    over_ms,
                    animation: plays,
                } => {
                    &&& duration_ms < 500 ==> remaining_ms == 500
                    &&& 500 <= duration_ms <= 60000 ==> remaining_ms == duration_ms
                    &&& duration_ms > 60000 ==> remaining_ms == 60000
                    &&& over_ms == remaining_ms
                    &&& eased_need == need
                    &&& plays == animation
                    &&& restores <= 1000000000 ==> gives == restores
                    &&& restores > 1000000000 ==> gives == 1000000000
                },
                _ => false,
            },
            _ => true,
        },
        match goal {
            PlannerGoal::Idle => after.village == before.1,
            PlannerGoal::Rest { .. } => after.village == before.1,
            PlannerGoal::SleepGround { .. } => after.village == before.1,
            PlannerGoal::Wander { .. } => after.village == before.1,
            PlannerGoal::Goto { .. } => after.village == before.1,
            _ => true,
        },
        after.v.needs == before.0.needs,
        after.v.carrying == before.0.carrying,
        after.v.tool == before.0.tool,
        after.v.id == before.0.id,
{
}

/// A villager that is sent to a cell outside all matched rooms goes to that
/// cell; one sent into a matched room goes to some floor cell of that room. It
/// is there at once, or sets out by a way that ends there and is given the time
/// that the planner says, from a second to two minutes, or finds no way and
/// waits half a second.
pub proof fn law_sent_villagers_go_there(
    walk: &WorldWalk,
    rooms: RoomState,
    foot: IVec3,
    cell: IVec3,
    timeout_ms: u32,
    before: VillagerView,
    after: (VillagerView, bool),
)
    requires
        goes_to(walk, rooms, foot, cell, timeout_ms, before, after),
        sound_state(rooms),
    ensures
        ({
            let inside = rooms.cells.contains_key(cell) && rooms.rooms.contains_key(
                rooms.cells[cell],
            ) && rooms.rooms[rooms.cells[cell]].pattern is Some;
            let end: IVec3 = match after.0.goal {
                GoalView::MoveTo { path, .. } => path[path.len() - 1],
                _ => foot,
            };
            &&& match after.0.goal {
                GoalView::Idle => after.1 && after.0.path.len() == 0,
                GoalView::MoveTo { path, edge, blocked, deadline_ms, on_arrive, snap } => {
                    &&& !after.1
                    &&& path.len() >= 2
                    &&& path[0] == foot
                    &&& edge == 0 && !blocked && snap is None
                    &&& on_arrive is Nothing
                    &&& after.0.path == path
                    &&& timeout_ms < 1000 ==> deadline_ms == 1000
                    &&& 1000 <= timeout_ms <= 120000 ==> deadline_ms == timeout_ms
                    &&& timeout_ms > 120000 ==> deadline_ms == 120000
                },
                GoalView::Resting { remaining_ms } => remaining_ms == 500 && !after.1,
                _ => false,
            }
            &&& !inside && !(after.0.goal is Resting) ==> end == cell
            &&& !inside && foot == cell ==> after.0.goal is Idle
            &&& inside && !(after.0.goal is Resting)
                ==> rooms.rooms[rooms.cells[cell]].floor_cells@.contains(end)
            &&& inside && !(after.0.goal is Resting) ==> {
                let floor = rooms.rooms[rooms.cells[cell]].floor_cells@;
                end == floor[(bits_of(before.seed) * floor.len()) / 0x1_0000_0000]
            }
        }),
        after.0.seed == next_seed(before.seed),
        after.0.carrying == before.carrying,
        after.0.home == before.home,
{
    let route = choose|route: Option<Seq<IVec3>>| #[trigger]
        goto_by(walk, rooms, foot, cell, timeout_ms, before, after, route);
    assert(goto_by(walk, rooms, foot, cell, timeout_ms, before, after, route));
    let target = goto_target(rooms, cell, bits_of(before.seed));
    if target != foot && route is Some {
        law_routes_lead_there(walk, foot, target, route->0);
    }
    if in_matched_room(rooms, cell) {
        let floor = rooms.rooms[rooms.cells[cell]].floor_cells@;
        lemma_spread_in_range(bits_of(before.seed), floor.len() as int);
    }
}

/// A wanderer keeps to between a second and a minute for its walk, forgets a
/// home that no longer stands, and walks for its own sake; where it finds no way
/// it waits half a second.
pub proof fn law_wanderers_walk_for_a_while(
    walk: &WorldWalk,
    foot: IVec3,
    radius: i32,
    settlement: Option<(IVec3, IVec3)>,
    timeout_ms: u32,
    before: VillagerView,
    after: VillagerView,
)
    requires
        goes_wandering(walk, foot, radius, settlement, timeout_ms, before, after),
    ensures
        match after.goal {
            GoalView::MoveTo { path, edge, blocked, deadline_ms, on_arrive, snap } => {
                &&& edge == 0 && !blocked && snap is None
                &&& on_arrive is Nothing
                &&& after.path == path
                &&& timeout_ms < 1000 ==> deadline_ms == 1000
                &&& 1000 <= timeout_ms <= 60000 ==> deadline_ms == timeout_ms
                &&& timeout_ms > 60000 ==> deadline_ms == 60000
            },
            GoalView::Resting { remaining_ms } => remaining_ms == 500,
            _ => false,
        },
        settlement is None ==> after.home is None,
        settlement is Some ==> after.home == before.home,
        after.carrying == before.carrying,
        after.needs == before.needs,
{
}

/// How far a wanderer may look: as far as its planner says, though at least one
/// cell and at most sixty-four, around itself where it has no home or its home is
/// gone, and else within the settlement.
pub proof fn law_wanderers_keep_near(
    walk: &WorldWalk,
    foot: IVec3,
    radius: i32,
    settlement: Option<(IVec3, IVec3)>,
    timeout_ms: u32,
    before: VillagerView,
    after: VillagerView,
)
    requires
        goes_wandering(walk, foot, radius, settlement, timeout_ms, before, after),
        wander_fits(foot, wander_radius(radius) as int, home_box(before, settlement)),
    ensures
        ({
            let reach: int = if radius < 1 {
                1
            } else if radius > 64 {
                64
            } else {
                radius as int
            };
            match after.goal {
                GoalView::MoveTo { path, .. } => {
                    let end = path[path.len() - 1];
                    &&& path.len() >= 2
                    &&& path[0] == foot
                    &&& before.home is None || settlement is None ==> {
                        &&& gap(end.x as int, foot.x as int) <= reach
                        &&& gap(end.z as int, foot.z as int) <= reach
                        &&& foot.y - 12 <= end.y <= foot.y + 4
                    }
                    &&& before.home is Some && settlement is Some ==> {
                        let lo = (settlement->0).0;
                        let hi = (settlement->0).1;
                        &&& lo.x <= hi.x ==> lo.x <= end.x <= hi.x
                        &&& lo.z <= hi.z ==> lo.z <= end.z <= hi.z
                        &&& hi.y - 12 <= end.y <= hi.y + 4
                    }
                },
                _ => true,
            }
        }),
{
    let path = choose|path: Option<Seq<IVec3>>| #[trigger]
        wander_by(walk, foot, radius, settlement, timeout_ms, before, after, path);
    assert(wander_by(walk, foot, radius, settlement, timeout_ms, before, after, path));
    if let Some(p) = path {
        let reach = wander_radius(radius) as int;
        let home = home_box(before, settlement);
        let bits = law_wanderers_go_to_footing(
            walk,
            foot,
            reach,
            home,
            before.seed,
            after.seed,
            p,
        );
        law_wanderers_look_around(foot, reach, home, bits.0, bits.1);
    }
}

/// A body that was held stands well, and so does one with footing under it. One
/// without is put on footing at most two cells off, where there is any, and
/// waits half a second where there is none.
pub proof fn law_lost_footing_is_found(walk: &WorldWalk, was_locked: bool, body: Body, c: IVec3)
    requires
        crate::cells::clear_of_limits(body.nominal, 2),
        body.lo.x <= body.hi.x,
        body.lo.y <= body.hi.y,
        body.lo.z <= body.hi.z,
    ensures
        was_locked ==> footing_of(walk, was_locked, body) is Sound,
        can_stand(walk, body.nominal) ==> footing_of(walk, was_locked, body) is Sound,
        can_stand(walk, c) && body.lo.x <= c.x <= body.hi.x && body.lo.y <= c.y <= body.hi.y
            && body.lo.z <= c.z <= body.hi.z ==> footing_of(walk, was_locked, body) is Sound,
        footing_of(walk, was_locked, body) matches Footing::Rescued(f) ==> can_stand(walk, f)
            && crate::cells::chebyshev_spec(f, body.nominal) <= 2,
        footing_of(walk, was_locked, body) is Stuck && crate::cells::chebyshev_spec(c, body.nominal)
            <= 2 ==> !can_stand(walk, c),
{
    crate::npc::places::law_bodies_stand_on_what_they_cover(
        walk,
        body.nominal,
        body.lo,
        body.hi,
        c,
    );
    if c != body.nominal {
        crate::npc::places::law_rescues_are_near(walk, body.nominal, 2, c);
    } else {
        crate::npc::places::law_rescues_are_near(
            walk,
            body.nominal,
            2,
            crate::cells::shifted(body.nominal, 1, 0, 0),
        );
    }
}

/// A place spread over `n` cells is one of them.
proof fn lemma_spread_in_range(bits: u32, n: int)
    requires
        n > 0,
    ensures
        0 <= spread_index(bits, n) < n,
{
    assert(0 <= bits * n < 0x1_0000_0000 * n) by (nonlinear_arith)
        requires
            0 <= bits < 0x1_0000_0000,
            n > 0,
    ;
    let q = (bits * n) / 0x1_0000_0000;
    assert(0 <= q < n) by (nonlinear_arith)
        requires
            0 <= bits * n < 0x1_0000_0000 * n,
            q == (bits * n) / 0x1_0000_0000,
            n > 0,
    ;
}

// ---------- what villagers are told ----------

/// A plan is one to work on exactly when it lies within the radius, nobody else
/// has it, it was not found out of reach lately, it has all its material, and
/// the block says nothing of work, asks for no tool, is served by the tool in
/// hand, or can be worked on without.
pub proof fn law_workable_plans(
    scene: &PlanScene,
    walk: &WorldWalk,
    who: Onlooker,
    cell: IVec3,
    radius: int,
    slot: BlockSlot,
)
    requires
        scene.plans@.contains_key(cell),
        match scene.plans@[cell].kind {
            PlanKind::Build { slot: planned, .. } => slot == planned,
            PlanKind::Remove => walk.known(cell) && slot == walk.world().slot(cell) && slot
                != BlockSlot(0),
        },
    ensures
        ({
            let plan = scene.plans@[cell];
            let action = walk.reg().defs@[slot.0 as int].work_action;
            let gate = if plan.kind is Build {
                (action->0).build_gate
            } else {
                (action->0).destroy_gate
            };
            let far = gap(cell.x as int, who.foot.x as int) + gap(cell.y as int, who.foot.y as int)
                + gap(cell.z as int, who.foot.z as int);
            plan_workable(scene, walk, who, cell, radius) <==> {
                &&& far <= radius
                &&& scene.claims@.contains_key(cell) ==> scene.claims@[cell] == who.id
                &&& !(scene.haul@.plan_memos.contains_key(cell) && scene.haul@.plan_memos[cell]
                    > scene.now)
                &&& forall|k: int|
                    0 <= k < plan.materials.len() ==> (#[trigger] plan.materials[k]).needed
                        <= plan.materials[k].present
                &&& action is None || has_the_tool(scene.items, who.tool, gate) || gate.bare_handed
                    is Some
            }
        }),
{
    let plan = scene.plans@[cell];
    if let Some(work) = walk.reg().defs@[slot.0 as int].work_action {
        let gate = work.gate(plan.kind.verb());
        assert(has_the_tool(scene.items, who.tool, gate) == (match gate.tool {
            Some(tag) => scene.items.has_tool_tag(who.tool, tag@),
            None => true,
        }));
    }
}

/// What others see of a villager: while it uses something or sleeps, the
/// animation of that; while it works, that of its kind for work; else none.
pub proof fn law_shown_animations(v: VillagerView, kinds: &NpcKindRegistry)
    ensures
        match v.goal {
            GoalView::Interacting { animation, .. } => shown_animation(v.goal, kinds, v.kind@)
                == animation,
            GoalView::SleepingGround { animation, .. } => shown_animation(v.goal, kinds, v.kind@)
                == animation,
            GoalView::Working { .. } => match kinds.find(v.kind@) {
                Some(k) => shown_animation(v.goal, kinds, v.kind@) == Some(k.animations.work),
                None => shown_animation(v.goal, kinds, v.kind@) is None,
            },
            _ => shown_animation(v.goal, kinds, v.kind@) is None,
        },
{
}

/// A body that leaves what it used is put where the thing's places, or the cells
/// above it, first offer footing, and is left where it is only where none does.
pub proof fn law_leaving_finds_footing(
    walk: &WorldWalk,
    entries: Map<IVec3, EntryKind>,
    cell: IVec3,
    slot: Option<UseSlot>,
    places: Seq<IVec3>,
    k: int,
)
    requires
        walk.known(cell) && walk.world().slot(cell) != BlockSlot(0) ==> slot == walk.reg().defs@[
            walk.world().slot(cell).0 as int
        ].use_slot,
        !walk.known(cell) || walk.world().slot(cell) == BlockSlot(0) ==> slot is None,
        places == eject_cells(slot, anchor_of(entries, cell), facing_of(entries, cell)),
    ensures
        (0 <= k < places.len() && can_stand(walk, places[k]) && forall|j: int|
            0 <= j < k ==> !can_stand(walk, #[trigger] places[j])) ==> leave_effect(
            walk,
            entries,
            cell,
        ) == Effect::StandAt(places[k]),
        (forall|j: int| 0 <= j < places.len() ==> !can_stand(walk, #[trigger] places[j]))
            ==> leave_effect(walk, entries, cell) == Effect::Embedded(anchor_of(entries, cell)),
{
    crate::npc::places::law_bodies_leave_to_the_first_footing(walk, places, k);
}

} // verus!
