//! What happens when a villager gets where it was going, gives up on the way,
//! or finishes what it was doing.

use crate::blocks::NeedRestore;
use crate::cells::{min_of, IVec3};
use crate::items::ItemSlot;
use crate::npc::errands::{
    continue_haul_or_release, errand_goes_on, errand_in_bounds, UNREACHABLE_RETRY_MS,
};
use crate::npc::goals::{ArrivalAction, Goal, GoalView};
use crate::npc::holds::{
    booking_released, haul_avoiding, haul_equipped, haul_picked, haul_released, BookingView,
    HaulTarget, InteractionView,
};
use crate::npc::nearby::EntryKind;
use crate::npc::needs::{eased, NeedLevel, Needs};
use crate::npc::tick::{
    block_at, body_foot, can_leave, leave_block, leave_effect, station_here, usable_here, Body,
};
use crate::npc::village::{
    after_giving, delivered, give_away, idle_now, path_sound, wanted_at, work_under_way, Effect, Village,
    VillageView, Villager, VillagerView,
};
use crate::npc::walk::WorldWalk;
use crate::npc::NpcId;
use crate::ord_map::{CellMap, OrdMap};
use crate::plan_claims::released;
use crate::plans::{after_deposit, deposit_taken};
use crate::protocol::{Carrying, PlanKind, PlanView, PoseBits};
use vstd::prelude::*;

verus! {

/// What is left to do in this tick after an arrival.
#[derive(Clone, Copy, Debug, PartialEq, Eq, Structural)]
pub enum ArrivalResult {
    /// Nothing more.
    EndTick,
    /// Go on; an idle villager looks for something new.
    GoOn,
    /// Try to start an order at the station.
    StartOrder(IVec3),
}

/// How an arrival comes out: all decided, or with an errand to go on with.
pub enum ArrivalStep {
    Settled(VillagerView, VillageView, Seq<Effect>, ArrivalResult),
    OnErrand(VillagerView, VillageView, Seq<Effect>),
}

/// The villager in the pose that its goal calls for.
pub open spec fn snapped(v: VillagerView, snap: Option<PoseBits>) -> VillagerView {
    VillagerView { path: Seq::empty(), locked: v.locked || snap is Some, ..v }
}

pub open spec fn snap_effects(snap: Option<PoseBits>) -> Seq<Effect> {
    match snap {
        Some(p) => seq![Effect::SnapTo(p)],
        None => Seq::empty(),
    }
}

/// The villager gives up its errand on arrival.
pub open spec fn errand_fails(v: VillagerView, village: VillageView, effects: Seq<Effect>)
    -> ArrivalStep {
    ArrivalStep::Settled(
        VillagerView { goal: GoalView::Idle, ..v },
        VillageView { haul: haul_released(village.haul, v.id), ..village },
        effects,
        ArrivalResult::EndTick,
    )
}

/// The item lies in the world and is of this kind.
pub open spec fn lies_there(ground: Map<u64, ItemSlot>, entity: u64, slot: ItemSlot) -> bool {
    ground.contains_key(entity) && ground[entity] == slot
}

/// There is a plan to build something.
pub open spec fn build_planned(plans: Map<IVec3, PlanView>, cell: IVec3) -> bool {
    plans.contains_key(cell) && plans[cell].kind is Build
}

/// The plan is the one that the villager set out for.
pub open spec fn plan_stands(plans: Map<IVec3, PlanView>, cell: IVec3, kind: PlanKind) -> bool {
    plans.contains_key(cell) && plans[cell].kind == kind
}

/// The tool that is put down for another.
pub open spec fn put_down(old_tool: Option<ItemSlot>, new_tool: ItemSlot) -> Option<ItemSlot> {
    match old_tool {
        Some(t) => if t != new_tool {
            Some(t)
        } else {
            None
        },
        None => None,
    }
}

/// What an arrival comes to, for a villager whose pose is settled.
pub open spec fn arrival_at(
    walk: &WorldWalk,
    v: VillagerView,
    village: VillageView,
    effects: Seq<Effect>,
    action: ArrivalAction,
    cap: u32,
    ground: Map<u64, ItemSlot>,
) -> ArrivalStep {
    match action {
        ArrivalAction::Nothing => ArrivalStep::Settled(
            VillagerView { goal: GoalView::Idle, ..v },
            village,
            effects,
            ArrivalResult::GoOn,
        ),
        ArrivalAction::Interact {
            need_restore,
            duration_ms,
            target_cell,
            anchor_cell,
            exclusive,
            animation,
        } => ArrivalStep::Settled(
            VillagerView {
                goal: GoalView::Interacting {
                    remaining_ms: duration_ms,
                    need_restore,
                    target_cell,
                    anchor_cell,
                    exclusive,
                    animation,
                },
                ..v
            },
            village,
            effects,
            ArrivalResult::GoOn,
        ),
        ArrivalAction::Work { duration_ms, target_cell, plan_kind, need_restore } =>
        if plan_stands(village.plans, target_cell, plan_kind) {
            ArrivalStep::Settled(
                VillagerView {
                    goal: GoalView::Working {
                        remaining_ms: duration_ms,
                        target_cell,
                        plan_kind,
                        need_restore,
                    },
                    ..v
                },
                village,
                effects,
                ArrivalResult::GoOn,
            )
        } else {
            ArrivalStep::Settled(
                VillagerView { goal: GoalView::Idle, ..v },
                VillageView {
                    plan_claims: released(village.plan_claims, target_cell, v.id),
                    ..village
                },
                effects,
                ArrivalResult::EndTick,
            )
        },
        ArrivalAction::PickupForPlan { item_entity, item_slot, .. } => if lies_there(
            ground,
            item_entity,
            item_slot,
        ) && v.carrying.room_for(item_slot, cap) > 0 {
            ArrivalStep::OnErrand(
                VillagerView {
                    carrying: v.carrying.after_pickup(item_slot, 1, cap),
                    ..v
                },
                VillageView { haul: haul_picked(village.haul, v.id, item_entity), ..village },
                effects.push(Effect::TakeItem(item_entity)),
            )
        } else {
            errand_fails(v, village, effects)
        },
        ArrivalAction::DepositAtPlan { plan_cell } => if build_planned(village.plans, plan_cell)
            && !v.carrying.empty_handed() && deposit_taken(
            village.plans[plan_cell],
            v.carrying.item->0,
            v.carrying.count as int,
        ) > 0 {
            ArrivalStep::OnErrand(
                VillagerView {
                    carrying: after_giving(
                        v.carrying,
                        deposit_taken(
                            village.plans[plan_cell],
                            v.carrying.item->0,
                            v.carrying.count as int,
                        ),
                    ),
                    ..v
                },
                VillageView {
                    plans: village.plans.insert(
                        plan_cell,
                        after_deposit(
                            village.plans[plan_cell],
                            v.carrying.item->0,
                            v.carrying.count as int,
                        ),
                    ),
                    ..village
                },
                effects.push(Effect::AnnouncePlan(plan_cell)),
            )
        } else {
            errand_fails(v, village, effects)
        },
        ArrivalAction::DepositAtStation { station_cell } => if station_here(walk, station_cell)
            && !v.carrying.empty_handed() && wanted_at(
            village.stations,
            station_cell,
            v.carrying.item->0,
        ) > 0 {
            let given = min_of(
                wanted_at(village.stations, station_cell, v.carrying.item->0) as int,
                v.carrying.count as int,
            );
            ArrivalStep::OnErrand(
                VillagerView { carrying: after_giving(v.carrying, given), ..v },
                VillageView {
                    stations: delivered(
                        village.stations,
                        station_cell,
                        v.carrying.item->0,
                        given,
                    ),
                    ..village
                },
                effects.push(Effect::AnnounceStation(station_cell)),
            )
        } else {
            errand_fails(v, village, effects)
        },
        ArrivalAction::PickupTool { item_entity, item_slot } => if lies_there(
            ground,
            item_entity,
            item_slot,
        ) {
            ArrivalStep::OnErrand(
                VillagerView { tool: Some(item_slot), ..v },
                VillageView { haul: haul_equipped(village.haul, v.id), ..village },
                effects.push(
                    Effect::SwapTool { taken: item_entity, dropped: put_down(v.tool, item_slot) },
                ),
            )
        } else {
            errand_fails(v, village, effects)
        },
        ArrivalAction::WorkStation { station_cell } => if !station_here(walk, station_cell) {
            ArrivalStep::Settled(
                VillagerView { goal: GoalView::Idle, ..v },
                VillageView {
                    bookings: booking_released(village.bookings, v.id, v.entity),
                    ..village
                },
                effects,
                ArrivalResult::GoOn,
            )
        } else if work_under_way(village.stations, station_cell)
            && !village.bookings.workers.contains_key(station_cell) {
            ArrivalStep::Settled(
                VillagerView { goal: GoalView::CraftingAtStation { station_cell }, ..v },
                VillageView {
                    bookings: BookingView {
                        workers: village.bookings.workers.insert(station_cell, v.entity),
                        ..village.bookings
                    },
                    ..village
                },
                effects.push(Effect::AnnounceStation(station_cell)),
                ArrivalResult::GoOn,
            )
        } else {
            ArrivalStep::Settled(v, village, effects, ArrivalResult::StartOrder(station_cell))
        },
    }
}

/// The thing that the villager came to use is gone.
pub open spec fn thing_gone(walk: &WorldWalk, action: ArrivalAction) -> bool {
    action matches ArrivalAction::Interact { target_cell, .. } && !usable_here(walk, target_cell)
}

/// What an arrival comes to.
pub open spec fn arrival(
    walk: &WorldWalk,
    v: VillagerView,
    village: VillageView,
    cap: u32,
    ground: Map<u64, ItemSlot>,
) -> ArrivalStep {
    match v.goal {
        GoalView::MoveTo { on_arrive, snap, .. } => if thing_gone(walk, on_arrive) {
            ArrivalStep::Settled(
                idle_now(v),
                VillageView {
                    things: crate::npc::goals::things_let_go(village.things, v.goal, v.id),
                    ..village
                },
                Seq::empty(),
                ArrivalResult::EndTick,
            )
        } else {
            arrival_at(
                walk,
                snapped(v, snap),
                village,
                snap_effects(snap),
                on_arrive,
                cap,
                ground,
            )
        },
        _ => ArrivalStep::Settled(v, village, Seq::empty(), ArrivalResult::GoOn),
    }
}

/// The arrival came out as it should.
pub open spec fn arrived(
    walk: &WorldWalk,
    foot: IVec3,
    cap: u32,
    now: u64,
    step: ArrivalStep,
    after: (VillagerView, VillageView, Seq<Effect>, ArrivalResult),
) -> bool {
    match step {
        ArrivalStep::Settled(v, village, effects, r) => after == (v, village, effects, r),
        ArrivalStep::OnErrand(v, village, effects) => after.2 == effects && after.3
            == ArrivalResult::GoOn && went_on(walk, foot, cap, now, v, village, after.0, after.1),
    }
}

/// The villager went on with its errand, or ended it.
pub open spec fn went_on(
    walk: &WorldWalk,
    foot: IVec3,
    cap: u32,
    now: u64,
    v: VillagerView,
    village: VillageView,
    v_after: VillagerView,
    village_after: VillageView,
) -> bool {
    exists|under_way: bool| #[trigger]
        errand_goes_on(
            walk,
            foot,
            cap,
            now,
            (v, village),
            (v_after, village_after, under_way),
        )
}

/// What stays in bounds of an errand stays so when it loses an item or its tool.
proof fn lemma_errand_stays_in_bounds(village: VillageView, id: NpcId, entity: u64)
    requires
        errand_in_bounds(village, id.0),
    ensures
        errand_in_bounds(
            VillageView { haul: haul_picked(village.haul, id, entity), ..village },
            id.0,
        ),
        errand_in_bounds(VillageView { haul: haul_equipped(village.haul, id), ..village }, id.0),
{
    if village.haul.assignments.contains_key(id.0) {
        let q = village.haul.assignments[id.0].queue;
        lemma_queue_subset(q, entity);
        let after = haul_picked(village.haul, id, entity).assignments[id.0].queue;
        assert forall|i: int| 0 <= i < after.len() implies crate::cells::clear_of_limits(
            (#[trigger] after[i]).cell,
            3,
        ) by {
            let k = choose|k: int| 0 <= k < q.len() && #[trigger] q[k] == after[i];
            assert(q[k] == after[i]);
        }
    }
}

proof fn lemma_queue_subset(q: Seq<crate::npc::holds::ReservedItem>, entity: u64)
    ensures
        forall|i: int|
            0 <= i < crate::npc::holds::queue_without(q, entity).len() ==> exists|k: int|
                0 <= k < q.len() && #[trigger] q[k]
                    == #[trigger] crate::npc::holds::queue_without(q, entity)[i],
    decreases q.len(),
{
    if q.len() > 0 {
        let rest = q.drop_last();
        lemma_queue_subset(rest, entity);
        let all = crate::npc::holds::queue_without(q, entity);
        let few = crate::npc::holds::queue_without(rest, entity);
        assert forall|i: int| 0 <= i < all.len() implies exists|k: int|
            0 <= k < q.len() && #[trigger] q[k] == #[trigger] all[i] by {
            if i < few.len() {
                assert(all[i] == few[i]);
                let k = choose|k: int| 0 <= k < rest.len() && #[trigger] rest[k] == few[i];
                assert(q[k] == all[i]);
            } else {
                assert(q[q.len() - 1] == all[i]);
            }
        }
    }
}

/// A delivery of which nothing is taken changes nothing.
proof fn lemma_nothing_taken(plans: Map<IVec3, PlanView>, cell: IVec3, item: ItemSlot, count: int)
    requires
        plans.contains_key(cell),
        count >= 0,
        deposit_taken(plans[cell], item, count) == 0,
    ensures
        plans.insert(cell, after_deposit(plans[cell], item, count)) == plans,
{
    let p = plans[cell];
    crate::protocol::lemma_entry_for(p.materials, item, 0);
    if let Some(k) = crate::protocol::entry_for(p.materials, item, 0) {
        assert(after_deposit(p, item, count).materials =~= p.materials);
    }
    assert(after_deposit(p, item, count) == p);
    assert(plans.insert(cell, p) =~= plans);
}

fn fail_errand(v: &mut Villager, village: &mut Village)
    ensures
        final(v)@ == (VillagerView { goal: GoalView::Idle, ..old(v)@ }),
        final(village)@ == (VillageView {
            haul: haul_released(old(village)@.haul, old(v).id),
            ..old(village)@
        }),
{
    village.haul.release_for_npc(v.id);
    v.goal = Goal::Idle;
}

/// What the villager is after when it arrives with something to fetch or
/// deliver: `true` when its errand goes on.
fn do_errand(
    v: &mut Villager,
    village: &mut Village,
    walk: &WorldWalk,
    action: &ArrivalAction,
    cap: u32,
    ground: &OrdMap<u64, ItemSlot>,
    effects: &mut Vec<Effect>,
) -> (r: bool)
    requires
        errand_in_bounds(old(village)@, old(v).id.0),
        action is PickupForPlan || action is DepositAtPlan || action is DepositAtStation
            || action is PickupTool,
    ensures
        errand_in_bounds(final(village)@, final(v).id.0),
        match arrival_at(walk, old(v)@, old(village)@, old(effects)@, *action, cap, ground@) {
            ArrivalStep::Settled(a, b, e, _) => !r && final(v)@ == a && final(village)@ == b
                && final(effects)@ == e,
            ArrivalStep::OnErrand(a, b, e) => r && final(v)@ == a && final(village)@ == b
                && final(effects)@ == e,
        },
{
    match action {
        ArrivalAction::PickupForPlan { item_entity, item_slot, .. } => {
            let there: bool = match ground.get(*item_entity) {
                Some(s) => *s == *item_slot,
                None => false,
            };
            if !there || !v.carrying.can_accept(*item_slot, cap) {
                fail_errand(v, village);
                return false;
            }
            let _ = v.carrying.pickup_one(*item_slot, cap);
            effects.push(Effect::TakeItem(*item_entity));
            proof {
                lemma_errand_stays_in_bounds(village@, v.id, *item_entity);
            }
            village.haul.drop_queue_entry(v.id, *item_entity);
            true
        },
        ArrivalAction::DepositAtPlan { plan_cell } => {
            let builds: bool = match village.plans.kind(*plan_cell) {
                Some(PlanKind::Build { .. }) => true,
                _ => false,
            };
            if !builds || v.carrying.is_empty() {
                fail_errand(v, village);
                return false;
            }
            let item: ItemSlot = match v.carrying.item {
                Some(i) => i,
                None => {
                    fail_errand(v, village);
                    return false;
                },
            };
            let accepted: u32 = village.plans.deposit(*plan_cell, item, v.carrying.count);
            if accepted == 0 {
                proof {
                    lemma_nothing_taken(
                        old(village)@.plans,
                        *plan_cell,
                        item,
                        v.carrying.count as int,
                    );
                }
                fail_errand(v, village);
                return false;
            }
            give_away(&mut v.carrying, accepted);
            effects.push(Effect::AnnouncePlan(*plan_cell));
            true
        },
        ArrivalAction::DepositAtStation { station_cell } => {
            let is_station: bool = match block_at(walk, *station_cell) {
                Some(d) => d.station_tag.is_some(),
                None => false,
            };
            if !is_station || v.carrying.is_empty() {
                fail_errand(v, village);
                return false;
            }
            let item: ItemSlot = match v.carrying.item {
                Some(i) => i,
                None => {
                    fail_errand(v, village);
                    return false;
                },
            };
            let want: u32 = village.stations.demand_for(*station_cell, item);
            if want == 0 {
                fail_errand(v, village);
                return false;
            }
            let given: u32 = if want <= v.carrying.count {
                want
            } else {
                v.carrying.count
            };
            village.stations.deposit(*station_cell, item, given);
            give_away(&mut v.carrying, given);
            effects.push(Effect::AnnounceStation(*station_cell));
            true
        },
        ArrivalAction::PickupTool { item_entity, item_slot } => {
            let there: bool = match ground.get(*item_entity) {
                Some(s) => *s == *item_slot,
                None => false,
            };
            if !there {
                fail_errand(v, village);
                return false;
            }
            let dropped: Option<ItemSlot> = match v.tool {
                Some(t) => if t != *item_slot {
                    Some(t)
                } else {
                    None
                },
                None => None,
            };
            v.tool = Some(*item_slot);
            effects.push(Effect::SwapTool { taken: *item_entity, dropped });
            proof {
                lemma_errand_stays_in_bounds(village@, v.id, *item_entity);
            }
            village.haul.clear_pending_tool(v.id);
            true
        },
        _ => false,
    }
}

/// Takes the villager from its walk to what it came for.
pub fn arrive(
    v: &mut Villager,
    village: &mut Village,
    walk: &WorldWalk,
    body: Body,
    cap: u32,
    ground: &OrdMap<u64, ItemSlot>,
    now: u64,
) -> (r: (Vec<Effect>, ArrivalResult))
    requires
        old(v)@.goal is MoveTo,
        path_sound(old(v)@),
        errand_in_bounds(old(village)@, old(v).id.0),
        now <= u64::MAX - UNREACHABLE_RETRY_MS,
    ensures
        arrived(
            walk,
            body_foot(walk, body),
            cap,
            now,
            arrival(walk, old(v)@, old(village)@, cap, ground@),
            (final(v)@, final(village)@, r.0@, r.1),
        ),
        path_sound(final(v)@),
        errand_in_bounds(final(village)@, final(v).id.0),
{
    let mut effects: Vec<Effect> = Vec::new();
    let ghost start = v@;
    let mut goal: Goal = Goal::Idle;
    std::mem::swap(&mut goal, &mut v.goal);
    v.path = Vec::new();
    assert(v.path@ =~= Seq::<IVec3>::empty());
    match goal {
        Goal::MoveTo { path, edge, blocked, deadline_ms, on_arrive, snap } => {
            if let ArrivalAction::Interact { target_cell, anchor_cell, exclusive, .. } = &on_arrive {
                let usable: bool = match block_at(walk, *target_cell) {
                    Some(d) => d.interactable.is_some(),
                    None => false,
                };
                if !usable {
                    if *exclusive {
                        village.things.release(*anchor_cell, v.id);
                    }
                    assert(effects@ =~= Seq::<Effect>::empty());
                    return (effects, ArrivalResult::EndTick);
                }
            }
            if let Some(p) = snap {
                effects.push(Effect::SnapTo(p));
                v.locked = true;
            }
            assert(effects@ =~= snap_effects(snap));
            let ghost settled = VillagerView {
                goal: start.goal,
                ..v@
            };
            assert(settled == snapped(start, snap));
            match on_arrive {
                ArrivalAction::Nothing => (effects, ArrivalResult::GoOn),
                ArrivalAction::Interact {
                    need_restore,
                    duration_ms,
                    target_cell,
                    anchor_cell,
                    exclusive,
                    animation,
                } => {
                    v.goal = Goal::Interacting {
                        remaining_ms: duration_ms,
                        need_restore,
                        target_cell,
                        anchor_cell,
                        exclusive,
                        animation,
                    };
                    (effects, ArrivalResult::GoOn)
                },
                ArrivalAction::Work { duration_ms, target_cell, plan_kind, need_restore } => {
                    let stands: bool = match village.plans.kind(target_cell) {
                        Some(k) => k == plan_kind,
                        None => false,
                    };
                    if !stands {
                        village.plan_claims.release(target_cell, v.id);
                        return (effects, ArrivalResult::EndTick);
                    }
                    v.goal = Goal::Working {
                        remaining_ms: duration_ms,
                        target_cell,
                        plan_kind,
                        need_restore,
                    };
                    (effects, ArrivalResult::GoOn)
                },
                ArrivalAction::WorkStation { station_cell } => {
                    let is_station: bool = match block_at(walk, station_cell) {
                        Some(d) => d.station_tag.is_some(),
                        None => false,
                    };
                    if !is_station {
                        village.bookings.release_npc_booking(v.id, v.entity);
                        return (effects, ArrivalResult::GoOn);
                    }
                    if village.stations.is_active(station_cell) && village.bookings.worker_at(
                        station_cell,
                    ).is_none() {
                        village.bookings.register_worker(station_cell, v.entity);
                        effects.push(Effect::AnnounceStation(station_cell));
                        v.goal = Goal::CraftingAtStation { station_cell };
                        return (effects, ArrivalResult::GoOn);
                    }
                    v.goal = Goal::MoveTo {
                        path,
                        edge,
                        blocked,
                        deadline_ms,
                        on_arrive: ArrivalAction::WorkStation { station_cell },
                        snap,
                    };
                    (effects, ArrivalResult::StartOrder(station_cell))
                },
                other => {
                    v.goal = Goal::MoveTo {
                        path,
                        edge,
                        blocked,
                        deadline_ms,
                        on_arrive: other.copy(),
                        snap,
                    };
                    assert(v@ == settled);
                    let on: bool = do_errand(v, village, walk, &other, cap, ground, &mut effects);
                    if !on {
                        return (effects, ArrivalResult::EndTick);
                    }
                    let foot: IVec3 = body.foot(walk);
                    let ghost (mid_v, mid_village) = (v@, village@);
                    let under_way: bool = continue_haul_or_release(
                        v,
                        village,
                        walk,
                        foot,
                        cap,
                        now,
                    );
                    assert(errand_goes_on(
                        walk,
                        foot,
                        cap,
                        now,
                        (mid_v, mid_village),
                        (v@, village@, under_way),
                    ));
                    (effects, ArrivalResult::GoOn)
                },
            }
        },
        _ => (effects, ArrivalResult::GoOn),
    }
}

/// The village and the villager once an order was started at the station, or
/// none could be.
pub fn finish_station_arrival(
    v: &mut Villager,
    village: &mut Village,
    station: IVec3,
    started: bool,
) -> (r: Option<Effect>)
    ensures
        started ==> r == Some(Effect::AnnounceStation(station)) && final(v)@ == (VillagerView {
            goal: GoalView::CraftingAtStation { station_cell: station },
            ..old(v)@
        }) && final(village)@ == old(village)@,
        !started ==> r is None && final(v)@ == (VillagerView { goal: GoalView::Idle, ..old(v)@ })
            && final(village)@ == (VillageView {
            bookings: booking_released(old(village)@.bookings, old(v).id, old(v).entity),
            ..old(village)@
        }),
{
    if started {
        v.goal = Goal::CraftingAtStation { station_cell: station };
        Some(Effect::AnnounceStation(station))
    } else {
        village.bookings.release_npc_booking(v.id, v.entity);
        v.goal = Goal::Idle;
        None
    }
}

// ---------- giving up ----------

/// The village once the villager gave up its walk: what it was after is free
/// again, and left alone for a while.
pub open spec fn walk_given_up(v: VillagerView, village: VillageView, now: u64) -> VillageView {
    let until = (now + UNREACHABLE_RETRY_MS) as u64;
    match v.goal {
        GoalView::MoveTo { on_arrive, .. } => match on_arrive {
            ArrivalAction::Interact { anchor_cell, exclusive, .. } => VillageView {
                things: InteractionView {
                    claims: if exclusive {
                        released(village.things.claims, anchor_cell, v.id)
                    } else {
                        village.things.claims
                    },
                    memos: village.things.memos.insert(anchor_cell, until),
                },
                ..village
            },
            ArrivalAction::Work { target_cell, .. } => VillageView {
                haul: haul_avoiding(village.haul, HaulTarget::Plan(target_cell), until),
                plan_claims: released(village.plan_claims, target_cell, v.id),
                ..village
            },
            ArrivalAction::WorkStation { .. } => VillageView {
                bookings: booking_released(village.bookings, v.id, v.entity),
                ..village
            },
            ArrivalAction::Nothing => village,
            _ => VillageView {
                haul: haul_released(
                    if village.haul.assignments.contains_key(v.id.0) {
                        haul_avoiding(
                            village.haul,
                            village.haul.assignments[v.id.0].target,
                            until,
                        )
                    } else {
                        village.haul
                    },
                    v.id,
                ),
                ..village
            },
        },
        _ => village,
    }
}

fn end_errand(v: &Villager, village: &mut Village, until: u64)
    ensures
        final(village)@ == (VillageView {
            haul: haul_released(
                if old(village)@.haul.assignments.contains_key(v.id.0) {
                    haul_avoiding(
                        old(village)@.haul,
                        old(village)@.haul.assignments[v.id.0].target,
                        until,
                    )
                } else {
                    old(village)@.haul
                },
                v.id,
            ),
            ..old(village)@
        }),
{
    let target: Option<HaulTarget> = match village.haul.assignment_of(v.id) {
        Some(a) => Some(a.target),
        None => None,
    };
    if let Some(t) = target {
        village.haul.memo_unreachable(t, until);
    }
    village.haul.release_for_npc(v.id);
}

/// Gives up the walk.
pub fn abandon(v: &mut Villager, village: &mut Village, now: u64)
    requires
        now <= u64::MAX - UNREACHABLE_RETRY_MS,
    ensures
        final(v)@ == idle_now(old(v)@),
        final(village)@ == walk_given_up(old(v)@, old(village)@, now),
{
    let until: u64 = now + UNREACHABLE_RETRY_MS;
    if let Goal::MoveTo { on_arrive, .. } = &v.goal {
        match on_arrive {
            ArrivalAction::Interact { anchor_cell, exclusive, .. } => {
                village.things.memo_unreachable(*anchor_cell, until);
                if *exclusive {
                    village.things.release(*anchor_cell, v.id);
                }
            },
            ArrivalAction::Work { target_cell, .. } => {
                village.haul.memo_unreachable(HaulTarget::Plan(*target_cell), until);
                village.plan_claims.release(*target_cell, v.id);
            },
            ArrivalAction::WorkStation { .. } => {
                village.bookings.release_npc_booking(v.id, v.entity);
            },
            ArrivalAction::Nothing => {},
            _ => {
                end_errand(v, village, until);
            },
        }
    }
    v.go_idle();
}

/// A plan whose worker gave up is free, and no villager is offered it again
/// until the time is up.
pub proof fn law_given_up_work_waits(
    v: VillagerView,
    village: VillageView,
    now: u64,
    later: u64,
    cell: IVec3,
)
    requires
        crate::npc::goals::held_plan(v.goal) == Some(cell),
        v.goal is MoveTo,
        crate::plan_claims::open_to(village.plan_claims, cell, v.id),
        now <= u64::MAX - UNREACHABLE_RETRY_MS,
    ensures
        !walk_given_up(v, village, now).plan_claims.contains_key(cell),
        crate::npc::holds::still_avoided(
            walk_given_up(v, village, now).haul.plan_memos,
            cell,
            later,
        ) == (later < now + UNREACHABLE_RETRY_MS),
{
}

// ---------- finishing ----------

/// The needs once something eased one of them.
pub open spec fn restored(needs: Seq<NeedLevel>, gives: Option<NeedRestore>) -> Seq<NeedLevel> {
    match gives {
        Some(nr) => eased(needs, nr.need@, nr.restores as int),
        None => needs,
    }
}

fn restore(needs: &mut Needs, gives: &Option<NeedRestore>)
    ensures
        final(needs)@ == restored(old(needs)@, *gives),
{
    if let Some(nr) = gives {
        needs.ease(&nr.need, nr.restores);
    }
}

/// Using the thing was sleeping.
pub open spec fn was_sleep(gives: Option<NeedRestore>) -> bool {
    gives matches Some(nr) && nr.need@ == "sleep"@
}

fn is_sleep(gives: &Option<NeedRestore>) -> (r: bool)
    ensures
        r == was_sleep(*gives),
{
    match gives {
        Some(nr) => nr.need == "sleep".to_owned(),
        None => false,
    }
}

/// The villager after it used something. Whoever slept is at home where it
/// slept.
pub open spec fn after_use(v: VillagerView, cluster: Option<u32>) -> VillagerView {
    match v.goal {
        GoalView::Interacting { need_restore, .. } => VillagerView {
            goal: GoalView::Idle,
            needs: restored(v.needs, need_restore),
            home: if was_sleep(need_restore) && cluster is Some {
                cluster
            } else {
                v.home
            },
            locked: false,
            ..v
        },
        _ => v,
    }
}

/// Finishes using something. `cluster` is the settlement around it.
pub fn finish_interaction(
    v: &mut Villager,
    village: &mut Village,
    walk: &WorldWalk,
    entries: &CellMap<EntryKind>,
    cluster: Option<u32>,
) -> (r: Option<Effect>)
    requires
        old(v)@.goal is Interacting,
        old(v).locked ==> can_leave(walk, entries@, crate::npc::tick::used_cell(old(v)@)),
    ensures
        final(v)@ == after_use(old(v)@, cluster),
        final(village)@ == (VillageView {
            things: crate::npc::goals::things_let_go(
                old(village)@.things,
                old(v)@.goal,
                old(v).id,
            ),
            ..old(village)@
        }),
        r == if old(v).locked {
            Some(leave_effect(walk, entries@, crate::npc::tick::used_cell(old(v)@)))
        } else {
            None
        },
{
    let mut goal: Goal = Goal::Idle;
    std::mem::swap(&mut goal, &mut v.goal);
    match goal {
        Goal::Interacting { need_restore, target_cell, anchor_cell, exclusive, .. } => {
            restore(&mut v.needs, &need_restore);
            if is_sleep(&need_restore) && cluster.is_some() {
                v.home = cluster;
            }
            if exclusive {
                village.things.release(anchor_cell, v.id);
            }
            let effect: Option<Effect> = if v.locked {
                Some(leave_block(walk, entries, target_cell))
            } else {
                None
            };
            v.locked = false;
            effect
        },
        _ => None,
    }
}

/// The villager after its work.
pub open spec fn after_work(v: VillagerView) -> VillagerView {
    match v.goal {
        GoalView::Working { need_restore, .. } => VillagerView {
            goal: GoalView::Idle,
            needs: restored(v.needs, need_restore),
            locked: false,
            ..v
        },
        _ => v,
    }
}

/// What finished work asks of the world: the plan is carried out, if it still
/// stands.
pub open spec fn work_effects(
    v: VillagerView,
    village: VillageView,
    walk: &WorldWalk,
    entries: Map<IVec3, EntryKind>,
) -> Seq<Effect> {
    match v.goal {
        GoalView::Working { target_cell, plan_kind, .. } => {
            let done: Seq<Effect> = if plan_stands(village.plans, target_cell, plan_kind) {
                seq![Effect::WorkCompleted { cell: target_cell, kind: plan_kind }]
            } else {
                Seq::empty()
            };
            if v.locked {
                done.push(leave_effect(walk, entries, target_cell))
            } else {
                done
            }
        },
        _ => Seq::empty(),
    }
}

/// Finishes work on a plan.
pub fn finish_work(
    v: &mut Villager,
    village: &mut Village,
    walk: &WorldWalk,
    entries: &CellMap<EntryKind>,
) -> (r: Vec<Effect>)
    requires
        old(v)@.goal matches GoalView::Working { target_cell, .. } && (old(v).locked ==> can_leave(
            walk,
            entries@,
            target_cell,
        )),
    ensures
        final(v)@ == after_work(old(v)@),
        final(village)@ == (VillageView {
            plan_claims: crate::npc::goals::plans_let_go(
                old(village)@.plan_claims,
                old(v)@.goal,
                old(v).id,
            ),
            ..old(village)@
        }),
        r@ == work_effects(old(v)@, old(village)@, walk, entries@),
{
    let mut effects: Vec<Effect> = Vec::new();
    let mut goal: Goal = Goal::Idle;
    std::mem::swap(&mut goal, &mut v.goal);
    match goal {
        Goal::Working { target_cell, plan_kind, need_restore, .. } => {
            restore(&mut v.needs, &need_restore);
            let stands: bool = match village.plans.kind(target_cell) {
                Some(k) => k == plan_kind,
                None => false,
            };
            if stands {
                effects.push(Effect::WorkCompleted { cell: target_cell, kind: plan_kind });
            }
            village.plan_claims.release(target_cell, v.id);
            if v.locked {
                effects.push(leave_block(walk, entries, target_cell));
            }
            v.locked = false;
            assert(effects@ =~= work_effects(old(v)@, old(village)@, walk, entries@));
            effects
        },
        _ => effects,
    }
}

/// Finishes rest.
pub fn finish_rest(v: &mut Villager)
    ensures
        final(v)@ == idle_now(old(v)@),
{
    v.go_idle();
}

/// Finishes crafting, or notes that it was ended.
pub fn finish_crafting(v: &mut Villager, village: &mut Village)
    ensures
        final(v)@ == (VillagerView { goal: GoalView::Idle, ..old(v)@ }),
        final(village)@ == (VillageView {
            bookings: booking_released(old(village)@.bookings, old(v).id, old(v).entity),
            ..old(village)@
        }),
{
    village.bookings.release_npc_booking(v.id, v.entity);
    v.goal = Goal::Idle;
}

/// Whatever a villager delivers leaves its hands: what it carries and what it
/// gave add up.
pub proof fn law_deliveries_add_up(
    walk: &WorldWalk,
    v: VillagerView,
    village: VillageView,
    effects: Seq<Effect>,
    cell: IVec3,
    cap: u32,
    ground: Map<u64, ItemSlot>,
)
    requires
        build_planned(village.plans, cell),
        !v.carrying.empty_handed(),
    ensures
        match arrival_at(
            walk,
            v,
            village,
            effects,
            ArrivalAction::DepositAtPlan { plan_cell: cell },
            cap,
            ground,
        ) {
            ArrivalStep::OnErrand(a, b, _) => a.carrying.count + deposit_taken(
                village.plans[cell],
                v.carrying.item->0,
                v.carrying.count as int,
            ) == v.carrying.count && crate::protocol::remaining(
                b.plans[cell].materials,
                v.carrying.item->0,
            ) + deposit_taken(village.plans[cell], v.carrying.item->0, v.carrying.count as int)
                == crate::protocol::remaining(village.plans[cell].materials, v.carrying.item->0),
            ArrivalStep::Settled(a, b, _, _) => a.carrying == v.carrying && b.plans
                == village.plans,
        },
{
    crate::plans::law_deposit_fills_the_need(
        village.plans[cell],
        v.carrying.item->0,
        v.carrying.count as int,
    );
}

} // verus!
