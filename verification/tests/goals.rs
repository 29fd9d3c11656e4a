use block_junk::cells::IVec3;
use block_junk::items::ItemSlot;
use block_junk::npc::goals::{
    anim_override, face_target, npc_census, preempt_eligible, preempt_release_holds, ArrivalAction,
    CensusEntry, Goal,
};
use block_junk::npc::holds::{HaulAssignment, HaulStore, HaulTarget, InteractionClaims, ReservedItem};
use block_junk::npc::places::{path_envelope_hit, remaining_path_valid};
use block_junk::npc::{NpcId, NpcIdAllocator};
use block_junk::npc_registry::NpcKindRegistry;
use block_junk::pathfinding::CellGrid;
use block_junk::plan_claims::PlanClaims;
use block_junk::protocol::PlanKind;

/// Floor plane at y = 0 spanning x, z in [-10, 10].
fn floored() -> CellGrid {
    let mut world = CellGrid::new();
    for x in -10..=10 {
        for z in -10..=10 {
            world.insert(IVec3::new(x, 0, z));
        }
    }
    world
}

#[test]
fn path_envelope_hit_covers_support_head_and_corridor() {
    let path = vec![IVec3::new(0, 1, 0), IVec3::new(4, 1, 0)];
    assert!(path_envelope_hit(&path, &vec![IVec3::new(2, 0, 0)]));
    assert!(path_envelope_hit(&path, &vec![IVec3::new(2, 3, 0)]));
    assert!(path_envelope_hit(&path, &vec![IVec3::new(2, 1, 1)]));
    assert!(!path_envelope_hit(&path, &vec![IVec3::new(2, 4, 0)]));
    assert!(!path_envelope_hit(&path, &vec![IVec3::new(6, 1, 0)]));
    assert!(!path_envelope_hit(&path, &vec![]));
}

#[test]
fn remaining_path_valid_skips_walked_prefix() {
    let mut world = floored();
    let path = vec![IVec3::new(0, 1, 0), IVec3::new(4, 1, 0), IVec3::new(4, 1, 3)];
    assert!(remaining_path_valid(&path, 0, &world));
    world.insert(IVec3::new(2, 1, 0));
    world.insert(IVec3::new(2, 2, 0));
    assert!(!remaining_path_valid(&path, 0, &world));
    assert!(remaining_path_valid(&path, 1, &world));
}

#[test]
fn remaining_path_valid_checks_support_removal() {
    let mut world = floored();
    let path = vec![IVec3::new(0, 1, 0), IVec3::new(4, 1, 0)];
    world.remove(IVec3::new(2, 0, 0));
    assert!(!remaining_path_valid(&path, 0, &world));
}

fn work_goal(cell: IVec3) -> Goal {
    Goal::Working {
        remaining_ms: 4000,
        target_cell: cell,
        plan_kind: PlanKind::Remove,
        need_restore: None,
    }
}

fn walk_with(path: Vec<IVec3>, on_arrive: ArrivalAction) -> Goal {
    Goal::MoveTo {
        path,
        edge: 0,
        blocked: false,
        deadline_ms: 30000,
        on_arrive,
        snap: None,
    }
}

fn pickup_goal(item_entity: u64, plan_cell: IVec3) -> Goal {
    walk_with(
        vec![IVec3::new(0, 0, 0), plan_cell],
        ArrivalAction::PickupForPlan { item_entity, item_slot: ItemSlot(0), plan_cell },
    )
}

#[test]
fn preempt_eligible_picks_work_and_haul_only() {
    let cell = IVec3::new(1, 2, 3);
    assert!(preempt_eligible(&work_goal(cell)));
    assert!(preempt_eligible(&pickup_goal(7, cell)));
    assert!(preempt_eligible(&walk_with(
        vec![cell],
        ArrivalAction::Work {
            duration_ms: 4000,
            target_cell: cell,
            plan_kind: PlanKind::Remove,
            need_restore: None,
        }
    )));
    assert!(preempt_eligible(&Goal::CraftingAtStation { station_cell: cell }));
    assert!(preempt_eligible(&walk_with(
        vec![cell],
        ArrivalAction::WorkStation { station_cell: cell }
    )));
    assert!(!preempt_eligible(&Goal::Idle));
    assert!(!preempt_eligible(&Goal::Resting { remaining_ms: 1000 }));
    assert!(!preempt_eligible(&Goal::Interacting {
        remaining_ms: 1000,
        need_restore: None,
        target_cell: cell,
        anchor_cell: cell,
        exclusive: true,
        animation: None,
    }));
    assert!(!preempt_eligible(&walk_with(vec![cell], ArrivalAction::Nothing)));
    assert!(!preempt_eligible(&walk_with(
        vec![cell],
        ArrivalAction::Interact {
            need_restore: None,
            duration_ms: 4000,
            target_cell: cell,
            anchor_cell: cell,
            exclusive: false,
            animation: None,
        }
    )));
}

#[test]
fn preempt_release_holds_releases_plan_claim_on_working() {
    let npc = NpcId(42);
    let cell = IVec3::new(5, 6, 7);
    let mut plan_claims = PlanClaims::new();
    let mut interaction_claims = InteractionClaims::new();
    let mut haul_store = HaulStore::new();
    assert!(plan_claims.try_claim(cell, npc));
    preempt_release_holds(
        npc,
        &work_goal(cell),
        &mut plan_claims,
        &mut interaction_claims,
        &mut haul_store,
    );
    let other = NpcId(43);
    assert!(plan_claims.try_claim(cell, other));
}

#[test]
fn preempt_release_holds_drops_haul_assignment_and_reservations() {
    let npc = NpcId(7);
    let item_entity = 101;
    let plan_cell = IVec3::new(0, 0, 5);
    let mut plan_claims = PlanClaims::new();
    let mut interaction_claims = InteractionClaims::new();
    let mut haul_store = HaulStore::new();
    assert!(haul_store.try_reserve(item_entity, npc));
    haul_store.commit_assignment(
        npc,
        HaulAssignment {
            target: HaulTarget::Plan(plan_cell),
            queue: vec![ReservedItem {
                entity: item_entity,
                item: ItemSlot(0),
                cell: IVec3::new(0, 0, 0),
            }],
            pending_tool: None,
        },
    );
    assert!(haul_store.has_assignment(npc));
    preempt_release_holds(
        npc,
        &pickup_goal(item_entity, plan_cell),
        &mut plan_claims,
        &mut interaction_claims,
        &mut haul_store,
    );
    assert!(!haul_store.has_assignment(npc));
    let other = NpcId(8);
    assert!(haul_store.try_reserve(item_entity, other));
}

#[test]
fn preempt_release_holds_noop_on_idle_and_resting() {
    let npc = NpcId(1);
    let cell = IVec3::new(1, 1, 1);
    let mut plan_claims = PlanClaims::new();
    let mut interaction_claims = InteractionClaims::new();
    let mut haul_store = HaulStore::new();
    assert!(plan_claims.try_claim(cell, npc));
    preempt_release_holds(
        npc,
        &Goal::Idle,
        &mut plan_claims,
        &mut interaction_claims,
        &mut haul_store,
    );
    preempt_release_holds(
        npc,
        &Goal::Resting { remaining_ms: 2000 },
        &mut plan_claims,
        &mut interaction_claims,
        &mut haul_store,
    );
    let other = NpcId(2);
    assert!(!plan_claims.try_claim(cell, other));
}

#[test]
fn npc_id_allocator_is_monotonic_and_respects_loaded_ids() {
    let mut alloc = NpcIdAllocator::default();
    assert_eq!(alloc.allocate(), NpcId(1));
    assert_eq!(alloc.allocate(), NpcId(2));
    alloc.reserve_through(9);
    alloc.reserve_through(3);
    assert_eq!(alloc.allocate(), NpcId(10));
}

#[test]
fn exclusive_things_are_let_go_shared_ones_are_not_held() {
    let npc = NpcId(3);
    let bed = IVec3::new(4, 1, 4);
    let mut plan_claims = PlanClaims::new();
    let mut things = InteractionClaims::new();
    let mut haul = HaulStore::new();
    assert!(things.try_claim(bed, npc));
    let using = |exclusive: bool| Goal::Interacting {
        remaining_ms: 10,
        need_restore: None,
        target_cell: bed,
        anchor_cell: bed,
        exclusive,
        animation: None,
    };
    preempt_release_holds(npc, &using(false), &mut plan_claims, &mut things, &mut haul);
    assert!(things.is_taken_by_other(bed, NpcId(4)));
    preempt_release_holds(npc, &using(true), &mut plan_claims, &mut things, &mut haul);
    assert!(!things.is_taken_by_other(bed, NpcId(4)));
}

#[test]
fn release_of_an_errand_keeps_what_others_reserved() {
    let mut haul = HaulStore::new();
    assert!(haul.try_reserve(1, NpcId(1)));
    assert!(haul.try_reserve(2, NpcId(2)));
    assert!(!haul.try_reserve(2, NpcId(1)));
    haul.release_for_npc(NpcId(1));
    assert!(haul.try_reserve(1, NpcId(3)));
    assert!(!haul.try_reserve(2, NpcId(3)));
}

#[test]
fn unreachable_places_are_left_alone_for_a_while() {
    let mut haul = HaulStore::new();
    let plan = HaulTarget::Plan(IVec3::new(1, 1, 1));
    let station = HaulTarget::Station(IVec3::new(1, 1, 1));
    haul.memo_unreachable(plan, 100);
    assert!(haul.is_unreachable(plan, 99));
    assert!(!haul.is_unreachable(plan, 100));
    assert!(!haul.is_unreachable(station, 50));
}

#[test]
fn villagers_face_what_they_do() {
    let cell = IVec3::new(2, 2, 2);
    assert_eq!(face_target(&work_goal(cell), false), Some(cell));
    assert_eq!(
        face_target(&Goal::CraftingAtStation { station_cell: cell }, true),
        Some(cell)
    );
    let using = Goal::Interacting {
        remaining_ms: 1,
        need_restore: None,
        target_cell: cell,
        anchor_cell: cell,
        exclusive: false,
        animation: Some("sit".to_owned()),
    };
    assert_eq!(face_target(&using, false), Some(cell));
    assert_eq!(face_target(&using, true), None);
    assert_eq!(face_target(&Goal::Idle, false), None);
    let kinds = NpcKindRegistry { defs: vec![] };
    assert_eq!(anim_override(&using, &kinds, &"k".to_owned()), Some("sit".to_owned()));
    assert_eq!(anim_override(&Goal::Idle, &kinds, &"k".to_owned()), None);
}

#[test]
fn census_counts_every_villager_once() {
    let cell = IVec3::new(0, 1, 0);
    let entry = |goal: Goal, disabled: bool, still: bool| CensusEntry { goal, disabled, still };
    let stuck = Goal::MoveTo {
        path: vec![cell],
        edge: 0,
        blocked: true,
        deadline_ms: 1,
        on_arrive: ArrivalAction::Nothing,
        snap: None,
    };
    let c = npc_census(&vec![
        entry(Goal::Idle, true, true),
        entry(stuck, false, true),
        entry(walk_with(vec![cell], ArrivalAction::Nothing), false, false),
        entry(Goal::Resting { remaining_ms: 1 }, false, true),
        entry(work_goal(cell), false, false),
        entry(Goal::CraftingAtStation { station_cell: cell }, false, false),
    ]);
    assert_eq!((c.idle, c.moving, c.resting, c.interacting), (1, 2, 1, 0));
    assert_eq!((c.working, c.crafting, c.disabled), (1, 1, 1));
    assert_eq!((c.movers_blocked, c.movers_not_moving), (1, 1));
}
