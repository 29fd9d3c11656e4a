use block_junk::blocks::{
    BlockDef, BlockFlags, BlockRegistry, BlockSlot, BlockWorld, Cardinal, Interactable,
    NeedRestore, ToolGate, UseSlot, WorkAction,
};
use block_junk::cells::IVec3;
use block_junk::items::{ItemDef, ItemRegistry, ItemSlot};
use block_junk::npc::arrive::{finish_station_arrival, ArrivalResult};
use block_junk::npc::commit::{
    commit_craft, commit_goal, disable, find_footing, may_take_craft, may_take_errand,
    native_fallback_goal, next_thought, Footing, IdleStage, IdleStep, PlannerGoal, PlannerScene,
};
use block_junk::npc::errands::{continue_haul_or_release, pick_next_haul_leg, Leg};
use block_junk::npc::goals::{ArrivalAction, Goal};
use block_junk::npc::holds::{
    CraftBookings, HaulAssignment, HaulStore, HaulTarget, InteractionClaims, ReservedItem,
};
use block_junk::npc::mind::{run_goal, Surroundings, TickReport};
use block_junk::npc::nearby::{
    collect_nearby_interactions, collect_nearby_plans, EntryKind, Onlooker, PlanScene, ThingScene,
};
use block_junk::npc::needs::{NeedLevel, Needs, FULL_NEED};
use block_junk::npc::places::nearest_standable_neighbor;
use block_junk::npc::spawn::{initial_villagers, release_everything, roll_stats};
use block_junk::npc::tick::Body;
use block_junk::npc::village::{
    Effect, ItemDemand, StationState, Stations, Village, Villager,
};
use block_junk::npc::walk::WorldWalk;
use block_junk::npc::{NpcId, NpcIdAllocator};
use block_junk::npc_registry::{
    DefaultNeeds, KindAnimations, NeedBoost, NeedDef, NeedRegistry, NpcKindDef, NpcKindRegistry,
    StatDef, WorkDefaults,
};
use block_junk::ord_map::{CellMap, OrdMap};
use block_junk::plan_claims::PlanClaims;
use block_junk::plans::Plans;
use block_junk::protocol::{Carrying, MaterialEntry, PlanKind, PlanState, PoseBits};
use block_junk::rooms::map::RoomMap;

const STONE: BlockSlot = BlockSlot(1);
const BED: BlockSlot = BlockSlot(2);
const BENCH: BlockSlot = BlockSlot(3);
const ORE: BlockSlot = BlockSlot(4);

const LOG: ItemSlot = ItemSlot(0);
const PICK: ItemSlot = ItemSlot(1);

fn s(text: &str) -> String {
    text.to_owned()
}

fn at(x: i32, y: i32, z: i32) -> IVec3 {
    IVec3::new(x, y, z)
}

fn registry() -> BlockRegistry {
    let solid = BlockFlags { solid: true, support_below: true, ..BlockFlags::default() };
    let stone = BlockDef::plain(s("stone"), solid);
    let mut bed = BlockDef::plain(s("bed"), solid);
    bed.interactable = Some(Interactable {
        exclusive: true,
        duration_ms: 2000,
        need_restore: Some(NeedRestore { need: s("sleep"), restores: FULL_NEED / 2 }),
    });
    bed.use_slot = Some(UseSlot {
        approach: vec![at(-1, 0, 0), at(1, 0, 0)],
        animation: Some(s("lie")),
    });
    let mut bench = BlockDef::plain(s("bench"), solid);
    bench.station_tag = Some(s("bench"));
    let mut ore = BlockDef::plain(s("ore"), solid);
    ore.work_action = Some(WorkAction {
        duration_ms: 3000,
        need_restore: Some(NeedRestore { need: s("work"), restores: 100 }),
        build_gate: ToolGate { tool: None, bare_handed: None },
        destroy_gate: ToolGate { tool: Some(s("mine")), bare_handed: None },
    });
    BlockRegistry {
        defs: vec![
            BlockDef::plain(s("vanilla:empty"), BlockFlags::default()),
            stone,
            bed,
            bench,
            ore,
        ],
    }
}

fn items() -> ItemRegistry {
    ItemRegistry {
        defs: vec![
            ItemDef { id: s("log"), tool_tags: vec![] },
            ItemDef { id: s("pick"), tool_tags: vec![s("mine")] },
        ],
    }
}

/// Stone floor at y = 0 in chunk (0, 0, 0).
fn floor() -> BlockWorld {
    let mut w = BlockWorld::new();
    for x in 1..=20 {
        for z in 1..=20 {
            w.set(at(x, 0, z), STONE);
        }
    }
    w
}

fn loaded() -> CellMap<()> {
    let mut m = CellMap::new();
    let _ = m.insert(at(0, 0, 0), ());
    m
}

fn village() -> Village {
    Village {
        plans: Plans::new(),
        plan_claims: PlanClaims::new(),
        things: InteractionClaims::new(),
        haul: HaulStore::new(),
        bookings: CraftBookings::new(),
        stations: Stations::new(),
    }
}

fn villager(id: u64) -> Villager {
    Villager {
        id: NpcId(id),
        entity: 1000 + id,
        kind: s("k"),
        goal: Goal::Idle,
        path: vec![],
        needs: Needs {
            levels: vec![
                NeedLevel { id: s("sleep"), level: FULL_NEED },
                NeedLevel { id: s("work"), level: 500 },
            ],
        },
        carrying: Carrying::default(),
        tool: None,
        seed: 42,
        home: None,
        cooldown_ms: 0,
        locked: false,
    }
}

fn body(cell: IVec3) -> Body {
    Body { nominal: cell, lo: cell, hi: cell }
}

fn calm_needs() -> NeedRegistry {
    NeedRegistry { defs: vec![] }
}

/// Everything around the villagers of a test.
struct Scene {
    world: BlockWorld,
    reg: BlockRegistry,
    loaded: CellMap<()>,
    entries: CellMap<EntryKind>,
    ground: OrdMap<u64, ItemSlot>,
    needs: NeedRegistry,
    items: ItemRegistry,
    defaults: WorkDefaults,
    rooms: RoomMap,
}

fn scene(world: BlockWorld) -> Scene {
    Scene {
        world,
        reg: registry(),
        loaded: loaded(),
        entries: CellMap::new(),
        ground: OrdMap::new(),
        needs: calm_needs(),
        items: items(),
        defaults: WorkDefaults::default(),
        rooms: RoomMap::default(),
    }
}

impl Scene {
    fn walk(&self) -> WorldWalk<'_> {
        WorldWalk::new(&self.world, &self.reg, &self.loaded, 1000)
    }

    fn tick(&self, v: &mut Villager, village: &mut Village, cell: IVec3, dt: u32) -> TickReport {
        let walk = self.walk();
        run_goal(
            v,
            village,
            &Surroundings {
                walk: &walk,
                entries: &self.entries,
                ground: &self.ground,
                needs: &self.needs,
                body: body(cell),
                cap: 3,
                cluster: Some(9),
                dirty: false,
                now: 5000,
                dt,
            },
        )
    }

    fn turn_to(
        &self,
        v: &mut Villager,
        village: &mut Village,
        foot: IVec3,
        goal: PlannerGoal,
    ) -> (Option<PoseBits>, bool) {
        let walk = self.walk();
        commit_goal(
            v,
            village,
            &PlannerScene {
                walk: &walk,
                entries: &self.entries,
                rooms: &self.rooms,
                items: &self.items,
                defaults: &self.defaults,
                foot,
                settlement: None,
                pose: Some(PoseBits { x: 1, y: 2, z: 3, yaw: 4 }),
                now: 5000,
            },
            goal,
        )
    }
}

// ---------- choosing ----------

#[test]
fn resting_is_kept_within_bounds() {
    let sc = scene(floor());
    for (asked, got) in [(0, 500), (700, 700), (99999, 60000)] {
        let mut v = villager(1);
        v.path = vec![at(1, 1, 1)];
        let r = sc.turn_to(&mut v, &mut village(), at(1, 1, 1), PlannerGoal::Rest { duration_ms: asked });
        assert_eq!(r, (None, false));
        assert!(matches!(v.goal, Goal::Resting { remaining_ms } if remaining_ms == got));
        assert!(v.path.is_empty());
    }
}

#[test]
fn sleeping_on_the_ground_eases_little_by_little() {
    let sc = scene(floor());
    let mut v = villager(1);
    let mut vi = village();
    let _ = sc.turn_to(
        &mut v,
        &mut vi,
        at(1, 1, 1),
        PlannerGoal::SleepGround {
            duration_ms: 10000,
            restores: FULL_NEED,
            need: s("sleep"),
            animation: None,
        },
    );
    let r = sc.tick(&mut v, &mut vi, at(1, 1, 1), 1000);
    assert_eq!(r.result, ArrivalResult::GoOn);
    assert_eq!(v.needs.level(&s("sleep")), FULL_NEED / 10 * 9);
    assert!(matches!(v.goal, Goal::SleepingGround { remaining_ms: 9000, .. }));
    let _ = sc.tick(&mut v, &mut vi, at(1, 1, 1), 9000);
    assert_eq!(v.needs.level(&s("sleep")), 0);
    assert!(matches!(v.goal, Goal::Idle));
}

#[test]
fn wanderers_set_out_within_their_radius() {
    let sc = scene(floor());
    assert!(matches!(
        native_fallback_goal(),
        PlannerGoal::Wander { radius_cells: 12, timeout_ms: 12000 }
    ));
    let mut v = villager(1);
    let foot = at(10, 1, 10);
    let r = sc.turn_to(
        &mut v,
        &mut village(),
        foot,
        PlannerGoal::Wander { radius_cells: 3, timeout_ms: 1 },
    );
    assert_eq!(r, (None, false));
    assert_ne!(v.seed, 42);
    match &v.goal {
        Goal::MoveTo { path, deadline_ms, on_arrive, .. } => {
            assert_eq!(path[0], foot);
            assert!(path[path.len() - 1].chebyshev(foot) <= 3);
            assert_eq!(*deadline_ms, 1000);
            assert!(matches!(on_arrive, ArrivalAction::Nothing));
            assert_eq!(v.path, *path);
        }
        _ => panic!("there is room to wander"),
    }
}

#[test]
fn lost_homes_are_forgotten() {
    let sc = scene(floor());
    let mut v = villager(1);
    v.home = Some(3);
    let _ = sc.turn_to(
        &mut v,
        &mut village(),
        at(10, 1, 10),
        PlannerGoal::Wander { radius_cells: 2, timeout_ms: 5000 },
    );
    assert_eq!(v.home, None);
}

#[test]
fn going_somewhere_needs_a_way() {
    let sc = scene(floor());
    let mut v = villager(1);
    let r = sc.turn_to(
        &mut v,
        &mut village(),
        at(2, 1, 2),
        PlannerGoal::Goto { cell: at(8, 1, 2), timeout_ms: 999999 },
    );
    assert_eq!(r, (None, false));
    assert!(matches!(&v.goal, Goal::MoveTo { path, deadline_ms: 120000, .. }
        if path[path.len() - 1] == at(8, 1, 2)));

    let mut v = villager(1);
    let r = sc.turn_to(
        &mut v,
        &mut village(),
        at(2, 1, 2),
        PlannerGoal::Goto { cell: at(2, 1, 2), timeout_ms: 5 },
    );
    assert_eq!(r, (None, true));
    assert!(matches!(v.goal, Goal::Idle));

    let mut v = villager(1);
    let _ = sc.turn_to(
        &mut v,
        &mut village(),
        at(2, 1, 2),
        PlannerGoal::Goto { cell: at(2, 9, 2), timeout_ms: 5 },
    );
    assert!(matches!(v.goal, Goal::Resting { remaining_ms: 500 }));
}

fn bedroom() -> Scene {
    let mut w = floor();
    w.set(at(10, 1, 10), BED);
    let mut sc = scene(w);
    let _ = sc.entries.insert(at(10, 1, 10), EntryKind::Anchor { orientation: Cardinal::East });
    sc
}

#[test]
fn beds_are_for_one_villager_at_a_time() {
    let sc = bedroom();
    let mut vi = village();
    let mut v = villager(1);
    let goal = || PlannerGoal::Interact { cell: at(10, 1, 10), timeout_ms: 30000 };
    assert_eq!(sc.turn_to(&mut v, &mut vi, at(5, 1, 10), goal()), (None, false));
    match &v.goal {
        Goal::MoveTo { path, on_arrive, snap, .. } => {
            assert_eq!(path[path.len() - 1], at(9, 1, 10));
            assert_eq!(*snap, Some(PoseBits { x: 1, y: 2, z: 3, yaw: 4 }));
            match on_arrive {
                ArrivalAction::Interact { exclusive, duration_ms, animation, .. } => {
                    assert!(*exclusive);
                    assert_eq!(*duration_ms, 2000);
                    assert_eq!(animation.as_deref(), Some("lie"));
                }
                _ => panic!("the bed is to be used"),
            }
        }
        _ => panic!("there is a way to the bed"),
    }
    let mut other = villager(2);
    assert_eq!(sc.turn_to(&mut other, &mut vi, at(12, 1, 10), goal()), (None, true));
    assert!(matches!(other.goal, Goal::Resting { remaining_ms: 500 }));
}

#[test]
fn whoever_stands_at_the_bed_lies_down_at_once() {
    let sc = bedroom();
    let mut vi = village();
    let mut v = villager(1);
    let r = sc.turn_to(
        &mut v,
        &mut vi,
        at(11, 1, 10),
        PlannerGoal::Interact { cell: at(10, 1, 10), timeout_ms: 30000 },
    );
    assert_eq!(r, (Some(PoseBits { x: 1, y: 2, z: 3, yaw: 4 }), true));
    assert!(v.locked);
    assert!(matches!(v.goal, Goal::Interacting { remaining_ms: 2000, .. }));

    let r = sc.tick(&mut v, &mut vi, at(11, 1, 10), 2000);
    assert_eq!(r.effects, vec![Effect::StandAt(at(9, 1, 10))]);
    assert!(!v.locked);
    assert!(matches!(v.goal, Goal::Idle));
    assert_eq!(v.needs.level(&s("sleep")), FULL_NEED / 2);
    assert_eq!(v.home, Some(9));
    assert!(!vi.things.is_taken_by_other(at(10, 1, 10), NpcId(2)));
}

#[test]
fn beds_out_of_reach_are_remembered() {
    let mut w = floor();
    w.set(at(10, 1, 10), BED);
    for x in 8..=12 {
        for z in 8..=12 {
            if x == 8 || x == 12 || z == 8 || z == 12 {
                w.set(at(x, 1, z), STONE);
                w.set(at(x, 2, z), STONE);
            }
        }
    }
    let mut sc = scene(w);
    let _ = sc.entries.insert(at(10, 1, 10), EntryKind::Anchor { orientation: Cardinal::East });
    let mut vi = village();
    let mut v = villager(1);
    let r = sc.turn_to(
        &mut v,
        &mut vi,
        at(3, 1, 3),
        PlannerGoal::Interact { cell: at(10, 1, 10), timeout_ms: 30000 },
    );
    assert_eq!(r, (None, false));
    assert!(matches!(v.goal, Goal::Resting { remaining_ms: 500 }));
    assert!(vi.things.is_unreachable(at(10, 1, 10), 34999));
    assert!(!vi.things.is_unreachable(at(10, 1, 10), 35000));
    assert!(!vi.things.is_taken_by_other(at(10, 1, 10), NpcId(2)));
}

#[test]
fn things_that_are_no_more_are_not_used() {
    let sc = scene(floor());
    let mut v = villager(1);
    let r = sc.turn_to(
        &mut v,
        &mut village(),
        at(3, 1, 3),
        PlannerGoal::Interact { cell: at(10, 1, 10), timeout_ms: 30000 },
    );
    assert_eq!(r, (None, true));
    assert!(matches!(v.goal, Goal::Resting { remaining_ms: 500 }));
}

fn mine() -> (Scene, Village) {
    let mut w = floor();
    w.set(at(10, 1, 10), ORE);
    let mut vi = village();
    vi.plans.set(at(10, 1, 10), PlanState::new(PlanKind::Remove, vec![]));
    (scene(w), vi)
}

#[test]
fn hard_ore_needs_its_tool() {
    let (sc, mut vi) = mine();
    let mut v = villager(1);
    let goal = || PlannerGoal::WorkPlan { cell: at(10, 1, 10), timeout_ms: 30000 };
    assert_eq!(sc.turn_to(&mut v, &mut vi, at(5, 1, 10), goal()), (None, true));
    assert!(matches!(v.goal, Goal::Resting { remaining_ms: 500 }));
    assert!(!vi.plan_claims.is_taken_by_other(at(10, 1, 10), NpcId(2)));

    v.tool = Some(PICK);
    assert_eq!(sc.turn_to(&mut v, &mut vi, at(5, 1, 10), goal()), (None, false));
    match &v.goal {
        Goal::MoveTo { path, on_arrive, .. } => {
            assert_eq!(path[path.len() - 1], at(9, 1, 10));
            assert!(matches!(on_arrive, ArrivalAction::Work { duration_ms: 3000, .. }));
        }
        _ => panic!("there is a way to the ore"),
    }
    let mut other = villager(2);
    other.tool = Some(PICK);
    assert_eq!(sc.turn_to(&mut other, &mut vi, at(11, 1, 10), goal()), (None, true));
    assert!(matches!(other.goal, Goal::Resting { .. }));
}

#[test]
fn work_is_done_where_the_plan_still_stands() {
    let (sc, mut vi) = mine();
    let mut v = villager(1);
    v.tool = Some(PICK);
    let r = sc.turn_to(
        &mut v,
        &mut vi,
        at(9, 1, 10),
        PlannerGoal::WorkPlan { cell: at(10, 1, 10), timeout_ms: 30000 },
    );
    assert_eq!(r, (None, true));
    assert!(matches!(v.goal, Goal::Working { remaining_ms: 3000, .. }));
    let r = sc.tick(&mut v, &mut vi, at(9, 1, 10), 1000);
    assert!(r.effects.is_empty());
    let r = sc.tick(&mut v, &mut vi, at(9, 1, 10), 2000);
    assert_eq!(
        r.effects,
        vec![Effect::WorkCompleted { cell: at(10, 1, 10), kind: PlanKind::Remove }]
    );
    assert_eq!(v.needs.level(&s("work")), 400);
    assert!(!vi.plan_claims.is_taken_by_other(at(10, 1, 10), NpcId(2)));
}

#[test]
fn work_on_a_cancelled_plan_ends_silently() {
    let (sc, mut vi) = mine();
    let mut v = villager(1);
    v.tool = Some(PICK);
    let _ = sc.turn_to(
        &mut v,
        &mut vi,
        at(9, 1, 10),
        PlannerGoal::WorkPlan { cell: at(10, 1, 10), timeout_ms: 30000 },
    );
    vi.plans.clear(at(10, 1, 10));
    let r = sc.tick(&mut v, &mut vi, at(9, 1, 10), 3000);
    assert!(r.effects.is_empty());
    assert!(matches!(v.goal, Goal::Idle));
}

#[test]
fn worn_down_villagers_work_slower() {
    let (mut sc, mut vi) = mine();
    sc.defaults.worn_down = Some(NeedBoost { need: s("sleep"), above: 10, multiplier: 1500 });
    let mut v = villager(1);
    v.tool = Some(PICK);
    let _ = sc.turn_to(
        &mut v,
        &mut vi,
        at(9, 1, 10),
        PlannerGoal::WorkPlan { cell: at(10, 1, 10), timeout_ms: 30000 },
    );
    assert!(matches!(v.goal, Goal::Working { remaining_ms: 4500, .. }));
}

#[test]
fn plans_without_a_place_to_stand_are_left_alone() {
    let mut w = floor();
    w.set(at(10, 9, 10), ORE);
    let sc = scene(w);
    let mut vi = village();
    vi.plans.set(at(10, 9, 10), PlanState::new(PlanKind::Remove, vec![]));
    let mut v = villager(1);
    v.tool = Some(PICK);
    let r = sc.turn_to(
        &mut v,
        &mut vi,
        at(9, 1, 10),
        PlannerGoal::WorkPlan { cell: at(10, 9, 10), timeout_ms: 30000 },
    );
    assert_eq!(r, (None, true));
    assert!(vi.haul.is_unreachable(HaulTarget::Plan(at(10, 9, 10)), 34999));
    assert!(!vi.haul.is_unreachable(HaulTarget::Plan(at(10, 9, 10)), 35000));
}

// ---------- walking and arriving ----------

fn walking(path: Vec<IVec3>, edge: usize, on_arrive: ArrivalAction) -> Goal {
    Goal::MoveTo { path, edge, blocked: false, deadline_ms: 10000, on_arrive, snap: None }
}

#[test]
fn walks_end_at_the_last_cell_or_in_time() {
    let sc = scene(floor());
    let mut vi = village();
    let mut v = villager(1);
    let path = vec![at(2, 1, 2), at(5, 1, 2)];
    v.goal = walking(path.clone(), 0, ArrivalAction::Nothing);
    v.path = path.clone();
    let _ = sc.tick(&mut v, &mut vi, at(2, 1, 2), 100);
    assert!(matches!(v.goal, Goal::MoveTo { deadline_ms: 9900, .. }));
    v.goal = walking(path.clone(), 1, ArrivalAction::Nothing);
    let _ = sc.tick(&mut v, &mut vi, at(5, 1, 2), 100);
    assert!(matches!(v.goal, Goal::Idle));
    assert!(v.path.is_empty());
    v.goal = walking(path, 0, ArrivalAction::Nothing);
    let _ = sc.tick(&mut v, &mut vi, at(2, 1, 2), 10000);
    assert!(matches!(v.goal, Goal::Idle));
}

#[test]
fn blocked_walkers_find_another_way() {
    let mut w = floor();
    w.set(at(4, 1, 2), STONE);
    w.set(at(4, 2, 2), STONE);
    let sc = scene(w);
    let mut v = villager(1);
    let end = at(6, 1, 2);
    v.goal = Goal::MoveTo {
        path: vec![at(2, 1, 2), end],
        edge: 0,
        blocked: true,
        deadline_ms: 10000,
        on_arrive: ArrivalAction::Nothing,
        snap: None,
    };
    let _ = sc.tick(&mut v, &mut village(), at(2, 1, 2), 100);
    match &v.goal {
        Goal::MoveTo { path, edge, blocked, .. } => {
            assert!(path.len() > 2);
            assert_eq!(path[path.len() - 1], end);
            assert_eq!((*edge, *blocked), (0, false));
            assert_eq!(v.path, *path);
        }
        _ => panic!("there is a way around"),
    }
}

#[test]
fn given_up_work_is_free_and_avoided() {
    let sc = scene(floor());
    let mut vi = village();
    let mut v = villager(1);
    let cell = at(9, 1, 9);
    assert!(vi.plan_claims.try_claim(cell, v.id));
    v.goal = Goal::MoveTo {
        path: vec![at(2, 1, 2), at(2, 9, 2)],
        edge: 0,
        blocked: true,
        deadline_ms: 10000,
        on_arrive: ArrivalAction::Work {
            duration_ms: 1,
            target_cell: cell,
            plan_kind: PlanKind::Remove,
            need_restore: None,
        },
        snap: None,
    };
    let _ = sc.tick(&mut v, &mut vi, at(2, 1, 2), 100);
    assert!(matches!(v.goal, Goal::Idle));
    assert!(!vi.plan_claims.is_taken_by_other(cell, NpcId(2)));
    assert!(vi.haul.is_unreachable(HaulTarget::Plan(cell), 34999));
}

#[test]
fn work_arrivals_check_the_plan() {
    let sc = scene(floor());
    let mut vi = village();
    let cell = at(3, 1, 2);
    let work = || ArrivalAction::Work {
        duration_ms: 700,
        target_cell: cell,
        plan_kind: PlanKind::Remove,
        need_restore: None,
    };
    let mut v = villager(1);
    assert!(vi.plan_claims.try_claim(cell, v.id));
    v.goal = walking(vec![at(2, 1, 2)], 0, work());
    let r = sc.tick(&mut v, &mut vi, at(2, 1, 2), 10);
    assert_eq!(r.result, ArrivalResult::EndTick);
    assert!(matches!(v.goal, Goal::Idle));
    assert!(!vi.plan_claims.is_taken_by_other(cell, NpcId(2)));

    vi.plans.set(cell, PlanState::new(PlanKind::Remove, vec![]));
    v.goal = walking(vec![at(2, 1, 2)], 0, work());
    let r = sc.tick(&mut v, &mut vi, at(2, 1, 2), 10);
    assert_eq!(r.result, ArrivalResult::GoOn);
    assert!(matches!(v.goal, Goal::Working { remaining_ms: 700, .. }));
}

#[test]
fn arrivals_at_a_vanished_thing_let_it_go() {
    let sc = scene(floor());
    let mut vi = village();
    let mut v = villager(1);
    let cell = at(3, 1, 2);
    assert!(vi.things.try_claim(cell, v.id));
    v.goal = walking(
        vec![at(2, 1, 2)],
        0,
        ArrivalAction::Interact {
            need_restore: None,
            duration_ms: 1,
            target_cell: cell,
            anchor_cell: cell,
            exclusive: true,
            animation: None,
        },
    );
    let r = sc.tick(&mut v, &mut vi, at(2, 1, 2), 10);
    assert_eq!(r.result, ArrivalResult::EndTick);
    assert!(!vi.things.is_taken_by_other(cell, NpcId(2)));
}

// ---------- interrupting ----------

#[test]
fn pressing_needs_interrupt_work_once_in_a_while() {
    let mut sc = scene(floor());
    sc.needs = NeedRegistry {
        defs: vec![NeedDef {
            id: s("sleep"),
            display_name: s("Sleep"),
            decay_per_sec: 0,
            urge_threshold: None,
            preempt_threshold: Some(FULL_NEED / 2),
            decay_boost: None,
        }],
    };
    let mut vi = village();
    let mut v = villager(1);
    let cell = at(3, 1, 2);
    let work = || Goal::Working {
        remaining_ms: 9000,
        target_cell: cell,
        plan_kind: PlanKind::Remove,
        need_restore: None,
    };
    assert!(vi.plan_claims.try_claim(cell, v.id));
    v.goal = work();
    let r = sc.tick(&mut v, &mut vi, at(2, 1, 2), 10);
    assert!(r.interrupted);
    assert!(matches!(v.goal, Goal::Idle));
    assert_eq!(v.cooldown_ms, 5000);
    assert!(!vi.plan_claims.is_taken_by_other(cell, NpcId(2)));
    v.goal = work();
    let r = sc.tick(&mut v, &mut vi, at(2, 1, 2), 10);
    assert!(!r.interrupted);
    assert_eq!(v.cooldown_ms, 4990);
    let r = sc.tick(&mut v, &mut vi, at(2, 1, 2), 4990);
    assert!(r.interrupted);
    v.goal = Goal::Resting { remaining_ms: 100000 };
    v.cooldown_ms = 0;
    assert!(!sc.tick(&mut v, &mut vi, at(2, 1, 2), 10).interrupted);
}

#[test]
fn needs_grow_faster_under_another_need() {
    let reg = NeedRegistry {
        defs: vec![
            NeedDef {
                id: s("sleep"),
                display_name: s("Sleep"),
                decay_per_sec: 1000000,
                urge_threshold: None,
                preempt_threshold: None,
                decay_boost: None,
            },
            NeedDef {
                id: s("work"),
                display_name: s("Work"),
                decay_per_sec: 2000,
                urge_threshold: None,
                preempt_threshold: None,
                decay_boost: Some(NeedBoost {
                    need: s("sleep"),
                    above: FULL_NEED,
                    multiplier: 3000,
                }),
            },
        ],
    };
    let mut needs = villager(1).needs;
    needs.advance(&reg, 500);
    assert_eq!(needs.level(&s("sleep")), FULL_NEED);
    assert_eq!(needs.level(&s("work")), 500 + 3000);
    needs.ease(&s("sleep"), 1);
    needs.advance(&reg, 500);
    assert_eq!(needs.level(&s("work")), 3500 + 1000);
    assert_eq!(needs.level(&s("unknown")), 0);
}

// ---------- errands ----------

fn reserved(entity: u64, item: ItemSlot, cell: IVec3) -> ReservedItem {
    ReservedItem { entity, item, cell }
}

#[test]
fn errands_fetch_tools_first_then_collect_then_deliver() {
    let mut plans = Plans::new();
    let cell = at(10, 1, 10);
    plans.set(
        cell,
        PlanState::new(
            PlanKind::Remove,
            vec![MaterialEntry { item: LOG, needed: 2, present: 0 }],
        ),
    );
    let stations = Stations::new();
    let mut a = HaulAssignment {
        target: HaulTarget::Plan(cell),
        queue: vec![reserved(5, LOG, at(3, 1, 3))],
        pending_tool: Some(reserved(6, PICK, at(4, 1, 4))),
    };
    let mut hands = Carrying::default();
    let leg = |a: &HaulAssignment, hands: &Carrying, plans: &Plans| {
        pick_next_haul_leg(a, hands, 3, plans, &stations)
    };
    assert_eq!(leg(&a, &hands, &plans), Leg::FetchTool(reserved(6, PICK, at(4, 1, 4))));
    a.pending_tool = None;
    assert_eq!(leg(&a, &hands, &plans), Leg::Pickup(reserved(5, LOG, at(3, 1, 3))));
    hands = Carrying { item: Some(LOG), count: 3 };
    assert_eq!(leg(&a, &hands, &plans), Leg::Deliver(HaulTarget::Plan(cell)));
    hands.count = 1;
    assert_eq!(leg(&a, &hands, &plans), Leg::Pickup(reserved(5, LOG, at(3, 1, 3))));
    a.queue.clear();
    assert_eq!(leg(&a, &hands, &plans), Leg::Deliver(HaulTarget::Plan(cell)));
    hands = Carrying::default();
    assert_eq!(leg(&a, &hands, &plans), Leg::Done);
    a.queue.push(reserved(5, LOG, at(3, 1, 3)));
    plans.clear(cell);
    assert_eq!(leg(&a, &hands, &plans), Leg::Done);
}

fn errand_village(cell: IVec3) -> Village {
    let mut vi = village();
    vi.plans.set(
        cell,
        PlanState::new(
            PlanKind::Build { slot: STONE, orientation: Cardinal::East },
            vec![MaterialEntry { item: LOG, needed: 2, present: 0 }],
        ),
    );
    assert!(vi.haul.try_reserve(5, NpcId(1)));
    vi.haul.commit_assignment(
        NpcId(1),
        HaulAssignment {
            target: HaulTarget::Plan(cell),
            queue: vec![reserved(5, LOG, at(6, 1, 3))],
            pending_tool: None,
        },
    );
    vi
}

#[test]
fn an_errand_from_start_to_end() {
    let plan = at(12, 1, 12);
    let mut sc = scene(floor());
    let _ = sc.ground.insert(5, LOG);
    let mut vi = errand_village(plan);
    let mut v = villager(1);
    {
        let walk = sc.walk();
        assert!(continue_haul_or_release(&mut v, &mut vi, &walk, at(3, 1, 3), 3, 5000));
    }
    let stand = match &v.goal {
        Goal::MoveTo { path, on_arrive, deadline_ms, .. } => {
            assert_eq!(*deadline_ms, 60000);
            assert!(matches!(on_arrive, ArrivalAction::PickupForPlan { item_entity: 5, .. }));
            path[path.len() - 1]
        }
        _ => panic!("there is something to collect"),
    };
    v.goal = walking(
        vec![stand],
        0,
        ArrivalAction::PickupForPlan { item_entity: 5, item_slot: LOG, plan_cell: plan },
    );
    let r = sc.tick(&mut v, &mut vi, stand, 10);
    assert_eq!(r.effects, vec![Effect::TakeItem(5)]);
    assert_eq!(v.carrying, Carrying { item: Some(LOG), count: 1 });
    let stand = match &v.goal {
        Goal::MoveTo { path, on_arrive, .. } => {
            assert!(matches!(on_arrive, ArrivalAction::DepositAtPlan { .. }));
            path[path.len() - 1]
        }
        _ => panic!("there is something to deliver"),
    };
    v.goal = walking(vec![stand], 0, ArrivalAction::DepositAtPlan { plan_cell: plan });
    let r = sc.tick(&mut v, &mut vi, stand, 10);
    assert_eq!(r.effects, vec![Effect::AnnouncePlan(plan)]);
    assert_eq!(v.carrying, Carrying::default());
    assert_eq!(vi.plans.get(plan).map(|p| p.remaining_for(LOG)), Some(1));
    assert!(matches!(v.goal, Goal::Idle));
    assert!(!vi.haul.has_assignment(NpcId(1)));
}

#[test]
fn vanished_items_end_the_errand() {
    let plan = at(12, 1, 12);
    let sc = scene(floor());
    let mut vi = errand_village(plan);
    let mut v = villager(1);
    v.goal = walking(
        vec![at(5, 1, 3)],
        0,
        ArrivalAction::PickupForPlan { item_entity: 5, item_slot: LOG, plan_cell: plan },
    );
    let r = sc.tick(&mut v, &mut vi, at(5, 1, 3), 10);
    assert_eq!(r.result, ArrivalResult::EndTick);
    assert!(!vi.haul.has_assignment(NpcId(1)));
    assert!(vi.haul.try_reserve(5, NpcId(2)));
}

#[test]
fn stations_take_what_they_want() {
    let cell = at(8, 1, 8);
    let mut w = floor();
    w.set(cell, BENCH);
    let sc = scene(w);
    let mut vi = village();
    vi.stations.set(
        cell,
        StationState { demand: vec![ItemDemand { item: LOG, count: 2 }], active: false, ready: false },
    );
    let mut v = villager(1);
    v.carrying = Carrying { item: Some(LOG), count: 3 };
    v.goal = walking(vec![at(7, 1, 8)], 0, ArrivalAction::DepositAtStation { station_cell: cell });
    let r = sc.tick(&mut v, &mut vi, at(7, 1, 8), 10);
    assert_eq!(r.effects, vec![Effect::AnnounceStation(cell)]);
    assert_eq!(v.carrying.count, 1);
    assert_eq!(vi.stations.demand_for(cell, LOG), 0);
    assert!(!vi.stations.has_demand(cell));

    v.goal = walking(vec![at(7, 1, 8)], 0, ArrivalAction::DepositAtStation { station_cell: cell });
    let r = sc.tick(&mut v, &mut vi, at(7, 1, 8), 10);
    assert_eq!(r.result, ArrivalResult::EndTick);
    assert_eq!(v.carrying.count, 1);
}

#[test]
fn tools_are_swapped() {
    let mut sc = scene(floor());
    let _ = sc.ground.insert(6, PICK);
    let mut vi = village();
    let mut v = villager(1);
    v.tool = Some(LOG);
    v.goal = walking(
        vec![at(5, 1, 3)],
        0,
        ArrivalAction::PickupTool { item_entity: 6, item_slot: PICK },
    );
    let r = sc.tick(&mut v, &mut vi, at(5, 1, 3), 10);
    assert_eq!(r.effects, vec![Effect::SwapTool { taken: 6, dropped: Some(LOG) }]);
    assert_eq!(v.tool, Some(PICK));
}

// ---------- stations ----------

#[test]
fn stations_are_worked_at_or_started() {
    let cell = at(8, 1, 8);
    let mut w = floor();
    w.set(cell, BENCH);
    let sc = scene(w);
    let mut vi = village();
    let mut v = villager(1);
    vi.bookings.book(v.id, cell);
    let arrive = || walking(vec![at(7, 1, 8)], 0, ArrivalAction::WorkStation { station_cell: cell });
    v.goal = arrive();
    let r = sc.tick(&mut v, &mut vi, at(7, 1, 8), 10);
    assert_eq!(r.result, ArrivalResult::StartOrder(cell));
    assert_eq!(finish_station_arrival(&mut v, &mut vi, cell, false), None);
    assert!(matches!(v.goal, Goal::Idle));
    assert!(!vi.bookings.contains_npc(v.id));

    vi.bookings.book(v.id, cell);
    vi.stations.set(cell, StationState { demand: vec![], active: true, ready: false });
    v.goal = arrive();
    let r = sc.tick(&mut v, &mut vi, at(7, 1, 8), 10);
    assert_eq!(r.effects, vec![Effect::AnnounceStation(cell)]);
    assert!(matches!(v.goal, Goal::CraftingAtStation { .. }));
    assert_eq!(vi.bookings.worker_at(cell), Some(1001));
    let _ = sc.tick(&mut v, &mut vi, at(7, 1, 8), 10);
    assert!(matches!(v.goal, Goal::CraftingAtStation { .. }));
    vi.stations.set(cell, StationState { demand: vec![], active: false, ready: true });
    let _ = sc.tick(&mut v, &mut vi, at(7, 1, 8), 10);
    assert!(matches!(v.goal, Goal::CraftingAtStation { .. }));
    vi.stations.set(cell, StationState { demand: vec![], active: false, ready: false });
    let _ = sc.tick(&mut v, &mut vi, at(7, 1, 8), 10);
    assert!(matches!(v.goal, Goal::Idle));
    assert_eq!(vi.bookings.worker_at(cell), None);
}

#[test]
fn booked_villagers_walk_to_their_station() {
    let cell = at(8, 1, 8);
    let mut w = floor();
    w.set(cell, BENCH);
    w.set(at(12, 9, 12), BENCH);
    let sc = scene(w);
    let walk = sc.walk();
    let mut vi = village();
    let mut v = villager(1);
    assert!(may_take_craft(&v, &vi, false));
    assert!(!may_take_craft(&v, &vi, true));
    assert!(may_take_errand(&v, &vi, false));
    vi.bookings.book(v.id, cell);
    assert!(!may_take_craft(&v, &vi, false));
    commit_craft(&mut v, &mut vi, &walk, at(2, 1, 8), cell);
    assert!(matches!(&v.goal, Goal::MoveTo { path, deadline_ms: 60000, .. }
        if path[path.len() - 1] == at(7, 1, 8)));
    commit_craft(&mut v, &mut vi, &walk, at(7, 1, 8), cell);
    assert!(matches!(&v.goal, Goal::MoveTo { path, deadline_ms: 1000, .. }
        if *path == vec![at(7, 1, 8)]));
    commit_craft(&mut v, &mut vi, &walk, at(7, 1, 8), at(12, 9, 12));
    assert!(matches!(v.goal, Goal::Resting { remaining_ms: 500 }));
    assert!(!vi.bookings.contains_npc(v.id));
}

// ---------- footing ----------

#[test]
fn villagers_without_footing_are_rescued() {
    let sc = scene(floor());
    let walk = sc.walk();
    let mut v = villager(1);
    assert_eq!(find_footing(&mut v, &walk, false, body(at(5, 1, 5))), Footing::Sound);
    assert_eq!(find_footing(&mut v, &walk, false, body(at(5, 2, 5))), Footing::Rescued(at(5, 1, 5)));
    assert_eq!(find_footing(&mut v, &walk, false, body(at(5, 9, 5))), Footing::Stuck);
    assert!(matches!(v.goal, Goal::Resting { remaining_ms: 500 }));
    v.locked = true;
    assert_eq!(find_footing(&mut v, &walk, true, body(at(5, 9, 5))), Footing::Sound);
    assert_eq!(nearest_standable_neighbor(&walk, at(5, 0, 5), at(5, 1, 1)), Some(at(5, 1, 4)));
}

#[test]
fn failed_planners_disable_the_villager() {
    let mut vi = errand_village(at(12, 1, 12));
    let mut v = villager(1);
    v.locked = true;
    assert!(vi.plan_claims.try_claim(at(1, 1, 1), NpcId(1)));
    assert!(vi.plan_claims.try_claim(at(2, 1, 1), NpcId(2)));
    assert!(vi.things.try_claim(at(1, 1, 1), NpcId(1)));
    disable(&mut v, &mut vi);
    assert!(!v.locked);
    assert!(!vi.haul.has_assignment(NpcId(1)));
    assert!(!vi.plan_claims.is_taken_by_other(at(1, 1, 1), NpcId(3)));
    assert!(vi.plan_claims.is_taken_by_other(at(2, 1, 1), NpcId(3)));
    assert!(!vi.things.is_taken_by_other(at(1, 1, 1), NpcId(3)));
}

// ---------- looking around ----------

#[test]
fn only_workable_plans_are_offered() {
    let (sc, mut vi) = mine();
    let walk = sc.walk();
    vi.plans.set(at(3, 1, 3), PlanState::new(PlanKind::Build { slot: STONE, orientation: Cardinal::East }, vec![]));
    vi.plans.set(
        at(4, 1, 3),
        PlanState::new(
            PlanKind::Build { slot: STONE, orientation: Cardinal::East },
            vec![MaterialEntry { item: LOG, needed: 1, present: 0 }],
        ),
    );
    vi.plans.set(at(5, 1, 3), PlanState::new(PlanKind::Build { slot: STONE, orientation: Cardinal::East }, vec![]));
    assert!(vi.plan_claims.try_claim(at(5, 1, 3), NpcId(2)));
    let look = |vi: &Village, tool: Option<ItemSlot>, limit: usize| -> Vec<IVec3> {
        collect_nearby_plans(
            &PlanScene {
                plans: &vi.plans,
                claims: &vi.plan_claims,
                haul: &vi.haul,
                items: &sc.items,
                defaults: &sc.defaults,
                now: 0,
            },
            &walk,
            Onlooker { id: NpcId(1), foot: at(9, 1, 10), tool },
            48,
            limit,
        )
        .iter()
        .map(|p| p.cell)
        .collect()
    };
    assert_eq!(look(&vi, None, 8), vec![at(3, 1, 3)]);
    assert_eq!(look(&vi, Some(PICK), 8), vec![at(10, 1, 10), at(3, 1, 3)]);
    assert_eq!(look(&vi, Some(PICK), 1), vec![at(10, 1, 10)]);
    vi.haul.memo_unreachable(HaulTarget::Plan(at(10, 1, 10)), 1);
    assert_eq!(look(&vi, Some(PICK), 8), vec![at(3, 1, 3)]);
    let free = PlanKind::Build { slot: STONE, orientation: Cardinal::East };
    vi.plans.set(at(9 + 24, 1, 10 + 24), PlanState::new(free, vec![]));
    vi.plans.set(at(9 + 25, 1, 10 + 24), PlanState::new(free, vec![]));
    assert_eq!(look(&vi, None, 8), vec![at(3, 1, 3), at(33, 1, 34)]);
}

#[test]
fn idle_villagers_look_for_work_in_order() {
    let v = villager(1);
    let free = village();
    let next = |vi: &Village, interrupted: bool, asked: IdleStage| {
        next_thought(&v, vi, interrupted, asked)
    };
    assert_eq!(next(&free, false, IdleStage::Nothing), IdleStep::AskForCraft);
    assert_eq!(next(&free, false, IdleStage::CraftAsked), IdleStep::AskForErrand);
    assert_eq!(next(&free, false, IdleStage::ErrandAsked), IdleStep::AskPlanner);
    assert_eq!(next(&free, true, IdleStage::Nothing), IdleStep::AskPlanner);
    let busy = errand_village(at(12, 1, 12));
    for asked in [IdleStage::Nothing, IdleStage::CraftAsked, IdleStage::ErrandAsked] {
        assert_eq!(next(&busy, false, asked), IdleStep::GoOnErrand);
        assert_eq!(next(&busy, true, asked), IdleStep::GoOnErrand);
    }
    assert_eq!(next(&busy, false, IdleStage::ErrandEnded), IdleStep::AskPlanner);
    let mut booked = village();
    booked.bookings.book(v.id, at(3, 1, 3));
    assert_eq!(next(&booked, false, IdleStage::Nothing), IdleStep::AskForErrand);
}

#[test]
fn only_free_things_are_offered() {
    let sc = bedroom();
    let mut cells = CellMap::new();
    let _ = cells.insert(at(10, 1, 10), BED);
    let mut vi = village();
    let look = |vi: &Village| -> usize {
        collect_nearby_interactions(
            &ThingScene {
                cells: &cells,
                entries: &sc.entries,
                claims: &vi.things,
                registry: &sc.reg,
                now: 0,
            },
            NpcId(1),
            at(5, 1, 5),
            48,
            8,
        )
        .len()
    };
    assert_eq!(look(&vi), 1);
    assert!(vi.things.try_claim(at(10, 1, 10), NpcId(2)));
    assert_eq!(look(&vi), 0);
    vi.things.release(at(10, 1, 10), NpcId(2));
    vi.things.memo_unreachable(at(10, 1, 10), 7);
    assert_eq!(look(&vi), 0);
}

// ---------- coming and going ----------

#[test]
fn four_villagers_settle_a_fresh_world() {
    let mut needs = DefaultNeeds::new();
    needs.set(s("hunger"), 7);
    let kinds = NpcKindRegistry {
        defs: vec![NpcKindDef {
            id: s("k"),
            carry_capacity: 3,
            default_needs: needs,
            animations: KindAnimations { idle: s("i"), walk: s("w"), work: s("x") },
            stats: vec![StatDef { id: s("speed"), min: -5, max: 5 }],
        }],
    };
    let mut done = false;
    let mut ids = NpcIdAllocator::default();
    let born = initial_villagers(&mut done, false, &kinds, &s("k"), &mut ids);
    assert_eq!(born.len(), 4);
    assert!(done);
    assert_eq!(ids.next, 5);
    for (i, v) in born.iter().enumerate() {
        assert_eq!(v.id, NpcId(1 + i as u64));
        assert_eq!(v.stats.len(), 1);
        assert!(v.stats[0].value >= -5 && v.stats[0].value <= 5);
    }
    assert!(initial_villagers(&mut done, false, &kinds, &s("k"), &mut ids).is_empty());
    let mut fresh = false;
    assert!(initial_villagers(&mut fresh, true, &kinds, &s("k"), &mut ids).is_empty());
    assert!(fresh);
}

#[test]
fn stats_depend_on_the_seed_alone() {
    let defs = vec![
        StatDef { id: s("a"), min: 0, max: 1000000 },
        StatDef { id: s("b"), min: 3, max: 3 },
    ];
    let roll = |mut seed: u64| -> Vec<i64> {
        roll_stats(&defs, &mut seed).iter().map(|v| v.value).collect()
    };
    assert_eq!(roll(7), roll(7));
    assert_ne!(roll(7)[0], roll(8)[0]);
    assert_eq!(roll(7)[1], 3);
}

#[test]
fn the_dead_hold_nothing() {
    let mut vi = errand_village(at(12, 1, 12));
    assert!(vi.plan_claims.try_claim(at(1, 1, 1), NpcId(1)));
    assert!(vi.things.try_claim(at(1, 1, 1), NpcId(1)));
    vi.bookings.book(NpcId(1), at(3, 1, 3));
    vi.bookings.register_worker(at(3, 1, 3), 1001);
    release_everything(
        NpcId(1),
        1001,
        &mut vi.plan_claims,
        &mut vi.things,
        &mut vi.haul,
        &mut vi.bookings,
    );
    assert!(!vi.plan_claims.is_taken_by_other(at(1, 1, 1), NpcId(2)));
    assert!(!vi.things.is_taken_by_other(at(1, 1, 1), NpcId(2)));
    assert!(!vi.haul.has_assignment(NpcId(1)));
    assert!(!vi.bookings.contains_npc(NpcId(1)));
    assert_eq!(vi.bookings.worker_at(at(3, 1, 3)), None);
}
