//! One tick of a villager's mind, apart from choosing a new goal: interrupting,
//! making progress, arriving, giving up and finishing.

use crate::blocks::{BlockDef, BlockSlot, UseSlot};
use crate::cells::{clear_of_limits, min_of, IVec3};
use crate::npc::goals::{
    errands_let_go, held_station, interruptible, plans_let_go, preempt_eligible,
    preempt_release_holds, things_let_go, ArrivalAction, Goal, GoalView,
};
use crate::npc::holds::booking_released;
use crate::npc::nearby::{anchor_of, facing_of, resolve_anchor_with_orientation, EntryKind};
use crate::npc::needs::{any_pressing, eased, level_of, NeedLevel, Needs};
use crate::npc::places::{
    eject_candidates_for_slot, eject_cells, first_footing, first_standable, pose_to_standable_foot,
    remaining_path_valid, rest_open, search_answer, standing_foot, use_fits, ASTAR_NODE_BUDGET,
    ASTAR_PATH_BUDGET,
};
use crate::npc::village::{
    copy_path, idle_now, path_sound, work_remains, Effect, Village, VillageView, Villager,
    VillagerView,
};
use crate::npc::walk::WorldWalk;
use crate::npc_registry::NeedRegistry;
use crate::ord_map::CellMap;
use crate::pathfinding::{find_path, path_view, smooth_path, smoothed, Walkability};
use vstd::prelude::*;

verus! {

/// How long a villager is not interrupted again.
pub const PREEMPT_RETRY_COOLDOWN_MS: u32 = 5000;

// ---------- the body ----------

/// Where the body is: the cell under its middle, and the corner cells of what
/// it covers on that level.
#[derive(Clone, Copy, Debug, PartialEq, Eq, Structural)]
pub struct Body {
    pub nominal: IVec3,
    pub lo: IVec3,
    pub hi: IVec3,
}

/// The cell that paths start from.
pub open spec fn body_foot<W: Walkability>(world: &W, body: Body) -> IVec3 {
    match standing_foot(world, body.nominal, body.lo, body.hi) {
        Some(c) => c,
        None => body.nominal,
    }
}

impl Body {
    pub fn foot<W: Walkability>(self, world: &W) -> (r: IVec3)
        ensures
            r == body_foot(world, self),
    {
        match pose_to_standable_foot(world, self.nominal, self.lo, self.hi) {
            Some(c) => c,
            None => self.nominal,
        }
    }
}

// ---------- blocks ----------

/// The kind of block at a cell, if there is one and it is loaded.
pub open spec fn block_here(walk: &WorldWalk, cell: IVec3) -> Option<BlockDef> {
    if walk.known(cell) && walk.world().slot(cell) != BlockSlot(0) {
        Some(walk.reg().spec_def(walk.world().slot(cell)))
    } else {
        None
    }
}

pub open spec fn usable_here(walk: &WorldWalk, cell: IVec3) -> bool {
    block_here(walk, cell) matches Some(d) && d.interactable is Some
}

pub open spec fn station_here(walk: &WorldWalk, cell: IVec3) -> bool {
    block_here(walk, cell) matches Some(d) && d.station_tag is Some
}

pub open spec fn use_slot_here(walk: &WorldWalk, cell: IVec3) -> Option<UseSlot> {
    match block_here(walk, cell) {
        Some(d) => d.use_slot,
        None => None,
    }
}

/// The kind of block at a cell, if there is one and it is loaded.
pub fn block_at<'a>(walk: &'a WorldWalk<'a>, cell: IVec3) -> (r: Option<&'a BlockDef>)
    ensures
        match block_here(walk, cell) {
            Some(d) => r == Some(&d),
            None => r is None,
        },
{
    match walk.slot_at(cell) {
        Some(s) => if s.0 != 0 {
            Some(walk.def_of(s))
        } else {
            None
        },
        None => None,
    }
}

// ---------- leaving a block ----------

/// What happens to the body when it leaves the block at a cell.
pub open spec fn leave_effect(walk: &WorldWalk, entries: Map<IVec3, EntryKind>, cell: IVec3) -> Effect {
    let anchor = anchor_of(entries, cell);
    match first_footing(
        walk,
        eject_cells(use_slot_here(walk, cell), anchor, facing_of(entries, cell)),
        0,
    ) {
        Some(c) => Effect::StandAt(c),
        None => Effect::Embedded(anchor),
    }
}

/// The cells around the block at a cell exist.
pub open spec fn can_leave(walk: &WorldWalk, entries: Map<IVec3, EntryKind>, cell: IVec3) -> bool {
    let anchor = anchor_of(entries, cell);
    clear_of_limits(anchor, 2) && use_fits(
        use_slot_here(walk, cell),
        anchor,
        facing_of(entries, cell),
    )
}

/// Takes the body out of the block at a cell.
pub fn leave_block(walk: &WorldWalk, entries: &CellMap<EntryKind>, cell: IVec3) -> (r: Effect)
    requires
        can_leave(walk, entries@, cell),
    ensures
        r == leave_effect(walk, entries@, cell),
{
    let (anchor, facing) = resolve_anchor_with_orientation(entries, cell);
    let none: Option<UseSlot> = None;
    let slot: &Option<UseSlot> = match block_at(walk, cell) {
        Some(d) => &d.use_slot,
        None => &none,
    };
    let cells: Vec<IVec3> = eject_candidates_for_slot(slot, anchor, facing);
    match first_standable(walk, &cells) {
        Some(c) => Effect::StandAt(c),
        None => Effect::Embedded(anchor),
    }
}

// ---------- interrupting ----------

/// The village once the villager's goal is given up.
pub open spec fn goal_let_go(village: VillageView, v: VillagerView) -> VillageView {
    VillageView {
        plan_claims: plans_let_go(village.plan_claims, v.goal, v.id),
        things: things_let_go(village.things, v.goal, v.id),
        haul: errands_let_go(village.haul, v.goal, v.id),
        ..village
    }
}

/// The body is held by what the villager uses.
pub open spec fn held_in_use(v: VillagerView) -> bool {
    v.locked && v.goal is Interacting
}

/// The villager once its goal is given up.
pub open spec fn without_goal(v: VillagerView) -> VillagerView {
    if v.goal is Idle {
        v
    } else {
        VillagerView { locked: v.locked && !held_in_use(v), ..idle_now(v) }
    }
}

/// The cell of what the villager uses.
pub open spec fn used_cell(v: VillagerView) -> IVec3 {
    match v.goal {
        GoalView::Interacting { target_cell, .. } => target_cell,
        _ => IVec3 { x: 0, y: 0, z: 0 },
    }
}

/// Gives up the goal.
pub fn preempt_current_goal(
    v: &mut Villager,
    village: &mut Village,
    walk: &WorldWalk,
    entries: &CellMap<EntryKind>,
) -> (r: Option<Effect>)
    requires
        held_in_use(old(v)@) ==> can_leave(walk, entries@, used_cell(old(v)@)),
    ensures
        final(v)@ == without_goal(old(v)@),
        final(village)@ == goal_let_go(old(village)@, old(v)@),
        r == if held_in_use(old(v)@) {
            Some(leave_effect(walk, entries@, used_cell(old(v)@)))
        } else {
            None
        },
{
    if let Goal::Idle = &v.goal {
        return None;
    }
    preempt_release_holds(
        v.id,
        &v.goal,
        &mut village.plan_claims,
        &mut village.things,
        &mut village.haul,
    );
    let mut effect: Option<Effect> = None;
    let mut free: bool = false;
    if v.locked {
        if let Goal::Interacting { target_cell, .. } = &v.goal {
            effect = Some(leave_block(walk, entries, *target_cell));
            free = true;
        }
    }
    if free {
        v.locked = false;
    }
    v.go_idle();
    effect
}

pub open spec fn time_left(ms: u32, dt: u32) -> u32 {
    if ms > dt {
        (ms - dt) as u32
    } else {
        0
    }
}

fn less(ms: u32, dt: u32) -> (r: u32)
    ensures
        r == time_left(ms, dt),
{
    if ms > dt {
        ms - dt
    } else {
        0
    }
}

/// A pressing need interrupts the villager now.
pub open spec fn interrupted(v: VillagerView, reg: &NeedRegistry, dt: u32) -> bool {
    time_left(v.cooldown_ms, dt) == 0 && interruptible(v.goal) && any_pressing(v.needs, reg)
}

/// The villager and the village after pressing needs had their say.
pub open spec fn after_interrupt(
    v: VillagerView,
    village: VillageView,
    reg: &NeedRegistry,
    dt: u32,
) -> (VillagerView, VillageView) {
    if interrupted(v, reg, dt) {
        let let_go = goal_let_go(village, v);
        (
            VillagerView { cooldown_ms: PREEMPT_RETRY_COOLDOWN_MS, ..without_goal(v) },
            VillageView {
                bookings: if held_station(v.goal) is Some {
                    booking_released(village.bookings, v.id, v.entity)
                } else {
                    village.bookings
                },
                ..let_go
            },
        )
    } else {
        (VillagerView { cooldown_ms: time_left(v.cooldown_ms, dt), ..v }, village)
    }
}

/// Lets a pressing need interrupt the villager: `true` when it does.
pub fn preempt_check(
    v: &mut Villager,
    village: &mut Village,
    walk: &WorldWalk,
    entries: &CellMap<EntryKind>,
    reg: &NeedRegistry,
    dt: u32,
) -> (r: bool)
    ensures
        r == interrupted(old(v)@, reg, dt),
        (final(v)@, final(village)@) == after_interrupt(old(v)@, old(village)@, reg, dt),
{
    v.cooldown_ms = less(v.cooldown_ms, dt);
    if v.cooldown_ms > 0 || !preempt_eligible(&v.goal) || !v.needs.pressing(reg) {
        return false;
    }
    let at_station: bool = match &v.goal {
        Goal::CraftingAtStation { .. } => true,
        Goal::MoveTo { on_arrive, .. } => match on_arrive {
            ArrivalAction::WorkStation { .. } => true,
            _ => false,
        },
        _ => false,
    };
    let _ = preempt_current_goal(v, village, walk, entries);
    if at_station {
        village.bookings.release_npc_booking(v.id, v.entity);
    }
    v.cooldown_ms = PREEMPT_RETRY_COOLDOWN_MS;
    true
}

/// An interrupted villager holds neither plan nor thing nor errand of its goal,
/// and has no goal.
pub proof fn law_interrupts_free_the_villager(
    v: VillagerView,
    village: VillageView,
    reg: &NeedRegistry,
    dt: u32,
)
    requires
        interrupted(v, reg, dt),
    ensures
        after_interrupt(v, village, reg, dt).0.goal is Idle,
        after_interrupt(v, village, reg, dt).0.needs == v.needs,
        after_interrupt(v, village, reg, dt).0.carrying == v.carrying,
        crate::npc::goals::held_plan(v.goal) matches Some(c) ==> (crate::plan_claims::open_to(
            village.plan_claims,
            c,
            v.id,
        ) ==> !after_interrupt(v, village, reg, dt).1.plan_claims.contains_key(c)),
        crate::npc::goals::on_errand(v.goal) ==> !after_interrupt(
            v,
            village,
            reg,
            dt,
        ).1.haul.assignments.contains_key(v.id.0),
        held_station(v.goal) is Some ==> !after_interrupt(
            v,
            village,
            reg,
            dt,
        ).1.bookings.stations.contains_key(v.id.0),
{
}

// ---------- making progress ----------

/// How the current goal stands.
#[derive(Clone, Copy, Debug, PartialEq, Eq, Structural)]
pub enum Progress {
    Underway,
    Arrived,
    Abandoned,
    Rested,
    Interacted,
    Worked,
    CraftEnded,
}

/// How much sleep eases a need in some time.
pub open spec fn sleep_eases(restores: u32, over_ms: u32, dt: u32) -> int {
    if over_ms == 0 {
        restores as int
    } else {
        restores * dt / (over_ms as int)
    }
}

/// `r` is a new way to the end of a path, or `None` where there is none.
pub open spec fn repath_answer<W: Walkability>(
    world: &W,
    foot: IVec3,
    goal: IVec3,
    r: Option<Seq<IVec3>>,
) -> bool {
    exists|raw: Option<Seq<IVec3>>|
        #[trigger] search_answer(world, foot, goal, raw) && r == smooth_all(world, raw)
}

pub open spec fn smooth_all<W: Walkability>(world: &W, raw: Option<Seq<IVec3>>) -> Option<Seq<IVec3>> {
    match raw {
        Some(p) => Some(smoothed(world, p)),
        None => None,
    }
}

/// Finds a new way to the end of a path.
pub fn replan<W: Walkability>(world: &W, foot: IVec3, goal: IVec3) -> (r: Option<Vec<IVec3>>)
    ensures
        repath_answer(world, foot, goal, path_view(r)),
        r matches Some(p) ==> p@.len() >= 1,
{
    match find_path(foot, goal, world, ASTAR_NODE_BUDGET, ASTAR_PATH_BUDGET) {
        None => {
            assert(search_answer(world, foot, goal, None));
            assert(smooth_all::<W>(world, None) is None);
            None
        },
        Some(raw) => {
            let ghost found = raw@;
            assert(search_answer(world, foot, goal, Some(found)));
            let path: Vec<IVec3> = smooth_path(raw, world);
            assert(smooth_all(world, Some(found)) == Some(path@));
            Some(path)
        },
    }
}

/// The path no longer holds.
pub open spec fn path_fails<W: Walkability>(world: &W, goal: GoalView, dirty: bool) -> bool {
    match goal {
        GoalView::MoveTo { path, edge, blocked, .. } => blocked || (dirty && !rest_open(
            world,
            path,
            edge as int,
        )),
        _ => false,
    }
}

/// The end of the villager's path.
pub open spec fn path_end(goal: GoalView) -> IVec3 {
    match goal {
        GoalView::MoveTo { path, .. } => path.last(),
        _ => IVec3 { x: 0, y: 0, z: 0 },
    }
}

/// The villager a tick further on its way. A path that failed is replaced by a
/// new way, or the walk is given up.
pub open spec fn walked_on(
    v: VillagerView,
    dt: u32,
    fails: bool,
    repath: Option<Seq<IVec3>>,
) -> (VillagerView, Progress) {
    match v.goal {
        GoalView::MoveTo { path, edge, blocked, deadline_ms, on_arrive, snap } => {
            let left = time_left(deadline_ms, dt);
            if fails && repath is None {
                (
                    VillagerView {
                        goal: GoalView::MoveTo {
                            path,
                            edge,
                            blocked: true,
                            deadline_ms: left,
                            on_arrive,
                            snap,
                        },
                        ..v
                    },
                    Progress::Abandoned,
                )
            } else {
                let now_path = if fails {
                    repath->0
                } else {
                    path
                };
                let now_edge = if fails {
                    0usize
                } else {
                    edge
                };
                (
                    VillagerView {
                        goal: GoalView::MoveTo {
                            path: now_path,
                            edge: now_edge,
                            blocked: false,
                            deadline_ms: left,
                            on_arrive,
                            snap,
                        },
                        path: if fails {
                            now_path
                        } else {
                            v.path
                        },
                        ..v
                    },
                    if now_edge + 1 >= now_path.len() {
                        Progress::Arrived
                    } else if left == 0 {
                        Progress::Abandoned
                    } else {
                        Progress::Underway
                    },
                )
            }
        },
        _ => (v, Progress::Underway),
    }
}

/// The villager and its goal a tick further.
pub open spec fn advanced(
    v: VillagerView,
    village: VillageView,
    dt: u32,
    fails: bool,
    repath: Option<Seq<IVec3>>,
) -> (VillagerView, Progress) {
    match v.goal {
        GoalView::Idle => (v, Progress::Underway),
        GoalView::Resting { remaining_ms } => (
            VillagerView {
                goal: GoalView::Resting { remaining_ms: time_left(remaining_ms, dt) },
                ..v
            },
            if remaining_ms <= dt {
                Progress::Rested
            } else {
                Progress::Underway
            },
        ),
        GoalView::SleepingGround { remaining_ms, need, restores, over_ms, animation } => {
            let needs = eased(v.needs, need@, sleep_eases(restores, over_ms, dt));
            let rested = crate::registry::position_of(v.needs, need@, 0) is Some && level_of(
                needs,
                need@,
            ) == 0;
            (
                VillagerView {
                    goal: GoalView::SleepingGround {
                        remaining_ms: time_left(remaining_ms, dt),
                        need,
                        restores,
                        over_ms,
                        animation,
                    },
                    needs,
                    ..v
                },
                if remaining_ms <= dt || rested {
                    Progress::Rested
                } else {
                    Progress::Underway
                },
            )
        },
        GoalView::Interacting {
            remaining_ms,
            need_restore,
            target_cell,
            anchor_cell,
            exclusive,
            animation,
        } => (
            VillagerView {
                goal: GoalView::Interacting {
                    remaining_ms: time_left(remaining_ms, dt),
                    need_restore,
                    target_cell,
                    anchor_cell,
                    exclusive,
                    animation,
                },
                ..v
            },
            if remaining_ms <= dt {
                Progress::Interacted
            } else {
                Progress::Underway
            },
        ),
        GoalView::Working { remaining_ms, target_cell, plan_kind, need_restore } => (
            VillagerView {
                goal: GoalView::Working {
                    remaining_ms: time_left(remaining_ms, dt),
                    target_cell,
                    plan_kind,
                    need_restore,
                },
                ..v
            },
            if remaining_ms <= dt {
                Progress::Worked
            } else {
                Progress::Underway
            },
        ),
        GoalView::CraftingAtStation { station_cell } => (
            v,
            if crafts_on(v, village, station_cell) {
                Progress::Underway
            } else {
                Progress::CraftEnded
            },
        ),
        GoalView::MoveTo { .. } => walked_on(v, dt, fails, repath),
    }
}

/// The villager is booked for the station and registered there, and there is
/// work left to do.
pub open spec fn crafts_on(v: VillagerView, village: VillageView, cell: IVec3) -> bool {
    &&& village.bookings.workers.contains_key(cell) && village.bookings.workers[cell] == v.entity
    &&& village.bookings.stations.contains_key(v.id.0) && village.bookings.stations[v.id.0] == cell
    &&& work_remains(village.stations, cell)
}

/// The villager advanced by some new way, where it needed one.
pub open spec fn advanced_by<W: Walkability>(
    world: &W,
    body: Body,
    dt: u32,
    dirty: bool,
    before: (VillagerView, VillageView),
    after: (VillagerView, Progress),
    repath: Option<Seq<IVec3>>,
) -> bool {
    let fails = path_fails(world, before.0.goal, dirty);
    &&& fails ==> repath_answer(world, body_foot(world, body), path_end(before.0.goal), repath)
    &&& after == advanced(before.0, before.1, dt, fails, repath)
}

pub open spec fn advances<W: Walkability>(
    world: &W,
    body: Body,
    dt: u32,
    dirty: bool,
    before: (VillagerView, VillageView),
    after: (VillagerView, Progress),
) -> bool {
    exists|repath: Option<Seq<IVec3>>| #[trigger]
        advanced_by(world, body, dt, dirty, before, after, repath)
}

fn sleep_share(restores: u32, over_ms: u32, dt: u32) -> (r: u32)
    ensures
        r == min_of(sleep_eases(restores, over_ms, dt), u32::MAX as int),
{
    if over_ms == 0 {
        return restores;
    }
    assert(0 <= restores * dt <= 0xffff_ffff * 0xffff_ffff) by (nonlinear_arith)
        requires
            0 <= restores <= 0xffff_ffff,
            0 <= dt <= 0xffff_ffff,
    ;
    let share: u64 = restores as u64 * dt as u64 / over_ms as u64;
    if share <= u32::MAX as u64 {
        share as u32
    } else {
        u32::MAX
    }
}

proof fn lemma_ease_saturates(levels: Seq<NeedLevel>, id: Seq<char>, amount: int)
    ensures
        eased(levels, id, min_of(amount, u32::MAX as int)) == eased(levels, id, amount),
{
    assert(eased(levels, id, min_of(amount, u32::MAX as int)) =~= eased(levels, id, amount));
}

fn sleep_on(needs: &mut Needs, need: &String, amount: u32) -> (rested: bool)
    ensures
        final(needs)@ == eased(old(needs)@, need@, amount as int),
        rested == (crate::registry::position_of(old(needs)@, need@, 0) is Some && level_of(
            final(needs)@,
            need@,
        ) == 0),
{
    let had: bool = crate::registry::find_named(&needs.levels, need).is_some();
    needs.ease(need, amount);
    had && needs.level(need) == 0
}

/// Lets the current goal progress by one tick.
pub fn advance_goal(
    v: &mut Villager,
    village: &Village,
    walk: &WorldWalk,
    body: Body,
    dt: u32,
    dirty: bool,
) -> (r: Progress)
    requires
        path_sound(old(v)@),
    ensures
        advances(walk, body, dt, dirty, (old(v)@, village@), (final(v)@, r)),
        path_sound(final(v)@),
{
    let mut goal: Goal = Goal::Idle;
    std::mem::swap(&mut goal, &mut v.goal);
    let ghost start = old(v)@;
    let ghost fails = path_fails(walk, start.goal, dirty);
    let mut outcome: Progress = Progress::Underway;
    let ghost mut found: Option<Seq<IVec3>> = None;
    match goal {
        Goal::Idle => {
            v.goal = Goal::Idle;
        },
        Goal::Resting { remaining_ms } => {
            v.goal = Goal::Resting { remaining_ms: less(remaining_ms, dt) };
            if remaining_ms <= dt {
                outcome = Progress::Rested;
            }
        },
        Goal::SleepingGround { remaining_ms, need, restores, over_ms, animation } => {
            let share: u32 = sleep_share(restores, over_ms, dt);
            proof {
                lemma_ease_saturates(v.needs@, need@, sleep_eases(restores, over_ms, dt));
            }
            let rested: bool = sleep_on(&mut v.needs, &need, share);
            if remaining_ms <= dt || rested {
                outcome = Progress::Rested;
            }
            v.goal = Goal::SleepingGround {
                remaining_ms: less(remaining_ms, dt),
                need,
                restores,
                over_ms,
                animation,
            };
        },
        Goal::Interacting {
            remaining_ms,
            need_restore,
            target_cell,
            anchor_cell,
            exclusive,
            animation,
        } => {
            v.goal = Goal::Interacting {
                remaining_ms: less(remaining_ms, dt),
                need_restore,
                target_cell,
                anchor_cell,
                exclusive,
                animation,
            };
            if remaining_ms <= dt {
                outcome = Progress::Interacted;
            }
        },
        Goal::Working { remaining_ms, target_cell, plan_kind, need_restore } => {
            v.goal = Goal::Working {
                remaining_ms: less(remaining_ms, dt),
                target_cell,
                plan_kind,
                need_restore,
            };
            if remaining_ms <= dt {
                outcome = Progress::Worked;
            }
        },
        Goal::CraftingAtStation { station_cell } => {
            v.goal = Goal::CraftingAtStation { station_cell };
            let mine: bool = match village.bookings.worker_at(station_cell) {
                Some(e) => e == v.entity,
                None => false,
            };
            let booked: bool = match village.bookings.station_of_npc(v.id) {
                Some(c) => c == station_cell,
                None => false,
            };
            if !mine || !booked || !village.stations.has_work(station_cell) {
                outcome = Progress::CraftEnded;
            }
        },
        Goal::MoveTo { path, edge, blocked, deadline_ms, on_arrive, snap } => {
            let left: u32 = less(deadline_ms, dt);
            let failed: bool = blocked || (dirty && !remaining_path_valid(&path, edge, walk));
            if failed {
                let foot: IVec3 = body.foot(walk);
                let end: IVec3 = path[path.len() - 1];
                let route: Option<Vec<IVec3>> = replan(walk, foot, end);
                proof {
                    found = path_view(route);
                }
                match route {
                    Some(fresh) => {
                        v.path = copy_path(&fresh);
                        if fresh.len() <= 1 {
                            outcome = Progress::Arrived;
                        } else if left == 0 {
                            outcome = Progress::Abandoned;
                        }
                        v.goal = Goal::MoveTo {
                            path: fresh,
                            edge: 0,
                            blocked: false,
                            deadline_ms: left,
                            on_arrive,
                            snap,
                        };
                    },
                    None => {
                        v.goal = Goal::MoveTo {
                            path,
                            edge,
                            blocked: true,
                            deadline_ms: left,
                            on_arrive,
                            snap,
                        };
                        outcome = Progress::Abandoned;
                    },
                }
            } else {
                if edge >= path.len() || path.len() - edge <= 1 {
                    outcome = Progress::Arrived;
                } else if left == 0 {
                    outcome = Progress::Abandoned;
                }
                v.goal = Goal::MoveTo {
                    path,
                    edge,
                    blocked: false,
                    deadline_ms: left,
                    on_arrive,
                    snap,
                };
            }
        },
    }
    assert(advanced_by(
        walk,
        body,
        dt,
        dirty,
        (start, village@),
        (v@, outcome),
        found,
    ));
    outcome
}

} // verus!
