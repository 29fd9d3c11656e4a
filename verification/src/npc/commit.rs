//! What an idle villager turns to: getting back on its feet, crafting, errands,
//! and what its planner chose.

use crate::blocks::{BlockDef, Interactable, NeedRestore, UseSlot, WorkAction};
use crate::cells::{clear_of_limits, IVec3};
use crate::items::ItemRegistry;
use crate::npc::errands::{
    approach_answer, approach_route, errand_in_bounds, UNREACHABLE_RETRY_MS,
};
use crate::npc::goals::{copy_restore, walk_goal, ArrivalAction, Goal, GoalView};
use crate::npc::holds::{booking_released, haul_avoiding, haul_released, HaulTarget, InteractionView};
use crate::npc::nearby::{
    anchor_of, facing_of, plan_action, plan_known, resolve_anchor_with_orientation,
    resolve_work_action, tool_multiplier, work_stretch, work_terms, EntryKind,
};
use crate::npc::needs::{boost_factor, FULL_NEED};
use crate::npc::places::{
    nearest_standable_neighbor, pick_wander_path, place_beside, plan_route, pose_to_standable_foot,
    rescue_cell, rescue_to_nearby_standable, resolve_use_slot_target, route_answer, standing_foot,
    use_fits, use_place, wander_answer, wander_fits,
};
use crate::npc::rng::{bits_of, next_bits, next_seed};
use crate::npc::tick::{block_at, block_here, Body};
use crate::npc::village::{
    copy_path, idle_now, parked, path_sound, Village, VillageView, Villager, VillagerView,
};
use crate::npc::walk::WorldWalk;
use crate::npc_registry::WorkDefaults;
use crate::ord_map::CellMap;
use crate::pathfinding::{can_stand, path_view};
use crate::plan_claims::{claimed, claims_without, open_to, released};
use crate::protocol::{PlanKind, PoseBits};
use crate::rooms::map::{in_matched_room, sound_state, spread_index, RoomMap, RoomState};
use crate::strings::copy_text;
use vstd::prelude::*;

verus! {

pub const MIN_REST_MS: u32 = 500;

pub const MAX_REST_MS: u32 = 60000;

pub const MAX_WANDER_RADIUS_CELLS: i32 = 64;

pub const MAX_WANDER_TIMEOUT_MS: u32 = 60000;

pub const MAX_GOTO_TIMEOUT_MS: u32 = 120000;

pub const MAX_INTERACT_TIMEOUT_MS: u32 = 120000;

pub const MAX_WORK_TIMEOUT_MS: u32 = 120000;

/// The least time that a walk is given.
pub const MIN_TIMEOUT_MS: u32 = 1000;

pub const MIN_INTERACT_DURATION_MS: u32 = 100;

pub const MAX_INTERACT_DURATION_MS: u32 = 120000;

pub const FALLBACK_WANDER_RADIUS_CELLS: i32 = 12;

pub const FALLBACK_WANDER_TIMEOUT_MS: u32 = 12000;

/// How far a villager without footing looks for some.
pub const RESCUE_RADIUS_CELLS: i32 = 2;

/// How long a villager may walk to a station.
pub const STATION_WALK_TIMEOUT_MS: u32 = 60000;

/// What a planner tells a villager to do.
#[allow(inconsistent_fields)]
pub enum PlannerGoal {
    Idle,
    Rest { duration_ms: u32 },
    /// Sleeps where it stands; `restores` is in billionths.
    SleepGround { duration_ms: u32, restores: u32, need: String, animation: Option<String> },
    Wander { radius_cells: i32, timeout_ms: u32 },
    Goto { cell: IVec3, timeout_ms: u32 },
    Interact { cell: IVec3, timeout_ms: u32 },
    WorkPlan { cell: IVec3, timeout_ms: u32 },
}

/// What a villager without a planner does.
pub fn native_fallback_goal() -> (r: PlannerGoal)
    ensures
        r == (PlannerGoal::Wander { radius_cells: 12, timeout_ms: 12000 }),
{
    PlannerGoal::Wander {
        radius_cells: FALLBACK_WANDER_RADIUS_CELLS,
        timeout_ms: FALLBACK_WANDER_TIMEOUT_MS,
    }
}

/// The time, but no less than `lo` and no more than `hi`.
pub open spec fn kept_within(ms: u32, lo: u32, hi: u32) -> u32 {
    if ms < lo {
        lo
    } else if ms > hi {
        hi
    } else {
        ms
    }
}

fn keep_within(ms: u32, lo: u32, hi: u32) -> (r: u32)
    ensures
        r == kept_within(ms, lo, hi),
{
    if ms < lo {
        lo
    } else if ms > hi {
        hi
    } else {
        ms
    }
}

/// A radius to wander in.
pub open spec fn wander_radius(cells: i32) -> i32 {
    if cells < 1 {
        1
    } else if cells > MAX_WANDER_RADIUS_CELLS {
        MAX_WANDER_RADIUS_CELLS
    } else {
        cells
    }
}

/// The villager waiting a moment, with its path still shown.
pub open spec fn waiting(v: VillagerView) -> VillagerView {
    VillagerView { goal: GoalView::Resting { remaining_ms: MIN_REST_MS }, ..v }
}

/// The villager setting out on a path.
pub open spec fn setting_out(
    v: VillagerView,
    path: Seq<IVec3>,
    timeout_ms: u32,
    on_arrive: ArrivalAction,
    snap: Option<PoseBits>,
) -> VillagerView {
    VillagerView { goal: walk_goal(path, timeout_ms, on_arrive, snap), path, ..v }
}

impl Villager {
    fn wait(&mut self)
        ensures
            final(self)@ == waiting(old(self)@),
    {
        self.goal = Goal::Resting { remaining_ms: MIN_REST_MS };
    }

    fn set_out(
        &mut self,
        path: Vec<IVec3>,
        timeout_ms: u32,
        on_arrive: ArrivalAction,
        snap: Option<PoseBits>,
    )
        ensures
            final(self)@ == setting_out(old(self)@, path@, timeout_ms, on_arrive, snap),
    {
        self.path = copy_path(&path);
        self.goal = Goal::move_to(path, timeout_ms, on_arrive, snap);
    }
}

// ---------- footing ----------

/// How an idle villager stands.
#[derive(Clone, Copy, Debug, PartialEq, Eq, Structural)]
pub enum Footing {
    Sound,
    /// It has to be put here.
    Rescued(IVec3),
    /// There is no footing near.
    Stuck,
}

/// How a body stands. One that was held when the tick began, by what the
/// villager uses or has just finished using, stands well.
pub open spec fn footing_of(walk: &WorldWalk, was_locked: bool, body: Body) -> Footing {
    if was_locked || standing_foot(walk, body.nominal, body.lo, body.hi) is Some {
        Footing::Sound
    } else {
        match rescue_cell(walk, body.nominal, 1, RESCUE_RADIUS_CELLS as int) {
            Some(c) => Footing::Rescued(c),
            None => Footing::Stuck,
        }
    }
}

/// Finds footing for the villager, which waits a moment where there is none.
pub fn find_footing(v: &mut Villager, walk: &WorldWalk, was_locked: bool, body: Body) -> (r:
    Footing)
    requires
        clear_of_limits(body.nominal, RESCUE_RADIUS_CELLS as int),
    ensures
        r == footing_of(walk, was_locked, body),
        r matches Footing::Rescued(c) ==> can_stand(walk, c),
        final(v)@ == if r is Stuck {
            parked(old(v)@, MIN_REST_MS)
        } else {
            old(v)@
        },
{
    if was_locked || pose_to_standable_foot(walk, body.nominal, body.lo, body.hi).is_some() {
        return Footing::Sound;
    }
    match rescue_to_nearby_standable(walk, body.nominal, RESCUE_RADIUS_CELLS) {
        Some(c) => Footing::Rescued(c),
        None => {
            v.park(MIN_REST_MS);
            Footing::Stuck
        },
    }
}

// ---------- what may be taken on ----------

/// An idle villager may be given work at a station: it was not interrupted just
/// now, and has neither a station nor an errand.
pub open spec fn craft_allowed(id: u64, village: VillageView, interrupted: bool) -> bool {
    !interrupted && !village.bookings.stations.contains_key(id)
        && !village.haul.assignments.contains_key(id)
}

/// An idle villager may be given an errand: it was not interrupted just now,
/// and has none.
pub open spec fn errand_allowed(id: u64, village: VillageView, interrupted: bool) -> bool {
    !interrupted && !village.haul.assignments.contains_key(id)
}

/// May the villager be given work at a station?
pub fn may_take_craft(v: &Villager, village: &Village, interrupted: bool) -> (r: bool)
    ensures
        r == craft_allowed(v.id.0, village@, interrupted),
{
    !interrupted && !village.bookings.contains_npc(v.id) && !village.haul.has_assignment(v.id)
}

/// May the villager be given an errand?
pub fn may_take_errand(v: &Villager, village: &Village, interrupted: bool) -> (r: bool)
    ensures
        r == errand_allowed(v.id.0, village@, interrupted),
{
    !interrupted && !village.haul.has_assignment(v.id)
}

/// What has been tried so far for an idle villager.
#[derive(Clone, Copy, Debug, PartialEq, Eq, Structural)]
pub enum IdleStage {
    Nothing,
    /// No station has work for it.
    CraftAsked,
    /// It has been offered an errand, and may have taken it.
    ErrandAsked,
    /// Its errand came to an end.
    ErrandEnded,
}

/// What to try next.
#[derive(Clone, Copy, Debug, PartialEq, Eq, Structural)]
pub enum IdleStep {
    AskForCraft,
    AskForErrand,
    GoOnErrand,
    AskPlanner,
}

/// Work at a station comes first, then a new errand, then the next leg of the
/// errand in hand, and what nobody has work for the planner decides.
pub open spec fn idle_step(id: u64, village: VillageView, interrupted: bool, asked: IdleStage)
    -> IdleStep {
    if asked is Nothing && craft_allowed(id, village, interrupted) {
        IdleStep::AskForCraft
    } else if (asked is Nothing || asked is CraftAsked) && errand_allowed(
        id,
        village,
        interrupted,
    ) {
        IdleStep::AskForErrand
    } else if !(asked is ErrandEnded) && village.haul.assignments.contains_key(id) {
        IdleStep::GoOnErrand
    } else {
        IdleStep::AskPlanner
    }
}

/// Decides what to try next for an idle villager.
pub fn next_thought(v: &Villager, village: &Village, interrupted: bool, asked: IdleStage) -> (r:
    IdleStep)
    ensures
        r == idle_step(v.id.0, village@, interrupted, asked),
{
    if asked == IdleStage::Nothing && may_take_craft(v, village, interrupted) {
        return IdleStep::AskForCraft;
    }
    if (asked == IdleStage::Nothing || asked == IdleStage::CraftAsked) && may_take_errand(
        v,
        village,
        interrupted,
    ) {
        return IdleStep::AskForErrand;
    }
    if asked != IdleStage::ErrandEnded && village.haul.has_assignment(v.id) {
        return IdleStep::GoOnErrand;
    }
    IdleStep::AskPlanner
}

/// A villager that was interrupted for a need gets no new work in that tick,
/// and one with an errand in hand goes on with it before the planner is asked.
pub proof fn law_needs_and_errands_come_first(
    id: u64,
    village: VillageView,
    interrupted: bool,
    asked: IdleStage,
)
    ensures
        interrupted ==> !(idle_step(id, village, interrupted, asked) is AskForCraft) && !(
        idle_step(id, village, interrupted, asked) is AskForErrand),
        village.haul.assignments.contains_key(id) && !(asked is ErrandEnded) ==> idle_step(
            id,
            village,
            interrupted,
            asked,
        ) is GoOnErrand,
{
}

// ---------- crafting ----------

/// What becomes of a villager that is booked at a station, given the way there.
pub open spec fn craft_result(
    v: VillagerView,
    village: VillageView,
    foot: IVec3,
    station: IVec3,
    route: Option<Seq<IVec3>>,
) -> (VillagerView, VillageView) {
    let action = ArrivalAction::WorkStation { station_cell: station };
    match route {
        Some(path) => if path.len() >= 2 {
            (setting_out(v, path, STATION_WALK_TIMEOUT_MS, action, None), village)
        } else {
            (
                VillagerView {
                    goal: walk_goal(seq![foot], MIN_TIMEOUT_MS, action, None),
                    path: Seq::empty(),
                    ..v
                },
                village,
            )
        },
        None => (
            waiting(v),
            VillageView {
                bookings: booking_released(village.bookings, v.id, v.entity),
                ..village
            },
        ),
    }
}

pub open spec fn craft_by(
    walk: &WorldWalk,
    foot: IVec3,
    station: IVec3,
    before: (VillagerView, VillageView),
    after: (VillagerView, VillageView),
    route: Option<Seq<IVec3>>,
) -> bool {
    approach_answer(walk, foot, station, route) && after == craft_result(
        before.0,
        before.1,
        foot,
        station,
        route,
    )
}

/// The villager set out for its station by some way, or gave it up.
pub open spec fn goes_crafting(
    walk: &WorldWalk,
    foot: IVec3,
    station: IVec3,
    before: (VillagerView, VillageView),
    after: (VillagerView, VillageView),
) -> bool {
    exists|route: Option<Seq<IVec3>>| #[trigger]
        craft_by(walk, foot, station, before, after, route)
}

/// Sends a villager to the station that it is booked at.
pub fn commit_craft(
    v: &mut Villager,
    village: &mut Village,
    walk: &WorldWalk,
    foot: IVec3,
    station: IVec3,
)
    requires
        clear_of_limits(station, 3),
    ensures
        goes_crafting(
            walk,
            foot,
            station,
            (old(v)@, old(village)@),
            (final(v)@, final(village)@),
        ),
        path_sound(final(v)@),
        final(village)@.haul == old(village)@.haul,
{
    let route: Option<Vec<IVec3>> = approach_route(walk, foot, station);
    let ghost answer = path_view(route);
    let action: ArrivalAction = ArrivalAction::WorkStation { station_cell: station };
    match route {
        Some(path) => {
            if path.len() >= 2 {
                v.set_out(path, STATION_WALK_TIMEOUT_MS, action, None);
            } else {
                let mut here: Vec<IVec3> = Vec::new();
                here.push(foot);
                assert(here@ =~= seq![foot]);
                v.path = Vec::new();
                assert(v.path@ =~= Seq::<IVec3>::empty());
                v.goal = Goal::move_to(here, MIN_TIMEOUT_MS, action, None);
            }
        },
        None => {
            village.bookings.release_npc_booking(v.id, v.entity);
            v.wait();
        },
    }
    assert(craft_by(
        walk,
        foot,
        station,
        (old(v)@, old(village)@),
        (v@, village@),
        answer,
    ));
}

// ---------- wandering ----------

/// The box that the villager keeps to, if its home still stands.
pub open spec fn home_box(v: VillagerView, settlement: Option<(IVec3, IVec3)>) -> Option<
    (IVec3, IVec3),
> {
    if v.home is Some {
        settlement
    } else {
        None
    }
}

/// The villager once a lost home is forgotten.
pub open spec fn at_home(v: VillagerView, settlement: Option<(IVec3, IVec3)>) -> VillagerView {
    VillagerView {
        home: if settlement is None {
            None
        } else {
            v.home
        },
        ..v
    }
}

/// What becomes of a wanderer, given the path that it found.
pub open spec fn wander_result(
    v: VillagerView,
    settlement: Option<(IVec3, IVec3)>,
    timeout_ms: u32,
    seed: u64,
    path: Option<Seq<IVec3>>,
) -> VillagerView {
    let w = VillagerView { seed, ..at_home(v, settlement) };
    match path {
        Some(p) => setting_out(
            w,
            p,
            kept_within(timeout_ms, MIN_TIMEOUT_MS, MAX_WANDER_TIMEOUT_MS),
            ArrivalAction::Nothing,
            None,
        ),
        None => parked(w, MIN_REST_MS),
    }
}

pub open spec fn wander_by(
    walk: &WorldWalk,
    foot: IVec3,
    radius: i32,
    settlement: Option<(IVec3, IVec3)>,
    timeout_ms: u32,
    before: VillagerView,
    after: VillagerView,
    path: Option<Seq<IVec3>>,
) -> bool {
    wander_answer(
        walk,
        foot,
        wander_radius(radius) as int,
        home_box(before, settlement),
        before.seed,
        after.seed,
        path,
    ) && after == wander_result(before, settlement, timeout_ms, after.seed, path)
}

/// The villager wanders off, or found no way and waits.
pub open spec fn goes_wandering(
    walk: &WorldWalk,
    foot: IVec3,
    radius: i32,
    settlement: Option<(IVec3, IVec3)>,
    timeout_ms: u32,
    before: VillagerView,
    after: VillagerView,
) -> bool {
    exists|path: Option<Seq<IVec3>>| #[trigger]
        wander_by(walk, foot, radius, settlement, timeout_ms, before, after, path)
}

/// Lets the villager wander. `settlement` is the box around its home, if that
/// still stands.
pub fn commit_wander(
    v: &mut Villager,
    walk: &WorldWalk,
    foot: IVec3,
    radius: i32,
    settlement: Option<(IVec3, IVec3)>,
    timeout_ms: u32,
)
    requires
        wander_fits(foot, wander_radius(radius) as int, home_box(old(v)@, settlement)),
    ensures
        goes_wandering(walk, foot, radius, settlement, timeout_ms, old(v)@, final(v)@),
        path_sound(final(v)@),
{
    let cells: i32 = if radius < 1 {
        1
    } else if radius > MAX_WANDER_RADIUS_CELLS {
        MAX_WANDER_RADIUS_CELLS
    } else {
        radius
    };
    let home: Option<(IVec3, IVec3)> = if v.home.is_some() {
        settlement
    } else {
        None
    };
    if settlement.is_none() {
        v.home = None;
    }
    let mut seed: u64 = v.seed;
    let found: Option<Vec<IVec3>> = pick_wander_path(foot, cells, home, &mut seed, walk);
    v.seed = seed;
    let ghost answer = path_view(found);
    match found {
        Some(path) => v.set_out(
            path,
            keep_within(timeout_ms, MIN_TIMEOUT_MS, MAX_WANDER_TIMEOUT_MS),
            ArrivalAction::Nothing,
            None,
        ),
        None => v.park(MIN_REST_MS),
    }
    assert(wander_by(
        walk,
        foot,
        radius,
        settlement,
        timeout_ms,
        old(v)@,
        v@,
        answer,
    ));
}

// ---------- going somewhere ----------

/// Where a villager goes that was sent to a cell: somewhere on the floor of the
/// matched room there, or to the cell itself.
pub open spec fn goto_target(rooms: RoomState, cell: IVec3, bits: u32) -> IVec3 {
    if in_matched_room(rooms, cell) {
        let floor = rooms.rooms[rooms.cells[cell]].floor_cells@;
        floor[spread_index(bits, floor.len() as int)]
    } else {
        cell
    }
}

/// What becomes of a villager that was sent to a cell, given the way there, and
/// whether that is all for this tick.
pub open spec fn goto_result(
    v: VillagerView,
    rooms: RoomState,
    foot: IVec3,
    cell: IVec3,
    timeout_ms: u32,
    route: Option<Seq<IVec3>>,
) -> (VillagerView, bool) {
    let drawn = VillagerView { seed: next_seed(v.seed), ..v };
    if goto_target(rooms, cell, bits_of(v.seed)) == foot {
        (idle_now(drawn), true)
    } else {
        match route {
            Some(path) => (
                setting_out(
                    drawn,
                    path,
                    kept_within(timeout_ms, MIN_TIMEOUT_MS, MAX_GOTO_TIMEOUT_MS),
                    ArrivalAction::Nothing,
                    None,
                ),
                false,
            ),
            None => (parked(drawn, MIN_REST_MS), false),
        }
    }
}

pub open spec fn goto_by(
    walk: &WorldWalk,
    rooms: RoomState,
    foot: IVec3,
    cell: IVec3,
    timeout_ms: u32,
    before: VillagerView,
    after: (VillagerView, bool),
    route: Option<Seq<IVec3>>,
) -> bool {
    let target = goto_target(rooms, cell, bits_of(before.seed));
    (target == foot || route_answer(walk, foot, target, route)) && after == goto_result(
        before,
        rooms,
        foot,
        cell,
        timeout_ms,
        route,
    )
}

/// The villager sets out by some way, or is there, or found no way.
pub open spec fn goes_to(
    walk: &WorldWalk,
    rooms: RoomState,
    foot: IVec3,
    cell: IVec3,
    timeout_ms: u32,
    before: VillagerView,
    after: (VillagerView, bool),
) -> bool {
    exists|route: Option<Seq<IVec3>>| #[trigger]
        goto_by(walk, rooms, foot, cell, timeout_ms, before, after, route)
}

/// Sends the villager to a cell: `true` when that is all for this tick.
pub fn commit_goto(
    v: &mut Villager,
    walk: &WorldWalk,
    rooms: &RoomMap,
    foot: IVec3,
    cell: IVec3,
    timeout_ms: u32,
) -> (r: bool)
    requires
        sound_state(rooms@),
    ensures
        goes_to(walk, rooms@, foot, cell, timeout_ms, old(v)@, (final(v)@, r)),
        path_sound(final(v)@),
{
    let mut seed: u64 = v.seed;
    let bits: u32 = next_bits(&mut seed);
    v.seed = seed;
    let target: IVec3 = match rooms.random_floor_cell_in_same_room(cell, bits) {
        Some(c) => c,
        None => cell,
    };
    assert(target == goto_target(rooms@, cell, bits_of(old(v)@.seed)));
    if target == foot {
        v.go_idle();
        assert(goto_by(walk, rooms@, foot, cell, timeout_ms, old(v)@, (v@, true), None));
        return true;
    }
    let route: Option<Vec<IVec3>> = plan_route(walk, foot, target);
    let ghost answer = path_view(route);
    match route {
        Some(path) => v.set_out(
            path,
            keep_within(timeout_ms, MIN_TIMEOUT_MS, MAX_GOTO_TIMEOUT_MS),
            ArrivalAction::Nothing,
            None,
        ),
        None => v.park(MIN_REST_MS),
    }
    assert(goto_by(walk, rooms@, foot, cell, timeout_ms, old(v)@, (v@, false), answer));
    false
}

// ---------- using something ----------

/// What a choice comes to: the villager, the village, the pose that the body
/// takes at once, and whether that is all for this tick.
pub struct Choice {
    pub v: VillagerView,
    pub village: VillageView,
    pub pose: Option<PoseBits>,
    pub ends: bool,
}

/// What is used stands at a cell of this block.
pub struct UseScene {
    pub slot: Option<UseSlot>,
    pub anchor: IVec3,
    pub target: IVec3,
    /// Where to stand to use it.
    pub place: Option<IVec3>,
}

/// The village with the thing taken by the villager.
pub open spec fn thing_taken(village: VillageView, exclusive: bool, anchor: IVec3, v: VillagerView)
    -> VillageView {
    if exclusive {
        VillageView {
            things: InteractionView {
                claims: claimed(village.things.claims, anchor, v.id),
                ..village.things
            },
            ..village
        }
    } else {
        village
    }
}

/// The village with the thing given back.
pub open spec fn thing_returned(village: VillageView, exclusive: bool, anchor: IVec3, v: VillagerView)
    -> VillageView {
    if exclusive {
        VillageView {
            things: InteractionView {
                claims: released(village.things.claims, anchor, v.id),
                ..village.things
            },
            ..village
        }
    } else {
        village
    }
}

/// The village in which the thing is left alone for a while.
pub open spec fn thing_avoided(village: VillageView, anchor: IVec3, until: u64) -> VillageView {
    VillageView {
        things: InteractionView {
            memos: village.things.memos.insert(anchor, until),
            ..village.things
        },
        ..village
    }
}

/// The pose that using a block calls for: the given one, where the block says
/// how it is used.
pub open spec fn pose_for(slot: Option<UseSlot>, pose: Option<PoseBits>) -> Option<PoseBits> {
    if slot is Some {
        pose
    } else {
        None
    }
}

pub open spec fn animation_of(slot: Option<UseSlot>) -> Option<String> {
    match slot {
        Some(s) => s.animation,
        None => None,
    }
}

pub open spec fn use_duration(t: Interactable) -> u32 {
    kept_within(t.duration_ms, MIN_INTERACT_DURATION_MS, MAX_INTERACT_DURATION_MS)
}

/// What becomes of a villager that is to use a thing, given the way there.
pub open spec fn use_result(
    v: VillagerView,
    village: VillageView,
    t: Interactable,
    scene: UseScene,
    foot: IVec3,
    timeout_ms: u32,
    pose: Option<PoseBits>,
    now: u64,
    route: Option<Seq<IVec3>>,
) -> Choice {
    let taken = thing_taken(village, t.exclusive, scene.anchor, v);
    let given_back = thing_returned(taken, t.exclusive, scene.anchor, v);
    if t.exclusive && !open_to(village.things.claims, scene.anchor, v.id) {
        Choice { v: waiting(v), village, pose: None, ends: true }
    } else if scene.place is None {
        Choice { v: waiting(v), village: given_back, pose: None, ends: true }
    } else if scene.place == Some(foot) {
        Choice {
            v: VillagerView {
                goal: GoalView::Interacting {
                    remaining_ms: use_duration(t),
                    need_restore: t.need_restore,
                    target_cell: scene.target,
                    anchor_cell: scene.anchor,
                    exclusive: t.exclusive,
                    animation: animation_of(scene.slot),
                },
                path: Seq::empty(),
                locked: v.locked || pose_for(scene.slot, pose) is Some,
                ..v
            },
            village: taken,
            pose: pose_for(scene.slot, pose),
            ends: true,
        }
    } else {
        match route {
            Some(path) => Choice {
                v: setting_out(
                    v,
                    path,
                    kept_within(timeout_ms, MIN_TIMEOUT_MS, MAX_INTERACT_TIMEOUT_MS),
                    ArrivalAction::Interact {
                        need_restore: t.need_restore,
                        duration_ms: use_duration(t),
                        target_cell: scene.target,
                        anchor_cell: scene.anchor,
                        exclusive: t.exclusive,
                        animation: animation_of(scene.slot),
                    },
                    pose_for(scene.slot, pose),
                ),
                village: taken,
                pose: None,
                ends: false,
            },
            None => Choice {
                v: parked(v, MIN_REST_MS),
                village: thing_avoided(
                    given_back,
                    scene.anchor,
                    (now + UNREACHABLE_RETRY_MS) as u64,
                ),
                pose: None,
                ends: false,
            },
        }
    }
}

/// How the thing at a cell is to be got at.
pub open spec fn use_scene(
    walk: &WorldWalk,
    entries: Map<IVec3, EntryKind>,
    d: BlockDef,
    cell: IVec3,
    foot: IVec3,
) -> UseScene {
    UseScene {
        slot: d.use_slot,
        anchor: anchor_of(entries, cell),
        target: cell,
        place: use_place(
            walk,
            d.use_slot,
            anchor_of(entries, cell),
            facing_of(entries, cell),
            cell,
            foot,
        ),
    }
}

pub open spec fn use_by(
    walk: &WorldWalk,
    entries: Map<IVec3, EntryKind>,
    foot: IVec3,
    cell: IVec3,
    timeout_ms: u32,
    pose: Option<PoseBits>,
    now: u64,
    before: (VillagerView, VillageView),
    after: Choice,
    route: Option<Seq<IVec3>>,
) -> bool {
    match block_here(walk, cell) {
        Some(d) => match d.interactable {
            Some(t) => {
                let scene = use_scene(walk, entries, d, cell, foot);
                &&& scene.place matches Some(stand) ==> stand == foot || route_answer(
                    walk,
                    foot,
                    stand,
                    route,
                )
                &&& after == use_result(
                    before.0,
                    before.1,
                    t,
                    scene,
                    foot,
                    timeout_ms,
                    pose,
                    now,
                    route,
                )
            },
            None => after == (Choice {
                v: waiting(before.0),
                village: before.1,
                pose: None,
                ends: true,
            }),
        },
        None => after == (Choice {
            v: waiting(before.0),
            village: before.1,
            pose: None,
            ends: true,
        }),
    }
}

/// The villager uses the thing at a cell, or sets out for it by some way, or
/// cannot.
pub open spec fn goes_using(
    walk: &WorldWalk,
    entries: Map<IVec3, EntryKind>,
    foot: IVec3,
    cell: IVec3,
    timeout_ms: u32,
    pose: Option<PoseBits>,
    now: u64,
    before: (VillagerView, VillageView),
    after: Choice,
) -> bool {
    exists|route: Option<Seq<IVec3>>| #[trigger]
        use_by(walk, entries, foot, cell, timeout_ms, pose, now, before, after, route)
}

/// The cells around the thing at a cell exist.
pub open spec fn use_in_bounds(walk: &WorldWalk, entries: Map<IVec3, EntryKind>, cell: IVec3) -> bool {
    match block_here(walk, cell) {
        Some(d) => d.interactable is Some ==> clear_of_limits(cell, 3) && use_fits(
            d.use_slot,
            anchor_of(entries, cell),
            facing_of(entries, cell),
        ),
        None => true,
    }
}

/// Lets the villager use the thing at a cell. `pose` is what using it calls
/// for. Returns the pose that the body takes at once, and `true` when that is
/// all for this tick.
pub fn commit_interact(
    v: &mut Villager,
    village: &mut Village,
    walk: &WorldWalk,
    entries: &CellMap<EntryKind>,
    foot: IVec3,
    cell: IVec3,
    timeout_ms: u32,
    pose: Option<PoseBits>,
    now: u64,
) -> (r: (Option<PoseBits>, bool))
    requires
        use_in_bounds(walk, entries@, cell),
        now <= u64::MAX - UNREACHABLE_RETRY_MS,
    ensures
        goes_using(
            walk,
            entries@,
            foot,
            cell,
            timeout_ms,
            pose,
            now,
            (old(v)@, old(village)@),
            (Choice { v: final(v)@, village: final(village)@, pose: r.0, ends: r.1 }),
        ),
        path_sound(final(v)@),
        final(village)@.haul.assignments == old(village)@.haul.assignments,
{
    let ghost before = (v@, village@);
    let none: Option<Interactable> = None;
    let no_slot: Option<UseSlot> = None;
    let (thing, slot): (&Option<Interactable>, &Option<UseSlot>) = match block_at(walk, cell) {
        Some(d) => (&d.interactable, &d.use_slot),
        None => (&none, &no_slot),
    };
    let t: &Interactable = match thing {
        Some(t) => t,
        None => {
            v.wait();
            assert(use_by(
                walk,
                entries@,
                foot,
                cell,
                timeout_ms,
                pose,
                now,
                before,
                (Choice { v: v@, village: village@, pose: None, ends: true }),
                None,
            ));
            return (None, true);
        },
    };
    let (anchor, facing) = resolve_anchor_with_orientation(entries, cell);
    let place: Option<IVec3> = resolve_use_slot_target(walk, slot, anchor, facing, cell, foot);
    let route: Option<Vec<IVec3>> = match place {
        Some(stand) => if stand != foot {
            plan_route(walk, foot, stand)
        } else {
            None
        },
        None => None,
    };
    let ghost answer = path_view(route);
    let ghost scene = UseScene { slot: *slot, anchor, target: cell, place };
    let r: (Option<PoseBits>, bool) = use_thing(
        v,
        village,
        t,
        slot,
        anchor,
        cell,
        place,
        foot,
        timeout_ms,
        pose,
        now,
        route,
    );
    assert(use_by(
        walk,
        entries@,
        foot,
        cell,
        timeout_ms,
        pose,
        now,
        before,
        (Choice { v: v@, village: village@, pose: r.0, ends: r.1 }),
        answer,
    ));
    r
}

/// Lets the villager use a thing, given where to stand for it and the way
/// there.
pub fn use_thing(
    v: &mut Villager,
    village: &mut Village,
    t: &Interactable,
    slot: &Option<UseSlot>,
    anchor: IVec3,
    target: IVec3,
    place: Option<IVec3>,
    foot: IVec3,
    timeout_ms: u32,
    pose: Option<PoseBits>,
    now: u64,
    route: Option<Vec<IVec3>>,
) -> (r: (Option<PoseBits>, bool))
    requires
        now <= u64::MAX - UNREACHABLE_RETRY_MS,
    ensures
        use_result(
            old(v)@,
            old(village)@,
            *t,
            (UseScene { slot: *slot, anchor, target, place }),
            foot,
            timeout_ms,
            pose,
            now,
            path_view(route),
        ) == (Choice { v: final(v)@, village: final(village)@, pose: r.0, ends: r.1 }),
{
    if t.exclusive && !village.things.try_claim(anchor, v.id) {
        v.wait();
        return (None, true);
    }
    let stand: IVec3 = match place {
        Some(s) => s,
        None => {
            if t.exclusive {
                village.things.release(anchor, v.id);
            }
            v.wait();
            return (None, true);
        },
    };
    let duration: u32 = keep_within(
        t.duration_ms,
        MIN_INTERACT_DURATION_MS,
        MAX_INTERACT_DURATION_MS,
    );
    let (snap, animation): (Option<PoseBits>, Option<String>) = match slot {
        Some(s) => (pose, copy_text(&s.animation)),
        None => (None, None),
    };
    if stand == foot {
        v.path = Vec::new();
        assert(v.path@ =~= Seq::<IVec3>::empty());
        if snap.is_some() {
            v.locked = true;
        }
        v.goal = Goal::Interacting {
            remaining_ms: duration,
            need_restore: copy_restore(&t.need_restore),
            target_cell: target,
            anchor_cell: anchor,
            exclusive: t.exclusive,
            animation,
        };
        return (snap, true);
    }
    match route {
        Some(path) => {
            let action: ArrivalAction = ArrivalAction::Interact {
                need_restore: copy_restore(&t.need_restore),
                duration_ms: duration,
                target_cell: target,
                anchor_cell: anchor,
                exclusive: t.exclusive,
                animation,
            };
            v.set_out(
                path,
                keep_within(timeout_ms, MIN_TIMEOUT_MS, MAX_INTERACT_TIMEOUT_MS),
                action,
                snap,
            );
        },
        None => {
            village.things.memo_unreachable(anchor, now + UNREACHABLE_RETRY_MS);
            if t.exclusive {
                village.things.release(anchor, v.id);
            }
            v.park(MIN_REST_MS);
        },
    }
    (None, false)
}

/// A thing for one villager at a time is used by one villager at a time: who
/// has it as a goal has claimed it, and nobody else's claims are touched.
pub proof fn law_used_things_are_claimed(
    v: VillagerView,
    village: VillageView,
    t: Interactable,
    scene: UseScene,
    foot: IVec3,
    timeout_ms: u32,
    pose: Option<PoseBits>,
    now: u64,
    route: Option<Seq<IVec3>>,
    cell: IVec3,
)
    requires
        crate::npc::goals::held_thing(v.goal) is None,
    ensures
        ({
            let c = use_result(v, village, t, scene, foot, timeout_ms, pose, now, route);
            &&& crate::npc::goals::held_thing(c.v.goal) matches Some(a)
                ==> c.village.things.claims.contains_key(a) && c.village.things.claims[a] == v.id
            &&& village.things.claims.contains_key(cell) && village.things.claims[cell] != v.id
                ==> c.village.things.claims.contains_key(cell) && c.village.things.claims[cell]
                == village.things.claims[cell]
        }),
{
}

// ---------- working on a plan ----------

/// How long work takes: the block's time, stretched by the tool in hand and by
/// what wears the villager down, both in thousandths. Times that do not fit
/// become the longest that does.
pub open spec fn work_time(duration_ms: u32, tool: u32, worn: int) -> u32 {
    let whole = (duration_ms * tool * worn) / 1000000;
    if whole > u32::MAX {
        u32::MAX
    } else {
        whole as u32
    }
}

fn stretch_time(duration_ms: u32, tool: u32, worn: u32) -> (r: u32)
    ensures
        r == work_time(duration_ms, tool, worn as int),
{
    assert(0 <= duration_ms * tool <= 0xffff_ffff * 0xffff_ffff) by (nonlinear_arith)
        requires
            0 <= duration_ms <= 0xffff_ffff,
            0 <= tool <= 0xffff_ffff,
    ;
    let part: u128 = duration_ms as u128 * tool as u128;
    assert(0 <= part * worn <= 0xffff_ffff_ffff_ffff * 0xffff_ffff) by (nonlinear_arith)
        requires
            0 <= part <= 0xffff_ffff * 0xffff_ffff,
            0 <= worn <= 0xffff_ffff,
    ;
    let whole: u128 = part * worn as u128 / 1000000;
    if whole > 0xffff_ffff {
        u32::MAX
    } else {
        whole as u32
    }
}

/// The village with the plan taken by the villager.
pub open spec fn plan_taken(village: VillageView, cell: IVec3, v: VillagerView) -> VillageView {
    VillageView { plan_claims: claimed(village.plan_claims, cell, v.id), ..village }
}

/// The village with the plan given back.
pub open spec fn plan_returned(village: VillageView, cell: IVec3, v: VillagerView) -> VillageView {
    VillageView { plan_claims: released(village.plan_claims, cell, v.id), ..village }
}

/// The village in which the plan is left alone for a while.
pub open spec fn plan_avoided(village: VillageView, cell: IVec3, until: u64) -> VillageView {
    VillageView { haul: haul_avoiding(village.haul, HaulTarget::Plan(cell), until), ..village }
}

/// What work on a plan is like: `None` where it cannot be done with the tool in
/// hand.
pub struct WorkOffer {
    pub kind: PlanKind,
    pub duration_ms: u32,
    pub need_restore: Option<NeedRestore>,
}

/// What work on a plan is like for the villager.
pub open spec fn work_offer(
    walk: &WorldWalk,
    items: &ItemRegistry,
    defaults: &WorkDefaults,
    v: VillagerView,
    kind: PlanKind,
    cell: IVec3,
) -> Option<WorkOffer> {
    let terms = work_terms(walk, kind, cell, defaults);
    match work_stretch(plan_action(walk, kind, cell), kind.verb(), items, v.tool) {
        Some(tool) => Some(
            WorkOffer {
                kind,
                duration_ms: work_time(
                    terms.0,
                    tool,
                    boost_factor(v.needs, defaults.worn_down),
                ),
                need_restore: terms.1,
            },
        ),
        None => None,
    }
}

/// What becomes of a villager that is to work on a plan, given what the work is
/// like, where to stand for it and the way there.
pub open spec fn work_result(
    v: VillagerView,
    village: VillageView,
    cell: IVec3,
    offer: Option<WorkOffer>,
    place: Option<IVec3>,
    foot: IVec3,
    timeout_ms: u32,
    now: u64,
    route: Option<Seq<IVec3>>,
) -> (VillagerView, VillageView, bool) {
    let taken = plan_taken(village, cell, v);
    let given_back = plan_returned(taken, cell, v);
    let avoided = plan_avoided(given_back, cell, (now + UNREACHABLE_RETRY_MS) as u64);
    if !open_to(village.plan_claims, cell, v.id) {
        (waiting(v), village, true)
    } else {
        match offer {
            None => (waiting(v), given_back, true),
            Some(work) => match place {
                None => (waiting(v), avoided, true),
                Some(stand) => if stand == foot {
                    (
                        VillagerView {
                            goal: GoalView::Working {
                                remaining_ms: work.duration_ms,
                                target_cell: cell,
                                plan_kind: work.kind,
                                need_restore: work.need_restore,
                            },
                            path: Seq::empty(),
                            ..v
                        },
                        taken,
                        true,
                    )
                } else {
                    match route {
                        Some(path) => (
                            setting_out(
                                v,
                                path,
                                kept_within(timeout_ms, MIN_TIMEOUT_MS, MAX_WORK_TIMEOUT_MS),
                                ArrivalAction::Work {
                                    duration_ms: work.duration_ms,
                                    target_cell: cell,
                                    plan_kind: work.kind,
                                    need_restore: work.need_restore,
                                },
                                None,
                            ),
                            taken,
                            false,
                        ),
                        None => (parked(v, MIN_REST_MS), avoided, false),
                    }
                },
            },
        }
    }
}

pub open spec fn work_by(
    walk: &WorldWalk,
    items: &ItemRegistry,
    defaults: &WorkDefaults,
    foot: IVec3,
    cell: IVec3,
    timeout_ms: u32,
    now: u64,
    before: (VillagerView, VillageView),
    after: (VillagerView, VillageView, bool),
    route: Option<Seq<IVec3>>,
) -> bool {
    if before.1.plans.contains_key(cell) {
        let kind = before.1.plans[cell].kind;
        let place = place_beside(walk, cell, foot);
        &&& place matches Some(stand) ==> stand == foot || route_answer(walk, foot, stand, route)
        &&& after == work_result(
            before.0,
            before.1,
            cell,
            work_offer(walk, items, defaults, before.0, kind, cell),
            place,
            foot,
            timeout_ms,
            now,
            route,
        )
    } else {
        after == (waiting(before.0), before.1, true)
    }
}

/// The villager works on the plan at a cell, or sets out for it by some way, or
/// cannot.
pub open spec fn goes_working(
    walk: &WorldWalk,
    items: &ItemRegistry,
    defaults: &WorkDefaults,
    foot: IVec3,
    cell: IVec3,
    timeout_ms: u32,
    now: u64,
    before: (VillagerView, VillageView),
    after: (VillagerView, VillageView, bool),
) -> bool {
    exists|route: Option<Seq<IVec3>>| #[trigger]
        work_by(walk, items, defaults, foot, cell, timeout_ms, now, before, after, route)
}

/// The plan at a cell is about a known block, and the cells around it exist.
pub open spec fn work_in_bounds(walk: &WorldWalk, village: VillageView, cell: IVec3) -> bool {
    village.plans.contains_key(cell) ==> clear_of_limits(cell, 3) && plan_known(
        walk,
        village.plans[cell].kind,
    )
}

fn offer_for(
    v: &Villager,
    walk: &WorldWalk,
    items: &ItemRegistry,
    defaults: &WorkDefaults,
    kind: PlanKind,
    cell: IVec3,
) -> (r: Option<WorkOffer>)
    requires
        plan_known(walk, kind),
    ensures
        r == work_offer(walk, items, defaults, v@, kind, cell),
{
    let action: Option<&WorkAction> = walk.action_at(kind, cell);
    match tool_multiplier(action, kind.work_verb(), items, v.tool) {
        Some(tool) => {
            let (base, need_restore) = resolve_work_action(walk, kind, cell, defaults);
            let worn: u32 = v.needs.factor(&defaults.worn_down);
            Some(WorkOffer { kind, duration_ms: stretch_time(base, tool, worn), need_restore })
        },
        None => None,
    }
}

/// Lets the villager work on the plan at a cell: `true` when that is all for
/// this tick.
pub fn commit_work(
    v: &mut Villager,
    village: &mut Village,
    walk: &WorldWalk,
    items: &ItemRegistry,
    defaults: &WorkDefaults,
    foot: IVec3,
    cell: IVec3,
    timeout_ms: u32,
    now: u64,
) -> (r: bool)
    requires
        work_in_bounds(walk, old(village)@, cell),
        now <= u64::MAX - UNREACHABLE_RETRY_MS,
    ensures
        goes_working(
            walk,
            items,
            defaults,
            foot,
            cell,
            timeout_ms,
            now,
            (old(v)@, old(village)@),
            (final(v)@, final(village)@, r),
        ),
        path_sound(final(v)@),
        final(village)@.haul.assignments == old(village)@.haul.assignments,
{
    let ghost before = (v@, village@);
    let kind: PlanKind = match village.plans.kind(cell) {
        Some(k) => k,
        None => {
            v.wait();
            assert(work_by(
                walk,
                items,
                defaults,
                foot,
                cell,
                timeout_ms,
                now,
                before,
                (v@, village@, true),
                None,
            ));
            return true;
        },
    };
    let offer: Option<WorkOffer> = offer_for(v, walk, items, defaults, kind, cell);
    let place: Option<IVec3> = nearest_standable_neighbor(walk, cell, foot);
    let route: Option<Vec<IVec3>> = match place {
        Some(stand) => if stand != foot {
            plan_route(walk, foot, stand)
        } else {
            None
        },
        None => None,
    };
    let ghost answer = path_view(route);
    let r: bool = work_on(v, village, cell, offer, place, foot, timeout_ms, now, route);
    assert(work_by(
        walk,
        items,
        defaults,
        foot,
        cell,
        timeout_ms,
        now,
        before,
        (v@, village@, r),
        answer,
    ));
    r
}

/// Lets the villager work on a plan, given what the work is like, where to stand
/// for it and the way there.
pub fn work_on(
    v: &mut Villager,
    village: &mut Village,
    cell: IVec3,
    offer: Option<WorkOffer>,
    place: Option<IVec3>,
    foot: IVec3,
    timeout_ms: u32,
    now: u64,
    route: Option<Vec<IVec3>>,
) -> (r: bool)
    requires
        now <= u64::MAX - UNREACHABLE_RETRY_MS,
    ensures
        (final(v)@, final(village)@, r) == work_result(
            old(v)@,
            old(village)@,
            cell,
            offer,
            place,
            foot,
            timeout_ms,
            now,
            path_view(route),
        ),
{
    if !village.plan_claims.try_claim(cell, v.id) {
        v.wait();
        return true;
    }
    let work: WorkOffer = match offer {
        Some(w) => w,
        None => {
            village.plan_claims.release(cell, v.id);
            v.wait();
            return true;
        },
    };
    let until: u64 = now + UNREACHABLE_RETRY_MS;
    let stand: IVec3 = match place {
        Some(s) => s,
        None => {
            village.haul.memo_unreachable(HaulTarget::Plan(cell), until);
            village.plan_claims.release(cell, v.id);
            v.wait();
            return true;
        },
    };
    if stand == foot {
        v.path = Vec::new();
        assert(v.path@ =~= Seq::<IVec3>::empty());
        v.goal = Goal::Working {
            remaining_ms: work.duration_ms,
            target_cell: cell,
            plan_kind: work.kind,
            need_restore: work.need_restore,
        };
        return true;
    }
    match route {
        Some(path) => {
            let action: ArrivalAction = ArrivalAction::Work {
                duration_ms: work.duration_ms,
                target_cell: cell,
                plan_kind: work.kind,
                need_restore: work.need_restore,
            };
            v.set_out(
                path,
                keep_within(timeout_ms, MIN_TIMEOUT_MS, MAX_WORK_TIMEOUT_MS),
                action,
                None,
            );
        },
        None => {
            village.haul.memo_unreachable(HaulTarget::Plan(cell), until);
            village.plan_claims.release(cell, v.id);
            v.park(MIN_REST_MS);
        },
    }
    false
}

/// A villager works only on plans that it has claimed, and nobody else's claims
/// are touched.
pub proof fn law_worked_plans_are_claimed(
    v: VillagerView,
    village: VillageView,
    cell: IVec3,
    offer: Option<WorkOffer>,
    place: Option<IVec3>,
    foot: IVec3,
    timeout_ms: u32,
    now: u64,
    route: Option<Seq<IVec3>>,
    other: IVec3,
)
    requires
        crate::npc::goals::held_plan(v.goal) is None,
    ensures
        ({
            let (w, after, _) = work_result(
                v,
                village,
                cell,
                offer,
                place,
                foot,
                timeout_ms,
                now,
                route,
            );
            &&& crate::npc::goals::held_plan(w.goal) matches Some(c)
                ==> after.plan_claims.contains_key(c) && after.plan_claims[c] == v.id
            &&& village.plan_claims.contains_key(other) && village.plan_claims[other] != v.id
                ==> after.plan_claims.contains_key(other) && after.plan_claims[other]
                == village.plan_claims[other]
        }),
{
}

// ---------- what the planner chose ----------

/// What a villager and its planner know of the world.
pub struct PlannerScene<'a> {
    pub walk: &'a WorldWalk<'a>,
    pub entries: &'a CellMap<EntryKind>,
    pub rooms: &'a RoomMap,
    pub items: &'a ItemRegistry,
    pub defaults: &'a WorkDefaults,
    pub foot: IVec3,
    /// The box around the villager's home, if that still stands.
    pub settlement: Option<(IVec3, IVec3)>,
    /// The pose that using the chosen thing calls for.
    pub pose: Option<PoseBits>,
    pub now: u64,
}

/// The chosen goal can be taken up where it is: coordinates do not run out.
pub open spec fn choice_in_bounds(
    scene: &PlannerScene,
    v: VillagerView,
    village: VillageView,
    goal: PlannerGoal,
) -> bool {
    match goal {
        PlannerGoal::Wander { radius_cells, .. } => wander_fits(
            scene.foot,
            wander_radius(radius_cells) as int,
            home_box(v, scene.settlement),
        ),
        PlannerGoal::Goto { .. } => sound_state(scene.rooms@),
        PlannerGoal::Interact { cell, .. } => use_in_bounds(scene.walk, scene.entries@, cell),
        PlannerGoal::WorkPlan { cell, .. } => work_in_bounds(scene.walk, village, cell),
        _ => true,
    }
}

/// The villager turned to what its planner chose.
pub open spec fn turned_to(
    scene: &PlannerScene,
    goal: PlannerGoal,
    before: (VillagerView, VillageView),
    after: Choice,
) -> bool {
    match goal {
        PlannerGoal::Idle => after == (Choice {
            v: parked(before.0, MIN_REST_MS),
            village: before.1,
            pose: None,
            ends: false,
        }),
        PlannerGoal::Rest { duration_ms } => after == (Choice {
            v: parked(before.0, kept_within(duration_ms, MIN_REST_MS, MAX_REST_MS)),
            village: before.1,
            pose: None,
            ends: false,
        }),
        PlannerGoal::SleepGround { duration_ms, restores, need, animation } => after == (Choice {
            v: VillagerView {
                goal: GoalView::SleepingGround {
                    remaining_ms: kept_within(duration_ms, MIN_REST_MS, MAX_REST_MS),
                    need,
                    restores: kept_within(restores, 0, FULL_NEED),
                    over_ms: kept_within(duration_ms, MIN_REST_MS, MAX_REST_MS),
                    animation,
                },
                path: Seq::empty(),
                ..before.0
            },
            village: before.1,
            pose: None,
            ends: false,
        }),
        PlannerGoal::Wander { radius_cells, timeout_ms } => after.village == before.1
            && after.pose is None && !after.ends && goes_wandering(
            scene.walk,
            scene.foot,
            radius_cells,
            scene.settlement,
            timeout_ms,
            before.0,
            after.v,
        ),
        PlannerGoal::Goto { cell, timeout_ms } => after.village == before.1 && after.pose is None
            && goes_to(
            scene.walk,
            scene.rooms@,
            scene.foot,
            cell,
            timeout_ms,
            before.0,
            (after.v, after.ends),
        ),
        PlannerGoal::Interact { cell, timeout_ms } => goes_using(
            scene.walk,
            scene.entries@,
            scene.foot,
            cell,
            timeout_ms,
            scene.pose,
            scene.now,
            before,
            after,
        ),
        PlannerGoal::WorkPlan { cell, timeout_ms } => after.pose is None && goes_working(
            scene.walk,
            scene.items,
            scene.defaults,
            scene.foot,
            cell,
            timeout_ms,
            scene.now,
            before,
            (after.v, after.village, after.ends),
        ),
    }
}

/// Turns the villager to what its planner chose. Returns the pose that the body
/// takes at once, and `true` when that is all for this tick.
pub fn commit_goal(
    v: &mut Villager,
    village: &mut Village,
    scene: &PlannerScene,
    goal: PlannerGoal,
) -> (r: (Option<PoseBits>, bool))
    requires
        choice_in_bounds(scene, old(v)@, old(village)@, goal),
        scene.now <= u64::MAX - UNREACHABLE_RETRY_MS,
    ensures
        turned_to(
            scene,
            goal,
            (old(v)@, old(village)@),
            (Choice { v: final(v)@, village: final(village)@, pose: r.0, ends: r.1 }),
        ),
        path_sound(final(v)@),
        errand_in_bounds(old(village)@, old(v).id.0) ==> errand_in_bounds(
            final(village)@,
            final(v).id.0,
        ),
{
    match goal {
        PlannerGoal::Idle => {
            v.park(MIN_REST_MS);
            (None, false)
        },
        PlannerGoal::Rest { duration_ms } => {
            v.park(keep_within(duration_ms, MIN_REST_MS, MAX_REST_MS));
            (None, false)
        },
        PlannerGoal::SleepGround { duration_ms, restores, need, animation } => {
            let over: u32 = keep_within(duration_ms, MIN_REST_MS, MAX_REST_MS);
            v.path = Vec::new();
            assert(v.path@ =~= Seq::<IVec3>::empty());
            v.goal = Goal::SleepingGround {
                remaining_ms: over,
                need,
                restores: keep_within(restores, 0, FULL_NEED),
                over_ms: over,
                animation,
            };
            (None, false)
        },
        PlannerGoal::Wander { radius_cells, timeout_ms } => {
            commit_wander(
                v,
                scene.walk,
                scene.foot,
                radius_cells,
                scene.settlement,
                timeout_ms,
            );
            (None, false)
        },
        PlannerGoal::Goto { cell, timeout_ms } => {
            let ends: bool = commit_goto(v, scene.walk, scene.rooms, scene.foot, cell, timeout_ms);
            (None, ends)
        },
        PlannerGoal::Interact { cell, timeout_ms } => commit_interact(
            v,
            village,
            scene.walk,
            scene.entries,
            scene.foot,
            cell,
            timeout_ms,
            scene.pose,
            scene.now,
        ),
        PlannerGoal::WorkPlan { cell, timeout_ms } => {
            let ends: bool = commit_work(
                v,
                village,
                scene.walk,
                scene.items,
                scene.defaults,
                scene.foot,
                cell,
                timeout_ms,
                scene.now,
            );
            (None, ends)
        },
    }
}

/// A villager that turned to what its planner chose has something to do, or is
/// where it was sent.
pub proof fn law_choices_keep_villagers_busy(
    scene: &PlannerScene,
    goal: PlannerGoal,
    before: (VillagerView, VillageView),
    after: Choice,
)
    requires
        turned_to(scene, goal, before, after),
        after.v.goal is Idle,
    ensures
        goal matches PlannerGoal::Goto { cell, .. } && scene.foot == goto_target(
            scene.rooms@,
            cell,
            bits_of(before.0.seed),
        ),
{
}

/// Ends the thinking of a villager whose planner failed: what it claimed of
/// things, plans and errands is free again, and so is its body.
pub fn disable(v: &mut Villager, village: &mut Village)
    ensures
        final(v)@ == (VillagerView { locked: false, ..old(v)@ }),
        final(village)@ == (VillageView {
            things: InteractionView {
                claims: claims_without(old(village)@.things.claims, old(v).id),
                ..old(village)@.things
            },
            plan_claims: claims_without(old(village)@.plan_claims, old(v).id),
            haul: haul_released(old(village)@.haul, old(v).id),
            ..old(village)@
        }),
{
    village.things.release_all_for(v.id);
    village.plan_claims.release_all_for(v.id);
    village.haul.release_for_npc(v.id);
    v.locked = false;
}

} // verus!
