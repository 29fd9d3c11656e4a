//! What comes of the things that villagers set out to do, however they end.

use crate::blocks::BlockSlot;
use crate::cells::IVec3;
use crate::items::ItemRegistry;
use crate::npc::arrive::ArrivalResult;
use crate::npc::commit::{
    craft_by, goes_crafting, goes_using, goes_working, idle_step, Choice, IdleStage,
};
use crate::npc::errands::{capacity_of, errand_goes_on};
use crate::npc::goals::{
    census_of, held_plan, held_station, held_thing, on_errand, ArrivalAction, Census, CensusEntry,
    GoalView,
};
use crate::npc::holds::HaulTarget;
use crate::npc::mind::{ticked, Surroundings};
use crate::npc::nearby::{anchor_of, facing_of, EntryKind};
use crate::npc::needs::{any_pressing, grown, law_easing_lowers_one_need, level_of};
use crate::npc::places::{
    law_routes_lead_there, place_beside, rest_open, search_answer, standing_foot, use_place,
};
use crate::npc::tick::{
    advanced_by, advances, leave_effect, repath_answer, smooth_all, Body, Progress,
};
use crate::npc::village::{wanted_at, Effect, VillageView, VillagerView};
use crate::npc::walk::WorldWalk;
use crate::npc_registry::{NpcKindRegistry, WorkDefaults};
use crate::pathfinding::{path_answer, smoothed, Walkability};
use crate::protocol::{remaining, PoseBits};
use vstd::prelude::*;

verus! {

// ---------- on the way ----------

/// A villager on its way goes on along its path as long as nothing is wrong
/// with it. A way that was blocked, or that a change of the world has closed,
/// is planned anew from where the body stands to the same end; only where no
/// way is found is it given up. Time runs down all the while: whoever has come
/// to the end has arrived, and whoever has not gives up when the time is up.
pub proof fn law_broken_ways_are_planned_anew<W: Walkability>(
    world: &W,
    body: Body,
    dt: u32,
    dirty: bool,
    before: (VillagerView, VillageView),
    after: (VillagerView, Progress),
    path: Seq<IVec3>,
    edge: usize,
    blocked: bool,
    deadline_ms: u32,
    on_arrive: ArrivalAction,
    snap: Option<PoseBits>,
)
    requires
        advances(world, body, dt, dirty, before, after),
        before.0.goal == (GoalView::MoveTo { path, edge, blocked, deadline_ms, on_arrive, snap }),
        path.len() > 0,
    ensures
        ({
            let foot = match standing_foot(world, body.nominal, body.lo, body.hi) {
                Some(c) => c,
                None => body.nominal,
            };
            let end = path[path.len() - 1];
            let broken = blocked || (dirty && !rest_open(world, path, edge as int));
            let left: int = if deadline_ms > dt {
                deadline_ms - dt
            } else {
                0
            };
            match after.0.goal {
                GoalView::MoveTo {
                    path: way,
                    edge: at,
                    blocked: stuck,
                    deadline_ms: time,
                    on_arrive: action,
                    snap: pose,
                } => {
                    &&& time == left && action == on_arrive && pose == snap
                    &&& !broken ==> way == path && at == edge && !stuck && after.0.path
                        == before.0.path
                    &&& broken && stuck ==> way == path && at == edge && after.1 is Abandoned
                        && path_answer(world, foot, end, 2000, 64, None)
                    &&& broken && !stuck ==> at == 0 && way.len() >= 1 && way[0] == foot
                        && way[way.len() - 1] == end && after.0.path == way
                    &&& !stuck ==> (after.1 is Arrived <==> at + 1 >= way.len())
                    &&& !stuck ==> (after.1 is Abandoned <==> at + 1 < way.len() && left == 0)
                    &&& !stuck ==> (after.1 is Underway <==> at + 1 < way.len() && left > 0)
                },
                _ => false,
            }
        }),
{
    let repath = choose|repath: Option<Seq<IVec3>>| #[trigger]
        advanced_by(world, body, dt, dirty, before, after, repath);
    assert(advanced_by(world, body, dt, dirty, before, after, repath));
    let foot = match standing_foot(world, body.nominal, body.lo, body.hi) {
        Some(c) => c,
        None => body.nominal,
    };
    let end = path[path.len() - 1];
    if blocked || (dirty && !rest_open(world, path, edge as int)) {
        assert(repath_answer(world, foot, end, repath));
        let raw = choose|raw: Option<Seq<IVec3>>|
            #[trigger] search_answer(world, foot, end, raw) && repath == smooth_all(world, raw);
        assert(search_answer(world, foot, end, raw));
        if let Some(p) = raw {
            let idx = crate::pathfinding::law_smoothing_pulls_clear_lines(world, p);
            assert(smoothed(world, p)[0] == foot);
        }
    }
}

/// A need that pressed lately is left alone for a while, and that time runs
/// down with every tick, unless a tick begins it anew.
pub proof fn law_cooldowns_run_down(
    s: &Surroundings,
    before: (VillagerView, VillageView),
    after: (VillagerView, VillageView, Seq<Effect>, ArrivalResult),
)
    requires
        ticked(s, before, after),
        before.0.cooldown_ms > s.dt || !any_pressing(
            grown(before.0.needs, s.needs, s.dt as int),
            s.needs,
        ) || before.0.goal is Idle || before.0.goal is Resting || before.0.goal is SleepingGround
            || before.0.goal is Interacting,
    ensures
        before.0.cooldown_ms > s.dt ==> after.0.cooldown_ms == before.0.cooldown_ms - s.dt,
        before.0.cooldown_ms <= s.dt ==> after.0.cooldown_ms == 0,
        after.0.id == before.0.id,
        after.0.entity == before.0.entity,
        after.0.kind == before.0.kind,
        after.0.seed == before.0.seed,
{
}

/// A villager that walked for the walk's sake is free when it arrives, in the
/// pose that it was to take, if any; nothing else changes.
pub proof fn law_walks_end_in_idleness(
    s: &Surroundings,
    before: (VillagerView, VillageView),
    after: (VillagerView, VillageView, Seq<Effect>, ArrivalResult),
    path: Seq<IVec3>,
    edge: usize,
    deadline_ms: u32,
    snap: Option<PoseBits>,
)
    requires
        ticked(s, before, after),
        before.0.goal == (GoalView::MoveTo {
            path,
            edge,
            blocked: false,
            deadline_ms,
            on_arrive: ArrivalAction::Nothing,
            snap,
        }),
        edge + 1 >= path.len(),
        !s.dirty,
    ensures
        after.0.goal is Idle,
        after.0.path.len() == 0,
        after.0.locked == (before.0.locked || snap is Some),
        after.0.carrying == before.0.carrying,
        after.0.tool == before.0.tool,
        after.0.home == before.0.home,
        after.1 == before.1,
        snap is None ==> after.2.len() == 0,
        snap is Some ==> after.2.len() == 1 && after.2[0] == Effect::SnapTo(snap->0),
        after.3 is GoOn,
{
}

/// An arrival ends the villager's tick exactly if it came to nothing: the thing
/// can no longer be used, the plan is another or gone, the item or tool does
/// not lie there or does not fit into the hands, or nothing that is carried is
/// wanted.
pub proof fn law_vain_arrivals_end_the_tick(
    s: &Surroundings,
    before: (VillagerView, VillageView),
    after: (VillagerView, VillageView, Seq<Effect>, ArrivalResult),
    path: Seq<IVec3>,
    edge: usize,
    deadline_ms: u32,
    on_arrive: ArrivalAction,
    snap: Option<PoseBits>,
)
    requires
        ticked(s, before, after),
        before.0.goal == (GoalView::MoveTo {
            path,
            edge,
            blocked: false,
            deadline_ms,
            on_arrive,
            snap,
        }),
        edge + 1 >= path.len(),
        !s.dirty,
        before.0.cooldown_ms > s.dt || !any_pressing(
            grown(before.0.needs, s.needs, s.dt as int),
            s.needs,
        ),
    ensures
        ({
            let hands = before.0.carrying;
            let item = hands.item->0;
            let loaded = hands.item is Some && hands.count > 0;
            match on_arrive {
                ArrivalAction::Nothing => after.3 is GoOn,
                ArrivalAction::Interact { target_cell, .. } => {
                    let slot = s.walk.world().slot(target_cell);
                    after.3 is EndTick <==> !(s.walk.known(target_cell) && slot != BlockSlot(0)
                        && s.walk.reg().defs@[slot.0 as int].interactable is Some)
                },
                ArrivalAction::Work { target_cell, plan_kind, .. } => after.3 is EndTick <==> !(
                before.1.plans.contains_key(target_cell) && before.1.plans[target_cell].kind
                    == plan_kind),
                ArrivalAction::PickupForPlan { item_entity, item_slot, .. } => after.3 is EndTick
                    <==> !(s.ground@.contains_key(item_entity) && s.ground@[item_entity]
                    == item_slot && s.cap > 0 && (!loaded || (item == item_slot && hands.count
                    < s.cap))),
                ArrivalAction::PickupTool { item_entity, item_slot } => after.3 is EndTick <==> !(
                s.ground@.contains_key(item_entity) && s.ground@[item_entity] == item_slot),
                ArrivalAction::DepositAtPlan { plan_cell } => after.3 is EndTick <==> !(loaded
                    && before.1.plans.contains_key(plan_cell) && before.1.plans[plan_cell].kind
                    is Build && remaining(before.1.plans[plan_cell].materials, item) > 0),
                ArrivalAction::DepositAtStation { station_cell } => {
                    let slot = s.walk.world().slot(station_cell);
                    after.3 is EndTick <==> !(loaded && s.walk.known(station_cell) && slot
                        != BlockSlot(0) && s.walk.reg().defs@[slot.0 as int].station_tag is Some
                        && wanted_at(before.1.stations, station_cell, item) > 0)
                },
                ArrivalAction::WorkStation { .. } => !(after.3 is EndTick),
            }
        }),
{
}

// ---------- getting up ----------

/// A body that was held in place by what it used is set down beside it when the
/// use is over, and one that was not stays where it is; so after work.
pub proof fn law_bodies_are_set_down(
    s: &Surroundings,
    before: (VillagerView, VillageView),
    after: (VillagerView, VillageView, Seq<Effect>, ArrivalResult),
    target_cell: IVec3,
)
    requires
        ticked(s, before, after),
        match before.0.goal {
            GoalView::Interacting { remaining_ms, target_cell: c, .. } => c == target_cell
                && remaining_ms <= s.dt,
            GoalView::Working { remaining_ms, target_cell: c, .. } => c == target_cell
                && remaining_ms <= s.dt && (before.0.cooldown_ms > s.dt || !any_pressing(
                grown(before.0.needs, s.needs, s.dt as int),
                s.needs,
            )),
            _ => false,
        },
    ensures
        before.0.locked ==> after.2.len() > 0 && after.2[after.2.len() - 1] == leave_effect(
            s.walk,
            s.entries@,
            target_cell,
        ),
        forall|i: int|
            0 <= i < after.2.len() && (!before.0.locked || i < after.2.len() - 1) ==> (
            #[trigger] after.2[i]) is WorkCompleted,
        before.0.goal is Interacting ==> after.2.len() <= 1,
        after.2.len() <= 2,
        after.1.haul == before.1.haul,
        after.1.bookings == before.1.bookings,
        after.1.stations == before.1.stations,
        after.1.things.memos == before.1.things.memos,
        after.3 is GoOn,
{
}

/// A pressing need takes a villager off its work where it stands: what it
/// holds, how it is held and where it is at home stay as they are.
pub proof fn law_interrupted_villagers_keep_what_they_have(
    s: &Surroundings,
    before: (VillagerView, VillageView),
    after: (VillagerView, VillageView, Seq<Effect>, ArrivalResult),
)
    requires
        ticked(s, before, after),
        any_pressing(grown(before.0.needs, s.needs, s.dt as int), s.needs),
        before.0.cooldown_ms <= s.dt,
        match before.0.goal {
            GoalView::Working { .. } => true,
            GoalView::CraftingAtStation { .. } => true,
            GoalView::MoveTo { on_arrive, .. } => !(on_arrive is Nothing) && !(
            on_arrive is Interact),
            _ => false,
        },
    ensures
        after.0.tool == before.0.tool,
        after.0.locked == before.0.locked,
        after.0.home == before.0.home,
        after.1.things == before.1.things,
        after.1.haul.plan_memos == before.1.haul.plan_memos,
        after.1.haul.station_memos == before.1.haul.station_memos,
        after.3 is GoOn,
{
}

// ---------- choosing ----------

/// A free villager asks for something to craft first, then for an errand, and
/// then goes on with an errand that it has; else it asks the planner. Whoever
/// was just interrupted asks for neither, whoever has an errand asks for no
/// other, and whoever is booked at a station asks for nothing to craft.
pub proof fn law_idle_villagers_ask_in_turn(
    id: u64,
    village: VillageView,
    interrupted: bool,
    asked: IdleStage,
)
    ensures
        ({
            let step = idle_step(id, village, interrupted, asked);
            let errand = village.haul.assignments.contains_key(id);
            let booked = village.bookings.stations.contains_key(id);
            let crafts = asked is Nothing && !interrupted && !errand && !booked;
            let runs = !crafts && !interrupted && !errand && (asked is Nothing
                || asked is CraftAsked);
            &&& step is AskForCraft <==> crafts
            &&& step is AskForErrand <==> runs
            &&& step is GoOnErrand <==> errand && !(asked is ErrandEnded)
            &&& step is AskPlanner <==> !crafts && !runs && (!errand || asked is ErrandEnded)
        }),
{
}

/// The way to a station may take a minute; whoever stands beside it already
/// arrives at once, within a second.
pub proof fn law_ways_to_stations_take_a_minute(
    walk: &WorldWalk,
    foot: IVec3,
    station: IVec3,
    before: (VillagerView, VillageView),
    after: (VillagerView, VillageView),
)
    requires
        goes_crafting(walk, foot, station, before, after),
    ensures
        after.0.goal matches GoalView::MoveTo { path, deadline_ms, .. } ==> {
            &&& place_beside(walk, station, foot) == Some(foot) ==> deadline_ms == 1000
                && path.len() == 1 && after.0.path.len() == 0
            &&& place_beside(walk, station, foot) != Some(foot) ==> deadline_ms == 60000
                && after.0.path == path
        },
{
    let route = choose|route: Option<Seq<IVec3>>| #[trigger]
        craft_by(walk, foot, station, before, after, route);
    assert(craft_by(walk, foot, station, before, after, route));
    if let Some(stand) = place_beside(walk, station, foot) {
        if stand != foot && route is Some {
            law_routes_lead_there(walk, foot, stand, route->0);
        }
    }
}

/// A thing that somebody else has to themselves is left to them, and nothing
/// changes but that the villager waits. One that can be got at from nowhere is
/// not kept. One that no way leads to is left alone for half a minute, and not
/// kept either. The villager's tick goes on only where it set out or found no
/// way.
pub proof fn law_things_out_of_reach_wait(
    walk: &WorldWalk,
    entries: Map<IVec3, EntryKind>,
    foot: IVec3,
    cell: IVec3,
    timeout_ms: u32,
    pose: Option<PoseBits>,
    now: u64,
    before: (VillagerView, VillageView),
    after: Choice,
)
    requires
        goes_using(walk, entries, foot, cell, timeout_ms, pose, now, before, after),
        walk.known(cell),
        walk.world().slot(cell) != BlockSlot(0),
        walk.reg().defs@[walk.world().slot(cell).0 as int].interactable is Some,
        now <= u64::MAX - 30000,
    ensures
        ({
            let d = walk.reg().defs@[walk.world().slot(cell).0 as int];
            let anchor = anchor_of(entries, cell);
            let place = use_place(
                walk,
                d.use_slot,
                anchor,
                facing_of(entries, cell),
                cell,
                foot,
            );
            let claims = before.1.things.claims;
            let others = (d.interactable->0).exclusive && claims.contains_key(anchor)
                && claims[anchor] != before.0.id;
            let now_mine = after.village.things.claims.contains_key(anchor)
                && after.village.things.claims[anchor] == before.0.id;
            &&& others ==> after.v.goal is Resting && after.village == before.1 && after.ends
            &&& !others && place is None ==> after.v.goal is Resting && after.ends
                && after.village.things.memos == before.1.things.memos
            &&& after.v.goal is Resting && (d.interactable->0).exclusive && !others ==> !now_mine
            &&& after.v.goal is Resting && !others && place is Some
                ==> after.village.things.memos.contains_key(anchor)
                && after.village.things.memos[anchor] == now + 30000 && !after.ends
            &&& !(after.v.goal is Resting) ==> after.village.things.memos == before.1.things.memos
            &&& !(after.v.goal is Resting) && (d.interactable->0).exclusive ==> now_mine
            &&& !(d.interactable->0).exclusive ==> after.village.things.claims == claims
            &&& after.v.goal is Interacting ==> after.ends
            &&& after.v.goal is MoveTo ==> !after.ends
            &&& after.v.goal is Interacting ==> after.v.locked == (before.0.locked
                || after.pose is Some)
        }),
        after.village.haul == before.1.haul,
        after.village.bookings == before.1.bookings,
        after.village.plan_claims == before.1.plan_claims,
{
}

/// A plan that somebody else works on is left to them, and nothing changes but
/// that the villager waits; so where the villager cannot do the work at all. A
/// plan that can be reached from nowhere, or that no way leads to, is left
/// alone for half a minute.
pub proof fn law_plans_out_of_reach_wait(
    walk: &WorldWalk,
    items: &ItemRegistry,
    defaults: &WorkDefaults,
    foot: IVec3,
    cell: IVec3,
    timeout_ms: u32,
    now: u64,
    before: (VillagerView, VillageView),
    after: (VillagerView, VillageView, bool),
)
    requires
        goes_working(walk, items, defaults, foot, cell, timeout_ms, now, before, after),
        now <= u64::MAX - 30000,
    ensures
        ({
            let claims = before.1.plan_claims;
            let others = claims.contains_key(cell) && claims[cell] != before.0.id;
            let planned = before.1.plans.contains_key(cell);
            let mine = after.1.plan_claims.contains_key(cell) && after.1.plan_claims[cell]
                == before.0.id;
            let waits = after.0.goal is Resting;
            let avoided = after.1.haul.plan_memos.contains_key(cell)
                && after.1.haul.plan_memos[cell] == now + 30000;
            &&& !planned || others ==> waits && after.1 == before.1 && after.2
            &&& waits && planned && !others ==> !mine
            &&& waits && planned && !others && after.1.haul.plan_memos != before.1.haul.plan_memos
                ==> avoided
            &&& waits && !after.2 ==> avoided
            &&& !waits ==> mine && after.1.haul == before.1.haul
            &&& after.0.goal is Working ==> after.2
            &&& after.0.goal is MoveTo ==> !after.2
        }),
        after.1.things == before.1.things,
        after.1.bookings == before.1.bookings,
        after.1.haul.assignments == before.1.haul.assignments,
        after.1.haul.reserved == before.1.haul.reserved,
        after.1.haul.station_memos == before.1.haul.station_memos,
{
}

/// An errand whose next stop no way leads to is given up, and its target left
/// alone for half a minute. One that is done is given up and nothing avoided.
pub proof fn law_errands_out_of_reach_wait<W: Walkability>(
    world: &W,
    foot: IVec3,
    cap: u32,
    now: u64,
    before: (VillagerView, VillageView),
    after: (VillagerView, VillageView, bool),
)
    requires
        errand_goes_on(world, foot, cap, now, before, after),
        before.1.haul.assignments.contains_key(before.0.id.0),
        now <= u64::MAX - 30000,
    ensures
        ({
            let a = before.1.haul.assignments[before.0.id.0];
            let h = after.1.haul;
            let hands = before.0.carrying.item is Some && before.0.carrying.count > 0;
            &&& after.2 ==> after.1 == before.1
            &&& !after.2 ==> after.0.goal is Idle && after.0.path.len() == 0
            &&& !after.2 && (a.pending_tool is Some || (hands && a.queue.len() == 0)) ==> match a.target {
                HaulTarget::Plan(c) => h.plan_memos.contains_key(c) && h.plan_memos[c] == now
                    + 30000 && h.station_memos == before.1.haul.station_memos,
                HaulTarget::Station(c) => h.station_memos.contains_key(c) && h.station_memos[c]
                    == now + 30000 && h.plan_memos == before.1.haul.plan_memos,
            }
            &&& a.pending_tool is None && !hands && a.queue.len() == 0 ==> !after.2 && h.plan_memos
                == before.1.haul.plan_memos && h.station_memos == before.1.haul.station_memos
        }),
        after.1.things == before.1.things,
        after.1.bookings == before.1.bookings,
        after.1.plan_claims == before.1.plan_claims,
{
}

/// A villager carries as much as its kind says, and three items where nothing
/// is known of its kind.
pub proof fn law_villagers_carry_what_their_kind_says(kinds: &NpcKindRegistry, kind: Seq<char>)
    ensures
        kinds.find(kind) is Some ==> capacity_of(kinds, kind) == (kinds.find(
            kind,
        )->0).carry_capacity,
        kinds.find(kind) is None ==> capacity_of(kinds, kind) == 3,
{
}

// ---------- goals ----------

/// A villager holds on to what its goal is about: the plan that it works on or
/// walks to, the station that it crafts at or walks to, the thing that it uses
/// or walks to and that is for one alone. Whoever fetches or delivers is on an
/// errand, and nobody else is.
pub proof fn law_goals_hold_what_they_are_about(goal: GoalView)
    ensures
        match goal {
            GoalView::Working { target_cell, .. } => held_plan(goal) == Some(target_cell)
                && held_thing(goal) is None && held_station(goal) is None && !on_errand(goal),
            GoalView::Interacting { anchor_cell, exclusive, .. } => (exclusive ==> held_thing(goal)
                == Some(anchor_cell)) && (!exclusive ==> held_thing(goal) is None) && held_plan(
                goal,
            ) is None && held_station(goal) is None && !on_errand(goal),
            GoalView::CraftingAtStation { station_cell } => held_station(goal) == Some(station_cell)
                && held_thing(goal) is None && held_plan(goal) is None && !on_errand(goal),
            GoalView::MoveTo { on_arrive, .. } => match on_arrive {
                ArrivalAction::Nothing => held_plan(goal) is None && held_thing(goal) is None
                    && held_station(goal) is None && !on_errand(goal),
                ArrivalAction::Interact { anchor_cell, exclusive, .. } => (exclusive ==> held_thing(
                    goal,
                ) == Some(anchor_cell)) && (!exclusive ==> held_thing(goal) is None) && held_plan(
                    goal,
                ) is None && held_station(goal) is None && !on_errand(goal),
                ArrivalAction::Work { target_cell, .. } => held_plan(goal) == Some(target_cell)
                    && held_thing(goal) is None && held_station(goal) is None && !on_errand(goal),
                ArrivalAction::WorkStation { station_cell } => held_station(goal) == Some(
                    station_cell,
                ) && held_thing(goal) is None && held_plan(goal) is None && !on_errand(goal),
                ArrivalAction::PickupForPlan { .. } => on_errand(goal) && held_plan(goal) is None
                    && held_thing(goal) is None && held_station(goal) is None,
                ArrivalAction::PickupTool { .. } => on_errand(goal) && held_plan(goal) is None
                    && held_thing(goal) is None && held_station(goal) is None,
                ArrivalAction::DepositAtPlan { .. } => on_errand(goal) && held_plan(goal) is None
                    && held_thing(goal) is None && held_station(goal) is None,
                ArrivalAction::DepositAtStation { .. } => on_errand(goal) && held_plan(goal) is None
                    && held_thing(goal) is None && held_station(goal) is None,
            },
            _ => held_plan(goal) is None && held_thing(goal) is None && held_station(goal) is None
                && !on_errand(goal),
        },
{
}

/// One villager more counts once under what it does, sleepers among those who
/// rest; once more if it is disabled; and, if it walks, once more each if its
/// way is blocked and if it stands still. No other count changes.
pub proof fn law_everybody_is_counted_once(entries: Seq<CensusEntry>, e: CensusEntry)
    requires
        entries.len() < u32::MAX,
    ensures
        ({
            let (a, b) = (census_of(entries), census_of(entries.push(e)));
            let one = |yes: bool|
                if yes {
                    1int
                } else {
                    0int
                };
            let walks = e.goal@ is MoveTo;
            &&& b.idle == a.idle + one(e.goal@ is Idle)
            &&& b.moving == a.moving + one(walks)
            &&& b.resting == a.resting + one(e.goal@ is Resting || e.goal@ is SleepingGround)
            &&& b.interacting == a.interacting + one(e.goal@ is Interacting)
            &&& b.working == a.working + one(e.goal@ is Working)
            &&& b.crafting == a.crafting + one(e.goal@ is CraftingAtStation)
            &&& b.disabled == a.disabled + one(e.disabled)
            &&& b.movers_not_moving == a.movers_not_moving + one(walks && e.still)
            &&& b.movers_blocked == a.movers_blocked + one(walks && e.goal@->blocked)
        }),
        entries.len() == 0 ==> census_of(entries) == (Census {
            idle: 0,
            moving: 0,
            resting: 0,
            interacting: 0,
            working: 0,
            crafting: 0,
            disabled: 0,
            movers_blocked: 0,
            movers_not_moving: 0,
        }),
{
    assert(entries.push(e).drop_last() =~= entries);
    crate::npc::goals::law_census_counts_everybody(entries);
}

/// Sleep that takes no time at all eases its need at once, by all that it
/// restores.
pub proof fn law_sleep_of_no_length_eases_at_once(
    s: &Surroundings,
    before: (VillagerView, VillageView),
    after: (VillagerView, VillageView, Seq<Effect>, ArrivalResult),
    remaining_ms: u32,
    need: String,
    restores: u32,
    animation: Option<String>,
    other: Seq<char>,
)
    requires
        ticked(s, before, after),
        before.0.goal == (GoalView::SleepingGround {
            remaining_ms,
            need,
            restores,
            over_ms: 0,
            animation,
        }),
        other != need@,
    ensures
        ({
            let later = grown(before.0.needs, s.needs, s.dt as int);
            let level = level_of(later, need@);
            &&& level >= restores ==> level_of(after.0.needs, need@) == level - restores
            &&& level < restores ==> level_of(after.0.needs, need@) == 0
            &&& level_of(after.0.needs, other) == level_of(later, other)
        }),
        after.1 == before.1,
{
    let later = grown(before.0.needs, s.needs, s.dt as int);
    law_easing_lowers_one_need(later, need@, other, restores as int);
}

} // verus!
