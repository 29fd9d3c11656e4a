//! A villager's tick as a whole: its needs grow, a pressing one may interrupt
//! it, and what it is doing goes on or comes to an end.

use crate::cells::IVec3;
use crate::items::ItemSlot;
use crate::npc::arrive::{
    abandon, after_use, after_work, arrival, arrive, arrived, finish_crafting, finish_interaction,
    finish_rest, finish_work, walk_given_up, work_effects, ArrivalResult,
};
use crate::npc::errands::{errand_in_bounds, UNREACHABLE_RETRY_MS};
use crate::npc::goals::{plans_let_go, things_let_go, GoalView};
use crate::npc::holds::booking_released;
use crate::npc::nearby::EntryKind;
use crate::npc::needs::grown;
use crate::npc::tick::{
    advance_goal, advances, after_interrupt, body_foot, can_leave, interrupted, leave_effect,
    preempt_check, used_cell, Body, Progress,
};
use crate::npc::village::{
    idle_now, path_sound, Effect, Village, VillageView, Villager, VillagerView,
};
use crate::npc::walk::WorldWalk;
use crate::npc::NpcId;
use crate::npc_registry::NeedRegistry;
use crate::ord_map::{CellMap, OrdMap};
use vstd::prelude::*;

verus! {

/// What surrounds a villager during a tick.
pub struct Surroundings<'a> {
    pub walk: &'a WorldWalk<'a>,
    pub entries: &'a CellMap<EntryKind>,
    /// Items that lie about.
    pub ground: &'a OrdMap<u64, ItemSlot>,
    pub needs: &'a NeedRegistry,
    pub body: Body,
    /// How much the villager can carry.
    pub cap: u32,
    /// The settlement around what the villager uses.
    pub cluster: Option<u32>,
    /// Blocks changed near the villager's path.
    pub dirty: bool,
    pub now: u64,
    pub dt: u32,
}

/// What a tick comes to: what it asks of the world, what is left to do, and
/// whether a need interrupted the villager.
pub struct TickReport {
    pub effects: Vec<Effect>,
    pub result: ArrivalResult,
    pub interrupted: bool,
}

pub open spec fn leave_effects(s: &Surroundings, v: VillagerView) -> Seq<Effect> {
    if v.locked {
        seq![leave_effect(s.walk, s.entries@, used_cell(v))]
    } else {
        Seq::empty()
    }
}

/// The goal went on or came to an end, as it stands.
pub open spec fn settled(
    s: &Surroundings,
    v: VillagerView,
    village: VillageView,
    progress: Progress,
    after: (VillagerView, VillageView, Seq<Effect>, ArrivalResult),
) -> bool {
    match progress {
        Progress::Underway => after == (v, village, Seq::<Effect>::empty(), ArrivalResult::GoOn),
        Progress::Arrived => arrived(
            s.walk,
            body_foot(s.walk, s.body),
            s.cap,
            s.now,
            arrival(s.walk, v, village, s.cap, s.ground@),
            after,
        ),
        Progress::Abandoned => after == (
            idle_now(v),
            walk_given_up(v, village, s.now),
            Seq::<Effect>::empty(),
            ArrivalResult::GoOn,
        ),
        Progress::Rested => after == (
            idle_now(v),
            village,
            Seq::<Effect>::empty(),
            ArrivalResult::GoOn,
        ),
        Progress::Interacted => after == (
            after_use(v, s.cluster),
            VillageView { things: things_let_go(village.things, v.goal, v.id), ..village },
            leave_effects(s, v),
            ArrivalResult::GoOn,
        ),
        Progress::Worked => after == (
            after_work(v),
            VillageView { plan_claims: plans_let_go(village.plan_claims, v.goal, v.id), ..village },
            work_effects(v, village, s.walk, s.entries@),
            ArrivalResult::GoOn,
        ),
        Progress::CraftEnded => after == (
            VillagerView { goal: GoalView::Idle, ..v },
            VillageView {
                bookings: booking_released(village.bookings, v.id, v.entity),
                ..village
            },
            Seq::<Effect>::empty(),
            ArrivalResult::GoOn,
        ),
    }
}

/// The villager after its needs grew.
pub open spec fn needier(s: &Surroundings, v: VillagerView) -> VillagerView {
    VillagerView { needs: grown(v.needs, s.needs, s.dt as int), ..v }
}

/// The tick went by way of this state of the villager and its goal.
pub open spec fn ticked_by(
    s: &Surroundings,
    before: (VillagerView, VillageView),
    after: (VillagerView, VillageView, Seq<Effect>, ArrivalResult),
    mid: VillagerView,
    progress: Progress,
) -> bool {
    let start = after_interrupt(needier(s, before.0), before.1, s.needs, s.dt);
    &&& advances(s.walk, s.body, s.dt, s.dirty, start, (mid, progress))
    &&& settled(s, mid, start.1, progress, after)
}

/// A tick went by.
pub open spec fn ticked(
    s: &Surroundings,
    before: (VillagerView, VillageView),
    after: (VillagerView, VillageView, Seq<Effect>, ArrivalResult),
) -> bool {
    exists|mid: VillagerView, progress: Progress| #[trigger]
        ticked_by(s, before, after, mid, progress)
}

/// A body that is held by a block can leave it.
pub open spec fn body_can_leave(s: &Surroundings, v: VillagerView) -> bool {
    v.locked ==> match v.goal {
        GoalView::Interacting { target_cell, .. } => can_leave(s.walk, s.entries@, target_cell),
        GoalView::Working { target_cell, .. } => can_leave(s.walk, s.entries@, target_cell),
        _ => true,
    }
}

/// Lets a tick go by for a villager. What is left is to find something new for
/// an idle one.
pub fn run_goal(v: &mut Villager, village: &mut Village, s: &Surroundings) -> (r: TickReport)
    requires
        path_sound(old(v)@),
        errand_in_bounds(old(village)@, old(v).id.0),
        body_can_leave(s, old(v)@),
        s.now <= u64::MAX - UNREACHABLE_RETRY_MS,
    ensures
        r.interrupted == interrupted(needier(s, old(v)@), s.needs, s.dt),
        ticked(
            s,
            (old(v)@, old(village)@),
            (final(v)@, final(village)@, r.effects@, r.result),
        ),
        path_sound(final(v)@),
        errand_in_bounds(final(village)@, final(v).id.0),
{
    let ghost before = (v@, village@);
    v.needs.advance(s.needs, s.dt);
    assert(v@ == needier(s, before.0));
    let stopped: bool = preempt_check(v, village, s.walk, s.entries, s.needs, s.dt);
    let progress: Progress = advance_goal(v, village, s.walk, s.body, s.dt, s.dirty);
    let ghost mid = v@;
    let mut effects: Vec<Effect> = Vec::new();
    assert(effects@ =~= Seq::<Effect>::empty());
    let mut result: ArrivalResult = ArrivalResult::GoOn;
    match progress {
        Progress::Underway => {},
        Progress::Arrived => {
            let (asked, next) = arrive(v, village, s.walk, s.body, s.cap, s.ground, s.now);
            effects = asked;
            result = next;
        },
        Progress::Abandoned => {
            abandon(v, village, s.now);
        },
        Progress::Rested => {
            finish_rest(v);
        },
        Progress::Interacted => {
            if let Some(e) = finish_interaction(v, village, s.walk, s.entries, s.cluster) {
                effects.push(e);
            }
            assert(effects@ =~= leave_effects(s, mid));
        },
        Progress::Worked => {
            effects = finish_work(v, village, s.walk, s.entries);
        },
        Progress::CraftEnded => {
            finish_crafting(v, village);
        },
    }
    assert(ticked_by(s, before, (v@, village@, effects@, result), mid, progress));
    TickReport { effects, result, interrupted: stopped }
}

/// Whatever happens to a villager in a tick, what other villagers hold stays
/// theirs: plans, things and errands.
pub proof fn law_ticks_respect_others(
    s: &Surroundings,
    before: (VillagerView, VillageView),
    after: (VillagerView, VillageView, Seq<Effect>, ArrivalResult),
    other: NpcId,
    cell: IVec3,
)
    requires
        ticked(s, before, after),
        other != before.0.id,
    ensures
        before.1.plan_claims.contains_key(cell) && before.1.plan_claims[cell] == other
            ==> after.1.plan_claims.contains_key(cell) && after.1.plan_claims[cell] == other,
        before.1.things.claims.contains_key(cell) && before.1.things.claims[cell] == other
            ==> after.1.things.claims.contains_key(cell) && after.1.things.claims[cell] == other,
        before.1.haul.assignments.contains_key(other.0) ==> after.1.haul.assignments.contains_key(
            other.0,
        ) && after.1.haul.assignments[other.0] == before.1.haul.assignments[other.0],
        after.0.id == before.0.id,
{
}

} // verus!
