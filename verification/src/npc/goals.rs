//! What a villager is up to.

use crate::blocks::NeedRestore;
use crate::cells::IVec3;
use crate::items::ItemSlot;
use crate::npc::holds::{haul_released, HaulStore, HaulView, InteractionClaims, InteractionView};
use crate::npc::NpcId;
use crate::npc_registry::NpcKindRegistry;
use crate::plan_claims::{released, PlanClaims};
use crate::protocol::{PlanKind, PoseBits};
use crate::strings::copy_text;
use vstd::prelude::*;

verus! {

/// What a villager does when it gets where it is going.
#[allow(inconsistent_fields)]
pub enum ArrivalAction {
    Nothing,
    Interact {
        need_restore: Option<NeedRestore>,
        duration_ms: u32,
        target_cell: IVec3,
        anchor_cell: IVec3,
        exclusive: bool,
        animation: Option<String>,
    },
    Work {
        duration_ms: u32,
        target_cell: IVec3,
        plan_kind: PlanKind,
        need_restore: Option<NeedRestore>,
    },
    PickupForPlan { item_entity: u64, item_slot: ItemSlot, plan_cell: IVec3 },
    DepositAtPlan { plan_cell: IVec3 },
    PickupTool { item_entity: u64, item_slot: ItemSlot },
    WorkStation { station_cell: IVec3 },
    DepositAtStation { station_cell: IVec3 },
}

pub fn copy_restore(n: &Option<NeedRestore>) -> (r: Option<NeedRestore>)
    ensures
        r == *n,
{
    match n {
        Some(x) => Some(x.copy()),
        None => None,
    }
}

impl ArrivalAction {
    pub fn copy(&self) -> (r: ArrivalAction)
        ensures
            r == *self,
    {
        match self {
            ArrivalAction::Nothing => ArrivalAction::Nothing,
            ArrivalAction::Interact {
                need_restore,
                duration_ms,
                target_cell,
                anchor_cell,
                exclusive,
                animation,
            } => ArrivalAction::Interact {
                need_restore: copy_restore(need_restore),
                duration_ms: *duration_ms,
                target_cell: *target_cell,
                anchor_cell: *anchor_cell,
                exclusive: *exclusive,
                animation: copy_text(animation),
            },
            ArrivalAction::Work { duration_ms, target_cell, plan_kind, need_restore } =>
            ArrivalAction::Work {
                duration_ms: *duration_ms,
                target_cell: *target_cell,
                plan_kind: *plan_kind,
                need_restore: copy_restore(need_restore),
            },
            ArrivalAction::PickupForPlan { item_entity, item_slot, plan_cell } =>
            ArrivalAction::PickupForPlan {
                item_entity: *item_entity,
                item_slot: *item_slot,
                plan_cell: *plan_cell,
            },
            ArrivalAction::DepositAtPlan { plan_cell } => ArrivalAction::DepositAtPlan {
                plan_cell: *plan_cell,
            },
            ArrivalAction::PickupTool { item_entity, item_slot } => ArrivalAction::PickupTool {
                item_entity: *item_entity,
                item_slot: *item_slot,
            },
            ArrivalAction::WorkStation { station_cell } => ArrivalAction::WorkStation {
                station_cell: *station_cell,
            },
            ArrivalAction::DepositAtStation { station_cell } => ArrivalAction::DepositAtStation {
                station_cell: *station_cell,
            },
        }
    }
}

/// What a villager is doing. Times are what is left, in milliseconds.
#[allow(inconsistent_fields)]
pub enum Goal {
    Idle,
    MoveTo {
        path: Vec<IVec3>,
        edge: usize,
        blocked: bool,
        deadline_ms: u32,
        on_arrive: ArrivalAction,
        snap: Option<PoseBits>,
    },
    Resting { remaining_ms: u32 },
    /// Eases a need by `restores` over `over_ms`.
    SleepingGround {
        remaining_ms: u32,
        need: String,
        restores: u32,
        over_ms: u32,
        animation: Option<String>,
    },
    Interacting {
        remaining_ms: u32,
        need_restore: Option<NeedRestore>,
        target_cell: IVec3,
        anchor_cell: IVec3,
        exclusive: bool,
        animation: Option<String>,
    },
    Working {
        remaining_ms: u32,
        target_cell: IVec3,
        plan_kind: PlanKind,
        need_restore: Option<NeedRestore>,
    },
    CraftingAtStation { station_cell: IVec3 },
}

/// A goal as a value.
#[allow(inconsistent_fields)]
pub enum GoalView {
    Idle,
    MoveTo {
        path: Seq<IVec3>,
        edge: usize,
        blocked: bool,
        deadline_ms: u32,
        on_arrive: ArrivalAction,
        snap: Option<PoseBits>,
    },
    Resting { remaining_ms: u32 },
    SleepingGround {
        remaining_ms: u32,
        need: String,
        restores: u32,
        over_ms: u32,
        animation: Option<String>,
    },
    Interacting {
        remaining_ms: u32,
        need_restore: Option<NeedRestore>,
        target_cell: IVec3,
        anchor_cell: IVec3,
        exclusive: bool,
        animation: Option<String>,
    },
    Working {
        remaining_ms: u32,
        target_cell: IVec3,
        plan_kind: PlanKind,
        need_restore: Option<NeedRestore>,
    },
    CraftingAtStation { station_cell: IVec3 },
}

impl View for Goal {
    type V = GoalView;

    open spec fn view(&self) -> GoalView {
        match self {
            Goal::Idle => GoalView::Idle,
            Goal::MoveTo { path, edge, blocked, deadline_ms, on_arrive, snap } => GoalView::MoveTo {
                path: path@,
                edge: *edge,
                blocked: *blocked,
                deadline_ms: *deadline_ms,
                on_arrive: *on_arrive,
                snap: *snap,
            },
            Goal::Resting { remaining_ms } => GoalView::Resting { remaining_ms: *remaining_ms },
            Goal::SleepingGround { remaining_ms, need, restores, over_ms, animation } =>
            GoalView::SleepingGround {
                remaining_ms: *remaining_ms,
                need: *need,
                restores: *restores,
                over_ms: *over_ms,
                animation: *animation,
            },
            Goal::Interacting {
                remaining_ms,
                need_restore,
                target_cell,
                anchor_cell,
                exclusive,
                animation,
            } => GoalView::Interacting {
                remaining_ms: *remaining_ms,
                need_restore: *need_restore,
                target_cell: *target_cell,
                anchor_cell: *anchor_cell,
                exclusive: *exclusive,
                animation: *animation,
            },
            Goal::Working { remaining_ms, target_cell, plan_kind, need_restore } =>
            GoalView::Working {
                remaining_ms: *remaining_ms,
                target_cell: *target_cell,
                plan_kind: *plan_kind,
                need_restore: *need_restore,
            },
            Goal::CraftingAtStation { station_cell } => GoalView::CraftingAtStation {
                station_cell: *station_cell,
            },
        }
    }
}

/// A fresh walk.
pub open spec fn walk_goal(
    path: Seq<IVec3>,
    deadline_ms: u32,
    on_arrive: ArrivalAction,
    snap: Option<PoseBits>,
) -> GoalView {
    GoalView::MoveTo { path, edge: 0, blocked: false, deadline_ms, on_arrive, snap }
}

impl Goal {
    pub fn move_to(
        path: Vec<IVec3>,
        deadline_ms: u32,
        on_arrive: ArrivalAction,
        snap: Option<PoseBits>,
    ) -> (r: Goal)
        ensures
            r@ == walk_goal(path@, deadline_ms, on_arrive, snap),
    {
        Goal::MoveTo { path, edge: 0, blocked: false, deadline_ms, on_arrive, snap }
    }
}

// ---------- giving up a goal ----------

/// A pressing need may interrupt work and errands, but neither rest nor what
/// eases a need.
pub open spec fn interruptible(goal: GoalView) -> bool {
    match goal {
        GoalView::Working { .. } => true,
        GoalView::CraftingAtStation { .. } => true,
        GoalView::MoveTo { on_arrive, .. } => !(on_arrive is Nothing) && !(on_arrive is Interact),
        _ => false,
    }
}

/// May a pressing need interrupt this goal?
pub fn preempt_eligible(goal: &Goal) -> (r: bool)
    ensures
        r == interruptible(goal@),
{
    match goal {
        Goal::Working { .. } => true,
        Goal::CraftingAtStation { .. } => true,
        Goal::MoveTo { on_arrive, .. } => match on_arrive {
            ArrivalAction::Nothing => false,
            ArrivalAction::Interact { .. } => false,
            _ => true,
        },
        _ => false,
    }
}

/// The thing to use that a goal holds for itself alone.
pub open spec fn held_thing(goal: GoalView) -> Option<IVec3> {
    match goal {
        GoalView::MoveTo {
            on_arrive: ArrivalAction::Interact { anchor_cell, exclusive, .. },
            ..
        } => if exclusive {
            Some(anchor_cell)
        } else {
            None
        },
        GoalView::Interacting { anchor_cell, exclusive, .. } => if exclusive {
            Some(anchor_cell)
        } else {
            None
        },
        _ => None,
    }
}

/// The plan that a goal holds.
pub open spec fn held_plan(goal: GoalView) -> Option<IVec3> {
    match goal {
        GoalView::MoveTo { on_arrive: ArrivalAction::Work { target_cell, .. }, .. } => Some(
            target_cell,
        ),
        GoalView::Working { target_cell, .. } => Some(target_cell),
        _ => None,
    }
}

/// The goal is a leg of an errand.
pub open spec fn on_errand(goal: GoalView) -> bool {
    goal matches GoalView::MoveTo { on_arrive, .. } && (on_arrive is PickupForPlan
        || on_arrive is DepositAtPlan || on_arrive is DepositAtStation || on_arrive is PickupTool)
}

/// The station that a goal is about.
pub open spec fn held_station(goal: GoalView) -> Option<IVec3> {
    match goal {
        GoalView::MoveTo { on_arrive: ArrivalAction::WorkStation { station_cell }, .. } => Some(
            station_cell,
        ),
        GoalView::CraftingAtStation { station_cell } => Some(station_cell),
        _ => None,
    }
}

/// The plan claims once the goal is given up.
pub open spec fn plans_let_go(claims: Map<IVec3, NpcId>, goal: GoalView, npc: NpcId) -> Map<
    IVec3,
    NpcId,
> {
    match held_plan(goal) {
        Some(c) => released(claims, c, npc),
        None => claims,
    }
}

/// The claims on things to use once the goal is given up.
pub open spec fn things_let_go(v: InteractionView, goal: GoalView, npc: NpcId) -> InteractionView {
    match held_thing(goal) {
        Some(c) => InteractionView { claims: released(v.claims, c, npc), ..v },
        None => v,
    }
}

/// The errands once the goal is given up.
pub open spec fn errands_let_go(h: HaulView, goal: GoalView, npc: NpcId) -> HaulView {
    if on_errand(goal) {
        haul_released(h, npc)
    } else {
        h
    }
}

/// Lets go of everything that a goal holds, apart from a work station.
pub fn preempt_release_holds(
    npc: NpcId,
    goal: &Goal,
    plan_claims: &mut PlanClaims,
    interaction_claims: &mut InteractionClaims,
    haul: &mut HaulStore,
)
    ensures
        final(plan_claims)@ == plans_let_go(old(plan_claims)@, goal@, npc),
        final(interaction_claims)@ == things_let_go(old(interaction_claims)@, goal@, npc),
        final(haul)@ == errands_let_go(old(haul)@, goal@, npc),
{
    match goal {
        Goal::MoveTo { on_arrive, .. } => match on_arrive {
            ArrivalAction::Interact { anchor_cell, exclusive, .. } => {
                if *exclusive {
                    interaction_claims.release(*anchor_cell, npc);
                }
            },
            ArrivalAction::Work { target_cell, .. } => {
                plan_claims.release(*target_cell, npc);
            },
            ArrivalAction::PickupForPlan { .. } => {
                haul.release_for_npc(npc);
            },
            ArrivalAction::DepositAtPlan { .. } => {
                haul.release_for_npc(npc);
            },
            ArrivalAction::DepositAtStation { .. } => {
                haul.release_for_npc(npc);
            },
            ArrivalAction::PickupTool { .. } => {
                haul.release_for_npc(npc);
            },
            _ => {},
        },
        Goal::Interacting { anchor_cell, exclusive, .. } => {
            if *exclusive {
                interaction_claims.release(*anchor_cell, npc);
            }
        },
        Goal::Working { target_cell, .. } => {
            plan_claims.release(*target_cell, npc);
        },
        _ => {},
    }
}

/// Nobody is kept from a plan by a goal that was given up, and nobody else's
/// claim is touched.
pub proof fn law_given_up_plans_are_free(
    claims: Map<IVec3, NpcId>,
    goal: GoalView,
    npc: NpcId,
    other: NpcId,
    cell: IVec3,
)
    requires
        held_plan(goal) == Some(cell),
        crate::plan_claims::open_to(claims, cell, npc),
    ensures
        crate::plan_claims::open_to(plans_let_go(claims, goal, npc), cell, other),
        forall|c: IVec3|
            c != cell ==> (#[trigger] plans_let_go(claims, goal, npc).contains_key(c)
                == claims.contains_key(c)),
{
}

// ---------- what others see ----------

/// The animation that a goal plays instead of the usual ones.
pub open spec fn shown_animation(goal: GoalView, kinds: &NpcKindRegistry, kind: Seq<char>) -> Option<
    String,
> {
    match goal {
        GoalView::Interacting { animation, .. } => animation,
        GoalView::SleepingGround { animation, .. } => animation,
        GoalView::Working { .. } => match kinds.find(kind) {
            Some(k) => Some(k.animations.work),
            None => None,
        },
        _ => None,
    }
}

/// The animation that a villager plays instead of the usual ones.
pub fn anim_override(goal: &Goal, kinds: &NpcKindRegistry, kind: &String) -> (r: Option<String>)
    ensures
        r == shown_animation(goal@, kinds, kind@),
{
    match goal {
        Goal::Interacting { animation, .. } => copy_text(animation),
        Goal::SleepingGround { animation, .. } => copy_text(animation),
        Goal::Working { .. } => match kinds.get(kind) {
            Some(k) => Some(k.animations.work.clone()),
            None => None,
        },
        _ => None,
    }
}

/// The cell that a villager turns to.
pub fn face_target(goal: &Goal, locked: bool) -> (r: Option<IVec3>)
    ensures
        r == match goal@ {
            GoalView::Working { target_cell, .. } => Some(target_cell),
            GoalView::Interacting { target_cell, .. } => if locked {
                None
            } else {
                Some(target_cell)
            },
            GoalView::CraftingAtStation { station_cell } => Some(station_cell),
            _ => None,
        },
{
    match goal {
        Goal::Working { target_cell, .. } => Some(*target_cell),
        Goal::Interacting { target_cell, .. } => if locked {
            None
        } else {
            Some(*target_cell)
        },
        Goal::CraftingAtStation { station_cell } => Some(*station_cell),
        _ => None,
    }
}

/// How many villagers do what.
#[derive(Clone, Copy, Debug, PartialEq, Eq, Structural)]
pub struct Census {
    pub idle: u32,
    pub moving: u32,
    pub resting: u32,
    pub interacting: u32,
    pub working: u32,
    pub crafting: u32,
    pub disabled: u32,
    pub movers_blocked: u32,
    pub movers_not_moving: u32,
}

/// What the census looks at.
pub struct CensusEntry {
    pub goal: Goal,
    pub disabled: bool,
    /// Has hardly moved since the last census.
    pub still: bool,
}

/// The census with one more villager.
pub open spec fn counted(c: Census, e: CensusEntry) -> Census {
    let d = Census {
        disabled: if e.disabled {
            (c.disabled + 1) as u32
        } else {
            c.disabled
        },
        ..c
    };
    match e.goal@ {
        GoalView::Idle => Census { idle: (d.idle + 1) as u32, ..d },
        GoalView::MoveTo { blocked, .. } => Census {
            moving: (d.moving + 1) as u32,
            movers_blocked: if blocked {
                (d.movers_blocked + 1) as u32
            } else {
                d.movers_blocked
            },
            movers_not_moving: if e.still {
                (d.movers_not_moving + 1) as u32
            } else {
                d.movers_not_moving
            },
            ..d
        },
        GoalView::Resting { .. } => Census { resting: (d.resting + 1) as u32, ..d },
        GoalView::SleepingGround { .. } => Census { resting: (d.resting + 1) as u32, ..d },
        GoalView::Interacting { .. } => Census { interacting: (d.interacting + 1) as u32, ..d },
        GoalView::Working { .. } => Census { working: (d.working + 1) as u32, ..d },
        GoalView::CraftingAtStation { .. } => Census { crafting: (d.crafting + 1) as u32, ..d },
    }
}

pub open spec fn nobody() -> Census {
    Census {
        idle: 0,
        moving: 0,
        resting: 0,
        interacting: 0,
        working: 0,
        crafting: 0,
        disabled: 0,
        movers_blocked: 0,
        movers_not_moving: 0,
    }
}

pub open spec fn census_of(entries: Seq<CensusEntry>) -> Census
    decreases entries.len(),
{
    if entries.len() == 0 {
        nobody()
    } else {
        counted(census_of(entries.drop_last()), entries.last())
    }
}

/// Everybody is counted once.
pub proof fn law_census_counts_everybody(entries: Seq<CensusEntry>)
    requires
        entries.len() <= u32::MAX,
    ensures
        ({
            let c = census_of(entries);
            &&& c.idle + c.moving + c.resting + c.interacting + c.working + c.crafting
                == entries.len()
            &&& c.disabled <= entries.len()
            &&& c.movers_blocked <= c.moving
            &&& c.movers_not_moving <= c.moving
        }),
    decreases entries.len(),
{
    if entries.len() > 0 {
        law_census_counts_everybody(entries.drop_last());
    }
}

/// Counts who does what.
pub fn npc_census(entries: &Vec<CensusEntry>) -> (r: Census)
    requires
        entries@.len() <= u32::MAX,
    ensures
        r == census_of(entries@),
{
    let mut c: Census = Census {
        idle: 0,
        moving: 0,
        resting: 0,
        interacting: 0,
        working: 0,
        crafting: 0,
        disabled: 0,
        movers_blocked: 0,
        movers_not_moving: 0,
    };
    let mut i: usize = 0;
    assert(entries@.take(0) =~= Seq::empty());
    while i < entries.len()
        invariant
            entries@.len() <= u32::MAX,
            i <= entries@.len(),
            c == census_of(entries@.take(i as int)),
        decreases entries@.len() - i,
    {
        proof {
            law_census_counts_everybody(entries@.take(i as int));
            assert(entries@.take(i + 1).drop_last() =~= entries@.take(i as int));
        }
        let e: &CensusEntry = &entries[i];
        if e.disabled {
            c.disabled = c.disabled + 1;
        }
        match &e.goal {
            Goal::Idle => {
                c.idle = c.idle + 1;
            },
            Goal::MoveTo { blocked, .. } => {
                c.moving = c.moving + 1;
                if *blocked {
                    c.movers_blocked = c.movers_blocked + 1;
                }
                if e.still {
                    c.movers_not_moving = c.movers_not_moving + 1;
                }
            },
            Goal::Resting { .. } => {
                c.resting = c.resting + 1;
            },
            Goal::SleepingGround { .. } => {
                c.resting = c.resting + 1;
            },
            Goal::Interacting { .. } => {
                c.interacting = c.interacting + 1;
            },
            Goal::Working { .. } => {
                c.working = c.working + 1;
            },
            Goal::CraftingAtStation { .. } => {
                c.crafting = c.crafting + 1;
            },
        }
        i = i + 1;
    }
    assert(entries@.take(entries@.len() as int) =~= entries@);
    c
}

} // verus!
