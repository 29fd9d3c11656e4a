//! The state that the villagers' decisions are about.

use crate::cells::{min_of, IVec3};
use crate::items::ItemSlot;
use crate::npc::goals::{Goal, GoalView};
use crate::npc::holds::{
    BookingView, CraftBookings, HaulStore, HaulView, InteractionClaims, InteractionView,
};
use crate::npc::needs::{NeedLevel, Needs};
use crate::npc::NpcId;
use crate::ord_map::CellMap;
use crate::plan_claims::PlanClaims;
use crate::plans::Plans;
use crate::protocol::{Carrying, PlanKind, PlanView, PoseBits};
use vstd::prelude::*;

verus! {

// ---------- stations ----------

/// How much of an item a station still wants.
#[derive(Clone, Copy, Debug, PartialEq, Eq, Structural)]
pub struct ItemDemand {
    pub item: ItemSlot,
    pub count: u32,
}

/// A work station: what its orders still want, whether work is under way, and
/// whether a queued order has all that it needs to begin.
pub struct StationState {
    pub demand: Vec<ItemDemand>,
    pub active: bool,
    pub ready: bool,
}

pub struct StationView {
    pub demand: Seq<ItemDemand>,
    pub active: bool,
    pub ready: bool,
}

impl View for StationState {
    type V = StationView;

    open spec fn view(&self) -> StationView {
        StationView { demand: self.demand@, active: self.active, ready: self.ready }
    }
}

/// Every work station, by cell.
pub struct Stations {
    map: CellMap<StationState>,
}

impl View for Stations {
    type V = Map<IVec3, StationView>;

    closed spec fn view(&self) -> Map<IVec3, StationView> {
        Map::new(|c: IVec3| self.map@.contains_key(c), |c: IVec3| self.map@[c]@)
    }
}

/// Position of the first demand for the item, from `i` on.
pub open spec fn demand_index(demand: Seq<ItemDemand>, item: ItemSlot, i: int) -> Option<int>
    decreases demand.len() - i,
{
    if i >= demand.len() {
        None
    } else if demand[i].item == item {
        Some(i)
    } else {
        demand_index(demand, item, i + 1)
    }
}

/// How much of the item the station at a cell wants.
pub open spec fn wanted_at(stations: Map<IVec3, StationView>, cell: IVec3, item: ItemSlot) -> u32 {
    if stations.contains_key(cell) {
        match demand_index(stations[cell].demand, item, 0) {
            Some(k) => stations[cell].demand[k].count,
            None => 0,
        }
    } else {
        0
    }
}

/// The station at a cell wants something.
pub open spec fn wants_any(stations: Map<IVec3, StationView>, cell: IVec3) -> bool {
    stations.contains_key(cell) && exists|k: int|
        0 <= k < stations[cell].demand.len() && (#[trigger] stations[cell].demand[k]).count > 0
}

/// Work is under way at a cell.
pub open spec fn work_under_way(stations: Map<IVec3, StationView>, cell: IVec3) -> bool {
    stations.contains_key(cell) && stations[cell].active
}

/// Work is under way at a cell, or an order there can begin.
pub open spec fn work_remains(stations: Map<IVec3, StationView>, cell: IVec3) -> bool {
    stations.contains_key(cell) && (stations[cell].active || stations[cell].ready)
}

/// The stations after a delivery.
pub open spec fn delivered(
    stations: Map<IVec3, StationView>,
    cell: IVec3,
    item: ItemSlot,
    count: int,
) -> Map<IVec3, StationView> {
    if stations.contains_key(cell) {
        match demand_index(stations[cell].demand, item, 0) {
            Some(k) => stations.insert(
                cell,
                StationView {
                    demand: stations[cell].demand.update(
                        k,
                        ItemDemand {
                            item,
                            count: (stations[cell].demand[k].count - count) as u32,
                        },
                    ),
                    ..stations[cell]
                },
            ),
            None => stations,
        }
    } else {
        stations
    }
}

fn find_demand(demand: &Vec<ItemDemand>, item: ItemSlot) -> (r: Option<usize>)
    ensures
        match r {
            Some(k) => demand_index(demand@, item, 0) == Some(k as int) && k < demand@.len()
                && demand@[k as int].item == item,
            None => demand_index(demand@, item, 0) is None,
        },
{
    let mut i: usize = 0;
    while i < demand.len()
        invariant
            i <= demand@.len(),
            demand_index(demand@, item, 0) == demand_index(demand@, item, i as int),
        decreases demand@.len() - i,
    {
        if demand[i].item == item {
            return Some(i);
        }
        i = i + 1;
    }
    None
}

impl Stations {
    pub fn new() -> (r: Stations)
        ensures
            r@ == Map::<IVec3, StationView>::empty(),
    {
        let r = Stations { map: CellMap::new() };
        assert(r@ =~= Map::<IVec3, StationView>::empty());
        r
    }

    pub fn set(&mut self, cell: IVec3, state: StationState)
        ensures
            final(self)@ == old(self)@.insert(cell, state@),
    {
        let _ = self.map.insert(cell, state);
        assert(self@ =~= old(self)@.insert(cell, state@));
    }

    pub fn demand_for(&self, cell: IVec3, item: ItemSlot) -> (r: u32)
        ensures
            r == wanted_at(self@, cell, item),
    {
        match self.map.get(cell) {
            Some(s) => match find_demand(&s.demand, item) {
                Some(k) => s.demand[k].count,
                None => 0,
            },
            None => 0,
        }
    }

    pub fn has_demand(&self, cell: IVec3) -> (r: bool)
        ensures
            r == wants_any(self@, cell),
    {
        match self.map.get(cell) {
            Some(s) => {
                let mut i: usize = 0;
                while i < s.demand.len()
                    invariant
                        self@.contains_key(cell),
                        self@[cell] == s@,
                        i <= s.demand@.len(),
                        forall|k: int| 0 <= k < i ==> (#[trigger] s.demand@[k]).count == 0,
                    decreases s.demand@.len() - i,
                {
                    if s.demand[i].count > 0 {
                        assert(self@[cell].demand[i as int].count > 0);
                        return true;
                    }
                    i = i + 1;
                }
                false
            },
            None => false,
        }
    }

    pub fn is_active(&self, cell: IVec3) -> (r: bool)
        ensures
            r == work_under_way(self@, cell),
    {
        match self.map.get(cell) {
            Some(s) => s.active,
            None => false,
        }
    }

    pub fn has_work(&self, cell: IVec3) -> (r: bool)
        ensures
            r == work_remains(self@, cell),
    {
        match self.map.get(cell) {
            Some(s) => s.active || s.ready,
            None => false,
        }
    }

    /// Delivers something that the station wants.
    pub fn deposit(&mut self, cell: IVec3, item: ItemSlot, count: u32)
        requires
            count <= wanted_at(old(self)@, cell, item),
        ensures
            final(self)@ == delivered(old(self)@, cell, item, count as int),
    {
        if let Some(s) = self.map.remove(cell) {
            let mut state: StationState = s;
            if let Some(k) = find_demand(&state.demand, item) {
                let left: u32 = state.demand[k].count - count;
                state.demand.set(k, ItemDemand { item, count: left });
            }
            let _ = self.map.insert(cell, state);
        }
        assert(self@ =~= delivered(old(self)@, cell, item, count as int));
    }
}

// ---------- villagers ----------

/// One villager.
pub struct Villager {
    pub id: NpcId,
    pub entity: u64,
    pub kind: String,
    pub goal: Goal,
    /// The path that others are shown.
    pub path: Vec<IVec3>,
    pub needs: Needs,
    pub carrying: Carrying,
    pub tool: Option<ItemSlot>,
    pub seed: u64,
    pub home: Option<u32>,
    pub cooldown_ms: u32,
    /// The body is held in place by what it uses.
    pub locked: bool,
}

/// A villager as a value.
pub struct VillagerView {
    pub id: NpcId,
    pub entity: u64,
    pub kind: String,
    pub goal: GoalView,
    pub path: Seq<IVec3>,
    pub needs: Seq<NeedLevel>,
    pub carrying: Carrying,
    pub tool: Option<ItemSlot>,
    pub seed: u64,
    pub home: Option<u32>,
    pub cooldown_ms: u32,
    pub locked: bool,
}

impl View for Villager {
    type V = VillagerView;

    open spec fn view(&self) -> VillagerView {
        VillagerView {
            id: self.id,
            entity: self.entity,
            kind: self.kind,
            goal: self.goal@,
            path: self.path@,
            needs: self.needs@,
            carrying: self.carrying,
            tool: self.tool,
            seed: self.seed,
            home: self.home,
            cooldown_ms: self.cooldown_ms,
            locked: self.locked,
        }
    }
}

/// What all villagers share.
pub struct Village {
    pub plans: Plans,
    pub plan_claims: PlanClaims,
    pub things: InteractionClaims,
    pub haul: HaulStore,
    pub bookings: CraftBookings,
    pub stations: Stations,
}

pub struct VillageView {
    pub plans: Map<IVec3, PlanView>,
    pub plan_claims: Map<IVec3, NpcId>,
    pub things: InteractionView,
    pub haul: HaulView,
    pub bookings: BookingView,
    pub stations: Map<IVec3, StationView>,
}

impl View for Village {
    type V = VillageView;

    open spec fn view(&self) -> VillageView {
        VillageView {
            plans: self.plans@,
            plan_claims: self.plan_claims@,
            things: self.things@,
            haul: self.haul@,
            bookings: self.bookings@,
            stations: self.stations@,
        }
    }
}

/// What a decision asks of the world outside.
#[derive(Clone, Copy, Debug, PartialEq, Eq, Structural)]
pub enum Effect {
    /// Puts the body into a pose.
    SnapTo(PoseBits),
    /// Puts the body onto a cell.
    StandAt(IVec3),
    /// The body may be stuck in the block anchored here.
    Embedded(IVec3),
    /// Takes an item out of the world.
    TakeItem(u64),
    /// Takes a tool out of the world, and puts another in its place.
    SwapTool { taken: u64, dropped: Option<ItemSlot> },
    /// Tells everybody how a plan stands.
    AnnouncePlan(IVec3),
    /// Tells everybody how a station stands.
    AnnounceStation(IVec3),
    /// The work on a plan is done.
    WorkCompleted { cell: IVec3, kind: PlanKind },
}

impl Villager {
    /// Drops the goal and the path.
    pub fn go_idle(&mut self)
        ensures
            final(self)@ == idle_now(old(self)@),
    {
        self.goal = Goal::Idle;
        self.path = Vec::new();
        assert(self@.path =~= Seq::<IVec3>::empty());
    }

    /// Drops the goal and the path, and waits a while.
    pub fn park(&mut self, ms: u32)
        ensures
            final(self)@ == parked(old(self)@, ms),
    {
        self.goal = Goal::Resting { remaining_ms: ms };
        self.path = Vec::new();
        assert(self@.path =~= Seq::<IVec3>::empty());
    }
}

/// The villager's walk leads somewhere.
pub open spec fn path_sound(v: VillagerView) -> bool {
    v.goal matches GoalView::MoveTo { path, .. } ==> path.len() > 0
}

/// The villager without a goal.
pub open spec fn idle_now(v: VillagerView) -> VillagerView {
    VillagerView { goal: GoalView::Idle, path: Seq::empty(), ..v }
}

/// The villager waiting a while.
pub open spec fn parked(v: VillagerView, ms: u32) -> VillagerView {
    VillagerView { goal: GoalView::Resting { remaining_ms: ms }, path: Seq::empty(), ..v }
}

/// What is left in the hands after some of it was given away.
pub open spec fn after_giving(c: Carrying, count: int) -> Carrying {
    Carrying {
        item: if c.count == count {
            None
        } else {
            c.item
        },
        count: (c.count - count) as u32,
    }
}

/// Gives away some of what is in the hands.
pub fn give_away(c: &mut Carrying, count: u32)
    requires
        count <= old(c).count,
    ensures
        *final(c) == after_giving(*old(c), count as int),
{
    c.count = c.count - count;
    if c.count == 0 {
        c.item = None;
    }
}

/// A copy of a path, to show to others.
pub fn copy_path(path: &Vec<IVec3>) -> (r: Vec<IVec3>)
    ensures
        r@ == path@,
{
    let mut out: Vec<IVec3> = Vec::new();
    let mut i: usize = 0;
    while i < path.len()
        invariant
            i <= path@.len(),
            out@ == path@.take(i as int),
        decreases path@.len() - i,
    {
        out.push(path[i]);
        assert(out@ =~= path@.take(i + 1));
        i = i + 1;
    }
    assert(out@ =~= path@);
    out
}

/// A delivery to a station never exceeds what it wants.
pub proof fn law_delivery_meets_demand(
    stations: Map<IVec3, StationView>,
    cell: IVec3,
    item: ItemSlot,
    carried: int,
)
    requires
        carried >= 0,
    ensures
        ({
            let given = min_of(wanted_at(stations, cell, item) as int, carried);
            let after = delivered(stations, cell, item, given);
            wanted_at(after, cell, item) == wanted_at(stations, cell, item) - given && given
                <= carried
        }),
{
    if stations.contains_key(cell) {
        let demand = stations[cell].demand;
        lemma_demand_index(demand, item, 0);
        if let Some(k) = demand_index(demand, item, 0) {
            let given = min_of(wanted_at(stations, cell, item) as int, carried);
            let after = delivered(stations, cell, item, given)[cell].demand;
            lemma_demand_stays(demand, after, item, 0);
        }
    }
}

proof fn lemma_demand_index(demand: Seq<ItemDemand>, item: ItemSlot, i: int)
    requires
        0 <= i,
    ensures
        demand_index(demand, item, i) matches Some(k) ==> i <= k < demand.len() && demand[k].item
            == item,
    decreases demand.len() - i,
{
    if i < demand.len() && demand[i].item != item {
        lemma_demand_index(demand, item, i + 1);
    }
}

proof fn lemma_demand_stays(a: Seq<ItemDemand>, b: Seq<ItemDemand>, item: ItemSlot, i: int)
    requires
        a.len() == b.len(),
        forall|k: int| 0 <= k < a.len() ==> (#[trigger] a[k]).item == b[k].item,
        0 <= i,
    ensures
        demand_index(a, item, i) == demand_index(b, item, i),
    decreases a.len() - i,
{
    if i < a.len() {
        assert(a[i].item == b[i].item);
        lemma_demand_stays(a, b, item, i + 1);
    }
}

/// A delivery leaves every other want as it was.
pub proof fn lemma_other_wants_stay(
    stations: Map<IVec3, StationView>,
    cell: IVec3,
    item: ItemSlot,
    given: int,
    at: IVec3,
    other: ItemSlot,
)
    requires
        at != cell || other != item,
    ensures
        wanted_at(delivered(stations, cell, item, given), at, other) == wanted_at(
            stations,
            at,
            other,
        ),
{
    if stations.contains_key(cell) {
        let demand = stations[cell].demand;
        lemma_demand_index(demand, item, 0);
        lemma_demand_index(demand, other, 0);
        if let Some(k) = demand_index(demand, item, 0) {
            let after = delivered(stations, cell, item, given)[cell].demand;
            lemma_demand_stays(demand, after, other, 0);
        }
    }
}

/// What a station wants of an item is what its first entry for the item says;
/// a station without such an entry wants none.
pub proof fn law_wants_are_those_listed(
    stations: Map<IVec3, StationView>,
    cell: IVec3,
    item: ItemSlot,
    k: int,
)
    requires
        stations.contains_key(cell),
    ensures
        ({
            let demand = stations[cell].demand;
            &&& (0 <= k < demand.len() && demand[k].item == item && forall|j: int|
                0 <= j < k ==> (#[trigger] demand[j]).item != item) ==> wanted_at(
                stations,
                cell,
                item,
            ) == demand[k].count
            &&& (forall|j: int| 0 <= j < demand.len() ==> (#[trigger] demand[j]).item != item)
                ==> wanted_at(stations, cell, item) == 0
        }),
{
    lemma_first_demand(stations[cell].demand, item, 0, k);
}

proof fn lemma_first_demand(demand: Seq<ItemDemand>, item: ItemSlot, i: int, k: int)
    requires
        0 <= i,
    ensures
        (i <= k < demand.len() && demand[k].item == item && forall|j: int|
            i <= j < k ==> (#[trigger] demand[j]).item != item) ==> demand_index(demand, item, i)
            == Some(k),
        (forall|j: int| i <= j < demand.len() ==> (#[trigger] demand[j]).item != item)
            ==> demand_index(demand, item, i) is None,
    decreases demand.len() - i,
{
    if i < demand.len() && demand[i].item != item {
        lemma_first_demand(demand, item, i + 1, k);
    }
}

} // verus!
