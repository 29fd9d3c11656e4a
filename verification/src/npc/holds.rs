//! What villagers hold while they pursue a goal: places, items, errands and
//! work stations.

use crate::cells::IVec3;
use crate::items::ItemSlot;
use crate::npc::NpcId;
use crate::ord_map::{CellMap, OrdMap};
use crate::plan_claims::{claims_without, keep_others, open_to, released, PlanClaims};
use vstd::prelude::*;

verus! {

/// A place that could not be reached is left alone until the noted time.
pub open spec fn still_avoided(memos: Map<IVec3, u64>, cell: IVec3, now: u64) -> bool {
    memos.contains_key(cell) && memos[cell] > now
}

// ---------- things to use ----------

/// Who uses what, and what could not be reached lately.
pub struct InteractionClaims {
    pub claims: PlanClaims,
    memos: CellMap<u64>,
}

pub struct InteractionView {
    pub claims: Map<IVec3, NpcId>,
    pub memos: Map<IVec3, u64>,
}

impl View for InteractionClaims {
    type V = InteractionView;

    closed spec fn view(&self) -> InteractionView {
        InteractionView { claims: self.claims@, memos: self.memos@ }
    }
}

impl InteractionClaims {
    pub fn new() -> (r: InteractionClaims)
        ensures
            r@ == (InteractionView { claims: Map::empty(), memos: Map::empty() }),
    {
        InteractionClaims { claims: PlanClaims::new(), memos: CellMap::new() }
    }

    pub fn try_claim(&mut self, anchor: IVec3, npc: NpcId) -> (r: bool)
        ensures
            r == open_to(old(self)@.claims, anchor, npc),
            final(self)@ == (InteractionView {
                claims: crate::plan_claims::claimed(old(self)@.claims, anchor, npc),
                ..old(self)@
            }),
    {
        self.claims.try_claim(anchor, npc)
    }

    pub fn release(&mut self, anchor: IVec3, npc: NpcId)
        ensures
            final(self)@ == (InteractionView {
                claims: released(old(self)@.claims, anchor, npc),
                ..old(self)@
            }),
    {
        self.claims.release(anchor, npc);
    }

    pub fn release_all_for(&mut self, npc: NpcId)
        ensures
            final(self)@ == (InteractionView {
                claims: claims_without(old(self)@.claims, npc),
                ..old(self)@
            }),
    {
        self.claims.release_all_for(npc);
    }

    pub fn is_taken_by_other(&self, anchor: IVec3, npc: NpcId) -> (r: bool)
        ensures
            r == !open_to(self@.claims, anchor, npc),
    {
        self.claims.is_taken_by_other(anchor, npc)
    }

    pub fn memo_unreachable(&mut self, anchor: IVec3, until: u64)
        ensures
            final(self)@ == (InteractionView {
                memos: old(self)@.memos.insert(anchor, until),
                ..old(self)@
            }),
    {
        let _ = self.memos.insert(anchor, until);
    }

    pub fn is_unreachable(&self, anchor: IVec3, now: u64) -> (r: bool)
        ensures
            r == still_avoided(self@.memos, anchor, now),
    {
        match self.memos.get(anchor) {
            Some(until) => *until > now,
            None => false,
        }
    }
}

// ---------- errands ----------

/// Where an errand delivers to.
#[derive(Clone, Copy, Debug, PartialEq, Eq, Structural)]
pub enum HaulTarget {
    Plan(IVec3),
    Station(IVec3),
}

impl HaulTarget {
    pub open spec fn place(self) -> IVec3 {
        match self {
            HaulTarget::Plan(c) => c,
            HaulTarget::Station(c) => c,
        }
    }

    pub fn cell(self) -> (r: IVec3)
        ensures
            r == self.place(),
    {
        match self {
            HaulTarget::Plan(c) => c,
            HaulTarget::Station(c) => c,
        }
    }
}

/// An item in the world that is set aside for a villager.
#[derive(Clone, Copy, Debug, PartialEq, Eq, Structural)]
pub struct ReservedItem {
    pub entity: u64,
    pub item: ItemSlot,
    /// The cell it lies in.
    pub cell: IVec3,
}

/// An errand: items to collect and where to take them, and a tool to fetch
/// first.
pub struct HaulAssignment {
    pub target: HaulTarget,
    pub queue: Vec<ReservedItem>,
    pub pending_tool: Option<ReservedItem>,
}

pub struct AssignmentView {
    pub target: HaulTarget,
    pub queue: Seq<ReservedItem>,
    pub pending_tool: Option<ReservedItem>,
}

impl View for HaulAssignment {
    type V = AssignmentView;

    open spec fn view(&self) -> AssignmentView {
        AssignmentView {
            target: self.target,
            queue: self.queue@,
            pending_tool: self.pending_tool,
        }
    }
}

/// Every errand, who has set what aside, and what could not be reached lately.
pub struct HaulStore {
    assignments: OrdMap<u64, HaulAssignment>,
    reserved: OrdMap<u64, NpcId>,
    plan_memos: CellMap<u64>,
    station_memos: CellMap<u64>,
}

pub struct HaulView {
    pub assignments: Map<u64, AssignmentView>,
    pub reserved: Map<u64, NpcId>,
    pub plan_memos: Map<IVec3, u64>,
    pub station_memos: Map<IVec3, u64>,
}

/// The errands as values.
pub open spec fn assignment_values(m: Map<u64, HaulAssignment>) -> Map<u64, AssignmentView> {
    Map::new(|k: u64| m.contains_key(k), |k: u64| m[k]@)
}

impl View for HaulStore {
    type V = HaulView;

    closed spec fn view(&self) -> HaulView {
        HaulView {
            assignments: assignment_values(self.assignments@),
            reserved: self.reserved@,
            plan_memos: self.plan_memos@,
            station_memos: self.station_memos@,
        }
    }
}

/// The store without the villager's errand and reservations.
pub open spec fn haul_released(h: HaulView, npc: NpcId) -> HaulView {
    HaulView {
        assignments: h.assignments.remove(npc.0),
        reserved: claims_without(h.reserved, npc),
        ..h
    }
}

/// The store with a target noted as out of reach.
pub open spec fn haul_avoiding(h: HaulView, target: HaulTarget, until: u64) -> HaulView {
    match target {
        HaulTarget::Plan(c) => HaulView { plan_memos: h.plan_memos.insert(c, until), ..h },
        HaulTarget::Station(c) => HaulView { station_memos: h.station_memos.insert(c, until), ..h },
    }
}

/// The list without the item.
pub open spec fn queue_without(q: Seq<ReservedItem>, entity: u64) -> Seq<ReservedItem>
    decreases q.len(),
{
    if q.len() == 0 {
        q
    } else {
        let rest = queue_without(q.drop_last(), entity);
        if q.last().entity == entity {
            rest
        } else {
            rest.push(q.last())
        }
    }
}

/// The store after the villager picked up one item of its list.
pub open spec fn haul_picked(h: HaulView, npc: NpcId, entity: u64) -> HaulView {
    HaulView {
        assignments: if h.assignments.contains_key(npc.0) {
            h.assignments.insert(
                npc.0,
                AssignmentView {
                    queue: queue_without(h.assignments[npc.0].queue, entity),
                    ..h.assignments[npc.0]
                },
            )
        } else {
            h.assignments
        },
        reserved: if h.reserved.contains_key(entity) && h.reserved[entity] == npc {
            h.reserved.remove(entity)
        } else {
            h.reserved
        },
        ..h
    }
}

/// The store after the villager fetched its tool.
pub open spec fn haul_equipped(h: HaulView, npc: NpcId) -> HaulView {
    HaulView {
        assignments: if h.assignments.contains_key(npc.0) {
            h.assignments.insert(
                npc.0,
                AssignmentView { pending_tool: None, ..h.assignments[npc.0] },
            )
        } else {
            h.assignments
        },
        ..h
    }
}

fn drop_from_queue(q: &Vec<ReservedItem>, entity: u64) -> (r: Vec<ReservedItem>)
    ensures
        r@ == queue_without(q@, entity),
{
    let mut out: Vec<ReservedItem> = Vec::new();
    let mut i: usize = 0;
    assert(q@.take(0) =~= Seq::empty());
    while i < q.len()
        invariant
            i <= q@.len(),
            out@ == queue_without(q@.take(i as int), entity),
        decreases q@.len() - i,
    {
        assert(q@.take(i + 1).drop_last() =~= q@.take(i as int));
        if q[i].entity != entity {
            out.push(q[i]);
        }
        i = i + 1;
    }
    assert(q@.take(q@.len() as int) =~= q@);
    out
}

impl HaulStore {
    pub fn new() -> (r: HaulStore)
        ensures
            r@ == (HaulView {
                assignments: Map::empty(),
                reserved: Map::empty(),
                plan_memos: Map::empty(),
                station_memos: Map::empty(),
            }),
    {
        let r = HaulStore {
            assignments: OrdMap::new(),
            reserved: OrdMap::new(),
            plan_memos: CellMap::new(),
            station_memos: CellMap::new(),
        };
        assert(r@.assignments =~= Map::<u64, AssignmentView>::empty());
        r
    }

    /// Sets an item aside, unless somebody else has.
    pub fn try_reserve(&mut self, entity: u64, npc: NpcId) -> (r: bool)
        ensures
            r == (old(self)@.reserved.contains_key(entity) ==> old(self)@.reserved[entity] == npc),
            final(self)@ == if r {
                HaulView { reserved: old(self)@.reserved.insert(entity, npc), ..old(self)@ }
            } else {
                old(self)@
            },
    {
        if let Some(holder) = self.reserved.get(entity) {
            if holder.0 != npc.0 {
                return false;
            }
        }
        let _ = self.reserved.insert(entity, npc);
        true
    }

    pub fn commit_assignment(&mut self, npc: NpcId, assignment: HaulAssignment)
        ensures
            final(self)@ == (HaulView {
                assignments: old(self)@.assignments.insert(npc.0, assignment@),
                ..old(self)@
            }),
    {
        let _ = self.assignments.insert(npc.0, assignment);
        assert(self@.assignments =~= old(self)@.assignments.insert(npc.0, assignment@));
    }

    pub fn has_assignment(&self, npc: NpcId) -> (r: bool)
        ensures
            r == self@.assignments.contains_key(npc.0),
    {
        self.assignments.contains(npc.0)
    }

    pub fn assignment_of(&self, npc: NpcId) -> (r: Option<&HaulAssignment>)
        ensures
            r is Some <==> self@.assignments.contains_key(npc.0),
            r matches Some(a) ==> a@ == self@.assignments[npc.0],
    {
        self.assignments.get(npc.0)
    }

    /// Ends the villager's errand and frees what it had set aside.
    pub fn release_for_npc(&mut self, npc: NpcId)
        ensures
            final(self)@ == haul_released(old(self)@, npc),
    {
        let _ = self.assignments.remove(npc.0);
        self.reserved = keep_others(&self.reserved, npc);
        assert(self@.assignments =~= old(self)@.assignments.remove(npc.0));
    }

    pub fn memo_unreachable(&mut self, target: HaulTarget, until: u64)
        ensures
            final(self)@ == haul_avoiding(old(self)@, target, until),
    {
        match target {
            HaulTarget::Plan(c) => {
                let _ = self.plan_memos.insert(c, until);
            },
            HaulTarget::Station(c) => {
                let _ = self.station_memos.insert(c, until);
            },
        }
    }

    pub fn is_unreachable(&self, target: HaulTarget, now: u64) -> (r: bool)
        ensures
            r == match target {
                HaulTarget::Plan(c) => still_avoided(self@.plan_memos, c, now),
                HaulTarget::Station(c) => still_avoided(self@.station_memos, c, now),
            },
    {
        let until: Option<&u64> = match target {
            HaulTarget::Plan(c) => self.plan_memos.get(c),
            HaulTarget::Station(c) => self.station_memos.get(c),
        };
        match until {
            Some(t) => *t > now,
            None => false,
        }
    }

    /// Takes an item off the villager's list.
    pub fn drop_queue_entry(&mut self, npc: NpcId, entity: u64)
        ensures
            final(self)@ == haul_picked(old(self)@, npc, entity),
    {
        if let Some(a) = self.assignments.remove(npc.0) {
            let queue: Vec<ReservedItem> = drop_from_queue(&a.queue, entity);
            let _ = self.assignments.insert(
                npc.0,
                HaulAssignment { target: a.target, queue, pending_tool: a.pending_tool },
            );
        }
        let mine: bool = match self.reserved.get(entity) {
            Some(holder) => holder.0 == npc.0,
            None => false,
        };
        if mine {
            let _ = self.reserved.remove(entity);
        }
        assert(self@.assignments =~= haul_picked(old(self)@, npc, entity).assignments);
    }

    /// The villager has fetched its tool.
    pub fn clear_pending_tool(&mut self, npc: NpcId)
        ensures
            final(self)@ == haul_equipped(old(self)@, npc),
    {
        if let Some(a) = self.assignments.remove(npc.0) {
            let _ = self.assignments.insert(
                npc.0,
                HaulAssignment { target: a.target, queue: a.queue, pending_tool: None },
            );
        }
        assert(self@.assignments =~= haul_equipped(old(self)@, npc).assignments);
    }
}

// ---------- work stations ----------

/// Which villager is booked for which station, and who works at it.
pub struct CraftBookings {
    stations: OrdMap<u64, IVec3>,
    workers: CellMap<u64>,
}

pub struct BookingView {
    pub stations: Map<u64, IVec3>,
    pub workers: Map<IVec3, u64>,
}

impl View for CraftBookings {
    type V = BookingView;

    closed spec fn view(&self) -> BookingView {
        BookingView { stations: self.stations@, workers: self.workers@ }
    }
}

/// The bookings without the villager's: it neither has a station nor works at
/// the one that it had.
pub open spec fn booking_released(b: BookingView, npc: NpcId, entity: u64) -> BookingView {
    if b.stations.contains_key(npc.0) {
        let cell = b.stations[npc.0];
        BookingView {
            stations: b.stations.remove(npc.0),
            workers: if b.workers.contains_key(cell) && b.workers[cell] == entity {
                b.workers.remove(cell)
            } else {
                b.workers
            },
        }
    } else {
        b
    }
}

impl CraftBookings {
    pub fn new() -> (r: CraftBookings)
        ensures
            r@ == (BookingView { stations: Map::empty(), workers: Map::empty() }),
    {
        CraftBookings { stations: OrdMap::new(), workers: CellMap::new() }
    }

    pub fn book(&mut self, npc: NpcId, station: IVec3)
        ensures
            final(self)@ == (BookingView {
                stations: old(self)@.stations.insert(npc.0, station),
                ..old(self)@
            }),
    {
        let _ = self.stations.insert(npc.0, station);
    }

    pub fn contains_npc(&self, npc: NpcId) -> (r: bool)
        ensures
            r == self@.stations.contains_key(npc.0),
    {
        self.stations.contains(npc.0)
    }

    pub fn station_of_npc(&self, npc: NpcId) -> (r: Option<IVec3>)
        ensures
            r is Some <==> self@.stations.contains_key(npc.0),
            r matches Some(c) ==> c == self@.stations[npc.0],
    {
        match self.stations.get(npc.0) {
            Some(c) => Some(*c),
            None => None,
        }
    }

    pub fn worker_at(&self, station: IVec3) -> (r: Option<u64>)
        ensures
            r is Some <==> self@.workers.contains_key(station),
            r matches Some(e) ==> e == self@.workers[station],
    {
        match self.workers.get(station) {
            Some(e) => Some(*e),
            None => None,
        }
    }

    pub fn register_worker(&mut self, station: IVec3, entity: u64)
        ensures
            final(self)@ == (BookingView {
                workers: old(self)@.workers.insert(station, entity),
                ..old(self)@
            }),
    {
        let _ = self.workers.insert(station, entity);
    }

    pub fn release_npc_booking(&mut self, npc: NpcId, entity: u64)
        ensures
            final(self)@ == booking_released(old(self)@, npc, entity),
    {
        if let Some(cell) = self.stations.remove(npc.0) {
            let mine: bool = match self.workers.get(cell) {
                Some(e) => *e == entity,
                None => false,
            };
            if mine {
                let _ = self.workers.remove(cell);
            }
        } else {
            assert(self@.stations =~= old(self)@.stations);
        }
    }
}

/// After an errand ends nothing of it is left, everybody else keeps theirs, and
/// ending it again changes nothing.
pub proof fn law_haul_release_is_final(h: HaulView, npc: NpcId, other: NpcId, entity: u64)
    requires
        other != npc,
    ensures
        !haul_released(h, npc).assignments.contains_key(npc.0),
        haul_released(h, npc).reserved.contains_key(entity) ==> haul_released(
            h,
            npc,
        ).reserved[entity] != npc,
        h.reserved.contains_key(entity) && h.reserved[entity] == other ==> haul_released(
            h,
            npc,
        ).reserved.contains_key(entity),
        h.assignments.contains_key(other.0) ==> haul_released(h, npc).assignments.contains_key(
            other.0,
        ) && haul_released(h, npc).assignments[other.0] == h.assignments[other.0],
        haul_released(haul_released(h, npc), npc) == haul_released(h, npc),
{
    assert(haul_released(haul_released(h, npc), npc).assignments =~= haul_released(
        h,
        npc,
    ).assignments);
    assert(haul_released(haul_released(h, npc), npc).reserved =~= haul_released(h, npc).reserved);
}

/// A list that drops an item holds it no more, and keeps all the others.
pub proof fn law_dropped_items_leave_the_list(q: Seq<ReservedItem>, entity: u64)
    ensures
        forall|k: int|
            0 <= k < queue_without(q, entity).len() ==> (
            #[trigger] queue_without(q, entity)[k]).entity != entity,
        forall|k: int|
            0 <= k < q.len() && q[k].entity != entity ==> queue_without(q, entity).contains(
                #[trigger] q[k],
            ),
        queue_without(q, entity).len() <= q.len(),
        (forall|k: int| 0 <= k < q.len() ==> (#[trigger] q[k]).entity != entity) ==> queue_without(
            q,
            entity,
        ) == q,
    decreases q.len(),
{
    if q.len() > 0 {
        let rest = q.drop_last();
        law_dropped_items_leave_the_list(rest, entity);
        let few = queue_without(rest, entity);
        let all = queue_without(q, entity);
        assert forall|k: int| 0 <= k < q.len() && q[k].entity != entity implies all.contains(
            #[trigger] q[k],
        ) by {
            if k < rest.len() {
                assert(rest[k] == q[k]);
                let p = few.index_of(q[k]);
                assert(all[p] == q[k]);
            } else {
                assert(all[all.len() - 1] == q[k]);
            }
        }
        if forall|k: int| 0 <= k < q.len() ==> (#[trigger] q[k]).entity != entity {
            assert forall|k: int| 0 <= k < rest.len() implies (#[trigger] rest[k]).entity != entity by {
                assert(q[k].entity != entity);
            }
            assert(q[q.len() - 1].entity != entity);
            assert(all =~= q);
        }
    }
}

/// What could not be reached is left alone until its time, and not from then on;
/// what was never noted is not left alone.
pub proof fn law_memos_run_out(memos: Map<IVec3, u64>, cell: IVec3, until: u64, now: u64)
    ensures
        now < until ==> still_avoided(memos.insert(cell, until), cell, now),
        now >= until ==> !still_avoided(memos.insert(cell, until), cell, now),
        !memos.contains_key(cell) ==> !still_avoided(memos, cell, now),
{
}

/// A villager that gives up its booking has no station, and works at none that
/// it was booked for; others keep theirs.
pub proof fn law_released_bookings_are_free(
    b: BookingView,
    npc: NpcId,
    entity: u64,
    other: u64,
    cell: IVec3,
)
    requires
        other != npc.0,
    ensures
        !booking_released(b, npc, entity).stations.contains_key(npc.0),
        b.stations.contains_key(npc.0) ==> !(booking_released(b, npc, entity).workers.contains_key(
            b.stations[npc.0],
        ) && booking_released(b, npc, entity).workers[b.stations[npc.0]] == entity),
        b.stations.contains_key(other) ==> booking_released(b, npc, entity).stations.contains_key(
            other,
        ) && booking_released(b, npc, entity).stations[other] == b.stations[other],
        b.workers.contains_key(cell) && b.workers[cell] != entity ==> booking_released(
            b,
            npc,
            entity,
        ).workers.contains_key(cell) && booking_released(b, npc, entity).workers[cell]
            == b.workers[cell],
{
}

} // verus!
