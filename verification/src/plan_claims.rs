//! Which villager works on which plan.

use crate::cells::IVec3;
use crate::npc::NpcId;
use crate::ord_map::{CellMap, OrdKey, OrdMap};
use vstd::prelude::*;

verus! {

/// Claims on planned cells, at most one per cell.
pub struct PlanClaims {
    by_cell: CellMap<NpcId>,
}

impl View for PlanClaims {
    type V = Map<IVec3, NpcId>;

    closed spec fn view(&self) -> Map<IVec3, NpcId> {
        self.by_cell@
    }
}

/// The cell is free for `npc`: unclaimed, or claimed by that villager.
pub open spec fn open_to(claims: Map<IVec3, NpcId>, cell: IVec3, npc: NpcId) -> bool {
    claims.contains_key(cell) ==> claims[cell] == npc
}

/// The claims after `npc` tried to claim `cell`.
pub open spec fn claimed(claims: Map<IVec3, NpcId>, cell: IVec3, npc: NpcId) -> Map<IVec3, NpcId> {
    if open_to(claims, cell, npc) {
        claims.insert(cell, npc)
    } else {
        claims
    }
}

/// The claims after `npc` released `cell`.
pub open spec fn released(claims: Map<IVec3, NpcId>, cell: IVec3, npc: NpcId) -> Map<IVec3, NpcId> {
    if open_to(claims, cell, npc) {
        claims.remove(cell)
    } else {
        claims
    }
}

/// What everybody but `npc` holds.
pub open spec fn claims_without<K>(claims: Map<K, NpcId>, npc: NpcId) -> Map<K, NpcId> {
    claims.restrict(Set::new(|c: K| claims.contains_key(c) && claims[c] != npc))
}

/// Keeps what everybody but `npc` holds.
pub fn keep_others<K: OrdKey>(held: &OrdMap<K, NpcId>, npc: NpcId) -> (r: OrdMap<K, NpcId>)
    ensures
        r@ == claims_without(held@, npc),
{
    let mut kept: OrdMap<K, NpcId> = OrdMap::new();
    let mut i: usize = 0;
    let n: usize = held.len();
    while i < n
        invariant
            i <= n,
            n == held.keys().len(),
            forall|k: int| 0 <= k < n ==> held@.contains_key(#[trigger] held.keys()[k]),
            forall|c: K| #[trigger]
                kept@.contains_key(c) ==> held@.contains_key(c) && held@[c] != npc && kept@[c]
                    == held@[c],
            forall|k: int|
                0 <= k < i && held@[#[trigger] held.keys()[k]] != npc ==> kept@.contains_key(
                    held.keys()[k],
                ),
        decreases n - i,
    {
        let key: K = held.key_at(i);
        let holder: NpcId = *held.value_at(i);
        if holder.0 != npc.0 {
            let _ = kept.insert(key, holder);
        }
        i = i + 1;
    }
    proof {
        let want = claims_without(held@, npc);
        assert forall|c: K| #[trigger] want.contains_key(c) implies kept@.contains_key(c) by {
            assert(held.keys().contains(c));
            let k = held.keys().index_of(c);
            assert(held.keys()[k] == c);
        }
        assert(kept@ =~= want);
    }
    kept
}

impl PlanClaims {
    pub fn new() -> (r: PlanClaims)
        ensures
            r@ == Map::<IVec3, NpcId>::empty(),
    {
        PlanClaims { by_cell: CellMap::new() }
    }

    /// Claims a cell. A claim that the villager already holds counts as
    /// success.
    pub fn try_claim(&mut self, cell: IVec3, npc: NpcId) -> (r: bool)
        ensures
            r == open_to(old(self)@, cell, npc),
            final(self)@ == claimed(old(self)@, cell, npc),
    {
        if let Some(holder) = self.by_cell.get(cell) {
            let same: bool = holder.0 == npc.0;
            if same {
                assert(self@.insert(cell, npc) =~= self@);
            }
            return same;
        }
        let _ = self.by_cell.insert(cell, npc);
        true
    }

    /// Gives up a claim, if `npc` holds it.
    pub fn release(&mut self, cell: IVec3, npc: NpcId)
        ensures
            final(self)@ == released(old(self)@, cell, npc),
    {
        let held: bool = match self.by_cell.get(cell) {
            Some(holder) => holder.0 == npc.0,
            None => false,
        };
        if held {
            let _ = self.by_cell.remove(cell);
        } else {
            assert(!self@.contains_key(cell) ==> self@.remove(cell) =~= self@);
        }
    }

    /// Gives up everything that `npc` holds.
    pub fn release_all_for(&mut self, npc: NpcId)
        ensures
            final(self)@ == claims_without(old(self)@, npc),
    {
        self.by_cell = keep_others(&self.by_cell, npc);
    }

    /// Another villager holds the cell.
    pub fn is_taken_by_other(&self, cell: IVec3, npc: NpcId) -> (r: bool)
        ensures
            r == !open_to(self@, cell, npc),
    {
        match self.by_cell.get(cell) {
            Some(holder) => holder.0 != npc.0,
            None => false,
        }
    }
}

/// A successful claim shuts everybody else out until it is released, and
/// leaves the other cells alone.
pub proof fn law_claims_exclude(
    claims: Map<IVec3, NpcId>,
    cell: IVec3,
    npc: NpcId,
    other: NpcId,
    elsewhere: IVec3,
)
    requires
        open_to(claims, cell, npc),
        other != npc,
        elsewhere != cell,
    ensures
        open_to(claimed(claims, cell, npc), cell, npc),
        !open_to(claimed(claims, cell, npc), cell, other),
        claimed(claimed(claims, cell, npc), cell, other) == claimed(claims, cell, npc),
        released(claimed(claims, cell, npc), cell, other) == claimed(claims, cell, npc),
        open_to(claimed(claims, cell, npc), elsewhere, other) == open_to(claims, elsewhere, other),
{
}

/// Releasing right after a successful claim on a free cell undoes it.
pub proof fn law_release_undoes_claim(claims: Map<IVec3, NpcId>, cell: IVec3, npc: NpcId)
    requires
        !claims.contains_key(cell),
    ensures
        released(claimed(claims, cell, npc), cell, npc) == claims,
{
    assert(claims.insert(cell, npc).remove(cell) =~= claims);
}

/// Releasing twice is releasing once, and no claim of the villager is left
/// after everything was released, while the others keep theirs.
pub proof fn law_release_is_final(
    claims: Map<IVec3, NpcId>,
    cell: IVec3,
    npc: NpcId,
    other: NpcId,
)
    requires
        other != npc,
    ensures
        released(released(claims, cell, npc), cell, npc) == released(claims, cell, npc),
        open_to(claims_without(claims, npc), cell, other) == (open_to(claims, cell, other) || claims[cell]
            == npc),
        claims.contains_key(cell) && claims[cell] == other ==> claims_without(claims, npc).contains_key(
            cell,
        ) && claims_without(claims, npc)[cell] == other,
{
    assert(claims.remove(cell).remove(cell) =~= claims.remove(cell));
}

} // verus!
