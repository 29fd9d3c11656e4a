//! Build and demolition plans: the table itself, the drags that make them,
//! and how edits travel between clients and server.

use crate::blocks::{BlockRegistry, BlockSlot, BlockWorld, MaterialNeed};
use crate::cells::{cell_before, min_of, IVec3};
use crate::items::{ItemRegistry, ItemSlot};
use crate::ord_map::CellMap;
use crate::protocol::{
    copy_materials, entry_for, find_entry, lacking, BoundedVec, MaterialEntry, PlanEdit,
    PlanEditBatch, PlanKind, PlanState, PlanView, PLAN_EDIT_BATCH_MAX,
};
use vstd::prelude::*;

pub mod drag;

verus! {

/// Every plan of the world, by cell.
pub struct Plans {
    map: CellMap<PlanState>,
}

/// The plans as values.
pub open spec fn plan_values(m: Map<IVec3, PlanState>) -> Map<IVec3, PlanView> {
    Map::new(|c: IVec3| m.contains_key(c), |c: IVec3| m[c]@)
}

impl View for Plans {
    type V = Map<IVec3, PlanView>;

    closed spec fn view(&self) -> Map<IVec3, PlanView> {
        plan_values(self.map@)
    }
}

/// A plan with more of its material delivered: up to `count` of `item` to the
/// first entry for it, never more than that entry lacks.
pub open spec fn after_deposit(plan: PlanView, item: ItemSlot, count: int) -> PlanView {
    match entry_for(plan.materials, item, 0) {
        None => plan,
        Some(k) => PlanView {
            kind: plan.kind,
            materials: plan.materials.update(
                k,
                MaterialEntry {
                    item: plan.materials[k].item,
                    needed: plan.materials[k].needed,
                    present: (plan.materials[k].present + min_of(
                        count,
                        lacking(plan.materials[k]),
                    )) as u32,
                },
            ),
        },
    }
}

/// How much of a delivery the plan takes.
pub open spec fn deposit_taken(plan: PlanView, item: ItemSlot, count: int) -> int {
    match entry_for(plan.materials, item, 0) {
        None => 0,
        Some(k) => min_of(count, lacking(plan.materials[k])),
    }
}

/// The table after the entries of a list were put in, one after the other.
pub open spec fn filled(entries: Seq<(IVec3, PlanState)>) -> Map<IVec3, PlanView>
    decreases entries.len(),
{
    if entries.len() == 0 {
        Map::empty()
    } else {
        filled(entries.drop_last()).insert(entries.last().0, entries.last().1@)
    }
}

impl Plans {
    pub fn new() -> (r: Plans)
        ensures
            r@ == Map::<IVec3, PlanView>::empty(),
    {
        let r = Plans { map: CellMap::new() };
        assert(r@ =~= Map::<IVec3, PlanView>::empty());
        r
    }

    pub fn get(&self, cell: IVec3) -> (r: Option<&PlanState>)
        ensures
            r is Some <==> self@.contains_key(cell),
            r matches Some(s) ==> s@ == self@[cell],
    {
        self.map.get(cell)
    }

    pub fn kind(&self, cell: IVec3) -> (r: Option<PlanKind>)
        ensures
            r is Some <==> self@.contains_key(cell),
            r matches Some(k) ==> k == self@[cell].kind,
    {
        match self.map.get(cell) {
            Some(s) => Some(s.kind),
            None => None,
        }
    }

    pub fn set(&mut self, cell: IVec3, state: PlanState)
        ensures
            final(self)@ == old(self)@.insert(cell, state@),
    {
        let _ = self.map.insert(cell, state);
        assert(self@ =~= old(self)@.insert(cell, state@));
    }

    pub fn clear(&mut self, cell: IVec3)
        ensures
            final(self)@ == old(self)@.remove(cell),
    {
        let _ = self.map.remove(cell);
        assert(self@ =~= old(self)@.remove(cell));
    }

    /// Replaces the table; of several entries for one cell the last counts.
    pub fn replace_all(&mut self, entries: Vec<(IVec3, PlanState)>)
        ensures
            final(self)@ == filled(entries@),
    {
        let mut fresh: Plans = Plans::new();
        let mut i: usize = 0;
        assert(entries@.take(0) =~= Seq::empty());
        while i < entries.len()
            invariant
                i <= entries@.len(),
                fresh@ == filled(entries@.take(i as int)),
            decreases entries@.len() - i,
        {
            assert(entries@.take(i + 1).drop_last() =~= entries@.take(i as int));
            fresh.set(entries[i].0, entries[i].1.copy());
            i = i + 1;
        }
        assert(entries@.take(entries@.len() as int) =~= entries@);
        *self = fresh;
    }

    /// How many plans there are, and where.
    pub closed spec fn cells(&self) -> Seq<IVec3> {
        self.map.keys()
    }

    pub fn len(&self) -> (n: usize)
        ensures
            n == self.cells().len(),
            forall|i: int| 0 <= i < n ==> self@.contains_key(#[trigger] self.cells()[i]),
            forall|c: IVec3| #[trigger] self@.contains_key(c) ==> self.cells().contains(c),
            forall|i: int, j: int|
                #![trigger self.cells()[i], self.cells()[j]]
                0 <= i < j < n ==> cell_before(self.cells()[i], self.cells()[j]),
    {
        self.map.len()
    }

    /// The `i`-th planned cell, in cell order.
    pub fn cell_at(&self, i: usize) -> (c: IVec3)
        requires
            i < self.cells().len(),
        ensures
            c == self.cells()[i as int],
            self@.contains_key(c),
    {
        self.map.key_at(i)
    }

    /// The plan of the `i`-th planned cell.
    pub fn plan_at(&self, i: usize) -> (s: &PlanState)
        requires
            i < self.cells().len(),
        ensures
            self@.contains_key(self.cells()[i as int]),
            s@ == self@[self.cells()[i as int]],
    {
        self.map.value_at(i)
    }

    /// Every plan, for a client that joins.
    pub fn snapshot(&self) -> (r: Vec<(IVec3, PlanState)>)
        ensures
            r@.len() == self.cells().len(),
            forall|i: int|
                0 <= i < r@.len() ==> (#[trigger] r@[i]).0 == self.cells()[i] && r@[i].1@
                    == self@[self.cells()[i]],
            filled(r@) == self@,
    {
        let mut r: Vec<(IVec3, PlanState)> = Vec::new();
        let n: usize = self.len();
        let mut i: usize = 0;
        while i < n
            invariant
                i <= n,
                n == self.cells().len(),
                r@.len() == i,
                forall|k: int|
                    0 <= k < i ==> (#[trigger] r@[k]).0 == self.cells()[k] && r@[k].1@
                        == self@[self.cells()[k]],
            decreases n - i,
        {
            r.push((self.cell_at(i), self.plan_at(i).copy()));
            i = i + 1;
        }
        proof {
            lemma_filled(r@);
            assert forall|c: IVec3| #[trigger] self@.contains_key(c) implies filled(
                r@,
            ).contains_key(c) && filled(r@)[c] == self@[c] by {
                let k = self.cells().index_of(c);
                assert(self.cells().contains(c));
                assert(r@[k].0 == c);
            }
            assert forall|c: IVec3| #[trigger] filled(r@).contains_key(c) implies self@.contains_key(
                c,
            ) by {
                let k = choose|k: int| 0 <= k < r@.len() && (#[trigger] r@[k]).0 == c;
                assert(r@[k].0 == c);
                assert(self@.contains_key(self.cells()[k]));
            }
            assert(filled(r@) =~= self@);
        }
        r
    }

    /// Delivers material and returns how much of it the plan took.
    pub fn deposit(&mut self, cell: IVec3, item: ItemSlot, count: u32) -> (accepted: u32)
        ensures
            !old(self)@.contains_key(cell) ==> accepted == 0 && final(self)@ == old(self)@,
            old(self)@.contains_key(cell) ==> accepted == deposit_taken(
                old(self)@[cell],
                item,
                count as int,
            ) && final(self)@ == old(self)@.insert(
                cell,
                after_deposit(old(self)@[cell], item, count as int),
            ),
    {
        let (at, entry) = match self.map.get(cell) {
            None => {
                return 0;
            },
            Some(state) => match find_entry(&state.materials, item) {
                None => {
                    assert(self@.insert(cell, self@[cell]) =~= self@);
                    return 0;
                },
                Some(k) => (k, state.materials[k]),
            },
        };
        let room: u32 = if entry.needed > entry.present {
            entry.needed - entry.present
        } else {
            0
        };
        let accepted: u32 = if count <= room {
            count
        } else {
            room
        };
        if let Some(state) = self.map.remove(cell) {
            let mut state: PlanState = state;
            state.materials.set(
                at,
                MaterialEntry {
                    item: entry.item,
                    needed: entry.needed,
                    present: entry.present + accepted,
                },
            );
            let _ = self.map.insert(cell, state);
        }
        assert(self@ =~= old(self)@.insert(
            cell,
            after_deposit(old(self)@[cell], item, count as int),
        ));
        accepted
    }
}

/// What a list without repetition puts into the table.
proof fn lemma_filled(entries: Seq<(IVec3, PlanState)>)
    ensures
        forall|c: IVec3| #[trigger]
            filled(entries).contains_key(c) ==> exists|k: int|
                0 <= k < entries.len() && (#[trigger] entries[k]).0 == c,
        forall|k: int|
            0 <= k < entries.len() && (forall|j: int|
                k < j < entries.len() ==> (#[trigger] entries[j]).0 != entries[k].0) ==> filled(
                entries,
            ).contains_key((#[trigger] entries[k]).0) && filled(entries)[entries[k].0]
                == entries[k].1@,
    decreases entries.len(),
{
    if entries.len() > 0 {
        let rest = entries.drop_last();
        lemma_filled(rest);
        assert forall|c: IVec3| #[trigger] filled(entries).contains_key(c) implies exists|k: int|
            0 <= k < entries.len() && (#[trigger] entries[k]).0 == c by {
            if c == entries.last().0 {
                assert(entries[entries.len() - 1].0 == c);
            } else {
                assert(filled(rest).contains_key(c));
                let k = choose|k: int| 0 <= k < rest.len() && (#[trigger] rest[k]).0 == c;
                assert(entries[k].0 == c);
            }
        }
        assert forall|k: int|
            0 <= k < entries.len() && (forall|j: int|
                k < j < entries.len() ==> (#[trigger] entries[j]).0 != entries[k].0) implies filled(
            entries,
        ).contains_key((#[trigger] entries[k]).0) && filled(entries)[entries[k].0]
            == entries[k].1@ by {
            if k < entries.len() - 1 {
                assert(rest[k] == entries[k]);
                assert(entries[entries.len() - 1].0 != entries[k].0);
                assert forall|j: int| k < j < rest.len() implies (#[trigger] rest[j]).0
                    != rest[k].0 by {
                    assert(entries[j].0 != entries[k].0);
                }
            }
        }
    }
}

/// Deliveries never exceed the need, and touch nothing but the one entry.
pub proof fn law_deposit_fills_the_need(plan: PlanView, item: ItemSlot, count: int)
    requires
        count >= 0,
    ensures
        after_deposit(plan, item, count).kind == plan.kind,
        after_deposit(plan, item, count).materials.len() == plan.materials.len(),
        0 <= deposit_taken(plan, item, count) <= count,
        crate::protocol::remaining(after_deposit(plan, item, count).materials, item)
            == crate::protocol::remaining(plan.materials, item) - deposit_taken(plan, item, count),
{
    crate::protocol::lemma_entry_for(plan.materials, item, 0);
    if let Some(k) = entry_for(plan.materials, item, 0) {
        let after = after_deposit(plan, item, count).materials;
        lemma_entry_survives(plan.materials, after, item, 0);
    }
}

/// Entries for the same items stand at the same places.
proof fn lemma_entry_survives(
    a: Seq<MaterialEntry>,
    b: Seq<MaterialEntry>,
    item: ItemSlot,
    i: int,
)
    requires
        a.len() == b.len(),
        forall|k: int| 0 <= k < a.len() ==> (#[trigger] a[k]).item == b[k].item,
        0 <= i,
    ensures
        entry_for(a, item, i) == entry_for(b, item, i),
    decreases a.len() - i,
{
    if i < a.len() {
        assert(a[i].item == b[i].item);
        lemma_entry_survives(a, b, item, i + 1);
    }
}

// ---------- edits ----------

/// The table after one edit was carried out.
pub open spec fn edited(
    m: Map<IVec3, PlanView>,
    cell: IVec3,
    kind: Option<PlanKind>,
    materials: Seq<MaterialEntry>,
) -> Map<IVec3, PlanView> {
    match kind {
        Some(k) => m.insert(cell, PlanView { kind: k, materials }),
        None => m.remove(cell),
    }
}

/// The table after the same edit was carried out on each of the cells.
pub open spec fn edited_all(
    m: Map<IVec3, PlanView>,
    cells: Seq<IVec3>,
    kind: Option<PlanKind>,
    materials: Seq<MaterialEntry>,
) -> Map<IVec3, PlanView>
    decreases cells.len(),
{
    if cells.len() == 0 {
        m
    } else {
        edited(edited_all(m, cells.drop_last(), kind, materials), cells.last(), kind, materials)
    }
}

/// Only what is there can be removed, and only where nothing is can be built.
/// A plan can always be cleared.
pub open spec fn admits(kind: Option<PlanKind>, occupied: bool) -> bool {
    match kind {
        Some(PlanKind::Remove) => occupied,
        Some(PlanKind::Build { .. }) => !occupied,
        None => true,
    }
}

/// There is a block at the cell.
pub open spec fn occupied(world: &BlockWorld, cell: IVec3) -> bool {
    world.slot(cell) != BlockSlot(0)
}

/// The material list of a block: what it needs of each known item.
pub open spec fn material_list(needs: Seq<MaterialNeed>, items: &ItemRegistry) -> Seq<MaterialEntry>
    decreases needs.len(),
{
    if needs.len() == 0 {
        Seq::empty()
    } else {
        let rest = material_list(needs.drop_last(), items);
        match items.find(needs.last().item@) {
            Some(slot) => rest.push(
                MaterialEntry { item: slot, needed: needs.last().count, present: 0 },
            ),
            None => rest,
        }
    }
}

/// What a fresh plan needs.
pub open spec fn initial_materials(
    kind: Option<PlanKind>,
    blocks: &BlockRegistry,
    items: &ItemRegistry,
) -> Seq<MaterialEntry> {
    match kind {
        Some(PlanKind::Build { slot, .. }) => material_list(blocks.spec_def(slot).materials@, items),
        _ => Seq::empty(),
    }
}

/// The block that the edit asks for is registered.
pub open spec fn known_kind(kind: Option<PlanKind>, blocks: &BlockRegistry) -> bool {
    match kind {
        Some(PlanKind::Build { slot, .. }) => blocks.knows(slot),
        _ => true,
    }
}

/// Lists what a fresh plan needs. Unknown items are left out.
pub fn build_initial_materials(
    kind: Option<PlanKind>,
    blocks: &BlockRegistry,
    items: &ItemRegistry,
) -> (r: Vec<MaterialEntry>)
    requires
        items.valid(),
        known_kind(kind, blocks),
    ensures
        r@ == initial_materials(kind, blocks, items),
{
    let mut out: Vec<MaterialEntry> = Vec::new();
    let slot: BlockSlot = match kind {
        Some(PlanKind::Build { slot, .. }) => slot,
        _ => {
            return out;
        },
    };
    let needs: &Vec<MaterialNeed> = &blocks.def(slot).materials;
    let mut i: usize = 0;
    assert(needs@.take(0) =~= Seq::empty());
    while i < needs.len()
        invariant
            items.valid(),
            i <= needs@.len(),
            out@ == material_list(needs@.take(i as int), items),
        decreases needs@.len() - i,
    {
        assert(needs@.take(i + 1).drop_last() =~= needs@.take(i as int));
        if let Some(item) = items.slot_of(&needs[i].item) {
            out.push(MaterialEntry { item, needed: needs[i].count, present: 0 });
        }
        i = i + 1;
    }
    assert(needs@.take(needs@.len() as int) =~= needs@);
    out
}

/// What the server makes of an edit.
pub enum EditVerdict {
    /// The player stands too far away and is told so.
    OutOfReach,
    /// The edit makes no sense here and is dropped.
    Ignored,
    /// The edit was carried out; everybody is told.
    Accepted(PlanEdit),
}

/// The edit is carried out.
pub open spec fn edit_passes(
    edit: PlanEdit,
    in_reach: bool,
    world: &BlockWorld,
) -> bool {
    in_reach && admits(edit.kind, occupied(world, edit.cell))
}

/// Carries out a client's edit, if it is in reach and makes sense.
pub fn receive_plan_edit(
    plans: &mut Plans,
    edit: &PlanEdit,
    in_reach: bool,
    world: &BlockWorld,
    blocks: &BlockRegistry,
    items: &ItemRegistry,
) -> (r: EditVerdict)
    requires
        items.valid(),
        edit_passes(*edit, in_reach, world) ==> known_kind(edit.kind, blocks),
    ensures
        r is OutOfReach <==> !in_reach,
        r is Ignored <==> in_reach && !admits(edit.kind, occupied(world, edit.cell)),
        !edit_passes(*edit, in_reach, world) ==> final(plans)@ == old(plans)@,
        r matches EditVerdict::Accepted(reply) ==> reply.cell == edit.cell && reply.kind == edit.kind
            && reply.materials@ == initial_materials(edit.kind, blocks, items),
        edit_passes(*edit, in_reach, world) ==> final(plans)@ == edited(
            old(plans)@,
            edit.cell,
            edit.kind,
            initial_materials(edit.kind, blocks, items),
        ),
{
    if !in_reach {
        return EditVerdict::OutOfReach;
    }
    if !admissible(edit.kind, world, edit.cell) {
        return EditVerdict::Ignored;
    }
    let materials: Vec<MaterialEntry> = build_initial_materials(edit.kind, blocks, items);
    match edit.kind {
        Some(kind) => plans.set(edit.cell, PlanState::new(kind, copy_materials(&materials))),
        None => plans.clear(edit.cell),
    }
    EditVerdict::Accepted(PlanEdit { cell: edit.cell, kind: edit.kind, materials })
}

fn admissible(kind: Option<PlanKind>, world: &BlockWorld, cell: IVec3) -> (r: bool)
    ensures
        r == admits(kind, occupied(world, cell)),
{
    match kind {
        Some(PlanKind::Remove) => world.get(cell).0 != 0,
        Some(PlanKind::Build { .. }) => world.get(cell).0 == 0,
        None => true,
    }
}

/// The cells of a batch on which the edit is carried out, in order.
pub open spec fn accepted_cells(
    cells: Seq<IVec3>,
    in_reach: Seq<bool>,
    kind: Option<PlanKind>,
    world: &BlockWorld,
) -> Seq<IVec3>
    decreases cells.len(),
{
    if cells.len() == 0 {
        Seq::empty()
    } else {
        let rest = accepted_cells(cells.drop_last(), in_reach, kind, world);
        if in_reach[cells.len() - 1] && admits(kind, occupied(world, cells.last())) {
            rest.push(cells.last())
        } else {
            rest
        }
    }
}

/// The first cell out of reach, from `i` on.
pub open spec fn first_far(cells: Seq<IVec3>, in_reach: Seq<bool>, i: int) -> Option<IVec3>
    decreases cells.len() - i,
{
    if i >= cells.len() {
        None
    } else if !in_reach[i] {
        Some(cells[i])
    } else {
        first_far(cells, in_reach, i + 1)
    }
}

/// A batch is cut to what one message may carry.
pub open spec fn cut(cells: Seq<IVec3>) -> Seq<IVec3> {
    cells.take(min_of(cells.len() as int, PLAN_EDIT_BATCH_MAX as int))
}

/// A message about cells that fit in one.
pub(crate) fn batch_of(
    kind: Option<PlanKind>,
    cells: Vec<IVec3>,
    materials: Vec<MaterialEntry>,
) -> (r: PlanEditBatch)
    requires
        cells@.len() <= PLAN_EDIT_BATCH_MAX,
    ensures
        r.kind == kind,
        r.cells@ == cells@,
        r.materials == materials,
{
    match BoundedVec::new(cells) {
        Ok(cells) => PlanEditBatch { kind, cells, materials },
        Err(_) => vstd::pervasive::unreached(),
    }
}

/// What the server makes of a batch.
pub struct BatchVerdict {
    /// The player is told about this cell.
    pub out_of_reach: Option<IVec3>,
    /// Everybody is told about this.
    pub reply: Option<PlanEditBatch>,
}

/// Carries out a client's batch of edits. `in_reach[i]` says whether the
/// player reaches the `i`-th cell.
pub fn receive_plan_edit_batch(
    plans: &mut Plans,
    batch: &PlanEditBatch,
    in_reach: &Vec<bool>,
    world: &BlockWorld,
    blocks: &BlockRegistry,
    items: &ItemRegistry,
) -> (r: BatchVerdict)
    requires
        items.valid(),
        known_kind(batch.kind, blocks),
        in_reach@.len() >= min_of(batch.cells@.len() as int, PLAN_EDIT_BATCH_MAX as int),
    ensures
        r.out_of_reach == first_far(cut(batch.cells@), in_reach@, 0),
        r.reply is Some <==> accepted_cells(
            cut(batch.cells@),
            in_reach@,
            batch.kind,
            world,
        ).len() > 0,
        r.reply matches Some(reply) ==> reply.kind == batch.kind && reply.cells@ == accepted_cells(
            cut(batch.cells@),
            in_reach@,
            batch.kind,
            world,
        ) && reply.materials@ == initial_materials(batch.kind, blocks, items),
        final(plans)@ == edited_all(
            old(plans)@,
            accepted_cells(cut(batch.cells@), in_reach@, batch.kind, world),
            batch.kind,
            initial_materials(batch.kind, blocks, items),
        ),
{
    let n: usize = if batch.cells.len() <= PLAN_EDIT_BATCH_MAX {
        batch.cells.len()
    } else {
        PLAN_EDIT_BATCH_MAX
    };
    let ghost all = cut(batch.cells@);
    let shared: Vec<MaterialEntry> = build_initial_materials(batch.kind, blocks, items);
    let mut accepted: Vec<IVec3> = Vec::new();
    let mut far: Option<IVec3> = None;
    let mut i: usize = 0;
    assert(all.take(0) =~= Seq::empty());
    while i < n
        invariant
            i <= n,
            n == all.len(),
            n <= batch.cells@.len(),
            n <= in_reach@.len(),
            all == batch.cells@.take(n as int),
            shared@ == initial_materials(batch.kind, blocks, items),
            accepted@ == accepted_cells(all.take(i as int), in_reach@, batch.kind, world),
            accepted@.len() <= i,
            plans@ == edited_all(old(plans)@, accepted@, batch.kind, shared@),
            far is None ==> first_far(all, in_reach@, 0) == first_far(all, in_reach@, i as int),
            far is Some ==> far == first_far(all, in_reach@, 0),
        decreases n - i,
    {
        let cell: IVec3 = *batch.cells.at(i);
        assert(all.take(i + 1).drop_last() =~= all.take(i as int));
        assert(all.take(i + 1).last() == cell);
        if !in_reach[i] {
            if far.is_none() {
                far = Some(cell);
            }
        } else if admissible(batch.kind, world, cell) {
            match batch.kind {
                Some(kind) => plans.set(cell, PlanState::new(kind, copy_materials(&shared))),
                None => plans.clear(cell),
            }
            let ghost before = accepted@;
            accepted.push(cell);
            assert(accepted@.drop_last() =~= before);
        }
        i = i + 1;
    }
    assert(all.take(all.len() as int) =~= all);
    if accepted.len() == 0 {
        return BatchVerdict { out_of_reach: far, reply: None };
    }
    BatchVerdict {
        out_of_reach: far,
        reply: Some(batch_of(batch.kind, accepted, shared)),
    }
}

/// Follows an edit that the server announced.
pub fn apply_plan_edit(plans: &mut Plans, edit: &PlanEdit)
    ensures
        final(plans)@ == edited(old(plans)@, edit.cell, edit.kind, edit.materials@),
{
    match edit.kind {
        Some(kind) => plans.set(edit.cell, PlanState::new(kind, copy_materials(&edit.materials))),
        None => plans.clear(edit.cell),
    }
}

/// Follows a batch that the server announced.
pub fn apply_plan_edit_batch(plans: &mut Plans, batch: &PlanEditBatch)
    ensures
        final(plans)@ == edited_all(old(plans)@, batch.cells@, batch.kind, batch.materials@),
{
    let mut i: usize = 0;
    assert(batch.cells@.take(0) =~= Seq::empty());
    while i < batch.cells.len()
        invariant
            i <= batch.cells@.len(),
            plans@ == edited_all(
                old(plans)@,
                batch.cells@.take(i as int),
                batch.kind,
                batch.materials@,
            ),
        decreases batch.cells@.len() - i,
    {
        assert(batch.cells@.take(i + 1).drop_last() =~= batch.cells@.take(i as int));
        match batch.kind {
            Some(kind) => plans.set(
                *batch.cells.at(i),
                PlanState::new(kind, copy_materials(&batch.materials)),
            ),
            None => plans.clear(*batch.cells.at(i)),
        }
        i = i + 1;
    }
    assert(batch.cells@.take(batch.cells@.len() as int) =~= batch.cells@);
}

/// Which cells a batch changes, and to what: after it, the cells carry the
/// edit and the others are as before.
pub proof fn law_batch_touches_its_cells(
    m: Map<IVec3, PlanView>,
    cells: Seq<IVec3>,
    kind: Option<PlanKind>,
    materials: Seq<MaterialEntry>,
    cell: IVec3,
)
    ensures
        ({
            let after = edited_all(m, cells, kind, materials);
            &&& !cells.contains(cell) ==> after.contains_key(cell) == m.contains_key(cell) && (
            m.contains_key(cell) ==> after[cell] == m[cell])
            &&& cells.contains(cell) && kind is None ==> !after.contains_key(cell)
            &&& cells.contains(cell) && kind is Some ==> after.contains_key(cell) && after[cell] == (
            PlanView { kind: kind->0, materials })
        }),
    decreases cells.len(),
{
    if cells.len() > 0 {
        let rest = cells.drop_last();
        law_batch_touches_its_cells(m, rest, kind, materials, cell);
        if cells.contains(cell) && cell != cells.last() {
            let k = cells.index_of(cell);
            assert(rest[k] == cell);
        }
        if rest.contains(cell) {
            let k = rest.index_of(cell);
            assert(cells[k] == cell);
        }
        assert(cells[cells.len() - 1] == cells.last());
    }
}

/// A batch as the server meets it: with what the sender reaches, what a plan of
/// this kind needs, and the blocks of the moment.
pub struct BatchRequest {
    pub kind: Option<PlanKind>,
    pub cells: Seq<IVec3>,
    pub in_reach: Seq<bool>,
    pub materials: Seq<MaterialEntry>,
    pub world: BlockWorld,
}

impl BatchRequest {
    /// The cells that the server accepts and announces.
    pub open spec fn announced(self) -> Seq<IVec3> {
        accepted_cells(cut(self.cells), self.in_reach, self.kind, &self.world)
    }
}

/// The server's plans after a history of batches.
pub open spec fn server_after(m: Map<IVec3, PlanView>, requests: Seq<BatchRequest>) -> Map<
    IVec3,
    PlanView,
>
    decreases requests.len(),
{
    if requests.len() == 0 {
        m
    } else {
        let last = requests.last();
        edited_all(
            server_after(m, requests.drop_last()),
            last.announced(),
            last.kind,
            last.materials,
        )
    }
}

/// What was announced, in order; a batch of which nothing was accepted is not.
pub open spec fn announcements(requests: Seq<BatchRequest>) -> Seq<
    (Option<PlanKind>, Seq<IVec3>, Seq<MaterialEntry>),
>
    decreases requests.len(),
{
    if requests.len() == 0 {
        Seq::empty()
    } else {
        let last = requests.last();
        let before = announcements(requests.drop_last());
        if last.announced().len() > 0 {
            before.push((last.kind, last.announced(), last.materials))
        } else {
            before
        }
    }
}

/// A client's plans after following announcements.
pub open spec fn mirror_after(
    m: Map<IVec3, PlanView>,
    heard: Seq<(Option<PlanKind>, Seq<IVec3>, Seq<MaterialEntry>)>,
) -> Map<IVec3, PlanView>
    decreases heard.len(),
{
    if heard.len() == 0 {
        m
    } else {
        let last = heard.last();
        edited_all(mirror_after(m, heard.drop_last()), last.1, last.0, last.2)
    }
}

/// A mirror that agreed with the server once, and follows what the server
/// announces, agrees with it after any history of batches.
pub proof fn law_mirror_follows_batches(m: Map<IVec3, PlanView>, requests: Seq<BatchRequest>)
    ensures
        mirror_after(m, announcements(requests)) == server_after(m, requests),
    decreases requests.len(),
{
    if requests.len() > 0 {
        let before = announcements(requests.drop_last());
        let last = requests.last();
        law_mirror_follows_batches(m, requests.drop_last());
        if last.announced().len() > 0 {
            let said = (last.kind, last.announced(), last.materials);
            assert(before.push(said).drop_last() =~= before);
        }
    }
}

/// A batch of one cell in reach does what the single edit does.
pub proof fn law_batch_of_one(
    m: Map<IVec3, PlanView>,
    cell: IVec3,
    in_reach: bool,
    kind: Option<PlanKind>,
    materials: Seq<MaterialEntry>,
    world: &BlockWorld,
)
    ensures
        ({
            let announced = accepted_cells(cut(seq![cell]), seq![in_reach], kind, world);
            edited_all(m, announced, kind, materials) == if in_reach && admits(
                kind,
                occupied(world, cell),
            ) {
                edited(m, cell, kind, materials)
            } else {
                m
            }
        }),
{
    assert(cut(seq![cell]) =~= seq![cell]);
    reveal_with_fuel(accepted_cells, 2);
    reveal_with_fuel(edited_all, 2);
    assert(seq![cell].drop_last() =~= Seq::<IVec3>::empty());
    assert(Seq::<IVec3>::empty().push(cell).drop_last() =~= Seq::<IVec3>::empty());
}

// ---------- what edits and deliveries promise ----------

/// A plan takes of a delivery all that it lacks of the item, or all there is
/// where that is less; what it lacks of other items stays the same.
pub proof fn law_deliveries_are_taken_up(
    plan: PlanView,
    item: ItemSlot,
    count: int,
    other: ItemSlot,
)
    requires
        count >= 0,
    ensures
        ({
            let lacks = crate::protocol::remaining(plan.materials, item);
            let after = after_deposit(plan, item, count);
            &&& count <= lacks ==> deposit_taken(plan, item, count) == count
                && crate::protocol::remaining(after.materials, item) == lacks - count
            &&& count > lacks ==> deposit_taken(plan, item, count) == lacks
                && crate::protocol::remaining(after.materials, item) == 0
            &&& other != item ==> crate::protocol::remaining(after.materials, other)
                == crate::protocol::remaining(plan.materials, other)
            &&& after.kind == plan.kind
        }),
{
    law_deposit_fills_the_need(plan, item, count);
    crate::protocol::lemma_entry_for(plan.materials, item, 0);
    crate::protocol::lemma_entry_for(plan.materials, other, 0);
    if let Some(k) = entry_for(plan.materials, item, 0) {
        let after = after_deposit(plan, item, count).materials;
        lemma_entry_survives(plan.materials, after, other, 0);
    }
}

/// Building is planned only in air, taking down only where a block is, and a
/// plan can be withdrawn anywhere.
pub proof fn law_plans_suit_their_cells(world: &BlockWorld, cell: IVec3, kind: PlanKind)
    ensures
        kind is Build ==> admits(Some(kind), occupied(world, cell)) == (world.slot(cell)
            == BlockSlot(0)),
        kind is Remove ==> admits(Some(kind), occupied(world, cell)) == (world.slot(cell)
            != BlockSlot(0)),
        admits(None, occupied(world, cell)),
{
}

/// A cell of a batch is accepted exactly when it is among the first that one
/// message carries, in reach, and fit for what is planned.
pub proof fn law_batches_accept_what_fits(
    cells: Seq<IVec3>,
    in_reach: Seq<bool>,
    kind: Option<PlanKind>,
    world: &BlockWorld,
    i: int,
)
    requires
        0 <= i < cells.len(),
    ensures
        ({
            let accepted = accepted_cells(cut(cells), in_reach, kind, world);
            let c = cells[i];
            let fit = match kind {
                None => true,
                Some(PlanKind::Build { .. }) => world.slot(c) == BlockSlot(0),
                Some(PlanKind::Remove) => world.slot(c) != BlockSlot(0),
            };
            &&& i < 4096 && in_reach[i] && fit ==> accepted.contains(c)
            &&& !fit ==> !accepted.contains(c)
            &&& (forall|j: int| 0 <= j < cells.len() && j < 4096 && #[trigger] cells[j] == c ==> !in_reach[j])
                ==> !accepted.contains(c)
            &&& accepted.len() <= 4096
            &&& accepted.len() <= cells.len()
        }),
{
    let all = cut(cells);
    lemma_accepted(all, in_reach, kind, world);
    let accepted = accepted_cells(all, in_reach, kind, world);
    if i < 4096 && in_reach[i] && admits(kind, occupied(world, cells[i])) {
        assert(all[i] == cells[i]);
    }
    if accepted.contains(cells[i]) {
        let k = accepted.index_of(cells[i]);
        let j = choose|j: int|
            0 <= j < all.len() && #[trigger] all[j] == accepted[k] && in_reach[j] && admits(
                kind,
                occupied(world, all[j]),
            );
        assert(all[j] == cells[j]);
    }
}

proof fn lemma_accepted(
    cells: Seq<IVec3>,
    in_reach: Seq<bool>,
    kind: Option<PlanKind>,
    world: &BlockWorld,
)
    ensures
        accepted_cells(cells, in_reach, kind, world).len() <= cells.len(),
        forall|j: int|
            0 <= j < cells.len() && in_reach[j] && admits(kind, occupied(world, cells[j]))
                ==> accepted_cells(cells, in_reach, kind, world).contains(#[trigger] cells[j]),
        forall|k: int|
            0 <= k < accepted_cells(cells, in_reach, kind, world).len() ==> exists|j: int|
                0 <= j < cells.len() && #[trigger] cells[j]
                    == #[trigger] accepted_cells(cells, in_reach, kind, world)[k] && in_reach[j]
                    && admits(kind, occupied(world, cells[j])),
    decreases cells.len(),
{
    if cells.len() > 0 {
        let rest = cells.drop_last();
        lemma_accepted(rest, in_reach, kind, world);
        let few = accepted_cells(rest, in_reach, kind, world);
        let all = accepted_cells(cells, in_reach, kind, world);
        assert forall|j: int|
            0 <= j < cells.len() && in_reach[j] && admits(kind, occupied(world, cells[j])) implies all.contains(
            #[trigger] cells[j],
        ) by {
            if j < rest.len() {
                assert(rest[j] == cells[j]);
                assert(few.contains(cells[j]));
                let k = few.index_of(cells[j]);
                assert(all[k] == cells[j]);
            } else {
                assert(all[all.len() - 1] == cells[j]);
            }
        }
        assert forall|k: int| 0 <= k < all.len() implies exists|j: int|
            0 <= j < cells.len() && #[trigger] cells[j] == #[trigger] all[k] && in_reach[j] && admits(
                kind,
                occupied(world, cells[j]),
            ) by {
            if k < few.len() {
                assert(all[k] == few[k]);
                let j = choose|j: int|
                    0 <= j < rest.len() && #[trigger] rest[j] == few[k] && in_reach[j] && admits(
                        kind,
                        occupied(world, rest[j]),
                    );
                assert(cells[j] == all[k]);
            } else {
                assert(cells[cells.len() - 1] == all[k]);
            }
        }
    }
}

/// The player is told about the first cell out of reach, and about none where
/// every cell is in reach.
pub proof fn law_players_hear_of_the_first_far_cell(
    cells: Seq<IVec3>,
    in_reach: Seq<bool>,
    k: int,
)
    ensures
        (0 <= k < cells.len() && !in_reach[k] && forall|j: int| 0 <= j < k ==> #[trigger] in_reach[j])
            ==> first_far(cells, in_reach, 0) == Some(cells[k]),
        (forall|j: int| 0 <= j < cells.len() ==> #[trigger] in_reach[j]) ==> first_far(
            cells,
            in_reach,
            0,
        ) is None,
{
    lemma_first_far(cells, in_reach, 0, k);
}

proof fn lemma_first_far(cells: Seq<IVec3>, in_reach: Seq<bool>, i: int, k: int)
    requires
        0 <= i,
    ensures
        (i <= k < cells.len() && !in_reach[k] && forall|j: int| i <= j < k ==> #[trigger] in_reach[j])
            ==> first_far(cells, in_reach, i) == Some(cells[k]),
        (forall|j: int| i <= j < cells.len() ==> #[trigger] in_reach[j]) ==> first_far(
            cells,
            in_reach,
            i,
        ) is None,
    decreases cells.len() - i,
{
    if i < cells.len() && in_reach[i] {
        lemma_first_far(cells, in_reach, i + 1, k);
    }
}

/// A fresh plan to build needs, of each known item that the block is made of,
/// as many as the block's kind says, and has none of it yet. It needs nothing
/// else, and a plan to take down needs nothing at all.
pub proof fn law_fresh_plans_need_what_the_block_says(
    kind: PlanKind,
    blocks: &BlockRegistry,
    items: &ItemRegistry,
    k: int,
)
    ensures
        kind is Remove ==> initial_materials(Some(kind), blocks, items).len() == 0,
        initial_materials(None, blocks, items).len() == 0,
        kind matches PlanKind::Build { slot, .. } ==> {
            let needs = blocks.defs@[slot.0 as int].materials@;
            let list = initial_materials(Some(kind), blocks, items);
            &&& list.len() <= needs.len()
            &&& 0 <= k < list.len() ==> list[k].present == 0
            &&& 0 <= k < needs.len() && items.find(needs[k].item@) is Some ==> list.contains(
                MaterialEntry {
                    item: items.find(needs[k].item@)->0,
                    needed: needs[k].count,
                    present: 0,
                },
            )
            &&& (forall|j: int|
                0 <= j < needs.len() ==> items.find((#[trigger] needs[j]).item@) is Some) ==> {
                &&& list.len() == needs.len()
                &&& 0 <= k < needs.len() ==> list[k] == (MaterialEntry {
                    item: items.find(needs[k].item@)->0,
                    needed: needs[k].count,
                    present: 0,
                })
            }
            &&& (forall|j: int|
                0 <= j < needs.len() ==> items.find((#[trigger] needs[j]).item@) is None)
                ==> list.len() == 0
        },
{
    if let PlanKind::Build { slot, .. } = kind {
        lemma_material_list(blocks.defs@[slot.0 as int].materials@, items, k);
    }
}

proof fn lemma_material_list(needs: Seq<MaterialNeed>, items: &ItemRegistry, k: int)
    ensures
        ({
            let list = material_list(needs, items);
            &&& list.len() <= needs.len()
            &&& 0 <= k < list.len() ==> list[k].present == 0
            &&& 0 <= k < needs.len() && items.find(needs[k].item@) is Some ==> list.contains(
                MaterialEntry {
                    item: items.find(needs[k].item@)->0,
                    needed: needs[k].count,
                    present: 0,
                },
            )
            &&& (forall|j: int|
                0 <= j < needs.len() ==> items.find((#[trigger] needs[j]).item@) is Some) ==> {
                &&& list.len() == needs.len()
                &&& 0 <= k < needs.len() ==> list[k] == (MaterialEntry {
                    item: items.find(needs[k].item@)->0,
                    needed: needs[k].count,
                    present: 0,
                })
            }
            &&& (forall|j: int|
                0 <= j < needs.len() ==> items.find((#[trigger] needs[j]).item@) is None)
                ==> list.len() == 0
        }),
    decreases needs.len(),
{
    if needs.len() > 0 {
        let rest = needs.drop_last();
        lemma_material_list(rest, items, k);
        let few = material_list(rest, items);
        let list = material_list(needs, items);
        let last = needs[needs.len() - 1];
        assert(last == needs.last());
        assert forall|j: int| 0 <= j < rest.len() implies #[trigger] rest[j] == needs[j] by {}
        if 0 <= k < needs.len() && items.find(needs[k].item@) is Some {
            let e = MaterialEntry {
                item: items.find(needs[k].item@)->0,
                needed: needs[k].count,
                present: 0,
            };
            if k < rest.len() {
                assert(rest[k] == needs[k]);
                let p = few.index_of(e);
                assert(list[p] == e);
            } else {
                assert(list[list.len() - 1] == e);
            }
        }
    }
}

} // verus!
