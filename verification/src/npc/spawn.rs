//! The first villagers of a world, and what happens when one is gone.

use crate::cells::IVec3;
use crate::npc::holds::{
    booking_released, haul_released, BookingView, CraftBookings, HaulStore, HaulView,
    InteractionClaims, InteractionView,
};
use crate::npc::needs::{NeedLevel, Needs};
use crate::npc::rng::{bits_of, next_bits, next_seed, seed_after};
use crate::npc::{NpcId, NpcIdAllocator};
use crate::npc_registry::{DefaultNeed, DefaultNeeds, NpcKindRegistry, StatDef};
use crate::registry::{distinct, repeated, Named};
use crate::plan_claims::{claims_without, PlanClaims};
use vstd::prelude::*;

verus! {

/// A stat of a villager.
pub struct StatValue {
    pub id: String,
    pub value: i64,
}

pub fn copy_stats(stats: &Vec<StatValue>) -> (r: Vec<StatValue>)
    ensures
        r@ == stats@,
{
    let mut out: Vec<StatValue> = Vec::new();
    let mut i: usize = 0;
    while i < stats.len()
        invariant
            i <= stats@.len(),
            out@ == stats@.take(i as int),
        decreases stats@.len() - i,
    {
        out.push(StatValue { id: stats[i].id.clone(), value: stats[i].value });
        assert(out@ =~= stats@.take(i + 1));
        i = i + 1;
    }
    assert(out@ =~= stats@);
    out
}

/// A value between the bounds of a stat.
pub open spec fn rolled_value(def: StatDef, bits: u32) -> int {
    def.min + bits * (def.max - def.min) / 0x1_0000_0000
}

/// One value for each stat, in order, from successive draws.
pub open spec fn rolled(defs: Seq<StatDef>, seed: u64) -> Seq<StatValue> {
    Seq::new(
        defs.len(),
        |i: int|
            StatValue {
                id: defs[i].id,
                value: rolled_value(defs[i], bits_of(seed_after(seed, i as nat))) as i64,
            },
    )
}

fn roll(def: &StatDef, bits: u32) -> (r: i64)
    ensures
        r == rolled_value(*def, bits),
{
    let span: i128 = def.max as i128 - def.min as i128;
    if span >= 0 {
        assert(0 <= bits * span <= 0x1_0000_0000 * span) by (nonlinear_arith)
            requires
                0 <= bits < 0x1_0000_0000,
                0 <= span,
        ;
        let part: i128 = bits as i128 * span / 0x1_0000_0000;
        (def.min as i128 + part) as i64
    } else {
        let down: i128 = -span;
        assert(0 <= bits * down <= 0x1_0000_0000 * down && bits * span == -(bits * down))
            by (nonlinear_arith)
            requires
                0 <= bits < 0x1_0000_0000,
                0 <= down,
                down == -span,
        ;
        let part: i128 = (bits as i128 * down + 0xffff_ffff) / 0x1_0000_0000;
        assert((bits * span) / 0x1_0000_0000 == -part);
        (def.min as i128 - part) as i64
    }
}

/// Rolls the stats of a new villager.
pub fn roll_stats(defs: &Vec<StatDef>, seed: &mut u64) -> (r: Vec<StatValue>)
    ensures
        r@ == rolled(defs@, *old(seed)),
        *final(seed) == seed_after(*old(seed), defs@.len()),
{
    let mut out: Vec<StatValue> = Vec::new();
    let mut i: usize = 0;
    proof {
        reveal(seed_after);
    }
    while i < defs.len()
        invariant
            i <= defs@.len(),
            *seed == seed_after(*old(seed), i as nat),
            out@ == rolled(defs@, *old(seed)).take(i as int),
        decreases defs@.len() - i,
    {
        let bits: u32 = next_bits(seed);
        let value: i64 = roll(&defs[i], bits);
        out.push(StatValue { id: defs[i].id.clone(), value });
        assert(out@ =~= rolled(defs@, *old(seed)).take(i + 1));
        proof {
            reveal(seed_after);
            assert(seed_after(*old(seed), (i + 1) as nat) == next_seed(
                seed_after(*old(seed), i as nat),
            ));
        }
        i = i + 1;
    }
    assert(out@ =~= rolled(defs@, *old(seed)));
    out
}

/// A stat never leaves its bounds.
pub proof fn law_stats_stay_in_bounds(def: StatDef, bits: u32)
    requires
        def.min <= def.max,
    ensures
        def.min <= rolled_value(def, bits) <= def.max,
{
    let span = def.max - def.min;
    assert(0 <= bits * span <= 0x1_0000_0000 * span) by (nonlinear_arith)
        requires
            0 <= bits < 0x1_0000_0000,
            0 <= span,
    ;
}

/// A villager about to come into the world.
pub struct NewVillager {
    pub id: NpcId,
    pub cell: IVec3,
    pub seed: u64,
    pub needs: Needs,
    pub stats: Vec<StatValue>,
}

/// Where the first villagers appear.
pub open spec fn first_cells() -> Seq<IVec3> {
    seq![
        IVec3 { x: 4, y: 32, z: 60 },
        IVec3 { x: 6, y: 32, z: 62 },
        IVec3 { x: 2, y: 32, z: 62 },
        IVec3 { x: 4, y: 32, z: 64 },
    ]
}

/// The needs of a new villager.
pub open spec fn birth_needs(list: Seq<DefaultNeed>) -> Seq<NeedLevel> {
    Seq::new(list.len(), |i: int| NeedLevel { id: list[i].need, level: list[i].level })
}

/// The seed of a villager before anything was drawn from it.
pub open spec fn birth_seed(id: u64) -> u64 {
    0xDEAD_BEEF_CAFE_F00Du64 ^ id
}

/// The villager is as its kind says; an unknown kind has no needs and no stats.
pub open spec fn born(v: NewVillager, id: int, cell: IVec3, kinds: &NpcKindRegistry, kind: Seq<char>)
    -> bool {
    &&& v.id.0 == id
    &&& v.cell == cell
    &&& match kinds.find(kind) {
        Some(def) => {
            &&& v.needs@ == birth_needs(def.default_needs@)
            &&& distinct(v.needs@)
            &&& v.stats@ == rolled(def.stats@, birth_seed(v.id.0))
            &&& v.seed == seed_after(birth_seed(v.id.0), def.stats@.len())
        },
        None => v.needs@.len() == 0 && v.stats@.len() == 0 && v.seed == birth_seed(v.id.0),
    }
}

fn copy_needs(list: &DefaultNeeds) -> (r: Needs)
    ensures
        r@ == birth_needs(list@),
        distinct(r@),
{
    let n: usize = list.len();
    let mut levels: Vec<NeedLevel> = Vec::new();
    let mut i: usize = 0;
    while i < n
        invariant
            i <= n,
            n == list@.len(),
            distinct(list@),
            levels@ == birth_needs(list@).take(i as int),
        decreases list@.len() - i,
    {
        let need: &DefaultNeed = list.at(i);
        levels.push(NeedLevel { id: need.need.clone(), level: need.level });
        assert(levels@ =~= birth_needs(list@).take(i + 1));
        i = i + 1;
    }
    assert(levels@ =~= birth_needs(list@));
    assert forall|k: int| 0 <= k < levels@.len() implies !#[trigger] repeated(levels@, k) by {
        if repeated(levels@, k) {
            let j = choose|j: int|
                0 <= j < k && (#[trigger] levels@[j]).name() == levels@[k].name();
            assert(list@[j].name() == list@[k].name());
            assert(repeated(list@, k));
        }
    }
    Needs { levels }
}

fn make_villager(id: NpcId, cell: IVec3, kinds: &NpcKindRegistry, kind: &String) -> (r: NewVillager)
    ensures
        born(r, id.0 as int, cell, kinds, kind@),
{
    let mut seed: u64 = 0xDEAD_BEEF_CAFE_F00D ^ id.0;
    match kinds.get(kind) {
        Some(def) => {
            let stats: Vec<StatValue> = roll_stats(&def.stats, &mut seed);
            NewVillager { id, cell, seed, needs: copy_needs(&def.default_needs), stats }
        },
        None => NewVillager {
            id,
            cell,
            seed,
            needs: Needs { levels: Vec::new() },
            stats: Vec::new(),
        },
    }
}

/// Makes the first villagers when the first player comes, once, and only in a
/// world that has none.
pub fn initial_villagers(
    done: &mut bool,
    any_present: bool,
    kinds: &NpcKindRegistry,
    kind: &String,
    ids: &mut NpcIdAllocator,
) -> (r: Vec<NewVillager>)
    requires
        old(ids).next <= u64::MAX - 4,
    ensures
        *final(done),
        *old(done) || any_present ==> r@.len() == 0 && final(ids).next == old(ids).next,
        !*old(done) && !any_present ==> {
            &&& r@.len() == 4
            &&& final(ids).next == old(ids).next + 4
            &&& forall|i: int|
                0 <= i < 4 ==> born(
                    #[trigger] r@[i],
                    old(ids).next + i,
                    first_cells()[i],
                    kinds,
                    kind@,
                )
            &&& r@[0].cell == (IVec3 { x: 4, y: 32, z: 60 })
            &&& r@[1].cell == (IVec3 { x: 6, y: 32, z: 62 })
            &&& r@[2].cell == (IVec3 { x: 2, y: 32, z: 62 })
            &&& r@[3].cell == (IVec3 { x: 4, y: 32, z: 64 })
        },
{
    let mut out: Vec<NewVillager> = Vec::new();
    let skip: bool = *done || any_present;
    *done = true;
    if skip {
        return out;
    }
    let cells: [IVec3; 4] = [
        IVec3::new(4, 32, 60),
        IVec3::new(6, 32, 62),
        IVec3::new(2, 32, 62),
        IVec3::new(4, 32, 64),
    ];
    let mut i: usize = 0;
    while i < 4
        invariant
            i <= 4,
            old(ids).next <= u64::MAX - 4,
            ids.next == old(ids).next + i,
            cells@ == first_cells(),
            out@.len() == i,
            forall|k: int|
                0 <= k < i ==> born(
                    #[trigger] out@[k],
                    old(ids).next + k,
                    first_cells()[k],
                    kinds,
                    kind@,
                ),
        decreases 4 - i,
    {
        let id: NpcId = ids.allocate();
        out.push(make_villager(id, cells[i], kinds, kind));
        i = i + 1;
    }
    out
}

/// Frees everything that a villager held when it is gone.
pub fn release_everything(
    npc: NpcId,
    entity: u64,
    plan_claims: &mut PlanClaims,
    things: &mut InteractionClaims,
    haul: &mut HaulStore,
    bookings: &mut CraftBookings,
)
    ensures
        final(plan_claims)@ == claims_without(old(plan_claims)@, npc),
        final(things)@ == (InteractionView {
            claims: claims_without(old(things)@.claims, npc),
            ..old(things)@
        }),
        final(haul)@ == haul_released(old(haul)@, npc),
        final(bookings)@ == booking_released(old(bookings)@, npc, entity),
{
    plan_claims.release_all_for(npc);
    things.release_all_for(npc);
    haul.release_for_npc(npc);
    bookings.release_npc_booking(npc, entity);
}

/// Nothing is held by a villager that is gone.
pub proof fn law_nothing_is_left_behind(
    claims: Map<IVec3, NpcId>,
    things: InteractionView,
    haul: HaulView,
    bookings: BookingView,
    npc: NpcId,
    entity: u64,
    cell: IVec3,
    item: u64,
)
    ensures
        claims_without(claims, npc).contains_key(cell) ==> claims_without(claims, npc)[cell] != npc,
        claims_without(things.claims, npc).contains_key(cell) ==> claims_without(
            things.claims,
            npc,
        )[cell] != npc,
        !haul_released(haul, npc).assignments.contains_key(npc.0),
        haul_released(haul, npc).reserved.contains_key(item) ==> haul_released(
            haul,
            npc,
        ).reserved[item] != npc,
        !booking_released(bookings, npc, entity).stations.contains_key(npc.0),
{
}

/// The smallest draw gives a stat its lower bound, and a larger draw never a
/// smaller value.
pub proof fn law_stats_grow_with_the_draw(def: StatDef, a: u32, b: u32)
    requires
        def.min <= def.max,
        a <= b,
    ensures
        rolled_value(def, 0) == def.min,
        rolled_value(def, a) <= rolled_value(def, b),
        def.max - def.min <= 0x1_0000_0000 && def.min < def.max ==> rolled_value(def, 0xffff_ffff)
            == def.max - 1,
        (rolled_value(def, a) - def.min) * 0x1_0000_0000 <= a * (def.max - def.min) < (rolled_value(
            def,
            a,
        ) - def.min + 1) * 0x1_0000_0000,
{
    let span = def.max - def.min;
    assert(a * span <= b * span) by (nonlinear_arith)
        requires
            0 <= a <= b,
            0 <= span,
    ;
    let x = a * span;
    let y = b * span;
    assert(x / 0x1_0000_0000 <= y / 0x1_0000_0000) by (nonlinear_arith)
        requires
            x <= y,
    ;
    assert(0 * span == 0) by (nonlinear_arith);
    let top = 0xffff_ffff * span;
    if 0 < span <= 0x1_0000_0000 {
        assert(top / 0x1_0000_0000 == span - 1) by (nonlinear_arith)
            requires
                top == 0xffff_ffff * span,
                0 < span <= 0x1_0000_0000,
        ;
    }
}

/// A villager comes into the world with the needs of its kind, each at the level
/// that the kind says, one stat of each that the kind has, each from a draw of
/// its own, and the id and place that it was given.
pub proof fn law_villagers_are_born_as_their_kind(
    v: NewVillager,
    id: int,
    cell: IVec3,
    kinds: &NpcKindRegistry,
    kind: Seq<char>,
    k: int,
)
    requires
        born(v, id, cell, kinds, kind),
    ensures
        v.id.0 == id,
        v.cell == cell,
        kinds.find(kind) is None ==> v.needs@.len() == 0 && v.stats@.len() == 0,
        kinds.find(kind) matches Some(def) ==> {
            &&& v.needs@.len() == def.default_needs@.len()
            &&& 0 <= k < v.needs@.len() ==> {
                &&& v.needs@[k].id == def.default_needs@[k].need
                &&& v.needs@[k].level == def.default_needs@[k].level
                &&& crate::npc::needs::level_of(v.needs@, def.default_needs@[k].need@)
                    == def.default_needs@[k].level
            }
            &&& v.stats@.len() == def.stats@.len()
            &&& 0 <= k < v.stats@.len() ==> v.stats@[k].id == def.stats@[k].id
            &&& 0 <= k < v.stats@.len() && def.stats@[k].min <= def.stats@[k].max
                ==> v.stats@[k].value == rolled_value(
                def.stats@[k],
                bits_of(seed_after(birth_seed(v.id.0), k as nat)),
            )
            &&& v.seed == seed_after(birth_seed(v.id.0), v.stats@.len())
        },
        kinds.find(kind) is None ==> v.seed == birth_seed(v.id.0),
{
    if let Some(def) = kinds.find(kind) {
        if 0 <= k < v.needs@.len() {
            crate::registry::law_distinct_ids_are_found(v.needs@, k);
        }
        if 0 <= k < v.stats@.len() && def.stats@[k].min <= def.stats@[k].max {
            law_stats_stay_in_bounds(
                def.stats@[k],
                bits_of(seed_after(birth_seed(v.id.0), k as nat)),
            );
        }
    }
}

/// Villagers with different ids draw from different seeds.
pub proof fn law_villagers_draw_for_themselves(a: u64, b: u64)
    ensures
        a != b ==> birth_seed(a) != birth_seed(b),
        birth_seed(a) ^ a == 0xDEAD_BEEF_CAFE_F00D,
{
    assert(a != b ==> (0xDEAD_BEEF_CAFE_F00Du64 ^ a) != (0xDEAD_BEEF_CAFE_F00Du64 ^ b))
        by (bit_vector);
    assert((0xDEAD_BEEF_CAFE_F00Du64 ^ a) ^ a == 0xDEAD_BEEF_CAFE_F00D) by (bit_vector);
}

} // verus!
