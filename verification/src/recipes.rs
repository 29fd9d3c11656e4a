//! Crafting recipes.

use crate::blocks::BlockDef;
use crate::items::ItemRegistry;
use crate::registry::{find_named, is_repeated, position_of, repeated, Named};
use vstd::prelude::*;

verus! {

/// Index of a recipe in the registry.
#[derive(Clone, Copy, Debug, PartialEq, Eq, Hash, Structural)]
pub struct RecipeSlot(pub u16);

pub const MIN_RECIPE_DURATION_MS: u32 = 100;

pub const MAX_RECIPE_DURATION_MS: u32 = 120000;

/// So many of an item.
pub struct ItemCount {
    pub item: String,
    pub count: u32,
}

/// One recipe.
pub struct RecipeDef {
    pub id: String,
    /// The kind of station that it is made at.
    pub station: String,
    pub tier: u8,
    pub duration_ms: u32,
    pub inputs: Vec<ItemCount>,
    pub output: ItemCount,
}

impl Named for RecipeDef {
    open spec fn name(&self) -> Seq<char> {
        self.id@
    }

    fn is_named(&self, id: &String) -> bool {
        self.id == *id
    }
}

/// Why the recipes of the mods cannot be used.
pub enum RecipeBootstrapError {
    DuplicateRecipeId(String),
    SlotOverflow { slots: usize },
    InputItemUnknown { recipe: String, item: String },
    OutputItemUnknown { recipe: String, item: String },
    StationUnreachable { recipe: String, tag: String },
    DurationOutOfRange { recipe: String, got: u32, min: u32, max: u32 },
}

/// Every recipe, by slot.
pub struct RecipeRegistry {
    pub defs: Vec<RecipeDef>,
}

/// First input whose item is unknown, from `i` on.
pub open spec fn unknown_input(inputs: Seq<ItemCount>, items: &ItemRegistry, i: int) -> Option<int>
    decreases inputs.len() - i,
{
    if i >= inputs.len() {
        None
    } else if items.find(inputs[i].item@) is None {
        Some(i)
    } else {
        unknown_input(inputs, items, i + 1)
    }
}

pub open spec fn duration_ok(def: RecipeDef) -> bool {
    MIN_RECIPE_DURATION_MS <= def.duration_ms <= MAX_RECIPE_DURATION_MS
}

/// Nothing is wrong with the `k`-th recipe.
pub open spec fn recipe_ok(defs: Seq<RecipeDef>, items: &ItemRegistry, k: int) -> bool {
    &&& !repeated(defs, k)
    &&& duration_ok(defs[k])
    &&& unknown_input(defs[k].inputs@, items, 0) is None
    &&& items.find(defs[k].output.item@) is Some
}

/// The error says what is wrong with the `k`-th recipe. Of several faults the
/// first of these counts: a repeated id, the duration, an input, the output.
pub open spec fn blames(
    e: RecipeBootstrapError,
    defs: Seq<RecipeDef>,
    items: &ItemRegistry,
    k: int,
) -> bool {
    let def = defs[k];
    match e {
        RecipeBootstrapError::DuplicateRecipeId(id) => repeated(defs, k) && id@ == def.id@,
        RecipeBootstrapError::DurationOutOfRange { recipe, got, min, max } => !repeated(defs, k)
            && !duration_ok(def) && recipe@ == def.id@ && got == def.duration_ms && min
            == MIN_RECIPE_DURATION_MS && max == MAX_RECIPE_DURATION_MS,
        RecipeBootstrapError::InputItemUnknown { recipe, item } => !repeated(defs, k)
            && duration_ok(def) && (unknown_input(def.inputs@, items, 0) matches Some(i) && item@
            == def.inputs@[i].item@) && recipe@ == def.id@,
        RecipeBootstrapError::OutputItemUnknown { recipe, item } => !repeated(defs, k)
            && duration_ok(def) && unknown_input(def.inputs@, items, 0) is None && items.find(
            def.output.item@,
        ) is None && recipe@ == def.id@ && item@ == def.output.item@,
        _ => false,
    }
}

/// The error names the first recipe that something is wrong with.
pub open spec fn first_blamed(
    e: RecipeBootstrapError,
    defs: Seq<RecipeDef>,
    items: &ItemRegistry,
) -> bool {
    exists|k: int|
        0 <= k < defs.len() && #[trigger] blames(e, defs, items, k) && forall|j: int|
            0 <= j < k ==> #[trigger] recipe_ok(defs, items, j)
}

/// Slots of the recipes for a kind of station up to a tier, in order.
pub open spec fn slots_at(defs: Seq<RecipeDef>, tag: Seq<char>, max_tier: int) -> Seq<RecipeSlot>
    decreases defs.len(),
{
    if defs.len() == 0 {
        Seq::empty()
    } else {
        let rest = slots_at(defs.drop_last(), tag, max_tier);
        if defs.last().station@ == tag && defs.last().tier <= max_tier {
            rest.push(RecipeSlot((defs.len() - 1) as u16))
        } else {
            rest
        }
    }
}

/// Some block is a station of this kind.
pub open spec fn station_exists(blocks: Seq<BlockDef>, tag: Seq<char>) -> bool {
    exists|i: int|
        0 <= i < blocks.len() && ((#[trigger] blocks[i]).station_tag matches Some(t) && t@ == tag)
}

fn has_station(blocks: &Vec<BlockDef>, tag: &String) -> (r: bool)
    ensures
        r == station_exists(blocks@, tag@),
{
    let mut i: usize = 0;
    while i < blocks.len()
        invariant
            i <= blocks@.len(),
            forall|k: int|
                0 <= k < i ==> !((#[trigger] blocks@[k]).station_tag matches Some(t) && t@ == tag@),
        decreases blocks@.len() - i,
    {
        if let Some(t) = &blocks[i].station_tag {
            if *t == *tag {
                return true;
            }
        }
        i = i + 1;
    }
    false
}

fn find_unknown_input(inputs: &Vec<ItemCount>, items: &ItemRegistry) -> (r: Option<usize>)
    requires
        items.valid(),
    ensures
        match r {
            Some(i) => unknown_input(inputs@, items, 0) == Some(i as int) && i < inputs@.len(),
            None => unknown_input(inputs@, items, 0) is None,
        },
{
    let mut i: usize = 0;
    while i < inputs.len()
        invariant
            items.valid(),
            i <= inputs@.len(),
            unknown_input(inputs@, items, 0) == unknown_input(inputs@, items, i as int),
        decreases inputs@.len() - i,
    {
        if items.slot_of(&inputs[i].item).is_none() {
            return Some(i);
        }
        i = i + 1;
    }
    None
}

/// The error names the first recipe that can be made nowhere.
pub open spec fn station_blamed(
    defs: Seq<RecipeDef>,
    blocks: Seq<BlockDef>,
    e: RecipeBootstrapError,
) -> bool {
    match e {
        RecipeBootstrapError::StationUnreachable { recipe, tag } => exists|k: int|
            0 <= k < defs.len() && (#[trigger] defs[k]).id@ == recipe@ && defs[k].station@ == tag@
                && !station_exists(blocks, tag@) && forall|j: int|
                0 <= j < k ==> station_exists(blocks, (#[trigger] defs[j]).station@),
        _ => false,
    }
}

impl RecipeRegistry {
    /// What building a registry guarantees.
    pub open spec fn valid(&self) -> bool {
        self.defs@.len() <= 0xffff
    }

    /// Checks the recipes and gives them slots in order.
    pub fn build(pending: Vec<RecipeDef>, items: &ItemRegistry) -> (r: Result<
        RecipeRegistry,
        RecipeBootstrapError,
    >)
        requires
            items.valid(),
        ensures
            match r {
                Ok(reg) => reg.defs == pending && reg.valid() && forall|k: int|
                    0 <= k < pending@.len() ==> #[trigger] recipe_ok(pending@, items, k),
                Err(RecipeBootstrapError::SlotOverflow { slots }) => pending@.len() > 0xffff && slots
                    == pending@.len(),
                Err(e) => pending@.len() <= 0xffff && first_blamed(e, pending@, items),
            },
    {
        if pending.len() > 0xffff {
            return Err(RecipeBootstrapError::SlotOverflow { slots: pending.len() });
        }
        let mut i: usize = 0;
        while i < pending.len()
            invariant
                items.valid(),
                pending@.len() <= 0xffff,
                i <= pending@.len(),
                forall|k: int| 0 <= k < i ==> #[trigger] recipe_ok(pending@, items, k),
            decreases pending@.len() - i,
        {
            if let Some(e) = Self::fault(&pending, items, i) {
                assert(blames(e, pending@, items, i as int));
                return Err(e);
            }
            i = i + 1;
        }
        Ok(RecipeRegistry { defs: pending })
    }

    fn fault(pending: &Vec<RecipeDef>, items: &ItemRegistry, i: usize) -> (r: Option<
        RecipeBootstrapError,
    >)
        requires
            items.valid(),
            i < pending@.len(),
        ensures
            r is None ==> recipe_ok(pending@, items, i as int),
            r matches Some(e) ==> blames(e, pending@, items, i as int),
    {
        let def: &RecipeDef = &pending[i];
        if is_repeated(pending, i, &def.id) {
            return Some(RecipeBootstrapError::DuplicateRecipeId(def.id.clone()));
        }
        if def.duration_ms < MIN_RECIPE_DURATION_MS || def.duration_ms > MAX_RECIPE_DURATION_MS {
            return Some(
                RecipeBootstrapError::DurationOutOfRange {
                    recipe: def.id.clone(),
                    got: def.duration_ms,
                    min: MIN_RECIPE_DURATION_MS,
                    max: MAX_RECIPE_DURATION_MS,
                },
            );
        }
        if let Some(k) = find_unknown_input(&def.inputs, items) {
            return Some(
                RecipeBootstrapError::InputItemUnknown {
                    recipe: def.id.clone(),
                    item: def.inputs[k].item.clone(),
                },
            );
        }
        if items.slot_of(&def.output.item).is_none() {
            return Some(
                RecipeBootstrapError::OutputItemUnknown {
                    recipe: def.id.clone(),
                    item: def.output.item.clone(),
                },
            );
        }
        None
    }

    /// Checks that every recipe can be made somewhere.
    pub fn validate_against_blocks(&self, blocks: &Vec<BlockDef>) -> (r: Result<
        (),
        RecipeBootstrapError,
    >)
        ensures
            match r {
                Ok(_) => forall|k: int|
                    0 <= k < self.defs@.len() ==> station_exists(
                        blocks@,
                        (#[trigger] self.defs@[k]).station@,
                    ),
                Err(e) => station_blamed(self.defs@, blocks@, e),
            },
    {
        let mut i: usize = 0;
        while i < self.defs.len()
            invariant
                i <= self.defs@.len(),
                forall|k: int|
                    0 <= k < i ==> station_exists(blocks@, (#[trigger] self.defs@[k]).station@),
            decreases self.defs@.len() - i,
        {
            if !has_station(blocks, &self.defs[i].station) {
                assert(!station_exists(blocks@, self.defs@[i as int].station@));
                return Err(
                    RecipeBootstrapError::StationUnreachable {
                        recipe: self.defs[i].id.clone(),
                        tag: self.defs[i].station.clone(),
                    },
                );
            }
            i = i + 1;
        }
        Ok(())
    }

    pub fn def(&self, slot: RecipeSlot) -> (r: &RecipeDef)
        requires
            slot.0 < self.defs@.len(),
        ensures
            *r == self.defs@[slot.0 as int],
    {
        &self.defs[slot.0 as usize]
    }

    pub fn slot_of(&self, id: &String) -> (r: Option<RecipeSlot>)
        requires
            self.valid(),
        ensures
            match position_of(self.defs@, id@, 0) {
                Some(k) => r == Some(RecipeSlot(k as u16)) && k <= 0xffff,
                None => r is None,
            },
    {
        match find_named(&self.defs, id) {
            Some(k) => Some(RecipeSlot(k as u16)),
            None => None,
        }
    }

    pub fn slot_count(&self) -> (r: usize)
        ensures
            r == self.defs@.len(),
    {
        self.defs.len()
    }

    /// Recipes for a kind of station, in order.
    pub fn at_station(&self, tag: &String) -> (r: Vec<RecipeSlot>)
        requires
            self.valid(),
        ensures
            r@ == slots_at(self.defs@, tag@, 255),
    {
        self.at_station_tier(tag, 255)
    }

    /// Recipes for a kind of station up to a tier, in order.
    pub fn at_station_tier(&self, tag: &String, max_tier: u8) -> (r: Vec<RecipeSlot>)
        requires
            self.valid(),
        ensures
            r@ == slots_at(self.defs@, tag@, max_tier as int),
    {
        let mut out: Vec<RecipeSlot> = Vec::new();
        let mut i: usize = 0;
        assert(self.defs@.take(0) =~= Seq::empty());
        while i < self.defs.len()
            invariant
                self.valid(),
                i <= self.defs@.len(),
                out@ == slots_at(self.defs@.take(i as int), tag@, max_tier as int),
            decreases self.defs@.len() - i,
        {
            assert(self.defs@.take(i + 1).drop_last() =~= self.defs@.take(i as int));
            if self.defs[i].station == *tag && self.defs[i].tier <= max_tier {
                out.push(RecipeSlot(i as u16));
            }
            i = i + 1;
        }
        assert(self.defs@.take(self.defs@.len() as int) =~= self.defs@);
        out
    }
}

/// A station offers exactly the recipes of its kind up to its tier, each once
/// and in the order of registration.
pub proof fn law_station_offers(defs: Seq<RecipeDef>, tag: Seq<char>, max_tier: int)
    requires
        defs.len() <= 0xffff,
    ensures
        forall|k: int|
            0 <= k < defs.len() ==> (slots_at(defs, tag, max_tier).contains(RecipeSlot(k as u16))
                <==> (#[trigger] defs[k]).station@ == tag && defs[k].tier <= max_tier),
        forall|i: int, j: int|
            #![trigger slots_at(defs, tag, max_tier)[i], slots_at(defs, tag, max_tier)[j]]
            0 <= i < j < slots_at(defs, tag, max_tier).len() ==> slots_at(defs, tag, max_tier)[i].0
                < slots_at(defs, tag, max_tier)[j].0,
        forall|i: int|
            0 <= i < slots_at(defs, tag, max_tier).len() ==> (#[trigger] slots_at(
                defs,
                tag,
                max_tier,
            )[i]).0 < defs.len(),
    decreases defs.len(),
{
    if defs.len() > 0 {
        let rest = slots_at(defs.drop_last(), tag, max_tier);
        law_station_offers(defs.drop_last(), tag, max_tier);
        let all = slots_at(defs, tag, max_tier);
        let n = defs.len() - 1;
        assert forall|k: int| 0 <= k < defs.len() implies (all.contains(RecipeSlot(k as u16)) <==> (
        #[trigger] defs[k]).station@ == tag && defs[k].tier <= max_tier) by {
            if k < n {
                assert(defs.drop_last()[k] == defs[k]);
                if rest.contains(RecipeSlot(k as u16)) {
                    let i = rest.index_of(RecipeSlot(k as u16));
                    assert(all[i] == RecipeSlot(k as u16));
                }
                if all.contains(RecipeSlot(k as u16)) {
                    let i = all.index_of(RecipeSlot(k as u16));
                    assert(rest[i] == RecipeSlot(k as u16));
                }
            } else {
                if all.len() > rest.len() {
                    assert(all[rest.len() as int] == RecipeSlot(n as u16));
                }
                if all.contains(RecipeSlot(n as u16)) && all.len() == rest.len() {
                    let i = all.index_of(RecipeSlot(n as u16));
                    assert(rest[i].0 < n);
                }
            }
        }
    }
}

/// A recipe is accepted exactly if no earlier one has its id, it takes between
/// a tenth of a second and two minutes, and its output and every one of its
/// inputs is an item that exists.
pub proof fn law_accepted_recipes(defs: Seq<RecipeDef>, items: &ItemRegistry, k: int)
    requires
        0 <= k < defs.len(),
    ensures
        recipe_ok(defs, items, k) <==> {
            &&& forall|j: int| 0 <= j < k ==> (#[trigger] defs[j]).id@ != defs[k].id@
            &&& 100 <= defs[k].duration_ms <= 120000
            &&& forall|i: int|
                0 <= i < defs[k].inputs@.len() ==> items.find(
                    (#[trigger] defs[k].inputs@[i]).item@,
                ) is Some
            &&& items.find(defs[k].output.item@) is Some
        },
{
    lemma_unknown_input(defs[k].inputs@, items, 0);
    if !repeated(defs, k) {
        assert forall|j: int| 0 <= j < k implies (#[trigger] defs[j]).id@ != defs[k].id@ by {
            assert(defs[j].name() == defs[j].id@);
        }
    } else {
        let j = choose|j: int| 0 <= j < k && (#[trigger] defs[j]).name() == defs[k].name();
        assert(defs[j].id@ == defs[k].id@);
    }
}

/// The input found is the first whose item is unknown.
proof fn lemma_unknown_input(inputs: Seq<ItemCount>, items: &ItemRegistry, i: int)
    requires
        0 <= i <= inputs.len(),
    ensures
        match unknown_input(inputs, items, i) {
            Some(k) => i <= k < inputs.len() && items.find(inputs[k].item@) is None && forall|j: int|
                i <= j < k ==> items.find((#[trigger] inputs[j]).item@) is Some,
            None => forall|j: int|
                i <= j < inputs.len() ==> items.find((#[trigger] inputs[j]).item@) is Some,
        },
    decreases inputs.len() - i,
{
    if i < inputs.len() && items.find(inputs[i].item@) is Some {
        lemma_unknown_input(inputs, items, i + 1);
    }
}

/// A refused recipe really has the fault that it is refused for: the id of an
/// earlier one, a duration outside of the limits, which are reported too, or
/// an item that does not exist.
pub proof fn law_blamed_recipes_are_at_fault(
    e: RecipeBootstrapError,
    defs: Seq<RecipeDef>,
    items: &ItemRegistry,
    k: int,
)
    requires
        0 <= k < defs.len(),
        blames(e, defs, items, k),
    ensures
        !recipe_ok(defs, items, k),
        match e {
            RecipeBootstrapError::DuplicateRecipeId(id) => id@ == defs[k].id@ && exists|j: int|
                0 <= j < k && (#[trigger] defs[j]).id@ == id@,
            RecipeBootstrapError::DurationOutOfRange { recipe, got, min, max } => recipe@
                == defs[k].id@ && got == defs[k].duration_ms && (got < 100 || got > 120000) && min
                == 100 && max == 120000,
            RecipeBootstrapError::InputItemUnknown { recipe, item } => recipe@ == defs[k].id@
                && items.find(item@) is None && exists|i: int|
                0 <= i < defs[k].inputs@.len() && (#[trigger] defs[k].inputs@[i]).item@ == item@,
            RecipeBootstrapError::OutputItemUnknown { recipe, item } => recipe@ == defs[k].id@
                && items.find(item@) is None && item@ == defs[k].output.item@,
            _ => false,
        },
{
    lemma_unknown_input(defs[k].inputs@, items, 0);
    if repeated(defs, k) {
        let j = choose|j: int| 0 <= j < k && (#[trigger] defs[j]).name() == defs[k].name();
        assert(defs[j].id@ == defs[k].id@);
    }
    if let RecipeBootstrapError::InputItemUnknown { recipe, item } = e {
        let i = unknown_input(defs[k].inputs@, items, 0)->0;
        assert(defs[k].inputs@[i].item@ == item@);
    }
}

/// A recipe refused for its station really names one that no block is.
pub proof fn law_stations_blamed_do_not_exist(
    defs: Seq<RecipeDef>,
    blocks: Seq<BlockDef>,
    e: RecipeBootstrapError,
)
    requires
        station_blamed(defs, blocks, e),
    ensures
        e is StationUnreachable,
        exists|k: int|
            0 <= k < defs.len() && (#[trigger] defs[k]).id@ == (e->StationUnreachable_recipe)@
                && defs[k].station@ == (e->tag)@,
        forall|i: int|
            0 <= i < blocks.len() ==> (#[trigger] blocks[i]).station_tag is None || (
            blocks[i].station_tag->0)@ != (e->tag)@,
{
}

} // verus!
