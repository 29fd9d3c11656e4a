//! What mods hand to the engine: their declarations at load time, and toasts
//! while the game runs.

use crate::blocks::BlockDef;
use crate::cells::IVec3;
use crate::items::ItemRegistry;
use crate::npc_registry::{
    defaults_blamed, first_kind_blamed, first_repeated, kind_ok, AnimationDef, AnimationRegistry,
    NeedDef, NeedRegistry, NpcBootstrapError, NpcKindDef, NpcKindRegistry, WorkDefaults,
    WorkDefaultsRes,
};
use crate::recipes::{
    blames, first_blamed, recipe_ok, station_blamed, station_exists, RecipeBootstrapError,
    RecipeDef, RecipeRegistry,
};
use crate::registry::{distinct, lemma_position, position_of, Named};
use crate::rooms::patterns::{
    climb_end, ids_distinct, patterns_blamed, RoomBootstrapError, RoomPattern,
    RoomPatternRegistry,
};
use vstd::prelude::*;
use vstd::string::*;
use vstd::utf8::*;

verus! {

// ---------- toasts ----------

/// The most bytes of a toast that are shown.
pub const TOAST_TEXT_MAX: usize = 120;

/// A short text that floats over a cell.
pub struct WorldToast {
    pub cell: IVec3,
    pub text: String,
}

/// What a cut toast keeps of its text leaves room for the ellipsis.
pub const TOAST_KEPT_MAX: usize = 117;

/// `end` is the last place where the text can be cut and the ellipsis still
/// fits.
pub open spec fn toast_cut(text: Seq<char>, end: int) -> bool {
    let bytes = encode_utf8(text);
    &&& 0 <= end <= TOAST_KEPT_MAX
    &&& is_char_boundary(bytes, end)
    &&& forall|k: int| end < k <= TOAST_KEPT_MAX ==> !is_char_boundary(bytes, k)
}

proof fn lemma_encode_push(text: Seq<char>, c: char)
    ensures
        encode_utf8(text.push(c)) == encode_utf8(text) + encode_scalar(c as u32),
    decreases text.len(),
{
    let all = text.push(c);
    if text.len() == 0 {
        assert(all.drop_first() =~= Seq::empty());
        assert(encode_utf8(all.drop_first()) =~= Seq::empty());
        assert(encode_utf8(all) =~= encode_utf8(text) + encode_scalar(c as u32));
    } else {
        lemma_encode_push(text.drop_first(), c);
        assert(all.drop_first() =~= text.drop_first().push(c));
        assert(encode_utf8(all) =~= encode_utf8(text) + encode_scalar(c as u32));
    }
}

/// The text that a toast shows: all of it if it fits, and else as many whole
/// characters as fit before an ellipsis.
pub open spec fn toast_text(text: Seq<char>, shown: Seq<char>) -> bool {
    if encode_utf8(text).len() <= TOAST_TEXT_MAX {
        shown == text
    } else {
        exists|end: int, kept: Seq<char>|
            toast_cut(text, end) && #[trigger] encode_utf8(kept) == #[trigger] encode_utf8(
                text,
            ).subrange(0, end) && shown == kept + "…"@
    }
}

/// Cuts a toast to its limit.
pub fn shorten_toast(text: &String) -> (r: String)
    ensures
        toast_text(text@, r@),
        encode_utf8(r@).len() <= TOAST_TEXT_MAX,
{
    let s: &str = text.as_str();
    if s.as_bytes().len() <= TOAST_TEXT_MAX {
        return text.clone();
    }
    let ghost bytes = encode_utf8(text@);
    let mut end: usize = TOAST_KEPT_MAX;
    while !s.is_char_boundary(end)
        invariant
            s@ == text@,
            bytes == encode_utf8(text@),
            bytes.len() > TOAST_TEXT_MAX,
            end <= TOAST_KEPT_MAX,
            forall|k: int| end < k <= TOAST_KEPT_MAX ==> !is_char_boundary(bytes, k),
        decreases end,
    {
        proof {
            encode_utf8_valid_utf8(text@);
        }
        assert(is_char_boundary(bytes, 0));
        end = end - 1;
    }
    let (kept, _) = s.split_at(end);
    let mut out: String = kept.to_owned();
    out.append("…");
    proof {
        assert(toast_cut(text@, end as int));
        assert(encode_utf8(kept@) == encode_utf8(text@).subrange(0, end as int));
        reveal_strlit("…");
        assert(out@ =~= kept@.push('…'));
        lemma_encode_push(kept@, '…');
        assert(encode_scalar('…' as u32).len() == 3);
    }
    out
}

// ---------- declarations ----------

/// Everything that the mods declared, unchecked.
pub struct PendingDeclarations {
    pub recipes: Vec<RecipeDef>,
    pub rooms: Vec<RoomPattern>,
    pub needs: Vec<NeedDef>,
    pub work_defaults: Option<WorkDefaults>,
    pub animations: Vec<AnimationDef>,
    pub npc_kinds: Vec<NpcKindDef>,
}

/// Everything that the mods declared, checked.
pub struct Declarations {
    pub recipes: RecipeRegistry,
    pub rooms: RoomPatternRegistry,
    pub needs: NeedRegistry,
    pub work_defaults: WorkDefaultsRes,
    pub animations: AnimationRegistry,
    pub npc_kinds: NpcKindRegistry,
}

/// The first thing that is wrong with the declarations.
pub enum LoadError {
    Recipes(RecipeBootstrapError),
    Stations(RecipeBootstrapError),
    Rooms(RoomBootstrapError),
    Needs(NpcBootstrapError),
    WorkDefaults(NpcBootstrapError),
    Animations(NpcBootstrapError),
    NpcKinds(NpcBootstrapError),
}

pub open spec fn recipes_load(p: PendingDeclarations, items: &ItemRegistry) -> bool {
    &&& p.recipes@.len() <= 0xffff
    &&& forall|k: int| 0 <= k < p.recipes@.len() ==> #[trigger] recipe_ok(p.recipes@, items, k)
}

pub open spec fn stations_load(p: PendingDeclarations, blocks: Seq<BlockDef>) -> bool {
    forall|k: int|
        0 <= k < p.recipes@.len() ==> station_exists(blocks, (#[trigger] p.recipes@[k]).station@)
}

pub open spec fn rooms_load(p: PendingDeclarations) -> bool {
    &&& ids_distinct(p.rooms@, p.rooms@.len() as int)
    &&& forall|i: int| 0 <= i < p.rooms@.len() ==> #[trigger] climb_end(p.rooms@, i) is Root
}

/// The work defaults that apply.
pub open spec fn effective_defaults(p: PendingDeclarations) -> WorkDefaults {
    match p.work_defaults {
        Some(d) => d,
        None => WorkDefaults { duration_ms: 4000, need_restore: None, worn_down: None },
    }
}

pub open spec fn defaults_load(p: PendingDeclarations) -> bool {
    &&& effective_defaults(p).duration_ms > 0
    &&& effective_defaults(p).need_restore matches Some(nr) ==> position_of(
        p.needs@,
        nr.need@,
        0,
    ) is Some
}

pub open spec fn kinds_load(p: PendingDeclarations) -> bool {
    forall|k: int|
        0 <= k < p.npc_kinds@.len() ==> #[trigger] kind_ok(
            p.npc_kinds@,
            &NeedRegistry { defs: p.needs },
            &AnimationRegistry { defs: p.animations },
            k,
        )
}

/// Checks the declarations of all mods, one group after the other, and stops
/// at the first group with a fault.
pub fn load_declarations(
    pending: PendingDeclarations,
    blocks: &Vec<BlockDef>,
    items: &ItemRegistry,
) -> (r: Result<Declarations, LoadError>)
    requires
        items.valid(),
        pending.rooms@.len() < u32::MAX,
    ensures
        match r {
            Ok(d) => {
                &&& recipes_load(pending, items)
                &&& stations_load(pending, blocks@)
                &&& rooms_load(pending)
                &&& distinct(pending.needs@)
                &&& defaults_load(pending)
                &&& distinct(pending.animations@)
                &&& kinds_load(pending)
                &&& d.recipes.defs == pending.recipes
                &&& d.rooms.patterns() == pending.rooms@
                &&& d.needs.defs == pending.needs
                &&& d.work_defaults.0 == effective_defaults(pending)
                &&& d.animations.defs == pending.animations
                &&& d.npc_kinds.defs == pending.npc_kinds
            },
            Err(LoadError::Recipes(e)) => !recipes_load(pending, items) && match e {
                RecipeBootstrapError::SlotOverflow { slots } => slots == pending.recipes@.len(),
                _ => first_blamed(e, pending.recipes@, items),
            },
            Err(LoadError::Stations(e)) => recipes_load(pending, items) && !stations_load(
                pending,
                blocks@,
            ) && station_blamed(pending.recipes@, blocks@, e),
            Err(LoadError::Rooms(e)) => recipes_load(pending, items) && stations_load(
                pending,
                blocks@,
            ) && !rooms_load(pending) && patterns_blamed(pending.rooms@, e),
            Err(LoadError::Needs(e)) => recipes_load(pending, items) && stations_load(
                pending,
                blocks@,
            ) && rooms_load(pending) && (e matches NpcBootstrapError::DuplicateNeed(id)
                && first_repeated(pending.needs@, id@)),
            Err(LoadError::WorkDefaults(e)) => recipes_load(pending, items) && stations_load(
                pending,
                blocks@,
            ) && rooms_load(pending) && distinct(pending.needs@) && !defaults_load(pending)
                && defaults_blamed(
                effective_defaults(pending),
                &NeedRegistry { defs: pending.needs },
                e,
            ),
            Err(LoadError::Animations(e)) => recipes_load(pending, items) && stations_load(
                pending,
                blocks@,
            ) && rooms_load(pending) && distinct(pending.needs@) && defaults_load(pending) && (
            e matches NpcBootstrapError::DuplicateAnimation(id) && first_repeated(
                pending.animations@,
                id@,
            )),
            Err(LoadError::NpcKinds(e)) => recipes_load(pending, items) && stations_load(
                pending,
                blocks@,
            ) && rooms_load(pending) && distinct(pending.needs@) && defaults_load(pending)
                && distinct(pending.animations@) && first_kind_blamed(
                e,
                pending.npc_kinds@,
                &NeedRegistry { defs: pending.needs },
                &AnimationRegistry { defs: pending.animations },
            ),
        },
{
    let recipes: RecipeRegistry = match RecipeRegistry::build(pending.recipes, items) {
        Ok(r) => r,
        Err(e) => {
            proof {
                if first_blamed(e, pending.recipes@, items) {
                    let k = choose|k: int|
                        0 <= k < pending.recipes@.len() && #[trigger] blames(
                            e,
                            pending.recipes@,
                            items,
                            k,
                        ) && forall|j: int|
                            0 <= j < k ==> #[trigger] recipe_ok(pending.recipes@, items, j);
                    assert(!recipe_ok(pending.recipes@, items, k));
                }
            }
            return Err(LoadError::Recipes(e));
        },
    };
    match recipes.validate_against_blocks(blocks) {
        Ok(_) => {},
        Err(e) => {
            return Err(LoadError::Stations(e));
        },
    }
    let rooms: RoomPatternRegistry = match RoomPatternRegistry::build(pending.rooms) {
        Ok(r) => r,
        Err(e) => {
            return Err(LoadError::Rooms(e));
        },
    };
    let needs: NeedRegistry = match NeedRegistry::build(pending.needs) {
        Ok(r) => r,
        Err(e) => {
            return Err(LoadError::Needs(e));
        },
    };
    let work_defaults: WorkDefaultsRes = match WorkDefaultsRes::build(
        pending.work_defaults,
        &needs,
    ) {
        Ok(r) => r,
        Err(e) => {
            return Err(LoadError::WorkDefaults(e));
        },
    };
    let animations: AnimationRegistry = match AnimationRegistry::build(pending.animations) {
        Ok(r) => r,
        Err(e) => {
            return Err(LoadError::Animations(e));
        },
    };
    let npc_kinds: NpcKindRegistry = match NpcKindRegistry::build(
        pending.npc_kinds,
        &needs,
        &animations,
    ) {
        Ok(r) => r,
        Err(e) => {
            return Err(LoadError::NpcKinds(e));
        },
    };
    Ok(Declarations { recipes, rooms, needs, work_defaults, animations, npc_kinds })
}

/// A toast of up to 120 bytes is shown as it is. A longer one is cut so that
/// with the ellipsis it has at most 120 bytes: what is shown before it is how
/// the text begins, it ends with a whole character, and no further character
/// would fit.
pub proof fn law_toasts_are_cut_late(text: Seq<char>, shown: Seq<char>)
    requires
        toast_text(text, shown),
    ensures
        encode_utf8(text).len() <= 120 ==> shown == text,
        encode_utf8(text).len() > 120 ==> exists|kept: Seq<char>|
            {
                let n = (#[trigger] encode_utf8(kept)).len() as int;
                &&& shown == kept.push('…')
                &&& n + 3 <= 120
                &&& encode_utf8(kept) == encode_utf8(text).take(n)
                &&& is_char_boundary(encode_utf8(text), n)
                &&& forall|k: int|
                    n < k && k + 3 <= 120 ==> !is_char_boundary(encode_utf8(text), k)
            },
{
    if encode_utf8(text).len() > 120 {
        let (end, kept) = choose|end: int, kept: Seq<char>|
            toast_cut(text, end) && #[trigger] encode_utf8(kept) == #[trigger] encode_utf8(
                text,
            ).subrange(0, end) && shown == kept + "…"@;
        reveal_strlit("…");
        assert(encode_utf8(kept).len() == end);
        assert(encode_utf8(kept) =~= encode_utf8(text).take(end));
        assert(shown =~= kept.push('…'));
    }
}

/// Mods that say nothing about work get work of four seconds that eases
/// nothing and that nothing slows down; those that do get what they say.
pub proof fn law_usual_work_takes_four_seconds(p: PendingDeclarations)
    ensures
        p.work_defaults is Some ==> effective_defaults(p) == p.work_defaults->0,
        p.work_defaults is None ==> effective_defaults(p).duration_ms == 4000
            && effective_defaults(p).need_restore is None && effective_defaults(p).worn_down is None,
{
}

/// Work defaults are accepted exactly if work takes any time at all and the
/// need that it eases, if any, is among those declared.
pub proof fn law_accepted_work_defaults(p: PendingDeclarations)
    ensures
        defaults_load(p) <==> effective_defaults(p).duration_ms != 0 && (
        effective_defaults(p).need_restore is Some ==> exists|k: int|
            0 <= k < p.needs@.len() && (#[trigger] p.needs@[k]).id@ == (
            effective_defaults(p).need_restore->0).need@),
{
    let d = effective_defaults(p);
    if d.need_restore is Some {
        let id = (d.need_restore->0).need@;
        lemma_position(p.needs@, id, 0);
        if let Some(k) = position_of(p.needs@, id, 0) {
            assert(p.needs@[k].id@ == id);
        }
        if exists|k: int| 0 <= k < p.needs@.len() && (#[trigger] p.needs@[k]).id@ == id {
            let k = choose|k: int| 0 <= k < p.needs@.len() && (#[trigger] p.needs@[k]).id@ == id;
            assert(p.needs@[k].name() == id);
        }
    }
}

/// Every recipe must be one that some block is a station for: a recipe without
/// one stops the recipes from loading, and once they load each has one.
pub proof fn law_recipes_need_a_station(p: PendingDeclarations, blocks: Seq<BlockDef>, k: int)
    requires
        0 <= k < p.recipes@.len(),
    ensures
        stations_load(p, blocks) ==> exists|i: int|
            0 <= i < blocks.len() && (#[trigger] blocks[i]).station_tag is Some && (
            blocks[i].station_tag->0)@ == p.recipes@[k].station@,
        (forall|i: int|
            0 <= i < blocks.len() ==> (#[trigger] blocks[i]).station_tag is None || (
            blocks[i].station_tag->0)@ != p.recipes@[k].station@) ==> !stations_load(p, blocks),
{
    let tag = p.recipes@[k].station@;
    if stations_load(p, blocks) {
        assert(station_exists(blocks, tag));
        let i = choose|i: int|
            0 <= i < blocks.len() && ((#[trigger] blocks[i]).station_tag matches Some(t) && t@
                == tag);
        assert(blocks[i].station_tag is Some);
    }
}

} // verus!
