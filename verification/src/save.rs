//! What a saved world holds, and what happens to it on the way in and out.

use crate::blocks::BlockSlot;
use crate::cells::IVec3;
use crate::protocol::{MovementMode, PlanKind, PoseBits};
use crate::ranking::{law_sorted_by_rank, sort_by_rank, sorted_by_rank, Ranked};
use crate::strings::{has_text, insert_sorted, texts_sorted};
use vstd::prelude::*;
use vstd::string::*;
use vstd::utf8::*;

verus! {

/// The layout that is written today.
pub const SAVE_VERSION: u32 = 13;

/// The layout before players had entries of their own; it can still be read.
pub const SINGLE_PLAYER_VERSION: u32 = 12;

/// Owner of player state that nobody has claimed yet.
pub const UNCLAIMED_PLAYER_ID: u64 = 0;

/// The longest name of a save, in bytes.
pub const MAX_NAME_BYTES: usize = 64;

/// What can be wrong with a save, apart from the files themselves.
pub enum SaveError {
    InvalidName(String),
    VersionMismatch { name: String, found: u32, expected: u32 },
    MissingBlockIds { ids: Vec<String> },
    SlotOutOfRange { slot: u16, table_len: usize },
}

/// What the list of saves shows.
pub struct SaveMetadata {
    pub name: String,
    pub created_at: u64,
    pub modified_at: u64,
    pub version: u32,
}

pub struct SavedCarry {
    pub item_id: String,
    pub count: u32,
}

pub struct SavedTool {
    pub item_id: String,
}

pub struct SavedPlayer {
    pub client_id: u64,
    pub pose: PoseBits,
    pub carry: Option<SavedCarry>,
    pub tool: Option<SavedTool>,
}

/// An item lying around; coordinates as bit patterns.
pub struct SavedWorldItem {
    pub item_id: String,
    pub x: u32,
    pub y: u32,
    pub z: u32,
}

pub struct SavedCraftOrder {
    pub recipe_id: String,
    pub total: u32,
    pub completed: u32,
}

pub struct SavedStationItem {
    pub item_id: String,
    pub count: u32,
}

/// Work under way at a station; times as bit patterns.
pub struct SavedActiveWork {
    pub recipe_id: String,
    pub total_secs: u32,
    pub elapsed_secs: u32,
}

pub struct SavedStationState {
    pub orders: Vec<SavedCraftOrder>,
    pub inventory: Vec<SavedStationItem>,
    pub active_work: Option<SavedActiveWork>,
}

pub struct SavedMaterialEntry {
    pub item_id: String,
    pub needed: u32,
    pub present: u32,
}

pub struct SavedPlanState {
    pub kind: PlanKind,
    pub materials: Vec<SavedMaterialEntry>,
}

/// One edited chunk. Its entities are kept as the entity store wrote them.
pub struct SavedChunk {
    pub coord: IVec3,
    pub blocks: Vec<BlockSlot>,
    pub entities: Vec<u8>,
}

/// The day and how far it has gone; the time as a bit pattern.
#[derive(Clone, Copy, Debug, PartialEq, Eq, Structural)]
pub struct SavedClock {
    pub day: u32,
    pub time_of_day: u32,
}

/// One need of a villager; the level as a bit pattern.
pub struct SavedNeed {
    pub name: String,
    pub level: u32,
}

pub struct SavedNpc {
    pub id: u64,
    pub kind: String,
    pub pose: PoseBits,
    pub movement_mode: MovementMode,
    pub needs: Vec<SavedNeed>,
    pub rng: u64,
    pub carrying: Option<SavedCarry>,
    pub tool: Option<SavedTool>,
}

/// A saved world. `block_slots` names the block kinds that the slot numbers
/// in it stand for.
pub struct SaveFile {
    pub version: u32,
    pub block_slots: Vec<String>,
    pub edited_chunks: Vec<SavedChunk>,
    pub players: Vec<SavedPlayer>,
    pub npcs: Vec<SavedNpc>,
    pub world_clock: Option<SavedClock>,
    pub plans: Vec<(IVec3, SavedPlanState)>,
    pub world_items: Vec<SavedWorldItem>,
    pub craft_stations: Vec<(IVec3, SavedStationState)>,
}

/// A saved world of the single-player layout.
pub struct SaveFileV12 {
    pub version: u32,
    pub block_slots: Vec<String>,
    pub edited_chunks: Vec<SavedChunk>,
    pub last_player_pose: Option<PoseBits>,
    pub npcs: Vec<SavedNpc>,
    pub world_clock: Option<SavedClock>,
    pub plans: Vec<(IVec3, SavedPlanState)>,
    pub world_items: Vec<SavedWorldItem>,
    pub last_player_carry: Option<SavedCarry>,
    pub last_player_tool: Option<SavedTool>,
    pub craft_stations: Vec<(IVec3, SavedStationState)>,
}

impl SaveFileV12 {
    /// Turns the one player of old into an entry that the first player to
    /// join will claim. A world that nobody ever joined has no entry.
    pub fn migrate(self) -> (r: SaveFile)
        ensures
            r.version == 13,
            r.block_slots == self.block_slots,
            r.edited_chunks == self.edited_chunks,
            r.npcs == self.npcs,
            r.world_clock == self.world_clock,
            r.plans == self.plans,
            r.world_items == self.world_items,
            r.craft_stations == self.craft_stations,
            self.last_player_pose is None ==> r.players@.len() == 0,
            self.last_player_pose matches Some(pose) ==> r.players@ == seq![
                SavedPlayer {
                    client_id: 0,
                    pose,
                    carry: self.last_player_carry,
                    tool: self.last_player_tool,
                },
            ],
    {
        let mut players: Vec<SavedPlayer> = Vec::new();
        if let Some(pose) = self.last_player_pose {
            players.push(
                SavedPlayer {
                    client_id: UNCLAIMED_PLAYER_ID,
                    pose,
                    carry: self.last_player_carry,
                    tool: self.last_player_tool,
                },
            );
        }
        SaveFile {
            version: SAVE_VERSION,
            block_slots: self.block_slots,
            edited_chunks: self.edited_chunks,
            players,
            npcs: self.npcs,
            world_clock: self.world_clock,
            plans: self.plans,
            world_items: self.world_items,
            craft_stations: self.craft_stations,
        }
    }
}

// ---------- names and places ----------

/// A letter, a digit, `_` or `-`, all of them ASCII.
pub open spec fn name_char(c: char) -> bool {
    ('a' <= c && c <= 'z') || ('A' <= c && c <= 'Z') || ('0' <= c && c <= '9') || c == '_' || c
        == '-'
}

/// An ASCII capital as a small letter; other characters as they are.
pub open spec fn lower(c: char) -> char {
    if 'A' <= c && c <= 'Z' {
        (c as u8 + 32) as char
    } else {
        c
    }
}

fn to_lower(c: char) -> (r: char)
    ensures
        r == lower(c),
{
    if 'A' <= c && c <= 'Z' {
        (c as u8 + 32) as char
    } else {
        c
    }
}

/// The name starts with these three letters, capital or small.
pub open spec fn stem(name: Seq<char>, a: char, b: char, c: char) -> bool {
    lower(name[0]) == a && lower(name[1]) == b && lower(name[2]) == c
}

/// Some platform keeps the name for a device: CON, PRN, AUX, NUL, COM1 to COM9
/// and LPT1 to LPT9, capital or small.
pub open spec fn reserved_name(name: Seq<char>) -> bool {
    ||| name.len() == 3 && (stem(name, 'c', 'o', 'n') || stem(name, 'p', 'r', 'n') || stem(
        name,
        'a',
        'u',
        'x',
    ) || stem(name, 'n', 'u', 'l'))
    ||| name.len() == 4 && '1' <= name[3] && name[3] <= '9' && (stem(name, 'c', 'o', 'm') || stem(
        name,
        'l',
        'p',
        't',
    ))
}

fn is_reserved(name: &str) -> (r: bool)
    ensures
        r == reserved_name(name@),
{
    let n: usize = name.unicode_len();
    if n != 3 && n != 4 {
        return false;
    }
    let a: char = to_lower(name.get_char(0));
    let b: char = to_lower(name.get_char(1));
    let c: char = to_lower(name.get_char(2));
    if n == 3 {
        (a == 'c' && b == 'o' && c == 'n') || (a == 'p' && b == 'r' && c == 'n') || (a == 'a' && b
            == 'u' && c == 'x') || (a == 'n' && b == 'u' && c == 'l')
    } else {
        let d: char = name.get_char(3);
        '1' <= d && d <= '9' && ((a == 'c' && b == 'o' && c == 'm') || (a == 'l' && b == 'p' && c
            == 't'))
    }
}

/// Something that can name a save.
pub open spec fn valid_name(name: Seq<char>) -> bool {
    &&& name.len() > 0
    &&& !reserved_name(name)
    &&& encode_utf8(name).len() <= MAX_NAME_BYTES
    &&& forall|i: int| 0 <= i < name.len() ==> name_char(#[trigger] name[i])
}

/// Accepts the names that can name a save.
pub fn validate_name(name: &str) -> (r: Result<(), SaveError>)
    ensures
        match r {
            Ok(_) => valid_name(name@),
            Err(SaveError::InvalidName(n)) => !valid_name(name@) && n@ == name@,
            Err(_) => false,
        },
{
    let n: usize = name.unicode_len();
    if n == 0 || name.as_bytes().len() > MAX_NAME_BYTES || is_reserved(name) {
        return Err(SaveError::InvalidName(name.to_owned()));
    }
    let mut i: usize = 0;
    while i < n
        invariant
            i <= n,
            n == name@.len(),
            forall|k: int| 0 <= k < i ==> name_char(#[trigger] name@[k]),
        decreases n - i,
    {
        let c: char = name.get_char(i);
        if !(('a' <= c && c <= 'z') || ('A' <= c && c <= 'Z') || ('0' <= c && c <= '9') || c == '_'
            || c == '-') {
            assert(!name_char(name@[i as int]));
            return Err(SaveError::InvalidName(name.to_owned()));
        }
        i = i + 1;
    }
    Ok(())
}

/// A valid name is one plain path component: it has no separator and no dot,
/// and no platform takes it for a device.
pub proof fn law_valid_names_stay_inside(name: Seq<char>, i: int)
    requires
        valid_name(name),
        0 <= i < name.len(),
    ensures
        name[i] != '/',
        name[i] != '\\',
        name[i] != '.',
        name[i] != ':',
        !reserved_name(name),
{
    assert(name_char(name[i]));
}

/// The directory that holds all saves.
pub fn save_root() -> (r: String)
    ensures
        r@ == "saves"@,
{
    "saves".to_owned()
}

/// The directory of a save, as the components of its path.
pub fn save_dir_for(name: &str) -> (r: Vec<String>)
    ensures
        r@.len() == 2,
        r@[0]@ == "saves"@,
        r@[1]@ == name@,
{
    let mut parts: Vec<String> = Vec::new();
    parts.push(save_root());
    parts.push(name.to_owned());
    parts
}

/// The file that describes a save, as the components of its path.
pub fn metadata_file_for(name: &str) -> (r: Vec<String>)
    ensures
        r@.len() == 3,
        r@[0]@ == "saves"@,
        r@[1]@ == name@,
        r@[2]@ == "metadata.json"@,
{
    let mut parts: Vec<String> = save_dir_for(name);
    parts.push("metadata.json".to_owned());
    parts
}

/// The file that holds the world, as the components of its path.
pub fn blob_file_for(name: &str) -> (r: Vec<String>)
    ensures
        r@.len() == 3,
        r@[0]@ == "saves"@,
        r@[1]@ == name@,
        r@[2]@ == "save.bin"@,
{
    let mut parts: Vec<String> = save_dir_for(name);
    parts.push("save.bin".to_owned());
    parts
}

// ---------- versions and metadata ----------

/// How the bytes of a save are to be read.
#[derive(Clone, Copy, Debug, PartialEq, Eq, Structural)]
pub enum SaveLayout {
    Current,
    SinglePlayer,
}

/// Decides from the recorded version how a save is read.
pub fn layout_of(meta: &SaveMetadata, name: &str) -> (r: Result<SaveLayout, SaveError>)
    ensures
        match r {
            Ok(SaveLayout::Current) => meta.version == 13,
            Ok(SaveLayout::SinglePlayer) => meta.version == 12,
            Err(SaveError::VersionMismatch { name: n, found, expected }) => meta.version
                != 13 && meta.version != 12 && n@ == name@ && found == meta.version && expected == 13,
            Err(_) => false,
        },
{
    if meta.version == SAVE_VERSION {
        Ok(SaveLayout::Current)
    } else if meta.version == SINGLE_PLAYER_VERSION {
        Ok(SaveLayout::SinglePlayer)
    } else {
        Err(
            SaveError::VersionMismatch {
                name: name.to_owned(),
                found: meta.version,
                expected: SAVE_VERSION,
            },
        )
    }
}

/// The description of a save written `now`. A save that was there before
/// keeps the time at which it was created.
pub fn metadata_for(name: &str, previous: Option<&SaveMetadata>, now: u64) -> (r: SaveMetadata)
    ensures
        r.name@ == name@,
        r.modified_at == now,
        r.version == 13,
        r.created_at == match previous {
            Some(p) => p.created_at,
            None => now,
        },
{
    let created_at: u64 = match previous {
        Some(p) => p.created_at,
        None => now,
    };
    SaveMetadata { name: name.to_owned(), created_at, modified_at: now, version: SAVE_VERSION }
}

impl Ranked for SaveMetadata {
    open spec fn rank(&self) -> int {
        u64::MAX - self.modified_at
    }

    fn rank_value(&self) -> u64 {
        u64::MAX - self.modified_at
    }
}

/// Sorts the list of saves, the newest first; saves of the same age keep their
/// order.
pub fn sort_saves(list: Vec<SaveMetadata>) -> (r: Vec<SaveMetadata>)
    ensures
        r@ == sorted_by_rank(list@),
{
    sort_by_rank(list)
}

/// Sorting loses and invents nothing, and no save is followed by a newer one.
pub proof fn law_newest_first(list: Seq<SaveMetadata>)
    ensures
        sorted_by_rank(list).to_multiset() == list.to_multiset(),
        forall|i: int, j: int|
            #![trigger sorted_by_rank(list)[i], sorted_by_rank(list)[j]]
            0 <= i < j < list.len() ==> sorted_by_rank(list)[i].modified_at >= sorted_by_rank(
                list,
            )[j].modified_at,
{
    law_sorted_by_rank(list);
}

// ---------- block slots ----------

/// Every slot in the chunks, in order.
pub open spec fn chunk_uses(chunks: Seq<SavedChunk>) -> Seq<BlockSlot>
    decreases chunks.len(),
{
    if chunks.len() == 0 {
        Seq::empty()
    } else {
        chunk_uses(chunks.drop_last()) + chunks.last().blocks@
    }
}

/// Every slot that a plan wants to build, in order.
pub open spec fn plan_uses(plans: Seq<(IVec3, SavedPlanState)>) -> Seq<BlockSlot>
    decreases plans.len(),
{
    if plans.len() == 0 {
        Seq::empty()
    } else {
        let rest = plan_uses(plans.drop_last());
        match plans.last().1.kind {
            PlanKind::Build { slot, .. } => rest.push(slot),
            PlanKind::Remove => rest,
        }
    }
}

/// Every slot number in the save that stands for a block kind.
pub open spec fn slot_uses(save: SaveFile) -> Seq<BlockSlot> {
    chunk_uses(save.edited_chunks@) + plan_uses(save.plans@)
}

/// The slot numbers all fall into a table of `n` entries.
pub open spec fn all_within(uses: Seq<BlockSlot>, n: int) -> bool {
    forall|k: int| 0 <= k < uses.len() ==> (#[trigger] uses[k]).0 < n
}

/// `slot` is the first that falls outside a table of `n` entries.
pub open spec fn first_beyond(uses: Seq<BlockSlot>, n: int, slot: u16) -> bool {
    exists|k: int|
        0 <= k < uses.len() && (#[trigger] uses[k]).0 == slot && slot >= n && all_within(
            uses.take(k),
            n,
        )
}

/// A slot in use whose block kind is not known today, at place `k`.
pub open spec fn orphan_at(
    uses: Seq<BlockSlot>,
    table: Seq<String>,
    now: Seq<Option<BlockSlot>>,
    k: int,
    id: Seq<char>,
) -> bool {
    0 <= k < uses.len() && now[uses[k].0 as int] is None && table[uses[k].0 as int]@ == id
}

/// The block kind is in use but not known today.
pub open spec fn orphaned(
    uses: Seq<BlockSlot>,
    table: Seq<String>,
    now: Seq<Option<BlockSlot>>,
    id: Seq<char>,
) -> bool {
    exists|k: int| orphan_at(uses, table, now, k, id)
}

/// Every block kind in use is known today.
pub open spec fn all_known(uses: Seq<BlockSlot>, now: Seq<Option<BlockSlot>>) -> bool {
    forall|k: int| 0 <= k < uses.len() ==> now[(#[trigger] uses[k]).0 as int] is Some
}

/// Today's number of a slot.
pub open spec fn renumbered(now: Seq<Option<BlockSlot>>, slot: BlockSlot) -> BlockSlot {
    now[slot.0 as int]->0
}

/// Today's numbers of a list of slots.
pub open spec fn renumbered_all(now: Seq<Option<BlockSlot>>, slots: Seq<BlockSlot>) -> Seq<
    BlockSlot,
> {
    Seq::new(slots.len(), |i: int| renumbered(now, slots[i]))
}

pub open spec fn renumbered_kind(now: Seq<Option<BlockSlot>>, kind: PlanKind) -> PlanKind {
    match kind {
        PlanKind::Build { slot, orientation } => PlanKind::Build {
            slot: renumbered(now, slot),
            orientation,
        },
        PlanKind::Remove => PlanKind::Remove,
    }
}

/// The chunk `b` is the chunk `a` with today's numbers.
pub open spec fn chunk_renumbered(
    now: Seq<Option<BlockSlot>>,
    a: SavedChunk,
    b: SavedChunk,
) -> bool {
    b.coord == a.coord && b.entities == a.entities && b.blocks@ == renumbered_all(now, a.blocks@)
}

/// The plan `b` is the plan `a` with today's number.
pub open spec fn plan_renumbered(
    now: Seq<Option<BlockSlot>>,
    a: (IVec3, SavedPlanState),
    b: (IVec3, SavedPlanState),
) -> bool {
    b.0 == a.0 && b.1.materials == a.1.materials && b.1.kind == renumbered_kind(now, a.1.kind)
}

/// The save `b` is the save `a` with today's numbers, and otherwise the same.
pub open spec fn save_renumbered(now: Seq<Option<BlockSlot>>, a: SaveFile, b: SaveFile) -> bool {
    &&& b.version == a.version
    &&& b.block_slots == a.block_slots
    &&& b.players == a.players
    &&& b.npcs == a.npcs
    &&& b.world_clock == a.world_clock
    &&& b.world_items == a.world_items
    &&& b.craft_stations == a.craft_stations
    &&& b.edited_chunks@.len() == a.edited_chunks@.len()
    &&& forall|i: int|
        0 <= i < a.edited_chunks@.len() ==> chunk_renumbered(
            now,
            a.edited_chunks@[i],
            #[trigger] b.edited_chunks@[i],
        )
    &&& b.plans@.len() == a.plans@.len()
    &&& forall|i: int|
        0 <= i < a.plans@.len() ==> plan_renumbered(now, a.plans@[i], #[trigger] b.plans@[i])
}

/// What renumbering a save comes to. `now[i]` is today's slot of the kind
/// that the save calls slot `i`, if the kind is still known. A save is changed
/// only as a whole.
pub open spec fn remap_outcome(
    now: Seq<Option<BlockSlot>>,
    before: SaveFile,
    after: SaveFile,
    r: Result<(), SaveError>,
) -> bool {
    let uses = slot_uses(before);
    let n = now.len() as int;
    match r {
        Ok(_) => all_within(uses, n) && all_known(uses, now) && save_renumbered(now, before, after),
        Err(SaveError::SlotOutOfRange { slot, table_len }) => after == before && table_len == n
            && first_beyond(uses, n, slot),
        Err(SaveError::MissingBlockIds { ids }) => after == before && all_within(uses, n)
            && !all_known(uses, now) && texts_sorted(ids@) && forall|id: Seq<char>| #[trigger]
            has_text(ids@, id) <==> orphaned(uses, before.block_slots@, now, id),
        Err(_) => false,
    }
}

/// The ids noted so far are those of the orphans among the slots seen.
spec fn notes(
    missing: Seq<String>,
    seen: Seq<BlockSlot>,
    table: Seq<String>,
    now: Seq<Option<BlockSlot>>,
) -> bool {
    &&& texts_sorted(missing)
    &&& forall|id: Seq<char>| #[trigger] has_text(missing, id) <==> orphaned(seen, table, now, id)
}

/// Looks at one more slot: `false` when it falls outside the table.
fn note_slot(
    slot: BlockSlot,
    table: &Vec<String>,
    now: &Vec<Option<BlockSlot>>,
    missing: &mut Vec<String>,
    Ghost(seen): Ghost<Seq<BlockSlot>>,
) -> (ok: bool)
    requires
        table@.len() == now@.len(),
        all_within(seen, now@.len() as int),
        notes(old(missing)@, seen, table@, now@),
    ensures
        ok == (slot.0 < now@.len()),
        ok ==> all_within(seen.push(slot), now@.len() as int) && notes(
            final(missing)@,
            seen.push(slot),
            table@,
            now@,
        ),
{
    let idx: usize = slot.0 as usize;
    if idx >= now.len() {
        return false;
    }
    let ghost more = seen.push(slot);
    if now[idx].is_none() {
        insert_sorted(missing, &table[idx]);
    }
    proof {
        assert forall|id: Seq<char>|
            orphaned(more, table@, now@, id) == (orphaned(seen, table@, now@, id) || (
            now@[slot.0 as int] is None && table@[slot.0 as int]@ == id)) by {
            if orphaned(seen, table@, now@, id) {
                let k = choose|k: int| orphan_at(seen, table@, now@, k, id);
                assert(orphan_at(more, table@, now@, k, id));
            }
            if now@[slot.0 as int] is None && table@[slot.0 as int]@ == id {
                assert(orphan_at(more, table@, now@, seen.len() as int, id));
            }
            if orphaned(more, table@, now@, id) {
                let k = choose|k: int| orphan_at(more, table@, now@, k, id);
                if k < seen.len() {
                    assert(orphan_at(seen, table@, now@, k, id));
                }
            }
        }
        assert forall|id: Seq<char>| #[trigger] has_text(missing@, id) <==> orphaned(
            more,
            table@,
            now@,
            id,
        ) by {
            assert(orphaned(more, table@, now@, id) == (orphaned(seen, table@, now@, id) || (
            now@[slot.0 as int] is None && table@[slot.0 as int]@ == id)));
            assert(has_text(old(missing)@, id) <==> orphaned(seen, table@, now@, id));
        }
    }
    true
}

/// What looking through all slots of a save finds.
enum SlotCheck {
    Beyond(u16),
    Missing(Vec<String>),
}

fn check_slots(save: &SaveFile, now: &Vec<Option<BlockSlot>>) -> (r: SlotCheck)
    requires
        now@.len() == save.block_slots@.len(),
    ensures
        match r {
            SlotCheck::Beyond(slot) => first_beyond(slot_uses(*save), now@.len() as int, slot),
            SlotCheck::Missing(ids) => all_within(slot_uses(*save), now@.len() as int) && notes(
                ids@,
                slot_uses(*save),
                save.block_slots@,
                now@,
            ),
        },
{
    let mut missing: Vec<String> = Vec::new();
    let ghost mut seen: Seq<BlockSlot> = Seq::empty();
    let ghost n = now@.len() as int;
    let ghost uses = slot_uses(*save);
    let mut i: usize = 0;
    assert(save.edited_chunks@.take(0) =~= Seq::empty());
    assert forall|id: Seq<char>| #[trigger] has_text(missing@, id) <==> orphaned(
        seen,
        save.block_slots@,
        now@,
        id,
    ) by {
        if orphaned(seen, save.block_slots@, now@, id) {
            let k = choose|k: int| orphan_at(seen, save.block_slots@, now@, k, id);
            assert(false);
        }
    }
    while i < save.edited_chunks.len()
        invariant
            i <= save.edited_chunks@.len(),
            now@.len() == save.block_slots@.len(),
            n == now@.len(),
            uses == slot_uses(*save),
            seen == chunk_uses(save.edited_chunks@.take(i as int)),
            seen.is_prefix_of(uses),
            all_within(seen, n),
            notes(missing@, seen, save.block_slots@, now@),
        decreases save.edited_chunks@.len() - i,
    {
        let blocks: &Vec<BlockSlot> = &save.edited_chunks[i].blocks;
        let ghost before = seen;
        assert(save.edited_chunks@.take(i + 1).drop_last() =~= save.edited_chunks@.take(i as int));
        let ghost whole = chunk_uses(save.edited_chunks@.take(i + 1));
        proof {
            lemma_chunk_prefix(save.edited_chunks@, i + 1);
            assert(whole == before + blocks@);
            assert(whole.is_prefix_of(uses));
        }
        let mut j: usize = 0;
        assert(seen =~= before + blocks@.take(0));
        while j < blocks.len()
            invariant
                j <= blocks@.len(),
                now@.len() == save.block_slots@.len(),
                n == now@.len(),
                uses == slot_uses(*save),
                whole == before + blocks@,
                whole.is_prefix_of(uses),
                seen == before + blocks@.take(j as int),
                all_within(seen, n),
                notes(missing@, seen, save.block_slots@, now@),
            decreases blocks@.len() - j,
        {
            assert(whole[before.len() + j] == blocks@[j as int]);
            assert(uses[seen.len() as int] == blocks@[j as int]);
            assert(uses.take(seen.len() as int) =~= seen);
            if !note_slot(blocks[j], &save.block_slots, now, &mut missing, Ghost(seen)) {
                return SlotCheck::Beyond(blocks[j].0);
            }
            proof {
                assert(seen.push(blocks@[j as int]) =~= before + blocks@.take(j + 1));
                seen = seen.push(blocks@[j as int]);
            }
            j = j + 1;
        }
        assert(blocks@.take(blocks@.len() as int) =~= blocks@);
        i = i + 1;
    }
    assert(save.edited_chunks@.take(save.edited_chunks@.len() as int) =~= save.edited_chunks@);
    let ghost chunks = chunk_uses(save.edited_chunks@);
    let mut k: usize = 0;
    assert(save.plans@.take(0) =~= Seq::empty());
    assert(seen =~= chunks + plan_uses(save.plans@.take(0)));
    while k < save.plans.len()
        invariant
            k <= save.plans@.len(),
            now@.len() == save.block_slots@.len(),
            n == now@.len(),
            uses == chunks + plan_uses(save.plans@),
            uses == slot_uses(*save),
            seen == chunks + plan_uses(save.plans@.take(k as int)),
            all_within(seen, n),
            notes(missing@, seen, save.block_slots@, now@),
        decreases save.plans@.len() - k,
    {
        assert(save.plans@.take(k + 1).drop_last() =~= save.plans@.take(k as int));
        proof {
            lemma_plan_prefix(save.plans@, k + 1);
        }
        if let PlanKind::Build { slot, .. } = save.plans[k].1.kind {
            proof {
                let upto = plan_uses(save.plans@.take(k + 1));
                let short = plan_uses(save.plans@.take(k as int));
                assert(upto == short.push(slot));
                assert(upto[short.len() as int] == slot);
                assert(plan_uses(save.plans@)[short.len() as int] == slot);
                assert(uses[seen.len() as int] == slot);
                assert(short.is_prefix_of(upto));
                assert(uses.take(seen.len() as int) =~= seen);
                assert(seen.push(slot) =~= chunks + upto);
            }
            if !note_slot(slot, &save.block_slots, now, &mut missing, Ghost(seen)) {
                return SlotCheck::Beyond(slot.0);
            }
            proof {
                seen = seen.push(slot);
            }
        }
        k = k + 1;
    }
    assert(save.plans@.take(save.plans@.len() as int) =~= save.plans@);
    SlotCheck::Missing(missing)
}

proof fn lemma_chunk_prefix(chunks: Seq<SavedChunk>, i: int)
    requires
        0 <= i <= chunks.len(),
    ensures
        chunk_uses(chunks.take(i)).is_prefix_of(chunk_uses(chunks)),
    decreases chunks.len() - i,
{
    if i < chunks.len() {
        lemma_chunk_prefix(chunks, i + 1);
        assert(chunks.take(i + 1).drop_last() =~= chunks.take(i));
    } else {
        assert(chunks.take(i) =~= chunks);
    }
}

proof fn lemma_plan_prefix(plans: Seq<(IVec3, SavedPlanState)>, i: int)
    requires
        0 <= i <= plans.len(),
    ensures
        plan_uses(plans.take(i)).is_prefix_of(plan_uses(plans)),
    decreases plans.len() - i,
{
    if i < plans.len() {
        lemma_plan_prefix(plans, i + 1);
        assert(plans.take(i + 1).drop_last() =~= plans.take(i));
    } else {
        assert(plans.take(i) =~= plans);
    }
}

/// Where the uses of one chunk stand among all uses.
proof fn lemma_chunk_within(chunks: Seq<SavedChunk>, now: Seq<Option<BlockSlot>>, i: int, j: int)
    requires
        0 <= i < chunks.len(),
        0 <= j < chunks[i].blocks@.len(),
        all_within(chunk_uses(chunks), now.len() as int),
        all_known(chunk_uses(chunks), now),
    ensures
        chunks[i].blocks@[j].0 < now.len(),
        now[chunks[i].blocks@[j].0 as int] is Some,
{
    lemma_chunk_prefix(chunks, i + 1);
    assert(chunks.take(i + 1).drop_last() =~= chunks.take(i));
    let at = chunk_uses(chunks.take(i)).len() + j;
    assert(chunk_uses(chunks.take(i + 1))[at] == chunks[i].blocks@[j]);
    assert(chunk_uses(chunks)[at] == chunks[i].blocks@[j]);
}

proof fn lemma_plan_within(
    plans: Seq<(IVec3, SavedPlanState)>,
    now: Seq<Option<BlockSlot>>,
    i: int,
    slot: BlockSlot,
)
    requires
        0 <= i < plans.len(),
        plans[i].1.kind matches PlanKind::Build { slot: s, .. } && s == slot,
        all_within(plan_uses(plans), now.len() as int),
        all_known(plan_uses(plans), now),
    ensures
        slot.0 < now.len(),
        now[slot.0 as int] is Some,
{
    lemma_plan_prefix(plans, i + 1);
    assert(plans.take(i + 1).drop_last() =~= plans.take(i));
    let at = plan_uses(plans.take(i)).len() as int;
    assert(plan_uses(plans.take(i + 1))[at] == slot);
    assert(plan_uses(plans)[at] == slot);
}

fn renumber_blocks(blocks: &Vec<BlockSlot>, now: &Vec<Option<BlockSlot>>) -> (r: Vec<BlockSlot>)
    requires
        forall|j: int|
            0 <= j < blocks@.len() ==> (#[trigger] blocks@[j]).0 < now@.len()
                && now@[blocks@[j].0 as int] is Some,
    ensures
        r@ == renumbered_all(now@, blocks@),
{
    let mut out: Vec<BlockSlot> = Vec::new();
    let mut j: usize = 0;
    while j < blocks.len()
        invariant
            j <= blocks@.len(),
            forall|k: int|
                0 <= k < blocks@.len() ==> (#[trigger] blocks@[k]).0 < now@.len()
                    && now@[blocks@[k].0 as int] is Some,
            out@ == renumbered_all(now@, blocks@).take(j as int),
        decreases blocks@.len() - j,
    {
        let slot: BlockSlot = blocks[j];
        if let Some(s) = now[slot.0 as usize] {
            out.push(s);
        }
        assert(out@ =~= renumbered_all(now@, blocks@).take(j + 1));
        j = j + 1;
    }
    assert(out@ =~= renumbered_all(now@, blocks@));
    out
}

fn renumber_chunks(chunks: &mut Vec<SavedChunk>, now: &Vec<Option<BlockSlot>>)
    requires
        all_within(chunk_uses(old(chunks)@), now@.len() as int),
        all_known(chunk_uses(old(chunks)@), now@),
    ensures
        final(chunks)@.len() == old(chunks)@.len(),
        forall|i: int|
            0 <= i < old(chunks)@.len() ==> chunk_renumbered(
                now@,
                old(chunks)@[i],
                #[trigger] final(chunks)@[i],
            ),
{
    let ghost all = chunks@;
    let mut todo: Vec<SavedChunk> = Vec::new();
    std::mem::swap(&mut todo, chunks);
    let ghost mut done: int = 0;
    assert(todo@ =~= all.skip(0));
    while todo.len() > 0
        invariant
            0 <= done <= all.len(),
            todo@ == all.skip(done),
            chunks@.len() == done,
            all_within(chunk_uses(all), now@.len() as int),
            all_known(chunk_uses(all), now@),
            forall|i: int|
                0 <= i < done ==> chunk_renumbered(now@, all[i], #[trigger] chunks@[i]),
        decreases todo@.len(),
    {
        let c: SavedChunk = todo.remove(0);
        proof {
            assert(c == all[done]);
            assert(todo@ =~= all.skip(done + 1));
            assert forall|j: int| 0 <= j < c.blocks@.len() implies (#[trigger] c.blocks@[j]).0
                < now@.len() && now@[c.blocks@[j].0 as int] is Some by {
                lemma_chunk_within(all, now@, done, j);
            }
            done = done + 1;
        }
        let blocks: Vec<BlockSlot> = renumber_blocks(&c.blocks, now);
        chunks.push(SavedChunk { coord: c.coord, blocks, entities: c.entities });
    }
}

fn renumber_plans(plans: &mut Vec<(IVec3, SavedPlanState)>, now: &Vec<Option<BlockSlot>>)
    requires
        all_within(plan_uses(old(plans)@), now@.len() as int),
        all_known(plan_uses(old(plans)@), now@),
    ensures
        final(plans)@.len() == old(plans)@.len(),
        forall|i: int|
            0 <= i < old(plans)@.len() ==> plan_renumbered(
                now@,
                old(plans)@[i],
                #[trigger] final(plans)@[i],
            ),
{
    let ghost all = plans@;
    let mut todo: Vec<(IVec3, SavedPlanState)> = Vec::new();
    std::mem::swap(&mut todo, plans);
    let ghost mut done: int = 0;
    assert(todo@ =~= all.skip(0));
    while todo.len() > 0
        invariant
            0 <= done <= all.len(),
            todo@ == all.skip(done),
            plans@.len() == done,
            all_within(plan_uses(all), now@.len() as int),
            all_known(plan_uses(all), now@),
            forall|i: int| 0 <= i < done ==> plan_renumbered(now@, all[i], #[trigger] plans@[i]),
        decreases todo@.len(),
    {
        let (cell, plan) = todo.remove(0);
        assert((cell, plan) == all[done]);
        assert(todo@ =~= all.skip(done + 1));
        let kind: PlanKind = match plan.kind {
            PlanKind::Build { slot, orientation } => {
                proof {
                    lemma_plan_within(all, now@, done, slot);
                }
                match now[slot.0 as usize] {
                    Some(s) => PlanKind::Build { slot: s, orientation },
                    None => plan.kind,
                }
            },
            PlanKind::Remove => PlanKind::Remove,
        };
        plans.push((cell, SavedPlanState { kind, materials: plan.materials }));
        proof {
            done = done + 1;
        }
    }
}

/// Gives the slots of a save their numbers of today.
pub fn renumber_slots(save: &mut SaveFile, now: &Vec<Option<BlockSlot>>) -> (r: Result<
    (),
    SaveError,
>)
    requires
        now@.len() == old(save).block_slots@.len(),
    ensures
        remap_outcome(now@, *old(save), *final(save), r),
{
    let ghost uses = slot_uses(*save);
    match check_slots(save, now) {
        SlotCheck::Beyond(slot) => Err(
            SaveError::SlotOutOfRange { slot, table_len: now.len() },
        ),
        SlotCheck::Missing(ids) => {
            if ids.len() > 0 {
                proof {
                    let id = ids@[0]@;
                    assert(has_text(ids@, id));
                    let k = choose|k: int| orphan_at(uses, save.block_slots@, now@, k, id);
                    assert(orphan_at(uses, save.block_slots@, now@, k, id));
                    assert(now@[uses[k].0 as int] is None);
                }
                return Err(SaveError::MissingBlockIds { ids });
            }
            proof {
                assert forall|k: int| 0 <= k < uses.len() implies now@[(
                #[trigger] uses[k]).0 as int] is Some by {
                    if now@[uses[k].0 as int] is None {
                        let id = save.block_slots@[uses[k].0 as int]@;
                        assert(orphan_at(uses, save.block_slots@, now@, k, id));
                        assert(has_text(ids@, id));
                    }
                }
                let chunks = chunk_uses(save.edited_chunks@);
                let plans = plan_uses(save.plans@);
                assert forall|k: int| 0 <= k < chunks.len() implies (#[trigger] chunks[k]).0
                    < now@.len() && now@[chunks[k].0 as int] is Some by {
                    assert(uses[k] == chunks[k]);
                }
                assert forall|k: int| 0 <= k < plans.len() implies (#[trigger] plans[k]).0
                    < now@.len() && now@[plans[k].0 as int] is Some by {
                    assert(uses[chunks.len() + k] == plans[k]);
                }
            }
            renumber_chunks(&mut save.edited_chunks, now);
            renumber_plans(&mut save.plans, now);
            Ok(())
        },
    }
}

/// `now` is what the registry says of each id of the table.
pub open spec fn looked_up<F: Fn(&str) -> Option<BlockSlot>>(
    lookup: F,
    table: Seq<String>,
    now: Seq<Option<BlockSlot>>,
) -> bool {
    &&& now.len() == table.len()
    &&& forall|i: int|
        0 <= i < table.len() ==> looked_up_one(lookup, table[i]@, #[trigger] now[i])
}

/// The registry answers `slot` for the id.
pub open spec fn looked_up_one<F: Fn(&str) -> Option<BlockSlot>>(
    lookup: F,
    id: Seq<char>,
    slot: Option<BlockSlot>,
) -> bool {
    exists|s: &str| s@ == id && #[trigger] call_ensures(lookup, (s,), slot)
}

/// The outcome of renumbering with some answers of the registry.
pub open spec fn remap_result<F: Fn(&str) -> Option<BlockSlot>>(
    lookup: F,
    before: SaveFile,
    after: SaveFile,
    r: Result<(), SaveError>,
) -> bool {
    exists|now: Seq<Option<BlockSlot>>|
        looked_up(lookup, before.block_slots@, now) && #[trigger] remap_outcome(
            now,
            before,
            after,
            r,
        )
}

/// Gives the slots of a save the numbers that the registry has for their ids.
pub fn remap_block_slots<F: Fn(&str) -> Option<BlockSlot>>(save: &mut SaveFile, lookup: F) -> (r:
    Result<(), SaveError>)
    requires
        forall|id: &str| #[trigger] call_requires(lookup, (id,)),
    ensures
        remap_result(lookup, *old(save), *final(save), r),
{
    let mut now: Vec<Option<BlockSlot>> = Vec::new();
    let mut i: usize = 0;
    while i < save.block_slots.len()
        invariant
            *save == *old(save),
            i <= save.block_slots@.len(),
            now@.len() == i,
            forall|id: &str| #[trigger] call_requires(lookup, (id,)),
            forall|k: int|
                0 <= k < i ==> looked_up_one(lookup, save.block_slots@[k]@, #[trigger] now@[k]),
        decreases save.block_slots@.len() - i,
    {
        let id: &str = save.block_slots[i].as_str();
        let slot: Option<BlockSlot> = lookup(id);
        assert(looked_up_one(lookup, id@, slot));
        now.push(slot);
        i = i + 1;
    }
    let r: Result<(), SaveError> = renumber_slots(save, &now);
    proof {
        assert(looked_up(lookup, old(save).block_slots@, now@));
        assert(remap_outcome(now@, *old(save), *save, r));
    }
    r
}

/// Whatever order today's registry has, every cell and plan of a renumbered
/// save still names the block kind that it named before.
pub proof fn law_remap_keeps_block_ids(
    before: SaveFile,
    after: SaveFile,
    now: Seq<Option<BlockSlot>>,
    registry: Seq<String>,
    chunk: int,
    cell: int,
)
    requires
        remap_outcome(now, before, after, Ok(())),
        now.len() == before.block_slots@.len(),
        forall|i: int|
            0 <= i < now.len() ==> ((#[trigger] now[i]) matches Some(s) ==> s.0 < registry.len()
                && registry[s.0 as int]@ == before.block_slots@[i]@),
        0 <= chunk < before.edited_chunks@.len(),
        0 <= cell < before.edited_chunks@[chunk].blocks@.len(),
    ensures
        ({
            let old_slot = before.edited_chunks@[chunk].blocks@[cell];
            let new_slot = after.edited_chunks@[chunk].blocks@[cell];
            new_slot.0 < registry.len() && registry[new_slot.0 as int]@
                == before.block_slots@[old_slot.0 as int]@
        }),
        forall|p: int|
            0 <= p < before.plans@.len() ==> match (
                before.plans@[p].1.kind,
                (#[trigger] after.plans@[p]).1.kind,
            ) {
                (
                    PlanKind::Build { slot: a, orientation: f },
                    PlanKind::Build { slot: b, orientation: g },
                ) => f == g && b.0 < registry.len() && registry[b.0 as int]@
                    == before.block_slots@[a.0 as int]@,
                (PlanKind::Remove, PlanKind::Remove) => true,
                _ => false,
            },
{
    let uses = slot_uses(before);
    let chunks = chunk_uses(before.edited_chunks@);
    let plans = plan_uses(before.plans@);
    assert forall|k: int| 0 <= k < chunks.len() implies (#[trigger] chunks[k]).0 < now.len()
        && now[chunks[k].0 as int] is Some by {
        assert(uses[k] == chunks[k]);
    }
    assert forall|k: int| 0 <= k < plans.len() implies (#[trigger] plans[k]).0 < now.len()
        && now[plans[k].0 as int] is Some by {
        assert(uses[chunks.len() + k] == plans[k]);
    }
    lemma_chunk_within(before.edited_chunks@, now, chunk, cell);
    assert(chunk_renumbered(now, before.edited_chunks@[chunk], after.edited_chunks@[chunk]));
    assert forall|p: int| 0 <= p < before.plans@.len() implies match (
        before.plans@[p].1.kind,
        (#[trigger] after.plans@[p]).1.kind,
    ) {
        (
            PlanKind::Build { slot: a, orientation: f },
            PlanKind::Build { slot: b, orientation: g },
        ) => f == g && b.0 < registry.len() && registry[b.0 as int]@
            == before.block_slots@[a.0 as int]@,
        (PlanKind::Remove, PlanKind::Remove) => true,
        _ => false,
    } by {
        assert(plan_renumbered(now, before.plans@[p], after.plans@[p]));
        if let PlanKind::Build { slot, .. } = before.plans@[p].1.kind {
            lemma_plan_within(before.plans@, now, p, slot);
        }
    }
}

/// The same letter, capital or small.
pub open spec fn either_case(c: char, small: char, capital: char) -> bool {
    c == small || c == capital
}

/// The names that platforms keep for devices are, capital or small: CON, PRN,
/// AUX and NUL, and COM or LPT with a digit from 1 to 9. No other name is.
pub proof fn law_device_names(name: Seq<char>)
    ensures
        ({
            let three = name.len() == 3 && {
                ||| either_case(name[0], 'c', 'C') && either_case(name[1], 'o', 'O')
                    && either_case(name[2], 'n', 'N')
                ||| either_case(name[0], 'p', 'P') && either_case(name[1], 'r', 'R')
                    && either_case(name[2], 'n', 'N')
                ||| either_case(name[0], 'a', 'A') && either_case(name[1], 'u', 'U')
                    && either_case(name[2], 'x', 'X')
                ||| either_case(name[0], 'n', 'N') && either_case(name[1], 'u', 'U')
                    && either_case(name[2], 'l', 'L')
            };
            let four = name.len() == 4 && '1' <= name[3] && name[3] <= '9' && {
                ||| either_case(name[0], 'c', 'C') && either_case(name[1], 'o', 'O')
                    && either_case(name[2], 'm', 'M')
                ||| either_case(name[0], 'l', 'L') && either_case(name[1], 'p', 'P')
                    && either_case(name[2], 't', 'T')
            };
            reserved_name(name) <==> three || four
        }),
{
    lemma_lower(name[0]);
    lemma_lower(name[1]);
    lemma_lower(name[2]);
}

/// What a character is as a small letter.
proof fn lemma_lower(c: char)
    ensures
        lower(c) == 'a' <==> c == 'a' || c == 'A',
        lower(c) == 'c' <==> c == 'c' || c == 'C',
        lower(c) == 'l' <==> c == 'l' || c == 'L',
        lower(c) == 'm' <==> c == 'm' || c == 'M',
        lower(c) == 'n' <==> c == 'n' || c == 'N',
        lower(c) == 'o' <==> c == 'o' || c == 'O',
        lower(c) == 'p' <==> c == 'p' || c == 'P',
        lower(c) == 'r' <==> c == 'r' || c == 'R',
        lower(c) == 't' <==> c == 't' || c == 'T',
        lower(c) == 'u' <==> c == 'u' || c == 'U',
        lower(c) == 'x' <==> c == 'x' || c == 'X',
{
}

/// A save can have any name of at least one and at most 64 bytes that is made
/// of the letters a to z, capital or small, the digits, `_` and `-`, and that
/// no platform keeps for a device; and no other.
pub proof fn law_names_of_saves(name: Seq<char>)
    ensures
        valid_name(name) <==> name.len() >= 1 && encode_utf8(name).len() <= 64 && !reserved_name(
            name,
        ) && forall|i: int|
            0 <= i < name.len() ==> {
                let c = #[trigger] name[i];
                ||| 97 <= c as int <= 122
                ||| 65 <= c as int <= 90
                ||| 48 <= c as int <= 57
                ||| c as int == 95
                ||| c as int == 45
            },
{
    assert forall|i: int| 0 <= i < name.len() implies (name_char(#[trigger] name[i]) <==> {
        let c = name[i];
        ||| 97 <= c as int <= 122
        ||| 65 <= c as int <= 90
        ||| 48 <= c as int <= 57
        ||| c as int == 95
        ||| c as int == 45
    }) by {}
}

/// A save uses the slots of its chunks' cells and of the blocks that its plans
/// build, and no others.
pub proof fn law_slots_in_use(save: SaveFile, slot: BlockSlot)
    ensures
        slot_uses(save).contains(slot) <==> {
            ||| exists|i: int, j: int|
                0 <= i < save.edited_chunks@.len() && 0 <= j < save.edited_chunks@[i].blocks@.len()
                    && #[trigger] save.edited_chunks@[i].blocks@[j] == slot
            ||| exists|p: int|
                0 <= p < save.plans@.len() && (#[trigger] save.plans@[p]).1.kind is Build && (
                save.plans@[p].1.kind->slot) == slot
        },
{
    let chunks = chunk_uses(save.edited_chunks@);
    let plans = plan_uses(save.plans@);
    let all = slot_uses(save);
    lemma_chunk_contains(save.edited_chunks@, slot);
    lemma_plan_contains(save.plans@, slot);
    if chunks.contains(slot) {
        let k = chunks.index_of(slot);
        assert(all[k] == slot);
    }
    if plans.contains(slot) {
        let k = plans.index_of(slot);
        assert(all[chunks.len() + k] == slot);
    }
    if all.contains(slot) {
        let k = all.index_of(slot);
        if k < chunks.len() {
            assert(chunks[k] == slot);
        } else {
            assert(plans[k - chunks.len()] == slot);
        }
    }
}

proof fn lemma_chunk_contains(chunks: Seq<SavedChunk>, slot: BlockSlot)
    ensures
        chunk_uses(chunks).contains(slot) <==> exists|i: int, j: int|
            0 <= i < chunks.len() && 0 <= j < chunks[i].blocks@.len()
                && #[trigger] chunks[i].blocks@[j] == slot,
    decreases chunks.len(),
{
    if chunks.len() > 0 {
        let short = chunks.drop_last();
        let n = chunks.len() - 1;
        let rest = chunk_uses(short);
        let last = chunks.last().blocks@;
        let all = chunk_uses(chunks);
        lemma_chunk_contains(short, slot);
        if rest.contains(slot) {
            let k = rest.index_of(slot);
            assert(all[k] == slot);
            let (i, j) = choose|i: int, j: int|
                0 <= i < short.len() && 0 <= j < short[i].blocks@.len()
                    && #[trigger] short[i].blocks@[j] == slot;
            assert(chunks[i].blocks@[j] == slot);
        }
        if last.contains(slot) {
            let j = last.index_of(slot);
            assert(all[rest.len() + j] == slot);
            assert(chunks[n].blocks@[j] == slot);
        }
        if all.contains(slot) {
            let k = all.index_of(slot);
            if k < rest.len() {
                assert(rest[k] == slot);
            } else {
                assert(last[k - rest.len()] == slot);
                assert(last.contains(slot));
            }
        }
        if exists|i: int, j: int|
            0 <= i < chunks.len() && 0 <= j < chunks[i].blocks@.len()
                && #[trigger] chunks[i].blocks@[j] == slot {
            let (i, j) = choose|i: int, j: int|
                0 <= i < chunks.len() && 0 <= j < chunks[i].blocks@.len()
                    && #[trigger] chunks[i].blocks@[j] == slot;
            if i < n {
                assert(short[i].blocks@[j] == slot);
                assert(rest.contains(slot));
            } else {
                assert(last[j] == slot);
                assert(last.contains(slot));
            }
        }
    }
}

proof fn lemma_plan_contains(plans: Seq<(IVec3, SavedPlanState)>, slot: BlockSlot)
    ensures
        plan_uses(plans).contains(slot) <==> exists|p: int|
            0 <= p < plans.len() && (#[trigger] plans[p]).1.kind is Build && (
            plans[p].1.kind->slot) == slot,
    decreases plans.len(),
{
    if plans.len() > 0 {
        let short = plans.drop_last();
        let n = plans.len() - 1;
        let rest = plan_uses(short);
        let all = plan_uses(plans);
        lemma_plan_contains(short, slot);
        if rest.contains(slot) {
            let k = rest.index_of(slot);
            assert(all[k] == slot);
            let p = choose|p: int|
                0 <= p < short.len() && (#[trigger] short[p]).1.kind is Build && (
                short[p].1.kind->slot) == slot;
            assert(plans[p] == short[p]);
        }
        if plans[n].1.kind is Build && (plans[n].1.kind->slot) == slot {
            assert(all[rest.len() as int] == slot);
        }
        if all.contains(slot) && !rest.contains(slot) {
            let k = all.index_of(slot);
            if k < rest.len() {
                assert(rest[k] == slot);
            }
            assert(plans[n].1.kind is Build);
        }
        if exists|p: int|
            0 <= p < plans.len() && (#[trigger] plans[p]).1.kind is Build && (
            plans[p].1.kind->slot) == slot {
            let p = choose|p: int|
                0 <= p < plans.len() && (#[trigger] plans[p]).1.kind is Build && (
                plans[p].1.kind->slot) == slot;
            if p < n {
                assert(short[p] == plans[p]);
                assert(rest.contains(slot));
            }
        }
    }
}

/// A save is renumbered exactly if every slot that it uses is in its table and
/// stands for a block kind that is known today. A save that is refused stays
/// as it was, and the kinds that it is refused for are in use and unknown.
pub proof fn law_saves_are_renumbered_whole(
    now: Seq<Option<BlockSlot>>,
    before: SaveFile,
    after: SaveFile,
    r: Result<(), SaveError>,
    slot: BlockSlot,
)
    requires
        now.len() == before.block_slots@.len(),
        remap_outcome(now, before, after, r),
    ensures
        r is Err ==> after == before,
        r is Ok && slot_uses(before).contains(slot) ==> slot.0 < now.len()
            && now[slot.0 as int] is Some,
        (forall|s: BlockSlot| #[trigger]
            slot_uses(before).contains(s) ==> s.0 < now.len() && now[s.0 as int] is Some) ==> r is Ok,
        r is Err && r->Err_0 is SlotOutOfRange ==> slot_uses(before).contains(
            BlockSlot(r->Err_0->slot),
        ) && r->Err_0->slot >= now.len() && r->Err_0->table_len == now.len(),
        r is Err && r->Err_0 is MissingBlockIds && slot_uses(before).contains(slot) ==> slot.0
            < now.len() && (now[slot.0 as int] is None ==> has_text(
            r->Err_0->ids@,
            before.block_slots@[slot.0 as int]@,
        )),
{
    let uses = slot_uses(before);
    let n = now.len() as int;
    if uses.contains(slot) {
        let k = uses.index_of(slot);
        if r is Err && r->Err_0 is MissingBlockIds && now[slot.0 as int] is None {
            let id = before.block_slots@[slot.0 as int]@;
            assert(orphan_at(uses, before.block_slots@, now, k, id));
            assert(orphaned(uses, before.block_slots@, now, id));
        }
        assert(uses[k] == slot);
    }
    if forall|s: BlockSlot| #[trigger]
        uses.contains(s) ==> s.0 < now.len() && now[s.0 as int] is Some {
        assert forall|k: int| 0 <= k < uses.len() implies (#[trigger] uses[k]).0 < n && now[
        uses[k].0 as int] is Some by {
            assert(uses.contains(uses[k]));
        }
    }
    if r is Err && r->Err_0 is SlotOutOfRange {
        let bad = r->Err_0->slot;
        let k = choose|k: int|
            0 <= k < uses.len() && (#[trigger] uses[k]).0 == bad && bad >= n && all_within(
                uses.take(k),
                n,
            );
        assert(uses[k] == BlockSlot(bad));
    }
}

/// Renumbering touches slot numbers only: chunks stay at their places with
/// their entities and as many cells, plans keep their cells, materials,
/// orientation and kind, and everything else is as it was.
pub proof fn law_renumbering_touches_slots_only(
    now: Seq<Option<BlockSlot>>,
    before: SaveFile,
    after: SaveFile,
    i: int,
    p: int,
)
    requires
        remap_outcome(now, before, after, Ok(())),
        0 <= i < before.edited_chunks@.len(),
        0 <= p < before.plans@.len(),
    ensures
        after.version == before.version,
        after.block_slots == before.block_slots,
        after.players == before.players,
        after.npcs == before.npcs,
        after.world_clock == before.world_clock,
        after.world_items == before.world_items,
        after.craft_stations == before.craft_stations,
        after.edited_chunks@.len() == before.edited_chunks@.len(),
        after.edited_chunks@[i].coord == before.edited_chunks@[i].coord,
        after.edited_chunks@[i].entities == before.edited_chunks@[i].entities,
        after.edited_chunks@[i].blocks@.len() == before.edited_chunks@[i].blocks@.len(),
        forall|j: int|
            0 <= j < before.edited_chunks@[i].blocks@.len() ==> Some(
                #[trigger] after.edited_chunks@[i].blocks@[j],
            ) == now[before.edited_chunks@[i].blocks@[j].0 as int],
        after.plans@.len() == before.plans@.len(),
        after.plans@[p].0 == before.plans@[p].0,
        after.plans@[p].1.materials == before.plans@[p].1.materials,
        after.plans@[p].1.kind is Build <==> before.plans@[p].1.kind is Build,
        before.plans@[p].1.kind is Build ==> (after.plans@[p].1.kind->orientation)
            == before.plans@[p].1.kind->orientation && Some(after.plans@[p].1.kind->slot) == now[(
        before.plans@[p].1.kind->slot).0 as int],
{
    let uses = slot_uses(before);
    let chunks = chunk_uses(before.edited_chunks@);
    let plans = plan_uses(before.plans@);
    assert forall|k: int| 0 <= k < chunks.len() implies (#[trigger] chunks[k]).0 < now.len()
        && now[chunks[k].0 as int] is Some by {
        assert(uses[k] == chunks[k]);
    }
    assert forall|k: int| 0 <= k < plans.len() implies (#[trigger] plans[k]).0 < now.len()
        && now[plans[k].0 as int] is Some by {
        assert(uses[chunks.len() + k] == plans[k]);
    }
    let a = before.edited_chunks@[i];
    let b = after.edited_chunks@[i];
    assert(chunk_renumbered(now, a, b));
    assert forall|j: int| 0 <= j < a.blocks@.len() implies Some(#[trigger] b.blocks@[j])
        == now[a.blocks@[j].0 as int] by {
        lemma_chunk_within(before.edited_chunks@, now, i, j);
    }
    assert(plan_renumbered(now, before.plans@[p], after.plans@[p]));
    if let PlanKind::Build { slot, .. } = before.plans@[p].1.kind {
        lemma_plan_within(before.plans@, now, p, slot);
    }
}

} // verus!
