//! Matched rooms on the wire and on the client.

use crate::blocks::{BlockRegistry, BlockWorld};
use crate::cells::{in_box, IVec3};
use crate::ord_map::OrdMap;
use crate::plans::drag::{box_cells, rect_cells_on_plane};
use crate::protocol::{BoundedString, RoomSummary, MAX_WIRE_ID_BYTES};
use crate::rooms::detect::RoomEvent;
use crate::rooms::map::{
    matched_in, sound_state, summarizes, Room, RoomId, RoomMap, RoomState,
};
use crate::rooms::patterns::RoomPatternRegistry;
use crate::rooms::update::{destroyed_in, law_reported_ends_are_real, redetected};
use vstd::prelude::*;
use vstd::utf8::*;

verus! {

/// The most chunks a room may span along one axis.
pub const MAX_ROOM_CHUNKS: i32 = 64;

/// A room summary as it travels.
pub struct RoomSummaryWire {
    pub room_id: u32,
    pub pattern: BoundedString<MAX_WIRE_ID_BYTES>,
    pub anchor: IVec3,
    pub bbox_min: IVec3,
    pub bbox_max: IVec3,
    pub floor_area: u32,
}

/// A room summary as a value.
pub struct SummaryView {
    pub room_id: u32,
    pub pattern: Seq<char>,
    pub anchor: IVec3,
    pub bbox_min: IVec3,
    pub bbox_max: IVec3,
    pub floor_area: u32,
}

impl View for RoomSummaryWire {
    type V = SummaryView;

    open spec fn view(&self) -> SummaryView {
        SummaryView {
            room_id: self.room_id,
            pattern: self.pattern@,
            anchor: self.anchor,
            bbox_min: self.bbox_min,
            bbox_max: self.bbox_max,
            floor_area: self.floor_area,
        }
    }
}

impl View for RoomSummary {
    type V = SummaryView;

    open spec fn view(&self) -> SummaryView {
        SummaryView {
            room_id: self.room_id,
            pattern: self.pattern@,
            anchor: self.anchor,
            bbox_min: self.bbox_min,
            bbox_max: self.bbox_max,
            floor_area: self.floor_area,
        }
    }
}

/// Why a room summary from the wire is refused.
#[derive(Clone, Copy, Debug, PartialEq, Eq, Structural)]
pub enum RoomDecodeError {
    InvalidSummary,
    TooManyChunks,
}

impl RoomDecodeError {
    pub fn text(self) -> (r: &'static str)
        ensures
            r@ == match self {
                RoomDecodeError::InvalidSummary => "invalid room summary"@,
                RoomDecodeError::TooManyChunks => "room spans too many chunks"@,
            },
    {
        match self {
            RoomDecodeError::InvalidSummary => "invalid room summary",
            RoomDecodeError::TooManyChunks => "room spans too many chunks",
        }
    }
}

/// The chunk of a cell.
pub open spec fn chunk_of(c: IVec3) -> IVec3 {
    IVec3 { x: (c.x as int / 32) as i32, y: (c.y as int / 32) as i32, z: (c.z as int / 32) as i32 }
}

fn chunk_axis(v: i32) -> (r: i32)
    ensures
        r == v as int / 32,
        -0x400_0000 <= r < 0x400_0000,
{
    if v >= 0 {
        v / 32
    } else {
        let up: i32 = -1 - v;
        -1 - up / 32
    }
}

pub fn world_to_chunk(c: IVec3) -> (r: IVec3)
    ensures
        r == chunk_of(c),
        r.x == c.x as int / 32,
        r.y == c.y as int / 32,
        r.z == c.z as int / 32,
        -0x400_0000 <= r.x < 0x400_0000,
        -0x400_0000 <= r.y < 0x400_0000,
        -0x400_0000 <= r.z < 0x400_0000,
{
    IVec3::new(chunk_axis(c.x), chunk_axis(c.y), chunk_axis(c.z))
}

/// The corners of the box are in order.
pub open spec fn corners_in_order(lo: IVec3, hi: IVec3) -> bool {
    lo.x <= hi.x && lo.y <= hi.y && lo.z <= hi.z
}

/// The box does not span too many chunks.
pub open spec fn spans_few_chunks(lo: IVec3, hi: IVec3) -> bool {
    let a = chunk_of(lo);
    let b = chunk_of(hi);
    b.x - a.x + 1 <= MAX_ROOM_CHUNKS && b.y - a.y + 1 <= MAX_ROOM_CHUNKS && b.z - a.z + 1
        <= MAX_ROOM_CHUNKS
}

/// The chunks that a room touches, by x, then y, then z.
pub open spec fn room_chunks(v: SummaryView) -> Seq<IVec3> {
    let lo = chunk_of(v.bbox_min);
    let hi = chunk_of(v.bbox_max);
    if corners_in_order(lo, hi) {
        box_cells(lo, hi)
    } else {
        Seq::empty()
    }
}

/// Every cell of a room lies in one of the chunks listed for it.
pub proof fn law_room_chunks_cover(v: SummaryView, c: IVec3)
    requires
        in_box(c, v.bbox_min, v.bbox_max),
    ensures
        room_chunks(v).contains(chunk_of(c)),
{
    let lo = chunk_of(v.bbox_min);
    let hi = chunk_of(v.bbox_max);
    crate::plans::drag::law_box_cells(lo, hi);
    assert(lo.x <= chunk_of(c).x <= hi.x);
    assert(lo.y <= chunk_of(c).y <= hi.y);
    assert(lo.z <= chunk_of(c).z <= hi.z);
    assert(crate::plans::drag::low_corner(lo, hi) == lo);
    assert(crate::plans::drag::high_corner(lo, hi) == hi);
}

/// What a client makes of a room summary from the wire.
pub open spec fn decoded(v: SummaryView) -> Result<SummaryView, RoomDecodeError> {
    if !corners_in_order(v.bbox_min, v.bbox_max) {
        Err(RoomDecodeError::InvalidSummary)
    } else if !spans_few_chunks(v.bbox_min, v.bbox_max) {
        Err(RoomDecodeError::TooManyChunks)
    } else {
        Ok(v)
    }
}

/// A client reads back the very summary that was sent, unless its box is
/// inside out or too large; and it takes nothing else for a room.
pub proof fn law_summaries_survive_the_wire(sent: SummaryView)
    ensures
        decoded(sent) is Ok <==> corners_in_order(sent.bbox_min, sent.bbox_max) && spans_few_chunks(
            sent.bbox_min,
            sent.bbox_max,
        ),
        decoded(sent) matches Ok(read) ==> read == sent,
{
}

/// The rooms as they are sent to clients, keyed by id.
pub struct RoomSummaryDataset;

impl RoomSummaryDataset {
    /// Lists the chunks that a room touches.
    pub fn chunks(value: &RoomSummary) -> (r: Vec<IVec3>)
        ensures
            r@ == room_chunks(value@),
    {
        let lo: IVec3 = world_to_chunk(value.bbox_min);
        let hi: IVec3 = world_to_chunk(value.bbox_max);
        if lo.x <= hi.x && lo.y <= hi.y && lo.z <= hi.z {
            rect_cells_on_plane(lo, hi)
        } else {
            Vec::new()
        }
    }

    /// Prepares a room summary for the wire.
    pub fn to_wire(value: &RoomSummary) -> (r: RoomSummaryWire)
        requires
            encode_utf8(value.pattern@).len() <= MAX_WIRE_ID_BYTES,
        ensures
            r@ == value@,
    {
        match BoundedString::new(value.pattern.clone()) {
            Ok(pattern) => RoomSummaryWire {
                room_id: value.room_id,
                pattern,
                anchor: value.anchor,
                bbox_min: value.bbox_min,
                bbox_max: value.bbox_max,
                floor_area: value.floor_area,
            },
            Err(_) => vstd::pervasive::unreached(),
        }
    }

    /// Accepts a room summary from the wire.
    pub fn from_wire(wire: RoomSummaryWire) -> (r: Result<(u32, RoomSummary), RoomDecodeError>)
        ensures
            match r {
                Ok((key, s)) => key == wire.room_id && decoded(wire@) == Ok::<_, RoomDecodeError>(s@),
                Err(e) => decoded(wire@) == Err::<SummaryView, _>(e),
            },
    {
        if wire.bbox_min.x > wire.bbox_max.x || wire.bbox_min.y > wire.bbox_max.y || wire.bbox_min.z
            > wire.bbox_max.z {
            return Err(RoomDecodeError::InvalidSummary);
        }
        let lo: IVec3 = world_to_chunk(wire.bbox_min);
        let hi: IVec3 = world_to_chunk(wire.bbox_max);
        if hi.x - lo.x + 1 > MAX_ROOM_CHUNKS || hi.y - lo.y + 1 > MAX_ROOM_CHUNKS || hi.z - lo.z + 1
            > MAX_ROOM_CHUNKS {
            return Err(RoomDecodeError::TooManyChunks);
        }
        let summary: RoomSummary = RoomSummary {
            room_id: wire.room_id,
            pattern: wire.pattern.as_str().to_owned(),
            anchor: wire.anchor,
            bbox_min: wire.bbox_min,
            bbox_max: wire.bbox_max,
            floor_area: wire.floor_area,
        };
        Ok((summary.room_id, summary))
    }
}

/// The rooms that a client knows, by id.
pub struct ClientRooms {
    rooms: OrdMap<u32, RoomSummary>,
}

impl View for ClientRooms {
    type V = Map<u32, SummaryView>;

    closed spec fn view(&self) -> Map<u32, SummaryView> {
        Map::new(|k: u32| self.rooms@.contains_key(k), |k: u32| self.rooms@[k]@)
    }
}

/// How many cells the box of a room holds.
pub open spec fn box_volume(v: SummaryView) -> int {
    (v.bbox_max.x - v.bbox_min.x + 1) * (v.bbox_max.y - v.bbox_min.y + 1) * (v.bbox_max.z
        - v.bbox_min.z + 1)
}

fn volume(s: &RoomSummary) -> (r: i128)
    requires
        corners_in_order(s.bbox_min, s.bbox_max),
    ensures
        r == box_volume(s@),
{
    let dx: i128 = s.bbox_max.x as i128 - s.bbox_min.x as i128 + 1;
    let dy: i128 = s.bbox_max.y as i128 - s.bbox_min.y as i128 + 1;
    let dz: i128 = s.bbox_max.z as i128 - s.bbox_min.z as i128 + 1;
    assert(0 <= dx * dy <= 0x1_0000_0000 * 0x1_0000_0000) by (nonlinear_arith)
        requires
            0 <= dx <= 0x1_0000_0000,
            0 <= dy <= 0x1_0000_0000,
    ;
    assert(0 <= dx * dy * dz <= 0x1_0000_0000_0000_0000 * 0x1_0000_0000) by (nonlinear_arith)
        requires
            0 <= dx * dy <= 0x1_0000_0000 * 0x1_0000_0000,
            0 <= dz <= 0x1_0000_0000,
    ;
    dx * dy * dz
}

impl ClientRooms {
    pub fn new() -> (r: ClientRooms)
        ensures
            r@ == Map::<u32, SummaryView>::empty(),
    {
        let r = ClientRooms { rooms: OrdMap::new() };
        assert(r@ =~= Map::<u32, SummaryView>::empty());
        r
    }

    pub fn upsert(&mut self, key: u32, value: RoomSummary)
        ensures
            final(self)@ == old(self)@.insert(key, value@),
    {
        let _ = self.rooms.insert(key, value);
        assert(self@ =~= old(self)@.insert(key, value@));
    }

    pub fn delete(&mut self, key: u32)
        ensures
            final(self)@ == old(self)@.remove(key),
    {
        let _ = self.rooms.remove(key);
        assert(self@ =~= old(self)@.remove(key));
    }

    /// The smallest room around a cell; of several equally small ones the one
    /// with the lowest id.
    pub fn room_at(&self, cell: IVec3) -> (r: Option<&RoomSummary>)
        ensures
            r is Some <==> exists|k: u32| #[trigger]
                self@.contains_key(k) && in_box(cell, self@[k].bbox_min, self@[k].bbox_max),
            r matches Some(s) ==> exists|k: u32| #[trigger]
                self@.contains_key(k) && self@[k] == s@ && in_box(cell, s.bbox_min, s.bbox_max)
                    && forall|j: u32| #[trigger]
                    self@.contains_key(j) && in_box(cell, self@[j].bbox_min, self@[j].bbox_max)
                        ==> box_volume(s@) < box_volume(self@[j]) || (box_volume(s@) == box_volume(
                        self@[j],
                    ) && k <= j),
    {
        let n: usize = self.rooms.len();
        let mut best: Option<usize> = None;
        let mut i: usize = 0;
        while i < n
            invariant
                i <= n,
                n == self.rooms.keys().len(),
                forall|k: int|
                    0 <= k < n ==> self.rooms@.contains_key(#[trigger] self.rooms.keys()[k]),
                forall|j: int, k: int|
                    #![trigger self.rooms.keys()[j], self.rooms.keys()[k]]
                    0 <= j < k < n ==> self.rooms.keys()[j] < self.rooms.keys()[k],
                best is None ==> forall|k: int|
                    0 <= k < i ==> !holds(self@, #[trigger] self.rooms.keys()[k], cell),
                best matches Some(b) ==> b < i && holds(self@, self.rooms.keys()[b as int], cell)
                    && forall|k: int|
                    0 <= k < i && holds(self@, #[trigger] self.rooms.keys()[k], cell) ==> beats(
                        self@,
                        self.rooms.keys()[b as int],
                        self.rooms.keys()[k],
                    ),
            decreases n - i,
        {
            let room: &RoomSummary = self.rooms.value_at(i);
            assert(self@[self.rooms.keys()[i as int]] == room@);
            if cell.inside(room.bbox_min, room.bbox_max) {
                let better: bool = match best {
                    None => true,
                    Some(b) => {
                        let other: &RoomSummary = self.rooms.value_at(b);
                        assert(self@[self.rooms.keys()[b as int]] == other@);
                        volume(room) < volume(other)
                    },
                };
                if better {
                    best = Some(i);
                }
            }
            i = i + 1;
        }
        proof {
            assert forall|k: u32| #[trigger] self@.contains_key(k) implies exists|m: int|
                0 <= m < n && self.rooms.keys()[m] == k by {
                assert(self.rooms.keys().contains(k));
            }
        }
        match best {
            None => {
                proof {
                    assert forall|k: u32| #[trigger] self@.contains_key(k) implies !in_box(
                        cell,
                        self@[k].bbox_min,
                        self@[k].bbox_max,
                    ) by {
                        let m = choose|m: int| 0 <= m < n && self.rooms.keys()[m] == k;
                        assert(!holds(self@, self.rooms.keys()[m], cell));
                    }
                }
                None
            },
            Some(b) => {
                let r: &RoomSummary = self.rooms.value_at(b);
                proof {
                    let key = self.rooms.keys()[b as int];
                    assert(self@.contains_key(key) && self@[key] == r@);
                    assert forall|j: u32| #[trigger]
                        self@.contains_key(j) && in_box(
                            cell,
                            self@[j].bbox_min,
                            self@[j].bbox_max,
                        ) implies beats(self@, key, j) by {
                        let m = choose|m: int| 0 <= m < n && self.rooms.keys()[m] == j;
                        assert(holds(self@, self.rooms.keys()[m], cell));
                    }
                }
                Some(r)
            },
        }
    }
}

/// The room exists and its box holds the cell.
spec fn holds(m: Map<u32, SummaryView>, k: u32, cell: IVec3) -> bool {
    m.contains_key(k) && in_box(cell, m[k].bbox_min, m[k].bbox_max)
}

/// The room `k` is smaller than the room `j`, or as small and not later.
spec fn beats(m: Map<u32, SummaryView>, k: u32, j: u32) -> bool {
    box_volume(m[k]) < box_volume(m[j]) || (box_volume(m[k]) == box_volume(m[j]) && k <= j)
}

/// The room was changed and still counts.
pub open spec fn refreshed(mutations: Seq<RoomId>, rooms: Map<u32, Room>, id: u32) -> bool {
    mutations.contains(RoomId(id)) && matched_in(rooms, id)
}

/// The entry tells what the room is.
pub open spec fn tells(entry: SummaryView, id: u32, room: Room) -> bool {
    exists|s: RoomSummary| s@ == entry && #[trigger] summarizes(id, room, s)
}

/// The client table once events and changed rooms were taken in.
pub open spec fn synced(
    events: Seq<RoomEvent>,
    mutations: Seq<RoomId>,
    rooms: Map<u32, Room>,
    before: Map<u32, SummaryView>,
    after: Map<u32, SummaryView>,
) -> bool {
    &&& forall|id: u32| #[trigger]
        after.contains_key(id) <==> !destroyed_in(events, id) && (before.contains_key(id)
            || refreshed(mutations, rooms, id))
    &&& forall|id: u32| #[trigger]
        after.contains_key(id) ==> if refreshed(mutations, rooms, id) {
            tells(after[id], id, rooms[id])
        } else {
            after[id] == before[id]
        }
}

/// Brings the client table up to date after a detection run: changed rooms
/// that match are written, destroyed rooms are dropped.
pub fn sync_room_summaries(
    events: &Vec<RoomEvent>,
    mutations: &Vec<RoomId>,
    rooms: &RoomMap,
    summaries: &mut ClientRooms,
)
    requires
        sound_state(rooms@),
    ensures
        synced(events@, mutations@, rooms@.rooms, old(summaries)@, final(summaries)@),
{
    let mut i: usize = 0;
    while i < mutations.len()
        invariant
            sound_state(rooms@),
            i <= mutations@.len(),
            forall|id: u32| #[trigger]
                summaries@.contains_key(id) <==> old(summaries)@.contains_key(id) || refreshed(
                    mutations@.take(i as int),
                    rooms@.rooms,
                    id,
                ),
            forall|id: u32| #[trigger]
                summaries@.contains_key(id) ==> if refreshed(
                    mutations@.take(i as int),
                    rooms@.rooms,
                    id,
                ) {
                    tells(summaries@[id], id, rooms@.rooms[id])
                } else {
                    summaries@[id] == old(summaries)@[id]
                },
        decreases mutations@.len() - i,
    {
        let ghost before = summaries@;
        let ghost done = mutations@.take(i as int);
        let ghost more = mutations@.take(i + 1);
        let room: RoomId = mutations[i];
        let fresh: Option<RoomSummary> = rooms.summary_of(room);
        proof {
            assert forall|id: u32| refreshed(more, rooms@.rooms, id) <==> refreshed(done, rooms@.rooms, id) || (id
                == room.0 && matched_in(rooms@.rooms, id)) by {
                assert(more =~= done.push(room));
                if done.contains(RoomId(id)) {
                    let k = done.index_of(RoomId(id));
                    assert(more[k] == RoomId(id));
                }
                assert(more[i as int] == room);
                if more.contains(RoomId(id)) && id != room.0 {
                    let k = more.index_of(RoomId(id));
                    assert(done[k] == RoomId(id));
                }
            }
        }
        if let Some(summary) = fresh {
            assert(summarizes(room.0, rooms@.rooms[room.0], summary));
            summaries.upsert(summary.room_id, summary);
        }
        proof {
            assert forall|id: u32| #[trigger] summaries@.contains_key(id) implies if refreshed(
                more,
                rooms@.rooms,
                id,
            ) {
                tells(summaries@[id], id, rooms@.rooms[id])
            } else {
                summaries@[id] == old(summaries)@[id]
            } by {
                if id == room.0 && fresh is Some {
                    assert(summarizes(id, rooms@.rooms[id], fresh->0));
                    assert((fresh->0)@ == summaries@[id]);
                } else {
                    assert(before.contains_key(id));
                    assert(refreshed(more, rooms@.rooms, id) == refreshed(done, rooms@.rooms, id));
                }
            }
        }
        i = i + 1;
    }
    assert(mutations@.take(mutations@.len() as int) =~= mutations@);
    let ghost mid = summaries@;
    let mut k: usize = 0;
    while k < events.len()
        invariant
            k <= events@.len(),
            forall|id: u32| #[trigger]
                summaries@.contains_key(id) <==> mid.contains_key(id) && !destroyed_in(
                    events@.take(k as int),
                    id,
                ),
            forall|id: u32| #[trigger] summaries@.contains_key(id) ==> summaries@[id] == mid[id],
        decreases events@.len() - k,
    {
        let ghost done = events@.take(k as int);
        let ghost more = events@.take(k + 1);
        proof {
            assert forall|id: u32|
                destroyed_in(more, id) <==> destroyed_in(done, id) || (events@[k as int] matches
                RoomEvent::Destroyed { room } && room.0 == id) by {
                if destroyed_in(done, id) {
                    let m = choose|m: int|
                        0 <= m < done.len() && ((#[trigger] done[m]) matches RoomEvent::Destroyed {
                            room,
                        } && room.0 == id);
                    assert(more[m] == done[m]);
                }
                assert(more[k as int] == events@[k as int]);
                if destroyed_in(more, id) {
                    let m = choose|m: int|
                        0 <= m < more.len() && ((#[trigger] more[m]) matches RoomEvent::Destroyed {
                            room,
                        } && room.0 == id);
                    if m < k {
                        assert(done[m] == more[m]);
                    }
                }
            }
        }
        match &events[k] {
            RoomEvent::Destroyed { room } => {
                summaries.delete(room.0);
            },
            _ => {},
        }
        k = k + 1;
    }
    assert(events@.take(events@.len() as int) =~= events@);
}

/// The client table holds the matched rooms and nothing else.
pub open spec fn mirrors(table: Map<u32, SummaryView>, rooms: Map<u32, Room>) -> bool {
    &&& forall|id: u32| #[trigger] table.contains_key(id) <==> matched_in(rooms, id)
    &&& forall|id: u32| #[trigger] table.contains_key(id) ==> tells(table[id], id, rooms[id])
}

/// A client table that mirrors the matched rooms mirrors them after a detection
/// run too, when it takes in what the run reports and every matched room that
/// the run made or changed.
pub proof fn law_clients_mirror_the_rooms(
    old_state: RoomState,
    new_state: RoomState,
    events: Seq<RoomEvent>,
    edited: Seq<IVec3>,
    world: &BlockWorld,
    reg: &BlockRegistry,
    patterns: &RoomPatternRegistry,
    mutations: Seq<RoomId>,
    before: Map<u32, SummaryView>,
    after: Map<u32, SummaryView>,
)
    requires
        sound_state(old_state),
        redetected(old_state, new_state, events, edited, world, reg, patterns),
        forall|id: u32| #[trigger]
            matched_in(new_state.rooms, id) && !mutations.contains(RoomId(id))
                ==> old_state.rooms.contains_key(id) && old_state.rooms[id] == new_state.rooms[id],
        mirrors(before, old_state.rooms),
        synced(events, mutations, new_state.rooms, before, after),
    ensures
        mirrors(after, new_state.rooms),
{
    assert forall|id: u32| #[trigger] after.contains_key(id) <==> matched_in(
        new_state.rooms,
        id,
    ) by {
        law_reported_ends_are_real(
            old_state,
            new_state,
            events,
            edited,
            world,
            reg,
            patterns,
            id,
        );
        assert(before.contains_key(id) <==> matched_in(old_state.rooms, id));
    }
    assert forall|id: u32| #[trigger] after.contains_key(id) implies tells(
        after[id],
        id,
        new_state.rooms[id],
    ) by {
        assert(matched_in(new_state.rooms, id));
        if !refreshed(mutations, new_state.rooms, id) {
            assert(before.contains_key(id));
        }
    }
}

/// A chunk holds 32 cells along each axis, and negative cells lie in negative
/// chunks: the chunk with number 0 begins at cell 0, the one before it ends at
/// cell -1.
pub proof fn law_chunks_hold_their_cells(c: IVec3)
    ensures
        chunk_of(c).x * 32 <= c.x < chunk_of(c).x * 32 + 32,
        chunk_of(c).y * 32 <= c.y < chunk_of(c).y * 32 + 32,
        chunk_of(c).z * 32 <= c.z < chunk_of(c).z * 32 + 32,
{
}

/// A room is listed under a chunk exactly if the chunk has a cell in common
/// with the room's box along every axis, and under none twice.
pub proof fn law_rooms_are_listed_where_they_are(v: SummaryView, chunk: IVec3)
    requires
        corners_in_order(v.bbox_min, v.bbox_max),
    ensures
        room_chunks(v).contains(chunk) <==> chunk.x * 32 <= v.bbox_max.x && v.bbox_min.x < chunk.x
            * 32 + 32 && chunk.y * 32 <= v.bbox_max.y && v.bbox_min.y < chunk.y * 32 + 32 && chunk.z
            * 32 <= v.bbox_max.z && v.bbox_min.z < chunk.z * 32 + 32,
        forall|i: int, j: int|
            0 <= i < j < room_chunks(v).len() ==> #[trigger] room_chunks(v)[i]
                != #[trigger] room_chunks(v)[j],
{
    let lo = chunk_of(v.bbox_min);
    let hi = chunk_of(v.bbox_max);
    crate::plans::drag::law_box_cells(lo, hi);
    law_chunks_hold_their_cells(v.bbox_min);
    law_chunks_hold_their_cells(v.bbox_max);
    assert(crate::plans::drag::low_corner(lo, hi) == lo);
    assert(crate::plans::drag::high_corner(lo, hi) == hi);
}

/// A summary is taken for what was sent if no axis of its box is inside out
/// and none touches more than 64 chunks; one inside out is refused as invalid,
/// whatever its size, and any other as too large.
pub proof fn law_summaries_are_checked(sent: SummaryView)
    ensures
        ({
            let (lo, hi) = (sent.bbox_min, sent.bbox_max);
            let (a, b) = (chunk_of(lo), chunk_of(hi));
            let inside_out = lo.x > hi.x || lo.y > hi.y || lo.z > hi.z;
            let large = b.x - a.x >= 64 || b.y - a.y >= 64 || b.z - a.z >= 64;
            &&& decoded(sent) is Ok <==> !inside_out && !large
            &&& decoded(sent) is Ok ==> decoded(sent)->Ok_0 == sent
            &&& inside_out ==> decoded(sent)->Err_0 is InvalidSummary
            &&& !inside_out && large ==> decoded(sent)->Err_0 is TooManyChunks
        }),
{
}

/// The size of a box is the number of its cells.
pub proof fn law_volumes_count_cells(v: SummaryView)
    requires
        corners_in_order(v.bbox_min, v.bbox_max),
    ensures
        box_volume(v) == box_cells(v.bbox_min, v.bbox_max).len(),
        forall|c: IVec3|
            #![trigger box_cells(v.bbox_min, v.bbox_max).contains(c)]
            box_cells(v.bbox_min, v.bbox_max).contains(c) <==> v.bbox_min.x <= c.x <= v.bbox_max.x
                && v.bbox_min.y <= c.y <= v.bbox_max.y && v.bbox_min.z <= c.z <= v.bbox_max.z,
{
    crate::plans::drag::law_box_cells(v.bbox_min, v.bbox_max);
    assert(crate::plans::drag::low_corner(v.bbox_min, v.bbox_max) == v.bbox_min);
    assert(crate::plans::drag::high_corner(v.bbox_min, v.bbox_max) == v.bbox_max);
}

/// A client drops a room exactly if its end was reported; it gains one exactly
/// if the room was changed, counts, and has not ended; and it takes a changed
/// room's new description over the old one.
pub proof fn law_clients_follow_the_reports(
    events: Seq<RoomEvent>,
    mutations: Seq<RoomId>,
    rooms: Map<u32, Room>,
    before: Map<u32, SummaryView>,
    after: Map<u32, SummaryView>,
    id: u32,
    i: int,
)
    requires
        synced(events, mutations, rooms, before, after),
    ensures
        0 <= i < events.len() && events[i] == (RoomEvent::Destroyed { room: RoomId(id) })
            ==> !after.contains_key(id),
        before.contains_key(id) && !after.contains_key(id) ==> exists|k: int|
            0 <= k < events.len() && #[trigger] events[k] == (RoomEvent::Destroyed {
                room: RoomId(id),
            }),
        !before.contains_key(id) && after.contains_key(id) ==> mutations.contains(RoomId(id))
            && rooms.contains_key(id) && rooms[id].pattern is Some,
        0 <= i < mutations.len() && mutations[i] == RoomId(id) && rooms.contains_key(id)
            && rooms[id].pattern is Some && after.contains_key(id) ==> after[id].room_id == id,
        !mutations.contains(RoomId(id)) && after.contains_key(id) ==> before.contains_key(id)
            && after[id] == before[id],
{
    if 0 <= i < events.len() && events[i] == (RoomEvent::Destroyed { room: RoomId(id) }) {
        assert(destroyed_in(events, id));
    }
    if destroyed_in(events, id) {
        let k = choose|k: int|
            0 <= k < events.len() && ((#[trigger] events[k]) matches RoomEvent::Destroyed { room }
                && room.0 == id);
        assert(events[k] == (RoomEvent::Destroyed { room: RoomId(id) }));
    }
}

} // verus!
