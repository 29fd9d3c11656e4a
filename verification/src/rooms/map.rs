//! The rooms that exist right now.

use crate::cells::{gap, IVec3};
use crate::ord_map::{CellMap, OrdMap};
use crate::protocol::RoomSummary;
use vstd::prelude::*;

verus! {

#[derive(Clone, Copy, Debug, PartialEq, Eq, Hash, Structural)]
pub struct RoomId(pub u32);

/// One detected region.
pub struct Room {
    /// The pattern it matches; unmatched regions are kept for bookkeeping.
    pub pattern: Option<String>,
    pub floor_cells: Vec<IVec3>,
    /// Everything that can change what the room is: floor, walls, ceiling.
    pub bbox_min: IVec3,
    pub bbox_max: IVec3,
}

/// Every detected region, and the region of each floor cell.
pub struct RoomMap {
    rooms: OrdMap<u32, Room>,
    cell_to_room: CellMap<u32>,
    next_id: u32,
}

/// Rooms by id, the room of each floor cell, and the next free id.
pub struct RoomState {
    pub rooms: Map<u32, Room>,
    pub cells: Map<IVec3, u32>,
    pub next: int,
}

/// Ids in use are below the next one, every room has floor, and a cell is
/// mapped only to a room that has it as floor.
pub open spec fn sound_state(s: RoomState) -> bool {
    &&& forall|id: u32| #[trigger]
        s.rooms.contains_key(id) ==> id < s.next && 0 < s.rooms[id].floor_cells@.len() <= u32::MAX
    &&& forall|c: IVec3| #[trigger]
        s.cells.contains_key(c) ==> s.rooms.contains_key(s.cells[c])
            && s.rooms[s.cells[c]].floor_cells@.contains(c)
}

impl View for RoomMap {
    type V = RoomState;

    closed spec fn view(&self) -> RoomState {
        RoomState {
            rooms: self.rooms@,
            cells: self.cell_to_room@,
            next: self.next_id as int,
        }
    }
}

impl Default for RoomMap {
    fn default() -> (r: RoomMap)
        ensures
            r@.rooms == Map::<u32, Room>::empty(),
            r@.cells == Map::<IVec3, u32>::empty(),
            r@.next == 0,
    {
        RoomMap { rooms: OrdMap::new(), cell_to_room: CellMap::new(), next_id: 0 }
    }
}

// ---------- anchors ----------

pub open spec fn sum_x(cells: Seq<IVec3>) -> int
    decreases cells.len(),
{
    if cells.len() == 0 {
        0
    } else {
        sum_x(cells.drop_last()) + cells.last().x
    }
}

pub open spec fn sum_y(cells: Seq<IVec3>) -> int
    decreases cells.len(),
{
    if cells.len() == 0 {
        0
    } else {
        sum_y(cells.drop_last()) + cells.last().y
    }
}

pub open spec fn sum_z(cells: Seq<IVec3>) -> int
    decreases cells.len(),
{
    if cells.len() == 0 {
        0
    } else {
        sum_z(cells.drop_last()) + cells.last().z
    }
}

/// How far the cell lies from the geometric centre of the cells, along the
/// axes, times the number of cells: this makes it a whole number.
pub open spec fn off_centre(cells: Seq<IVec3>, c: IVec3) -> int {
    let n = cells.len() as int;
    gap(n * c.x, sum_x(cells)) + gap(n * c.y, sum_y(cells)) + gap(n * c.z, sum_z(cells))
}

/// `a` is the first of the cells that lie nearest to their geometric centre.
pub open spec fn is_anchor(cells: Seq<IVec3>, a: IVec3) -> bool {
    exists|k: int|
        {
            &&& 0 <= k < cells.len()
            &&& (#[trigger] cells[k]) == a
            &&& forall|j: int|
                0 <= j < cells.len() ==> off_centre(cells, a) <= off_centre(
                    cells,
                    #[trigger] cells[j],
                )
            &&& forall|j: int|
                0 <= j < k ==> off_centre(cells, a) < off_centre(cells, #[trigger] cells[j])
        }
}

/// How far `n` times a coordinate lies from the sum of `n` coordinates.
fn axis_off(n: u64, v: i32, sum: i128) -> (r: i128)
    requires
        -(n * 0x8000_0000) <= sum <= n * 0x7fff_ffff,
    ensures
        r == gap(n * v, sum as int),
        0 <= r <= 0x1_0000_0000_0000_0000_0000_0000,
{
    assert(-0x8000_0000_0000_0000_0000_0000 <= n * v <= 0x8000_0000_0000_0000_0000_0000
        && n * 0x8000_0000 <= 0x8000_0000_0000_0000_0000_0000) by (nonlinear_arith)
        requires
            0 <= n <= 0xffff_ffff_ffff_ffff,
            -0x8000_0000 <= v <= 0x7fff_ffff,
    ;
    let at: i128 = n as i128 * v as i128;
    if at < sum {
        sum - at
    } else {
        at - sum
    }
}

/// The floor cell nearest to the centre: a walkable target whatever the shape.
pub fn floor_anchor(cells: &Vec<IVec3>) -> (r: Option<IVec3>)
    ensures
        r is None <==> cells@.len() == 0,
        r matches Some(a) ==> is_anchor(cells@, a),
{
    if cells.len() == 0 {
        return None;
    }
    let mut x: i128 = 0;
    let mut y: i128 = 0;
    let mut z: i128 = 0;
    let mut i: usize = 0;
    while i < cells.len()
        invariant
            i <= cells@.len(),
            x == sum_x(cells@.take(i as int)),
            y == sum_y(cells@.take(i as int)),
            z == sum_z(cells@.take(i as int)),
            -(i * 0x8000_0000) <= x <= i * 0x7fff_ffff,
            -(i * 0x8000_0000) <= y <= i * 0x7fff_ffff,
            -(i * 0x8000_0000) <= z <= i * 0x7fff_ffff,
        decreases cells@.len() - i,
    {
        assert(cells@.take(i + 1).drop_last() =~= cells@.take(i as int));
        x = x + cells[i].x as i128;
        y = y + cells[i].y as i128;
        z = z + cells[i].z as i128;
        i = i + 1;
    }
    assert(cells@.take(cells@.len() as int) =~= cells@);
    let n: u64 = cells.len() as u64;
    let mut best: usize = 0;
    let mut best_gap: i128 = axis_off(n, cells[0].x, x) + axis_off(n, cells[0].y, y) + axis_off(
        n,
        cells[0].z,
        z,
    );
    let mut k: usize = 1;
    while k < cells.len()
        invariant
            1 <= k <= cells@.len(),
            best < k,
            n == cells@.len(),
            x == sum_x(cells@),
            y == sum_y(cells@),
            z == sum_z(cells@),
            -(n * 0x8000_0000) <= x <= n * 0x7fff_ffff,
            -(n * 0x8000_0000) <= y <= n * 0x7fff_ffff,
            -(n * 0x8000_0000) <= z <= n * 0x7fff_ffff,
            best_gap == off_centre(cells@, cells@[best as int]),
            forall|j: int| 0 <= j < k ==> best_gap <= off_centre(cells@, #[trigger] cells@[j]),
            forall|j: int| 0 <= j < best ==> best_gap < off_centre(cells@, #[trigger] cells@[j]),
        decreases cells@.len() - k,
    {
        let here: i128 = axis_off(n, cells[k].x, x) + axis_off(n, cells[k].y, y) + axis_off(
            n,
            cells[k].z,
            z,
        );
        if here < best_gap {
            best = k;
            best_gap = here;
        }
        k = k + 1;
    }
    assert(is_anchor(cells@, cells@[best as int]));
    Some(cells[best])
}

// ---------- queries ----------

/// The summary describes a matched room.
pub open spec fn summarizes(id: u32, room: Room, s: RoomSummary) -> bool {
    &&& s.room_id == id
    &&& room.pattern is Some
    &&& s.pattern@ == room.pattern->0@
    &&& is_anchor(room.floor_cells@, s.anchor)
    &&& s.bbox_min == room.bbox_min
    &&& s.bbox_max == room.bbox_max
    &&& s.floor_area == room.floor_cells@.len()
}

/// The room counts for callers: it exists and matches a pattern.
pub open spec fn matched_in(rooms: Map<u32, Room>, id: u32) -> bool {
    rooms.contains_key(id) && rooms[id].pattern is Some
}

/// The cell is floor of a matched room.
pub open spec fn in_matched_room(s: RoomState, cell: IVec3) -> bool {
    s.cells.contains_key(cell) && matched_in(s.rooms, s.cells[cell])
}

/// The ids of the matched rooms, each once, in increasing order.
pub open spec fn lists_matched(rooms: Map<u32, Room>, ids: Seq<u32>) -> bool {
    &&& forall|i: int| 0 <= i < ids.len() ==> matched_in(rooms, #[trigger] ids[i])
    &&& forall|i: int, j: int|
        #![trigger ids[i], ids[j]]
        0 <= i < j < ids.len() ==> ids[i] < ids[j]
    &&& forall|id: u32| #[trigger] matched_in(rooms, id) ==> ids.contains(id)
}

/// Index of one of `n` cells, chosen by a number that is uniform over `u32`.
pub open spec fn spread_index(bits: u32, n: int) -> int {
    (bits * n) / 0x1_0000_0000
}

impl RoomMap {
    pub(crate) fn room(&self, id: u32) -> (r: Option<&Room>)
        ensures
            r is Some <==> self@.rooms.contains_key(id),
            r matches Some(room) ==> *room == self@.rooms[id],
    {
        self.rooms.get(id)
    }

    pub(crate) fn room_at(&self, c: IVec3) -> (r: Option<u32>)
        ensures
            r is Some <==> self@.cells.contains_key(c),
            r matches Some(id) ==> id == self@.cells[c],
    {
        match self.cell_to_room.get(c) {
            Some(id) => Some(*id),
            None => None,
        }
    }

    /// Ids of all rooms, matched or not, in increasing order.
    pub(crate) fn ids(&self) -> (ids: Vec<u32>)
        ensures
            forall|i: int| 0 <= i < ids@.len() ==> self@.rooms.contains_key(#[trigger] ids@[i]),
            forall|id: u32| #[trigger] self@.rooms.contains_key(id) ==> ids@.contains(id),
    {
        let n: usize = self.rooms.len();
        let mut ids: Vec<u32> = Vec::new();
        let mut k: usize = 0;
        while k < n
            invariant
                n == self.rooms.keys().len(),
                k <= n,
                ids@ == self.rooms.keys().take(k as int),
                forall|i: int|
                    0 <= i < n ==> self.rooms@.contains_key(#[trigger] self.rooms.keys()[i]),
                forall|c: u32| #[trigger]
                    self.rooms@.contains_key(c) ==> self.rooms.keys().contains(c),
            decreases n - k,
        {
            ids.push(self.rooms.key_at(k));
            assert(ids@ =~= self.rooms.keys().take(k + 1));
            k = k + 1;
        }
        assert(ids@ =~= self.rooms.keys());
        ids
    }

    pub(crate) fn next_id(&self) -> (r: u32)
        ensures
            r == self@.next,
    {
        self.next_id
    }

    pub(crate) fn set_next_id(&mut self, id: u32)
        ensures
            final(self)@ == (RoomState { next: id as int, ..old(self)@ }),
    {
        self.next_id = id;
    }

    pub(crate) fn put_room(&mut self, id: u32, room: Room)
        ensures
            final(self)@ == (RoomState { rooms: old(self)@.rooms.insert(id, room), ..old(self)@ }),
    {
        let _ = self.rooms.insert(id, room);
    }

    pub(crate) fn remove_room(&mut self, id: u32) -> (r: Option<Room>)
        ensures
            final(self)@ == (RoomState { rooms: old(self)@.rooms.remove(id), ..old(self)@ }),
            r is Some <==> old(self)@.rooms.contains_key(id),
            r matches Some(room) ==> room == old(self)@.rooms[id],
    {
        self.rooms.remove(id)
    }

    pub(crate) fn link(&mut self, c: IVec3, id: u32)
        ensures
            final(self)@ == (RoomState { cells: old(self)@.cells.insert(c, id), ..old(self)@ }),
    {
        let _ = self.cell_to_room.insert(c, id);
    }

    pub(crate) fn unlink(&mut self, c: IVec3)
        ensures
            final(self)@ == (RoomState { cells: old(self)@.cells.remove(c), ..old(self)@ }),
    {
        let _ = self.cell_to_room.remove(c);
    }

    pub fn room_bbox(&self, id: RoomId) -> (r: Option<(IVec3, IVec3)>)
        ensures
            r is Some <==> self@.rooms.contains_key(id.0),
            r matches Some(b) ==> b == (self@.rooms[id.0].bbox_min, self@.rooms[id.0].bbox_max),
    {
        match self.rooms.get(id.0) {
            Some(room) => Some((room.bbox_min, room.bbox_max)),
            None => None,
        }
    }

    /// Ids of the matched rooms, in increasing order.
    pub fn matched_ids(&self) -> (ids: Vec<u32>)
        ensures
            lists_matched(self@.rooms, ids@),
    {
        let n: usize = self.rooms.len();
        let ghost keys = self.rooms.keys();
        let mut ids: Vec<u32> = Vec::new();
        let mut k: usize = 0;
        while k < n
            invariant
                n == keys.len(),
                keys == self.rooms.keys(),
                forall|i: int, j: int|
                    #![trigger keys[i], keys[j]]
                    0 <= i < j < n ==> keys[i] < keys[j],
                k <= n,
                forall|i: int| 0 <= i < ids@.len() ==> matched_in(self@.rooms, #[trigger] ids@[i]),
                forall|i: int| k < n && 0 <= i < ids@.len() ==> (#[trigger] ids@[i]) < keys[k as int],
                forall|i: int, j: int|
                    #![trigger ids@[i], ids@[j]]
                    0 <= i < j < ids@.len() ==> ids@[i] < ids@[j],
                forall|m: int|
                    0 <= m < k && matched_in(self@.rooms, #[trigger] keys[m]) ==> ids@.contains(
                        keys[m],
                    ),
            decreases n - k,
        {
            let id: u32 = self.rooms.key_at(k);
            let room: &Room = self.rooms.value_at(k);
            let ghost ids0 = ids@;
            if room.pattern.is_some() {
                ids.push(id);
            }
            assert forall|m: int|
                0 <= m < k + 1 && matched_in(self@.rooms, #[trigger] keys[m]) implies ids@.contains(
                keys[m],
            ) by {
                if m < k {
                    let i = choose|i: int| 0 <= i < ids0.len() && ids0[i] == keys[m];
                    assert(ids@[i] == keys[m]);
                } else {
                    assert(ids@[ids0.len() as int] == keys[m]);
                }
            }
            k = k + 1;
        }
        proof {
            assert forall|id: u32| #[trigger] matched_in(self@.rooms, id) implies ids@.contains(
                id,
            ) by {
                assert(self.rooms@.contains_key(id));
                assert(keys.contains(id));
                let m = choose|m: int| 0 <= m < keys.len() && keys[m] == id;
                assert(matched_in(self@.rooms, keys[m]));
            }
        }
        ids
    }

    /// Every matched room with its box, by increasing id.
    pub fn iter_matched_with_bbox(&self) -> (r: Vec<(RoomId, IVec3, IVec3)>)
        ensures
            exists|ids: Seq<u32>| #[trigger]
                lists_matched(self@.rooms, ids) && r@.len() == ids.len() && forall|i: int|
                    0 <= i < ids.len() ==> (#[trigger] r@[i]) == (
                        RoomId(ids[i]),
                        self@.rooms[ids[i]].bbox_min,
                        self@.rooms[ids[i]].bbox_max,
                    ),
    {
        let ids: Vec<u32> = self.matched_ids();
        let mut out: Vec<(RoomId, IVec3, IVec3)> = Vec::new();
        let mut k: usize = 0;
        while k < ids.len()
            invariant
                lists_matched(self@.rooms, ids@),
                k <= ids@.len(),
                out@.len() == k,
                forall|i: int|
                    0 <= i < k ==> (#[trigger] out@[i]) == (
                        RoomId(ids@[i]),
                        self@.rooms[ids@[i]].bbox_min,
                        self@.rooms[ids@[i]].bbox_max,
                    ),
            decreases ids@.len() - k,
        {
            assert(matched_in(self@.rooms, ids@[k as int]));
            match self.rooms.get(ids[k]) {
                Some(room) => {
                    out.push((RoomId(ids[k]), room.bbox_min, room.bbox_max));
                },
                None => {
                    assert(false);
                },
            }
            k = k + 1;
        }
        out
    }

    /// Every matched room with its pattern and anchor, by increasing id.
    pub fn iter_matched(&self) -> (r: Vec<(RoomId, String, IVec3)>)
        requires
            sound_state(self@),
        ensures
            exists|ids: Seq<u32>| #[trigger]
                lists_matched(self@.rooms, ids) && r@.len() == ids.len() && forall|i: int|
                    0 <= i < ids.len() ==> (#[trigger] r@[i]).0 == RoomId(ids[i]) && Some(r@[i].1)
                        == self@.rooms[ids[i]].pattern && is_anchor(
                        self@.rooms[ids[i]].floor_cells@,
                        r@[i].2,
                    ),
    {
        let ids: Vec<u32> = self.matched_ids();
        let mut out: Vec<(RoomId, String, IVec3)> = Vec::new();
        let mut k: usize = 0;
        while k < ids.len()
            invariant
                sound_state(self@),
                lists_matched(self@.rooms, ids@),
                k <= ids@.len(),
                out@.len() == k,
                forall|i: int|
                    0 <= i < k ==> (#[trigger] out@[i]).0 == RoomId(ids@[i]) && Some(out@[i].1)
                        == self@.rooms[ids@[i]].pattern && is_anchor(
                        self@.rooms[ids@[i]].floor_cells@,
                        out@[i].2,
                    ),
            decreases ids@.len() - k,
        {
            assert(matched_in(self@.rooms, ids@[k as int]));
            assert(self@.rooms.contains_key(ids@[k as int]));
            if let Some(room) = self.rooms.get(ids[k]) {
                if let Some(pattern) = &room.pattern {
                    if let Some(anchor) = floor_anchor(&room.floor_cells) {
                        out.push((RoomId(ids[k]), pattern.clone(), anchor));
                    }
                }
            }
            k = k + 1;
        }
        out
    }

    /// Snapshot of a matched room.
    pub fn summary_of(&self, id: RoomId) -> (r: Option<RoomSummary>)
        requires
            sound_state(self@),
        ensures
            r is Some <==> matched_in(self@.rooms, id.0),
            r matches Some(s) ==> summarizes(id.0, self@.rooms[id.0], s),
    {
        match self.rooms.get(id.0) {
            None => None,
            Some(room) => match &room.pattern {
                None => None,
                Some(pattern) => match floor_anchor(&room.floor_cells) {
                    None => None,
                    Some(anchor) => Some(
                        RoomSummary {
                            room_id: id.0,
                            pattern: pattern.clone(),
                            anchor,
                            bbox_min: room.bbox_min,
                            bbox_max: room.bbox_max,
                            floor_area: room.floor_cells.len() as u32,
                        },
                    ),
                },
            },
        }
    }

    /// Every matched room as a summary, by increasing id.
    pub fn matched_summaries(&self) -> (r: Vec<RoomSummary>)
        requires
            sound_state(self@),
        ensures
            exists|ids: Seq<u32>| #[trigger]
                lists_matched(self@.rooms, ids) && r@.len() == ids.len() && forall|i: int|
                    0 <= i < ids.len() ==> summarizes(
                        ids[i],
                        self@.rooms[ids[i]],
                        #[trigger] r@[i],
                    ),
    {
        let ids: Vec<u32> = self.matched_ids();
        let mut out: Vec<RoomSummary> = Vec::new();
        let mut k: usize = 0;
        while k < ids.len()
            invariant
                sound_state(self@),
                lists_matched(self@.rooms, ids@),
                k <= ids@.len(),
                out@.len() == k,
                forall|i: int|
                    0 <= i < k ==> summarizes(
                        ids@[i],
                        self@.rooms[ids@[i]],
                        #[trigger] out@[i],
                    ),
            decreases ids@.len() - k,
        {
            assert(matched_in(self@.rooms, ids@[k as int]));
            if let Some(s) = self.summary_of(RoomId(ids[k])) {
                out.push(s);
            }
            k = k + 1;
        }
        out
    }

    /// If `cell` is a floor cell of a matched room, one of that room's floor
    /// cells, spread over the floor by `bits`, which is meant to be uniform.
    pub fn random_floor_cell_in_same_room(&self, cell: IVec3, bits: u32) -> (r: Option<IVec3>)
        requires
            sound_state(self@),
        ensures
            r is Some <==> in_matched_room(self@, cell),
            r matches Some(c) ==> {
                let floor = self@.rooms[self@.cells[cell]].floor_cells@;
                c == floor[spread_index(bits, floor.len() as int)] && floor.contains(c)
                    && floor.contains(cell)
            },
    {
        match self.cell_to_room.get(cell) {
            None => None,
            Some(id) => match self.rooms.get(*id) {
                None => None,
                Some(room) => {
                    if room.pattern.is_none() {
                        return None;
                    }
                    let n: u64 = room.floor_cells.len() as u64;
                    assert(0 <= bits * n <= 0xffff_ffff * 0xffff_ffff && (bits * n)
                        / 0x1_0000_0000 < n) by (nonlinear_arith)
                        requires
                            0 <= bits <= 0xffff_ffff,
                            1 <= n <= 0xffff_ffff,
                    ;
                    let idx: usize = ((bits as u64 * n) / 0x1_0000_0000) as usize;
                    Some(room.floor_cells[idx])
                },
            },
        }
    }
}

/// Uniform numbers spread evenly over the cells: the smallest is the first cell,
/// the largest the last, and a larger number never an earlier cell.
pub proof fn law_spreads_are_even(a: u32, b: u32, n: int)
    requires
        0 < n <= u32::MAX,
        a <= b,
    ensures
        0 <= spread_index(a, n) <= spread_index(b, n) < n,
        spread_index(0, n) == 0,
        spread_index(u32::MAX, n) == n - 1,
        spread_index(a, n) * 0x1_0000_0000 <= a * n < (spread_index(a, n) + 1) * 0x1_0000_0000,
{
    assert(0 <= a * n <= b * n < 0x1_0000_0000 * n) by (nonlinear_arith)
        requires
            0 <= a <= b < 0x1_0000_0000,
            n > 0,
    ;
    let x = a * n;
    let y = b * n;
    assert(0 <= x / 0x1_0000_0000 <= y / 0x1_0000_0000 < n) by (nonlinear_arith)
        requires
            0 <= x <= y < 0x1_0000_0000 * n,
    ;
    assert(0 * n == 0) by (nonlinear_arith);
    let z = u32::MAX * n;
    assert(z == 0x1_0000_0000 * n - n) by (nonlinear_arith)
        requires
            z == 0xffff_ffff * n,
    ;
    assert(z / 0x1_0000_0000 == n - 1) by (nonlinear_arith)
        requires
            z == 0x1_0000_0000 * n - n,
            0 < n <= 0xffff_ffff,
    ;
}

/// The centre weighs every cell alike: one more cell adds its own coordinates.
/// The anchor is one of the cells, and none lies nearer to the centre.
pub proof fn law_anchors_are_central(cells: Seq<IVec3>, c: IVec3, a: IVec3, k: int)
    ensures
        sum_x(Seq::<IVec3>::empty()) == 0,
        sum_y(Seq::<IVec3>::empty()) == 0,
        sum_z(Seq::<IVec3>::empty()) == 0,
        sum_x(cells.push(c)) == sum_x(cells) + c.x,
        sum_y(cells.push(c)) == sum_y(cells) + c.y,
        sum_z(cells.push(c)) == sum_z(cells) + c.z,
        is_anchor(cells, a) ==> cells.contains(a),
        is_anchor(cells, a) && 0 <= k < cells.len() ==> {
            let n = cells.len() as int;
            let far = |p: IVec3|
                gap(n * p.x, sum_x(cells)) + gap(n * p.y, sum_y(cells)) + gap(n * p.z, sum_z(cells));
            far(a) <= far(cells[k])
        },
        cells.len() == 1 ==> is_anchor(cells, cells[0]),
{
    let more = cells.push(c);
    assert(more.drop_last() =~= cells);
    if cells.len() == 1 {
        assert(cells[0] == cells[0]);
    }
}

/// The summary of a matched room tells its id, pattern, box and floor area, and
/// a floor cell to go to.
pub proof fn law_summaries_tell_the_room(id: u32, room: Room, s: RoomSummary)
    requires
        summarizes(id, room, s),
    ensures
        s.room_id == id,
        room.pattern is Some && s.pattern@ == room.pattern->0@,
        s.bbox_min == room.bbox_min && s.bbox_max == room.bbox_max,
        s.floor_area == room.floor_cells@.len(),
        room.floor_cells@.contains(s.anchor),
{
}

} // verus!
