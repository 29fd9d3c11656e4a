//! Keeps the room map in step with edits of the world.

use crate::blocks::{BlockRegistry, BlockWorld};
use crate::cells::{gap, in_box, max_of, min_of, neighbour, IVec3};
use crate::ord_map::{CellMap, OrdMap};
use crate::rooms::counting::{lemma_tally_step, tally};
use crate::rooms::fill::{
    choke_along, clear_to_probe, fill_edge, fill_path, fill_steps_on, fills_region,
    flood_fill_floor, floor_cell, in_region, is_choke_along, is_floor_cell, region_exceeds,
    FloorFill,
};
use crate::rooms::map::{sound_state, Room, RoomId, RoomMap, RoomState};
use crate::rooms::patterns::{best_match, fits, match_pattern, RoomPatternRegistry};
use crate::rooms::signature::{compute_signature, describes, tallest_probe, RoomSignature};
use vstd::prelude::*;

verus! {

/// Larger regions are outdoors and not tracked.
pub const FLOOD_CAP: u32 = 4096;

/// Quiet time after the latest edit before detection runs.
pub const DEBOUNCE_MS: u64 = 250;

/// Detection runs at the latest when the oldest edit is this old, however
/// busily the world is edited.
pub const DEBOUNCE_MAX_WAIT_MS: u64 = 750;

// ---------- the queue of edits ----------

/// Edited cells that wait for detection, with the time of the edit.
pub struct DetectionDirty {
    cells: Vec<(IVec3, u64)>,
}

impl View for DetectionDirty {
    type V = Seq<(IVec3, u64)>;

    closed spec fn view(&self) -> Seq<(IVec3, u64)> {
        self.cells@
    }
}

impl Default for DetectionDirty {
    fn default() -> (r: DetectionDirty)
        ensures
            r@ == Seq::<(IVec3, u64)>::empty(),
    {
        DetectionDirty { cells: Vec::new() }
    }
}

/// Detection may run: something waits, and either every edit is old enough or
/// one has waited too long.
pub open spec fn detection_due(queue: Seq<(IVec3, u64)>, now: u64) -> bool {
    &&& queue.len() > 0
    &&& (forall|i: int| 0 <= i < queue.len() ==> now - (#[trigger] queue[i]).1 >= DEBOUNCE_MS) || (
    exists|i: int| 0 <= i < queue.len() && now - (#[trigger] queue[i]).1 >= DEBOUNCE_MAX_WAIT_MS)
}

impl DetectionDirty {
    /// Marks a cell for detection.
    pub fn push(&mut self, cell: IVec3, at: u64)
        ensures
            final(self)@ == old(self)@.push((cell, at)),
    {
        self.cells.push((cell, at));
    }

    /// Takes the waiting cells out once detection may run.
    pub fn take_due(&mut self, now: u64) -> (r: Option<Vec<IVec3>>)
        ensures
            r is Some <==> detection_due(old(self)@, now),
            r is None ==> final(self)@ == old(self)@,
            r matches Some(cells) ==> {
                &&& final(self)@.len() == 0
                &&& cells@.len() == old(self)@.len()
                &&& forall|i: int| 0 <= i < cells@.len() ==> (#[trigger] cells@[i]) == old(self)@[i].0
            },
    {
        if self.cells.len() == 0 {
            return None;
        }
        let mut quiet: bool = true;
        let mut stale: bool = false;
        let mut out: Vec<IVec3> = Vec::new();
        let mut i: usize = 0;
        while i < self.cells.len()
            invariant
                self.cells@ == old(self)@,
                i <= self.cells@.len(),
                quiet <==> forall|k: int|
                    0 <= k < i ==> now - (#[trigger] self.cells@[k]).1 >= DEBOUNCE_MS,
                stale <==> exists|k: int|
                    0 <= k < i && now - (#[trigger] self.cells@[k]).1 >= DEBOUNCE_MAX_WAIT_MS,
                out@.len() == i,
                forall|k: int| 0 <= k < i ==> (#[trigger] out@[k]) == self.cells@[k].0,
            decreases self.cells@.len() - i,
        {
            let (cell, at) = self.cells[i];
            let age: u64 = if now >= at {
                now - at
            } else {
                0
            };
            assert(self.cells@[i as int].1 == at);
            if age < DEBOUNCE_MS {
                quiet = false;
            }
            if age >= DEBOUNCE_MAX_WAIT_MS {
                stale = true;
            }
            out.push(cell);
            i = i + 1;
        }
        if !quiet && !stale {
            return None;
        }
        self.cells = Vec::new();
        Some(out)
    }
}

/// Queues every edited cell.
pub fn mark_dirty_from_edits(edited: &Vec<IVec3>, now: u64, dirty: &mut DetectionDirty)
    ensures
        final(dirty)@ == old(dirty)@ + Seq::new(edited@.len(), |i: int| (edited@[i], now)),
{
    let mut i: usize = 0;
    while i < edited.len()
        invariant
            i <= edited@.len(),
            dirty@ == old(dirty)@ + Seq::new(i as nat, |k: int| (edited@[k], now)),
        decreases edited@.len() - i,
    {
        dirty.push(edited[i], now);
        assert(dirty@ =~= old(dirty)@ + Seq::new((i + 1) as nat, |k: int| (edited@[k], now)));
        i = i + 1;
    }
}

// ---------- events ----------

/// What the rest of the game learns about rooms.
pub enum RoomEvent {
    Created { room: RoomId, pattern: Option<String>, signature: RoomSignature },
    Changed {
        room: RoomId,
        from: Option<String>,
        to: Option<String>,
        signature: RoomSignature,
    },
    Destroyed { room: RoomId },
}

/// A region found by detection, measured and matched.
pub struct Found {
    pub cells: Vec<IVec3>,
    pub signature: RoomSignature,
    pub pattern: Option<String>,
    pub bbox_min: IVec3,
    pub bbox_max: IVec3,
}

// ---------- seeds ----------

/// `s` is `c` or one of its four horizontal neighbours.
pub open spec fn beside(c: IVec3, s: IVec3) -> bool {
    c.y == s.y && gap(c.x as int, s.x as int) + gap(c.z as int, s.z as int) <= 1
}

/// The cell lies at or beside an edit.
pub open spec fn near_edit(edited: Seq<IVec3>, s: IVec3) -> bool {
    exists|k: int| 0 <= k < edited.len() && beside(#[trigger] edited[k], s)
}

pub(crate) fn collect_seeds(edited: &Vec<IVec3>) -> (r: CellMap<()>)
    ensures
        forall|s: IVec3| #[trigger] r@.contains_key(s) <==> near_edit(edited@, s),
{
    let mut seeds: CellMap<()> = CellMap::new();
    let mut i: usize = 0;
    while i < edited.len()
        invariant
            i <= edited@.len(),
            forall|s: IVec3| #[trigger]
                seeds@.contains_key(s) <==> exists|k: int|
                    0 <= k < i && beside(#[trigger] edited@[k], s),
        decreases edited@.len() - i,
    {
        let c: IVec3 = edited[i];
        let ghost before = seeds@;
        let _ = seeds.insert(c, ());
        if let Some(n) = c.checked_shift(1, 0, 0) {
            let _ = seeds.insert(n, ());
        }
        if let Some(n) = c.checked_shift(-1, 0, 0) {
            let _ = seeds.insert(n, ());
        }
        if let Some(n) = c.checked_shift(0, 0, 1) {
            let _ = seeds.insert(n, ());
        }
        if let Some(n) = c.checked_shift(0, 0, -1) {
            let _ = seeds.insert(n, ());
        }
        assert forall|s: IVec3| #[trigger] seeds@.contains_key(s) <==> exists|k: int|
            0 <= k < i + 1 && beside(#[trigger] edited@[k], s) by {
            assert(seeds@.contains_key(s) <==> before.contains_key(s) || beside(c, s)) by {
                if beside(c, s) {
                    assert(s == c || s.x == c.x + 1 || s.x == c.x - 1 || s.z == c.z + 1 || s.z
                        == c.z - 1);
                }
            }
            if before.contains_key(s) {
                let k = choose|k: int| 0 <= k < i && beside(#[trigger] edited@[k], s);
                assert(beside(edited@[k], s));
            }
            assert(edited@[i as int] == c);
        }
        i = i + 1;
    }
    seeds
}

/// The edits concern the room: its floor touches one, or its box holds one.
pub open spec fn hit_by(state: RoomState, edited: Seq<IVec3>, id: u32) -> bool {
    &&& state.rooms.contains_key(id)
    &&& (exists|s: IVec3| near_edit(edited, s) && #[trigger] state.cells.contains_key(s)
        && state.cells[s] == id) || (exists|k: int|
        0 <= k < edited.len() && in_box(
            #[trigger] edited[k],
            state.rooms[id].bbox_min,
            state.rooms[id].bbox_max,
        ))
}

pub(crate) fn find_hit(rooms: &RoomMap, seeds: &CellMap<()>, edited: &Vec<IVec3>) -> (r: OrdMap<u32, ()>)
    requires
        sound_state(rooms@),
        forall|s: IVec3| #[trigger] seeds@.contains_key(s) <==> near_edit(edited@, s),
    ensures
        forall|id: u32| #[trigger] r@.contains_key(id) <==> hit_by(rooms@, edited@, id),
{
    let mut hit: OrdMap<u32, ()> = OrdMap::new();
    let n: usize = seeds.len();
    let mut i: usize = 0;
    while i < n
        invariant
            sound_state(rooms@),
            n == seeds.keys().len(),
            forall|s: IVec3| #[trigger] seeds@.contains_key(s) <==> near_edit(edited@, s),
            i <= n,
            forall|id: u32| #[trigger]
                hit@.contains_key(id) <==> exists|k: int|
                    0 <= k < i && rooms@.cells.contains_key(#[trigger] seeds.keys()[k])
                        && rooms@.cells[seeds.keys()[k]] == id,
        decreases n - i,
    {
        let s: IVec3 = seeds.key_at(i);
        let ghost before = hit@;
        if let Some(id) = rooms.room_at(s) {
            let _ = hit.insert(id, ());
        }
        assert forall|id: u32| #[trigger] hit@.contains_key(id) <==> exists|k: int|
            0 <= k < i + 1 && rooms@.cells.contains_key(#[trigger] seeds.keys()[k])
                && rooms@.cells[seeds.keys()[k]] == id by {
            assert(seeds.keys()[i as int] == s);
            if before.contains_key(id) {
                let k = choose|k: int|
                    0 <= k < i && rooms@.cells.contains_key(#[trigger] seeds.keys()[k])
                        && rooms@.cells[seeds.keys()[k]] == id;
                assert(rooms@.cells.contains_key(seeds.keys()[k]));
            }
        }
        i = i + 1;
    }
    let ghost by_floor = hit@;
    let ids: Vec<u32> = rooms.ids();
    let m: usize = ids.len();
    let mut j: usize = 0;
    while j < m
        invariant
            m == ids@.len(),
            forall|i: int| 0 <= i < m ==> rooms@.rooms.contains_key(#[trigger] ids@[i]),
            j <= m,
            forall|id: u32| #[trigger]
                hit@.contains_key(id) <==> by_floor.contains_key(id) || exists|q: int, k: int|
                    #![trigger ids@[q], edited@[k]]
                    0 <= q < j && ids@[q] == id && 0 <= k < edited@.len() && in_box(
                        edited@[k],
                        rooms@.rooms[id].bbox_min,
                        rooms@.rooms[id].bbox_max,
                    ),
        decreases m - j,
    {
        let id: u32 = ids[j];
        assert(rooms@.rooms.contains_key(ids@[j as int]));
        let room: &Room = match rooms.room(id) {
            Some(room) => room,
            None => {
                assert(false);
                j = j + 1;
                continue;
            },
        };
        let ghost before = hit@;
        let mut found: bool = false;
        let mut k: usize = 0;
        while k < edited.len()
            invariant
                k <= edited@.len(),
                found <==> exists|q: int|
                    0 <= q < k && in_box(#[trigger] edited@[q], room.bbox_min, room.bbox_max),
            decreases edited@.len() - k,
        {
            if edited[k].inside(room.bbox_min, room.bbox_max) {
                found = true;
            }
            k = k + 1;
        }
        if found {
            let _ = hit.insert(id, ());
        }
        assert forall|x: u32| #[trigger] hit@.contains_key(x) <==> by_floor.contains_key(x)
            || exists|q: int, k: int|
            #![trigger ids@[q], edited@[k]]
            0 <= q < j + 1 && ids@[q] == x && 0 <= k < edited@.len() && in_box(
                edited@[k],
                rooms@.rooms[x].bbox_min,
                rooms@.rooms[x].bbox_max,
            ) by {
            assert(ids@[j as int] == id);
            if before.contains_key(x) && !by_floor.contains_key(x) {
                let (q, k) = choose|q: int, k: int|
                    #![trigger ids@[q], edited@[k]]
                    0 <= q < j && ids@[q] == x && 0 <= k < edited@.len() && in_box(
                        edited@[k],
                        rooms@.rooms[x].bbox_min,
                        rooms@.rooms[x].bbox_max,
                    );
                assert(ids@[q] == x);
            }
            if found && x == id {
                let k = choose|k: int|
                    0 <= k < edited@.len() && in_box(
                        #[trigger] edited@[k],
                        room.bbox_min,
                        room.bbox_max,
                    );
                assert(ids@[j as int] == x && in_box(
                    edited@[k],
                    rooms@.rooms[x].bbox_min,
                    rooms@.rooms[x].bbox_max,
                ));
            }
        }
        j = j + 1;
    }
    proof {
        assert forall|id: u32| #[trigger] hit@.contains_key(id) <==> hit_by(rooms@, edited@, id) by {
            if by_floor.contains_key(id) {
                let k = choose|k: int|
                    0 <= k < n && rooms@.cells.contains_key(#[trigger] seeds.keys()[k])
                        && rooms@.cells[seeds.keys()[k]] == id;
                let s = seeds.keys()[k];
                assert(seeds@.contains_key(s));
                assert(rooms@.cells.contains_key(s));
            } else if hit@.contains_key(id) {
                let (q, k) = choose|q: int, k: int|
                    #![trigger ids@[q], edited@[k]]
                    0 <= q < m && ids@[q] == id && 0 <= k < edited@.len() && in_box(
                        edited@[k],
                        rooms@.rooms[id].bbox_min,
                        rooms@.rooms[id].bbox_max,
                    );
                assert(rooms@.rooms.contains_key(ids@[q]));
            }
            if hit_by(rooms@, edited@, id) {
                if exists|s: IVec3| near_edit(edited@, s) && #[trigger] rooms@.cells.contains_key(s)
                    && rooms@.cells[s] == id {
                    let s = choose|s: IVec3|
                        near_edit(edited@, s) && #[trigger] rooms@.cells.contains_key(s)
                            && rooms@.cells[s] == id;
                    assert(seeds@.contains_key(s));
                    assert(seeds.keys().contains(s));
                    let k = choose|k: int| 0 <= k < n && seeds.keys()[k] == s;
                    assert(rooms@.cells.contains_key(seeds.keys()[k]));
                } else {
                    let k = choose|k: int|
                        0 <= k < edited@.len() && in_box(
                            #[trigger] edited@[k],
                            rooms@.rooms[id].bbox_min,
                            rooms@.rooms[id].bbox_max,
                        );
                    assert(rooms@.rooms.contains_key(id));
                    assert(ids@.contains(id));
                    let q = choose|q: int| 0 <= q < m && ids@[q] == id;
                    assert(ids@[q] == id && in_box(
                        edited@[k],
                        rooms@.rooms[id].bbox_min,
                        rooms@.rooms[id].bbox_max,
                    ));
                }
            }
        }
    }
    hit
}

/// Where detection looks for floor: beside the edits, and all over the floor
/// of the rooms they concern.
pub open spec fn is_seed(state: RoomState, edited: Seq<IVec3>, s: IVec3) -> bool {
    near_edit(edited, s) || exists|id: u32| #[trigger]
        hit_by(state, edited, id) && state.rooms[id].floor_cells@.contains(s)
}

pub(crate) fn reseed(rooms: &RoomMap, hit: &OrdMap<u32, ()>, edited: &Vec<IVec3>, seeds: &mut CellMap<()>)
    requires
        forall|s: IVec3| #[trigger] old(seeds)@.contains_key(s) <==> near_edit(edited@, s),
        forall|id: u32| #[trigger] hit@.contains_key(id) <==> hit_by(rooms@, edited@, id),
    ensures
        forall|s: IVec3| #[trigger]
            final(seeds)@.contains_key(s) <==> is_seed(rooms@, edited@, s),
{
    let n: usize = hit.len();
    let mut i: usize = 0;
    while i < n
        invariant
            n == hit.keys().len(),
            forall|id: u32| #[trigger] hit@.contains_key(id) <==> hit_by(rooms@, edited@, id),
            i <= n,
            forall|s: IVec3| #[trigger]
                seeds@.contains_key(s) <==> near_edit(edited@, s) || exists|k: int|
                    0 <= k < i && rooms@.rooms[#[trigger] hit.keys()[k]].floor_cells@.contains(s),
        decreases n - i,
    {
        let id: u32 = hit.key_at(i);
        let ghost before = seeds@;
        assert(hit_by(rooms@, edited@, id));
        match rooms.room(id) {
            None => {
                assert(false);
            },
            Some(room) => {
                let mut k: usize = 0;
                while k < room.floor_cells.len()
                    invariant
                        k <= room.floor_cells@.len(),
                        forall|s: IVec3| #[trigger]
                            seeds@.contains_key(s) <==> before.contains_key(s)
                                || room.floor_cells@.take(k as int).contains(s),
                    decreases room.floor_cells@.len() - k,
                {
                    let _ = seeds.insert(room.floor_cells[k], ());
                    proof {
                        let p = room.floor_cells@.take(k as int);
                        let q = room.floor_cells@.take(k + 1);
                        assert forall|s: IVec3|
                            #![trigger q.contains(s)]
                            #![trigger p.contains(s)]
                            q.contains(s) <==> (p.contains(s) || s == room.floor_cells@[k as int]) by {
                            if p.contains(s) {
                                let j = choose|j: int| 0 <= j < p.len() && p[j] == s;
                                assert(q[j] == s);
                            }
                            if q.contains(s) {
                                let j = choose|j: int| 0 <= j < q.len() && q[j] == s;
                                if j < k {
                                    assert(p[j] == s);
                                }
                            }
                            assert(q[k as int] == room.floor_cells@[k as int]);
                        }
                    }
                    k = k + 1;
                }
                assert(room.floor_cells@.take(room.floor_cells@.len() as int)
                    =~= room.floor_cells@);
                assert forall|s: IVec3| #[trigger] seeds@.contains_key(s) <==> near_edit(edited@, s)
                    || exists|k: int|
                    0 <= k < i + 1 && rooms@.rooms[#[trigger] hit.keys()[k]].floor_cells@.contains(
                        s,
                    ) by {
                    assert(hit.keys()[i as int] == id);
                    if before.contains_key(s) && !near_edit(edited@, s) {
                        let k = choose|k: int|
                            0 <= k < i && rooms@.rooms[#[trigger] hit.keys()[k]].floor_cells@.contains(
                                s,
                            );
                        assert(rooms@.rooms[hit.keys()[k]].floor_cells@.contains(s));
                    }
                }
            },
        }
        i = i + 1;
    }
    proof {
        assert forall|s: IVec3| #[trigger] seeds@.contains_key(s) <==> is_seed(rooms@, edited@, s) by {
            if seeds@.contains_key(s) && !near_edit(edited@, s) {
                let k = choose|k: int|
                    0 <= k < n && rooms@.rooms[#[trigger] hit.keys()[k]].floor_cells@.contains(s);
                assert(hit@.contains_key(hit.keys()[k]));
                assert(hit_by(rooms@, edited@, hit.keys()[k]));
            }
            if is_seed(rooms@, edited@, s) && !near_edit(edited@, s) {
                let id = choose|id: u32| #[trigger]
                    hit_by(rooms@, edited@, id) && rooms@.rooms[id].floor_cells@.contains(s);
                assert(hit@.contains_key(id));
                assert(hit.keys().contains(id));
                let k = choose|k: int| 0 <= k < n && hit.keys()[k] == id;
                assert(rooms@.rooms[hit.keys()[k]].floor_cells@.contains(s));
            }
        }
    }
}

// ---------- fills ----------

/// A fill may start here: floor that is no doorway itself.
pub open spec fn can_start(world: &BlockWorld, reg: &BlockRegistry, s: IVec3) -> bool {
    &&& floor_cell(world, reg, s)
    &&& !choke_along(world, reg, s, IVec3 { x: 1, y: 0, z: 0 })
    &&& !choke_along(world, reg, s, IVec3 { x: 0, y: 0, z: 1 })
}

/// The fill is the region around some seed, given cells seen before.
pub open spec fn filled_from(
    world: &BlockWorld,
    reg: &BlockRegistry,
    seed: IVec3,
    seen: Set<IVec3>,
    fill: FloorFill,
) -> bool {
    &&& can_start(world, reg, seed)
    &&& !seen.contains(seed)
    &&& fills_region(world, reg, seen, seed, fill)
    &&& fill.cells@.len() <= FLOOD_CAP
}

/// The cell lies in the region around `seed`, and that is too large to track.
pub open spec fn lost_outdoors(
    world: &BlockWorld,
    reg: &BlockRegistry,
    seed: IVec3,
    s: IVec3,
) -> bool {
    &&& can_start(world, reg, seed)
    &&& region_exceeds(world, reg, Set::empty(), seed, FLOOD_CAP)
    &&& in_region(world, reg, Set::empty(), seed, s)
}

/// The cell is outdoors.
pub open spec fn outdoors(world: &BlockWorld, reg: &BlockRegistry, s: IVec3) -> bool {
    exists|seed: IVec3| #[trigger] lost_outdoors(world, reg, seed, s)
}

/// One of the fills holds the cell.
pub open spec fn filled(fills: Seq<FloorFill>, c: IVec3) -> bool {
    exists|i: int| 0 <= i < fills.len() && (#[trigger] fills[i]).cells@.contains(c)
}

/// What a fill leaves out is what was found before it: the cells of the
/// earlier fills, and cells outdoors.
pub open spec fn seen_before(
    world: &BlockWorld,
    reg: &BlockRegistry,
    earlier: Seq<FloorFill>,
    seen: Set<IVec3>,
) -> bool {
    &&& forall|c: IVec3| #[trigger] filled(earlier, c) ==> seen.contains(c)
    &&& forall|c: IVec3| #[trigger] seen.contains(c) ==> filled(earlier, c) || outdoors(world, reg, c)
}

/// The fill is the whole region around one of the seeds, but for what was
/// found before it.
pub open spec fn filled_after(
    world: &BlockWorld,
    reg: &BlockRegistry,
    seeds: Set<IVec3>,
    earlier: Seq<FloorFill>,
    fill: FloorFill,
) -> bool {
    exists|seed: IVec3, seen: Set<IVec3>|
        seeds.contains(seed) && seen_before(world, reg, earlier, seen) && #[trigger] filled_from(
            world,
            reg,
            seed,
            seen,
            fill,
        )
}

/// The fills cover the seeds: each fill is the whole region around a seed, no
/// two share a cell, and a seed where a fill may start is in one unless it is
/// outdoors.
pub open spec fn fills_cover(
    world: &BlockWorld,
    reg: &BlockRegistry,
    seeds: Set<IVec3>,
    fills: Seq<FloorFill>,
) -> bool {
    &&& forall|i: int|
        0 <= i < fills.len() ==> filled_after(world, reg, seeds, fills.take(i), #[trigger] fills[i])
    &&& forall|i: int, j: int, c: IVec3|
        #![trigger fills[i].cells@.contains(c), fills[j]]
        0 <= i < j < fills.len() && fills[i].cells@.contains(c) ==> !fills[j].cells@.contains(c)
    &&& forall|s: IVec3|
        seeds.contains(s) && #[trigger] can_start(world, reg, s) ==> filled(fills, s) || outdoors(
            world,
            reg,
            s,
        )
}

/// No floor is left out: where the floor of a region goes on, it goes on in the
/// region itself, in one found before it, or outdoors.
pub proof fn law_regions_are_whole(
    world: &BlockWorld,
    reg: &BlockRegistry,
    seeds: Set<IVec3>,
    fills: Seq<FloorFill>,
    i: int,
    c: IVec3,
    d: int,
)
    requires
        fills_cover(world, reg, seeds, fills),
        0 <= i < fills.len(),
        fills[i].cells@.contains(c),
        0 <= d < 4,
        fill_edge(world, reg, c, d),
    ensures
        fills[i].cells@.contains(neighbour(c, d)) || filled(fills.take(i), neighbour(c, d))
            || outdoors(world, reg, neighbour(c, d)),
{
    let next = neighbour(c, d);
    let (seed, seen) = choose|seed: IVec3, seen: Set<IVec3>|
        seeds.contains(seed) && seen_before(world, reg, fills.take(i), seen)
            && #[trigger] filled_from(world, reg, seed, seen, fills[i]);
    assert(filled_after(world, reg, seeds, fills.take(i), fills[i]));
    assert(filled_from(world, reg, seed, seen, fills[i]));
    if !seen.contains(next) {
        assert(in_region(world, reg, seen, seed, c));
        let p = choose|p: Seq<IVec3>| fill_path(world, reg, seen, seed, c, p);
        let q = p.push(next);
        assert forall|k: int| 0 <= k < q.len() - 1 implies #[trigger] fill_steps_on(
            world,
            reg,
            seen,
            q,
            k,
        ) by {
            if k < p.len() - 1 {
                assert(fill_steps_on(world, reg, seen, p, k));
                let e = choose|e: int|
                    #![trigger neighbour(p[k], e)]
                    0 <= e < 4 && p[k + 1] == neighbour(p[k], e) && fill_edge(world, reg, p[k], e)
                        && !seen.contains(p[k + 1]);
                assert(q[k + 1] == neighbour(q[k], e));
            } else {
                assert(q[k + 1] == neighbour(q[k], d));
            }
        }
        assert(fill_path(world, reg, seen, seed, next, q));
        assert(in_region(world, reg, seen, seed, next));
    }
}

/// Where nothing was seen before, a fill goes at least as far.
proof fn lemma_region_grows(
    world: &BlockWorld,
    reg: &BlockRegistry,
    seen: Set<IVec3>,
    seed: IVec3,
    c: IVec3,
)
    requires
        in_region(world, reg, seen, seed, c),
    ensures
        in_region(world, reg, Set::empty(), seed, c),
{
    let p = choose|p: Seq<IVec3>| fill_path(world, reg, seen, seed, c, p);
    assert forall|k: int| 0 <= k < p.len() - 1 implies #[trigger] fill_steps_on(
        world,
        reg,
        Set::empty(),
        p,
        k,
    ) by {
        assert(fill_steps_on(world, reg, seen, p, k));
    }
    assert(fill_path(world, reg, Set::empty(), seed, c, p));
}

proof fn lemma_exceeds_grows(
    world: &BlockWorld,
    reg: &BlockRegistry,
    seen: Set<IVec3>,
    seed: IVec3,
    cap: u32,
)
    requires
        region_exceeds(world, reg, seen, seed, cap),
    ensures
        region_exceeds(world, reg, Set::empty(), seed, cap),
{
    let s = choose|s: Seq<IVec3>|
        {
            &&& s.len() > cap
            &&& #[trigger] s.no_duplicates()
            &&& forall|k: int|
                0 <= k < s.len() ==> in_region(world, reg, seen, seed, #[trigger] s[k])
        };
    assert forall|k: int| 0 <= k < s.len() implies in_region(
        world,
        reg,
        Set::empty(),
        seed,
        #[trigger] s[k],
    ) by {
        lemma_region_grows(world, reg, seen, seed, s[k]);
    }
    assert(s.no_duplicates());
}

proof fn lemma_region_unseen(
    world: &BlockWorld,
    reg: &BlockRegistry,
    seen: Set<IVec3>,
    seed: IVec3,
    c: IVec3,
)
    requires
        in_region(world, reg, seen, seed, c),
        !seen.contains(seed),
    ensures
        !seen.contains(c),
{
    let p = choose|p: Seq<IVec3>| fill_path(world, reg, seen, seed, c, p);
    if p.len() > 1 {
        assert(fill_steps_on(world, reg, seen, p, p.len() - 2));
    }
}

pub(crate) fn run_fills(seeds: &CellMap<()>, world: &BlockWorld, reg: &BlockRegistry) -> (fills: Vec<FloorFill>)
    requires
        world.covered_by(reg),
    ensures
        fills_cover(world, reg, seeds@.dom(), fills@),
{
    let n: usize = seeds.len();
    let ghost dom = seeds@.dom();
    let mut visited: CellMap<()> = CellMap::new();
    let mut fills: Vec<FloorFill> = Vec::new();
    let mut i: usize = 0;
    while i < n
        invariant
            world.covered_by(reg),
            dom == seeds@.dom(),
            n == seeds.keys().len(),
            i <= n,
            forall|k: int|
                0 <= k < fills@.len() ==> filled_after(
                    world,
                    reg,
                    dom,
                    fills@.take(k),
                    #[trigger] fills@[k],
                ),
            forall|a: int, b: int, c: IVec3|
                #![trigger fills@[a].cells@.contains(c), fills@[b]]
                0 <= a < b < fills@.len() && fills@[a].cells@.contains(c)
                    ==> !fills@[b].cells@.contains(c),
            forall|c: IVec3| #[trigger] filled(fills@, c) ==> visited@.contains_key(c),
            forall|c: IVec3| #[trigger]
                visited@.contains_key(c) ==> filled(fills@, c) || outdoors(world, reg, c),
            forall|k: int|
                0 <= k < i && can_start(world, reg, #[trigger] seeds.keys()[k])
                    ==> visited@.contains_key(seeds.keys()[k]),
        decreases n - i,
    {
        let s: IVec3 = seeds.key_at(i);
        let ghost seen = visited@.dom();
        let ghost visited0 = visited@;
        let ghost fills0 = fills@;
        if !visited.contains(s) && is_floor_cell(s, world, reg) && !is_choke_along(
            s,
            IVec3::new(1, 0, 0),
            world,
            reg,
        ) && !is_choke_along(s, IVec3::new(0, 0, 1), world, reg) {
            assert(can_start(world, reg, s));
            match flood_fill_floor(s, world, reg, FLOOD_CAP, &mut visited) {
                Some(fill) => {
                    fills.push(fill);
                    proof {
                        assert(dom.contains(s));
                        assert(filled_from(world, reg, s, seen, fill));
                        assert(seen_before(world, reg, fills0, seen));
                        assert(filled_after(world, reg, dom, fills0, fill));
                        assert forall|k: int| 0 <= k < fills@.len() implies filled_after(
                            world,
                            reg,
                            dom,
                            fills@.take(k),
                            #[trigger] fills@[k],
                        ) by {
                            if k < fills0.len() {
                                assert(fills@.take(k) =~= fills0.take(k));
                                assert(fills@[k] == fills0[k]);
                            } else {
                                assert(fills@.take(k) =~= fills0);
                            }
                        }
                        assert forall|c: IVec3| fill.cells@.contains(c) implies !seen.contains(
                            c,
                        ) by {
                            assert(in_region(world, reg, seen, s, c));
                            lemma_region_unseen(world, reg, seen, s, c);
                        }
                        assert forall|a: int, b: int, c: IVec3|
                            #![trigger fills@[a].cells@.contains(c), fills@[b]]
                            0 <= a < b < fills@.len() && fills@[a].cells@.contains(
                                c,
                            ) implies !fills@[b].cells@.contains(c) by {
                            assert(fills@[a] == fills0[a]);
                            if b == fills0.len() {
                                assert(filled(fills0, c));
                                assert(seen.contains(c));
                            } else {
                                assert(fills@[b] == fills0[b]);
                            }
                        }
                        assert forall|c: IVec3| #[trigger] filled(fills@, c) <==> filled(fills0, c)
                            || fill.cells@.contains(c) by {
                            if filled(fills0, c) {
                                let a = choose|a: int|
                                    0 <= a < fills0.len() && (#[trigger] fills0[a]).cells@.contains(
                                        c,
                                    );
                                assert(fills@[a].cells@.contains(c));
                            }
                            if filled(fills@, c) {
                                let a = choose|a: int|
                                    0 <= a < fills@.len() && (#[trigger] fills@[a]).cells@.contains(
                                        c,
                                    );
                                if a < fills0.len() {
                                    assert(fills0[a].cells@.contains(c));
                                }
                            }
                            assert(fills@[fills0.len() as int] == fill);
                        }
                        assert forall|c: IVec3| #[trigger]
                            filled(fills@, c) implies visited@.contains_key(c) by {
                            if filled(fills0, c) {
                                assert(visited0.dom().contains(c));
                                assert(visited@.dom().contains(c));
                            }
                        }
                    }
                },
                None => {
                    proof {
                        assert forall|c: IVec3| #[trigger]
                            visited@.contains_key(c) implies filled(fills@, c) || outdoors(
                            world,
                            reg,
                            c,
                        ) by {
                            if !visited0.contains_key(c) {
                                lemma_exceeds_grows(world, reg, seen, s, FLOOD_CAP);
                                lemma_region_grows(world, reg, seen, s, c);
                                assert(lost_outdoors(world, reg, s, c));
                            }
                        }
                        assert forall|c: IVec3| #[trigger]
                            filled(fills@, c) implies visited@.contains_key(c) by {
                            assert(visited0.dom().contains(c));
                            assert(visited@.dom().contains(c));
                        }
                    }
                },
            }
        }
        proof {
            assert(visited0.dom().subset_of(visited@.dom()));
            assert forall|k: int|
                0 <= k < i + 1 && can_start(world, reg, #[trigger] seeds.keys()[k]) implies visited@.contains_key(
            seeds.keys()[k]) by {
                if k < i {
                    assert(visited0.contains_key(seeds.keys()[k]));
                    assert(visited0.dom().contains(seeds.keys()[k]));
                    assert(visited@.dom().contains(seeds.keys()[k]));
                } else {
                    assert(seeds.keys()[k] == s);
                }
            }
        }
        i = i + 1;
    }
    proof {
        assert forall|s: IVec3| dom.contains(s) && #[trigger] can_start(
            world,
            reg,
            s,
        ) implies filled(fills@, s) || outdoors(world, reg, s) by {
            assert(seeds@.contains_key(s));
            assert(seeds.keys().contains(s));
            let k = choose|k: int| 0 <= k < n && seeds.keys()[k] == s;
            assert(can_start(world, reg, seeds.keys()[k]));
            assert(visited@.contains_key(s));
        }
    }
    fills
}

// ---------- measuring and matching ----------

/// The pattern found for a signature.
pub open spec fn pattern_found(
    patterns: &RoomPatternRegistry,
    sig: &RoomSignature,
    pattern: Option<String>,
) -> bool {
    match pattern {
        Some(id) => exists|i: int| #[trigger]
            best_match(patterns, sig, i) && id@ == patterns.patterns()[i].id@,
        None => forall|i: int|
            0 <= i < patterns.patterns().len() ==> !(#[trigger] fits(patterns.patterns(), i, sig)),
    }
}

/// Height of the box around a room when the tallest probe was `t`.
pub open spec fn box_height(sig: RoomSignature, t: int) -> int {
    max_of(
        t,
        match sig.enclosure_height {
            Some(h) => max_of(h as int, 1),
            None => 1,
        },
    )
}

/// The region is the fill, measured and matched. Its box reaches one cell
/// beyond the floor on every side, one below it, and one above the tallest
/// thing probed, so that every edit that can change the room falls inside.
pub open spec fn found_from(
    world: &BlockWorld,
    reg: &BlockRegistry,
    patterns: &RoomPatternRegistry,
    fill: FloorFill,
    f: Found,
) -> bool {
    &&& f.cells@ == fill.cells@
    &&& describes(world, reg, &fill, f.signature)
    &&& pattern_found(patterns, &f.signature, f.pattern)
    &&& f.bbox_min.x == f.signature.bbox.min.x - 1
    &&& f.bbox_min.y == f.signature.bbox.min.y - 1
    &&& f.bbox_min.z == f.signature.bbox.min.z - 1
    &&& f.bbox_max.x == f.signature.bbox.max.x + 1
    &&& f.bbox_max.z == f.signature.bbox.max.z + 1
    &&& exists|t: int| #[trigger]
        tallest_probe(world, reg, &fill, f.signature.bbox, t) && f.bbox_max.y
            == f.signature.bbox.min.y + box_height(f.signature, t) + 1
}

pub(crate) fn identify(
    fill: FloorFill,
    world: &BlockWorld,
    reg: &BlockRegistry,
    patterns: &RoomPatternRegistry,
) -> (f: Found)
    requires
        world.covered_by(reg),
        reg.defs@.len() <= 0x1_0000,
        crate::rooms::signature::measurable(&fill),
    ensures
        found_from(world, reg, patterns, fill, f),
{
    let (signature, extras) = compute_signature(&fill, world, reg);
    let pattern: Option<String> = match_pattern(&signature, patterns);
    let mut height: u32 = extras.max_probe_height;
    if let Some(h) = signature.enclosure_height {
        if h > height {
            height = h;
        }
    }
    if height < 1 {
        height = 1;
    }
    let lo: IVec3 = signature.bbox.min;
    let hi: IVec3 = signature.bbox.max;
    proof {
        let cells = fill.cells@;
        let kx = choose|k: int| 0 <= k < cells.len() && (#[trigger] cells[k]).x == lo.x;
        let ky = choose|k: int| 0 <= k < cells.len() && (#[trigger] cells[k]).y == lo.y;
        let kz = choose|k: int| 0 <= k < cells.len() && (#[trigger] cells[k]).z == lo.z;
        let lx = choose|k: int| 0 <= k < cells.len() && (#[trigger] cells[k]).x == hi.x;
        let lz = choose|k: int| 0 <= k < cells.len() && (#[trigger] cells[k]).z == hi.z;
        assert(clear_to_probe(cells[kx], 2));
        assert(clear_to_probe(cells[ky], 2));
        assert(clear_to_probe(cells[kz], 2));
        assert(clear_to_probe(cells[lx], 2));
        assert(clear_to_probe(cells[lz], 2));
    }
    let bbox_min: IVec3 = IVec3::new(lo.x - 1, lo.y - 1, lo.z - 1);
    let bbox_max: IVec3 = IVec3::new(hi.x + 1, lo.y + height as i32 + 1, hi.z + 1);
    assert(tallest_probe(
        world,
        reg,
        &fill,
        signature.bbox,
        extras.max_probe_height as int,
    ));
    Found { cells: fill.cells, signature, pattern, bbox_min, bbox_max }
}

// ---------- identity ----------

/// The overlap is at least half of the smaller floor.
pub open spec fn keeps_identity(overlap: int, old_len: int, new_len: int) -> bool {
    overlap > 0 && 2 * overlap >= min_of(old_len, new_len)
}

/// Does a region that overlaps an old room this much carry on its id?
pub fn overlap_keeps_identity(overlap: usize, old_len: usize, new_len: usize) -> (r: bool)
    ensures
        r == keeps_identity(overlap as int, old_len as int, new_len as int),
{
    let smaller: usize = if old_len <= new_len {
        old_len
    } else {
        new_len
    };
    overlap > 0 && 2 * overlap as u128 >= smaller as u128
}

pub open spec fn in_list(cells: Seq<IVec3>) -> spec_fn(IVec3) -> bool {
    |c: IVec3| cells.contains(c)
}

/// How many of the old floor cells are in the new floor.
pub open spec fn overlap_of(old_floor: Seq<IVec3>, new_floor: Seq<IVec3>) -> nat {
    tally(old_floor, in_list(new_floor))
}

/// Region `p` may carry on room `id`.
pub open spec fn may_keep(
    found: Seq<Found>,
    rooms: Map<u32, Room>,
    hit: Set<u32>,
    p: int,
    id: u32,
) -> bool {
    &&& 0 <= p < found.len()
    &&& hit.contains(id)
    &&& keeps_identity(
        overlap_of(rooms[id].floor_cells@, found[p].cells@) as int,
        rooms[id].floor_cells@.len() as int,
        found[p].cells@.len() as int,
    )
}

/// The pairing settles region `p` and room `id`: one of the two is paired at
/// least as well as they overlap.
pub open spec fn settled_by(
    found: Seq<Found>,
    rooms: Map<u32, Room>,
    kept: Seq<Option<u32>>,
    p: int,
    id: u32,
    q: int,
) -> bool {
    &&& 0 <= q < kept.len()
    &&& kept[q] is Some
    &&& q == p || kept[q] == Some(id)
    &&& overlap_of(rooms[kept[q]->0].floor_cells@, found[q].cells@) >= overlap_of(
        rooms[id].floor_cells@,
        found[p].cells@,
    )
}

/// Which old room each region carries on, largest overlap first.
pub open spec fn paired(
    found: Seq<Found>,
    rooms: Map<u32, Room>,
    hit: Set<u32>,
    kept: Seq<Option<u32>>,
) -> bool {
    &&& kept.len() == found.len()
    &&& forall|p: int|
        0 <= p < kept.len() && (#[trigger] kept[p]) is Some ==> may_keep(
            found,
            rooms,
            hit,
            p,
            kept[p]->0,
        )
    &&& forall|p: int, q: int|
        #![trigger kept[p], kept[q]]
        0 <= p < q < kept.len() && kept[p] is Some ==> kept[p] != kept[q]
    &&& forall|p: int, id: u32| #[trigger]
        may_keep(found, rooms, hit, p, id) ==> exists|q: int| #[trigger]
            settled_by(found, rooms, kept, p, id, q)
}

fn count_overlap(old_floor: &Vec<IVec3>, new_floor: &Vec<IVec3>) -> (r: usize)
    ensures
        r == overlap_of(old_floor@, new_floor@),
{
    let mut set: CellMap<()> = CellMap::new();
    let mut k: usize = 0;
    while k < new_floor.len()
        invariant
            k <= new_floor@.len(),
            forall|c: IVec3| #[trigger]
                set@.contains_key(c) <==> exists|j: int| 0 <= j < k && #[trigger] new_floor@[j] == c,
        decreases new_floor@.len() - k,
    {
        let _ = set.insert(new_floor[k], ());
        k = k + 1;
    }
    let mut n: usize = 0;
    let mut i: usize = 0;
    while i < old_floor.len()
        invariant
            forall|c: IVec3| #[trigger]
                set@.contains_key(c) <==> exists|j: int|
                    0 <= j < new_floor@.len() && #[trigger] new_floor@[j] == c,
            i <= old_floor@.len(),
            n == tally(old_floor@.take(i as int), in_list(new_floor@)),
        decreases old_floor@.len() - i,
    {
        proof {
            lemma_tally_step(old_floor@, i as int, in_list(new_floor@));
        }
        if set.contains(old_floor[i]) {
            n = n + 1;
        }
        i = i + 1;
    }
    assert(old_floor@.take(old_floor@.len() as int) =~= old_floor@);
    n
}

struct Candidate {
    p: usize,
    id: u32,
    overlap: usize,
}

spec fn is_candidate(
    found: Seq<Found>,
    rooms: Map<u32, Room>,
    hit: Set<u32>,
    c: Candidate,
) -> bool {
    may_keep(found, rooms, hit, c.p as int, c.id) && c.overlap == overlap_of(
        rooms[c.id].floor_cells@,
        found[c.p as int].cells@,
    )
}

fn list_candidates(found: &Vec<Found>, rooms: &RoomMap, hit: &OrdMap<u32, ()>) -> (r: Vec<Candidate>)
    requires
        forall|id: u32| #[trigger] hit@.contains_key(id) ==> rooms@.rooms.contains_key(id),
    ensures
        forall|k: int|
            0 <= k < r@.len() ==> is_candidate(
                found@,
                rooms@.rooms,
                hit@.dom(),
                #[trigger] r@[k],
            ),
        forall|p: int, id: u32| #[trigger]
            may_keep(found@, rooms@.rooms, hit@.dom(), p, id) ==> exists|k: int|
                0 <= k < r@.len() && (#[trigger] r@[k]).p == p && r@[k].id == id,
{
    let ghost dom = hit@.dom();
    let n: usize = hit.len();
    let mut out: Vec<Candidate> = Vec::new();
    let mut p: usize = 0;
    while p < found.len()
        invariant
            dom == hit@.dom(),
            n == hit.keys().len(),
            forall|id: u32| #[trigger] hit@.contains_key(id) ==> rooms@.rooms.contains_key(id),
            forall|id: u32| #[trigger] hit@.contains_key(id) ==> hit.keys().contains(id),
            p <= found@.len(),
            forall|k: int|
                0 <= k < out@.len() ==> is_candidate(
                    found@,
                    rooms@.rooms,
                    dom,
                    #[trigger] out@[k],
                ),
            forall|x: int, id: u32| #[trigger]
                may_keep(found@, rooms@.rooms, dom, x, id) && x < p ==> exists|k: int|
                    0 <= k < out@.len() && (#[trigger] out@[k]).p == x && out@[k].id == id,
        decreases found@.len() - p,
    {
        let ghost out0 = out@;
        let mut i: usize = 0;
        while i < n
            invariant
                dom == hit@.dom(),
                n == hit.keys().len(),
                forall|id: u32| #[trigger] hit@.contains_key(id) ==> rooms@.rooms.contains_key(id),
                p < found@.len(),
                i <= n,
                forall|k: int|
                    0 <= k < out@.len() ==> is_candidate(
                        found@,
                        rooms@.rooms,
                        dom,
                        #[trigger] out@[k],
                    ),
                out0.len() <= out@.len(),
                forall|k: int| 0 <= k < out0.len() ==> #[trigger] out@[k] == out0[k],
                forall|m: int|
                    0 <= m < i && may_keep(
                        found@,
                        rooms@.rooms,
                        dom,
                        p as int,
                        #[trigger] hit.keys()[m],
                    ) ==> exists|k: int|
                        0 <= k < out@.len() && (#[trigger] out@[k]).p == p && out@[k].id
                            == hit.keys()[m],
            decreases n - i,
        {
            let id: u32 = hit.key_at(i);
            let ghost out1 = out@;
            if let Some(room) = rooms.room(id) {
                let overlap: usize = count_overlap(&room.floor_cells, &found[p].cells);
                if overlap_keeps_identity(overlap, room.floor_cells.len(), found[p].cells.len()) {
                    out.push(Candidate { p, id, overlap });
                    assert(out@[out1.len() as int].id == id);
                }
            }
            assert forall|m: int|
                0 <= m < i + 1 && may_keep(
                    found@,
                    rooms@.rooms,
                    dom,
                    p as int,
                    #[trigger] hit.keys()[m],
                ) implies exists|k: int|
                0 <= k < out@.len() && (#[trigger] out@[k]).p == p && out@[k].id == hit.keys()[m] by {
                if m < i {
                    let k = choose|k: int|
                        0 <= k < out1.len() && (#[trigger] out1[k]).p == p && out1[k].id
                            == hit.keys()[m];
                    assert(out@[k] == out1[k]);
                } else {
                    assert(hit.keys()[m] == id);
                    assert(rooms@.rooms.contains_key(id));
                    assert(out@[out1.len() as int].id == id);
                }
            }
            i = i + 1;
        }
        assert forall|x: int, id: u32| #[trigger]
            may_keep(found@, rooms@.rooms, dom, x, id) && x < p + 1 implies exists|k: int|
            0 <= k < out@.len() && (#[trigger] out@[k]).p == x && out@[k].id == id by {
            if x < p {
                let k = choose|k: int|
                    0 <= k < out0.len() && (#[trigger] out0[k]).p == x && out0[k].id == id;
                assert(out@[k] == out0[k]);
            } else {
                assert(hit@.contains_key(id));
                assert(hit.keys().contains(id));
                let m = choose|m: int| 0 <= m < n && hit.keys()[m] == id;
                assert(may_keep(found@, rooms@.rooms, dom, p as int, hit.keys()[m]));
            }
        }
        p = p + 1;
    }
    out
}

pub(crate) fn is_kept(kept: &Vec<Option<u32>>, id: u32) -> (r: bool)
    ensures
        r <==> exists|q: int| 0 <= q < kept@.len() && #[trigger] kept@[q] == Some(id),
{
    let mut q: usize = 0;
    while q < kept.len()
        invariant
            q <= kept@.len(),
            forall|k: int| 0 <= k < q ==> #[trigger] kept@[k] != Some(id),
        decreases kept@.len() - q,
    {
        if let Some(x) = kept[q] {
            if x == id {
                assert(kept@[q as int] == Some(id));
                return true;
            }
        }
        q = q + 1;
    }
    false
}

/// Neither side of the candidate is paired yet.
spec fn open_candidate(kept: Seq<Option<u32>>, c: Candidate) -> bool {
    kept[c.p as int] is None && forall|q: int| 0 <= q < kept.len() ==> #[trigger] kept[q] != Some(c.id)
}

pub(crate) fn pair_up(found: &Vec<Found>, rooms: &RoomMap, hit: &OrdMap<u32, ()>) -> (kept: Vec<Option<u32>>)
    requires
        forall|id: u32| #[trigger] hit@.contains_key(id) ==> rooms@.rooms.contains_key(id),
    ensures
        paired(found@, rooms@.rooms, hit@.dom(), kept@),
{
    let ghost dom = hit@.dom();
    let ghost map = rooms@.rooms;
    let all: Vec<Candidate> = list_candidates(found, rooms, hit);
    let mut kept: Vec<Option<u32>> = Vec::new();
    let mut i: usize = 0;
    while i < found.len()
        invariant
            i <= found@.len(),
            kept@.len() == i,
            forall|k: int| 0 <= k < i ==> (#[trigger] kept@[k]) is None,
        decreases found@.len() - i,
    {
        kept.push(None);
        i = i + 1;
    }
    let mut left: usize = found.len();
    let mut more: bool = true;
    proof {
        lemma_all_unpaired(kept@);
    }
    while more
        invariant
            dom == hit@.dom(),
            map == rooms@.rooms,
            forall|k: int| 0 <= k < all@.len() ==> is_candidate(found@, map, dom, #[trigger] all@[k]),
            kept@.len() == found@.len(),
            left <= found@.len(),
            unpaired(kept@) == left,
            forall|p: int|
                0 <= p < kept@.len() && (#[trigger] kept@[p]) is Some ==> may_keep(
                    found@,
                    map,
                    dom,
                    p,
                    kept@[p]->0,
                ),
            forall|p: int, q: int|
                #![trigger kept@[p], kept@[q]]
                0 <= p < q < kept@.len() && kept@[p] is Some ==> kept@[p] != kept@[q],
            forall|k: int|
                0 <= k < all@.len() ==> open_candidate(kept@, #[trigger] all@[k]) || exists|q: int|
                    #[trigger]
                    settled_by(found@, map, kept@, all@[k].p as int, all@[k].id, q),
            !more ==> forall|k: int|
                0 <= k < all@.len() ==> !open_candidate(kept@, #[trigger] all@[k]),
        decreases left, (if more {
            1int
        } else {
            0int
        }),
    {
        let mut best: Option<usize> = None;
        let mut k: usize = 0;
        while k < all.len()
            invariant
                forall|k: int|
                    0 <= k < all@.len() ==> is_candidate(found@, map, dom, #[trigger] all@[k]),
                kept@.len() == found@.len(),
                k <= all@.len(),
                match best {
                    None => forall|j: int|
                        0 <= j < k ==> !open_candidate(kept@, #[trigger] all@[j]),
                    Some(b) => b < k && open_candidate(kept@, all@[b as int]) && forall|j: int|
                        0 <= j < k && open_candidate(kept@, #[trigger] all@[j]) ==> all@[j].overlap
                            <= all@[b as int].overlap,
                },
            decreases all@.len() - k,
        {
            assert(is_candidate(found@, map, dom, all@[k as int]));
            let taken: bool = kept[all[k].p].is_some() || is_kept(&kept, all[k].id);
            if !taken {
                assert(open_candidate(kept@, all@[k as int]));
                let better: bool = match best {
                    None => true,
                    Some(b) => all[k].overlap > all[b].overlap,
                };
                if better {
                    best = Some(k);
                }
            }
            k = k + 1;
        }
        match best {
            None => {
                more = false;
            },
            Some(b) => {
                let ghost kept0 = kept@;
                let ghost c = all@[b as int];
                let p: usize = all[b].p;
                let id: u32 = all[b].id;
                assert(is_candidate(found@, map, dom, c));
                proof {
                    lemma_unpaired_set(kept0, p as int, id);
                }
                kept.set(p, Some(id));
                left = left - 1;
                proof {
                    assert(settled_by(found@, map, kept@, c.p as int, c.id, p as int));
                    assert forall|k: int| 0 <= k < all@.len() implies open_candidate(
                        kept@,
                        #[trigger] all@[k],
                    ) || exists|q: int| #[trigger]
                        settled_by(found@, map, kept@, all@[k].p as int, all@[k].id, q) by {
                        let d = all@[k];
                        assert(is_candidate(found@, map, dom, d));
                        if exists|q: int| #[trigger]
                            settled_by(found@, map, kept0, d.p as int, d.id, q) {
                            let q = choose|q: int| #[trigger]
                                settled_by(found@, map, kept0, d.p as int, d.id, q);
                            assert(q != p);
                            assert(settled_by(found@, map, kept@, d.p as int, d.id, q));
                        } else if d.p == p || d.id == id {
                            assert(settled_by(found@, map, kept@, d.p as int, d.id, p as int));
                        } else {
                            assert(open_candidate(kept@, d));
                        }
                    }
                }
            },
        }
    }
    proof {
        assert forall|p: int, id: u32| #[trigger]
            may_keep(found@, map, dom, p, id) implies exists|q: int| #[trigger]
            settled_by(found@, map, kept@, p, id, q) by {
            let k = choose|k: int|
                0 <= k < all@.len() && (#[trigger] all@[k]).p == p && all@[k].id == id;
            assert(!open_candidate(kept@, all@[k]));
        }
    }
    kept
}

spec fn unpaired(kept: Seq<Option<u32>>) -> nat
    decreases kept.len(),
{
    if kept.len() == 0 {
        0
    } else {
        unpaired(kept.drop_last()) + if kept.last() is None {
            1nat
        } else {
            0nat
        }
    }
}

proof fn lemma_unpaired_set(kept: Seq<Option<u32>>, p: int, id: u32)
    requires
        0 <= p < kept.len(),
        kept[p] is None,
    ensures
        unpaired(kept.update(p, Some(id))) + 1 == unpaired(kept),
    decreases kept.len(),
{
    let after = kept.update(p, Some(id));
    if p == kept.len() - 1 {
        assert(after.drop_last() =~= kept.drop_last());
    } else {
        assert(after.drop_last() =~= kept.drop_last().update(p, Some(id)));
        lemma_unpaired_set(kept.drop_last(), p, id);
    }
}

proof fn lemma_all_unpaired(kept: Seq<Option<u32>>)
    requires
        forall|k: int| 0 <= k < kept.len() ==> (#[trigger] kept[k]) is None,
    ensures
        unpaired(kept) == kept.len(),
    decreases kept.len(),
{
    if kept.len() > 0 {
        lemma_all_unpaired(kept.drop_last());
    }
}

// ---------- what detection promises ----------

/// Detection waits until a quarter of a second has passed without an edit, but
/// for no edit longer than three quarters of a second; without edits it never
/// runs.
pub proof fn law_detection_waits_for_quiet(queue: Seq<(IVec3, u64)>, now: u64, k: int)
    ensures
        queue.len() == 0 ==> !detection_due(queue, now),
        queue.len() > 0 && (forall|i: int|
            0 <= i < queue.len() ==> (#[trigger] queue[i]).1 + 250 <= now) ==> detection_due(
            queue,
            now,
        ),
        0 <= k < queue.len() && queue[k].1 + 750 <= now ==> detection_due(queue, now),
        (0 <= k < queue.len() && queue[k].1 + 250 > now && forall|i: int|
            0 <= i < queue.len() ==> (#[trigger] queue[i]).1 + 750 > now) ==> !detection_due(
            queue,
            now,
        ),
{
    if 0 <= k < queue.len() {
        assert(queue[k] == queue[k]);
    }
}

/// Detection looks at each edited cell and at its four sides, and all over the
/// floor of every room that the edits concern: a room that has an edit in its
/// box, or one of these cells on its floor.
pub proof fn law_edits_are_looked_at(
    state: RoomState,
    edited: Seq<IVec3>,
    k: int,
    s: IVec3,
    id: u32,
)
    requires
        0 <= k < edited.len(),
    ensures
        s == edited[k] ==> is_seed(state, edited, s),
        s.y == edited[k].y && s.z == edited[k].z && (s.x == edited[k].x + 1 || s.x == edited[k].x
            - 1) ==> is_seed(state, edited, s),
        s.y == edited[k].y && s.x == edited[k].x && (s.z == edited[k].z + 1 || s.z == edited[k].z
            - 1) ==> is_seed(state, edited, s),
        ({
            let e = edited[k];
            let room = state.rooms[id];
            &&& state.rooms.contains_key(id) && room.bbox_min.x <= e.x <= room.bbox_max.x
                && room.bbox_min.y <= e.y <= room.bbox_max.y && room.bbox_min.z <= e.z
                <= room.bbox_max.z ==> hit_by(state, edited, id)
            &&& state.rooms.contains_key(id) && state.cells.contains_key(e) && state.cells[e] == id
                ==> hit_by(state, edited, id)
        }),
        hit_by(state, edited, id) && state.rooms[id].floor_cells@.contains(s) ==> is_seed(
            state,
            edited,
            s,
        ),
        hit_by(state, edited, id) ==> state.rooms.contains_key(id),
{
    let e = edited[k];
    assert(beside(edited[k], e));
    if beside(edited[k], s) {
        assert(near_edit(edited, s));
    }
    assert(near_edit(edited, e));
}

/// An edit elsewhere concerns no room: one whose box it is not in, and whose
/// floor it neither is nor touches from the side.
pub proof fn law_far_edits_concern_no_room(state: RoomState, edited: Seq<IVec3>, id: u32)
    requires
        forall|k: int|
            0 <= k < edited.len() ==> !in_box(
                #[trigger] edited[k],
                state.rooms[id].bbox_min,
                state.rooms[id].bbox_max,
            ),
        forall|k: int, s: IVec3|
            #![trigger edited[k], state.cells.contains_key(s)]
            0 <= k < edited.len() && state.cells.contains_key(s) && state.cells[s] == id ==> (s.y
                != edited[k].y || gap(s.x as int, edited[k].x as int) + gap(
                s.z as int,
                edited[k].z as int,
            ) > 1),
    ensures
        !hit_by(state, edited, id),
{
    if hit_by(state, edited, id) {
        if exists|s: IVec3|
            near_edit(edited, s) && #[trigger] state.cells.contains_key(s) && state.cells[s] == id {
            let s = choose|s: IVec3|
                near_edit(edited, s) && #[trigger] state.cells.contains_key(s) && state.cells[s] == id;
            let k = choose|k: int| 0 <= k < edited.len() && beside(#[trigger] edited[k], s);
            assert(beside(edited[k], s));
        }
    }
}

/// A region carries on a room where they share at least half of the smaller of
/// their floors, and at least one cell.
pub proof fn law_half_the_floor_keeps_the_room(overlap: int, old_len: int, new_len: int)
    ensures
        overlap <= 0 ==> !keeps_identity(overlap, old_len, new_len),
        overlap > 0 && old_len <= new_len ==> (keeps_identity(overlap, old_len, new_len) <==> 2
            * overlap >= old_len),
        overlap > 0 && new_len <= old_len ==> (keeps_identity(overlap, old_len, new_len) <==> 2
            * overlap >= new_len),
        keeps_identity(overlap, old_len, new_len) == keeps_identity(overlap, new_len, old_len),
{
}

/// A region and a room that may go together, where neither may go with any
/// other, do.
pub proof fn law_clear_successors_keep_the_room(
    found: Seq<Found>,
    rooms: Map<u32, Room>,
    hit: Set<u32>,
    kept: Seq<Option<u32>>,
    p: int,
    id: u32,
)
    requires
        paired(found, rooms, hit, kept),
        may_keep(found, rooms, hit, p, id),
        forall|other: u32| other != id ==> !#[trigger] may_keep(found, rooms, hit, p, other),
        forall|q: int| q != p ==> !#[trigger] may_keep(found, rooms, hit, q, id),
    ensures
        kept[p] == Some(id),
{
    let q = choose|q: int| #[trigger] settled_by(found, rooms, kept, p, id, q);
    assert(settled_by(found, rooms, kept, p, id, q));
    assert(kept[q] is Some);
    assert(may_keep(found, rooms, hit, q, kept[q]->0));
}

proof fn lemma_overlap_same(a: Seq<IVec3>, b: Seq<IVec3>)
    requires
        forall|i: int| 0 <= i < a.len() ==> b.contains(#[trigger] a[i]),
    ensures
        overlap_of(a, b) == a.len(),
    decreases a.len(),
{
    if a.len() > 0 {
        let rest = a.drop_last();
        assert forall|i: int| 0 <= i < rest.len() implies b.contains(#[trigger] rest[i]) by {
            assert(rest[i] == a[i]);
        }
        lemma_overlap_same(rest, b);
        assert(b.contains(a[a.len() - 1]));
    }
}

/// A room that the edits concern and whose floor is found again whole, in one
/// region however much larger, may be carried on by that region.
pub proof fn law_rooms_found_again_may_stay(
    found: Seq<Found>,
    rooms: Map<u32, Room>,
    hit: Set<u32>,
    p: int,
    id: u32,
)
    requires
        0 <= p < found.len(),
        hit.contains(id),
        rooms[id].floor_cells@.len() > 0,
        forall|i: int|
            0 <= i < rooms[id].floor_cells@.len() ==> found[p].cells@.contains(
                #[trigger] rooms[id].floor_cells@[i],
            ),
    ensures
        may_keep(found, rooms, hit, p, id),
{
    lemma_overlap_same(rooms[id].floor_cells@, found[p].cells@);
}

/// The box that is watched for a room holds, for each cell of its floor, the
/// cell itself, the four beside it, the one below, and all above up to one over
/// the height of the room.
pub proof fn law_rooms_watch_all_around(
    world: &BlockWorld,
    reg: &BlockRegistry,
    patterns: &RoomPatternRegistry,
    fill: FloorFill,
    f: Found,
    c: IVec3,
    e: IVec3,
)
    requires
        found_from(world, reg, patterns, fill, f),
        fill.cells@.contains(c),
        forall|i: int| 0 <= i < fill.cells@.len() ==> (#[trigger] fill.cells@[i]).y == c.y,
        -1 <= e.x - c.x <= 1,
        -1 <= e.z - c.z <= 1,
        -1 <= e.y - c.y <= f.signature.enclosure_height->0 + 1 || -1 <= e.y - c.y <= 2,
    ensures
        f.bbox_min.x <= e.x <= f.bbox_max.x,
        f.bbox_min.y <= e.y <= f.bbox_max.y,
        f.bbox_min.z <= e.z <= f.bbox_max.z,
{
    let k = fill.cells@.index_of(c);
    assert(fill.cells@[k] == c);
    let b = f.signature.bbox;
    assert(in_box(fill.cells@[k], b.min, b.max));
    let j = choose|j: int| 0 <= j < fill.cells@.len() && (#[trigger] fill.cells@[j]).y == b.min.y;
    assert(fill.cells@[j].y == c.y);
}

/// In a sealed room the ceiling over each cell of the floor lies within the box
/// that is watched, with one layer to spare.
pub proof fn law_rooms_watch_their_ceilings(
    world: &BlockWorld,
    reg: &BlockRegistry,
    patterns: &RoomPatternRegistry,
    fill: FloorFill,
    f: Found,
    c: IVec3,
    h: int,
)
    requires
        found_from(world, reg, patterns, fill, f),
        fill.cells@.contains(c),
        forall|i: int| 0 <= i < fill.cells@.len() ==> (#[trigger] fill.cells@[i]).y == c.y,
        crate::rooms::signature::sealed(
            world,
            reg,
            crate::rooms::signature::perimeter_of(fill.cells@.to_set()),
            fill.boundary_gaps@.dom(),
        ),
        crate::rooms::signature::ceiling(world, reg, c) == Some(h),
    ensures
        c.y + h < f.bbox_max.y,
{
    let k = fill.cells@.index_of(c);
    assert(fill.cells@[k] == c);
    let b = f.signature.bbox;
    let j = choose|j: int| 0 <= j < fill.cells@.len() && (#[trigger] fill.cells@[j]).y == b.min.y;
    assert(fill.cells@[j].y == c.y);
    let t = choose|t: int| #[trigger]
        tallest_probe(world, reg, &fill, b, t) && f.bbox_max.y == b.min.y + box_height(f.signature, t)
            + 1;
    assert(tallest_probe(world, reg, &fill, b, t));
    assert(crate::rooms::signature::ceiling(world, reg, fill.cells@[k]) is Some);
}

/// A fill starts on floor that is no gap one cell wide, in either direction.
pub proof fn law_fills_start_on_open_floor(world: &BlockWorld, reg: &BlockRegistry, s: IVec3)
    requires
        crate::cells::clear_of_limits(s, 1),
    ensures
        ({
            let wall = |c: IVec3| crate::rooms::fill::wall_at(world, reg, c);
            let e = IVec3 { x: (s.x + 1) as i32, ..s };
            let w = IVec3 { x: (s.x - 1) as i32, ..s };
            let south = IVec3 { z: (s.z + 1) as i32, ..s };
            let north = IVec3 { z: (s.z - 1) as i32, ..s };
            can_start(world, reg, s) <==> floor_cell(world, reg, s) && !(wall(e) && wall(w)) && !(wall(
                south,
            ) && wall(north))
        }),
{
}

/// Floor is outdoors exactly if, from some place where a fill may start, it
/// spreads to more than 4096 cells and to this one among them.
pub proof fn law_wide_floors_are_outdoors(
    world: &BlockWorld,
    reg: &BlockRegistry,
    seed: IVec3,
    c: IVec3,
    many: Seq<IVec3>,
)
    ensures
        can_start(world, reg, seed) && in_region(world, reg, Set::empty(), seed, c) && many.len()
            == 4097 && many.no_duplicates() && (forall|k: int|
            0 <= k < many.len() ==> in_region(world, reg, Set::empty(), seed, #[trigger] many[k]))
            ==> outdoors(world, reg, c),
        outdoors(world, reg, c) ==> exists|start: IVec3, wide: Seq<IVec3>|
            {
                &&& can_start(world, reg, start)
                &&& #[trigger] in_region(world, reg, Set::empty(), start, c)
                &&& wide.len() >= 4097 && #[trigger] wide.no_duplicates()
                &&& forall|k: int|
                    0 <= k < wide.len() ==> in_region(
                        world,
                        reg,
                        Set::empty(),
                        start,
                        #[trigger] wide[k],
                    )
            },
{
    if can_start(world, reg, seed) && in_region(world, reg, Set::empty(), seed, c) && many.len()
        == 4097 && many.no_duplicates() && (forall|k: int|
        0 <= k < many.len() ==> in_region(world, reg, Set::empty(), seed, #[trigger] many[k])) {
        assert(region_exceeds(world, reg, Set::empty(), seed, FLOOD_CAP));
        assert(lost_outdoors(world, reg, seed, c));
    }
    if outdoors(world, reg, c) {
        let start = choose|start: IVec3| #[trigger] lost_outdoors(world, reg, start, c);
        assert(in_region(world, reg, Set::empty(), start, c));
        let wide = choose|s: Seq<IVec3>|
            {
                &&& s.len() > FLOOD_CAP
                &&& #[trigger] s.no_duplicates()
                &&& forall|k: int|
                    0 <= k < s.len() ==> in_region(
                        world,
                        reg,
                        Set::empty(),
                        start,
                        #[trigger] s[k],
                    )
            };
        assert(wide.no_duplicates());
    }
}

/// Of two regions that may carry on the same room, the one that shares less of
/// its floor does not get it from one that could carry on no other.
pub proof fn law_the_larger_share_keeps_the_room(
    found: Seq<Found>,
    rooms: Map<u32, Room>,
    hit: Set<u32>,
    kept: Seq<Option<u32>>,
    p: int,
    q: int,
    id: u32,
)
    requires
        paired(found, rooms, hit, kept),
        p != q,
        may_keep(found, rooms, hit, p, id),
        may_keep(found, rooms, hit, q, id),
        forall|other: u32| other != id ==> !#[trigger] may_keep(found, rooms, hit, p, other),
        overlap_of(rooms[id].floor_cells@, found[p].cells@) > overlap_of(
            rooms[id].floor_cells@,
            found[q].cells@,
        ),
    ensures
        kept[q] != Some(id),
{
    if kept[q] == Some(id) {
        let r = choose|r: int| #[trigger] settled_by(found, rooms, kept, p, id, r);
        assert(settled_by(found, rooms, kept, p, id, r));
        assert(kept[r] is Some);
        assert(may_keep(found, rooms, hit, r, kept[r]->0));
        assert(kept[r] == Some(id));
        if r < q {
            assert(kept[r] != kept[q]);
        }
        if q < r {
            assert(kept[q] != kept[r]);
        }
    }
}

/// What two floors share is the number of cells of the one that the other has
/// too: nothing is shared with an empty floor, and one cell more adds one
/// exactly if the other floor has it.
pub proof fn law_shared_floor_is_counted(old_floor: Seq<IVec3>, new_floor: Seq<IVec3>, c: IVec3)
    ensures
        overlap_of(Seq::empty(), new_floor) == 0,
        new_floor.contains(c) ==> overlap_of(old_floor.push(c), new_floor) == overlap_of(
            old_floor,
            new_floor,
        ) + 1,
        !new_floor.contains(c) ==> overlap_of(old_floor.push(c), new_floor) == overlap_of(
            old_floor,
            new_floor,
        ),
{
    assert(old_floor.push(c).drop_last() =~= old_floor);
}

} // verus!
