//! Carries the outcome of detection into the room map and reports what changed.

use crate::blocks::{BlockRegistry, BlockWorld};
use crate::cells::IVec3;
use crate::ord_map::{CellMap, OrdMap};
use crate::rooms::detect::{
    collect_seeds, detection_due, filled_after, filled_from, fills_cover, find_hit, found_from,
    hit_by, identify, is_kept, is_seed, may_keep, pair_up, paired, reseed, run_fills, seen_before,
    DetectionDirty, Found, RoomEvent,
};
use crate::rooms::fill::FloorFill;
use crate::rooms::map::{matched_in, sound_state, Room, RoomId, RoomMap, RoomState};
use crate::rooms::patterns::RoomPatternRegistry;
use vstd::prelude::*;

verus! {

/// The map without the rooms in `gone` and without their cells.
pub open spec fn without(s: RoomState, gone: Set<u32>) -> RoomState {
    RoomState {
        rooms: s.rooms.remove_keys(gone),
        cells: Map::new(
            |c: IVec3| s.cells.contains_key(c) && !gone.contains(s.cells[c]),
            |c: IVec3| s.cells[c],
        ),
        next: s.next,
    }
}

pub open spec fn room_of(f: Found) -> Room {
    Room {
        pattern: f.pattern,
        floor_cells: f.cells,
        bbox_min: f.bbox_min,
        bbox_max: f.bbox_max,
    }
}

/// The id under which a region enters the map: the one it carries on, or the
/// next free one.
pub open spec fn id_for(s: RoomState, kept: Option<u32>) -> u32 {
    match kept {
        Some(id) => id,
        None => s.next as u32,
    }
}

/// The map with the region in it. The cells of the room it carries on are
/// released first, so that trimmed cells do not linger.
pub open spec fn placed(s: RoomState, f: Found, kept: Option<u32>) -> RoomState {
    let id = id_for(s, kept);
    RoomState {
        rooms: s.rooms.insert(id, room_of(f)),
        cells: Map::new(
            |c: IVec3| f.cells@.contains(c) || (s.cells.contains_key(c) && s.cells[c] != id),
            |c: IVec3|
                if f.cells@.contains(c) {
                    id
                } else {
                    s.cells[c]
                },
        ),
        next: if kept is Some {
            s.next
        } else {
            s.next + 1
        },
    }
}

/// The pattern a room had so far.
pub open spec fn pattern_so_far(s: RoomState, id: u32) -> Option<String> {
    if s.rooms.contains_key(id) {
        s.rooms[id].pattern
    } else {
        None
    }
}

/// What placing the region reports: only a pattern that appears, disappears or
/// changes.
pub open spec fn event_of(s: RoomState, f: Found, kept: Option<u32>) -> Seq<RoomEvent> {
    let room = RoomId(id_for(s, kept));
    match (pattern_so_far(s, room.0), f.pattern) {
        (None, None) => Seq::empty(),
        (None, Some(_)) => seq![
            RoomEvent::Created { room, pattern: f.pattern, signature: f.signature },
        ],
        (Some(_), None) => seq![RoomEvent::Destroyed { room }],
        (Some(a), Some(b)) => if a@ == b@ {
            Seq::empty()
        } else {
            seq![
                RoomEvent::Changed {
                    room,
                    from: Some(a),
                    to: f.pattern,
                    signature: f.signature,
                },
            ]
        },
    }
}

/// The map after the first `n` regions have been placed.
pub open spec fn placed_upto(
    s: RoomState,
    found: Seq<Found>,
    kept: Seq<Option<u32>>,
    n: int,
) -> RoomState
    decreases n,
{
    if n <= 0 {
        s
    } else {
        placed(placed_upto(s, found, kept, n - 1), found[n - 1], kept[n - 1])
    }
}

/// What placing the first `n` regions reports.
pub open spec fn events_upto(
    s: RoomState,
    found: Seq<Found>,
    kept: Seq<Option<u32>>,
    n: int,
) -> Seq<RoomEvent>
    decreases n,
{
    if n <= 0 {
        Seq::empty()
    } else {
        events_upto(s, found, kept, n - 1) + event_of(
            placed_upto(s, found, kept, n - 1),
            found[n - 1],
            kept[n - 1],
        )
    }
}

/// The room is concerned by the edits and no region carries it on.
pub open spec fn is_gone(
    s: RoomState,
    edited: Seq<IVec3>,
    kept: Seq<Option<u32>>,
    id: u32,
) -> bool {
    hit_by(s, edited, id) && !kept.contains(Some(id))
}

pub open spec fn gone_set(s: RoomState, edited: Seq<IVec3>, kept: Seq<Option<u32>>) -> Set<u32> {
    Set::new(|id: u32| is_gone(s, edited, kept, id))
}

/// The matched rooms that are gone, each once, in increasing order.
pub open spec fn lists_gone(
    s: RoomState,
    edited: Seq<IVec3>,
    kept: Seq<Option<u32>>,
    lost: Seq<u32>,
) -> bool {
    &&& forall|i: int|
        0 <= i < lost.len() ==> is_gone(s, edited, kept, #[trigger] lost[i]) && matched_in(
            s.rooms,
            lost[i],
        )
    &&& forall|i: int, j: int|
        #![trigger lost[i], lost[j]]
        0 <= i < j < lost.len() ==> lost[i] < lost[j]
    &&& forall|id: u32|
        is_gone(s, edited, kept, id) && #[trigger] matched_in(s.rooms, id) ==> lost.contains(id)
}

/// The rooms that the edits concern.
pub open spec fn hit_set(s: RoomState, edited: Seq<IVec3>) -> Set<u32> {
    Set::new(|id: u32| hit_by(s, edited, id))
}

/// The cells at which fills start.
pub open spec fn seed_set(s: RoomState, edited: Seq<IVec3>) -> Set<IVec3> {
    Set::new(|c: IVec3| is_seed(s, edited, c))
}

pub open spec fn farewells(lost: Seq<u32>) -> Seq<RoomEvent> {
    Seq::new(lost.len(), |i: int| RoomEvent::Destroyed { room: RoomId(lost[i]) })
}

/// The regions found around the edits.
pub open spec fn regions_around(
    s: RoomState,
    edited: Seq<IVec3>,
    world: &BlockWorld,
    reg: &BlockRegistry,
    patterns: &RoomPatternRegistry,
    fills: Seq<FloorFill>,
    found: Seq<Found>,
) -> bool {
    &&& fills_cover(world, reg, seed_set(s, edited), fills)
    &&& found.len() == fills.len()
    &&& forall|i: int|
        0 <= i < found.len() ==> found_from(world, reg, patterns, fills[i], #[trigger] found[i])
}

/// One detection run: regions are found around the edits, each carries on an
/// old room or starts a new one, old rooms without a successor disappear, and
/// the events tell exactly that.
pub open spec fn detection_run(
    old_state: RoomState,
    new_state: RoomState,
    events: Seq<RoomEvent>,
    edited: Seq<IVec3>,
    world: &BlockWorld,
    reg: &BlockRegistry,
    patterns: &RoomPatternRegistry,
    fills: Seq<FloorFill>,
    found: Seq<Found>,
    kept: Seq<Option<u32>>,
    lost: Seq<u32>,
) -> bool {
    let base = without(old_state, gone_set(old_state, edited, kept));
    &&& regions_around(old_state, edited, world, reg, patterns, fills, found)
    &&& 0 <= old_state.next
    &&& old_state.next + found.len() <= u32::MAX
    &&& paired(found, old_state.rooms, hit_set(old_state, edited), kept)
    &&& lists_gone(old_state, edited, kept, lost)
    &&& new_state == placed_upto(base, found, kept, found.len() as int)
    &&& events == farewells(lost) + events_upto(base, found, kept, found.len() as int)
}

/// Some detection run leads from the old state to the new one.
pub open spec fn redetected(
    old_state: RoomState,
    new_state: RoomState,
    events: Seq<RoomEvent>,
    edited: Seq<IVec3>,
    world: &BlockWorld,
    reg: &BlockRegistry,
    patterns: &RoomPatternRegistry,
) -> bool {
    exists|fills: Seq<FloorFill>, found: Seq<Found>, kept: Seq<Option<u32>>, lost: Seq<u32>|
        #[trigger]
        detection_run(
            old_state,
            new_state,
            events,
            edited,
            world,
            reg,
            patterns,
            fills,
            found,
            kept,
            lost,
        )
}

/// The regions found around the edits outnumber the room ids left.
pub open spec fn out_of_ids(
    s: RoomState,
    edited: Seq<IVec3>,
    world: &BlockWorld,
    reg: &BlockRegistry,
    patterns: &RoomPatternRegistry,
) -> bool {
    exists|fills: Seq<FloorFill>, found: Seq<Found>| #[trigger]
        regions_around(s, edited, world, reg, patterns, fills, found) && found.len() > u32::MAX
            - s.next
}

/// `c` is among the first `n` cells.
spec fn among(cells: Seq<IVec3>, n: int, c: IVec3) -> bool {
    exists|k: int| 0 <= k < n && #[trigger] cells[k] == c
}

proof fn lemma_among(cells: Seq<IVec3>, n: int)
    requires
        0 <= n < cells.len(),
    ensures
        forall|c: IVec3| #[trigger]
            among(cells, n + 1, c) <==> among(cells, n, c) || c == cells[n],
{
    assert forall|c: IVec3| #[trigger] among(cells, n + 1, c) <==> (among(cells, n, c) || c
        == cells[n]) by {
        if among(cells, n, c) {
            let k = choose|k: int| 0 <= k < n && #[trigger] cells[k] == c;
            assert(cells[k] == c);
        }
        assert(cells[n] == cells[n]);
    }
}

proof fn lemma_among_all(cells: Seq<IVec3>)
    ensures
        forall|c: IVec3| #[trigger] among(cells, cells.len() as int, c) <==> cells.contains(c),
{
}

fn copy_pattern(p: &Option<String>) -> (r: Option<String>)
    ensures
        r == *p,
{
    match p {
        Some(s) => Some(s.clone()),
        None => None,
    }
}

/// Releases the cells of `floor` that still belong to `id`.
fn release_cells(rooms: &mut RoomMap, floor: &Vec<IVec3>, id: u32)
    ensures
        final(rooms)@.rooms == old(rooms)@.rooms,
        final(rooms)@.next == old(rooms)@.next,
        forall|c: IVec3| #[trigger]
            final(rooms)@.cells.contains_key(c) <==> old(rooms)@.cells.contains_key(c) && !(
            floor@.contains(c) && old(rooms)@.cells[c] == id),
        forall|c: IVec3| #[trigger]
            final(rooms)@.cells.contains_key(c) ==> final(rooms)@.cells[c]
                == old(rooms)@.cells[c],
{
    let mut i: usize = 0;
    while i < floor.len()
        invariant
            i <= floor@.len(),
            rooms@.rooms == old(rooms)@.rooms,
            rooms@.next == old(rooms)@.next,
            forall|c: IVec3| #[trigger]
                rooms@.cells.contains_key(c) <==> old(rooms)@.cells.contains_key(c) && !(among(
                    floor@,
                    i as int,
                    c,
                ) && old(rooms)@.cells[c] == id),
            forall|c: IVec3| #[trigger]
                rooms@.cells.contains_key(c) ==> rooms@.cells[c] == old(rooms)@.cells[c],
        decreases floor@.len() - i,
    {
        let c: IVec3 = floor[i];
        proof {
            lemma_among(floor@, i as int);
        }
        if let Some(x) = rooms.room_at(c) {
            if x == id {
                rooms.unlink(c);
            }
        }
        i = i + 1;
    }
    proof {
        lemma_among_all(floor@);
    }
}

/// Removes the rooms that no region carries on.
fn drop_gone(
    rooms: &mut RoomMap,
    hit: &OrdMap<u32, ()>,
    kept: &Vec<Option<u32>>,
    edited: &Vec<IVec3>,
) -> (r: (Vec<RoomEvent>, Ghost<Seq<u32>>))
    requires
        sound_state(old(rooms)@),
        forall|id: u32| #[trigger] hit@.contains_key(id) <==> hit_by(old(rooms)@, edited@, id),
    ensures
        final(rooms)@ == without(old(rooms)@, gone_set(old(rooms)@, edited@, kept@)),
        lists_gone(old(rooms)@, edited@, kept@, r.1@),
        r.0@ == farewells(r.1@),
{
    let ghost s = rooms@;
    let n: usize = hit.len();
    let ghost keys = hit.keys();
    let ghost mut lost: Seq<u32> = Seq::empty();
    let mut events: Vec<RoomEvent> = Vec::new();
    assert(events@ =~= farewells(lost));
    let mut i: usize = 0;
    while i < n
        invariant
            s == old(rooms)@,
            sound_state(s),
            forall|id: u32| #[trigger] hit@.contains_key(id) <==> hit_by(s, edited@, id),
            n == keys.len(),
            keys == hit.keys(),
            forall|a: int, b: int|
                #![trigger keys[a], keys[b]]
                0 <= a < b < n ==> keys[a] < keys[b],
            i <= n,
            rooms@.next == s.next,
            forall|id: u32| #[trigger]
                rooms@.rooms.contains_key(id) <==> s.rooms.contains_key(id) && !(exists|k: int|
                    0 <= k < i && #[trigger] keys[k] == id && !kept@.contains(Some(id))),
            forall|id: u32| #[trigger]
                rooms@.rooms.contains_key(id) ==> rooms@.rooms[id] == s.rooms[id],
            forall|c: IVec3| #[trigger]
                rooms@.cells.contains_key(c) <==> s.cells.contains_key(c) && !(exists|k: int|
                    0 <= k < i && #[trigger] keys[k] == s.cells[c] && !kept@.contains(
                        Some(s.cells[c]),
                    )),
            forall|c: IVec3| #[trigger]
                rooms@.cells.contains_key(c) ==> rooms@.cells[c] == s.cells[c],
            events@ == farewells(lost),
            forall|k: int|
                0 <= k < lost.len() ==> is_gone(s, edited@, kept@, #[trigger] lost[k])
                    && matched_in(s.rooms, lost[k]),
            forall|k: int| i < n && 0 <= k < lost.len() ==> (#[trigger] lost[k]) < keys[i as int],
            forall|a: int, b: int|
                #![trigger lost[a], lost[b]]
                0 <= a < b < lost.len() ==> lost[a] < lost[b],
            forall|k: int|
                0 <= k < i && is_gone(s, edited@, kept@, #[trigger] keys[k]) && matched_in(
                    s.rooms,
                    keys[k],
                ) ==> lost.contains(keys[k]),
        decreases n - i,
    {
        let id: u32 = hit.key_at(i);
        assert(keys[i as int] == id);
        assert(hit_by(s, edited@, id));
        let ghost lost0 = lost;
        let ghost before = rooms@;
        let carried: bool = is_kept(kept, id);
        assert(carried <==> kept@.contains(Some(id)));
        if !carried {
            assert(is_gone(s, edited@, kept@, id));
            assert(before.rooms.contains_key(id)) by {
                if exists|k: int| 0 <= k < i && #[trigger] keys[k] == id && !kept@.contains(
                    Some(id),
                ) {
                    let k = choose|k: int|
                        0 <= k < i && #[trigger] keys[k] == id && !kept@.contains(Some(id));
                    assert(keys[k] < keys[i as int]);
                }
            }
            if let Some(room) = rooms.remove_room(id) {
                release_cells(rooms, &room.floor_cells, id);
                if room.pattern.is_some() {
                    events.push(RoomEvent::Destroyed { room: RoomId(id) });
                    proof {
                        lost = lost.push(id);
                        assert(events@ =~= farewells(lost));
                    }
                }
                assert forall|c: IVec3| #[trigger]
                    rooms@.cells.contains_key(c) <==> s.cells.contains_key(c) && !(exists|k: int|
                    0 <= k < i + 1 && #[trigger] keys[k] == s.cells[c] && !kept@.contains(
                        Some(s.cells[c]),
                    )) by {
                    if before.cells.contains_key(c) {
                        assert(before.cells[c] == s.cells[c]);
                        if s.cells[c] == id {
                            assert(s.rooms[id].floor_cells@.contains(c));
                            assert(keys[i as int] == s.cells[c]);
                        }
                    }
                    if s.cells.contains_key(c) && !before.cells.contains_key(c) {
                        let k = choose|k: int|
                            0 <= k < i && #[trigger] keys[k] == s.cells[c] && !kept@.contains(
                                Some(s.cells[c]),
                            );
                        assert(keys[k] == s.cells[c]);
                    }
                }
                assert forall|x: u32| #[trigger]
                    rooms@.rooms.contains_key(x) <==> s.rooms.contains_key(x) && !(exists|k: int|
                    0 <= k < i + 1 && #[trigger] keys[k] == x && !kept@.contains(Some(x))) by {
                    if x == id {
                        assert(keys[i as int] == x);
                    } else if s.rooms.contains_key(x) && !before.rooms.contains_key(x) {
                        let k = choose|k: int|
                            0 <= k < i && #[trigger] keys[k] == x && !kept@.contains(Some(x));
                        assert(keys[k] == x);
                    }
                }
            }
        } else {
            assert forall|x: u32| #[trigger]
                rooms@.rooms.contains_key(x) <==> s.rooms.contains_key(x) && !(exists|k: int|
                0 <= k < i + 1 && #[trigger] keys[k] == x && !kept@.contains(Some(x))) by {
                if s.rooms.contains_key(x) && !before.rooms.contains_key(x) {
                    let k = choose|k: int|
                        0 <= k < i && #[trigger] keys[k] == x && !kept@.contains(Some(x));
                    assert(keys[k] == x);
                }
            }
            assert forall|c: IVec3| #[trigger]
                rooms@.cells.contains_key(c) <==> s.cells.contains_key(c) && !(exists|k: int|
                0 <= k < i + 1 && #[trigger] keys[k] == s.cells[c] && !kept@.contains(
                    Some(s.cells[c]),
                )) by {
                if s.cells.contains_key(c) && !before.cells.contains_key(c) {
                    let k = choose|k: int|
                        0 <= k < i && #[trigger] keys[k] == s.cells[c] && !kept@.contains(
                            Some(s.cells[c]),
                        );
                    assert(keys[k] == s.cells[c]);
                }
            }
        }
        proof {
            assert forall|k: int|
                0 <= k < i + 1 && is_gone(s, edited@, kept@, #[trigger] keys[k]) && matched_in(
                    s.rooms,
                    keys[k],
                ) implies lost.contains(keys[k]) by {
                if k < i {
                    let j = choose|j: int| 0 <= j < lost0.len() && lost0[j] == keys[k];
                    assert(lost[j] == keys[k]);
                } else {
                    assert(lost[lost0.len() as int] == id);
                }
            }
        }
        i = i + 1;
    }
    proof {
        let gone = gone_set(s, edited@, kept@);
        assert forall|id: u32| gone.contains(id) <==> (exists|k: int|
            0 <= k < n && #[trigger] keys[k] == id && !kept@.contains(Some(id))) by {
            if gone.contains(id) {
                assert(hit@.contains_key(id));
                assert(keys.contains(id));
                let k = choose|k: int| 0 <= k < n && keys[k] == id;
                assert(keys[k] == id);
            }
            if exists|k: int| 0 <= k < n && #[trigger] keys[k] == id && !kept@.contains(Some(id)) {
                let k = choose|k: int|
                    0 <= k < n && #[trigger] keys[k] == id && !kept@.contains(Some(id));
                assert(hit@.contains_key(keys[k]));
            }
        }
        let want = without(s, gone);
        assert(rooms@.rooms =~= want.rooms);
        assert(rooms@.cells =~= want.cells) by {
            assert forall|c: IVec3| rooms@.cells.contains_key(c) <==> want.cells.contains_key(c) by {
                if s.cells.contains_key(c) {
                    assert(gone.contains(s.cells[c]) <==> (exists|k: int|
                        0 <= k < n && #[trigger] keys[k] == s.cells[c] && !kept@.contains(
                            Some(s.cells[c]),
                        )));
                }
            }
        }
        assert forall|id: u32|
            is_gone(s, edited@, kept@, id) && #[trigger] matched_in(
                s.rooms,
                id,
            ) implies lost.contains(id) by {
            assert(hit@.contains_key(id));
            assert(keys.contains(id));
            let k = choose|k: int| 0 <= k < n && keys[k] == id;
            assert(is_gone(s, edited@, kept@, keys[k]));
        }
    }
    (events, Ghost(lost))
}

/// Puts one region into the map.
fn place(rooms: &mut RoomMap, f: Found, kept: Option<u32>, events: &mut Vec<RoomEvent>)
    requires
        sound_state(old(rooms)@),
        kept is None ==> old(rooms)@.next < u32::MAX,
        kept matches Some(id) ==> old(rooms)@.rooms.contains_key(id),
        0 < f.cells@.len() <= u32::MAX,
    ensures
        final(rooms)@ == placed(old(rooms)@, f, kept),
        final(events)@ == old(events)@ + event_of(old(rooms)@, f, kept),
{
    let ghost s = rooms@;
    let id: u32 = match kept {
        Some(id) => id,
        None => {
            let fresh: u32 = rooms.next_id();
            rooms.set_next_id(fresh + 1);
            fresh
        },
    };
    assert(id == id_for(s, kept));
    let ghost bumped = rooms@;
    let mut from: Option<String> = None;
    let mut stale: Vec<IVec3> = Vec::new();
    if let Some(room) = rooms.room(id) {
        from = copy_pattern(&room.pattern);
        let mut k: usize = 0;
        while k < room.floor_cells.len()
            invariant
                k <= room.floor_cells@.len(),
                stale@ == room.floor_cells@.take(k as int),
            decreases room.floor_cells@.len() - k,
        {
            stale.push(room.floor_cells[k]);
            assert(stale@ =~= room.floor_cells@.take(k + 1));
            k = k + 1;
        }
        assert(stale@ =~= room.floor_cells@);
    }
    assert(from == pattern_so_far(s, id));
    release_cells(rooms, &stale, id);
    assert forall|c: IVec3| #[trigger] rooms@.cells.contains_key(c) <==> s.cells.contains_key(c)
        && s.cells[c] != id by {
        if s.cells.contains_key(c) && s.cells[c] == id {
            assert(s.rooms[id].floor_cells@.contains(c));
        }
    }
    let ghost released = rooms@;
    let Found { cells, signature, pattern, bbox_min, bbox_max } = f;
    let mut i: usize = 0;
    while i < cells.len()
        invariant
            i <= cells@.len(),
            rooms@.rooms == released.rooms,
            rooms@.next == released.next,
            forall|c: IVec3| #[trigger]
                rooms@.cells.contains_key(c) <==> released.cells.contains_key(c) || among(
                    cells@,
                    i as int,
                    c,
                ),
            forall|c: IVec3| #[trigger]
                rooms@.cells.contains_key(c) ==> rooms@.cells[c] == (if among(
                    cells@,
                    i as int,
                    c,
                ) {
                    id
                } else {
                    released.cells[c]
                }),
        decreases cells@.len() - i,
    {
        proof {
            lemma_among(cells@, i as int);
        }
        rooms.link(cells[i], id);
        i = i + 1;
    }
    proof {
        lemma_among_all(cells@);
    }
    let room = RoomId(id);
    let ghost events0 = events@;
    match (&from, &pattern) {
        (None, None) => {
            assert(events@ =~= events0 + Seq::<RoomEvent>::empty());
        },
        (None, Some(_)) => {
            let copy: Option<String> = copy_pattern(&pattern);
            events.push(RoomEvent::Created { room, pattern: copy, signature });
            assert(events@ =~= events0 + event_of(s, f, kept));
        },
        (Some(_), None) => {
            events.push(RoomEvent::Destroyed { room });
            assert(events@ =~= events0 + event_of(s, f, kept));
        },
        (Some(a), Some(b)) => {
            if *a == *b {
                assert(events@ =~= events0 + Seq::<RoomEvent>::empty());
            } else {
                let to: Option<String> = copy_pattern(&pattern);
                let old_pattern: Option<String> = copy_pattern(&from);
                events.push(RoomEvent::Changed { room, from: old_pattern, to, signature });
                assert(events@ =~= events0 + event_of(s, f, kept));
            }
        },
    }
    rooms.put_room(id, Room { pattern, floor_cells: cells, bbox_min, bbox_max });
    proof {
        let want = placed(s, f, kept);
        assert(rooms@.rooms =~= want.rooms);
        assert(rooms@.cells =~= want.cells);
    }
}

/// Placing keeps the map sound, and a room that some later region carries on
/// is still there.
proof fn lemma_placed_sound(s: RoomState, f: Found, kept: Option<u32>)
    requires
        sound_state(s),
        kept matches Some(id) ==> s.rooms.contains_key(id),
        kept is None ==> s.next < u32::MAX,
        0 <= s.next,
        0 < f.cells@.len() <= u32::MAX,
    ensures
        sound_state(placed(s, f, kept)),
        forall|id: u32| #[trigger]
            s.rooms.contains_key(id) ==> placed(s, f, kept).rooms.contains_key(id),
{
    let t = placed(s, f, kept);
    let id = id_for(s, kept);
    assert forall|c: IVec3| #[trigger] t.cells.contains_key(c) implies t.rooms.contains_key(
        t.cells[c],
    ) && t.rooms[t.cells[c]].floor_cells@.contains(c) by {
        if !f.cells@.contains(c) {
            assert(s.cells.contains_key(c));
            assert(t.cells[c] == s.cells[c]);
            assert(s.cells[c] != id);
        }
    }
}

proof fn lemma_without_sound(s: RoomState, gone: Set<u32>)
    requires
        sound_state(s),
    ensures
        sound_state(without(s, gone)),
{
    let t = without(s, gone);
    assert forall|c: IVec3| #[trigger] t.cells.contains_key(c) implies t.rooms.contains_key(
        t.cells[c],
    ) && t.rooms[t.cells[c]].floor_cells@.contains(c) by {
        assert(s.cells.contains_key(c));
    }
}

/// Brings the room map up to date after the cells in `edited` changed, and
/// returns what to report. `None` means that there are not enough room ids
/// left for the regions found; nothing changes then.
pub fn redetect(
    edited: &Vec<IVec3>,
    world: &BlockWorld,
    reg: &BlockRegistry,
    patterns: &RoomPatternRegistry,
    rooms: &mut RoomMap,
) -> (r: Option<Vec<RoomEvent>>)
    requires
        sound_state(old(rooms)@),
        world.covered_by(reg),
        reg.defs@.len() <= 0x1_0000,
    ensures
        sound_state(final(rooms)@),
        match r {
            Some(events) => redetected(
                old(rooms)@,
                final(rooms)@,
                events@,
                edited@,
                world,
                reg,
                patterns,
            ),
            None => final(rooms)@ == old(rooms)@ && out_of_ids(
                old(rooms)@,
                edited@,
                world,
                reg,
                patterns,
            ),
        },
{
    let ghost s = rooms@;
    let mut seeds: CellMap<()> = collect_seeds(edited);
    let hit: OrdMap<u32, ()> = find_hit(rooms, &seeds, edited);
    reseed(rooms, &hit, edited, &mut seeds);
    let mut fills: Vec<FloorFill> = run_fills(&seeds, world, reg);
    let ghost all_fills = fills@;
    assert(seeds@.dom() =~= seed_set(s, edited@));
    let mut found: Vec<Found> = Vec::new();
    let total: usize = fills.len();
    let mut i: usize = 0;
    while i < total
        invariant
            world.covered_by(reg),
            reg.defs@.len() <= 0x1_0000,
            total == all_fills.len(),
            i <= total,
            forall|k: int|
                0 <= k < all_fills.len() ==> filled_after(
                    world,
                    reg,
                    seeds@.dom(),
                    all_fills.take(k),
                    #[trigger] all_fills[k],
                ),
            fills@ == all_fills.skip(i as int),
            found@.len() == i,
            forall|k: int|
                0 <= k < i ==> found_from(
                    world,
                    reg,
                    patterns,
                    all_fills[k],
                    #[trigger] found@[k],
                ),
            forall|k: int| 0 <= k < i ==> 0 < (#[trigger] found@[k]).cells@.len() <= u32::MAX,
        decreases total - i,
    {
        let fill: FloorFill = fills.remove(0);
        proof {
            assert(fill == all_fills[i as int]);
            let earlier = all_fills.take(i as int);
            assert(filled_after(world, reg, seeds@.dom(), earlier, all_fills[i as int]));
            let (seed, seen) = choose|seed: IVec3, seen: Set<IVec3>|
                seeds@.dom().contains(seed) && seen_before(world, reg, earlier, seen)
                    && #[trigger] filled_from(world, reg, seed, seen, fill);
            assert(filled_from(world, reg, seed, seen, fill));
            assert(fills@ =~= all_fills.skip(i + 1));
        }
        found.push(identify(fill, world, reg, patterns));
        i = i + 1;
    }
    let ghost all_found = found@;
    assert(regions_around(s, edited@, world, reg, patterns, all_fills, all_found));
    let next: u32 = rooms.next_id();
    if found.len() as u64 > (u32::MAX - next) as u64 {
        return None;
    }
    let kept: Vec<Option<u32>> = pair_up(&found, rooms, &hit);
    let ghost hits = hit_set(s, edited@);
    assert(hit@.dom() =~= hits);
    let (mut events, lost) = drop_gone(rooms, &hit, &kept, edited);
    let ghost base = rooms@;
    proof {
        lemma_without_sound(s, gone_set(s, edited@, kept@));
        assert forall|k: int| 0 <= k < kept@.len() && (#[trigger] kept@[k]) is Some implies base.rooms.contains_key(
        kept@[k]->0) by {
            assert(may_keep(all_found, s.rooms, hits, k, kept@[k]->0));
            assert(hit_by(s, edited@, kept@[k]->0));
            assert(kept@.contains(kept@[k]));
        }
        assert(events@ =~= farewells(lost@) + events_upto(base, all_found, kept@, 0));
    }
    let n: usize = found.len();
    let mut j: usize = 0;
    while j < n
        invariant
            n == all_found.len(),
            kept@.len() == n,
            j <= n,
            found@ == all_found.skip(j as int),
            forall|k: int|
                0 <= k < all_found.len() ==> 0 < (#[trigger] all_found[k]).cells@.len() <= u32::MAX,
            sound_state(rooms@),
            rooms@ == placed_upto(base, all_found, kept@, j as int),
            forall|k: int|
                0 <= k < kept@.len() && (#[trigger] kept@[k]) is Some ==> rooms@.rooms.contains_key(
                    kept@[k]->0,
                ),
            0 <= rooms@.next <= s.next + j,
            s.next + n <= u32::MAX,
            events@ == farewells(lost@) + events_upto(base, all_found, kept@, j as int),
        decreases n - j,
    {
        let f: Found = found.remove(0);
        let ghost before = rooms@;
        let ghost events0 = events@;
        assert(f == all_found[j as int]);
        let keep: Option<u32> = kept[j];
        place(rooms, f, keep, &mut events);
        proof {
            lemma_placed_sound(before, all_found[j as int], kept@[j as int]);
            assert(found@ =~= all_found.skip(j + 1));
            assert(events@ =~= farewells(lost@) + events_upto(base, all_found, kept@, j + 1));
        }
        j = j + 1;
    }
    assert(detection_run(
        s,
        rooms@,
        events@,
        edited@,
        world,
        reg,
        patterns,
        all_fills,
        all_found,
        kept@,
        lost@,
    ));
    Some(events)
}

/// Runs detection once the queued edits have settled. `None` means that
/// detection did not run to its end; the queue is emptied all the same when
/// it was due.
pub fn process_dirty(
    dirty: &mut DetectionDirty,
    now: u64,
    world: &BlockWorld,
    reg: &BlockRegistry,
    patterns: &RoomPatternRegistry,
    rooms: &mut RoomMap,
) -> (r: Option<Vec<RoomEvent>>)
    requires
        sound_state(old(rooms)@),
        world.covered_by(reg),
        reg.defs@.len() <= 0x1_0000,
    ensures
        sound_state(final(rooms)@),
        !detection_due(old(dirty)@, now) ==> r is None && final(dirty)@ == old(dirty)@
            && final(rooms)@ == old(rooms)@,
        detection_due(old(dirty)@, now) ==> final(dirty)@.len() == 0 && {
            let edited = Seq::new(old(dirty)@.len(), |i: int| old(dirty)@[i].0);
            match r {
                Some(events) => redetected(
                    old(rooms)@,
                    final(rooms)@,
                    events@,
                    edited,
                    world,
                    reg,
                    patterns,
                ),
                None => final(rooms)@ == old(rooms)@ && out_of_ids(
                    old(rooms)@,
                    edited,
                    world,
                    reg,
                    patterns,
                ),
            }
        },
{
    match dirty.take_due(now) {
        None => None,
        Some(edited) => {
            assert(edited@ =~= Seq::new(old(dirty)@.len(), |i: int| old(dirty)@[i].0));
            redetect(&edited, world, reg, patterns, rooms)
        },
    }
}

// ---------- laws ----------

/// The matched rooms and their patterns.
pub open spec fn matched(rooms: Map<u32, Room>) -> Map<u32, Seq<char>> {
    Map::new(|id: u32| matched_in(rooms, id), |id: u32| rooms[id].pattern->0@)
}

/// What a listener that follows the events believes after one of them.
pub open spec fn heard(m: Map<u32, Seq<char>>, e: RoomEvent) -> Map<u32, Seq<char>> {
    match e {
        RoomEvent::Created { room, pattern, .. } => match pattern {
            Some(p) => m.insert(room.0, p@),
            None => m,
        },
        RoomEvent::Changed { room, to, .. } => match to {
            Some(p) => m.insert(room.0, p@),
            None => m,
        },
        RoomEvent::Destroyed { room } => m.remove(room.0),
    }
}

/// What it believes after all of them.
pub open spec fn heard_all(m: Map<u32, Seq<char>>, events: Seq<RoomEvent>) -> Map<u32, Seq<char>>
    decreases events.len(),
{
    if events.len() == 0 {
        m
    } else {
        heard(heard_all(m, events.drop_last()), events.last())
    }
}

proof fn lemma_heard_concat(m: Map<u32, Seq<char>>, a: Seq<RoomEvent>, b: Seq<RoomEvent>)
    ensures
        heard_all(m, a + b) == heard_all(heard_all(m, a), b),
    decreases b.len(),
{
    if b.len() == 0 {
        assert(a + b =~= a);
    } else {
        assert((a + b).drop_last() =~= a + b.drop_last());
        lemma_heard_concat(m, a, b.drop_last());
    }
}

proof fn lemma_heard_farewells(m: Map<u32, Seq<char>>, lost: Seq<u32>)
    ensures
        forall|id: u32| #[trigger]
            heard_all(m, farewells(lost)).contains_key(id) <==> m.contains_key(id)
                && !lost.contains(id),
        forall|id: u32| #[trigger]
            heard_all(m, farewells(lost)).contains_key(id) ==> heard_all(m, farewells(lost))[id]
                == m[id],
    decreases lost.len(),
{
    if lost.len() > 0 {
        let t = lost.drop_last();
        let goodbye = RoomEvent::Destroyed { room: RoomId(lost.last()) };
        assert(farewells(lost).drop_last() =~= farewells(t));
        assert(farewells(lost).last() == goodbye);
        lemma_heard_farewells(m, t);
        assert(heard_all(m, farewells(lost)) == heard_all(m, farewells(t)).remove(lost.last()));
        assert forall|id: u32| lost.contains(id) <==> (t.contains(id) || id == lost.last()) by {
            if t.contains(id) {
                let k = choose|k: int| 0 <= k < t.len() && t[k] == id;
                assert(lost[k] == id);
            }
            if lost.contains(id) {
                let k = choose|k: int| 0 <= k < lost.len() && lost[k] == id;
                if k < t.len() {
                    assert(t[k] == id);
                }
            }
        }
    }
}

proof fn lemma_heard_placed(s: RoomState, f: Found, kept: Option<u32>)
    requires
        sound_state(s),
        kept is None ==> 0 <= s.next < u32::MAX,
    ensures
        heard_all(matched(s.rooms), event_of(s, f, kept)) == matched(placed(s, f, kept).rooms),
{
    let id = id_for(s, kept);
    let m = matched(s.rooms);
    let e = event_of(s, f, kept);
    let t = placed(s, f, kept);
    if e.len() == 1 {
        assert(e.drop_last() =~= Seq::<RoomEvent>::empty());
        assert(heard_all(m, e.drop_last()) == m);
        assert(heard_all(m, e) == heard(m, e[0]));
    } else {
        assert(heard_all(m, e) == m);
    }
    assert(heard_all(m, e) =~= matched(t.rooms)) by {
        assert forall|x: u32| heard_all(m, e).contains_key(x) <==> matched(t.rooms).contains_key(
            x,
        ) by {
            if x != id {
                assert(matched_in(s.rooms, x) <==> matched_in(t.rooms, x));
            }
        }
    }
}

proof fn lemma_heard_upto(s: RoomState, found: Seq<Found>, kept: Seq<Option<u32>>, n: int)
    requires
        sound_state(s),
        0 <= n <= found.len(),
        kept.len() == found.len(),
        0 <= s.next,
        s.next + found.len() <= u32::MAX,
        forall|k: int| 0 <= k < found.len() ==> 0 < (#[trigger] found[k]).cells@.len() <= u32::MAX,
        forall|k: int|
            0 <= k < kept.len() && (#[trigger] kept[k]) is Some ==> s.rooms.contains_key(
                kept[k]->0,
            ),
    ensures
        heard_all(matched(s.rooms), events_upto(s, found, kept, n)) == matched(
            placed_upto(s, found, kept, n).rooms,
        ),
        sound_state(placed_upto(s, found, kept, n)),
        0 <= placed_upto(s, found, kept, n).next <= s.next + n,
        forall|id: u32| #[trigger]
            s.rooms.contains_key(id) ==> placed_upto(s, found, kept, n).rooms.contains_key(id),
    decreases n,
{
    if n > 0 {
        lemma_heard_upto(s, found, kept, n - 1);
        let t = placed_upto(s, found, kept, n - 1);
        assert(kept[n - 1] matches Some(id) ==> s.rooms.contains_key(id));
        lemma_placed_sound(t, found[n - 1], kept[n - 1]);
        lemma_heard_placed(t, found[n - 1], kept[n - 1]);
        lemma_heard_concat(
            matched(s.rooms),
            events_upto(s, found, kept, n - 1),
            event_of(t, found[n - 1], kept[n - 1]),
        );
    }
}

/// In a detection run, regions have cells and carry on rooms that are there.
proof fn lemma_run_sound(
    old_state: RoomState,
    new_state: RoomState,
    events: Seq<RoomEvent>,
    edited: Seq<IVec3>,
    world: &BlockWorld,
    reg: &BlockRegistry,
    patterns: &RoomPatternRegistry,
    fills: Seq<FloorFill>,
    found: Seq<Found>,
    kept: Seq<Option<u32>>,
    lost: Seq<u32>,
)
    requires
        detection_run(
            old_state,
            new_state,
            events,
            edited,
            world,
            reg,
            patterns,
            fills,
            found,
            kept,
            lost,
        ),
    ensures
        forall|k: int|
            0 <= k < kept.len() && (#[trigger] kept[k]) is Some ==> without(
                old_state,
                gone_set(old_state, edited, kept),
            ).rooms.contains_key(kept[k]->0),
        forall|k: int| 0 <= k < found.len() ==> 0 < (#[trigger] found[k]).cells@.len() <= u32::MAX,
{
    let base = without(old_state, gone_set(old_state, edited, kept));
    let hit = hit_set(old_state, edited);
    assert forall|k: int| 0 <= k < kept.len() && (#[trigger] kept[k]) is Some implies base.rooms.contains_key(
    kept[k]->0) by {
        assert(may_keep(found, old_state.rooms, hit, k, kept[k]->0));
        assert(hit_by(old_state, edited, kept[k]->0));
        assert(kept.contains(kept[k]));
    }
    assert forall|k: int| 0 <= k < found.len() implies 0 < (#[trigger] found[k]).cells@.len()
        <= u32::MAX by {
        let seeds = seed_set(old_state, edited);
        let earlier = fills.take(k);
        assert(filled_after(world, reg, seeds, earlier, fills[k]));
        let (seed, seen) = choose|seed: IVec3, seen: Set<IVec3>|
            seeds.contains(seed) && seen_before(world, reg, earlier, seen) && #[trigger] filled_from(
                world,
                reg,
                seed,
                seen,
                fills[k],
            );
        assert(filled_from(world, reg, seed, seen, fills[k]));
        assert(found_from(world, reg, patterns, fills[k], found[k]));
    }
}

/// A listener that knows the matched rooms and follows the events of a
/// detection run knows the matched rooms afterwards.
pub proof fn law_events_tell_the_rooms(
    old_state: RoomState,
    new_state: RoomState,
    events: Seq<RoomEvent>,
    edited: Seq<IVec3>,
    world: &BlockWorld,
    reg: &BlockRegistry,
    patterns: &RoomPatternRegistry,
)
    requires
        sound_state(old_state),
        redetected(old_state, new_state, events, edited, world, reg, patterns),
    ensures
        heard_all(matched(old_state.rooms), events) == matched(new_state.rooms),
{
    let (fills, found, kept, lost) = choose|
        fills: Seq<FloorFill>,
        found: Seq<Found>,
        kept: Seq<Option<u32>>,
        lost: Seq<u32>,
    | #[trigger]
        detection_run(
            old_state,
            new_state,
            events,
            edited,
            world,
            reg,
            patterns,
            fills,
            found,
            kept,
            lost,
        );
    let gone = gone_set(old_state, edited, kept);
    let base = without(old_state, gone);
    lemma_without_sound(old_state, gone);
    lemma_heard_farewells(matched(old_state.rooms), lost);
    assert(heard_all(matched(old_state.rooms), farewells(lost)) =~= matched(base.rooms)) by {
        assert forall|id: u32|
            heard_all(matched(old_state.rooms), farewells(lost)).contains_key(id) <==> matched(
                base.rooms,
            ).contains_key(id) by {
            if lost.contains(id) {
                let k = choose|k: int| 0 <= k < lost.len() && lost[k] == id;
                assert(is_gone(old_state, edited, kept, lost[k]));
            }
            if matched_in(old_state.rooms, id) && gone.contains(id) {
                assert(is_gone(old_state, edited, kept, id));
                assert(lost.contains(id));
            }
        }
    }
    lemma_run_sound(
        old_state,
        new_state,
        events,
        edited,
        world,
        reg,
        patterns,
        fills,
        found,
        kept,
        lost,
    );
    lemma_heard_upto(base, found, kept, found.len() as int);
    lemma_heard_concat(
        matched(old_state.rooms),
        farewells(lost),
        events_upto(base, found, kept, found.len() as int),
    );
}

proof fn lemma_untouched(
    s: RoomState,
    found: Seq<Found>,
    kept: Seq<Option<u32>>,
    n: int,
    id: u32,
)
    requires
        0 <= n <= kept.len(),
        kept.len() == found.len(),
        s.rooms.contains_key(id),
        id < s.next,
        s.next + found.len() <= u32::MAX,
        !kept.contains(Some(id)),
    ensures
        placed_upto(s, found, kept, n).rooms.contains_key(id),
        placed_upto(s, found, kept, n).rooms[id] == s.rooms[id],
        s.next <= placed_upto(s, found, kept, n).next <= s.next + n,
    decreases n,
{
    if n > 0 {
        lemma_untouched(s, found, kept, n - 1, id);
        assert(kept[n - 1] != Some(id)) by {
            assert(kept.contains(kept[n - 1]));
        }
    }
}

/// A room that the edits do not concern stays as it is, under its id.
pub proof fn law_other_rooms_stay(
    old_state: RoomState,
    new_state: RoomState,
    events: Seq<RoomEvent>,
    edited: Seq<IVec3>,
    world: &BlockWorld,
    reg: &BlockRegistry,
    patterns: &RoomPatternRegistry,
    id: u32,
)
    requires
        sound_state(old_state),
        redetected(old_state, new_state, events, edited, world, reg, patterns),
        old_state.rooms.contains_key(id),
        !hit_by(old_state, edited, id),
    ensures
        new_state.rooms.contains_key(id),
        new_state.rooms[id] == old_state.rooms[id],
{
    let (fills, found, kept, lost) = choose|
        fills: Seq<FloorFill>,
        found: Seq<Found>,
        kept: Seq<Option<u32>>,
        lost: Seq<u32>,
    | #[trigger]
        detection_run(
            old_state,
            new_state,
            events,
            edited,
            world,
            reg,
            patterns,
            fills,
            found,
            kept,
            lost,
        );
    let base = without(old_state, gone_set(old_state, edited, kept));
    let hit = hit_set(old_state, edited);
    assert(!kept.contains(Some(id))) by {
        if kept.contains(Some(id)) {
            let k = choose|k: int| 0 <= k < kept.len() && kept[k] == Some(id);
            assert(may_keep(found, old_state.rooms, hit, k, kept[k]->0));
        }
    }
    assert(base.rooms.contains_key(id));
    lemma_untouched(base, found, kept, found.len() as int, id);
}

/// The events report the end of the room.
pub open spec fn destroyed_in(events: Seq<RoomEvent>, id: u32) -> bool {
    exists|i: int|
        0 <= i < events.len() && ((#[trigger] events[i]) matches RoomEvent::Destroyed { room }
            && room.0 == id)
}

proof fn lemma_destroyed_concat(a: Seq<RoomEvent>, b: Seq<RoomEvent>, id: u32)
    ensures
        destroyed_in(a + b, id) <==> destroyed_in(a, id) || destroyed_in(b, id),
{
    let all = a + b;
    if destroyed_in(a, id) {
        let i = choose|i: int|
            0 <= i < a.len() && ((#[trigger] a[i]) matches RoomEvent::Destroyed { room } && room.0
                == id);
        assert(all[i] == a[i]);
    }
    if destroyed_in(b, id) {
        let i = choose|i: int|
            0 <= i < b.len() && ((#[trigger] b[i]) matches RoomEvent::Destroyed { room } && room.0
                == id);
        assert(all[a.len() + i] == b[i]);
    }
    if destroyed_in(all, id) {
        let i = choose|i: int|
            0 <= i < all.len() && ((#[trigger] all[i]) matches RoomEvent::Destroyed { room }
                && room.0 == id);
        if i < a.len() {
            assert(a[i] == all[i]);
        } else {
            assert(b[i - a.len()] == all[i]);
        }
    }
}

/// A room whose end was not reported is still known to a listener.
proof fn lemma_heard_keeps(m: Map<u32, Seq<char>>, events: Seq<RoomEvent>, id: u32)
    requires
        m.contains_key(id),
        !destroyed_in(events, id),
    ensures
        heard_all(m, events).contains_key(id),
    decreases events.len(),
{
    if events.len() > 0 {
        let before = events.drop_last();
        assert(events =~= before + seq![events.last()]);
        lemma_destroyed_concat(before, seq![events.last()], id);
        assert(!(events.last() matches RoomEvent::Destroyed { room } && room.0 == id)) by {
            assert(events[events.len() - 1] == events.last());
        }
        lemma_heard_keeps(m, before, id);
    }
}

/// A room that is not there and whose id is taken does not come back.
proof fn lemma_stays_away(
    s: RoomState,
    found: Seq<Found>,
    kept: Seq<Option<u32>>,
    n: int,
    id: u32,
)
    requires
        0 <= n <= kept.len(),
        kept.len() == found.len(),
        !s.rooms.contains_key(id),
        id < s.next,
        s.next + found.len() <= u32::MAX,
        !kept.contains(Some(id)),
    ensures
        !placed_upto(s, found, kept, n).rooms.contains_key(id),
        s.next <= placed_upto(s, found, kept, n).next <= s.next + n,
    decreases n,
{
    if n > 0 {
        lemma_stays_away(s, found, kept, n - 1, id);
        assert(kept[n - 1] != Some(id)) by {
            assert(kept.contains(kept[n - 1]));
        }
    }
}

/// A room whose end placing regions reports was carried on without a pattern.
proof fn lemma_pattern_lost(
    s: RoomState,
    found: Seq<Found>,
    kept: Seq<Option<u32>>,
    n: int,
    id: u32,
)
    requires
        sound_state(s),
        0 <= n <= found.len(),
        kept.len() == found.len(),
        0 <= s.next,
        s.next + found.len() <= u32::MAX,
        forall|k: int| 0 <= k < found.len() ==> 0 < (#[trigger] found[k]).cells@.len() <= u32::MAX,
        forall|k: int|
            0 <= k < kept.len() && (#[trigger] kept[k]) is Some ==> s.rooms.contains_key(
                kept[k]->0,
            ),
        forall|p: int, q: int|
            #![trigger kept[p], kept[q]]
            0 <= p < q < kept.len() && kept[p] is Some ==> kept[p] != kept[q],
        destroyed_in(events_upto(s, found, kept, n), id),
    ensures
        exists|k: int| 0 <= k < n && #[trigger] kept[k] == Some(id),
        placed_upto(s, found, kept, n).rooms.contains_key(id),
        placed_upto(s, found, kept, n).rooms[id].pattern is None,
    decreases n,
{
    if n > 0 {
        let t = placed_upto(s, found, kept, n - 1);
        let e = event_of(t, found[n - 1], kept[n - 1]);
        lemma_heard_upto(s, found, kept, n - 1);
        lemma_destroyed_concat(events_upto(s, found, kept, n - 1), e, id);
        if destroyed_in(e, id) {
            assert(id == id_for(t, kept[n - 1]));
            assert(t.rooms.contains_key(id));
            assert(kept[n - 1] == Some(id));
        } else {
            lemma_pattern_lost(s, found, kept, n - 1, id);
            let k = choose|k: int| 0 <= k < n - 1 && #[trigger] kept[k] == Some(id);
            assert(kept[k] != kept[n - 1]);
            assert(id < t.next);
        }
    }
}

/// A room whose end a detection run reports matches nothing afterwards, and a
/// matched room whose end it does not report still matches.
pub proof fn law_reported_ends_are_real(
    old_state: RoomState,
    new_state: RoomState,
    events: Seq<RoomEvent>,
    edited: Seq<IVec3>,
    world: &BlockWorld,
    reg: &BlockRegistry,
    patterns: &RoomPatternRegistry,
    id: u32,
)
    requires
        sound_state(old_state),
        redetected(old_state, new_state, events, edited, world, reg, patterns),
    ensures
        destroyed_in(events, id) ==> !matched_in(new_state.rooms, id),
        matched_in(old_state.rooms, id) && !destroyed_in(events, id) ==> matched_in(
            new_state.rooms,
            id,
        ),
{
    law_events_tell_the_rooms(old_state, new_state, events, edited, world, reg, patterns);
    if matched_in(old_state.rooms, id) && !destroyed_in(events, id) {
        assert(matched(old_state.rooms).contains_key(id));
        lemma_heard_keeps(matched(old_state.rooms), events, id);
        assert(matched(new_state.rooms).contains_key(id));
    }
    if destroyed_in(events, id) {
        let (fills, found, kept, lost) = choose|
            fills: Seq<FloorFill>,
            found: Seq<Found>,
            kept: Seq<Option<u32>>,
            lost: Seq<u32>,
        | #[trigger]
            detection_run(
                old_state,
                new_state,
                events,
                edited,
                world,
                reg,
                patterns,
                fills,
                found,
                kept,
                lost,
            );
        let n = found.len() as int;
        let base = without(old_state, gone_set(old_state, edited, kept));
        let placing = events_upto(base, found, kept, n);
        lemma_without_sound(old_state, gone_set(old_state, edited, kept));
        lemma_run_sound(
            old_state,
            new_state,
            events,
            edited,
            world,
            reg,
            patterns,
            fills,
            found,
            kept,
            lost,
        );
        lemma_destroyed_concat(farewells(lost), placing, id);
        if destroyed_in(farewells(lost), id) {
            let i = choose|i: int|
                0 <= i < farewells(lost).len() && ((#[trigger] farewells(lost)[i]) matches
                RoomEvent::Destroyed { room } && room.0 == id);
            assert(lost[i] == id);
            assert(is_gone(old_state, edited, kept, lost[i]));
            assert(!base.rooms.contains_key(id));
            lemma_stays_away(base, found, kept, n, id);
        } else {
            lemma_pattern_lost(base, found, kept, n, id);
        }
    }
}

/// The id under which the `i`-th region was placed.
pub open spec fn id_given(s: RoomState, found: Seq<Found>, kept: Seq<Option<u32>>, i: int) -> u32 {
    id_for(placed_upto(s, found, kept, i), kept[i])
}

proof fn lemma_ids_given(
    s: RoomState,
    found: Seq<Found>,
    kept: Seq<Option<u32>>,
    i: int,
    n: int,
)
    requires
        0 <= i < n <= found.len(),
        kept.len() == found.len(),
        0 <= s.next,
        s.next + found.len() <= u32::MAX,
        forall|k: int| 0 <= k < kept.len() && (#[trigger] kept[k]) is Some ==> kept[k]->0 < s.next,
        forall|p: int, q: int|
            #![trigger kept[p], kept[q]]
            0 <= p < q < kept.len() && kept[p] is Some ==> kept[p] != kept[q],
        forall|p: int, q: int, c: IVec3|
            #![trigger found[p].cells@.contains(c), found[q]]
            0 <= p < q < found.len() && found[p].cells@.contains(c) ==> !found[q].cells@.contains(c),
    ensures
        ({
            let id = id_given(s, found, kept, i);
            let t = placed_upto(s, found, kept, n);
            &&& t.rooms.contains_key(id)
            &&& t.rooms[id] == room_of(found[i])
            &&& forall|c: IVec3| #[trigger]
                found[i].cells@.contains(c) ==> t.cells.contains_key(c) && t.cells[c] == id
            &&& s.next <= t.next <= s.next + n
            &&& id < t.next
            &&& kept[i] is Some ==> id == kept[i]->0
            &&& kept[i] is None ==> id >= s.next
        }),
    decreases n,
{
    let before = placed_upto(s, found, kept, n - 1);
    lemma_next_grows(s, found, kept, n - 1);
    lemma_next_grows(s, found, kept, i);
    if i < n - 1 {
        lemma_ids_given(s, found, kept, i, n - 1);
        let id = id_given(s, found, kept, i);
        let other = id_for(before, kept[n - 1]);
        assert(kept[i] is Some ==> kept[i] != kept[n - 1]);
        assert(other != id);
        let t = placed_upto(s, found, kept, n);
        assert forall|c: IVec3| #[trigger] found[i].cells@.contains(c) implies t.cells.contains_key(c)
            && t.cells[c] == id by {
            assert(!found[n - 1].cells@.contains(c));
        }
    }
}

proof fn lemma_next_grows(s: RoomState, found: Seq<Found>, kept: Seq<Option<u32>>, n: int)
    requires
        0 <= n,
    ensures
        s.next <= placed_upto(s, found, kept, n).next <= s.next + n,
    decreases n,
{
    if n > 0 {
        lemma_next_grows(s, found, kept, n - 1);
    }
}

/// Every region that detection finds is a room afterwards, with its floor, its
/// pattern and its box, and each cell of its floor belongs to that room. It has
/// the id of the room that it carries on, or one that no room had before.
pub proof fn law_found_regions_become_rooms(
    old_state: RoomState,
    new_state: RoomState,
    events: Seq<RoomEvent>,
    edited: Seq<IVec3>,
    world: &BlockWorld,
    reg: &BlockRegistry,
    patterns: &RoomPatternRegistry,
    fills: Seq<FloorFill>,
    found: Seq<Found>,
    kept: Seq<Option<u32>>,
    lost: Seq<u32>,
    i: int,
) -> (id: u32)
    requires
        sound_state(old_state),
        detection_run(
            old_state,
            new_state,
            events,
            edited,
            world,
            reg,
            patterns,
            fills,
            found,
            kept,
            lost,
        ),
        0 <= i < found.len(),
    ensures
        new_state.rooms.contains_key(id),
        new_state.rooms[id].floor_cells@ == fills[i].cells@,
        new_state.rooms[id].pattern == found[i].pattern,
        new_state.rooms[id].bbox_min == found[i].bbox_min,
        new_state.rooms[id].bbox_max == found[i].bbox_max,
        forall|c: IVec3| #[trigger]
            fills[i].cells@.contains(c) ==> new_state.cells.contains_key(c) && new_state.cells[c] == id,
        kept[i] is Some ==> id == kept[i]->0,
        kept[i] is None ==> !old_state.rooms.contains_key(id),
{
    let base = without(old_state, gone_set(old_state, edited, kept));
    lemma_run_sound(
        old_state,
        new_state,
        events,
        edited,
        world,
        reg,
        patterns,
        fills,
        found,
        kept,
        lost,
    );
    assert forall|k: int| 0 <= k < kept.len() && (#[trigger] kept[k]) is Some implies kept[k]->0
        < base.next by {
        assert(base.rooms.contains_key(kept[k]->0));
        assert(old_state.rooms.contains_key(kept[k]->0));
    }
    assert forall|p: int, q: int, c: IVec3|
        #![trigger found[p].cells@.contains(c), found[q]]
        0 <= p < q < found.len() && found[p].cells@.contains(c) implies !found[q].cells@.contains(
        c,
    ) by {
        assert(found_from(world, reg, patterns, fills[p], found[p]));
        assert(found_from(world, reg, patterns, fills[q], found[q]));
        assert(fills[p].cells@.contains(c));
        assert(!fills[q].cells@.contains(c));
    }
    lemma_ids_given(base, found, kept, i, found.len() as int);
    let id = id_given(base, found, kept, i);
    assert(found_from(world, reg, patterns, fills[i], found[i]));
    if kept[i] is None && old_state.rooms.contains_key(id) {
        assert(id < old_state.next);
    }
    id
}

/// After detection every edited cell, and every cell beside one, that is open
/// floor and not outdoors lies in a room that has it on its floor and matches
/// the best pattern for what it is.
pub proof fn law_edited_floor_gets_its_room(
    old_state: RoomState,
    new_state: RoomState,
    events: Seq<RoomEvent>,
    edited: Seq<IVec3>,
    world: &BlockWorld,
    reg: &BlockRegistry,
    patterns: &RoomPatternRegistry,
    s: IVec3,
) -> (sig: crate::rooms::signature::RoomSignature)
    requires
        sound_state(old_state),
        redetected(old_state, new_state, events, edited, world, reg, patterns),
        crate::rooms::detect::near_edit(edited, s),
        crate::rooms::detect::can_start(world, reg, s),
        !crate::rooms::detect::outdoors(world, reg, s),
    ensures
        new_state.cells.contains_key(s),
        new_state.rooms.contains_key(new_state.cells[s]),
        new_state.rooms[new_state.cells[s]].floor_cells@.contains(s),
        sig.cell_count == new_state.rooms[new_state.cells[s]].floor_cells@.len(),
        crate::rooms::detect::pattern_found(
            patterns,
            &sig,
            new_state.rooms[new_state.cells[s]].pattern,
        ),
{
    let (fills, found, kept, lost) = choose|
        fills: Seq<FloorFill>,
        found: Seq<Found>,
        kept: Seq<Option<u32>>,
        lost: Seq<u32>,
    | #[trigger]
        detection_run(
            old_state,
            new_state,
            events,
            edited,
            world,
            reg,
            patterns,
            fills,
            found,
            kept,
            lost,
        );
    let seeds = seed_set(old_state, edited);
    assert(seeds.contains(s));
    assert(crate::rooms::detect::filled(fills, s));
    let i = choose|i: int| 0 <= i < fills.len() && (#[trigger] fills[i]).cells@.contains(s);
    let id = law_found_regions_become_rooms(
        old_state,
        new_state,
        events,
        edited,
        world,
        reg,
        patterns,
        fills,
        found,
        kept,
        lost,
        i,
    );
    assert(found_from(world, reg, patterns, fills[i], found[i]));
    assert(fills[i].cells@.contains(s));
    found[i].signature
}

/// A room that the edits concern and that no region carries on is gone, and none
/// of its cells belongs to it any more.
pub proof fn law_rooms_without_successor_are_gone(
    old_state: RoomState,
    new_state: RoomState,
    events: Seq<RoomEvent>,
    edited: Seq<IVec3>,
    world: &BlockWorld,
    reg: &BlockRegistry,
    patterns: &RoomPatternRegistry,
    fills: Seq<FloorFill>,
    found: Seq<Found>,
    kept: Seq<Option<u32>>,
    lost: Seq<u32>,
    id: u32,
)
    requires
        sound_state(old_state),
        detection_run(
            old_state,
            new_state,
            events,
            edited,
            world,
            reg,
            patterns,
            fills,
            found,
            kept,
            lost,
        ),
        hit_by(old_state, edited, id),
        forall|k: int| 0 <= k < kept.len() ==> #[trigger] kept[k] != Some(id),
    ensures
        !new_state.rooms.contains_key(id),
        forall|c: IVec3| #[trigger] new_state.cells.contains_key(c) ==> new_state.cells[c] != id,
{
    let base = without(old_state, gone_set(old_state, edited, kept));
    assert(!kept.contains(Some(id)));
    assert(is_gone(old_state, edited, kept, id));
    assert(gone_set(old_state, edited, kept).contains(id));
    assert(!base.rooms.contains_key(id));
    assert(id < old_state.next);
    lemma_stays_gone(base, found, kept, found.len() as int, id);
}

proof fn lemma_stays_gone(
    s: RoomState,
    found: Seq<Found>,
    kept: Seq<Option<u32>>,
    n: int,
    id: u32,
)
    requires
        0 <= n <= kept.len(),
        kept.len() == found.len(),
        id < s.next,
        s.next + found.len() <= u32::MAX,
        !s.rooms.contains_key(id),
        forall|c: IVec3| #[trigger] s.cells.contains_key(c) ==> s.cells[c] != id,
        forall|k: int| 0 <= k < kept.len() ==> #[trigger] kept[k] != Some(id),
    ensures
        !placed_upto(s, found, kept, n).rooms.contains_key(id),
        forall|c: IVec3| #[trigger]
            placed_upto(s, found, kept, n).cells.contains_key(c) ==> placed_upto(
                s,
                found,
                kept,
                n,
            ).cells[c] != id,
    decreases n,
{
    if n > 0 {
        lemma_stays_gone(s, found, kept, n - 1, id);
        lemma_next_grows(s, found, kept, n - 1);
        assert(kept[n - 1] != Some(id));
    }
}

/// What placing a region reports follows from the pattern that its room had so
/// far and the one that it has now: nothing where they are alike, else that the
/// room was created, changed, or destroyed.
pub proof fn law_events_follow_the_patterns(s: RoomState, f: Found, kept: Option<u32>)
    ensures
        ({
            let id = match kept {
                Some(id) => id,
                None => s.next as u32,
            };
            let had: Option<String> = if s.rooms.contains_key(id) {
                s.rooms[id].pattern
            } else {
                None
            };
            let told = event_of(s, f, kept);
            &&& told.len() <= 1
            &&& told.len() == 0 <==> (had is None && f.pattern is None) || (had is Some && f.pattern
                is Some && had->0@ == f.pattern->0@)
            &&& told.len() == 1 && had is None ==> told[0] == (RoomEvent::Created {
                room: RoomId(id),
                pattern: f.pattern,
                signature: f.signature,
            })
            &&& told.len() == 1 && f.pattern is None ==> told[0] == (RoomEvent::Destroyed {
                room: RoomId(id),
            })
            &&& told.len() == 1 && had is Some && f.pattern is Some ==> told[0] == (
            RoomEvent::Changed {
                room: RoomId(id),
                from: had,
                to: f.pattern,
                signature: f.signature,
            })
        }),
{
}

} // verus!
