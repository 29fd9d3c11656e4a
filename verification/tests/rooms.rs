use block_junk::blocks::{BlockDef, BlockFlags, BlockRegistry, BlockSlot, BlockWorld};
use block_junk::cells::IVec3;
use block_junk::ord_map::CellMap;
use block_junk::room_sync::{sync_room_summaries, ClientRooms};
use block_junk::rooms::detect::{
    mark_dirty_from_edits, overlap_keeps_identity, DetectionDirty, RoomEvent, FLOOD_CAP,
};
use block_junk::rooms::fill::{flood_fill_floor, is_choke_along, is_floor_cell};
use block_junk::rooms::map::{floor_anchor, RoomId, RoomMap};
use block_junk::rooms::patterns::{
    match_pattern, Constraint, FloorKind, Millionths, RoomBootstrapError, RoomPattern,
    RoomPatternRegistry,
};
use block_junk::rooms::signature::{compute_signature, Fraction, PatternDomain, RoomSignature};
use block_junk::rooms::update::{process_dirty, redetect};

struct Slots {
    stone: BlockSlot,
    door: BlockSlot,
    bed: BlockSlot,
    seat: BlockSlot,
    table: BlockSlot,
}

fn block(id: &str, flags: BlockFlags, tags: &[&str], footprint: &[[i32; 3]]) -> BlockDef {
    let mut def = BlockDef::plain(id.to_owned(), flags);
    def.tags = tags.iter().map(|t| t.to_string()).collect();
    if !footprint.is_empty() {
        def.footprint = footprint.iter().map(|c| IVec3::new(c[0], c[1], c[2])).collect();
    }
    def
}

fn test_registry() -> (BlockRegistry, Slots) {
    let solid = BlockFlags { solid: true, support_below: true, ..BlockFlags::default() };
    let reg = BlockRegistry {
        defs: vec![
            block("vanilla:empty", BlockFlags::default(), &[], &[]),
            block(
                "test:stone",
                BlockFlags {
                    solid: true,
                    room_boundary: true,
                    support_below: true,
                    ..BlockFlags::default()
                },
                &[],
                &[],
            ),
            block(
                "test:door",
                BlockFlags {
                    room_boundary: true,
                    walkable_boundary: true,
                    ..BlockFlags::default()
                },
                &[],
                &[],
            ),
            block("test:bed", solid, &["vanilla:bed"], &[[0, 0, 0], [1, 0, 0]]),
            block("test:seat", solid, &["vanilla:seat"], &[]),
            block("test:table", solid, &["vanilla:table"], &[[0, 0, 0], [1, 0, 0]]),
        ],
    };
    let slot = |id: &str| reg.slot_of(&id.to_owned()).unwrap();
    let slots = Slots {
        stone: slot("test:stone"),
        door: slot("test:door"),
        bed: slot("test:bed"),
        seat: slot("test:seat"),
        table: slot("test:table"),
    };
    (reg, slots)
}

fn pattern(id: &str, parent: Option<&str>, priority: i32, constraints: Vec<Constraint>) -> RoomPattern {
    RoomPattern {
        id: id.to_owned(),
        display_name: id.to_owned(),
        parent: parent.map(|p| p.to_owned()),
        domain: PatternDomain::Volumetric,
        constraints,
        priority,
    }
}

fn vanilla_like_patterns() -> RoomPatternRegistry {
    match RoomPatternRegistry::build(vec![
        pattern(
            "enclosed_space",
            None,
            0,
            vec![
                Constraint::FloorArea { min: Some(4), max: Some(4096) },
                Constraint::EnclosureHeight { min: Some(1), max: None },
                Constraint::DoorCount { min: 1, max: None },
            ],
        ),
        pattern(
            "walled_yard",
            Some("enclosed_space"),
            0,
            vec![
                Constraint::RoofFraction { min: None, max: Some(Millionths(500000)) },
                Constraint::FloorFraction { surface: FloorKind::Solid, min: Millionths(600000) },
            ],
        ),
        pattern(
            "small_house",
            Some("enclosed_space"),
            1,
            vec![
                Constraint::HasRoof { required: true },
                Constraint::EnclosureHeight { min: Some(2), max: None },
                Constraint::FloorArea { min: None, max: Some(50) },
                Constraint::FloorFraction { surface: FloorKind::Solid, min: Millionths(800000) },
            ],
        ),
        pattern(
            "bedroom",
            Some("small_house"),
            2,
            vec![Constraint::TagCount { tag: "vanilla:bed".to_owned(), min: 1, max: None }],
        ),
        pattern(
            "dining",
            Some("small_house"),
            3,
            vec![
                Constraint::TagCount { tag: "vanilla:table".to_owned(), min: 1, max: None },
                Constraint::AdjacentPair {
                    a: "vanilla:seat".to_owned(),
                    b: "vanilla:table".to_owned(),
                    min: 2,
                },
            ],
        ),
    ]) {
        Ok(reg) => reg,
        Err(_) => panic!("test patterns build"),
    }
}

fn pair_count(sig: &RoomSignature, a: &str, b: &str) -> u32 {
    sig.adjacent_pairs
        .iter()
        .find(|p| p.a == a && p.b == b)
        .map(|p| p.count)
        .unwrap_or(0)
}

fn set(world: &mut BlockWorld, x: i32, y: i32, z: i32, slot: BlockSlot) {
    world.set(IVec3::new(x, y, z), slot);
}

fn clear(world: &mut BlockWorld, x: i32, y: i32, z: i32) {
    world.clear(IVec3::new(x, y, z));
}

/// Stone ground at y = 0 over a 6 x 6 square, and a stone wall ring on its
/// border up to `wall_h`. Neither roof nor door.
fn walled_box(world: &mut BlockWorld, s: &Slots, wall_h: i32) {
    for x in 0..=5 {
        for z in 0..=5 {
            set(world, x, 0, z, s.stone);
            if x == 0 || x == 5 || z == 0 || z == 5 {
                for y in 1..=wall_h {
                    set(world, x, y, z, s.stone);
                }
            }
        }
    }
}

fn flat_roof(world: &mut BlockWorld, s: &Slots, y: i32) {
    for x in 0..=5 {
        for z in 0..=5 {
            set(world, x, y, z, s.stone);
        }
    }
}

fn seed() -> IVec3 {
    IVec3::new(2, 1, 2)
}

/// Fill, signature and match from a floor cell.
fn detect(
    world: &BlockWorld,
    reg: &BlockRegistry,
    patterns: &RoomPatternRegistry,
    from: IVec3,
) -> Option<(RoomSignature, Option<String>)> {
    assert!(is_floor_cell(from, world, reg));
    let mut visited = CellMap::new();
    let fill = flood_fill_floor(from, world, reg, FLOOD_CAP, &mut visited)?;
    let (sig, _) = compute_signature(&fill, world, reg);
    let found = match_pattern(&sig, patterns);
    Some((sig, found))
}

fn pattern_name(p: &Option<String>) -> &str {
    p.as_deref().unwrap_or("<none>")
}

#[test]
fn box_with_door_block_is_small_house() {
    let (reg, s) = test_registry();
    let patterns = vanilla_like_patterns();
    let mut w = BlockWorld::new();
    walled_box(&mut w, &s, 2);
    flat_roof(&mut w, &s, 3);
    set(&mut w, 0, 1, 2, s.door);
    let (sig, pat) = detect(&w, &reg, &patterns, seed()).expect("fill succeeds");
    assert_eq!(sig.door_count, Some(1));
    assert_eq!(sig.enclosure_height, Some(2));
    assert_eq!(sig.has_roof, Some(true));
    assert_eq!(pattern_name(&pat), "small_house");
}

#[test]
fn open_doorway_bounds_the_fill_and_counts_as_a_door() {
    let (reg, s) = test_registry();
    let patterns = vanilla_like_patterns();
    let mut w = BlockWorld::new();
    walled_box(&mut w, &s, 2);
    flat_roof(&mut w, &s, 3);
    clear(&mut w, 0, 1, 2);
    clear(&mut w, 0, 2, 2);
    let (sig, pat) = detect(&w, &reg, &patterns, seed()).expect("fill must not leak");
    assert_eq!(sig.cell_count, 16, "fill stayed inside the room");
    assert_eq!(sig.door_count, Some(1), "virtual doorway counted");
    assert_eq!(pattern_name(&pat), "small_house");
}

#[test]
fn sealed_box_without_any_door_matches_nothing() {
    let (reg, s) = test_registry();
    let patterns = vanilla_like_patterns();
    let mut w = BlockWorld::new();
    walled_box(&mut w, &s, 2);
    flat_roof(&mut w, &s, 3);
    let (sig, pat) = detect(&w, &reg, &patterns, seed()).expect("fill succeeds");
    assert_eq!(sig.door_count, Some(0));
    assert_eq!(pat, None, "no access point, not a room");
}

#[test]
fn pitched_roof_is_still_a_house() {
    let (reg, s) = test_registry();
    let patterns = vanilla_like_patterns();
    let mut w = BlockWorld::new();
    walled_box(&mut w, &s, 2);
    set(&mut w, 0, 1, 2, s.door);
    for x in 0..=5 {
        for z in 0..=5 {
            set(&mut w, x, if x <= 2 { 3 } else { 4 }, z, s.stone);
        }
    }
    let (sig, pat) = detect(&w, &reg, &patterns, seed()).expect("fill succeeds");
    assert_eq!(sig.has_roof, Some(true), "per-column roof sees the pitch");
    assert_eq!(pattern_name(&pat), "small_house");
}

#[test]
fn skylight_hole_is_still_a_house() {
    let (reg, s) = test_registry();
    let patterns = vanilla_like_patterns();
    let mut w = BlockWorld::new();
    walled_box(&mut w, &s, 2);
    flat_roof(&mut w, &s, 3);
    set(&mut w, 0, 1, 2, s.door);
    clear(&mut w, 2, 3, 2);
    let (sig, pat) = detect(&w, &reg, &patterns, seed()).expect("fill succeeds");
    let fraction = sig.roof_fraction.expect("fraction populated");
    assert_eq!(fraction, Fraction { part: 15, whole: 16 }, "15 of 16 columns roofed");
    assert_eq!(sig.has_roof, Some(true));
    assert_eq!(pattern_name(&pat), "small_house");
}

#[test]
fn air_gap_above_door_block_does_not_unroof_the_house() {
    let (reg, s) = test_registry();
    let patterns = vanilla_like_patterns();
    let mut w = BlockWorld::new();
    walled_box(&mut w, &s, 2);
    flat_roof(&mut w, &s, 3);
    set(&mut w, 0, 1, 2, s.door);
    clear(&mut w, 0, 2, 2);
    let (sig, pat) = detect(&w, &reg, &patterns, seed()).expect("fill succeeds");
    assert_eq!(sig.has_roof, Some(true));
    assert_eq!(sig.enclosure_height, Some(2));
    assert_eq!(pattern_name(&pat), "small_house");
}

#[test]
fn crawlspace_is_not_a_room_at_all() {
    let (reg, s) = test_registry();
    let patterns = vanilla_like_patterns();
    let mut w = BlockWorld::new();
    walled_box(&mut w, &s, 1);
    flat_roof(&mut w, &s, 2);
    set(&mut w, 0, 1, 2, s.door);
    let (sig, pat) = detect(&w, &reg, &patterns, seed()).expect("fill succeeds");
    assert_eq!(sig.enclosure_height, Some(1));
    assert_eq!(sig.has_roof, Some(true), "roofed, just too low");
    assert_eq!(sig.walkable_count, Some(0), "nowhere to stand");
    assert_eq!(pat, None);
}

#[test]
fn open_yard_with_low_walls_is_walled_yard() {
    let (reg, s) = test_registry();
    let patterns = vanilla_like_patterns();
    let mut w = BlockWorld::new();
    walled_box(&mut w, &s, 1);
    clear(&mut w, 0, 1, 2);
    let (sig, pat) = detect(&w, &reg, &patterns, seed()).expect("fill succeeds");
    assert_eq!(sig.roof_fraction.map(|f| f.part), Some(0));
    assert_eq!(sig.enclosure_height, Some(1));
    assert_eq!(sig.door_count, Some(1));
    assert_eq!(pattern_name(&pat), "walled_yard");
}

#[test]
fn half_roofed_shell_is_neither_yard_nor_house() {
    let (reg, s) = test_registry();
    let patterns = vanilla_like_patterns();
    let mut w = BlockWorld::new();
    walled_box(&mut w, &s, 2);
    set(&mut w, 0, 1, 2, s.door);
    for x in 1..=2 {
        for z in 1..=4 {
            set(&mut w, x, 3, z, s.stone);
        }
    }
    set(&mut w, 3, 3, 1, s.stone);
    set(&mut w, 3, 3, 2, s.stone);
    let (sig, pat) = detect(&w, &reg, &patterns, seed()).expect("fill succeeds");
    let fraction = sig.roof_fraction.expect("fraction populated");
    assert_eq!(fraction, Fraction { part: 10, whole: 16 });
    assert!((fraction.part as f32 / fraction.whole as f32 - 0.625).abs() < 1e-6);
    assert_eq!(sig.has_roof, Some(false));
    assert_eq!(pattern_name(&pat), "enclosed_space");
}

#[test]
fn two_wide_gap_leaks_the_fill() {
    let (reg, s) = test_registry();
    let mut w = BlockWorld::new();
    for x in -8..=13 {
        for z in -8..=13 {
            set(&mut w, x, 0, z, s.stone);
        }
    }
    walled_box(&mut w, &s, 2);
    flat_roof(&mut w, &s, 3);
    clear(&mut w, 0, 1, 2);
    clear(&mut w, 0, 1, 3);
    let mut visited = CellMap::new();
    let fill = flood_fill_floor(seed(), &w, &reg, 200, &mut visited);
    assert!(fill.is_none(), "2-wide breach must leak to the cap");
}

#[test]
fn bed_in_a_house_makes_a_bedroom() {
    let (reg, s) = test_registry();
    let patterns = vanilla_like_patterns();
    let mut w = BlockWorld::new();
    walled_box(&mut w, &s, 2);
    flat_roof(&mut w, &s, 3);
    set(&mut w, 0, 1, 2, s.door);
    set(&mut w, 2, 1, 3, s.bed);
    set(&mut w, 3, 1, 3, s.bed);
    let (sig, pat) = detect(&w, &reg, &patterns, seed()).expect("fill succeeds");
    assert_eq!(sig.cell_count, 14, "bed cells left the floor set");
    let beds = sig.tag_counts.iter().find(|tc| tc.tag == "vanilla:bed").map(|tc| tc.count);
    assert_eq!(beds, Some(1), "2-cell bed counts as ONE bed");
    assert_eq!(pattern_name(&pat), "bedroom");
}

#[test]
fn seats_flanking_a_table_make_a_dining_room() {
    let (reg, s) = test_registry();
    let patterns = vanilla_like_patterns();
    let mut w = BlockWorld::new();
    walled_box(&mut w, &s, 2);
    flat_roof(&mut w, &s, 3);
    set(&mut w, 0, 1, 2, s.door);
    set(&mut w, 2, 1, 2, s.table);
    set(&mut w, 3, 1, 2, s.table);
    set(&mut w, 2, 1, 3, s.seat);
    set(&mut w, 3, 1, 3, s.seat);
    let (sig, pat) = detect(&w, &reg, &patterns, IVec3::new(1, 1, 1)).expect("fill succeeds");
    assert_eq!(
        pair_count(&sig, "vanilla:seat", "vanilla:table"),
        2,
        "both seats touch the table"
    );
    assert_eq!(
        pair_count(&sig, "vanilla:table", "vanilla:seat"),
        1,
        "the table itself is ONE placement even with both cells touched"
    );
    assert_eq!(pattern_name(&pat), "dining");
}

#[test]
fn seat_across_the_room_does_not_count_toward_dining() {
    let (reg, s) = test_registry();
    let patterns = vanilla_like_patterns();
    let mut w = BlockWorld::new();
    walled_box(&mut w, &s, 2);
    flat_roof(&mut w, &s, 3);
    set(&mut w, 0, 1, 2, s.door);
    set(&mut w, 2, 1, 2, s.table);
    set(&mut w, 3, 1, 2, s.table);
    set(&mut w, 2, 1, 3, s.seat);
    set(&mut w, 4, 1, 4, s.seat);
    let (sig, pat) = detect(&w, &reg, &patterns, IVec3::new(1, 1, 1)).expect("fill succeeds");
    assert_eq!(pair_count(&sig, "vanilla:seat", "vanilla:table"), 1);
    assert_eq!(
        pattern_name(&pat),
        "small_house",
        "one adjacent seat is not a dining room"
    );
}

#[test]
fn corridor_cell_reads_as_choke() {
    let (reg, s) = test_registry();
    let mut w = BlockWorld::new();
    for x in 0..=6 {
        set(&mut w, x, 0, 0, s.stone);
        set(&mut w, x, 1, -1, s.stone);
        set(&mut w, x, 1, 1, s.stone);
    }
    assert!(is_choke_along(IVec3::new(3, 1, 0), IVec3::new(0, 0, 1), &w, &reg));
    assert!(!is_choke_along(IVec3::new(3, 1, 0), IVec3::new(1, 0, 0), &w, &reg));
}

#[test]
fn overlap_identity_thresholds() {
    assert!(overlap_keeps_identity(15, 16, 15));
    assert!(!overlap_keeps_identity(0, 16, 16));
    assert!(overlap_keeps_identity(8, 16, 8));
    assert!(!overlap_keeps_identity(2, 40, 30));
}

fn house(s: &Slots) -> BlockWorld {
    let mut w = BlockWorld::new();
    walled_box(&mut w, s, 2);
    flat_roof(&mut w, s, 3);
    set(&mut w, 0, 1, 2, s.door);
    w
}

#[test]
fn rooms_are_created_changed_and_destroyed() {
    let (reg, s) = test_registry();
    let patterns = vanilla_like_patterns();
    let mut w = house(&s);
    let mut rooms = RoomMap::default();
    let events = redetect(&vec![seed()], &w, &reg, &patterns, &mut rooms).expect("ids suffice");
    assert_eq!(events.len(), 1);
    let id = match &events[0] {
        RoomEvent::Created { room, pattern, .. } => {
            assert_eq!(pattern_name(pattern), "small_house");
            *room
        }
        _ => panic!("expected a new room"),
    };
    assert_eq!(rooms.summary_of(id).map(|r| r.floor_area), Some(16));

    set(&mut w, 2, 1, 3, s.bed);
    set(&mut w, 3, 1, 3, s.bed);
    let edited = vec![IVec3::new(2, 1, 3), IVec3::new(3, 1, 3)];
    let events = redetect(&edited, &w, &reg, &patterns, &mut rooms).expect("ids suffice");
    assert_eq!(events.len(), 1);
    match &events[0] {
        RoomEvent::Changed { room, from, to, .. } => {
            assert_eq!(*room, id, "identity survives furnishing");
            assert_eq!(pattern_name(from), "small_house");
            assert_eq!(pattern_name(to), "bedroom");
        }
        _ => panic!("expected a change"),
    }

    for x in 1..=4 {
        for z in 1..=4 {
            set(&mut w, x, 1, z, s.stone);
        }
    }
    let edited = vec![seed()];
    let events = redetect(&edited, &w, &reg, &patterns, &mut rooms).expect("ids suffice");
    assert_eq!(events.len(), 1);
    match &events[0] {
        RoomEvent::Destroyed { room } => assert_eq!(*room, id),
        _ => panic!("expected the end of the room"),
    }
    assert!(rooms.summary_of(id).is_none());
    assert!(rooms.matched_ids().is_empty());
}

#[test]
fn clients_follow_the_matched_rooms() {
    let (reg, s) = test_registry();
    let patterns = vanilla_like_patterns();
    let mut w = house(&s);
    let mut rooms = RoomMap::default();
    let mut table = ClientRooms::new();
    let events = redetect(&vec![seed()], &w, &reg, &patterns, &mut rooms).expect("ids suffice");
    let ids: Vec<RoomId> = rooms.matched_ids().into_iter().map(RoomId).collect();
    sync_room_summaries(&events, &ids, &rooms, &mut table);
    assert_eq!(table.room_at(seed()).map(|r| r.pattern.as_str()), Some("small_house"));

    set(&mut w, 2, 1, 3, s.bed);
    set(&mut w, 3, 1, 3, s.bed);
    let edited = vec![IVec3::new(2, 1, 3), IVec3::new(3, 1, 3)];
    let events = redetect(&edited, &w, &reg, &patterns, &mut rooms).expect("ids suffice");
    sync_room_summaries(&events, &ids, &rooms, &mut table);
    assert_eq!(table.room_at(seed()).map(|r| r.pattern.as_str()), Some("bedroom"));
    assert_eq!(table.room_at(seed()).map(|r| r.floor_area), Some(14));

    for x in 1..=4 {
        for z in 1..=4 {
            set(&mut w, x, 1, z, s.stone);
        }
    }
    let events = redetect(&vec![seed()], &w, &reg, &patterns, &mut rooms).expect("ids suffice");
    sync_room_summaries(&events, &ids, &rooms, &mut table);
    assert!(table.room_at(seed()).is_none());
}

#[test]
fn detection_waits_for_edits_to_settle() {
    let (reg, s) = test_registry();
    let patterns = vanilla_like_patterns();
    let w = house(&s);
    let mut rooms = RoomMap::default();
    let mut dirty = DetectionDirty::default();
    mark_dirty_from_edits(&vec![seed()], 1000, &mut dirty);
    assert!(process_dirty(&mut dirty, 1100, &w, &reg, &patterns, &mut rooms).is_none());
    assert!(rooms.matched_ids().is_empty());
    mark_dirty_from_edits(&vec![seed()], 1200, &mut dirty);
    assert!(process_dirty(&mut dirty, 1300, &w, &reg, &patterns, &mut rooms).is_none());
    let events = process_dirty(&mut dirty, 1450, &w, &reg, &patterns, &mut rooms);
    assert_eq!(events.map(|e| e.len()), Some(1));
    assert_eq!(rooms.matched_ids().len(), 1);
    assert!(process_dirty(&mut dirty, 9000, &w, &reg, &patterns, &mut rooms).is_none());
}

#[test]
fn steady_edits_do_not_put_detection_off_forever() {
    let (reg, s) = test_registry();
    let patterns = vanilla_like_patterns();
    let w = house(&s);
    let mut rooms = RoomMap::default();
    let mut dirty = DetectionDirty::default();
    let mut ran_at = None;
    for step in 0..20u64 {
        let now = 1000 + step * 100;
        mark_dirty_from_edits(&vec![seed()], now, &mut dirty);
        if process_dirty(&mut dirty, now, &w, &reg, &patterns, &mut rooms).is_some() {
            ran_at = Some(now);
            break;
        }
    }
    assert_eq!(ran_at, Some(1800));
}

#[test]
fn pattern_families_are_checked() {
    let build = |list: Vec<RoomPattern>| RoomPatternRegistry::build(list).err();
    assert!(matches!(
        build(vec![pattern("a", None, 0, vec![]), pattern("a", None, 0, vec![])]),
        Some(RoomBootstrapError::Duplicate(_))
    ));
    assert!(matches!(
        build(vec![pattern("a", Some("nobody"), 0, vec![])]),
        Some(RoomBootstrapError::UnknownParent { .. })
    ));
    assert!(matches!(
        build(vec![
            pattern("a", Some("b"), 0, vec![]),
            pattern("b", Some("a"), 0, vec![])
        ]),
        Some(RoomBootstrapError::Cycle(_))
    ));
    let mut road = pattern("road", Some("a"), 0, vec![]);
    road.domain = PatternDomain::Connective;
    match build(vec![pattern("a", None, 0, vec![]), road]) {
        Some(RoomBootstrapError::DomainMismatch { child, child_domain, parent, parent_domain }) => {
            assert_eq!((child.as_str(), parent.as_str()), ("road", "a"));
            assert_eq!(child_domain, PatternDomain::Connective);
            assert_eq!(parent_domain, PatternDomain::Volumetric);
        }
        _ => panic!("domains differ"),
    }
    let reg = vanilla_like_patterns();
    assert_eq!(reg.pattern_count(), 5);
    assert_eq!(reg.depth_of(&"bedroom".to_owned()), Some(2));
    assert_eq!(reg.depth_of(&"enclosed_space".to_owned()), Some(0));
    assert_eq!(reg.depth_of(&"nowhere".to_owned()), None);
    assert_eq!(reg.get(&"dining".to_owned()).map(|p| p.priority), Some(3));
}

#[test]
fn floor_cells_of_a_room_are_picked_evenly() {
    let (reg, s) = test_registry();
    let patterns = vanilla_like_patterns();
    let w = house(&s);
    let mut rooms = RoomMap::default();
    let _ = redetect(&vec![seed()], &w, &reg, &patterns, &mut rooms);
    let id = RoomId(rooms.matched_ids()[0]);
    let mut seen = std::collections::HashSet::new();
    for k in 0..16u32 {
        let c = rooms
            .random_floor_cell_in_same_room(seed(), k * 0x1000_0000 + 5)
            .expect("seed is floor");
        seen.insert((c.x, c.y, c.z));
    }
    assert_eq!(seen.len(), 16);
    assert_eq!(rooms.random_floor_cell_in_same_room(IVec3::new(90, 1, 90), 0), None);
    let (lo, hi) = rooms.room_bbox(id).unwrap();
    assert!(seed().inside(lo, hi));
}

#[test]
fn anchors_are_nearest_to_the_exact_centre() {
    let at = |x: i32, z: i32| IVec3::new(x, 0, z);
    assert_eq!(floor_anchor(&vec![]), None);
    assert_eq!(floor_anchor(&vec![at(0, 0), at(1, 0), at(1, 1)]), Some(at(1, 0)));
    assert_eq!(floor_anchor(&vec![at(0, 0), at(-1, 0), at(-1, -1)]), Some(at(-1, 0)));
    assert_eq!(floor_anchor(&vec![at(0, 0), at(1, 0), at(2, 0)]), Some(at(1, 0)));
    assert_eq!(floor_anchor(&vec![at(0, 0), at(1, 0)]), Some(at(0, 0)));
}

#[test]
fn unmatched_regions_offer_no_floor() {
    let (reg, s) = test_registry();
    let none = match RoomPatternRegistry::build(vec![]) {
        Ok(r) => r,
        Err(_) => panic!("an empty registry builds"),
    };
    let w = house(&s);
    let mut rooms = RoomMap::default();
    let _ = redetect(&vec![seed()], &w, &reg, &none, &mut rooms);
    assert!(rooms.matched_ids().is_empty());
    assert_eq!(rooms.random_floor_cell_in_same_room(seed(), 0), None);
}

#[test]
fn floor_near_the_limits_is_floor() {
    let (reg, s) = test_registry();
    let mut w = BlockWorld::new();
    let edge = i32::MAX;
    for x in 0..4 {
        set(&mut w, edge - x, 0, 0, s.stone);
    }
    assert!(is_floor_cell(IVec3::new(edge - 2, 1, 0), &w, &reg));
    assert!(is_floor_cell(IVec3::new(edge - 3, 1, 0), &w, &reg));
    set(&mut w, 0, edge - 36, 0, s.stone);
    assert!(is_floor_cell(IVec3::new(0, edge - 35, 0), &w, &reg));
}
