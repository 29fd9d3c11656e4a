use block_junk::blocks::{BlockSlot, Cardinal};
use block_junk::cells::IVec3;
use block_junk::protocol::{PlanKind, PoseBits, CHUNK_PADDED_CELLS};
use block_junk::save::{
    blob_file_for, layout_of, metadata_file_for, metadata_for, remap_block_slots, save_dir_for,
    save_root, sort_saves, validate_name, SaveError, SaveFile, SaveFileV12, SaveLayout,
    SaveMetadata, SavedCarry, SavedChunk, SavedPlanState, SAVE_VERSION, UNCLAIMED_PLAYER_ID,
};

fn pose(x: f32, y: f32, z: f32, yaw: f32) -> PoseBits {
    PoseBits { x: x.to_bits(), y: y.to_bits(), z: z.to_bits(), yaw: yaw.to_bits() }
}

fn old_save() -> SaveFileV12 {
    SaveFileV12 {
        version: 12,
        block_slots: vec![],
        edited_chunks: vec![],
        last_player_pose: None,
        npcs: vec![],
        world_clock: None,
        plans: vec![],
        world_items: vec![],
        last_player_carry: None,
        last_player_tool: None,
        craft_stations: vec![],
    }
}

#[test]
fn v12_savefile_migrates_to_players_table() {
    let mut old = old_save();
    old.block_slots = vec!["vanilla:empty".to_owned()];
    old.last_player_pose = Some(pose(9.0, 8.0, 7.0, 1.5));
    old.last_player_carry = Some(SavedCarry {
        item_id: "vanilla:stone_chunk".to_owned(),
        count: 2,
    });
    let migrated = old.migrate();
    assert_eq!(migrated.version, SAVE_VERSION);
    assert_eq!(migrated.block_slots, vec!["vanilla:empty".to_owned()]);
    assert_eq!(migrated.players.len(), 1);
    let p = &migrated.players[0];
    assert_eq!(p.client_id, UNCLAIMED_PLAYER_ID);
    assert_eq!(p.pose, pose(9.0, 8.0, 7.0, 1.5));
    assert_eq!(p.carry.as_ref().unwrap().item_id, "vanilla:stone_chunk");
    assert!(p.tool.is_none());
}

#[test]
fn poseless_v12_migrates_to_empty_players() {
    let migrated = old_save().migrate();
    assert!(migrated.players.is_empty());
}

fn remap_fixture(table: &[&str], cells: &[(usize, u16)], plan_slot: u16) -> SaveFile {
    let mut blocks = vec![BlockSlot(0); CHUNK_PADDED_CELLS];
    for &(idx, slot) in cells {
        blocks[idx] = BlockSlot(slot);
    }
    SaveFile {
        version: SAVE_VERSION,
        block_slots: table.iter().map(|s| s.to_string()).collect(),
        edited_chunks: vec![SavedChunk {
            coord: IVec3::new(0, 0, 0),
            blocks,
            entities: vec![],
        }],
        players: vec![],
        npcs: vec![],
        world_clock: None,
        plans: vec![(
            IVec3::new(1, 2, 3),
            SavedPlanState {
                kind: PlanKind::Build {
                    slot: BlockSlot(plan_slot),
                    orientation: Cardinal::North,
                },
                materials: vec![],
            },
        )],
        world_items: vec![],
        craft_stations: vec![],
    }
}

fn reordered_lookup(id: &str) -> Option<BlockSlot> {
    match id {
        "vanilla:empty" => Some(BlockSlot(0)),
        "a" => Some(BlockSlot(2)),
        "b" => Some(BlockSlot(1)),
        _ => None,
    }
}

#[test]
fn remap_rewrites_chunk_cells_and_build_plans() {
    let mut save = remap_fixture(&["vanilla:empty", "a", "b"], &[(10, 1), (11, 2)], 2);
    assert!(remap_block_slots(&mut save, reordered_lookup).is_ok());
    let blocks = &save.edited_chunks[0].blocks;
    assert_eq!(blocks[10], BlockSlot(2), "cell holding \"a\" follows its id");
    assert_eq!(blocks[11], BlockSlot(1), "cell holding \"b\" follows its id");
    assert_eq!(blocks[0], BlockSlot(0));
    let PlanKind::Build { slot, .. } = save.plans[0].1.kind else {
        panic!("plan kind changed shape");
    };
    assert_eq!(slot, BlockSlot(1), "Build plan follows \"b\"");
}

#[test]
fn remap_tolerates_missing_id_nothing_references() {
    let mut save = remap_fixture(&["vanilla:empty", "a", "b", "gone"], &[(5, 1)], 1);
    assert!(remap_block_slots(&mut save, reordered_lookup).is_ok());
    assert_eq!(save.edited_chunks[0].blocks[5], BlockSlot(2));
}

#[test]
fn remap_refuses_missing_id_in_use_and_lists_it() {
    let mut save = remap_fixture(&["vanilla:empty", "a", "gone"], &[(5, 2)], 1);
    match remap_block_slots(&mut save, reordered_lookup) {
        Err(SaveError::MissingBlockIds { ids }) => assert_eq!(ids, vec!["gone".to_owned()]),
        _ => panic!("expected MissingBlockIds"),
    }
    assert_eq!(save.edited_chunks[0].blocks[5], BlockSlot(2));
}

#[test]
fn remap_refuses_slot_beyond_table() {
    let mut save = remap_fixture(&["vanilla:empty", "a"], &[(5, 9)], 1);
    assert!(matches!(
        remap_block_slots(&mut save, reordered_lookup),
        Err(SaveError::SlotOutOfRange { slot: 9, table_len: 2 })
    ));
}

#[test]
fn remap_lists_missing_ids_once_and_sorted() {
    let mut save = remap_fixture(
        &["vanilla:empty", "z", "gone", "c"],
        &[(5, 1), (6, 2), (7, 1), (8, 3)],
        2,
    );
    match remap_block_slots(&mut save, |_| None) {
        Err(SaveError::MissingBlockIds { ids }) => assert_eq!(
            ids,
            vec![
                "c".to_owned(),
                "gone".to_owned(),
                "vanilla:empty".to_owned(),
                "z".to_owned()
            ]
        ),
        _ => panic!("expected MissingBlockIds"),
    }
}

#[test]
fn names_of_saves_are_plain() {
    for good in ["a", "My_World-2", "0", &"x".repeat(64)] {
        assert!(validate_name(good).is_ok(), "{good}");
    }
    for good in ["CONS", "COM0", "COM", "COM10", "LPT", "xCON", "nul1"] {
        assert!(validate_name(good).is_ok(), "{good}");
    }
    for bad in ["CON", "con", "Prn", "AUX", "nUl", "COM1", "com9", "LPT1", "lpt5"] {
        assert!(validate_name(bad).is_err(), "{bad}");
    }
    for bad in ["", ".", "..", "a/b", "a\\b", "a b", "ä", "a.b", &"x".repeat(65)] {
        match validate_name(bad) {
            Err(SaveError::InvalidName(n)) => assert_eq!(n, bad),
            _ => panic!("{bad} must be refused"),
        }
    }
}

#[test]
fn saves_live_in_their_own_directories() {
    assert_eq!(save_root(), "saves");
    assert_eq!(save_dir_for("w"), vec!["saves", "w"]);
    assert_eq!(metadata_file_for("w"), vec!["saves", "w", "metadata.json"]);
    assert_eq!(blob_file_for("w"), vec!["saves", "w", "save.bin"]);
}

fn meta(name: &str, created_at: u64, modified_at: u64, version: u32) -> SaveMetadata {
    SaveMetadata { name: name.to_owned(), created_at, modified_at, version }
}

#[test]
fn versions_decide_the_layout() {
    assert_eq!(layout_of(&meta("w", 0, 0, 13), "w").ok(), Some(SaveLayout::Current));
    assert_eq!(layout_of(&meta("w", 0, 0, 12), "w").ok(), Some(SaveLayout::SinglePlayer));
    match layout_of(&meta("w", 0, 0, 11), "w") {
        Err(SaveError::VersionMismatch { name, found, expected }) => {
            assert_eq!((name.as_str(), found, expected), ("w", 11, 13));
        }
        _ => panic!("version 11 must be refused"),
    }
}

#[test]
fn saving_again_keeps_the_creation_time() {
    let first = metadata_for("w", None, 100);
    assert_eq!((first.created_at, first.modified_at, first.version), (100, 100, 13));
    let second = metadata_for("w", Some(&first), 250);
    assert_eq!((second.created_at, second.modified_at), (100, 250));
}

#[test]
fn newest_saves_come_first() {
    let list = sort_saves(vec![
        meta("old", 0, 5, 13),
        meta("new", 0, 9, 13),
        meta("also_old", 0, 5, 13),
    ]);
    let names: Vec<&str> = list.iter().map(|m| m.name.as_str()).collect();
    assert_eq!(names, vec!["new", "old", "also_old"]);
}
