use block_junk::blocks::{
    BlockDef, BlockFlags, BlockRegistry, BlockSlot, BlockWorld, Cardinal, MaterialNeed,
};
use block_junk::cells::IVec3;
use block_junk::items::{ItemDef, ItemRegistry, ItemSlot};
use block_junk::npc::NpcId;
use block_junk::plan_claims::PlanClaims;
use block_junk::plan_ghosts::{ghost_box, OverlayDesired, PlanGhostIndex};
use block_junk::plans::drag::{
    commit_drag, drag_preview_box, rect_cells_for_preview, rect_cells_on_plane, ActiveDrag,
    DragVerb, FaceHit, PlanButtons, PlanCursor, PlanDragState, PlanHit,
};
use block_junk::plans::{
    apply_plan_edit, apply_plan_edit_batch, build_initial_materials, receive_plan_edit,
    receive_plan_edit_batch, EditVerdict, Plans,
};
use block_junk::protocol::{
    BoundedVec, MaterialEntry, PlanEdit, PlanEditBatch, PlanKind, PlanState,
};

#[test]
fn rect_cells_on_plane_inclusive_range() {
    let cells = rect_cells_on_plane(IVec3::new(0, 0, 0), IVec3::new(2, 0, 1));
    assert_eq!(cells.len(), 6);
    assert!(cells.contains(&IVec3::new(0, 0, 0)));
    assert!(cells.contains(&IVec3::new(2, 0, 1)));
    assert!(cells.contains(&IVec3::new(1, 0, 1)));
}

#[test]
fn rectangles_do_not_care_about_the_corner_order() {
    let a = IVec3::new(2, 0, -1);
    let b = IVec3::new(0, 1, 1);
    assert_eq!(rect_cells_on_plane(a, b), rect_cells_on_plane(b, a));
    assert_eq!(rect_cells_on_plane(a, b).len(), 18);
    assert_eq!(rect_cells_on_plane(a, a), vec![a]);
}

fn build(slot: u16) -> PlanKind {
    PlanKind::Build { slot: BlockSlot(slot), orientation: Cardinal::North }
}

fn registries() -> (BlockRegistry, ItemRegistry) {
    let mut house = BlockDef::plain("house".to_owned(), BlockFlags::default());
    house.materials = vec![
        MaterialNeed { item: "log".to_owned(), count: 2 },
        MaterialNeed { item: "unknown".to_owned(), count: 7 },
        MaterialNeed { item: "stone".to_owned(), count: 3 },
    ];
    let blocks = BlockRegistry {
        defs: vec![BlockDef::plain("vanilla:empty".to_owned(), BlockFlags::default()), house],
    };
    let items = ItemRegistry {
        defs: vec![
            ItemDef { id: "stone".to_owned(), tool_tags: vec![] },
            ItemDef { id: "log".to_owned(), tool_tags: vec![] },
        ],
    };
    (blocks, items)
}

fn house_materials() -> Vec<MaterialEntry> {
    vec![
        MaterialEntry { item: ItemSlot(1), needed: 2, present: 0 },
        MaterialEntry { item: ItemSlot(0), needed: 3, present: 0 },
    ]
}

#[test]
fn fresh_plans_need_the_known_materials_of_their_block() {
    let (blocks, items) = registries();
    assert_eq!(build_initial_materials(Some(build(1)), &blocks, &items), house_materials());
    assert!(build_initial_materials(Some(PlanKind::Remove), &blocks, &items).is_empty());
    assert!(build_initial_materials(None, &blocks, &items).is_empty());
}

#[test]
fn deposits_fill_the_need_and_no_more() {
    let mut plans = Plans::new();
    let cell = IVec3::new(0, 0, 0);
    plans.set(cell, PlanState::new(build(1), house_materials()));
    assert_eq!(plans.deposit(cell, ItemSlot(1), 5), 2);
    assert_eq!(plans.deposit(cell, ItemSlot(1), 5), 0);
    assert_eq!(plans.deposit(cell, ItemSlot(0), 1), 1);
    assert_eq!(plans.deposit(cell, ItemSlot(9), 1), 0);
    assert_eq!(plans.deposit(IVec3::new(9, 9, 9), ItemSlot(0), 1), 0);
    let plan = plans.get(cell).unwrap();
    assert_eq!(plan.remaining_for(ItemSlot(0)), 2);
    assert!(!plan.is_satisfied());
    assert_eq!(plans.deposit(cell, ItemSlot(0), 2), 2);
    assert!(plans.get(cell).unwrap().is_satisfied());
}

#[test]
fn single_edits_are_checked() {
    let (blocks, items) = registries();
    let mut world = BlockWorld::new();
    let full = IVec3::new(1, 0, 0);
    let free = IVec3::new(2, 0, 0);
    world.set(full, BlockSlot(1));
    let mut plans = Plans::new();
    let edit = |cell: IVec3, kind: Option<PlanKind>| PlanEdit { cell, kind, materials: vec![] };

    let r = receive_plan_edit(&mut plans, &edit(free, Some(build(1))), false, &world, &blocks, &items);
    assert!(matches!(r, EditVerdict::OutOfReach));
    let r = receive_plan_edit(&mut plans, &edit(full, Some(build(1))), true, &world, &blocks, &items);
    assert!(matches!(r, EditVerdict::Ignored));
    let r = receive_plan_edit(
        &mut plans,
        &edit(free, Some(PlanKind::Remove)),
        true,
        &world,
        &blocks,
        &items,
    );
    assert!(matches!(r, EditVerdict::Ignored));
    assert_eq!(plans.len(), 0);

    match receive_plan_edit(&mut plans, &edit(free, Some(build(1))), true, &world, &blocks, &items) {
        EditVerdict::Accepted(reply) => {
            assert_eq!(reply.cell, free);
            assert_eq!(reply.kind, Some(build(1)));
            assert_eq!(reply.materials, house_materials());
            let mut mirror = Plans::new();
            apply_plan_edit(&mut mirror, &reply);
            assert_eq!(mirror.kind(free), plans.kind(free));
        }
        _ => panic!("a free cell can be built on"),
    }
    let r = receive_plan_edit(&mut plans, &edit(free, None), true, &world, &blocks, &items);
    assert!(matches!(r, EditVerdict::Accepted(_)));
    assert_eq!(plans.len(), 0);
}

#[test]
fn batches_keep_what_makes_sense_and_name_the_first_far_cell() {
    let (blocks, items) = registries();
    let mut world = BlockWorld::new();
    world.set(IVec3::new(1, 0, 0), BlockSlot(1));
    let cells: Vec<IVec3> = (0..4).map(|x| IVec3::new(x, 0, 0)).collect();
    let batch = PlanEditBatch { kind: Some(build(1)), cells: bounded(cells.clone()), materials: vec![] };
    let mut plans = Plans::new();
    let verdict = receive_plan_edit_batch(
        &mut plans,
        &batch,
        &vec![true, true, false, true],
        &world,
        &blocks,
        &items,
    );
    assert_eq!(verdict.out_of_reach, Some(cells[2]));
    let reply = verdict.reply.expect("two cells pass");
    assert_eq!(listed(&reply), vec![cells[0], cells[3]]);
    assert_eq!(reply.materials, house_materials());
    assert_eq!(plans.len(), 2);

    let mut mirror = Plans::new();
    apply_plan_edit_batch(&mut mirror, &reply);
    assert_eq!(mirror.len(), 2);
    assert_eq!(mirror.kind(cells[3]), Some(build(1)));

    let verdict = receive_plan_edit_batch(
        &mut plans,
        &PlanEditBatch {
            kind: Some(PlanKind::Remove),
            cells: bounded(vec![cells[0]]),
            materials: vec![],
        },
        &vec![true],
        &world,
        &blocks,
        &items,
    );
    assert!(verdict.out_of_reach.is_none());
    assert!(verdict.reply.is_none());
}

#[test]
fn snapshots_rebuild_the_plans() {
    let mut plans = Plans::new();
    plans.set(IVec3::new(0, 0, 0), PlanState::new(build(1), house_materials()));
    plans.set(IVec3::new(5, 0, 0), PlanState::new(PlanKind::Remove, vec![]));
    let mut copy = Plans::new();
    copy.set(IVec3::new(7, 7, 7), PlanState::new(PlanKind::Remove, vec![]));
    copy.replace_all(plans.snapshot());
    assert_eq!(copy.len(), 2);
    assert_eq!(copy.kind(IVec3::new(0, 0, 0)), Some(build(1)));
    assert_eq!(copy.kind(IVec3::new(5, 0, 0)), Some(PlanKind::Remove));
    assert_eq!(copy.kind(IVec3::new(7, 7, 7)), None);
    copy.clear(IVec3::new(0, 0, 0));
    assert_eq!(copy.len(), 1);
    assert_eq!(copy.cell_at(0), IVec3::new(5, 0, 0));
    assert_eq!(copy.plan_at(0).kind, PlanKind::Remove);
}

fn bounded(cells: Vec<IVec3>) -> BoundedVec<IVec3, 4096> {
    BoundedVec::new(cells).unwrap()
}

fn listed(batch: &PlanEditBatch) -> Vec<IVec3> {
    (0..batch.cells.len()).map(|i| *batch.cells.at(i)).collect()
}

fn drag(verb: DragVerb, anchor: IVec3, second: IVec3) -> ActiveDrag {
    ActiveDrag {
        verb,
        anchor,
        face_normal: IVec3::new(0, 1, 0),
        second,
        build_slot: BlockSlot(1),
        build_orientation: Cardinal::West,
    }
}

#[test]
fn sweeps_clear_plans_and_tag_the_rest() {
    let mut plans = Plans::new();
    plans.set(IVec3::new(1, 0, 0), PlanState::new(PlanKind::Remove, vec![]));
    let out = commit_drag(
        drag(DragVerb::LeftSweep, IVec3::new(0, 0, 0), IVec3::new(2, 0, 0)),
        &plans,
    );
    assert_eq!(out.len(), 2);
    assert_eq!(out[0].kind, None);
    assert_eq!(listed(&out[0]), vec![IVec3::new(1, 0, 0)]);
    assert_eq!(out[1].kind, Some(PlanKind::Remove));
    assert_eq!(listed(&out[1]), vec![IVec3::new(0, 0, 0), IVec3::new(2, 0, 0)]);
    let only = commit_drag(
        drag(DragVerb::LeftSweep, IVec3::new(1, 0, 0), IVec3::new(1, 0, 0)),
        &plans,
    );
    assert_eq!(only.len(), 1);
}

#[test]
fn building_happens_in_front_of_the_face() {
    let d = drag(DragVerb::Build, IVec3::new(0, 0, 0), IVec3::new(1, 0, 1));
    let out = commit_drag(d, &Plans::new());
    assert_eq!(out.len(), 1);
    assert_eq!(
        out[0].kind,
        Some(PlanKind::Build { slot: BlockSlot(1), orientation: Cardinal::West })
    );
    assert_eq!(listed(&out[0]), rect_cells_for_preview(d));
    assert!(listed(&out[0]).iter().all(|c| c.y == 1));
    assert_eq!(drag_preview_box(d), (IVec3::new(0, 1, 0), IVec3::new(1, 1, 1)));
}

#[test]
fn large_drags_are_split_into_messages() {
    let d = drag(DragVerb::Build, IVec3::new(0, 0, 0), IVec3::new(99, 0, 99));
    let out = commit_drag(d, &Plans::new());
    assert_eq!(out.iter().map(|b| b.cells.len()).collect::<Vec<_>>(), vec![4096, 4096, 1808]);
    assert!(out.iter().all(|b| b.kind == out[0].kind && b.materials.is_empty()));
    let asked: Vec<IVec3> = out.iter().flat_map(|b| listed(b)).collect();
    assert_eq!(asked, rect_cells_for_preview(d));
    assert_eq!(asked.len(), 10000);
    assert_eq!(asked[4096], IVec3::new(40, 1, 96));

    let face = drag(DragVerb::Build, IVec3::new(0, 0, 0), IVec3::new(63, 0, 63));
    assert_eq!(commit_drag(face, &Plans::new()).len(), 1);
}

#[test]
fn large_sweeps_are_split_into_messages() {
    let mut plans = Plans::new();
    for x in 0..2 {
        plans.set(IVec3::new(x, 0, 7), PlanState::new(PlanKind::Remove, vec![]));
    }
    let d = drag(DragVerb::LeftSweep, IVec3::new(0, 0, 0), IVec3::new(0, 99, 49));
    let out = commit_drag(d, &plans);
    assert_eq!(out.iter().map(|b| b.cells.len()).collect::<Vec<_>>(), vec![1, 4096, 903]);
    assert_eq!(out[0].kind, None);
    assert!(out[1..].iter().all(|b| b.kind == Some(PlanKind::Remove)));
    assert_eq!(rect_cells_for_preview(d).len(), 5000);
}

fn buttons(left: (bool, bool), right: (bool, bool)) -> PlanButtons {
    PlanButtons {
        left_pressed: left.0,
        left_released: left.1,
        right_pressed: right.0,
        right_released: right.1,
    }
}

#[test]
fn mouse_drives_the_drag() {
    let face = FaceHit {
        cell: IVec3::new(0, 0, 0),
        face_normal: IVec3::new(0, 1, 0),
        distance: 50,
    };
    let near_plan = PlanHit { cell: IVec3::new(3, 3, 3), distance: 10 };
    let cursor = |plan: Option<PlanHit>| PlanCursor {
        plan,
        face: Some(face),
        selected: Some(BlockSlot(1)),
        orientation: Cardinal::South,
    };
    let plans = Plans::new();
    let mut state = PlanDragState::new();

    let pick = state.press(buttons((true, false), (false, false)), cursor(Some(near_plan)));
    let pick = pick.expect("the plan is nearer");
    assert_eq!((pick.kind, listed(&pick)), (None, vec![near_plan.cell]));
    assert!(state.active.is_none());

    assert!(state.press(buttons((false, false), (true, false)), cursor(None)).is_none());
    let a = state.active.expect("a build drag runs");
    assert_eq!((a.verb, a.anchor, a.build_orientation), (DragVerb::Build, face.cell, Cardinal::South));
    state.track(Some(IVec3::new(2, 0, 0)));
    state.track(None);
    assert!(state.release(buttons((false, true), (false, false)), &plans).is_empty());
    let out = state.release(buttons((false, false), (false, true)), &plans);
    assert_eq!(out.len(), 1);
    assert_eq!(out[0].cells.len(), 3);
    assert!(state.active.is_none());

    let far_plan = PlanHit { distance: 90, ..near_plan };
    assert!(state.press(buttons((true, false), (false, false)), cursor(Some(far_plan))).is_none());
    assert!(state.active.is_some());
    state.interrupt();
    assert!(state.active.is_none());
}

#[test]
fn claims_exclude_others_until_released() {
    let mut claims = PlanClaims::new();
    let cell = IVec3::new(1, 1, 1);
    assert!(claims.try_claim(cell, NpcId(1)));
    assert!(claims.try_claim(cell, NpcId(1)));
    assert!(!claims.try_claim(cell, NpcId(2)));
    assert!(claims.is_taken_by_other(cell, NpcId(2)));
    assert!(!claims.is_taken_by_other(cell, NpcId(1)));
    claims.release(cell, NpcId(2));
    assert!(claims.is_taken_by_other(cell, NpcId(2)));
    claims.release(cell, NpcId(1));
    assert!(claims.try_claim(cell, NpcId(2)));
    assert!(claims.try_claim(IVec3::new(2, 2, 2), NpcId(2)));
    claims.release_all_for(NpcId(2));
    assert!(!claims.is_taken_by_other(cell, NpcId(1)));
}

#[test]
fn overlays_follow_the_plans() {
    let mut plans = Plans::new();
    let a = IVec3::new(0, 0, 0);
    let b = IVec3::new(1, 0, 0);
    let c = IVec3::new(2, 0, 0);
    plans.set(a, PlanState::new(build(1), house_materials()));
    plans.set(b, PlanState::new(PlanKind::Remove, vec![]));
    plans.set(c, PlanState::new(build(9), vec![]));
    let mut index = PlanGhostIndex::new();
    let changes = index.sync(&plans, 2);
    assert!(changes.despawn.is_empty());
    let want = OverlayDesired::Build {
        slot: BlockSlot(1),
        orientation: Cardinal::North,
        satisfied: false,
    };
    assert_eq!(changes.spawn, vec![(a, want), (b, OverlayDesired::RemoveHatch)]);
    for (i, (cell, desired)) in changes.spawn.iter().enumerate() {
        index.record(*cell, 100 + i as u64, *desired);
    }
    let changes = index.sync(&plans, 2);
    assert!(changes.despawn.is_empty() && changes.spawn.is_empty());

    plans.clear(b);
    let _ = plans.deposit(a, ItemSlot(1), 2);
    let _ = plans.deposit(a, ItemSlot(0), 3);
    let changes = index.sync(&plans, 2);
    assert_eq!(changes.despawn, vec![100, 101]);
    assert_eq!(
        changes.spawn,
        vec![(
            a,
            OverlayDesired::Build {
                slot: BlockSlot(1),
                orientation: Cardinal::North,
                satisfied: true
            }
        )]
    );
    index.reset();
    assert_eq!(index.sync(&plans, 2).spawn.len(), 1);
}

#[test]
fn ghosts_turn_with_their_block() {
    let foot = vec![IVec3::new(0, 0, 0), IVec3::new(1, 0, 0), IVec3::new(2, 1, 0)];
    let anchor = IVec3::new(10, 5, 10);
    assert_eq!(
        ghost_box(anchor, &foot, Cardinal::East),
        (IVec3::new(10, 5, 10), IVec3::new(12, 6, 10))
    );
    let (lo, hi) = ghost_box(anchor, &foot, Cardinal::West);
    assert_eq!((lo, hi), (IVec3::new(8, 5, 10), IVec3::new(10, 6, 10)));
    let (lo, hi) = ghost_box(anchor, &foot, Cardinal::North);
    assert_eq!(hi.z - lo.z, 2);
    assert_eq!(hi.x - lo.x, 0);
}
