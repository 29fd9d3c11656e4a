use block_junk::cells::IVec3;
use block_junk::npc_mover::{
    edge_traversable, fall_landing, has_support, mover_step, MoverMode, MoverMove, MoverState,
    PathProgress, Sensed,
};
use block_junk::pathfinding::CellGrid;

const EYE_OFFSET_FROM_CENTRE: f32 = 0.72;
const HALF_HEIGHT: f32 = 0.9;
const HALF_WIDTH: f32 = 0.3;
const GRAVITY: f32 = 25.0;

/// Floor plane at y = 0 spanning x, z in [-10, 10].
fn floored() -> CellGrid {
    let mut world = CellGrid::new();
    for x in -10..=10 {
        for z in -10..=10 {
            world.insert(IVec3::new(x, 0, z));
        }
    }
    world
}

fn standing(cell: IVec3) -> [f32; 3] {
    [
        cell.x as f32 + 0.5,
        cell.y as f32 + HALF_HEIGHT + EYE_OFFSET_FROM_CENTRE,
        cell.z as f32 + 0.5,
    ]
}

/// One tick of a fall: the new position and speed, and the cell landed on.
fn fall_tick(world: &CellGrid, at: [f32; 3], vy: f32, dt: f32) -> ([f32; 3], f32, Option<IVec3>) {
    let vy = vy + GRAVITY * dt;
    let drop = vy * dt;
    let feet0 = at[1] - EYE_OFFSET_FROM_CENTRE - HALF_HEIGHT;
    let feet1 = feet0 - drop;
    let landed = fall_landing(
        world,
        at[0].floor() as i32,
        at[2].floor() as i32,
        (feet0 + 1e-4).floor() as i32,
        feet1.ceil() as i32,
    );
    match landed {
        Some(c) => (standing(c), 0.0, Some(c)),
        None => ([at[0], at[1] - drop, at[2]], vy, None),
    }
}

fn fall_until_landed(world: &CellGrid, from: IVec3) -> ([f32; 3], Option<IVec3>) {
    let mut at = standing(from);
    let mut vy = 0.0;
    for _ in 0..600 {
        let (p, v, landed) = fall_tick(world, at, vy, 1.0 / 60.0);
        at = p;
        vy = v;
        if landed.is_some() {
            return (at, landed);
        }
    }
    (at, None)
}

#[test]
fn fall_lands_exactly_on_standing_pose() {
    let world = floored();
    let (at, landed) = fall_until_landed(&world, IVec3::new(0, 5, 0));
    assert_eq!(landed, Some(IVec3::new(0, 1, 0)));
    assert_eq!(at, standing(IVec3::new(0, 1, 0)));
}

#[test]
fn fall_passes_through_body_passable_cells_only() {
    let mut world = floored();
    world.insert(IVec3::new(0, 3, 0));
    let (_, landed) = fall_until_landed(&world, IVec3::new(0, 8, 0));
    assert_eq!(landed, Some(IVec3::new(0, 4, 0)), "lands on the slab");
}

fn corners(x: f32, foot_y: i32, z: f32) -> Vec<IVec3> {
    let mut cells = Vec::new();
    for cx in [(x - HALF_WIDTH).floor(), (x + HALF_WIDTH).floor()] {
        for cz in [(z - HALF_WIDTH).floor(), (z + HALF_WIDTH).floor()] {
            cells.push(IVec3::new(cx as i32, foot_y, cz as i32));
        }
    }
    cells
}

#[test]
fn support_straddle_keeps_edge_balanced_npc_up() {
    let mut world = CellGrid::new();
    world.insert(IVec3::new(0, 0, 0));
    assert!(has_support(&world, &corners(1.05, 1, 0.5)));
    assert!(!has_support(&world, &corners(1.5, 1, 0.5)));
}

#[test]
fn edge_traversable_mirrors_planner_rules() {
    let mut world = floored();
    let a = IVec3::new(0, 1, 0);
    assert!(edge_traversable(&world, a, IVec3::new(1, 1, 0)));
    world.insert(IVec3::new(2, 1, 0));
    assert!(edge_traversable(&world, IVec3::new(1, 1, 0), IVec3::new(2, 2, 0)));
    world.insert(IVec3::new(1, 3, 0));
    assert!(!edge_traversable(&world, IVec3::new(1, 1, 0), IVec3::new(2, 2, 0)));
    assert!(!edge_traversable(&world, a, IVec3::new(0, 3, 0)));
}

fn calm() -> Sensed {
    Sensed {
        displaced: false,
        landed: false,
        arc_done: false,
        supported: true,
        waypoint_reached: false,
    }
}

fn walking(edge: usize) -> MoverState {
    MoverState {
        mode: MoverMode::Grounded,
        progress: Some(PathProgress { edge, blocked: false }),
    }
}

#[test]
fn mover_walks_edge_by_edge() {
    let world = floored();
    let path = vec![IVec3::new(0, 1, 0), IVec3::new(3, 1, 0), IVec3::new(3, 1, 3)];
    let (s, m) = mover_step(&world, walking(0), &path, calm());
    assert_eq!(s, walking(0));
    assert_eq!(
        m,
        MoverMove::Walk { from: path[0], to: path[1], arrived: false, last: false }
    );
    let (s, m) = mover_step(
        &world,
        walking(0),
        &path,
        Sensed { waypoint_reached: true, ..calm() },
    );
    assert_eq!(s, walking(1));
    assert_eq!(
        m,
        MoverMove::Walk { from: path[0], to: path[1], arrived: true, last: false }
    );
    let (s, m) = mover_step(
        &world,
        walking(1),
        &path,
        Sensed { waypoint_reached: true, ..calm() },
    );
    assert_eq!(s, walking(2));
    assert_eq!(
        m,
        MoverMove::Walk { from: path[1], to: path[2], arrived: true, last: true }
    );
    let (s, m) = mover_step(&world, walking(2), &path, calm());
    assert_eq!((s, m), (walking(2), MoverMove::Stand));
}

#[test]
fn mover_blocks_on_walls_and_falls_without_support() {
    let mut world = floored();
    world.insert(IVec3::new(3, 1, 0));
    let path = vec![IVec3::new(0, 1, 0), IVec3::new(3, 1, 0)];
    let (s, m) = mover_step(&world, walking(0), &path, calm());
    assert_eq!(s.progress, Some(PathProgress { edge: 0, blocked: true }));
    assert_eq!(m, MoverMove::Stand);
    let (s, m) = mover_step(&world, walking(0), &path, Sensed { supported: false, ..calm() });
    assert_eq!(s.mode, MoverMode::Fall);
    assert_eq!(m, MoverMove::StartFall);
    let (s, m) = mover_step(&world, s, &path, Sensed { landed: true, supported: false, ..calm() });
    assert_eq!(s.mode, MoverMode::Grounded);
    assert_eq!(s.progress, Some(PathProgress { edge: 0, blocked: true }));
    assert_eq!(m, MoverMove::Land);
}

#[test]
fn mover_steps_up_along_an_arc() {
    let mut world = floored();
    world.insert(IVec3::new(1, 1, 0));
    let path = vec![IVec3::new(0, 1, 0), IVec3::new(1, 2, 0)];
    let (s, m) = mover_step(&world, walking(0), &path, calm());
    assert_eq!(s.mode, MoverMode::Step { to: path[1] });
    assert_eq!(m, MoverMove::StartArc { to: path[1] });
    let (s, m) = mover_step(&world, s, &path, Sensed { arc_done: true, ..calm() });
    assert_eq!(s, walking(1));
    assert_eq!(m, MoverMove::Arc { to: path[1], done: true });
}
