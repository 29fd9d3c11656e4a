use block_junk::cells::IVec3;
use block_junk::pathfinding::{
    find_path, heuristic, line_of_sight, nearest_standable_below, smooth_path, standable, CellGrid,
    Walkability,
};

/// Ground plane from x, z in [-50, 50] at the given height.
fn floor_at(y: i32) -> CellGrid {
    let mut world = CellGrid::new();
    for x in -50..=50 {
        for z in -50..=50 {
            world.insert(IVec3::new(x, y, z));
        }
    }
    world
}

fn add_wall(world: &mut CellGrid, min: IVec3, max: IVec3) {
    for x in min.x..=max.x {
        for y in min.y..=max.y {
            for z in min.z..=max.z {
                world.insert(IVec3::new(x, y, z));
            }
        }
    }
}

#[test]
fn straight_line_on_open_floor() {
    let world = floor_at(0);
    let path = find_path(IVec3::new(0, 1, 0), IVec3::new(5, 1, 0), &world, 1000, 100)
        .expect("reachable");
    assert_eq!(path.first(), Some(&IVec3::new(0, 1, 0)));
    assert_eq!(path.last(), Some(&IVec3::new(5, 1, 0)));
    assert_eq!(path.len(), 6);
}

#[test]
fn detour_around_wall() {
    let mut world = floor_at(0);
    add_wall(&mut world, IVec3::new(2, 1, -2), IVec3::new(2, 2, 2));
    let path = find_path(IVec3::new(0, 1, 0), IVec3::new(5, 1, 0), &world, 5000, 100)
        .expect("reachable around the wall");
    for cell in &path {
        assert!(standable(&world, *cell), "{cell:?} should be standable");
    }
    assert!(path.len() > 6, "path should detour, got {} cells", path.len());
}

#[test]
fn step_up_one_block() {
    let mut world = floor_at(0);
    world.insert(IVec3::new(3, 1, 0));
    let path = find_path(IVec3::new(0, 1, 0), IVec3::new(3, 2, 0), &world, 1000, 100)
        .expect("step-up reachable");
    assert!(path.contains(&IVec3::new(3, 2, 0)));
}

#[test]
fn unreachable_returns_none() {
    let mut world = floor_at(0);
    add_wall(&mut world, IVec3::new(-1, 1, -1), IVec3::new(-1, 3, 1));
    add_wall(&mut world, IVec3::new(1, 1, -1), IVec3::new(1, 3, 1));
    add_wall(&mut world, IVec3::new(0, 1, -1), IVec3::new(0, 3, -1));
    add_wall(&mut world, IVec3::new(0, 1, 1), IVec3::new(0, 3, 1));
    add_wall(&mut world, IVec3::new(0, 3, 0), IVec3::new(0, 3, 0));
    let path = find_path(IVec3::new(0, 1, 0), IVec3::new(5, 1, 0), &world, 1000, 100);
    assert!(path.is_none(), "boxed-in actor cannot path out");
}

#[test]
fn node_budget_caps_search() {
    let world = floor_at(0);
    let path = find_path(IVec3::new(0, 1, 0), IVec3::new(40, 1, 0), &world, 8, 200);
    assert!(path.is_none(), "8-node budget too small for 40-cell distance");
}

#[test]
fn smoothing_collapses_open_diagonal() {
    let world = floor_at(0);
    let staircase: Vec<IVec3> = (0..=4)
        .flat_map(|i| [IVec3::new(i, 1, i), IVec3::new(i + 1, 1, i)])
        .collect();
    let smoothed = smooth_path(staircase, &world);
    assert_eq!(smoothed.first(), Some(&IVec3::new(0, 1, 0)));
    assert_eq!(smoothed.last(), Some(&IVec3::new(5, 1, 4)));
    assert!(
        smoothed.len() < 4,
        "open diagonal should collapse to a tight skeleton, got {smoothed:?}"
    );
}

#[test]
fn smoothing_keeps_kinks_near_walls() {
    let mut world = floor_at(0);
    add_wall(&mut world, IVec3::new(2, 1, 0), IVec3::new(2, 2, 0));
    let path = vec![IVec3::new(0, 1, 0), IVec3::new(2, 1, 2), IVec3::new(4, 1, 0)];
    let smoothed = smooth_path(path.clone(), &world);
    assert_eq!(smoothed, path, "kink around wall must be preserved");
}

#[test]
fn smoothing_preserves_step_ups() {
    let mut world = floor_at(0);
    world.insert(IVec3::new(2, 1, 0));
    let path = vec![
        IVec3::new(0, 1, 0),
        IVec3::new(1, 1, 0),
        IVec3::new(2, 2, 0),
        IVec3::new(3, 2, 0),
    ];
    let smoothed = smooth_path(path, &world);
    assert!(
        smoothed.contains(&IVec3::new(2, 2, 0)),
        "step-up cell stripped: {smoothed:?}"
    );
}

#[test]
fn nearest_standable_below_finds_floor() {
    let world = floor_at(5);
    let cell = nearest_standable_below(&world, IVec3::new(0, 20, 0), 30)
        .expect("ground reachable within drop budget");
    assert_eq!(cell, IVec3::new(0, 6, 0));
}

#[test]
fn drop_budget_limits_the_search_for_ground() {
    let world = floor_at(5);
    assert_eq!(nearest_standable_below(&world, IVec3::new(0, 20, 0), 13), None);
    assert_eq!(
        nearest_standable_below(&world, IVec3::new(0, 20, 0), 14),
        Some(IVec3::new(0, 6, 0))
    );
    assert_eq!(nearest_standable_below(&world, IVec3::new(0, 6, 0), -1), None);
}

#[test]
fn standing_needs_ground_and_headroom() {
    let mut world = floor_at(0);
    assert!(standable(&world, IVec3::new(0, 1, 0)));
    assert!(!standable(&world, IVec3::new(0, 0, 0)));
    assert!(!standable(&world, IVec3::new(0, 2, 0)));
    world.insert(IVec3::new(0, 2, 0));
    assert!(!standable(&world, IVec3::new(0, 1, 0)));
    world.remove(IVec3::new(0, 2, 0));
    assert!(standable(&world, IVec3::new(0, 1, 0)));
    assert!(world.is_solid(IVec3::new(0, 0, 0)));
}

#[test]
fn path_to_oneself_is_one_cell_even_in_the_air() {
    let world = floor_at(0);
    let here = IVec3::new(0, 30, 0);
    assert_eq!(find_path(here, here, &world, 10, 10), Some(vec![here]));
    assert_eq!(find_path(here, IVec3::new(0, 1, 0), &world, 1000, 100), None);
}

#[test]
fn path_length_budget_is_sharp() {
    let world = floor_at(0);
    let a = IVec3::new(0, 1, 0);
    let b = IVec3::new(6, 1, 0);
    assert_eq!(find_path(a, b, &world, 1000, 6).map(|p| p.len()), Some(7));
    assert_eq!(find_path(a, b, &world, 1000, 5), None);
}

#[test]
fn sight_stays_on_one_level() {
    let mut world = floor_at(0);
    assert!(line_of_sight(IVec3::new(0, 1, 0), IVec3::new(4, 1, 3), &world));
    assert!(!line_of_sight(IVec3::new(0, 1, 0), IVec3::new(4, 2, 3), &world));
    world.remove(IVec3::new(2, 0, 0));
    assert!(!line_of_sight(IVec3::new(0, 1, 0), IVec3::new(4, 1, 0), &world));
}

#[test]
fn a_step_down_counts_as_one_step() {
    // Stairs from (0, 2, 0) down to (1, 1, 0), and a level way round.
    let mut world = floor_at(0);
    world.insert(IVec3::new(0, 1, 0));
    let path = find_path(IVec3::new(0, 2, 0), IVec3::new(1, 1, 0), &world, 10, 1).unwrap();
    assert_eq!(path, vec![IVec3::new(0, 2, 0), IVec3::new(1, 1, 0)]);
    assert!(find_path(IVec3::new(1, 1, 0), IVec3::new(0, 2, 0), &world, 10, 1).is_none());
    assert!(find_path(IVec3::new(1, 1, 0), IVec3::new(0, 2, 0), &world, 10, 2).is_some());
}

#[test]
fn hills_are_crossed_by_the_cheapest_way() {
    // Down into a long trench and out again is cheaper than a long detour.
    let mut world = floor_at(0);
    add_wall(&mut world, IVec3::new(-50, 1, -50), IVec3::new(1, 1, 50));
    add_wall(&mut world, IVec3::new(4, 1, -50), IVec3::new(50, 1, 50));
    let path = find_path(IVec3::new(0, 2, 0), IVec3::new(6, 2, 0), &world, 1000, 100).unwrap();
    assert_eq!(path.len(), 7);
    assert_eq!(path.iter().filter(|c| c.y == 1).count(), 2);
}

#[test]
fn a_larger_node_budget_keeps_the_path() {
    let mut world = floor_at(0);
    add_wall(&mut world, IVec3::new(2, 1, -2), IVec3::new(2, 2, 2));
    let (from, to) = (IVec3::new(0, 1, 0), IVec3::new(5, 1, 0));
    let least = (0..500)
        .find(|n| find_path(from, to, &world, *n, 100).is_some())
        .expect("reachable");
    let path = find_path(from, to, &world, least, 100).unwrap();
    assert!(path.len() - 1 <= least);
    for n in [least + 1, least + 50, 5000] {
        assert_eq!(find_path(from, to, &world, n, 100), Some(path.clone()));
    }
    for (i, a) in path.iter().enumerate() {
        assert!(!path[i + 1..].contains(a), "{a:?} occurs twice");
    }
}

#[test]
fn walks_reach_the_edge_of_the_world() {
    let edge = i32::MAX;
    let mut world = CellGrid::new();
    for x in 0..6 {
        world.insert(IVec3::new(edge - x, 0, edge));
    }
    let path = find_path(IVec3::new(edge - 5, 1, edge), IVec3::new(edge, 1, edge), &world, 50, 50);
    assert_eq!(path.map(|p| p.len()), Some(6));
}

#[test]
fn no_climb_is_smoothed_away() {
    let mut world = floor_at(0);
    add_wall(&mut world, IVec3::new(3, 1, -50), IVec3::new(3, 1, 50));
    let path = find_path(IVec3::new(0, 1, 0), IVec3::new(6, 1, 2), &world, 1000, 100).unwrap();
    let smooth = smooth_path(path.clone(), &world);
    let mut changes = 0;
    for pair in path.windows(2) {
        if pair[0].y != pair[1].y {
            changes += 1;
            assert!(smooth.windows(2).any(|w| w == pair), "{pair:?} is kept");
        }
    }
    assert_eq!(changes, 2);
}

#[test]
fn estimates_count_level_steps() {
    let a = IVec3::new(0, 1, 0);
    assert_eq!(heuristic(a, a), 0);
    let step = heuristic(a, IVec3::new(1, 1, 0));
    assert_eq!(step, block_junk::pathfinding::STEP_UNIT as u128);
    assert_eq!(heuristic(a, IVec3::new(-3, 9, 4)), 7 * step);
    assert_eq!(heuristic(IVec3::new(-3, 9, 4), a), 7 * step);

    let mut world = floor_at(0);
    add_wall(&mut world, IVec3::new(3, 1, -1), IVec3::new(3, 1, 1));
    let goal = IVec3::new(3, 2, 0);
    let path = find_path(a, goal, &world, 1000, 100).expect("one step up");
    assert!(heuristic(a, goal) <= (path.len() as u128 - 1) * step);
}
