//! How a villager's body follows its path.
//!
//! Poses and speeds are kept by the caller; what is decided here is what the
//! body does next: stand, walk an edge, climb a step, or fall.

use crate::cells::{shifted, IVec3};
use crate::pathfinding::{
    can_stand, is_walk, law_smoothing_pulls_clear_lines, legal_step, pulls, smoothed, standable,
    step_to, steps_on, Walkability,
};
use vstd::prelude::*;

verus! {

/// A body can go from one waypoint to the next: on the level, one up with
/// room over its head, or one down with room over the edge.
pub open spec fn traversable<W: Walkability>(world: &W, from: IVec3, to: IVec3) -> bool {
    can_stand(world, to) && (to.y == from.y || (to.y == from.y + 1 && !world.body_blocked(
        shifted(from, 0, 2, 0),
    )) || (to.y == from.y - 1 && !world.body_blocked(shifted(to, 0, 1, 0))))
}

/// Can a body still go from one waypoint to the next?
pub fn edge_traversable<W: Walkability>(world: &W, from: IVec3, to: IVec3) -> (r: bool)
    ensures
        r == traversable(world, from, to),
{
    if !standable(world, to) {
        return false;
    }
    let dy: i64 = to.y as i64 - from.y as i64;
    if dy == 0 {
        true
    } else if dy == 1 {
        !world.blocks_body(from.shift(0, 2, 0))
    } else if dy == -1 {
        !world.blocks_body(to.shift(0, 1, 0))
    } else {
        false
    }
}

/// What stops a body also carries weight; where that is so, the body can take
/// every step that the planner plans.
pub proof fn law_planned_steps_are_traversable<W: Walkability>(world: &W, from: IVec3, to: IVec3)
    requires
        forall|c: IVec3| #[trigger] world.body_blocked(c) ==> world.solid(c),
        legal_step(world, from, to),
    ensures
        traversable(world, from, to),
{
    let d = choose|d: int| 0 <= d < 4 && #[trigger] step_to(world, from, d) == Some(to);
    assert(step_to(world, from, d) == Some(to));
    if to.y == from.y - 1 {
        let same = shifted(
            from,
            crate::cells::dir_dx(d),
            0,
            crate::cells::dir_dz(d),
        );
        assert(shifted(to, 0, 1, 0) == same);
    }
}

proof fn lemma_pulled_edges<W: Walkability>(
    world: &W,
    path: Seq<IVec3>,
    from: int,
    idx: Seq<int>,
    k: int,
)
    requires
        forall|c: IVec3| #[trigger] world.body_blocked(c) ==> world.solid(c),
        forall|i: int| 0 <= i < path.len() - 1 ==> #[trigger] steps_on(world, path, i),
        pulls(world, path, from, idx),
        0 <= from,
        0 <= k < idx.len(),
    ensures
        0 < idx[k] < path.len(),
        traversable(
            world,
            if k == 0 {
                path[from]
            } else {
                path[idx[k - 1]]
            },
            path[idx[k]],
        ),
    decreases idx.len(),
{
    let to = idx[0];
    assert(steps_on(world, path, to - 1));
    law_planned_steps_are_traversable(world, path[to - 1], path[to]);
    if k > 0 {
        lemma_pulled_edges(world, path, to, idx.drop_first(), k - 1);
        assert(idx.drop_first()[k - 1] == idx[k]);
        if k > 1 {
            assert(idx.drop_first()[k - 2] == idx[k - 1]);
        }
    }
}

/// As long as the world stays as it was planned for, the body can take every
/// edge of a planned and smoothed path.
pub proof fn law_smoothed_paths_are_traversable<W: Walkability>(
    world: &W,
    path: Seq<IVec3>,
    start: IVec3,
    goal: IVec3,
    k: int,
)
    requires
        forall|c: IVec3| #[trigger] world.body_blocked(c) ==> world.solid(c),
        is_walk(world, path, start, goal),
        0 <= k < smoothed(world, path).len() - 1,
    ensures
        traversable(world, smoothed(world, path)[k], smoothed(world, path)[k + 1]),
{
    let idx = law_smoothing_pulls_clear_lines(world, path);
    lemma_pulled_edges(world, path, 0, idx, k);
    assert(smoothed(world, path)[k + 1] == path[idx[k]]);
    if k > 0 {
        assert(smoothed(world, path)[k - 1 + 1] == path[idx[k - 1]]);
    }
}

/// A falling body comes to rest at this cell.
pub open spec fn rests_at<W: Walkability>(world: &W, foot: IVec3) -> bool {
    world.solid(shifted(foot, 0, -1, 0)) && !world.body_blocked(foot)
}

/// Finds where a body whose feet fall from height `hi` to height `lo` in a
/// column comes to rest: the highest place on the way.
pub fn fall_landing<W: Walkability>(world: &W, x: i32, z: i32, hi: i32, lo: i32) -> (r: Option<IVec3>)
    requires
        lo > i32::MIN,
    ensures
        match r {
            Some(foot) => foot.x == x && foot.z == z && lo <= foot.y <= hi && rests_at(world, foot)
                && forall|y: int|
                foot.y < y <= hi ==> !rests_at(world, #[trigger] shifted(foot, 0, y - foot.y, 0)),
            None => forall|c: IVec3|
                c.x == x && c.z == z && lo <= c.y <= hi ==> !#[trigger] rests_at(world, c),
        },
{
    let mut y: i64 = hi as i64;
    while y >= lo as i64
        invariant
            i32::MIN < lo,
            lo - 1 <= y <= hi || hi < lo,
            y <= hi,
            forall|c: IVec3|
                c.x == x && c.z == z && y < c.y <= hi ==> !#[trigger] rests_at(world, c),
        decreases y - lo + 1,
    {
        let foot: IVec3 = IVec3::new(x, y as i32, z);
        if world.is_solid(foot.shift(0, -1, 0)) && !world.blocks_body(foot) {
            return Some(foot);
        }
        y = y - 1;
    }
    None
}

/// Some of the cells carries weight right below.
pub open spec fn any_support<W: Walkability>(world: &W, cells: Seq<IVec3>) -> bool {
    exists|i: int|
        0 <= i < cells.len() && world.solid(shifted(#[trigger] cells[i], 0, -1, 0))
}

/// Is a body whose corners are over these cells held up?
pub fn has_support<W: Walkability>(world: &W, cells: &Vec<IVec3>) -> (r: bool)
    requires
        forall|i: int| 0 <= i < cells@.len() ==> (#[trigger] cells@[i]).y > i32::MIN,
    ensures
        r == any_support(world, cells@),
{
    let mut i: usize = 0;
    while i < cells.len()
        invariant
            i <= cells@.len(),
            forall|k: int| 0 <= k < cells@.len() ==> (#[trigger] cells@[k]).y > i32::MIN,
            forall|k: int|
                0 <= k < i ==> !world.solid(shifted(#[trigger] cells@[k], 0, -1, 0)),
        decreases cells@.len() - i,
    {
        if world.is_solid(cells[i].shift(0, -1, 0)) {
            return true;
        }
        i = i + 1;
    }
    false
}

/// What the body is doing.
#[derive(Clone, Copy, Debug, PartialEq, Eq, Structural)]
pub enum MoverMode {
    Grounded,
    /// On the arc to a waypoint one higher or lower.
    Step { to: IVec3 },
    Fall,
}

/// How far a villager has got on its path.
#[derive(Clone, Copy, Debug, PartialEq, Eq, Structural)]
pub struct PathProgress {
    pub edge: usize,
    pub blocked: bool,
}

/// What the caller measured in this tick.
#[derive(Clone, Copy, Debug, PartialEq, Eq, Structural)]
pub struct Sensed {
    /// Something else has moved the body since the last tick.
    pub displaced: bool,
    /// The fall ends in this tick.
    pub landed: bool,
    /// The arc ends in this tick.
    pub arc_done: bool,
    /// The body is held up.
    pub supported: bool,
    /// The next waypoint is within this tick's stride.
    pub waypoint_reached: bool,
}

/// What the body does in this tick.
#[derive(Clone, Copy, Debug, PartialEq, Eq, Structural)]
pub enum MoverMove {
    Stand,
    KeepFalling,
    Land,
    StartFall,
    /// Along the arc to the waypoint, or onto it.
    Arc { to: IVec3, done: bool },
    StartArc { to: IVec3 },
    /// Towards the waypoint, or onto it; at the last one the body stands still.
    Walk { from: IVec3, to: IVec3, arrived: bool, last: bool },
}

/// The mover of one villager: what the body does, and how far it has got if
/// the villager is walking somewhere.
#[derive(Clone, Copy, Debug, PartialEq, Eq, Structural)]
pub struct MoverState {
    pub mode: MoverMode,
    pub progress: Option<PathProgress>,
}

pub open spec fn with_block(p: Option<PathProgress>) -> Option<PathProgress> {
    match p {
        Some(q) => Some(PathProgress { edge: q.edge, blocked: true }),
        None => None,
    }
}

pub open spec fn one_edge_on(p: Option<PathProgress>) -> Option<PathProgress> {
    match p {
        Some(q) => Some(PathProgress { edge: (q.edge + 1) as usize, blocked: q.blocked }),
        None => None,
    }
}

/// A body that something else has moved stands on the ground again, and its
/// path no longer holds.
pub open spec fn settled(state: MoverState, sensed: Sensed) -> MoverState {
    if sensed.displaced {
        MoverState { mode: MoverMode::Grounded, progress: with_block(state.progress) }
    } else {
        state
    }
}

/// The villager has an edge of its path before it and may take it.
pub open spec fn has_edge(state: MoverState, path: Seq<IVec3>) -> bool {
    state.progress matches Some(p) && !p.blocked && p.edge + 1 < path.len()
}

/// What a body on the ground does.
pub open spec fn grounded_step<W: Walkability>(
    world: &W,
    state: MoverState,
    path: Seq<IVec3>,
    sensed: Sensed,
) -> (MoverState, MoverMove) {
    if !sensed.supported {
        (MoverState { mode: MoverMode::Fall, progress: state.progress }, MoverMove::StartFall)
    } else if !has_edge(state, path) {
        (state, MoverMove::Stand)
    } else {
        let edge = (state.progress->0).edge as int;
        let from = path[edge];
        let to = path[edge + 1];
        if !traversable(world, from, to) {
            (
                MoverState { mode: state.mode, progress: with_block(state.progress) },
                MoverMove::Stand,
            )
        } else if to.y != from.y {
            (
                MoverState { mode: MoverMode::Step { to }, progress: state.progress },
                MoverMove::StartArc { to },
            )
        } else if sensed.waypoint_reached {
            (
                MoverState { mode: state.mode, progress: one_edge_on(state.progress) },
                MoverMove::Walk { from, to, arrived: true, last: edge + 2 >= path.len() },
            )
        } else {
            (state, MoverMove::Walk { from, to, arrived: false, last: false })
        }
    }
}

/// One tick of the mover.
pub open spec fn mover_result<W: Walkability>(
    world: &W,
    state: MoverState,
    path: Seq<IVec3>,
    sensed: Sensed,
) -> (MoverState, MoverMove) {
    let s = settled(state, sensed);
    match s.mode {
        MoverMode::Fall => if sensed.landed {
            (
                MoverState { mode: MoverMode::Grounded, progress: with_block(s.progress) },
                MoverMove::Land,
            )
        } else {
            (s, MoverMove::KeepFalling)
        },
        MoverMode::Step { to } => if sensed.arc_done {
            let on_path = s.progress matches Some(p) && p.edge + 1 < path.len() && path[p.edge + 1]
                == to;
            (
                MoverState {
                    mode: MoverMode::Grounded,
                    progress: if on_path {
                        one_edge_on(s.progress)
                    } else {
                        s.progress
                    },
                },
                MoverMove::Arc { to, done: true },
            )
        } else {
            (s, MoverMove::Arc { to, done: false })
        },
        MoverMode::Grounded => grounded_step(world, s, path, sensed),
    }
}

fn step_grounded<W: Walkability>(
    world: &W,
    state: MoverState,
    path: &Vec<IVec3>,
    sensed: Sensed,
) -> (r: (MoverState, MoverMove))
    ensures
        r == grounded_step(world, state, path@, sensed),
{
    if !sensed.supported {
        return (
            MoverState { mode: MoverMode::Fall, progress: state.progress },
            MoverMove::StartFall,
        );
    }
    let p: PathProgress = match state.progress {
        None => {
            return (state, MoverMove::Stand);
        },
        Some(p) => p,
    };
    if p.blocked || p.edge >= path.len() || path.len() - p.edge < 2 {
        return (state, MoverMove::Stand);
    }
    let from: IVec3 = path[p.edge];
    let to: IVec3 = path[p.edge + 1];
    if !edge_traversable(world, from, to) {
        let blocked: PathProgress = PathProgress { edge: p.edge, blocked: true };
        return (MoverState { mode: state.mode, progress: Some(blocked) }, MoverMove::Stand);
    }
    if to.y != from.y {
        return (
            MoverState { mode: MoverMode::Step { to }, progress: state.progress },
            MoverMove::StartArc { to },
        );
    }
    if sensed.waypoint_reached {
        let next: PathProgress = PathProgress { edge: p.edge + 1, blocked: p.blocked };
        return (
            MoverState { mode: state.mode, progress: Some(next) },
            MoverMove::Walk { from, to, arrived: true, last: path.len() - p.edge <= 2 },
        );
    }
    (state, MoverMove::Walk { from, to, arrived: false, last: false })
}

/// Decides what the body does in this tick.
pub fn mover_step<W: Walkability>(
    world: &W,
    state: MoverState,
    path: &Vec<IVec3>,
    sensed: Sensed,
) -> (r: (MoverState, MoverMove))
    ensures
        r == mover_result(world, state, path@, sensed),
{
    let s: MoverState = if sensed.displaced {
        MoverState {
            mode: MoverMode::Grounded,
            progress: match state.progress {
                Some(p) => Some(PathProgress { edge: p.edge, blocked: true }),
                None => None,
            },
        }
    } else {
        state
    };
    match s.mode {
        MoverMode::Fall => {
            if sensed.landed {
                let progress: Option<PathProgress> = match s.progress {
                    Some(p) => Some(PathProgress { edge: p.edge, blocked: true }),
                    None => None,
                };
                (MoverState { mode: MoverMode::Grounded, progress }, MoverMove::Land)
            } else {
                (s, MoverMove::KeepFalling)
            }
        },
        MoverMode::Step { to } => {
            if sensed.arc_done {
                let progress: Option<PathProgress> = match s.progress {
                    Some(p) => if p.edge < path.len() && path.len() - p.edge >= 2 && path[p.edge + 1]
                        == to {
                        Some(PathProgress { edge: p.edge + 1, blocked: p.blocked })
                    } else {
                        Some(p)
                    },
                    None => None,
                };
                (
                    MoverState { mode: MoverMode::Grounded, progress },
                    MoverMove::Arc { to, done: true },
                )
            } else {
                (s, MoverMove::Arc { to, done: false })
            }
        },
        MoverMode::Grounded => step_grounded(world, s, path, sensed),
    }
}

/// However the world changes, a mover never leaves its path: progress is kept
/// or grows by one edge, and stays within the path.
pub proof fn law_mover_stays_on_path<W: Walkability>(
    world: &W,
    state: MoverState,
    path: Seq<IVec3>,
    sensed: Sensed,
)
    requires
        state.progress matches Some(p) ==> p.edge < path.len(),
        path.len() <= usize::MAX,
    ensures
        ({
            let after = mover_result(world, state, path, sensed).0;
            &&& after.progress is Some <==> state.progress is Some
            &&& state.progress matches Some(p) ==> (after.progress->0).edge < path.len() && (p.edge
                == (after.progress->0).edge || p.edge + 1 == (after.progress->0).edge)
            &&& state.progress matches Some(p) ==> p.blocked ==> (after.progress->0).blocked
        }),
{
}

/// A body only ever walks or climbs to a place where it can stand.
pub proof fn law_mover_heads_for_footing<W: Walkability>(
    world: &W,
    state: MoverState,
    path: Seq<IVec3>,
    sensed: Sensed,
)
    ensures
        match mover_result(world, state, path, sensed).1 {
            MoverMove::StartArc { to } => can_stand(world, to),
            MoverMove::Walk { from, to, .. } => can_stand(world, to) && from.y == to.y,
            _ => true,
        },
{
}

/// A body steps to a cell exactly if it can stand there and the way is open: on
/// the level always, one up where the second cell over its feet is free, one
/// down where the cell over the landing is free. Higher or deeper it never
/// steps, and wherever it steps there is ground below it and room for it.
pub proof fn law_bodies_step_at_most_one_cell<W: Walkability>(world: &W, from: IVec3, to: IVec3)
    requires
        to.y > i32::MIN,
        from.y < i32::MAX - 1,
        to.y < i32::MAX,
    ensures
        ({
            let ground = IVec3 { x: to.x, y: (to.y - 1) as i32, z: to.z };
            let head = IVec3 { x: to.x, y: (to.y + 1) as i32, z: to.z };
            let over = IVec3 { x: from.x, y: (from.y + 2) as i32, z: from.z };
            &&& to.y == from.y ==> (traversable(world, from, to) <==> can_stand(world, to))
            &&& to.y == from.y + 1 ==> (traversable(world, from, to) <==> can_stand(world, to)
                && !world.body_blocked(over))
            &&& to.y == from.y - 1 ==> (traversable(world, from, to) <==> can_stand(world, to)
                && !world.body_blocked(head))
            &&& (to.y > from.y + 1 || to.y < from.y - 1) ==> !traversable(world, from, to)
            &&& traversable(world, from, to) ==> world.solid(ground) && !world.solid(to)
                && !world.solid(head)
        }),
{
}

/// A falling body rests in a cell exactly if the cell is free and the one
/// right below it carries weight.
pub proof fn law_falls_end_on_the_ground<W: Walkability>(world: &W, foot: IVec3)
    requires
        foot.y > i32::MIN,
    ensures
        rests_at(world, foot) <==> !world.body_blocked(foot) && world.solid(
            IVec3 { x: foot.x, y: (foot.y - 1) as i32, z: foot.z },
        ),
{
}

/// A body is held up exactly if right below one of its cells something carries
/// weight, whichever of them it is.
pub proof fn law_one_corner_holds_a_body<W: Walkability>(
    world: &W,
    cells: Seq<IVec3>,
    below: Seq<IVec3>,
)
    requires
        below.len() == cells.len(),
        forall|i: int|
            0 <= i < cells.len() ==> (#[trigger] below[i]).x == cells[i].x && below[i].z
                == cells[i].z && below[i].y == cells[i].y - 1,
    ensures
        any_support(world, cells) <==> exists|i: int|
            0 <= i < below.len() && world.solid(#[trigger] below[i]),
{
    assert forall|i: int| 0 <= i < cells.len() implies shifted(#[trigger] cells[i], 0, -1, 0)
        == below[i] by {}
    if any_support(world, cells) {
        let i = choose|i: int|
            0 <= i < cells.len() && world.solid(shifted(#[trigger] cells[i], 0, -1, 0));
        assert(world.solid(below[i]));
    }
    if exists|i: int| 0 <= i < below.len() && world.solid(#[trigger] below[i]) {
        let i = choose|i: int| 0 <= i < below.len() && world.solid(#[trigger] below[i]);
        assert(world.solid(shifted(cells[i], 0, -1, 0)));
    }
}

/// A fall goes on until it lands. Then the body is on the ground, and the path
/// that it fell off no longer holds.
pub proof fn law_falls_go_on_until_they_land<W: Walkability>(
    world: &W,
    state: MoverState,
    path: Seq<IVec3>,
    sensed: Sensed,
)
    requires
        state.mode is Fall,
        !sensed.displaced,
    ensures
        ({
            let (after, act) = mover_result(world, state, path, sensed);
            &&& !sensed.landed ==> act is KeepFalling && after == state
            &&& sensed.landed ==> act is Land && after.mode is Grounded
            &&& sensed.landed ==> (after.progress is Some <==> state.progress is Some)
            &&& sensed.landed && state.progress is Some ==> (after.progress->0).blocked && (
            after.progress->0).edge == (state.progress->0).edge
        }),
{
}

/// An arc goes on until it is done. Then the body is on the ground, and one
/// edge further exactly if the arc led to the next waypoint.
pub proof fn law_arcs_end_one_edge_on<W: Walkability>(
    world: &W,
    state: MoverState,
    path: Seq<IVec3>,
    sensed: Sensed,
    to: IVec3,
)
    requires
        state.mode == (MoverMode::Step { to }),
        !sensed.displaced,
        path.len() <= usize::MAX,
    ensures
        ({
            let (after, act) = mover_result(world, state, path, sensed);
            let done = sensed.arc_done;
            &&& act is Arc && act->Arc_to == to && (act->done <==> done)
            &&& !done ==> after == state
            &&& done ==> after.mode is Grounded
            &&& done ==> (after.progress is Some <==> state.progress is Some)
            &&& done && state.progress is Some ==> {
                let before = state.progress->0;
                let now = after.progress->0;
                &&& now.blocked == before.blocked
                &&& before.edge + 1 < path.len() && path[before.edge + 1] == to ==> now.edge
                    == before.edge + 1
                &&& before.edge + 1 >= path.len() || path[before.edge + 1] != to ==> now.edge
                    == before.edge
            }
        }),
{
}

/// A body that is moved by something else gives up its path and goes on from
/// the ground, whatever it was doing: it falls where nothing holds it, and
/// stands where something does.
pub proof fn law_displaced_bodies_give_up_their_path<W: Walkability>(
    world: &W,
    state: MoverState,
    path: Seq<IVec3>,
    sensed: Sensed,
)
    requires
        sensed.displaced,
    ensures
        ({
            let (after, act) = mover_result(world, state, path, sensed);
            &&& sensed.supported ==> act is Stand && after.mode is Grounded
            &&& !sensed.supported ==> act is StartFall && after.mode is Fall
            &&& after.progress is Some <==> state.progress is Some
            &&& state.progress is Some ==> (after.progress->0).blocked && (after.progress->0).edge
                == (state.progress->0).edge
        }),
{
}

/// A body on the ground falls exactly if nothing holds it; its path still
/// holds while it does.
pub proof fn law_unsupported_bodies_fall<W: Walkability>(
    world: &W,
    state: MoverState,
    path: Seq<IVec3>,
    sensed: Sensed,
)
    requires
        state.mode is Grounded,
    ensures
        ({
            let (after, act) = mover_result(world, state, path, sensed);
            &&& act is StartFall <==> !sensed.supported
            &&& after.mode is Fall <==> !sensed.supported
            &&& !sensed.supported && !sensed.displaced ==> after.progress == state.progress
        }),
{
}

/// A body that is held up and has an open edge before it takes it: an arc
/// where the edge goes up or down, a walk on the level. It arrives where the
/// waypoint is within its stride, and only the last waypoint is the last.
pub proof fn law_open_edges_are_taken<W: Walkability>(
    world: &W,
    state: MoverState,
    path: Seq<IVec3>,
    sensed: Sensed,
    edge: usize,
)
    requires
        state.mode is Grounded,
        sensed.supported,
        !sensed.displaced,
        state.progress == Some((PathProgress { edge, blocked: false })),
        edge + 1 < path.len() <= usize::MAX,
        traversable(world, path[edge as int], path[edge + 1]),
    ensures
        ({
            let (after, act) = mover_result(world, state, path, sensed);
            let from = path[edge as int];
            let to = path[edge + 1];
            &&& after.progress is Some && !(after.progress->0).blocked
            &&& from.y != to.y ==> act is StartArc && act->StartArc_to == to
            &&& from.y != to.y ==> after.mode is Step && after.mode->to == to
            &&& from.y != to.y ==> (after.progress->0).edge == edge
            &&& from.y == to.y ==> act is Walk && act->from == from && act->Walk_to == to
            &&& from.y == to.y ==> after.mode is Grounded
            &&& from.y == to.y ==> (act->arrived <==> sensed.waypoint_reached)
            &&& from.y == to.y ==> (act->last <==> sensed.waypoint_reached && edge + 2
                == path.len())
            &&& from.y == to.y && sensed.waypoint_reached ==> (after.progress->0).edge == edge + 1
            &&& from.y == to.y && !sensed.waypoint_reached ==> (after.progress->0).edge == edge
        }),
{
}

/// A body that is held up stands where it has no edge to take: without a path,
/// on a path that no longer holds, or at its end. Before an edge that the
/// world has closed it stands, and the path no longer holds.
pub proof fn law_bodies_stand_before_closed_edges<W: Walkability>(
    world: &W,
    state: MoverState,
    path: Seq<IVec3>,
    sensed: Sensed,
)
    requires
        state.mode is Grounded,
        sensed.supported,
        !sensed.displaced,
    ensures
        ({
            let (after, act) = mover_result(world, state, path, sensed);
            &&& state.progress is None ==> act is Stand && after == state
            &&& state.progress is Some ==> {
                let p = state.progress->0;
                let closed = !p.blocked && p.edge + 1 < path.len() && !traversable(
                    world,
                    path[p.edge as int],
                    path[p.edge + 1],
                );
                &&& p.blocked || p.edge + 1 >= path.len() ==> act is Stand && after == state
                &&& closed ==> act is Stand && after.mode is Grounded && after.progress is Some
                &&& closed ==> (after.progress->0).blocked && (after.progress->0).edge == p.edge
            }
        }),
{
}

} // verus!
