//! Per-agent navigation state and its per-tick orchestration: the grid each
//! agent owns, the decision to replan, the replanning event itself, spawn
//! placement, and the aggregate travel statistics.

use vstd::prelude::*;
use crate::geom::{Point, Cell, div_trunc, div_trunc_spec, dist_sq, point_in_world, point_in_range,
    WORLD_LIMIT};
use crate::grid::Grid;
use crate::search::{find_path, fallback_spec, real_path_spec, reachable_spec};
use crate::controller::{AStarCar, should_recalculate};

verus! {

/// Marker for agents driven by the grid search strategy, as opposed to a
/// learned navigation strategy; selected once at spawn time.
pub struct AStarAgent;

/// Cell counts of the per-agent grid: a long corridor, taller than wide.
pub const GRID_WIDTH: i64 = 100;

pub const GRID_HEIGHT: i64 = 200;

/// World units per grid cell.
pub const GRID_CELL_SIZE: i64 = 20;

/// World-space anchor of cell (0,0).
pub const GRID_ORIGIN_X: i64 = 600;

pub const GRID_ORIGIN_Y: i64 = 0;

/// Radius (world units) of the square obstacle scan around an agent.
pub const SCAN_RADIUS: i64 = 300;

/// Forward offset (world units) at which every replanning places its goal.
pub const GOAL_AHEAD: i64 = 500;

/// Divisor converting forward distance into the reported score.
pub const DISTANCE_SCALE: i64 = 340;

/// The sensing-and-planning state one agent owns: its private occupancy
/// grid and the position recorded at the last obstacle scan.
#[derive(Clone, Debug)]
pub struct PathfindingBrain {
    pub grid: Grid,
    pub last_position: Point,
}

impl PathfindingBrain {
    pub open spec fn wf(self) -> bool {
        self.grid.wf() && point_in_world(self.last_position)
    }

    pub fn new() -> (b: PathfindingBrain)
        ensures
            b.wf(),
            b.grid.width == GRID_WIDTH,
            b.grid.height == GRID_HEIGHT,
            b.grid.cell_size == GRID_CELL_SIZE,
            b.grid.origin == (Point { x: GRID_ORIGIN_X, y: GRID_ORIGIN_Y }),
            b.grid.obstacles@.len() == 0,
            b.last_position == (Point { x: 0, y: 0 }),
    {
        let grid = Grid::new(
            GRID_WIDTH,
            GRID_HEIGHT,
            GRID_CELL_SIZE,
            Point { x: GRID_ORIGIN_X, y: GRID_ORIGIN_Y },
        );
        PathfindingBrain { grid, last_position: Point { x: 0, y: 0 } }
    }
}

/// The goal every replanning aims at: straight ahead of the current
/// position by the fixed forward offset.
pub open spec fn plan_goal_spec(pos: Point) -> Point {
    Point { x: pos.x, y: (pos.y + GOAL_AHEAD) as i64 }
}

/// One tick of the replanning trigger: advances the repeating timer by the
/// elapsed time and reports whether to replan now — because the timer
/// completed, or because the agent moved more than the distance threshold
/// since the last recorded scan position.
pub fn needs_recalc(car: &mut AStarCar, brain: &PathfindingBrain, pos: Point, delta: i64) -> (r:
    bool)
    requires
        old(car).wf(),
        brain.wf(),
        point_in_range(pos),
        0 <= delta <= 1_000_000_000,
    ensures
        final(car).wf(),
        final(car).path == old(car).path,
        final(car).current_target == old(car).current_target,
        final(car).recalculate_timer.period == old(car).recalculate_timer.period,
        ({
            let t0 = old(car).recalculate_timer;
            let t1 = final(car).recalculate_timer;
            &&& t0.elapsed + delta < t0.period ==> t1.elapsed == t0.elapsed + delta
            &&& t0.elapsed + delta >= t0.period ==> t1.elapsed == (t0.elapsed + delta) % (
            t0.period as int)
        }),
        r == (old(car).recalculate_timer.elapsed + delta >= old(car).recalculate_timer.period
            || crate::geom::dist_sq_spec(brain.last_position, pos)
            > crate::controller::THRESHOLD_SQ),
{
    let finished = car.recalculate_timer.tick(delta);
    let moved_sq = dist_sq(brain.last_position, pos);
    should_recalculate(finished, moved_sq)
}

/// One replanning event: rebuilds the obstacle set from the sensing pass'
/// reported hit cells, searches a fresh path from `pos` to the fixed
/// forward goal, resets the waypoint index, and records `pos` as the last
/// scanned position.
pub fn apply_recalc(car: &mut AStarCar, brain: &mut PathfindingBrain, pos: Point, hits: &Vec<Cell>)
    requires
        old(car).wf(),
        old(brain).wf(),
        point_in_world(pos),
        -WORLD_LIMIT <= pos.y + GOAL_AHEAD <= WORLD_LIMIT,
    ensures
        final(car).wf(),
        final(brain).wf(),
        final(brain).grid.width == old(brain).grid.width,
        final(brain).grid.height == old(brain).grid.height,
        final(brain).grid.cell_size == old(brain).grid.cell_size,
        final(brain).grid.origin == old(brain).grid.origin,
        forall|c: Cell| #[trigger] final(brain).grid.obstacles@.contains(c) <==> hits@.contains(c)
            && old(brain).grid.valid_spec(c) && old(brain).grid.in_window_spec(
            pos,
            SCAN_RADIUS,
            c,
        ),
        final(brain).last_position == pos,
        final(car).current_target == 0,
        final(car).recalculate_timer == old(car).recalculate_timer,
        final(car).path@.len() > 0,
        ({
            let g = final(brain).grid;
            let sc = g.world_to_grid_spec(pos);
            let gc = g.world_to_grid_spec(plan_goal_spec(pos));
            &&& !(g.walkable_spec(sc) && g.walkable_spec(gc)) ==> final(car).path@
                =~= fallback_spec(pos, plan_goal_spec(pos))
            &&& g.walkable_spec(sc) && g.walkable_spec(gc) ==> (final(car).path@ =~= fallback_spec(
                pos,
                plan_goal_spec(pos),
            ) || real_path_spec(g, sc, gc, final(car).path@))
            &&& g.walkable_spec(sc) && g.walkable_spec(gc) && reachable_spec(g, sc, gc)
                ==> real_path_spec(g, sc, gc, final(car).path@)
        }),
{
    brain.grid.update_obstacles(pos, SCAN_RADIUS, hits);
    let goal = Point { x: pos.x, y: pos.y + GOAL_AHEAD };
    let path = find_path(&brain.grid, pos, goal);
    car.path = path;
    car.current_target = 0;
    brain.last_position = pos;
}

/// World-space spawn position of the `i`-th agent of a population arranged
/// in rows of ten near the starting line.
pub fn spawn_position(i: usize, base_x: i64, base_y: i64) -> (p: Point)
    requires
        i < 1_000_000,
        -900_000_000 <= base_x <= 900_000_000,
        -900_000_000 <= base_y <= 900_000_000,
    ensures
        p.x == base_x + (i as int % 10) * 15,
        p.y == base_y + (i as int / 10) * 30,
        point_in_world(p),
{
    let col: i64 = (i % 10) as i64;
    let row: i64 = (i / 10) as i64;
    Point { x: base_x + col * 15, y: base_y + row * 30 }
}

/// The fold behind the per-tick statistics: the farthest forward (y)
/// position across the population, measured against a zero baseline — an
/// agent that has not moved forward past the origin is never reported.
pub open spec fn stats_fold(ys: Seq<i64>) -> int
    decreases ys.len(),
{
    if ys.len() == 0 {
        0
    } else {
        let prev = stats_fold(ys.drop_last());
        if ys.last() > prev {
            ys.last() as int
        } else {
            prev
        }
    }
}

/// Per-tick aggregate statistics over the population's forward positions:
/// how many agents are tracked, the best score (the farthest forward
/// position divided by the fixed conversion factor), and that farthest
/// forward position itself (zeros when no agent is past the baseline).
pub fn astar_stats(ys: &Vec<i64>) -> (r: (usize, i64, i64))
    requires
        forall|i: int| 0 <= i < ys@.len() ==> -WORLD_LIMIT <= #[trigger] ys@[i] <= WORLD_LIMIT,
    ensures
        r.0 == ys@.len(),
        r.2 == stats_fold(ys@),
        r.1 == div_trunc_spec(stats_fold(ys@), DISTANCE_SCALE as int),
{
    let mut best_y: i64 = 0;
    let mut i: usize = 0;
    while i < ys.len()
        invariant
            i <= ys@.len(),
            forall|j: int| 0 <= j < ys@.len() ==> -WORLD_LIMIT <= #[trigger] ys@[j] <= WORLD_LIMIT,
            best_y as int == stats_fold(ys@.subrange(0, i as int)),
            0 <= best_y <= WORLD_LIMIT,
        decreases ys@.len() - i,
    {
        proof {
            assert(ys@.subrange(0, i + 1).drop_last() =~= ys@.subrange(0, i as int));
            assert(ys@.subrange(0, i + 1).last() == ys@[i as int]);
        }
        if ys[i] > best_y {
            best_y = ys[i];
        }
        i = i + 1;
    }
    proof {
        assert(ys@.subrange(0, ys@.len() as int) =~= ys@);
    }
    let best_score = div_trunc(best_y, DISTANCE_SCALE);
    (ys.len(), best_score, best_y)
}

} // verus!
