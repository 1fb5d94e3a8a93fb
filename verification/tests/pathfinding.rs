use steering::geom::{Point, Cell};
use steering::grid::Grid;
use steering::search::find_path;
use steering::controller::{AStarCar, MoveAction, RecalcTimer, should_recalculate};
use steering::agent::{PathfindingBrain, spawn_position, astar_stats, needs_recalc, apply_recalc};

fn pt(x: i64, y: i64) -> Point {
    Point { x, y }
}

fn cell(x: i64, y: i64) -> Cell {
    Cell { x, y }
}

#[test]
fn round_trip_on_walkable_cell() {
    let g = Grid::new(100, 200, 20, pt(600, 0));
    let c = cell(3, 7);
    let w = g.grid_to_world(c);
    assert_eq!(w, pt(660, 140));
    assert_eq!(g.world_to_grid(w), c);
}

#[test]
fn world_to_grid_truncates_toward_zero() {
    let g = Grid::new(10, 10, 20, pt(0, 0));
    // Just left of the origin still lands in cell 0: truncation, not flooring.
    assert_eq!(g.world_to_grid(pt(-5, -5)), cell(0, 0));
    assert_eq!(g.world_to_grid(pt(-25, -25)), cell(-1, -1));
    assert_eq!(g.world_to_grid(pt(39, 19)), cell(1, 0));
}

#[test]
fn validity_and_walkability() {
    let mut g = Grid::new(10, 10, 20, pt(0, 0));
    assert!(g.is_valid(cell(0, 0)));
    assert!(g.is_valid(cell(9, 9)));
    assert!(!g.is_valid(cell(10, 9)));
    assert!(!g.is_valid(cell(-1, 0)));
    assert!(g.is_walkable(cell(5, 5)));
    let hits = vec![cell(5, 5)];
    g.update_obstacles(pt(100, 100), 300, &hits);
    assert!(g.is_valid(cell(5, 5)));
    assert!(!g.is_walkable(cell(5, 5)));
}

#[test]
fn update_obstacles_replaces_and_filters() {
    let mut g = Grid::new(10, 10, 20, pt(0, 0));
    g.update_obstacles(pt(100, 100), 300, &vec![cell(2, 2)]);
    assert!(!g.is_walkable(cell(2, 2)));
    // A new scan replaces the previous set wholesale.
    g.update_obstacles(pt(100, 100), 300, &vec![cell(3, 3)]);
    assert!(g.is_walkable(cell(2, 2)));
    assert!(!g.is_walkable(cell(3, 3)));
    // Invalid cells and cells outside the scan window are ignored.
    g.update_obstacles(pt(100, 100), 40, &vec![cell(20, 20), cell(0, 0), cell(5, 5)]);
    assert!(g.is_walkable(cell(0, 0))); // window is cells [3,7) x [3,7)
    assert!(!g.is_walkable(cell(5, 5)));
}

#[test]
fn scan_targets_cover_the_window() {
    let g = Grid::new(10, 10, 20, pt(0, 0));
    // Center cell (5,5), radius 40 -> 2 cells per direction: [3,7) x [3,7).
    let targets = g.scan_targets(pt(100, 100), 40);
    assert_eq!(targets.len(), 16);
    assert!(targets.contains(&cell(3, 3)));
    assert!(targets.contains(&cell(6, 6)));
    assert!(!targets.contains(&cell(7, 6)));
    assert!(!targets.contains(&cell(2, 3)));
}

#[test]
fn fallback_when_goal_out_of_bounds() {
    // Grid 10x10, cell size 20, origin (0,0), one blocked cell at (5,5);
    // the goal (200,200) maps to cell (10,10), which is out of bounds.
    let mut g = Grid::new(10, 10, 20, pt(0, 0));
    g.update_obstacles(pt(100, 100), 300, &vec![cell(5, 5)]);
    assert_eq!(g.world_to_grid(pt(0, 0)), cell(0, 0));
    assert_eq!(g.world_to_grid(pt(200, 200)), cell(10, 10));
    assert!(!g.is_walkable(cell(10, 10)));
    let path = find_path(&g, pt(0, 0), pt(200, 200));
    assert_eq!(path, vec![pt(0, 50), pt(0, 100), pt(0, 150), pt(200, 200)]);
}

#[test]
fn fallback_when_start_blocked() {
    let mut g = Grid::new(10, 10, 20, pt(0, 0));
    g.update_obstacles(pt(100, 100), 300, &vec![cell(0, 0)]);
    let path = find_path(&g, pt(0, 0), pt(40, 0));
    assert_eq!(path, vec![pt(0, 50), pt(0, 100), pt(0, 150), pt(40, 0)]);
}

#[test]
fn fallback_when_goal_unreachable() {
    // Wall the goal cell (8,8) off completely: the search exhausts its
    // frontier and returns the same fallback.
    let mut g = Grid::new(10, 10, 20, pt(0, 0));
    let hits = vec![cell(7, 8), cell(9, 8), cell(8, 7), cell(8, 9), cell(7, 7), cell(9, 9), cell(7, 9), cell(9, 7)];
    g.update_obstacles(pt(100, 100), 300, &hits);
    let path = find_path(&g, pt(0, 0), pt(170, 170));
    assert_eq!(path, vec![pt(0, 50), pt(0, 100), pt(0, 150), pt(170, 170)]);
}

#[test]
fn straight_path_has_manhattan_length() {
    // Same grid, no obstacles; start cell (0,0), goal cell (2,0):
    // exactly the two waypoints (1,0) and (2,0) in world coordinates.
    let g = Grid::new(10, 10, 20, pt(0, 0));
    let path = find_path(&g, pt(0, 0), pt(40, 0));
    assert_eq!(path, vec![pt(20, 0), pt(40, 0)]);
}

#[test]
fn path_steps_are_grid_adjacent() {
    let mut g = Grid::new(10, 10, 20, pt(0, 0));
    g.update_obstacles(pt(100, 100), 300, &vec![cell(1, 0), cell(1, 1)]);
    let path = find_path(&g, pt(0, 0), pt(60, 0));
    assert!(path.len() >= 2);
    let mut prev = g.world_to_grid(pt(0, 0));
    for p in &path {
        let c = g.world_to_grid(*p);
        let d = (c.x - prev.x).abs() + (c.y - prev.y).abs();
        assert_eq!(d, 1);
        assert!(g.is_walkable(c));
        prev = c;
    }
    assert_eq!(prev, cell(3, 0));
    // The detour around the two blocked cells takes exactly seven steps,
    // one per returned waypoint.
    assert_eq!(path.len(), 7);
}

#[test]
fn empty_grid_path_length_is_manhattan_distance() {
    // With no obstacles the search always succeeds and the waypoint count
    // equals the Manhattan distance between the start and goal cells.
    let g = Grid::new(10, 10, 20, pt(0, 0));
    let start = pt(10, 10); // cell (0,0)
    let goal = pt(130, 170); // cell (6,8)
    let path = find_path(&g, start, goal);
    assert_eq!(path.len(), 14);
    let last = *path.last().unwrap();
    assert_eq!(g.world_to_grid(last), cell(6, 8));
    let mut prev = cell(0, 0);
    for p in &path {
        let c = g.world_to_grid(*p);
        assert_eq!((c.x - prev.x).abs() + (c.y - prev.y).abs(), 1);
        prev = c;
    }
}

#[test]
fn tie_break_prefers_larger_heuristic() {
    // Two equally short paths to (1,1); the tie rule (equal f, larger h
    // first) explores east first and keeps the eastern corner.
    let g = Grid::new(10, 10, 20, pt(0, 0));
    let path = find_path(&g, pt(0, 0), pt(20, 20));
    assert_eq!(path, vec![pt(20, 0), pt(20, 20)]);
}

#[test]
fn goal_cell_equal_to_start_cell() {
    // Start and goal in the same walkable cell: a single waypoint, never an
    // empty path.
    let g = Grid::new(10, 10, 20, pt(0, 0));
    let path = find_path(&g, pt(5, 5), pt(10, 10));
    assert_eq!(path, vec![pt(0, 0)]);
}

#[test]
fn advance_without_moving_when_close() {
    // Agent 10 units from the first waypoint, threshold 50: the first tick
    // advances the target index without requesting movement.
    let mut car = AStarCar::new();
    car.path = vec![pt(0, 10), pt(0, 500)];
    car.current_target = 0;
    let action = car.movement_step(pt(0, 0));
    assert_eq!(action, MoveAction::Hold);
    assert_eq!(car.current_target, 1);
    assert_eq!(car.path.len(), 2);
}

#[test]
fn controller_clears_exhausted_path() {
    // Both waypoints within the threshold: repeated ticks advance the index
    // and then clear the path; afterwards the controller falls back to
    // forward motion.
    let mut car = AStarCar::new();
    car.path = vec![pt(0, 10), pt(0, 20)];
    car.current_target = 0;
    assert_eq!(car.movement_step(pt(0, 0)), MoveAction::Hold);
    assert_eq!(car.current_target, 1);
    assert_eq!(car.movement_step(pt(0, 0)), MoveAction::Hold);
    assert!(car.path.is_empty());
    // Clearing the path returns the index to 0, keeping it within
    // [0, path.len()].
    assert_eq!(car.current_target, 0);
    assert_eq!(car.movement_step(pt(0, 0)), MoveAction::Forward);
}

#[test]
fn controller_moves_toward_distant_waypoint() {
    let mut car = AStarCar::new();
    car.path = vec![pt(0, 100)];
    car.current_target = 0;
    assert_eq!(car.movement_step(pt(0, 0)), MoveAction::Toward(pt(0, 100)));
    assert_eq!(car.current_target, 0);
}

#[test]
fn controller_resets_when_index_past_end() {
    let mut car = AStarCar::new();
    car.path = vec![pt(0, 100)];
    car.current_target = 1;
    assert_eq!(car.movement_step(pt(0, 0)), MoveAction::Hold);
    assert!(car.path.is_empty());
    assert_eq!(car.current_target, 0);
}

#[test]
fn timer_repeats_and_rolls_over() {
    let mut t = RecalcTimer::new(1000);
    assert!(!t.tick(400));
    assert!(!t.tick(400));
    assert!(t.tick(400)); // 1200 total: completed, 200 carried over
    assert_eq!(t.elapsed, 200);
    assert!(t.tick(800));
    assert_eq!(t.elapsed, 0);
}

#[test]
fn trigger_fires_on_timer_or_displacement() {
    assert!(should_recalculate(true, 0));
    assert!(!should_recalculate(false, 2500)); // exactly the threshold: no
    assert!(should_recalculate(false, 2501));
    assert!(!should_recalculate(false, 0));
}

#[test]
fn needs_recalc_combines_timer_and_distance() {
    let mut car = AStarCar::new();
    let brain = PathfindingBrain::new(); // last position (0,0)
    // Small delta, close to last scan position: no replanning.
    assert!(!needs_recalc(&mut car, &brain, pt(0, 40), 10));
    // Displacement beyond 50 units triggers it regardless of the timer.
    assert!(needs_recalc(&mut car, &brain, pt(0, 51), 10));
    // Timer completion triggers it even while standing still.
    assert!(needs_recalc(&mut car, &brain, pt(0, 0), 1000));
}

#[test]
fn apply_recalc_rebuilds_state() {
    let mut car = AStarCar::new();
    car.path = vec![pt(0, 0)];
    car.current_target = 1;
    let mut brain = PathfindingBrain::new();
    let pos = pt(700, 100); // cell (5,5) of the default grid
    apply_recalc(&mut car, &mut brain, pos, &vec![]);
    assert_eq!(brain.last_position, pos);
    assert_eq!(car.current_target, 0);
    assert!(!car.path.is_empty());
    // Goal is 500 units ahead: cell (5,30); with nothing sensed the search
    // succeeds, ending in the goal cell, 25 steps north of the start cell.
    let last = *car.path.last().unwrap();
    assert_eq!(brain.grid.world_to_grid(last), cell(5, 30));
    assert_eq!(car.path.len(), 25);
}

#[test]
fn default_brain_matches_corridor_grid() {
    let b = PathfindingBrain::new();
    assert_eq!(b.grid.width, 100);
    assert_eq!(b.grid.height, 200);
    assert_eq!(b.grid.cell_size, 20);
    assert_eq!(b.grid.origin, pt(600, 0));
    assert!(b.grid.obstacles.is_empty());
}

#[test]
fn spawn_positions_fill_rows_of_ten() {
    assert_eq!(spawn_position(0, 850, 360), pt(850, 360));
    assert_eq!(spawn_position(9, 850, 360), pt(985, 360));
    assert_eq!(spawn_position(13, 850, 360), pt(895, 390));
}

#[test]
fn stats_report_best_score_and_position() {
    let ys = vec![100, 1700, 680, 1700];
    let (alive, best_score, best_y) = astar_stats(&ys);
    assert_eq!(alive, 4);
    assert_eq!(best_score, 5); // 1700 / 340
    assert_eq!(best_y, 1700);
    let (alive2, s2, y2) = astar_stats(&vec![]);
    assert_eq!(alive2, 0);
    assert_eq!(s2, 0);
    assert_eq!(y2, 0);
    // Negative positions never beat the zero baseline.
    let (_, s3, y3) = astar_stats(&vec![-500, -1]);
    assert_eq!(s3, 0);
    assert_eq!(y3, 0);
    // The comparison is on positions, not on truncated scores: of two
    // agents with the same truncated score the farther one is reported.
    let (_, s4, y4) = astar_stats(&vec![350, 679]);
    assert_eq!(s4, 1);
    assert_eq!(y4, 679);
    // A short positive distance is still recorded, even at score 0.
    let (_, s5, y5) = astar_stats(&vec![100]);
    assert_eq!(s5, 0);
    assert_eq!(y5, 100);
}
