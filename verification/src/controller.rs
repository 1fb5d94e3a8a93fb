//! The per-tick path-following controller and the replanning trigger: when
//! to advance to the next waypoint, when to fall back to plain forward
//! motion, and when a rescan-and-research is due.

use vstd::prelude::*;
use crate::geom::{Point, dist_sq, dist_sq_spec, point_in_range};

verus! {

/// Distance threshold (world units) both for reaching a waypoint and for the
/// displacement half of the replanning trigger.
pub const MOVE_THRESHOLD: i64 = 50;

/// The squared threshold, as every comparison is made on squared distances.
pub const THRESHOLD_SQ: i64 = 50 * 50;

/// Forward speed of an agent, world units per time unit; the motion itself
/// is applied by the surrounding simulation.
pub const FORWARD_SPEED: i64 = 100;

/// Default period of the repeating recalculation timer, in time ticks.
pub const RECALC_PERIOD: i64 = 1000;

/// A repeating countdown driving periodic replanning: advancing it by the
/// elapsed time reports completion and rolls the remainder over.
#[derive(Clone, Copy, PartialEq, Eq, Structural, Debug)]
pub struct RecalcTimer {
    pub period: i64,
    pub elapsed: i64,
}

impl RecalcTimer {
    pub open spec fn wf(self) -> bool {
        0 < self.period <= 1_000_000_000 && 0 <= self.elapsed < self.period
    }

    pub fn new(period: i64) -> (t: RecalcTimer)
        requires
            0 < period <= 1_000_000_000,
        ensures
            t.wf(),
            t.period == period,
            t.elapsed == 0,
    {
        RecalcTimer { period, elapsed: 0 }
    }

    /// Advances the timer by `delta` ticks; reports whether the period
    /// completed during this advance, rolling any excess into the next
    /// period as a repeating timer does.
    pub fn tick(&mut self, delta: i64) -> (finished: bool)
        requires
            old(self).wf(),
            0 <= delta <= 1_000_000_000,
        ensures
            final(self).wf(),
            final(self).period == old(self).period,
            finished == (old(self).elapsed + delta >= old(self).period),
            finished ==> final(self).elapsed == (old(self).elapsed + delta) % (
            old(self).period as int),
            !finished ==> final(self).elapsed == old(self).elapsed + delta,
    {
        let e = self.elapsed + delta;
        if e >= self.period {
            self.elapsed = e % self.period;
            true
        } else {
            self.elapsed = e;
            false
        }
    }
}

/// What the controller asks of the surrounding simulation for this tick.
#[derive(Clone, Copy, PartialEq, Eq, Structural, Debug)]
pub enum MoveAction {
    /// No usable waypoint: keep moving along the current heading.
    Forward,
    /// Bookkeeping only (a waypoint was reached or the path was exhausted);
    /// no movement this tick.
    Hold,
    /// Move toward the carried waypoint, rotating the heading toward it.
    Toward(Point),
}

/// Navigation state of one agent: the current waypoint path, the index of
/// the waypoint being steered toward, and the replanning timer.
#[derive(Clone, Debug)]
pub struct AStarCar {
    pub path: Vec<Point>,
    pub current_target: usize,
    pub recalculate_timer: RecalcTimer,
}

/// The controller's state transition for one tick at position `pos`:
/// an empty path is left alone; a reached waypoint advances the index;
/// whenever the path is cleared (end passed, or index exhausted) the index
/// returns to zero, keeping it within `[0, path.len()]`; otherwise nothing
/// changes.
pub open spec fn ctrl_next(path: Seq<Point>, target: int, pos: Point) -> (Seq<Point>, int) {
    if path.len() == 0 {
        (path, target)
    } else if target < path.len() {
        if dist_sq_spec(pos, path[target]) < THRESHOLD_SQ {
            if target + 1 >= path.len() {
                (Seq::<Point>::empty(), 0)
            } else {
                (path, target + 1)
            }
        } else {
            (path, target)
        }
    } else {
        (Seq::<Point>::empty(), 0)
    }
}

/// The action the controller requests for one tick at position `pos`.
pub open spec fn ctrl_action(path: Seq<Point>, target: int, pos: Point) -> MoveAction {
    if path.len() == 0 {
        MoveAction::Forward
    } else if target < path.len() {
        if dist_sq_spec(pos, path[target]) < THRESHOLD_SQ {
            MoveAction::Hold
        } else {
            MoveAction::Toward(path[target])
        }
    } else {
        MoveAction::Hold
    }
}

impl AStarCar {
    /// Every waypoint is within coordinate range, the timer is sound, and
    /// the target index never exceeds the path length (an index equal to
    /// the length means the path is exhausted).
    pub open spec fn wf(self) -> bool {
        &&& self.recalculate_timer.wf()
        &&& self.current_target <= self.path@.len()
        &&& forall|i: int| 0 <= i < self.path@.len() ==> point_in_range(#[trigger] self.path@[i])
    }

    pub fn new() -> (c: AStarCar)
        ensures
            c.wf(),
            c.path@.len() == 0,
            c.current_target == 0,
            c.recalculate_timer.period == RECALC_PERIOD,
            c.recalculate_timer.elapsed == 0,
    {
        AStarCar { path: Vec::new(), current_target: 0, recalculate_timer: RecalcTimer::new(1000) }
    }

    /// One controller tick at position `pos`: performs exactly the state
    /// transition `ctrl_next` and requests the action `ctrl_action`. With
    /// integer coordinates a waypoint equal to `pos` is always inside the
    /// arrival threshold, so no degenerate zero-length direction can reach
    /// the `Toward` case.
    pub fn movement_step(&mut self, pos: Point) -> (a: MoveAction)
        requires
            old(self).wf(),
            point_in_range(pos),
        ensures
            final(self).wf(),
            final(self).recalculate_timer == old(self).recalculate_timer,
            (final(self).path@, final(self).current_target as int) == ctrl_next(
                old(self).path@,
                old(self).current_target as int,
                pos,
            ),
            a == ctrl_action(old(self).path@, old(self).current_target as int, pos),
            a matches MoveAction::Toward(t) ==> point_in_range(t),
    {
        if self.path.len() == 0 {
            return MoveAction::Forward;
        }
        if self.current_target < self.path.len() {
            let target = self.path[self.current_target];
            if dist_sq(pos, target) < THRESHOLD_SQ {
                self.current_target = self.current_target + 1;
                if self.current_target >= self.path.len() {
                    self.path = Vec::new();
                    self.current_target = 0;
                }
                MoveAction::Hold
            } else {
                MoveAction::Toward(target)
            }
        } else {
            self.path = Vec::new();
            self.current_target = 0;
            MoveAction::Hold
        }
    }
}

/// The replanning decision: replan when the repeating timer completed this
/// tick, or when the squared displacement since the last scan exceeds the
/// squared distance threshold — whichever is observed first.
pub fn should_recalculate(timer_finished: bool, moved_sq: i64) -> (r: bool)
    ensures
        r == (timer_finished || moved_sq > THRESHOLD_SQ),
{
    timer_finished || moved_sq > THRESHOLD_SQ
}

/// Iterated controller transitions at a fixed position.
pub open spec fn ctrl_iter(path: Seq<Point>, target: int, pos: Point, n: nat) -> (Seq<Point>, int)
    decreases n,
{
    if n == 0 {
        (path, target)
    } else {
        let s = ctrl_next(path, target, pos);
        ctrl_iter(s.0, s.1, pos, (n - 1) as nat)
    }
}

proof fn lemma_empty_path_stays(target: int, pos: Point, n: nat)
    ensures
        ctrl_iter(Seq::<Point>::empty(), target, pos, n).0.len() == 0,
    decreases n,
{
    if n > 0 {
        lemma_empty_path_stays(target, pos, (n - 1) as nat);
    }
}

/// Controller termination: an agent that stays within the arrival threshold
/// of every remaining waypoint strictly advances its target index tick by
/// tick, and once the index passes the end of the path the path is cleared —
/// after at most `path.len() - target + 1` ticks the path is empty.
pub proof fn lemma_controller_terminates(path: Seq<Point>, target: int, pos: Point, n: nat)
    requires
        0 <= target <= path.len(),
        path.len() > 0,
        forall|i: int| target <= i < path.len() ==> dist_sq_spec(pos, #[trigger] path[i])
            < THRESHOLD_SQ,
        n >= path.len() - target + 1,
    ensures
        ctrl_iter(path, target, pos, n).0.len() == 0,
    decreases n,
{
    let s = ctrl_next(path, target, pos);
    if target < path.len() {
        if target + 1 >= path.len() {
            assert(s.0.len() == 0);
            lemma_empty_path_stays(s.1, pos, (n - 1) as nat);
        } else {
            lemma_controller_terminates(path, target + 1, pos, (n - 1) as nat);
        }
    } else {
        assert(s.0.len() == 0);
        lemma_empty_path_stays(s.1, pos, (n - 1) as nat);
    }
}

} // verus!
