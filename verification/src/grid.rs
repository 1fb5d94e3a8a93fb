//! The occupancy grid: a discretized view of a rectangular world region that
//! converts between world points and integer cells and tracks which cells are
//! currently blocked.

use vstd::prelude::*;
use crate::geom::{Point, Cell, div_trunc, div_trunc_spec, point_in_world, WORLD_LIMIT};

verus! {

/// Upper bound on the cell counts and the cell size, chosen so that every
/// cell-corner world coordinate stays well inside `WORLD_LIMIT`.
pub const GRID_DIM_LIMIT: i64 = 16384;

/// Upper bound on the magnitude of the grid origin's coordinates.
pub const ORIGIN_LIMIT: i64 = 100_000_000;

/// Discretized occupancy representation over a world-space rectangle.
/// Cell (0,0) has its corner at `origin`; each cell spans `cell_size`
/// world units per axis.
#[derive(Clone, Debug)]
pub struct Grid {
    pub width: i64,
    pub height: i64,
    pub cell_size: i64,
    pub obstacles: Vec<Cell>,
    pub origin: Point,
}

impl Grid {
    /// The dimensional invariant every grid built by `new` satisfies:
    /// positive cell counts and cell size, all small enough that coordinate
    /// arithmetic cannot overflow.
    pub open spec fn wf(self) -> bool {
        &&& 0 < self.width <= GRID_DIM_LIMIT
        &&& 0 < self.height <= GRID_DIM_LIMIT
        &&& 0 < self.cell_size <= GRID_DIM_LIMIT
        &&& -ORIGIN_LIMIT <= self.origin.x <= ORIGIN_LIMIT
        &&& -ORIGIN_LIMIT <= self.origin.y <= ORIGIN_LIMIT
    }

    /// The cell lies inside the grid rectangle.
    pub open spec fn valid_spec(self, c: Cell) -> bool {
        0 <= c.x < self.width && 0 <= c.y < self.height
    }

    /// The cell is inside the grid and not currently blocked.
    pub open spec fn walkable_spec(self, c: Cell) -> bool {
        self.valid_spec(c) && !self.obstacles@.contains(c)
    }

    /// The cell whose span contains `p`, by truncating division; truncation
    /// toward zero (rather than flooring) for coordinates left of the origin
    /// is deliberately kept.
    pub open spec fn world_to_grid_spec(self, p: Point) -> Cell {
        Cell {
            x: div_trunc_spec(p.x - self.origin.x, self.cell_size as int) as i64,
            y: div_trunc_spec(p.y - self.origin.y, self.cell_size as int) as i64,
        }
    }

    /// The world position of the cell's corner.
    pub open spec fn grid_to_world_spec(self, c: Cell) -> Point {
        Point {
            x: (c.x * self.cell_size + self.origin.x) as i64,
            y: (c.y * self.cell_size + self.origin.y) as i64,
        }
    }

    pub fn new(width: i64, height: i64, cell_size: i64, origin: Point) -> (g: Grid)
        requires
            0 < width <= GRID_DIM_LIMIT,
            0 < height <= GRID_DIM_LIMIT,
            0 < cell_size <= GRID_DIM_LIMIT,
            -ORIGIN_LIMIT <= origin.x <= ORIGIN_LIMIT,
            -ORIGIN_LIMIT <= origin.y <= ORIGIN_LIMIT,
        ensures
            g.wf(),
            g.width == width,
            g.height == height,
            g.cell_size == cell_size,
            g.origin == origin,
            g.obstacles@ =~= Seq::<Cell>::empty(),
    {
        Grid { width, height, cell_size, obstacles: Vec::new(), origin }
    }

    pub fn world_to_grid(&self, world_pos: Point) -> (c: Cell)
        requires
            self.wf(),
            point_in_world(world_pos),
        ensures
            c == self.world_to_grid_spec(world_pos),
    {
        Cell {
            x: div_trunc(world_pos.x - self.origin.x, self.cell_size),
            y: div_trunc(world_pos.y - self.origin.y, self.cell_size),
        }
    }

    pub fn grid_to_world(&self, grid_pos: Cell) -> (p: Point)
        requires
            self.wf(),
            self.valid_spec(grid_pos),
        ensures
            p == self.grid_to_world_spec(grid_pos),
            point_in_world(p),
    {
        proof {
            assert(0 <= grid_pos.x * self.cell_size <= GRID_DIM_LIMIT * GRID_DIM_LIMIT
                && 0 <= grid_pos.y * self.cell_size <= GRID_DIM_LIMIT * GRID_DIM_LIMIT)
                by (nonlinear_arith)
                requires
                    0 <= grid_pos.x <= GRID_DIM_LIMIT,
                    0 <= grid_pos.y <= GRID_DIM_LIMIT,
                    0 < self.cell_size <= GRID_DIM_LIMIT,
            ;
        }
        Point {
            x: grid_pos.x * self.cell_size + self.origin.x,
            y: grid_pos.y * self.cell_size + self.origin.y,
        }
    }

    pub fn is_valid(&self, pos: Cell) -> (r: bool)
        ensures
            r == self.valid_spec(pos),
    {
        pos.x >= 0 && pos.x < self.width && pos.y >= 0 && pos.y < self.height
    }

    pub fn is_walkable(&self, pos: Cell) -> (r: bool)
        ensures
            r == self.walkable_spec(pos),
    {
        self.is_valid(pos) && !contains_cell(&self.obstacles, pos)
    }
}

impl Grid {
    /// The square scan window around `center`: `scan_cells` cells per axis
    /// computed from the scan radius, a half-open square as the sensing pass
    /// iterates it.
    pub open spec fn in_window_spec(self, center: Point, scan_radius: i64, c: Cell) -> bool {
        let cc = self.world_to_grid_spec(center);
        let sc = div_trunc_spec(scan_radius as int, self.cell_size as int);
        cc.x - sc <= c.x < cc.x + sc && cc.y - sc <= c.y < cc.y + sc
    }

    /// The cells a sensing pass around `center` must probe: every valid cell
    /// of the square window, row by row. The caller casts its short rays from
    /// each cell's world position and reports back which cells had a hit.
    pub fn scan_targets(&self, center: Point, scan_radius: i64) -> (r: Vec<Cell>)
        requires
            self.wf(),
            point_in_world(center),
            0 <= scan_radius <= WORLD_LIMIT,
        ensures
            forall|c: Cell| #[trigger] r@.contains(c) <==> self.valid_spec(c)
                && self.in_window_spec(center, scan_radius, c),
            r@.no_duplicates(),
    {
        let cc = self.world_to_grid(center);
        let sc = div_trunc(scan_radius, self.cell_size);
        let mut r: Vec<Cell> = Vec::new();
        let xlo: i64 = cc.x - sc;
        let xhi: i64 = cc.x + sc;
        let ylo: i64 = cc.y - sc;
        let yhi: i64 = cc.y + sc;
        let mut x: i64 = xlo;
        while x < xhi
            invariant
                xlo <= x <= xhi || x == xlo,
                xlo == cc.x - sc,
                xhi == cc.x + sc,
                ylo == cc.y - sc,
                yhi == cc.y + sc,
                cc == self.world_to_grid_spec(center),
                sc == div_trunc_spec(scan_radius as int, self.cell_size as int),
                forall|c: Cell| #[trigger] r@.contains(c) <==> self.valid_spec(c)
                    && self.in_window_spec(center, scan_radius, c) && c.x < x,
                r@.no_duplicates(),
            decreases xhi - x,
        {
            let mut y: i64 = ylo;
            while y < yhi
                invariant
                    ylo <= y <= yhi || y == ylo,
                    xlo <= x < xhi,
                    xlo == cc.x - sc,
                    xhi == cc.x + sc,
                    ylo == cc.y - sc,
                    yhi == cc.y + sc,
                    cc == self.world_to_grid_spec(center),
                    sc == div_trunc_spec(scan_radius as int, self.cell_size as int),
                    forall|c: Cell| #[trigger] r@.contains(c) <==> self.valid_spec(c)
                        && self.in_window_spec(center, scan_radius, c)
                        && (c.x < x || (c.x == x && c.y < y)),
                    r@.no_duplicates(),
                decreases yhi - y,
            {
                let cand = Cell { x, y };
                if self.is_valid(cand) {
                    let ghost old_r = r@;
                    r.push(cand);
                    proof {
                        assert(!old_r.contains(cand));
                        assert forall|i: int, j: int|
                            0 <= i < j < r@.len() implies r@[i] != r@[j] by {
                            if j < old_r.len() {
                                assert(old_r[i] == r@[i] && old_r[j] == r@[j]);
                            } else {
                                assert(r@[j] == cand);
                                assert(old_r.contains(old_r[i]));
                            }
                        }
                        assert forall|c: Cell| #[trigger] r@.contains(c) implies self.valid_spec(c)
                            && self.in_window_spec(center, scan_radius, c)
                            && (c.x < x || (c.x == x && c.y < y + 1)) by {
                            let i = choose|i: int| 0 <= i < r@.len() && r@[i] == c;
                            if i < old_r.len() {
                                assert(old_r.contains(c));
                            }
                        }
                        assert forall|c: Cell| self.valid_spec(c)
                            && self.in_window_spec(center, scan_radius, c)
                            && (c.x < x || (c.x == x && c.y < y + 1)) implies #[trigger] r@.contains(
                            c,
                        ) by {
                            if c.x < x || (c.x == x && c.y < y) {
                                assert(old_r.contains(c));
                                let i = choose|i: int| 0 <= i < old_r.len() && old_r[i] == c;
                                assert(r@[i] == c);
                            } else {
                                assert(c == cand);
                                assert(r@[r@.len() - 1] == c);
                            }
                        }
                    }
                }
                y = y + 1;
            }
            x = x + 1;
        }
        r
    }

    /// Rebuilds the blocked-cell set from one sensing pass: the previous set
    /// is discarded and replaced by the reported hit cells, restricted to
    /// valid cells inside the scan window around `center`.
    pub fn update_obstacles(&mut self, center: Point, scan_radius: i64, hits: &Vec<Cell>) -> (r: ())
        requires
            old(self).wf(),
            point_in_world(center),
            0 <= scan_radius <= WORLD_LIMIT,
        ensures
            final(self).width == old(self).width,
            final(self).height == old(self).height,
            final(self).cell_size == old(self).cell_size,
            final(self).origin == old(self).origin,
            final(self).wf(),
            forall|c: Cell| #[trigger] final(self).obstacles@.contains(c) <==> hits@.contains(c)
                && old(self).valid_spec(c) && old(self).in_window_spec(center, scan_radius, c),
    {
        self.obstacles.clear();
        let cc = self.world_to_grid(center);
        let sc = div_trunc(scan_radius, self.cell_size);
        let mut i: usize = 0;
        while i < hits.len()
            invariant
                i <= hits@.len(),
                self.wf(),
                self.width == old(self).width,
                self.height == old(self).height,
                self.cell_size == old(self).cell_size,
                self.origin == old(self).origin,
                cc == self.world_to_grid_spec(center),
                sc == div_trunc_spec(scan_radius as int, self.cell_size as int),
                -2_200_000_000 <= cc.x <= 2_200_000_000,
                -2_200_000_000 <= cc.y <= 2_200_000_000,
                0 <= sc <= WORLD_LIMIT,
                forall|c: Cell| #[trigger] self.obstacles@.contains(c) <==> (exists|j: int|
                    0 <= j < i && hits@[j] == c) && self.valid_spec(c) && self.in_window_spec(
                    center,
                    scan_radius,
                    c,
                ),
            decreases hits@.len() - i,
        {
            let c = hits[i];
            if self.is_valid(c) && cc.x - sc <= c.x && c.x < cc.x + sc && cc.y - sc <= c.y && c.y
                < cc.y + sc && !contains_cell(&self.obstacles, c) {
                let ghost old_obs = self.obstacles@;
                self.obstacles.push(c);
                proof {
                    assert forall|d: Cell| #[trigger] self.obstacles@.contains(d) implies (exists|
                        j: int,
                    |
                        0 <= j < i + 1 && hits@[j] == d) && self.valid_spec(d)
                        && self.in_window_spec(center, scan_radius, d) by {
                        let k = choose|k: int| 0 <= k < self.obstacles@.len() && self.obstacles@[k]
                            == d;
                        if k < old_obs.len() {
                            assert(old_obs.contains(d));
                        } else {
                            assert(d == c);
                            assert(hits@[i as int] == d);
                        }
                    }
                    assert forall|d: Cell|
                        (exists|j: int| 0 <= j < i + 1 && hits@[j] == d) && self.valid_spec(d)
                        && self.in_window_spec(center, scan_radius, d) implies #[trigger] self
                        .obstacles@.contains(d) by {
                        if d == c {
                            assert(self.obstacles@[self.obstacles@.len() - 1] == d);
                        } else {
                            let j = choose|j: int| 0 <= j < i + 1 && hits@[j] == d;
                            assert(hits@[j] == d && j < i);
                            assert(old_obs.contains(d));
                            let k = choose|k: int| 0 <= k < old_obs.len() && old_obs[k] == d;
                            assert(self.obstacles@[k] == d);
                        }
                    }
                }
            } else {
                proof {
                    assert forall|d: Cell| #[trigger] self.obstacles@.contains(d) implies (exists|
                        j: int,
                    |
                        0 <= j < i + 1 && hits@[j] == d) && self.valid_spec(d)
                        && self.in_window_spec(center, scan_radius, d) by {}
                    assert forall|d: Cell|
                        (exists|j: int| 0 <= j < i + 1 && hits@[j] == d) && self.valid_spec(d)
                        && self.in_window_spec(center, scan_radius, d) implies #[trigger] self
                        .obstacles@.contains(d) by {
                        let j = choose|j: int| 0 <= j < i + 1 && hits@[j] == d;
                        if j == i {
                            assert(d == hits@[i as int]);
                            assert(self.valid_spec(d) && self.in_window_spec(
                                center,
                                scan_radius,
                                d,
                            ));
                            assert(self.obstacles@.contains(d));
                        }
                    }
                }
            }
            i = i + 1;
        }
    }
}

/// Whether the vector holds the given cell.
pub fn contains_cell(v: &Vec<Cell>, c: Cell) -> (r: bool)
    ensures
        r == v@.contains(c),
{
    let mut i: usize = 0;
    while i < v.len()
        invariant
            i <= v@.len(),
            forall|j: int| 0 <= j < i ==> v@[j] != c,
        decreases v@.len() - i,
    {
        if v[i] == c {
            return true;
        }
        i = i + 1;
    }
    false
}

/// Converting a valid cell to its world position and back yields the same
/// cell: the transforms are mutually inverse on the grid's own cells.
pub proof fn lemma_world_grid_round_trip(g: Grid, c: Cell)
    requires
        g.wf(),
        g.valid_spec(c),
    ensures
        g.world_to_grid_spec(g.grid_to_world_spec(c)) == c,
{
    let p = g.grid_to_world_spec(c);
    assert(c.x * g.cell_size >= 0 && c.y * g.cell_size >= 0
        && c.x * g.cell_size <= GRID_DIM_LIMIT * GRID_DIM_LIMIT
        && c.y * g.cell_size <= GRID_DIM_LIMIT * GRID_DIM_LIMIT) by (nonlinear_arith)
        requires
            0 <= c.x <= GRID_DIM_LIMIT,
            0 <= c.y <= GRID_DIM_LIMIT,
            0 < g.cell_size <= GRID_DIM_LIMIT,
    ;
    assert(p.x - g.origin.x == c.x * g.cell_size);
    assert(p.y - g.origin.y == c.y * g.cell_size);
    vstd::arithmetic::div_mod::lemma_div_by_multiple(c.x as int, g.cell_size as int);
    vstd::arithmetic::div_mod::lemma_div_by_multiple(c.y as int, g.cell_size as int);
    assert(div_trunc_spec(c.x * g.cell_size, g.cell_size as int) == c.x);
    assert(div_trunc_spec(c.y * g.cell_size, g.cell_size as int) == c.y);
}

} // verus!
