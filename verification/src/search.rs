//! Four-connected A* over the occupancy grid: uniform edge cost, Manhattan
//! heuristic, min-f priority order with ties broken toward the larger
//! heuristic, and a fixed forward fallback path when the search cannot run
//! or exhausts its frontier.

use vstd::prelude::*;
use crate::geom::{Point, Cell, adjacent, point_in_world, point_in_range};
use crate::grid::{Grid, contains_cell, lemma_world_grid_round_trip, GRID_DIM_LIMIT};

verus! {

/// Cost of one cardinal step, and the unit of the heuristic.
pub const MOVE_COST: i64 = 10;

/// An entry of the search frontier: a cell with its accumulated cost from
/// the start, its heuristic estimate to the goal, and the cell it was
/// reached from.
#[derive(Clone, Copy, Debug)]
struct Node {
    position: Cell,
    g_cost: i64,
    h_cost: i64,
    parent: Option<Cell>,
}

/// The best record the search holds for a visited cell: its cheapest known
/// cost from the start and the predecessor that achieved it (`None` only for
/// the start cell).
#[derive(Clone, Copy, Debug)]
struct SearchRec {
    cell: Cell,
    g: i64,
    parent: Option<Cell>,
}

/// Manhattan distance between two cells, in cell units.
pub open spec fn manhattan_spec(a: Cell, b: Cell) -> int {
    (if a.x >= b.x {
        a.x - b.x
    } else {
        b.x - a.x
    }) + (if a.y >= b.y {
        a.y - b.y
    } else {
        b.y - a.y
    })
}

fn manhattan_distance(a: Cell, b: Cell) -> (r: i64)
    requires
        0 <= a.x <= GRID_DIM_LIMIT,
        0 <= a.y <= GRID_DIM_LIMIT,
        0 <= b.x <= GRID_DIM_LIMIT,
        0 <= b.y <= GRID_DIM_LIMIT,
    ensures
        r == manhattan_spec(a, b),
        0 <= r <= 2 * GRID_DIM_LIMIT,
{
    let dx: i64 = if a.x >= b.x {
        a.x - b.x
    } else {
        b.x - a.x
    };
    let dy: i64 = if a.y >= b.y {
        a.y - b.y
    } else {
        b.y - a.y
    };
    dx + dy
}

/// The `k`-th cardinal neighbour of `c`, in the fixed exploration order
/// north, east, south, west.
fn neighbor_cell(c: Cell, k: usize) -> (n: Cell)
    requires
        k < 4,
        0 <= c.x <= GRID_DIM_LIMIT,
        0 <= c.y <= GRID_DIM_LIMIT,
    ensures
        adjacent(c, n),
        n == neighbor_spec(c, k as int),
        k == 0 ==> n == (Cell { x: c.x, y: (c.y - 1) as i64 }),
        k == 1 ==> n == (Cell { x: (c.x + 1) as i64, y: c.y }),
        k == 2 ==> n == (Cell { x: c.x, y: (c.y + 1) as i64 }),
        k == 3 ==> n == (Cell { x: (c.x - 1) as i64, y: c.y }),
{
    if k == 0 {
        Cell { x: c.x, y: c.y - 1 }
    } else if k == 1 {
        Cell { x: c.x + 1, y: c.y }
    } else if k == 2 {
        Cell { x: c.x, y: c.y + 1 }
    } else {
        Cell { x: c.x - 1, y: c.y }
    }
}

/// The `k`-th cardinal neighbour, at the specification level.
pub open spec fn neighbor_spec(c: Cell, k: int) -> Cell {
    if k == 0 {
        Cell { x: c.x, y: (c.y - 1) as i64 }
    } else if k == 1 {
        Cell { x: (c.x + 1) as i64, y: c.y }
    } else if k == 2 {
        Cell { x: c.x, y: (c.y + 1) as i64 }
    } else {
        Cell { x: (c.x - 1) as i64, y: c.y }
    }
}

/// A walkable 4-connected chain of cells.
pub open spec fn is_cell_path(g: Grid, s: Seq<Cell>) -> bool {
    &&& s.len() >= 1
    &&& forall|i: int| 0 <= i < s.len() ==> g.walkable_spec(#[trigger] s[i])
    &&& forall|i: int| 0 <= i < s.len() - 1 ==> adjacent(#[trigger] s[i], s[i + 1])
}

/// Cell `b` can be reached from cell `a` through walkable cells.
pub open spec fn reachable_spec(g: Grid, a: Cell, b: Cell) -> bool {
    exists|s: Seq<Cell>| is_cell_path(g, s) && s[0] == a && s[s.len() - 1] == b
}

/// Every adjacent cell is one of the four cardinal neighbours, provided the
/// coordinates stay in machine range.
proof fn lemma_adjacent_is_neighbor(c: Cell, n: Cell)
    requires
        adjacent(c, n),
        0 <= c.x <= GRID_DIM_LIMIT,
        0 <= c.y <= GRID_DIM_LIMIT,
    ensures
        exists|k: int| 0 <= k < 4 && n == neighbor_spec(c, k),
{
    if n.x == c.x && n.y == c.y - 1 {
        assert(n == neighbor_spec(c, 0));
    } else if n.x == c.x + 1 && n.y == c.y {
        assert(n == neighbor_spec(c, 1));
    } else if n.x == c.x && n.y == c.y + 1 {
        assert(n == neighbor_spec(c, 2));
    } else {
        assert(n == neighbor_spec(c, 3));
    }
}

/// On a grid whose obstacle set is empty, every valid cell can be reached
/// from every valid cell: walking the x axis toward the target and then the
/// y axis gives a chain of exactly the Manhattan distance many steps.
pub proof fn lemma_no_obstacles_reachable(g: Grid, a: Cell, b: Cell)
    requires
        g.wf(),
        g.obstacles@.len() == 0,
        g.valid_spec(a),
        g.valid_spec(b),
    ensures
        reachable_spec(g, a, b),
        exists|s: Seq<Cell>|
            is_cell_path(g, s) && s[0] == a && s[s.len() - 1] == b && s.len() == manhattan_spec(
                a,
                b,
            ) + 1,
    decreases manhattan_spec(a, b),
{
    assert(forall|c: Cell| !g.obstacles@.contains(c));
    if a == b {
        let s = seq![a];
        assert(is_cell_path(g, s) && s[0] == a && s[s.len() - 1] == b);
    } else {
        let c = if a.x < b.x {
            Cell { x: (a.x + 1) as i64, y: a.y }
        } else if a.x > b.x {
            Cell { x: (a.x - 1) as i64, y: a.y }
        } else if a.y < b.y {
            Cell { x: a.x, y: (a.y + 1) as i64 }
        } else {
            Cell { x: a.x, y: (a.y - 1) as i64 }
        };
        assert(g.valid_spec(c));
        assert(adjacent(a, c));
        assert(manhattan_spec(c, b) < manhattan_spec(a, b));
        lemma_no_obstacles_reachable(g, c, b);
        let t = choose|t: Seq<Cell>|
            is_cell_path(g, t) && t[0] == c && t[t.len() - 1] == b && t.len() == manhattan_spec(
                c,
                b,
            ) + 1;
        let s = seq![a] + t;
        assert(s[0] == a && s[s.len() - 1] == b);
        assert(s.len() == manhattan_spec(a, b) + 1);
        assert forall|i: int| 0 <= i < s.len() implies g.walkable_spec(#[trigger] s[i]) by {
            if i > 0 {
                assert(s[i] == t[i - 1]);
            }
        }
        assert forall|i: int| 0 <= i < s.len() - 1 implies adjacent(#[trigger] s[i], s[i + 1]) by {
            if i == 0 {
                assert(s[0] == a && s[1] == t[0]);
            } else {
                assert(s[i] == t[i - 1] && s[i + 1] == t[i]);
            }
        }
        assert(is_cell_path(g, s));
    }
}

/// Some record in `s` is for cell `c`.
spec fn has_rec(s: Seq<SearchRec>, c: Cell) -> bool {
    exists|i: int| 0 <= i < s.len() && s[i].cell == c
}

/// The index of the record for `c` (meaningful when `has_rec` holds and the
/// cells are distinct).
spec fn idx_of(s: Seq<SearchRec>, c: Cell) -> int {
    choose|i: int| 0 <= i < s.len() && s[i].cell == c
}

/// The record for cell `c`.
spec fn rec_at(s: Seq<SearchRec>, c: Cell) -> SearchRec {
    s[idx_of(s, c)]
}

/// No two records are for the same cell.
spec fn keys_distinct(s: Seq<SearchRec>) -> bool {
    forall|i: int, j: int| 0 <= i < j < s.len() ==> s[i].cell != s[j].cell
}

proof fn lemma_rec_at(s: Seq<SearchRec>, c: Cell, i: int)
    requires
        keys_distinct(s),
        0 <= i < s.len(),
        s[i].cell == c,
    ensures
        idx_of(s, c) == i,
        rec_at(s, c) == s[i],
        has_rec(s, c),
{
    assert(has_rec(s, c));
    let j = idx_of(s, c);
    assert(0 <= j < s.len() && s[j].cell == c);
    if i < j {
        assert(s[i].cell != s[j].cell);
    } else if j < i {
        assert(s[j].cell != s[i].cell);
    }
}

/// A sequence of distinct cells that all lie inside a `w` by `h` rectangle
/// has at most `w * h` elements.
proof fn lemma_distinct_cells_bound(s: Seq<Cell>, w: int, h: int)
    requires
        s.no_duplicates(),
        1 <= w,
        1 <= h,
        forall|i: int| 0 <= i < s.len() ==> 0 <= (#[trigger] s[i]).x < w && 0 <= s[i].y < h,
    ensures
        s.len() <= w * h,
{
    let f = |c: Cell| c.x + w * c.y;
    let t = s.map_values(f);
    assert(t.len() == s.len());
    assert forall|i: int, j: int| 0 <= i < j < t.len() implies t[i] != t[j] by {
        assert(s[i] != s[j]);
        assert(t[i] == s[i].x + w * s[i].y && t[j] == s[j].x + w * s[j].y);
        assert(s[i].x + w * s[i].y != s[j].x + w * s[j].y) by (nonlinear_arith)
            requires
                s[i] != s[j],
                0 <= s[i].x < w,
                0 <= s[j].x < w,
                0 <= s[i].y < h,
                0 <= s[j].y < h,
                s[i].x != s[j].x || s[i].y != s[j].y,
        ;
    }
    assert(t.no_duplicates());
    t.unique_seq_to_set();
    let range = vstd::set_lib::set_int_range(0, w * h);
    vstd::set_lib::lemma_int_range(0, w * h);
    assert forall|e: int| t.to_set().contains(e) implies range.contains(e) by {
        let i = choose|i: int| 0 <= i < t.len() && t[i] == e;
        assert(t[i] == s[i].x + w * s[i].y);
        assert(0 <= s[i].x + w * s[i].y < w * h) by (nonlinear_arith)
            requires
                0 <= s[i].x < w,
                0 <= s[i].y < h,
        ;
    }
    vstd::set_lib::lemma_len_subset(t.to_set(), range);
}

/// At the end of an exhausted search, the recorded cells are closed under
/// walkable adjacency; so every cell of a walkable chain whose head is
/// recorded is recorded too.
proof fn lemma_path_closure(g: Grid, recs: Seq<SearchRec>, closed: Seq<Cell>, s: Seq<Cell>, i: int)
    requires
        is_cell_path(g, s),
        0 <= i < s.len(),
        has_rec(recs, s[0]),
        forall|c: Cell| #[trigger] has_rec(recs, c) ==> closed.contains(c),
        forall|j: int, n: Cell|
            #![trigger adjacent(closed[j], n)]
            0 <= j < closed.len() && adjacent(closed[j], n) && g.walkable_spec(n) ==> has_rec(
                recs,
                n,
            ),
    ensures
        has_rec(recs, s[i]),
    decreases i,
{
    if i > 0 {
        lemma_path_closure(g, recs, closed, s, i - 1);
        assert(closed.contains(s[i - 1]));
        let j = choose|j: int| 0 <= j < closed.len() && closed[j] == s[i - 1];
        assert(adjacent(s[i - 1], s[i]));
        assert(adjacent(closed[j], s[i]));
    }
}

/// Looks up the record for `c`.
fn get_rec(recs: &Vec<SearchRec>, c: Cell) -> (r: Option<SearchRec>)
    requires
        keys_distinct(recs@),
    ensures
        r is Some <==> has_rec(recs@, c),
        r is Some ==> r.unwrap() == rec_at(recs@, c),
{
    let mut i: usize = 0;
    while i < recs.len()
        invariant
            i <= recs@.len(),
            keys_distinct(recs@),
            forall|j: int| 0 <= j < i ==> (#[trigger] recs@[j]).cell != c,
        decreases recs@.len() - i,
    {
        if recs[i].cell == c {
            proof {
                lemma_rec_at(recs@, c, i as int);
            }
            return Some(recs[i]);
        }
        i = i + 1;
    }
    proof {
        if has_rec(recs@, c) {
            let j = idx_of(recs@, c);
            assert(0 <= j < recs@.len() && recs@[j].cell == c);
        }
    }
    None
}

/// Records that `c` is reached with cost `gval` from `parent`, replacing any
/// earlier record for `c`.
fn set_rec(recs: &mut Vec<SearchRec>, c: Cell, gval: i64, parent: Option<Cell>)
    requires
        keys_distinct(old(recs)@),
    ensures
        keys_distinct(final(recs)@),
        has_rec(final(recs)@, c),
        rec_at(final(recs)@, c) == (SearchRec { cell: c, g: gval, parent }),
        forall|d: Cell| d != c ==> (has_rec(final(recs)@, d) == has_rec(old(recs)@, d)),
        forall|d: Cell| d != c && has_rec(old(recs)@, d) ==> rec_at(final(recs)@, d) == rec_at(
            old(recs)@,
            d,
        ),
        has_rec(old(recs)@, c) ==> final(recs)@ == old(recs)@.update(
            idx_of(old(recs)@, c),
            SearchRec { cell: c, g: gval, parent },
        ),
        !has_rec(old(recs)@, c) ==> final(recs)@ == old(recs)@.push(
            SearchRec { cell: c, g: gval, parent },
        ),
        final(recs)@.len() == old(recs)@.len() + (if has_rec(old(recs)@, c) {
            0int
        } else {
            1int
        }),
{
    let newrec = SearchRec { cell: c, g: gval, parent };
    let mut i: usize = 0;
    while i < recs.len()
        invariant
            i <= recs@.len(),
            recs@ == old(recs)@,
            keys_distinct(recs@),
            newrec == (SearchRec { cell: c, g: gval, parent }),
            forall|j: int| 0 <= j < i ==> (#[trigger] recs@[j]).cell != c,
        decreases recs@.len() - i,
    {
        if recs[i].cell == c {
            proof {
                lemma_rec_at(recs@, c, i as int);
            }
            let ghost old_s = recs@;
            recs[i] = newrec;
            proof {
                assert(recs@ == old_s.update(i as int, newrec));
                assert forall|i2: int, j2: int| 0 <= i2 < j2 < recs@.len() implies recs@[i2].cell
                    != recs@[j2].cell by {
                    assert(old_s[i2].cell != old_s[j2].cell);
                    if i2 == i as int {
                        assert(recs@[j2] == old_s[j2]);
                        assert(old_s[i as int].cell == c);
                    } else if j2 == i as int {
                        assert(recs@[i2] == old_s[i2]);
                        assert(old_s[i as int].cell == c);
                    }
                }
                assert(recs@[i as int].cell == c);
                lemma_rec_at(recs@, c, i as int);
                assert forall|d: Cell| d != c implies (has_rec(recs@, d) == has_rec(old_s, d)) by {
                    if has_rec(old_s, d) {
                        let j = idx_of(old_s, d);
                        assert(j != i);
                        assert(recs@[j].cell == d);
                    }
                    if has_rec(recs@, d) {
                        let j = idx_of(recs@, d);
                        assert(j != i);
                        assert(old_s[j].cell == d);
                    }
                }
                assert forall|d: Cell| d != c && has_rec(old_s, d) implies rec_at(recs@, d)
                    == rec_at(old_s, d) by {
                    let j = idx_of(old_s, d);
                    assert(j != i);
                    assert(old_s[j].cell == d);
                    lemma_rec_at(recs@, d, j);
                }
            }
            return ;
        }
        i = i + 1;
    }
    let ghost old_s = recs@;
    proof {
        if has_rec(old_s, c) {
            let j = idx_of(old_s, c);
            assert(0 <= j < old_s.len() && old_s[j].cell == c);
        }
    }
    recs.push(newrec);
    proof {
        assert(recs@ == old_s.push(newrec));
        assert forall|i2: int, j2: int| 0 <= i2 < j2 < recs@.len() implies recs@[i2].cell
            != recs@[j2].cell by {
            if j2 < old_s.len() {
                assert(old_s[i2].cell != old_s[j2].cell);
            } else {
                assert(recs@[j2] == newrec);
                assert(recs@[i2] == old_s[i2]);
            }
        }
        lemma_rec_at(recs@, c, old_s.len() as int);
        assert forall|d: Cell| d != c implies (has_rec(recs@, d) == has_rec(old_s, d)) by {
            if has_rec(old_s, d) {
                let j = idx_of(old_s, d);
                assert(recs@[j].cell == d);
            }
            if has_rec(recs@, d) {
                let j = idx_of(recs@, d);
                assert(j < old_s.len());
                assert(old_s[j].cell == d);
            }
        }
        assert forall|d: Cell| d != c && has_rec(old_s, d) implies rec_at(recs@, d) == rec_at(
            old_s,
            d,
        ) by {
            let j = idx_of(old_s, d);
            assert(old_s[j].cell == d);
            lemma_rec_at(recs@, d, j);
        }
    }
}

/// Maps a walkable 4-connected cell chain ending at the goal cell to its
/// world-space waypoints.
fn build_world_path(grid: &Grid, cells: &Vec<Cell>, Ghost(sc): Ghost<Cell>, Ghost(gc): Ghost<Cell>)
    -> (path: Vec<Point>)
    requires
        grid.wf(),
        cells@.len() >= 1,
        forall|i: int| 0 <= i < cells@.len() ==> grid.walkable_spec(#[trigger] cells@[i]),
        cells@[cells@.len() - 1] == gc,
        forall|i: int| 0 <= i < cells@.len() - 1 ==> adjacent(#[trigger] cells@[i], cells@[i + 1]),
        gc == sc ==> cells@.len() == 1,
        gc != sc ==> adjacent(sc, cells@[0]),
    ensures
        real_path_spec(*grid, sc, gc, path@),
        path@.len() == cells@.len(),
        forall|i: int| 0 <= i < path@.len() ==> point_in_world(#[trigger] path@[i]),
{
    let mut path: Vec<Point> = Vec::new();
    let mut i: usize = 0;
    while i < cells.len()
        invariant
            grid.wf(),
            i <= cells@.len(),
            path@.len() == i,
            forall|j: int| 0 <= j < cells@.len() ==> grid.walkable_spec(#[trigger] cells@[j]),
            forall|j: int| 0 <= j < i ==> #[trigger] path@[j] == grid.grid_to_world_spec(cells@[j])
                && point_in_world(path@[j]),
        decreases cells@.len() - i,
    {
        let p = grid.grid_to_world(cells[i]);
        path.push(p);
        i = i + 1;
    }
    proof {
        assert forall|j: int| 0 <= j < path@.len() implies grid.world_to_grid_spec(
            #[trigger] path@[j],
        ) == cells@[j] && grid.walkable_spec(grid.world_to_grid_spec(path@[j])) && path@[j]
            == grid.grid_to_world_spec(grid.world_to_grid_spec(path@[j])) by {
            lemma_world_grid_round_trip(*grid, cells@[j]);
        }
        assert(real_path_spec(*grid, sc, gc, path@));
    }
    path
}

/// What the search maintains for every record: the cell is walkable; costs
/// are non-negative, multiples of one step below the record count; exactly
/// the start record has no parent; a parent is an adjacent recorded cell with
/// a strictly smaller cost, so parent chains descend toward the start.
spec fn rec_ok(g: Grid, start: Cell, s: Seq<SearchRec>, r: SearchRec) -> bool {
    &&& g.walkable_spec(r.cell)
    &&& 0 <= r.g <= MOVE_COST * (s.len() - 1)
    &&& (r.parent is None <==> r.cell == start)
    &&& (r.cell == start ==> r.g == 0)
    &&& (r.parent is Some ==> {
        let p = r.parent.unwrap();
        &&& g.walkable_spec(p)
        &&& adjacent(p, r.cell)
        &&& has_rec(s, p)
        &&& rec_at(s, p).g < r.g
    })
}

/// The record table's invariant during one search.
spec fn recs_inv(g: Grid, start: Cell, s: Seq<SearchRec>) -> bool {
    &&& keys_distinct(s)
    &&& forall|i: int| 0 <= i < s.len() ==> rec_ok(g, start, s, #[trigger] s[i])
    &&& s.len() <= g.width * g.height
    &&& has_rec(s, start)
}

/// What holds of every frontier entry: its cell is recorded with a cost no
/// larger than the entry's, and its heuristic is the scaled Manhattan
/// distance to the goal.
spec fn node_ok(g: Grid, goal: Cell, s: Seq<SearchRec>, n: Node) -> bool {
    &&& g.walkable_spec(n.position)
    &&& has_rec(s, n.position)
    &&& rec_at(s, n.position).g <= n.g_cost
    &&& 0 <= n.g_cost <= MOVE_COST * (s.len() - 1)
    &&& n.h_cost == MOVE_COST * manhattan_spec(n.position, goal)
}

spec fn open_inv(g: Grid, goal: Cell, s: Seq<SearchRec>, open: Seq<Node>) -> bool {
    forall|i: int| 0 <= i < open.len() ==> node_ok(g, goal, s, #[trigger] open[i])
}

/// Total priority of a frontier entry.
spec fn fval(n: Node) -> int {
    n.g_cost + n.h_cost
}

/// `a` is popped in preference to `b`: strictly smaller f, or equal f and a
/// strictly larger heuristic.
spec fn prefer(a: Node, b: Node) -> bool {
    fval(a) < fval(b) || (fval(a) == fval(b) && a.h_cost > b.h_cost)
}

/// Removes and returns the frontier entry with the smallest f, ties broken
/// toward the larger heuristic, earliest entry on full ties.
fn pop_best(open: &mut Vec<Node>) -> (r: Node)
    requires
        old(open)@.len() > 0,
        forall|i: int| 0 <= i < old(open)@.len() ==> 0 <= (#[trigger] old(open)@[i]).g_cost
            <= 3_000_000_000 && 0 <= old(open)@[i].h_cost <= 3_000_000_000,
    ensures
        old(open)@.contains(r),
        exists|i: int| 0 <= i < old(open)@.len() && old(open)@[i] == r && final(open)@ == old(
            open,
        )@.remove(i),
        final(open)@.len() == old(open)@.len() - 1,
        forall|j: int| 0 <= j < old(open)@.len() ==> !prefer(#[trigger] old(open)@[j], r),
{
    let mut best: usize = 0;
    let mut i: usize = 1;
    while i < open.len()
        invariant
            0 <= best < i <= open@.len(),
            open@ == old(open)@,
            open@.len() > 0,
            forall|k: int| 0 <= k < open@.len() ==> 0 <= (#[trigger] open@[k]).g_cost
                <= 3_000_000_000 && 0 <= open@[k].h_cost <= 3_000_000_000,
            forall|j: int| 0 <= j < i ==> !prefer(#[trigger] open@[j], open@[best as int]),
        decreases open@.len() - i,
    {
        let fi: i64 = open[i].g_cost + open[i].h_cost;
        let fb: i64 = open[best].g_cost + open[best].h_cost;
        if fi < fb || (fi == fb && open[i].h_cost > open[best].h_cost) {
            best = i;
        }
        i = i + 1;
    }
    let r = open.remove(best);
    proof {
        assert(old(open)@[best as int] == r);
    }
    r
}

/// Walks the parent chain from `goal` back toward the start, then reverses
/// it: the returned cells run from the first step after the start up to the
/// goal. Only when the goal cell is the start cell itself does the start
/// appear (as the single element).
fn reconstruct_path(
    recs: &Vec<SearchRec>,
    goal: Cell,
    Ghost(g): Ghost<Grid>,
    Ghost(start): Ghost<Cell>,
) -> (r: Vec<Cell>)
    requires
        recs_inv(g, start, recs@),
        has_rec(recs@, goal),
    ensures
        r@.len() >= 1,
        forall|i: int| 0 <= i < r@.len() ==> g.walkable_spec(#[trigger] r@[i]),
        r@[r@.len() - 1] == goal,
        forall|i: int| 0 <= i < r@.len() - 1 ==> adjacent(#[trigger] r@[i], r@[i + 1]),
        goal == start ==> r@.len() == 1,
        goal != start ==> adjacent(start, r@[0]),
{
    let mut chain: Vec<Cell> = Vec::new();
    chain.push(goal);
    let mut cur: Cell = goal;
    loop
        invariant_except_break
            recs_inv(g, start, recs@),
            has_rec(recs@, cur),
            chain@.len() >= 1,
            chain@[0] == goal,
            chain@[chain@.len() - 1] == cur,
            forall|i: int| 0 <= i < chain@.len() ==> g.walkable_spec(#[trigger] chain@[i])
                && has_rec(recs@, chain@[i]),
            forall|i: int| 0 <= i < chain@.len() - 1 ==> rec_at(recs@, #[trigger] chain@[i]).parent
                == Some(chain@[i + 1]),
            cur == start ==> chain@.len() == 1 && goal == start,
        ensures
            chain@.len() >= 1,
            chain@[0] == goal,
            chain@[chain@.len() - 1] == cur,
            forall|i: int| 0 <= i < chain@.len() ==> g.walkable_spec(#[trigger] chain@[i])
                && has_rec(recs@, chain@[i]),
            forall|i: int| 0 <= i < chain@.len() - 1 ==> rec_at(recs@, #[trigger] chain@[i]).parent
                == Some(chain@[i + 1]),
            goal == start ==> chain@.len() == 1,
            goal != start ==> rec_at(recs@, cur).parent == Some(start),
        decreases rec_at(recs@, cur).g,
    {
        let r = get_rec(recs, cur).unwrap();
        proof {
            assert(r == rec_at(recs@, cur));
            let i = idx_of(recs@, cur);
            assert(recs@[i] == r);
            assert(rec_ok(g, start, recs@, r));
        }
        match r.parent {
            None => {
                proof {
                    assert(r.cell == cur);
                    assert(cur == start);
                }
                break ;
            },
            Some(p) => {
                proof {
                    assert(cur != start);
                    assert(has_rec(recs@, p));
                    let ip = idx_of(recs@, p);
                    assert(recs@[ip] == rec_at(recs@, p));
                    assert(rec_ok(g, start, recs@, rec_at(recs@, p)));
                    assert(rec_at(recs@, p).g < r.g);
                }
                let pr = get_rec(recs, p).unwrap();
                if pr.parent.is_none() {
                    proof {
                        assert(pr.cell == p);
                        assert(p == start);
                    }
                    break ;
                }
                proof {
                    assert(p != start);
                    let ghost old_chain = chain@;
                    assert(forall|i: int| 0 <= i < old_chain.len() - 1 ==> rec_at(
                        recs@,
                        #[trigger] old_chain[i],
                    ).parent == Some(old_chain[i + 1]));
                }
                chain.push(p);
                cur = p;
            },
        }
    }
    // Reverse the chain so it runs from the start side to the goal.
    let mut out: Vec<Cell> = Vec::new();
    let mut i: usize = chain.len();
    while i > 0
        invariant
            i <= chain@.len(),
            out@.len() == chain@.len() - i,
            forall|j: int| 0 <= j < out@.len() ==> #[trigger] out@[j] == chain@[chain@.len() - 1
                - j],
        decreases i,
    {
        i = i - 1;
        out.push(chain[i]);
    }
    proof {
        assert(out@.len() == chain@.len());
        assert(out@[out@.len() - 1] == chain@[0]);
        assert forall|k: int| 0 <= k < out@.len() - 1 implies adjacent(
            #[trigger] out@[k],
            out@[k + 1],
        ) by {
            let n = chain@.len();
            assert(out@[k] == chain@[n - 1 - k]);
            assert(out@[k + 1] == chain@[n - 1 - (k + 1)]);
            assert(rec_at(recs@, chain@[n - 2 - k]).parent == Some(chain@[n - 1 - k]));
            let ic = idx_of(recs@, chain@[n - 2 - k]);
            assert(recs@[ic] == rec_at(recs@, chain@[n - 2 - k]));
            assert(rec_ok(g, start, recs@, recs@[ic]));
            assert(adjacent(chain@[n - 1 - k], chain@[n - 2 - k]));
        }
        if goal != start {
            let n = chain@.len();
            assert(out@[0] == chain@[n - 1]);
            let ic = idx_of(recs@, chain@[n - 1]);
            assert(recs@[ic] == rec_at(recs@, chain@[n - 1]));
            assert(rec_ok(g, start, recs@, recs@[ic]));
            assert(rec_at(recs@, chain@[n - 1]).parent == Some(start));
            assert(adjacent(start, chain@[n - 1]));
        }
    }
    out
}

/// After removing one entry from the frontier, every other entry survives,
/// so the per-node facts and the best-entry witnesses of all cells but the
/// popped one carry over.
proof fn lemma_open_after_pop(
    g: Grid,
    goal: Cell,
    recs: Seq<SearchRec>,
    closed: Seq<Cell>,
    pre: Seq<Node>,
    post: Seq<Node>,
    cur: Node,
    w: int,
)
    requires
        0 <= w < pre.len(),
        pre[w] == cur,
        post == pre.remove(w),
        open_inv(g, goal, recs, pre),
        forall|c: Cell| #[trigger] has_rec(recs, c) && !closed.contains(c) ==> exists|j: int|
            0 <= j < pre.len() && pre[j].position == c && pre[j].g_cost == rec_at(recs, c).g,
    ensures
        open_inv(g, goal, recs, post),
        node_ok(g, goal, recs, cur),
        forall|c: Cell|
            #[trigger] has_rec(recs, c) && !closed.contains(c) && c != cur.position ==> exists|
                j: int,
            |
                0 <= j < post.len() && post[j].position == c && post[j].g_cost == rec_at(
                    recs,
                    c,
                ).g,
{
    pre.remove_ensures(w);
    assert forall|i: int| 0 <= i < post.len() implies node_ok(g, goal, recs, #[trigger] post[i]) by {
        if i < w {
            assert(post[i] == pre[i]);
        } else {
            assert(post[i] == pre[i + 1]);
        }
    }
    assert forall|c: Cell|
        #[trigger] has_rec(recs, c) && !closed.contains(c) && c != cur.position implies exists|
        j: int,
    |
        0 <= j < post.len() && post[j].position == c && post[j].g_cost == rec_at(recs, c).g by {
        let j0 = choose|j0: int|
            0 <= j0 < pre.len() && pre[j0].position == c && pre[j0].g_cost == rec_at(recs, c).g;
        assert(j0 != w);
        if j0 < w {
            assert(post[j0] == pre[j0]);
        } else {
            assert(post[j0 - 1] == pre[j0]);
        }
    }
}

/// Appending a freshly popped cell to the closed set keeps the closed set's
/// invariants: distinct walkable recorded non-goal cells within the grid's
/// capacity, best-entry witnesses for the still-open cells, and adjacency
/// closure for all previously closed cells.
proof fn lemma_close_cell(
    g: Grid,
    goal: Cell,
    recs: Seq<SearchRec>,
    open: Seq<Node>,
    pre_closed: Seq<Cell>,
    closed: Seq<Cell>,
    cur: Node,
)
    requires
        g.wf(),
        closed == pre_closed.push(cur.position),
        pre_closed.no_duplicates(),
        forall|i: int| 0 <= i < pre_closed.len() ==> g.walkable_spec(#[trigger] pre_closed[i]),
        forall|i: int| 0 <= i < pre_closed.len() ==> has_rec(recs, #[trigger] pre_closed[i])
            && pre_closed[i] != goal,
        !pre_closed.contains(cur.position),
        node_ok(g, goal, recs, cur),
        cur.position != goal,
        forall|c: Cell|
            #[trigger] has_rec(recs, c) && !pre_closed.contains(c) && c != cur.position ==> exists|
                j: int,
            |
                0 <= j < open.len() && open[j].position == c && open[j].g_cost == rec_at(
                    recs,
                    c,
                ).g,
        forall|i: int, n: Cell|
            #![trigger adjacent(pre_closed[i], n)]
            0 <= i < pre_closed.len() && adjacent(pre_closed[i], n) && g.walkable_spec(n)
                ==> has_rec(recs, n),
    ensures
        closed.no_duplicates(),
        forall|i: int| 0 <= i < closed.len() ==> g.walkable_spec(#[trigger] closed[i]),
        closed.len() <= g.width * g.height,
        forall|i: int| 0 <= i < closed.len() ==> has_rec(recs, #[trigger] closed[i]) && closed[i]
            != goal,
        closed.len() >= 1,
        closed[closed.len() - 1] == cur.position,
        closed.contains(cur.position),
        forall|c: Cell| #[trigger] has_rec(recs, c) && !closed.contains(c) ==> exists|j: int|
            0 <= j < open.len() && open[j].position == c && open[j].g_cost == rec_at(recs, c).g,
        forall|i: int, n: Cell|
            #![trigger adjacent(closed[i], n)]
            0 <= i < closed.len() - 1 && adjacent(closed[i], n) && g.walkable_spec(n) ==> has_rec(
                recs,
                n,
            ),
{
    assert forall|i2: int, j2: int| 0 <= i2 < j2 < closed.len() implies closed[i2] != closed[j2] by {
        if j2 < pre_closed.len() {
            assert(pre_closed[i2] == closed[i2] && pre_closed[j2] == closed[j2]);
        } else {
            assert(closed[j2] == cur.position);
            assert(pre_closed.contains(pre_closed[i2]));
        }
    }
    lemma_distinct_cells_bound(closed, g.width as int, g.height as int);
    assert(closed[closed.len() - 1] == cur.position);
    assert forall|x: Cell| #[trigger] closed.contains(x) implies pre_closed.contains(x) || x
        == cur.position by {
        let i = choose|i: int| 0 <= i < closed.len() && closed[i] == x;
        if i < pre_closed.len() {
            assert(pre_closed[i] == x);
        }
    }
    assert forall|x: Cell| pre_closed.contains(x) implies closed.contains(x) by {
        let i = choose|i: int| 0 <= i < pre_closed.len() && pre_closed[i] == x;
        assert(closed[i] == x);
    }
    assert forall|c: Cell| #[trigger] has_rec(recs, c) && !closed.contains(c) implies exists|j: int|
        0 <= j < open.len() && open[j].position == c && open[j].g_cost == rec_at(recs, c).g by {
        assert(!pre_closed.contains(c) && c != cur.position);
    }
    assert forall|i: int, n: Cell|
        #![trigger adjacent(closed[i], n)]
        0 <= i < closed.len() - 1 && adjacent(closed[i], n) && g.walkable_spec(n) implies has_rec(
        recs,
        n,
    ) by {
        assert(closed[i] == pre_closed[i]);
        assert(adjacent(pre_closed[i], n));
    }
}

/// Once all four cardinal neighbours of the newly closed cell are recorded,
/// the whole closed set is again closed under walkable adjacency.
proof fn lemma_merge_closure(g: Grid, recs: Seq<SearchRec>, closed: Seq<Cell>, cur_pos: Cell)
    requires
        g.wf(),
        closed.len() >= 1,
        closed[closed.len() - 1] == cur_pos,
        g.walkable_spec(cur_pos),
        forall|i: int, n: Cell|
            #![trigger adjacent(closed[i], n)]
            0 <= i < closed.len() - 1 && adjacent(closed[i], n) && g.walkable_spec(n) ==> has_rec(
                recs,
                n,
            ),
        forall|kk: int| 0 <= kk < 4 ==> (g.walkable_spec(neighbor_spec(cur_pos, kk)) ==> has_rec(
            recs,
            #[trigger] neighbor_spec(cur_pos, kk),
        )),
    ensures
        forall|i: int, n: Cell|
            #![trigger adjacent(closed[i], n)]
            0 <= i < closed.len() && adjacent(closed[i], n) && g.walkable_spec(n) ==> has_rec(
                recs,
                n,
            ),
{
    assert forall|i: int, n: Cell|
        #![trigger adjacent(closed[i], n)]
        0 <= i < closed.len() && adjacent(closed[i], n) && g.walkable_spec(n) implies has_rec(
        recs,
        n,
    ) by {
        if i == closed.len() - 1 {
            assert(closed[i] == cur_pos);
            lemma_adjacent_is_neighbor(cur_pos, n);
            let kk = choose|kk: int| 0 <= kk < 4 && n == neighbor_spec(cur_pos, kk);
            assert(g.walkable_spec(neighbor_spec(cur_pos, kk)));
        }
    }
}

/// The fixed fallback: three short forward offsets from the start, then the
/// raw goal point, returned whenever the search cannot produce a real path.
pub open spec fn fallback_spec(start: Point, goal: Point) -> Seq<Point> {
    seq![
        Point { x: start.x, y: (start.y + 50) as i64 },
        Point { x: start.x, y: (start.y + 100) as i64 },
        Point { x: start.x, y: (start.y + 150) as i64 },
        goal,
    ]
}

/// A successfully searched path: every waypoint is the world corner of a
/// walkable cell, consecutive waypoints are 4-connected, the last waypoint is
/// the goal cell, and the first is adjacent to the start cell (or is the
/// start cell itself when start and goal coincide).
pub open spec fn real_path_spec(g: Grid, sc: Cell, gc: Cell, pts: Seq<Point>) -> bool {
    &&& pts.len() >= 1
    &&& forall|i: int| 0 <= i < pts.len() ==> g.walkable_spec(
        g.world_to_grid_spec(#[trigger] pts[i]),
    ) && pts[i] == g.grid_to_world_spec(g.world_to_grid_spec(pts[i]))
    &&& forall|i: int| 0 <= i < pts.len() - 1 ==> adjacent(
        g.world_to_grid_spec(#[trigger] pts[i]),
        g.world_to_grid_spec(pts[i + 1]),
    )
    &&& g.world_to_grid_spec(pts[pts.len() - 1]) == gc
    &&& (sc == gc ==> pts.len() == 1)
    &&& (sc != gc ==> adjacent(sc, g.world_to_grid_spec(pts[0])))
}

proof fn lemma_path_suffix_bound(g: Grid, sc: Cell, gc: Cell, pts: Seq<Point>, i: int)
    requires
        real_path_spec(g, sc, gc, pts),
        0 <= i < pts.len(),
    ensures
        manhattan_spec(g.world_to_grid_spec(pts[i]), gc) <= pts.len() - 1 - i,
    decreases pts.len() - i,
{
    if i < pts.len() - 1 {
        lemma_path_suffix_bound(g, sc, gc, pts, i + 1);
        assert(adjacent(g.world_to_grid_spec(pts[i]), g.world_to_grid_spec(pts[i + 1])));
    }
}

/// A successfully searched path cannot be shorter than the Manhattan cell
/// distance between the start and goal cells: every step moves exactly one
/// cell along one axis.
pub proof fn lemma_real_path_len_at_least_manhattan(g: Grid, sc: Cell, gc: Cell, pts: Seq<Point>)
    requires
        real_path_spec(g, sc, gc, pts),
    ensures
        pts.len() >= manhattan_spec(sc, gc),
{
    if sc == gc {
    } else {
        lemma_path_suffix_bound(g, sc, gc, pts, 0);
        assert(adjacent(sc, g.world_to_grid_spec(pts[0])));
    }
}

fn fallback_path(start: Point, goal: Point) -> (r: Vec<Point>)
    requires
        point_in_world(start),
        point_in_world(goal),
    ensures
        r@ =~= fallback_spec(start, goal),
        forall|i: int| 0 <= i < r@.len() ==> point_in_range(#[trigger] r@[i]),
{
    let mut r: Vec<Point> = Vec::new();
    r.push(Point { x: start.x, y: start.y + 50 });
    r.push(Point { x: start.x, y: start.y + 100 });
    r.push(Point { x: start.x, y: start.y + 150 });
    r.push(goal);
    r
}

proof fn lemma_rec_ok_at(g: Grid, start: Cell, s: Seq<SearchRec>, c: Cell)
    requires
        recs_inv(g, start, s),
        has_rec(s, c),
    ensures
        rec_ok(g, start, s, rec_at(s, c)),
        rec_at(s, c).cell == c,
{
    let i = idx_of(s, c);
    assert(0 <= i < s.len() && s[i].cell == c);
    assert(rec_ok(g, start, s, s[i]));
}

/// Computes an ordered sequence of world-space waypoints from `start` to a
/// point at the `goal`'s cell, by A* over the grid's walkable cells. If the
/// start or goal cell is not walkable, or the search exhausts its frontier,
/// the fixed forward fallback path is returned instead; the result is never
/// empty.
///
/// The search is complete: whenever the goal cell can be reached from the
/// start cell through walkable cells, a real path is found — the frontier
/// cannot be exhausted first. Together with `lemma_no_obstacles_reachable`
/// this excludes the fallback on any grid without obstacles.
#[verifier::rlimit(100)]
pub fn find_path(grid: &Grid, start: Point, goal: Point) -> (path: Vec<Point>)
    requires
        grid.wf(),
        point_in_world(start),
        point_in_world(goal),
    ensures
        path@.len() > 0,
        forall|i: int| 0 <= i < path@.len() ==> point_in_range(#[trigger] path@[i]),
        !(grid.walkable_spec(grid.world_to_grid_spec(start)) && grid.walkable_spec(
            grid.world_to_grid_spec(goal),
        )) ==> path@ =~= fallback_spec(start, goal),
        grid.walkable_spec(grid.world_to_grid_spec(start)) && grid.walkable_spec(
            grid.world_to_grid_spec(goal),
        ) ==> (path@ =~= fallback_spec(start, goal) || real_path_spec(
            *grid,
            grid.world_to_grid_spec(start),
            grid.world_to_grid_spec(goal),
            path@,
        )),
        grid.walkable_spec(grid.world_to_grid_spec(start)) && grid.walkable_spec(
            grid.world_to_grid_spec(goal),
        ) && reachable_spec(
            *grid,
            grid.world_to_grid_spec(start),
            grid.world_to_grid_spec(goal),
        ) ==> real_path_spec(
            *grid,
            grid.world_to_grid_spec(start),
            grid.world_to_grid_spec(goal),
            path@,
        ),
{
    let start_grid = grid.world_to_grid(start);
    let goal_grid = grid.world_to_grid(goal);

    if !grid.is_walkable(start_grid) || !grid.is_walkable(goal_grid) {
        // Degenerate sensing: keep the agent moving with the fixed forward path.
        return fallback_path(start, goal);
    }
    let mut open: Vec<Node> = Vec::new();
    let mut closed: Vec<Cell> = Vec::new();
    let mut recs: Vec<SearchRec> = Vec::new();

    let h0 = manhattan_distance(start_grid, goal_grid);
    open.push(Node { position: start_grid, g_cost: 0, h_cost: h0 * MOVE_COST, parent: None });
    recs.push(SearchRec { cell: start_grid, g: 0, parent: None });
    proof {
        assert(1 <= grid.width * grid.height) by (nonlinear_arith)
            requires
                1 <= grid.width,
                1 <= grid.height,
        ;
        lemma_rec_at(recs@, start_grid, 0);
        assert(recs_inv(*grid, start_grid, recs@));
        assert(node_ok(*grid, goal_grid, recs@, open@[0]));
        assert forall|c: Cell| #[trigger] has_rec(recs@, c) && !closed@.contains(c) implies exists|
            j: int,
        |
            0 <= j < open@.len() && open@[j].position == c && open@[j].g_cost == rec_at(
                recs@,
                c,
            ).g by {
            let i = idx_of(recs@, c);
            assert(0 <= i < recs@.len() && recs@[i].cell == c);
            assert(c == start_grid);
            assert(open@[0].position == c && open@[0].g_cost == 0);
            assert(rec_at(recs@, c).g == 0);
        }
    }
    while open.len() > 0
        invariant
            grid.wf(),
            grid.walkable_spec(start_grid),
            grid.walkable_spec(goal_grid),
            start_grid == grid.world_to_grid_spec(start),
            goal_grid == grid.world_to_grid_spec(goal),
            point_in_world(start),
            point_in_world(goal),
            recs_inv(*grid, start_grid, recs@),
            open_inv(*grid, goal_grid, recs@, open@),
            closed@.no_duplicates(),
            forall|i: int| 0 <= i < closed@.len() ==> grid.walkable_spec(#[trigger] closed@[i]),
            closed@.len() <= grid.width * grid.height,
            forall|i: int| 0 <= i < closed@.len() ==> has_rec(recs@, #[trigger] closed@[i])
                && closed@[i] != goal_grid,
            forall|c: Cell| #[trigger] has_rec(recs@, c) && !closed@.contains(c) ==> exists|j: int|
                0 <= j < open@.len() && open@[j].position == c && open@[j].g_cost == rec_at(
                    recs@,
                    c,
                ).g,
            forall|i: int, n: Cell|
                #![trigger adjacent(closed@[i], n)]
                0 <= i < closed@.len() && adjacent(closed@[i], n) && grid.walkable_spec(n)
                    ==> has_rec(recs@, n),
        decreases grid.width * grid.height - closed@.len(), open@.len(),
    {
        proof {
            assert(grid.width * grid.height <= GRID_DIM_LIMIT * GRID_DIM_LIMIT)
                by (nonlinear_arith)
                requires
                    0 < grid.width <= GRID_DIM_LIMIT,
                    0 < grid.height <= GRID_DIM_LIMIT,
            ;
            assert forall|i: int| 0 <= i < open@.len() implies 0 <= (#[trigger] open@[i]).g_cost
                <= 3_000_000_000 && 0 <= open@[i].h_cost <= 3_000_000_000 by {
                assert(node_ok(*grid, goal_grid, recs@, open@[i]));
            }
        }
        let ghost pre_pop = open@;
        let current = pop_best(&mut open);
        proof {
            let w = choose|w: int|
                0 <= w < pre_pop.len() && pre_pop[w] == current && open@ == pre_pop.remove(w);
            lemma_open_after_pop(*grid, goal_grid, recs@, closed@, pre_pop, open@, current, w);
        }
        if current.position == goal_grid {
            let cells = reconstruct_path(&recs, current.position, Ghost(*grid), Ghost(start_grid));
            return build_world_path(grid, &cells, Ghost(start_grid), Ghost(goal_grid));
        }
        if contains_cell(&closed, current.position) {
            // A stale frontier entry for an already-expanded cell: with the
            // cheapest entry always popped first, re-expanding it could not
            // improve any neighbour, so it is skipped.
            continue ;
        }
        let ghost pre_closed = closed@;
        closed.push(current.position);
        proof {
            lemma_close_cell(*grid, goal_grid, recs@, open@, pre_closed, closed@, current);
        }
        let ghost closed_snap = closed@;
        let mut k: usize = 0;
        while k < 4
            invariant
                grid.wf(),
                grid.walkable_spec(start_grid),
                grid.walkable_spec(goal_grid),
                recs_inv(*grid, start_grid, recs@),
                open_inv(*grid, goal_grid, recs@, open@),
                closed@ == closed_snap,
                closed@.no_duplicates(),
                forall|i: int| 0 <= i < closed@.len() ==> grid.walkable_spec(#[trigger] closed@[i]),
                closed@.len() <= grid.width * grid.height,
                closed@.contains(current.position),
                grid.walkable_spec(current.position),
                has_rec(recs@, current.position),
                rec_at(recs@, current.position).g <= current.g_cost,
                0 <= current.g_cost <= MOVE_COST * (recs@.len() - 1),
                closed@.len() >= 1,
                closed@[closed@.len() - 1] == current.position,
                forall|i: int| 0 <= i < closed@.len() ==> has_rec(recs@, #[trigger] closed@[i])
                    && closed@[i] != goal_grid,
                forall|c: Cell| #[trigger] has_rec(recs@, c) && !closed@.contains(c) ==> exists|
                    j: int,
                |
                    0 <= j < open@.len() && open@[j].position == c && open@[j].g_cost == rec_at(
                        recs@,
                        c,
                    ).g,
                forall|i: int, n: Cell|
                    #![trigger adjacent(closed@[i], n)]
                    0 <= i < closed@.len() - 1 && adjacent(closed@[i], n) && grid.walkable_spec(n)
                        ==> has_rec(recs@, n),
                forall|kk: int| 0 <= kk < k ==> (grid.walkable_spec(
                    neighbor_spec(current.position, kk),
                ) ==> has_rec(recs@, #[trigger] neighbor_spec(current.position, kk))),
            decreases 4 - k,
        {
            let n = neighbor_cell(current.position, k);
            if grid.is_walkable(n) && !contains_cell(&closed, n) {
                proof {
                    assert(grid.width * grid.height <= GRID_DIM_LIMIT * GRID_DIM_LIMIT)
                        by (nonlinear_arith)
                        requires
                            0 < grid.width <= GRID_DIM_LIMIT,
                            0 < grid.height <= GRID_DIM_LIMIT,
                    ;
                }
                let tentative = current.g_cost + MOVE_COST;
                let prev = get_rec(&recs, n);
                let improved = match prev {
                    Some(pr) => tentative < pr.g,
                    None => true,
                };
                if improved {
                    proof {
                        lemma_rec_ok_at(*grid, start_grid, recs@, start_grid);
                        if n == start_grid {
                            assert(rec_at(recs@, start_grid).g == 0);
                            assert(false);
                        }
                        assert(!closed@.contains(n));
                        assert(n != current.position);
                    }
                    let ghost old_recs = recs@;
                    set_rec(&mut recs, n, tentative, Some(current.position));
                    proof {
                        let newrec = SearchRec { cell: n, g: tentative, parent: Some(
                            current.position,
                        ) };
                        assert(rec_at(recs@, current.position) == rec_at(
                            old_recs,
                            current.position,
                        ));
                        // Every record still satisfies rec_ok over the new table.
                        assert forall|i: int| 0 <= i < recs@.len() implies rec_ok(
                            *grid,
                            start_grid,
                            recs@,
                            #[trigger] recs@[i],
                        ) by {
                            let r = recs@[i];
                            if r == newrec && r.cell == n {
                                assert(has_rec(recs@, current.position));
                                assert(rec_at(recs@, current.position).g <= current.g_cost);
                            } else {
                                if has_rec(old_recs, n) {
                                    assert(recs@ == old_recs.update(idx_of(old_recs, n), newrec));
                                    assert(i != idx_of(old_recs, n) || recs@[i] == newrec);
                                }
                                if recs@[i] != newrec || recs@[i].cell != n {
                                    assert(old_recs[i] == recs@[i]);
                                    assert(rec_ok(*grid, start_grid, old_recs, old_recs[i]));
                                    let r2 = old_recs[i];
                                    if r2.parent is Some {
                                        let p = r2.parent.unwrap();
                                        if p == n {
                                            assert(has_rec(old_recs, n));
                                            assert(rec_at(old_recs, n).g < r2.g);
                                            assert(rec_at(recs@, n).g == tentative);
                                            assert(tentative < rec_at(old_recs, n).g);
                                        } else {
                                            assert(has_rec(recs@, p));
                                            assert(rec_at(recs@, p) == rec_at(old_recs, p));
                                        }
                                    }
                                }
                            }
                        }
                        if !has_rec(old_recs, n) {
                            let cellseq = recs@.map_values(|r: SearchRec| r.cell);
                            assert forall|i2: int, j2: int|
                                0 <= i2 < j2 < cellseq.len() implies cellseq[i2] != cellseq[j2] by {
                                assert(cellseq[i2] == recs@[i2].cell && cellseq[j2]
                                    == recs@[j2].cell);
                            }
                            assert forall|i2: int| 0 <= i2 < cellseq.len() implies 0 <= (
                            #[trigger] cellseq[i2]).x < grid.width && 0 <= cellseq[i2].y
                                < grid.height by {
                                assert(cellseq[i2] == recs@[i2].cell);
                                assert(rec_ok(*grid, start_grid, recs@, recs@[i2]));
                            }
                            lemma_distinct_cells_bound(
                                cellseq,
                                grid.width as int,
                                grid.height as int,
                            );
                            assert(recs@.len() <= grid.width * grid.height);
                        }
                        assert(recs_inv(*grid, start_grid, recs@));
                        // Frontier entries still point at valid records.
                        assert forall|i: int| 0 <= i < open@.len() implies node_ok(
                            *grid,
                            goal_grid,
                            recs@,
                            #[trigger] open@[i],
                        ) by {
                            let e = open@[i];
                            assert(node_ok(*grid, goal_grid, old_recs, e));
                            if e.position == n {
                                assert(has_rec(old_recs, n));
                                assert(rec_at(old_recs, n).g <= e.g_cost);
                                assert(rec_at(recs@, n).g == tentative);
                            } else {
                                assert(has_rec(recs@, e.position));
                                assert(rec_at(recs@, e.position) == rec_at(old_recs, e.position));
                            }
                        }
                    }
                    let h = manhattan_distance(n, goal_grid);
                    let ghost pre_push = open@;
                    open.push(
                        Node {
                            position: n,
                            g_cost: tentative,
                            h_cost: h * MOVE_COST,
                            parent: Some(current.position),
                        },
                    );
                    proof {
                        assert forall|i: int| 0 <= i < open@.len() implies node_ok(
                            *grid,
                            goal_grid,
                            recs@,
                            #[trigger] open@[i],
                        ) by {
                            if i < pre_push.len() {
                                assert(open@[i] == pre_push[i]);
                                assert(node_ok(*grid, goal_grid, recs@, pre_push[i]));
                            } else {
                                assert(rec_at(recs@, n).g == tentative);
                            }
                        }
                        // The record table only grew.
                        assert forall|d: Cell| #[trigger] has_rec(old_recs, d) implies has_rec(
                            recs@,
                            d,
                        ) by {
                            if d != n {
                                assert(has_rec(recs@, d) == has_rec(old_recs, d));
                            }
                        }
                        assert(has_rec(recs@, n));
                        // Every unclosed recorded cell still has its best
                        // frontier entry; the relaxed cell's is the new one.
                        assert forall|c: Cell|
                            #[trigger] has_rec(recs@, c) && !closed@.contains(c) implies exists|
                            j: int,
                        |
                            0 <= j < open@.len() && open@[j].position == c && open@[j].g_cost
                                == rec_at(recs@, c).g by {
                            if c == n {
                                assert(open@[open@.len() - 1].position == n);
                                assert(open@[open@.len() - 1].g_cost == tentative);
                                assert(rec_at(recs@, n).g == tentative);
                            } else {
                                assert(has_rec(old_recs, c));
                                assert(rec_at(recs@, c) == rec_at(old_recs, c));
                                let j0 = choose|j0: int|
                                    0 <= j0 < pre_push.len() && pre_push[j0].position == c
                                        && pre_push[j0].g_cost == rec_at(old_recs, c).g;
                                assert(open@[j0] == pre_push[j0]);
                            }
                        }
                    }
                } else {
                    proof {
                        assert(has_rec(recs@, n));
                    }
                }
            } else {
                proof {
                    if grid.walkable_spec(n) && closed@.contains(n) {
                        let i = choose|i: int| 0 <= i < closed@.len() && closed@[i] == n;
                        assert(has_rec(recs@, closed@[i]));
                    }
                }
            }
            k = k + 1;
        }
        proof {
            lemma_merge_closure(*grid, recs@, closed@, current.position);
        }
    }
    proof {
        // The frontier is empty, so by the frontier invariant every recorded
        // cell is closed, and by the adjacency-closure invariant the
        // recorded cells absorb every walkable chain from the start. Were
        // the goal reachable, it would be recorded and closed — but the goal
        // is never closed (reaching it returns above). So this point is
        // reached only when the goal cell cannot be reached from the start.
        if reachable_spec(*grid, start_grid, goal_grid) {
            let s = choose|s: Seq<Cell>|
                is_cell_path(*grid, s) && s[0] == start_grid && s[s.len() - 1] == goal_grid;
            assert forall|c: Cell| #[trigger] has_rec(recs@, c) implies closed@.contains(c) by {
                if !closed@.contains(c) {
                    let j = choose|j: int|
                        0 <= j < open@.len() && open@[j].position == c && open@[j].g_cost
                            == rec_at(recs@, c).g;
                    assert(false);
                }
            }
            assert(has_rec(recs@, start_grid));
            lemma_path_closure(*grid, recs@, closed@, s, s.len() - 1);
            assert(has_rec(recs@, goal_grid));
            assert(closed@.contains(goal_grid));
            let j = choose|j: int| 0 <= j < closed@.len() && closed@[j] == goal_grid;
            assert(closed@[j] != goal_grid);
            assert(false);
        }
    }
    // Frontier exhausted without reaching the goal cell.
    fallback_path(start, goal)
}

} // verus!
