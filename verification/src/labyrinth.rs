//! Shortest paths through a labyrinth of walls on a rectangular grid.

use vstd::prelude::*;
use crate::grid::{GridSpace, near, wall_map, pt, cells, space_of, moves_of, wall_grid, grid_search, trace_path, COORD_LIMIT, lemma_step_rank, offset, lemma_slot_cell};

verus! {

/// A cell of the labyrinth.
#[derive(Clone, Copy, Debug, PartialEq, Eq, Structural)]
pub struct GridCell {
    pub x: usize,
    pub y: usize,
}

/// A wall cell; its kind is carried along but plays no part in the search.
#[derive(Clone, Debug)]
pub struct Wall {
    pub cell_type: String,
    pub x: usize,
    pub y: usize,
}

/// A labyrinth: its size, the start and goal cells, and its walls.
#[derive(Clone, Debug)]
pub struct Labyrinth {
    pub width: usize,
    pub height: usize,
    pub start: GridCell,
    pub goal: GridCell,
    pub grid: Vec<Wall>,
}

pub open spec fn cell_of(c: GridCell) -> (int, int) {
    (c.x as int, c.y as int)
}

pub open spec fn grid_cells(p: Seq<GridCell>) -> Seq<(int, int)> {
    p.map_values(|c: GridCell| cell_of(c))
}

pub open spec fn wall_cells(walls: Seq<Wall>) -> Seq<(i64, i64)> {
    walls.map_values(|w: Wall| (w.x as i64, w.y as i64))
}

/// One step up, right, down or left.
pub open spec fn maze_moves() -> Seq<(int, int)> {
    seq![(0, 1), (1, 0), (0, -1), (-1, 0)]
}

/// The labyrinth as a search space: every cell of the grid is inside,
/// walls are blocked, moves go to the four neighbours.
pub open spec fn maze_space(lab: Labyrinth) -> GridSpace {
    GridSpace {
        width: lab.width as int,
        height: lab.height as int,
        margin: 0,
        blocked: wall_map(wall_cells(lab.grid@), lab.width as int, lab.height as int),
        moves: maze_moves(),
        start: cell_of(lab.start),
    }
}

/// What a labyrinth must satisfy to be searched: its size fits the
/// coordinate range, and the start and every wall lie on the grid.
pub open spec fn maze_ok(lab: Labyrinth) -> bool {
    &&& lab.width * lab.height <= COORD_LIMIT
    &&& lab.width * lab.height <= usize::MAX
    &&& lab.start.x < lab.width
    &&& lab.start.y < lab.height
    &&& forall|k: int| 0 <= k < lab.grid@.len() ==> (#[trigger] lab.grid@[k]).x < lab.width && lab.grid@[k].y < lab.height
}

/// Every cell of a walk lies on the grid.
proof fn lemma_walk_on_grid(sp: GridSpace, p: Seq<(int, int)>, j: int)
    requires
        sp.is_walk(p),
        0 <= j < p.len(),
        sp.margin == 0,
        0 <= sp.start.0 < sp.width,
        0 <= sp.start.1 < sp.height,
    ensures
        0 <= p[j].0 < sp.width,
        0 <= p[j].1 < sp.height,
{
    if j > 0 {
        assert(sp.walk_step(p, j - 1));
    }
}

/// Finds a shortest path from the start to the goal, both included, moving
/// between the four neighbours of a cell and avoiding walls; of several
/// shortest paths, the first in the order of the moves in `maze_moves`.
/// `None` when the goal cannot be reached.
pub fn find_path(lab: &Labyrinth) -> (path: Option<Vec<GridCell>>)
    requires
        maze_ok(*lab),
    ensures
        ({
            let sp = maze_space(*lab);
            let goal = cell_of(lab.goal);
            match path {
                None => forall|p: Seq<(int, int)>| #[trigger] sp.is_walk(p) ==> p.last() != goal,
                Some(v) => {
                    &&& sp.is_first_shortest(grid_cells(v@), goal, 0)
                    &&& v@[0] == lab.start
                    &&& v@.last() == lab.goal
                },
            }
        }),
{
    let ghost sp = maze_space(*lab);
    let ghost goal = cell_of(lab.goal);
    proof {
        assert(lab.width >= 1 && lab.height >= 1);
        assert(lab.width <= COORD_LIMIT && lab.height <= COORD_LIMIT) by (nonlinear_arith)
            requires lab.width * lab.height <= COORD_LIMIT, lab.width >= 1, lab.height >= 1;
    }
    if lab.goal.x >= lab.width || lab.goal.y >= lab.height {
        assert forall|p: Seq<(int, int)>| #[trigger] sp.is_walk(p) implies p.last() != goal by {
            lemma_walk_on_grid(sp, p, p.len() - 1);
        }
        return None;
    }
    let width = lab.width as i64;
    let height = lab.height as i64;
    let mut wide: Vec<(i64, i64)> = Vec::new();
    let mut k: usize = 0;
    while k < lab.grid.len()
        invariant
            maze_ok(*lab),
            k <= lab.grid@.len(),
            wide@ == wall_cells(lab.grid@).take(k as int),
            lab.width <= COORD_LIMIT,
            lab.height <= COORD_LIMIT,
        decreases lab.grid@.len() - k,
    {
        let w = &lab.grid[k];
        assert(lab.grid@[k as int].x < lab.width);
        wide.push((w.x as i64, w.y as i64));
        k += 1;
        assert(wide@ =~= wall_cells(lab.grid@).take(k as int));
    }
    assert(wide@ =~= wall_cells(lab.grid@));
    let blocked = wall_grid(width, height, &wide);
    let moves: Vec<(i64, i64)> = vec![(0, 1), (1, 0), (0, -1), (-1, 0)];
    let start: (i64, i64) = (lab.start.x as i64, lab.start.y as i64);
    let target: (i64, i64) = (lab.goal.x as i64, lab.goal.y as i64);
    assert(moves_of(moves@) =~= maze_moves());
    assert(space_of(width, height, 0, blocked@, moves@, start) == sp);
    proof {
        assert(0 <= start.1 * width + start.0 < width * height) by (nonlinear_arith)
            requires 0 <= start.0 < width, 0 <= start.1 < height, width >= 1;
    }
    let tree = grid_search(width, height, 0, &blocked, &moves, start, target, 0);
    match tree.found {
        None => {
            assert forall|p: Seq<(int, int)>| #[trigger] sp.is_walk(p) implies p.last() != goal by {
                assert(!near(p.last(), goal, 0));
            }
            None
        },
        Some(g) => {
            let steps = trace_path(width, height, 0, &blocked, &moves, start, &tree, g);
            let ghost p = cells(steps@);
            let mut out: Vec<GridCell> = Vec::new();
            let mut i: usize = 0;
            while i < steps.len()
                invariant
                    i <= steps@.len(),
                    p == cells(steps@),
                    sp.is_walk(p),
                    sp == maze_space(*lab),
                    0 <= sp.start.0 < sp.width,
                    0 <= sp.start.1 < sp.height,
                    sp.margin == 0,
                    out@.len() == i,
                    forall|j: int| 0 <= j < i ==> cell_of(#[trigger] out@[j]) == p[j],
                decreases steps@.len() - i,
            {
                let c = steps[i];
                proof {
                    lemma_walk_on_grid(sp, p, i as int);
                    assert(p[i as int] == pt(c));
                }
                out.push(GridCell { x: c.0 as usize, y: c.1 as usize });
                i += 1;
            }
            proof {
                assert(grid_cells(out@) =~= p);
                assert(p.last() == pt(g));
                assert(near(pt(g), goal, 0));
                assert(sp.reaches(p, goal, 0));
                assert(sp.is_first_shortest(p, goal, 0));
                assert(out@.last() == lab.goal);
                assert(cell_of(out@[0]) == cell_of(lab.start));
            }
            Some(out)
        },
    }
}

} // verus!

verus! {

/// Law: every cell of a walk after the start lies on the grid, is not a
/// wall, and is one step up, down, left or right from the cell before it.
pub proof fn lemma_maze_walk_steps(lab: Labyrinth, p: Seq<(int, int)>, i: int)
    requires
        maze_ok(lab),
        maze_space(lab).is_walk(p),
        0 < i < p.len(),
    ensures
        0 <= p[i].0 < lab.width,
        0 <= p[i].1 < lab.height,
        !cells(wall_cells(lab.grid@)).contains(p[i]),
        crate::line::axis_dist(p[i - 1].0, p[i].0) + crate::line::axis_dist(p[i - 1].1, p[i].1) == 1,
{
    let sp = maze_space(lab);
    assert(sp.walk_step(p, i - 1));
    let c = p[i];
    let k = choose|k: int| 0 <= k < sp.moves.len() && c == crate::grid::offset(p[i - 1], #[trigger] sp.moves[k]);
    assert(0 <= k < 4);
    let idx = sp.index(c);
    assert(0 <= idx < sp.width * sp.height) by (nonlinear_arith)
        requires idx == c.1 * sp.width + c.0, 0 <= c.0 < sp.width, 0 <= c.1 < sp.height;
    crate::grid::lemma_slot_cell(sp.width, sp.height, c, idx);
}

/// Law: a walk through the labyrinth moves to exactly the four neighbours
/// of a cell, and of two equally short paths the one that first differs by
/// a move listed earlier is preferred, in this order: y up by one, x up by
/// one, y down by one, x down by one.
pub proof fn lemma_maze_moves_exact(lab: Labyrinth, a: (int, int), b: (int, int))
    ensures
        ({
            let sp = maze_space(lab);
            let dx = b.0 - a.0;
            let dy = b.1 - a.1;
            &&& sp.adjacent(a, b) <==> ((dx == 0 && (dy == 1 || dy == -1)) || (dy == 0 && (dx == 1 || dx == -1)))
            &&& sp.step_rank(a, (a.0, a.1 + 1)) == 0
            &&& sp.step_rank(a, (a.0 + 1, a.1)) == 1
            &&& sp.step_rank(a, (a.0, a.1 - 1)) == 2
            &&& sp.step_rank(a, (a.0 - 1, a.1)) == 3
        }),
{
    let sp = maze_space(lab);
    let dx = b.0 - a.0;
    let dy = b.1 - a.1;
    assert(sp.moves_distinct());
    if sp.adjacent(a, b) {
        let k = choose|k: int| 0 <= k < sp.moves.len() && b == offset(a, #[trigger] sp.moves[k]);
        assert(0 <= k < 4);
    }
    if (dx == 0 && (dy == 1 || dy == -1)) || (dy == 0 && (dx == 1 || dx == -1)) {
        let k: int = if dy == 1 { 0 } else if dx == 1 { 1 } else if dy == -1 { 2 } else { 3 };
        assert(b == offset(a, sp.moves[k]));
    }
    lemma_step_rank(sp, a, 0);
    lemma_step_rank(sp, a, 1);
    lemma_step_rank(sp, a, 2);
    lemma_step_rank(sp, a, 3);
}

/// Law: a path may enter exactly the cells of the grid that hold no wall
/// and are not the start.
pub proof fn lemma_maze_open_cells(lab: Labyrinth, c: (int, int))
    requires
        maze_ok(lab),
    ensures
        maze_space(lab).is_open(c) <==> {
            &&& 0 <= c.0 < lab.width
            &&& 0 <= c.1 < lab.height
            &&& c != cell_of(lab.start)
            &&& !exists|j: int| 0 <= j < lab.grid@.len() && lab.grid@[j].x == c.0 && lab.grid@[j].y == c.1
        },
{
    let sp = maze_space(lab);
    let width = lab.width as int;
    let height = lab.height as int;
    let start = cell_of(lab.start);
    if sp.in_area(c) {
        let idx = sp.index(c);
        let si = sp.index(start);
        assert(0 <= idx < width * height) by (nonlinear_arith)
            requires idx == c.1 * width + c.0, 0 <= c.0 < width, 0 <= c.1 < height;
        lemma_slot_cell(width, height, c, idx);
        lemma_slot_cell(width, height, start, idx);
        assert(width <= COORD_LIMIT && height <= COORD_LIMIT) by (nonlinear_arith)
            requires width * height <= COORD_LIMIT, width >= 1, height >= 1;
        let ws = cells(wall_cells(lab.grid@));
        assert forall|j: int| 0 <= j < lab.grid@.len() implies #[trigger] ws[j] == (lab.grid@[j].x as int, lab.grid@[j].y as int) by {
            assert(lab.grid@[j].x < lab.width && lab.grid@[j].y < lab.height);
        }
        assert(sp.blocked[idx] == ws.contains(c));
        if ws.contains(c) {
            let j = choose|j: int| 0 <= j < ws.len() && ws[j] == c;
            assert(ws[j] == (lab.grid@[j].x as int, lab.grid@[j].y as int));
        }
        if exists|j: int| 0 <= j < lab.grid@.len() && lab.grid@[j].x == c.0 && lab.grid@[j].y == c.1 {
            let j = choose|j: int| 0 <= j < lab.grid@.len() && lab.grid@[j].x == c.0 && lab.grid@[j].y == c.1;
            assert(ws[j] == c);
        }
    }
}

} // verus!
