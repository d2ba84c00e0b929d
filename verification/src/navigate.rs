//! Step planning for a hero on the arena: the first move of a shortest walk
//! towards a target area.

use vstd::prelude::*;
use crate::grid::{GridSpace, near, wall_map, pt, cells, space_of, moves_of, wall_grid, grid_search, trace_path, slot_cell, lemma_slot_cell, lemma_same_open_cells, lemma_first_shortest_unique, lemma_step_rank, offset};

verus! {

/// The moves a hero can make: three cells along an axis or a diagonal.
pub open spec fn hero_moves() -> Seq<(int, int)> {
    seq![(3, 0), (0, -3), (0, 3), (-3, 0), (3, 3), (3, -3), (-3, 3), (-3, -3)]
}

/// Wall cells on 32-bit coordinates, widened.
pub open spec fn widen(walls: Seq<(i32, i32)>) -> Seq<(i64, i64)> {
    walls.map_values(|c: (i32, i32)| (c.0 as i64, c.1 as i64))
}

/// The arena as a search space: cells one away from every border are
/// inside, walls are blocked, heroes move by `hero_moves`.
pub open spec fn arena_space(width: int, height: int, walls: Seq<(i32, i32)>, start: (int, int)) -> GridSpace {
    GridSpace {
        width,
        height,
        margin: 1,
        blocked: wall_map(widen(walls), width, height),
        moves: hero_moves(),
        start,
    }
}

/// The cell a walk enters first, or its start when it has no move.
pub open spec fn first_step(p: Seq<(int, int)>) -> (int, int) {
    if p.len() > 1 { p[1] } else { p[0] }
}

/// An optional executable cell as an optional mathematical cell.
pub open spec fn cell_opt(c: Option<(i32, i32)>) -> Option<(int, int)> {
    match c {
        Some(p) => Some((p.0 as int, p.1 as int)),
        None => None,
    }
}

/// `step` is the planned next cell from `start` towards the area within three
/// cells of `target`: `None` exactly when no walk reaches that area, and
/// otherwise the first cell of the first shortest such walk, walks being
/// ordered by the place of their moves in `hero_moves`.
pub open spec fn next_step_ok(
    width: int,
    height: int,
    walls: Seq<(i32, i32)>,
    start: (int, int),
    target: (int, int),
    step: Option<(int, int)>,
) -> bool {
    let sp = arena_space(width, height, walls, start);
    match step {
        None => forall|p: Seq<(int, int)>| #[trigger] sp.is_walk(p) ==> !near(p.last(), target, 3),
        Some(s) => exists|p: Seq<(int, int)>| #[trigger] sp.is_first_shortest(p, target, 3) && first_step(p) == s,
    }
}

fn widen_walls(walls: &Vec<(i32, i32)>) -> (wide: Vec<(i64, i64)>)
    ensures
        wide@ == widen(walls@),
{
    let mut wide: Vec<(i64, i64)> = Vec::new();
    let mut k: usize = 0;
    while k < walls.len()
        invariant
            k <= walls@.len(),
            wide@ == widen(walls@).take(k as int),
        decreases walls@.len() - k,
    {
        let c = walls[k];
        wide.push((c.0 as i64, c.1 as i64));
        k += 1;
        assert(wide@ =~= widen(walls@).take(k as int));
    }
    assert(wide@ =~= widen(walls@));
    wide
}

proof fn lemma_positive_sides(width: int, height: int)
    requires
        width >= 1,
        width * height >= 1,
    ensures
        height >= 1,
{
    if height < 1 {
        assert(width * height <= 0) by (nonlinear_arith)
            requires width >= 1, height < 1;
    }
}

/// Plans the next cell for a hero at `(start_x, start_y)` heading for the
/// area within three cells of `(target_x, target_y)`: the first cell of a
/// shortest walk there, the start itself when it already lies there, and
/// `None` when no walk reaches it.
pub fn bfs_next_step(
    start_x: i32,
    start_y: i32,
    target_x: i32,
    target_y: i32,
    width: i32,
    height: i32,
    walls: &Vec<(i32, i32)>,
) -> (step: Option<(i32, i32)>)
    requires
        width * height <= i32::MAX,
        0 <= start_y * width + start_x < width * height,
    ensures
        next_step_ok(
            width as int,
            height as int,
            walls@,
            (start_x as int, start_y as int),
            (target_x as int, target_y as int),
            cell_opt(step),
        ),
{
    let ghost sp = arena_space(width as int, height as int, walls@, (start_x as int, start_y as int));
    let ghost t = (target_x as int, target_y as int);
    let start: (i64, i64) = (start_x as i64, start_y as i64);
    let target: (i64, i64) = (target_x as i64, target_y as i64);
    if width < 1 {
        // the grid has no inner cell: the start is the only cell of any walk
        assert forall|p: Seq<(int, int)>| #[trigger] sp.is_walk(p) implies p.len() == 1 by {
            if p.len() > 1 {
                assert(sp.walk_step(p, 0));
            }
        }
        let ghost only = seq![sp.start];
        assert(sp.is_walk(only));
        let dx: i64 = if start.0 <= target.0 { target.0 - start.0 } else { start.0 - target.0 };
        let dy: i64 = if start.1 <= target.1 { target.1 - start.1 } else { start.1 - target.1 };
        if dx <= 3 && dy <= 3 {
            assert(sp.is_shortest(only, t, 3));
            assert forall|q: Seq<(int, int)>| #[trigger] sp.is_shortest(q, t, 3) implies q == only || sp.walk_before(only, q) by {
                assert(q.len() == 1);
                assert(q =~= only);
            }
            assert(sp.is_first_shortest(only, t, 3));
            return Some((start_x, start_y));
        } else {
            return None;
        }
    }
    proof {
        lemma_positive_sides(width as int, height as int);
    }
    let wide = widen_walls(walls);
    let blocked = wall_grid(width as i64, height as i64, &wide);
    let moves: Vec<(i64, i64)> = vec![(3, 0), (0, -3), (0, 3), (-3, 0), (3, 3), (3, -3), (-3, 3), (-3, -3)];
    let ghost sp64 = space_of(width as i64, height as i64, 1, blocked@, moves@, start);
    assert(moves_of(moves@) =~= hero_moves());
    assert(sp64 == sp);
    let tree = grid_search(width as i64, height as i64, 1, &blocked, &moves, start, target, 3);
    match tree.found {
        None => None,
        Some(g) => {
            let path = trace_path(width as i64, height as i64, 1, &blocked, &moves, start, &tree, g);
            let ghost p = cells(path@);
            proof {
                assert(p.last() == pt(g));
                assert(sp.reaches(p, t, 3));
                assert(sp.is_first_shortest(p, t, 3));
            }
            if path.len() > 1 {
                let c = path[1];
                proof {
                    assert(sp.walk_step(p, 0));
                    assert(p[1] == pt(c));
                }
                Some((c.0 as i32, c.1 as i32))
            } else {
                let c = path[0];
                assert(p[0] == pt(c));
                Some((c.0 as i32, c.1 as i32))
            }
        },
    }
}

} // verus!

verus! {

/// Law: a planned step is a single hero move onto an open cell, or the start
/// itself, and the start only when it already lies within three cells of
/// the target.
pub proof fn lemma_next_step_is_move(
    width: int,
    height: int,
    walls: Seq<(i32, i32)>,
    start: (int, int),
    target: (int, int),
    s: (int, int),
)
    requires
        next_step_ok(width, height, walls, start, target, Some(s)),
    ensures
        ({
            let sp = arena_space(width, height, walls, start);
            ||| s == start && near(start, target, 3)
            ||| sp.adjacent(start, s) && sp.is_open(s)
        }),
{
    let sp = arena_space(width, height, walls, start);
    let p = choose|p: Seq<(int, int)>| #[trigger] sp.is_first_shortest(p, target, 3) && first_step(p) == s;
    if p.len() > 1 {
        assert(sp.walk_step(p, 0));
    }
}

/// The wall cells inside the area a hero may enter, the start excepted.
pub open spec fn inner_walls(walls: Seq<(i32, i32)>, width: int, height: int, start: (int, int)) -> Set<(int, int)> {
    Set::new(
        |c: (int, int)|
            1 <= c.0 < width - 1 && 1 <= c.1 < height - 1 && c != start && cells(widen(walls)).contains(c),
    )
}

/// Law: the planned step depends on the walls inside the area a hero may
/// enter alone; walls on the border, off the map or on the start cell
/// change nothing.
pub proof fn lemma_next_step_inner_walls(
    width: int,
    height: int,
    walls1: Seq<(i32, i32)>,
    walls2: Seq<(i32, i32)>,
    start: (int, int),
    target: (int, int),
    s1: Option<(int, int)>,
    s2: Option<(int, int)>,
)
    requires
        inner_walls(walls1, width, height, start) == inner_walls(walls2, width, height, start),
        next_step_ok(width, height, walls1, start, target, s1),
        next_step_ok(width, height, walls2, start, target, s2),
    ensures
        s1 == s2,
{
    let sp1 = arena_space(width, height, walls1, start);
    let sp2 = arena_space(width, height, walls2, start);
    assert forall|c: (int, int)| #[trigger] sp1.is_open(c) == sp2.is_open(c) by {
        if sp1.in_area(c) && sp1.index(c) != sp1.index(start) {
            let idx = sp1.index(c);
            assert(0 <= idx < width * height) by (nonlinear_arith)
                requires idx == c.1 * width + c.0, 1 <= c.0 < width - 1, 1 <= c.1 < height - 1;
            lemma_slot_cell(width, height, c, idx);
            assert(slot_cell(width, idx) == c);
            assert(c != start);
            assert(sp1.blocked[idx] == cells(widen(walls1)).contains(c));
            assert(sp2.blocked[idx] == cells(widen(walls2)).contains(c));
            assert(inner_walls(walls1, width, height, start).contains(c) == cells(widen(walls1)).contains(c));
            assert(inner_walls(walls2, width, height, start).contains(c) == cells(widen(walls2)).contains(c));
        }
    }
    match s1 {
        Some(a1) => {
            let p1 = choose|p: Seq<(int, int)>| #[trigger] sp1.is_first_shortest(p, target, 3) && first_step(p) == a1;
            lemma_same_open_cells(sp1, sp2, p1, target, 3);
            match s2 {
                Some(a2) => {
                    let p2 = choose|p: Seq<(int, int)>| #[trigger] sp2.is_first_shortest(p, target, 3) && first_step(p) == a2;
                    lemma_first_shortest_unique(sp2, p1, p2, target, 3);
                },
                None => {
                    assert(sp2.is_walk(p1));
                },
            }
        },
        None => {
            match s2 {
                Some(a2) => {
                    let p2 = choose|p: Seq<(int, int)>| #[trigger] sp2.is_first_shortest(p, target, 3) && first_step(p) == a2;
                    lemma_same_open_cells(sp1, sp2, p2, target, 3);
                    assert(sp1.is_walk(p2));
                },
                None => {},
            }
        },
    }
}

/// Law: a hero moves to exactly the cells three cells away along an axis
/// or a diagonal, and of two equally short walks the one that first differs
/// by a move listed earlier is preferred, in this order: right, up, down,
/// left, then the diagonals down-right, up-right, down-left, up-left.
pub proof fn lemma_hero_moves_exact(
    width: int,
    height: int,
    walls: Seq<(i32, i32)>,
    start: (int, int),
    a: (int, int),
    b: (int, int),
)
    ensures
        ({
            let sp = arena_space(width, height, walls, start);
            let dx = b.0 - a.0;
            let dy = b.1 - a.1;
            &&& sp.adjacent(a, b) <==> ((dx == -3 || dx == 0 || dx == 3) && (dy == -3 || dy == 0 || dy == 3) && !(dx
                == 0 && dy == 0))
            &&& sp.step_rank(a, (a.0 + 3, a.1)) == 0
            &&& sp.step_rank(a, (a.0, a.1 - 3)) == 1
            &&& sp.step_rank(a, (a.0, a.1 + 3)) == 2
            &&& sp.step_rank(a, (a.0 - 3, a.1)) == 3
            &&& sp.step_rank(a, (a.0 + 3, a.1 + 3)) == 4
            &&& sp.step_rank(a, (a.0 + 3, a.1 - 3)) == 5
            &&& sp.step_rank(a, (a.0 - 3, a.1 + 3)) == 6
            &&& sp.step_rank(a, (a.0 - 3, a.1 - 3)) == 7
        }),
{
    let sp = arena_space(width, height, walls, start);
    let m = hero_moves();
    let dx = b.0 - a.0;
    let dy = b.1 - a.1;
    assert(sp.moves_distinct());
    if sp.adjacent(a, b) {
        let k = choose|k: int| 0 <= k < sp.moves.len() && b == offset(a, #[trigger] sp.moves[k]);
        assert(0 <= k < 8);
    }
    if (dx == -3 || dx == 0 || dx == 3) && (dy == -3 || dy == 0 || dy == 3) && !(dx == 0 && dy == 0) {
        let k: int = if dx == 3 && dy == 0 {
            0
        } else if dx == 0 && dy == -3 {
            1
        } else if dx == 0 && dy == 3 {
            2
        } else if dx == -3 && dy == 0 {
            3
        } else if dx == 3 && dy == 3 {
            4
        } else if dx == 3 && dy == -3 {
            5
        } else if dx == -3 && dy == 3 {
            6
        } else {
            7
        };
        assert(b == offset(a, sp.moves[k]));
    }
    lemma_step_rank(sp, a, 0);
    lemma_step_rank(sp, a, 1);
    lemma_step_rank(sp, a, 2);
    lemma_step_rank(sp, a, 3);
    lemma_step_rank(sp, a, 4);
    lemma_step_rank(sp, a, 5);
    lemma_step_rank(sp, a, 6);
    lemma_step_rank(sp, a, 7);
}

/// Law: on a map with the start on it, a hero may enter exactly the cells
/// at least one cell away from every border that hold no wall and are not
/// its start.
pub proof fn lemma_arena_open_cells(
    width: int,
    height: int,
    walls: Seq<(i32, i32)>,
    start: (int, int),
    c: (int, int),
)
    requires
        0 <= start.0 < width,
        0 <= start.1 < height,
    ensures
        arena_space(width, height, walls, start).is_open(c) <==> {
            &&& 1 <= c.0 < width - 1
            &&& 1 <= c.1 < height - 1
            &&& c != start
            &&& !exists|j: int| 0 <= j < walls.len() && walls[j].0 == c.0 && walls[j].1 == c.1
        },
{
    let sp = arena_space(width, height, walls, start);
    if sp.in_area(c) {
        let idx = sp.index(c);
        let si = sp.index(start);
        assert(0 <= idx < width * height) by (nonlinear_arith)
            requires idx == c.1 * width + c.0, 1 <= c.0 < width - 1, 1 <= c.1 < height - 1;
        assert(0 <= si < width * height) by (nonlinear_arith)
            requires si == start.1 * width + start.0, 0 <= start.0 < width, 0 <= start.1 < height;
        lemma_slot_cell(width, height, c, idx);
        lemma_slot_cell(width, height, start, idx);
        assert(sp.blocked[idx] == cells(widen(walls)).contains(c));
        let ws = cells(widen(walls));
        if ws.contains(c) {
            let j = choose|j: int| 0 <= j < ws.len() && ws[j] == c;
            assert(ws[j] == (walls[j].0 as int, walls[j].1 as int));
        }
        if exists|j: int| 0 <= j < walls.len() && walls[j].0 == c.0 && walls[j].1 == c.1 {
            let j = choose|j: int| 0 <= j < walls.len() && walls[j].0 == c.0 && walls[j].1 == c.1;
            assert(ws[j] == c);
        }
    }
}

/// Law: the step is planned towards the cells within three cells of the
/// target on both axes: `None` when no walk reaches such a cell, and
/// otherwise the first cell of a walk that reaches one in the fewest moves.
pub proof fn lemma_next_step_target_area(
    width: int,
    height: int,
    walls: Seq<(i32, i32)>,
    start: (int, int),
    target: (int, int),
    step: Option<(int, int)>,
)
    requires
        next_step_ok(width, height, walls, start, target, step),
    ensures
        ({
            let sp = arena_space(width, height, walls, start);
            match step {
                None => forall|p: Seq<(int, int)>| #[trigger] sp.is_walk(p) ==> !({
                    let e = p.last();
                    &&& (if e.0 <= target.0 { target.0 - e.0 } else { e.0 - target.0 }) <= 3
                    &&& (if e.1 <= target.1 { target.1 - e.1 } else { e.1 - target.1 }) <= 3
                }),
                Some(s) => exists|p: Seq<(int, int)>| {
                    &&& #[trigger] sp.is_walk(p)
                    &&& first_step(p) == s
                    &&& (if p.last().0 <= target.0 { target.0 - p.last().0 } else { p.last().0 - target.0 }) <= 3
                    &&& (if p.last().1 <= target.1 { target.1 - p.last().1 } else { p.last().1 - target.1 }) <= 3
                    &&& forall|q: Seq<(int, int)>| #[trigger] sp.is_walk(q)
                        && (if q.last().0 <= target.0 { target.0 - q.last().0 } else { q.last().0 - target.0 }) <= 3
                        && (if q.last().1 <= target.1 { target.1 - q.last().1 } else { q.last().1 - target.1 }) <= 3
                        ==> p.len() <= q.len()
                },
            }
        }),
{
    let sp = arena_space(width, height, walls, start);
    match step {
        None => {},
        Some(s) => {
            let p = choose|p: Seq<(int, int)>| #[trigger] sp.is_first_shortest(p, target, 3) && first_step(p) == s;
            assert forall|q: Seq<(int, int)>| #[trigger] sp.is_walk(q)
                && (if q.last().0 <= target.0 { target.0 - q.last().0 } else { q.last().0 - target.0 }) <= 3
                && (if q.last().1 <= target.1 { target.1 - q.last().1 } else { q.last().1 - target.1 }) <= 3
                implies p.len() <= q.len() by {
                assert(sp.reaches(q, target, 3));
            }
            assert(sp.is_walk(p));
        },
    }
}

} // verus!
