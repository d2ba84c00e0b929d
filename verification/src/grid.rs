//! Breadth-first search over a rectangular grid of cells.
//!
//! Cells are `(x, y)` pairs; cell `(x, y)` is stored at index `y * width + x`.
//! A search starts at one cell, moves by a fixed list of offsets through
//! open cells (inside the area, not blocked), and stops at the first cell it
//! dequeues that lies within `radius` of the target on both axes.

use vstd::prelude::*;
use vstd::arithmetic::div_mod::lemma_fundamental_div_mod;
use vstd::arithmetic::div_mod::lemma_fundamental_div_mod_converse;
use vstd::arithmetic::div_mod::lemma_mod_pos_bound;
use crate::line::axis_dist;

verus! {

/// Bound on the magnitude of every coordinate the search handles.
pub const COORD_LIMIT: i64 = 0x1000_0000_0000_0000;

/// An executable cell as a pair of mathematical integers.
pub open spec fn pt(c: (i64, i64)) -> (int, int) {
    (c.0 as int, c.1 as int)
}

/// The cell reached from `c` by the offset `d`.
pub open spec fn offset(c: (int, int), d: (int, int)) -> (int, int) {
    (c.0 + d.0, c.1 + d.1)
}

/// `c` lies within `radius` of `target` on both axes.
pub open spec fn near(c: (int, int), target: (int, int), radius: int) -> bool {
    axis_dist(c.0, target.0) <= radius && axis_dist(c.1, target.1) <= radius
}

/// The search space: the grid, its blocked cells, the allowed moves and the start.
pub struct GridSpace {
    pub width: int,
    pub height: int,
    pub margin: int,
    pub blocked: Seq<bool>,
    pub moves: Seq<(int, int)>,
    pub start: (int, int),
}

impl GridSpace {
    pub open spec fn index(self, c: (int, int)) -> int {
        c.1 * self.width + c.0
    }

    pub open spec fn size(self) -> int {
        self.width * self.height
    }

    /// The cell lies at least `margin` cells away from every border.
    pub open spec fn in_area(self, c: (int, int)) -> bool {
        &&& self.margin <= c.0 < self.width - self.margin
        &&& self.margin <= c.1 < self.height - self.margin
    }

    /// A cell that a walk may enter: inside the area, not blocked, and not
    /// sharing its slot with the start.
    pub open spec fn is_open(self, c: (int, int)) -> bool {
        &&& self.in_area(c)
        &&& !self.blocked[self.index(c)]
        &&& self.index(c) != self.index(self.start)
    }

    pub open spec fn adjacent(self, a: (int, int), b: (int, int)) -> bool {
        exists|k: int| 0 <= k < self.moves.len() && b == offset(a, #[trigger] self.moves[k])
    }

    pub open spec fn walk_step(self, p: Seq<(int, int)>, i: int) -> bool {
        self.adjacent(p[i], p[i + 1]) && self.is_open(p[i + 1])
    }

    /// `p` is a walk from the start through open cells, one move at a time.
    pub open spec fn is_walk(self, p: Seq<(int, int)>) -> bool {
        &&& p.len() >= 1
        &&& p[0] == self.start
        &&& forall|i: int| 0 <= i < p.len() - 1 ==> #[trigger] self.walk_step(p, i)
    }

    /// `p` is a walk that ends within `radius` of `target`.
    pub open spec fn reaches(self, p: Seq<(int, int)>, target: (int, int), radius: int) -> bool {
        self.is_walk(p) && near(p.last(), target, radius)
    }

    /// `p` is a walk to the goal and no walk to the goal is shorter.
    pub open spec fn is_shortest(self, p: Seq<(int, int)>, target: (int, int), radius: int) -> bool {
        &&& self.reaches(p, target, radius)
        &&& forall|q: Seq<(int, int)>| #[trigger] self.reaches(q, target, radius) ==> p.len() <= q.len()
    }

    /// No move is listed twice.
    pub open spec fn moves_distinct(self) -> bool {
        forall|i: int, j: int| 0 <= i < j < self.moves.len() ==> self.moves[i] != self.moves[j]
    }

    /// The place in the move list of the move that leads from `a` to `b`.
    pub open spec fn step_rank(self, a: (int, int), b: (int, int)) -> int {
        choose|k: int| 0 <= k < self.moves.len() && b == offset(a, self.moves[k])
    }

    /// The walks `p` and `q` agree up to their cell `i`, and from there `p`
    /// takes a move listed before the move `q` takes.
    pub open spec fn diverges_at(self, p: Seq<(int, int)>, q: Seq<(int, int)>, i: int) -> bool {
        &&& 0 <= i < p.len() - 1
        &&& i < q.len() - 1
        &&& p.take(i + 1) == q.take(i + 1)
        &&& self.step_rank(p[i], p[i + 1]) < self.step_rank(q[i], q[i + 1])
    }

    /// `p` comes before `q`, a walk of the same length, in the order of the
    /// move list.
    pub open spec fn walk_before(self, p: Seq<(int, int)>, q: Seq<(int, int)>) -> bool {
        &&& p.len() == q.len()
        &&& exists|i: int| #[trigger] self.diverges_at(p, q, i)
    }

    /// `p` is the first shortest walk to the goal: every other shortest walk
    /// comes after it in the order of the move list.
    pub open spec fn is_first_shortest(self, p: Seq<(int, int)>, target: (int, int), radius: int) -> bool {
        &&& self.is_shortest(p, target, radius)
        &&& forall|q: Seq<(int, int)>| #[trigger] self.is_shortest(q, target, radius) ==> q == p || self.walk_before(p, q)
    }
}

/// Law: there is at most one first shortest walk to a goal.
pub proof fn lemma_first_shortest_unique(
    sp: GridSpace,
    p: Seq<(int, int)>,
    q: Seq<(int, int)>,
    target: (int, int),
    radius: int,
)
    requires
        sp.is_first_shortest(p, target, radius),
        sp.is_first_shortest(q, target, radius),
    ensures
        p == q,
{
    assert(sp.is_shortest(q, target, radius));
    assert(sp.is_shortest(p, target, radius));
    if p != q {
        assert(sp.walk_before(p, q));
        assert(sp.walk_before(q, p));
        lemma_before_trans(sp, p, q, p);
    }
}

/// Two search spaces that differ only in blocked slots that no walk may
/// enter anyway have the same first shortest walks.
pub proof fn lemma_same_open_cells(
    sp1: GridSpace,
    sp2: GridSpace,
    p: Seq<(int, int)>,
    target: (int, int),
    radius: int,
)
    requires
        sp1.width == sp2.width,
        sp1.height == sp2.height,
        sp1.margin == sp2.margin,
        sp1.moves == sp2.moves,
        sp1.start == sp2.start,
        forall|c: (int, int)| #[trigger] sp1.is_open(c) == sp2.is_open(c),
    ensures
        sp1.is_walk(p) == sp2.is_walk(p),
        sp1.is_first_shortest(p, target, radius) == sp2.is_first_shortest(p, target, radius),
{
    assert forall|w: Seq<(int, int)>| #[trigger] sp1.is_walk(w) == sp2.is_walk(w) by {
        if sp1.is_walk(w) {
            assert forall|i: int| 0 <= i < w.len() - 1 implies #[trigger] sp2.walk_step(w, i) by {
                assert(sp1.walk_step(w, i));
                assert(sp1.is_open(w[i + 1]));
            }
        }
        if sp2.is_walk(w) {
            assert forall|i: int| 0 <= i < w.len() - 1 implies #[trigger] sp1.walk_step(w, i) by {
                assert(sp2.walk_step(w, i));
                assert(sp2.is_open(w[i + 1]));
            }
        }
    }
    assert forall|w: Seq<(int, int)>| #[trigger] sp1.reaches(w, target, radius) == sp2.reaches(w, target, radius) by {
        assert(sp1.is_walk(w) == sp2.is_walk(w));
    }
    assert forall|w: Seq<(int, int)>| #[trigger] sp1.is_shortest(w, target, radius) == sp2.is_shortest(w, target, radius) by {
        assert(sp1.reaches(w, target, radius) == sp2.reaches(w, target, radius));
        if sp1.is_shortest(w, target, radius) {
            assert forall|q: Seq<(int, int)>| #[trigger] sp2.reaches(q, target, radius) implies w.len() <= q.len() by {
                assert(sp1.reaches(q, target, radius));
            }
        }
        if sp2.is_shortest(w, target, radius) {
            assert forall|q: Seq<(int, int)>| #[trigger] sp1.reaches(q, target, radius) implies w.len() <= q.len() by {
                assert(sp2.reaches(q, target, radius));
            }
        }
    }
    assert forall|u: Seq<(int, int)>, v: Seq<(int, int)>| #[trigger] sp1.walk_before(u, v) == sp2.walk_before(u, v) by {
        assert forall|i: int| #[trigger] sp1.diverges_at(u, v, i) == sp2.diverges_at(u, v, i) by {
            assert(sp1.step_rank(u[i], u[i + 1]) == sp2.step_rank(u[i], u[i + 1]));
            assert(sp1.step_rank(v[i], v[i + 1]) == sp2.step_rank(v[i], v[i + 1]));
        }
        if sp1.walk_before(u, v) {
            let i = choose|i: int| #[trigger] sp1.diverges_at(u, v, i);
            assert(sp2.diverges_at(u, v, i));
        }
        if sp2.walk_before(u, v) {
            let i = choose|i: int| #[trigger] sp2.diverges_at(u, v, i);
            assert(sp1.diverges_at(u, v, i));
        }
    }
    assert(sp1.is_shortest(p, target, radius) == sp2.is_shortest(p, target, radius));
    if sp1.is_first_shortest(p, target, radius) {
        assert forall|q: Seq<(int, int)>| #[trigger] sp2.is_shortest(q, target, radius) implies q == p || sp2.walk_before(p, q) by {
            assert(sp1.is_shortest(q, target, radius));
            assert(sp1.walk_before(p, q) == sp2.walk_before(p, q));
        }
    }
    if sp2.is_first_shortest(p, target, radius) {
        assert forall|q: Seq<(int, int)>| #[trigger] sp1.is_shortest(q, target, radius) implies q == p || sp1.walk_before(p, q) by {
            assert(sp2.is_shortest(q, target, radius));
            assert(sp1.walk_before(p, q) == sp2.walk_before(p, q));
        }
    }
}

/// With distinct moves, the rank of a move is its place in the list.
pub(crate) proof fn lemma_step_rank(sp: GridSpace, a: (int, int), k: int)
    requires
        sp.moves_distinct(),
        0 <= k < sp.moves.len(),
    ensures
        sp.step_rank(a, offset(a, sp.moves[k])) == k,
{
    let b = offset(a, sp.moves[k]);
    let r = sp.step_rank(a, b);
    assert(0 <= r < sp.moves.len() && b == offset(a, sp.moves[r]));
    assert(sp.moves[r] == sp.moves[k]);
    if r < k {
        assert(sp.moves[r] != sp.moves[k]);
    } else if k < r {
        assert(sp.moves[k] != sp.moves[r]);
    }
}

/// The order of walks is transitive.
proof fn lemma_before_trans(sp: GridSpace, p: Seq<(int, int)>, q: Seq<(int, int)>, r: Seq<(int, int)>)
    requires
        sp.walk_before(p, q),
        sp.walk_before(q, r),
    ensures
        sp.walk_before(p, r),
{
    let i = choose|i: int| #[trigger] sp.diverges_at(p, q, i);
    let j = choose|j: int| #[trigger] sp.diverges_at(q, r, j);
    if i <= j {
        assert(p.take(i + 1) =~= r.take(i + 1)) by {
            assert forall|m: int| 0 <= m < i + 1 implies #[trigger] p.take(i + 1)[m] == r.take(i + 1)[m] by {
                assert(p.take(i + 1)[m] == q.take(i + 1)[m]);
                assert(q.take(j + 1)[m] == r.take(j + 1)[m]);
            }
        }
        if i < j {
            assert(q.take(j + 1)[i + 1] == r.take(j + 1)[i + 1]);
            assert(q.take(j + 1)[i] == r.take(j + 1)[i]);
        }
        assert(sp.diverges_at(p, r, i));
    } else {
        assert(p.take(j + 1) =~= r.take(j + 1)) by {
            assert forall|m: int| 0 <= m < j + 1 implies #[trigger] p.take(j + 1)[m] == r.take(j + 1)[m] by {
                assert(p.take(i + 1)[m] == q.take(i + 1)[m]);
                assert(q.take(j + 1)[m] == r.take(j + 1)[m]);
            }
        }
        assert(p.take(i + 1)[j + 1] == q.take(i + 1)[j + 1]);
        assert(p.take(i + 1)[j] == q.take(i + 1)[j]);
        assert(sp.diverges_at(p, r, j));
    }
}

/// Walks whose beginnings are in order stay in order, whatever cells follow.
proof fn lemma_before_extend(sp: GridSpace, u: Seq<(int, int)>, v: Seq<(int, int)>)
    requires
        u.len() == v.len(),
        u.len() >= 1,
        sp.walk_before(u.drop_last(), v.drop_last()),
    ensures
        sp.walk_before(u, v),
{
    let i = choose|i: int| #[trigger] sp.diverges_at(u.drop_last(), v.drop_last(), i);
    assert(u.take(i + 1) =~= u.drop_last().take(i + 1));
    assert(v.take(i + 1) =~= v.drop_last().take(i + 1));
    assert(u[i] == u.drop_last()[i] && u[i + 1] == u.drop_last()[i + 1]);
    assert(v[i] == v.drop_last()[i] && v[i + 1] == v.drop_last()[i + 1]);
    assert(sp.diverges_at(u, v, i));
}

/// The beginning of a walk is a walk.
proof fn lemma_walk_take(sp: GridSpace, q: Seq<(int, int)>, m: int)
    requires
        sp.is_walk(q),
        1 <= m <= q.len(),
    ensures
        sp.is_walk(q.take(m)),
{
    let t = q.take(m);
    assert forall|i: int| 0 <= i < t.len() - 1 implies #[trigger] sp.walk_step(t, i) by {
        assert(sp.walk_step(q, i));
        assert(t[i] == q[i] && t[i + 1] == q[i + 1]);
    }
}

/// A walk followed by one more move onto an open cell is a walk.
proof fn lemma_walk_push(sp: GridSpace, w: Seq<(int, int)>, x: (int, int))
    requires
        sp.is_walk(w),
        sp.adjacent(w.last(), x),
        sp.is_open(x),
    ensures
        sp.is_walk(w.push(x)),
{
    let t = w.push(x);
    assert forall|i: int| 0 <= i < t.len() - 1 implies #[trigger] sp.walk_step(t, i) by {
        if i < w.len() - 1 {
            assert(sp.walk_step(w, i));
        }
        assert(t[i] == if i < w.len() { w[i] } else { x });
    }
}

pub open spec fn moves_of(moves: Seq<(i64, i64)>) -> Seq<(int, int)> {
    moves.map_values(|d: (i64, i64)| pt(d))
}

pub open spec fn space_of(
    width: i64,
    height: i64,
    margin: i64,
    blocked: Seq<bool>,
    moves: Seq<(i64, i64)>,
    start: (i64, i64),
) -> GridSpace {
    GridSpace {
        width: width as int,
        height: height as int,
        margin: margin as int,
        blocked,
        moves: moves_of(moves),
        start: pt(start),
    }
}

pub open spec fn coord_ok(v: int) -> bool {
    -COORD_LIMIT <= v <= COORD_LIMIT
}

/// What the search needs of its arguments.
pub open spec fn search_args_ok(
    width: i64,
    height: i64,
    margin: i64,
    blocked: Seq<bool>,
    moves: Seq<(i64, i64)>,
    start: (i64, i64),
    target: (i64, i64),
    radius: i64,
) -> bool {
    &&& 1 <= width
    &&& 1 <= height
    &&& width * height <= COORD_LIMIT
    &&& blocked.len() == width * height
    &&& 0 <= margin <= COORD_LIMIT
    &&& forall|k: int|
        0 <= k < moves.len() ==> -3 <= (#[trigger] moves[k]).0 <= 3 && -3 <= moves[k].1 <= 3
    &&& forall|i: int, j: int| 0 <= i < j < moves.len() ==> moves[i] != moves[j]
    &&& coord_ok(start.0 as int) && coord_ok(start.1 as int)
    &&& 0 <= start.1 * width + start.0 < width * height
    &&& coord_ok(target.0 as int) && coord_ok(target.1 as int)
    &&& 0 <= radius <= COORD_LIMIT
}

/// Number of `false` entries.
pub open spec fn count_false(s: Seq<bool>) -> nat
    decreases s.len(),
{
    if s.len() == 0 {
        0
    } else {
        count_false(s.drop_last()) + if s.last() { 0nat } else { 1nat }
    }
}

proof fn lemma_count_false_set(s: Seq<bool>, i: int)
    requires
        0 <= i < s.len(),
        !s[i],
    ensures
        count_false(s.update(i, true)) + 1 == count_false(s),
    decreases s.len(),
{
    let t = s.update(i, true);
    if i == s.len() - 1 {
        assert(t.drop_last() =~= s.drop_last());
    } else {
        assert(t.drop_last() =~= s.drop_last().update(i, true));
        lemma_count_false_set(s.drop_last(), i);
    }
}

proof fn lemma_index_in_range(sp: GridSpace, c: (int, int))
    requires
        sp.width >= 1,
        sp.margin >= 0,
        sp.in_area(c),
    ensures
        0 <= sp.index(c) < sp.size(),
{
    assert(0 <= c.1 * sp.width) by (nonlinear_arith)
        requires 0 <= c.1, sp.width >= 1;
    assert(c.1 * sp.width + c.0 < sp.width * sp.height) by (nonlinear_arith)
        requires c.1 + 1 <= sp.height, 0 <= c.0 < sp.width, sp.width >= 1;
}

/// Two cells of the area with the same index are the same cell.
proof fn lemma_index_injective(sp: GridSpace, a: (int, int), b: (int, int))
    requires
        sp.width >= 1,
        sp.margin >= 0,
        sp.in_area(a),
        sp.in_area(b),
        sp.index(a) == sp.index(b),
    ensures
        a == b,
{
    assert(a.1 == b.1) by (nonlinear_arith)
        requires
            a.1 * sp.width + a.0 == b.1 * sp.width + b.0,
            0 <= a.0 < sp.width,
            0 <= b.0 < sp.width;
}

/// Bookkeeping of a search in progress.
pub struct SearchState {
    pub vis: Seq<bool>,
    pub par: Seq<(i64, i64)>,
    pub dist: Seq<int>,
    pub owner: Seq<(int, int)>,
    pub pos: Seq<int>,
    pub queue: Seq<(i64, i64)>,
    pub head: int,
}

/// Slot `i` holds an open cell whose parent is the start or an earlier
/// visited open cell one move away, one step closer to the start.
pub open spec fn link_ok(
    sp: GridSpace,
    par: Seq<(i64, i64)>,
    vis: Seq<bool>,
    dist: Seq<int>,
    owner: Seq<(int, int)>,
    i: int,
) -> bool {
    let c = owner[i];
    let p = pt(par[i]);
    &&& sp.is_open(c)
    &&& sp.index(c) == i
    &&& sp.adjacent(p, c)
    &&& dist[i] >= 1
    &&& if p == sp.start {
        dist[i] == 1
    } else {
        &&& sp.is_open(p)
        &&& vis[sp.index(p)]
        &&& owner[sp.index(p)] == p
        &&& dist[i] == dist[sp.index(p)] + 1
    }
}

/// The search tree: every visited slot links back towards the start.
pub open spec fn tree_ok(
    sp: GridSpace,
    vis: Seq<bool>,
    par: Seq<(i64, i64)>,
    dist: Seq<int>,
    owner: Seq<(int, int)>,
) -> bool {
    let n = sp.size();
    let s = sp.index(sp.start);
    &&& vis.len() == n
    &&& par.len() == n
    &&& dist.len() == n
    &&& owner.len() == n
    &&& vis[s]
    &&& pt(par[s]) == sp.start
    &&& dist[s] == 0
    &&& owner[s] == sp.start
    &&& forall|i: int|
        0 <= i < n && vis[i] && i != s ==> #[trigger] link_ok(sp, par, vis, dist, owner, i)
}

/// `c` is the start or a visited open cell recorded in its own slot.
pub open spec fn in_tree(sp: GridSpace, vis: Seq<bool>, owner: Seq<(int, int)>, c: (int, int)) -> bool {
    c == sp.start || (sp.is_open(c) && vis[sp.index(c)] && owner[sp.index(c)] == c)
}

pub open spec fn dist_of(sp: GridSpace, st: SearchState, c: (int, int)) -> int {
    st.dist[sp.index(c)]
}

pub open spec fn queued_ok(sp: GridSpace, st: SearchState, j: int) -> bool {
    let c = pt(st.queue[j]);
    &&& j == 0 || sp.is_open(c)
    &&& st.vis[sp.index(c)]
    &&& st.owner[sp.index(c)] == c
}

pub open spec fn placed_ok(sp: GridSpace, st: SearchState, i: int) -> bool {
    &&& 0 <= st.pos[i] < st.queue.len()
    &&& pt(st.queue[st.pos[i]]) == st.owner[i]
}

/// The queue: start first, visited cells only, every visited slot queued,
/// distances non-decreasing and spanning at most one step from the head on.
pub open spec fn queue_ok(sp: GridSpace, st: SearchState) -> bool {
    let n = sp.size();
    &&& st.pos.len() == n
    &&& st.queue.len() >= 1
    &&& pt(st.queue[0]) == sp.start
    &&& 0 <= st.head <= st.queue.len()
    &&& forall|j: int| 0 <= j < st.queue.len() ==> #[trigger] queued_ok(sp, st, j)
    &&& forall|i: int| 0 <= i < n && st.vis[i] ==> #[trigger] placed_ok(sp, st, i)
    &&& forall|a: int, b: int|
        0 <= a <= b < st.queue.len() ==> dist_of(sp, st, pt(#[trigger] st.queue[a])) <= dist_of(
            sp,
            st,
            pt(#[trigger] st.queue[b]),
        )
    &&& st.head < st.queue.len() ==> dist_of(sp, st, pt(st.queue[st.queue.len() - 1]))
        <= dist_of(sp, st, pt(st.queue[st.head])) + 1
}

/// A neighbour `nb` of `c` that is open has been visited, at most one step
/// further than `c`.
pub open spec fn reach_ok(sp: GridSpace, st: SearchState, nb: (int, int), c: (int, int)) -> bool {
    sp.is_open(nb) ==> st.vis[sp.index(nb)] && st.dist[sp.index(nb)] <= st.dist[sp.index(c)] + 1
}

pub open spec fn expanded(sp: GridSpace, st: SearchState, c: (int, int), upto: int) -> bool {
    forall|k: int| 0 <= k < upto ==> #[trigger] reach_ok(sp, st, offset(c, sp.moves[k]), c)
}

/// Cell `j` of the queue has been dequeued: it is not a goal and all its
/// neighbours are visited.
pub open spec fn done_ok(sp: GridSpace, st: SearchState, target: (int, int), radius: int, j: int) -> bool {
    let c = pt(st.queue[j]);
    !near(c, target, radius) && expanded(sp, st, c, sp.moves.len() as int)
}

pub open spec fn frontier_ok(sp: GridSpace, st: SearchState, target: (int, int), radius: int) -> bool {
    forall|j: int| 0 <= j < st.head ==> #[trigger] done_ok(sp, st, target, radius, j)
}

/// Result of a search: the goal cell found, and the search tree.
pub struct SearchTree {
    pub found: Option<(i64, i64)>,
    pub visited: Vec<bool>,
    pub parent: Vec<(i64, i64)>,
    pub dist: Ghost<Seq<int>>,
    pub owner: Ghost<Seq<(int, int)>>,
    pub walks: Ghost<Seq<Seq<(int, int)>>>,
}

/// What a finished search guarantees.
pub open spec fn search_outcome(sp: GridSpace, target: (int, int), radius: int, t: SearchTree) -> bool {
    &&& tree_ok(sp, t.visited@, t.parent@, t.dist@, t.owner@)
    &&& walks_ok(sp, t.visited@, t.parent@, t.dist@, t.owner@, t.walks@)
    &&& match t.found {
        Some(g) => {
            &&& near(pt(g), target, radius)
            &&& sp.is_first_shortest(t.walks@[sp.index(pt(g))], target, radius)
            &&& in_tree(sp, t.visited@, t.owner@, pt(g))
            &&& forall|p: Seq<(int, int)>|
                #[trigger] sp.reaches(p, target, radius) ==> t.dist@[sp.index(pt(g))] + 1 <= p.len()
        },
        None => forall|p: Seq<(int, int)>| #[trigger] sp.is_walk(p) ==> !near(p.last(), target, radius),
    }
}

fn filled<T: Copy>(x: T, n: usize) -> (v: Vec<T>)
    ensures
        v@.len() == n,
        forall|i: int| 0 <= i < n ==> v@[i] == x,
{
    let mut v: Vec<T> = Vec::new();
    while v.len() < n
        invariant
            v@.len() <= n,
            forall|i: int| 0 <= i < v@.len() ==> v@[i] == x,
        decreases n - v@.len(),
    {
        v.push(x);
    }
    v
}


/// The state after visiting the unvisited slot `i` with cell `nb`, reached
/// from the queue head.
pub open spec fn pushed(st: SearchState, i: int, nb: (i64, i64), d: int) -> SearchState {
    SearchState {
        vis: st.vis.update(i, true),
        par: st.par.update(i, st.queue[st.head]),
        dist: st.dist.update(i, d),
        owner: st.owner.update(i, pt(nb)),
        pos: st.pos.update(i, st.queue.len() as int),
        queue: st.queue.push(nb),
        head: st.head,
    }
}

pub open spec fn search_inv(sp: GridSpace, st: SearchState, target: (int, int), radius: int) -> bool {
    &&& sp.width >= 1
    &&& sp.height >= 1
    &&& sp.margin >= 0
    &&& sp.blocked.len() == sp.size()
    &&& 0 <= sp.index(sp.start) < sp.size()
    &&& tree_ok(sp, st.vis, st.par, st.dist, st.owner)
    &&& queue_ok(sp, st)
    &&& frontier_ok(sp, st, target, radius)
}

/// The walk recorded for the cell `c`.
pub open spec fn walk_of(sp: GridSpace, walks: Seq<Seq<(int, int)>>, c: (int, int)) -> Seq<(int, int)> {
    walks[sp.index(c)]
}

/// Slot `i` records a walk from the start to its cell, one cell longer than
/// its distance, that extends the walk recorded for its parent.
pub open spec fn walk_link(
    sp: GridSpace,
    par: Seq<(i64, i64)>,
    dist: Seq<int>,
    owner: Seq<(int, int)>,
    walks: Seq<Seq<(int, int)>>,
    i: int,
) -> bool {
    let w = walks[i];
    &&& sp.is_walk(w)
    &&& w.len() == dist[i] + 1
    &&& w.last() == owner[i]
    &&& i != sp.index(sp.start) ==> w.drop_last() == walks[sp.index(pt(par[i]))]
}

/// Every visited slot records its walk.
pub open spec fn walks_ok(
    sp: GridSpace,
    vis: Seq<bool>,
    par: Seq<(i64, i64)>,
    dist: Seq<int>,
    owner: Seq<(int, int)>,
    walks: Seq<Seq<(int, int)>>,
) -> bool {
    &&& walks.len() == sp.size()
    &&& forall|i: int| 0 <= i < sp.size() && vis[i] ==> #[trigger] walk_link(sp, par, dist, owner, walks, i)
}

/// The walk recorded for slot `i` is the first of the walks to its cell
/// that are as long as it.
pub open spec fn canon_min(sp: GridSpace, st: SearchState, walks: Seq<Seq<(int, int)>>, i: int) -> bool {
    forall|q: Seq<(int, int)>|
        #[trigger] sp.is_walk(q) && q.len() == st.dist[i] + 1 && q.last() == st.owner[i] ==> q == walks[i]
            || sp.walk_before(walks[i], q)
}

/// Queue entry `a` is closer to the start than entry `b`, or as close with
/// an earlier walk.
pub open spec fn ordered_pair(sp: GridSpace, st: SearchState, walks: Seq<Seq<(int, int)>>, a: int, b: int) -> bool {
    let ca = pt(st.queue[a]);
    let cb = pt(st.queue[b]);
    ||| dist_of(sp, st, ca) < dist_of(sp, st, cb)
    ||| sp.walk_before(walk_of(sp, walks, ca), walk_of(sp, walks, cb))
}

/// Queue entry `b` was queued from a parent at or before the head, and
/// from the head itself only by one of its first `k` moves.
pub open spec fn parent_placed(sp: GridSpace, st: SearchState, k: int, b: int) -> bool {
    let c = pt(st.queue[b]);
    let p = pt(st.par[sp.index(c)]);
    &&& st.pos[sp.index(p)] <= st.head
    &&& st.pos[sp.index(p)] == st.head ==> sp.step_rank(p, c) < k
}

/// The order in which the search meets cells, with `k` moves of the head
/// tried so far.
pub open spec fn order_inv(sp: GridSpace, st: SearchState, walks: Seq<Seq<(int, int)>>, k: int) -> bool {
    &&& sp.moves_distinct()
    &&& walks_ok(sp, st.vis, st.par, st.dist, st.owner, walks)
    &&& forall|j: int| 0 <= j < st.queue.len() ==> st.pos[sp.index(pt(#[trigger] st.queue[j]))] == j
    &&& forall|a: int, b: int| 0 <= a < b < st.queue.len() ==> #[trigger] ordered_pair(sp, st, walks, a, b)
    &&& forall|i: int| 0 <= i < sp.size() && st.vis[i] ==> #[trigger] canon_min(sp, st, walks, i)
    &&& forall|b: int| 1 <= b < st.queue.len() ==> #[trigger] parent_placed(sp, st, k, b)
}

/// The recorded walks after visiting the cell `nb` from the queue head.
pub open spec fn walks_pushed(
    sp: GridSpace,
    st: SearchState,
    walks: Seq<Seq<(int, int)>>,
    nb: (i64, i64),
) -> Seq<Seq<(int, int)>> {
    walks.update(sp.index(pt(nb)), walk_of(sp, walks, pt(st.queue[st.head])).push(pt(nb)))
}

/// A visited open cell is recorded in its own slot.
proof fn lemma_owner_of_open(sp: GridSpace, st: SearchState, c: (int, int))
    requires
        sp.width >= 1,
        sp.margin >= 0,
        tree_ok(sp, st.vis, st.par, st.dist, st.owner),
        sp.is_open(c),
        st.vis[sp.index(c)],
    ensures
        st.owner[sp.index(c)] == c,
        st.dist[sp.index(c)] >= 1,
{
    lemma_index_in_range(sp, c);
    let i = sp.index(c);
    assert(link_ok(sp, st.par, st.vis, st.dist, st.owner, i));
    lemma_index_injective(sp, st.owner[i], c);
}

/// The distance recorded for any queued cell is non-negative.
proof fn lemma_queued_dist(sp: GridSpace, st: SearchState, j: int)
    requires
        sp.width >= 1,
        sp.margin >= 0,
        0 <= sp.index(sp.start) < sp.size(),
        tree_ok(sp, st.vis, st.par, st.dist, st.owner),
        queue_ok(sp, st),
        0 <= j < st.queue.len(),
    ensures
        dist_of(sp, st, pt(st.queue[j])) >= 0,
        pt(st.queue[j]) == sp.start || dist_of(sp, st, pt(st.queue[j])) >= 1,
        in_tree(sp, st.vis, st.owner, pt(st.queue[j])),
        pt(st.queue[j]) == sp.start || sp.is_open(pt(st.queue[j])),
{
    assert(queued_ok(sp, st, j));
    let c = pt(st.queue[j]);
    if j == 0 {
    } else {
        lemma_owner_of_open(sp, st, c);
    }
}

/// A visited open neighbour of the head is at most one step further away.
proof fn lemma_visited_neighbour(sp: GridSpace, st: SearchState, target: (int, int), radius: int, nb: (int, int))
    requires
        search_inv(sp, st, target, radius),
        st.head < st.queue.len(),
        sp.is_open(nb),
        st.vis[sp.index(nb)],
    ensures
        reach_ok(sp, st, nb, pt(st.queue[st.head])),
{
    let i = sp.index(nb);
    lemma_owner_of_open(sp, st, nb);
    lemma_index_in_range(sp, nb);
    assert(placed_ok(sp, st, i));
    let j = st.pos[i];
    let last = st.queue.len() - 1;
    assert(dist_of(sp, st, pt(st.queue[j])) <= dist_of(sp, st, pt(st.queue[last])));
}

proof fn lemma_init(sp: GridSpace, st: SearchState, target: (int, int), radius: int)
    requires
        sp.width >= 1,
        sp.height >= 1,
        sp.margin >= 0,
        sp.blocked.len() == sp.size(),
        0 <= sp.index(sp.start) < sp.size(),
        st.vis == Seq::new(sp.size() as nat, |i: int| false).update(sp.index(sp.start), true),
        st.par.len() == sp.size(),
        pt(st.par[sp.index(sp.start)]) == sp.start,
        st.dist == Seq::new(sp.size() as nat, |i: int| 0int),
        st.owner == Seq::new(sp.size() as nat, |i: int| sp.start),
        st.pos == Seq::new(sp.size() as nat, |i: int| 0int),
        st.queue.len() == 1,
        pt(st.queue[0]) == sp.start,
        st.head == 0,
    ensures
        search_inv(sp, st, target, radius),
{
    let s = sp.index(sp.start);
    assert(queued_ok(sp, st, 0));
    assert(placed_ok(sp, st, s));
    assert forall|i: int| 0 <= i < sp.size() && st.vis[i] implies #[trigger] placed_ok(sp, st, i) by {
        assert(i == s);
    }
}

proof fn lemma_push(
    sp: GridSpace,
    st: SearchState,
    target: (int, int),
    radius: int,
    nb: (i64, i64),
    kk: int,
)
    requires
        search_inv(sp, st, target, radius),
        st.head < st.queue.len(),
        expanded(sp, st, pt(st.queue[st.head]), kk),
        0 <= kk < sp.moves.len(),
        pt(nb) == offset(pt(st.queue[st.head]), sp.moves[kk]),
        sp.is_open(pt(nb)),
        !st.vis[sp.index(pt(nb))],
    ensures
        ({
            let st2 = pushed(
                st,
                sp.index(pt(nb)),
                nb,
                dist_of(sp, st, pt(st.queue[st.head])) + 1,
            );
            &&& search_inv(sp, st2, target, radius)
            &&& st2.head < st2.queue.len()
            &&& st2.queue[st2.head] == st.queue[st.head]
            &&& expanded(sp, st2, pt(st.queue[st.head]), kk + 1)
            &&& count_false(st2.vis) + 1 == count_false(st.vis)
        }),
{
    let n = sp.size();
    let s = sp.index(sp.start);
    let c = pt(st.queue[st.head]);
    let cur = st.queue[st.head];
    let i = sp.index(pt(nb));
    let dc = dist_of(sp, st, c);
    let st2 = pushed(st, i, nb, dc + 1);
    lemma_index_in_range(sp, pt(nb));
    lemma_queued_dist(sp, st, st.head);
    assert(queued_ok(sp, st, st.head));
    let ic = sp.index(c);
    lemma_index_in_range_or_start(sp, c);
    assert(ic != i);
    assert(sp.adjacent(c, pt(nb)));
    lemma_count_false_set(st.vis, i);

    // the tree
    assert forall|j: int| 0 <= j < n && st2.vis[j] && j != s implies #[trigger] link_ok(
        sp,
        st2.par,
        st2.vis,
        st2.dist,
        st2.owner,
        j,
    ) by {
        if j == i {
            if c != sp.start {
                assert(st2.owner[ic] == c);
            }
        } else {
            assert(link_ok(sp, st.par, st.vis, st.dist, st.owner, j));
            let p = pt(st.par[j]);
            if p != sp.start {
                lemma_index_in_range(sp, p);
                assert(st.vis[sp.index(p)]);
                assert(sp.index(p) != i);
            }
        }
    }
    assert(tree_ok(sp, st2.vis, st2.par, st2.dist, st2.owner));

    // the queue
    let len = st.queue.len();
    assert forall|j: int| 0 <= j < st2.queue.len() implies #[trigger] queued_ok(sp, st2, j) by {
        if j < len {
            assert(queued_ok(sp, st, j));
            lemma_queued_dist(sp, st, j);
            lemma_index_in_range_or_start(sp, pt(st.queue[j]));
            assert(st2.queue[j] == st.queue[j]);
        } else {
            assert(st2.queue[j] == nb);
        }
    }
    assert forall|x: int| 0 <= x < n && st2.vis[x] implies #[trigger] placed_ok(sp, st2, x) by {
        if x != i {
            assert(placed_ok(sp, st, x));
            assert(st2.queue[st.pos[x]] == st.queue[st.pos[x]]);
        }
    }
    assert forall|j: int| 0 <= j < len implies dist_of(sp, st2, pt(#[trigger] st2.queue[j]))
        == dist_of(sp, st, pt(st.queue[j])) by {
        assert(queued_ok(sp, st, j));
        lemma_queued_dist(sp, st, j);
        lemma_index_in_range_or_start(sp, pt(st.queue[j]));
        assert(st2.queue[j] == st.queue[j]);
    }
    assert(dist_of(sp, st2, pt(st2.queue[len as int])) == dc + 1);
    assert(dist_of(sp, st, pt(st.queue[len - 1])) <= dc + 1);
    assert forall|a: int, b: int| 0 <= a <= b < st2.queue.len() implies dist_of(
        sp,
        st2,
        pt(#[trigger] st2.queue[a]),
    ) <= dist_of(sp, st2, pt(#[trigger] st2.queue[b])) by {
        if b < len {
            assert(dist_of(sp, st, pt(st.queue[a])) <= dist_of(sp, st, pt(st.queue[b])));
        } else if a < len {
            assert(dist_of(sp, st, pt(st.queue[a])) <= dist_of(sp, st, pt(st.queue[len - 1])));
        }
    }
    assert(queue_ok(sp, st2));

    // what was expanded stays expanded
    assert forall|cc: (int, int), nb2: (int, int)|
        reach_ok(sp, st, nb2, cc) && 0 <= sp.index(cc) < n && st.vis[sp.index(cc)]
        implies #[trigger] reach_ok(sp, st2, nb2, cc) by {
        if sp.is_open(nb2) {
            lemma_index_in_range(sp, nb2);
            assert(sp.index(nb2) != i);
            assert(sp.index(cc) != i);
        }
    }
    assert forall|j: int| 0 <= j < st2.head implies #[trigger] done_ok(sp, st2, target, radius, j) by {
        assert(done_ok(sp, st, target, radius, j));
        assert(queued_ok(sp, st, j));
        let cj = pt(st.queue[j]);
        assert(st2.queue[j] == st.queue[j]);
        lemma_queued_dist(sp, st, j);
        lemma_index_in_range_or_start(sp, cj);
        assert forall|k: int| 0 <= k < sp.moves.len() implies #[trigger] reach_ok(
            sp,
            st2,
            offset(cj, sp.moves[k]),
            cj,
        ) by {
            assert(reach_ok(sp, st, offset(cj, sp.moves[k]), cj));
        }
    }
    lemma_index_in_range_or_start(sp, c);
    assert forall|k: int| 0 <= k < kk + 1 implies #[trigger] reach_ok(
        sp,
        st2,
        offset(c, sp.moves[k]),
        c,
    ) by {
        if k < kk {
            assert(reach_ok(sp, st, offset(c, sp.moves[k]), c));
        }
    }
}

/// The state after visiting the cell `nb` from the queue head.
pub open spec fn pushed_from_head(sp: GridSpace, st: SearchState, nb: (i64, i64)) -> SearchState {
    pushed(st, sp.index(pt(nb)), nb, dist_of(sp, st, pt(st.queue[st.head])) + 1)
}

/// What holds when the head's move `kk` leads to the unvisited open cell `nb`.
pub open spec fn push_ready(
    sp: GridSpace,
    st: SearchState,
    target: (int, int),
    radius: int,
    walks: Seq<Seq<(int, int)>>,
    nb: (i64, i64),
    kk: int,
) -> bool {
    &&& search_inv(sp, st, target, radius)
    &&& order_inv(sp, st, walks, kk)
    &&& st.head < st.queue.len()
    &&& 0 <= kk < sp.moves.len()
    &&& expanded(sp, st, pt(st.queue[st.head]), kk)
    &&& pt(nb) == offset(pt(st.queue[st.head]), sp.moves[kk])
    &&& sp.is_open(pt(nb))
    &&& !st.vis[sp.index(pt(nb))]
}

/// Facts about the queue head.
proof fn lemma_head_facts(sp: GridSpace, st: SearchState, target: (int, int), radius: int, walks: Seq<Seq<(int, int)>>, k: int)
    requires
        search_inv(sp, st, target, radius),
        order_inv(sp, st, walks, k),
        st.head < st.queue.len(),
    ensures
        ({
            let c = pt(st.queue[st.head]);
            let ic = sp.index(c);
            &&& 0 <= ic < sp.size()
            &&& st.vis[ic]
            &&& st.owner[ic] == c
            &&& st.pos[ic] == st.head
            &&& c == sp.start || sp.is_open(c)
            &&& st.dist[ic] >= 0
            &&& st.dist[ic] == 0 ==> c == sp.start
            &&& walk_link(sp, st.par, st.dist, st.owner, walks, ic)
            &&& walks[ic].last() == c
        }),
{
    let c = pt(st.queue[st.head]);
    lemma_queued_dist(sp, st, st.head);
    lemma_index_in_range_or_start(sp, c);
    assert(queued_ok(sp, st, st.head));
    assert(st.pos[sp.index(pt(st.queue[st.head]))] == st.head);
    assert(walk_link(sp, st.par, st.dist, st.owner, walks, sp.index(c)));
}

/// A visited cell other than the start has a parent that is the start or a
/// visited open cell, with its slot in range.
proof fn lemma_parent_facts(sp: GridSpace, st: SearchState, target: (int, int), radius: int, i: int)
    requires
        search_inv(sp, st, target, radius),
        0 <= i < sp.size(),
        st.vis[i],
        i != sp.index(sp.start),
    ensures
        ({
            let p = pt(st.par[i]);
            &&& p == sp.start || sp.is_open(p)
            &&& 0 <= sp.index(p) < sp.size()
            &&& st.vis[sp.index(p)]
            &&& st.owner[sp.index(p)] == p
            &&& placed_ok(sp, st, sp.index(p))
            &&& sp.adjacent(p, st.owner[i])
            &&& p == sp.start ==> st.dist[i] == 1
            &&& p != sp.start ==> st.dist[i] == st.dist[sp.index(p)] + 1
        }),
{
    assert(link_ok(sp, st.par, st.vis, st.dist, st.owner, i));
    let p = pt(st.par[i]);
    lemma_index_in_range_or_start(sp, p);
    assert(placed_ok(sp, st, sp.index(p)));
}

proof fn lemma_push_walks(
    sp: GridSpace,
    st: SearchState,
    target: (int, int),
    radius: int,
    walks: Seq<Seq<(int, int)>>,
    nb: (i64, i64),
    kk: int,
)
    requires
        push_ready(sp, st, target, radius, walks, nb, kk),
    ensures
        ({
            let st2 = pushed_from_head(sp, st, nb);
            let w2 = walks_pushed(sp, st, walks, nb);
            &&& walks_ok(sp, st2.vis, st2.par, st2.dist, st2.owner, w2)
            &&& forall|j: int| 0 <= j < st2.queue.len() ==> st2.pos[sp.index(pt(#[trigger] st2.queue[j]))] == j
            &&& w2[sp.index(pt(nb))] == walks[sp.index(pt(st.queue[st.head]))].push(pt(nb))
            &&& w2[sp.index(pt(nb))].len() == st2.dist[sp.index(pt(nb))] + 1
        }),
{
    let st2 = pushed_from_head(sp, st, nb);
    let w2 = walks_pushed(sp, st, walks, nb);
    let c = pt(st.queue[st.head]);
    let ic = sp.index(c);
    let x = pt(nb);
    let i = sp.index(x);
    let n = sp.size();
    lemma_head_facts(sp, st, target, radius, walks, kk);
    lemma_index_in_range(sp, x);
    assert(ic != i);
    assert(sp.adjacent(c, x));
    lemma_walk_push(sp, walks[ic], x);
    assert forall|j: int| 0 <= j < n && st2.vis[j] implies #[trigger] walk_link(sp, st2.par, st2.dist, st2.owner, w2, j) by {
        if j == i {
            assert(w2[i].drop_last() =~= walks[ic]);
            assert(pt(st2.par[i]) == c);
        } else {
            assert(walk_link(sp, st.par, st.dist, st.owner, walks, j));
            if j != sp.index(sp.start) {
                lemma_parent_facts(sp, st, target, radius, j);
            }
        }
    }
    assert forall|j: int| 0 <= j < st2.queue.len() implies st2.pos[sp.index(pt(#[trigger] st2.queue[j]))] == j by {
        if j < st.queue.len() {
            assert(st2.queue[j] == st.queue[j]);
            assert(st.pos[sp.index(pt(st.queue[j]))] == j);
            lemma_queued_dist(sp, st, j);
            lemma_index_in_range_or_start(sp, pt(st.queue[j]));
            assert(queued_ok(sp, st, j));
        }
    }
}

/// A walk as long as the new cell's distance, ending at it, comes no earlier
/// than the walk recorded for it.
proof fn lemma_push_canon_walk(
    sp: GridSpace,
    st: SearchState,
    target: (int, int),
    radius: int,
    walks: Seq<Seq<(int, int)>>,
    nb: (i64, i64),
    kk: int,
    q: Seq<(int, int)>,
)
    requires
        push_ready(sp, st, target, radius, walks, nb, kk),
        sp.is_walk(q),
        q.len() == dist_of(sp, st, pt(st.queue[st.head])) + 2,
        q.last() == pt(nb),
    ensures
        ({
            let w = walks[sp.index(pt(st.queue[st.head]))].push(pt(nb));
            q == w || sp.walk_before(w, q)
        }),
{
    let c = pt(st.queue[st.head]);
    let ic = sp.index(c);
    let x = pt(nb);
    let d = st.dist[ic];
    let w = walks[ic].push(x);
    lemma_head_facts(sp, st, target, radius, walks, kk);
    lemma_index_in_range(sp, x);
    let y = q[d];
    let q1 = q.take(d + 1);
    lemma_walk_take(sp, q, d + 1);
    assert(q1.last() == y);
    assert(q =~= q1.push(x));
    assert(w.drop_last() =~= walks[ic]);
    assert(q.drop_last() =~= q1);
    let iy = sp.index(y);
    if d == 0 {
        assert(y == sp.start);
        assert(c == sp.start);
    } else {
        lemma_walk_prefix(sp, st, target, radius, q, d - 1);
        lemma_walk_next(sp, st, target, radius, q, d - 1);
    }
    // `y` is visited, recorded in its own slot, and placed in the queue
    assert(0 <= iy < sp.size() && st.vis[iy] && st.owner[iy] == y && st.dist[iy] <= d) by {
        if d == 0 {
            assert(iy == ic);
        }
    }
    assert(placed_ok(sp, st, iy));
    let py = st.pos[iy];
    assert(pt(st.queue[py]) == y);
    if py < st.head {
        assert(done_ok(sp, st, target, radius, py));
        assert(sp.walk_step(q, d));
        let k2 = choose|k2: int| 0 <= k2 < sp.moves.len() && q[d + 1] == offset(q[d], #[trigger] sp.moves[k2]);
        assert(reach_ok(sp, st, offset(y, sp.moves[k2]), y));
        assert(false);
    } else if py == st.head {
        assert(y == c);
        assert(canon_min(sp, st, walks, ic));
        if q1 != walks[ic] {
            lemma_before_extend(sp, w, q);
        }
    } else {
        assert(dist_of(sp, st, pt(st.queue[st.head])) <= dist_of(sp, st, pt(st.queue[py])));
        assert(st.dist[iy] == d);
        assert(ordered_pair(sp, st, walks, st.head, py));
        assert(sp.walk_before(walks[ic], walks[iy]));
        assert(canon_min(sp, st, walks, iy));
        if q1 != walks[iy] {
            lemma_before_trans(sp, walks[ic], walks[iy], q1);
        }
        lemma_before_extend(sp, w, q);
    }
}

proof fn lemma_push_canon(
    sp: GridSpace,
    st: SearchState,
    target: (int, int),
    radius: int,
    walks: Seq<Seq<(int, int)>>,
    nb: (i64, i64),
    kk: int,
)
    requires
        push_ready(sp, st, target, radius, walks, nb, kk),
    ensures
        ({
            let st2 = pushed_from_head(sp, st, nb);
            let w2 = walks_pushed(sp, st, walks, nb);
            forall|i: int| 0 <= i < sp.size() && st2.vis[i] ==> #[trigger] canon_min(sp, st2, w2, i)
        }),
{
    let st2 = pushed_from_head(sp, st, nb);
    let w2 = walks_pushed(sp, st, walks, nb);
    let c = pt(st.queue[st.head]);
    let ic = sp.index(c);
    let x = pt(nb);
    let ix = sp.index(x);
    lemma_head_facts(sp, st, target, radius, walks, kk);
    lemma_index_in_range(sp, x);
    assert forall|i: int| 0 <= i < sp.size() && st2.vis[i] implies #[trigger] canon_min(sp, st2, w2, i) by {
        if i == ix {
            assert forall|q: Seq<(int, int)>|
                #[trigger] sp.is_walk(q) && q.len() == st2.dist[i] + 1 && q.last() == st2.owner[i] implies q == w2[i]
                    || sp.walk_before(w2[i], q) by {
                lemma_push_canon_walk(sp, st, target, radius, walks, nb, kk, q);
            }
        } else {
            assert(canon_min(sp, st, walks, i));
            assert(st2.dist[i] == st.dist[i] && st2.owner[i] == st.owner[i] && w2[i] == walks[i]);
        }
    }
}

/// An entry queued before the new cell is closer to the start, or as close
/// with an earlier walk.
proof fn lemma_push_pair_new(
    sp: GridSpace,
    st: SearchState,
    target: (int, int),
    radius: int,
    walks: Seq<Seq<(int, int)>>,
    nb: (i64, i64),
    kk: int,
    a: int,
)
    requires
        push_ready(sp, st, target, radius, walks, nb, kk),
        0 <= a < st.queue.len(),
    ensures
        ordered_pair(sp, pushed_from_head(sp, st, nb), walks_pushed(sp, st, walks, nb), a, st.queue.len() as int),
{
    let st2 = pushed_from_head(sp, st, nb);
    let w2 = walks_pushed(sp, st, walks, nb);
    let c = pt(st.queue[st.head]);
    let ic = sp.index(c);
    let x = pt(nb);
    let ix = sp.index(x);
    let d = st.dist[ic];
    let len = st.queue.len() as int;
    let ca = pt(st.queue[a]);
    let ia = sp.index(ca);
    lemma_head_facts(sp, st, target, radius, walks, kk);
    lemma_index_in_range(sp, x);
    lemma_push_walks(sp, st, target, radius, walks, nb, kk);
    lemma_queued_dist(sp, st, a);
    lemma_index_in_range_or_start(sp, ca);
    assert(queued_ok(sp, st, a));
    assert(ia != ix);
    assert(st2.queue[a] == st.queue[a]);
    assert(st2.queue[len] == nb);
    assert(dist_of(sp, st2, ca) == st.dist[ia]);
    assert(dist_of(sp, st2, x) == d + 1);
    assert(w2[ia] == walks[ia]);
    assert(dist_of(sp, st, ca) <= dist_of(sp, st, pt(st.queue[len - 1])));
    if st.dist[ia] == d + 1 {
        assert(a != 0);
        assert(sp.is_open(ca));
        assert(ia != sp.index(sp.start));
        assert(parent_placed(sp, st, kk, a));
        lemma_parent_facts(sp, st, target, radius, ia);
        let pa = pt(st.par[ia]);
        let ipa = sp.index(pa);
        let pp = st.pos[ipa];
        assert(walk_link(sp, st.par, st.dist, st.owner, walks, ia));
        assert(pt(st.queue[pp]) == pa);
        if pp == st.head {
            assert(pa == c);
            lemma_step_rank(sp, c, kk);
            let wa = walks[ia];
            let wx = w2[ix];
            assert(wa.take(d + 1) =~= walks[ic]);
            assert(wx.take(d + 1) =~= walks[ic]);
            assert(wa[d] == walks[ic][d]);
            assert(wx[d] == walks[ic][d]);
            assert(wa[d + 1] == ca);
            assert(wx[d + 1] == x);
            assert(sp.diverges_at(wa, wx, d));
        } else {
            if pa == sp.start {
                assert(d == 0);
                assert(ipa == ic);
                assert(false);
            }
            assert(st.dist[ipa] == d);
            assert(ordered_pair(sp, st, walks, pp, st.head));
            assert(sp.walk_before(walks[ipa], walks[ic]));
            assert(w2[ix].drop_last() =~= walks[ic]);
            lemma_before_extend(sp, walks[ia], w2[ix]);
        }
    }
}

proof fn lemma_push_pairs(
    sp: GridSpace,
    st: SearchState,
    target: (int, int),
    radius: int,
    walks: Seq<Seq<(int, int)>>,
    nb: (i64, i64),
    kk: int,
)
    requires
        push_ready(sp, st, target, radius, walks, nb, kk),
    ensures
        ({
            let st2 = pushed_from_head(sp, st, nb);
            let w2 = walks_pushed(sp, st, walks, nb);
            forall|a: int, b: int| 0 <= a < b < st2.queue.len() ==> #[trigger] ordered_pair(sp, st2, w2, a, b)
        }),
{
    let st2 = pushed_from_head(sp, st, nb);
    let w2 = walks_pushed(sp, st, walks, nb);
    let ix = sp.index(pt(nb));
    let len = st.queue.len();
    lemma_index_in_range(sp, pt(nb));
    assert forall|a: int, b: int| 0 <= a < b < st2.queue.len() implies #[trigger] ordered_pair(sp, st2, w2, a, b) by {
        if b < len {
            assert(ordered_pair(sp, st, walks, a, b));
            lemma_queued_dist(sp, st, a);
            lemma_queued_dist(sp, st, b);
            lemma_index_in_range_or_start(sp, pt(st.queue[a]));
            lemma_index_in_range_or_start(sp, pt(st.queue[b]));
            assert(queued_ok(sp, st, a));
            assert(queued_ok(sp, st, b));
            assert(st2.queue[a] == st.queue[a]);
            assert(st2.queue[b] == st.queue[b]);
        } else {
            lemma_push_pair_new(sp, st, target, radius, walks, nb, kk, a);
        }
    }
}

proof fn lemma_push_parents(
    sp: GridSpace,
    st: SearchState,
    target: (int, int),
    radius: int,
    walks: Seq<Seq<(int, int)>>,
    nb: (i64, i64),
    kk: int,
)
    requires
        push_ready(sp, st, target, radius, walks, nb, kk),
    ensures
        ({
            let st2 = pushed_from_head(sp, st, nb);
            forall|b: int| 1 <= b < st2.queue.len() ==> #[trigger] parent_placed(sp, st2, kk + 1, b)
        }),
{
    let st2 = pushed_from_head(sp, st, nb);
    let c = pt(st.queue[st.head]);
    let ic = sp.index(c);
    let x = pt(nb);
    let ix = sp.index(x);
    let len = st.queue.len();
    lemma_head_facts(sp, st, target, radius, walks, kk);
    lemma_index_in_range(sp, x);
    assert forall|b: int| 1 <= b < st2.queue.len() implies #[trigger] parent_placed(sp, st2, kk + 1, b) by {
        if b < len {
            assert(parent_placed(sp, st, kk, b));
            let cb = pt(st.queue[b]);
            assert(st2.queue[b] == st.queue[b]);
            assert(queued_ok(sp, st, b));
            lemma_index_in_range(sp, cb);
            lemma_parent_facts(sp, st, target, radius, sp.index(cb));
        } else {
            assert(st2.queue[b] == nb);
            assert(pt(st2.par[ix]) == c);
            lemma_step_rank(sp, c, kk);
        }
    }
}

/// Visiting a new cell from the head keeps the order of the search.
proof fn lemma_push_order(
    sp: GridSpace,
    st: SearchState,
    target: (int, int),
    radius: int,
    walks: Seq<Seq<(int, int)>>,
    nb: (i64, i64),
    kk: int,
)
    requires
        push_ready(sp, st, target, radius, walks, nb, kk),
    ensures
        order_inv(sp, pushed_from_head(sp, st, nb), walks_pushed(sp, st, walks, nb), kk + 1),
{
    lemma_push_walks(sp, st, target, radius, walks, nb, kk);
    lemma_push_canon(sp, st, target, radius, walks, nb, kk);
    lemma_push_pairs(sp, st, target, radius, walks, nb, kk);
    lemma_push_parents(sp, st, target, radius, walks, nb, kk);
}

/// Trying a move that visits nothing keeps the order of the search.
proof fn lemma_order_next_move(sp: GridSpace, st: SearchState, walks: Seq<Seq<(int, int)>>, k: int)
    requires
        order_inv(sp, st, walks, k),
    ensures
        order_inv(sp, st, walks, k + 1),
{
    assert forall|b: int| 1 <= b < st.queue.len() implies #[trigger] parent_placed(sp, st, k + 1, b) by {
        assert(parent_placed(sp, st, k, b));
    }
}

/// Moving past an expanded head keeps the order of the search.
proof fn lemma_order_advance(sp: GridSpace, st: SearchState, walks: Seq<Seq<(int, int)>>)
    requires
        order_inv(sp, st, walks, sp.moves.len() as int),
    ensures
        order_inv(sp, advanced(st), walks, 0),
{
    let st2 = advanced(st);
    assert forall|b: int| 1 <= b < st2.queue.len() implies #[trigger] parent_placed(sp, st2, 0, b) by {
        assert(parent_placed(sp, st, sp.moves.len() as int, b));
    }
    assert forall|a: int, b: int| 0 <= a < b < st2.queue.len() implies #[trigger] ordered_pair(sp, st2, walks, a, b) by {
        assert(ordered_pair(sp, st, walks, a, b));
    }
    assert forall|i: int| 0 <= i < sp.size() && st2.vis[i] implies #[trigger] canon_min(sp, st2, walks, i) by {
        assert(canon_min(sp, st, walks, i));
    }
}

proof fn lemma_order_init(sp: GridSpace, st: SearchState, target: (int, int), radius: int, walks: Seq<Seq<(int, int)>>)
    requires
        search_inv(sp, st, target, radius),
        sp.moves_distinct(),
        st.queue.len() == 1,
        st.pos == Seq::new(sp.size() as nat, |i: int| 0int),
        st.vis == Seq::new(sp.size() as nat, |i: int| false).update(sp.index(sp.start), true),
        walks == Seq::new(sp.size() as nat, |i: int| seq![sp.start]),
    ensures
        order_inv(sp, st, walks, 0),
{
    let s = sp.index(sp.start);
    assert(sp.is_walk(seq![sp.start]));
    assert forall|i: int| 0 <= i < sp.size() && st.vis[i] implies #[trigger] walk_link(sp, st.par, st.dist, st.owner, walks, i) by {
        assert(i == s);
    }
    assert forall|i: int| 0 <= i < sp.size() && st.vis[i] implies #[trigger] canon_min(sp, st, walks, i) by {
        assert(i == s);
        assert forall|q: Seq<(int, int)>|
            #[trigger] sp.is_walk(q) && q.len() == st.dist[i] + 1 && q.last() == st.owner[i] implies q == walks[i]
                || sp.walk_before(walks[i], q) by {
            assert(q =~= seq![sp.start]);
        }
    }
}

/// The walk recorded for the goal found at the head is the first shortest
/// walk to the goal.
proof fn lemma_found_first(sp: GridSpace, st: SearchState, target: (int, int), radius: int, walks: Seq<Seq<(int, int)>>)
    requires
        search_inv(sp, st, target, radius),
        order_inv(sp, st, walks, 0),
        st.head < st.queue.len(),
        near(pt(st.queue[st.head]), target, radius),
    ensures
        sp.is_first_shortest(walk_of(sp, walks, pt(st.queue[st.head])), target, radius),
{
    let c = pt(st.queue[st.head]);
    let ic = sp.index(c);
    let w = walks[ic];
    let dd = st.dist[ic];
    lemma_head_facts(sp, st, target, radius, walks, 0);
    lemma_found_nearest(sp, st, target, radius);
    assert(sp.reaches(w, target, radius));
    assert(sp.is_shortest(w, target, radius));
    assert forall|q: Seq<(int, int)>| #[trigger] sp.is_shortest(q, target, radius) implies q == w || sp.walk_before(w, q) by {
        assert(q.len() <= w.len());
        assert(w.len() <= q.len());
        let z = q[dd];
        assert(z == q.last());
        if dd == 0 {
            assert(c == sp.start);
            assert(w =~= seq![sp.start]);
            assert(q =~= seq![sp.start]);
        } else {
            lemma_walk_prefix(sp, st, target, radius, q, dd - 1);
            lemma_walk_next(sp, st, target, radius, q, dd - 1);
            let iz = sp.index(z);
            let pz = st.pos[iz];
            assert(pt(st.queue[pz]) == z);
            if pz < st.head {
                assert(done_ok(sp, st, target, radius, pz));
                assert(false);
            } else if pz == st.head {
                assert(z == c);
                assert(canon_min(sp, st, walks, ic));
            } else {
                assert(dist_of(sp, st, pt(st.queue[st.head])) <= dist_of(sp, st, pt(st.queue[pz])));
                assert(ordered_pair(sp, st, walks, st.head, pz));
                assert(sp.walk_before(w, walks[iz]));
                assert(canon_min(sp, st, walks, iz));
                if q != walks[iz] {
                    lemma_before_trans(sp, w, walks[iz], q);
                }
            }
        }
    }
}

proof fn lemma_index_in_range_or_start(sp: GridSpace, c: (int, int))
    requires
        sp.width >= 1,
        sp.margin >= 0,
        0 <= sp.index(sp.start) < sp.size(),
        c == sp.start || sp.is_open(c),
    ensures
        0 <= sp.index(c) < sp.size(),
{
    if c != sp.start {
        lemma_index_in_range(sp, c);
    }
}


pub open spec fn advanced(st: SearchState) -> SearchState {
    SearchState { head: st.head + 1, ..st }
}

proof fn lemma_advance(sp: GridSpace, st: SearchState, target: (int, int), radius: int)
    requires
        search_inv(sp, st, target, radius),
        st.head < st.queue.len(),
        !near(pt(st.queue[st.head]), target, radius),
        expanded(sp, st, pt(st.queue[st.head]), sp.moves.len() as int),
    ensures
        search_inv(sp, advanced(st), target, radius),
{
    let st2 = advanced(st);
    assert forall|j: int| 0 <= j < st2.queue.len() implies #[trigger] queued_ok(sp, st2, j) by {
        assert(queued_ok(sp, st, j));
    }
    assert forall|x: int| 0 <= x < sp.size() && st2.vis[x] implies #[trigger] placed_ok(sp, st2, x) by {
        assert(placed_ok(sp, st, x));
    }
    if st2.head < st2.queue.len() {
        assert(dist_of(sp, st, pt(st.queue[st.head])) <= dist_of(sp, st, pt(st.queue[st.head + 1])));
    }
    assert(queue_ok(sp, st2));
    assert forall|j: int| 0 <= j < st2.head implies #[trigger] done_ok(sp, st2, target, radius, j) by {
        if j < st.head {
            assert(done_ok(sp, st, target, radius, j));
        }
        let cj = pt(st.queue[j]);
        assert forall|k: int| 0 <= k < sp.moves.len() implies #[trigger] reach_ok(
            sp,
            st2,
            offset(cj, sp.moves[k]),
            cj,
        ) by {
            assert(reach_ok(sp, st, offset(cj, sp.moves[k]), cj));
        }
    }
}

/// The cell `c` sits in the queue at position `pos[index(c)]`, before the head.
pub open spec fn dequeued(sp: GridSpace, st: SearchState, c: (int, int)) -> bool {
    let x = sp.index(c);
    &&& 0 <= x < sp.size()
    &&& st.vis[x]
    &&& st.owner[x] == c
    &&& 0 <= st.pos[x] < st.head
    &&& pt(st.queue[st.pos[x]]) == c
}

/// From a dequeued cell, a walk step leads to a visited cell.
proof fn lemma_walk_next(sp: GridSpace, st: SearchState, target: (int, int), radius: int, p: Seq<(int, int)>, i: int)
    requires
        search_inv(sp, st, target, radius),
        sp.is_walk(p),
        0 <= i < p.len() - 1,
        dequeued(sp, st, p[i]),
    ensures
        sp.is_open(p[i + 1]),
        0 <= sp.index(p[i + 1]) < sp.size(),
        st.vis[sp.index(p[i + 1])],
        st.owner[sp.index(p[i + 1])] == p[i + 1],
        st.dist[sp.index(p[i + 1])] <= st.dist[sp.index(p[i])] + 1,
        placed_ok(sp, st, sp.index(p[i + 1])),
{
    let j = st.pos[sp.index(p[i])];
    assert(done_ok(sp, st, target, radius, j));
    assert(sp.walk_step(p, i));
    let k = choose|k: int| 0 <= k < sp.moves.len() && p[i + 1] == offset(p[i], #[trigger] sp.moves[k]);
    assert(reach_ok(sp, st, offset(p[i], sp.moves[k]), p[i]));
    lemma_index_in_range(sp, p[i + 1]);
    lemma_owner_of_open(sp, st, p[i + 1]);
    assert(placed_ok(sp, st, sp.index(p[i + 1])));
}

/// Once the queue is exhausted, every cell of every walk was dequeued.
proof fn lemma_walk_exhausted(sp: GridSpace, st: SearchState, target: (int, int), radius: int, p: Seq<(int, int)>, i: int)
    requires
        search_inv(sp, st, target, radius),
        st.head == st.queue.len(),
        sp.is_walk(p),
        0 <= i < p.len(),
    ensures
        dequeued(sp, st, p[i]),
    decreases i,
{
    if i == 0 {
        assert(placed_ok(sp, st, sp.index(sp.start)));
    } else {
        lemma_walk_exhausted(sp, st, target, radius, p, i - 1);
        lemma_walk_next(sp, st, target, radius, p, i - 1);
    }
}

proof fn lemma_no_goal(sp: GridSpace, st: SearchState, target: (int, int), radius: int)
    requires
        search_inv(sp, st, target, radius),
        st.head == st.queue.len(),
    ensures
        forall|p: Seq<(int, int)>| #[trigger] sp.is_walk(p) ==> !near(p.last(), target, radius),
{
    assert forall|p: Seq<(int, int)>| #[trigger] sp.is_walk(p) implies !near(p.last(), target, radius) by {
        lemma_walk_exhausted(sp, st, target, radius, p, p.len() - 1);
        assert(done_ok(sp, st, target, radius, st.pos[sp.index(p.last())]));
    }
}

/// Every cell of a walk closer than the head's distance was dequeued, no
/// later than its position on the walk.
proof fn lemma_walk_prefix(sp: GridSpace, st: SearchState, target: (int, int), radius: int, p: Seq<(int, int)>, i: int)
    requires
        search_inv(sp, st, target, radius),
        st.head < st.queue.len(),
        sp.is_walk(p),
        0 <= i < p.len(),
        i < dist_of(sp, st, pt(st.queue[st.head])),
    ensures
        dequeued(sp, st, p[i]),
        st.dist[sp.index(p[i])] <= i,
    decreases i,
{
    let dh = dist_of(sp, st, pt(st.queue[st.head]));
    if i == 0 {
        let s = sp.index(sp.start);
        assert(placed_ok(sp, st, s));
        if st.pos[s] >= st.head {
            assert(dist_of(sp, st, pt(st.queue[st.head])) <= dist_of(sp, st, pt(st.queue[st.pos[s]])));
        }
    } else {
        lemma_walk_prefix(sp, st, target, radius, p, i - 1);
        lemma_walk_next(sp, st, target, radius, p, i - 1);
        let x = sp.index(p[i]);
        if st.pos[x] >= st.head {
            assert(dist_of(sp, st, pt(st.queue[st.head])) <= dist_of(sp, st, pt(st.queue[st.pos[x]])));
        }
    }
}

/// The goal found at the head is at least as close as any goal cell of any walk.
proof fn lemma_found_nearest(sp: GridSpace, st: SearchState, target: (int, int), radius: int)
    requires
        search_inv(sp, st, target, radius),
        st.head < st.queue.len(),
    ensures
        forall|p: Seq<(int, int)>|
            #[trigger] sp.reaches(p, target, radius) ==> dist_of(sp, st, pt(st.queue[st.head])) + 1
                <= p.len(),
{
    assert forall|p: Seq<(int, int)>| #[trigger] sp.reaches(p, target, radius) implies dist_of(
        sp,
        st,
        pt(st.queue[st.head]),
    ) + 1 <= p.len() by {
        if p.len() <= dist_of(sp, st, pt(st.queue[st.head])) {
            lemma_walk_prefix(sp, st, target, radius, p, p.len() - 1);
            assert(done_ok(sp, st, target, radius, st.pos[sp.index(p.last())]));
        }
    }
}


proof fn lemma_dims(width: int, height: int)
    requires
        1 <= width,
        1 <= height,
        width * height <= COORD_LIMIT,
    ensures
        width <= COORD_LIMIT,
        height <= COORD_LIMIT,
{
    assert(width <= width * height && height <= width * height) by (nonlinear_arith)
        requires 1 <= width, 1 <= height;
}

fn abs_diff(a: i64, b: i64) -> (d: i64)
    requires
        coord_ok(a as int),
        coord_ok(b as int),
    ensures
        d == axis_dist(a as int, b as int),
{
    if a <= b { b - a } else { a - b }
}

/// Searches breadth-first from `start` and stops at the first dequeued cell
/// within `radius` of `target`; the result also holds the search tree.
pub fn grid_search(
    width: i64,
    height: i64,
    margin: i64,
    blocked: &Vec<bool>,
    moves: &Vec<(i64, i64)>,
    start: (i64, i64),
    target: (i64, i64),
    radius: i64,
) -> (tree: SearchTree)
    requires
        search_args_ok(width, height, margin, blocked@, moves@, start, target, radius),
    ensures
        search_outcome(
            space_of(width, height, margin, blocked@, moves@, start),
            pt(target),
            radius as int,
            tree,
        ),
{
    let ghost sp = space_of(width, height, margin, blocked@, moves@, start);
    let ghost t = pt(target);
    let ghost r = radius as int;
    let n = blocked.len();
    let s_idx: usize = (start.1 * width + start.0) as usize;
    let mut visited: Vec<bool> = filled(false, n);
    let mut parent: Vec<(i64, i64)> = filled(start, n);
    visited.set(s_idx, true);
    let ghost mut dist: Seq<int> = Seq::new(n as nat, |i: int| 0int);
    let ghost mut owner: Seq<(int, int)> = Seq::new(n as nat, |i: int| pt(start));
    let ghost mut pos: Seq<int> = Seq::new(n as nat, |i: int| 0int);
    let ghost mut walks: Seq<Seq<(int, int)>> = Seq::new(n as nat, |i: int| seq![sp.start]);
    // The queue is a vector read from `head` on rather than a `VecDeque`:
    // dequeued cells stay in place, and the proof speaks of them by their
    // position (every cell before `head` was expanded and is not a goal).
    let mut queue: Vec<(i64, i64)> = Vec::new();
    queue.push(start);
    let mut head: usize = 0;
    proof {
        assert(visited@ =~= Seq::new(sp.size() as nat, |i: int| false).update(sp.index(sp.start), true));
        lemma_init(
            sp,
            SearchState { vis: visited@, par: parent@, dist, owner, pos, queue: queue@, head: 0 },
            t,
            r,
        );
        assert(sp.moves_distinct()) by {
            assert forall|i: int, j: int| 0 <= i < j < sp.moves.len() implies sp.moves[i] != sp.moves[j] by {
                assert(moves@[i] != moves@[j]);
            }
        }
        lemma_order_init(
            sp,
            SearchState { vis: visited@, par: parent@, dist, owner, pos, queue: queue@, head: 0 },
            t,
            r,
            walks,
        );
    }
    while head < queue.len()
        invariant
            sp == space_of(width, height, margin, blocked@, moves@, start),
            t == pt(target),
            r == radius as int,
            search_args_ok(width, height, margin, blocked@, moves@, start, target, radius),
            n == blocked@.len(),
            search_inv(
                sp,
                SearchState { vis: visited@, par: parent@, dist, owner, pos, queue: queue@, head: head as int },
                t,
                r,
            ),
            order_inv(
                sp,
                SearchState { vis: visited@, par: parent@, dist, owner, pos, queue: queue@, head: head as int },
                walks,
                0,
            ),
        decreases count_false(visited@) + queue@.len() - head,
    {
        let ghost st0 = SearchState { vis: visited@, par: parent@, dist, owner, pos, queue: queue@, head: head as int };
        let cur = queue[head];
        proof {
            lemma_queued_dist(sp, st0, head as int);
            lemma_dims(width as int, height as int);
        }
        assert(coord_ok(cur.0 as int) && coord_ok(cur.1 as int));
        if abs_diff(cur.0, target.0) <= radius && abs_diff(cur.1, target.1) <= radius {
            proof {
                lemma_found_nearest(sp, st0, t, r);
                lemma_found_first(sp, st0, t, r, walks);
            }
            return SearchTree {
                found: Some(cur),
                visited,
                parent,
                dist: Ghost(dist),
                owner: Ghost(owner),
                walks: Ghost(walks),
            };
        }
        let mut k: usize = 0;
        while k < moves.len()
            invariant
                sp == space_of(width, height, margin, blocked@, moves@, start),
                t == pt(target),
                r == radius as int,
                search_args_ok(width, height, margin, blocked@, moves@, start, target, radius),
                n == blocked@.len(),
                0 <= k <= moves@.len(),
                search_inv(
                    sp,
                    SearchState { vis: visited@, par: parent@, dist, owner, pos, queue: queue@, head: head as int },
                    t,
                    r,
                ),
                order_inv(
                    sp,
                    SearchState { vis: visited@, par: parent@, dist, owner, pos, queue: queue@, head: head as int },
                    walks,
                    k as int,
                ),
                head < queue@.len(),
                queue@[head as int] == cur,
                head < st0.queue.len(),
                cur == st0.queue[head as int],
                coord_ok(cur.0 as int) && coord_ok(cur.1 as int),
                pt(cur) == sp.start || sp.is_open(pt(cur)),
                !near(pt(cur), t, r),
                expanded(
                    sp,
                    SearchState { vis: visited@, par: parent@, dist, owner, pos, queue: queue@, head: head as int },
                    pt(cur),
                    k as int,
                ),
                count_false(visited@) + queue@.len() == count_false(st0.vis) + st0.queue.len(),
                st0.head == head,
            decreases moves@.len() - k,
        {
            let ghost st = SearchState { vis: visited@, par: parent@, dist, owner, pos, queue: queue@, head: head as int };
            let d = moves[k];
            assert(sp.moves[k as int] == pt(d));
            let nx = cur.0 + d.0;
            let ny = cur.1 + d.1;
            let ghost nb = (nx as int, ny as int);
            assert(nb == offset(pt(cur), sp.moves[k as int]));
            if nx >= margin && nx < width - margin && ny >= margin && ny < height - margin {
                proof {
                    lemma_index_in_range(sp, nb);
                }
                let idx: usize = (ny * width + nx) as usize;
                if !visited[idx] && !blocked[idx] {
                    proof {
                        lemma_push(sp, st, t, r, (nx, ny), k as int);
                        lemma_push_order(sp, st, t, r, walks, (nx, ny), k as int);
                        walks = walks_pushed(sp, st, walks, (nx, ny));
                        dist = dist.update(idx as int, dist_of(sp, st, pt(cur)) + 1);
                        owner = owner.update(idx as int, nb);
                        pos = pos.update(idx as int, queue@.len() as int);
                    }
                    visited.set(idx, true);
                    parent.set(idx, cur);
                    queue.push((nx, ny));
                } else {
                    proof {
                        if sp.is_open(nb) {
                            lemma_visited_neighbour(sp, st, t, r, nb);
                        }
                        assert(reach_ok(sp, st, offset(pt(cur), sp.moves[k as int]), pt(cur)));
                        lemma_order_next_move(sp, st, walks, k as int);
                    }
                }
            } else {
                assert(reach_ok(sp, st, offset(pt(cur), sp.moves[k as int]), pt(cur)));
                proof {
                    lemma_order_next_move(sp, st, walks, k as int);
                }
            }
            k += 1;
        }
        proof {
            let st = SearchState { vis: visited@, par: parent@, dist, owner, pos, queue: queue@, head: head as int };
            lemma_advance(sp, st, t, r);
            lemma_order_advance(sp, st, walks);
        }
        head += 1;
    }
    proof {
        let st = SearchState { vis: visited@, par: parent@, dist, owner, pos, queue: queue@, head: head as int };
        lemma_no_goal(sp, st, t, r);
    }
    SearchTree { found: None, visited, parent, dist: Ghost(dist), owner: Ghost(owner), walks: Ghost(walks) }
}


/// A sequence of executable cells as mathematical cells.
pub open spec fn cells(p: Seq<(i64, i64)>) -> Seq<(int, int)> {
    p.map_values(|c: (i64, i64)| pt(c))
}

/// Follows the search tree from `goal` back to the start and returns the
/// cells from the start to `goal`.
pub fn trace_path(
    width: i64,
    height: i64,
    margin: i64,
    blocked: &Vec<bool>,
    moves: &Vec<(i64, i64)>,
    start: (i64, i64),
    tree: &SearchTree,
    goal: (i64, i64),
) -> (path: Vec<(i64, i64)>)
    requires
        search_args_ok(width, height, margin, blocked@, moves@, start, start, 0),
        tree_ok(
            space_of(width, height, margin, blocked@, moves@, start),
            tree.visited@,
            tree.parent@,
            tree.dist@,
            tree.owner@,
        ),
        in_tree(space_of(width, height, margin, blocked@, moves@, start), tree.visited@, tree.owner@, pt(goal)),
        walks_ok(
            space_of(width, height, margin, blocked@, moves@, start),
            tree.visited@,
            tree.parent@,
            tree.dist@,
            tree.owner@,
            tree.walks@,
        ),
    ensures
        cells(path@) == tree.walks@[space_of(width, height, margin, blocked@, moves@, start).index(pt(goal))],
        space_of(width, height, margin, blocked@, moves@, start).is_walk(cells(path@)),
        path@.last() == goal,
        path@.len() == tree.dist@[space_of(width, height, margin, blocked@, moves@, start).index(pt(goal))] + 1,
{
    let ghost sp = space_of(width, height, margin, blocked@, moves@, start);
    let ghost vis = tree.visited@;
    let ghost par = tree.parent@;
    let ghost dist = tree.dist@;
    let ghost owner = tree.owner@;
    let ghost dg = dist[sp.index(pt(goal))];
    let ghost walks = tree.walks@;
    let ghost wg = walks[sp.index(pt(goal))];
    proof {
        lemma_dims(width as int, height as int);
        lemma_index_in_range_or_start(sp, pt(goal));
        assert(walk_link(sp, par, dist, owner, walks, sp.index(pt(goal))));
        assert(wg.take(dg + 1) =~= wg);
    }
    let n = blocked.len();
    let mut rev: Vec<(i64, i64)> = Vec::new();
    let mut cur = goal;
    while cur.0 != start.0 || cur.1 != start.1
        invariant
            sp == space_of(width, height, margin, blocked@, moves@, start),
            search_args_ok(width, height, margin, blocked@, moves@, start, start, 0),
            width <= COORD_LIMIT,
            height <= COORD_LIMIT,
            n == blocked@.len(),
            vis == tree.visited@,
            par == tree.parent@,
            dist == tree.dist@,
            owner == tree.owner@,
            tree_ok(sp, vis, par, dist, owner),
            in_tree(sp, vis, owner, pt(cur)),
            rev@.len() + dist[sp.index(pt(cur))] == dg,
            walks == tree.walks@,
            wg == walks[sp.index(pt(goal))],
            walks_ok(sp, vis, par, dist, owner, walks),
            wg.len() == dg + 1,
            walks[sp.index(pt(cur))] == wg.take(dist[sp.index(pt(cur))] + 1),
            forall|j: int| 0 <= j < rev@.len() ==> pt(#[trigger] rev@[j]) == wg[dg - j],
            rev@.len() == 0 ==> cur == goal,
            rev@.len() > 0 ==> rev@[0] == goal,
            rev@.len() > 0 ==> sp.adjacent(pt(cur), pt(rev@.last())),
            forall|j: int| 0 <= j < rev@.len() ==> sp.is_open(#[trigger] pt(rev@[j])),
            forall|j: int|
                0 <= j < rev@.len() - 1 ==> sp.adjacent(pt(#[trigger] rev@[j + 1]), pt(rev@[j])),
        decreases dist[sp.index(pt(cur))],
    {
        let ghost c = pt(cur);
        proof {
            lemma_index_in_range(sp, c);
            assert(link_ok(sp, par, vis, dist, owner, sp.index(c)));
            assert(walk_link(sp, par, dist, owner, walks, sp.index(c)));
            assert(c == wg.take(dist[sp.index(c)] + 1).last());
            assert(wg.take(dist[sp.index(c)] + 1).drop_last() =~= wg.take(dist[sp.index(c)]));
        }
        let idx: usize = (cur.1 * width + cur.0) as usize;
        assert(idx as int == sp.index(c));
        rev.push(cur);
        cur = tree.parent[idx];
        assert(pt(cur) == pt(par[sp.index(c)]));
        proof {
            if pt(cur) != sp.start {
                lemma_index_in_range(sp, pt(cur));
            }
        }
    }
    rev.push(cur);
    let ghost m = rev@.len() - 1;
    proof {
        assert(sp.index(pt(cur)) == sp.index(sp.start));
        assert(pt(rev@[m]) == wg[dg - m]) by {
            assert(walk_link(sp, par, dist, owner, walks, sp.index(sp.start)));
        }
    }
    let mut path: Vec<(i64, i64)> = Vec::new();
    let mut i: usize = rev.len();
    while i > 0
        invariant
            i <= rev@.len(),
            path@.len() + i == rev@.len(),
            forall|j: int| 0 <= j < path@.len() ==> path@[j] == rev@[rev@.len() - 1 - j],
        decreases i,
    {
        i -= 1;
        path.push(rev[i]);
    }
    proof {
        let p = cells(path@);
        assert(pt(rev@[m]) == sp.start);
        assert forall|j: int| 0 <= j < p.len() - 1 implies #[trigger] sp.walk_step(p, j) by {
            assert(p[j] == pt(rev@[m - j]));
            assert(p[j + 1] == pt(rev@[m - j - 1]));
            if m - j - 1 < m - 1 {
                assert(sp.adjacent(pt(rev@[m - j - 1 + 1]), pt(rev@[m - j - 1])));
            }
        }
        assert(path@.last() == rev@[0]);
        assert(cells(path@) =~= wg) by {
            assert forall|j: int| 0 <= j < p.len() implies p[j] == wg[j] by {
                assert(p[j] == pt(rev@[m - j]));
            }
        }
    }
    path
}


/// The cell stored at slot `i` of a grid `width` cells wide.
pub open spec fn slot_cell(width: int, i: int) -> (int, int) {
    (i % width, i / width)
}

/// Slot `i` holds one of the `walls`.
pub open spec fn wall_at(walls: Seq<(i64, i64)>, width: int, i: int) -> bool {
    cells(walls).contains(slot_cell(width, i))
}

/// The blocked-slot map of a `width` x `height` grid with the given walls.
pub open spec fn wall_map(walls: Seq<(i64, i64)>, width: int, height: int) -> Seq<bool> {
    Seq::new((width * height) as nat, |i: int| wall_at(walls, width, i))
}

/// A grid cell and its slot determine each other.
pub proof fn lemma_slot_cell(width: int, height: int, c: (int, int), i: int)
    requires
        width >= 1,
        0 <= c.0 < width,
        0 <= c.1 < height,
        0 <= i < width * height,
    ensures
        (c.1 * width + c.0 == i) == (slot_cell(width, i) == c),
{
    lemma_fundamental_div_mod(i, width);
    lemma_mod_pos_bound(i, width);
    if c.1 * width + c.0 == i {
        assert(i == c.1 * width + c.0);
        assert(c.1 * width == width * c.1) by (nonlinear_arith);
        lemma_fundamental_div_mod_converse(i, width, c.1, c.0);
    }
    if slot_cell(width, i) == c {
        assert(width * (i / width) == c.1 * width) by (nonlinear_arith)
            requires c.1 == i / width;
    }
}

/// Marks the slots of the walls that lie on a `width` x `height` grid.
pub fn wall_grid(width: i64, height: i64, walls: &Vec<(i64, i64)>) -> (blocked: Vec<bool>)
    requires
        1 <= width,
        1 <= height,
        width * height <= COORD_LIMIT,
        width * height <= usize::MAX,
    ensures
        blocked@ == wall_map(walls@, width as int, height as int),
{
    let ghost w = width as int;
    let ghost h = height as int;
    let n: usize = (width * height) as usize;
    let mut blocked: Vec<bool> = filled(false, n);
    let mut k: usize = 0;
    while k < walls.len()
        invariant
            w == width as int,
            h == height as int,
            1 <= width,
            1 <= height,
            width * height <= COORD_LIMIT,
            n == w * h,
            k <= walls@.len(),
            blocked@.len() == n,
            forall|i: int|
                0 <= i < n ==> #[trigger] blocked@[i] == exists|j: int|
                    0 <= j < k && 0 <= walls@[j].0 < w && 0 <= walls@[j].1 < h && #[trigger] (walls@[j].1
                        * w + walls@[j].0) == i,
        decreases walls@.len() - k,
    {
        let c = walls[k];
        if 0 <= c.0 && c.0 < width && 0 <= c.1 && c.1 < height {
            proof {
                lemma_index_in_range(
                    GridSpace { width: w, height: h, margin: 0, blocked: Seq::empty(), moves: Seq::empty(), start: (0, 0) },
                    pt(c),
                );
            }
            let idx: usize = (c.1 * width + c.0) as usize;
            blocked.set(idx, true);
            assert forall|i: int| 0 <= i < n implies #[trigger] blocked@[i] == exists|j: int|
                0 <= j < k + 1 && 0 <= walls@[j].0 < w && 0 <= walls@[j].1 < h && #[trigger] (walls@[j].1
                    * w + walls@[j].0) == i by {
                if i == idx as int {
                    assert(walls@[k as int].1 * w + walls@[k as int].0 == i);
                }
            }
        }
        k += 1;
    }
    proof {
        assert forall|i: int| 0 <= i < n implies #[trigger] blocked@[i] == wall_at(walls@, w, i) by {
            if blocked@[i] {
                let j = choose|j: int|
                    0 <= j < k && 0 <= walls@[j].0 < w && 0 <= walls@[j].1 < h && #[trigger] (walls@[j].1
                        * w + walls@[j].0) == i;
                lemma_slot_cell(w, h, pt(walls@[j]), i);
                assert(cells(walls@)[j] == slot_cell(w, i));
            }
            if wall_at(walls@, w, i) {
                let j = choose|j: int| 0 <= j < cells(walls@).len() && cells(walls@)[j] == slot_cell(w, i);
                lemma_fundamental_div_mod(i, w);
                lemma_mod_pos_bound(i, w);
                assert(0 <= i / w < h) by (nonlinear_arith)
                    requires i == w * (i / w) + i % w, 0 <= i % w < w, 0 <= i < w * h, w >= 1;
                lemma_slot_cell(w, h, pt(walls@[j]), i);
            }
        }
    }
    blocked
}

} // verus!
