//! Turn planning for the arena client.

use vstd::prelude::*;
use std::collections::HashMap;
use crate::line::{axis_dist, line_len, line_point, bresenham_line, cell_at};
use crate::protocol::{Command, ErrorArgs, Hero, StartMatchArgs, StartTurnArgs};
use crate::navigate::{next_step_ok, cell_opt, bfs_next_step};
use vstd::std_specs::iter::IteratorSpec;

verus! {

broadcast use vstd::std_specs::hash::group_hash_axioms;

/// Chebyshev distance between two cells.
pub open spec fn cheb(a: (int, int), b: (int, int)) -> int {
    let dx = axis_dist(a.0, b.0);
    let dy = axis_dist(a.1, b.1);
    if dx >= dy { dx } else { dy }
}

fn cheb_exec(a: (i32, i32), b: (i32, i32)) -> (d: i64)
    ensures
        d == cheb(cell_at(a), cell_at(b)),
{
    let dx: i64 = if a.0 <= b.0 { b.0 as i64 - a.0 as i64 } else { a.0 as i64 - b.0 as i64 };
    let dy: i64 = if a.1 <= b.1 { b.1 as i64 - a.1 as i64 } else { a.1 as i64 - b.1 as i64 };
    if dx >= dy { dx } else { dy }
}

/// The known enemy position nearest to `from`, if any lies closer than `i32::MAX`.
pub fn choose_target(enemies: &HashMap<i32, (i32, i32)>, from: (i32, i32)) -> (target: Option<(i32, i32)>)
    ensures
        nearest_enemy(enemies@, cell_at(from), target),
{
    let mut best: Option<(i32, i32)> = None;
    let mut min_dist: i64 = 0x7fff_ffff;
    let ghost items = vstd::std_specs::hash::spec_hash_map_iter(enemies).remaining();
    let ghost mut done: int = 0;
    for (_id, pos) in it: enemies.iter()
        invariant
            it.seq() == items,
            done == it.index(),
            best is None ==> min_dist == i32::MAX,
            best matches Some(b) ==> min_dist == cheb(cell_at(from), cell_at(b)) && min_dist < i32::MAX
                && exists|i: int| 0 <= i < done && *items[i].1 == b,
            forall|i: int| 0 <= i < done ==> min_dist <= cheb(cell_at(from), cell_at(*#[trigger] items[i].1)),
    {
        let d = cheb_exec(from, *pos);
        if d < min_dist {
            min_dist = d;
            best = Some(*pos);
        }
        proof { done = done + 1; }
    }
    assert(done == items.len());
    proof {
        assert forall|k: i32| #[trigger] enemies@.contains_key(k) implies min_dist <= cheb(
            cell_at(from),
            cell_at(enemies@[k]),
        ) by {
            assert(items.contains((&k, &enemies@[k])));
            let i = choose|i: int| 0 <= i < items.len() && items[i] == (&k, &enemies@[k]);
            assert(min_dist <= cheb(cell_at(from), cell_at(*items[i].1)));
        }
        if let Some(b) = best {
            let i = choose|i: int| 0 <= i < done && *items[i].1 == b;
            let k = *items[i].0;
            assert(enemies@.contains_key(k) && enemies@[k] == b);
        }
    }
    best
}


/// What the client remembers between messages.
pub struct ClientState {
    pub my_player_id: i32,
    pub map_width: i32,
    pub map_height: i32,
    pub walls_cache: Vec<(i32, i32)>,
    pub last_known_enemies: HashMap<i32, (i32, i32)>,
    pub hero_history_1: HashMap<i32, (i32, i32)>,
    pub hero_history_2: HashMap<i32, (i32, i32)>,
}

/// The client's memory as mathematical values.
pub struct ClientView {
    pub my_player_id: i32,
    pub map_width: i32,
    pub map_height: i32,
    pub walls: Seq<(i32, i32)>,
    pub enemies: Map<i32, (i32, i32)>,
    pub history_1: Map<i32, (i32, i32)>,
    pub history_2: Map<i32, (i32, i32)>,
}

impl View for ClientState {
    type V = ClientView;

    open spec fn view(&self) -> ClientView {
        ClientView {
            my_player_id: self.my_player_id,
            map_width: self.map_width,
            map_height: self.map_height,
            walls: self.walls_cache@,
            enemies: self.last_known_enemies@,
            history_1: self.hero_history_1@,
            history_2: self.hero_history_2@,
        }
    }
}

/// An order for one hero.
#[derive(Clone, Copy, Debug, PartialEq, Eq, Structural)]
pub enum HeroOrder {
    Shoot { hero_id: i32, x: i32, y: i32 },
    Move { hero_id: i32, x: i32, y: i32 },
}

pub open spec fn hero_at(h: Hero) -> (int, int) {
    (h.x as int, h.y as int)
}

/// The cell is one of `list`.
pub open spec fn listed(list: Seq<(i32, i32)>, c: (int, int)) -> bool {
    exists|j: int| 0 <= j < list.len() && cell_at(#[trigger] list[j]) == c
}

/// No wall lies on the traced line from `a` to `b`.
pub open spec fn sight_clear(walls: Seq<(i32, i32)>, a: (int, int), b: (int, int)) -> bool {
    forall|i: int|
        0 <= i < line_len(a.0, a.1, b.0, b.1) ==> !listed(walls, #[trigger] line_point(a.0, a.1, b.0, b.1, i))
}

/// The offsets of the eight moves of a hero, in the order they are considered.
pub open spec fn option_offsets() -> Seq<(int, int)> {
    seq![(0, 3), (3, 3), (-3, 3), (3, 0), (-3, 0), (3, -3), (-3, -3), (0, -3)]
}

/// The eight cells a hero at `h` may move to, in the order they are considered.
pub open spec fn move_options(h: (int, int)) -> Seq<(int, int)> {
    Seq::new(8, |k: int| (h.0 + option_offsets()[k].0, h.1 + option_offsets()[k].1))
}

/// The cell is at least one cell away from every border of the map.
pub open spec fn inside_play(v: ClientView, c: (int, int)) -> bool {
    1 <= c.0 < v.map_width - 1 && 1 <= c.1 < v.map_height - 1
}

/// A move the hero may make: inside the map, not claimed this turn, and
/// with no wall on the way.
pub open spec fn move_allowed(v: ClientView, claimed: Seq<(i32, i32)>, hero: Hero, c: (int, int)) -> bool {
    &&& inside_play(v, c)
    &&& !listed(claimed, c)
    &&& sight_clear(v.walls, hero_at(hero), c)
}

/// The distance a hero likes to keep from its target: closer when ready to shoot.
pub open spec fn ideal_range(hero: Hero) -> int {
    if hero.cooldown == 0 { 8 } else { 12 }
}

pub open spec fn min_int(a: int, b: int) -> int {
    if a <= b { a } else { b }
}

/// Distance from the cell to the nearest border of the map.
pub open spec fn edge_gap(v: ClientView, c: (int, int)) -> int {
    min_int(min_int(c.0, v.map_width - 1 - c.0), min_int(c.1, v.map_height - 1 - c.1))
}

/// `amount` when the history records the hero at `c`, else nothing.
pub open spec fn repeat_penalty(history: Map<i32, (i32, i32)>, id: i32, c: (int, int), amount: int) -> int {
    if history.contains_key(id) && cell_at(history[id]) == c { amount } else { 0 }
}

/// How good moving the hero to `c` is: close to its ideal range from the
/// target, away from the borders, and not back where it just was.
pub open spec fn move_score(v: ClientView, hero: Hero, target: (int, int), c: (int, int)) -> int {
    let gap = edge_gap(v, c);
    -axis_dist(cheb(c, target), ideal_range(hero)) - (if gap < 12 { (12 - gap) * 80 } else { 0 })
        - repeat_penalty(v.history_1, hero.id, c, 50) - repeat_penalty(v.history_2, hero.id, c, 30)
}

/// `m` is the first allowed move of highest score above `i32::MIN`, or
/// `None` when there is none.
pub open spec fn is_best_move(
    v: ClientView,
    claimed: Seq<(i32, i32)>,
    hero: Hero,
    target: (int, int),
    m: Option<(int, int)>,
) -> bool {
    let opts = move_options(hero_at(hero));
    match m {
        None => forall|k: int|
            0 <= k < 8 && move_allowed(v, claimed, hero, #[trigger] opts[k]) ==> move_score(v, hero, target, opts[k])
                <= i32::MIN,
        Some(c) => exists|k: int|
            #![trigger opts[k]]
            0 <= k < 8 && opts[k] == c && move_allowed(v, claimed, hero, c) && move_score(v, hero, target, c)
                > i32::MIN && (forall|j: int|
                0 <= j < 8 && move_allowed(v, claimed, hero, #[trigger] opts[j]) ==> move_score(v, hero, target, opts[j])
                    <= move_score(v, hero, target, c)) && (forall|j: int|
                0 <= j < k && move_allowed(v, claimed, hero, #[trigger] opts[j]) ==> move_score(v, hero, target, opts[j])
                    < move_score(v, hero, target, c)),
    }
}

/// Whether `c` is one of `list`.
pub fn is_listed(list: &Vec<(i32, i32)>, c: (i32, i32)) -> (r: bool)
    ensures
        r == listed(list@, cell_at(c)),
{
    let mut j: usize = 0;
    while j < list.len()
        invariant
            j <= list@.len(),
            forall|i: int| 0 <= i < j ==> cell_at(#[trigger] list@[i]) != cell_at(c),
        decreases list@.len() - j,
    {
        let e = list[j];
        if e.0 == c.0 && e.1 == c.1 {
            assert(cell_at(list@[j as int]) == cell_at(c));
            return true;
        }
        j += 1;
    }
    false
}

/// Whether no wall lies on the traced line from `a` to `b`.
pub fn line_is_clear(walls: &Vec<(i32, i32)>, a: (i32, i32), b: (i32, i32)) -> (r: bool)
    ensures
        r == sight_clear(walls@, cell_at(a), cell_at(b)),
{
    let points = bresenham_line(a.0, a.1, b.0, b.1);
    let mut i: usize = 0;
    while i < points.len()
        invariant
            i <= points@.len(),
            points@.len() == line_len(a.0 as int, a.1 as int, b.0 as int, b.1 as int),
            forall|j: int|
                0 <= j < points@.len() ==> cell_at(#[trigger] points@[j])
                    == line_point(a.0 as int, a.1 as int, b.0 as int, b.1 as int, j),
            forall|j: int|
                0 <= j < i ==> !listed(walls@, #[trigger] line_point(a.0 as int, a.1 as int, b.0 as int, b.1 as int, j)),
        decreases points@.len() - i,
    {
        let p = points[i];
        assert(cell_at(p) == line_point(a.0 as int, a.1 as int, b.0 as int, b.1 as int, i as int));
        if is_listed(walls, p) {
            return false;
        }
        i += 1;
    }
    true
}


fn edge_gap_of(width: i32, height: i32, c: (i64, i64)) -> (g: i64)
    requires
        1 <= c.0 < width - 1,
        1 <= c.1 < height - 1,
    ensures
        g >= 1,
        g == min_int(min_int(c.0 as int, width - 1 - c.0), min_int(c.1 as int, height - 1 - c.1)),
{
    let w = width as i64;
    let h = height as i64;
    let gap_x: i64 = if c.0 <= w - 1 - c.0 { c.0 } else { w - 1 - c.0 };
    let gap_y: i64 = if c.1 <= h - 1 - c.1 { c.1 } else { h - 1 - c.1 };
    if gap_x <= gap_y { gap_x } else { gap_y }
}

fn repeat_penalty_of(history: &HashMap<i32, (i32, i32)>, id: i32, c: (i64, i64), amount: i64) -> (p: i64)
    ensures
        p == repeat_penalty(history@, id, (c.0 as int, c.1 as int), amount as int),
{
    match history.get(&id) {
        Some(last) => {
            if last.0 as i64 == c.0 && last.1 as i64 == c.1 {
                amount
            } else {
                0
            }
        },
        None => 0,
    }
}

/// Rounds half of a length towards zero, as integer division does.
pub open spec fn half(v: int) -> int {
    if v >= 0 { v / 2 } else { -((-v) / 2) }
}

/// The cell a move order sends its hero to.
pub open spec fn moved_cell(out: Option<HeroOrder>) -> Option<(int, int)> {
    match out {
        Some(HeroOrder::Move { hero_id, x, y }) => Some((x as int, y as int)),
        _ => None,
    }
}

/// The hero can shoot the target: it is ready and no wall is in the way.
pub open spec fn can_shoot(v: ClientView, hero: Hero, target: (i32, i32)) -> bool {
    hero.cooldown == 0 && sight_clear(v.walls, hero_at(hero), cell_at(target))
}

/// The hero stands on the map, where a walk towards the centre can start.
pub open spec fn walk_ready(v: ClientView, hero: Hero) -> bool {
    &&& v.map_width * v.map_height <= i32::MAX
    &&& 0 <= hero.y * v.map_width + hero.x < v.map_width * v.map_height
}

/// One hero's decision, taken in state `pre` with the cells `pre_claimed`
/// already claimed this turn, leading to `post` and `post_claimed`:
/// with a target it shoots when it can, else moves to its best cell and
/// records that cell in its history; without a target it walks towards the
/// centre of the map.
pub open spec fn hero_step(
    pre: ClientView,
    pre_claimed: Seq<(i32, i32)>,
    hero: Hero,
    target: Option<(i32, i32)>,
    post: ClientView,
    post_claimed: Seq<(i32, i32)>,
    out: Option<HeroOrder>,
) -> bool {
    &&& post.my_player_id == pre.my_player_id
    &&& post.map_width == pre.map_width
    &&& post.map_height == pre.map_height
    &&& post.walls == pre.walls
    &&& post.enemies == pre.enemies
    &&& match target {
        Some(t) => if can_shoot(pre, hero, t) {
            &&& out == Some(HeroOrder::Shoot { hero_id: hero.id, x: t.0, y: t.1 })
            &&& post.history_1 == pre.history_1
            &&& post.history_2 == pre.history_2
            &&& post_claimed == pre_claimed
        } else {
            &&& is_best_move(pre, pre_claimed, hero, cell_at(t), moved_cell(out))
            &&& match out {
                None => {
                    &&& post.history_1 == pre.history_1
                    &&& post.history_2 == pre.history_2
                    &&& post_claimed == pre_claimed
                },
                Some(HeroOrder::Move { hero_id, x, y }) => {
                    &&& hero_id == hero.id
                    &&& post.history_1 == pre.history_1.insert(hero.id, (x, y))
                    &&& post.history_2 == (if pre.history_1.contains_key(hero.id) {
                        pre.history_2.insert(hero.id, pre.history_1[hero.id])
                    } else {
                        pre.history_2
                    })
                    &&& post_claimed == pre_claimed.push((x, y))
                },
                Some(HeroOrder::Shoot { .. }) => false,
            }
        },
        None => {
            &&& post.history_1 == pre.history_1
            &&& post.history_2 == pre.history_2
            &&& next_step_ok(
                pre.map_width as int,
                pre.map_height as int,
                pre.walls,
                hero_at(hero),
                (half(pre.map_width as int), half(pre.map_height as int)),
                moved_cell(out),
            )
            &&& match out {
                None => post_claimed == pre_claimed,
                Some(HeroOrder::Move { hero_id, x, y }) => hero_id == hero.id && post_claimed == pre_claimed.push((x, y)),
                Some(HeroOrder::Shoot { .. }) => false,
            }
        },
    }
}

/// The heroes of `heroes` that belong to player `id`, in order.
pub open spec fn own_heroes(heroes: Seq<Hero>, id: i32) -> Seq<Hero>
    decreases heroes.len(),
{
    if heroes.len() == 0 {
        Seq::empty()
    } else {
        let rest = own_heroes(heroes.drop_last(), id);
        if heroes.last().owner_id == id { rest.push(heroes.last()) } else { rest }
    }
}

/// The last known positions of enemy heroes once `heroes` have been seen:
/// each hero of another player is recorded at its position, later
/// sightings replacing earlier ones.
pub open spec fn sighted(enemies: Map<i32, (i32, i32)>, heroes: Seq<Hero>, id: i32) -> Map<i32, (i32, i32)>
    decreases heroes.len(),
{
    if heroes.len() == 0 {
        enemies
    } else {
        let known = sighted(enemies, heroes.drop_last(), id);
        let h = heroes.last();
        if h.owner_id == id { known } else { known.insert(h.id, (h.x, h.y)) }
    }
}

/// No known enemy lies closer than `i32::MAX` to `from`.
pub open spec fn none_in_range(enemies: Map<i32, (i32, i32)>, from: (int, int)) -> bool {
    forall|k: i32| #[trigger] enemies.contains_key(k) ==> cheb(from, cell_at(enemies[k])) >= i32::MAX
}

/// `t` is a known enemy position nearest to `from`, closer than `i32::MAX`,
/// and `None` exactly when there is none.
pub open spec fn nearest_enemy(enemies: Map<i32, (i32, i32)>, from: (int, int), t: Option<(i32, i32)>) -> bool {
    match t {
        None => none_in_range(enemies, from),
        Some(p) => {
            &&& exists|k: i32| #[trigger] enemies.contains_key(k) && enemies[k] == p
            &&& cheb(from, cell_at(p)) < i32::MAX
            &&& forall|k: i32| #[trigger] enemies.contains_key(k) ==> cheb(from, cell_at(p)) <= cheb(from, cell_at(enemies[k]))
        },
    }
}

/// The target of the turn: the enemy nearest to the first own hero.
pub open spec fn primary_target_ok(enemies: Map<i32, (i32, i32)>, mine: Seq<Hero>, t: Option<(i32, i32)>) -> bool {
    if mine.len() == 0 { t is None } else { nearest_enemy(enemies, hero_at(mine[0]), t) }
}

/// The orders actually given, in hero order.
pub open spec fn orders_of(outs: Seq<Option<HeroOrder>>) -> Seq<HeroOrder>
    decreases outs.len(),
{
    if outs.len() == 0 {
        Seq::empty()
    } else {
        let rest = orders_of(outs.drop_last());
        match outs.last() {
            Some(o) => rest.push(o),
            None => rest,
        }
    }
}

/// The first `outs.len()` heroes of `mine` decided one after the other,
/// starting from `v0` with nothing claimed.
pub open spec fn turn_trace(
    v0: ClientView,
    mine: Seq<Hero>,
    t: Option<(i32, i32)>,
    views: Seq<ClientView>,
    claims: Seq<Seq<(i32, i32)>>,
    outs: Seq<Option<HeroOrder>>,
) -> bool {
    &&& views.len() == outs.len() + 1
    &&& claims.len() == outs.len() + 1
    &&& outs.len() <= mine.len()
    &&& views[0] == v0
    &&& claims[0] == Seq::<(i32, i32)>::empty()
    &&& forall|i: int|
        0 <= i < outs.len() ==> #[trigger] hero_step(views[i], claims[i], mine[i], t, views[i + 1], claims[i + 1], outs[i])
}

/// The state after the enemies of this turn have been recorded.
pub open spec fn after_sightings(pre: ClientView, heroes: Seq<Hero>) -> ClientView {
    ClientView { enemies: sighted(pre.enemies, heroes, pre.my_player_id), ..pre }
}

/// A whole turn: before a match nothing happens; otherwise the enemies in
/// view are recorded, the target is the enemy nearest to the first own
/// hero, and the own heroes decide in order.
pub open spec fn planned_turn(pre: ClientView, heroes: Seq<Hero>, post: ClientView, orders: Seq<HeroOrder>) -> bool {
    if pre.my_player_id == -1 {
        post == pre && orders.len() == 0
    } else {
        let v0 = after_sightings(pre, heroes);
        let mine = own_heroes(heroes, pre.my_player_id);
        exists|t: Option<(i32, i32)>, views: Seq<ClientView>, claims: Seq<Seq<(i32, i32)>>, outs: Seq<Option<HeroOrder>>|
            #[trigger] turn_trace(v0, mine, t, views, claims, outs) && primary_target_ok(v0.enemies, mine, t)
                && outs.len() == mine.len() && post == views.last() && orders == orders_of(outs)
    }
}

/// A turn can be planned: when there is no target, every own hero stands
/// on the map.
pub open spec fn turn_plannable(pre: ClientView, heroes: Seq<Hero>) -> bool {
    let mine = own_heroes(heroes, pre.my_player_id);
    pre.my_player_id != -1 && mine.len() > 0 && none_in_range(
        sighted(pre.enemies, heroes, pre.my_player_id),
        hero_at(mine[0]),
    ) ==> forall|i: int| 0 <= i < mine.len() ==> #[trigger] walk_ready(pre, mine[i])
}

/// Records the enemies among `heroes` and returns the positions in
/// `heroes` of those of player `id`.
fn record_sightings(enemies: &mut HashMap<i32, (i32, i32)>, heroes: &Vec<Hero>, id: i32) -> (mine: Vec<usize>)
    ensures
        final(enemies)@ == sighted(old(enemies)@, heroes@, id),
        mine@.map_values(|k: usize| heroes@[k as int]) == own_heroes(heroes@, id),
        forall|q: int| 0 <= q < mine@.len() ==> #[trigger] mine@[q] < heroes@.len(),
{
    let ghost hs = heroes@;
    let ghost start = enemies@;
    let mut mine: Vec<usize> = Vec::new();
    let mut i: usize = 0;
    while i < heroes.len()
        invariant
            hs == heroes@,
            i <= hs.len(),
            enemies@ == sighted(start, hs.take(i as int), id),
            forall|j: int| 0 <= j < mine@.len() ==> #[trigger] mine@[j] < i,
            mine@.map_values(|k: usize| hs[k as int]) == own_heroes(hs.take(i as int), id),
        decreases hs.len() - i,
    {
        let h = &heroes[i];
        assert(hs.take(i as int + 1).drop_last() =~= hs.take(i as int));
        assert(hs.take(i as int + 1).last() == hs[i as int]);
        if h.owner_id == id {
            mine.push(i);
            assert(mine@.map_values(|k: usize| hs[k as int]) =~= own_heroes(hs.take(i as int), id).push(
                hs[i as int],
            ));
        } else {
            enemies.insert(h.id, (h.x, h.y));
        }
        i += 1;
    }
    assert(hs.take(hs.len() as int) =~= hs);
    mine
}

fn half_of(v: i32) -> (h: i32)
    ensures
        h == half(v as int),
{
    v / 2
}

/// The wall cells of a map, in order.
pub open spec fn wall_positions(walls: Seq<crate::protocol::Wall>) -> Seq<(i32, i32)> {
    walls.map_values(|w: crate::protocol::Wall| (w.x, w.y))
}

/// Whether a typed game mode asks for a ranked challenge rather than a
/// practice game: its first letter is `c` in either case.
pub fn wants_challenge(mode: &str) -> (r: bool)
    ensures
        r == (mode@.len() > 0 && (mode@[0] == 'c' || mode@[0] == 'C')),
{
    if mode.unicode_len() == 0 {
        return false;
    }
    let first = mode.get_char(0);
    first == 'c' || first == 'C'
}

/// The seat asked for in a practice game: `0` for the top, `1` for the
/// bottom, anything else for either.
pub fn practice_seat(choice: &str) -> (r: Option<i32>)
    ensures
        r == (if choice@ == seq!['0'] {
            Some(0i32)
        } else if choice@ == seq!['1'] {
            Some(1i32)
        } else {
            None
        }),
{
    if choice.unicode_len() != 1 {
        return None;
    }
    let c = choice.get_char(0);
    if c == '0' {
        assert(choice@ =~= seq!['0']);
        Some(0)
    } else if c == '1' {
        assert(choice@ =~= seq!['1']);
        Some(1)
    } else {
        None
    }
}

/// How a turn starts: where the own heroes stand in the turn's hero list,
/// and the target of the turn.
pub struct TurnStart {
    pub mine: Vec<usize>,
    pub target: Option<(i32, i32)>,
}

/// What the client does on a message from the server.
#[derive(Clone, Copy, Debug, PartialEq, Eq, Structural)]
pub enum Reaction {
    /// Log in with the protocol version and the player's name.
    Login,
    /// Stop: the server must not send this message.
    Refuse,
    /// Ask the user for a game mode and request that game.
    ChooseGame,
    /// Take in the new match.
    StartMatch,
    /// Plan the turn and send its orders.
    PlayTurn,
    /// Report the end of the match and stop.
    EndSession,
    /// Report the error; stop when it is fatal or unreadable.
    ReportError,
    /// Nothing to do.
    Ignore,
}

/// The reaction to each kind of message.
pub open spec fn reaction_spec(cmd: Command) -> Reaction {
    match cmd {
        Command::Hello => Reaction::Login,
        Command::Login => Reaction::Refuse,
        Command::Ready => Reaction::ChooseGame,
        Command::StartMatch => Reaction::StartMatch,
        Command::StartTurn => Reaction::PlayTurn,
        Command::EndMatch => Reaction::EndSession,
        Command::Error => Reaction::ReportError,
        _ => Reaction::Ignore,
    }
}

/// What the client does on a message of kind `cmd`; see `reaction_spec`.
pub fn reaction_to(cmd: Command) -> (r: Reaction)
    ensures
        r == reaction_spec(cmd),
        (r == Reaction::Login) == (cmd == Command::Hello),
        (r == Reaction::Refuse) == (cmd == Command::Login),
        (r == Reaction::ChooseGame) == (cmd == Command::Ready),
        (r == Reaction::StartMatch) == (cmd == Command::StartMatch),
        (r == Reaction::PlayTurn) == (cmd == Command::StartTurn),
        (r == Reaction::EndSession) == (cmd == Command::EndMatch),
        (r == Reaction::ReportError) == (cmd == Command::Error),
{
    match cmd {
        Command::Hello => Reaction::Login,
        Command::Login => Reaction::Refuse,
        Command::Ready => Reaction::ChooseGame,
        Command::StartMatch => Reaction::StartMatch,
        Command::StartTurn => Reaction::PlayTurn,
        Command::EndMatch => Reaction::EndSession,
        Command::Error => Reaction::ReportError,
        _ => Reaction::Ignore,
    }
}

/// Whether an error message ends the session: when it is fatal, or when
/// its arguments could not be read (`None`).
pub fn error_ends_session(err: Option<&ErrorArgs>) -> (r: bool)
    ensures
        r == match err {
            Some(e) => e.fatal,
            None => true,
        },
{
    match err {
        Some(e) => e.fatal,
        None => true,
    }
}

impl ClientState {
    /// Starts a turn: records the enemies in view and picks the target, the
    /// known enemy nearest to the first own hero. Before a match nothing
    /// happens.
    pub fn begin_turn(&mut self, args: &StartTurnArgs) -> (start: TurnStart)
        ensures
            forall|q: int| 0 <= q < start.mine@.len() ==> #[trigger] start.mine@[q] < args.state.heroes@.len(),
            old(self)@.my_player_id == -1 ==> final(self)@ == old(self)@ && start.mine@.len() == 0
                && start.target is None,
            old(self)@.my_player_id != -1 ==> {
                let own = own_heroes(args.state.heroes@, old(self)@.my_player_id);
                &&& final(self)@ == after_sightings(old(self)@, args.state.heroes@)
                &&& start.mine@.map_values(|k: usize| args.state.heroes@[k as int]) == own
                &&& primary_target_ok(final(self)@.enemies, own, start.target)
            },
    {
        if self.my_player_id == -1 {
            return TurnStart { mine: Vec::new(), target: None };
        }
        let ghost pre = self@;
        let heroes = &args.state.heroes;
        let ghost hs = heroes@;
        let ghost id = self.my_player_id;
        let mine = record_sightings(&mut self.last_known_enemies, heroes, self.my_player_id);
        let ghost own = own_heroes(hs, id);
        assert(self@ == after_sightings(pre, hs));
        let target = if mine.len() > 0 {
            let first = &heroes[mine[0]];
            assert(own[0] == hs[mine@[0] as int]);
            choose_target(&self.last_known_enemies, (first.x, first.y))
        } else {
            None
        };
        TurnStart { mine, target }
    }

    /// Whether `hero` stands where a walk towards the centre can start; see
    /// `walk_ready`.
    pub fn can_walk(&self, hero: &Hero) -> (r: bool)
        ensures
            r == walk_ready(self@, *hero),
    {
        let w = self.map_width as i64;
        let h = self.map_height as i64;
        assert(-0x4000_0000_0000_0000 <= w * h <= 0x4000_0000_0000_0000) by (nonlinear_arith)
            requires -0x8000_0000 <= w <= 0x7fff_ffff, -0x8000_0000 <= h <= 0x7fff_ffff;
        assert(-0x4000_0000_0000_0000 <= hero.y as i64 * w <= 0x4000_0000_0000_0000) by (nonlinear_arith)
            requires -0x8000_0000 <= w <= 0x7fff_ffff, -0x8000_0000 <= hero.y <= 0x7fff_ffff;
        let idx: i64 = hero.y as i64 * w + hero.x as i64;
        w * h <= 0x7fff_ffff && 0 <= idx && idx < w * h
    }

    /// The state before any match: no player, an empty map, nothing known.
    pub fn new() -> (s: Self)
        ensures
            s@.my_player_id == -1,
            s@.map_width == 0,
            s@.map_height == 0,
            s@.walls.len() == 0,
            s@.enemies == Map::<i32, (i32, i32)>::empty(),
            s@.history_1 == Map::<i32, (i32, i32)>::empty(),
            s@.history_2 == Map::<i32, (i32, i32)>::empty(),
    {
        ClientState {
            my_player_id: -1,
            map_width: 0,
            map_height: 0,
            walls_cache: Vec::new(),
            last_known_enemies: HashMap::new(),
            hero_history_1: HashMap::new(),
            hero_history_2: HashMap::new(),
        }
    }

    /// Takes in a new match: who we are, the size of the map and its walls;
    /// what is known of enemies and of past moves is kept.
    pub fn start_match(&mut self, args: &StartMatchArgs)
        ensures
            final(self)@ == (ClientView {
                my_player_id: args.your_player_id,
                map_width: args.config.width,
                map_height: args.config.height,
                walls: wall_positions(args.state.walls@),
                ..old(self)@
            }),
            final(self)@.walls.len() == args.state.walls@.len(),
            forall|j: int|
                0 <= j < args.state.walls@.len() ==> #[trigger] final(self)@.walls[j] == (
                    args.state.walls@[j].x,
                    args.state.walls@[j].y,
                ),
    {
        let ghost pre = self@;
        self.my_player_id = args.your_player_id;
        self.map_width = args.config.width;
        self.map_height = args.config.height;
        self.walls_cache.clear();
        let walls = &args.state.walls;
        let mut i: usize = 0;
        while i < walls.len()
            invariant
                i <= walls@.len(),
                self.walls_cache@ == wall_positions(walls@).take(i as int),
                self.my_player_id == args.your_player_id,
                self.map_width == args.config.width,
                self.map_height == args.config.height,
                self.last_known_enemies@ == pre.enemies,
                self.hero_history_1@ == pre.history_1,
                self.hero_history_2@ == pre.history_2,
            decreases walls@.len() - i,
        {
            self.walls_cache.push((walls[i].x, walls[i].y));
            i += 1;
            assert(self.walls_cache@ =~= wall_positions(walls@).take(i as int));
        }
        assert(wall_positions(walls@).take(walls@.len() as int) =~= wall_positions(walls@));
    }

    /// Whether `plan_turn` can take this turn; see `turn_plannable`.
    pub fn can_plan_turn(&self, args: &StartTurnArgs) -> (r: bool)
        ensures
            r == turn_plannable(self@, args.state.heroes@),
    {
        if self.my_player_id == -1 {
            return true;
        }
        let heroes = &args.state.heroes;
        let mut enemies = self.last_known_enemies.clone();
        let mine = record_sightings(&mut enemies, heroes, self.my_player_id);
        let ghost own = own_heroes(heroes@, self.my_player_id);
        if mine.len() == 0 {
            return true;
        }
        let first = &heroes[mine[0]];
        assert(own[0] == heroes@[mine@[0] as int]);
        if choose_target(&enemies, (first.x, first.y)).is_some() {
            return true;
        }
        let w = self.map_width as i64;
        let h = self.map_height as i64;
        assert(-0x4000_0000_0000_0000 <= w * h <= 0x4000_0000_0000_0000) by (nonlinear_arith)
            requires -0x8000_0000 <= w <= 0x7fff_ffff, -0x8000_0000 <= h <= 0x7fff_ffff;
        if w * h > 0x7fff_ffff {
            assert(!walk_ready(self@, own[0]));
            return false;
        }
        let mut j: usize = 0;
        while j < mine.len()
            invariant
                heroes@ == args.state.heroes@,
                own == own_heroes(heroes@, self.my_player_id),
                mine@.map_values(|k: usize| heroes@[k as int]) == own,
                forall|q: int| 0 <= q < mine@.len() ==> #[trigger] mine@[q] < heroes@.len(),
                w == self.map_width,
                h == self.map_height,
                w * h <= i32::MAX,
                -0x4000_0000_0000_0000 <= w * h,
                self.my_player_id != -1,
                own.len() > 0,
                none_in_range(sighted(self@.enemies, heroes@, self.my_player_id), hero_at(own[0])),
                j <= mine@.len(),
                forall|q: int| 0 <= q < j ==> #[trigger] walk_ready(self@, own[q]),
            decreases mine@.len() - j,
        {
            let hero = &heroes[mine[j]];
            assert(own[j as int] == *hero);
            assert(-0x4000_0000_0000_0000 <= hero.y as i64 * w <= 0x4000_0000_0000_0000) by (nonlinear_arith)
                requires -0x8000_0000 <= w <= 0x7fff_ffff, -0x8000_0000 <= hero.y <= 0x7fff_ffff;
            let idx: i64 = hero.y as i64 * w + hero.x as i64;
            if idx < 0 || idx >= w * h {
                assert(!walk_ready(self@, own[j as int]));
                return false;
            }
            j += 1;
        }
        true
    }

    /// Decides what `hero` does this turn; see `hero_step`.
    pub fn decide(&mut self, hero: &Hero, target: Option<(i32, i32)>, claimed: &mut Vec<(i32, i32)>) -> (out: Option<HeroOrder>)
        requires
            target is None ==> walk_ready(old(self)@, *hero),
        ensures
            hero_step(old(self)@, old(claimed)@, *hero, target, final(self)@, final(claimed)@, out),
    {
        match target {
            Some(t) => {
                if hero.cooldown == 0 && line_is_clear(&self.walls_cache, (hero.x, hero.y), t) {
                    return Some(HeroOrder::Shoot { hero_id: hero.id, x: t.0, y: t.1 });
                }
                let best = self.best_move(hero, t, claimed);
                match best {
                    Some(bm) => {
                        match self.hero_history_1.get(&hero.id) {
                            Some(old_move) => {
                                let om = *old_move;
                                self.hero_history_2.insert(hero.id, om);
                            },
                            None => {},
                        }
                        self.hero_history_1.insert(hero.id, bm);
                        claimed.push(bm);
                        Some(HeroOrder::Move { hero_id: hero.id, x: bm.0, y: bm.1 })
                    },
                    None => None,
                }
            },
            None => {
                let cx = half_of(self.map_width);
                let cy = half_of(self.map_height);
                let step = bfs_next_step(hero.x, hero.y, cx, cy, self.map_width, self.map_height, &self.walls_cache);
                match step {
                    Some(nxt) => {
                        claimed.push(nxt);
                        Some(HeroOrder::Move { hero_id: hero.id, x: nxt.0, y: nxt.1 })
                    },
                    None => None,
                }
            },
        }
    }

    /// Plans a turn: records the enemies in view, picks the target and
    /// decides for each own hero in order; see `planned_turn`.
    pub fn plan_turn(&mut self, args: &StartTurnArgs) -> (orders: Vec<HeroOrder>)
        requires
            turn_plannable(old(self)@, args.state.heroes@),
        ensures
            planned_turn(old(self)@, args.state.heroes@, final(self)@, orders@),
    {
        let ghost pre = self@;
        let mut orders: Vec<HeroOrder> = Vec::new();
        if self.my_player_id == -1 {
            return orders;
        }
        let heroes = &args.state.heroes;
        let ghost hs = heroes@;
        let ghost id = self.my_player_id;
        let start = self.begin_turn(args);
        let mine = start.mine;
        let target = start.target;
        let ghost own = own_heroes(hs, id);
        let ghost v0 = self@;
        let mut claimed: Vec<(i32, i32)> = Vec::new();
        let ghost mut views: Seq<ClientView> = seq![v0];
        let ghost mut claims: Seq<Seq<(i32, i32)>> = seq![claimed@];
        let ghost mut outs: Seq<Option<HeroOrder>> = Seq::empty();
        let mut j: usize = 0;
        while j < mine.len()
            invariant
                pre == old(self)@,
                hs == heroes@,
                id == pre.my_player_id,
                own == own_heroes(hs, id),
                mine@.map_values(|k: usize| hs[k as int]) == own,
                forall|q: int| 0 <= q < mine@.len() ==> #[trigger] mine@[q] < hs.len(),
                turn_plannable(pre, hs),
                pre.my_player_id != -1,
                v0 == after_sightings(pre, hs),
                primary_target_ok(v0.enemies, own, target),
                j <= mine@.len(),
                outs.len() == j,
                turn_trace(v0, own, target, views, claims, outs),
                self@ == views.last(),
                claimed@ == claims.last(),
                orders@ == orders_of(outs),
                self@.map_width == pre.map_width,
                self@.map_height == pre.map_height,
            decreases mine@.len() - j,
        {
            let hero = &heroes[mine[j]];
            assert(own[j as int] == *hero);
            proof {
                if target is None {
                    assert(own.len() > 0);
                    assert(none_in_range(v0.enemies, hero_at(own[0])));
                    assert(walk_ready(pre, own[j as int]));
                }
            }
            let ghost view_before = self@;
            let ghost claimed_before = claimed@;
            let out = self.decide(hero, target, &mut claimed);
            match out {
                Some(o) => orders.push(o),
                None => {},
            }
            proof {
                let views2 = views.push(self@);
                let claims2 = claims.push(claimed@);
                let outs2 = outs.push(out);
                assert(outs2.drop_last() =~= outs);
                assert forall|q: int| 0 <= q < outs2.len() implies #[trigger] hero_step(
                    views2[q],
                    claims2[q],
                    own[q],
                    target,
                    views2[q + 1],
                    claims2[q + 1],
                    outs2[q],
                ) by {
                    if q < outs.len() {
                        assert(hero_step(views[q], claims[q], own[q], target, views[q + 1], claims[q + 1], outs[q]));
                    }
                }
                views = views2;
                claims = claims2;
                outs = outs2;
            }
            j += 1;
        }
        assert(turn_trace(v0, own, target, views, claims, outs));
        orders
    }

    /// The score of moving `hero` to the cell `c`, see `move_score`.
    fn score_of(&self, hero: &Hero, target: (i32, i32), c: (i64, i64)) -> (s: i64)
        requires
            inside_play(self@, (c.0 as int, c.1 as int)),
        ensures
            s == move_score(self@, *hero, cell_at(target), (c.0 as int, c.1 as int)),
    {
        let ghost cc = (c.0 as int, c.1 as int);
        let dx: i64 = if c.0 <= target.0 as i64 { target.0 as i64 - c.0 } else { c.0 - target.0 as i64 };
        let dy: i64 = if c.1 <= target.1 as i64 { target.1 as i64 - c.1 } else { c.1 - target.1 as i64 };
        let dist: i64 = if dx >= dy { dx } else { dy };
        assert(dist == cheb(cc, cell_at(target)));
        let ideal: i64 = if hero.cooldown == 0 { 8 } else { 12 };
        let base: i64 = if dist >= ideal { ideal - dist } else { dist - ideal };
        let gap = edge_gap_of(self.map_width, self.map_height, c);
        let edge: i64 = if gap < 12 { (12 - gap) * 80 } else { 0 };
        let p1 = repeat_penalty_of(&self.hero_history_1, hero.id, c, 50);
        let p2 = repeat_penalty_of(&self.hero_history_2, hero.id, c, 30);
        base - edge - p1 - p2
    }

    /// The first allowed move of highest score, see `is_best_move`.
    pub fn best_move(&self, hero: &Hero, target: (i32, i32), claimed: &Vec<(i32, i32)>) -> (m: Option<(i32, i32)>)
        ensures
            is_best_move(self@, claimed@, *hero, cell_at(target), cell_opt(m)),
    {
        let offsets: Vec<(i64, i64)> = vec![(0, 3), (3, 3), (-3, 3), (3, 0), (-3, 0), (3, -3), (-3, -3), (0, -3)];
        let ghost opts = move_options(hero_at(*hero));
        let ghost t = cell_at(target);
        assert(offsets@.map_values(|d: (i64, i64)| (d.0 as int, d.1 as int)) =~= option_offsets());
        let mut best: Option<(i32, i32)> = None;
        let mut best_score: i64 = -0x8000_0000;
        let ghost mut best_k: int = -1;
        let mut k: usize = 0;
        while k < 8
            invariant
                offsets@.len() == 8,
                offsets@.map_values(|d: (i64, i64)| (d.0 as int, d.1 as int)) == option_offsets(),
                opts == move_options(hero_at(*hero)),
                t == cell_at(target),
                k <= 8,
                best is None ==> best_score == i32::MIN && forall|j: int|
                    0 <= j < k && move_allowed(self@, claimed@, *hero, #[trigger] opts[j]) ==> move_score(
                        self@,
                        *hero,
                        t,
                        opts[j],
                    ) <= i32::MIN,
                best matches Some(b) ==> {
                    &&& 0 <= best_k < k
                    &&& opts[best_k] == cell_at(b)
                    &&& move_allowed(self@, claimed@, *hero, cell_at(b))
                    &&& best_score == move_score(self@, *hero, t, cell_at(b))
                    &&& best_score > i32::MIN
                    &&& forall|j: int|
                        0 <= j < k && move_allowed(self@, claimed@, *hero, #[trigger] opts[j]) ==> move_score(
                            self@,
                            *hero,
                            t,
                            opts[j],
                        ) <= best_score
                    &&& forall|j: int|
                        0 <= j < best_k && move_allowed(self@, claimed@, *hero, #[trigger] opts[j]) ==> move_score(
                            self@,
                            *hero,
                            t,
                            opts[j],
                        ) < best_score
                },
            decreases 8 - k,
        {
            let d = offsets[k];
            assert(option_offsets()[k as int] == (d.0 as int, d.1 as int));
            let nx: i64 = hero.x as i64 + d.0;
            let ny: i64 = hero.y as i64 + d.1;
            let ghost c = (nx as int, ny as int);
            assert(opts[k as int] == c);
            let inside = nx >= 1 && nx < self.map_width as i64 - 1 && ny >= 1 && ny < self.map_height as i64 - 1;
            if inside {
                let cell: (i32, i32) = (nx as i32, ny as i32);
                assert(cell_at(cell) == c);
                if !is_listed(claimed, cell) {
                    if line_is_clear(&self.walls_cache, (hero.x, hero.y), cell) {
                        let score = self.score_of(hero, target, (nx, ny));
                        if score > best_score {
                            best_score = score;
                            best = Some(cell);
                            proof {
                                best_k = k as int;
                            }
                        }
                    }
                }
            }
            k += 1;
        }
        proof {
            if let Some(b) = best {
                assert(opts[best_k] == cell_at(b));
            }
        }
        best
    }
}

} // verus!

verus! {

/// The cells that the move orders send heroes to, in order.
pub open spec fn move_cells(orders: Seq<HeroOrder>) -> Seq<(i32, i32)>
    decreases orders.len(),
{
    if orders.len() == 0 {
        Seq::empty()
    } else {
        let rest = move_cells(orders.drop_last());
        match orders.last() {
            HeroOrder::Move { hero_id, x, y } => rest.push((x, y)),
            HeroOrder::Shoot { .. } => rest,
        }
    }
}

/// The hero an order is for.
pub open spec fn order_hero(o: HeroOrder) -> i32 {
    match o {
        HeroOrder::Shoot { hero_id, .. } => hero_id,
        HeroOrder::Move { hero_id, .. } => hero_id,
    }
}

proof fn lemma_trace_prefix(
    v0: ClientView,
    mine: Seq<Hero>,
    t: Option<(i32, i32)>,
    views: Seq<ClientView>,
    claims: Seq<Seq<(i32, i32)>>,
    outs: Seq<Option<HeroOrder>>,
    n: int,
)
    requires
        turn_trace(v0, mine, t, views, claims, outs),
        0 <= n <= outs.len(),
    ensures
        orders_of(outs.take(n)).len() <= n,
        forall|k: int|
            #![trigger orders_of(outs.take(n))[k]]
            0 <= k < orders_of(outs.take(n)).len() ==> exists|i: int|
                0 <= i < n && #[trigger] outs[i] == Some(orders_of(outs.take(n))[k]) && order_hero(
                    orders_of(outs.take(n))[k],
                ) == mine[i].id,
        t is Some ==> move_cells(orders_of(outs.take(n))) == claims[n] && claims[n].no_duplicates(),
        views[n].enemies == v0.enemies,
        views[n].my_player_id == v0.my_player_id,
        views[n].map_width == v0.map_width,
        views[n].map_height == v0.map_height,
        views[n].walls == v0.walls,
    decreases n,
{
    if n > 0 {
        lemma_trace_prefix(v0, mine, t, views, claims, outs, n - 1);
        let i = n - 1;
        assert(outs.take(n).drop_last() =~= outs.take(n - 1));
        assert(outs.take(n).last() == outs[i]);
        assert(hero_step(views[i], claims[i], mine[i], t, views[i + 1], claims[i + 1], outs[i]));
        let prev = orders_of(outs.take(n - 1));
        let cur = orders_of(outs.take(n));
        match outs[i] {
            Some(o) => {
                assert(cur == prev.push(o));
                assert forall|k: int| #![trigger cur[k]] 0 <= k < cur.len() implies exists|j: int|
                    0 <= j < n && #[trigger] outs[j] == Some(cur[k]) && order_hero(cur[k]) == mine[j].id by {
                    if k < prev.len() {
                        assert(cur[k] == prev[k]);
                    } else {
                        assert(outs[i] == Some(cur[k]));
                    }
                }
                if t is Some {
                    assert(cur.drop_last() =~= prev);
                    match o {
                        HeroOrder::Move { hero_id, x, y } => {
                            let c = cell_at((x, y));
                            assert(!listed(claims[i], c));
                            assert forall|a: int| 0 <= a < claims[i].len() implies #[trigger] claims[i][a] != (x, y) by {
                                if claims[i][a] == (x, y) {
                                    assert(cell_at(claims[i][a]) == c);
                                }
                            }
                        },
                        HeroOrder::Shoot { .. } => {},
                    }
                }
            },
            None => {
                assert(cur == prev);
            },
        }
    }
}

/// The hero `id` is one of `mine`.
pub open spec fn has_hero(mine: Seq<Hero>, id: i32) -> bool {
    exists|i: int| 0 <= i < mine.len() && #[trigger] mine[i].id == id
}

/// Law: a turn issues at most one order per own hero, and only for own heroes.
pub proof fn lemma_turn_orders_per_hero(pre: ClientView, heroes: Seq<Hero>, post: ClientView, orders: Seq<HeroOrder>)
    requires
        planned_turn(pre, heroes, post, orders),
    ensures
        orders.len() <= own_heroes(heroes, pre.my_player_id).len(),
        forall|k: int|
            0 <= k < orders.len() ==> #[trigger] has_hero(own_heroes(heroes, pre.my_player_id), order_hero(orders[k])),
{
    if pre.my_player_id != -1 {
        let v0 = after_sightings(pre, heroes);
        let mine = own_heroes(heroes, pre.my_player_id);
        let (t, views, claims, outs) = choose|
            t: Option<(i32, i32)>,
            views: Seq<ClientView>,
            claims: Seq<Seq<(i32, i32)>>,
            outs: Seq<Option<HeroOrder>>,
        |
            #[trigger] turn_trace(v0, mine, t, views, claims, outs) && primary_target_ok(v0.enemies, mine, t)
                && outs.len() == mine.len() && post == views.last() && orders == orders_of(outs);
        lemma_trace_prefix(v0, mine, t, views, claims, outs, outs.len() as int);
        assert(outs.take(outs.len() as int) =~= outs);
        let all = orders_of(outs.take(outs.len() as int));
        assert(all == orders);
        assert forall|k: int| 0 <= k < orders.len() implies #[trigger] has_hero(mine, order_hero(orders[k])) by {
            assert(all[k] == orders[k]);
            let i = choose|i: int| 0 <= i < outs.len() && #[trigger] outs[i] == Some(all[k]) && order_hero(all[k]) == mine[i].id;
            assert(mine[i].id == order_hero(orders[k]));
        }
    }
}

/// Law: while a target is in range, no two heroes are sent to the same cell
/// in one turn.
pub proof fn lemma_targeted_moves_distinct(pre: ClientView, heroes: Seq<Hero>, post: ClientView, orders: Seq<HeroOrder>)
    requires
        planned_turn(pre, heroes, post, orders),
        pre.my_player_id != -1,
        own_heroes(heroes, pre.my_player_id).len() > 0,
        !none_in_range(
            sighted(pre.enemies, heroes, pre.my_player_id),
            hero_at(own_heroes(heroes, pre.my_player_id)[0]),
        ),
    ensures
        move_cells(orders).no_duplicates(),
{
    let v0 = after_sightings(pre, heroes);
    let mine = own_heroes(heroes, pre.my_player_id);
    let (t, views, claims, outs) = choose|
        t: Option<(i32, i32)>,
        views: Seq<ClientView>,
        claims: Seq<Seq<(i32, i32)>>,
        outs: Seq<Option<HeroOrder>>,
    |
        #[trigger] turn_trace(v0, mine, t, views, claims, outs) && primary_target_ok(v0.enemies, mine, t)
            && outs.len() == mine.len() && post == views.last() && orders == orders_of(outs);
    assert(t is Some);
    lemma_trace_prefix(v0, mine, t, views, claims, outs, outs.len() as int);
    assert(outs.take(outs.len() as int) =~= outs);
}

/// Law: `sighted` keeps every enemy it already knew.
pub proof fn lemma_sighted_keeps(enemies: Map<i32, (i32, i32)>, heroes: Seq<Hero>, id: i32)
    ensures
        enemies.dom().subset_of(sighted(enemies, heroes, id).dom()),
    decreases heroes.len(),
{
    if heroes.len() > 0 {
        lemma_sighted_keeps(enemies, heroes.drop_last(), id);
    }
}

/// Law: a turn forgets no known enemy, and keeps the player, the map and
/// its walls.
pub proof fn lemma_turn_keeps_knowledge(pre: ClientView, heroes: Seq<Hero>, post: ClientView, orders: Seq<HeroOrder>)
    requires
        planned_turn(pre, heroes, post, orders),
    ensures
        pre.enemies.dom().subset_of(post.enemies.dom()),
        post.my_player_id == pre.my_player_id,
        post.map_width == pre.map_width,
        post.map_height == pre.map_height,
        post.walls == pre.walls,
{
    if pre.my_player_id != -1 {
        let v0 = after_sightings(pre, heroes);
        let mine = own_heroes(heroes, pre.my_player_id);
        let (t, views, claims, outs) = choose|
            t: Option<(i32, i32)>,
            views: Seq<ClientView>,
            claims: Seq<Seq<(i32, i32)>>,
            outs: Seq<Option<HeroOrder>>,
        |
            #[trigger] turn_trace(v0, mine, t, views, claims, outs) && primary_target_ok(v0.enemies, mine, t)
                && outs.len() == mine.len() && post == views.last() && orders == orders_of(outs);
        lemma_trace_prefix(v0, mine, t, views, claims, outs, outs.len() as int);
        lemma_sighted_keeps(pre.enemies, heroes, pre.my_player_id);
    }
}

/// Law: the distance used to pick targets and score moves is the larger of
/// the two axis distances.
pub proof fn lemma_cheb_is_larger_axis_distance(a: (int, int), b: (int, int))
    ensures
        ({
            let dx = if a.0 <= b.0 { b.0 - a.0 } else { a.0 - b.0 };
            let dy = if a.1 <= b.1 { b.1 - a.1 } else { a.1 - b.1 };
            &&& cheb(a, b) >= dx
            &&& cheb(a, b) >= dy
            &&& (cheb(a, b) == dx || cheb(a, b) == dy)
        }),
{
}

/// Law: the target chosen is a known enemy position, and no known enemy lies
/// nearer to `from`, distances being the larger of the two axis distances.
pub proof fn lemma_target_is_nearest(enemies: Map<i32, (i32, i32)>, from: (int, int), p: (i32, i32))
    requires
        nearest_enemy(enemies, from, Some(p)),
    ensures
        exists|k: i32| #[trigger] enemies.contains_key(k) && enemies[k] == p,
        forall|k: i32| #[trigger] enemies.contains_key(k) ==> {
            let e = enemies[k];
            let dpx = if from.0 <= p.0 { p.0 - from.0 } else { from.0 - p.0 };
            let dpy = if from.1 <= p.1 { p.1 - from.1 } else { from.1 - p.1 };
            let dex = if from.0 <= e.0 { e.0 - from.0 } else { from.0 - e.0 };
            let dey = if from.1 <= e.1 { e.1 - from.1 } else { from.1 - e.1 };
            (if dpx >= dpy { dpx } else { dpy }) <= (if dex >= dey { dex } else { dey })
        },
{
    assert forall|k: i32| #[trigger] enemies.contains_key(k) implies {
        let e = enemies[k];
        let dpx = if from.0 <= p.0 { p.0 - from.0 } else { from.0 - p.0 };
        let dpy = if from.1 <= p.1 { p.1 - from.1 } else { from.1 - p.1 };
        let dex = if from.0 <= e.0 { e.0 - from.0 } else { from.0 - e.0 };
        let dey = if from.1 <= e.1 { e.1 - from.1 } else { from.1 - e.1 };
        (if dpx >= dpy { dpx } else { dpy }) <= (if dex >= dey { dex } else { dey })
    } by {
        lemma_cheb_is_larger_axis_distance(from, cell_at(p));
        lemma_cheb_is_larger_axis_distance(from, cell_at(enemies[k]));
        assert(cheb(from, cell_at(p)) <= cheb(from, cell_at(enemies[k])));
    }
}

/// Law: of two cells equally far from the borders, for a hero with no move
/// history, the score differs by how much nearer the cell's distance to the
/// target (the larger axis distance) is to the hero's ideal range: 8 when
/// it is ready to shoot, 12 otherwise.
pub proof fn lemma_score_follows_range(v: ClientView, hero: Hero, target: (int, int), c1: (int, int), c2: (int, int))
    requires
        edge_gap(v, c1) == edge_gap(v, c2),
        !v.history_1.contains_key(hero.id),
        !v.history_2.contains_key(hero.id),
    ensures
        ({
            let r = if hero.cooldown == 0 { 8int } else { 12int };
            let d1x = if c1.0 <= target.0 { target.0 - c1.0 } else { c1.0 - target.0 };
            let d1y = if c1.1 <= target.1 { target.1 - c1.1 } else { c1.1 - target.1 };
            let d2x = if c2.0 <= target.0 { target.0 - c2.0 } else { c2.0 - target.0 };
            let d2y = if c2.1 <= target.1 { target.1 - c2.1 } else { c2.1 - target.1 };
            let d1 = if d1x >= d1y { d1x } else { d1y };
            let d2 = if d2x >= d2y { d2x } else { d2y };
            let off1 = if d1 >= r { d1 - r } else { r - d1 };
            let off2 = if d2 >= r { d2 - r } else { r - d2 };
            move_score(v, hero, target, c1) - move_score(v, hero, target, c2) == off2 - off1
        }),
{
    lemma_cheb_is_larger_axis_distance(c1, target);
    lemma_cheb_is_larger_axis_distance(c2, target);
}

/// Law: with no target, a hero's step is planned towards the centre of the
/// map, the cell at half its width and half its height (rounded towards
/// zero), and the hero gets a move order for that step, or no order when
/// there is none.
pub proof fn lemma_walk_towards_centre(
    pre: ClientView,
    claimed: Seq<(i32, i32)>,
    hero: Hero,
    post: ClientView,
    post_claimed: Seq<(i32, i32)>,
    out: Option<HeroOrder>,
)
    requires
        hero_step(pre, claimed, hero, None, post, post_claimed, out),
    ensures
        ({
            let w = pre.map_width as int;
            let h = pre.map_height as int;
            let cx = if w >= 0 { w / 2 } else { -((-w) / 2) };
            let cy = if h >= 0 { h / 2 } else { -((-h) / 2) };
            &&& next_step_ok(w, h, pre.walls, hero_at(hero), (cx, cy), moved_cell(out))
            &&& out is None || (out matches Some(HeroOrder::Move { hero_id, .. }) && hero_id == hero.id)
        }),
{
}

/// Law: after the sightings of a turn, an enemy hero in view is known at the
/// position of its last sighting in the list, whatever was known before.
pub proof fn lemma_sighted_latest(enemies: Map<i32, (i32, i32)>, heroes: Seq<Hero>, id: i32, k: int)
    requires
        0 <= k < heroes.len(),
        heroes[k].owner_id != id,
        forall|j: int| k < j < heroes.len() && heroes[j].owner_id != id ==> heroes[j].id != heroes[k].id,
    ensures
        sighted(enemies, heroes, id).contains_key(heroes[k].id),
        sighted(enemies, heroes, id)[heroes[k].id] == (heroes[k].x, heroes[k].y),
    decreases heroes.len(),
{
    if k < heroes.len() - 1 {
        let rest = heroes.drop_last();
        assert(rest[k] == heroes[k]);
        assert forall|j: int| k < j < rest.len() && rest[j].owner_id != id implies rest[j].id != rest[k].id by {
            assert(rest[j] == heroes[j]);
        }
        lemma_sighted_latest(enemies, rest, id, k);
    }
}

/// Law: an enemy that is not in view keeps what was known of it, and no
/// enemy is added that was neither known nor seen.
pub proof fn lemma_sighted_unseen(enemies: Map<i32, (i32, i32)>, heroes: Seq<Hero>, id: i32, e: i32)
    requires
        forall|j: int| 0 <= j < heroes.len() && heroes[j].owner_id != id ==> heroes[j].id != e,
    ensures
        sighted(enemies, heroes, id).contains_key(e) == enemies.contains_key(e),
        enemies.contains_key(e) ==> sighted(enemies, heroes, id)[e] == enemies[e],
    decreases heroes.len(),
{
    if heroes.len() > 0 {
        let rest = heroes.drop_last();
        assert forall|j: int| 0 <= j < rest.len() && rest[j].owner_id != id implies rest[j].id != e by {
            assert(rest[j] == heroes[j]);
        }
        lemma_sighted_unseen(enemies, rest, id, e);
        assert(heroes.last() == heroes[heroes.len() - 1]);
    }
}

/// Law: after a planned turn, every enemy hero in view is known at the
/// position of its last sighting in the turn's hero list.
pub proof fn lemma_turn_records_sightings(
    pre: ClientView,
    heroes: Seq<Hero>,
    post: ClientView,
    orders: Seq<HeroOrder>,
    k: int,
)
    requires
        planned_turn(pre, heroes, post, orders),
        pre.my_player_id != -1,
        0 <= k < heroes.len(),
        heroes[k].owner_id != pre.my_player_id,
        forall|j: int| k < j < heroes.len() && heroes[j].owner_id != pre.my_player_id ==> heroes[j].id != heroes[k].id,
    ensures
        post.enemies.contains_key(heroes[k].id),
        post.enemies[heroes[k].id] == (heroes[k].x, heroes[k].y),
{
    let v0 = after_sightings(pre, heroes);
    let mine = own_heroes(heroes, pre.my_player_id);
    let (t, views, claims, outs) = choose|
        t: Option<(i32, i32)>,
        views: Seq<ClientView>,
        claims: Seq<Seq<(i32, i32)>>,
        outs: Seq<Option<HeroOrder>>,
    |
        #[trigger] turn_trace(v0, mine, t, views, claims, outs) && primary_target_ok(v0.enemies, mine, t)
            && outs.len() == mine.len() && post == views.last() && orders == orders_of(outs);
    lemma_trace_prefix(v0, mine, t, views, claims, outs, outs.len() as int);
    lemma_sighted_latest(pre.enemies, heroes, pre.my_player_id, k);
}

/// Law: for a hero with no move history, the scores of two cells differ
/// by how much nearer the first is to the hero's ideal range from the
/// target (8 when ready to shoot, 12 otherwise; distance the larger axis
/// distance), less 80 for each cell it lies nearer the border, counted up
/// to 12 cells from it.
pub proof fn lemma_score_parts(v: ClientView, hero: Hero, target: (int, int), c1: (int, int), c2: (int, int))
    requires
        !v.history_1.contains_key(hero.id),
        !v.history_2.contains_key(hero.id),
    ensures
        ({
            let r = if hero.cooldown == 0 { 8int } else { 12int };
            let w = v.map_width as int;
            let h = v.map_height as int;
            let d1x = if c1.0 <= target.0 { target.0 - c1.0 } else { c1.0 - target.0 };
            let d1y = if c1.1 <= target.1 { target.1 - c1.1 } else { c1.1 - target.1 };
            let d2x = if c2.0 <= target.0 { target.0 - c2.0 } else { c2.0 - target.0 };
            let d2y = if c2.1 <= target.1 { target.1 - c2.1 } else { c2.1 - target.1 };
            let d1 = if d1x >= d1y { d1x } else { d1y };
            let d2 = if d2x >= d2y { d2x } else { d2y };
            let off1 = if d1 >= r { d1 - r } else { r - d1 };
            let off2 = if d2 >= r { d2 - r } else { r - d2 };
            let g1x = if c1.0 <= w - 1 - c1.0 { c1.0 } else { w - 1 - c1.0 };
            let g1y = if c1.1 <= h - 1 - c1.1 { c1.1 } else { h - 1 - c1.1 };
            let g2x = if c2.0 <= w - 1 - c2.0 { c2.0 } else { w - 1 - c2.0 };
            let g2y = if c2.1 <= h - 1 - c2.1 { c2.1 } else { h - 1 - c2.1 };
            let g1 = if g1x <= g1y { g1x } else { g1y };
            let g2 = if g2x <= g2y { g2x } else { g2y };
            let pen1 = if g1 < 12 { (12 - g1) * 80 } else { 0 };
            let pen2 = if g2 < 12 { (12 - g2) * 80 } else { 0 };
            move_score(v, hero, target, c1) - move_score(v, hero, target, c2) == (off2 - off1) + (pen2 - pen1)
        }),
{
    lemma_cheb_is_larger_axis_distance(c1, target);
    lemma_cheb_is_larger_axis_distance(c2, target);
}

/// Law: a cell where the history records the hero scores 50 less when it
/// is its last cell and 30 less when it is the one before, than it would
/// with no history for the hero.
pub proof fn lemma_score_history(v: ClientView, hero: Hero, target: (int, int), c: (int, int))
    ensures
        ({
            let bare = ClientView {
                history_1: v.history_1.remove(hero.id),
                history_2: v.history_2.remove(hero.id),
                ..v
            };
            let last = v.history_1.contains_key(hero.id) && (v.history_1[hero.id].0 as int, v.history_1[hero.id].1 as int) == c;
            let before = v.history_2.contains_key(hero.id) && (v.history_2[hero.id].0 as int, v.history_2[hero.id].1 as int) == c;
            move_score(v, hero, target, c) == move_score(bare, hero, target, c) - (if last { 50int } else { 0int }) - (if before {
                30int
            } else {
                0int
            })
        }),
{
}

/// Law: the cells a hero may move to are exactly the cells three cells away
/// along an axis or a diagonal, considered in this order: down, down-right,
/// down-left, right, left, up-right, up-left, up.
pub proof fn lemma_move_options_exact(h: (int, int), c: (int, int))
    ensures
        ({
            let dx = c.0 - h.0;
            let dy = c.1 - h.1;
            (exists|k: int| 0 <= k < 8 && #[trigger] move_options(h)[k] == c) <==> ((dx == -3 || dx == 0 || dx == 3) && (
            dy == -3 || dy == 0 || dy == 3) && !(dx == 0 && dy == 0))
        }),
        move_options(h) == seq![
            (h.0, h.1 + 3),
            (h.0 + 3, h.1 + 3),
            (h.0 - 3, h.1 + 3),
            (h.0 + 3, h.1),
            (h.0 - 3, h.1),
            (h.0 + 3, h.1 - 3),
            (h.0 - 3, h.1 - 3),
            (h.0, h.1 - 3),
        ],
{
    let opts = move_options(h);
    let dx = c.0 - h.0;
    let dy = c.1 - h.1;
    assert(opts =~= seq![
        (h.0, h.1 + 3),
        (h.0 + 3, h.1 + 3),
        (h.0 - 3, h.1 + 3),
        (h.0 + 3, h.1),
        (h.0 - 3, h.1),
        (h.0 + 3, h.1 - 3),
        (h.0 - 3, h.1 - 3),
        (h.0, h.1 - 3),
    ]);
    if (dx == -3 || dx == 0 || dx == 3) && (dy == -3 || dy == 0 || dy == 3) && !(dx == 0 && dy == 0) {
        let k: int = if dx == 0 && dy == 3 {
            0
        } else if dx == 3 && dy == 3 {
            1
        } else if dx == -3 && dy == 3 {
            2
        } else if dx == 3 && dy == 0 {
            3
        } else if dx == -3 && dy == 0 {
            4
        } else if dx == 3 && dy == -3 {
            5
        } else if dx == -3 && dy == -3 {
            6
        } else {
            7
        };
        assert(opts[k] == c);
    }
}

/// Law: the own heroes of a turn are the heroes of its list that the player
/// owns, in the list's order.
pub proof fn lemma_own_heroes_exact(heroes: Seq<Hero>, id: i32)
    ensures
        own_heroes(heroes, id) == heroes.filter(|h: Hero| h.owner_id == id),
    decreases heroes.len(),
{
    reveal(Seq::filter);
    if heroes.len() > 0 {
        lemma_own_heroes_exact(heroes.drop_last(), id);
    }
}

/// No wall of `walls` lies on the traced line from `a` to `b`, spelled out
/// over every point and every wall.
proof fn lemma_clear_spelled_out(walls: Seq<(i32, i32)>, a: (int, int), b: (int, int))
    ensures
        sight_clear(walls, a, b) <==> forall|i: int, j: int|
            #![trigger walls[j], line_point(a.0, a.1, b.0, b.1, i)]
            0 <= i < line_len(a.0, a.1, b.0, b.1) && 0 <= j < walls.len() ==> (walls[j].0 as int, walls[j].1 as int)
                != line_point(a.0, a.1, b.0, b.1, i),
{
    if sight_clear(walls, a, b) {
        assert forall|i: int, j: int|
            #![trigger walls[j], line_point(a.0, a.1, b.0, b.1, i)]
            0 <= i < line_len(a.0, a.1, b.0, b.1) && 0 <= j < walls.len() implies (walls[j].0 as int, walls[j].1 as int)
                != line_point(a.0, a.1, b.0, b.1, i) by {
            assert(!listed(walls, line_point(a.0, a.1, b.0, b.1, i)));
            assert(cell_at(walls[j]) == (walls[j].0 as int, walls[j].1 as int));
        }
    }
    if forall|i: int, j: int|
        #![trigger walls[j], line_point(a.0, a.1, b.0, b.1, i)]
        0 <= i < line_len(a.0, a.1, b.0, b.1) && 0 <= j < walls.len() ==> (walls[j].0 as int, walls[j].1 as int)
            != line_point(a.0, a.1, b.0, b.1, i) {
        assert forall|i: int| 0 <= i < line_len(a.0, a.1, b.0, b.1) implies !listed(
            walls,
            #[trigger] line_point(a.0, a.1, b.0, b.1, i),
        ) by {
            if listed(walls, line_point(a.0, a.1, b.0, b.1, i)) {
                let j = choose|j: int| 0 <= j < walls.len() && cell_at(#[trigger] walls[j]) == line_point(a.0, a.1, b.0, b.1, i);
                assert((walls[j].0 as int, walls[j].1 as int) != line_point(a.0, a.1, b.0, b.1, i));
            }
        }
    }
}

/// Law: with a target, a hero shoots at it exactly when it is ready
/// (cooldown zero) and no wall lies on the traced line to it.
pub proof fn lemma_targeted_shot(
    pre: ClientView,
    claimed: Seq<(i32, i32)>,
    hero: Hero,
    t: (i32, i32),
    post: ClientView,
    post_claimed: Seq<(i32, i32)>,
    out: Option<HeroOrder>,
)
    requires
        hero_step(pre, claimed, hero, Some(t), post, post_claimed, out),
    ensures
        ({
            let hx = hero.x as int;
            let hy = hero.y as int;
            let tx = t.0 as int;
            let ty = t.1 as int;
            let clear = forall|i: int, j: int|
                #![trigger pre.walls[j], line_point(hx, hy, tx, ty, i)]
                0 <= i < line_len(hx, hy, tx, ty) && 0 <= j < pre.walls.len() ==> (pre.walls[j].0 as int, pre.walls[j].1 as int)
                    != line_point(hx, hy, tx, ty, i);
            &&& (hero.cooldown == 0 && clear ==> out == Some(HeroOrder::Shoot { hero_id: hero.id, x: t.0, y: t.1 }))
            &&& (out is Some && out->0 is Shoot ==> hero.cooldown == 0 && clear && out == Some(
                HeroOrder::Shoot { hero_id: hero.id, x: t.0, y: t.1 },
            ))
        }),
{
    lemma_clear_spelled_out(pre.walls, hero_at(hero), cell_at(t));
}

/// Law: with a target, a hero that moves instead of shooting could not
/// shoot, and moves by one hero move onto a cell at least one cell from
/// every border, not claimed this turn and with no wall on the way; no
/// other such cell scores more; the cell is claimed, and recorded as the
/// hero's last cell, its previous last cell becoming the one before.
pub proof fn lemma_targeted_move(
    pre: ClientView,
    claimed: Seq<(i32, i32)>,
    hero: Hero,
    t: (i32, i32),
    post: ClientView,
    post_claimed: Seq<(i32, i32)>,
    hero_id: i32,
    x: i32,
    y: i32,
)
    requires
        hero_step(pre, claimed, hero, Some(t), post, post_claimed, Some(HeroOrder::Move { hero_id, x, y })),
    ensures
        hero_id == hero.id,
        !(hero.cooldown == 0 && forall|i: int, j: int|
            #![trigger pre.walls[j], line_point(hero.x as int, hero.y as int, t.0 as int, t.1 as int, i)]
            0 <= i < line_len(hero.x as int, hero.y as int, t.0 as int, t.1 as int) && 0 <= j < pre.walls.len() ==> (
            pre.walls[j].0 as int, pre.walls[j].1 as int) != line_point(hero.x as int, hero.y as int, t.0 as int, t.1 as int, i)),
        (x - hero.x == -3 || x - hero.x == 0 || x - hero.x == 3) && (y - hero.y == -3 || y - hero.y == 0 || y - hero.y == 3)
            && !(x == hero.x && y == hero.y),
        1 <= x < pre.map_width - 1,
        1 <= y < pre.map_height - 1,
        forall|j: int| 0 <= j < claimed.len() ==> #[trigger] claimed[j] != (x, y),
        forall|i: int, j: int|
            #![trigger pre.walls[j], line_point(hero.x as int, hero.y as int, x as int, y as int, i)]
            0 <= i < line_len(hero.x as int, hero.y as int, x as int, y as int) && 0 <= j < pre.walls.len() ==> (
            pre.walls[j].0 as int, pre.walls[j].1 as int) != line_point(hero.x as int, hero.y as int, x as int, y as int, i),
        forall|c: (int, int)|
            (c.0 - hero.x == -3 || c.0 - hero.x == 0 || c.0 - hero.x == 3) && (c.1 - hero.y == -3 || c.1 - hero.y == 0
                || c.1 - hero.y == 3) && !(c.0 == hero.x && c.1 == hero.y) && 1 <= c.0 < pre.map_width - 1 && 1 <= c.1
                < pre.map_height - 1 && (forall|j: int| 0 <= j < claimed.len() ==> (claimed[j].0 as int, claimed[j].1 as int) != c)
                && (forall|i: int, j: int|
                #![trigger pre.walls[j], line_point(hero.x as int, hero.y as int, c.0, c.1, i)]
                0 <= i < line_len(hero.x as int, hero.y as int, c.0, c.1) && 0 <= j < pre.walls.len() ==> (
                pre.walls[j].0 as int, pre.walls[j].1 as int) != line_point(hero.x as int, hero.y as int, c.0, c.1, i))
                ==> #[trigger] move_score(pre, hero, cell_at(t), c) <= move_score(pre, hero, cell_at(t), (x as int, y as int)),
        post_claimed == claimed.push((x, y)),
        post.history_1 == pre.history_1.insert(hero.id, (x, y)),
        pre.history_1.contains_key(hero.id) ==> post.history_2 == pre.history_2.insert(hero.id, pre.history_1[hero.id]),
        !pre.history_1.contains_key(hero.id) ==> post.history_2 == pre.history_2,
{
    let h = hero_at(hero);
    let m = (x as int, y as int);
    let opts = move_options(h);
    lemma_clear_spelled_out(pre.walls, h, cell_at(t));
    lemma_clear_spelled_out(pre.walls, h, m);
    lemma_move_options_exact(h, m);
    assert(!can_shoot(pre, hero, t));
    assert(is_best_move(pre, claimed, hero, cell_at(t), Some(m)));
    let k = choose|k: int|
        #![trigger opts[k]]
        0 <= k < 8 && opts[k] == m && move_allowed(pre, claimed, hero, m) && move_score(pre, hero, cell_at(t), m) > i32::MIN
            && (forall|j: int|
            0 <= j < 8 && move_allowed(pre, claimed, hero, #[trigger] opts[j]) ==> move_score(pre, hero, cell_at(t), opts[j])
                <= move_score(pre, hero, cell_at(t), m)) && (forall|j: int|
            0 <= j < k && move_allowed(pre, claimed, hero, #[trigger] opts[j]) ==> move_score(pre, hero, cell_at(t), opts[j])
                < move_score(pre, hero, cell_at(t), m));
    assert(exists|k2: int| 0 <= k2 < 8 && #[trigger] opts[k2] == m);
    assert forall|j: int| 0 <= j < claimed.len() implies #[trigger] claimed[j] != (x, y) by {
        if claimed[j] == (x, y) {
            assert(cell_at(claimed[j]) == m);
        }
    }
    assert forall|c: (int, int)|
        (c.0 - hero.x == -3 || c.0 - hero.x == 0 || c.0 - hero.x == 3) && (c.1 - hero.y == -3 || c.1 - hero.y == 0
            || c.1 - hero.y == 3) && !(c.0 == hero.x && c.1 == hero.y) && 1 <= c.0 < pre.map_width - 1 && 1 <= c.1
            < pre.map_height - 1 && (forall|j: int| 0 <= j < claimed.len() ==> (claimed[j].0 as int, claimed[j].1 as int) != c)
            && (forall|i: int, j: int|
            #![trigger pre.walls[j], line_point(hero.x as int, hero.y as int, c.0, c.1, i)]
            0 <= i < line_len(hero.x as int, hero.y as int, c.0, c.1) && 0 <= j < pre.walls.len() ==> (
            pre.walls[j].0 as int, pre.walls[j].1 as int) != line_point(hero.x as int, hero.y as int, c.0, c.1, i))
        implies #[trigger] move_score(pre, hero, cell_at(t), c) <= move_score(pre, hero, cell_at(t), m) by {
        lemma_move_options_exact(h, c);
        lemma_clear_spelled_out(pre.walls, h, c);
        let k2 = choose|k2: int| 0 <= k2 < 8 && #[trigger] opts[k2] == c;
        assert(!listed(claimed, c)) by {
            if listed(claimed, c) {
                let j = choose|j: int| 0 <= j < claimed.len() && cell_at(#[trigger] claimed[j]) == c;
                assert((claimed[j].0 as int, claimed[j].1 as int) != c);
            }
        }
        assert(move_allowed(pre, claimed, hero, opts[k2]));
    }
}

proof fn lemma_no_own_heroes(heroes: Seq<Hero>, id: i32)
    requires
        forall|j: int| 0 <= j < heroes.len() ==> heroes[j].owner_id != id,
    ensures
        own_heroes(heroes, id).len() == 0,
    decreases heroes.len(),
{
    if heroes.len() > 0 {
        let rest = heroes.drop_last();
        assert forall|j: int| 0 <= j < rest.len() implies rest[j].owner_id != id by {
            assert(rest[j] == heroes[j]);
        }
        lemma_no_own_heroes(rest, id);
        assert(heroes.last() == heroes[heroes.len() - 1]);
    }
}

proof fn lemma_first_own_hero(heroes: Seq<Hero>, id: i32, k: int)
    requires
        0 <= k < heroes.len(),
        heroes[k].owner_id == id,
        forall|j: int| 0 <= j < k ==> heroes[j].owner_id != id,
    ensures
        own_heroes(heroes, id).len() > 0,
        own_heroes(heroes, id)[0] == heroes[k],
    decreases heroes.len(),
{
    let rest = heroes.drop_last();
    if k == heroes.len() - 1 {
        assert forall|j: int| 0 <= j < rest.len() implies rest[j].owner_id != id by {
            assert(rest[j] == heroes[j]);
        }
        lemma_no_own_heroes(rest, id);
    } else {
        assert(rest[k] == heroes[k]);
        assert forall|j: int| 0 <= j < k implies rest[j].owner_id != id by {
            assert(rest[j] == heroes[j]);
        }
        lemma_first_own_hero(rest, id, k);
    }
}

/// Law: the target of a turn is the known enemy nearest to the first own
/// hero in the turn's hero list; with no own hero there is no target.
pub proof fn lemma_target_from_first_own_hero(
    enemies: Map<i32, (i32, i32)>,
    heroes: Seq<Hero>,
    id: i32,
    t: Option<(i32, i32)>,
)
    requires
        primary_target_ok(enemies, own_heroes(heroes, id), t),
    ensures
        (forall|j: int| 0 <= j < heroes.len() ==> heroes[j].owner_id != id) ==> t is None,
        forall|k: int|
            0 <= k < heroes.len() && heroes[k].owner_id == id && (forall|j: int| 0 <= j < k ==> heroes[j].owner_id != id)
                ==> nearest_enemy(enemies, (#[trigger] heroes[k].x as int, heroes[k].y as int), t),
{
    if forall|j: int| 0 <= j < heroes.len() ==> heroes[j].owner_id != id {
        lemma_no_own_heroes(heroes, id);
    }
    assert forall|k: int|
        0 <= k < heroes.len() && heroes[k].owner_id == id && (forall|j: int| 0 <= j < k ==> heroes[j].owner_id != id)
        implies nearest_enemy(enemies, (#[trigger] heroes[k].x as int, heroes[k].y as int), t) by {
        lemma_first_own_hero(heroes, id, k);
    }
}

/// Law: of the cells a moving hero could take with the same best score, it
/// takes the one considered first: every allowed cell considered before it
/// scores strictly less.
pub proof fn lemma_targeted_move_first(
    pre: ClientView,
    claimed: Seq<(i32, i32)>,
    hero: Hero,
    t: (i32, i32),
    post: ClientView,
    post_claimed: Seq<(i32, i32)>,
    hero_id: i32,
    x: i32,
    y: i32,
)
    requires
        hero_step(pre, claimed, hero, Some(t), post, post_claimed, Some(HeroOrder::Move { hero_id, x, y })),
    ensures
        exists|kk: int|
            0 <= kk < 8 && #[trigger] move_options(hero_at(hero))[kk] == (x as int, y as int) && forall|j: int|
                0 <= j < kk && move_allowed(pre, claimed, hero, #[trigger] move_options(hero_at(hero))[j]) ==> move_score(
                    pre,
                    hero,
                    cell_at(t),
                    move_options(hero_at(hero))[j],
                ) < move_score(pre, hero, cell_at(t), (x as int, y as int)),
{
    assert(!can_shoot(pre, hero, t));
    assert(is_best_move(pre, claimed, hero, cell_at(t), Some((x as int, y as int))));
}

} // verus!
