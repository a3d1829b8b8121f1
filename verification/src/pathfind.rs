//! Shortest paths and movement reachability over the occupancy grid.
//!
//! Movement is 4-directional with uniform step cost; a tile can be stepped
//! onto only when it is on the grid and vacant. Shortest paths come from an
//! A* search guided by the Manhattan distance, which is admissible for
//! uniform-cost orthogonal movement.

use vstd::prelude::*;

use crate::grid::{Direction, Grid, Pos, MAX_SIDE};
use crate::units::AttackType;

verus! {

broadcast use vstd::seq_lib::lemma_seq_contains_after_push;

pub open spec fn abs_diff(a: int, b: int) -> int {
    if a >= b {
        a - b
    } else {
        b - a
    }
}

/// Manhattan (taxicab) distance between two tiles.
pub open spec fn manhattan(a: Pos, b: Pos) -> int {
    abs_diff(a.x as int, b.x as int) + abs_diff(a.y as int, b.y as int)
}

/// One legal movement step: the target tile is on the grid, vacant, and
/// orthogonally adjacent to the source tile.
pub open spec fn valid_step(g: Grid, from: Pos, to: Pos) -> bool {
    g.spec_in_bounds(to) && g.occ_at(to) is None && manhattan(from, to) == 1
}

/// A movement path: starts at `from`, ends at `to`, and every step is a
/// `valid_step`. The starting tile itself is not required to be vacant; the
/// moving unit stands on it.
pub open spec fn is_step_path(g: Grid, p: Seq<Pos>, from: Pos, to: Pos) -> bool {
    &&& p.len() >= 1
    &&& p[0] == from
    &&& p[p.len() - 1] == to
    &&& forall|i: int| 0 <= i < p.len() - 1 ==> valid_step(g, #[trigger] p[i], p[i + 1])
}

/// No tile of the grid is occupied.
pub open spec fn grid_clear(g: Grid) -> bool {
    forall|x: int, y: int| g.occ(x, y) is None
}

pub fn manhattan_dist(a: Pos, b: Pos) -> (d: usize)
    requires
        a.x <= MAX_SIDE,
        a.y <= MAX_SIDE,
        b.x <= MAX_SIDE,
        b.y <= MAX_SIDE,
    ensures
        d == manhattan(a, b),
{
    let dx = if a.x >= b.x {
        a.x - b.x
    } else {
        b.x - a.x
    };
    let dy = if a.y >= b.y {
        a.y - b.y
    } else {
        b.y - a.y
    };
    dx + dy
}

/// The valid movement steps out of `p`, each paired with its uniform cost
/// of one. These are the successors handed to the A* search.
pub fn step_neighbors(g: &Grid, p: Pos) -> (out: Vec<(Pos, usize)>)
    requires
        g.wf(),
        p.x <= MAX_SIDE,
        p.y <= MAX_SIDE,
    ensures
        forall|k: int|
            0 <= k < out@.len() ==> (#[trigger] out@[k]).1 == 1 && valid_step(*g, p, out@[k].0),
        forall|q: Pos|
            valid_step(*g, p, q) ==> exists|k: int| 0 <= k < out@.len() && (#[trigger] out@[k]).0 == q,
{
    let mut out: Vec<(Pos, usize)> = Vec::new();
    if p.x < g.width && p.y + 1 < g.height {
        let q = Pos { x: p.x, y: p.y + 1 };
        if self_vacant(g, q) {
            out.push((q, 1));
        }
    }
    if p.x < g.width && p.y >= 1 && p.y - 1 < g.height {
        let q = Pos { x: p.x, y: p.y - 1 };
        if self_vacant(g, q) {
            out.push((q, 1));
        }
    }
    if p.x + 1 < g.width && p.y < g.height {
        let q = Pos { x: p.x + 1, y: p.y };
        if self_vacant(g, q) {
            out.push((q, 1));
        }
    }
    if p.x >= 1 && p.x - 1 < g.width && p.y < g.height {
        let q = Pos { x: p.x - 1, y: p.y };
        if self_vacant(g, q) {
            out.push((q, 1));
        }
    }
    proof {
        assert forall|q: Pos| valid_step(*g, p, q) implies exists|k: int|
            0 <= k < out@.len() && (#[trigger] out@[k]).0 == q by {
            if q.x == p.x && q.y == p.y + 1 {
                assert(out@.contains((q, 1usize)));
            } else if q.x == p.x && q.y + 1 == p.y {
                assert(out@.contains((q, 1usize)));
            } else if q.x == p.x + 1 && q.y == p.y {
                assert(out@.contains((q, 1usize)));
            } else {
                assert(q.x + 1 == p.x && q.y == p.y);
                assert(out@.contains((q, 1usize)));
            }
        }
    }
    out
}

fn self_vacant(g: &Grid, q: Pos) -> (r: bool)
    requires
        g.wf(),
    ensures
        r == (g.occ_at(q) is None),
{
    g.occupant_at(q).is_none()
}

/// Relies on `pathfinding::prelude::astar`: with the `step_neighbors`
/// successor function (unit costs) and the admissible Manhattan heuristic
/// it returns a cost-minimal path comprising both endpoints, or `None`
/// exactly when the goal cannot be reached. No node appears twice in the
/// returned path, so its length is bounded by the number of tiles.
#[verifier::external_body]
fn astar_search(g: &Grid, start: Pos, goal: Pos) -> (r: Option<Vec<Pos>>)
    requires
        g.wf(),
        g.spec_in_bounds(start),
        g.spec_in_bounds(goal),
    ensures
        (match r {
            Some(p) => is_step_path(*g, p@, start, goal) && p@.len() <= g.width * g.height && (
            forall|q: Seq<Pos>| is_step_path(*g, q, start, goal) ==> q.len() >= p@.len()),
            None => forall|q: Seq<Pos>| !is_step_path(*g, q, start, goal),
        }),
{
    let found = pathfinding::prelude::astar(
        &start,
        |p: &Pos| step_neighbors(g, *p),
        |p: &Pos| manhattan_dist(*p, goal),
        |p: &Pos| p.x == goal.x && p.y == goal.y,
    );
    found.map(|path_and_cost| path_and_cost.0)
}

/// Shortest path from `origin` to `destination` through vacant tiles, both
/// endpoints included. `None` when either endpoint is off the grid or no
/// path exists at query time.
pub fn shortest_path(g: &Grid, origin: Pos, destination: Pos) -> (r: Option<Vec<Pos>>)
    requires
        g.wf(),
    ensures
        (match r {
            Some(p) => {
                &&& g.spec_in_bounds(origin)
                &&& g.spec_in_bounds(destination)
                &&& is_step_path(*g, p@, origin, destination)
                &&& p@.len() <= g.width * g.height
                &&& forall|q: Seq<Pos>|
                    is_step_path(*g, q, origin, destination) ==> q.len() >= p@.len()
            },
            None => !g.spec_in_bounds(origin) || !g.spec_in_bounds(destination) || forall|
                q: Seq<Pos>,
            | !is_step_path(*g, q, origin, destination),
        }),
{
    if g.in_bounds(origin) && g.in_bounds(destination) {
        astar_search(g, origin, destination)
    } else {
        None
    }
}

/// Any movement path spans at least the Manhattan distance between its
/// endpoints: each step changes that distance by at most one.
pub proof fn lemma_step_path_min_len(g: Grid, p: Seq<Pos>, a: Pos, b: Pos)
    requires
        is_step_path(g, p, a, b),
    ensures
        p.len() >= manhattan(a, b) + 1,
    decreases p.len(),
{
    if p.len() == 1 {
        assert(a == b);
    } else {
        let tail = p.subrange(1, p.len() as int);
        assert(valid_step(g, p[0], p[1]));
        assert(tail[0] == p[1]);
        assert(tail[tail.len() - 1] == p[p.len() - 1]);
        assert forall|i: int| 0 <= i < tail.len() - 1 implies valid_step(
            g,
            #[trigger] tail[i],
            tail[i + 1],
        ) by {
            assert(tail[i] == p[i + 1]);
            assert(tail[i + 1] == p[i + 2]);
            assert(valid_step(g, p[i + 1], p[i + 2]));
        }
        assert(is_step_path(g, tail, p[1], b));
        lemma_step_path_min_len(g, tail, p[1], b);
    }
}

/// An axis-by-axis walk from `a` to `b`: first the x coordinate closes in,
/// then the y coordinate.
spec fn straight_path(a: Pos, b: Pos) -> Seq<Pos>
    decreases manhattan(a, b),
{
    if a.x == b.x && a.y == b.y {
        seq![a]
    } else {
        let next = if a.x < b.x {
            Pos { x: (a.x + 1) as usize, y: a.y }
        } else if a.x > b.x {
            Pos { x: (a.x - 1) as usize, y: a.y }
        } else if a.y < b.y {
            Pos { x: a.x, y: (a.y + 1) as usize }
        } else {
            Pos { x: a.x, y: (a.y - 1) as usize }
        };
        seq![a] + straight_path(next, b)
    }
}

proof fn lemma_straight_path_clear(g: Grid, a: Pos, b: Pos)
    requires
        g.wf(),
        grid_clear(g),
        g.spec_in_bounds(a),
        g.spec_in_bounds(b),
    ensures
        is_step_path(g, straight_path(a, b), a, b),
        straight_path(a, b).len() == manhattan(a, b) + 1,
    decreases manhattan(a, b),
{
    let p = straight_path(a, b);
    if a.x == b.x && a.y == b.y {
        assert(p == seq![a]);
    } else {
        let next = if a.x < b.x {
            Pos { x: (a.x + 1) as usize, y: a.y }
        } else if a.x > b.x {
            Pos { x: (a.x - 1) as usize, y: a.y }
        } else if a.y < b.y {
            Pos { x: a.x, y: (a.y + 1) as usize }
        } else {
            Pos { x: a.x, y: (a.y - 1) as usize }
        };
        assert(g.spec_in_bounds(next));
        assert(manhattan(next, b) == manhattan(a, b) - 1);
        lemma_straight_path_clear(g, next, b);
        let rest = straight_path(next, b);
        assert(p == seq![a] + rest);
        assert(p.len() == rest.len() + 1);
        assert(p[0] == a);
        assert(p[p.len() - 1] == rest[rest.len() - 1]);
        assert(valid_step(g, a, next));
        assert forall|i: int| 0 <= i < p.len() - 1 implies valid_step(
            g,
            #[trigger] p[i],
            p[i + 1],
        ) by {
            if i == 0 {
                assert(p[1] == rest[0]);
                assert(rest[0] == next);
            } else {
                assert(p[i] == rest[i - 1]);
                assert(p[i + 1] == rest[i]);
                assert(valid_step(g, rest[i - 1], rest[i]));
            }
        }
    }
}

/// On a grid with no occupied tile, a shortest path between two on-grid
/// tiles comprises exactly the Manhattan distance many steps (one more
/// tile than steps, since both endpoints are included).
pub proof fn lemma_clear_grid_shortest_len(g: Grid, a: Pos, b: Pos, p: Seq<Pos>)
    requires
        g.wf(),
        grid_clear(g),
        g.spec_in_bounds(a),
        g.spec_in_bounds(b),
        is_step_path(g, p, a, b),
        forall|q: Seq<Pos>| is_step_path(g, q, a, b) ==> q.len() >= p.len(),
    ensures
        p.len() == manhattan(a, b) + 1,
{
    lemma_step_path_min_len(g, p, a, b);
    lemma_straight_path_clear(g, a, b);
    assert(straight_path(a, b).len() >= p.len());
}

/// A destination every on-grid neighbor of which is occupied cannot be
/// reached from a tile that is not already adjacent to it: there is no
/// movement path at all, so `shortest_path` returns `None`.
pub proof fn lemma_enclosed_no_path(g: Grid, a: Pos, b: Pos, p: Seq<Pos>)
    requires
        g.wf(),
        manhattan(a, b) >= 2,
        forall|q: Pos|
            g.spec_in_bounds(q) && manhattan(q, b) == 1 ==> (#[trigger] g.occ_at(q)) is Some,
    ensures
        !is_step_path(g, p, a, b),
{
    if is_step_path(g, p, a, b) {
        lemma_step_path_min_len(g, p, a, b);
        assert(p.len() >= 3);
        let n = p.len() as int;
        let last_src = p[n - 2];
        assert(valid_step(g, last_src, p[n - 1]));
        assert(manhattan(last_src, b) == 1);
        assert(valid_step(g, p[n - 3], p[n - 2]));
        assert(g.spec_in_bounds(last_src) && g.occ_at(last_src) is None);
        assert(false);
    }
}

/// Tile one step from `p` in direction `d`, as unbounded integer
/// coordinates.
pub open spec fn step_xy(p: Pos, d: Direction) -> (int, int) {
    match d {
        Direction::North => (p.x as int, p.y + 1),
        Direction::South => (p.x as int, p.y - 1),
        Direction::East => (p.x + 1, p.y as int),
        Direction::West => (p.x - 1, p.y as int),
    }
}

/// Tile one step from `p` in direction `d`, when that tile is on the grid.
pub open spec fn dir_step(g: Grid, p: Pos, d: Direction) -> Option<Pos> {
    let xy = step_xy(p, d);
    if 0 <= xy.0 < g.width && 0 <= xy.1 < g.height {
        Some(Pos { x: xy.0 as usize, y: xy.1 as usize })
    } else {
        None
    }
}

/// Tiles reached from `p` within `r` steps when the first step goes in
/// direction `d`. With `through` set, occupied tiles are entered as well;
/// otherwise only vacant tiles are.
pub open spec fn dir_reach(g: Grid, p: Pos, d: Direction, r: nat, through: bool) -> Set<Pos>
    decreases r, 0int,
{
    if r == 0 {
        Set::empty()
    } else {
        match dir_step(g, p, d) {
            Some(q) => if through || g.occ_at(q) is None {
                reach_from(g, q, (r - 1) as nat, through).insert(q)
            } else {
                Set::empty()
            },
            None => Set::empty(),
        }
    }
}

/// Tiles reached from `p` in at most `r` orthogonal steps over on-grid
/// tiles; `through` says whether occupied tiles may be entered.
pub open spec fn reach_from(g: Grid, p: Pos, r: nat, through: bool) -> Set<Pos>
    decreases r, 1int,
{
    if r == 0 {
        Set::empty()
    } else {
        dir_reach(g, p, Direction::North, r, through) + dir_reach(
            g,
            p,
            Direction::South,
            r,
            through,
        ) + dir_reach(g, p, Direction::East, r, through) + dir_reach(
            g,
            p,
            Direction::West,
            r,
            through,
        )
    }
}

pub(crate) fn contains_pos(v: &Vec<Pos>, p: Pos) -> (r: bool)
    ensures
        r == v@.contains(p),
{
    let mut i: usize = 0;
    while i < v.len()
        invariant
            i <= v@.len(),
            forall|j: int| 0 <= j < i ==> v@[j] != p,
        decreases v@.len() - i,
    {
        if v[i] == p {
            assert(v@[i as int] == p);
            return true;
        }
        i = i + 1;
    }
    false
}

fn push_missing(v: &mut Vec<Pos>, p: Pos)
    ensures
        final(v)@.to_set() == old(v)@.to_set().insert(p),
{
    if !contains_pos(v, p) {
        v.push(p);
        proof {
            assert(v@.to_set() =~= old(v)@.to_set().insert(p));
        }
    } else {
        proof {
            assert(v@.to_set() =~= old(v)@.to_set().insert(p));
        }
    }
}

fn merge_missing(v: &mut Vec<Pos>, add: &Vec<Pos>)
    ensures
        final(v)@.to_set() == old(v)@.to_set().union(add@.to_set()),
{
    proof {
        assert(v@.to_set() =~= v@.to_set().union(add@.subrange(0, 0).to_set()));
    }
    let mut i: usize = 0;
    while i < add.len()
        invariant
            i <= add@.len(),
            v@.to_set() == old(v)@.to_set().union(add@.subrange(0, i as int).to_set()),
        decreases add@.len() - i,
    {
        let ghost pre = v@.to_set();
        push_missing(v, add[i]);
        proof {
            assert(add@.subrange(0, i + 1) =~= add@.subrange(0, i as int).push(add@[i as int]));
            assert(v@.to_set() =~= old(v)@.to_set().union(add@.subrange(0, i + 1).to_set()));
        }
        i = i + 1;
    }
    proof {
        assert(add@.subrange(0, add@.len() as int) =~= add@);
    }
}

fn offset_in(g: &Grid, p: Pos, d: Direction) -> (r: Option<Pos>)
    requires
        g.wf(),
        g.spec_in_bounds(p),
    ensures
        r == dir_step(*g, p, d),
{
    match d {
        Direction::North => if p.y + 1 < g.height {
            Some(Pos { x: p.x, y: p.y + 1 })
        } else {
            None
        },
        Direction::South => if p.y >= 1 {
            Some(Pos { x: p.x, y: p.y - 1 })
        } else {
            None
        },
        Direction::East => if p.x + 1 < g.width {
            Some(Pos { x: p.x + 1, y: p.y })
        } else {
            None
        },
        Direction::West => if p.x >= 1 {
            Some(Pos { x: p.x - 1, y: p.y })
        } else {
            None
        },
    }
}

fn explore_dir(g: &Grid, p: Pos, d: Direction, r: usize, through: bool) -> (out: Vec<Pos>)
    requires
        g.wf(),
        g.spec_in_bounds(p),
        r >= 1,
    ensures
        out@.to_set() == dir_reach(*g, p, d, r as nat, through),
    decreases r, 0int,
{
    let mut out: Vec<Pos> = Vec::new();
    match offset_in(g, p, d) {
        Some(q) => {
            if through || self_vacant(g, q) {
                out.push(q);
                let sub = reach_rec(g, q, r - 1, through);
                merge_missing(&mut out, &sub);
                proof {
                    assert(dir_reach(*g, p, d, r as nat, through) == reach_from(
                        *g,
                        q,
                        (r - 1) as nat,
                        through,
                    ).insert(q));
                    assert(out@.to_set() =~= dir_reach(*g, p, d, r as nat, through));
                }
            } else {
                proof {
                    assert(out@.to_set() =~= dir_reach(*g, p, d, r as nat, through));
                }
            }
        },
        None => {
            proof {
                assert(out@.to_set() =~= dir_reach(*g, p, d, r as nat, through));
            }
        },
    }
    out
}

pub(crate) fn reach_rec(g: &Grid, p: Pos, r: usize, through: bool) -> (out: Vec<Pos>)
    requires
        g.wf(),
        g.spec_in_bounds(p),
    ensures
        out@.to_set() == reach_from(*g, p, r as nat, through),
    decreases r, 1int,
{
    let mut out: Vec<Pos> = Vec::new();
    if r == 0 {
        proof {
            assert(out@.to_set() =~= reach_from(*g, p, r as nat, through));
        }
        return out;
    }
    let north = explore_dir(g, p, Direction::North, r, through);
    let south = explore_dir(g, p, Direction::South, r, through);
    let east = explore_dir(g, p, Direction::East, r, through);
    let west = explore_dir(g, p, Direction::West, r, through);
    merge_missing(&mut out, &north);
    merge_missing(&mut out, &south);
    merge_missing(&mut out, &east);
    merge_missing(&mut out, &west);
    proof {
        assert(out@.to_set() =~= reach_from(*g, p, r as nat, through));
    }
    out
}

/// Tiles a unit standing at `origin` could move to within
/// `movement_range` steps, given current occupancy: the depth-limited
/// expansion through vacant tiles. An off-grid origin reaches nothing.
pub fn reachable_tiles(g: &Grid, origin: Pos, movement_range: usize) -> (out: Vec<Pos>)
    requires
        g.wf(),
    ensures
        g.spec_in_bounds(origin) ==> out@.to_set() == reach_from(
            *g,
            origin,
            movement_range as nat,
            false,
        ),
        !g.spec_in_bounds(origin) ==> out@ == Seq::<Pos>::empty(),
{
    if g.in_bounds(origin) {
        reach_rec(g, origin, movement_range, false)
    } else {
        Vec::new()
    }
}

/// With no movement allowance nothing is reachable.
pub proof fn lemma_reachable_zero(g: Grid, origin: Pos, through: bool)
    ensures
        reach_from(g, origin, 0, through) == Set::<Pos>::empty(),
{
}

proof fn lemma_dir_reach_vacant(g: Grid, p: Pos, d: Direction, r: nat, t: Pos)
    requires
        dir_reach(g, p, d, r, false).contains(t),
    ensures
        g.occ_at(t) is None,
    decreases r, 0int,
{
    let q = dir_step(g, p, d)->Some_0;
    if t != q {
        lemma_reachable_vacant(g, q, (r - 1) as nat, t);
    }
}

/// Every reachable tile is vacant: movement never enters an occupied
/// tile.
pub proof fn lemma_reachable_vacant(g: Grid, p: Pos, r: nat, t: Pos)
    requires
        reach_from(g, p, r, false).contains(t),
    ensures
        g.occ_at(t) is None,
    decreases r, 1int,
{
    if dir_reach(g, p, Direction::North, r, false).contains(t) {
        lemma_dir_reach_vacant(g, p, Direction::North, r, t);
    } else if dir_reach(g, p, Direction::South, r, false).contains(t) {
        lemma_dir_reach_vacant(g, p, Direction::South, r, t);
    } else if dir_reach(g, p, Direction::East, r, false).contains(t) {
        lemma_dir_reach_vacant(g, p, Direction::East, r, t);
    } else {
        lemma_dir_reach_vacant(g, p, Direction::West, r, t);
    }
}

/// A unit's own tile is occupied by the unit itself, so the origin is
/// never among the reachable tiles.
pub proof fn lemma_reachable_excludes_origin(g: Grid, origin: Pos, r: nat)
    requires
        g.occ_at(origin) is Some,
    ensures
        !reach_from(g, origin, r, false).contains(origin),
{
    if reach_from(g, origin, r, false).contains(origin) {
        lemma_reachable_vacant(g, origin, r, origin);
    }
}

/// Tile `k` steps from `o` straight along direction `d`, as unbounded
/// integer coordinates.
pub open spec fn ray_xy(o: Pos, d: Direction, k: int) -> (int, int) {
    match d {
        Direction::North => (o.x as int, o.y + k),
        Direction::South => (o.x as int, o.y - k),
        Direction::East => (o.x + k, o.y as int),
        Direction::West => (o.x - k, o.y as int),
    }
}

pub open spec fn on_grid(g: Grid, xy: (int, int)) -> bool {
    0 <= xy.0 < g.width && 0 <= xy.1 < g.height
}

pub open spec fn pos_is(t: Pos, xy: (int, int)) -> bool {
    t.x == xy.0 && t.y == xy.1
}

/// Melee reach along one axis direction: the adjacent tile is always in
/// range; farther tiles on the same line are, up to `range` rings, as long
/// as no occupied tile stands strictly between them and the origin. An
/// occupied tile is itself attackable but blocks reach beyond it.
pub open spec fn melee_ray_member(g: Grid, o: Pos, range: usize, d: Direction, t: Pos) -> bool {
    exists|k: int|
        1 <= k && (k == 1 || k <= range) && #[trigger] pos_is(t, ray_xy(o, d, k)) && on_grid(
            g,
            ray_xy(o, d, k),
        ) && (forall|e: int|
            1 <= e < k ==> #[trigger] g.occ(ray_xy(o, d, e).0, ray_xy(o, d, e).1) is None)
}

/// Like `melee_ray_member`, but reaching exactly `1..=m` rings with no
/// special case for the first ring: the prefix a partial scan has covered.
spec fn ray_upto(g: Grid, o: Pos, d: Direction, m: int, t: Pos) -> bool {
    exists|k: int|
        1 <= k <= m && #[trigger] pos_is(t, ray_xy(o, d, k)) && on_grid(g, ray_xy(o, d, k)) && (
        forall|e: int|
            1 <= e < k ==> #[trigger] g.occ(ray_xy(o, d, e).0, ray_xy(o, d, e).1) is None)
}

/// Tiles an attack from `o` can reach. Melee strikes along the four grid
/// axes with blocking; ranged is an occupancy-insensitive expansion of the
/// same shape as movement reachability. An off-grid origin reaches
/// nothing.
pub open spec fn attack_member(g: Grid, o: Pos, range: usize, at: AttackType, t: Pos) -> bool {
    g.spec_in_bounds(o) && match at {
        AttackType::Melee => exists|d: Direction| melee_ray_member(g, o, range, d, t),
        AttackType::Ranged => reach_from(g, o, range as nat, true).contains(t),
    }
}

/// Once a ray has left the grid it never re-enters it.
proof fn lemma_ray_stays_off(g: Grid, o: Pos, d: Direction, k: int, j: int)
    requires
        g.spec_in_bounds(o),
        1 <= k <= j,
        !on_grid(g, ray_xy(o, d, k)),
    ensures
        !on_grid(g, ray_xy(o, d, j)),
{
}

fn scan_ray(g: &Grid, o: Pos, d: Direction, range: usize) -> (out: Vec<Pos>)
    requires
        g.wf(),
        g.spec_in_bounds(o),
    ensures
        out@.to_set() == Set::new(|t: Pos| melee_ray_member(*g, o, range, d, t)),
{
    let mut out: Vec<Pos> = Vec::new();
    match offset_in(g, o, d) {
        None => {
            proof {
                assert forall|t: Pos| !melee_ray_member(*g, o, range, d, t) by {
                    if melee_ray_member(*g, o, range, d, t) {
                        let k = choose|k: int|
                            1 <= k && (k == 1 || k <= range) && #[trigger] pos_is(
                                t,
                                ray_xy(o, d, k),
                            ) && on_grid(*g, ray_xy(o, d, k)) && (forall|e: int|
                                1 <= e < k ==> #[trigger] g.occ(
                                    ray_xy(o, d, e).0,
                                    ray_xy(o, d, e).1,
                                ) is None);
                        lemma_ray_stays_off(*g, o, d, 1, k);
                    }
                }
                assert(out@.to_set() =~= Set::new(|t: Pos| melee_ray_member(*g, o, range, d, t)));
            }
            out
        },
        Some(q1) => {
            out.push(q1);
            proof {
                assert(pos_is(q1, ray_xy(o, d, 1)));
                assert(out@.to_set() =~= Set::new(|t: Pos| ray_upto(*g, o, d, 1, t)));
            }
            let mut cur = q1;
            let mut k: usize = 2;
            while k <= range
                invariant
                    g.wf(),
                    g.spec_in_bounds(o),
                    2 <= k,
                    k <= range + 1 || (k == 2 && range <= 1),
                    pos_is(cur, ray_xy(o, d, k - 1)),
                    on_grid(*g, ray_xy(o, d, k - 1)),
                    forall|e: int|
                        1 <= e < k - 1 ==> #[trigger] g.occ(
                            ray_xy(o, d, e).0,
                            ray_xy(o, d, e).1,
                        ) is None,
                    out@.to_set() == Set::new(|t: Pos| ray_upto(*g, o, d, k - 1, t)),
                decreases range + 1 - k,
            {
                if !self_vacant(g, cur) {
                    proof {
                        assert(g.occ(ray_xy(o, d, k - 1).0, ray_xy(o, d, k - 1).1) is Some);
                        assert(out@.to_set() =~= Set::new(
                            |t: Pos| melee_ray_member(*g, o, range, d, t),
                        ));
                    }
                    return out;
                }
                match offset_in(g, cur, d) {
                    None => {
                        proof {
                            assert(!on_grid(*g, ray_xy(o, d, k as int)));
                            assert forall|t: Pos|
                                melee_ray_member(*g, o, range, d, t) == ray_upto(
                                    *g,
                                    o,
                                    d,
                                    k - 1,
                                    t,
                                ) by {
                                if melee_ray_member(*g, o, range, d, t) {
                                    let j = choose|j: int|
                                        1 <= j && (j == 1 || j <= range) && #[trigger] pos_is(
                                            t,
                                            ray_xy(o, d, j),
                                        ) && on_grid(*g, ray_xy(o, d, j)) && (forall|e: int|
                                            1 <= e < j ==> #[trigger] g.occ(
                                                ray_xy(o, d, e).0,
                                                ray_xy(o, d, e).1,
                                            ) is None);
                                    if j >= k {
                                        lemma_ray_stays_off(*g, o, d, k as int, j);
                                    }
                                    assert(ray_upto(*g, o, d, k - 1, t));
                                }
                                if ray_upto(*g, o, d, k - 1, t) {
                                    let j = choose|j: int|
                                        1 <= j <= k - 1 && #[trigger] pos_is(t, ray_xy(o, d, j))
                                            && on_grid(*g, ray_xy(o, d, j)) && (forall|e: int|
                                            1 <= e < j ==> #[trigger] g.occ(
                                                ray_xy(o, d, e).0,
                                                ray_xy(o, d, e).1,
                                            ) is None);
                                    assert(j == 1 || j <= range);
                                    assert(melee_ray_member(*g, o, range, d, t));
                                }
                            }
                            assert(out@.to_set() =~= Set::new(
                                |t: Pos| melee_ray_member(*g, o, range, d, t),
                            ));
                        }
                        return out;
                    },
                    Some(next) => {
                        let ghost pre = out@.to_set();
                        out.push(next);
                        proof {
                            let ki = k as int;
                            assert(pos_is(next, ray_xy(o, d, ki)));
                            assert(on_grid(*g, ray_xy(o, d, ki)));
                            assert(g.occ(ray_xy(o, d, ki - 1).0, ray_xy(o, d, ki - 1).1) is None);
                            assert(out@.to_set() =~= pre.insert(next));
                            assert forall|t: Pos|
                                ray_upto(*g, o, d, ki, t) == (ray_upto(*g, o, d, ki - 1, t) || t
                                    == next) by {
                                if ray_upto(*g, o, d, ki, t) {
                                    let j = choose|j: int|
                                        1 <= j <= ki && #[trigger] pos_is(t, ray_xy(o, d, j))
                                            && on_grid(*g, ray_xy(o, d, j)) && (forall|e: int|
                                            1 <= e < j ==> #[trigger] g.occ(
                                                ray_xy(o, d, e).0,
                                                ray_xy(o, d, e).1,
                                            ) is None);
                                    if j == ki {
                                        assert(t.x == next.x && t.y == next.y);
                                        assert(t == next);
                                    } else {
                                        assert(ray_upto(*g, o, d, ki - 1, t));
                                    }
                                }
                                if t == next {
                                    assert(forall|e: int|
                                        1 <= e < ki ==> #[trigger] g.occ(
                                            ray_xy(o, d, e).0,
                                            ray_xy(o, d, e).1,
                                        ) is None);
                                    assert(ray_upto(*g, o, d, ki, t));
                                }
                                if ray_upto(*g, o, d, ki - 1, t) {
                                    let j = choose|j: int|
                                        1 <= j <= ki - 1 && #[trigger] pos_is(t, ray_xy(o, d, j))
                                            && on_grid(*g, ray_xy(o, d, j)) && (forall|e: int|
                                            1 <= e < j ==> #[trigger] g.occ(
                                                ray_xy(o, d, e).0,
                                                ray_xy(o, d, e).1,
                                            ) is None);
                                    assert(ray_upto(*g, o, d, ki, t));
                                }
                            }
                            assert(out@.to_set() =~= Set::new(
                                |t: Pos| ray_upto(*g, o, d, ki, t),
                            ));
                        }
                        cur = next;
                    },
                }
                k = k + 1;
            }
            proof {
                let m = k - 1;
                assert forall|t: Pos|
                    melee_ray_member(*g, o, range, d, t) == ray_upto(*g, o, d, m, t) by {
                    if melee_ray_member(*g, o, range, d, t) {
                        let j = choose|j: int|
                            1 <= j && (j == 1 || j <= range) && #[trigger] pos_is(
                                t,
                                ray_xy(o, d, j),
                            ) && on_grid(*g, ray_xy(o, d, j)) && (forall|e: int|
                                1 <= e < j ==> #[trigger] g.occ(
                                    ray_xy(o, d, e).0,
                                    ray_xy(o, d, e).1,
                                ) is None);
                        assert(j <= m);
                        assert(ray_upto(*g, o, d, m, t));
                    }
                    if ray_upto(*g, o, d, m, t) {
                        let j = choose|j: int|
                            1 <= j <= m && #[trigger] pos_is(t, ray_xy(o, d, j)) && on_grid(
                                *g,
                                ray_xy(o, d, j),
                            ) && (forall|e: int|
                                1 <= e < j ==> #[trigger] g.occ(
                                    ray_xy(o, d, e).0,
                                    ray_xy(o, d, e).1,
                                ) is None);
                        assert(j == 1 || j <= range);
                        assert(melee_ray_member(*g, o, range, d, t));
                    }
                }
                assert(out@.to_set() =~= Set::new(|t: Pos| melee_ray_member(*g, o, range, d, t)));
            }
            out
        },
    }
}

/// Tiles an attack from `origin` with the given range and type can reach,
/// under current occupancy. Melee and ranged are deliberately asymmetric:
/// melee strikes along the four axes and is blocked by units in between;
/// ranged expands over tiles without regard to occupancy.
pub fn attack_tiles(g: &Grid, origin: Pos, attack_range: usize, attack_type: AttackType) -> (out:
    Vec<Pos>)
    requires
        g.wf(),
    ensures
        out@.to_set() == Set::new(
            |t: Pos| attack_member(*g, origin, attack_range, attack_type, t),
        ),
{
    let mut out: Vec<Pos> = Vec::new();
    if !g.in_bounds(origin) {
        proof {
            assert(out@.to_set() =~= Set::new(
                |t: Pos| attack_member(*g, origin, attack_range, attack_type, t),
            ));
        }
        return out;
    }
    match attack_type {
        AttackType::Melee => {
            let north = scan_ray(g, origin, Direction::North, attack_range);
            let south = scan_ray(g, origin, Direction::South, attack_range);
            let east = scan_ray(g, origin, Direction::East, attack_range);
            let west = scan_ray(g, origin, Direction::West, attack_range);
            merge_missing(&mut out, &north);
            merge_missing(&mut out, &south);
            merge_missing(&mut out, &east);
            merge_missing(&mut out, &west);
            proof {
                assert forall|t: Pos|
                    out@.to_set().contains(t) == attack_member(
                        *g,
                        origin,
                        attack_range,
                        attack_type,
                        t,
                    ) by {
                    if attack_member(*g, origin, attack_range, attack_type, t) {
                        let d = choose|d: Direction|
                            melee_ray_member(*g, origin, attack_range, d, t);
                        assert(north@.to_set().contains(t) || south@.to_set().contains(t)
                            || east@.to_set().contains(t) || west@.to_set().contains(t));
                    }
                }
                assert(out@.to_set() =~= Set::new(
                    |t: Pos| attack_member(*g, origin, attack_range, attack_type, t),
                ));
            }
        },
        AttackType::Ranged => {
            let tiles = reach_rec(g, origin, attack_range, true);
            merge_missing(&mut out, &tiles);
            proof {
                assert(out@.to_set() =~= Set::new(
                    |t: Pos| attack_member(*g, origin, attack_range, attack_type, t),
                ));
            }
        },
    }
    out
}

/// Re-querying the attack tiles for an unchanged grid and unit state
/// yields the same set: the query depends on its arguments alone.
pub proof fn lemma_attack_tiles_idempotent(
    g: Grid,
    o: Pos,
    range: usize,
    at: AttackType,
    s1: Seq<Pos>,
    s2: Seq<Pos>,
)
    requires
        s1.to_set() == Set::new(|t: Pos| attack_member(g, o, range, at, t)),
        s2.to_set() == Set::new(|t: Pos| attack_member(g, o, range, at, t)),
    ensures
        s1.to_set() == s2.to_set(),
{
}

} // verus!
