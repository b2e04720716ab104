use vstd::arithmetic::div_mod::{
    lemma_fundamental_div_mod, lemma_fundamental_div_mod_converse, lemma_mod_pos_bound,
};
use vstd::prelude::*;

use crate::grid::{adjacent, is_path, manhattan, path_exists, Grid, GridView, Tile};

verus! {

/// Row-major index of a tile.
spec fn idx(g: GridView, t: Tile) -> int {
    t.1 * g.width + t.0
}

/// The tile at a row-major index.
spec fn tile_of(g: GridView, i: int) -> Tile {
    ((i % g.width) as i32, (i / g.width) as i32)
}

/// The neighbour of `t` in direction `d`, in the order +x, +y, -x, -y.
spec fn step(t: Tile, d: int) -> Tile {
    if d == 0 {
        ((t.0 + 1) as i32, t.1)
    } else if d == 1 {
        (t.0, (t.1 + 1) as i32)
    } else if d == 2 {
        ((t.0 - 1) as i32, t.1)
    } else {
        (t.0, (t.1 - 1) as i32)
    }
}

/// No tile inside the grid is occupied.
pub open spec fn open_grid(g: GridView) -> bool {
    forall|t: Tile| g.in_bounds(t) ==> !g.occupied.contains(t)
}

/// Every passable neighbour of `t` has been discovered.
spec fn closed(g: GridView, disc: Set<Tile>, t: Tile) -> bool {
    forall|d: int| 0 <= d < 4 ==> (#[trigger] g.passable(step(t, d)) ==> disc.contains(step(t, d)))
}

/// A flag vector indexed by tile holds exactly the members of `set`, which lie in the grid.
spec fn sync(g: GridView, s: Seq<bool>, set: Set<Tile>) -> bool {
    &&& s.len() == g.width * g.height
    &&& forall|t: Tile| #![trigger set.contains(t)] set.contains(t) ==> g.in_bounds(t)
    &&& forall|t: Tile|
        #![trigger s[idx(g, t)]]
        #![trigger set.contains(t)]
        g.in_bounds(t) ==> s[idx(g, t)] == set.contains(t)
}

/// The search tree: each discovered tile but the start hangs off an adjacent discovered tile
/// one step closer to the start.
spec fn tree(
    g: GridView,
    start: Tile,
    end: Tile,
    disc: Set<Tile>,
    vis: Set<Tile>,
    par: Map<Tile, Tile>,
    dist: Map<Tile, int>,
) -> bool {
    &&& g.in_bounds(start)
    &&& g.passable(end)
    &&& start != end
    &&& disc.contains(start)
    &&& !disc.contains(end)
    &&& dist.dom().contains(start)
    &&& dist[start] == 0
    &&& forall|t: Tile| #[trigger] vis.contains(t) ==> disc.contains(t)
    &&& forall|t: Tile| #[trigger]
        disc.contains(t) ==> dist.dom().contains(t) && dist[t] >= 0
    &&& forall|t: Tile| #[trigger]
        disc.contains(t) && t != start ==> {
            &&& par.dom().contains(t)
            &&& g.passable(t)
            &&& disc.contains(par[t])
            &&& adjacent(par[t], t)
            &&& dist[t] == dist[par[t]] + 1
        }
}

spec fn pred_sync(g: GridView, start: Tile, p: Seq<Tile>, disc: Set<Tile>, par: Map<Tile, Tile>) -> bool {
    &&& p.len() == g.width * g.height
    &&& forall|t: Tile| #[trigger] disc.contains(t) && t != start ==> p[idx(g, t)] == par[t]
}

spec fn count_true(s: Seq<bool>) -> nat
    decreases s.len(),
{
    if s.len() == 0 {
        0
    } else {
        count_true(s.drop_last()) + if s.last() {
            1nat
        } else {
            0nat
        }
    }
}

proof fn lemma_count_bound(s: Seq<bool>)
    ensures
        count_true(s) <= s.len(),
    decreases s.len(),
{
    if s.len() > 0 {
        lemma_count_bound(s.drop_last());
    }
}

proof fn lemma_count_set(s: Seq<bool>, i: int)
    requires
        0 <= i < s.len(),
    ensures
        count_true(s.update(i, true)) == count_true(s) + if s[i] {
            0nat
        } else {
            1nat
        },
    decreases s.len(),
{
    let u = s.update(i, true);
    if i == s.len() - 1 {
        assert(u.drop_last() =~= s.drop_last());
    } else {
        assert(u.drop_last() =~= s.drop_last().update(i, true));
        lemma_count_set(s.drop_last(), i);
    }
}

proof fn lemma_idx(g: GridView, t: Tile)
    requires
        g.wf(),
        g.in_bounds(t),
    ensures
        0 <= idx(g, t) < g.width * g.height,
        tile_of(g, idx(g, t)) == t,
{
    let w = g.width;
    let h = g.height;
    assert(0 <= t.1 * w + t.0 < w * h) by (nonlinear_arith)
        requires
            0 <= t.0 < w,
            0 <= t.1 < h,
    ;
    lemma_fundamental_div_mod_converse(idx(g, t), w, t.1 as int, t.0 as int);
}

proof fn lemma_tile_of(g: GridView, i: int)
    requires
        g.wf(),
        0 <= i < g.width * g.height,
    ensures
        g.in_bounds(tile_of(g, i)),
        idx(g, tile_of(g, i)) == i,
{
    let w = g.width;
    let h = g.height;
    assert(w >= 1) by (nonlinear_arith)
        requires
            0 <= i < w * h,
            h >= 0,
            w >= 0,
    ;
    lemma_fundamental_div_mod(i, w);
    lemma_mod_pos_bound(i, w);
    let q = i / w;
    let r = i % w;
    assert(0 <= q < h) by (nonlinear_arith)
        requires
            i == w * q + r,
            0 <= r < w,
            0 <= i < w * h,
            w >= 1,
    ;
    assert(h <= h * g.cell_height) by (nonlinear_arith)
        requires
            h >= 0,
            g.cell_height >= 1,
    ;
    assert(q * w + r == i) by (nonlinear_arith)
        requires
            i == w * q + r,
    ;
}

proof fn lemma_idx_injective(g: GridView, a: Tile, b: Tile)
    requires
        g.wf(),
        g.in_bounds(a),
        g.in_bounds(b),
        idx(g, a) == idx(g, b),
    ensures
        a == b,
{
    lemma_idx(g, a);
    lemma_idx(g, b);
}

proof fn lemma_sync_insert(g: GridView, s: Seq<bool>, set: Set<Tile>, a: Tile)
    requires
        g.wf(),
        g.in_bounds(a),
        sync(g, s, set),
    ensures
        sync(g, s.update(idx(g, a), true), set.insert(a)),
{
    lemma_idx(g, a);
    let u = s.update(idx(g, a), true);
    assert forall|t: Tile| g.in_bounds(t) implies u[idx(g, t)] == set.insert(a).contains(t) by {
        lemma_idx(g, t);
        if t != a {
            if idx(g, t) == idx(g, a) {
                lemma_idx_injective(g, t, a);
            }
        }
    }
}

proof fn lemma_pred_insert(
    g: GridView,
    start: Tile,
    p: Seq<Tile>,
    disc: Set<Tile>,
    par: Map<Tile, Tile>,
    a: Tile,
    c: Tile,
)
    requires
        g.wf(),
        g.in_bounds(a),
        pred_sync(g, start, p, disc, par),
        forall|t: Tile| #[trigger] disc.contains(t) ==> g.in_bounds(t),
    ensures
        pred_sync(g, start, p.update(idx(g, a), c), disc.insert(a), par.insert(a, c)),
{
    lemma_idx(g, a);
    let u = p.update(idx(g, a), c);
    assert forall|t: Tile| #[trigger]
        disc.insert(a).contains(t) && t != start implies u[idx(g, t)] == par.insert(a, c)[t] by {
        if t != a {
            lemma_idx(g, t);
            if idx(g, t) == idx(g, a) {
                lemma_idx_injective(g, t, a);
            }
        }
    }
}

/// Two adjacent tiles differ by one in their distance to any third tile.
proof fn lemma_adjacent_manhattan(a: Tile, b: Tile, e: Tile)
    requires
        adjacent(a, b),
    ensures
        manhattan(a, e) == manhattan(b, e) + 1 || manhattan(b, e) == manhattan(a, e) + 1,
{
}

/// Every tile adjacent to `a` is one of its four neighbours.
proof fn lemma_adjacent_step(a: Tile, b: Tile) -> (d: int)
    requires
        adjacent(a, b),
    ensures
        0 <= d < 4,
        b == step(a, d),
{
    if b.0 == a.0 + 1 {
        0
    } else if b.1 == a.1 + 1 {
        1
    } else if b.0 == a.0 - 1 {
        2
    } else {
        3
    }
}

/// If the discovered tiles are closed under passable neighbours, every tile of a path from the
/// start is among them.
proof fn lemma_closed_reach(g: GridView, disc: Set<Tile>, p: Seq<Tile>, start: Tile, goal: Tile, i: int)
    requires
        is_path(g, p, start, goal),
        0 <= i < p.len(),
        disc.contains(start),
        forall|t: Tile| #[trigger] disc.contains(t) ==> closed(g, disc, t),
    ensures
        disc.contains(p[i]),
    decreases i,
{
    if i > 0 {
        lemma_closed_reach(g, disc, p, start, goal, i - 1);
        assert(adjacent(p[i - 1], p[i]));
        assert(g.passable(p[i]));
        let d = lemma_adjacent_step(p[i - 1], p[i]);
        assert(closed(g, disc, p[i - 1]));
        assert(g.passable(step(p[i - 1], d)));
    }
}

/// Toward the goal: a tile of the grid other than `e` has a neighbour in the grid that is one
/// step closer to `e`.
proof fn lemma_toward(g: GridView, t: Tile, e: Tile) -> (d: int)
    requires
        g.in_bounds(t),
        g.in_bounds(e),
        t != e,
    ensures
        0 <= d < 4,
        g.in_bounds(step(t, d)),
        manhattan(step(t, d), e) + 1 == manhattan(t, e),
{
    if t.0 < e.0 {
        0
    } else if t.1 < e.1 {
        1
    } else if t.0 > e.0 {
        2
    } else {
        3
    }
}

fn index_of(w: i32, h: i32, t: Tile, Ghost(g): Ghost<GridView>) -> (i: usize)
    requires
        g.wf(),
        g.width == w,
        g.height == h,
        g.in_bounds(t),
    ensures
        i == idx(g, t),
        i < g.width * g.height,
{
    proof {
        lemma_idx(g, t);
    }
    (t.1 as usize) * (w as usize) + (t.0 as usize)
}

fn tile_at_index(w: i32, h: i32, i: usize, Ghost(g): Ghost<GridView>) -> (t: Tile)
    requires
        g.wf(),
        g.width == w,
        g.height == h,
        i < g.width * g.height,
    ensures
        t == tile_of(g, i as int),
        g.in_bounds(t),
        idx(g, t) == i,
{
    proof {
        lemma_tile_of(g, i as int);
    }
    ((i % (w as usize)) as i32, (i / (w as usize)) as i32)
}

fn distance(a: Tile, b: Tile) -> (r: i64)
    ensures
        r == manhattan(a, b),
{
    let dx: i64 = if a.0 >= b.0 {
        a.0 as i64 - b.0 as i64
    } else {
        b.0 as i64 - a.0 as i64
    };
    let dy: i64 = if a.1 >= b.1 {
        a.1 as i64 - b.1 as i64
    } else {
        b.1 as i64 - a.1 as i64
    };
    dx + dy
}

/// The smallest distance to `end` among discovered, unvisited tiles, if any.
fn frontier_min(
    grid: &Grid,
    end: Tile,
    discovered: &Vec<bool>,
    visited: &Vec<bool>,
    Ghost(disc): Ghost<Set<Tile>>,
    Ghost(vis): Ghost<Set<Tile>>,
) -> (r: Option<i64>)
    requires
        grid.wf(),
        sync(grid@, discovered@, disc),
        sync(grid@, visited@, vis),
    ensures
        match r {
            None => forall|t: Tile| #[trigger] disc.contains(t) ==> vis.contains(t),
            Some(k) => {
                &&& exists|t: Tile|
                    #[trigger] disc.contains(t) && !vis.contains(t) && manhattan(t, end) == k
                &&& forall|t: Tile| #[trigger]
                    disc.contains(t) && !vis.contains(t) ==> manhattan(t, end) >= k
            },
        },
{
    let ghost g = grid@;
    let w = grid.width();
    let h = grid.height();
    let n: usize = discovered.len();
    let mut found = false;
    let mut best: i64 = 0;
    let mut i: usize = 0;
    while i < n
        invariant
            g == grid@,
            g.wf(),
            w == g.width,
            h == g.height,
            n == g.width * g.height,
            sync(g, discovered@, disc),
            sync(g, visited@, vis),
            0 <= i <= n,
            forall|j: int|
                #![trigger discovered@[j]]
                0 <= j < i && discovered@[j] && !visited@[j] ==> found && manhattan(
                    tile_of(g, j),
                    end,
                ) >= best,
            found ==> exists|t: Tile|
                #[trigger] disc.contains(t) && !vis.contains(t) && manhattan(t, end) == best,
        decreases n - i,
    {
        let ghost best0 = best;
        let ghost found0 = found;
        if discovered[i] && !visited[i] {
            let t = tile_at_index(w, h, i, Ghost(g));
            let k = distance(t, end);
            assert(disc.contains(t) && !vis.contains(t));
            if !found || k < best {
                found = true;
                best = k;
            }
            assert(found && best <= k);
            assert(found0 ==> best <= best0);
        }
        proof {
            assert forall|j: int|
                #![trigger discovered@[j]]
                0 <= j < i + 1 && discovered@[j] && !visited@[j] implies found && manhattan(
                    tile_of(g, j),
                    end,
                ) >= best by {
                if j < i {
                    assert(found0 && manhattan(tile_of(g, j), end) >= best0);
                }
            }
        }
        i += 1;
    }
    proof {
        assert forall|t: Tile| #[trigger] disc.contains(t) && !vis.contains(t) implies found
            && manhattan(t, end) >= best by {
            lemma_idx(g, t);
            assert(discovered@[idx(g, t)] && !visited@[idx(g, t)]);
        }
    }
    if found {
        Some(best)
    } else {
        None
    }
}

/// The discovered, unvisited tiles at distance `k` from `end`, in row-major order.
fn frontier_bucket(
    grid: &Grid,
    end: Tile,
    k: i64,
    discovered: &Vec<bool>,
    visited: &Vec<bool>,
    Ghost(disc): Ghost<Set<Tile>>,
    Ghost(vis): Ghost<Set<Tile>>,
) -> (r: Vec<Tile>)
    requires
        grid.wf(),
        sync(grid@, discovered@, disc),
        sync(grid@, visited@, vis),
    ensures
        forall|m: int|
            0 <= m < r@.len() ==> disc.contains(#[trigger] r@[m]) && !vis.contains(r@[m])
                && manhattan(r@[m], end) == k,
        (exists|t: Tile| #[trigger]
            disc.contains(t) && !vis.contains(t) && manhattan(t, end) == k) ==> r@.len() > 0,
{
    let ghost g = grid@;
    let w = grid.width();
    let h = grid.height();
    let n: usize = discovered.len();
    let mut r: Vec<Tile> = Vec::new();
    let mut i: usize = 0;
    while i < n
        invariant
            g == grid@,
            g.wf(),
            w == g.width,
            h == g.height,
            n == g.width * g.height,
            sync(g, discovered@, disc),
            sync(g, visited@, vis),
            0 <= i <= n,
            forall|m: int|
                0 <= m < r@.len() ==> disc.contains(#[trigger] r@[m]) && !vis.contains(r@[m])
                    && manhattan(r@[m], end) == k,
            forall|j: int|
                0 <= j < i && discovered@[j] && !visited@[j] && manhattan(
                    #[trigger] tile_of(g, j),
                    end,
                ) == k ==> r@.len() > 0,
        decreases n - i,
    {
        if discovered[i] && !visited[i] {
            let t = tile_at_index(w, h, i, Ghost(g));
            assert(disc.contains(t) && !vis.contains(t));
            if distance(t, end) == k {
                r.push(t);
            }
        }
        i += 1;
    }
    proof {
        if exists|t: Tile| #[trigger] disc.contains(t) && !vis.contains(t) && manhattan(t, end) == k {
            let t = choose|t: Tile| #[trigger] disc.contains(t) && !vis.contains(t) && manhattan(t, end) == k;
            lemma_idx(g, t);
            assert(discovered@[idx(g, t)] && !visited@[idx(g, t)]);
        }
    }
    r
}

/// The neighbour of `t` in direction `d`.
fn neighbour(t: Tile, d: usize, Ghost(g): Ghost<GridView>) -> (a: Tile)
    requires
        g.wf(),
        g.in_bounds(t),
        d < 4,
    ensures
        a == step(t, d as int),
        adjacent(t, a),
{
    proof {
        assert(g.width <= g.width * g.cell_width) by (nonlinear_arith)
            requires
                g.width >= 0,
                g.cell_width >= 1,
        ;
        assert(g.height <= g.height * g.cell_height) by (nonlinear_arith)
            requires
                g.height >= 0,
                g.cell_height >= 1,
        ;
    }
    if d == 0 {
        (t.0 + 1, t.1)
    } else if d == 1 {
        (t.0, t.1 + 1)
    } else if d == 2 {
        (t.0 - 1, t.1)
    } else {
        (t.0, t.1 - 1)
    }
}

/// Walks the predecessor links back from `last`, a discovered tile next to `end`, and returns
/// the route from `start` to `end`.
fn trace_back(
    grid: &Grid,
    start: Tile,
    end: Tile,
    last: Tile,
    pred: &Vec<Tile>,
    Ghost(disc): Ghost<Set<Tile>>,
    Ghost(vis): Ghost<Set<Tile>>,
    Ghost(par): Ghost<Map<Tile, Tile>>,
    Ghost(dist): Ghost<Map<Tile, int>>,
) -> (p: Vec<Tile>)
    requires
        grid.wf(),
        tree(grid@, start, end, disc, vis, par, dist),
        pred_sync(grid@, start, pred@, disc, par),
        forall|t: Tile| #[trigger] disc.contains(t) ==> grid@.in_bounds(t),
        disc.contains(last),
        adjacent(last, end),
    ensures
        is_path(grid@, p@, start, end),
        p@.no_duplicates(),
        p@.len() == dist[last] + 2,
{
    let ghost g = grid@;
    let w = grid.width();
    let h = grid.height();
    let mut rev: Vec<Tile> = Vec::new();
    rev.push(end);
    rev.push(last);
    let mut cur = last;
    while !(cur.0 == start.0 && cur.1 == start.1)
        invariant
            g == grid@,
            g.wf(),
            w == g.width,
            h == g.height,
            tree(g, start, end, disc, vis, par, dist),
            pred_sync(g, start, pred@, disc, par),
            forall|t: Tile| #[trigger] disc.contains(t) ==> g.in_bounds(t),
            disc.contains(cur),
            rev@.len() >= 2,
            rev@[0] == end,
            rev@.last() == cur,
            rev@.len() + dist[cur] == dist[last] + 2,
            forall|m: int| 0 <= m < rev@.len() - 1 ==> adjacent(#[trigger] rev@[m + 1], rev@[m]),
            forall|m: int| 0 <= m < rev@.len() - 1 ==> g.passable(#[trigger] rev@[m]),
            forall|m: int|
                1 <= m < rev@.len() ==> disc.contains(#[trigger] rev@[m]) && dist[rev@[m]] == dist[last]
                    + 1 - m,
        decreases dist[cur],
    {
        let ci = index_of(w, h, cur, Ghost(g));
        let p = pred[ci];
        assert(p == par[cur]);
        rev.push(p);
        cur = p;
    }
    let mut out: Vec<Tile> = Vec::new();
    let mut i: usize = rev.len();
    while i > 0
        invariant
            0 <= i <= rev@.len(),
            out@.len() == rev@.len() - i,
            forall|m: int| 0 <= m < out@.len() ==> out@[m] == rev@[rev@.len() - 1 - m],
        decreases i,
    {
        i -= 1;
        out.push(rev[i]);
    }
    proof {
        let len = rev@.len();
        assert forall|m: int| 1 <= m < out@.len() implies #[trigger] g.passable(out@[m]) by {
            assert(out@[m] == rev@[len - 1 - m]);
        }
        assert forall|m: int| 0 <= m < out@.len() - 1 implies adjacent(#[trigger] out@[m], out@[m + 1]) by {
            assert(out@[m] == rev@[(len - 2 - m) + 1]);
            assert(out@[m + 1] == rev@[len - 2 - m]);
        }
        assert forall|a: int, b: int| 0 <= a < out@.len() && 0 <= b < out@.len() && a != b implies out@[a] != out@[b] by {
            let (ra, rb) = (len - 1 - a, len - 1 - b);
            assert(out@[a] == rev@[ra]);
            assert(out@[b] == rev@[rb]);
            if ra == 0 {
                assert(disc.contains(rev@[rb]));
            } else if rb == 0 {
                assert(disc.contains(rev@[ra]));
            } else {
                assert(dist[rev@[ra]] != dist[rev@[rb]]);
            }
        }
    }
    out
}

/// Searches for a route from `start` to `end` that steps between 4-directionally adjacent
/// tiles of the grid and avoids occupied tiles (the start itself is exempt).
///
/// The frontier is expanded a whole priority level at a time, smallest first, where a tile's
/// priority is its Manhattan distance to `end`; within a level tiles go in row-major order and
/// neighbours are examined in the order +x, +y, -x, -y. A tile keeps the predecessor it was first
/// discovered from. The route is returned as soon as `end` is seen as a neighbour. It never
/// visits a tile twice, and on a grid with nothing occupied it is a shortest one; since the
/// priority ignores the distance already travelled, around obstacles it need not be.
pub fn find_path(start: Tile, end: Tile, grid: &Grid) -> (r: Option<Vec<Tile>>)
    requires
        grid.wf(),
    ensures
        match r {
            Some(p) => is_path(grid@, p@, start, end) && p@.no_duplicates(),
            None => !path_exists(grid@, start, end),
        },
        start == end && grid@.in_bounds(start) ==> (r matches Some(p) && p@ == seq![start]),
        open_grid(grid@) && grid@.in_bounds(start) && grid@.in_bounds(end) ==> (r matches Some(p)
            && p@.len() == manhattan(start, end) + 1),
{
    let ghost g = grid@;
    let w = grid.width();
    let h = grid.height();
    if !(start.0 >= 0 && start.0 < w && start.1 >= 0 && start.1 < h) {
        return None;
    }
    if start.0 == end.0 && start.1 == end.1 {
        let mut p: Vec<Tile> = Vec::new();
        p.push(start);
        assert(p@ =~= seq![start]);
        return Some(p);
    }
    if !grid.passable(end) {
        proof {
            if path_exists(g, start, end) {
                let p = choose|p: Seq<Tile>| is_path(g, p, start, end);
                assert(g.passable(p[p.len() - 1]));
            }
        }
        return None;
    }
    let n: usize = (w as usize) * (h as usize);
    let mut discovered: Vec<bool> = Vec::new();
    let mut visited: Vec<bool> = Vec::new();
    let mut pred: Vec<Tile> = Vec::new();
    let mut i: usize = 0;
    while i < n
        invariant
            0 <= i <= n,
            discovered@.len() == i,
            visited@.len() == i,
            pred@.len() == i,
            forall|m: int| 0 <= m < i ==> !discovered@[m] && !visited@[m],
        decreases n - i,
    {
        discovered.push(false);
        visited.push(false);
        pred.push(start);
        i += 1;
    }
    proof {
        assert forall|t: Tile| g.in_bounds(t) implies discovered@[idx(g, t)] == Set::<Tile>::empty().contains(t)
            && visited@[idx(g, t)] == Set::<Tile>::empty().contains(t) by {
            lemma_idx(g, t);
        }
    }
    let si = index_of(w, h, start, Ghost(g));
    proof {
        lemma_sync_insert(g, discovered@, Set::empty(), start);
    }
    discovered.set(si, true);
    let ghost mut disc: Set<Tile> = Set::empty().insert(start);
    let ghost mut vis: Set<Tile> = Set::empty();
    let ghost mut par: Map<Tile, Tile> = Map::empty();
    let ghost mut dist: Map<Tile, int> = Map::empty().insert(start, 0);
    let ghost d0 = manhattan(start, end);
    let ghost mut lvl: int = d0 + 1;
    proof {
        assert(sync(g, visited@, vis));
        assert(disc.contains(start) && !vis.contains(start) && manhattan(start, end) == lvl - 1);
    }
    loop
        invariant
            g == grid@,
            g.wf(),
            w == g.width,
            h == g.height,
            n == g.width * g.height,
            sync(g, discovered@, disc),
            sync(g, visited@, vis),
            pred_sync(g, start, pred@, disc, par),
            tree(g, start, end, disc, vis, par, dist),
            forall|t: Tile| #[trigger] vis.contains(t) ==> closed(g, disc, t),
            d0 == manhattan(start, end),
            open_grid(g) ==> {
                &&& forall|t: Tile| #[trigger] disc.contains(t) ==> manhattan(t, end) >= lvl - 1
                &&& forall|t: Tile| #[trigger]
                    disc.contains(t) && manhattan(t, end) <= lvl - 1 ==> dist[t] + manhattan(t, end) == d0
                &&& forall|t: Tile| #[trigger] vis.contains(t) ==> manhattan(t, end) >= lvl
                &&& exists|t: Tile|
                    #[trigger] disc.contains(t) && !vis.contains(t) && manhattan(t, end) == lvl - 1
            },
        decreases n - count_true(visited@),
    {
        let k = match frontier_min(grid, end, &discovered, &visited, Ghost(disc), Ghost(vis)) {
            None => {
                proof {
                    assert forall|t: Tile| #[trigger] disc.contains(t) implies closed(g, disc, t) by {
                        assert(vis.contains(t));
                    }
                    if path_exists(g, start, end) {
                        let p = choose|p: Seq<Tile>| is_path(g, p, start, end);
                        lemma_closed_reach(g, disc, p, start, end, p.len() - 1);
                    }
                }
                return None;
            },
            Some(k) => k,
        };
        let nodes = frontier_bucket(grid, end, k, &discovered, &visited, Ghost(disc), Ghost(vis));
        let ghost c0 = count_true(visited@);
        proof {
            lemma_count_bound(visited@);
            if open_grid(g) {
                let t = choose|t: Tile|
                    #[trigger] disc.contains(t) && !vis.contains(t) && manhattan(t, end) == lvl - 1;
                assert(manhattan(t, end) >= k);
                let u = choose|u: Tile|
                    #[trigger] disc.contains(u) && !vis.contains(u) && manhattan(u, end) == k;
                assert(manhattan(u, end) >= lvl - 1);
                assert(k == lvl - 1);
            }
        }
        let mut j: usize = 0;
        while j < nodes.len()
            invariant
                g == grid@,
                g.wf(),
                w == g.width,
                h == g.height,
                n == g.width * g.height,
                sync(g, discovered@, disc),
                sync(g, visited@, vis),
                pred_sync(g, start, pred@, disc, par),
                tree(g, start, end, disc, vis, par, dist),
                forall|t: Tile| #[trigger] vis.contains(t) ==> closed(g, disc, t),
                d0 == manhattan(start, end),
                0 <= j <= nodes@.len(),
                nodes@.len() > 0,
                forall|m: int|
                    0 <= m < nodes@.len() ==> disc.contains(#[trigger] nodes@[m]) && manhattan(
                        nodes@[m],
                        end,
                    ) == k,
                j == 0 ==> !vis.contains(nodes@[0]) && count_true(visited@) == c0,
                j > 0 ==> vis.contains(nodes@[0]) && count_true(visited@) > c0,
                c0 <= n,
                open_grid(g) ==> {
                    &&& forall|t: Tile| #[trigger] disc.contains(t) ==> manhattan(t, end) >= k - 1
                    &&& forall|t: Tile| #[trigger]
                        disc.contains(t) && manhattan(t, end) <= k ==> dist[t] + manhattan(t, end) == d0
                    &&& forall|t: Tile| #[trigger] vis.contains(t) ==> manhattan(t, end) >= k
                },
            decreases nodes@.len() - j,
        {
            let cur = nodes[j];
            assert(disc.contains(cur) && manhattan(cur, end) == k);
            let ci = index_of(w, h, cur, Ghost(g));
            proof {
                lemma_sync_insert(g, visited@, vis, cur);
                lemma_count_set(visited@, ci as int);
                lemma_count_bound(visited@.update(ci as int, true));
            }
            visited.set(ci, true);
            proof {
                vis = vis.insert(cur);
            }
            let mut d: usize = 0;
            while d < 4
                invariant
                    g == grid@,
                    g.wf(),
                    w == g.width,
                    h == g.height,
                    n == g.width * g.height,
                    sync(g, discovered@, disc),
                    sync(g, visited@, vis),
                    pred_sync(g, start, pred@, disc, par),
                    tree(g, start, end, disc, vis, par, dist),
                    vis.contains(cur),
                    g.in_bounds(cur),
                    manhattan(cur, end) == k,
                    forall|t: Tile| #[trigger] vis.contains(t) && t != cur ==> closed(g, disc, t),
                    forall|dd: int|
                        0 <= dd < d ==> (#[trigger] g.passable(step(cur, dd)) ==> disc.contains(
                            step(cur, dd),
                        )),
                    d0 == manhattan(start, end),
                    0 <= d <= 4,
                    forall|m: int|
                        0 <= m < nodes@.len() ==> disc.contains(#[trigger] nodes@[m]) && manhattan(
                            nodes@[m],
                            end,
                        ) == k,
                    nodes@.len() > 0,
                    vis.contains(nodes@[0]),
                    count_true(visited@) > c0,
                    open_grid(g) ==> {
                        &&& forall|t: Tile| #[trigger] disc.contains(t) ==> manhattan(t, end) >= k - 1
                        &&& forall|t: Tile| #[trigger]
                            disc.contains(t) && manhattan(t, end) <= k ==> dist[t] + manhattan(t, end)
                                == d0
                        &&& forall|t: Tile| #[trigger] vis.contains(t) ==> manhattan(t, end) >= k
                    },
                decreases 4 - d,
            {
                let a = neighbour(cur, d, Ghost(g));
                proof {
                    lemma_adjacent_manhattan(cur, a, end);
                }
                if grid.passable(a) {
                    let ai = index_of(w, h, a, Ghost(g));
                    if !visited[ai] {
                        if a.0 == end.0 && a.1 == end.1 {
                            let p = trace_back(
                                grid,
                                start,
                                end,
                                cur,
                                &pred,
                                Ghost(disc),
                                Ghost(vis),
                                Ghost(par),
                                Ghost(dist),
                            );
                            return Some(p);
                        }
                        if !discovered[ai] {
                            proof {
                                lemma_sync_insert(g, discovered@, disc, a);
                                lemma_pred_insert(g, start, pred@, disc, par, a, cur);
                            }
                            discovered.set(ai, true);
                            pred.set(ai, cur);
                            proof {
                                let ghost dc = dist[cur];
                                disc = disc.insert(a);
                                par = par.insert(a, cur);
                                dist = dist.insert(a, dc + 1);
                            }
                        }
                    }
                }
                d += 1;
            }
            j += 1;
        }
        proof {
            if open_grid(g) {
                let t = nodes@[0];
                let e = lemma_toward(g, t, end);
                let a = step(t, e);
                assert(g.passable(a));
                assert(closed(g, disc, t));
                assert(disc.contains(a));
                assert(!vis.contains(a));
            }
            lvl = k as int;
            lemma_count_bound(visited@);
        }
    }
}

} // verus!
