use vstd::arithmetic::div_mod::{
    lemma_div_by_multiple, lemma_fundamental_div_mod, lemma_fundamental_div_mod_converse,
    lemma_mod_pos_bound,
};
use vstd::prelude::*;

use crate::pathfind::{find_path, open_grid};

verus! {

/// A tile coordinate `(x, y)`.
pub type Tile = (i32, i32);

/// The mathematical model of a [`Grid`].
pub ghost struct GridView {
    pub width: int,
    pub height: int,
    pub cell_width: int,
    pub cell_height: int,
    pub occupied: Set<Tile>,
}

impl GridView {
    /// Dimensions are non-negative, cells are at least one pixel wide and high, and every
    /// pixel coordinate and tile index of the grid fits an `i32`.
    pub open spec fn wf(self) -> bool {
        &&& 0 <= self.width
        &&& 0 <= self.height
        &&& 1 <= self.cell_width
        &&& 1 <= self.cell_height
        &&& self.width * self.cell_width <= i32::MAX
        &&& self.height * self.cell_height <= i32::MAX
        &&& self.width * self.height <= i32::MAX
    }

    pub open spec fn in_bounds(self, t: Tile) -> bool {
        0 <= t.0 < self.width && 0 <= t.1 < self.height
    }

    /// A tile that a path may step onto.
    pub open spec fn passable(self, t: Tile) -> bool {
        self.in_bounds(t) && !self.occupied.contains(t)
    }

    /// Pixel rectangle `(left, top, right, bottom)` of a tile.
    pub open spec fn cell_rect(self, x: int, y: int) -> (int, int, int, int) {
        (
            x * self.cell_width,
            y * self.cell_height,
            x * self.cell_width + self.cell_width,
            y * self.cell_height + self.cell_height,
        )
    }

    /// The pixel rectangle of tile `(x, y)` has all four sides within `i32`.
    pub open spec fn cell_rect_fits(self, x: int, y: int) -> bool {
        let r = self.cell_rect(x, y);
        &&& i32::MIN <= r.0 && r.2 <= i32::MAX
        &&& i32::MIN <= r.1 && r.3 <= i32::MAX
    }

    /// The tile holding a pixel: floor division by the cell size, kept only inside the grid.
    /// (For a positive divisor `/` on `int` is floor division.)
    pub open spec fn tile_at(self, pos: (i32, i32)) -> Option<Tile> {
        let x = pos.0 as int / self.cell_width;
        let y = pos.1 as int / self.cell_height;
        if 0 <= x < self.width && 0 <= y < self.height {
            Some((x as i32, y as i32))
        } else {
            None
        }
    }
}

/// Tiles that are 4-directionally adjacent.
pub open spec fn adjacent(a: Tile, b: Tile) -> bool {
    ||| (a.0 == b.0 && (a.1 - b.1 == 1 || b.1 - a.1 == 1))
    ||| (a.1 == b.1 && (a.0 - b.0 == 1 || b.0 - a.0 == 1))
}

/// Manhattan distance between two tiles.
pub open spec fn manhattan(a: Tile, b: Tile) -> int {
    let dx = if a.0 >= b.0 { a.0 - b.0 } else { b.0 - a.0 };
    let dy = if a.1 >= b.1 { a.1 - b.1 } else { b.1 - a.1 };
    dx + dy
}

/// A route from `start` to `goal`, both included: every step goes to an adjacent tile, every
/// tile lies in the grid, and none but the start is occupied.
pub open spec fn is_path(g: GridView, p: Seq<Tile>, start: Tile, goal: Tile) -> bool {
    &&& p.len() >= 1
    &&& p[0] == start
    &&& p.last() == goal
    &&& g.in_bounds(start)
    &&& forall|i: int| 1 <= i < p.len() ==> #[trigger] g.passable(p[i])
    &&& forall|i: int| 0 <= i < p.len() - 1 ==> adjacent(#[trigger] p[i], p[i + 1])
}

pub open spec fn path_exists(g: GridView, start: Tile, goal: Tile) -> bool {
    exists|p: Seq<Tile>| is_path(g, p, start, goal)
}

/// A rectangular board of tiles, each `cell_width` by `cell_height` pixels, with a set of
/// occupied tiles.
pub struct Grid {
    width: i32,
    height: i32,
    cell_width: i32,
    cell_height: i32,
    occupied: Vec<Tile>,
}

impl View for Grid {
    type V = GridView;

    closed spec fn view(&self) -> GridView {
        GridView {
            width: self.width as int,
            height: self.height as int,
            cell_width: self.cell_width as int,
            cell_height: self.cell_height as int,
            occupied: Set::new(|t: Tile| self.occupied@.contains(t)),
        }
    }
}

/// `floor(p / d)` for a positive `d`.
fn floor_div(p: i32, d: i32) -> (r: i32)
    requires
        d >= 1,
    ensures
        r as int == p as int / d as int,
{
    if p >= 0 {
        let q = (p as u32) / (d as u32);
        proof {
            lemma_fundamental_div_mod(p as int, d as int);
            lemma_mod_pos_bound(p as int, d as int);
            assert(0 <= q <= p) by (nonlinear_arith)
                requires
                    q == p as int / d as int,
                    p as int == d * q + p as int % d as int,
                    0 <= p as int % d as int,
                    d >= 1,
                    p >= 0,
            ;
        }
        q as i32
    } else {
        let m: i64 = -(p as i64);
        let s: i64 = m + (d as i64) - 1;
        let q: i64 = s / (d as i64);
        proof {
            lemma_fundamental_div_mod(s as int, d as int);
            lemma_mod_pos_bound(s as int, d as int);
            let r = s as int % d as int;
            assert(p as int == (-q) * d + (d - 1 - r)) by (nonlinear_arith)
                requires
                    s as int == d * q + r,
                    s == m + d - 1,
                    m == -p,
            ;
            lemma_fundamental_div_mod_converse(p as int, d as int, -q, d - 1 - r);
            assert(0 <= q * d <= s) by (nonlinear_arith)
                requires
                    s as int == d * q + r,
                    0 <= r < d,
                    s >= 0,
                    d >= 1,
            ;
            assert(0 <= q <= m) by (nonlinear_arith)
                requires
                    0 <= q * d <= s,
                    s == m + d - 1,
                    m >= 1,
                    d >= 1,
            ;
        }
        (-q) as i32
    }
}

impl Grid {
    pub open spec fn wf(&self) -> bool {
        self@.wf()
    }

    /// A grid of `width` by `height` tiles with nothing occupied.
    pub fn new(width: i32, height: i32, cell_width: i32, cell_height: i32) -> (g: Grid)
        requires
            (GridView {
                width: width as int,
                height: height as int,
                cell_width: cell_width as int,
                cell_height: cell_height as int,
                occupied: Set::empty(),
            }).wf(),
        ensures
            g.wf(),
            g@.width == width,
            g@.height == height,
            g@.cell_width == cell_width,
            g@.cell_height == cell_height,
            g@.occupied == Set::<Tile>::empty(),
    {
        let g = Grid { width, height, cell_width, cell_height, occupied: Vec::new() };
        assert(g@.occupied =~= Set::<Tile>::empty());
        g
    }

    pub fn width(&self) -> (r: i32)
        ensures
            r == self@.width,
    {
        self.width
    }

    pub fn height(&self) -> (r: i32)
        ensures
            r == self@.height,
    {
        self.height
    }

    pub fn cell_width(&self) -> (r: i32)
        ensures
            r == self@.cell_width,
    {
        self.cell_width
    }

    pub fn cell_height(&self) -> (r: i32)
        ensures
            r == self@.cell_height,
    {
        self.cell_height
    }

    /// Pixel rectangle `(left, top, right, bottom)` of tile `(x, y)`.
    pub fn cell_rect(&self, x: i32, y: i32) -> (r: (i32, i32, i32, i32))
        requires
            self.wf(),
            self@.cell_rect_fits(x as int, y as int),
        ensures
            (r.0 as int, r.1 as int, r.2 as int, r.3 as int) == self@.cell_rect(x as int, y as int),
    {
        let (px, py) = (x * self.cell_width, y * self.cell_height);
        (px, py, px + self.cell_width, py + self.cell_height)
    }

    /// The tile under pixel `pos`, or `None` outside the grid.
    pub fn tile_at(&self, pos: (i32, i32)) -> (r: Option<Tile>)
        requires
            self.wf(),
        ensures
            r == self@.tile_at(pos),
    {
        let tx = floor_div(pos.0, self.cell_width);
        let ty = floor_div(pos.1, self.cell_height);
        if tx >= 0 && tx < self.width && ty >= 0 && ty < self.height {
            Some((tx, ty))
        } else {
            None
        }
    }

    /// Marks `tile` occupied or free.
    pub fn set_occupied(&mut self, tile: Tile, occupied: bool)
        requires
            old(self).wf(),
        ensures
            final(self).wf(),
            final(self)@.width == old(self)@.width,
            final(self)@.height == old(self)@.height,
            final(self)@.cell_width == old(self)@.cell_width,
            final(self)@.cell_height == old(self)@.cell_height,
            final(self)@.occupied == (if occupied {
                old(self)@.occupied.insert(tile)
            } else {
                old(self)@.occupied.remove(tile)
            }),
    {
        if occupied {
            if !self.occupied(&tile) {
                self.occupied.push(tile);
                proof {
                    let n = old(self).occupied@.len() as int;
                    assert forall|u: Tile| #[trigger]
                        self.occupied@.contains(u) == (old(self).occupied@.contains(u) || u == tile) by {
                        if self.occupied@.contains(u) {
                            let k = choose|k: int| 0 <= k < self.occupied@.len() && self.occupied@[k] == u;
                            if k < n {
                                assert(old(self).occupied@[k] == u);
                            }
                        }
                        if old(self).occupied@.contains(u) {
                            let k = choose|k: int| 0 <= k < n && old(self).occupied@[k] == u;
                            assert(self.occupied@[k] == u);
                        }
                        if u == tile {
                            assert(self.occupied@[n] == u);
                        }
                    }
                }
            }
            assert(self@.occupied =~= old(self)@.occupied.insert(tile));
        } else {
            let mut kept: Vec<Tile> = Vec::new();
            let mut i: usize = 0;
            while i < self.occupied.len()
                invariant
                    0 <= i <= self.occupied.len(),
                    forall|u: Tile| #[trigger]
                        kept@.contains(u) <==> ((exists|k: int|
                            0 <= k < i && self.occupied@[k] == u) && u != tile),
                decreases self.occupied.len() - i,
            {
                let t = self.occupied[i];
                let ghost before = kept@;
                if t.0 != tile.0 || t.1 != tile.1 {
                    kept.push(t);
                }
                proof {
                    assert forall|u: Tile| #[trigger]
                        kept@.contains(u) <==> ((exists|k: int|
                            0 <= k < i + 1 && self.occupied@[k] == u) && u != tile) by {
                        if kept@.contains(u) {
                            let j = choose|j: int| 0 <= j < kept@.len() && kept@[j] == u;
                            if j < before.len() {
                                assert(before[j] == u);
                                assert(before.contains(u));
                            } else {
                                assert(self.occupied@[i as int] == u);
                            }
                        }
                        if (exists|k: int| 0 <= k < i + 1 && self.occupied@[k] == u) && u != tile {
                            let k = choose|k: int| 0 <= k < i + 1 && self.occupied@[k] == u;
                            if k < i {
                                assert(before.contains(u));
                                let j = choose|j: int| 0 <= j < before.len() && before[j] == u;
                                assert(kept@[j] == u);
                            } else {
                                assert(kept@[kept@.len() - 1] == u);
                            }
                        }
                    }
                }
                i += 1;
            }
            self.occupied = kept;
            proof {
                assert forall|u: Tile|
                    self@.occupied.contains(u) == old(self)@.occupied.remove(tile).contains(u) by {
                    if old(self).occupied@.contains(u) && u != tile {
                        let k = choose|k: int| 0 <= k < old(self).occupied@.len() && old(self).occupied@[k] == u;
                        assert(self.occupied@.contains(u));
                    }
                }
            }
            assert(self@.occupied =~= old(self)@.occupied.remove(tile));
        }
    }

    /// Whether `tile` is occupied.
    pub fn occupied(&self, tile: &Tile) -> (r: bool)
        ensures
            r == self@.occupied.contains(*tile),
    {
        let mut i: usize = 0;
        while i < self.occupied.len()
            invariant
                0 <= i <= self.occupied.len(),
                forall|k: int| 0 <= k < i ==> self.occupied@[k] != *tile,
            decreases self.occupied.len() - i,
        {
            if self.occupied[i].0 == tile.0 && self.occupied[i].1 == tile.1 {
                return true;
            }
            i += 1;
        }
        false
    }

    /// The route from `start` to `end` found by [`find_path`], or `None` when there is none.
    pub fn find_path(&self, start: Tile, end: Tile) -> (r: Option<Vec<Tile>>)
        requires
            self.wf(),
        ensures
            match r {
                Some(p) => is_path(self@, p@, start, end) && p@.no_duplicates(),
                None => !path_exists(self@, start, end),
            },
            start == end && self@.in_bounds(start) ==> (r matches Some(p) && p@ == seq![start]),
            open_grid(self@) && self@.in_bounds(start) && self@.in_bounds(end) ==> (r matches Some(p)
                && p@.len() == manhattan(start, end) + 1),
    {
        find_path(start, end, self)
    }

    /// Whether a path may step onto `t`.
    pub fn passable(&self, t: Tile) -> (r: bool)
        ensures
            r == self@.passable(t),
    {
        t.0 >= 0 && t.0 < self.width && t.1 >= 0 && t.1 < self.height && !self.occupied(&t)
    }
}

/// Every tile of a well-formed grid has a rectangle within `i32`.
pub proof fn lemma_cell_rect_fits(g: GridView, t: Tile)
    requires
        g.wf(),
        g.in_bounds(t),
    ensures
        g.cell_rect_fits(t.0 as int, t.1 as int),
{
    let (w, h, cw, ch) = (g.width, g.height, g.cell_width, g.cell_height);
    assert(0 <= t.0 * cw && t.0 * cw + cw <= w * cw) by (nonlinear_arith)
        requires
            0 <= t.0 < w,
            cw >= 1,
    ;
    assert(0 <= t.1 * ch && t.1 * ch + ch <= h * ch) by (nonlinear_arith)
        requires
            0 <= t.1 < h,
            ch >= 1,
    ;
}

/// The cell origin of every tile maps back to that tile.
pub proof fn lemma_tile_at_cell_origin(g: GridView, t: Tile)
    requires
        g.wf(),
        g.in_bounds(t),
    ensures
        ({
            let r = g.cell_rect(t.0 as int, t.1 as int);
            g.tile_at((r.0 as i32, r.1 as i32)) == Some(t)
        }),
{
    let r = g.cell_rect(t.0 as int, t.1 as int);
    assert(0 <= r.0 <= g.width * g.cell_width) by (nonlinear_arith)
        requires
            r.0 == t.0 * g.cell_width,
            0 <= t.0 < g.width,
            g.cell_width >= 1,
    ;
    assert(0 <= r.1 <= g.height * g.cell_height) by (nonlinear_arith)
        requires
            r.1 == t.1 * g.cell_height,
            0 <= t.1 < g.height,
            g.cell_height >= 1,
    ;
    lemma_div_by_multiple(t.0 as int, g.cell_width);
    lemma_div_by_multiple(t.1 as int, g.cell_height);
}

} // verus!
