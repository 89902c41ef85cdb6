//! A dense rectangular grid map with eight-way movement: every in-bounds,
//! passable cell around a point is a neighbour, diagonals included, each
//! at the cost stored for the entered cell.

use vstd::prelude::*;
use vstd::arithmetic::div_mod::lemma_fundamental_div_mod_converse;
use vstd::seq_lib::seq_to_set_is_finite;
use vstd::set_lib::lemma_len_subset;
use crate::point::Point;
use crate::basemap::{BaseMap, is_edge};

verus! {

/// Step cost of entering an ordinary floor cell: one orthogonal step.
pub const FLOOR_COST: u32 = 1000;

/// Cost marking a cell that cannot be entered at all.
pub const IMPASSABLE: u32 = 0xFFFF_FFFF;

/// A rectangular grid of cells, each with the cost of stepping into it,
/// stored row by row. A cell with cost `IMPASSABLE` is a wall.
#[derive(Clone)]
pub struct SimpleMap {
    pub width: i32,
    pub height: i32,
    pub costs: Vec<u32>,
}

/// The coordinate offset of each of the eight movement directions.
pub open spec fn dir_delta(k: int) -> (int, int) {
    if k == 0 {
        (1, 0)
    } else if k == 1 {
        (-1, 0)
    } else if k == 2 {
        (0, 1)
    } else if k == 3 {
        (0, -1)
    } else if k == 4 {
        (1, 1)
    } else if k == 5 {
        (-1, -1)
    } else if k == 6 {
        (1, -1)
    } else {
        (-1, 1)
    }
}

impl SimpleMap {
    /// Whether a point lies on the grid.
    pub open spec fn in_bounds(&self, p: Point) -> bool {
        0 <= p@.0 < self.width as int && 0 <= p@.1 < self.height as int
    }

    /// The neighbour entry direction `k` contributes for `p`, if any: the
    /// stepped-to cell must be on the grid, backed by storage, and passable.
    pub open spec fn candidate(&self, p: Point, k: int) -> Option<(Point, u32)> {
        let nx = p@.0 + dir_delta(k).0;
        let ny = p@.1 + dir_delta(k).1;
        let idx = ny * (self.width as int) + nx;
        if 0 <= nx < self.width as int && 0 <= ny < self.height as int && 0 <= idx
            < self.costs@.len() && self.costs@[idx] != IMPASSABLE {
            Some((Point { x: nx as i32, y: ny as i32 }, self.costs@[idx]))
        } else {
            None
        }
    }

    /// The neighbour list contributed by the first `k` directions, in order.
    pub open spec fn nbrs_upto(&self, p: Point, k: int) -> Seq<(Point, u32)>
        decreases k,
    {
        if k <= 0 {
            Seq::empty()
        } else {
            match self.candidate(p, k - 1) {
                Some(e) => self.nbrs_upto(p, k - 1).push(e),
                None => self.nbrs_upto(p, k - 1),
            }
        }
    }

    /// Every enumerated neighbour lies on the grid.
    proof fn lemma_nbrs_in_bounds(&self, p: Point, k: int)
        ensures
            forall|i: int|
                0 <= i < self.nbrs_upto(p, k).len() ==> self.in_bounds(
                    #[trigger] self.nbrs_upto(p, k)[i].0,
                ),
        decreases k,
    {
        if k > 0 {
            self.lemma_nbrs_in_bounds(p, k - 1);
            match self.candidate(p, k - 1) {
                Some(e) => {
                    assert(self.in_bounds(e.0));
                    assert(self.nbrs_upto(p, k) == self.nbrs_upto(p, k - 1).push(e));
                    assert(forall|i: int|
                        0 <= i < self.nbrs_upto(p, k - 1).len() ==> self.nbrs_upto(p, k)[i]
                            == self.nbrs_upto(p, k - 1)[i]);
                    assert(self.nbrs_upto(p, k)[self.nbrs_upto(p, k).len() - 1] == e);
                },
                None => {},
            }
        }
    }
}

impl SimpleMap {
    /// Whether a point is a cell that can be stepped into: on the grid,
    /// backed by storage, and not a wall.
    pub open spec fn passable(&self, p: Point) -> bool {
        let idx = p@.1 * (self.width as int) + p@.0;
        &&& self.in_bounds(p)
        &&& 0 <= idx < self.costs@.len()
        &&& self.costs@[idx] != IMPASSABLE
    }

    /// Whether two points are one move apart under eight-way movement.
    pub open spec fn adjacent(a: Point, b: Point) -> bool {
        exists|k: int|
            0 <= k < 8 && b@ == (a@.0 + (#[trigger] dir_delta(k)).0, a@.1 + dir_delta(k).1)
    }

    /// An earlier direction's contribution survives enumerating the rest.
    proof fn lemma_nbrs_prefix(&self, p: Point, k1: int, k2: int)
        requires
            0 <= k1 <= k2,
        ensures
            self.nbrs_upto(p, k1).len() <= self.nbrs_upto(p, k2).len(),
            forall|i: int|
                0 <= i < self.nbrs_upto(p, k1).len() ==> #[trigger] self.nbrs_upto(p, k2)[i]
                    == self.nbrs_upto(p, k1)[i],
        decreases k2 - k1,
    {
        if k1 < k2 {
            self.lemma_nbrs_prefix(p, k1, k2 - 1);
        }
    }

    /// Each enumerated neighbour comes from some direction's candidate.
    proof fn lemma_nbrs_candidates(&self, p: Point, k: int, i: int)
        requires
            0 <= i < self.nbrs_upto(p, k).len(),
        ensures
            exists|d: int| 0 <= d < k && self.candidate(p, d) == Some(self.nbrs_upto(p, k)[i]),
        decreases k,
    {
        if k > 0 {
            match self.candidate(p, k - 1) {
                Some(e) => {
                    if i < self.nbrs_upto(p, k - 1).len() {
                        self.lemma_nbrs_candidates(p, k - 1, i);
                    } else {
                        assert(self.candidate(p, k - 1) == Some(self.nbrs_upto(p, k)[i]));
                    }
                },
                None => {
                    self.lemma_nbrs_candidates(p, k - 1, i);
                },
            }
        }
    }

    /// The grid offers a step from `a` to `b` exactly when the two are one
    /// move apart and `b` can be stepped into.
    pub proof fn lemma_grid_edge(&self, a: Point, b: Point)
        ensures
            is_edge(self, a, b) <==> (Self::adjacent(a, b) && self.passable(b)),
    {
        if is_edge(self, a, b) {
            let i = choose|i: int|
                0 <= i < self.spec_neighbours(a).len() && self.spec_neighbours(a)[i].0 == b;
            self.lemma_nbrs_candidates(a, 8, i);
            let d = choose|d: int|
                0 <= d < 8 && self.candidate(a, d) == Some(self.nbrs_upto(a, 8)[i]);
            assert(b@ == (a@.0 + dir_delta(d).0, a@.1 + dir_delta(d).1));
        }
        if Self::adjacent(a, b) && self.passable(b) {
            let k = choose|k: int|
                0 <= k < 8 && b@ == (a@.0 + (#[trigger] dir_delta(k)).0, a@.1 + dir_delta(k).1);
            let idx = b@.1 * (self.width as int) + b@.0;
            assert(self.candidate(a, k) == Some((b, self.costs@[idx])));
            let n1 = self.nbrs_upto(a, k + 1);
            assert(n1[n1.len() - 1] == (b, self.costs@[idx]));
            self.lemma_nbrs_prefix(a, k + 1, 8);
            assert(self.spec_neighbours(a)[n1.len() - 1].0 == b);
        }
    }
}

impl BaseMap for SimpleMap {
    open spec fn spec_neighbours(&self, point: Point) -> Seq<(Point, u32)> {
        self.nbrs_upto(point, 8)
    }

    open spec fn universe(&self) -> Set<Point> {
        Set::new(|p: Point| self.in_bounds(p))
    }

    proof fn lemma_universe(&self, point: Point) {
        if self.width <= 0 || self.height <= 0 {
            assert(self.universe() =~= Set::<Point>::empty());
        } else {
            let w = self.width as int;
            let h = self.height as int;
            assert(w * h >= 0) by (nonlinear_arith)
                requires
                    w > 0,
                    h > 0,
            ;
            let all = Seq::new(
                (w * h) as nat,
                |i: int| Point { x: (i % w) as i32, y: (i / w) as i32 },
            );
            assert forall|p: Point| self.universe().contains(p) implies all.to_set().contains(
                p,
            ) by {
                let i = p@.1 * w + p@.0;
                assert(0 <= i < w * h) by (nonlinear_arith)
                    requires
                        i == p@.1 * w + p@.0,
                        0 <= p@.0 < w,
                        0 <= p@.1 < h,
                ;
                lemma_fundamental_div_mod_converse(i, w, p@.1, p@.0);
                assert(all[i] == p);
            }
            seq_to_set_is_finite(all);
            lemma_len_subset(self.universe(), all.to_set());
        }
        self.lemma_nbrs_in_bounds(point, 8);
    }

    fn neighbours(&self, point: Point) -> (r: Vec<(Point, u32)>) {
        let mut result: Vec<(Point, u32)> = Vec::new();
        let dirs: [(i32, i32); 8] = [
            (1, 0),
            (-1, 0),
            (0, 1),
            (0, -1),
            (1, 1),
            (-1, -1),
            (1, -1),
            (-1, 1),
        ];
        let mut k: usize = 0;
        while k < 8
            invariant
                k <= 8,
                result@ == self.nbrs_upto(point, k as int),
                dirs@ =~= Seq::new(8, |i: int| (dir_delta(i).0 as i32, dir_delta(i).1 as i32)),
            decreases 8 - k,
        {
            let (dx, dy) = dirs[k];
            proof {
                assert((dx as int, dy as int) == dir_delta(k as int));
            }
            let nx: i64 = point.x as i64 + dx as i64;
            let ny: i64 = point.y as i64 + dy as i64;
            if 0 <= nx && nx < self.width as i64 && 0 <= ny && ny < self.height as i64 {
                proof {
                    assert(0 <= ny * (self.width as int) && ny * (self.width as int) <= (
                    0x8000_0000i64 as int) * (0x8000_0000i64 as int)) by (nonlinear_arith)
                        requires
                            0 <= ny < 0x8000_0000i64,
                            0 < self.width as int && (self.width as int) <= 0x8000_0000i64 as int,
                    ;
                }
                let idx: i64 = ny * (self.width as i64) + nx;
                if (idx as u64) < (self.costs.len() as u64) {
                    let c = self.costs[idx as usize];
                    if c != IMPASSABLE {
                        result.push((Point::new(nx as i32, ny as i32), c));
                    }
                }
            }
            k = k + 1;
        }
        result
    }

    fn is_transparent(&self, point: Point) -> bool {
        // Walls block light; everything else lets it through.
        let mut transparent = true;
        if 0 <= point.x && point.x < self.width && 0 <= point.y && point.y < self.height {
            proof {
                assert(0 <= (point.y as int) * (self.width as int) && (point.y as int) * (
                self.width as int) <= (0x8000_0000i64 as int) * (0x8000_0000i64 as int))
                    by (nonlinear_arith)
                    requires
                        0 <= point.y as int && (point.y as int) < 0x8000_0000,
                        0 < self.width as int && (self.width as int) <= 0x8000_0000,
                ;
            }
            let idx: i64 = (point.y as i64) * (self.width as i64) + (point.x as i64);
            if (idx as u64) < (self.costs.len() as u64) {
                transparent = self.costs[idx as usize] != IMPASSABLE;
            }
        }
        transparent
    }
}

impl SimpleMap {
    /// Build a grid from a matrix of flags, one row per inner vector, where
    /// a zero is a floor cell of cost `FLOOR_COST` and anything else is a
    /// wall. The matrix must be rectangular and non-empty.
    pub fn from_prefab(prefab: &Vec<Vec<i32>>) -> (r: Self)
        requires
            0 < prefab@.len() <= i32::MAX,
            0 < prefab@[0]@.len() <= i32::MAX,
            forall|y: int| 0 <= y < prefab@.len() ==> (#[trigger] prefab@[y])@.len()
                == prefab@[0]@.len(),
        ensures
            r.width as int == prefab@[0]@.len(),
            r.height as int == prefab@.len(),
            r.costs@.len() == prefab@.len() * prefab@[0]@.len(),
            forall|y: int, x: int|
                0 <= y < prefab@.len() && 0 <= x < prefab@[0]@.len() ==> r.costs@[y * prefab@[0]@.len()
                    + x] == (if prefab@[y]@[x] == 0 {
                    FLOOR_COST
                } else {
                    IMPASSABLE
                }),
    {
        let height = prefab.len();
        let width = prefab[0].len();
        let ghost w = width as int;
        let mut costs: Vec<u32> = Vec::new();
        let mut y: usize = 0;
        while y < height
            invariant
                y <= height,
                height == prefab@.len(),
                width == prefab@[0]@.len(),
                0 < width <= i32::MAX,
                forall|r: int| 0 <= r < prefab@.len() ==> (#[trigger] prefab@[r])@.len() == width,
                costs@.len() == y * (width as int),
                forall|r: int, c: int|
                    0 <= r < y && 0 <= c < width ==> costs@[r * (width as int) + c] == (
                    if prefab@[r]@[c] == 0 {
                        FLOOR_COST
                    } else {
                        IMPASSABLE
                    }),
            decreases height - y,
        {
            let row = &prefab[y];
            let mut x: usize = 0;
            while x < width
                invariant
                    x <= width,
                    y < height,
                    height == prefab@.len(),
                    width == prefab@[0]@.len(),
                    0 < width <= i32::MAX,
                    forall|r: int| 0 <= r < prefab@.len() ==> (#[trigger] prefab@[r])@.len()
                        == width,
                    row == &prefab@[y as int],
                    costs@.len() == y * (width as int) + x,
                    forall|r: int, c: int|
                        0 <= r < y && 0 <= c < width ==> costs@[r * (width as int) + c] == (
                        if prefab@[r]@[c] == 0 {
                            FLOOR_COST
                        } else {
                            IMPASSABLE
                        }),
                    forall|c: int|
                        0 <= c < x ==> costs@[y * (width as int) + c] == (
                        if prefab@[y as int]@[c] == 0 {
                            FLOOR_COST
                        } else {
                            IMPASSABLE
                        }),
                decreases width - x,
            {
                let flag = row[x];
                if flag == 0 {
                    costs.push(FLOOR_COST);
                } else {
                    costs.push(IMPASSABLE);
                }
                proof {
                    assert forall|r: int, c: int|
                        0 <= r < y && 0 <= c < width implies #[trigger] (r * (width as int) + c)
                        < y * (width as int) by {
                        assert((r + 1) * (width as int) <= y * (width as int) && r * (
                        width as int) + width == (r + 1) * (width as int)) by (nonlinear_arith)
                            requires
                                r + 1 <= y,
                                width > 0,
                        ;
                    }
                }
                x = x + 1;
            }
            proof {
                assert(y * (width as int) + width == (y + 1) * (width as int))
                    by (nonlinear_arith);
            }
            y = y + 1;
        }
        SimpleMap { width: width as i32, height: height as i32, costs }
    }

    /// The row-major storage index of an on-grid point; the index must fit
    /// the component type, as it does on any grid whose cell count does.
    pub fn point_to_index(&self, point: Point) -> (idx: usize)
        requires
            self.in_bounds(point),
            point@.1 * (self.width as int) + point@.0 <= i32::MAX,
        ensures
            idx == point@.1 * (self.width as int) + point@.0,
    {
        proof {
            assert(0 <= (point.y as int) * (self.width as int)) by (nonlinear_arith)
                requires
                    0 <= point.y as int,
                    0 < self.width as int,
            ;
        }
        ((point.y as i64) * (self.width as i64) + (point.x as i64)) as usize
    }
}

} // verus!
