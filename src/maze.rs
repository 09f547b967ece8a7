use vstd::prelude::*;
use vstd::relations::injective_on;
use vstd::set_lib::{lemma_int_range, lemma_len_subset, lemma_map_size, set_int_range};

verus! {

/// A grid coordinate: `x` is the column, `y` the row.
#[derive(Debug, Clone, Copy, PartialEq, Eq, Hash, Structural)]
pub struct Point {
    pub x: usize,
    pub y: usize,
}

pub open spec fn abs_diff(a: usize, b: usize) -> nat {
    if a >= b { (a - b) as nat } else { (b - a) as nat }
}

pub open spec fn manhattan(p: Point, q: Point) -> nat {
    abs_diff(p.x, q.x) + abs_diff(p.y, q.y)
}

/// Diagonal-aware distance: 14 per diagonal step, 1 per straight step.
pub open spec fn octile(p: Point, q: Point) -> nat {
    let dx = abs_diff(p.x, q.x);
    let dy = abs_diff(p.y, q.y);
    if dx > dy { 14 * dy + (dx - dy) as nat } else { 14 * dx + (dy - dx) as nat }
}

fn usize_abs_diff(a: usize, b: usize) -> (r: usize)
    ensures
        r == abs_diff(a, b),
{
    if a >= b { a - b } else { b - a }
}

impl Point {
    /// The distance used by the search: the Manhattan distance.
    pub fn distance(&self, point: &Point) -> (r: usize)
        requires
            manhattan(*self, *point) <= usize::MAX,
        ensures
            r == manhattan(*self, *point),
    {
        self.manhattan_distance(point)
    }

    pub fn manhattan_distance(&self, point: &Point) -> (r: usize)
        requires
            manhattan(*self, *point) <= usize::MAX,
        ensures
            r == manhattan(*self, *point),
    {
        usize_abs_diff(self.x, point.x) + usize_abs_diff(self.y, point.y)
    }

    pub fn euclidian_distance(&self, point: &Point) -> (r: usize)
        requires
            octile(*self, *point) <= usize::MAX,
        ensures
            r == octile(*self, *point),
    {
        let diff_x = usize_abs_diff(self.x, point.x);
        let diff_y = usize_abs_diff(self.y, point.y);
        if diff_x > diff_y {
            return 14 * diff_y + (diff_x - diff_y);
        }
        14 * diff_x + (diff_y - diff_x)
    }
}


/// One square of the grid: `obsticle` marks a wall.
#[derive(Debug, Clone, Copy, PartialEq, Eq, Structural)]
pub struct Cell {
    pub point: Point,
    pub obsticle: bool,
}

/// What can go wrong when placing endpoints, searching or generating.
#[derive(Debug, Clone, Copy, PartialEq, Eq, Structural)]
pub enum MazeError {
    /// The cell at the point is a wall.
    InvalidPlacement(Point),
    /// The point is already the other endpoint.
    Conflict(Point),
    /// The destination cannot be reached from the start.
    NoPath,
    /// No open cell lies far enough from the start to be the destination.
    Unsatisfiable,
}

/// A rectangular grid of cells, indexed `grid[y][x]`, with two endpoints.
#[derive(Debug)]
pub struct Maze {
    pub height: usize,
    pub width: usize,
    pub start: Point,
    pub destanation: Point,
    pub grid: Vec<Vec<Cell>>,
}

pub open spec fn adjacent(p: Point, q: Point) -> bool {
    manhattan(p, q) == 1
}

impl Maze {
    /// `height` rows of `width` cells, each cell holding its own position.
    pub open spec fn wf(&self) -> bool {
        &&& self.grid@.len() == self.height
        &&& forall|y: int| 0 <= y < self.height ==> (#[trigger] self.grid@[y])@.len() == self.width
        &&& forall|y: int, x: int|
            0 <= y < self.height && 0 <= x < self.width ==> (#[trigger] self.grid@[y]@[x]).point
                == (Point { x: x as usize, y: y as usize })
    }

    pub open spec fn in_bounds(&self, p: Point) -> bool {
        p.x < self.width && p.y < self.height
    }

    pub open spec fn cell(&self, p: Point) -> Cell {
        self.grid@[p.y as int]@[p.x as int]
    }

    /// Inside the grid and not a wall.
    pub open spec fn is_open(&self, p: Point) -> bool {
        self.in_bounds(p) && !self.cell(p).obsticle
    }

    /// Both endpoints are open cells, and they differ.
    pub open spec fn endpoints_ok(&self) -> bool {
        self.is_open(self.start) && self.is_open(self.destanation) && self.start != self.destanation
    }

    /// The in-grid points one step west, east, north and south of `p`, in that order.
    pub open spec fn neighbor_points(&self, p: Point) -> Seq<Point> {
        let west = if p.x > 0 { seq![Point { x: (p.x - 1) as usize, y: p.y }] } else { seq![] };
        let east = if p.x + 1 < self.width { seq![Point { x: (p.x + 1) as usize, y: p.y }] } else { seq![] };
        let north = if p.y > 0 { seq![Point { x: p.x, y: (p.y - 1) as usize }] } else { seq![] };
        let south = if p.y + 1 < self.height { seq![Point { x: p.x, y: (p.y + 1) as usize }] } else { seq![] };
        west + east + north + south
    }

    /// A walk over open cells, each step to an adjacent cell.
    pub open spec fn is_route(&self, path: Seq<Point>) -> bool {
        &&& path.len() > 0
        &&& forall|i: int| 0 <= i < path.len() ==> self.is_open(#[trigger] path[i])
        &&& forall|i: int| 0 <= i < path.len() - 1 ==> adjacent(#[trigger] path[i], path[i + 1])
    }

    pub open spec fn reachable(&self, a: Point, b: Point) -> bool {
        exists|path: Seq<Point>| self.is_route(path) && path[0] == a && path.last() == b
    }

    /// The cells around `point`, west, east, north, south, those outside the grid left out.
    pub(crate) fn neighbors(&self, point: &Point) -> (r: Vec<Cell>)
        requires
            self.wf(),
            self.in_bounds(*point),
        ensures
            r@ == self.neighbor_points(*point).map_values(|q: Point| self.cell(q)),
    {
        let mut points: Vec<Cell> = Vec::new();
        if 0 < point.x {
            points.push(self.grid[point.y][point.x - 1]);
        }
        if point.x + 1 < self.width {
            points.push(self.grid[point.y][point.x + 1]);
        }
        if 0 < point.y {
            points.push(self.grid[point.y - 1][point.x]);
        }
        if point.y + 1 < self.height {
            points.push(self.grid[point.y + 1][point.x]);
        }
        assert(points@ =~= self.neighbor_points(*point).map_values(|q: Point| self.cell(q)));
        points
    }

    /// Moves the start to `(x, y)`. A wall gives `InvalidPlacement`, the destination
    /// gives `Conflict`; on failure nothing changes.
    pub fn set_start(&mut self, x: usize, y: usize) -> (r: Result<Point, MazeError>)
        requires
            old(self).wf(),
            x < old(self).width,
            y < old(self).height,
        ensures
            ({
                let p = Point { x, y };
                if old(self).cell(p).obsticle {
                    r == Err::<Point, MazeError>(MazeError::InvalidPlacement(p)) && *final(self) == *old(self)
                } else if old(self).destanation == p {
                    r == Err::<Point, MazeError>(MazeError::Conflict(p)) && *final(self) == *old(self)
                } else {
                    r == Ok::<Point, MazeError>(p) && *final(self) == (Maze { start: p, ..*old(self) })
                }
            }),
            final(self).wf(),
            old(self).endpoints_ok() ==> final(self).endpoints_ok(),
    {
        let point = Point { x, y };
        if self.grid[y][x].obsticle {
            return Err(MazeError::InvalidPlacement(point));
        }
        if self.destanation == point {
            return Err(MazeError::Conflict(point));
        }
        self.start = point;
        Ok(self.start)
    }

    /// Moves the destination to `(x, y)`. A wall gives `InvalidPlacement`, the start
    /// gives `Conflict`; on failure nothing changes.
    pub fn set_destanation(&mut self, x: usize, y: usize) -> (r: Result<Point, MazeError>)
        requires
            old(self).wf(),
            x < old(self).width,
            y < old(self).height,
        ensures
            ({
                let p = Point { x, y };
                if old(self).cell(p).obsticle {
                    r == Err::<Point, MazeError>(MazeError::InvalidPlacement(p)) && *final(self) == *old(self)
                } else if old(self).start == p {
                    r == Err::<Point, MazeError>(MazeError::Conflict(p)) && *final(self) == *old(self)
                } else {
                    r == Ok::<Point, MazeError>(p) && *final(self) == (Maze { destanation: p, ..*old(self) })
                }
            }),
            final(self).wf(),
            old(self).endpoints_ok() ==> final(self).endpoints_ok(),
    {
        let point = Point { x, y };
        if self.grid[y][x].obsticle {
            return Err(MazeError::InvalidPlacement(point));
        }
        if self.start == point {
            return Err(MazeError::Conflict(point));
        }
        self.destanation = point;
        Ok(self.destanation)
    }
}

/// The entry of a row-major grid at `p`.
pub open spec fn at<T>(g: Seq<Vec<T>>, p: Point) -> T {
    g[p.y as int]@[p.x as int]
}

/// `g` has one row per row of `m`, each as wide as `m`.
pub open spec fn shaped<T>(g: Seq<Vec<T>>, m: Maze) -> bool {
    g.len() == m.height && forall|y: int| 0 <= y < m.height ==> (#[trigger] g[y])@.len() == m.width
}

/// Removing the entry at `idx` from a list without repeats removes exactly that value.
pub proof fn lemma_remove_distinct<A>(s: Seq<A>, idx: int)
    requires
        s.no_duplicates(),
        0 <= idx < s.len(),
    ensures
        s.remove(idx).no_duplicates(),
        forall|a: A| #[trigger] s.remove(idx).contains(a) <==> (s.contains(a) && a != s[idx]),
{
    let r = s.remove(idx);
    assert forall|a: A| #[trigger] r.contains(a) <==> (s.contains(a) && a != s[idx]) by {
        if r.contains(a) {
            let k = choose|k: int| 0 <= k < r.len() && r[k] == a;
            if k < idx {
                assert(s[k] == a);
            } else {
                assert(s[k + 1] == a);
            }
        }
        if s.contains(a) && a != s[idx] {
            let k = choose|k: int| 0 <= k < s.len() && s[k] == a;
            if k < idx {
                assert(r[k] == a);
            } else {
                assert(r[k - 1] == a);
            }
        }
    }
    assert forall|i: int, j: int| 0 <= i < j < r.len() implies r[i] != r[j] by {
        let si = if i < idx { i } else { i + 1 };
        let sj = if j < idx { j } else { j + 1 };
        assert(r[i] == s[si] && r[j] == s[sj]);
    }
}

/// Whether `p` is among the points of `v`.
pub(crate) fn contains_point(v: &Vec<Point>, p: Point) -> (r: bool)
    ensures
        r == v@.contains(p),
{
    let mut i: usize = 0;
    while i < v.len()
        invariant
            i <= v@.len(),
            forall|k: int| 0 <= k < i ==> v@[k] != p,
        decreases v@.len() - i,
    {
        if v[i] == p {
            return true;
        }
        i += 1;
    }
    false
}

/// What stays in a list when the entry at `idx` is removed.
pub proof fn lemma_remove_contains<A>(s: Seq<A>, idx: int)
    requires
        0 <= idx < s.len(),
    ensures
        forall|a: A| #[trigger] s.remove(idx).contains(a) ==> s.contains(a),
        forall|a: A| s.contains(a) && a != s[idx] ==> #[trigger] s.remove(idx).contains(a),
{
    let r = s.remove(idx);
    assert forall|a: A| #[trigger] r.contains(a) implies s.contains(a) by {
        let k = choose|k: int| 0 <= k < r.len() && r[k] == a;
        if k < idx {
            assert(s[k] == a);
        } else {
            assert(s[k + 1] == a);
        }
    }
    assert forall|a: A| s.contains(a) && a != s[idx] implies #[trigger] r.contains(a) by {
        let k = choose|k: int| 0 <= k < s.len() && s[k] == a;
        if k < idx {
            assert(r[k] == a);
        } else {
            assert(r[k - 1] == a);
        }
    }
}

pub(crate) fn grid_write<T>(g: &mut Vec<Vec<T>>, x: usize, y: usize, v: T)
    requires
        y < old(g)@.len(),
        x < old(g)@[y as int]@.len(),
    ensures
        final(g)@.len() == old(g)@.len(),
        forall|i: int| 0 <= i < old(g)@.len() && i != y ==> final(g)@[i] == old(g)@[i],
        final(g)@[y as int]@ == old(g)@[y as int]@.update(x as int, v),
        at(final(g)@, Point { x, y }) == v,
        forall|p: Point|
            p.y < old(g)@.len() && p.x < old(g)@[p.y as int]@.len() && p != (Point { x, y }) ==> #[trigger] at(
                final(g)@,
                p,
            ) == at(old(g)@, p),
        forall|i: int| 0 <= i < old(g)@.len() ==> (#[trigger] final(g)@[i])@.len() == old(g)@[i]@.len(),
{
    g[y][x] = v;
}


/// A grid of `h` rows of `w` copies of `v`.
pub(crate) fn filled<T: Copy>(h: usize, w: usize, v: T) -> (r: Vec<Vec<T>>)
    ensures
        r@.len() == h,
        forall|y: int| 0 <= y < h ==> (#[trigger] r@[y])@.len() == w,
        forall|y: int, x: int| 0 <= y < h && 0 <= x < w ==> (#[trigger] r@[y]@[x]) == v,
{
    let mut r: Vec<Vec<T>> = Vec::new();
    for y in 0..h
        invariant
            r@.len() == y,
            forall|i: int| 0 <= i < y ==> (#[trigger] r@[i])@.len() == w,
            forall|i: int, x: int| 0 <= i < y && 0 <= x < w ==> (#[trigger] r@[i]@[x]) == v,
    {
        let mut row: Vec<T> = Vec::new();
        for x in 0..w
            invariant
                row@.len() == x,
                forall|j: int| 0 <= j < x ==> (#[trigger] row@[j]) == v,
        {
            row.push(v);
        }
        r.push(row);
    }
    r
}

pub open spec fn point_key(p: Point, w: nat) -> int {
    p.y as int * w as int + p.x as int
}

proof fn lemma_key_range(p: Point, w: nat, h: nat)
    requires
        p.x < w,
        p.y < h,
    ensures
        0 <= point_key(p, w) < w * h,
{
    let (x, y) = (p.x as int, p.y as int);
    assert(0 <= y * w) by (nonlinear_arith)
        requires
            0 <= y,
            0 <= w,
    ;
    assert(y * w + x < w * h) by (nonlinear_arith)
        requires
            0 <= x < w,
            0 <= y < h,
    ;
}

proof fn lemma_key_injective(p: Point, q: Point, w: nat)
    requires
        p.x < w,
        q.x < w,
        point_key(p, w) == point_key(q, w),
    ensures
        p == q,
{
    let (px, py, qx, qy) = (p.x as int, p.y as int, q.x as int, q.y as int);
    if py < qy {
        assert(py * w + px < qy * w + qx) by (nonlinear_arith)
            requires
                py < qy,
                0 <= px < w,
                0 <= qx,
        ;
    } else if qy < py {
        assert(qy * w + qx < py * w + px) by (nonlinear_arith)
            requires
                qy < py,
                0 <= qx < w,
                0 <= px,
        ;
    }
}

/// Distinct points of a `w` by `h` rectangle number at most `w * h`.
pub proof fn lemma_distinct_in_rect(s: Seq<Point>, w: nat, h: nat)
    requires
        s.no_duplicates(),
        forall|i: int| 0 <= i < s.len() ==> (#[trigger] s[i]).x < w && s[i].y < h,
    ensures
        s.len() <= w * h,
{
    broadcast use vstd::seq_lib::group_seq_properties;
    let f = |p: Point| point_key(p, w);
    let st = s.to_set();
    s.unique_seq_to_set();
    assert(injective_on(f, st)) by {
        assert forall|p: Point, q: Point|
            st.contains(p) && st.contains(q) && #[trigger] f(p) == #[trigger] f(q) implies p == q by {
            lemma_key_injective(p, q, w);
        }
    }
    lemma_map_size(st, st.map(f), f);
    assert(st.map(f).subset_of(set_int_range(0, (w * h) as int))) by {
        assert forall|k: int| st.map(f).contains(k) implies set_int_range(0, (w * h) as int).contains(
            k,
        ) by {
            let p = choose|p: Point| st.contains(p) && f(p) == k;
            lemma_key_range(p, w, h);
        }
    }
    lemma_int_range(0, (w * h) as int);
    lemma_len_subset(st.map(f), set_int_range(0, (w * h) as int));
}

/// An in-grid point adjacent to `p` is among `p`'s neighbour points.
pub proof fn lemma_adjacent_is_neighbor(m: Maze, p: Point, n: Point)
    requires
        m.in_bounds(p),
        m.in_bounds(n),
        adjacent(p, n),
    ensures
        m.neighbor_points(p).contains(n),
{
    let ns = m.neighbor_points(p);
    let west = if p.x > 0 { seq![Point { x: (p.x - 1) as usize, y: p.y }] } else { seq![] };
    let east = if p.x + 1 < m.width { seq![Point { x: (p.x + 1) as usize, y: p.y }] } else { seq![] };
    let north = if p.y > 0 { seq![Point { x: p.x, y: (p.y - 1) as usize }] } else { seq![] };
    let south = if p.y + 1 < m.height { seq![Point { x: p.x, y: (p.y + 1) as usize }] } else { seq![] };
    assert(ns == west + east + north + south);
    if n.y == p.y && n.x + 1 == p.x {
        assert(ns[0] == n);
    } else if n.y == p.y && n.x == p.x + 1 {
        assert(ns[west.len() as int] == n);
    } else if n.x == p.x && n.y + 1 == p.y {
        assert(ns[(west.len() + east.len()) as int] == n);
    } else {
        assert(ns[(west.len() + east.len() + north.len()) as int] == n);
    }
}

} // verus!
