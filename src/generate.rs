use vstd::prelude::*;
use crate::maze::{
    adjacent, contains_point, lemma_distinct_in_rect, lemma_remove_contains, lemma_remove_distinct,
    manhattan, Cell, Maze, MazeError, Point,
};
use crate::rng::{seeded, seeded_below};

verus! {

/// The point `k` steps from `p` toward `dir`: 0 north, 1 east, 2 south, 3 west.
pub open spec fn toward(p: Point, dir: int, k: int) -> Point {
    if dir == 0 {
        Point { x: p.x, y: (p.y - k) as usize }
    } else if dir == 1 {
        Point { x: (p.x + k) as usize, y: p.y }
    } else if dir == 2 {
        Point { x: p.x, y: (p.y + k) as usize }
    } else {
        Point { x: (p.x - k) as usize, y: p.y }
    }
}

/// The point `k` steps from `p` toward `dir` lies inside the grid.
pub open spec fn toward_in(m: Maze, p: Point, dir: int, k: int) -> bool {
    if dir == 0 {
        p.y >= k
    } else if dir == 1 {
        p.x + k < m.width
    } else if dir == 2 {
        p.y + k < m.height
    } else {
        p.x >= k
    }
}

/// Two steps from `p` toward `dir` is an open cell of the grid.
pub open spec fn room_open(m: Maze, p: Point, dir: int) -> bool {
    0 <= dir < 4 && toward_in(m, p, dir, 2) && m.is_open(toward(p, dir, 2))
}

/// Some cell two steps from `p` is open: `p` can be joined to the carved region.
pub open spec fn joinable(m: Maze, p: Point) -> bool {
    exists|dir: int| room_open(m, p, dir)
}

/// `m2` is `m` with possibly more cells opened, and nothing else changed.
pub open spec fn only_opened(m: Maze, m2: Maze) -> bool {
    &&& m2.wf()
    &&& m2.height == m.height
    &&& m2.width == m.width
    &&& m2.start == m.start
    &&& m2.destanation == m.destanation
    &&& forall|q: Point| m.is_open(q) ==> #[trigger] m2.is_open(q)
}

/// A grid of walls, every cell holding its own position.
fn walls(height: usize, width: usize) -> (r: Vec<Vec<Cell>>)
    ensures
        r@.len() == height,
        forall|y: int| 0 <= y < height ==> (#[trigger] r@[y])@.len() == width,
        forall|y: int, x: int|
            0 <= y < height && 0 <= x < width ==> (#[trigger] r@[y]@[x]) == (Cell {
                point: Point { x: x as usize, y: y as usize },
                obsticle: true,
            }),
{
    let mut grid: Vec<Vec<Cell>> = Vec::new();
    for y in 0..height
        invariant
            grid@.len() == y,
            forall|i: int| 0 <= i < y ==> (#[trigger] grid@[i])@.len() == width,
            forall|i: int, x: int|
                0 <= i < y && 0 <= x < width ==> (#[trigger] grid@[i]@[x]) == (Cell {
                    point: Point { x: x as usize, y: i as usize },
                    obsticle: true,
                }),
    {
        let mut row: Vec<Cell> = Vec::new();
        for x in 0..width
            invariant
                row@.len() == x,
                forall|j: int| 0 <= j < x ==> (#[trigger] row@[j]) == (Cell {
                    point: Point { x: j as usize, y: y as usize },
                    obsticle: true,
                }),
        {
            row.push(Cell { point: Point { x, y }, obsticle: true });
        }
        grid.push(row);
    }
    grid
}

/// Turns the cell at `p` into floor.
fn open_cell(m: &mut Maze, p: Point)
    requires
        old(m).wf(),
        old(m).in_bounds(p),
    ensures
        only_opened(*old(m), *final(m)),
        forall|q: Point| #[trigger] final(m).is_open(q) <==> (old(m).is_open(q) || q == p),
{
    m.grid[p.y][p.x] = Cell { point: p, obsticle: false };
    assert forall|y: int| 0 <= y < m.height implies (#[trigger] m.grid@[y])@.len() == m.width by {
        if y != p.y {
            assert(m.grid@[y] == old(m).grid@[y]);
        }
    }
    assert forall|q: Point| #[trigger] m.is_open(q) <==> (old(m).is_open(q) || q == p) by {
        if m.in_bounds(q) && q.y != p.y {
            assert(m.grid@[q.y as int] == old(m).grid@[q.y as int]);
        }
    }
}

/// Whether two steps from `p` toward `dir` is an open cell.
fn room_is_open(m: &Maze, p: Point, dir: u8) -> (r: bool)
    requires
        m.wf(),
        m.in_bounds(p),
        dir < 4,
    ensures
        r == room_open(*m, p, dir as int),
{
    if dir == 0 {
        p.y >= 2 && !m.grid[p.y - 2][p.x].obsticle
    } else if dir == 1 {
        m.width >= 2 && p.x < m.width - 2 && !m.grid[p.y][p.x + 2].obsticle
    } else if dir == 2 {
        m.height >= 2 && p.y < m.height - 2 && !m.grid[p.y + 2][p.x].obsticle
    } else {
        p.x >= 2 && !m.grid[p.y][p.x - 2].obsticle
    }
}

/// The point `k` steps from `p` toward `dir`, when it lies inside the grid.
fn step_from(m: &Maze, p: Point, dir: u8, k: usize) -> (r: Option<Point>)
    requires
        m.in_bounds(p),
        dir < 4,
    ensures
        r == if toward_in(*m, p, dir as int, k as int) {
            Some(toward(p, dir as int, k as int))
        } else {
            None::<Point>
        },
        r is Some ==> m.in_bounds(r->Some_0),
{
    if dir == 0 {
        if p.y >= k { Some(Point { x: p.x, y: p.y - k }) } else { None }
    } else if dir == 1 {
        if m.width >= k && p.x < m.width - k { Some(Point { x: p.x + k, y: p.y }) } else { None }
    } else if dir == 2 {
        if m.height >= k && p.y < m.height - k { Some(Point { x: p.x, y: p.y + k }) } else { None }
    } else {
        if p.x >= k { Some(Point { x: p.x - k, y: p.y }) } else { None }
    }
}

/// Opens the cell at `(x, y)` and queues each closed cell two steps away that is not
/// queued yet: the frontier of the carved region.
fn mark(m: &mut Maze, frontiers: &mut Vec<Point>, x: usize, y: usize) -> (added: Ghost<Seq<Point>>)
    requires
        old(m).wf(),
        x < old(m).width,
        y < old(m).height,
    ensures
        only_opened(*old(m), *final(m)),
        forall|q: Point| #[trigger] final(m).is_open(q) <==> (old(m).is_open(q) || q == (Point { x, y })),
        final(frontiers)@ == old(frontiers)@ + added@,
        added@.no_duplicates(),
        forall|i: int|
            #![trigger added@[i]]
            0 <= i < added@.len() ==> {
                &&& final(m).in_bounds(added@[i])
                &&& !final(m).is_open(added@[i])
                &&& !old(frontiers)@.contains(added@[i])
                &&& joinable(*final(m), added@[i])
                &&& (added@[i].x as int - x as int) % 2 == 0
                &&& (added@[i].y as int - y as int) % 2 == 0
            },
        forall|d: int|
            0 <= d < 4 && toward_in(*final(m), Point { x, y }, d, 2) ==> #[trigger] final(m).is_open(
                toward(Point { x, y }, d, 2),
            ) || final(frontiers)@.contains(toward(Point { x, y }, d, 2)),
{
    let p = Point { x, y };
    open_cell(m, p);
    let ghost f0 = frontiers@;
    let mut dir: u8 = 0;
    while dir < 4
        invariant
            p == (Point { x, y }),
            m.wf(),
            m.in_bounds(p),
            m.is_open(p),
            only_opened(*old(m), *m),
            forall|q: Point| #[trigger] m.is_open(q) <==> (old(m).is_open(q) || q == p),
            f0 == old(frontiers)@,
            frontiers@.len() >= f0.len(),
            frontiers@.subrange(0, f0.len() as int) == f0,
            frontiers@.subrange(f0.len() as int, frontiers@.len() as int).no_duplicates(),
            forall|i: int|
                #![trigger frontiers@[i]]
                f0.len() <= i < frontiers@.len() ==> {
                    &&& m.in_bounds(frontiers@[i])
                    &&& !m.is_open(frontiers@[i])
                    &&& !f0.contains(frontiers@[i])
                    &&& joinable(*m, frontiers@[i])
                    &&& (frontiers@[i].x as int - x as int) % 2 == 0
                    &&& (frontiers@[i].y as int - y as int) % 2 == 0
                },
            forall|d: int|
                0 <= d < dir && toward_in(*m, p, d, 2) ==> #[trigger] m.is_open(toward(p, d, 2))
                    || frontiers@.contains(toward(p, d, 2)),
            dir <= 4,
        decreases 4 - dir,
    {
        let ghost fr_before = frontiers@;
        let next = step_from(m, p, dir, 2);
        let ok = next.is_some();
        let q = match next {
            Some(q) => q,
            None => p,
        };
        if ok && !contains_point(frontiers, q) && m.grid[q.y][q.x].obsticle {
            let ghost before = frontiers@;
            frontiers.push(q);
            proof {
                assert(q == toward(p, dir as int, 2));
                assert(toward_in(*m, p, dir as int, 2));
                if dir == 0 {
                    assert(q.x == x && q.y as int == y - 2);
                } else if dir == 1 {
                    assert(q.y == y && q.x as int == x + 2);
                } else if dir == 2 {
                    assert(q.x == x && q.y as int == y + 2);
                } else {
                    assert(q.y == y && q.x as int == x - 2);
                }
                assert((q.x as int - x as int) % 2 == 0 && (q.y as int - y as int) % 2 == 0);
                let back: int = if dir < 2 { dir + 2 } else { dir - 2 };
                assert(toward_in(*m, q, back, 2) && toward(q, back, 2) == p);
                assert(room_open(*m, q, back));
                assert(frontiers@.subrange(0, f0.len() as int) =~= before.subrange(0, f0.len() as int));
                let tail = frontiers@.subrange(f0.len() as int, frontiers@.len() as int);
                let tail0 = before.subrange(f0.len() as int, before.len() as int);
                assert(tail =~= tail0.push(q));
                assert(!tail0.contains(q)) by {
                    if tail0.contains(q) {
                        let k = choose|k: int| 0 <= k < tail0.len() && tail0[k] == q;
                        assert(before[f0.len() + k] == q);
                    }
                }
                assert(!f0.contains(q)) by {
                    if f0.contains(q) {
                        let k = choose|k: int| 0 <= k < f0.len() && f0[k] == q;
                        assert(before[k] == q);
                    }
                }
            }
        }
        proof {
            assert forall|d: int| 0 <= d < dir + 1 && toward_in(*m, p, d, 2) implies #[trigger] m.is_open(
                toward(p, d, 2),
            ) || frontiers@.contains(toward(p, d, 2)) by {
                let t = toward(p, d, 2);
                if d < dir {
                    if fr_before.contains(t) && !m.is_open(t) {
                        let k = choose|k: int| 0 <= k < fr_before.len() && fr_before[k] == t;
                        assert(frontiers@[k] == t);
                    }
                } else {
                    assert(q == t);
                    if frontiers@.len() > fr_before.len() {
                        assert(frontiers@[fr_before.len() as int] == t);
                    }
                }
            }
        }
        dir += 1;
    }
    let ghost added = frontiers@.subrange(f0.len() as int, frontiers@.len() as int);
    assert(frontiers@ =~= f0 + added);
    Ghost(added)
}


/// Every open cell can be reached from the start over open cells.
pub open spec fn connected(m: Maze) -> bool {
    forall|p: Point| #[trigger] m.is_open(p) ==> m.reachable(m.start, p)
}

proof fn lemma_route_kept(m: Maze, m2: Maze, path: Seq<Point>)
    requires
        only_opened(m, m2),
        m.is_route(path),
    ensures
        m2.is_route(path),
{
    assert forall|i: int| 0 <= i < path.len() implies m2.is_open(#[trigger] path[i]) by {
        assert(m.is_open(path[i]));
    }
}

/// Opening one cell next to an open cell keeps every open cell reachable.
proof fn lemma_connected_grow(m: Maze, m2: Maze, r: Point, p: Point)
    requires
        only_opened(m, m2),
        connected(m),
        m.is_open(r),
        adjacent(r, p),
        forall|q: Point| #[trigger] m2.is_open(q) <==> (m.is_open(q) || q == p),
    ensures
        connected(m2),
{
    assert forall|q: Point| #[trigger] m2.is_open(q) implies m2.reachable(m2.start, q) by {
        if m.is_open(q) {
            let path = choose|path: Seq<Point>| m.is_route(path) && path[0] == m.start && path.last() == q;
            lemma_route_kept(m, m2, path);
        } else {
            let path = choose|path: Seq<Point>| m.is_route(path) && path[0] == m.start && path.last() == r;
            lemma_route_kept(m, m2, path);
            let path2 = path.push(p);
            assert(m2.is_open(p));
            assert forall|i: int| 0 <= i < path2.len() implies m2.is_open(#[trigger] path2[i]) by {
                if i < path.len() {
                    assert(path2[i] == path[i]);
                }
            }
            assert forall|i: int| 0 <= i < path2.len() - 1 implies adjacent(#[trigger] path2[i], path2[i + 1]) by {
                if i < path.len() - 1 {
                    assert(path2[i] == path[i] && path2[i + 1] == path[i + 1]);
                }
            }
            assert(m2.is_route(path2) && path2[0] == m2.start && path2.last() == q);
        }
    }
}

/// Moving the destination keeps a connected grid connected, its count of cells and
/// passages, and its rooms and walls.
proof fn lemma_connected_moved(m: Maze, d: Point)
    requires
        connected(m),
        tree_count(m),
        rooms_carved(m),
        walls_join(m),
    ensures
        connected(Maze { destanation: d, ..m }),
        tree_count(Maze { destanation: d, ..m }),
        rooms_carved(Maze { destanation: d, ..m }),
        walls_join(Maze { destanation: d, ..m }),
{
    let m2 = Maze { destanation: d, ..m };
    assert forall|p: Point| #[trigger] joins(m2, p) by {
        assert(joins(m, p));
    }
    assert forall|p: Point| m2.in_bounds(p) && is_room(m2, p) implies #[trigger] m2.is_open(p) by {
        assert(m.is_open(p));
    }
    assert(open_cells(m2) =~= open_cells(m));
    assert(east_edges(m2) =~= east_edges(m));
    assert(south_edges(m2) =~= south_edges(m));
    assert forall|p: Point| #[trigger] m2.is_open(p) implies m2.reachable(m2.start, p) by {
        assert(m.is_open(p));
        let path = choose|path: Seq<Point>| m.is_route(path) && path[0] == m.start && path.last() == p;
        assert(m2.is_route(path));
    }
}

proof fn lemma_joinable_kept(m: Maze, m2: Maze, p: Point)
    requires
        only_opened(m, m2),
        joinable(m, p),
    ensures
        joinable(m2, p),
{
    let dir = choose|dir: int| room_open(m, p, dir);
    assert(room_open(m2, p, dir));
}

/// How many of the first `k` directions lead two steps from `p` to an open cell.
pub open spec fn open_dir_count(m: Maze, p: Point, k: int) -> nat
    decreases k,
{
    if k <= 0 {
        0
    } else {
        open_dir_count(m, p, k - 1) + if room_open(m, p, k - 1) { 1nat } else { 0nat }
    }
}

/// The directions, in order, in which the cell two steps from `p` is open.
fn open_directions(m: &Maze, p: Point) -> (r: Vec<u8>)
    requires
        m.wf(),
        m.in_bounds(p),
    ensures
        forall|i: int| 0 <= i < r@.len() ==> (#[trigger] r@[i]) < 4 && room_open(*m, p, r@[i] as int),
        r@.len() == open_dir_count(*m, p, 4),
        joinable(*m, p) ==> r@.len() > 0,
{
    let mut r: Vec<u8> = Vec::new();
    let mut dir: u8 = 0;
    while dir < 4
        invariant
            m.wf(),
            m.in_bounds(p),
            dir <= 4,
            forall|i: int| 0 <= i < r@.len() ==> (#[trigger] r@[i]) < 4 && room_open(*m, p, r@[i] as int),
            r@.len() == 0 ==> forall|d: int| 0 <= d < dir ==> !room_open(*m, p, d),
            r@.len() == open_dir_count(*m, p, dir as int),
        decreases 4 - dir,
    {
        if room_is_open(m, p, dir) {
            r.push(dir);
        }
        dir += 1;
    }
    r
}

/// `v` lies an odd number of steps from `s`.
pub open spec fn odd_from(v: usize, s: usize) -> bool {
    (v as int - s as int) % 2 != 0
}

/// Rooms lie an even number of steps from the start along both axes.
pub open spec fn is_room(m: Maze, p: Point) -> bool {
    !odd_from(p.x, m.start.x) && !odd_from(p.y, m.start.y)
}

/// If `p` is open, it is a room or a wall whose two rooms are open: never a cell an
/// odd number of steps from the start along both axes.
pub open spec fn joins(m: Maze, p: Point) -> bool {
    m.is_open(p) ==> {
        &&& !(odd_from(p.x, m.start.x) && odd_from(p.y, m.start.y))
        &&& odd_from(p.x, m.start.x) ==> p.x >= 1 && p.x + 1 < m.width && m.is_open(
            Point { x: (p.x - 1) as usize, y: p.y },
        ) && m.is_open(Point { x: (p.x + 1) as usize, y: p.y })
        &&& odd_from(p.y, m.start.y) ==> p.y >= 1 && p.y + 1 < m.height && m.is_open(
            Point { x: p.x, y: (p.y - 1) as usize },
        ) && m.is_open(Point { x: p.x, y: (p.y + 1) as usize })
    }
}

pub open spec fn walls_join(m: Maze) -> bool {
    forall|p: Point| #[trigger] joins(m, p)
}

/// The open cells.
pub open spec fn open_cells(m: Maze) -> Set<Point> {
    Set::new(|p: Point| m.is_open(p))
}

/// The open cells whose east neighbour is open: one per east-west passage.
pub open spec fn east_edges(m: Maze) -> Set<Point> {
    Set::new(|p: Point| m.is_open(p) && p.x + 1 < m.width && m.is_open(Point { x: (p.x + 1) as usize, y: p.y }))
}

/// The open cells whose south neighbour is open: one per north-south passage.
pub open spec fn south_edges(m: Maze) -> Set<Point> {
    Set::new(|p: Point| m.is_open(p) && p.y + 1 < m.height && m.is_open(Point { x: p.x, y: (p.y + 1) as usize }))
}

/// There is one passage fewer than there are open cells.
pub open spec fn tree_count(m: Maze) -> bool {
    open_cells(m).len() == east_edges(m).len() + south_edges(m).len() + 1
}

proof fn lemma_row_finite(w: nat, y: usize)
    ensures
        Set::new(|p: Point| p.x < w && p.y == y).finite(),
    decreases w,
{
    if w == 0 {
        assert(Set::new(|p: Point| p.x < w && p.y == y) =~= Set::empty());
    } else {
        lemma_row_finite((w - 1) as nat, y);
        assert(Set::new(|p: Point| p.x < w && p.y == y) =~= Set::new(|p: Point| p.x < (w - 1) as nat && p.y == y).insert(
            Point { x: (w - 1) as usize, y },
        ));
    }
}

proof fn lemma_rect_finite(w: nat, h: nat)
    requires
        h <= usize::MAX + 1,
    ensures
        Set::new(|p: Point| p.x < w && p.y < h).finite(),
    decreases h,
{
    if h == 0 {
        assert(Set::new(|p: Point| p.x < w && p.y < h) =~= Set::empty());
    } else {
        lemma_rect_finite(w, (h - 1) as nat);
        lemma_row_finite(w, (h - 1) as usize);
        assert(Set::new(|p: Point| p.x < w && p.y < h) =~= Set::new(|p: Point| p.x < w && p.y < (h - 1) as nat).union(
            Set::new(|p: Point| p.x < w && p.y == (h - 1) as usize),
        ));
    }
}

proof fn lemma_cells_finite(m: Maze)
    ensures
        open_cells(m).finite(),
        east_edges(m).finite(),
        south_edges(m).finite(),
{
    let rect = Set::new(|p: Point| p.x < m.width && p.y < m.height);
    lemma_rect_finite(m.width as nat, m.height as nat);
    vstd::set_lib::lemma_set_subset_finite(rect, open_cells(m));
    vstd::set_lib::lemma_set_subset_finite(rect, east_edges(m));
    vstd::set_lib::lemma_set_subset_finite(rect, south_edges(m));
}

/// Opening a closed cell `p` whose only open neighbour is `q` adds one open cell and
/// one passage.
proof fn lemma_open_one(m1: Maze, m2: Maze, p: Point, q: Point)
    requires
        only_opened(m1, m2),
        forall|r: Point| #[trigger] m2.is_open(r) <==> (m1.is_open(r) || r == p),
        !m1.is_open(p),
        m1.in_bounds(p),
        m1.is_open(q),
        adjacent(p, q),
        forall|n: Point| adjacent(p, n) && n != q ==> !#[trigger] m1.is_open(n),
    ensures
        open_cells(m2).len() == open_cells(m1).len() + 1,
        east_edges(m2).len() + south_edges(m2).len() == east_edges(m1).len() + south_edges(m1).len() + 1,
{
    lemma_cells_finite(m1);
    assert(open_cells(m2) =~= open_cells(m1).insert(p));
    let e1 = east_edges(m1);
    let e2 = east_edges(m2);
    let s1 = south_edges(m1);
    let s2 = south_edges(m2);
    let east_of = |r: Point| Point { x: (r.x + 1) as usize, y: r.y };
    let south_of = |r: Point| Point { x: r.x, y: (r.y + 1) as usize };
    if q.y == p.y && q.x + 1 == p.x {
        assert(e2 =~= e1.insert(q)) by {
            assert forall|r: Point| e2.contains(r) <==> e1.contains(r) || r == q by {
                if r == p && p.x + 1 < m1.width {
                    assert(adjacent(p, east_of(p)));
                }
            }
        }
        assert(s2 =~= s1) by {
            assert forall|r: Point| s2.contains(r) <==> s1.contains(r) by {
                if r == p && p.y + 1 < m1.height {
                    assert(adjacent(p, south_of(p)));
                }
                if south_of(r) == p && r.y + 1 < m1.height && r.y + 1 == p.y {
                    assert(adjacent(p, r));
                }
            }
        }
        assert(!e1.contains(q));
    } else if q.y == p.y && q.x == p.x + 1 {
        assert(e2 =~= e1.insert(p)) by {
            assert forall|r: Point| e2.contains(r) <==> e1.contains(r) || r == p by {
                if east_of(r) == p && r.x + 1 < m1.width && r.x + 1 == p.x {
                    assert(adjacent(p, r));
                }
            }
        }
        assert(s2 =~= s1) by {
            assert forall|r: Point| s2.contains(r) <==> s1.contains(r) by {
                if r == p && p.y + 1 < m1.height {
                    assert(adjacent(p, south_of(p)));
                }
                if south_of(r) == p && r.y + 1 < m1.height && r.y + 1 == p.y {
                    assert(adjacent(p, r));
                }
            }
        }
        assert(!e1.contains(p));
    } else if q.x == p.x && q.y + 1 == p.y {
        assert(s2 =~= s1.insert(q)) by {
            assert forall|r: Point| s2.contains(r) <==> s1.contains(r) || r == q by {
                if r == p && p.y + 1 < m1.height {
                    assert(adjacent(p, south_of(p)));
                }
            }
        }
        assert(e2 =~= e1) by {
            assert forall|r: Point| e2.contains(r) <==> e1.contains(r) by {
                if r == p && p.x + 1 < m1.width {
                    assert(adjacent(p, east_of(p)));
                }
                if east_of(r) == p && r.x + 1 < m1.width && r.x + 1 == p.x {
                    assert(adjacent(p, r));
                }
            }
        }
        assert(!s1.contains(q));
    } else {
        assert(q.x == p.x && q.y == p.y + 1);
        assert(s2 =~= s1.insert(p)) by {
            assert forall|r: Point| s2.contains(r) <==> s1.contains(r) || r == p by {
                if south_of(r) == p && r.y + 1 < m1.height && r.y + 1 == p.y {
                    assert(adjacent(p, r));
                }
            }
        }
        assert(e2 =~= e1) by {
            assert forall|r: Point| e2.contains(r) <==> e1.contains(r) by {
                if r == p && p.x + 1 < m1.width {
                    assert(adjacent(p, east_of(p)));
                }
                if east_of(r) == p && r.x + 1 < m1.width && r.x + 1 == p.x {
                    assert(adjacent(p, r));
                }
            }
        }
        assert(!s1.contains(p));
    }
}

/// A closed room has no open neighbour: an open wall next to it would have it open.
proof fn lemma_room_sealed(m: Maze, c: Point, n: Point)
    requires
        walls_join(m),
        is_room(m, c),
        !m.is_open(c),
        adjacent(c, n),
    ensures
        !m.is_open(n),
{
    assert(joins(m, n));
    if m.is_open(n) {
        if n.y == c.y && n.x + 1 == c.x {
            assert(odd_from(n.x, m.start.x));
            assert((Point { x: (n.x + 1) as usize, y: n.y }) == c);
        } else if n.y == c.y && n.x == c.x + 1 {
            assert(odd_from(n.x, m.start.x));
            assert((Point { x: (n.x - 1) as usize, y: n.y }) == c);
        } else if n.x == c.x && n.y + 1 == c.y {
            assert(odd_from(n.y, m.start.y));
            assert((Point { x: n.x, y: (n.y + 1) as usize }) == c);
        } else {
            assert(n.x == c.x && n.y == c.y + 1);
            assert(odd_from(n.y, m.start.y));
            assert((Point { x: n.x, y: (n.y - 1) as usize }) == c);
        }
    }
}

/// Opening the wall toward an open room and then the closed room `c` keeps every
/// open wall between open rooms and one passage fewer than open cells.
proof fn lemma_carve_shape(m0: Maze, m1: Maze, m2: Maze, c: Point, d: int)
    requires
        m0.wf(),
        walls_join(m0),
        tree_count(m0),
        is_room(m0, c),
        !m0.is_open(c),
        m0.in_bounds(c),
        room_open(m0, c, d),
        only_opened(m0, m1),
        forall|r: Point| #[trigger] m1.is_open(r) <==> (m0.is_open(r) || r == toward(c, d, 1)),
        only_opened(m1, m2),
        forall|r: Point| #[trigger] m2.is_open(r) <==> (m1.is_open(r) || r == c),
    ensures
        walls_join(m2),
        tree_count(m2),
{
    let w = toward(c, d, 1);
    let r = toward(c, d, 2);
    assert(adjacent(c, w) && adjacent(w, r) && m0.in_bounds(w));
    lemma_room_sealed(m0, c, w);
    assert forall|n: Point| adjacent(w, n) && n != r implies !#[trigger] m0.is_open(n) by {
        if n != c {
            assert(joins(m0, n));
            if d == 0 || d == 2 {
                assert(odd_from(w.y, m0.start.y) && !odd_from(w.x, m0.start.x));
                assert(n.y == w.y);
                assert(odd_from(n.x, m0.start.x) && odd_from(n.y, m0.start.y));
            } else {
                assert(odd_from(w.x, m0.start.x) && !odd_from(w.y, m0.start.y));
                assert(n.x == w.x);
                assert(odd_from(n.x, m0.start.x) && odd_from(n.y, m0.start.y));
            }
        }
    }
    lemma_open_one(m0, m1, w, r);
    assert forall|n: Point| adjacent(c, n) && n != w implies !#[trigger] m1.is_open(n) by {
        lemma_room_sealed(m0, c, n);
    }
    lemma_open_one(m1, m2, c, w);
    assert forall|p: Point| #[trigger] joins(m2, p) by {
        if m2.is_open(p) {
            if p == c {
            } else if p == w {
                if d == 0 {
                    assert((Point { x: p.x, y: (p.y - 1) as usize }) == r);
                    assert((Point { x: p.x, y: (p.y + 1) as usize }) == c);
                } else if d == 1 {
                    assert((Point { x: (p.x - 1) as usize, y: p.y }) == c);
                    assert((Point { x: (p.x + 1) as usize, y: p.y }) == r);
                } else if d == 2 {
                    assert((Point { x: p.x, y: (p.y - 1) as usize }) == c);
                    assert((Point { x: p.x, y: (p.y + 1) as usize }) == r);
                } else {
                    assert((Point { x: (p.x - 1) as usize, y: p.y }) == r);
                    assert((Point { x: (p.x + 1) as usize, y: p.y }) == c);
                }
            } else {
                assert(joins(m0, p));
                assert(m0.is_open(p));
            }
        }
    }
}

/// The state of the carving loop: a connected region around the start, and the
/// closed cells queued to join it, each queued once over the whole run (`seen`).
pub open spec fn carving(m: Maze, frontiers: Seq<Point>, seen: Seq<Point>) -> bool {
    &&& m.wf()
    &&& m.width + m.height <= usize::MAX
    &&& m.is_open(m.start)
    &&& connected(m)
    &&& forall|i: int|
        0 <= i < frontiers.len() ==> m.in_bounds(#[trigger] frontiers[i]) && joinable(m, frontiers[i])
    &&& seen.no_duplicates()
    &&& forall|i: int| 0 <= i < seen.len() ==> m.in_bounds(#[trigger] seen[i])
    &&& forall|p: Point| #[trigger] frontiers.contains(p) ==> seen.contains(p)
    &&& forall|p: Point| #[trigger] seen.contains(p) ==> frontiers.contains(p) || m.is_open(p)
    &&& carving_shape(m, frontiers)
}

/// The shape of the carved region: open walls join open rooms, there is one
/// passage fewer than open cells, and the queued cells are distinct closed rooms.
#[verifier::opaque]
pub open spec fn carving_shape(m: Maze, frontiers: Seq<Point>) -> bool {
    &&& frontiers.no_duplicates()
    &&& forall|i: int| 0 <= i < frontiers.len() ==> is_room(m, #[trigger] frontiers[i]) && !m.is_open(frontiers[i])
    &&& walls_join(m)
    &&& tree_count(m)
    &&& frontier_complete(m, frontiers)
}

/// Each cell two steps from an open room is open or queued.
pub open spec fn frontier_complete(m: Maze, frontiers: Seq<Point>) -> bool {
    forall|r: Point, d: int|
        #![trigger toward(r, d, 2)]
        m.is_open(r) && is_room(m, r) && 0 <= d < 4 && toward_in(m, r, d, 2) ==> m.is_open(toward(r, d, 2))
            || frontiers.contains(toward(r, d, 2))
}

/// From a start at `s`, no cell of a `height` by `width` grid an even number of steps
/// away along both axes lies `(height + width) / 2` or more steps away.
pub open spec fn no_far_room(height: usize, width: usize, s: Point) -> bool {
    forall|p: Point|
        p.x < width && p.y < height && (p.x as int - s.x as int) % 2 == 0 && (p.y as int - s.y as int) % 2 == 0
            ==> #[trigger] manhattan(p, s) < (height + width) / 2
}

/// Every room inside the grid is open.
pub open spec fn rooms_carved(m: Maze) -> bool {
    forall|p: Point| m.in_bounds(p) && is_room(m, p) ==> #[trigger] m.is_open(p)
}

/// When every cell two steps from an open room is open, and the start is open,
/// every room is open: step back toward the start two cells at a time.
proof fn lemma_rooms_open(m: Maze, p: Point)
    requires
        m.is_open(m.start),
        frontier_complete(m, Seq::empty()),
        m.in_bounds(p),
        is_room(m, p),
    ensures
        m.is_open(p),
    decreases manhattan(p, m.start),
{
    let s = m.start;
    if p == s {
    } else if p.x > s.x {
        let q = Point { x: (p.x - 2) as usize, y: p.y };
        lemma_rooms_open(m, q);
        assert(toward(q, 1, 2) == p);
    } else if p.x < s.x {
        let q = Point { x: (p.x + 2) as usize, y: p.y };
        lemma_rooms_open(m, q);
        assert(toward(q, 3, 2) == p);
    } else if p.y > s.y {
        let q = Point { x: p.x, y: (p.y - 2) as usize };
        lemma_rooms_open(m, q);
        assert(toward(q, 2, 2) == p);
    } else {
        let q = Point { x: p.x, y: (p.y + 2) as usize };
        lemma_rooms_open(m, q);
        assert(toward(q, 0, 2) == p);
    }
}

proof fn lemma_shape_step(
    m0: Maze,
    m1: Maze,
    m2: Maze,
    c: Point,
    d: int,
    f0: Seq<Point>,
    i: int,
    added: Seq<Point>,
)
    requires
        m0.wf(),
        carving_shape(m0, f0),
        0 <= i < f0.len(),
        f0[i] == c,
        m0.in_bounds(c),
        room_open(m0, c, d),
        only_opened(m0, m1),
        forall|r: Point| #[trigger] m1.is_open(r) <==> (m0.is_open(r) || r == toward(c, d, 1)),
        only_opened(m1, m2),
        forall|r: Point| #[trigger] m2.is_open(r) <==> (m1.is_open(r) || r == c),
        added.no_duplicates(),
        forall|k: int|
            #![trigger added[k]]
            0 <= k < added.len() ==> {
                &&& !m2.is_open(added[k])
                &&& !f0.remove(i).contains(added[k])
                &&& (added[k].x as int - c.x as int) % 2 == 0
                &&& (added[k].y as int - c.y as int) % 2 == 0
            },
        forall|d: int|
            0 <= d < 4 && toward_in(m2, c, d, 2) ==> #[trigger] m2.is_open(toward(c, d, 2)) || (f0.remove(i)
                + added).contains(toward(c, d, 2)),
    ensures
        carving_shape(m2, f0.remove(i) + added),
{
    reveal(carving_shape);
    let f1 = f0.remove(i);
    let f2 = f1 + added;
    let wall = toward(c, d, 1);
    assert(is_room(m0, c) && !m0.is_open(c));
    lemma_carve_shape(m0, m1, m2, c, d);
    lemma_remove_distinct(f0, i);
    assert forall|a: int, b: int| 0 <= a < b < f2.len() implies f2[a] != f2[b] by {
        if b >= f1.len() && a < f1.len() {
            assert(f2[a] == f1[a]);
            assert(f1.contains(f1[a]));
            assert(f2[b] == added[b - f1.len()]);
        } else if a >= f1.len() {
            assert(f2[a] == added[a - f1.len()]);
            assert(f2[b] == added[b - f1.len()]);
        } else {
            assert(f2[a] == f1[a] && f2[b] == f1[b]);
        }
    }
    assert forall|j: int| 0 <= j < f2.len() implies is_room(m2, #[trigger] f2[j]) && !m2.is_open(f2[j]) by {
        if j < f1.len() {
            let q = f1[j];
            assert(f2[j] == q);
            assert(f1.contains(q));
            let k0 = choose|k0: int| 0 <= k0 < f0.len() && f0[k0] == q;
            assert(is_room(m0, f0[k0]) && !m0.is_open(f0[k0]));
            assert(q != c);
            assert(q != wall) by {
                assert(adjacent(c, wall));
            }
        } else {
            assert(f2[j] == added[j - f1.len()]);
        }
    }
    assert forall|r: Point, d: int|
        #![trigger toward(r, d, 2)]
        m2.is_open(r) && is_room(m2, r) && 0 <= d < 4 && toward_in(m2, r, d, 2) implies m2.is_open(toward(r, d, 2))
            || f2.contains(toward(r, d, 2)) by {
        let t = toward(r, d, 2);
        if r != c {
            assert(r != wall) by {
                assert(adjacent(c, wall));
            }
            assert(m0.is_open(r));
            if !m0.is_open(t) && t != c {
                assert(f0.contains(t));
                assert(f1.contains(t));
                let k = choose|k: int| 0 <= k < f1.len() && f1[k] == t;
                assert(f2[k] == t);
            }
        }
    }
}

/// One carving step keeps the queue and the record of queued cells in order.
proof fn lemma_queue_step(
    m0: Maze,
    m1: Maze,
    m2: Maze,
    c: Point,
    f0: Seq<Point>,
    i: int,
    added: Seq<Point>,
    seen: Seq<Point>,
)
    requires
        forall|j: int| 0 <= j < f0.len() ==> m0.in_bounds(#[trigger] f0[j]) && joinable(m0, f0[j]),
        seen.no_duplicates(),
        forall|j: int| 0 <= j < seen.len() ==> m0.in_bounds(#[trigger] seen[j]),
        forall|p: Point| #[trigger] f0.contains(p) ==> seen.contains(p),
        forall|p: Point| #[trigger] seen.contains(p) ==> f0.contains(p) || m0.is_open(p),
        0 <= i < f0.len(),
        f0[i] == c,
        only_opened(m0, m1),
        only_opened(m1, m2),
        m2.is_open(c),
        added.no_duplicates(),
        forall|k: int|
            #![trigger added[k]]
            0 <= k < added.len() ==> {
                &&& m2.in_bounds(added[k])
                &&& !m2.is_open(added[k])
                &&& !f0.remove(i).contains(added[k])
                &&& joinable(m2, added[k])
            },
    ensures
        ({
            let f2 = f0.remove(i) + added;
            let s2 = seen + added;
            &&& forall|j: int| 0 <= j < f2.len() ==> m2.in_bounds(#[trigger] f2[j]) && joinable(m2, f2[j])
            &&& s2.no_duplicates()
            &&& forall|j: int| 0 <= j < s2.len() ==> m2.in_bounds(#[trigger] s2[j])
            &&& forall|p: Point| #[trigger] f2.contains(p) ==> s2.contains(p)
            &&& forall|p: Point| #[trigger] s2.contains(p) ==> f2.contains(p) || m2.is_open(p)
        }),
{
    let f1 = f0.remove(i);
    let f2 = f1 + added;
    let s2 = seen + added;
    lemma_remove_contains(f0, i);
    assert forall|n: int| 0 <= n < f2.len() implies m2.in_bounds(#[trigger] f2[n]) && joinable(m2, f2[n]) by {
        if n < f1.len() {
            assert(f2[n] == f1[n]);
            assert(f0.contains(f1[n]));
            let j = choose|j: int| 0 <= j < f0.len() && f0[j] == f1[n];
            lemma_joinable_kept(m0, m1, f1[n]);
            lemma_joinable_kept(m1, m2, f1[n]);
        } else {
            assert(f2[n] == added[n - f1.len()]);
        }
    }
    assert forall|a: int, b: int| 0 <= a < b < s2.len() implies s2[a] != s2[b] by {
        if a < seen.len() && b >= seen.len() {
            let q = added[b - seen.len()];
            assert(s2[b] == q);
            assert(seen.contains(seen[a]));
            if seen[a] == q {
                assert(!f1.contains(q));
                assert(!m2.is_open(q));
                if f0.contains(q) && q != f0[i] {
                    assert(f1.contains(q));
                }
            }
        }
    }
    assert forall|p: Point| #[trigger] f2.contains(p) implies s2.contains(p) by {
        let j = choose|j: int| 0 <= j < f2.len() && f2[j] == p;
        if j < f1.len() {
            assert(f1[j] == p);
            assert(f1.contains(p));
            let k2 = choose|k2: int| 0 <= k2 < seen.len() && seen[k2] == p;
            assert(s2[k2] == p);
        } else {
            assert(s2[seen.len() + j - f1.len()] == p);
        }
    }
    assert forall|p: Point| #[trigger] s2.contains(p) implies f2.contains(p) || m2.is_open(p) by {
        let j = choose|j: int| 0 <= j < s2.len() && s2[j] == p;
        if j < seen.len() {
            assert(seen[j] == p);
            assert(seen.contains(p));
            if f0.contains(p) && p != c {
                assert(f1.contains(p));
                let k2 = choose|k2: int| 0 <= k2 < f1.len() && f1[k2] == p;
                assert(f2[k2] == p);
            }
        } else {
            assert(f2[f1.len() + j - seen.len()] == p);
        }
    }
    assert forall|j: int| 0 <= j < s2.len() implies m2.in_bounds(#[trigger] s2[j]) by {
        if j < seen.len() {
            assert(s2[j] == seen[j]);
        } else {
            assert(s2[j] == added[j - seen.len()]);
        }
    }
}

/// Takes the queued cell at `pick`, carves the wall between it and the open cell two
/// steps away in its `turn`-th open direction, opens it, and queues its own frontier.
fn carve_step(
    m: &mut Maze,
    frontiers: &mut Vec<Point>,
    pick: usize,
    turn: usize,
    seen: Ghost<Seq<Point>>,
) -> (next: Ghost<Seq<Point>>)
    requires
        carving(*old(m), old(frontiers)@, seen@),
        pick < old(frontiers)@.len(),
        turn < open_dir_count(*old(m), old(frontiers)@[pick as int], 4),
    ensures
        carving(*final(m), final(frontiers)@, next@),
        only_opened(*old(m), *final(m)),
        next@.len() >= seen@.len(),
        2 * next@.len() - final(frontiers)@.len() > 2 * seen@.len() - old(frontiers)@.len(),
{
    let ghost seen = seen@;
    let ghost m_in = *m;
    let i = pick;
    let ghost f0 = frontiers@;
    let c = frontiers.remove(i);
    proof {
        lemma_remove_contains(f0, i as int);
    }
    let dirs = open_directions(m, c);
    let d = dirs[turn];
    let wall = step_from(m, c, d, 1).unwrap();
    let ghost m0 = *m;
    open_cell(m, wall);
    let ghost m1 = *m;
    let ghost f1 = frontiers@;
    let added = mark(m, frontiers, c.x, c.y);
    proof {
        assert(f0[i as int] == c);
        assert(room_open(m0, c, d as int));
        assert(wall == toward(c, d as int, 1));
        assert(f1 == f0.remove(i as int));
        lemma_shape_step(m0, m1, *m, c, d as int, f0, i as int, added@);
        assert(frontiers@ == f0.remove(i as int) + added@);
        let room = toward(c, d as int, 2);
        assert(m0.is_open(room) && adjacent(room, wall));
        lemma_connected_grow(m0, m1, room, wall);
        assert(adjacent(wall, c));
        lemma_connected_grow(m1, *m, wall, c);
    }
    let ghost s2 = seen + added@;
    proof {
        lemma_queue_step(m0, m1, *m, c, f0, i as int, added@, seen);
        assert(only_opened(m_in, *m));
    }
    Ghost(s2)
}

/// A connected region of floor carved out of solid wall from a random start.
fn carve(height: usize, width: usize, rng: &mut rand::rngs::StdRng) -> (m: Maze)
    requires
        height > 0,
        width > 0,
        height + width <= usize::MAX,
    ensures
        m.wf(),
        m.height == height,
        m.width == width,
        m.destanation == m.start,
        m.is_open(m.start),
        connected(m),
        tree_count(m),
        rooms_carved(m),
        walls_join(m),
{
    let grid = walls(height, width);
    let x = seeded_below(rng, width);
    let y = seeded_below(rng, height);
    let start = Point { x, y };
    let mut m = Maze { height, width, start, destanation: start, grid };
    let mut frontiers: Vec<Point> = Vec::new();
    let added = mark(&mut m, &mut frontiers, x, y);
    let ghost mut seen: Seq<Point> = added@;
    proof {
        assert(frontiers@ =~= added@);
        assert forall|p: Point| #[trigger] m.is_open(p) implies m.reachable(m.start, p) by {
            let path = seq![start];
            assert(m.is_route(path) && path[0] == start && path.last() == p);
        }
        reveal(carving_shape);
        assert forall|p: Point| #[trigger] joins(m, p) by {}
        lemma_cells_finite(m);
        assert(open_cells(m) =~= set![start]);
        assert(east_edges(m) =~= Set::empty());
        assert(south_edges(m) =~= Set::empty());
    }
    while frontiers.len() > 0
        invariant
            carving(m, frontiers@, seen),
            m.height == height,
            m.width == width,
            m.start == start,
            m.destanation == start,
        decreases 2 * (width * height - seen.len()) + frontiers@.len(),
    {
        proof {
            lemma_distinct_in_rect(seen, width as nat, height as nat);
        }
        let pick = seeded_below(rng, frontiers.len());
        let choices = open_directions(&m, frontiers[pick]);
        let turn = seeded_below(rng, choices.len());
        let next = carve_step(&mut m, &mut frontiers, pick, turn, Ghost(seen));
        proof {
            seen = next@;
            lemma_distinct_in_rect(seen, width as nat, height as nat);
        }
    }
    proof {
        reveal(carving_shape);
        assert(frontiers@ =~= Seq::<Point>::empty());
        assert forall|p: Point| m.in_bounds(p) && is_room(m, p) implies #[trigger] m.is_open(p) by {
            lemma_rooms_open(m, p);
        }
    }
    m
}

impl Maze {
    /// The open cells other than the start that lie at least `min_distance` steps
    /// from it, row by row: where a destination may go.
    pub fn destination_candidates(&self, min_distance: usize) -> (r: Vec<Point>)
        requires
            self.wf(),
            self.in_bounds(self.start),
            self.width + self.height <= usize::MAX,
        ensures
            forall|p: Point|
                #[trigger] r@.contains(p) <==> (self.is_open(p) && p != self.start && manhattan(p, self.start)
                    >= min_distance),
    {
        let mut r: Vec<Point> = Vec::new();
        for y in 0..self.height
            invariant
                self.wf(),
                self.in_bounds(self.start),
                self.width + self.height <= usize::MAX,
                forall|p: Point|
                    #[trigger] r@.contains(p) <==> (p.y < y && self.is_open(p) && p != self.start
                        && manhattan(p, self.start) >= min_distance),
        {
            for x in 0..self.width
                invariant
                    self.wf(),
                    self.in_bounds(self.start),
                    self.width + self.height <= usize::MAX,
                    y < self.height,
                    forall|p: Point|
                        #[trigger] r@.contains(p) <==> ((p.y < y || (p.y == y && p.x < x)) && self.is_open(p)
                            && p != self.start && manhattan(p, self.start) >= min_distance),
            {
                let p = Point { x, y };
                if !self.grid[y][x].obsticle && p != self.start && p.distance(&self.start) >= min_distance {
                    let ghost before = r@;
                    r.push(p);
                    proof {
                        assert forall|q: Point| #[trigger] r@.contains(q) <==> (before.contains(q) || q == p) by {
                            if r@.contains(q) && q != p {
                                let k = choose|k: int| 0 <= k < r@.len() && r@[k] == q;
                                assert(before[k] == q);
                            }
                            if before.contains(q) {
                                let k = choose|k: int| 0 <= k < before.len() && before[k] == q;
                                assert(r@[k] == q);
                            }
                            if q == p {
                                assert(r@[before.len() as int] == q);
                            }
                        }
                    }
                }
            }
        }
        r
    }

    /// Places the destination on the open cells at least `(height + width) / 2` steps
    /// from the start that `destination_candidates` lists: the one at `draw` modulo
    /// their count. With no such cell the result is `Unsatisfiable`.
    pub fn place_destination(m: Maze, draw: usize) -> (r: Result<Maze, MazeError>)
        requires
            m.wf(),
            m.in_bounds(m.start),
            m.width + m.height <= usize::MAX,
        ensures
            r is Err <==> !exists|p: Point|
                m.is_open(p) && p != m.start && manhattan(p, m.start) >= (m.height + m.width) / 2,
            r matches Err(e) ==> e == MazeError::Unsatisfiable,
            r matches Ok(m2) ==> {
                &&& m2 == (Maze { destanation: m2.destanation, ..m })
                &&& m2.is_open(m2.destanation)
                &&& m2.destanation != m2.start
                &&& manhattan(m2.start, m2.destanation) >= (m.height + m.width) / 2
            },
    {
        let candidates = m.destination_candidates((m.height + m.width) / 2);
        if candidates.len() == 0 {
            proof {
                assert forall|p: Point|
                    !(m.is_open(p) && p != m.start && manhattan(p, m.start) >= (m.height + m.width) / 2) by {
                    if m.is_open(p) && p != m.start && manhattan(p, m.start) >= (m.height + m.width) / 2 {
                        assert(candidates@.contains(p));
                    }
                }
            }
            return Err(MazeError::Unsatisfiable);
        }
        let destanation = candidates[draw % candidates.len()];
        proof {
            assert(candidates@.contains(destanation));
        }
        Ok(Maze { destanation, ..m })
    }

    /// Carves a maze of `height` rows and `width` columns out of solid wall by
    /// randomized frontier carving from a random start, then places a random
    /// destination with `place_destination`. Every draw comes from one generator
    /// seeded with `seed`. The result is `Unsatisfiable` only if some start leaves no
    /// room far enough away; where every start has one, a maze is owed.
    ///
    /// The maze is perfect: every open cell can be reached from the start, and there
    /// is exactly one passage fewer than there are open cells, so no passage closes a
    /// cycle. Every room (an even number of steps from the start along both axes) is
    /// open, and every other open cell is a wall between two open rooms, so no cell
    /// an odd number of steps away along both axes is open. Both endpoints are open
    /// and distinct, at least `(height + width) / 2` steps apart.
    pub fn generate(height: usize, width: usize, seed: u64) -> (r: Result<Maze, MazeError>)
        requires
            height > 0,
            width > 0,
            height + width <= usize::MAX,
        ensures
            match r {
                Ok(m) => {
                    &&& m.wf()
                    &&& m.height == height
                    &&& m.width == width
                    &&& m.endpoints_ok()
                    &&& manhattan(m.start, m.destanation) >= (height + width) / 2
                    &&& connected(m)
                    &&& tree_count(m)
                    &&& rooms_carved(m)
                    &&& walls_join(m)
                },
                Err(e) => e == MazeError::Unsatisfiable,
            },
            r is Err ==> exists|s: Point|
                #![trigger no_far_room(height, width, s)]
                s.x < width && s.y < height && no_far_room(height, width, s),
    {
        let mut rng = seeded(seed);
        let m = carve(height, width, &mut rng);
        let ghost carved = m;
        let count = m.destination_candidates((height + width) / 2).len();
        let draw = if count > 0 {
            seeded_below(&mut rng, count)
        } else {
            0
        };
        let r = Maze::place_destination(m, draw);
        proof {
            if r is Ok {
                lemma_connected_moved(carved, r->Ok_0.destanation);
            } else {
                let st = carved.start;
                assert forall|p: Point|
                    p.x < width && p.y < height && (p.x as int - st.x as int) % 2 == 0 && (p.y as int
                        - st.y as int) % 2 == 0 implies #[trigger] manhattan(p, st) < (height + width) / 2 by {
                    assert(carved.in_bounds(p) && is_room(carved, p));
                    assert(carved.is_open(p));
                }
                assert(no_far_room(height, width, st));
            }
        }
        r
    }
}

} // verus!
