use vstd::prelude::*;
use crate::maze::{
    adjacent, at, contains_point, filled, grid_write, lemma_adjacent_is_neighbor,
    lemma_distinct_in_rect, lemma_remove_distinct, manhattan, shaped, Cell, Maze, MazeError, Point,
};

verus! {

/// The outcome of an A* run: the route from start to destination, or why there is
/// none, and the cells in the order the search expanded them.
#[derive(Debug)]
pub struct Search {
    pub path: Result<Vec<Point>, MazeError>,
    pub expanded: Vec<Point>,
}

/// Every open cell next to a closed cell is closed or waiting in the open list.
pub open spec fn closed_is_sealed(m: Maze, closed: Seq<Vec<bool>>, in_open: Seq<Vec<bool>>) -> bool {
    forall|p: Point, n: Point|
        #![trigger at(closed, p), at(closed, n)]
        m.in_bounds(p) && at(closed, p) && m.is_open(n) && adjacent(p, n) ==> at(closed, n) || at(
            in_open,
            n,
        )
}

/// With nothing waiting, a route that starts in a sealed closed region stays in it.
proof fn lemma_sealed_route(
    m: Maze,
    closed: Seq<Vec<bool>>,
    in_open: Seq<Vec<bool>>,
    path: Seq<Point>,
    i: int,
)
    requires
        m.wf(),
        shaped(closed, m),
        shaped(in_open, m),
        closed_is_sealed(m, closed, in_open),
        forall|p: Point| m.in_bounds(p) ==> !#[trigger] at(in_open, p),
        m.is_route(path),
        at(closed, path[0]),
        0 <= i < path.len(),
    ensures
        at(closed, path[i]),
    decreases i,
{
    if i > 0 {
        lemma_sealed_route(m, closed, in_open, path, i - 1);
        assert(m.is_open(path[i - 1]));
        assert(m.is_open(path[i]));
        assert(adjacent(path[i - 1], path[i]));
        assert(at(closed, path[i - 1]));
    }
}

/// The recorded cost of `p`, zero where none is recorded.
pub open spec fn cost(g: Seq<Vec<Option<usize>>>, p: Point) -> int {
    match at(g, p) {
        Some(v) => v as int,
        None => 0,
    }
}

/// The A* score of `p`: its recorded cost plus its Manhattan distance to the
/// destination.
pub open spec fn score(m: Maze, g: Seq<Vec<Option<usize>>>, p: Point) -> int {
    cost(g, p) + manhattan(p, m.destanation)
}

/// No route from the start to `p` takes fewer than `k` steps.
pub open spec fn at_least(m: Maze, p: Point, k: int) -> bool {
    forall|r: Seq<Point>| #[trigger] m.is_route(r) && r[0] == m.start && r.last() == p ==> k <= r.len() - 1
}

/// `p` costs one step more than its recorded predecessor.
pub open spec fn one_more(g: Seq<Vec<Option<usize>>>, parent: Seq<Vec<Option<Point>>>, p: Point) -> bool {
    match at(parent, p) {
        Some(q) => cost(g, p) == cost(g, q) + 1,
        None => false,
    }
}

/// A route from `a` to `b` takes at least as many steps as their Manhattan distance.
proof fn lemma_route_manhattan(m: Maze, r: Seq<Point>, i: int)
    requires
        m.is_route(r),
        0 <= i < r.len(),
    ensures
        manhattan(r[i], r.last()) <= r.len() - 1 - i,
    decreases r.len() - i,
{
    if i < r.len() - 1 {
        lemma_route_manhattan(m, r, i + 1);
        assert(adjacent(r[i], r[i + 1]));
    }
}

/// `a` is taken before `b`: lower score, then nearer the destination.
pub open spec fn ranks_before(m: Maze, g: Seq<Vec<Option<usize>>>, a: Point, b: Point) -> bool {
    score(m, g, a) < score(m, g, b) || (score(m, g, a) == score(m, g, b) && manhattan(a, m.destanation)
        < manhattan(b, m.destanation))
}

/// The position in `open` of a point of lowest score; among those, of lowest
/// distance to the destination, and then the first.
fn lowest_score_index(m: &Maze, open: &Vec<Point>, g: &Vec<Vec<Option<usize>>>) -> (r: usize)
    requires
        m.wf(),
        m.in_bounds(m.destanation),
        m.width * m.height + m.width + m.height <= usize::MAX,
        shaped(g@, *m),
        open@.len() > 0,
        forall|i: int|
            0 <= i < open@.len() ==> m.in_bounds(#[trigger] open@[i]) && cost(g@, open@[i]) <= m.width * m.height,
    ensures
        r < open@.len(),
        forall|i: int| 0 <= i < open@.len() ==> score(*m, g@, open@[r as int]) <= score(*m, g@, #[trigger] open@[i]),
        forall|i: int|
            0 <= i < open@.len() ==> ranks_before(*m, g@, open@[r as int], #[trigger] open@[i]) || (i >= r
                && !ranks_before(*m, g@, open@[i], open@[r as int])),
{
    let mut best: usize = 0;
    let mut best_f: usize = usize::MAX;
    let mut best_h: usize = usize::MAX;
    let mut i: usize = 0;
    while i < open.len()
        invariant
            m.wf(),
            m.in_bounds(m.destanation),
            m.width * m.height + m.width + m.height <= usize::MAX,
            shaped(g@, *m),
            forall|k: int|
                0 <= k < open@.len() ==> m.in_bounds(#[trigger] open@[k]) && cost(g@, open@[k]) <= m.width * m.height,
            open@.len() > 0,
            best < open@.len(),
            i <= open@.len(),
            i == 0 ==> best_f == usize::MAX && best_h == usize::MAX,
            i > 0 ==> best_f == score(*m, g@, open@[best as int]),
            i > 0 ==> best_h == manhattan(open@[best as int], m.destanation),
            i > 0 ==> best < i,
            forall|k: int| 0 <= k < i ==> best_f <= score(*m, g@, #[trigger] open@[k]),
            forall|k: int|
                0 <= k < i ==> ranks_before(*m, g@, open@[best as int], #[trigger] open@[k]) || (k >= best
                    && !ranks_before(*m, g@, open@[k], open@[best as int])),
        decreases open@.len() - i,
    {
        let p = open[i];
        let h = p.distance(&m.destanation);
        let gp = match g[p.y][p.x] {
            Some(v) => v,
            None => 0,
        };
        assert(manhattan(p, m.destanation) < m.width + m.height);
        assert(gp == cost(g@, p) && cost(g@, p) <= m.width * m.height);
        let f = gp + h;
        assert(f == score(*m, g@, p));
        if f < best_f || (f == best_f && h < best_h) {
            best = i;
            best_f = f;
            best_h = h;
        }
        i += 1;
    }
    best
}

/// `p` has a recorded predecessor, already expanded and one step away.
pub open spec fn linked(parent: Seq<Vec<Option<Point>>>, rank: Map<Point, int>, p: Point) -> bool {
    match at(parent, p) {
        Some(q) => rank.contains_key(q) && adjacent(p, q),
        None => false,
    }
}

/// As `linked`, with the predecessor expanded before `p`.
pub open spec fn linked_earlier(parent: Seq<Vec<Option<Point>>>, rank: Map<Point, int>, p: Point) -> bool {
    match at(parent, p) {
        Some(q) => rank.contains_key(q) && rank[q] < rank[p] && adjacent(p, q),
        None => false,
    }
}

/// The expanded cells, numbered in the order of expansion.
pub open spec fn ranked(m: Maze, parent: Seq<Vec<Option<Point>>>, rank: Map<Point, int>, expanded: Seq<Point>) -> bool {
    &&& forall|p: Point|
        #![trigger rank[p]]
        rank.contains_key(p) ==> {
            &&& m.is_open(p)
            &&& 0 <= rank[p] < expanded.len()
            &&& expanded[rank[p]] == p
            &&& (p == m.start || linked_earlier(parent, rank, p))
        }
    &&& forall|i: int|
        #![trigger expanded[i]]
        0 <= i < expanded.len() ==> rank.contains_key(expanded[i]) && rank[expanded[i]] == i
}

fn reversed(v: &Vec<Point>) -> (r: Vec<Point>)
    ensures
        r@ == v@.reverse(),
{
    let mut r: Vec<Point> = Vec::new();
    let mut k: usize = v.len();
    while k > 0
        invariant
            k <= v@.len(),
            r@.len() == v@.len() - k,
            forall|i: int| 0 <= i < r@.len() ==> r@[i] == v@[v@.len() - 1 - i],
        decreases k,
    {
        k -= 1;
        r.push(v[k]);
    }
    assert(r@ =~= v@.reverse());
    r
}

/// A walk read backwards is a walk.
proof fn lemma_reversed_route(m: Maze, rev: Seq<Point>)
    requires
        rev.len() > 0,
        forall|i: int| 0 <= i < rev.len() ==> m.is_open(#[trigger] rev[i]),
        forall|i: int| 0 <= i < rev.len() - 1 ==> adjacent(#[trigger] rev[i], rev[i + 1]),
    ensures
        m.is_route(rev.reverse()),
        rev.reverse()[0] == rev.last(),
        rev.reverse().last() == rev[0],
{
    let r = rev.reverse();
    assert forall|i: int| 0 <= i < r.len() - 1 implies adjacent(#[trigger] r[i], r[i + 1]) by {
        let n = rev.len();
        assert(r[i] == rev[n - 1 - i]);
        assert(r[i + 1] == rev[n - 1 - (i + 1)]);
        assert(adjacent(rev[n - 2 - i], rev[n - 2 - i + 1]));
    }
    assert forall|i: int| 0 <= i < r.len() implies m.is_open(#[trigger] r[i]) by {
        assert(r[i] == rev[rev.len() - 1 - i]);
    }
}

/// Follows the recorded predecessors from the destination back to the start.
fn trace_back(
    m: &Maze,
    parent: &Vec<Vec<Option<Point>>>,
    rank: Ghost<Map<Point, int>>,
    expanded: Ghost<Seq<Point>>,
    g: Ghost<Seq<Vec<Option<usize>>>>,
) -> (r: Vec<Point>)
    requires
        m.wf(),
        shaped(parent@, *m),
        ranked(*m, parent@, rank@, expanded@),
        rank@.contains_key(m.destanation),
        cost(g@, m.start) == 0,
        forall|p: Point| #[trigger] rank@.contains_key(p) && p != m.start ==> one_more(g@, parent@, p),
    ensures
        m.is_route(r@),
        r@[0] == m.start,
        r@.last() == m.destanation,
        r@.len() == cost(g@, m.destanation) + 1,
{
    let mut rev: Vec<Point> = Vec::new();
    let mut cur = m.destanation;
    rev.push(cur);
    assert(rank@[cur] >= 0);
    assert(m.is_open(cur));
    assert(rev@[0] == cur);
    while cur != m.start
        invariant
            m.wf(),
            shaped(parent@, *m),
            ranked(*m, parent@, rank@, expanded@),
            rank@.contains_key(cur),
            rev@.len() > 0,
            rev@[0] == m.destanation,
            rev@.last() == cur,
            forall|i: int| 0 <= i < rev@.len() ==> m.is_open(#[trigger] rev@[i]),
            forall|i: int| 0 <= i < rev@.len() - 1 ==> adjacent(#[trigger] rev@[i], rev@[i + 1]),
            cost(g@, m.start) == 0,
            forall|p: Point| #[trigger] rank@.contains_key(p) && p != m.start ==> one_more(g@, parent@, p),
            rev@.len() + cost(g@, cur) == cost(g@, m.destanation) + 1,
        decreases rank@[cur],
    {
        assert(rank@[cur] >= 0 && linked_earlier(parent@, rank@, cur));
        let q = parent[cur.y][cur.x].unwrap();
        assert(rank@[q] >= 0);
        rev.push(q);
        cur = q;
    }
    let r = reversed(&rev);
    proof {
        lemma_reversed_route(*m, rev@);
    }
    r
}

/// The bookkeeping of one A* run, kept per cell of the grid.
struct Frontier {
    closed: Vec<Vec<bool>>,
    in_open: Vec<Vec<bool>>,
    g: Vec<Vec<Option<usize>>>,
    parent: Vec<Vec<Option<Point>>>,
    open: Vec<Point>,
    expanded: Vec<Point>,
    rank: Ghost<Map<Point, int>>,
}

impl Frontier {
    spec fn inv(&self, m: Maze) -> bool {
        &&& m.wf()
        &&& m.endpoints_ok()
        &&& m.width * m.height + m.width + m.height <= usize::MAX
        &&& shaped(self.closed@, m)
        &&& shaped(self.in_open@, m)
        &&& shaped(self.g@, m)
        &&& shaped(self.parent@, m)
        &&& self.open@.no_duplicates()
        &&& forall|i: int|
            #![trigger self.open@[i]]
            0 <= i < self.open@.len() ==> {
                let p = self.open@[i];
                &&& m.is_open(p)
                &&& !at(self.closed@, p)
                &&& (p == m.start || linked(self.parent@, self.rank@, p))
            }
        &&& forall|p: Point|
            m.in_bounds(p) ==> (#[trigger] at(self.in_open@, p) <==> self.open@.contains(p))
        &&& forall|p: Point|
            #![trigger at(self.closed@, p)]
            m.in_bounds(p) ==> (at(self.closed@, p) <==> self.rank@.contains_key(p))
        &&& forall|p: Point|
            #![trigger at(self.g@, p)]
            m.in_bounds(p) && !at(self.closed@, p) && !at(self.in_open@, p) ==> at(self.g@, p) is None
        &&& ranked(m, self.parent@, self.rank@, self.expanded@)
        &&& self.expanded@.len() == 0 ==> self.open@ == seq![m.start]
        &&& self.expanded@.len() > 0 ==> self.expanded@[0] == m.start
    }

    /// The start costs nothing; every other expanded or waiting cell costs one step
    /// more than its predecessor; no route to an expanded cell is cheaper than its
    /// cost, which is at most its number; a waiting cell costs at most the number
    /// of expanded cells.
    #[verifier::opaque]
    spec fn costs(&self, m: Maze) -> bool {
        &&& at(self.g@, m.start) == Some(0usize)
        &&& forall|p: Point|
            #![trigger at(self.g@, p)]
            m.in_bounds(p) && (at(self.closed@, p) || at(self.in_open@, p)) ==> at(self.g@, p) is Some
        &&& forall|p: Point|
            #![trigger self.rank@[p]]
            self.rank@.contains_key(p) ==> {
                &&& cost(self.g@, p) <= self.rank@[p]
                &&& at_least(m, p, cost(self.g@, p))
                &&& (p == m.start || one_more(self.g@, self.parent@, p))
            }
        &&& forall|i: int|
            #![trigger self.open@[i]]
            0 <= i < self.open@.len() ==> {
                &&& cost(self.g@, self.open@[i]) <= self.expanded@.len()
                &&& (self.open@[i] == m.start || one_more(self.g@, self.parent@, self.open@[i]))
            }
    }

    /// Every open neighbour of a closed cell other than `c` is closed, or waiting
    /// at a cost of at most one more.
    #[verifier::opaque]
    spec fn relaxed_except(&self, m: Maze, c: Point) -> bool {
        forall|p: Point, n: Point|
            #![trigger at(self.closed@, p), at(self.closed@, n)]
            m.in_bounds(p) && at(self.closed@, p) && p != c && m.is_open(n) && adjacent(p, n) ==> at(
                self.closed@,
                n,
            ) || (at(self.in_open@, n) && cost(self.g@, n) <= cost(self.g@, p) + 1)
    }

    /// As `relaxed_except`, for every closed cell.
    #[verifier::opaque]
    spec fn relaxed(&self, m: Maze) -> bool {
        forall|p: Point, n: Point|
            #![trigger at(self.closed@, p), at(self.closed@, n)]
            m.in_bounds(p) && at(self.closed@, p) && m.is_open(n) && adjacent(p, n) ==> at(
                self.closed@,
                n,
            ) || (at(self.in_open@, n) && cost(self.g@, n) <= cost(self.g@, p) + 1)
    }

    /// Along a route from the start to a cell not yet expanded, some cell is waiting
    /// at a cost no more than its position on the route.
    proof fn lemma_waiting_on_route(&self, m: Maze, r: Seq<Point>, i: int)
        requires
            self.inv(m),
            self.costs(m),
            self.relaxed(m),
            m.is_route(r),
            r[0] == m.start,
            !at(self.closed@, r.last()),
            0 <= i < r.len(),
            forall|j: int| 0 <= j < i ==> at(self.closed@, #[trigger] r[j]),
        ensures
            exists|k: int| 0 <= k < r.len() && #[trigger] at(self.in_open@, r[k]) && cost(self.g@, r[k]) <= k,
        decreases r.len() - i,
    {
        reveal(Frontier::costs);
        reveal(Frontier::relaxed);
        if at(self.closed@, r[i]) {
            self.lemma_waiting_on_route(m, r, i + 1);
        } else if i == 0 {
            if self.expanded@.len() > 0 {
                assert(self.rank@[self.expanded@[0]] == 0);
            } else {
                assert(self.open@[0] == m.start);
            }
            assert(at(self.in_open@, r[0]));
        } else {
            let p = r[i - 1];
            assert(at(self.closed@, p));
            assert(m.is_open(r[i]) && adjacent(p, r[i]));
            assert(self.rank@[p] >= 0);
            let pre = r.subrange(0, i);
            assert(m.is_route(pre) && pre[0] == m.start && pre.last() == p) by {
                assert forall|j: int| 0 <= j < pre.len() implies m.is_open(#[trigger] pre[j]) by {
                    assert(pre[j] == r[j]);
                }
                assert forall|j: int| 0 <= j < pre.len() - 1 implies adjacent(#[trigger] pre[j], pre[j + 1]) by {
                    assert(pre[j] == r[j] && pre[j + 1] == r[j + 1]);
                }
            }
            assert(at(self.in_open@, r[i]));
        }
    }

    /// The waiting cell of lowest score costs no more than any route to it.
    proof fn lemma_cheapest(&self, m: Maze, idx: int)
        requires
            self.inv(m),
            self.costs(m),
            self.relaxed(m),
            0 <= idx < self.open@.len(),
            forall|i: int|
                0 <= i < self.open@.len() ==> score(m, self.g@, self.open@[idx]) <= score(
                    m,
                    self.g@,
                    #[trigger] self.open@[i],
                ),
        ensures
            at_least(m, self.open@[idx], cost(self.g@, self.open@[idx])),
    {
        reveal(Frontier::costs);
        let c = self.open@[idx];
        assert forall|r: Seq<Point>| #[trigger] m.is_route(r) && r[0] == m.start && r.last() == c implies cost(
            self.g@,
            c,
        ) <= r.len() - 1 by {
            assert(!at(self.closed@, c));
            self.lemma_waiting_on_route(m, r, 0);
            let k = choose|k: int| 0 <= k < r.len() && #[trigger] at(self.in_open@, r[k]) && cost(self.g@, r[k]) <= k;
            assert(m.in_bounds(r[k]));
            assert(self.open@.contains(r[k]));
            let j = choose|j: int| 0 <= j < self.open@.len() && self.open@[j] == r[k];
            assert(score(m, self.g@, c) <= score(m, self.g@, self.open@[j]));
            lemma_route_manhattan(m, r, k);
        }
    }

    fn new(m: &Maze) -> (r: Frontier)
        requires
            m.wf(),
            m.endpoints_ok(),
            m.width * m.height + m.width + m.height <= usize::MAX,
        ensures
            r.inv(*m),
            r.expanded@.len() == 0,
            r.rank@ == Map::<Point, int>::empty(),
            r.costs(*m),
            r.relaxed(*m),
    {
        let start = m.start;
        let closed = filled(m.height, m.width, false);
        let mut in_open = filled(m.height, m.width, false);
        let mut g: Vec<Vec<Option<usize>>> = filled(m.height, m.width, None);
        let parent: Vec<Vec<Option<Point>>> = filled(m.height, m.width, None);
        let mut open: Vec<Point> = Vec::new();
        open.push(start);
        grid_write(&mut in_open, start.x, start.y, true);
        grid_write(&mut g, start.x, start.y, Some(0));
        let r = Frontier { closed, in_open, g, parent, open, expanded: Vec::new(), rank: Ghost(Map::empty()) };
        reveal(Frontier::costs);
        reveal(Frontier::relaxed);
        assert forall|p: Point| m.in_bounds(p) implies (#[trigger] at(r.in_open@, p) <==> r.open@.contains(p)) by {
            if p == start {
                assert(r.open@[0] == p);
            }
        }
        r
    }

    /// Moves the open cell of lowest score to the closed set and records it.
    fn expand_next(&mut self, m: &Maze) -> (current: Point)
        requires
            old(self).inv(*m),
            old(self).costs(*m),
            old(self).relaxed(*m),
            old(self).open@.len() > 0,
        ensures
            final(self).inv(*m),
            !old(self).rank@.contains_key(current),
            m.in_bounds(current),
            final(self).rank@ == old(self).rank@.insert(current, old(self).expanded@.len() as int),
            final(self).expanded@ == old(self).expanded@.push(current),
            forall|p: Point| m.in_bounds(p) && #[trigger] at(old(self).in_open@, p) && p != current ==> at(final(self).in_open@, p),
            forall|p: Point| m.in_bounds(p) && p != current ==> #[trigger] at(final(self).closed@, p) == at(old(self).closed@, p),
            at(final(self).closed@, current),
            final(self).costs(*m),
            final(self).relaxed_except(*m, current),
            final(self).g == old(self).g,
            final(self).parent == old(self).parent,
    {
        proof {
            reveal(Frontier::costs);
            lemma_ranked_distinct(*m, self.parent@, self.rank@, self.expanded@);
            lemma_distinct_in_rect(self.expanded@, m.width as nat, m.height as nat);
        }
        let idx = lowest_score_index(m, &self.open, &self.g);
        proof {
            self.lemma_cheapest(*m, idx as int);
        }
        let ghost a = *self;
        let ghost old_open = self.open@;
        let current = self.open.remove(idx);
        grid_write(&mut self.in_open, current.x, current.y, false);
        proof {
            assert(self.open@ == old_open.remove(idx as int));
            assert(old_open[idx as int] == current);
            lemma_remove_distinct(old_open, idx as int);
            assert forall|i: int| 0 <= i < self.open@.len() implies #[trigger] self.open@[i] != current by {
                assert(self.open@.contains(self.open@[i]));
            }
        }
        grid_write(&mut self.closed, current.x, current.y, true);
        let ghost old_rank = self.rank@;
        let ghost old_exp = self.expanded@;
        proof {
            assert(m.is_open(old_open[idx as int]));
            assert(current == m.start || linked(self.parent@, old_rank, current));
            self.rank@ = old_rank.insert(current, old_exp.len() as int);
        }
        self.expanded.push(current);
        proof {
            let rank = self.rank@;
            let parent = self.parent@;
            let expanded = self.expanded@;
            assert forall|p: Point| #[trigger] rank.contains_key(p) implies {
                &&& m.is_open(p)
                &&& 0 <= rank[p] < expanded.len()
                &&& expanded[rank[p]] == p
                &&& (p == m.start || linked_earlier(parent, rank, p))
            } by {
                if p != current {
                    assert(old_rank.contains_key(p));
                    assert(old_rank[p] >= 0);
                    assert(expanded[rank[p]] == old_exp[old_rank[p]]);
                    if p != m.start {
                        assert(linked_earlier(parent, old_rank, p));
                        let q = at(parent, p)->Some_0;
                        assert(old_rank[q] >= 0);
                    }
                } else if p != m.start {
                    let q = at(parent, p)->Some_0;
                    assert(old_rank[q] >= 0);
                }
            }
            assert forall|i: int| 0 <= i < expanded.len() implies rank.contains_key(#[trigger] expanded[i])
                && rank[expanded[i]] == i by {
                if i < old_exp.len() {
                    assert(expanded[i] == old_exp[i]);
                    assert(old_rank.contains_key(old_exp[i]) && old_rank[old_exp[i]] == i);
                }
            }
            assert(ranked(*m, parent, rank, expanded));
            lemma_close_costs(*m, a, *self, current, idx as int);
            lemma_close_relaxed(*m, a, *self, current);
        }
        current
    }

    /// Offers the neighbour cell `nb` of the expanded cell `current` to the open list,
    /// recording `current` as its predecessor when that shortens its known cost.
    fn relax(&mut self, m: &Maze, current: Point, g_cur: usize, nb: Cell)
        requires
            old(self).inv(*m),
            old(self).rank@.contains_key(current),
            m.in_bounds(nb.point),
            adjacent(current, nb.point),
            nb == m.cell(nb.point),
            old(self).costs(*m),
            old(self).relaxed_except(*m, current),
            g_cur == cost(old(self).g@, current),
        ensures
            final(self).inv(*m),
            final(self).rank == old(self).rank,
            final(self).expanded == old(self).expanded,
            final(self).closed == old(self).closed,
            forall|p: Point| m.in_bounds(p) && #[trigger] at(old(self).in_open@, p) ==> at(final(self).in_open@, p),
            m.is_open(nb.point) ==> at(final(self).closed@, nb.point) || at(final(self).in_open@, nb.point),
            final(self).costs(*m),
            final(self).relaxed_except(*m, current),
            forall|p: Point| m.in_bounds(p) && #[trigger] at(old(self).in_open@, p) ==> cost(final(self).g@, p) <= cost(old(self).g@, p),
            forall|p: Point| m.in_bounds(p) && #[trigger] at(old(self).closed@, p) ==> at(final(self).g@, p) == at(old(self).g@, p),
            m.is_open(nb.point) ==> at(final(self).closed@, nb.point) || cost(final(self).g@, nb.point) <= g_cur + 1,
    {
        let np = nb.point;
        let ghost open0 = self.open@;
        let ghost parent0 = self.parent@;
        let ghost in_open0 = self.in_open@;
        let ghost a = *self;
        if !self.closed[np.y][np.x] && !nb.obsticle {
            proof {
                assert(!at(self.closed@, np));
                assert(!self.rank@.contains_key(np));
                assert(m.is_open(np));
            }
            proof {
                reveal(Frontier::costs);
                assert(self.rank@[current] < self.expanded@.len());
                assert(cost(self.g@, current) <= self.rank@[current]);
                lemma_ranked_distinct(*m, self.parent@, self.rank@, self.expanded@);
                lemma_distinct_in_rect(self.expanded@, m.width as nat, m.height as nat);
                assert(m.width * m.height <= usize::MAX);
            }
            let step = current.distance(&np);
            let tentative = g_cur + step;
            if !self.in_open[np.y][np.x] {
                proof {
                    assert(!at(in_open0, np));
                    assert(!open0.contains(np));
                    assert(at(self.g@, np) is None);
                }
                self.open.push(np);
                grid_write(&mut self.in_open, np.x, np.y, true);
                proof {
                    assert forall|i: int, j: int| 0 <= i < j < self.open@.len() implies self.open@[i] != self.open@[j] by {
                        assert(self.open@[i] == open0[i]);
                        if j == open0.len() {
                            assert(open0.contains(open0[i]));
                        } else {
                            assert(self.open@[j] == open0[j]);
                        }
                    }
                    assert forall|p: Point| m.in_bounds(p) implies (#[trigger] at(self.in_open@, p) <==> self.open@.contains(p)) by {
                        if p == np {
                            assert(self.open@[open0.len() as int] == p);
                        } else {
                            assert(at(self.in_open@, p) == at(in_open0, p));
                            if self.open@.contains(p) {
                                let k = choose|k: int| 0 <= k < self.open@.len() && self.open@[k] == p;
                                assert(open0[k] == p);
                            }
                            if open0.contains(p) {
                                let k = choose|k: int| 0 <= k < open0.len() && open0[k] == p;
                                assert(self.open@[k] == p);
                            }
                        }
                    }
                }
            }
            let improves = match self.g[np.y][np.x] {
                Some(known) => tentative < known,
                None => true,
            };
            if improves {
                grid_write(&mut self.g, np.x, np.y, Some(tentative));
                grid_write(&mut self.parent, np.x, np.y, Some(current));
                proof {
                    assert(linked(self.parent@, self.rank@, np));
                    assert forall|p: Point| #[trigger] self.rank@.contains_key(p) implies at(self.parent@, p) == at(parent0, p) by {
                        assert(self.rank@[p] >= 0);
                        assert(m.in_bounds(p));
                    }
                    assert(ranked(*m, self.parent@, self.rank@, self.expanded@)) by {
                        assert forall|p: Point| #[trigger] self.rank@.contains_key(p) implies (p == m.start || linked_earlier(self.parent@, self.rank@, p)) by {
                            assert(self.rank@[p] >= 0);
                        }
                    }
                }
            }
            proof {
                assert forall|i: int| #![trigger self.open@[i]] 0 <= i < self.open@.len() implies {
                    let p = self.open@[i];
                    &&& m.is_open(p)
                    &&& !at(self.closed@, p)
                    &&& (p == m.start || linked(self.parent@, self.rank@, p))
                } by {
                    let p = self.open@[i];
                    if i < open0.len() {
                        assert(open0[i] == p);
                        if p != np {
                            assert(at(self.parent@, p) == at(parent0, p));
                        }
                    }
                }
                assert forall|p: Point| #![trigger at(self.g@, p)]
                    m.in_bounds(p) && !at(self.closed@, p) && !at(self.in_open@, p) implies at(self.g@, p) is None by {
                    if p == np {
                        assert(self.open@.contains(np) || at(in_open0, np));
                    }
                }
                assert(self.rank@[current] < self.expanded@.len());
            }
            let ghost improved = improves;
            proof {
                lemma_relax_costs(*m, a, *self, current, np, tentative, improved);
            }
        }
    }

    /// Offers every neighbour of the expanded cell `current` to the open list.
    fn expand_neighbors(&mut self, m: &Maze, current: Point)
        requires
            old(self).inv(*m),
            old(self).rank@.contains_key(current),
            m.in_bounds(current),
            old(self).costs(*m),
            old(self).relaxed_except(*m, current),
        ensures
            final(self).inv(*m),
            final(self).rank == old(self).rank,
            final(self).expanded == old(self).expanded,
            final(self).costs(*m),
            final(self).relaxed(*m),
    {
        let ns = m.neighbors(&current);
        let g_cur = match self.g[current.y][current.x] {
            Some(v) => v,
            None => 0,
        };
        proof {
            assert(at(self.closed@, current));
        }
        let ghost nps = m.neighbor_points(current);
        let ghost closed0 = self.closed@;
        let ghost g_here = at(self.g@, current);
        let mut j: usize = 0;
        while j < ns.len()
            invariant
                self.inv(*m),
                self.rank == old(self).rank,
                self.expanded == old(self).expanded,
                self.closed@ == closed0,
                closed0 == old(self).closed@,
                m.in_bounds(current),
                self.rank@.contains_key(current),
                ns@ == nps.map_values(|q: Point| m.cell(q)),
                nps == m.neighbor_points(current),
                self.costs(*m),
                self.relaxed_except(*m, current),
                at(self.g@, current) == g_here,
                g_cur == cost(self.g@, current),
                forall|k: int|
                    0 <= k < j ==> m.is_open(#[trigger] nps[k]) ==> at(self.closed@, nps[k]) || (at(
                        self.in_open@,
                        nps[k],
                    ) && cost(self.g@, nps[k]) <= g_cur + 1),
            decreases ns@.len() - j,
        {
            proof {
                assert(ns@[j as int] == m.cell(nps[j as int]));
                assert(m.cell(nps[j as int]).point == nps[j as int]);
            }
            self.relax(m, current, g_cur, ns[j]);
            j += 1;
        }
        proof {
            reveal(Frontier::relaxed);
            reveal(Frontier::relaxed_except);
            assert forall|p: Point, n: Point|
                #![trigger at(self.closed@, p), at(self.closed@, n)]
                m.in_bounds(p) && at(self.closed@, p) && m.is_open(n) && adjacent(p, n) implies at(
                    self.closed@,
                    n,
                ) || (at(self.in_open@, n) && cost(self.g@, n) <= cost(self.g@, p) + 1) by {
                if p == current {
                    lemma_adjacent_is_neighbor(*m, p, n);
                    let k = choose|k: int| 0 <= k < nps.len() && nps[k] == n;
                    assert(m.is_open(nps[k]));
                }
            }
        }
    }
}

impl Maze {
    /// A* from `start` to `destination` over open cells with unit steps and the
    /// Manhattan heuristic. A route comes back exactly when one exists, and no route
    /// is shorter; otherwise the result is `NoPath`. The expanded cells are distinct
    /// open cells, the start first. The waiting cell expanded next is the one of
    /// lowest score, then nearest the destination, then the earliest queued, so equal
    /// mazes give equal results.
    ///
    /// The size bound holds of every grid that fits in memory: each cell takes
    /// more than one byte.
    pub fn astar(&self) -> (r: Search)
        requires
            self.wf(),
            self.endpoints_ok(),
            self.width * self.height + self.width + self.height <= usize::MAX,
        ensures
            r.path is Ok <==> self.reachable(self.start, self.destanation),
            match r.path {
                Ok(path) => self.is_route(path@) && path@[0] == self.start && path@.last()
                    == self.destanation,
                Err(e) => e == MazeError::NoPath,
            },
            r.path matches Ok(path) ==> forall|q: Seq<Point>|
                #[trigger] self.is_route(q) && q[0] == self.start && q.last() == self.destanation ==> path@.len()
                    <= q.len(),
            r.expanded@.no_duplicates(),
            r.expanded@.len() > 0,
            r.expanded@[0] == self.start,
            forall|i: int| 0 <= i < r.expanded@.len() ==> self.is_open(#[trigger] r.expanded@[i]),
    {
        let ghost m = *self;
        let dest = self.destanation;
        let mut f = Frontier::new(self);
        let mut found = false;
        while f.open.len() > 0 && !found
            invariant
                m == *self,
                dest == self.destanation,
                f.inv(m),
                f.costs(m),
                found <==> f.rank@.contains_key(dest),
                !found ==> f.relaxed(m),
            decreases m.width * m.height - f.expanded@.len(),
        {
            proof {
                lemma_ranked_distinct(m, f.parent@, f.rank@, f.expanded@);
                lemma_distinct_in_rect(f.expanded@, m.width as nat, m.height as nat);
            }
            let current = f.expand_next(self);
            proof {
                lemma_ranked_distinct(m, f.parent@, f.rank@, f.expanded@);
                lemma_distinct_in_rect(f.expanded@, m.width as nat, m.height as nat);
            }
            if current == dest {
                found = true;
            } else {
                f.expand_neighbors(self, current);
            }
        }
        proof {
            lemma_ranked_distinct(m, f.parent@, f.rank@, f.expanded@);
        }
        if found {
            proof {
                reveal(Frontier::costs);
                assert(f.rank@[dest] >= 0);
                assert(at_least(m, dest, cost(f.g@, dest)));
                assert forall|p: Point| #[trigger] f.rank@.contains_key(p) && p != m.start implies one_more(
                    f.g@,
                    f.parent@,
                    p,
                ) by {
                    assert(f.rank@[p] >= 0);
                }
            }
            let path = trace_back(self, &f.parent, f.rank, Ghost(f.expanded@), Ghost(f.g@));
            Search { path: Ok(path), expanded: f.expanded }
        } else {
            proof {
                assert(f.expanded@.len() > 0);
                let start = m.start;
                assert(f.rank@[f.expanded@[0]] == 0);
                assert(at(f.closed@, start));
                reveal(Frontier::relaxed);
                assert(closed_is_sealed(m, f.closed@, f.in_open@));
                if self.reachable(start, dest) {
                    let path = choose|path: Seq<Point>| self.is_route(path) && path[0] == start && path.last() == dest;
                    assert forall|p: Point| m.in_bounds(p) implies !#[trigger] at(f.in_open@, p) by {}
                    lemma_sealed_route(m, f.closed@, f.in_open@, path, path.len() - 1);
                }
            }
            Search { path: Err(MazeError::NoPath), expanded: f.expanded }
        }
    }

    /// A shortest route from `start` to `destination`, as `astar` finds it.
    pub fn find_path(&self) -> (r: Result<Vec<Point>, MazeError>)
        requires
            self.wf(),
            self.endpoints_ok(),
            self.width * self.height + self.width + self.height <= usize::MAX,
        ensures
            r is Ok <==> self.reachable(self.start, self.destanation),
            match r {
                Ok(path) => self.is_route(path@) && path@[0] == self.start && path@.last()
                    == self.destanation,
                Err(e) => e == MazeError::NoPath,
            },
            r matches Ok(path) ==> forall|q: Seq<Point>|
                #[trigger] self.is_route(q) && q[0] == self.start && q.last() == self.destanation ==> path@.len()
                    <= q.len(),
    {
        self.astar().path
    }
}

/// Moving the waiting cell of lowest score to the closed set keeps the costs in
/// order.
proof fn lemma_close_costs(m: Maze, a: Frontier, b: Frontier, current: Point, idx: int)
    requires
        a.inv(m),
        a.costs(m),
        0 <= idx < a.open@.len(),
        a.open@[idx] == current,
        at_least(m, current, cost(a.g@, current)),
        b.g == a.g,
        b.parent == a.parent,
        b.open@ == a.open@.remove(idx),
        forall|p: Point| m.in_bounds(p) ==> #[trigger] at(b.in_open@, p) == (at(a.in_open@, p) && p != current),
        forall|p: Point| m.in_bounds(p) ==> #[trigger] at(b.closed@, p) == (at(a.closed@, p) || p == current),
        b.rank@ == a.rank@.insert(current, a.expanded@.len() as int),
        b.expanded@ == a.expanded@.push(current),
    ensures
        b.costs(m),
{
    reveal(Frontier::costs);
    assert(m.in_bounds(current));
    assert(cost(a.g@, current) <= a.expanded@.len());
    assert(current == m.start || one_more(a.g@, a.parent@, current));
    assert forall|p: Point| #[trigger] b.rank@.contains_key(p) implies {
        &&& cost(b.g@, p) <= b.rank@[p]
        &&& at_least(m, p, cost(b.g@, p))
        &&& (p == m.start || one_more(b.g@, b.parent@, p))
    } by {
        if p != current {
            assert(a.rank@[p] >= 0);
        }
    }
    assert forall|i: int| #![trigger b.open@[i]] 0 <= i < b.open@.len() implies {
        &&& cost(b.g@, b.open@[i]) <= b.expanded@.len()
        &&& (b.open@[i] == m.start || one_more(b.g@, b.parent@, b.open@[i]))
    } by {
        let j = if i < idx { i } else { i + 1 };
        assert(b.open@[i] == a.open@[j]);
    }
    assert forall|p: Point| #![trigger at(b.g@, p)] m.in_bounds(p) && (at(b.closed@, p) || at(b.in_open@, p)) implies at(
        b.g@,
        p,
    ) is Some by {
        assert(at(a.closed@, p) || at(a.in_open@, p) || p == current);
        if p == current {
            assert(a.open@.contains(current));
            assert(at(a.in_open@, current));
        }
    }
}

/// Moving a waiting cell to the closed set keeps every other closed cell relaxed.
proof fn lemma_close_relaxed(m: Maze, a: Frontier, b: Frontier, current: Point)
    requires
        a.relaxed(m),
        b.g == a.g,
        forall|p: Point| m.in_bounds(p) ==> #[trigger] at(b.in_open@, p) == (at(a.in_open@, p) && p != current),
        forall|p: Point| m.in_bounds(p) ==> #[trigger] at(b.closed@, p) == (at(a.closed@, p) || p == current),
        m.in_bounds(current),
    ensures
        b.relaxed_except(m, current),
{
    reveal(Frontier::relaxed);
    reveal(Frontier::relaxed_except);
    assert forall|p: Point, n: Point|
        #![trigger at(b.closed@, p), at(b.closed@, n)]
        m.in_bounds(p) && at(b.closed@, p) && p != current && m.is_open(n) && adjacent(p, n) implies at(
            b.closed@,
            n,
        ) || (at(b.in_open@, n) && cost(b.g@, n) <= cost(b.g@, p) + 1) by {
        assert(at(a.closed@, p));
        assert(at(a.closed@, n) || (at(a.in_open@, n) && cost(a.g@, n) <= cost(a.g@, p) + 1));
    }
}

/// Offering `np` to the open list at cost `t`, recording `current` as its
/// predecessor where `t` improves on what is known, keeps the costs in order.
proof fn lemma_relax_costs(m: Maze, a: Frontier, b: Frontier, current: Point, np: Point, t: usize, improved: bool)
    requires
        a.inv(m),
        b.inv(m),
        a.costs(m),
        a.relaxed_except(m, current),
        a.rank@.contains_key(current),
        m.is_open(np),
        adjacent(current, np),
        !at(a.closed@, np),
        t == cost(a.g@, current) + 1,
        improved == (at(a.g@, np) is None || t < cost(a.g@, np)),
        b.closed == a.closed,
        b.rank == a.rank,
        b.expanded == a.expanded,
        b.open@ == a.open@ || b.open@ == a.open@.push(np),
        forall|p: Point| m.in_bounds(p) ==> #[trigger] at(b.in_open@, p) == (at(a.in_open@, p) || p == np),
        forall|p: Point|
            m.in_bounds(p) ==> #[trigger] at(b.g@, p) == if p == np && improved {
                Some(t)
            } else {
                at(a.g@, p)
            },
        forall|p: Point|
            m.in_bounds(p) ==> #[trigger] at(b.parent@, p) == if p == np && improved {
                Some(current)
            } else {
                at(a.parent@, p)
            },
    ensures
        b.costs(m),
        b.relaxed_except(m, current),
        forall|p: Point| m.in_bounds(p) && #[trigger] at(a.in_open@, p) ==> cost(b.g@, p) <= cost(a.g@, p),
        forall|p: Point| m.in_bounds(p) && #[trigger] at(a.closed@, p) ==> at(b.g@, p) == at(a.g@, p),
        at(b.in_open@, np) && cost(b.g@, np) <= t,
{
    reveal(Frontier::costs);
    reveal(Frontier::relaxed_except);
    assert(a.rank@[current] < a.expanded@.len());
    assert(at(b.g@, m.start) == at(a.g@, m.start)) by {
        if np == m.start {
            if a.expanded@.len() > 0 {
                assert(a.rank@[a.expanded@[0]] == 0);
            }
        }
    }
    assert forall|p: Point| #[trigger] b.rank@.contains_key(p) implies {
        &&& cost(b.g@, p) <= b.rank@[p]
        &&& at_least(m, p, cost(b.g@, p))
        &&& (p == m.start || one_more(b.g@, b.parent@, p))
    } by {
        assert(a.rank@[p] >= 0);
        assert(p != np);
        if p != m.start {
            let q = at(a.parent@, p)->Some_0;
            assert(one_more(a.g@, a.parent@, p));
            assert(a.rank@[q] >= 0);
            assert(q != np);
        }
    }
    assert forall|i: int| #![trigger b.open@[i]] 0 <= i < b.open@.len() implies {
        &&& cost(b.g@, b.open@[i]) <= b.expanded@.len()
        &&& (b.open@[i] == m.start || one_more(b.g@, b.parent@, b.open@[i]))
    } by {
        let p = b.open@[i];
        if p == np {
            if !improved {
                assert(at(a.in_open@, np));
                assert(a.open@.contains(np));
                let k = choose|k: int| 0 <= k < a.open@.len() && a.open@[k] == np;
                assert(cost(a.g@, a.open@[k]) <= a.expanded@.len());
            }
        } else {
            assert(i < a.open@.len());
            assert(a.open@[i] == p);
            if p != m.start {
                let q = at(a.parent@, p)->Some_0;
                assert(one_more(a.g@, a.parent@, p));
                assert(a.rank@[q] >= 0);
                assert(q != np);
            }
        }
    }
    assert forall|p: Point, n: Point|
        #![trigger at(b.closed@, p), at(b.closed@, n)]
        m.in_bounds(p) && at(b.closed@, p) && p != current && m.is_open(n) && adjacent(p, n) implies at(
            b.closed@,
            n,
        ) || (at(b.in_open@, n) && cost(b.g@, n) <= cost(b.g@, p) + 1) by {
        assert(at(a.closed@, p) && at(a.closed@, n) == at(b.closed@, n));
        assert(at(b.g@, p) == at(a.g@, p));
    }
}

/// Numbered cells are distinct.
proof fn lemma_ranked_distinct(m: Maze, parent: Seq<Vec<Option<Point>>>, rank: Map<Point, int>, expanded: Seq<Point>)
    requires
        ranked(m, parent, rank, expanded),
    ensures
        expanded.no_duplicates(),
{
    assert forall|i: int, j: int| 0 <= i < j < expanded.len() implies expanded[i] != expanded[j] by {
        assert(rank[expanded[i]] == i && rank[expanded[j]] == j);
    }
}


/// What a cell shows when a maze is drawn.
#[derive(Debug, Clone, Copy, PartialEq, Eq, Structural)]
pub enum Tile {
    Wall,
    Floor,
    Start,
    Destination,
    /// On the route found.
    Trace,
    /// Expanded by the search but not on the route.
    Expanded,
}

/// The tile of the cell at `p`: walls first, then the endpoints, the route and the
/// expanded cells.
pub open spec fn tile_of(m: Maze, p: Point, path: Seq<Point>, expanded: Seq<Point>) -> Tile {
    if m.cell(p).obsticle {
        Tile::Wall
    } else if p == m.start {
        Tile::Start
    } else if p == m.destanation {
        Tile::Destination
    } else if path.contains(p) {
        Tile::Trace
    } else if expanded.contains(p) {
        Tile::Expanded
    } else {
        Tile::Floor
    }
}

impl Maze {
    /// The tiles of the grid, row by row, with `path` and `expanded` marked.
    pub fn tiles(&self, path: &Vec<Point>, expanded: &Vec<Point>) -> (r: Vec<Vec<Tile>>)
        requires
            self.wf(),
        ensures
            r@.len() == self.height,
            forall|y: int| 0 <= y < self.height ==> (#[trigger] r@[y])@.len() == self.width,
            forall|y: int, x: int|
                0 <= y < self.height && 0 <= x < self.width ==> (#[trigger] r@[y]@[x]) == tile_of(
                    *self,
                    Point { x: x as usize, y: y as usize },
                    path@,
                    expanded@,
                ),
    {
        let mut rows: Vec<Vec<Tile>> = Vec::new();
        for y in 0..self.height
            invariant
                self.wf(),
                rows@.len() == y,
                forall|i: int| 0 <= i < y ==> (#[trigger] rows@[i])@.len() == self.width,
                forall|i: int, x: int|
                    0 <= i < y && 0 <= x < self.width ==> (#[trigger] rows@[i]@[x]) == tile_of(
                        *self,
                        Point { x: x as usize, y: i as usize },
                        path@,
                        expanded@,
                    ),
        {
            let mut row: Vec<Tile> = Vec::new();
            for x in 0..self.width
                invariant
                    self.wf(),
                    y < self.height,
                    row@.len() == x,
                    forall|j: int| 0 <= j < x ==> (#[trigger] row@[j]) == tile_of(
                        *self,
                        Point { x: j as usize, y: y as usize },
                        path@,
                        expanded@,
                    ),
            {
                let cell = self.grid[y][x];
                let p = cell.point;
                let tile = if cell.obsticle {
                    Tile::Wall
                } else if p == self.start {
                    Tile::Start
                } else if p == self.destanation {
                    Tile::Destination
                } else if contains_point(path, p) {
                    Tile::Trace
                } else if contains_point(expanded, p) {
                    Tile::Expanded
                } else {
                    Tile::Floor
                };
                row.push(tile);
            }
            rows.push(row);
        }
        rows
    }
}

} // verus!
