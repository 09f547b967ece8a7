use vstd::prelude::*;
use crate::rng::{seeded, seeded_below};
use vstd::arithmetic::div_mod::lemma_fundamental_div_mod_converse;

verus! {

/// Conway's Game of Life on a bounded `height` by `width` board, row-major, with a
/// seeded generator for random starts.
pub struct Conway {
    seed: u64,
    rng: rand::rngs::StdRng,
    population: usize,
    height: usize,
    width: usize,
    tick: usize,
    grid: Vec<bool>,
    next_grid: Vec<bool>,
}

/// How many entries of `s` are set.
pub open spec fn count_true(s: Seq<bool>) -> nat
    decreases s.len(),
{
    if s.len() == 0 {
        0
    } else {
        count_true(s.drop_last()) + if s.last() { 1nat } else { 0nat }
    }
}

proof fn lemma_count_bound(s: Seq<bool>)
    ensures
        count_true(s) <= s.len(),
    decreases s.len(),
{
    if s.len() > 0 {
        lemma_count_bound(s.drop_last());
    }
}

proof fn lemma_count_set(s: Seq<bool>, i: int)
    requires
        0 <= i < s.len(),
        !s[i],
    ensures
        count_true(s.update(i, true)) == count_true(s) + 1,
    decreases s.len(),
{
    let t = s.update(i, true);
    if i == s.len() - 1 {
        assert(t.drop_last() =~= s.drop_last());
    } else {
        lemma_count_set(s.drop_last(), i);
        assert(t.drop_last() =~= s.drop_last().update(i, true));
    }
}

/// The cell `(row, col)` is on the board and alive.
pub open spec fn live_at(cells: Seq<bool>, height: usize, width: usize, row: usize, col: usize) -> bool {
    row < height && col < width && cells[row * width + col]
}

/// One step from `v` toward `d`: `d` is 0, 1 or 2 for minus one, stay, plus one,
/// wrapping at the ends of `usize`.
pub open spec fn shifted(v: usize, d: usize) -> usize {
    v.wrapping_add(d).wrapping_sub(1)
}

/// The live cells among the first `k` of the nine places around `(row, col)`,
/// taken row by row, the centre left out.
pub open spec fn around(cells: Seq<bool>, height: usize, width: usize, row: usize, col: usize, k: nat) -> nat
    decreases k,
{
    if k == 0 {
        0
    } else {
        let j = (k - 1) as nat;
        let (i, jj) = ((j / 3) as usize, (j % 3) as usize);
        around(cells, height, width, row, col, j) + if j != 4 && live_at(
            cells,
            height,
            width,
            shifted(row, i),
            shifted(col, jj),
        ) {
            1nat
        } else {
            0nat
        }
    }
}

/// The live neighbours of `(row, col)`.
pub open spec fn neighbours(cells: Seq<bool>, height: usize, width: usize, row: usize, col: usize) -> nat {
    around(cells, height, width, row, col, 9)
}

/// Whether a cell lives on: a live cell with two or three live neighbours, or a
/// dead one with exactly three.
pub open spec fn survives(alive: bool, n: nat) -> bool {
    if alive { n == 2 || n == 3 } else { n == 3 }
}

/// The board after one generation.
pub open spec fn next_generation(cells: Seq<bool>, height: usize, width: usize) -> Seq<bool> {
    Seq::new(
        cells.len(),
        |k: int| survives(cells[k], neighbours(cells, height, width, (k / width as int) as usize, (k % width as int) as usize)),
    )
}

/// The cells that die in the step from `cells`.
pub open spec fn dying(cells: Seq<bool>, height: usize, width: usize) -> Seq<bool> {
    Seq::new(cells.len(), |k: int| cells[k] && !next_generation(cells, height, width)[k])
}

/// The cells that come to life in the step from `cells`.
pub open spec fn born(cells: Seq<bool>, height: usize, width: usize) -> Seq<bool> {
    Seq::new(cells.len(), |k: int| !cells[k] && next_generation(cells, height, width)[k])
}

proof fn lemma_count_prefix(s: Seq<bool>, k: int)
    requires
        0 <= k <= s.len(),
    ensures
        count_true(s.subrange(0, k)) <= count_true(s),
    decreases s.len() - k,
{
    if k < s.len() {
        lemma_count_prefix(s, k + 1);
        assert(s.subrange(0, k + 1).drop_last() =~= s.subrange(0, k));
    } else {
        assert(s.subrange(0, k) =~= s);
    }
}

impl Conway {
    pub closed spec fn rows(&self) -> usize {
        self.height
    }

    pub closed spec fn cols(&self) -> usize {
        self.width
    }

    pub closed spec fn cells(&self) -> Seq<bool> {
        self.grid@
    }

    pub closed spec fn population_count(&self) -> usize {
        self.population
    }

    pub closed spec fn ticks(&self) -> usize {
        self.tick
    }

    pub closed spec fn seed_value(&self) -> u64 {
        self.seed
    }

    /// Both boards hold one entry per cell.
    pub closed spec fn wf(&self) -> bool {
        &&& self.height * self.width <= usize::MAX
        &&& self.grid@.len() == self.height * self.width
        &&& self.next_grid@.len() == self.height * self.width
    }

    /// An empty board of `height` rows and `width` columns that will place
    /// `population` cells at random, drawing from a generator seeded with `seed`.
    pub fn new(seed: u64, population: usize, height: usize, width: usize) -> (r: Conway)
        requires
            height * width <= usize::MAX,
        ensures
            r.wf(),
            r.rows() == height,
            r.cols() == width,
            r.population_count() == population,
            r.ticks() == 0,
            r.seed_value() == seed,
            r.cells() == Seq::new((height * width) as nat, |i: int| false),
    {
        let rng = seeded(seed);
        let size = height * width;
        let mut grid: Vec<bool> = Vec::new();
        let mut i: usize = 0;
        while i < size
            invariant
                i <= size,
                grid@ == Seq::new(i as nat, |k: int| false),
            decreases size - i,
        {
            grid.push(false);
            i += 1;
            assert(grid@ =~= Seq::new(i as nat, |k: int| false));
        }
        let next_grid = grid.clone();
        assert(next_grid@ =~= grid@);
        Conway { seed, rng, population, height, width, tick: 0, grid, next_grid }
    }

    /// Whether `(row, col)` is alive, or `None` past the end of the board's storage.
    pub fn get(&self, row: usize, col: usize) -> (r: Option<&bool>)
        requires
            row * self.cols() + col <= usize::MAX,
        ensures
            ({
                let i = row * self.cols() + col;
                if i < self.cells().len() {
                    r == Some(&self.cells()[i])
                } else {
                    r is None
                }
            }),
    {
        let i = row * self.width + col;
        if i < self.grid.len() {
            Some(&self.grid[i])
        } else {
            None
        }
    }

    /// Sets whether `(row, col)` is alive. The population count is left as it is.
    pub fn set(&mut self, row: usize, col: usize, b: bool)
        requires
            old(self).wf(),
            row * old(self).cols() + col < old(self).cells().len(),
        ensures
            final(self).wf(),
            final(self).cells() == old(self).cells().update(row * old(self).cols() + col, b),
            final(self).rows() == old(self).rows(),
            final(self).cols() == old(self).cols(),
            final(self).population_count() == old(self).population_count(),
            final(self).ticks() == old(self).ticks(),
            final(self).seed_value() == old(self).seed_value(),
    {
        let i = row * self.width + col;
        self.grid.set(i, b);
    }

    /// Reseeds the generator with `seed`.
    pub fn seed(&mut self, seed: u64)
        ensures
            final(self).seed_value() == seed,
            final(self).cells() == old(self).cells(),
            final(self).rows() == old(self).rows(),
            final(self).cols() == old(self).cols(),
            final(self).population_count() == old(self).population_count(),
            final(self).ticks() == old(self).ticks(),
            old(self).wf() ==> final(self).wf(),
    {
        self.seed = seed;
        self.rng = seeded(seed);
    }

    /// How many of the eight cells around `(row, col)` are alive. Rows and columns
    /// step with wrapping arithmetic; places off the board count as dead.
    pub fn neighbour_count(&self, row: usize, col: usize) -> (r: usize)
        requires
            self.wf(),
        ensures
            r == neighbours(self.cells(), self.rows(), self.cols(), row, col),
    {
        let mut count: usize = 0;
        let mut i: usize = 0;
        while i < 3
            invariant
                self.wf(),
                i <= 3,
                count == around(self.grid@, self.height, self.width, row, col, (3 * i) as nat),
                count <= 3 * i,
            decreases 3 - i,
        {
            let mut j: usize = 0;
            while j < 3
                invariant
                    self.wf(),
                    i < 3,
                    j <= 3,
                    count == around(self.grid@, self.height, self.width, row, col, (3 * i + j) as nat),
                    count <= 3 * i + j,
                decreases 3 - j,
            {
                let ghost k = (3 * i + j) as nat;
                assert(k / 3 == i && k % 3 == j);
                if !(i == 1 && j == 1) {
                    let new_row = row.wrapping_add(i).wrapping_sub(1);
                    let new_col = col.wrapping_add(j).wrapping_sub(1);
                    if new_row < self.height && new_col < self.width {
                        proof {
                            assert(new_row * self.width + new_col < self.height * self.width) by (nonlinear_arith)
                                requires
                                    new_row < self.height,
                                    new_col < self.width,
                            ;
                        }
                        match self.get(new_row, new_col) {
                            Some(alive) => {
                                if *alive {
                                    count += 1;
                                }
                            },
                            None => {},
                        }
                    }
                }
                j += 1;
            }
            i += 1;
        }
        count
    }

    /// Advances one generation by the rules of `survives`, adds the births to the
    /// population count and takes the deaths off it, and counts the tick. The count
    /// must cover the deaths and have room for the births.
    pub fn update(&mut self)
        requires
            old(self).wf(),
            old(self).ticks() < usize::MAX,
            old(self).population_count() >= count_true(dying(old(self).cells(), old(self).rows(), old(self).cols())),
            old(self).population_count() + count_true(born(old(self).cells(), old(self).rows(), old(self).cols()))
                <= usize::MAX,
        ensures
            final(self).wf(),
            final(self).cells() == next_generation(old(self).cells(), old(self).rows(), old(self).cols()),
            final(self).population_count() == old(self).population_count() + count_true(
                born(old(self).cells(), old(self).rows(), old(self).cols()),
            ) - count_true(dying(old(self).cells(), old(self).rows(), old(self).cols())),
            final(self).ticks() == old(self).ticks() + 1,
            final(self).rows() == old(self).rows(),
            final(self).cols() == old(self).cols(),
            final(self).seed_value() == old(self).seed_value(),
    {
        let n = self.next_grid.len();
        let mut k: usize = 0;
        while k < n
            invariant
                self.wf(),
                self.grid == old(self).grid,
                self.height == old(self).height,
                self.width == old(self).width,
                self.tick == old(self).tick,
                self.seed == old(self).seed,
                self.population == old(self).population,
                n == self.next_grid@.len(),
                k <= n,
                forall|j: int| 0 <= j < k ==> self.next_grid@[j] == false,
            decreases n - k,
        {
            self.next_grid.set(k, false);
            k += 1;
        }
        let ghost target = next_generation(self.grid@, self.height, self.width);
        let ghost b = born(self.grid@, self.height, self.width);
        let ghost d = dying(self.grid@, self.height, self.width);
        let ghost p0 = self.population as int;
        let mut population: usize = self.population;
        let mut k: usize = 0;
        let mut row: usize = 0;
        while row < self.height
            invariant
                self.wf(),
                self.grid == old(self).grid,
                self.height == old(self).height,
                self.width == old(self).width,
                self.tick == old(self).tick,
                self.seed == old(self).seed,
                target == next_generation(self.grid@, self.height, self.width),
                row <= self.height,
                k == row * self.width,
                k <= self.height * self.width,
                self.next_grid@.subrange(0, k as int) == target.subrange(0, k as int),
                b == born(self.grid@, self.height, self.width),
                d == dying(self.grid@, self.height, self.width),
                p0 == old(self).population,
                p0 >= count_true(d),
                p0 + count_true(b) <= usize::MAX,
                population == p0 + count_true(b.subrange(0, k as int)) - count_true(d.subrange(0, k as int)),
            decreases self.height - row,
        {
            proof {
                assert((row + 1) * self.width <= self.height * self.width) by (nonlinear_arith)
                    requires
                        row < self.height,
                ;
                assert((row + 1) * self.width == row * self.width + self.width) by (nonlinear_arith);
            }
            let mut col: usize = 0;
            while col < self.width
                invariant
                    self.wf(),
                    self.grid == old(self).grid,
                    self.height == old(self).height,
                    self.width == old(self).width,
                    self.tick == old(self).tick,
                    self.seed == old(self).seed,
                    target == next_generation(self.grid@, self.height, self.width),
                    row < self.height,
                    col <= self.width,
                    k == row * self.width + col,
                    (row + 1) * self.width <= self.height * self.width,
                    (row + 1) * self.width == row * self.width + self.width,
                    self.next_grid@.subrange(0, k as int) == target.subrange(0, k as int),
                    b == born(self.grid@, self.height, self.width),
                    d == dying(self.grid@, self.height, self.width),
                    p0 == old(self).population,
                    p0 >= count_true(d),
                    p0 + count_true(b) <= usize::MAX,
                    population == p0 + count_true(b.subrange(0, k as int)) - count_true(d.subrange(0, k as int)),
                decreases self.width - col,
            {
                let count = self.neighbour_count(row, col);
                let alive = self.grid[k];
                let next = if alive { !(count < 2 || count > 3) } else { count == 3 };
                proof {
                    lemma_fundamental_div_mod_converse(k as int, self.width as int, row as int, col as int);
                    assert(target[k as int] == next);
                }
                let ghost before = self.next_grid@;
                self.next_grid.set(k, next);
                proof {
                    assert(self.next_grid@.subrange(0, k + 1) =~= target.subrange(0, k + 1)) by {
                        assert forall|j: int| 0 <= j < k + 1 implies self.next_grid@[j] == target[j] by {
                            if j < k {
                                assert(before.subrange(0, k as int)[j] == target.subrange(0, k as int)[j]);
                            }
                        }
                    }
                    assert(b.subrange(0, k + 1).drop_last() =~= b.subrange(0, k as int));
                    assert(d.subrange(0, k + 1).drop_last() =~= d.subrange(0, k as int));
                    assert(b[k as int] == (!alive && next));
                    assert(d[k as int] == (alive && !next));
                    lemma_count_prefix(b, k + 1);
                    lemma_count_prefix(d, k + 1);
                }
                if alive && !next {
                    population -= 1;
                } else if !alive && next {
                    population += 1;
                }
                k += 1;
                col += 1;
            }
            row += 1;
        }
        proof {
            assert(self.next_grid@.subrange(0, k as int) =~= self.next_grid@);
            assert(target.subrange(0, k as int) =~= target);
            assert(b.subrange(0, k as int) =~= b);
            assert(d.subrange(0, k as int) =~= d);
        }
        self.population = population;
        self.tick = self.tick + 1;
        self.swap();
    }

    /// Makes the board the one just computed.
    fn swap(&mut self)
        ensures
            final(self).grid@ == old(self).next_grid@,
            final(self).next_grid@ == old(self).next_grid@,
            final(self).height == old(self).height,
            final(self).width == old(self).width,
            final(self).population == old(self).population,
            final(self).tick == old(self).tick,
            final(self).seed == old(self).seed,
    {
        self.grid = self.next_grid.clone();
        assert(self.grid@ =~= old(self).next_grid@);
    }

    /// The population count: set by `new`, moved by births and deaths in `update`.
    pub fn population(&self) -> (r: usize)
        ensures
            r == self.population_count(),
    {
        self.population
    }

    /// How many generations have passed.
    pub fn tick(&self) -> (r: usize)
        ensures
            r == self.ticks(),
    {
        self.tick
    }

    /// The seed the generator was last seeded with.
    pub fn current_seed(&self) -> (r: u64)
        ensures
            r == self.seed_value(),
    {
        self.seed
    }

    /// Brings cells to life at random until `population` of them have been added
    /// or none is left dead. Live cells stay alive.
    pub fn random_generation(&mut self)
        requires
            old(self).wf(),
        ensures
            final(self).wf(),
            final(self).rows() == old(self).rows(),
            final(self).cols() == old(self).cols(),
            final(self).population_count() == old(self).population_count(),
            final(self).ticks() == old(self).ticks(),
            final(self).seed_value() == old(self).seed_value(),
            final(self).cells().len() == old(self).cells().len(),
            forall|i: int| 0 <= i < old(self).cells().len() && #[trigger] old(self).cells()[i] ==> final(self).cells()[i],
            count_true(final(self).cells()) == count_true(old(self).cells()) + if old(self).population_count() <= old(
                self,
            ).cells().len() - count_true(old(self).cells()) {
                old(self).population_count() as int
            } else {
                old(self).cells().len() - count_true(old(self).cells())
            },
    {
        let n = self.grid.len();
        let mut dead: Vec<usize> = Vec::new();
        let mut k: usize = 0;
        while k < n
            invariant
                n == self.grid@.len(),
                k <= n,
                dead@.no_duplicates(),
                forall|j: int| 0 <= j < dead@.len() ==> (#[trigger] dead@[j]) < k && !self.grid@[dead@[j] as int],
                dead@.len() == k - count_true(self.grid@.subrange(0, k as int)),
            decreases n - k,
        {
            proof {
                assert(self.grid@.subrange(0, k + 1).drop_last() =~= self.grid@.subrange(0, k as int));
                lemma_count_bound(self.grid@.subrange(0, k as int));
            }
            if !self.grid[k] {
                dead.push(k);
            }
            k += 1;
        }
        assert(self.grid@.subrange(0, n as int) =~= self.grid@);
        let ghost start = self.grid@;
        let mut remaining = self.population;
        while remaining != 0 && dead.len() > 0
            invariant
                self.wf(),
                n == self.grid@.len(),
                self.height == old(self).height,
                self.width == old(self).width,
                self.population == old(self).population,
                self.tick == old(self).tick,
                self.seed == old(self).seed,
                start == old(self).grid@,
                remaining <= self.population,
                dead@.no_duplicates(),
                forall|j: int| 0 <= j < dead@.len() ==> (#[trigger] dead@[j]) < n && !self.grid@[dead@[j] as int],
                dead@.len() == n - count_true(self.grid@),
                count_true(self.grid@) == count_true(start) + (self.population - remaining),
                forall|i: int| 0 <= i < n && #[trigger] start[i] ==> self.grid@[i],
            decreases remaining,
        {
            let pick = seeded_below(&mut self.rng, dead.len());
            let ghost before = dead@;
            let i = dead.swap_remove(pick);
            proof {
                lemma_count_set(self.grid@, i as int);
                assert forall|j: int| 0 <= j < dead@.len() implies (#[trigger] dead@[j]) != i by {
                    if j == pick {
                        assert(dead@[j] == before[before.len() - 1]);
                    } else {
                        assert(dead@[j] == before[j]);
                    }
                }
                assert forall|a: int, b: int| 0 <= a < b < dead@.len() implies dead@[a] != dead@[b] by {
                    let fa = if a == pick { before.len() - 1 } else { a };
                    let fb = if b == pick { before.len() - 1 } else { b };
                    assert(dead@[a] == before[fa] && dead@[b] == before[fb]);
                }
                assert forall|j: int| 0 <= j < dead@.len() implies (#[trigger] dead@[j]) < n && !self.grid@.update(i as int, true)[dead@[j] as int] by {
                    if j == pick {
                        assert(dead@[j] == before[before.len() - 1]);
                    } else {
                        assert(dead@[j] == before[j]);
                    }
                }
            }
            self.grid.set(i, true);
            remaining -= 1;
        }
        proof {
            lemma_count_bound(self.grid@);
            lemma_count_bound(start);
        }
    }
}

} // verus!
