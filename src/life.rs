use vstd::prelude::*;

verus! {

/// A Game of Life board of `max_r` rows and `max_c` columns, stored with a
/// frame of one cell on every side: rows `0` and `max_r + 1` and columns `0`
/// and `max_c + 1` are the frame, the rest is the field.
pub struct Board {
    max_r: usize,
    max_c: usize,
    brd: Vec<Vec<u8>>,
}

/// The cell at row `i`, column `j` of `g`.
pub open spec fn at(g: Seq<Seq<u8>>, i: int, j: int) -> int {
    g[i][j] as int
}

/// How many of the eight cells around `(i, j)` are alive in `g`.
pub open spec fn neighbours(g: Seq<Seq<u8>>, i: int, j: int) -> int {
    at(g, i - 1, j - 1) + at(g, i - 1, j) + at(g, i - 1, j + 1)
        + at(g, i, j - 1) + at(g, i, j + 1)
        + at(g, i + 1, j - 1) + at(g, i + 1, j) + at(g, i + 1, j + 1)
}

/// The rule of the game: a cell with three live neighbours lives, a live cell
/// with two stays alive, every other cell is dead.
pub open spec fn life_rule(alive: bool, n: int) -> u8 {
    if n == 3 || (alive && n == 2) {
        1
    } else {
        0
    }
}

/// The neighbour count folded into four classes: 1 for none or one, 2, 3, and 4 for more.
pub open spec fn neighbour_class(n: int) -> u8 {
    if n <= 1 {
        1
    } else if n == 2 {
        2
    } else if n == 3 {
        3
    } else {
        4
    }
}

/// A grid of `rows + 2` rows of `cols + 2` cells, each 0 or 1.
pub open spec fn grid_ok(g: Seq<Seq<u8>>, rows: int, cols: int) -> bool {
    &&& g.len() == rows + 2
    &&& forall|i: int| 0 <= i < g.len() ==> (#[trigger] g[i]).len() == cols + 2
    &&& forall|i: int, j: int| 0 <= i < g.len() && 0 <= j < cols + 2 ==> #[trigger] g[i][j] <= 1
}

/// A grid of `rows + 2` rows of `cols + 2` dead cells.
fn gen_brd(max_r: usize, max_c: usize) -> (r: Vec<Vec<u8>>)
    requires
        max_r <= usize::MAX - 2,
        max_c <= usize::MAX - 2,
    ensures
        r@.len() == max_r + 2,
        forall|i: int| 0 <= i < r@.len() ==> (#[trigger] r@[i])@.len() == max_c + 2,
        forall|i: int, j: int| 0 <= i < max_r + 2 && 0 <= j < max_c + 2 ==> #[trigger] r@[i]@[j] == 0,
{
    let mut brd: Vec<Vec<u8>> = Vec::new();
    let len = max_c + 2;
    let mut i: usize = 0;
    while i < max_r + 2
        invariant
            max_r <= usize::MAX - 2,
            i <= max_r + 2,
            len == max_c + 2,
            brd@.len() == i,
            forall|k: int| 0 <= k < i ==> (#[trigger] brd@[k])@.len() == len,
            forall|k: int, j: int| 0 <= k < i && 0 <= j < len ==> #[trigger] brd@[k]@[j] == 0,
        decreases max_r + 2 - i,
    {
        let mut v: Vec<u8> = Vec::new();
        let mut j: usize = 0;
        while j < len
            invariant
                j <= len,
                v@.len() == j,
                forall|k: int| 0 <= k < j ==> v@[k] == 0,
            decreases len - j,
        {
            v.push(0);
            j = j + 1;
        }
        brd.push(v);
        i = i + 1;
    }
    brd
}

impl Board {
    /// The cells, row by row, frame included.
    pub closed spec fn cells(&self) -> Seq<Seq<u8>> {
        Seq::new(self.brd@.len(), |i: int| self.brd@[i]@)
    }

    /// Number of rows of the field.
    pub closed spec fn rows(&self) -> int {
        self.max_r as int
    }

    /// Number of columns of the field.
    pub closed spec fn cols(&self) -> int {
        self.max_c as int
    }

    /// The grid has its dimensions and holds only 0 and 1.
    pub closed spec fn wf(&self) -> bool {
        &&& self.max_r <= usize::MAX - 2
        &&& self.max_c <= usize::MAX - 2
        &&& grid_ok(self.cells(), self.rows(), self.cols())
    }

    /// A board of `max_r` rows and `max_c` columns with every cell dead.
    pub fn new(max_r: usize, max_c: usize) -> (r: Self)
        requires
            max_r <= usize::MAX - 2,
            max_c <= usize::MAX - 2,
        ensures
            r.wf(),
            r.rows() == max_r,
            r.cols() == max_c,
            forall|i: int, j: int| 0 <= i < max_r + 2 && 0 <= j < max_c + 2 ==> #[trigger] r.cells()[i][j] == 0,
    {
        Board { max_r, max_c, brd: gen_brd(max_r, max_c) }
    }

    /// The class of the number of live neighbours of the field cell `(i, j)`.
    fn nbh_num(&self, i: usize, j: usize) -> (r: u8)
        requires
            self.wf(),
            1 <= i <= self.rows(),
            1 <= j <= self.cols(),
        ensures
            r == neighbour_class(neighbours(self.cells(), i as int, j as int)),
    {
        let g = Ghost(self.cells());
        assert(g@[i - 1] == self.brd@[i - 1]@);
        assert(g@[i as int] == self.brd@[i as int]@);
        assert(g@[i + 1] == self.brd@[i + 1]@);
        let up = &self.brd[i - 1];
        let mid = &self.brd[i];
        let down = &self.brd[i + 1];
        assert(g@[i - 1][j - 1] <= 1 && g@[i - 1][j as int] <= 1 && g@[i - 1][j + 1] <= 1);
        assert(g@[i as int][j - 1] <= 1 && g@[i as int][j + 1] <= 1);
        assert(g@[i + 1][j - 1] <= 1 && g@[i + 1][j as int] <= 1 && g@[i + 1][j + 1] <= 1);
        let num: u8 = up[j - 1] + up[j] + up[j + 1] + mid[j - 1] + mid[j + 1] + down[j - 1]
            + down[j] + down[j + 1];
        if num == 2 || num == 3 {
            num
        } else if num <= 1 {
            1
        } else {
            4
        }
    }

    /// What the field cell `(i, j)` becomes in the next generation.
    fn state(&self, i: usize, j: usize) -> (r: u8)
        requires
            self.wf(),
            1 <= i <= self.rows(),
            1 <= j <= self.cols(),
        ensures
            r == life_rule(self.cells()[i as int][j as int] == 1, neighbours(self.cells(), i as int, j as int)),
    {
        let transition: [u8; 8] = [0, 0, 1, 0, 0, 1, 1, 0];
        assert(self.cells()[i as int] == self.brd@[i as int]@);
        let cell = self.brd[i][j];
        assert(cell <= 1);
        let n = self.nbh_num(i, j);
        assert(cell << 2u8 == cell * 4) by (bit_vector)
            requires cell <= 1u8;
        let idx: u8 = (cell << 2) + n - 1;
        transition[idx as usize]
    }

    /// Advances the board by one generation: each field cell follows the rule
    /// of the game on the old board, and the frame is dead.
    pub fn next(&mut self)
        requires
            old(self).wf(),
        ensures
            final(self).wf(),
            final(self).rows() == old(self).rows(),
            final(self).cols() == old(self).cols(),
            forall|i: int, j: int| 1 <= i <= old(self).rows() && 1 <= j <= old(self).cols()
                ==> #[trigger] final(self).cells()[i][j] == life_rule(
                    old(self).cells()[i][j] == 1,
                    neighbours(old(self).cells(), i, j),
                ),
            forall|i: int, j: int| 0 <= i < old(self).rows() + 2 && 0 <= j < old(self).cols() + 2
                && (i == 0 || i == old(self).rows() + 1 || j == 0 || j == old(self).cols() + 1)
                ==> #[trigger] final(self).cells()[i][j] == 0,
    {
        let ghost g = self.cells();
        let len = self.max_c + 2;
        let mut brd_new: Vec<Vec<u8>> = Vec::new();
        let mut i: usize = 0;
        while i < self.max_r + 2
            invariant
                self.wf(),
                g == self.cells(),
                i <= self.max_r + 2,
                len == self.max_c + 2,
                brd_new@.len() == i,
                forall|k: int| 0 <= k < i ==> (#[trigger] brd_new@[k])@.len() == len,
                forall|k: int, j: int| 0 <= k < i && 0 <= j < len ==> #[trigger] brd_new@[k]@[j] == if 1 <= k <= self.max_r && 1 <= j <= self.max_c {
                    life_rule(g[k][j] == 1, neighbours(g, k, j))
                } else {
                    0
                },
            decreases self.max_r + 2 - i,
        {
            let mut v: Vec<u8> = Vec::new();
            let mut j: usize = 0;
            while j < len
                invariant
                    self.wf(),
                    g == self.cells(),
                    i < self.max_r + 2,
                    len == self.max_c + 2,
                    j <= len,
                    v@.len() == j,
                    forall|c: int| 0 <= c < j ==> v@[c] == if 1 <= i <= self.max_r && 1 <= c <= self.max_c {
                        life_rule(g[i as int][c] == 1, neighbours(g, i as int, c))
                    } else {
                        0
                    },
                decreases len - j,
            {
                if 1 <= i && i <= self.max_r && 1 <= j && j <= self.max_c {
                    let s = self.state(i, j);
                    v.push(s);
                } else {
                    v.push(0);
                }
                j = j + 1;
            }
            brd_new.push(v);
            i = i + 1;
        }
        self.brd = brd_new;
        proof {
            let g2 = self.cells();
            assert forall|k: int, j: int| 0 <= k < g2.len() && 0 <= j < self.max_c + 2 implies #[trigger] g2[k][j] <= 1 by {
                assert(g2[k] == brd_new@[k]@);
            }
            assert forall|k: int| 0 <= k < g2.len() implies (#[trigger] g2[k]).len() == self.max_c + 2 by {
                assert(g2[k] == brd_new@[k]@);
            }
        }
    }

    /// The number of rows and of columns of the field.
    pub fn size(&self) -> (r: (usize, usize))
        ensures
            r.0 == self.rows(),
            r.1 == self.cols(),
    {
        (self.max_r, self.max_c)
    }

    /// The cell `(i, j)` of the grid, frame included: 1 when alive, 0 when dead.
    pub fn get(&self, i: usize, j: usize) -> (r: u8)
        requires
            self.wf(),
            i <= self.rows() + 1,
            j <= self.cols() + 1,
        ensures
            r == self.cells()[i as int][j as int],
    {
        assert(self.cells()[i as int] == self.brd@[i as int]@);
        self.brd[i][j]
    }

    /// Makes the cell `(i, j)` alive; any cell of the grid, frame included, may be set.
    pub fn set(&mut self, i: usize, j: usize)
        requires
            old(self).wf(),
            i <= old(self).rows() + 1,
            j <= old(self).cols() + 1,
        ensures
            final(self).wf(),
            final(self).rows() == old(self).rows(),
            final(self).cols() == old(self).cols(),
            final(self).cells() == old(self).cells().update(i as int, old(self).cells()[i as int].update(j as int, 1)),
    {
        let ghost g = self.cells();
        assert(g[i as int] == self.brd@[i as int]@);
        let mut row = self.brd[i].clone();
        row.set(j, 1);
        self.brd.set(i, row);
        proof {
            let g2 = self.cells();
            assert(g2 =~= g.update(i as int, g[i as int].update(j as int, 1)));
            assert forall|k: int, c: int| 0 <= k < g2.len() && 0 <= c < self.max_c + 2 implies #[trigger] g2[k][c] <= 1 by {
                if k != i {
                    assert(g2[k] == g[k]);
                }
            }
            assert forall|k: int| 0 <= k < g2.len() implies (#[trigger] g2[k]).len() == self.max_c + 2 by {
                if k != i {
                    assert(g2[k] == g[k]);
                }
            }
        }
    }
}

} // verus!
