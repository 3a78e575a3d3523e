//! The board: a fixed grid of cells, each empty or holding a color id.

use vstd::prelude::*;

verus! {

/// Every cell of row `y` of the grid is filled.
pub open spec fn grid_row_full(grid: Seq<Seq<u8>>, w: int, y: int) -> bool {
    forall|x: int| 0 <= x < w ==> grid[y][x] != 0
}

/// The indices of the full rows of the grid among rows `0 .. y`, in
/// increasing order.
pub open spec fn grid_full_lines_upto(grid: Seq<Seq<u8>>, w: int, y: int) -> Seq<usize>
    decreases y,
{
    if y <= 0 {
        Seq::empty()
    } else if grid_row_full(grid, w, y - 1) {
        grid_full_lines_upto(grid, w, y - 1).push((y - 1) as usize)
    } else {
        grid_full_lines_upto(grid, w, y - 1)
    }
}

/// The indices of all full rows of the grid, in increasing order.
pub open spec fn grid_full_lines(grid: Seq<Seq<u8>>, w: int) -> Seq<usize> {
    grid_full_lines_upto(grid, w, grid.len() as int)
}

/// A grid without a full row among its first `y` rows clears nothing
/// there.
pub proof fn lemma_no_full_lines(grid: Seq<Seq<u8>>, w: int, y: int)
    requires
        forall|r: int| 0 <= r < y ==> !grid_row_full(grid, w, r),
    ensures
        grid_full_lines_upto(grid, w, y) == Seq::<usize>::empty(),
    decreases y,
{
    if y > 0 {
        lemma_no_full_lines(grid, w, y - 1);
    }
}

/// The grid after removing row `line`: a fresh empty row on top, the rows
/// that stood above `line` shifted down by one, the rows below unchanged.
pub open spec fn throw_line_model(grid: Seq<Seq<u8>>, w: int, line: int) -> Seq<Seq<u8>> {
    seq![Seq::new(w as nat, |x: int| 0u8)] + grid.subrange(0, line) + grid.subrange(
        line + 1,
        grid.len() as int,
    )
}

/// The grid after removing rows `lines[i]`, `lines[i + 1]`, ... in order.
pub open spec fn throw_lines_model(
    grid: Seq<Seq<u8>>,
    w: int,
    lines: Seq<usize>,
    i: int,
) -> Seq<Seq<u8>>
    decreases lines.len() - i,
{
    if i < 0 || i >= lines.len() {
        grid
    } else {
        throw_lines_model(throw_line_model(grid, w, lines[i] as int), w, lines, i + 1)
    }
}

/// A fixed `width` x `height` grid of cells, stored row by row.  A cell value
/// of `0` is empty; any other value is the color id of a locked block.
pub struct Playfield {
    pub width: usize,
    pub height: usize,
    pub blocks: Vec<Vec<u8>>,
}

impl Playfield {
    /// Well-formed: the grid really is `width` x `height`, and the dimensions
    /// are small enough that every metric computed over the grid fits its
    /// integer type.
    pub open spec fn wf(&self) -> bool {
        &&& 1 <= self.width <= 10000
        &&& 1 <= self.height <= 10000
        &&& self.blocks@.len() == self.height
        &&& forall|y: int| 0 <= y < self.height ==> (#[trigger] self.blocks@[y])@.len() == self.width
    }

    /// The cell at column `x`, row `y` (row 0 is the top).
    pub open spec fn cell(&self, x: int, y: int) -> u8 {
        self.blocks@[y]@[x]
    }

    /// The whole grid as a sequence of rows.
    pub open spec fn grid(&self) -> Seq<Seq<u8>> {
        Seq::new(self.blocks@.len(), |y: int| self.blocks@[y]@)
    }

    /// Every cell of row `y` is filled.
    pub open spec fn row_full(&self, y: int) -> bool {
        forall|x: int| 0 <= x < self.width ==> self.cell(x, y) != 0
    }

    /// The number of full rows among rows `0 .. y`.
    pub open spec fn full_rows_upto(&self, y: int) -> int
        decreases y,
    {
        if y <= 0 {
            0
        } else {
            self.full_rows_upto(y - 1) + if self.row_full(y - 1) {
                1int
            } else {
                0int
            }
        }
    }

    /// Some cell above row `y` in column `x` is filled.
    pub open spec fn filled_above(&self, x: int, y: int) -> bool {
        exists|yy: int| 0 <= yy < y && self.cell(x, yy) != 0
    }

    /// An empty cell with a filled cell somewhere above it in its column.
    pub open spec fn is_void(&self, x: int, y: int) -> bool {
        self.cell(x, y) == 0 && self.filled_above(x, y)
    }

    /// The number of voids in column `x` among rows `0 .. y`.
    pub open spec fn col_voids_upto(&self, x: int, y: int) -> int
        decreases y,
    {
        if y <= 0 {
            0
        } else {
            self.col_voids_upto(x, y - 1) + if self.is_void(x, y - 1) {
                1int
            } else {
                0int
            }
        }
    }

    /// The number of voids in columns `0 .. x`.
    pub open spec fn voids_upto_col(&self, x: int) -> int
        decreases x,
    {
        if x <= 0 {
            0
        } else {
            self.voids_upto_col(x - 1) + self.col_voids_upto(x - 1, self.height as int)
        }
    }

    /// The number of empty cells that lie below a filled cell of their column.
    pub open spec fn void_count(&self) -> int {
        self.voids_upto_col(self.width as int)
    }

    /// The indices of all full rows, in increasing order.
    pub open spec fn full_lines(&self) -> Seq<usize> {
        grid_full_lines(self.grid(), self.width as int)
    }

    /// Row `y` of the grid view is full exactly when the row is full.
    pub proof fn lemma_row_full_grid(&self, y: int)
        requires
            self.wf(),
            0 <= y < self.height,
        ensures
            self.row_full(y) == grid_row_full(self.grid(), self.width as int, y),
    {
        if self.row_full(y) {
            assert forall|x: int| 0 <= x < self.width implies self.grid()[y][x] != 0 by {
                assert(self.cell(x, y) != 0);
            }
        }
        if grid_row_full(self.grid(), self.width as int, y) {
            assert forall|x: int| 0 <= x < self.width implies self.cell(x, y) != 0 by {
                assert(self.grid()[y][x] != 0);
            }
        }
    }

    /// A fresh, fully empty playfield.
    pub fn new(width: usize, height: usize) -> (pf: Playfield)
        requires
            1 <= width <= 10000,
            1 <= height <= 10000,
        ensures
            pf.wf(),
            pf.width == width,
            pf.height == height,
            forall|x: int, y: int| 0 <= x < width && 0 <= y < height ==> pf.cell(x, y) == 0,
    {
        let mut blocks: Vec<Vec<u8>> = Vec::new();
        let mut y: usize = 0;
        while y < height
            invariant
                y <= height,
                blocks@.len() == y,
                forall|yy: int| 0 <= yy < y ==> (#[trigger] blocks@[yy])@.len() == width,
                forall|yy: int, x: int|
                    0 <= yy < y && 0 <= x < width ==> #[trigger] blocks@[yy]@[x] == 0,
            decreases height - y,
        {
            let row: Vec<u8> = vec![0u8; width];
            blocks.push(row);
            y = y + 1;
        }
        Playfield { width, height, blocks }
    }

    pub fn width(&self) -> (r: usize)
        ensures
            r == self.width,
    {
        self.width
    }

    pub fn height(&self) -> (r: usize)
        ensures
            r == self.height,
    {
        self.height
    }

    pub fn get_block(&self, x: usize, y: usize) -> (r: u8)
        requires
            self.wf(),
            x < self.width,
            y < self.height,
        ensures
            r == self.cell(x as int, y as int),
    {
        self.blocks[y][x]
    }

    pub fn set_block(&mut self, x: usize, y: usize, value: u8)
        requires
            old(self).wf(),
            x < old(self).width,
            y < old(self).height,
        ensures
            final(self).wf(),
            final(self).width == old(self).width,
            final(self).height == old(self).height,
            final(self).cell(x as int, y as int) == value,
            forall|xx: int, yy: int|
                0 <= xx < old(self).width && 0 <= yy < old(self).height && !(xx == x && yy == y)
                    ==> final(self).cell(xx, yy) == old(self).cell(xx, yy),
    {
        self.blocks[y][x] = value;
    }

    /// Whether every cell of row `y` is filled.
    pub fn is_row_full(&self, y: usize) -> (r: bool)
        requires
            self.wf(),
            y < self.height,
        ensures
            r == self.row_full(y as int),
    {
        let mut x: usize = 0;
        while x < self.width
            invariant
                self.wf(),
                y < self.height,
                x <= self.width,
                forall|xx: int| 0 <= xx < x ==> self.cell(xx, y as int) != 0,
            decreases self.width - x,
        {
            if self.blocks[y][x] == 0 {
                proof {
                    assert(self.cell(x as int, y as int) == 0);
                }
                return false;
            }
            x = x + 1;
        }
        true
    }

    /// The indices of all full rows, in increasing order.
    pub fn locked_lines(&self) -> (lines: Vec<usize>)
        requires
            self.wf(),
        ensures
            lines@ == self.full_lines(),
            forall|i: int|
                0 <= i < lines@.len()
                    ==> (#[trigger] lines@[i]) < self.height && self.row_full(lines@[i] as int),
            forall|y: int|
                0 <= y < self.height && self.row_full(y) ==> lines@.contains(y as usize),
            forall|i: int, j: int| 0 <= i < j < lines@.len() ==> lines@[i] < lines@[j],
    {
        let mut lines: Vec<usize> = Vec::new();
        let mut y: usize = 0;
        while y < self.height
            invariant
                self.wf(),
                y <= self.height,
                lines@ == grid_full_lines_upto(self.grid(), self.width as int, y as int),
                forall|i: int|
                    0 <= i < lines@.len()
                        ==> (#[trigger] lines@[i]) < y && self.row_full(lines@[i] as int),
                forall|yy: int| 0 <= yy < y && self.row_full(yy) ==> lines@.contains(yy as usize),
                forall|i: int, j: int| 0 <= i < j < lines@.len() ==> lines@[i] < lines@[j],
            decreases self.height - y,
        {
            proof {
                self.lemma_row_full_grid(y as int);
            }
            if self.is_row_full(y) {
                let ghost old_lines = lines@;
                lines.push(y);
                proof {
                    assert(forall|yy: int|
                        0 <= yy < y && self.row_full(yy) ==> #[trigger] old_lines.contains(
                            yy as usize,
                        ));
                    assert(forall|yy: usize| old_lines.contains(yy) ==> lines@.contains(yy)) by {
                        assert(forall|i: int|
                            0 <= i < old_lines.len() ==> lines@[i] == #[trigger] old_lines[i]);
                    }
                    assert(lines@.contains(y)) by {
                        assert(lines@[lines@.len() - 1] == y);
                    }
                }
            }
            y = y + 1;
        }
        lines
    }

    /// Removes row `line`, shifting every row above it down by one and adding
    /// a fresh empty row at the top; the row count is unchanged.
    pub fn throw_line(&mut self, line: usize)
        requires
            old(self).wf(),
            line < old(self).height,
        ensures
            final(self).grid() == throw_line_model(
                old(self).grid(),
                old(self).width as int,
                line as int,
            ),
            final(self).wf(),
            final(self).width == old(self).width,
            final(self).height == old(self).height,
            forall|x: int| 0 <= x < final(self).width ==> final(self).cell(x, 0) == 0,
            forall|y: int|
                1 <= y <= line ==> (#[trigger] final(self).blocks@[y])@ == old(self).blocks@[y
                    - 1]@,
            forall|y: int|
                line < y < final(self).height ==> (#[trigger] final(self).blocks@[y])@ == old(
                    self,
                ).blocks@[y]@,
    {
        self.blocks.remove(line);
        let zrow: Vec<u8> = vec![0u8; self.width];
        self.blocks.insert(0, zrow);
        proof {
            assert(self.grid() =~~= throw_line_model(
                old(self).grid(),
                old(self).width as int,
                line as int,
            ));
        }
    }

    /// The number of full rows.
    pub fn count_locked_lines(&self) -> (r: usize)
        requires
            self.wf(),
        ensures
            r == self.full_rows_upto(self.height as int),
    {
        let mut count: usize = 0;
        let mut y: usize = 0;
        while y < self.height
            invariant
                self.wf(),
                y <= self.height,
                count == self.full_rows_upto(y as int),
                count <= y,
            decreases self.height - y,
        {
            if self.is_row_full(y) {
                count = count + 1;
            }
            y = y + 1;
        }
        count
    }

    /// The number of empty cells lying below a filled cell of their column.
    pub fn count_voids(&self) -> (r: usize)
        requires
            self.wf(),
        ensures
            r == self.void_count(),
    {
        proof {
            self.lemma_voids_upto_col_bound(self.width as int);
        }
        let mut count: usize = 0;
        let mut x: usize = 0;
        while x < self.width
            invariant
                self.wf(),
                x <= self.width,
                count == self.voids_upto_col(x as int),
                count <= x * self.height,
            decreases self.width - x,
        {
            proof {
                self.lemma_col_voids_upto_bound(x as int, self.height as int);
                assert((x + 1) * self.height == x * self.height + self.height) by (nonlinear_arith);
                assert(x * self.height <= 10000 * 10000) by (nonlinear_arith)
                    requires
                        0 <= x <= 10000,
                        0 <= self.height <= 10000,
                ;
            }
            let mut seen_filled = false;
            let mut col_count: usize = 0;
            let mut y: usize = 0;
            while y < self.height
                invariant
                    self.wf(),
                    x < self.width,
                    y <= self.height,
                    seen_filled == self.filled_above(x as int, y as int),
                    col_count == self.col_voids_upto(x as int, y as int),
                    col_count <= y,
                decreases self.height - y,
            {
                let c = self.blocks[y][x];
                if c == 0 {
                    if seen_filled {
                        col_count = col_count + 1;
                    }
                } else {
                    proof {
                        assert(self.cell(x as int, y as int) != 0);
                    }
                    seen_filled = true;
                }
                y = y + 1;
            }
            count = count + col_count;
            x = x + 1;
        }
        count
    }

    /// An upper bound on the full-row count: one per row.
    pub proof fn lemma_full_rows_upto_bound(&self, y: int)
        ensures
            0 <= self.full_rows_upto(y) <= if y >= 0 {
                y
            } else {
                0
            },
        decreases y,
    {
        if y > 0 {
            self.lemma_full_rows_upto_bound(y - 1);
        }
    }

    /// An upper bound on a column's void count: one per row.
    pub proof fn lemma_col_voids_upto_bound(&self, x: int, y: int)
        ensures
            0 <= self.col_voids_upto(x, y) <= if y >= 0 {
                y
            } else {
                0
            },
        decreases y,
    {
        if y > 0 {
            self.lemma_col_voids_upto_bound(x, y - 1);
        }
    }

    /// An upper bound on the total void count: one per cell.
    pub proof fn lemma_voids_upto_col_bound(&self, x: int)
        requires
            self.wf(),
        ensures
            0 <= self.voids_upto_col(x) <= if x >= 0 {
                x * self.height
            } else {
                0
            },
        decreases x,
    {
        if x > 0 {
            self.lemma_voids_upto_col_bound(x - 1);
            self.lemma_col_voids_upto_bound(x - 1, self.height as int);
            assert(x * self.height == (x - 1) * self.height + self.height) by (nonlinear_arith);
        }
    }

    /// A copy of the playfield, cell for cell.
    pub fn duplicate(&self) -> (r: Playfield)
        requires
            self.wf(),
        ensures
            r.wf(),
            r.width == self.width,
            r.height == self.height,
            forall|y: int| 0 <= y < r.height ==> (#[trigger] r.blocks@[y])@ == self.blocks@[y]@,
    {
        let mut blocks: Vec<Vec<u8>> = Vec::new();
        let mut y: usize = 0;
        while y < self.height
            invariant
                self.wf(),
                y <= self.height,
                blocks@.len() == y,
                forall|yy: int| 0 <= yy < y ==> (#[trigger] blocks@[yy])@ == self.blocks@[yy]@,
            decreases self.height - y,
        {
            let mut row: Vec<u8> = Vec::new();
            let mut x: usize = 0;
            while x < self.width
                invariant
                    self.wf(),
                    y < self.height,
                    x <= self.width,
                    row@.len() == x,
                    forall|xx: int| 0 <= xx < x ==> row@[xx] == self.cell(xx, y as int),
                decreases self.width - x,
            {
                row.push(self.blocks[y][x]);
                x = x + 1;
            }
            proof {
                assert(row@ =~= self.blocks@[y as int]@);
            }
            blocks.push(row);
            y = y + 1;
        }
        Playfield { width: self.width, height: self.height, blocks }
    }
}

} // verus!
