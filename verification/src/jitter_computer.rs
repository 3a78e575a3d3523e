//! The heuristic evaluator: board metrics and the placement score.

use vstd::prelude::*;

verus! {

use crate::computer_player::ComputerType;
use crate::figure::Figure;
use crate::figure::fig_view;
use crate::figure::lemma_collides_model;
use crate::figure::lemma_lowest_row_bounds;
use crate::figure::lemma_place_grid;
use crate::figure::mdl_place;
use crate::figure::spec_collides;
use crate::playfield::Playfield;
use crate::playfield::grid_full_lines;
use crate::playfield::throw_lines_model;
use crate::position::Position;

/// The scan state after the first `x` cells of a row, starting from the
/// filled state: the state of the last scanned cell, or filled before any
/// cell was scanned.
pub open spec fn row_state_before(row: Seq<u8>, x: int) -> bool {
    if x <= 0 {
        true
    } else {
        row[x - 1] != 0
    }
}

/// The filled/empty transitions among the first `x` cells of a row, the
/// scan starting from the filled state.
pub open spec fn row_jitter_upto(row: Seq<u8>, x: int) -> int
    decreases x,
{
    if x <= 0 {
        0
    } else {
        row_jitter_upto(row, x - 1) + if (row[x - 1] != 0) != row_state_before(row, x - 1) {
            1int
        } else {
            0int
        }
    }
}

/// A row's jitter: its transitions, plus one when the scan ends empty.
pub open spec fn row_jitter_of(row: Seq<u8>, w: int) -> int {
    row_jitter_upto(row, w) + if !row_state_before(row, w) {
        1int
    } else {
        0int
    }
}

/// The summed jitter of rows `0 .. y`.
pub open spec fn grid_row_jitter_upto(grid: Seq<Seq<u8>>, w: int, y: int) -> int
    decreases y,
{
    if y <= 0 {
        0
    } else {
        grid_row_jitter_upto(grid, w, y - 1) + row_jitter_of(grid[y - 1], w)
    }
}

/// The grid's row jitter: filled/empty transitions scanning every row.
pub open spec fn grid_row_jitter(grid: Seq<Seq<u8>>, w: int) -> int {
    grid_row_jitter_upto(grid, w, grid.len() as int)
}

/// The scan state after the first `y` cells of column `x`, starting from
/// the empty state.
pub open spec fn col_state_before(grid: Seq<Seq<u8>>, x: int, y: int) -> bool {
    if y <= 0 {
        false
    } else {
        grid[y - 1][x] != 0
    }
}

/// The filled/empty transitions among the first `y` cells of column `x`,
/// the scan starting from the empty state.
pub open spec fn col_jitter_upto(grid: Seq<Seq<u8>>, x: int, y: int) -> int
    decreases y,
{
    if y <= 0 {
        0
    } else {
        col_jitter_upto(grid, x, y - 1) + if (grid[y - 1][x] != 0) != col_state_before(
            grid,
            x,
            y - 1,
        ) {
            1int
        } else {
            0int
        }
    }
}

/// A column's jitter: its transitions, plus one when the scan ends empty.
pub open spec fn col_jitter_of(grid: Seq<Seq<u8>>, h: int, x: int) -> int {
    col_jitter_upto(grid, x, h) + if !col_state_before(grid, x, h) {
        1int
    } else {
        0int
    }
}

/// The summed jitter of columns `0 .. x`.
pub open spec fn grid_col_jitter_upto(grid: Seq<Seq<u8>>, h: int, x: int) -> int
    decreases x,
{
    if x <= 0 {
        0
    } else {
        grid_col_jitter_upto(grid, h, x - 1) + col_jitter_of(grid, h, x - 1)
    }
}

/// The grid's column jitter: transitions scanning every column downward.
pub open spec fn grid_col_jitter(grid: Seq<Seq<u8>>, w: int, h: int) -> int {
    grid_col_jitter_upto(grid, h, w)
}

/// The stack height of column `x` seen from row `y` downward: the grid
/// height minus the row of the topmost filled cell, or 0 for an empty
/// column.
pub open spec fn col_height_from(grid: Seq<Seq<u8>>, h: int, x: int, y: int) -> int
    decreases h - y,
{
    if y < 0 || y >= h {
        0
    } else if grid[y][x] != 0 {
        h - y
    } else {
        col_height_from(grid, h, x, y + 1)
    }
}

/// The summed stack heights of columns `0 .. x`.
pub open spec fn grid_height_sum_upto(grid: Seq<Seq<u8>>, h: int, x: int) -> int
    decreases x,
{
    if x <= 0 {
        0
    } else {
        grid_height_sum_upto(grid, h, x - 1) + col_height_from(grid, h, x - 1, 0)
    }
}

/// The summed stack heights of all columns.
pub open spec fn grid_height_sum(grid: Seq<Seq<u8>>, w: int, h: int) -> int {
    grid_height_sum_upto(grid, h, w)
}

/// Some cell of row `y` is filled.
pub open spec fn row_occupied(pf: Playfield, y: int) -> bool {
    exists|x: int| 0 <= x < pf.width && pf.cell(x, y) != 0
}

/// The topmost occupied row at or below row `y`; 0 when the board holds no
/// block at all.
pub open spec fn first_occupied_from(pf: Playfield, y: int) -> int
    decreases pf.height - y,
{
    if y < 0 || y >= pf.height {
        0
    } else if row_occupied(pf, y) {
        y
    } else {
        first_occupied_from(pf, y + 1)
    }
}

/// Signed halving that rounds toward zero, as the machine division does.
pub open spec fn half_toward_zero(d: int) -> int {
    if d >= 0 {
        d / 2
    } else {
        -((-d) / 2)
    }
}

/// A row's jitter lies between 0 and one more than its scanned width.
pub proof fn lemma_row_jitter_of_bound(row: Seq<u8>, w: int)
    requires
        w >= 0,
    ensures
        0 <= row_jitter_upto(row, w) <= w,
        0 <= row_jitter_of(row, w) <= w + 1,
    decreases w,
{
    if w > 0 {
        lemma_row_jitter_of_bound(row, w - 1);
    }
}

/// The summed row jitter lies between 0 and rows times width plus one.
pub proof fn lemma_grid_row_jitter_bound(grid: Seq<Seq<u8>>, w: int, y: int)
    requires
        w >= 0,
    ensures
        0 <= grid_row_jitter_upto(grid, w, y) <= if y >= 0 {
            y * (w + 1)
        } else {
            0
        },
    decreases y,
{
    if y > 0 {
        lemma_grid_row_jitter_bound(grid, w, y - 1);
        lemma_row_jitter_of_bound(grid[y - 1], w);
        assert(y * (w + 1) == (y - 1) * (w + 1) + (w + 1)) by (nonlinear_arith);
    }
}

/// A column's jitter lies between 0 and one more than its scanned height.
pub proof fn lemma_col_jitter_of_bound(grid: Seq<Seq<u8>>, h: int, x: int)
    requires
        h >= 0,
    ensures
        0 <= col_jitter_upto(grid, x, h) <= h,
        0 <= col_jitter_of(grid, h, x) <= h + 1,
    decreases h,
{
    if h > 0 {
        lemma_col_jitter_of_bound(grid, h - 1, x);
        assert(col_jitter_upto(grid, x, h) <= h);
    }
}

/// The summed column jitter lies between 0 and columns times height plus one.
pub proof fn lemma_grid_col_jitter_bound(grid: Seq<Seq<u8>>, h: int, x: int)
    requires
        h >= 0,
    ensures
        0 <= grid_col_jitter_upto(grid, h, x) <= if x >= 0 {
            x * (h + 1)
        } else {
            0
        },
    decreases x,
{
    if x > 0 {
        lemma_grid_col_jitter_bound(grid, h, x - 1);
        lemma_col_jitter_of_bound(grid, h, x - 1);
        assert(x * (h + 1) == (x - 1) * (h + 1) + (h + 1)) by (nonlinear_arith);
    }
}

/// A column's height lies between 0 and the grid height.
pub proof fn lemma_col_height_from_bound(grid: Seq<Seq<u8>>, h: int, x: int, y: int)
    requires
        0 <= y,
    ensures
        0 <= col_height_from(grid, h, x, y) <= if h >= 0 {
            h
        } else {
            0
        },
    decreases h - y,
{
    if 0 <= y < h && grid[y][x] == 0 {
        lemma_col_height_from_bound(grid, h, x, y + 1);
    }
}

/// The summed column heights lie between 0 and the grid area.
pub proof fn lemma_grid_height_sum_bound(grid: Seq<Seq<u8>>, h: int, x: int)
    requires
        h >= 0,
    ensures
        0 <= grid_height_sum_upto(grid, h, x) <= if x >= 0 {
            x * h
        } else {
            0
        },
    decreases x,
{
    if x > 0 {
        lemma_grid_height_sum_bound(grid, h, x - 1);
        lemma_col_height_from_bound(grid, h, x - 1, 0);
        assert(x * h == (x - 1) * h + h) by (nonlinear_arith);
    }
}

/// The row jitter of the board: filled/empty state transitions scanning
/// each row left to right, a roughness proxy.
#[verifier::loop_isolation(false)]
pub fn get_pf_row_jitter(pf: &Playfield) -> (r: u32)
    requires
        pf.wf(),
    ensures
        r == grid_row_jitter(pf.grid(), pf.width as int),
{
    let ghost g = pf.grid();
    let ghost w = pf.width as int;
    let mut jitter: u32 = 0;
    let mut y: usize = 0;
    while y < pf.height()
        invariant
            y <= pf.height,
            jitter == grid_row_jitter_upto(g, w, y as int),
        decreases pf.height - y,
    {
        proof {
            lemma_grid_row_jitter_bound(g, w, y as int);
            assert(y * (w + 1) <= 10000 * 10001) by (nonlinear_arith)
                requires
                    0 <= y <= 10000,
                    0 <= w <= 10000,
            ;
        }
        let mut last = true;
        let mut x: usize = 0;
        while x < pf.width()
            invariant
                y < pf.height,
                x <= pf.width,
                last == row_state_before(g[y as int], x as int),
                jitter == grid_row_jitter_upto(g, w, y as int) + row_jitter_upto(
                    g[y as int],
                    x as int,
                ),
            decreases pf.width - x,
        {
            proof {
                lemma_row_jitter_of_bound(g[y as int], x as int);
            }
            let state = pf.get_block(x, y) != 0;
            proof {
                assert(g[y as int][x as int] == pf.cell(x as int, y as int));
            }
            if state != last {
                last = state;
                jitter = jitter + 1;
            }
            x = x + 1;
        }
        proof {
            lemma_row_jitter_of_bound(g[y as int], w);
        }
        if !last {
            jitter = jitter + 1;
        }
        y = y + 1;
    }
    jitter
}

/// The column jitter of the board: filled/empty state transitions scanning
/// each column top to bottom, a roughness proxy.
#[verifier::loop_isolation(false)]
pub fn get_pf_col_jitter(pf: &Playfield) -> (r: u32)
    requires
        pf.wf(),
    ensures
        r == grid_col_jitter(pf.grid(), pf.width as int, pf.height as int),
{
    let ghost g = pf.grid();
    let ghost h = pf.height as int;
    let mut jitter: u32 = 0;
    let mut x: usize = 0;
    while x < pf.width()
        invariant
            x <= pf.width,
            jitter == grid_col_jitter_upto(g, h, x as int),
        decreases pf.width - x,
    {
        proof {
            lemma_grid_col_jitter_bound(g, h, x as int);
            assert(x * (h + 1) <= 10000 * 10001) by (nonlinear_arith)
                requires
                    0 <= x <= 10000,
                    0 <= h <= 10000,
            ;
        }
        let mut last = false;
        let mut y: usize = 0;
        while y < pf.height()
            invariant
                x < pf.width,
                y <= pf.height,
                last == col_state_before(g, x as int, y as int),
                jitter == grid_col_jitter_upto(g, h, x as int) + col_jitter_upto(
                    g,
                    x as int,
                    y as int,
                ),
            decreases pf.height - y,
        {
            proof {
                lemma_col_jitter_of_bound(g, y as int, x as int);
            }
            let state = pf.get_block(x, y) != 0;
            proof {
                assert(g[y as int][x as int] == pf.cell(x as int, y as int));
            }
            if state != last {
                last = state;
                jitter = jitter + 1;
            }
            y = y + 1;
        }
        proof {
            lemma_col_jitter_of_bound(g, h, x as int);
        }
        if !last {
            jitter = jitter + 1;
        }
        x = x + 1;
    }
    jitter
}

/// The row index of the topmost occupied row; 0 for an empty board.
#[verifier::loop_isolation(false)]
pub fn get_pf_max_height(pf: &Playfield) -> (r: u32)
    requires
        pf.wf(),
    ensures
        r == first_occupied_from(*pf, 0),
{
    let mut y: usize = 0;
    while y < pf.height()
        invariant
            y <= pf.height,
            first_occupied_from(*pf, 0) == first_occupied_from(*pf, y as int),
        decreases pf.height - y,
    {
        let mut x: usize = 0;
        let mut has = false;
        while x < pf.width()
            invariant
                y < pf.height,
                x <= pf.width,
                has == exists|xx: int| 0 <= xx < x && pf.cell(xx, y as int) != 0,
            decreases pf.width - x,
        {
            let c = pf.get_block(x, y);
            proof {
                assert(pf.cell(x as int, y as int) == c);
            }
            if c != 0 {
                has = true;
            }
            x = x + 1;
        }
        if has {
            proof {
                assert(row_occupied(*pf, y as int));
            }
            return y as u32;
        }
        proof {
            assert(!row_occupied(*pf, y as int));
        }
        y = y + 1;
    }
    0
}

/// The stack height of one column: the grid height minus the row of its
/// topmost filled cell, or 0 when the column is empty.
#[verifier::loop_isolation(false)]
fn column_height(pf: &Playfield, x: usize) -> (r: u32)
    requires
        pf.wf(),
        x < pf.width,
    ensures
        r == col_height_from(pf.grid(), pf.height as int, x as int, 0),
{
    let mut y: usize = 0;
    while y < pf.height()
        invariant
            y <= pf.height,
            col_height_from(pf.grid(), pf.height as int, x as int, 0) == col_height_from(
                pf.grid(),
                pf.height as int,
                x as int,
                y as int,
            ),
        decreases pf.height - y,
    {
        let c = pf.get_block(x, y);
        proof {
            assert(pf.grid()[y as int][x as int] == c);
        }
        if c != 0 {
            return (pf.height() - y) as u32;
        }
        y = y + 1;
    }
    0
}

/// The summed stack heights of all columns.  Dividing by the width gives
/// the average stack height the score formula speaks of; the sum is kept
/// exact instead of that quotient.
#[verifier::loop_isolation(false)]
pub fn get_pf_height_sum(pf: &Playfield) -> (r: u32)
    requires
        pf.wf(),
    ensures
        r == grid_height_sum(pf.grid(), pf.width as int, pf.height as int),
{
    let ghost g = pf.grid();
    let ghost h = pf.height as int;
    let mut total: u32 = 0;
    let mut x: usize = 0;
    while x < pf.width()
        invariant
            x <= pf.width,
            total == grid_height_sum_upto(g, h, x as int),
        decreases pf.width - x,
    {
        proof {
            lemma_grid_height_sum_bound(g, h, x as int);
            lemma_col_height_from_bound(g, h, x as int, 0);
            assert(x * h <= 10000 * 10000) by (nonlinear_arith)
                requires
                    0 <= x <= 10000,
                    0 <= h <= 10000,
            ;
        }
        let ch = column_height(pf, x);
        total = total + ch;
        x = x + 1;
    }
    total
}

/// The line-clear tier of the score, scaled by the board area: a strong
/// bonus for four or more simultaneous lines, a small penalty for a single
/// line, for two or three lines a penalty that grows as the stack gets
/// lower, and nothing for no line.
pub open spec fn line_clear_score(n: int, area: int, total: int) -> int {
    if n >= 4 {
        10 * area
    } else if n == 1 {
        -2 * area
    } else if n >= 2 {
        -3 * (4 - n) * (area - total)
    } else {
        0
    }
}

/// The whole placement score, scaled by the board area: the landing depth
/// and the jitter change make the position part; the line-clear tier is
/// added on top.
pub open spec fn combine_score(
    bottom: int,
    jitter_score: int,
    n: int,
    area: int,
    total: int,
) -> int {
    (bottom + jitter_score) * area + line_clear_score(n, area, total)
}

/// With the landing depth and the jitter change held equal, a clear of four
/// or more lines outscores every smaller tier.  A single-line clear is a
/// penalty, so clearing nothing outscores it.
pub proof fn lemma_line_clear_scoring(
    bottom: int,
    jitter_score: int,
    n: int,
    area: int,
    total: int,
)
    requires
        n >= 4,
        area > 0,
        0 <= total <= area,
    ensures
        combine_score(bottom, jitter_score, n, area, total) > combine_score(
            bottom,
            jitter_score,
            1,
            area,
            total,
        ),
        combine_score(bottom, jitter_score, n, area, total) > combine_score(
            bottom,
            jitter_score,
            0,
            area,
            total,
        ),
        combine_score(bottom, jitter_score, n, area, total) > combine_score(
            bottom,
            jitter_score,
            2,
            area,
            total,
        ),
        combine_score(bottom, jitter_score, n, area, total) > combine_score(
            bottom,
            jitter_score,
            3,
            area,
            total,
        ),
        combine_score(bottom, jitter_score, 0, area, total) > combine_score(
            bottom,
            jitter_score,
            1,
            area,
            total,
        ),
{
    assert(-3 * (4 - 2) * (area - total) >= -6 * area) by (nonlinear_arith)
        requires
            0 <= total <= area,
    ;
    assert(-3 * (4 - 3) * (area - total) >= -3 * area) by (nonlinear_arith)
        requires
            0 <= total <= area,
    ;
    assert(-3 * (4 - 2) * (area - total) <= 0) by (nonlinear_arith)
        requires
            0 <= total <= area,
    ;
    assert(-3 * (4 - 3) * (area - total) <= 0) by (nonlinear_arith)
        requires
            0 <= total <= area,
    ;
}

/// The evaluator: captures baseline board metrics in `init_eval` and scores
/// each candidate placement against them.
pub struct JitterComputer {
    pub pre_col_jitter: i64,
    pub pre_row_jitter: i64,
    pub pre_voids: i64,
    pub pre_height_sum: i64,
    pub pre_max_height: u32,
    pub pre_locked_lines: i64,
}

impl JitterComputer {
    pub fn new() -> (r: JitterComputer)
        ensures
            r.pre_col_jitter == 0,
            r.pre_row_jitter == 0,
            r.pre_voids == 0,
            r.pre_height_sum == 0,
            r.pre_max_height == 0,
            r.pre_locked_lines == 0,
            r.wf(),
    {
        JitterComputer {
            pre_col_jitter: 0,
            pre_row_jitter: 0,
            pre_voids: 0,
            pre_height_sum: 0,
            pre_max_height: 0,
            pre_locked_lines: 0,
        }
    }

    /// The score of placing `fig` at `pos` on `pf`, against the captured
    /// jitter baseline: commit the placement to a copy of the grid, score
    /// the line-clear tier on it, remove the full rows, and add the landing
    /// depth and the smoothness change, everything scaled by the board area.
    pub open spec fn score_of(&self, pf: Playfield, fig: Figure, pos: Position) -> int {
        let w = pf.width as int;
        let h = pf.height as int;
        let placed = mdl_place(pf.grid(), fig_view(fig), pos);
        let lines = grid_full_lines(placed, w);
        let n = lines.len() as int;
        let area = w * h;
        let total = grid_height_sum(placed, w, h);
        let cleared = throw_lines_model(placed, w, lines, 0);
        let bottom = half_toward_zero(pos.y + fig.faces@[pos.dir as int].lowest_set_row());
        let col_delta = grid_col_jitter(cleared, w, h) - self.pre_col_jitter;
        let row_delta = grid_row_jitter(cleared, w) - self.pre_row_jitter;
        let jitter_score = -(col_delta * 3 + half_toward_zero(row_delta));
        combine_score(bottom, jitter_score, n, area, total)
    }
}

/// The landing depth of a placement: the board row of the figure's lowest
/// set cell, halved toward zero.
pub open spec fn landing_depth(fig: Figure, pos: Position) -> int {
    half_toward_zero(pos.y + fig.faces@[pos.dir as int].lowest_set_row())
}

/// The number of rows the placement completes.
pub open spec fn clear_count(pf: Playfield, fig: Figure, pos: Position) -> int {
    grid_full_lines(mdl_place(pf.grid(), fig_view(fig), pos), pf.width as int).len() as int
}

/// The summed column heights right after the placement, before the clears.
pub open spec fn height_total(pf: Playfield, fig: Figure, pos: Position) -> int {
    grid_height_sum(mdl_place(pf.grid(), fig_view(fig), pos), pf.width as int, pf.height as int)
}

impl JitterComputer {
    /// The smoothness part of the score against the captured baseline:
    /// minus the weighted jitter growth of the board after the placement
    /// and its line clears, columns weighted six times the rows.
    pub open spec fn jitter_change(&self, pf: Playfield, fig: Figure, pos: Position) -> int {
        let w = pf.width as int;
        let h = pf.height as int;
        let placed = mdl_place(pf.grid(), fig_view(fig), pos);
        let cleared = throw_lines_model(placed, w, grid_full_lines(placed, w), 0);
        -((grid_col_jitter(cleared, w, h) - self.pre_col_jitter) * 3 + half_toward_zero(
            grid_row_jitter(cleared, w) - self.pre_row_jitter,
        ))
    }
}

/// The score is exactly the combination of its named parts.
pub proof fn lemma_score_decomposition(
    ct: JitterComputer,
    pf: Playfield,
    fig: Figure,
    pos: Position,
)
    ensures
        ct.score_of(pf, fig, pos) == combine_score(
            landing_depth(fig, pos),
            ct.jitter_change(pf, fig, pos),
            clear_count(pf, fig, pos),
            pf.width * pf.height,
            height_total(pf, fig, pos),
        ),
{
}

/// The line-clear tiers at the evaluator: for two placements whose landing
/// depth, smoothness change and post-placement heights agree, on boards of
/// one shape, the scores differ only by the tier, so a clear of four or
/// more lines strictly outscores a clear of three or fewer.
pub proof fn lemma_eval_line_clear_scoring(
    ct: JitterComputer,
    pf1: Playfield,
    fig1: Figure,
    pos1: Position,
    pf2: Playfield,
    fig2: Figure,
    pos2: Position,
)
    requires
        pf1.wf(),
        pf2.width == pf1.width,
        pf2.height == pf1.height,
        landing_depth(fig1, pos1) == landing_depth(fig2, pos2),
        ct.jitter_change(pf1, fig1, pos1) == ct.jitter_change(pf2, fig2, pos2),
        height_total(pf1, fig1, pos1) == height_total(pf2, fig2, pos2),
        clear_count(pf1, fig1, pos1) >= 4,
        clear_count(pf2, fig2, pos2) <= 3,
    ensures
        ct.score_of(pf1, fig1, pos1) > ct.score_of(pf2, fig2, pos2),
{
    lemma_score_decomposition(ct, pf1, fig1, pos1);
    lemma_score_decomposition(ct, pf2, fig2, pos2);
    lemma_grid_height_sum_bound(
        mdl_place(pf1.grid(), fig_view(fig1), pos1),
        pf1.height as int,
        pf1.width as int,
    );
    let bottom = landing_depth(fig1, pos1);
    let js = ct.jitter_change(pf1, fig1, pos1);
    let area = pf1.width * pf1.height;
    let total = height_total(pf1, fig1, pos1);
    let n1 = clear_count(pf1, fig1, pos1);
    let n2 = clear_count(pf2, fig2, pos2);
    assert(area > 0) by (nonlinear_arith)
        requires
            pf1.width >= 1,
            pf1.height >= 1,
            area == pf1.width * pf1.height,
    ;
    lemma_line_clear_scoring(bottom, js, n1, area, total);
    assert(n2 == 0 || n2 == 1 || n2 == 2 || n2 == 3);
}

impl ComputerType for JitterComputer {
    /// The captured metrics are small enough for the score arithmetic.
    open spec fn wf(&self) -> bool {
        &&& -5000000000 <= self.pre_col_jitter <= 5000000000
        &&& -5000000000 <= self.pre_row_jitter <= 5000000000
        &&& -5000000000 <= self.pre_voids <= 5000000000
        &&& -5000000000 <= self.pre_height_sum <= 5000000000
        &&& -5000000000 <= self.pre_locked_lines <= 5000000000
    }

    open spec fn spec_init(&self, pf: Playfield, avail_placings: int) -> JitterComputer {
        JitterComputer {
            pre_col_jitter: grid_col_jitter(pf.grid(), pf.width as int, pf.height as int) as i64,
            pre_row_jitter: grid_row_jitter(pf.grid(), pf.width as int) as i64,
            pre_voids: pf.void_count() as i64,
            pre_height_sum: grid_height_sum(pf.grid(), pf.width as int, pf.height as int) as i64,
            pre_max_height: first_occupied_from(pf, 0) as u32,
            pre_locked_lines: pf.full_rows_upto(pf.height as int) as i64,
        }
    }

    open spec fn spec_eval(&self, pf: Playfield, fig: Figure, pos: Position) -> int {
        self.score_of(pf, fig, pos)
    }

    fn init_eval(&mut self, pf: &Playfield, avail_placings: usize) {
        proof {
            assert(pf.width * pf.height <= 100000000) by (nonlinear_arith)
                requires
                    0 <= pf.width <= 10000,
                    0 <= pf.height <= 10000,
            ;
            pf.lemma_voids_upto_col_bound(pf.width as int);
            pf.lemma_full_rows_upto_bound(pf.height as int);
            lemma_grid_col_jitter_bound(pf.grid(), pf.height as int, pf.width as int);
            lemma_grid_row_jitter_bound(pf.grid(), pf.width as int, pf.grid().len() as int);
            lemma_grid_height_sum_bound(pf.grid(), pf.height as int, pf.width as int);
        }
        self.pre_voids = pf.count_voids() as i64;
        self.pre_col_jitter = get_pf_col_jitter(pf) as i64;
        self.pre_row_jitter = get_pf_row_jitter(pf) as i64;
        self.pre_height_sum = get_pf_height_sum(pf) as i64;
        self.pre_max_height = get_pf_max_height(pf);
        self.pre_locked_lines = pf.count_locked_lines() as i64;
    }

    fn eval_placing(&mut self, pf: &Playfield, fig: &Figure, pos: Position) -> (score: i64) {
        let ghost w = pf.width as int;
        let ghost h = pf.height as int;
        let ghost faces = fig_view(*fig);
        let ghost placed_model = mdl_place(pf.grid(), faces, pos);

        let mut work = pf.duplicate();
        let ghost work0 = work;
        proof {
            assert(work.grid() =~~= pf.grid());
            lemma_collides_model(*pf, *fig, pos);
            lemma_collides_model(work, *fig, pos);
            assert(!spec_collides(work, *fig, pos));
        }
        fig.place(&mut work, pos);
        proof {
            lemma_place_grid(work0, work, *fig, pos);
            assert(work.grid() == placed_model);
        }

        let total_u = get_pf_height_sum(&work);
        let full_lines = work.locked_lines();
        let n = full_lines.len();
        let ghost lines_g = full_lines@;
        let ghost cleared_model = throw_lines_model(placed_model, w, lines_g, 0);

        let mut i: usize = 0;
        while i < full_lines.len()
            invariant
                work.wf(),
                work.width == pf.width,
                work.height == pf.height,
                w == pf.width as int,
                i <= lines_g.len(),
                full_lines@ == lines_g,
                forall|j: int| 0 <= j < lines_g.len() ==> (#[trigger] lines_g[j]) < work.height,
                throw_lines_model(placed_model, w, lines_g, 0) == throw_lines_model(
                    work.grid(),
                    w,
                    lines_g,
                    i as int,
                ),
            decreases lines_g.len() - i,
        {
            let line = full_lines[i];
            let ghost gpre = work.grid();
            work.throw_line(line);
            proof {
                assert(throw_lines_model(gpre, w, lines_g, i as int) == throw_lines_model(
                    work.grid(),
                    w,
                    lines_g,
                    i as int + 1,
                ));
            }
            i = i + 1;
        }
        proof {
            assert(work.grid() == cleared_model);
        }

        let col_j = get_pf_col_jitter(&work);
        let row_j = get_pf_row_jitter(&work);
        let lb = fig.lowest_block(pos);
        proof {
            lemma_lowest_row_bounds(*pf, *fig, pos);
        }
        let bottom: i64 = ((lb as u32) / 2) as i64;
        proof {
            assert(w * h <= 100000000) by (nonlinear_arith)
                requires
                    0 <= w <= 10000,
                    0 <= h <= 10000,
            ;
        }
        let area: i64 = (pf.width() * pf.height()) as i64;
        proof {
            assert(0 <= area <= 100000000);
        }
        let total_i: i64 = total_u as i64;
        proof {
            lemma_grid_height_sum_bound(placed_model, h, w);
            assert(0 <= total_i <= area);
        }
        let line_score: i64;
        if n >= 4 {
            line_score = 10 * area;
        } else if n == 1 {
            line_score = -(2 * area);
            proof {
                assert(line_score == -2 * area);
            }
        } else if n >= 2 {
            proof {
                assert((-3 * ((4 - n) as i64)) * (area - total_i) >= -600000000 && (-3 * ((4 - n)
                    as i64)) * (area - total_i) <= 0) by (nonlinear_arith)
                    requires
                        -6 <= -3 * ((4 - n) as i64) <= -3,
                        0 <= area - total_i <= 100000000,
                ;
            }
            line_score = -3 * ((4 - n) as i64) * (area - total_i);
        } else {
            line_score = 0;
        }
        proof {
            assert(-1000000000 <= line_score <= 1000000000);
            lemma_grid_col_jitter_bound(cleared_model, h, w);
            lemma_grid_row_jitter_bound(cleared_model, w, cleared_model.len() as int);
        }
        let col_delta: i64 = col_j as i64 - self.pre_col_jitter;
        let row_delta: i64 = row_j as i64 - self.pre_row_jitter;
        let half_rd: i64 = if row_delta >= 0 {
            ((row_delta as u64) / 2) as i64
        } else {
            -((((-row_delta) as u64) / 2) as i64)
        };
        proof {
            assert(half_rd == half_toward_zero(row_delta as int));
            assert(-10000000000 <= col_delta <= 10000000000);
            assert(-10000000000 <= row_delta <= 10000000000);
            assert(-5000000000 <= half_rd <= 5000000000);
        }
        let jitter_score: i64 = -(col_delta * 3 + half_rd);
        proof {
            assert(-80000000000 <= jitter_score <= 80000000000);
            assert(0 <= bottom <= 5000);
            let bj: int = bottom + jitter_score;
            assert(bj * area <= 9000000000000000000 && bj * area >= -9000000000000000000)
                by (nonlinear_arith)
                requires
                    -90000000000 <= bj <= 90000000000,
                    0 <= area <= 100000000,
            ;
        }
        let score: i64 = (bottom + jitter_score) * area + line_score;
        proof {
            assert(score == old(self).spec_eval(*pf, *fig, pos));
        }
        score
    }
}

} // verus!
