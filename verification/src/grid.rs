//! Grid geometry and counting: flat indexing of a `width x height` board,
//! the cell classification, mine adjacency, and the counting functions that
//! the engine's invariants and win rule are stated over.

use vstd::prelude::*;

verus! {

/// One grid position: a mine, or an empty cell carrying the number of
/// mines among its up-to-8 neighbors.
#[derive(Clone, Copy, Debug, PartialEq, Eq, Structural)]
pub enum Cell {
    Mine,
    Empty(u8),
}

/// Flat index of the cell at column `x`, row `y` in a grid of width `w`.
pub open spec fn idx(w: int, x: int, y: int) -> int {
    y * w + x
}

pub open spec fn in_bounds(w: int, h: int, x: int, y: int) -> bool {
    0 <= x < w && 0 <= y < h
}

/// The cell stored at (x, y); meaningful only for in-bounds coordinates.
pub open spec fn cell_at(w: int, board: Seq<Cell>, x: int, y: int) -> Cell {
    board[idx(w, x, y)]
}

/// The boolean stored at (x, y) of a parallel grid (flags, revealed, mines).
pub open spec fn bool_at(w: int, grid: Seq<bool>, x: int, y: int) -> bool {
    grid[idx(w, x, y)]
}

pub open spec fn is_mine_at(w: int, h: int, board: Seq<Cell>, x: int, y: int) -> bool {
    in_bounds(w, h, x, y) && cell_at(w, board, x, y) is Mine
}

pub open spec fn mine_ind(w: int, h: int, board: Seq<Cell>, x: int, y: int) -> int {
    if is_mine_at(w, h, board, x, y) {
        1
    } else {
        0
    }
}

/// Number of mines among the in-bounds neighbors of (x, y).
pub open spec fn adj_mines(w: int, h: int, board: Seq<Cell>, x: int, y: int) -> int {
    mine_ind(w, h, board, x - 1, y - 1) + mine_ind(w, h, board, x, y - 1) + mine_ind(
        w,
        h,
        board,
        x + 1,
        y - 1,
    ) + mine_ind(w, h, board, x - 1, y) + mine_ind(w, h, board, x + 1, y) + mine_ind(
        w,
        h,
        board,
        x - 1,
        y + 1,
    ) + mine_ind(w, h, board, x, y + 1) + mine_ind(w, h, board, x + 1, y + 1)
}

pub open spec fn true_ind(w: int, h: int, grid: Seq<bool>, x: int, y: int) -> int {
    if in_bounds(w, h, x, y) && bool_at(w, grid, x, y) {
        1
    } else {
        0
    }
}

/// `true` entries among the in-bounds neighbors of (x, y) of a boolean
/// grid; the adjacency count as read off a bare mine layout.
pub open spec fn adj_trues(w: int, h: int, grid: Seq<bool>, x: int, y: int) -> int {
    true_ind(w, h, grid, x - 1, y - 1) + true_ind(w, h, grid, x, y - 1) + true_ind(
        w,
        h,
        grid,
        x + 1,
        y - 1,
    ) + true_ind(w, h, grid, x - 1, y) + true_ind(w, h, grid, x + 1, y) + true_ind(
        w,
        h,
        grid,
        x - 1,
        y + 1,
    ) + true_ind(w, h, grid, x, y + 1) + true_ind(w, h, grid, x + 1, y + 1)
}

/// A board whose mine cells sit exactly where a boolean layout is `true`
/// has the layout's adjacency counts.
pub proof fn lemma_adj_from_mask(
    w: int,
    h: int,
    board: Seq<Cell>,
    mines: Seq<bool>,
    x: int,
    y: int,
)
    requires
        forall|a: int, b: int|
            #[trigger] is_mine_at(w, h, board, a, b) == (in_bounds(w, h, a, b) && bool_at(
                w,
                mines,
                a,
                b,
            )),
    ensures
        adj_mines(w, h, board, x, y) == adj_trues(w, h, mines, x, y),
{
    assert(mine_ind(w, h, board, x - 1, y - 1) == true_ind(w, h, mines, x - 1, y - 1));
    assert(mine_ind(w, h, board, x, y - 1) == true_ind(w, h, mines, x, y - 1));
    assert(mine_ind(w, h, board, x + 1, y - 1) == true_ind(w, h, mines, x + 1, y - 1));
    assert(mine_ind(w, h, board, x - 1, y) == true_ind(w, h, mines, x - 1, y));
    assert(mine_ind(w, h, board, x + 1, y) == true_ind(w, h, mines, x + 1, y));
    assert(mine_ind(w, h, board, x - 1, y + 1) == true_ind(w, h, mines, x - 1, y + 1));
    assert(mine_ind(w, h, board, x, y + 1) == true_ind(w, h, mines, x, y + 1));
    assert(mine_ind(w, h, board, x + 1, y + 1) == true_ind(w, h, mines, x + 1, y + 1));
}

/// A flat index stays inside a `w * h` grid, and the grid of a board with
/// `u8` dimensions has at most 255 * 255 cells.
pub proof fn lemma_idx_bounds(w: int, h: int, x: int, y: int)
    requires
        in_bounds(w, h, x, y),
        w <= 255,
        h <= 255,
    ensures
        0 <= idx(w, x, y) < w * h,
        w * h <= 65025,
{
    assert(0 <= y * w + x < w * h && w * h <= 65025) by (nonlinear_arith)
        requires
            0 <= x < w && 0 <= y < h && w <= 255 && h <= 255,
    ;
}

pub proof fn lemma_idx_injective(w: int, h: int, x1: int, y1: int, x2: int, y2: int)
    requires
        in_bounds(w, h, x1, y1),
        in_bounds(w, h, x2, y2),
        idx(w, x1, y1) == idx(w, x2, y2),
    ensures
        x1 == x2 && y1 == y2,
{
    assert(x1 == x2 && y1 == y2) by (nonlinear_arith)
        requires
            0 <= x1 < w && 0 <= y1 < h && 0 <= x2 < w && 0 <= y2 < h && y1 * w + x1 == y2 * w + x2,
    ;
}

/// Mines among the first `n` cells of a board.
pub open spec fn count_mines_upto(board: Seq<Cell>, n: int) -> int
    decreases n,
{
    if n <= 0 {
        0
    } else {
        count_mines_upto(board, n - 1) + if board[n - 1] is Mine {
            1int
        } else {
            0int
        }
    }
}

pub open spec fn count_mines(board: Seq<Cell>) -> int {
    count_mines_upto(board, board.len() as int)
}

/// `true` entries among the first `n` cells of a boolean grid.
pub open spec fn count_true_upto(grid: Seq<bool>, n: int) -> int
    decreases n,
{
    if n <= 0 {
        0
    } else {
        count_true_upto(grid, n - 1) + if grid[n - 1] {
            1int
        } else {
            0int
        }
    }
}

pub open spec fn count_true(grid: Seq<bool>) -> int {
    count_true_upto(grid, grid.len() as int)
}

/// `false` entries among the first `n` cells; the flood-fill's termination
/// measure, so it is a `nat`.
pub open spec fn count_false_upto(grid: Seq<bool>, n: int) -> nat
    decreases n,
{
    if n <= 0 {
        0
    } else {
        count_false_upto(grid, n - 1) + if grid[n - 1] {
            0nat
        } else {
            1nat
        }
    }
}

pub open spec fn count_false(grid: Seq<bool>) -> nat {
    count_false_upto(grid, grid.len() as int)
}

/// Cells among the first `n` that are mines and flagged at once: the
/// quantity the win rule counts.
pub open spec fn count_flagged_mines_upto(board: Seq<Cell>, flagged: Seq<bool>, n: int) -> int
    decreases n,
{
    if n <= 0 {
        0
    } else {
        count_flagged_mines_upto(board, flagged, n - 1) + if board[n - 1] is Mine && flagged[n
            - 1] {
            1int
        } else {
            0int
        }
    }
}

pub open spec fn count_flagged_mines(board: Seq<Cell>, flagged: Seq<bool>) -> int {
    count_flagged_mines_upto(board, flagged, board.len() as int)
}

pub proof fn lemma_count_true_bounds(grid: Seq<bool>, n: int)
    ensures
        0 <= count_true_upto(grid, n) <= if n >= 0 {
            n
        } else {
            0
        },
    decreases n,
{
    if n > 0 {
        lemma_count_true_bounds(grid, n - 1);
    }
}

/// Updating one entry changes a count by the difference of the indicators,
/// and only when the entry lies below `n`.
pub proof fn lemma_count_true_update(grid: Seq<bool>, i: int, v: bool, n: int)
    requires
        0 <= i < grid.len(),
        n <= grid.len(),
    ensures
        count_true_upto(grid.update(i, v), n) == count_true_upto(grid, n) + if i < n {
            (if v {
                1int
            } else {
                0int
            }) - (if grid[i] {
                1int
            } else {
                0int
            })
        } else {
            0int
        },
    decreases n,
{
    if n > 0 {
        lemma_count_true_update(grid, i, v, n - 1);
    }
}

pub proof fn lemma_count_false_update(grid: Seq<bool>, i: int, v: bool, n: int)
    requires
        0 <= i < grid.len(),
        n <= grid.len(),
    ensures
        count_false_upto(grid.update(i, v), n) == count_false_upto(grid, n) + if i < n {
            (if v {
                0int
            } else {
                1int
            }) - (if grid[i] {
                0int
            } else {
                1int
            })
        } else {
            0int
        },
    decreases n,
{
    if n > 0 {
        lemma_count_false_update(grid, i, v, n - 1);
    }
}


pub proof fn lemma_count_true_all_false(grid: Seq<bool>, n: int)
    requires
        forall|j: int| 0 <= j < n ==> !grid[j],
    ensures
        count_true_upto(grid, n) == 0,
    decreases n,
{
    if n > 0 {
        lemma_count_true_all_false(grid, n - 1);
    }
}

/// Two boards with the same mine placement, entry by entry, carry the same
/// mine count.
pub proof fn lemma_count_mines_matches_grid(board: Seq<Cell>, mines: Seq<bool>, n: int)
    requires
        n <= board.len(),
        n <= mines.len(),
        forall|i: int| 0 <= i < n ==> (#[trigger] board[i] is Mine <==> mines[i]),
    ensures
        count_mines_upto(board, n) == count_true_upto(mines, n),
    decreases n,
{
    if n > 0 {
        lemma_count_mines_matches_grid(board, mines, n - 1);
    }
}

} // verus!
