//! Cross-cutting laws of the engine, stated over the transition
//! functions and proved once and for all.

use vstd::prelude::*;

use crate::flood::{flood, lemma_flood_covers_stack, lemma_flood_monotone, neighbors, spec_reveal};
use crate::game::{view_wf, GameView};
use crate::grid::{
    bool_at, cell_at, count_false, idx, in_bounds, lemma_count_false_update, lemma_idx_bounds,
    lemma_idx_injective, Cell,
};

verus! {

/// Revealing the same cell twice leaves exactly the state that the first
/// reveal produced.
pub proof fn lemma_reveal_idempotent(s: GameView, x: u8, y: u8)
    requires
        view_wf(s),
    ensures
        spec_reveal(spec_reveal(s, x, y), x, y) == spec_reveal(s, x, y),
{
    let s1 = spec_reveal(s, x, y);
    let xi = x as int;
    let yi = y as int;
    if in_bounds(s.width, s.height, xi, yi) && !bool_at(s.width, s.flagged, xi, yi) && !bool_at(
        s.width,
        s.revealed,
        xi,
        yi,
    ) {
        lemma_idx_bounds(s.width, s.height, xi, yi);
        if cell_at(s.width, s.board, xi, yi) is Mine {
            assert(bool_at(s.width, s1.revealed, xi, yi));
        } else {
            lemma_flood_covers_stack(s.width, s.height, s.board, s.flagged, s.revealed, seq![(x, y)]);
            lemma_flood_monotone(s.width, s.height, s.board, s.flagged, s.revealed, seq![(x, y)]);
            assert(seq![(x, y)][0] == (x, y));
            assert(bool_at(s.width, s1.revealed, xi, yi));
        }
    }
}

/// Revealing a mine ends the game and reveals that cell alone: the
/// cascade does not run, and no other cell changes.
pub proof fn lemma_reveal_mine(s: GameView, x: u8, y: u8)
    requires
        view_wf(s),
        in_bounds(s.width, s.height, x as int, y as int),
        cell_at(s.width, s.board, x as int, y as int) is Mine,
        !bool_at(s.width, s.flagged, x as int, y as int),
        !bool_at(s.width, s.revealed, x as int, y as int),
    ensures
        spec_reveal(s, x, y).game_over,
        bool_at(s.width, spec_reveal(s, x, y).revealed, x as int, y as int),
        spec_reveal(s, x, y).revealed == s.revealed.update(
            idx(s.width, x as int, y as int),
            true,
        ),
        forall|a: int, b: int|
            in_bounds(s.width, s.height, a, b) && !(a == x as int && b == y as int) ==> (bool_at(
                s.width,
                #[trigger] spec_reveal(s, x, y).revealed,
                a,
                b,
            ) <==> bool_at(s.width, s.revealed, a, b)),
{
    lemma_idx_bounds(s.width, s.height, x as int, y as int);
    assert forall|a: int, b: int|
        in_bounds(s.width, s.height, a, b) && !(a == x as int && b == y as int) implies (bool_at(
        s.width,
        #[trigger] spec_reveal(s, x, y).revealed,
        a,
        b,
    ) <==> bool_at(s.width, s.revealed, a, b)) by {
        lemma_idx_bounds(s.width, s.height, a, b);
        if idx(s.width, a, b) == idx(s.width, x as int, y as int) {
            lemma_idx_injective(s.width, s.height, a, b, x as int, y as int);
        }
    }
}

/// Distinct cells within one king-move step of each other.
pub open spec fn adjacent(x1: int, y1: int, x2: int, y2: int) -> bool {
    !(x1 == x2 && y1 == y2) && -1 <= x1 - x2 <= 1 && -1 <= y1 - y2 <= 1
}

/// An in-bounds cell with no adjacent mines.
pub open spec fn zero_cell(w: int, h: int, board: Seq<Cell>, x: int, y: int) -> bool {
    in_bounds(w, h, x, y) && cell_at(w, board, x, y) == Cell::Empty(0u8)
}

/// A chain of zero cells, each step between neighbors.
pub open spec fn zero_path(w: int, h: int, board: Seq<Cell>, p: Seq<(int, int)>) -> bool {
    &&& p.len() > 0
    &&& forall|i: int| 0 <= i < p.len() ==> zero_cell(w, h, board, (#[trigger] p[i]).0, p[i].1)
    &&& forall|i: int|
        0 < i < p.len() ==> adjacent(p[i - 1].0, p[i - 1].1, (#[trigger] p[i]).0, p[i].1)
}

/// (x, y) belongs to the zero region connected to (sx, sy).
pub open spec fn zero_reach(
    w: int,
    h: int,
    board: Seq<Cell>,
    sx: int,
    sy: int,
    x: int,
    y: int,
) -> bool {
    exists|p: Seq<(int, int)>|
        zero_path(w, h, board, p) && p.first() == (sx, sy) && p.last() == (x, y)
}

/// The full extent of a cascade started on the zero cell (sx, sy): the
/// connected zero region together with its immediate border.
pub open spec fn in_cascade(
    w: int,
    h: int,
    board: Seq<Cell>,
    sx: int,
    sy: int,
    x: int,
    y: int,
) -> bool {
    zero_reach(w, h, board, sx, sy, x, y) || exists|zx: int, zy: int|
        zero_reach(w, h, board, sx, sy, zx, zy) && adjacent(zx, zy, x, y)
}

/// A cell reaches itself through the empty path.
proof fn lemma_zero_reach_self(w: int, h: int, board: Seq<Cell>, sx: int, sy: int)
    requires
        zero_cell(w, h, board, sx, sy),
    ensures
        zero_reach(w, h, board, sx, sy, sx, sy),
{
    let p: Seq<(int, int)> = seq![(sx, sy)];
    assert(zero_path(w, h, board, p));
    assert(p.first() == (sx, sy) && p.last() == (sx, sy));
}

/// A reached zero cell extends the region by one neighboring zero cell.
proof fn lemma_zero_reach_extend(
    w: int,
    h: int,
    board: Seq<Cell>,
    sx: int,
    sy: int,
    zx: int,
    zy: int,
    cx: int,
    cy: int,
)
    requires
        zero_reach(w, h, board, sx, sy, zx, zy),
        adjacent(zx, zy, cx, cy),
        zero_cell(w, h, board, cx, cy),
    ensures
        zero_reach(w, h, board, sx, sy, cx, cy),
{
    let p = choose|p: Seq<(int, int)>|
        zero_path(w, h, board, p) && p.first() == (sx, sy) && p.last() == (zx, zy);
    let p2 = p.push((cx, cy));
    assert(forall|i: int| 0 <= i < p.len() ==> p2[i] == p[i]);
    assert(p2.last() == (cx, cy));
    assert(zero_path(w, h, board, p2));
    assert(p2.first() == (sx, sy));
}

/// The worklist entries spawned by a cell are exactly its in-bounds
/// neighbors.
proof fn lemma_neighbors_props(w: int, h: int, x: u8, y: u8)
    requires
        0 < w <= 255,
        0 < h <= 255,
        (x as int) < w,
        (y as int) < h,
    ensures
        forall|k: int|
            0 <= k < neighbors(w, h, x, y).len() ==> in_bounds(
                w,
                h,
                (#[trigger] neighbors(w, h, x, y)[k]).0 as int,
                neighbors(w, h, x, y)[k].1 as int,
            ) && adjacent(
                x as int,
                y as int,
                neighbors(w, h, x, y)[k].0 as int,
                neighbors(w, h, x, y)[k].1 as int,
            ),
        forall|a: int, b: int|
            #![trigger in_bounds(w, h, a, b), adjacent(x as int, y as int, a, b)]
            in_bounds(w, h, a, b) && adjacent(x as int, y as int, a, b) ==> exists|k: int|
                0 <= k < neighbors(w, h, x, y).len() && (#[trigger] neighbors(w, h, x, y)[k]) == ((
                (a as u8),
                (b as u8),
            )),
{
    let n = neighbors(w, h, x, y);
    let xi = x as int;
    let yi = y as int;
    let l1: int = if x > 0 && y > 0 {
        1
    } else {
        0
    };
    let l2: int = if y > 0 {
        1
    } else {
        0
    };
    let l3: int = if x + 1 < w && y > 0 {
        1
    } else {
        0
    };
    let l4: int = if x > 0 {
        1
    } else {
        0
    };
    let l5: int = if x + 1 < w {
        1
    } else {
        0
    };
    let l6: int = if x > 0 && y + 1 < h {
        1
    } else {
        0
    };
    let l7: int = if y + 1 < h {
        1
    } else {
        0
    };
    assert forall|a: int, b: int|
        #![trigger in_bounds(w, h, a, b), adjacent(x as int, y as int, a, b)]
        in_bounds(w, h, a, b) && adjacent(x as int, y as int, a, b) implies exists|k: int|
        0 <= k < neighbors(w, h, x, y).len() && (#[trigger] neighbors(w, h, x, y)[k]) == ((
        (a as u8),
        (b as u8),
    )) by {
        let v = (((a as u8), (b as u8)));
        if a == xi - 1 && b == yi - 1 {
            assert(n[0] == v);
        } else if a == xi && b == yi - 1 {
            assert(n[l1] == v);
        } else if a == xi + 1 && b == yi - 1 {
            assert(n[l1 + l2] == v);
        } else if a == xi - 1 && b == yi {
            assert(n[l1 + l2 + l3] == v);
        } else if a == xi + 1 && b == yi {
            assert(n[l1 + l2 + l3 + l4] == v);
        } else if a == xi - 1 && b == yi + 1 {
            assert(n[l1 + l2 + l3 + l4 + l5] == v);
        } else if a == xi && b == yi + 1 {
            assert(n[l1 + l2 + l3 + l4 + l5 + l6] == v);
        } else {
            assert(a == xi + 1 && b == yi + 1);
            assert(n[l1 + l2 + l3 + l4 + l5 + l6 + l7] == v);
        }
    }
}

/// Soundness of the cascade: starting from a worklist whose entries all
/// belong to the cascade region, every cell it reveals belongs there too.
proof fn lemma_flood_sound(
    w: int,
    h: int,
    board: Seq<Cell>,
    flagged: Seq<bool>,
    revealed: Seq<bool>,
    stack: Seq<(u8, u8)>,
    sx: int,
    sy: int,
)
    requires
        0 < w <= 255,
        0 < h <= 255,
        revealed.len() == w * h,
        zero_cell(w, h, board, sx, sy),
        forall|a: int, b: int|
            #![trigger bool_at(w, revealed, a, b)]
            in_bounds(w, h, a, b) && bool_at(w, revealed, a, b) ==> in_cascade(
                w,
                h,
                board,
                sx,
                sy,
                a,
                b,
            ),
        forall|k: int|
            0 <= k < stack.len() ==> ((#[trigger] stack[k]).0 as int == sx && stack[k].1 as int
                == sy) || exists|zx: int, zy: int|
                zero_reach(w, h, board, sx, sy, zx, zy) && adjacent(
                    zx,
                    zy,
                    stack[k].0 as int,
                    stack[k].1 as int,
                ),
    ensures
        forall|a: int, b: int|
            #![trigger bool_at(w, flood(w, h, board, flagged, revealed, stack), a, b)]
            in_bounds(w, h, a, b) && bool_at(w, flood(w, h, board, flagged, revealed, stack), a, b)
                ==> in_cascade(w, h, board, sx, sy, a, b),
    decreases count_false(revealed), stack.len(),
{
    if stack.len() > 0 {
        let c = stack.last();
        let rest = stack.drop_last();
        let x = c.0 as int;
        let y = c.1 as int;
        assert(forall|k: int| 0 <= k < rest.len() ==> rest[k] == #[trigger] stack[k]);
        assert(c == stack[stack.len() - 1]);
        if !in_bounds(w, h, x, y) || idx(w, x, y) >= revealed.len() || bool_at(w, flagged, x, y)
            || bool_at(w, revealed, x, y) {
            lemma_flood_sound(w, h, board, flagged, revealed, rest, sx, sy);
            assert(flood(w, h, board, flagged, revealed, stack) == flood(
                w,
                h,
                board,
                flagged,
                revealed,
                rest,
            ));
            assert forall|a: int, b: int|
                in_bounds(w, h, a, b) && #[trigger] bool_at(
                    w,
                    flood(w, h, board, flagged, revealed, stack),
                    a,
                    b,
                ) implies in_cascade(w, h, board, sx, sy, a, b) by {
                assert(bool_at(w, flood(w, h, board, flagged, revealed, rest), a, b));
            }
        } else {
            lemma_count_false_update(revealed, idx(w, x, y), true, revealed.len() as int);
            lemma_idx_bounds(w, h, x, y);
            let revealed1 = revealed.update(idx(w, x, y), true);
            // the cell just revealed lies in the cascade region
            if x == sx && y == sy {
                lemma_zero_reach_self(w, h, board, sx, sy);
            }
            assert(in_cascade(w, h, board, sx, sy, x, y));
            assert forall|a: int, b: int|
                in_bounds(w, h, a, b) && #[trigger] bool_at(w, revealed1, a, b) implies in_cascade(
                w,
                h,
                board,
                sx,
                sy,
                a,
                b,
            ) by {
                lemma_idx_bounds(w, h, a, b);
                if idx(w, a, b) == idx(w, x, y) {
                    lemma_idx_injective(w, h, a, b, x, y);
                } else {
                    assert(bool_at(w, revealed, a, b));
                }
            }
            if cell_at(w, board, x, y) == Cell::Empty(0u8) {
                // the popped cell is itself in the zero region, so its
                // neighbors border it
                if x == sx && y == sy {
                    lemma_zero_reach_self(w, h, board, sx, sy);
                } else {
                    let (zx, zy) = choose|zx: int, zy: int|
                        zero_reach(w, h, board, sx, sy, zx, zy) && adjacent(zx, zy, x, y);
                    lemma_zero_reach_extend(w, h, board, sx, sy, zx, zy, x, y);
                }
                assert(zero_reach(w, h, board, sx, sy, x, y));
                let nbrs = neighbors(w, h, c.0, c.1);
                let stack1 = rest + nbrs;
                lemma_neighbors_props(w, h, c.0, c.1);
                assert forall|k: int| 0 <= k < stack1.len() implies ((#[trigger] stack1[k]).0 as int
                    == sx && stack1[k].1 as int == sy) || exists|zx: int, zy: int|
                    zero_reach(w, h, board, sx, sy, zx, zy) && adjacent(
                        zx,
                        zy,
                        stack1[k].0 as int,
                        stack1[k].1 as int,
                    ) by {
                    if k < rest.len() {
                        assert(stack1[k] == stack[k]);
                    } else {
                        assert(stack1[k] == nbrs[k - rest.len()]);
                        assert(adjacent(x, y, stack1[k].0 as int, stack1[k].1 as int));
                    }
                }
                lemma_flood_sound(w, h, board, flagged, revealed1, stack1, sx, sy);
                assert(flood(w, h, board, flagged, revealed, stack) == flood(
                    w,
                    h,
                    board,
                    flagged,
                    revealed1,
                    stack1,
                ));
                assert forall|a: int, b: int|
                    in_bounds(w, h, a, b) && #[trigger] bool_at(
                        w,
                        flood(w, h, board, flagged, revealed, stack),
                        a,
                        b,
                    ) implies in_cascade(w, h, board, sx, sy, a, b) by {
                    assert(bool_at(w, flood(w, h, board, flagged, revealed1, stack1), a, b));
                }
            } else {
                lemma_flood_sound(w, h, board, flagged, revealed1, rest, sx, sy);
                assert(flood(w, h, board, flagged, revealed, stack) == flood(
                    w,
                    h,
                    board,
                    flagged,
                    revealed1,
                    rest,
                ));
                assert forall|a: int, b: int|
                    in_bounds(w, h, a, b) && #[trigger] bool_at(
                        w,
                        flood(w, h, board, flagged, revealed, stack),
                        a,
                        b,
                    ) implies in_cascade(w, h, board, sx, sy, a, b) by {
                    assert(bool_at(w, flood(w, h, board, flagged, revealed1, rest), a, b));
                }
            }
        }
    }
}

/// Some worklist entry carries the coordinates (x, y).
pub open spec fn stack_has(stack: Seq<(u8, u8)>, x: int, y: int) -> bool {
    exists|k: int|
        0 <= k < stack.len() && (#[trigger] stack[k]).0 as int == x && stack[k].1 as int == y
}

/// Completeness of the cascade, as a closure property: when no cell is
/// flagged, every neighbor of a revealed zero cell is revealed or still
/// on the worklist — and once the worklist is empty, simply revealed.
proof fn lemma_flood_closed(
    w: int,
    h: int,
    board: Seq<Cell>,
    flagged: Seq<bool>,
    revealed: Seq<bool>,
    stack: Seq<(u8, u8)>,
)
    requires
        0 < w <= 255,
        0 < h <= 255,
        revealed.len() == w * h,
        flagged.len() == w * h,
        forall|i: int| 0 <= i < flagged.len() ==> !flagged[i],
        forall|a: int, b: int, c: int, d: int|
            #![trigger zero_cell(w, h, board, a, b), adjacent(a, b, c, d)]
            zero_cell(w, h, board, a, b) && bool_at(w, revealed, a, b) && in_bounds(w, h, c, d)
                && adjacent(a, b, c, d) ==> bool_at(w, revealed, c, d) || stack_has(stack, c, d),
    ensures
        forall|a: int, b: int, c: int, d: int|
            #![trigger zero_cell(w, h, board, a, b), adjacent(a, b, c, d)]
            zero_cell(w, h, board, a, b) && bool_at(
                w,
                flood(w, h, board, flagged, revealed, stack),
                a,
                b,
            ) && in_bounds(w, h, c, d) && adjacent(a, b, c, d) ==> bool_at(
                w,
                flood(w, h, board, flagged, revealed, stack),
                c,
                d,
            ),
    decreases count_false(revealed), stack.len(),
{
    let fl = flood(w, h, board, flagged, revealed, stack);
    if stack.len() > 0 {
        let cc = stack.last();
        let rest = stack.drop_last();
        let x = cc.0 as int;
        let y = cc.1 as int;
        assert(forall|k: int| 0 <= k < rest.len() ==> rest[k] == #[trigger] stack[k]);
        assert(cc == stack[stack.len() - 1]);
        if !in_bounds(w, h, x, y) || idx(w, x, y) >= revealed.len() || bool_at(w, flagged, x, y)
            || bool_at(w, revealed, x, y) {
            if in_bounds(w, h, x, y) {
                lemma_idx_bounds(w, h, x, y);
                assert(!bool_at(w, flagged, x, y));
                assert(bool_at(w, revealed, x, y));
            }
            assert forall|a: int, b: int, c: int, d: int|
                #[trigger] zero_cell(w, h, board, a, b) && bool_at(w, revealed, a, b) && in_bounds(
                    w,
                    h,
                    c,
                    d,
                ) && #[trigger] adjacent(a, b, c, d) implies bool_at(w, revealed, c, d)
                || stack_has(rest, c, d) by {
                if !bool_at(w, revealed, c, d) {
                    let k = choose|k: int|
                        0 <= k < stack.len() && (#[trigger] stack[k]).0 as int == c && stack[k].1
                            as int == d;
                    if k < rest.len() {
                        assert(rest[k] == stack[k]);
                        assert(stack_has(rest, c, d));
                    } else {
                        assert(c == x && d == y);
                    }
                }
            }
            lemma_flood_closed(w, h, board, flagged, revealed, rest);
            assert(fl == flood(w, h, board, flagged, revealed, rest));
        } else {
            lemma_count_false_update(revealed, idx(w, x, y), true, revealed.len() as int);
            lemma_idx_bounds(w, h, x, y);
            let revealed1 = revealed.update(idx(w, x, y), true);
            assert(bool_at(w, revealed1, x, y));
            assert forall|a: int, b: int|
                in_bounds(w, h, a, b) && #[trigger] bool_at(w, revealed, a, b) implies bool_at(
                w,
                revealed1,
                a,
                b,
            ) by {
                lemma_idx_bounds(w, h, a, b);
            }
            if cell_at(w, board, x, y) == Cell::Empty(0u8) {
                let nbrs = neighbors(w, h, cc.0, cc.1);
                let stack1 = rest + nbrs;
                lemma_neighbors_props(w, h, cc.0, cc.1);
                assert forall|a: int, b: int, c: int, d: int|
                    #[trigger] zero_cell(w, h, board, a, b) && bool_at(w, revealed1, a, b)
                        && in_bounds(w, h, c, d) && #[trigger] adjacent(a, b, c, d) implies bool_at(
                    w,
                    revealed1,
                    c,
                    d,
                ) || stack_has(stack1, c, d) by {
                    lemma_idx_bounds(w, h, a, b);
                    lemma_idx_bounds(w, h, c, d);
                    if a == x && b == y {
                        // the freshly revealed zero cell: its neighbors
                        // were just pushed
                        let k = choose|k: int|
                            0 <= k < nbrs.len() && (#[trigger] nbrs[k]) == (((c as u8), (d as u8)));
                        assert(stack1[rest.len() + k] == nbrs[k]);
                        assert(stack_has(stack1, c, d));
                    } else {
                        if idx(w, a, b) == idx(w, x, y) {
                            lemma_idx_injective(w, h, a, b, x, y);
                        }
                        assert(bool_at(w, revealed, a, b));
                        if !bool_at(w, revealed, c, d) {
                            let k = choose|k: int|
                                0 <= k < stack.len() && (#[trigger] stack[k]).0 as int == c
                                    && stack[k].1 as int == d;
                            if k < rest.len() {
                                assert(stack1[k] == stack[k]);
                                assert(stack_has(stack1, c, d));
                            } else {
                                assert(c == x && d == y);
                                assert(bool_at(w, revealed1, c, d));
                            }
                        } else {
                            assert(bool_at(w, revealed1, c, d));
                        }
                    }
                }
                lemma_flood_closed(w, h, board, flagged, revealed1, stack1);
                assert(fl == flood(w, h, board, flagged, revealed1, stack1));
            } else {
                assert forall|a: int, b: int, c: int, d: int|
                    #[trigger] zero_cell(w, h, board, a, b) && bool_at(w, revealed1, a, b)
                        && in_bounds(w, h, c, d) && #[trigger] adjacent(a, b, c, d) implies bool_at(
                    w,
                    revealed1,
                    c,
                    d,
                ) || stack_has(rest, c, d) by {
                    lemma_idx_bounds(w, h, a, b);
                    lemma_idx_bounds(w, h, c, d);
                    if a == x && b == y {
                        // the revealed cell is not a zero cell here
                        assert(cell_at(w, board, a, b) != Cell::Empty(0u8));
                    } else {
                        if idx(w, a, b) == idx(w, x, y) {
                            lemma_idx_injective(w, h, a, b, x, y);
                        }
                        assert(bool_at(w, revealed, a, b));
                        if !bool_at(w, revealed, c, d) {
                            let k = choose|k: int|
                                0 <= k < stack.len() && (#[trigger] stack[k]).0 as int == c
                                    && stack[k].1 as int == d;
                            if k < rest.len() {
                                assert(rest[k] == stack[k]);
                                assert(stack_has(rest, c, d));
                            } else {
                                assert(c == x && d == y);
                                assert(bool_at(w, revealed1, c, d));
                            }
                        } else {
                            assert(bool_at(w, revealed1, c, d));
                        }
                    }
                }
                lemma_flood_closed(w, h, board, flagged, revealed1, rest);
                assert(fl == flood(w, h, board, flagged, revealed1, rest));
            }
        }
    }
}

/// Along a zero path whose first cell is revealed, the closure property
/// carries revelation to the last cell.
proof fn lemma_path_revealed(
    w: int,
    h: int,
    board: Seq<Cell>,
    grid: Seq<bool>,
    p: Seq<(int, int)>,
)
    requires
        0 < w <= 255,
        0 < h <= 255,
        grid.len() == w * h,
        forall|a: int, b: int, c: int, d: int|
            #![trigger zero_cell(w, h, board, a, b), adjacent(a, b, c, d)]
            zero_cell(w, h, board, a, b) && bool_at(w, grid, a, b) && in_bounds(w, h, c, d)
                && adjacent(a, b, c, d) ==> bool_at(w, grid, c, d),
        zero_path(w, h, board, p),
        bool_at(w, grid, p.first().0, p.first().1),
    ensures
        bool_at(w, grid, p.last().0, p.last().1),
    decreases p.len(),
{
    if p.len() > 1 {
        let p0 = p.drop_last();
        assert(forall|i: int| 0 <= i < p0.len() ==> p0[i] == #[trigger] p[i]);
        assert(zero_path(w, h, board, p0));
        assert(p0.first() == p.first());
        lemma_path_revealed(w, h, board, grid, p0);
        let z = p0.last();
        let c = p.last();
        assert(z == p[p.len() - 2] && c == p[p.len() - 1]);
        assert(zero_cell(w, h, board, z.0, z.1));
        assert(adjacent(z.0, z.1, c.0, c.1));
        assert(zero_cell(w, h, board, c.0, c.1));
    }
}

/// No cell beyond the cascade region is revealed.
proof fn lemma_cascade_sound_dir(s: GameView, x: u8, y: u8)
    requires
        view_wf(s),
        forall|i: int| 0 <= i < s.flagged.len() ==> !s.flagged[i],
        forall|i: int| 0 <= i < s.revealed.len() ==> !s.revealed[i],
        zero_cell(s.width, s.height, s.board, x as int, y as int),
    ensures
        forall|a: int, b: int|
            #![trigger bool_at(s.width, spec_reveal(s, x, y).revealed, a, b)]
            in_bounds(s.width, s.height, a, b) && bool_at(
                s.width,
                spec_reveal(s, x, y).revealed,
                a,
                b,
            ) ==> in_cascade(s.width, s.height, s.board, x as int, y as int, a, b),
{
    let w = s.width;
    let h = s.height;
    let xi = x as int;
    let yi = y as int;
    let start: Seq<(u8, u8)> = seq![(x, y)];
    lemma_idx_bounds(w, h, xi, yi);
    assert(!bool_at(w, s.flagged, xi, yi));
    assert(!bool_at(w, s.revealed, xi, yi));
    let fl = flood(w, h, s.board, s.flagged, s.revealed, start);
    assert(spec_reveal(s, x, y).revealed == fl);
    assert forall|a: int, b: int|
        in_bounds(w, h, a, b) && #[trigger] bool_at(w, s.revealed, a, b) implies in_cascade(
        w,
        h,
        s.board,
        xi,
        yi,
        a,
        b,
    ) by {
        lemma_idx_bounds(w, h, a, b);
    }
    assert(start[0] == (x, y));
    lemma_flood_sound(w, h, s.board, s.flagged, s.revealed, start, xi, yi);
}

/// The whole cascade region, border included, is revealed.
proof fn lemma_cascade_complete_dir(s: GameView, x: u8, y: u8)
    requires
        view_wf(s),
        forall|i: int| 0 <= i < s.flagged.len() ==> !s.flagged[i],
        forall|i: int| 0 <= i < s.revealed.len() ==> !s.revealed[i],
        zero_cell(s.width, s.height, s.board, x as int, y as int),
    ensures
        forall|a: int, b: int|
            #![trigger bool_at(s.width, spec_reveal(s, x, y).revealed, a, b)]
            in_bounds(s.width, s.height, a, b) && in_cascade(
                s.width,
                s.height,
                s.board,
                x as int,
                y as int,
                a,
                b,
            ) ==> bool_at(s.width, spec_reveal(s, x, y).revealed, a, b),
{
    let w = s.width;
    let h = s.height;
    let xi = x as int;
    let yi = y as int;
    let start: Seq<(u8, u8)> = seq![(x, y)];
    lemma_idx_bounds(w, h, xi, yi);
    assert(!bool_at(w, s.flagged, xi, yi));
    assert(!bool_at(w, s.revealed, xi, yi));
    let fl = flood(w, h, s.board, s.flagged, s.revealed, start);
    assert(spec_reveal(s, x, y).revealed == fl);
    assert(start[0] == (x, y));
    assert forall|a: int, b: int| in_bounds(w, h, a, b) implies !(#[trigger] bool_at(
        w,
        s.revealed,
        a,
        b,
    )) by {
        lemma_idx_bounds(w, h, a, b);
    }
    lemma_flood_closed(w, h, s.board, s.flagged, s.revealed, start);
    lemma_flood_covers_stack(w, h, s.board, s.flagged, s.revealed, start);
    lemma_flood_monotone(w, h, s.board, s.flagged, s.revealed, start);
    assert(bool_at(w, fl, xi, yi));
    assert forall|a: int, b: int|
        in_bounds(w, h, a, b) && in_cascade(w, h, s.board, xi, yi, a, b) implies #[trigger] bool_at(
        w,
        fl,
        a,
        b,
    ) by {
        if zero_reach(w, h, s.board, xi, yi, a, b) {
            let p = choose|p: Seq<(int, int)>|
                zero_path(w, h, s.board, p) && p.first() == (xi, yi) && p.last() == (a, b);
            lemma_path_revealed(w, h, s.board, fl, p);
        } else {
            let (zx, zy) = choose|zx: int, zy: int|
                zero_reach(w, h, s.board, xi, yi, zx, zy) && adjacent(zx, zy, a, b);
            let p = choose|p: Seq<(int, int)>|
                zero_path(w, h, s.board, p) && p.first() == (xi, yi) && p.last() == (zx, zy);
            lemma_path_revealed(w, h, s.board, fl, p);
            assert(zero_cell(w, h, s.board, zx, zy) && bool_at(w, fl, zx, zy));
            assert(adjacent(zx, zy, a, b));
        }
    }
}

/// Flood-fill exactness on a fresh board: revealing a zero cell reveals
/// every zero cell reachable from it through zero neighbors, plus the
/// immediate border of that region, and nothing beyond the border.
pub proof fn lemma_flood_fill_exact(s: GameView, x: u8, y: u8)
    requires
        view_wf(s),
        forall|i: int| 0 <= i < s.flagged.len() ==> !s.flagged[i],
        forall|i: int| 0 <= i < s.revealed.len() ==> !s.revealed[i],
        zero_cell(s.width, s.height, s.board, x as int, y as int),
    ensures
        forall|a: int, b: int|
            #![trigger bool_at(s.width, spec_reveal(s, x, y).revealed, a, b)]
            in_bounds(s.width, s.height, a, b) ==> (bool_at(
                s.width,
                spec_reveal(s, x, y).revealed,
                a,
                b,
            ) <==> in_cascade(s.width, s.height, s.board, x as int, y as int, a, b)),
{
    lemma_cascade_sound_dir(s, x, y);
    lemma_cascade_complete_dir(s, x, y);
}

} // verus!
