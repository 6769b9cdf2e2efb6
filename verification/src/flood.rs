//! The flood-fill semantics of `reveal`, as a recursive specification over
//! an explicit worklist, and the transition function of one reveal command.

use vstd::prelude::*;

use crate::game::GameView;
use crate::grid::{
    bool_at, cell_at, count_false, idx, in_bounds, lemma_count_false_update, Cell,
};

verus! {

/// The in-bounds neighbors of (x, y), in the order the cascade visits
/// them: top-left, top, top-right, left, right, bottom-left, bottom,
/// bottom-right.
pub open spec fn neighbors(w: int, h: int, x: u8, y: u8) -> Seq<(u8, u8)> {
    (if x > 0 && y > 0 {
        seq![(((x - 1) as u8), ((y - 1) as u8))]
    } else {
        seq![]
    }) + (if y > 0 {
        seq![(x, ((y - 1) as u8))]
    } else {
        seq![]
    }) + (if x + 1 < w && y > 0 {
        seq![(((x + 1) as u8), ((y - 1) as u8))]
    } else {
        seq![]
    }) + (if x > 0 {
        seq![(((x - 1) as u8), y)]
    } else {
        seq![]
    }) + (if x + 1 < w {
        seq![(((x + 1) as u8), y)]
    } else {
        seq![]
    }) + (if x > 0 && y + 1 < h {
        seq![(((x - 1) as u8), ((y + 1) as u8))]
    } else {
        seq![]
    }) + (if y + 1 < h {
        seq![(x, ((y + 1) as u8))]
    } else {
        seq![]
    }) + (if x + 1 < w && y + 1 < h {
        seq![(((x + 1) as u8), ((y + 1) as u8))]
    } else {
        seq![]
    })
}

/// The revealed grid after the cascade has worked off `stack`: the top
/// cell is skipped when out of range, flagged or already revealed;
/// otherwise it is revealed, and when it carries no adjacent mines its
/// neighbors join the worklist.
pub open spec fn flood(
    w: int,
    h: int,
    board: Seq<Cell>,
    flagged: Seq<bool>,
    revealed: Seq<bool>,
    stack: Seq<(u8, u8)>,
) -> Seq<bool>
    decreases count_false(revealed), stack.len(),
{
    if stack.len() == 0 {
        revealed
    } else {
        let c = stack.last();
        let rest = stack.drop_last();
        let x = c.0 as int;
        let y = c.1 as int;
        if !in_bounds(w, h, x, y) || idx(w, x, y) >= revealed.len() || bool_at(w, flagged, x, y)
            || bool_at(w, revealed, x, y) {
            flood(w, h, board, flagged, revealed, rest)
        } else {
            proof {
                lemma_count_false_update(revealed, idx(w, x, y), true, revealed.len() as int);
            }
            let revealed1 = revealed.update(idx(w, x, y), true);
            if cell_at(w, board, x, y) == Cell::Empty(0u8) {
                flood(w, h, board, flagged, revealed1, rest + neighbors(w, h, c.0, c.1))
            } else {
                flood(w, h, board, flagged, revealed1, rest)
            }
        }
    }
}

/// The cascade never forgets: it only ever reveals further cells, and it
/// keeps the grid's length.
pub proof fn lemma_flood_monotone(
    w: int,
    h: int,
    board: Seq<Cell>,
    flagged: Seq<bool>,
    revealed: Seq<bool>,
    stack: Seq<(u8, u8)>,
)
    ensures
        flood(w, h, board, flagged, revealed, stack).len() == revealed.len(),
        forall|i: int|
            0 <= i < revealed.len() && revealed[i] ==> #[trigger] flood(
                w,
                h,
                board,
                flagged,
                revealed,
                stack,
            )[i],
    decreases count_false(revealed), stack.len(),
{
    if stack.len() > 0 {
        let c = stack.last();
        let rest = stack.drop_last();
        let x = c.0 as int;
        let y = c.1 as int;
        if !in_bounds(w, h, x, y) || idx(w, x, y) >= revealed.len() || bool_at(w, flagged, x, y)
            || bool_at(w, revealed, x, y) {
            lemma_flood_monotone(w, h, board, flagged, revealed, rest);
        } else {
            lemma_count_false_update(revealed, idx(w, x, y), true, revealed.len() as int);
            let revealed1 = revealed.update(idx(w, x, y), true);
            if cell_at(w, board, x, y) == Cell::Empty(0u8) {
                lemma_flood_monotone(
                    w,
                    h,
                    board,
                    flagged,
                    revealed1,
                    rest + neighbors(w, h, c.0, c.1),
                );
            } else {
                lemma_flood_monotone(w, h, board, flagged, revealed1, rest);
            }
        }
    }
}

/// Every in-range, unflagged cell on the worklist is revealed once the
/// cascade has run dry.
pub proof fn lemma_flood_covers_stack(
    w: int,
    h: int,
    board: Seq<Cell>,
    flagged: Seq<bool>,
    revealed: Seq<bool>,
    stack: Seq<(u8, u8)>,
)
    ensures
        forall|k: int|
            0 <= k < stack.len() && in_bounds(w, h, (#[trigger] stack[k]).0 as int, stack[k].1 as int)
                && idx(w, stack[k].0 as int, stack[k].1 as int) < revealed.len() && !bool_at(
                w,
                flagged,
                stack[k].0 as int,
                stack[k].1 as int,
            ) ==> bool_at(
                w,
                flood(w, h, board, flagged, revealed, stack),
                stack[k].0 as int,
                stack[k].1 as int,
            ),
    decreases count_false(revealed), stack.len(),
{
    if stack.len() > 0 {
        let c = stack.last();
        let rest = stack.drop_last();
        let x = c.0 as int;
        let y = c.1 as int;
        assert forall|k: int| 0 <= k < rest.len() implies rest[k] == stack[k] by {}
        if !in_bounds(w, h, x, y) || idx(w, x, y) >= revealed.len() || bool_at(w, flagged, x, y)
            || bool_at(w, revealed, x, y) {
            lemma_flood_covers_stack(w, h, board, flagged, revealed, rest);
            lemma_flood_monotone(w, h, board, flagged, revealed, rest);
        } else {
            lemma_count_false_update(revealed, idx(w, x, y), true, revealed.len() as int);
            let revealed1 = revealed.update(idx(w, x, y), true);
            if cell_at(w, board, x, y) == Cell::Empty(0u8) {
                let stack1 = rest + neighbors(w, h, c.0, c.1);
                lemma_flood_covers_stack(w, h, board, flagged, revealed1, stack1);
                lemma_flood_monotone(w, h, board, flagged, revealed1, stack1);
                assert forall|k: int| 0 <= k < rest.len() implies rest[k] == stack1[k] by {}
            } else {
                lemma_flood_covers_stack(w, h, board, flagged, revealed1, rest);
                lemma_flood_monotone(w, h, board, flagged, revealed1, rest);
            }
        }
    }
}

/// The state after `reveal(x, y)` on an in-bounds coordinate: a no-op on
/// a flagged or already-revealed cell; a mine is revealed alone and ends
/// the game; any other cell starts the cascade.  The flag grid, the win
/// flag and the cursor are never touched.
pub open spec fn spec_reveal(s: GameView, x: u8, y: u8) -> GameView {
    if !in_bounds(s.width, s.height, x as int, y as int) || idx(s.width, x as int, y as int)
        >= s.revealed.len() {
        s
    } else if bool_at(s.width, s.flagged, x as int, y as int) {
        s
    } else if bool_at(s.width, s.revealed, x as int, y as int) {
        s
    } else if cell_at(s.width, s.board, x as int, y as int) is Mine {
        GameView {
            revealed: s.revealed.update(idx(s.width, x as int, y as int), true),
            game_over: true,
            ..s
        }
    } else {
        GameView {
            revealed: flood(s.width, s.height, s.board, s.flagged, s.revealed, seq![(x, y)]),
            ..s
        }
    }
}

} // verus!
