//! The board engine: construction with random or given mine layout,
//! cell revelation with flood-fill, flag toggling with win detection, and
//! the UI cursor.

use vstd::prelude::*;

use crate::flood::{flood, neighbors, spec_reveal};
use crate::grid::{
    adj_mines, adj_trues, bool_at, cell_at, count_false, count_flagged_mines,
    count_flagged_mines_upto, count_mines, count_true, count_true_upto, idx, in_bounds, is_mine_at,
    lemma_adj_from_mask, lemma_count_false_update, lemma_count_mines_matches_grid,
    lemma_count_true_all_false, lemma_count_true_bounds, lemma_count_true_update, lemma_idx_bounds,
    lemma_idx_injective, Cell,
};

verus! {

/// Failures of the coordinate-taking operations and of construction.
#[derive(Clone, Copy, Debug, PartialEq, Eq, Structural)]
pub enum GameError {
    /// A coordinate lies outside `[0, width) x [0, height)`.
    OutOfBounds,
    /// The requested mine count does not fit the board.
    InvalidConfiguration,
}

/// The mathematical state of a game: the three grids in row-major order
/// together with the scalar fields.
#[verifier::ext_equal]
pub ghost struct GameView {
    pub width: int,
    pub height: int,
    pub board: Seq<Cell>,
    pub flagged: Seq<bool>,
    pub revealed: Seq<bool>,
    pub game_over: bool,
    pub win: bool,
    pub number_of_mines: int,
    pub cursor: (int, int),
}

/// Well-formedness: matching grid dimensions, exactly `number_of_mines`
/// mine cells, and every empty cell storing its true adjacency count.
pub open spec fn view_wf(s: GameView) -> bool {
    &&& 0 < s.width <= 255
    &&& 0 < s.height <= 255
    &&& s.board.len() == s.width * s.height
    &&& s.flagged.len() == s.width * s.height
    &&& s.revealed.len() == s.width * s.height
    &&& 0 <= s.number_of_mines < s.width * s.height
    &&& count_mines(s.board) == s.number_of_mines
    &&& forall|x: int, y: int|
        #![trigger cell_at(s.width, s.board, x, y)]
        in_bounds(s.width, s.height, x, y) && !(cell_at(s.width, s.board, x, y) is Mine)
            ==> cell_at(s.width, s.board, x, y) == Cell::Empty(
            adj_mines(s.width, s.height, s.board, x, y) as u8,
        )
}

/// The state after `toggle_flag(x, y)` on an in-bounds coordinate: the
/// flag bit is inverted unless the cell is revealed; afterwards — even
/// after the revealed-cell no-op — the win rule recounts the flagged
/// mines, and a full count sets `win` and `game_over`.  The rule counts
/// correctly flagged mines only: stray flags on empty cells do not block
/// the win.
pub open spec fn spec_toggle_flag(s: GameView, x: u8, y: u8) -> GameView {
    if !in_bounds(s.width, s.height, x as int, y as int) || idx(s.width, x as int, y as int)
        >= s.flagged.len() {
        s
    } else {
        let flagged1 = if bool_at(s.width, s.revealed, x as int, y as int) {
            s.flagged
        } else {
            s.flagged.update(
                idx(s.width, x as int, y as int),
                !bool_at(s.width, s.flagged, x as int, y as int),
            )
        };
        let won = count_flagged_mines(s.board, flagged1) == s.number_of_mines;
        GameView { flagged: flagged1, win: s.win || won, game_over: s.game_over || won, ..s }
    }
}

/// The game engine.  All grids are flat vectors in row-major order and are
/// created together at construction, never resized.
#[derive(Debug)]
pub struct Minesweeper {
    width: u8,
    height: u8,
    board: Vec<Cell>,
    flagged: Vec<bool>,
    revealed: Vec<bool>,
    game_over: bool,
    win: bool,
    number_of_mines: u8,
    cursor: (u8, u8),
}

impl View for Minesweeper {
    type V = GameView;

    closed spec fn view(&self) -> GameView {
        GameView {
            width: self.width as int,
            height: self.height as int,
            board: self.board@,
            flagged: self.flagged@,
            revealed: self.revealed@,
            game_over: self.game_over,
            win: self.win,
            number_of_mines: self.number_of_mines as int,
            cursor: (self.cursor.0 as int, self.cursor.1 as int),
        }
    }
}

/// Relies on rand::Rng::gen_range with rand::thread_rng(): the result is
/// drawn from the given half-open range, which is nonempty here, so the
/// call cannot panic and the result lies below `bound`.
#[verifier::external_body]
fn rand_below(bound: u8) -> (r: u8)
    requires
        bound > 0,
    ensures
        r < bound,
{
    rand::Rng::gen_range(&mut rand::thread_rng(), 0..bound)
}

/// A vector of `total` entries, all `false`: the initial state of every
/// boolean grid.
fn all_false(total: usize) -> (v: Vec<bool>)
    ensures
        v@.len() == total,
        forall|j: int| 0 <= j < total ==> !v@[j],
{
    let mut v: Vec<bool> = Vec::new();
    let mut i: usize = 0;
    while i < total
        invariant
            i <= total,
            v@.len() == i,
            forall|j: int| 0 <= j < i ==> !v@[j],
        decreases total - i,
    {
        v.push(false);
        i = i + 1;
    }
    v
}

/// Read one entry of a boolean grid by its coordinates.
fn grid_read(grid: &Vec<bool>, width: u8, height: u8, x: u8, y: u8) -> (r: bool)
    requires
        grid@.len() == (width as int) * (height as int),
        x < width,
        y < height,
    ensures
        r == bool_at(width as int, grid@, x as int, y as int),
{
    proof {
        lemma_idx_bounds(width as int, height as int, x as int, y as int);
    }
    grid[(y as usize) * (width as usize) + (x as usize)]
}

/// Draw random coordinates until `number_of_mines` distinct cells are
/// mined.  Rejection sampling degrades as the mine count approaches the
/// board size, so the retries run on a budget; any cells still owed when
/// it is spent are taken from the first free positions.
fn place_mines(width: u8, height: u8, number_of_mines: u8) -> (mines: Vec<bool>)
    requires
        0 < width,
        0 < height,
        (number_of_mines as int) < (width as int) * (height as int),
    ensures
        mines@.len() == (width as int) * (height as int),
        count_true(mines@) == number_of_mines as int,
{
    let ghost w: int = width as int;
    let ghost h: int = height as int;
    proof {
        lemma_idx_bounds(w, h, w - 1, h - 1);
    }
    let total: usize = (width as usize) * (height as usize);
    let mut mines: Vec<bool> = all_false(total);
    proof {
        lemma_count_true_all_false(mines@, total as int);
    }
    let mut placed: u8 = 0;
    let mut attempts: usize = 0;
    let budget: usize = 64 * total;
    while placed < number_of_mines && attempts < budget
        invariant
            w == width as int,
            h == height as int,
            0 < width,
            0 < height,
            total == w * h,
            mines@.len() == w * h,
            placed <= number_of_mines,
            attempts <= budget,
            count_true(mines@) == placed as int,
        decreases budget - attempts,
    {
        attempts = attempts + 1;
        let x = rand_below(width);
        let y = rand_below(height);
        proof {
            lemma_idx_bounds(w, h, x as int, y as int);
        }
        let i: usize = (y as usize) * (width as usize) + (x as usize);
        if !mines[i] {
            proof {
                lemma_count_true_update(mines@, i as int, true, total as int);
            }
            mines[i] = true;
            placed = placed + 1;
        }
    }
    let mut j: usize = 0;
    while j < total && placed < number_of_mines
        invariant
            w == width as int,
            h == height as int,
            total == w * h,
            mines@.len() == w * h,
            j <= total,
            placed <= number_of_mines,
            (number_of_mines as int) < w * h,
            count_true(mines@) == placed as int,
            (number_of_mines as int) - (placed as int) <= (total - j) - (count_true(mines@)
                - count_true_upto(mines@, j as int)),
        decreases total - j,
    {
        proof {
            lemma_count_true_bounds(mines@, j as int);
        }
        if !mines[j] {
            proof {
                lemma_count_true_update(mines@, j as int, true, total as int);
                lemma_count_true_update(mines@, j as int, true, j as int);
            }
            mines[j] = true;
            placed = placed + 1;
        }
        j = j + 1;
    }
    proof {
        lemma_count_true_bounds(mines@, total as int);
    }
    mines
}

/// Turn a boolean mine layout into the board of classified cells: `Mine`
/// where the layout is `true`, otherwise `Empty` with the count of mines
/// among the in-bounds neighbors.
fn board_from_mines(width: u8, height: u8, mines: &Vec<bool>) -> (board: Vec<Cell>)
    requires
        0 < width,
        0 < height,
        width <= 255,
        height <= 255,
        mines@.len() == (width as int) * (height as int),
    ensures
        board@.len() == (width as int) * (height as int),
        forall|i: int| 0 <= i < board@.len() ==> (#[trigger] board@[i] is Mine <==> mines@[i]),
        forall|a: int, b: int|
            #[trigger] is_mine_at(width as int, height as int, board@, a, b) == (in_bounds(
                width as int,
                height as int,
                a,
                b,
            ) && bool_at(width as int, mines@, a, b)),
        forall|a: int, b: int|
            #![trigger cell_at(width as int, board@, a, b)]
            in_bounds(width as int, height as int, a, b) && !(cell_at(width as int, board@, a, b)
                is Mine) ==> cell_at(width as int, board@, a, b) == Cell::Empty(
                adj_mines(width as int, height as int, board@, a, b) as u8,
            ),
{
    let ghost w: int = width as int;
    let ghost h: int = height as int;
    let mut board: Vec<Cell> = Vec::new();
    let mut y: u8 = 0;
    while y < height
        invariant
            w == width as int,
            h == height as int,
            0 < width <= 255,
            0 < height <= 255,
            y <= height,
            mines@.len() == w * h,
            board@.len() == (y as int) * w,
            forall|i: int| 0 <= i < board@.len() ==> (#[trigger] board@[i] is Mine <==> mines@[i]),
            forall|a: int, b: int|
                #![trigger cell_at(w, board@, a, b)]
                in_bounds(w, h, a, b) && idx(w, a, b) < board@.len() ==> cell_at(w, board@, a, b)
                    == (if bool_at(w, mines@, a, b) {
                    Cell::Mine
                } else {
                    Cell::Empty(adj_trues(w, h, mines@, a, b) as u8)
                }),
        decreases height - y,
    {
        let mut x: u8 = 0;
        while x < width
            invariant
                w == width as int,
                h == height as int,
                0 < width <= 255,
                0 < height <= 255,
                y < height,
                x <= width,
                mines@.len() == w * h,
                board@.len() == (y as int) * w + (x as int),
                forall|i: int| 0 <= i < board@.len() ==> (#[trigger] board@[i] is Mine <==> mines@[i]),
                forall|a: int, b: int|
                    #![trigger cell_at(w, board@, a, b)]
                    in_bounds(w, h, a, b) && idx(w, a, b) < board@.len() ==> cell_at(w, board@, a, b)
                        == (if bool_at(w, mines@, a, b) {
                        Cell::Mine
                    } else {
                        Cell::Empty(adj_trues(w, h, mines@, a, b) as u8)
                    }),
            decreases width - x,
        {
            proof {
                lemma_idx_bounds(w, h, x as int, y as int);
            }
            let cell: Cell = if grid_read(mines, width, height, x, y) {
                Cell::Mine
            } else {
                let mut c: u8 = 0;
                if x > 0 && y > 0 && grid_read(mines, width, height, x - 1, y - 1) {
                    c = c + 1;
                }
                if y > 0 && grid_read(mines, width, height, x, y - 1) {
                    c = c + 1;
                }
                if x + 1 < width && y > 0 && grid_read(mines, width, height, x + 1, y - 1) {
                    c = c + 1;
                }
                if x > 0 && grid_read(mines, width, height, x - 1, y) {
                    c = c + 1;
                }
                if x + 1 < width && grid_read(mines, width, height, x + 1, y) {
                    c = c + 1;
                }
                if x > 0 && y + 1 < height && grid_read(mines, width, height, x - 1, y + 1) {
                    c = c + 1;
                }
                if y + 1 < height && grid_read(mines, width, height, x, y + 1) {
                    c = c + 1;
                }
                if x + 1 < width && y + 1 < height && grid_read(mines, width, height, x + 1, y + 1)
                {
                    c = c + 1;
                }
                assert(c as int == adj_trues(w, h, mines@, x as int, y as int));
                Cell::Empty(c)
            };
            let ghost old_board: Seq<Cell> = board@;
            board.push(cell);
            proof {
                assert forall|a: int, b: int|
                    in_bounds(w, h, a, b) && idx(w, a, b) < board@.len() implies #[trigger] cell_at(
                    w,
                    board@,
                    a,
                    b,
                ) == (if bool_at(w, mines@, a, b) {
                    Cell::Mine
                } else {
                    Cell::Empty(adj_trues(w, h, mines@, a, b) as u8)
                }) by {
                    if idx(w, a, b) < old_board.len() {
                        assert(cell_at(w, board@, a, b) == cell_at(w, old_board, a, b));
                    } else {
                        lemma_idx_injective(w, h, a, b, x as int, y as int);
                    }
                }
            }
            x = x + 1;
        }
        proof {
            assert((y as int + 1) * w == (y as int) * w + w) by (nonlinear_arith);
        }
        y = y + 1;
    }
    proof {
        assert(w * h == h * w) by (nonlinear_arith);
        assert(board@.len() == w * h);
        assert forall|a: int, b: int| in_bounds(w, h, a, b) implies #[trigger] is_mine_at(
            w,
            h,
            board@,
            a,
            b,
        ) == bool_at(w, mines@, a, b) by {
            lemma_idx_bounds(w, h, a, b);
        }
        assert forall|a: int, b: int|
            in_bounds(w, h, a, b) && !(cell_at(w, board@, a, b) is Mine) implies #[trigger] cell_at(
            w,
            board@,
            a,
            b,
        ) == Cell::Empty(adj_mines(w, h, board@, a, b) as u8) by {
            lemma_idx_bounds(w, h, a, b);
            lemma_adj_from_mask(w, h, board@, mines@, a, b);
        }
    }
    board
}

impl Minesweeper {
    /// The engine's invariant: held by every constructed game and
    /// preserved by every command.
    pub open spec fn wf(&self) -> bool {
        view_wf(self@)
    }

    /// Build a fresh game with the given dimensions and a random mine
    /// layout of exactly `number_of_mines` cells, nothing revealed or
    /// flagged, the cursor at the origin.  A mine count that does not
    /// leave a free cell is rejected instead of looping.
    pub fn new(width: u8, height: u8, number_of_mines: u8) -> (r: Result<Minesweeper, GameError>)
        ensures
            r is Err <==> (number_of_mines as int) >= (width as int) * (height as int),
            r matches Err(e) ==> e == GameError::InvalidConfiguration,
            r matches Ok(g) ==> {
                &&& g.wf()
                &&& g@.width == width as int
                &&& g@.height == height as int
                &&& g@.number_of_mines == number_of_mines as int
                &&& !g@.game_over
                &&& !g@.win
                &&& g@.cursor == (0int, 0int)
                &&& forall|j: int| 0 <= j < g@.flagged.len() ==> !g@.flagged[j]
                &&& forall|j: int| 0 <= j < g@.revealed.len() ==> !g@.revealed[j]
            },
    {
        if width == 0 || height == 0 {
            proof {
                assert((width as int) * (height as int) == 0) by (nonlinear_arith)
                    requires
                        width == 0 || height == 0,
                ;
            }
            return Err(GameError::InvalidConfiguration);
        }
        proof {
            lemma_idx_bounds(width as int, height as int, width as int - 1, height as int - 1);
        }
        let total: usize = (width as usize) * (height as usize);
        if (number_of_mines as usize) >= total {
            return Err(GameError::InvalidConfiguration);
        }
        let mines = place_mines(width, height, number_of_mines);
        let board = board_from_mines(width, height, &mines);
        proof {
            lemma_count_mines_matches_grid(board@, mines@, total as int);
        }
        let flagged = all_false(total);
        let revealed = all_false(total);
        Ok(
            Minesweeper {
                width,
                height,
                board,
                flagged,
                revealed,
                game_over: false,
                win: false,
                number_of_mines,
                cursor: (0, 0),
            },
        )
    }

    /// Build a game from a given mine layout, `true` marking a mine, in
    /// row-major order: the deterministic counterpart of `new` for a
    /// caller that injects its own placement.
    pub fn with_mines(width: u8, height: u8, mine_layout: &Vec<bool>) -> (r: Result<
        Minesweeper,
        GameError,
    >)
        ensures
            r is Err <==> (mine_layout@.len() != (width as int) * (height as int) || count_true(
                mine_layout@,
            ) >= (width as int) * (height as int) || count_true(mine_layout@) > 255),
            r matches Err(e) ==> e == GameError::InvalidConfiguration,
            r matches Ok(g) ==> {
                &&& g.wf()
                &&& g@.width == width as int
                &&& g@.height == height as int
                &&& g@.number_of_mines == count_true(mine_layout@)
                &&& forall|a: int, b: int|
                    in_bounds(width as int, height as int, a, b) ==> (#[trigger] is_mine_at(
                        width as int,
                        height as int,
                        g@.board,
                        a,
                        b,
                    ) <==> bool_at(width as int, mine_layout@, a, b))
                &&& !g@.game_over
                &&& !g@.win
                &&& g@.cursor == (0int, 0int)
                &&& forall|j: int| 0 <= j < g@.flagged.len() ==> !g@.flagged[j]
                &&& forall|j: int| 0 <= j < g@.revealed.len() ==> !g@.revealed[j]
            },
    {
        let ghost w: int = width as int;
        let ghost h: int = height as int;
        if width == 0 || height == 0 {
            proof {
                lemma_count_true_bounds(mine_layout@, mine_layout@.len() as int);
            }
            return Err(GameError::InvalidConfiguration);
        }
        proof {
            lemma_idx_bounds(w, h, w - 1, h - 1);
        }
        let total: usize = (width as usize) * (height as usize);
        if mine_layout.len() != total {
            return Err(GameError::InvalidConfiguration);
        }
        let mut cnt: usize = 0;
        let mut i: usize = 0;
        while i < total
            invariant
                i <= total,
                mine_layout@.len() == total,
                cnt == count_true_upto(mine_layout@, i as int),
                cnt <= i,
            decreases total - i,
        {
            if mine_layout[i] {
                cnt = cnt + 1;
            }
            i = i + 1;
        }
        if cnt >= total || cnt > 255 {
            return Err(GameError::InvalidConfiguration);
        }
        let number_of_mines: u8 = cnt as u8;
        let board = board_from_mines(width, height, mine_layout);
        proof {
            lemma_count_mines_matches_grid(board@, mine_layout@, total as int);
        }
        let flagged = all_false(total);
        let revealed = all_false(total);
        Ok(
            Minesweeper {
                width,
                height,
                board,
                flagged,
                revealed,
                game_over: false,
                win: false,
                number_of_mines,
                cursor: (0, 0),
            },
        )
    }

    /// Reveal a cell: a no-op when the cell is flagged or already
    /// revealed; revealing a mine ends the game without cascading; a cell
    /// with no adjacent mines cascades through its neighbors, halting at
    /// any positive count and at the board edges.
    #[verifier::rlimit(100)]
    pub fn reveal_cell(&mut self, x: u8, y: u8) -> (r: Result<(), GameError>)
        requires
            old(self).wf(),
        ensures
            final(self).wf(),
            in_bounds(old(self)@.width, old(self)@.height, x as int, y as int) ==> r is Ok
                && final(self)@ == spec_reveal(old(self)@, x, y),
            !in_bounds(old(self)@.width, old(self)@.height, x as int, y as int) ==> (r matches Err(e)
                && e == GameError::OutOfBounds) && final(self)@ == old(self)@,
    {
        if x >= self.width || y >= self.height {
            return Err(GameError::OutOfBounds);
        }
        let ghost w: int = self.width as int;
        let ghost h: int = self.height as int;
        let ghost s0: GameView = self@;
        proof {
            lemma_idx_bounds(w, h, x as int, y as int);
        }
        let i: usize = (y as usize) * (self.width as usize) + (x as usize);
        if self.flagged[i] {
            proof {
                assert(self@ =~= spec_reveal(s0, x, y));
            }
            return Ok(());
        }
        if self.revealed[i] {
            proof {
                assert(self@ =~= spec_reveal(s0, x, y));
            }
            return Ok(());
        }
        match self.board[i] {
            Cell::Mine => {
                self.revealed[i] = true;
                self.game_over = true;
                proof {
                    assert(self@ =~= spec_reveal(s0, x, y));
                }
                Ok(())
            },
            Cell::Empty(_) => {
                let mut stack: Vec<(u8, u8)> = Vec::new();
                stack.push((x, y));
                let ghost r0: Seq<bool> = self.revealed@;
                proof {
                    assert(stack@ =~= seq![(x, y)]);
                }
                while stack.len() > 0
                    invariant
                        view_wf(self@),
                        w == self@.width,
                        h == self@.height,
                        self@.board == s0.board,
                        self@.flagged == s0.flagged,
                        self@.game_over == s0.game_over,
                        self@.win == s0.win,
                        self@.cursor == s0.cursor,
                        self@.number_of_mines == s0.number_of_mines,
                        self@.revealed.len() == s0.revealed.len(),
                        flood(w, h, s0.board, s0.flagged, self@.revealed, stack@) == flood(
                            w,
                            h,
                            s0.board,
                            s0.flagged,
                            r0,
                            seq![(x, y)],
                        ),
                    decreases count_false(self@.revealed), stack@.len(),
                {
                    let ghost stack_pre: Seq<(u8, u8)> = stack@;
                    let ghost rev_pre: Seq<bool> = self.revealed@;
                    let c = stack.pop().unwrap();
                    let (cx, cy) = c;
                    if cx < self.width && cy < self.height {
                        proof {
                            lemma_idx_bounds(w, h, cx as int, cy as int);
                        }
                        let ci: usize = (cy as usize) * (self.width as usize) + (cx as usize);
                        if !self.flagged[ci] && !self.revealed[ci] {
                            proof {
                                lemma_count_false_update(
                                    rev_pre,
                                    ci as int,
                                    true,
                                    rev_pre.len() as int,
                                );
                            }
                            self.revealed[ci] = true;
                            match self.board[ci] {
                                Cell::Empty(0) => {
                                    if cx > 0 && cy > 0 {
                                        stack.push((cx - 1, cy - 1));
                                    }
                                    if cy > 0 {
                                        stack.push((cx, cy - 1));
                                    }
                                    if cx + 1 < self.width && cy > 0 {
                                        stack.push((cx + 1, cy - 1));
                                    }
                                    if cx > 0 {
                                        stack.push((cx - 1, cy));
                                    }
                                    if cx + 1 < self.width {
                                        stack.push((cx + 1, cy));
                                    }
                                    if cx > 0 && cy + 1 < self.height {
                                        stack.push((cx - 1, cy + 1));
                                    }
                                    if cy + 1 < self.height {
                                        stack.push((cx, cy + 1));
                                    }
                                    if cx + 1 < self.width && cy + 1 < self.height {
                                        stack.push((cx + 1, cy + 1));
                                    }
                                    proof {
                                        assert(stack@ =~= stack_pre.drop_last() + neighbors(
                                            w,
                                            h,
                                            cx,
                                            cy,
                                        ));
                                        assert(flood(w, h, s0.board, s0.flagged, rev_pre, stack_pre)
                                            == flood(
                                            w,
                                            h,
                                            s0.board,
                                            s0.flagged,
                                            self@.revealed,
                                            stack@,
                                        ));
                                    }
                                },
                                _ => {
                                    proof {
                                        assert(flood(w, h, s0.board, s0.flagged, rev_pre, stack_pre)
                                            == flood(
                                            w,
                                            h,
                                            s0.board,
                                            s0.flagged,
                                            self@.revealed,
                                            stack@,
                                        ));
                                    }
                                },
                            }
                        } else {
                            proof {
                                assert(flood(w, h, s0.board, s0.flagged, rev_pre, stack_pre)
                                    == flood(w, h, s0.board, s0.flagged, self@.revealed, stack@));
                            }
                        }
                    } else {
                        proof {
                            assert(flood(w, h, s0.board, s0.flagged, rev_pre, stack_pre) == flood(
                                w,
                                h,
                                s0.board,
                                s0.flagged,
                                self@.revealed,
                                stack@,
                            ));
                        }
                    }
                }
                proof {
                    assert(flood(w, h, s0.board, s0.flagged, self@.revealed, stack@)
                        == self@.revealed);
                    assert(self@ =~= spec_reveal(s0, x, y));
                }
                Ok(())
            },
        }
    }

    /// Toggle the flag of a cell: a no-op on a revealed cell.  After every
    /// call — the no-op included — the win condition is recomputed: when
    /// as many mines carry flags as there are mines, the game is won and
    /// over.
    pub fn toggle_flag(&mut self, x: u8, y: u8) -> (r: Result<(), GameError>)
        requires
            old(self).wf(),
        ensures
            final(self).wf(),
            in_bounds(old(self)@.width, old(self)@.height, x as int, y as int) ==> r is Ok
                && final(self)@ == spec_toggle_flag(old(self)@, x, y),
            !in_bounds(old(self)@.width, old(self)@.height, x as int, y as int) ==> (r matches Err(
                e,
            ) && e == GameError::OutOfBounds) && final(self)@ == old(self)@,
            in_bounds(old(self)@.width, old(self)@.height, x as int, y as int) && bool_at(
                old(self)@.width,
                old(self)@.revealed,
                x as int,
                y as int,
            ) ==> final(self)@.flagged == old(self)@.flagged,
            in_bounds(old(self)@.width, old(self)@.height, x as int, y as int) ==> (
            final(self)@.win <==> (old(self)@.win || count_flagged_mines(
                old(self)@.board,
                final(self)@.flagged,
            ) == old(self)@.number_of_mines)),
    {
        if x >= self.width || y >= self.height {
            return Err(GameError::OutOfBounds);
        }
        let ghost w: int = self.width as int;
        let ghost h: int = self.height as int;
        let ghost s0: GameView = self@;
        proof {
            lemma_idx_bounds(w, h, x as int, y as int);
        }
        let i: usize = (y as usize) * (self.width as usize) + (x as usize);
        if !self.revealed[i] {
            let cur: bool = self.flagged[i];
            self.flagged[i] = !cur;
        }
        let ghost s1: GameView = self@;
        let total: usize = (self.width as usize) * (self.height as usize);
        let mut fm: usize = 0;
        let mut k: usize = 0;
        while k < total
            invariant
                self@ == s1,
                s1.board.len() == total,
                s1.flagged.len() == total,
                k <= total,
                fm <= k,
                fm == count_flagged_mines_upto(s1.board, s1.flagged, k as int),
            decreases total - k,
        {
            let is_m: bool = match self.board[k] {
                Cell::Mine => true,
                Cell::Empty(_) => false,
            };
            if is_m && self.flagged[k] {
                fm = fm + 1;
            }
            k = k + 1;
        }
        if fm == (self.number_of_mines as usize) {
            self.win = true;
            self.game_over = true;
        }
        proof {
            assert(self@ =~= spec_toggle_flag(s0, x, y));
        }
        Ok(())
    }

    /// Point the UI cursor at a cell; nothing else changes.
    pub fn move_cursor(&mut self, x: u8, y: u8) -> (r: Result<(), GameError>)
        requires
            old(self).wf(),
        ensures
            final(self).wf(),
            in_bounds(old(self)@.width, old(self)@.height, x as int, y as int) ==> r is Ok
                && final(self)@ == (GameView { cursor: (x as int, y as int), ..old(self)@ }),
            !in_bounds(old(self)@.width, old(self)@.height, x as int, y as int) ==> (r matches Err(
                e,
            ) && e == GameError::OutOfBounds) && final(self)@ == old(self)@,
    {
        if x >= self.width || y >= self.height {
            return Err(GameError::OutOfBounds);
        }
        self.cursor = (x, y);
        proof {
            assert(self@ =~= (GameView { cursor: (x as int, y as int), ..old(self)@ }));
        }
        Ok(())
    }

    pub fn width(&self) -> (r: u8)
        ensures
            r as int == self@.width,
    {
        self.width
    }

    pub fn height(&self) -> (r: u8)
        ensures
            r as int == self@.height,
    {
        self.height
    }

    pub fn number_of_mines(&self) -> (r: u8)
        ensures
            r as int == self@.number_of_mines,
    {
        self.number_of_mines
    }

    pub fn game_over(&self) -> (r: bool)
        ensures
            r == self@.game_over,
    {
        self.game_over
    }

    pub fn win(&self) -> (r: bool)
        ensures
            r == self@.win,
    {
        self.win
    }

    pub fn cursor(&self) -> (r: (u8, u8))
        ensures
            r.0 as int == self@.cursor.0,
            r.1 as int == self@.cursor.1,
    {
        self.cursor
    }

    /// The classification of a cell as the driver renders it.
    pub fn cell(&self, x: u8, y: u8) -> (r: Result<Cell, GameError>)
        requires
            self.wf(),
        ensures
            in_bounds(self@.width, self@.height, x as int, y as int) ==> (r matches Ok(c) && c
                == cell_at(self@.width, self@.board, x as int, y as int)),
            !in_bounds(self@.width, self@.height, x as int, y as int) ==> (r matches Err(e) && e
                == GameError::OutOfBounds),
    {
        if x >= self.width || y >= self.height {
            return Err(GameError::OutOfBounds);
        }
        proof {
            lemma_idx_bounds(self@.width, self@.height, x as int, y as int);
        }
        Ok(self.board[(y as usize) * (self.width as usize) + (x as usize)])
    }

    pub fn is_revealed(&self, x: u8, y: u8) -> (r: Result<bool, GameError>)
        requires
            self.wf(),
        ensures
            in_bounds(self@.width, self@.height, x as int, y as int) ==> (r matches Ok(b) && b
                == bool_at(self@.width, self@.revealed, x as int, y as int)),
            !in_bounds(self@.width, self@.height, x as int, y as int) ==> (r matches Err(e) && e
                == GameError::OutOfBounds),
    {
        if x >= self.width || y >= self.height {
            return Err(GameError::OutOfBounds);
        }
        proof {
            lemma_idx_bounds(self@.width, self@.height, x as int, y as int);
        }
        Ok(self.revealed[(y as usize) * (self.width as usize) + (x as usize)])
    }

    pub fn is_flagged(&self, x: u8, y: u8) -> (r: Result<bool, GameError>)
        requires
            self.wf(),
        ensures
            in_bounds(self@.width, self@.height, x as int, y as int) ==> (r matches Ok(b) && b
                == bool_at(self@.width, self@.flagged, x as int, y as int)),
            !in_bounds(self@.width, self@.height, x as int, y as int) ==> (r matches Err(e) && e
                == GameError::OutOfBounds),
    {
        if x >= self.width || y >= self.height {
            return Err(GameError::OutOfBounds);
        }
        proof {
            lemma_idx_bounds(self@.width, self@.height, x as int, y as int);
        }
        Ok(self.flagged[(y as usize) * (self.width as usize) + (x as usize)])
    }
}

} // verus!
