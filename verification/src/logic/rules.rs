//! The rules of the board as mathematics: what a board is, and what each action makes of it.

use crate::logic::board::{CellInfo, CellState, ConfigError};
use crate::utils::grid::{
    grid_with, has_shape, inverted, is_countable, is_marked, lemma_mark_one, lemma_marked_and_free,
    lemma_marked_points, lemma_none_marked, lemma_same_points_same_len, marked_points,
    uniform_grid,
};
use crate::utils::neighbors::{
    adjacent, col_offset, in_grid, lemma_neighbor_seq, neighbor_seq, neighbors_from, row_offset,
};
use crate::utils::Point;
use vstd::prelude::*;

verus! {

/// What an action on the board comes to.
pub enum Outcome {
    /// The round goes on; `cells` are the cells that changed, in the order in which they did.
    Success { cells: Seq<CellInfo> },
    /// A mine was opened: all mines, the one that was hit, and the flags that mark no mine.
    Over { mines: Seq<Point>, mine: Point, wrong_flags: Seq<Point> },
    /// Every cell that the round asks for is open.
    Win { mines: Seq<Point> },
}

/// A board as plain values. The two counter grids of the executable board are left out:
/// a well-formed board holds in them what `mines_around` and `flags_around` say.
pub struct BoardView {
    pub rows: int,
    pub cols: int,
    pub mines: int,
    pub mine: Seq<Seq<bool>>,
    pub cell: Seq<Seq<CellState>>,
    pub n_open: int,
    pub is_first_op: bool,
    pub is_over: bool,
}

/// One if `b` holds, else zero.
pub open spec fn one_if(b: bool) -> int {
    if b {
        1
    } else {
        0
    }
}

/// Why a board of these measures cannot be made, if it cannot.
pub open spec fn config_error(rows: int, cols: int, mines: int) -> Option<ConfigError> {
    if rows <= 0 || cols <= 0 {
        Some(ConfigError::EmptyGrid)
    } else if rows * cols > usize::MAX {
        Some(ConfigError::GridTooLarge)
    } else if mines >= rows * cols {
        Some(ConfigError::TooManyMines)
    } else {
        None
    }
}

impl BoardView {
    /// The board at the start of a round: all cells closed, no mine placed.
    pub open spec fn fresh(rows: int, cols: int, mines: int) -> BoardView {
        BoardView {
            rows,
            cols,
            mines,
            mine: uniform_grid(rows, cols, false),
            cell: uniform_grid(rows, cols, CellState::Closed),
            n_open: 0,
            is_first_op: true,
            is_over: false,
        }
    }

    /// `(r, c)` is a cell of the board.
    pub open spec fn inside(self, r: int, c: int) -> bool {
        in_grid(r, c, self.rows, self.cols)
    }

    /// `(r, c)` is a cell of the board and holds a mine.
    pub open spec fn has_mine(self, r: int, c: int) -> bool {
        self.inside(r, c) && self.mine[r][c]
    }

    /// `(r, c)` is a cell of the board and carries a flag.
    pub open spec fn has_flag(self, r: int, c: int) -> bool {
        self.inside(r, c) && self.cell[r][c] == CellState::Flagged
    }

    /// How many of the cells around `(r, c)` hold a mine.
    pub open spec fn mines_around(self, r: int, c: int) -> int {
        one_if(self.has_mine(r - 1, c - 1)) + one_if(self.has_mine(r - 1, c)) + one_if(
            self.has_mine(r - 1, c + 1),
        ) + one_if(self.has_mine(r, c - 1)) + one_if(self.has_mine(r, c + 1)) + one_if(
            self.has_mine(r + 1, c - 1),
        ) + one_if(self.has_mine(r + 1, c)) + one_if(self.has_mine(r + 1, c + 1))
    }

    /// How many of the cells around `(r, c)` carry a flag.
    pub open spec fn flags_around(self, r: int, c: int) -> int {
        one_if(self.has_flag(r - 1, c - 1)) + one_if(self.has_flag(r - 1, c)) + one_if(
            self.has_flag(r - 1, c + 1),
        ) + one_if(self.has_flag(r, c - 1)) + one_if(self.has_flag(r, c + 1)) + one_if(
            self.has_flag(r + 1, c - 1),
        ) + one_if(self.has_flag(r + 1, c)) + one_if(self.has_flag(r + 1, c + 1))
    }

    /// The number of open cells at which the round is won.
    pub open spec fn threshold(self) -> int {
        self.rows * self.cols - self.mines
    }

    /// The round is won: as many cells are open as the round asks for.
    pub open spec fn is_win(self) -> bool {
        self.n_open == self.threshold()
    }

    /// `(r, c)` is the first cell opened, or next to it: no mine may be placed there.
    pub open spec fn in_safe_zone(first_r: int, first_c: int, r: int, c: int) -> bool {
        (r == first_r && c == first_c) || adjacent(first_r, first_c, r, c)
    }

    /// The board holds together: its measures fit a machine word and leave a cell without
    /// a mine, its grids have its shape, the number of opened cells is the number of cells
    /// that are open and is not beyond what the round asks for, a round that is won is
    /// over, an opened cell holds no mine and shows the number of mines around it, and
    /// before the first opening no mine is placed.
    pub open spec fn wf(self) -> bool {
        &&& 0 < self.rows <= usize::MAX
        &&& 0 < self.cols <= usize::MAX
        &&& self.rows * self.cols <= usize::MAX
        &&& 0 <= self.mines < self.rows * self.cols
        &&& has_shape(self.mine, self.rows, self.cols)
        &&& has_shape(self.cell, self.rows, self.cols)
        &&& 0 <= self.n_open <= self.threshold()
        &&& self.n_open == self.opened_points().len()
        &&& self.is_win() ==> self.is_over
        &&& forall|r: int, c: int|
            self.inside(r, c) ==> (match #[trigger] self.cell[r][c] {
                CellState::Opened { a_mines } => !self.is_first_op && !self.mine[r][c] && a_mines
                    == self.mines_around(r, c),
                _ => true,
            })
        &&& self.is_first_op ==> self.n_open == 0 && forall|r: int, c: int|
            self.inside(r, c) ==> !#[trigger] self.mine[r][c]
    }

    /// Marks the opened cells.
    pub open spec fn opened_grid(self) -> Seq<Seq<bool>> {
        Seq::new(
            self.cell.len(),
            |r: int| Seq::new(self.cell[r].len(), |c: int| self.cell[r][c] is Opened),
        )
    }

    /// The opened cells, in row-major order.
    pub open spec fn opened_points(self) -> Seq<Point> {
        marked_points(self.opened_grid())
    }

    /// All mines, in row-major order.
    pub open spec fn mine_points(self) -> Seq<Point> {
        marked_points(self.mine)
    }

    /// Marks the cells that carry a flag and hold no mine.
    pub open spec fn wrong_flag_grid(self) -> Seq<Seq<bool>> {
        Seq::new(
            self.cell.len(),
            |r: int|
                Seq::new(
                    self.cell[r].len(),
                    |c: int| self.cell[r][c] == CellState::Flagged && !self.mine[r][c],
                ),
        )
    }

    /// The flags that mark no mine, in row-major order.
    pub open spec fn wrong_flags(self) -> Seq<Point> {
        marked_points(self.wrong_flag_grid())
    }

    /// The cells in which a mine may lie when `(first_r, first_c)` is opened first: all but
    /// that cell and the cells around it, in row-major order.
    pub open spec fn candidates(self, first_r: int, first_c: int) -> Seq<Point> {
        marked_points(eligible_grid(self.rows, self.cols, first_r, first_c))
    }

    /// The action at `(x, y)` is the first opening of the round: it places the mines.
    pub open spec fn places_mines(self, x: int, y: int, is_flag: bool) -> bool {
        &&& self.is_first_op
        &&& !self.is_over
        &&& !is_flag
        &&& self.inside(x, y)
        &&& self.cell[x][y] == CellState::Closed
    }

    /// The board once the mines lie as `mine` says.
    pub open spec fn with_mines(self, mine: Seq<Seq<bool>>) -> BoardView {
        BoardView { mine, is_first_op: false, ..self }
    }

    /// The board with one cell changed.
    pub open spec fn with_cell(self, r: int, c: int, state: CellState) -> BoardView {
        BoardView { cell: grid_with(self.cell, r, c, state), ..self }
    }

    /// The board after the closed, mine-free cell `(r, c)` was opened. This ends the round
    /// when it was the last cell that the round asks for.
    pub open spec fn opened(self, r: int, c: int) -> BoardView {
        BoardView {
            cell: grid_with(
                self.cell,
                r,
                c,
                CellState::Opened { a_mines: self.mines_around(r, c) as u8 },
            ),
            n_open: self.n_open + 1,
            is_over: self.n_open + 1 == self.threshold(),
            ..self
        }
    }

    /// The board after the round has ended.
    pub open spec fn ended(self) -> BoardView {
        BoardView { is_over: true, ..self }
    }

    /// Opens the cells of `pending`, a stack whose top is its last entry, one after the other.
    ///
    /// A cell that is not closed is passed over. A closed cell with a mine ends the round as
    /// lost. Any other closed cell is opened; if that was the last cell that the round asks
    /// for, the round is won; if no mine lies around the cell, the cells around it are put on
    /// the stack, the first of them on top. `cells` holds what has been opened so far.
    pub open spec fn cascade(self, pending: Seq<(usize, usize)>, cells: Seq<CellInfo>) -> (
        BoardView,
        Outcome,
    )
        decreases self.threshold() - self.n_open, pending.len(),
    {
        if self.is_over || self.n_open >= self.threshold() || pending.len() == 0 {
            (self, Outcome::Success { cells })
        } else {
            let p = pending.last();
            let rest = pending.drop_last();
            let r = p.0 as int;
            let c = p.1 as int;
            if !self.inside(r, c) || self.cell[r][c] != CellState::Closed {
                self.cascade(rest, cells)
            } else if self.mine[r][c] {
                let end = self.ended();
                (
                    end,
                    Outcome::Over {
                        mines: end.mine_points(),
                        mine: Point { x: p.0, y: p.1 },
                        wrong_flags: end.wrong_flags(),
                    },
                )
            } else {
                let next = self.opened(r, c);
                if next.is_win() {
                    (next, Outcome::Win { mines: next.mine_points() })
                } else {
                    let info = CellInfo { x: p.0, y: p.1, status: next.cell[r][c] };
                    let around = if self.mines_around(r, c) == 0 {
                        neighbor_seq(r, c, self.rows, self.cols).reverse()
                    } else {
                        Seq::empty()
                    };
                    next.cascade(rest + around, cells.push(info))
                }
            }
        }
    }

    /// What the action at `(x, y)` makes of a board whose mines are placed, or on which the
    /// action places none: the board afterwards and the outcome.
    ///
    /// Nothing happens once the round is over, or outside the grid. A flagged cell loses its
    /// flag, whatever the action. A closed cell gets a flag or is opened, with all that
    /// follows from it. An opened cell ignores a flag; an open request on it opens the cells
    /// around it if as many of them are flagged as hold a mine, and does nothing otherwise.
    pub open spec fn apply(self, x: int, y: int, is_flag: bool) -> (BoardView, Outcome) {
        if self.is_over || !self.inside(x, y) {
            (self, Outcome::Success { cells: Seq::empty() })
        } else {
            match self.cell[x][y] {
                CellState::Flagged => (
                    self.with_cell(x, y, CellState::Closed),
                    Outcome::Success {
                        cells: seq![
                            CellInfo { x: x as usize, y: y as usize, status: CellState::Closed },
                        ],
                    },
                ),
                CellState::Closed => if is_flag {
                    (
                        self.with_cell(x, y, CellState::Flagged),
                        Outcome::Success {
                            cells: seq![
                                CellInfo {
                                    x: x as usize,
                                    y: y as usize,
                                    status: CellState::Flagged,
                                },
                            ],
                        },
                    )
                } else {
                    self.cascade(seq![(x as usize, y as usize)], Seq::empty())
                },
                CellState::Opened { a_mines } => if !is_flag && self.flags_around(x, y)
                    == self.mines_around(x, y) {
                    self.cascade(neighbor_seq(x, y, self.rows, self.cols).reverse(), Seq::empty())
                } else {
                    (self, Outcome::Success { cells: Seq::empty() })
                },
            }
        }
    }
}

/// Changing the state of one cell leaves every mine counter as it is, and moves the flag
/// counter of the cells around it by one if the change sets or takes a flag.
pub proof fn lemma_cell_change_counts(b: BoardView, x: int, y: int, state: CellState, r: int, c: int)
    requires
        has_shape(b.cell, b.rows, b.cols),
        b.inside(x, y),
    ensures
        b.with_cell(x, y, state).mines_around(r, c) == b.mines_around(r, c),
        b.with_cell(x, y, state).flags_around(r, c) == b.flags_around(r, c) + (if adjacent(
            x,
            y,
            r,
            c,
        ) {
            one_if(state == CellState::Flagged) - one_if(b.cell[x][y] == CellState::Flagged)
        } else {
            0
        }),
{
    let n = b.with_cell(x, y, state);
    assert forall|i: int, j: int| n.has_flag(i, j) == (if i == x && j == y {
        state == CellState::Flagged
    } else {
        b.has_flag(i, j)
    }) by {}
    assert forall|i: int, j: int| n.has_mine(i, j) == b.has_mine(i, j) by {}
}

/// Opening a closed cell leaves every counter as it is.
pub proof fn lemma_open_counts(b: BoardView, x: int, y: int, r: int, c: int)
    requires
        has_shape(b.cell, b.rows, b.cols),
        b.inside(x, y),
        b.cell[x][y] == CellState::Closed,
    ensures
        b.opened(x, y).mines_around(r, c) == b.mines_around(r, c),
        b.opened(x, y).flags_around(r, c) == b.flags_around(r, c),
{
    let n = b.opened(x, y);
    assert forall|i: int, j: int| n.has_flag(i, j) == b.has_flag(i, j) by {}
    assert forall|i: int, j: int| n.has_mine(i, j) == b.has_mine(i, j) by {}
}

/// The grid of the given shape that marks the cells listed in `cells`.
pub open spec fn laid(cells: Seq<Point>, rows: int, cols: int) -> Seq<Seq<bool>> {
    Seq::new(
        rows as nat,
        |r: int|
            Seq::new(cols as nat, |c: int| cells.contains(Point { x: r as usize, y: c as usize })),
    )
}

/// Marks the cells in which a mine may lie when `(first_r, first_c)` is opened first.
pub open spec fn eligible_grid(rows: int, cols: int, first_r: int, first_c: int) -> Seq<Seq<bool>> {
    Seq::new(
        rows as nat,
        |r: int| Seq::new(cols as nat, |c: int| !BoardView::in_safe_zone(first_r, first_c, r, c)),
    )
}

/// Listing one more cell marks that cell, if it lies in the grid, and changes nothing else.
pub proof fn lemma_laid_step(cells: Seq<Point>, i: int, rows: int, cols: int)
    requires
        0 <= i < cells.len(),
        0 <= rows <= usize::MAX,
        0 <= cols <= usize::MAX,
    ensures
        laid(cells.take(i + 1), rows, cols) == (if in_grid(
            cells[i].x as int,
            cells[i].y as int,
            rows,
            cols,
        ) {
            grid_with(laid(cells.take(i), rows, cols), cells[i].x as int, cells[i].y as int, true)
        } else {
            laid(cells.take(i), rows, cols)
        }),
{
    let short = cells.take(i);
    let long = cells.take(i + 1);
    assert forall|p: Point| long.contains(p) <==> short.contains(p) || p == cells[i] by {
        if long.contains(p) {
            let j = choose|j: int| 0 <= j < long.len() && long[j] == p;
            if j < i {
                assert(short[j] == p);
            }
        }
        if short.contains(p) {
            let j = choose|j: int| 0 <= j < short.len() && short[j] == p;
            assert(long[j] == p);
        }
        if p == cells[i] {
            assert(long[i] == p);
        }
    }
    let target = if in_grid(cells[i].x as int, cells[i].y as int, rows, cols) {
        grid_with(laid(short, rows, cols), cells[i].x as int, cells[i].y as int, true)
    } else {
        laid(short, rows, cols)
    };
    assert(laid(long, rows, cols).len() == target.len());
    assert forall|r: int| 0 <= r < rows implies #[trigger] laid(long, rows, cols)[r] =~= target[r] by {
        assert forall|c: int| 0 <= c < cols implies laid(long, rows, cols)[r][c] == target[r][c] by {
            let p = Point { x: r as usize, y: c as usize };
            assert(long.contains(p) <==> short.contains(p) || p == cells[i]);
        }
    }
    assert(laid(long, rows, cols) =~= target);
}

/// A mine laid in a free cell raises the mine counter of each cell around it by one and
/// changes no other counter.
pub proof fn lemma_mine_counts(b: BoardView, x: int, y: int, r: int, c: int)
    requires
        has_shape(b.mine, b.rows, b.cols),
        b.inside(x, y),
        !b.mine[x][y],
    ensures
        (BoardView { mine: grid_with(b.mine, x, y, true), ..b }).mines_around(r, c)
            == b.mines_around(r, c) + one_if(adjacent(x, y, r, c)),
        (BoardView { mine: grid_with(b.mine, x, y, true), ..b }).flags_around(r, c)
            == b.flags_around(r, c),
{
    let n = BoardView { mine: grid_with(b.mine, x, y, true), ..b };
    assert forall|i: int, j: int| n.has_mine(i, j) == (if i == x && j == y {
        true
    } else {
        b.has_mine(i, j)
    }) by {}
    assert forall|i: int, j: int| n.has_flag(i, j) == b.has_flag(i, j) by {}
}

/// A rearrangement of a list without repeats has no repeats either, and holds the same
/// entries.
pub proof fn lemma_rearranged(a: Seq<Point>, b: Seq<Point>)
    requires
        a.no_duplicates(),
        a.to_multiset() == b.to_multiset(),
    ensures
        b.no_duplicates(),
        a.len() == b.len(),
        forall|p: Point| a.contains(p) <==> b.contains(p),
{
    vstd::seq_lib::to_multiset_len(a);
    vstd::seq_lib::to_multiset_len(b);
    a.lemma_multiset_has_no_duplicates();
    b.lemma_multiset_has_no_duplicates_conv();
    assert forall|p: Point| a.contains(p) <==> b.contains(p) by {
        vstd::seq_lib::to_multiset_contains(a, p);
        vstd::seq_lib::to_multiset_contains(b, p);
    }
}

/// Mines laid on distinct cells of the grid are as many as those cells.
pub proof fn lemma_laid_count(cells: Seq<Point>, rows: int, cols: int)
    requires
        0 <= rows <= usize::MAX,
        0 <= cols <= usize::MAX,
        cells.no_duplicates(),
        forall|i: int|
            0 <= i < cells.len() ==> in_grid(
                (#[trigger] cells[i]).x as int,
                cells[i].y as int,
                rows,
                cols,
            ),
    ensures
        marked_points(laid(cells, rows, cols)).len() == cells.len(),
{
    let grid = laid(cells, rows, cols);
    let listed = marked_points(grid);
    lemma_marked_points(grid);
    assert forall|p: Point| listed.contains(p) <==> cells.contains(p) by {
        if cells.contains(p) {
            let i = choose|i: int| 0 <= i < cells.len() && cells[i] == p;
            assert(in_grid(cells[i].x as int, cells[i].y as int, rows, cols));
            assert(Point { x: p.x as int as usize, y: p.y as int as usize } == p);
            assert(is_marked(grid, p));
        }
        if listed.contains(p) {
            assert(is_marked(grid, p));
            assert(Point { x: p.x as int as usize, y: p.y as int as usize } == p);
        }
    }
    assert(listed.to_set() =~= cells.to_set());
    listed.unique_seq_to_set();
    cells.unique_seq_to_set();
}

/// `after` and `outcome` are what the action at `(x, y)` can make of the board `before`.
///
/// Where the action is the first opening of the round, the mines of `after` are placed
/// first: none on the opened cell or around it, and as many as the round is played
/// with, or as there are cells outside that zone if those are fewer. From there on, and
/// for every other action, `BoardView::apply` fixes the result.
pub open spec fn board_step(
    before: BoardView,
    x: int,
    y: int,
    is_flag: bool,
    after: BoardView,
    outcome: Outcome,
) -> bool {
    let first = before.places_mines(x, y, is_flag);
    let start = if first {
        before.with_mines(after.mine)
    } else {
        before
    };
    &&& (after, outcome) == start.apply(x, y, is_flag)
    &&& after.rows == before.rows
    &&& after.cols == before.cols
    &&& after.mines == before.mines
    &&& after.mine == start.mine
    &&& has_shape(after.mine, before.rows, before.cols)
    &&& after.n_open >= before.n_open
    &&& first ==> after.mine_points().len() == vstd::math::min(
        before.mines,
        before.candidates(x, y).len() as int,
    )
    &&& first ==> forall|r: int, c: int|
        after.has_mine(r, c) ==> !BoardView::in_safe_zone(x, y, r, c)
}

/// Once a round is over, no action changes the board or reports a cell.
pub proof fn lemma_finished_round_is_void(b: BoardView, x: int, y: int, is_flag: bool)
    requires
        b.is_over,
    ensures
        b.apply(x, y, is_flag) == (b, Outcome::Success { cells: Seq::empty() }),
        forall|after: BoardView, outcome: Outcome| #[trigger]
            board_step(b, x, y, is_flag, after, outcome) ==> after == b && outcome
                == (Outcome::Success { cells: Seq::<CellInfo>::empty() }),
{
}

/// A cell around which no mine lies has no mine in any of the cells listed around it.
pub proof fn lemma_zero_means_clear(b: BoardView, r: int, c: int)
    requires
        b.wf(),
        b.inside(r, c),
        b.mines_around(r, c) == 0,
    ensures
        forall|i: int|
            0 <= i < neighbor_seq(r, c, b.rows, b.cols).len() ==> !b.has_mine(
                (#[trigger] neighbor_seq(r, c, b.rows, b.cols)[i]).0 as int,
                neighbor_seq(r, c, b.rows, b.cols)[i].1 as int,
            ),
{
    lemma_neighbor_seq(r, c, b.rows, b.cols);
    let around = neighbor_seq(r, c, b.rows, b.cols);
    assert forall|i: int| 0 <= i < around.len() implies !b.has_mine(
        (#[trigger] around[i]).0 as int,
        around[i].1 as int,
    ) by {
        let p = around[i];
        assert(adjacent(r, c, p.0 as int, p.1 as int));
    }
}

/// Opening cells that hold no mine never loses the round, whatever follows from them:
/// what follows are cells around a cell that has no mine around it.
pub proof fn lemma_cascade_never_loses(b: BoardView, pending: Seq<(usize, usize)>, cells: Seq<CellInfo>)
    requires
        b.wf(),
        !b.is_first_op,
        forall|i: int|
            0 <= i < pending.len() ==> !b.has_mine(
                (#[trigger] pending[i]).0 as int,
                pending[i].1 as int,
            ),
    ensures
        !(b.cascade(pending, cells).1 is Over),
    decreases b.threshold() - b.n_open, pending.len(),
{
    if b.is_over || b.n_open >= b.threshold() || pending.len() == 0 {
    } else {
        let p = pending.last();
        let rest = pending.drop_last();
        let r = p.0 as int;
        let c = p.1 as int;
        assert forall|i: int| 0 <= i < rest.len() implies !b.has_mine(
            (#[trigger] rest[i]).0 as int,
            rest[i].1 as int,
        ) by {
            assert(rest[i] == pending[i]);
        }
        if !b.inside(r, c) || b.cell[r][c] != CellState::Closed {
            lemma_cascade_never_loses(b, rest, cells);
        } else {
            assert(!b.has_mine(r, c));
            let next = b.opened(r, c);
            if !next.is_win() {
                let info = CellInfo { x: p.0, y: p.1, status: next.cell[r][c] };
                let around = if b.mines_around(r, c) == 0 {
                    neighbor_seq(r, c, b.rows, b.cols).reverse()
                } else {
                    Seq::empty()
                };
                lemma_opened_wf(b, r, c);
                assert forall|i: int| 0 <= i < (rest + around).len() implies !next.has_mine(
                    (#[trigger] (rest + around)[i]).0 as int,
                    (rest + around)[i].1 as int,
                ) by {
                    if i < rest.len() {
                        assert((rest + around)[i] == rest[i]);
                    } else {
                        lemma_zero_means_clear(b, r, c);
                        let listed = neighbor_seq(r, c, b.rows, b.cols);
                        let k = i - rest.len();
                        assert((rest + around)[i] == around[k]);
                        assert(around[k] == listed[listed.len() - 1 - k]);
                    }
                }
                lemma_cascade_never_loses(next, rest + around, cells.push(info));
            }
        }
    }
}

/// Opening a closed cell without a mine, on a board whose mines are placed and whose round
/// goes on, gives a well-formed board again.
pub proof fn lemma_opened_wf(b: BoardView, r: int, c: int)
    requires
        b.wf(),
        !b.is_first_op,
        !b.is_over,
        b.inside(r, c),
        b.cell[r][c] == CellState::Closed,
        !b.mine[r][c],
    ensures
        b.opened(r, c).wf(),
{
    let n = b.opened(r, c);
    assert forall|i: int, j: int| n.inside(i, j) implies (match #[trigger] n.cell[i][j] {
        CellState::Opened { a_mines } => !n.is_first_op && !n.mine[i][j] && a_mines
            == n.mines_around(i, j),
        _ => true,
    }) by {
        lemma_open_counts(b, r, c, i, j);
        assert(n.cell[i][j] == if i == r && j == c {
            CellState::Opened { a_mines: b.mines_around(r, c) as u8 }
        } else {
            b.cell[i][j]
        });
    }
    assert(n.opened_grid() =~~= grid_with(b.opened_grid(), r, c, true));
    lemma_mark_one(b.opened_grid(), r, c);
}

/// Setting a flag on a closed cell, or taking the flag from a flagged one, gives a
/// well-formed board again.
pub proof fn lemma_toggled_wf(b: BoardView, x: int, y: int, flag: bool)
    requires
        b.wf(),
        b.inside(x, y),
        b.cell[x][y] == (if flag {
            CellState::Closed
        } else {
            CellState::Flagged
        }),
    ensures
        b.with_cell(
            x,
            y,
            if flag {
                CellState::Flagged
            } else {
                CellState::Closed
            },
        ).wf(),
{
    let state = if flag {
        CellState::Flagged
    } else {
        CellState::Closed
    };
    let n = b.with_cell(x, y, state);
    assert forall|i: int, j: int| n.inside(i, j) implies (match #[trigger] n.cell[i][j] {
        CellState::Opened { a_mines } => !n.is_first_op && !n.mine[i][j] && a_mines
            == n.mines_around(i, j),
        _ => true,
    }) by {
        lemma_cell_change_counts(b, x, y, state, i, j);
        assert(n.cell[i][j] == if i == x && j == y {
            state
        } else {
            b.cell[i][j]
        });
    }
    assert(n.opened_grid() =~~= b.opened_grid());
}

/// Ending the round leaves the board well-formed.
pub proof fn lemma_ended_wf(b: BoardView)
    requires
        b.wf(),
    ensures
        b.ended().wf(),
{
    let n = b.ended();
    assert forall|i: int, j: int| n.inside(i, j) implies (match #[trigger] n.cell[i][j] {
        CellState::Opened { a_mines } => !n.is_first_op && !n.mine[i][j] && a_mines
            == n.mines_around(i, j),
        _ => true,
    }) by {
        assert(n.mines_around(i, j) == b.mines_around(i, j));
        assert(n.cell[i][j] == b.cell[i][j]);
    }
}

/// Placing mines on a board on which no cell has been opened leaves it well-formed.
pub proof fn lemma_with_mines_wf(b: BoardView, mine: Seq<Seq<bool>>)
    requires
        b.wf(),
        b.is_first_op,
        has_shape(mine, b.rows, b.cols),
    ensures
        b.with_mines(mine).wf(),
{
    let n = b.with_mines(mine);
    assert forall|i: int, j: int| n.inside(i, j) implies (match #[trigger] n.cell[i][j] {
        CellState::Opened { a_mines } => !n.is_first_op && !n.mine[i][j] && a_mines
            == n.mines_around(i, j),
        _ => true,
    }) by {
        assert(n.cell[i][j] == b.cell[i][j]);
    }
}

/// A new board is well-formed.
pub proof fn lemma_fresh_wf(rows: int, cols: int, mines: int)
    requires
        config_error(rows, cols, mines).is_none(),
        0 <= mines,
    ensures
        BoardView::fresh(rows, cols, mines).wf(),
{
    let n = BoardView::fresh(rows, cols, mines);
    let g = n.opened_grid();
    assert(rows <= rows * cols && cols <= rows * cols) by (nonlinear_arith)
        requires
            rows >= 1,
            cols >= 1,
    ;
    assert(g.len() == rows);
    assert forall|r: int| 0 <= r < g.len() implies (#[trigger] g[r]).len() <= usize::MAX by {
        assert(g[r].len() == cols);
    }
    lemma_none_marked(g);
    assert forall|i: int, j: int| n.inside(i, j) implies (match #[trigger] n.cell[i][j] {
        CellState::Opened { a_mines } => false,
        _ => true,
    }) by {}
}

/// The first opening of a round never loses it, and leaves no mine on the opened cell or
/// around it, wherever the mines were placed.
pub proof fn lemma_first_open_is_safe(
    b: BoardView,
    x: int,
    y: int,
    after: BoardView,
    outcome: Outcome,
)
    requires
        b.wf(),
        b.places_mines(x, y, false),
        board_step(b, x, y, false, after, outcome),
    ensures
        !(outcome is Over),
        forall|r: int, c: int|
            BoardView::in_safe_zone(x, y, r, c) ==> !after.has_mine(r, c),
{
    let start = b.with_mines(after.mine);
    lemma_with_mines_wf(b, after.mine);
    let pending = seq![(x as usize, y as usize)];
    assert(!after.has_mine(x, y));
    assert forall|i: int| 0 <= i < pending.len() implies !start.has_mine(
        (#[trigger] pending[i]).0 as int,
        pending[i].1 as int,
    ) by {}
    lemma_cascade_never_loses(start, pending, Seq::empty());
}

/// How many of the listed cells hold a mine.
pub open spec fn mines_among(b: BoardView, cells: Seq<(usize, usize)>) -> int
    decreases cells.len(),
{
    if cells.len() == 0 {
        0
    } else {
        one_if(b.has_mine(cells[0].0 as int, cells[0].1 as int)) + mines_among(
            b,
            cells.drop_first(),
        )
    }
}

/// How many of the cells around `(r, c)` in the directions `k..8` hold a mine.
pub open spec fn mines_from(b: BoardView, r: int, c: int, k: int) -> int
    decreases 8 - k,
{
    if k < 0 || k >= 8 {
        0
    } else {
        one_if(b.has_mine(r + row_offset(k), c + col_offset(k))) + mines_from(b, r, c, k + 1)
    }
}

proof fn lemma_mines_from(b: BoardView, r: int, c: int, k: int)
    requires
        b.wf(),
        0 <= k <= 8,
    ensures
        mines_among(b, neighbors_from(r, c, b.rows, b.cols, k)) == mines_from(b, r, c, k),
    decreases 8 - k,
{
    if k < 8 {
        lemma_mines_from(b, r, c, k + 1);
        let rest = neighbors_from(r, c, b.rows, b.cols, k + 1);
        let r0 = r + row_offset(k);
        let c0 = c + col_offset(k);
        if in_grid(r0, c0, b.rows, b.cols) {
            let s = seq![(r0 as usize, c0 as usize)] + rest;
            assert(s.drop_first() =~= rest);
            assert(s[0] == (r0 as usize, c0 as usize));
        }
    }
}

/// The number that a mine counter holds is the number of mines in the cells that are
/// listed around its cell.
pub proof fn lemma_mines_around_lists_neighbors(b: BoardView, r: int, c: int)
    requires
        b.wf(),
    ensures
        b.mines_around(r, c) == mines_among(b, neighbor_seq(r, c, b.rows, b.cols)),
{
    lemma_mines_from(b, r, c, 0);
    reveal_with_fuel(mines_from, 9);
}

/// Where as many mines lie on the board as the round is played with, the round is won
/// exactly when every cell without a mine is open.
pub proof fn lemma_won_when_all_safe_cells_are_open(b: BoardView)
    requires
        b.wf(),
        b.mine_points().len() == b.mines,
    ensures
        b.is_win() <==> forall|r: int, c: int|
            b.inside(r, c) && !b.mine[r][c] ==> #[trigger] b.cell[r][c] is Opened,
{
    let open_grid = b.opened_grid();
    let safe_grid = inverted(b.mine);
    let open = marked_points(open_grid);
    let safe = marked_points(safe_grid);
    assert(is_countable(open_grid)) by {
        assert forall|r: int| 0 <= r < open_grid.len() implies (#[trigger] open_grid[r]).len()
            <= usize::MAX by {
            assert(open_grid[r].len() == b.cell[r].len());
        }
    }
    assert(is_countable(safe_grid)) by {
        assert forall|r: int| 0 <= r < safe_grid.len() implies (#[trigger] safe_grid[r]).len()
            <= usize::MAX by {
            assert(safe_grid[r].len() == b.mine[r].len());
        }
    }
    lemma_marked_points(open_grid);
    lemma_marked_points(safe_grid);
    lemma_marked_and_free(b.mine, b.rows, b.cols);
    assert(safe.len() == b.threshold());
    assert forall|p: Point| open.contains(p) implies safe.contains(p) by {
        assert(is_marked(open_grid, p));
        assert(b.inside(p.x as int, p.y as int));
        let state = b.cell[p.x as int][p.y as int];
        assert(state is Opened);
        assert(!b.mine[p.x as int][p.y as int]);
        assert(is_marked(safe_grid, p));
    }
    if b.is_win() {
        open.unique_seq_to_set();
        safe.unique_seq_to_set();
        vstd::seq_lib::seq_to_set_is_finite(open);
        vstd::seq_lib::seq_to_set_is_finite(safe);
        assert(open.to_set().subset_of(safe.to_set()));
        vstd::set_lib::lemma_subset_equality(open.to_set(), safe.to_set());
        assert forall|r: int, c: int| b.inside(r, c) && !b.mine[r][c] implies #[trigger] b.cell[r][c] is Opened by {
            let p = Point { x: r as usize, y: c as usize };
            assert(is_marked(safe_grid, p));
            assert(safe.contains(p));
            assert(safe.to_set().contains(p));
            assert(open.to_set().contains(p));
            assert(open.contains(p));
            assert(is_marked(open_grid, p));
        }
    }
    if forall|r: int, c: int| b.inside(r, c) && !b.mine[r][c] ==> #[trigger] b.cell[r][c] is Opened {
        assert forall|p: Point| safe.contains(p) implies open.contains(p) by {
            assert(is_marked(safe_grid, p));
            assert(b.inside(p.x as int, p.y as int));
            assert(b.cell[p.x as int][p.y as int] is Opened);
            assert(is_marked(open_grid, p));
        }
        lemma_same_points_same_len(open, safe);
    }
}

/// Marks the first cell opened and the cells around it.
pub open spec fn zone_grid(rows: int, cols: int, first_r: int, first_c: int) -> Seq<Seq<bool>> {
    Seq::new(
        rows as nat,
        |r: int| Seq::new(cols as nat, |c: int| BoardView::in_safe_zone(first_r, first_c, r, c)),
    )
}

/// A mine may lie in every cell but the first cell opened and the cells around it: in all
/// cells but nine at most.
pub proof fn lemma_candidates_count(b: BoardView, x: int, y: int)
    requires
        b.wf(),
        b.inside(x, y),
    ensures
        b.candidates(x, y).len() == b.rows * b.cols - 1 - neighbor_seq(
            x,
            y,
            b.rows,
            b.cols,
        ).len(),
        b.candidates(x, y).len() >= b.rows * b.cols - 9,
{
    let zone = zone_grid(b.rows, b.cols, x, y);
    let eligible = eligible_grid(b.rows, b.cols, x, y);
    let around = neighbor_seq(x, y, b.rows, b.cols);
    let listed = marked_points(zone);
    let first = Point { x: x as usize, y: y as usize };
    let named = seq![first] + around.map_values(|p: (usize, usize)| Point { x: p.0, y: p.1 });
    assert(eligible =~~= inverted(zone));
    lemma_marked_and_free(zone, b.rows, b.cols);
    assert(is_countable(zone)) by {
        assert forall|r: int| 0 <= r < zone.len() implies (#[trigger] zone[r]).len()
            <= usize::MAX by {
            assert(zone[r].len() == b.cols);
        }
    }
    lemma_marked_points(zone);
    lemma_neighbor_seq(x, y, b.rows, b.cols);
    assert(named.len() == 1 + around.len());
    assert forall|i: int| 0 < i < named.len() implies named[i] == (Point {
        x: around[i - 1].0,
        y: around[i - 1].1,
    }) by {}
    assert(named.no_duplicates()) by {
        assert forall|i: int, j: int|
            0 <= i < named.len() && 0 <= j < named.len() && i != j implies named[i]
            != named[j] by {
            if i > 0 && j > 0 {
                assert(around[i - 1] != around[j - 1]);
            } else if i > 0 {
                assert(adjacent(x, y, around[i - 1].0 as int, around[i - 1].1 as int));
            } else {
                assert(adjacent(x, y, around[j - 1].0 as int, around[j - 1].1 as int));
            }
        }
    }
    assert forall|p: Point| named.contains(p) <==> listed.contains(p) by {
        if named.contains(p) {
            let i = choose|i: int| 0 <= i < named.len() && named[i] == p;
            if i > 0 {
                assert(adjacent(x, y, around[i - 1].0 as int, around[i - 1].1 as int));
                assert(in_grid(around[i - 1].0 as int, around[i - 1].1 as int, b.rows, b.cols));
            }
            assert(is_marked(zone, p));
        }
        if listed.contains(p) {
            assert(is_marked(zone, p));
            if p == first {
                assert(named[0] == p);
            } else {
                let q = (p.x, p.y);
                assert(adjacent(x, y, p.x as int, p.y as int));
                assert(around.contains(q));
                let k = choose|k: int| 0 <= k < around.len() && around[k] == q;
                assert(named[k + 1] == p);
            }
        }
    }
    lemma_same_points_same_len(named, listed);
}

/// Where the board has nine cells more than mines, the first opening of a round places
/// all mines of the round.
pub proof fn lemma_enough_room(b: BoardView, x: int, y: int, after: BoardView, outcome: Outcome)
    requires
        b.wf(),
        b.places_mines(x, y, false),
        b.mines + 9 <= b.rows * b.cols,
        board_step(b, x, y, false, after, outcome),
    ensures
        after.mine_points().len() == b.mines,
{
    lemma_candidates_count(b, x, y);
}

/// An open request on a closed cell, once the mines are placed, loses the round exactly
/// when the cell holds a mine.
pub proof fn lemma_open_loses_on_a_mine_only(b: BoardView, x: int, y: int)
    requires
        b.wf(),
        !b.is_first_op,
        !b.is_over,
        b.inside(x, y),
        b.cell[x][y] == CellState::Closed,
    ensures
        b.apply(x, y, false).1 is Over <==> b.mine[x][y],
{
    let pending = seq![(x as usize, y as usize)];
    assert(pending.last() == (x as usize, y as usize));
    if !b.mine[x][y] {
        assert forall|i: int| 0 <= i < pending.len() implies !b.has_mine(
            (#[trigger] pending[i]).0 as int,
            pending[i].1 as int,
        ) by {}
        lemma_cascade_never_loses(b, pending, Seq::empty());
    }
}

/// The reported cells account for every change of the board: each of them is a cell of
/// the board and is now in the state that is reported, none is reported twice, and every
/// cell that is not reported is in the state it was in.
pub open spec fn accounts_for(before: BoardView, after: BoardView, cells: Seq<CellInfo>) -> bool {
    &&& forall|i: int|
        0 <= i < cells.len() ==> before.inside(
            (#[trigger] cells[i]).x as int,
            cells[i].y as int,
        ) && after.cell[cells[i].x as int][cells[i].y as int] == cells[i].status
    &&& forall|i: int, j: int|
        0 <= i < j < cells.len() ==> (#[trigger] cells[i]).x != (#[trigger] cells[j]).x
            || cells[i].y != cells[j].y
    &&& forall|r: int, c: int|
        before.inside(r, c) && !is_reported(cells, r, c) ==> #[trigger] after.cell[r][c]
            == before.cell[r][c]
}

/// The cell `(r, c)` is among the reported cells.
pub open spec fn is_reported(cells: Seq<CellInfo>, r: int, c: int) -> bool {
    exists|i: int| 0 <= i < cells.len() && (#[trigger] cells[i]).x == r && cells[i].y == c
}

proof fn lemma_cascade_accounts(
    start: BoardView,
    b: BoardView,
    pending: Seq<(usize, usize)>,
    cells: Seq<CellInfo>,
)
    requires
        b.wf(),
        !b.is_first_op,
        start.rows == b.rows,
        start.cols == b.cols,
        accounts_for(start, b, cells),
        forall|i: int| 0 <= i < cells.len() ==> (#[trigger] cells[i]).status is Opened,
        b.cascade(pending, cells).1 is Success,
    ensures
        accounts_for(start, b.cascade(pending, cells).0, b.cascade(pending, cells).1->Success_cells),
    decreases b.threshold() - b.n_open, pending.len(),
{
    if b.is_over || b.n_open >= b.threshold() || pending.len() == 0 {
    } else {
        let p = pending.last();
        let rest = pending.drop_last();
        let r = p.0 as int;
        let c = p.1 as int;
        if !b.inside(r, c) || b.cell[r][c] != CellState::Closed {
            lemma_cascade_accounts(start, b, rest, cells);
        } else if !b.mine[r][c] {
            let next = b.opened(r, c);
            if !next.is_win() {
                let info = CellInfo { x: p.0, y: p.1, status: next.cell[r][c] };
                let around = if b.mines_around(r, c) == 0 {
                    neighbor_seq(r, c, b.rows, b.cols).reverse()
                } else {
                    Seq::empty()
                };
                let more = cells.push(info);
                lemma_opened_wf(b, r, c);
                assert forall|i: int| 0 <= i < cells.len() implies (#[trigger] cells[i]).x != r
                    || cells[i].y != c by {
                    assert(b.cell[cells[i].x as int][cells[i].y as int] == cells[i].status);
                }
                assert forall|i: int| 0 <= i < more.len() implies start.inside(
                    (#[trigger] more[i]).x as int,
                    more[i].y as int,
                ) && next.cell[more[i].x as int][more[i].y as int] == more[i].status by {
                    if i < cells.len() {
                        assert(more[i] == cells[i]);
                        assert(cells[i].x != r || cells[i].y != c);
                    }
                }
                assert forall|i: int, j: int| 0 <= i < j < more.len() implies (
                #[trigger] more[i]).x != (#[trigger] more[j]).x || more[i].y != more[j].y by {
                    assert(more[i] == cells[i]);
                    if j < cells.len() {
                        assert(more[j] == cells[j]);
                    } else {
                        assert(cells[i].x != r || cells[i].y != c);
                    }
                }
                assert forall|i: int, j: int|
                    start.inside(i, j) && !is_reported(more, i, j) implies #[trigger] next.cell[i][j]
                    == start.cell[i][j] by {
                    assert(more[cells.len() as int] == info);
                    assert(i != r || j != c);
                    if is_reported(cells, i, j) {
                        let k = choose|k: int|
                            0 <= k < cells.len() && (#[trigger] cells[k]).x == i && cells[k].y == j;
                        assert(more[k] == cells[k]);
                    }
                    assert(next.cell[i][j] == b.cell[i][j]);
                }
                assert forall|i: int| 0 <= i < more.len() implies (#[trigger] more[i]).status is Opened by {
                    if i < cells.len() {
                        assert(more[i] == cells[i]);
                    }
                }
                lemma_cascade_accounts(start, next, rest + around, more);
            }
        }
    }
}

/// Where an action lets the round go on, the cells it reports account for every change
/// of the board.
pub proof fn lemma_reported_cells_account_for_changes(
    b: BoardView,
    x: int,
    y: int,
    is_flag: bool,
    after: BoardView,
    outcome: Outcome,
)
    requires
        b.wf(),
        board_step(b, x, y, is_flag, after, outcome),
        outcome is Success,
    ensures
        accounts_for(b, after, outcome->Success_cells),
{
    let first = b.places_mines(x, y, is_flag);
    let start = if first {
        b.with_mines(after.mine)
    } else {
        b
    };
    if first {
        lemma_with_mines_wf(b, after.mine);
    }
    let none = Seq::<CellInfo>::empty();
    assert(accounts_for(start, start, none));
    if start.is_over || !start.inside(x, y) {
    } else {
        match start.cell[x][y] {
            CellState::Flagged => {
                let cells = seq![CellInfo { x: x as usize, y: y as usize, status: CellState::Closed }];
                assert forall|r: int, c: int|
                    b.inside(r, c) && !is_reported(cells, r, c) implies #[trigger] after.cell[r][c]
                    == b.cell[r][c] by {
                    assert(cells[0].x == x && cells[0].y == y);
                }
            },
            CellState::Closed => {
                if is_flag {
                    let cells = seq![
                        CellInfo { x: x as usize, y: y as usize, status: CellState::Flagged },
                    ];
                    assert forall|r: int, c: int|
                        b.inside(r, c) && !is_reported(cells, r, c) implies #[trigger] after.cell[r][c]
                        == b.cell[r][c] by {
                        assert(cells[0].x == x && cells[0].y == y);
                    }
                } else {
                    lemma_cascade_accounts(start, start, seq![(x as usize, y as usize)], none);
                }
            },
            CellState::Opened { a_mines } => {
                if !is_flag && start.flags_around(x, y) == start.mines_around(x, y) {
                    lemma_cascade_accounts(
                        start,
                        start,
                        neighbor_seq(x, y, start.rows, start.cols).reverse(),
                        none,
                    );
                }
            },
        }
    }
}

} // verus!
