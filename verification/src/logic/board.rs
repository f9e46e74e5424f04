//! The board engine: the grid of one round, mine placement, open and flag, cascade, win and loss.

use crate::logic::rules::{
    accounts_for, board_step, config_error, eligible_grid, laid, lemma_cell_change_counts,
    lemma_ended_wf, lemma_first_open_is_safe, lemma_fresh_wf, lemma_laid_count, lemma_laid_step,
    lemma_mine_counts, lemma_mines_around_lists_neighbors, lemma_open_counts, lemma_opened_wf,
    lemma_rearranged, lemma_reported_cells_account_for_changes, lemma_toggled_wf, mines_among,
    one_if, BoardView, Outcome,
};
use crate::utils::grid::{
    adjust_around, grid_view, grid_with, has_shape, is_marked, is_shaped, lemma_marked_points,
    list_marked, make_grid, set_cell,
};
use crate::utils::neighbors::{in_grid, neighbor_seq, shifted, Neighbors};
use crate::utils::Point;
use rand::seq::SliceRandom;
use vstd::prelude::*;

verus! {

/// The state of one cell. Exactly one holds at a time.
#[derive(Debug, Clone, Copy, PartialEq, Eq, Structural)]
pub enum CellState {
    /// Not opened, not flagged.
    Closed,
    /// Opened; `a_mines` is the number of mines around the cell.
    Opened { a_mines: u8 },
    /// Marked by a player as holding a mine.
    Flagged,
}

/// One cell and the state it is in now.
#[derive(Debug, Clone, Copy, PartialEq, Eq, Structural)]
pub struct CellInfo {
    pub x: usize,
    pub y: usize,
    pub status: CellState,
}

/// Why a board cannot be made.
#[derive(Debug, Clone, Copy, PartialEq, Eq, Structural)]
pub enum ConfigError {
    /// The grid has no row or no column.
    EmptyGrid,
    /// The number of cells does not fit the machine's word.
    GridTooLarge,
    /// There are at least as many mines as cells.
    TooManyMines,
}

/// What an action on the board came to.
#[derive(Debug, PartialEq, Eq)]
pub enum OpResult {
    /// The round goes on; `cells` are the cells that changed.
    Success { cells: Vec<CellInfo> },
    /// A mine was opened: all mines, the one that was hit, and the flags that mark no mine.
    Over { mines: Vec<Point>, mine: Point, wrong_flags: Vec<Point> },
    /// Every cell that the round asks for is open.
    Win { mines: Vec<Point> },
}

impl View for OpResult {
    type V = Outcome;

    open spec fn view(&self) -> Outcome {
        match *self {
            OpResult::Success { cells } => Outcome::Success { cells: cells@ },
            OpResult::Over { mines, mine, wrong_flags } => Outcome::Over {
                mines: mines@,
                mine,
                wrong_flags: wrong_flags@,
            },
            OpResult::Win { mines } => Outcome::Win { mines: mines@ },
        }
    }
}

/// The board of one round.
pub struct GameBoard {
    pub cols: usize,
    pub rows: usize,
    /// The number of mines that the round is played with.
    pub mines: usize,
    /// For each cell, the number of mines around it.
    pub around_mines: Vec<Vec<u8>>,
    /// For each cell, whether it holds a mine.
    pub mine_states: Vec<Vec<bool>>,
    pub cell_states: Vec<Vec<CellState>>,
    /// For each cell, the number of flags around it.
    pub around_flags: Vec<Vec<u8>>,
    /// The number of opened cells.
    pub n_open: usize,
    /// No cell has been opened in this round yet, and no mine is placed.
    pub is_first_op: bool,
    /// The round has ended, won or lost.
    pub is_over: bool,
}

impl View for GameBoard {
    type V = BoardView;

    open spec fn view(&self) -> BoardView {
        BoardView {
            rows: self.rows as int,
            cols: self.cols as int,
            mines: self.mines as int,
            mine: grid_view(self.mine_states),
            cell: grid_view(self.cell_states),
            n_open: self.n_open as int,
            is_first_op: self.is_first_op,
            is_over: self.is_over,
        }
    }
}

impl GameBoard {
    /// The board holds together: what it stands for does, the counter grids have its
    /// shape, and every counter holds the number of mines or of flags around its cell.
    pub open spec fn wf(&self) -> bool {
        &&& self@.wf()
        &&& has_shape(grid_view(self.around_mines), self.rows as int, self.cols as int)
        &&& has_shape(grid_view(self.around_flags), self.rows as int, self.cols as int)
        &&& forall|r: int, c: int|
            self@.inside(r, c) ==> grid_view(self.around_mines)[r][c]
                == #[trigger] self@.mines_around(r, c)
        &&& forall|r: int, c: int|
            self@.inside(r, c) ==> grid_view(self.around_flags)[r][c]
                == #[trigger] self@.flags_around(r, c)
    }

    /// In a well-formed board, the counters of every cell hold the number of mines and of
    /// flags around it, and an opened cell shows the number of mines around it.
    pub proof fn lemma_counters(&self, r: int, c: int)
        requires
            self.wf(),
            self@.inside(r, c),
        ensures
            grid_view(self.around_mines)[r][c] == self@.mines_around(r, c),
            grid_view(self.around_mines)[r][c] == mines_among(
                self@,
                neighbor_seq(r, c, self.rows as int, self.cols as int),
            ),
            grid_view(self.around_flags)[r][c] == self@.flags_around(r, c),
            self@.cell[r][c] matches CellState::Opened { a_mines } ==> a_mines
                == self@.mines_around(r, c),
    {
        lemma_mines_around_lists_neighbors(self@, r, c);
    }

    /// Makes the board for a round: all cells closed, no mine placed yet.
    ///
    /// Fails if the grid is empty, if its cells cannot be counted in a machine word, or if
    /// there are at least as many mines as cells.
    pub fn new(cols: usize, rows: usize, mines: usize) -> (res: Result<GameBoard, ConfigError>)
        ensures
            match res {
                Ok(board) => config_error(rows as int, cols as int, mines as int).is_none()
                    && board.wf() && board@ == BoardView::fresh(
                    rows as int,
                    cols as int,
                    mines as int,
                ),
                Err(e) => config_error(rows as int, cols as int, mines as int) == Some(e),
            },
    {
        if rows == 0 || cols == 0 {
            return Err(ConfigError::EmptyGrid);
        }
        let cells = match rows.checked_mul(cols) {
            Some(n) => n,
            None => {
                return Err(ConfigError::GridTooLarge);
            },
        };
        if mines >= cells {
            return Err(ConfigError::TooManyMines);
        }
        proof {
            lemma_fresh_wf(rows as int, cols as int, mines as int);
        }
        let board = GameBoard {
            cols,
            rows,
            mines,
            mine_states: make_grid(rows, cols, false),
            cell_states: make_grid(rows, cols, CellState::Closed),
            around_mines: make_grid(rows, cols, 0u8),
            around_flags: make_grid(rows, cols, 0u8),
            n_open: 0,
            is_first_op: true,
            is_over: false,
        };
        Ok(board)
    }

    /// Whether as many cells are open as the round asks for.
    pub fn is_win(&self) -> (won: bool)
        requires
            self.wf(),
        ensures
            won == self@.is_win(),
    {
        self.n_open == self.rows * self.cols - self.mines
    }

    /// All mines, in row-major order.
    pub fn mines_point(&self) -> (points: Vec<Point>)
        ensures
            points@ == self@.mine_points(),
    {
        list_marked(&self.mine_states)
    }

    /// Applies one action of a player to the cell at `(x, y)`: a flag request if
    /// `is_flagged`, an open request otherwise.
    ///
    /// The first opening of a round places the mines at random, none on the opened cell
    /// or around it; on every other input the result is fixed by the board. Nothing happens
    /// once the round is over, or outside the grid.
    pub fn handle_operation(&mut self, x: usize, y: usize, is_flagged: bool) -> (res: OpResult)
        requires
            old(self).wf(),
        ensures
            final(self).wf(),
            board_step(old(self)@, x as int, y as int, is_flagged, final(self)@, res@),
            res@ is Win <==> !old(self).is_over && final(self)@.is_win(),
            final(self).is_over <==> old(self).is_over || !(res@ is Success),
            old(self).is_over ==> *final(self) == *old(self),
            old(self)@.places_mines(x as int, y as int, is_flagged) ==> !(res@ is Over),
            res@ matches Outcome::Success { cells } ==> accounts_for(
                old(self)@,
                final(self)@,
                cells,
            ),
    {
        if self.is_over || x >= self.rows || y >= self.cols {
            let res = OpResult::Success { cells: Vec::new() };
            proof {
                lemma_reported_cells_account_for_changes(
                    old(self)@,
                    x as int,
                    y as int,
                    is_flagged,
                    self@,
                    res@,
                );
            }
            return res;
        }
        assert(self@.cell[x as int].len() == self.cols);
        let res = match self.cell_states[x][y] {
            CellState::Flagged => self.toggle_cell_flag(x, y, false),
            CellState::Closed => {
                if is_flagged {
                    self.toggle_cell_flag(x, y, true)
                } else {
                    if self.is_first_op {
                        self.place_mines(x, y);
                    }
                    self.open_cell(x, y)
                }
            },
            CellState::Opened { a_mines } => {
                assert(grid_view(self.around_mines)[x as int].len() == self.cols);
                assert(grid_view(self.around_flags)[x as int].len() == self.cols);
                assert(grid_view(self.around_mines)[x as int][y as int] == self@.mines_around(
                    x as int,
                    y as int,
                ));
                assert(grid_view(self.around_flags)[x as int][y as int] == self@.flags_around(
                    x as int,
                    y as int,
                ));
                if !is_flagged && self.around_mines[x][y] == self.around_flags[x][y] {
                    self.open_around_cell(x, y)
                } else {
                    OpResult::Success { cells: Vec::new() }
                }
            },
        };
        proof {
            if old(self)@.places_mines(x as int, y as int, is_flagged) {
                lemma_first_open_is_safe(old(self)@, x as int, y as int, self@, res@);
            }
            if res@ is Success {
                lemma_reported_cells_account_for_changes(
                    old(self)@,
                    x as int,
                    y as int,
                    is_flagged,
                    self@,
                    res@,
                );
            }
        }
        res
    }

    /// Opens the closed cell at `(x, y)` and whatever follows from it.
    fn open_cell(&mut self, x: usize, y: usize) -> (res: OpResult)
        requires
            old(self).wf(),
            !old(self).is_first_op,
            !old(self).is_over,
        ensures
            final(self).wf(),
            (final(self)@, res@) == old(self)@.cascade(seq![(x, y)], Seq::empty()),
            final(self).rows == old(self).rows,
            final(self).cols == old(self).cols,
            final(self).mines == old(self).mines,
            final(self).mine_states == old(self).mine_states,
            final(self).n_open >= old(self).n_open,
            res@ is Win <==> final(self)@.is_win(),
            res@ is Success <==> !final(self).is_over,
    {
        let mut stack: Vec<(usize, usize)> = Vec::new();
        stack.push((x, y));
        assert(stack@ == seq![(x, y)]);
        self.cascade(stack)
    }

    /// Opens the closed cells around `(x, y)`, in the order in which the cells around a
    /// centre are listed, and whatever follows from them.
    fn open_around_cell(&mut self, x: usize, y: usize) -> (res: OpResult)
        requires
            old(self).wf(),
            !old(self).is_first_op,
            !old(self).is_over,
        ensures
            final(self).wf(),
            (final(self)@, res@) == old(self)@.cascade(
                neighbor_seq(
                    x as int,
                    y as int,
                    old(self).rows as int,
                    old(self).cols as int,
                ).reverse(),
                Seq::empty(),
            ),
            final(self).rows == old(self).rows,
            final(self).cols == old(self).cols,
            final(self).mines == old(self).mines,
            final(self).mine_states == old(self).mine_states,
            final(self).n_open >= old(self).n_open,
            res@ is Win <==> final(self)@.is_win(),
            res@ is Success <==> !final(self).is_over,
    {
        let around = Neighbors::new(x, y, self.rows, self.cols).collect();
        let mut stack: Vec<(usize, usize)> = Vec::new();
        push_reversed(&mut stack, &around);
        assert(stack@ == around@.reverse());
        self.cascade(stack)
    }

    /// Sets a flag on a closed cell, or takes the flag from a flagged one, and moves the
    /// flag counters of the cells around it.
    fn toggle_cell_flag(&mut self, x: usize, y: usize, flag: bool) -> (res: OpResult)
        requires
            old(self).wf(),
            old(self)@.inside(x as int, y as int),
            old(self)@.cell[x as int][y as int] == (if flag {
                CellState::Closed
            } else {
                CellState::Flagged
            }),
        ensures
            final(self).wf(),
            final(self)@ == old(self)@.with_cell(
                x as int,
                y as int,
                if flag {
                    CellState::Flagged
                } else {
                    CellState::Closed
                },
            ),
            res@ == (Outcome::Success {
                cells: seq![
                    CellInfo {
                        x,
                        y,
                        status: if flag {
                            CellState::Flagged
                        } else {
                            CellState::Closed
                        },
                    },
                ],
            }),
    {
        let status = if flag {
            CellState::Flagged
        } else {
            CellState::Closed
        };
        set_cell(&mut self.cell_states, x, y, status);
        adjust_around(&mut self.around_flags, x, y, self.rows, self.cols, flag);
        proof {
            let before = old(self)@;
            let after = self@;
            assert(after == before.with_cell(x as int, y as int, status));
            lemma_toggled_wf(before, x as int, y as int, flag);
            assert forall|r: int, c: int| after.inside(r, c) implies grid_view(
                self.around_flags,
            )[r][c] == #[trigger] after.flags_around(r, c) by {
                lemma_cell_change_counts(before, x as int, y as int, status, r, c);
                assert(grid_view(old(self).around_flags)[r][c] == before.flags_around(r, c));
            }
            assert forall|r: int, c: int| after.inside(r, c) implies grid_view(
                self.around_mines,
            )[r][c] == #[trigger] after.mines_around(r, c) by {
                lemma_cell_change_counts(before, x as int, y as int, status, r, c);
                assert(grid_view(old(self).around_mines)[r][c] == before.mines_around(r, c));
            }
            assert forall|r: int, c: int| after.inside(r, c) implies (match #[trigger] after.cell[r][c] {
                CellState::Opened { a_mines } => !after.is_first_op && !after.mine[r][c] && a_mines
                    == after.mines_around(r, c),
                _ => true,
            }) by {
                lemma_cell_change_counts(before, x as int, y as int, status, r, c);
                assert(after.cell[r][c] == if r == x && c == y {
                    status
                } else {
                    before.cell[r][c]
                });
            }
        }
        let mut cells: Vec<CellInfo> = Vec::new();
        cells.push(CellInfo { x, y, status });
        OpResult::Success { cells }
    }

    /// The flags that mark no mine, in row-major order.
    pub fn wrong_flags(&self) -> (points: Vec<Point>)
        requires
            self.wf(),
        ensures
            points@ == self@.wrong_flags(),
    {
        let mut grid: Vec<Vec<bool>> = Vec::new();
        let mut r: usize = 0;
        while r < self.rows
            invariant
                self.wf(),
                r <= self.rows,
                grid@.len() == r,
                forall|i: int| 0 <= i < r ==> (#[trigger] grid@[i])@ == self@.wrong_flag_grid()[i],
            decreases self.rows - r,
        {
            let mut row: Vec<bool> = Vec::new();
            let mut c: usize = 0;
            while c < self.cols
                invariant
                    self.wf(),
                    r < self.rows,
                    c <= self.cols,
                    row@.len() == c,
                    forall|j: int|
                        0 <= j < c ==> #[trigger] row@[j] == self@.wrong_flag_grid()[r as int][j],
                decreases self.cols - c,
            {
                assert(self@.cell[r as int].len() == self.cols);
                assert(self@.mine[r as int].len() == self.cols);
                let wrong = self.cell_states[r][c] == CellState::Flagged && !self.mine_states[r][c];
                row.push(wrong);
                c += 1;
            }
            assert(self@.cell[r as int].len() == self.cols);
            assert(row@ =~= self@.wrong_flag_grid()[r as int]);
            grid.push(row);
            r += 1;
        }
        assert(grid_view(grid) =~= self@.wrong_flag_grid());
        list_marked(&grid)
    }

    /// Ends the round.
    fn end_round(&mut self)
        requires
            old(self).wf(),
        ensures
            final(self).wf(),
            final(self)@ == old(self)@.ended(),
            final(self).mine_states == old(self).mine_states,
    {
        let ghost before = self@;
        self.is_over = true;
        proof {
            lemma_ended_wf(before);
            assert forall|i: int, j: int| self@.inside(i, j) implies grid_view(
                self.around_mines,
            )[i][j] == #[trigger] self@.mines_around(i, j) by {
                assert(self@.mines_around(i, j) == before.mines_around(i, j));
            }
            assert forall|i: int, j: int| self@.inside(i, j) implies grid_view(
                self.around_flags,
            )[i][j] == #[trigger] self@.flags_around(i, j) by {
                assert(self@.flags_around(i, j) == before.flags_around(i, j));
            }
        }
    }

    /// Opens one closed cell that holds no mine, and ends the round if that wins it.
    fn open_one(&mut self, r: usize, c: usize) -> (status: CellState)
        requires
            old(self).wf(),
            !old(self).is_first_op,
            !old(self).is_over,
            old(self)@.inside(r as int, c as int),
            old(self)@.cell[r as int][c as int] == CellState::Closed,
            !old(self)@.mine[r as int][c as int],
        ensures
            final(self).wf(),
            final(self)@ == old(self)@.opened(r as int, c as int),
            status == final(self)@.cell[r as int][c as int],
            status == (CellState::Opened { a_mines: 0 }) <==> old(self)@.mines_around(
                r as int,
                c as int,
            ) == 0,
            final(self).mine_states == old(self).mine_states,
    {
        let ghost before = self@;
        assert(grid_view(self.around_mines)[r as int].len() == self.cols);
        let a_mines = self.around_mines[r][c];
        assert(a_mines == before.mines_around(r as int, c as int));
        let status = CellState::Opened { a_mines };
        set_cell(&mut self.cell_states, r, c, status);
        self.n_open = self.n_open + 1;
        self.is_over = self.n_open == self.rows * self.cols - self.mines;
        assert(self@ == before.opened(r as int, c as int));
        proof {
            lemma_opened_wf(before, r as int, c as int);
            assert forall|i: int, j: int| self@.inside(i, j) implies grid_view(
                self.around_mines,
            )[i][j] == #[trigger] self@.mines_around(i, j) by {
                lemma_open_counts(before, r as int, c as int, i, j);
                assert(grid_view(self.around_mines)[i][j] == before.mines_around(i, j));
            }
            assert forall|i: int, j: int| self@.inside(i, j) implies grid_view(
                self.around_flags,
            )[i][j] == #[trigger] self@.flags_around(i, j) by {
                lemma_open_counts(before, r as int, c as int, i, j);
                assert(grid_view(self.around_flags)[i][j] == before.flags_around(i, j));
            }
            assert forall|i: int, j: int| self@.inside(i, j) implies (match #[trigger] self@.cell[i][j] {
                CellState::Opened { a_mines } => !self@.is_first_op && !self@.mine[i][j] && a_mines
                    == self@.mines_around(i, j),
                _ => true,
            }) by {
                lemma_open_counts(before, r as int, c as int, i, j);
                assert(self@.cell[i][j] == if i == r && j == c {
                    status
                } else {
                    before.cell[i][j]
                });
            }
        }
        status
    }

    /// Opens the cells of `pending`, a stack whose top is its last entry, and whatever
    /// follows from them, until the stack is empty or the round ends.
    fn cascade(&mut self, pending: Vec<(usize, usize)>) -> (res: OpResult)
        requires
            old(self).wf(),
            !old(self).is_first_op,
            !old(self).is_over,
        ensures
            final(self).wf(),
            (final(self)@, res@) == old(self)@.cascade(pending@, Seq::empty()),
            final(self).rows == old(self).rows,
            final(self).cols == old(self).cols,
            final(self).mines == old(self).mines,
            final(self).mine_states == old(self).mine_states,
            final(self).n_open >= old(self).n_open,
            !final(self).is_first_op,
            res@ is Win <==> final(self)@.is_win(),
            res@ is Success <==> !final(self).is_over,
    {
        let mut stack = pending;
        let mut cells: Vec<CellInfo> = Vec::new();
        while stack.len() > 0
            invariant
                self.wf(),
                !self.is_first_op,
                !self.is_over,
                self.rows == old(self).rows,
                self.cols == old(self).cols,
                self.mines == old(self).mines,
                self.mine_states == old(self).mine_states,
                self.n_open >= old(self).n_open,
                self@.cascade(stack@, cells@) == old(self)@.cascade(pending@, Seq::empty()),
            decreases self@.threshold() - self@.n_open, stack@.len(),
        {
            let ghost before = self@;
            let ghost waiting = stack@;
            let (r, c) = stack.pop().unwrap();
            assert(stack@ == waiting.drop_last() && (r, c) == waiting.last());
            if r < self.rows && c < self.cols {
                assert(before.cell[r as int].len() == self.cols);
                assert(before.mine[r as int].len() == self.cols);
                if self.cell_states[r][c] == CellState::Closed {
                    if self.mine_states[r][c] {
                        self.end_round();
                        let mines = self.mines_point();
                        let wrong_flags = self.wrong_flags();
                        return OpResult::Over { mines, mine: Point { x: r, y: c }, wrong_flags };
                    }
                    let status = self.open_one(r, c);
                    if self.is_over {
                        let mines = self.mines_point();
                        return OpResult::Win { mines };
                    }
                    cells.push(CellInfo { x: r, y: c, status });
                    if status == (CellState::Opened { a_mines: 0 }) {
                        let around = Neighbors::new(r, c, self.rows, self.cols).collect();
                        push_reversed(&mut stack, &around);
                    } else {
                        assert(stack@ + Seq::<(usize, usize)>::empty() == stack@);
                    }
                }
            }
        }
        OpResult::Success { cells }
    }

    /// Lays the mines of the round on the first entries of `order`, as many as the round is
    /// played with or as `order` has, and counts for every cell the mines around it.
    /// An entry that lies outside the grid is passed over. Once mines are placed, or the
    /// round is over, nothing happens.
    pub fn lay_mines(&mut self, order: &Vec<Point>)
        requires
            old(self).wf(),
        ensures
            final(self).wf(),
            if old(self).is_first_op && !old(self).is_over {
                final(self)@ == old(self)@.with_mines(
                    laid(
                        order@.take(
                            vstd::math::min(old(self).mines as int, order@.len() as int),
                        ),
                        old(self).rows as int,
                        old(self).cols as int,
                    ),
                )
            } else {
                *final(self) == *old(self)
            },
    {
        if !self.is_first_op || self.is_over {
            return ;
        }
        let count = if self.mines < order.len() {
            self.mines
        } else {
            order.len()
        };
        let mut i: usize = 0;
        assert(grid_view(self.mine_states) =~= laid(
            order@.take(0),
            self.rows as int,
            self.cols as int,
        )) by {
            assert forall|r: int| 0 <= r < self.rows implies #[trigger] grid_view(
                self.mine_states,
            )[r] =~= laid(order@.take(0), self.rows as int, self.cols as int)[r] by {
                assert forall|c: int| 0 <= c < self.cols implies !grid_view(
                    self.mine_states,
                )[r][c] by {
                    assert(self@.inside(r, c));
                    assert(!self@.mine[r][c]);
                }
            }
        }
        while i < count
            invariant
                i <= count <= order@.len(),
                old(self).wf(),
                old(self).is_first_op,
                self.rows == old(self).rows,
                self.cols == old(self).cols,
                self.mines == old(self).mines,
                self.cell_states == old(self).cell_states,
                self.around_flags == old(self).around_flags,
                self.n_open == old(self).n_open,
                self.is_first_op == old(self).is_first_op,
                self.is_over == old(self).is_over,
                has_shape(grid_view(self.around_mines), self.rows as int, self.cols as int),
                has_shape(grid_view(self.mine_states), self.rows as int, self.cols as int),
                grid_view(self.mine_states) == laid(
                    order@.take(i as int),
                    self.rows as int,
                    self.cols as int,
                ),
                forall|r: int, c: int|
                    self@.inside(r, c) ==> grid_view(self.around_mines)[r][c]
                        == #[trigger] self@.mines_around(r, c),
            decreases count - i,
        {
            let ghost before = self@;
            let ghost counts = grid_view(self.around_mines);
            let p = order[i];
            proof {
                lemma_laid_step(order@, i as int, self.rows as int, self.cols as int);
            }
            if p.x < self.rows && p.y < self.cols {
                assert(before.mine[p.x as int].len() == self.cols);
                if !self.mine_states[p.x][p.y] {
                    set_cell(&mut self.mine_states, p.x, p.y, true);
                    adjust_around(&mut self.around_mines, p.x, p.y, self.rows, self.cols, true);
                    assert forall|r: int, c: int| self@.inside(r, c) implies grid_view(
                        self.around_mines,
                    )[r][c] == #[trigger] self@.mines_around(r, c) by {
                        lemma_mine_counts(before, p.x as int, p.y as int, r, c);
                        assert(counts[r][c] == before.mines_around(r, c));
                    }
                } else {
                    assert(before.mine[p.x as int].update(p.y as int, true)
                        =~= before.mine[p.x as int]);
                    assert(grid_with(before.mine, p.x as int, p.y as int, true) =~= before.mine);
                }
            }
            i += 1;
        }
        let ghost filled = self@;
        self.is_first_op = false;
        proof {
            let after = self@;
            let start = old(self)@;
            assert(after == start.with_mines(after.mine));
            assert forall|r: int, c: int| after.inside(r, c) implies grid_view(
                self.around_mines,
            )[r][c] == #[trigger] after.mines_around(r, c) by {
                assert(after.mines_around(r, c) == filled.mines_around(r, c));
            }
            assert forall|r: int, c: int| after.inside(r, c) implies grid_view(
                self.around_flags,
            )[r][c] == #[trigger] after.flags_around(r, c) by {
                assert(after.flags_around(r, c) == start.flags_around(r, c));
            }
            assert forall|r: int, c: int| after.inside(r, c) implies (match #[trigger] after.cell[r][c] {
                CellState::Opened { a_mines } => !after.is_first_op && !after.mine[r][c] && a_mines
                    == after.mines_around(r, c),
                _ => true,
            }) by {
                assert(after.cell[r][c] == start.cell[r][c]);
            }
        }
    }

    /// The cells in which a mine may lie when `(first_x, first_y)` is opened first: all but
    /// that cell and the cells around it, in row-major order.
    pub fn candidates(&self, first_x: usize, first_y: usize) -> (cells: Vec<Point>)
        ensures
            cells@ == self@.candidates(first_x as int, first_y as int),
    {
        let ghost target = eligible_grid(
            self.rows as int,
            self.cols as int,
            first_x as int,
            first_y as int,
        );
        let mut grid: Vec<Vec<bool>> = Vec::new();
        let mut r: usize = 0;
        while r < self.rows
            invariant
                r <= self.rows,
                grid@.len() == r,
                target == eligible_grid(
                    self.rows as int,
                    self.cols as int,
                    first_x as int,
                    first_y as int,
                ),
                forall|i: int| 0 <= i < r ==> (#[trigger] grid@[i])@ == target[i],
            decreases self.rows - r,
        {
            let mut row: Vec<bool> = Vec::new();
            let mut c: usize = 0;
            while c < self.cols
                invariant
                    r < self.rows,
                    c <= self.cols,
                    row@.len() == c,
                    target == eligible_grid(
                        self.rows as int,
                        self.cols as int,
                        first_x as int,
                        first_y as int,
                    ),
                    forall|j: int| 0 <= j < c ==> #[trigger] row@[j] == target[r as int][j],
                decreases self.cols - c,
            {
                row.push(!(near(r, first_x) && near(c, first_y)));
                c += 1;
            }
            assert(row@ =~= target[r as int]);
            grid.push(row);
            r += 1;
        }
        assert(grid_view(grid) =~= target);
        list_marked(&grid)
    }

    /// Places the mines of the round at random, none on `(first_x, first_y)` or around it.
    ///
    /// As many mines are placed as the round is played with, or as there are cells
    /// outside that zone if those are fewer.
    fn place_mines(&mut self, first_x: usize, first_y: usize)
        requires
            old(self).wf(),
            old(self).is_first_op,
            !old(self).is_over,
        ensures
            final(self).wf(),
            final(self)@ == old(self)@.with_mines(final(self)@.mine),
            forall|r: int, c: int|
                final(self)@.has_mine(r, c) ==> !BoardView::in_safe_zone(
                    first_x as int,
                    first_y as int,
                    r,
                    c,
                ),
            final(self)@.mine_points().len() == vstd::math::min(
                old(self).mines as int,
                old(self)@.candidates(first_x as int, first_y as int).len() as int,
            ),
    {
        let mut order = self.candidates(first_x, first_y);
        let ghost listed = order@;
        let mut rng = rand::thread_rng();
        shuffle_points(&mut order, &mut rng);
        self.lay_mines(&order);
        proof {
            let rows = self.rows as int;
            let cols = self.cols as int;
            let eligible = eligible_grid(rows, cols, first_x as int, first_y as int);
            let count = vstd::math::min(self.mines as int, order@.len() as int);
            let chosen = order@.take(count);
            lemma_marked_points(eligible);
            lemma_rearranged(listed, order@);
            assert forall|i: int| 0 <= i < chosen.len() implies in_grid(
                (#[trigger] chosen[i]).x as int,
                chosen[i].y as int,
                rows,
                cols,
            ) && !BoardView::in_safe_zone(
                first_x as int,
                first_y as int,
                chosen[i].x as int,
                chosen[i].y as int,
            ) by {
                assert(order@[i] == chosen[i]);
                assert(order@.contains(chosen[i]));
                assert(listed.contains(chosen[i]));
                assert(is_marked(eligible, chosen[i]));
            }
            assert forall|r: int, c: int| self@.has_mine(r, c) implies !BoardView::in_safe_zone(
                first_x as int,
                first_y as int,
                r,
                c,
            ) by {
                let p = Point { x: r as usize, y: c as usize };
                assert(chosen.contains(p));
                let i = choose|i: int| 0 <= i < chosen.len() && chosen[i] == p;
                assert(chosen[i].x == r && chosen[i].y == c);
            }
            lemma_laid_count(chosen, rows, cols);
        }
    }

    /// What well-formedness asks of the single cell `(r, c)`.
    pub open spec fn cell_ok(&self, r: int, c: int) -> bool {
        &&& grid_view(self.around_mines)[r][c] == self@.mines_around(r, c)
        &&& grid_view(self.around_flags)[r][c] == self@.flags_around(r, c)
        &&& self@.cell[r][c] matches CellState::Opened { a_mines } ==> !self.is_first_op
            && !self@.mine[r][c] && a_mines == self@.mines_around(r, c)
        &&& self.is_first_op ==> !self@.mine[r][c]
    }

    /// What well-formedness asks of the board as a whole, the single cells apart.
    pub open spec fn frame_ok(&self) -> bool {
        &&& 0 < self.rows
        &&& 0 < self.cols
        &&& self.rows * self.cols <= usize::MAX
        &&& self.mines < self.rows * self.cols
        &&& has_shape(grid_view(self.mine_states), self.rows as int, self.cols as int)
        &&& has_shape(grid_view(self.cell_states), self.rows as int, self.cols as int)
        &&& has_shape(grid_view(self.around_mines), self.rows as int, self.cols as int)
        &&& has_shape(grid_view(self.around_flags), self.rows as int, self.cols as int)
        &&& self.n_open <= self@.threshold()
        &&& self.n_open == self@.opened_points().len()
        &&& self@.is_win() ==> self.is_over
        &&& self.is_first_op ==> self.n_open == 0
    }

    /// A board is well-formed when its frame is and each of its cells is.
    pub proof fn lemma_wf_by_cells(&self)
        ensures
            self.wf() <==> self.frame_ok() && forall|r: int, c: int|
                self@.inside(r, c) ==> #[trigger] self.cell_ok(r, c),
    {
        if self.wf() {
            assert forall|r: int, c: int| self@.inside(r, c) implies #[trigger] self.cell_ok(
                r,
                c,
            ) by {
                assert(grid_view(self.around_mines)[r][c] == self@.mines_around(r, c));
                assert(grid_view(self.around_flags)[r][c] == self@.flags_around(r, c));
            }
        }
        if self.frame_ok() && forall|r: int, c: int|
            self@.inside(r, c) ==> #[trigger] self.cell_ok(r, c) {
            assert forall|r: int, c: int| self@.inside(r, c) implies grid_view(
                self.around_mines,
            )[r][c] == #[trigger] self@.mines_around(r, c) by {
                assert(self.cell_ok(r, c));
            }
            assert forall|r: int, c: int| self@.inside(r, c) implies grid_view(
                self.around_flags,
            )[r][c] == #[trigger] self@.flags_around(r, c) by {
                assert(self.cell_ok(r, c));
            }
            assert forall|r: int, c: int| self@.inside(r, c) implies (match #[trigger] self@.cell[r][c] {
                CellState::Opened { a_mines } => !self@.is_first_op && !self@.mine[r][c] && a_mines
                    == self@.mines_around(r, c),
                _ => true,
            }) by {
                assert(self.cell_ok(r, c));
            }
            if self.is_first_op {
                assert forall|r: int, c: int| self@.inside(r, c) implies !#[trigger] self@.mine[r][c] by {
                    assert(self.cell_ok(r, c));
                }
            }
        }
    }

    /// One if the cell at `(r + dr, c + dc)` lies in the grid and holds a mine, else zero.
    fn mine_at(&self, r: usize, dr: i8, c: usize, dc: i8) -> (n: u8)
        requires
            self.frame_ok(),
            -1 <= dr <= 1,
            -1 <= dc <= 1,
        ensures
            n == one_if(self@.has_mine(r + dr, c + dc)),
    {
        match (shifted(r, dr, self.rows), shifted(c, dc, self.cols)) {
            (Some(x), Some(y)) => {
                assert(grid_view(self.mine_states)[x as int].len() == self.cols);
                if self.mine_states[x][y] {
                    1
                } else {
                    0
                }
            },
            _ => 0,
        }
    }

    /// One if the cell at `(r + dr, c + dc)` lies in the grid and carries a flag, else zero.
    fn flag_at(&self, r: usize, dr: i8, c: usize, dc: i8) -> (n: u8)
        requires
            self.frame_ok(),
            -1 <= dr <= 1,
            -1 <= dc <= 1,
        ensures
            n == one_if(self@.has_flag(r + dr, c + dc)),
    {
        match (shifted(r, dr, self.rows), shifted(c, dc, self.cols)) {
            (Some(x), Some(y)) => {
                assert(grid_view(self.cell_states)[x as int].len() == self.cols);
                if self.cell_states[x][y] == CellState::Flagged {
                    1
                } else {
                    0
                }
            },
            _ => 0,
        }
    }

    /// Whether the cell `(r, c)` is as well-formedness asks.
    fn check_cell(&self, r: usize, c: usize) -> (ok: bool)
        requires
            self.frame_ok(),
            self@.inside(r as int, c as int),
        ensures
            ok == self.cell_ok(r as int, c as int),
    {
        let mines = self.mine_at(r, -1, c, -1) + self.mine_at(r, -1, c, 0) + self.mine_at(
            r,
            -1,
            c,
            1,
        ) + self.mine_at(r, 0, c, -1) + self.mine_at(r, 0, c, 1) + self.mine_at(r, 1, c, -1)
            + self.mine_at(r, 1, c, 0) + self.mine_at(r, 1, c, 1);
        let flags = self.flag_at(r, -1, c, -1) + self.flag_at(r, -1, c, 0) + self.flag_at(
            r,
            -1,
            c,
            1,
        ) + self.flag_at(r, 0, c, -1) + self.flag_at(r, 0, c, 1) + self.flag_at(r, 1, c, -1)
            + self.flag_at(r, 1, c, 0) + self.flag_at(r, 1, c, 1);
        assert(mines == self@.mines_around(r as int, c as int));
        assert(flags == self@.flags_around(r as int, c as int));
        assert(grid_view(self.mine_states)[r as int].len() == self.cols);
        assert(grid_view(self.cell_states)[r as int].len() == self.cols);
        assert(grid_view(self.around_mines)[r as int].len() == self.cols);
        assert(grid_view(self.around_flags)[r as int].len() == self.cols);
        let shown = match self.cell_states[r][c] {
            CellState::Opened { a_mines } => !self.is_first_op && !self.mine_states[r][c]
                && a_mines == mines,
            _ => true,
        };
        self.around_mines[r][c] == mines && self.around_flags[r][c] == flags && shown && (
        !self.is_first_op || !self.mine_states[r][c])
    }

    /// The number of opened cells, counted cell by cell.
    pub fn count_opened(&self) -> (n: usize)
        ensures
            n == self@.opened_points().len(),
    {
        let mut grid: Vec<Vec<bool>> = Vec::new();
        let mut r: usize = 0;
        while r < self.cell_states.len()
            invariant
                r <= self.cell_states@.len(),
                grid@.len() == r,
                forall|i: int| 0 <= i < r ==> (#[trigger] grid@[i])@ == self@.opened_grid()[i],
            decreases self.cell_states@.len() - r,
        {
            let cells = &self.cell_states[r];
            let mut row: Vec<bool> = Vec::new();
            let mut c: usize = 0;
            while c < cells.len()
                invariant
                    r < self.cell_states@.len(),
                    cells@ == self@.cell[r as int],
                    c <= cells@.len(),
                    row@.len() == c,
                    forall|j: int|
                        0 <= j < c ==> #[trigger] row@[j] == self@.opened_grid()[r as int][j],
                decreases cells@.len() - c,
            {
                let open = match cells[c] {
                    CellState::Opened { a_mines } => true,
                    _ => false,
                };
                row.push(open);
                c += 1;
            }
            assert(row@ =~= self@.opened_grid()[r as int]);
            grid.push(row);
            r += 1;
        }
        assert(grid_view(grid) =~= self@.opened_grid());
        list_marked(&grid).len()
    }

    /// Whether the board is well-formed, found out by looking at every cell.
    pub fn check(&self) -> (ok: bool)
        ensures
            ok == self.wf(),
    {
        proof {
            self.lemma_wf_by_cells();
        }
        if self.rows == 0 || self.cols == 0 {
            return false;
        }
        let cells = match self.rows.checked_mul(self.cols) {
            Some(n) => n,
            None => {
                return false;
            },
        };
        if self.mines >= cells || self.n_open > cells - self.mines {
            return false;
        }
        if self.n_open == cells - self.mines && !self.is_over {
            return false;
        }
        if self.is_first_op && self.n_open != 0 {
            return false;
        }
        if !is_shaped(&self.mine_states, self.rows, self.cols) || !is_shaped(
            &self.cell_states,
            self.rows,
            self.cols,
        ) || !is_shaped(&self.around_mines, self.rows, self.cols) || !is_shaped(
            &self.around_flags,
            self.rows,
            self.cols,
        ) {
            return false;
        }
        if self.count_opened() != self.n_open {
            return false;
        }
        assert(self.frame_ok());
        let mut r: usize = 0;
        while r < self.rows
            invariant
                self.frame_ok(),
                r <= self.rows,
                forall|i: int, j: int|
                    0 <= i < r && 0 <= j < self.cols ==> #[trigger] self.cell_ok(i, j),
            decreases self.rows - r,
        {
            let mut c: usize = 0;
            while c < self.cols
                invariant
                    self.frame_ok(),
                    r < self.rows,
                    c <= self.cols,
                    forall|i: int, j: int|
                        0 <= i < r && 0 <= j < self.cols ==> #[trigger] self.cell_ok(i, j),
                    forall|j: int| 0 <= j < c ==> #[trigger] self.cell_ok(r as int, j),
                decreases self.cols - c,
            {
                if !self.check_cell(r, c) {
                    assert(self@.inside(r as int, c as int));
                    return false;
                }
                c += 1;
            }
            r += 1;
        }
        true
    }
}

fn near(a: usize, b: usize) -> (res: bool)
    ensures
        res == (-1 <= a - b <= 1),
{
    if a <= b {
        b - a <= 1
    } else {
        a - b <= 1
    }
}

/// The generator of random numbers that rand keeps for each thread. Nothing of what is
/// inside it is known here.
#[verifier::external_type_specification]
#[verifier::external_body]
pub struct ExThreadRng(rand::rngs::ThreadRng);

/// `rand::thread_rng` hands out the generator of the current thread. Nothing is claimed
/// of it.
pub assume_specification[ rand::thread_rng ]() -> (rng: rand::rngs::ThreadRng);

/// Calls `shuffle` of rand's `SliceRandom` on the points. The call does nothing but swap
/// entries of the slice: afterwards the vector holds the points it held before, each as
/// often as before. Nothing is claimed of their order.
#[verifier::external_body]
fn shuffle_points(points: &mut Vec<Point>, rng: &mut rand::rngs::ThreadRng)
    ensures
        final(points)@.to_multiset() == old(points)@.to_multiset(),
{
    points.shuffle(rng);
}

/// Puts the entries of `cells` on the stack `pending`, the first of them on top.
fn push_reversed(pending: &mut Vec<(usize, usize)>, cells: &Vec<(usize, usize)>)
    ensures
        final(pending)@ == old(pending)@ + cells@.reverse(),
{
    let mut i: usize = cells.len();
    while i > 0
        invariant
            i <= cells.len(),
            pending@ == old(pending)@ + cells@.reverse().take(cells.len() - i),
        decreases i,
    {
        i -= 1;
        pending.push(cells[i]);
    }
    assert(cells@.reverse().take(cells.len() as int) == cells@.reverse());
}

} // verus!
