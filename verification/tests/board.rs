use minesweeper::logic::board::{CellInfo, CellState, ConfigError, GameBoard, OpResult};
use minesweeper::utils::neighbors::Neighbors;
use minesweeper::utils::Point;

fn board(cols: usize, rows: usize, mines: usize) -> GameBoard {
    GameBoard::new(cols, rows, mines).unwrap()
}

fn with_mines(cols: usize, rows: usize, at: &[(usize, usize)]) -> GameBoard {
    let mut b = board(cols, rows, at.len());
    let order: Vec<Point> = at.iter().map(|&(x, y)| Point { x, y }).collect();
    b.lay_mines(&order);
    b
}

fn count_mines(b: &GameBoard) -> usize {
    b.mine_states.iter().flatten().filter(|&&m| m).count()
}

fn mines_near(b: &GameBoard, r: usize, c: usize) -> u8 {
    let mut n = 0;
    for dr in [-1i64, 0, 1] {
        for dc in [-1i64, 0, 1] {
            if dr == 0 && dc == 0 {
                continue;
            }
            let rr = r as i64 + dr;
            let cc = c as i64 + dc;
            if rr >= 0 && cc >= 0 && (rr as usize) < b.rows && (cc as usize) < b.cols {
                if b.mine_states[rr as usize][cc as usize] {
                    n += 1;
                }
            }
        }
    }
    n
}

fn flags_near(b: &GameBoard, r: usize, c: usize) -> u8 {
    Neighbors::new(r, c, b.rows, b.cols)
        .collect()
        .iter()
        .filter(|&&(x, y)| b.cell_states[x][y] == CellState::Flagged)
        .count() as u8
}

fn counters_hold(b: &GameBoard) {
    assert!(b.check());
    for r in 0..b.rows {
        for c in 0..b.cols {
            assert_eq!(b.around_mines[r][c], mines_near(b, r, c));
            assert_eq!(b.around_flags[r][c], flags_near(b, r, c));
            if let CellState::Opened { a_mines } = b.cell_states[r][c] {
                assert_eq!(a_mines, mines_near(b, r, c));
                assert!(!b.mine_states[r][c]);
            }
        }
    }
}

fn opened_cells(b: &GameBoard) -> usize {
    b.cell_states
        .iter()
        .flatten()
        .filter(|s| matches!(s, CellState::Opened { .. }))
        .count()
}

#[test]
fn new_board_is_closed_and_without_mines() {
    let b = board(4, 3, 5);
    assert_eq!((b.rows, b.cols, b.mines), (3, 4, 5));
    assert_eq!(b.cell_states, vec![vec![CellState::Closed; 4]; 3]);
    assert_eq!(b.mine_states, vec![vec![false; 4]; 3]);
    assert_eq!(b.around_mines, vec![vec![0u8; 4]; 3]);
    assert_eq!(b.around_flags, vec![vec![0u8; 4]; 3]);
    assert_eq!(b.n_open, 0);
    assert!(b.is_first_op);
    assert!(!b.is_over);
    assert!(!b.is_win());
}

#[test]
fn new_refuses_an_empty_grid() {
    assert_eq!(GameBoard::new(0, 3, 0).err(), Some(ConfigError::EmptyGrid));
    assert_eq!(GameBoard::new(3, 0, 0).err(), Some(ConfigError::EmptyGrid));
    assert_eq!(GameBoard::new(0, 0, 0).err(), Some(ConfigError::EmptyGrid));
}

#[test]
fn new_refuses_as_many_mines_as_cells() {
    assert_eq!(GameBoard::new(3, 3, 9).err(), Some(ConfigError::TooManyMines));
    assert_eq!(GameBoard::new(3, 3, 10).err(), Some(ConfigError::TooManyMines));
    assert_eq!(GameBoard::new(1, 1, 1).err(), Some(ConfigError::TooManyMines));
    assert!(GameBoard::new(3, 3, 8).is_ok());
}

#[test]
fn new_refuses_a_grid_beyond_the_machine_word() {
    assert_eq!(GameBoard::new(usize::MAX, 2, 0).err(), Some(ConfigError::GridTooLarge));
}

#[test]
fn one_mine_in_the_corner_opens_all_else_and_wins() {
    let mut b = with_mines(3, 3, &[(2, 2)]);
    assert!(!b.is_first_op);
    let res = b.handle_operation(0, 0, false);
    assert_eq!(res, OpResult::Win { mines: vec![Point { x: 2, y: 2 }] });
    assert_eq!(b.n_open, 8);
    assert_eq!(opened_cells(&b), 8);
    assert_eq!(b.cell_states[2][2], CellState::Closed);
    assert_eq!(b.cell_states[0][0], CellState::Opened { a_mines: 0 });
    assert_eq!(b.cell_states[1][1], CellState::Opened { a_mines: 1 });
    assert_eq!(b.cell_states[2][1], CellState::Opened { a_mines: 1 });
    assert!(b.is_over);
    assert!(b.is_win());
    counters_hold(&b);
}

#[test]
fn single_cell_board_is_won_at_once() {
    let mut b = board(1, 1, 0);
    let res = b.handle_operation(0, 0, false);
    assert_eq!(res, OpResult::Win { mines: vec![] });
    assert_eq!(b.cell_states[0][0], CellState::Opened { a_mines: 0 });
    assert!(b.is_over);
}

#[test]
fn flag_twice_restores_the_counters() {
    let mut b = board(3, 3, 1);
    let before = b.around_flags.clone();
    let first = b.handle_operation(0, 0, true);
    assert_eq!(
        first,
        OpResult::Success { cells: vec![CellInfo { x: 0, y: 0, status: CellState::Flagged }] }
    );
    assert_eq!(b.cell_states[0][0], CellState::Flagged);
    assert_eq!(b.around_flags, vec![vec![0, 1, 0], vec![1, 1, 0], vec![0, 0, 0]]);
    let second = b.handle_operation(0, 0, true);
    assert_eq!(
        second,
        OpResult::Success { cells: vec![CellInfo { x: 0, y: 0, status: CellState::Closed }] }
    );
    assert_eq!(b.cell_states[0][0], CellState::Closed);
    assert_eq!(b.around_flags, before);
    assert!(b.is_first_op);
}

#[test]
fn open_request_on_a_flag_takes_the_flag() {
    let mut b = board(3, 3, 1);
    b.handle_operation(1, 1, true);
    assert_eq!(b.around_flags[0][0], 1);
    let res = b.handle_operation(1, 1, false);
    assert_eq!(
        res,
        OpResult::Success { cells: vec![CellInfo { x: 1, y: 1, status: CellState::Closed }] }
    );
    assert_eq!(b.around_flags, vec![vec![0u8; 3]; 3]);
    assert!(b.is_first_op);
    assert_eq!(count_mines(&b), 0);
}

#[test]
fn chord_with_too_few_flags_does_nothing() {
    let mut b = with_mines(3, 3, &[(0, 0), (0, 2)]);
    let opened = b.handle_operation(1, 1, false);
    assert_eq!(
        opened,
        OpResult::Success {
            cells: vec![CellInfo { x: 1, y: 1, status: CellState::Opened { a_mines: 2 } }]
        }
    );
    b.handle_operation(0, 0, true);
    assert_eq!(b.around_mines[1][1], 2);
    assert_eq!(b.around_flags[1][1], 1);
    let cells_before = b.cell_states.clone();
    let res = b.handle_operation(1, 1, false);
    assert_eq!(res, OpResult::Success { cells: vec![] });
    assert_eq!(b.cell_states, cells_before);
    assert_eq!(b.n_open, 1);
}

#[test]
fn chord_with_right_flags_opens_the_rest() {
    let mut b = with_mines(3, 3, &[(0, 0), (0, 2)]);
    b.handle_operation(1, 1, false);
    b.handle_operation(0, 0, true);
    b.handle_operation(0, 2, true);
    let res = b.handle_operation(1, 1, false);
    assert_eq!(res, OpResult::Win { mines: vec![Point { x: 0, y: 0 }, Point { x: 0, y: 2 }] });
    assert_eq!(b.n_open, 7);
    assert_eq!(b.cell_states[0][1], CellState::Opened { a_mines: 2 });
    assert_eq!(b.cell_states[2][0], CellState::Opened { a_mines: 0 });
    assert_eq!(b.cell_states[0][0], CellState::Flagged);
    counters_hold(&b);
}

#[test]
fn chord_reports_cells_in_the_order_of_opening() {
    let mut b = with_mines(5, 3, &[(0, 0), (1, 3)]);
    b.handle_operation(1, 1, false);
    b.handle_operation(0, 0, true);
    let res = b.handle_operation(1, 1, false);
    let open = |x: usize, y: usize, a_mines: u8| CellInfo {
        x,
        y,
        status: CellState::Opened { a_mines },
    };
    assert_eq!(
        res,
        OpResult::Success {
            cells: vec![
                open(0, 1, 1),
                open(0, 2, 1),
                open(1, 0, 1),
                open(1, 2, 1),
                open(2, 0, 0),
                open(2, 1, 0),
                open(2, 2, 1),
            ]
        }
    );
    assert_eq!(b.n_open, 8);
    assert!(!b.is_over);
    counters_hold(&b);
}

#[test]
fn chord_with_a_wrong_flag_loses() {
    let mut b = with_mines(3, 3, &[(0, 0), (2, 2)]);
    b.handle_operation(1, 1, false);
    b.handle_operation(0, 1, true);
    b.handle_operation(2, 2, true);
    let res = b.handle_operation(1, 1, false);
    assert_eq!(
        res,
        OpResult::Over {
            mines: vec![Point { x: 0, y: 0 }, Point { x: 2, y: 2 }],
            mine: Point { x: 0, y: 0 },
            wrong_flags: vec![Point { x: 0, y: 1 }],
        }
    );
    assert!(b.is_over);
    assert!(!b.is_win());
    assert_eq!(b.cell_states[0][0], CellState::Closed);
    assert_eq!(b.n_open, 1);
}

#[test]
fn chord_stops_at_the_first_mine_in_listing_order() {
    let mut b = with_mines(3, 3, &[(0, 2), (2, 0)]);
    b.handle_operation(1, 1, false);
    b.handle_operation(0, 0, true);
    b.handle_operation(2, 2, true);
    let res = b.handle_operation(1, 1, false);
    match res {
        OpResult::Over { mine, wrong_flags, .. } => {
            assert_eq!(mine, Point { x: 0, y: 2 });
            assert_eq!(wrong_flags, vec![Point { x: 0, y: 0 }, Point { x: 2, y: 2 }]);
        }
        other => panic!("expected a loss, got {:?}", other),
    }
    assert_eq!(b.cell_states[0][1], CellState::Opened { a_mines: 1 });
    assert_eq!(b.cell_states[1][0], CellState::Closed);
    assert_eq!(b.n_open, 2);
}

#[test]
fn opening_a_mine_loses() {
    let mut b = with_mines(3, 3, &[(1, 1)]);
    let res = b.handle_operation(1, 1, false);
    assert_eq!(
        res,
        OpResult::Over {
            mines: vec![Point { x: 1, y: 1 }],
            mine: Point { x: 1, y: 1 },
            wrong_flags: vec![],
        }
    );
    assert!(b.is_over);
    assert_eq!(b.n_open, 0);
}

#[test]
fn a_finished_round_ignores_actions() {
    let mut b = with_mines(3, 3, &[(1, 1)]);
    b.handle_operation(1, 1, false);
    let cells = b.cell_states.clone();
    let flags = b.around_flags.clone();
    assert_eq!(b.handle_operation(0, 0, false), OpResult::Success { cells: vec![] });
    assert_eq!(b.handle_operation(0, 0, true), OpResult::Success { cells: vec![] });
    assert_eq!(b.handle_operation(1, 1, false), OpResult::Success { cells: vec![] });
    assert_eq!(b.cell_states, cells);
    assert_eq!(b.around_flags, flags);
    assert_eq!(b.n_open, 0);
    assert!(b.is_over);

    let mut won = board(1, 1, 0);
    won.handle_operation(0, 0, false);
    assert_eq!(won.handle_operation(0, 0, false), OpResult::Success { cells: vec![] });
    assert_eq!(won.n_open, 1);
}

#[test]
fn actions_outside_the_grid_do_nothing() {
    let mut b = board(3, 2, 1);
    assert_eq!(b.handle_operation(2, 0, false), OpResult::Success { cells: vec![] });
    assert_eq!(b.handle_operation(0, 3, true), OpResult::Success { cells: vec![] });
    assert_eq!(b.handle_operation(usize::MAX, usize::MAX, false), OpResult::Success { cells: vec![] });
    assert!(b.is_first_op);
    assert_eq!(b.cell_states, vec![vec![CellState::Closed; 3]; 2]);
}

#[test]
fn flag_on_an_opened_cell_does_nothing() {
    let mut b = with_mines(3, 3, &[(0, 0), (0, 2)]);
    b.handle_operation(1, 1, false);
    let res = b.handle_operation(1, 1, true);
    assert_eq!(res, OpResult::Success { cells: vec![] });
    assert_eq!(b.cell_states[1][1], CellState::Opened { a_mines: 2 });
    assert_eq!(b.around_flags, vec![vec![0u8; 3]; 3]);
}

#[test]
fn cascade_passes_over_flags() {
    let mut b = with_mines(4, 1, &[(0, 3)]);
    b.handle_operation(0, 1, true);
    let res = b.handle_operation(0, 0, false);
    assert_eq!(
        res,
        OpResult::Success {
            cells: vec![CellInfo { x: 0, y: 0, status: CellState::Opened { a_mines: 0 } }]
        }
    );
    assert_eq!(b.cell_states[0][1], CellState::Flagged);
    assert_eq!(b.cell_states[0][2], CellState::Closed);
    assert_eq!(b.n_open, 1);
}

#[test]
fn cascade_reports_cells_in_the_order_of_opening() {
    let mut b = with_mines(5, 3, &[(0, 0), (1, 3)]);
    let res = b.handle_operation(2, 0, false);
    let open = |x: usize, y: usize, a_mines: u8| CellInfo {
        x,
        y,
        status: CellState::Opened { a_mines },
    };
    assert_eq!(
        res,
        OpResult::Success {
            cells: vec![
                open(2, 0, 0),
                open(1, 0, 1),
                open(1, 1, 1),
                open(2, 1, 0),
                open(1, 2, 1),
                open(2, 2, 1),
            ]
        }
    );
    assert_eq!(b.n_open, 6);
    counters_hold(&b);
}

#[test]
fn full_board_cascade_ends() {
    let mut b = board(40, 30, 0);
    let res = b.handle_operation(17, 23, false);
    assert_eq!(res, OpResult::Win { mines: vec![] });
    assert_eq!(b.n_open, 1200);
    assert_eq!(opened_cells(&b), 1200);
    assert!(b.is_over);
}

#[test]
fn first_open_places_the_mines_away_from_it() {
    for &(x, y) in &[(0usize, 0usize), (4, 4), (8, 8), (0, 5), (3, 0)] {
        let mut b = board(9, 9, 10);
        let res = b.handle_operation(x, y, false);
        assert!(matches!(res, OpResult::Success { .. }));
        assert!(!b.is_first_op);
        assert_eq!(count_mines(&b), 10);
        assert!(!b.mine_states[x][y]);
        let around = Neighbors::new(x, y, 9, 9).collect();
        for (r, c) in around {
            assert!(!b.mine_states[r][c]);
        }
        assert_eq!(b.cell_states[x][y], CellState::Opened { a_mines: 0 });
        assert_eq!(b.n_open, opened_cells(&b));
        counters_hold(&b);
    }
}

#[test]
fn first_open_keeps_flags_set_before() {
    let mut b = board(5, 5, 3);
    b.handle_operation(4, 4, true);
    let res = b.handle_operation(0, 0, false);
    assert!(!matches!(res, OpResult::Over { .. }));
    assert_eq!(b.cell_states[4][4], CellState::Flagged);
    assert_eq!(count_mines(&b), 3);
    counters_hold(&b);
}

#[test]
fn first_open_places_fewer_mines_where_there_is_no_room() {
    let mut b = board(3, 3, 8);
    let res = b.handle_operation(1, 1, false);
    assert_eq!(count_mines(&b), 0);
    assert_eq!(res, OpResult::Win { mines: vec![] });
    assert_eq!(b.n_open, 1);

    let mut c = board(4, 3, 11);
    let res = c.handle_operation(0, 0, false);
    assert_eq!(count_mines(&c), 8);
    assert!(matches!(res, OpResult::Win { .. }));
    assert_eq!(c.n_open, 1);
    counters_hold(&c);
}

#[test]
fn mines_are_placed_at_random() {
    let mut elsewhere = false;
    for _ in 0..60 {
        let mut b = board(10, 10, 1);
        b.handle_operation(0, 0, false);
        assert_eq!(count_mines(&b), 1);
        if !b.mine_states[0][2] {
            elsewhere = true;
        }
    }
    assert!(elsewhere);
}

#[test]
fn mines_stay_where_they_were_placed() {
    let mut b = board(8, 8, 12);
    b.handle_operation(3, 3, false);
    let placed = b.mine_states.clone();
    b.handle_operation(0, 0, true);
    b.handle_operation(7, 7, false);
    b.handle_operation(0, 0, false);
    b.handle_operation(3, 3, false);
    assert_eq!(b.mine_states, placed);
    counters_hold(&b);
}

#[test]
fn candidates_leave_out_the_first_cell_and_its_surroundings() {
    let b = board(3, 3, 1);
    let p = |x: usize, y: usize| Point { x, y };
    assert_eq!(b.candidates(0, 0), vec![p(0, 2), p(1, 2), p(2, 0), p(2, 1), p(2, 2)]);
    assert_eq!(b.candidates(1, 1), vec![]);
    assert_eq!(b.candidates(2, 1), vec![p(0, 0), p(0, 1), p(0, 2)]);
    let wide = board(5, 1, 1);
    assert_eq!(wide.candidates(0, 2), vec![p(0, 0), p(0, 4)]);
}

#[test]
fn lay_mines_takes_the_first_entries_inside_the_grid() {
    let mut b = board(3, 3, 2);
    let p = |x: usize, y: usize| Point { x, y };
    b.lay_mines(&vec![p(1, 1), p(7, 7), p(0, 0)]);
    assert_eq!(b.mines_point(), vec![p(1, 1)]);
    assert!(!b.is_first_op);
    assert_eq!(b.around_mines, vec![vec![1, 1, 1], vec![1, 0, 1], vec![1, 1, 1]]);

    let mut c = board(3, 3, 2);
    c.lay_mines(&vec![p(0, 0), p(0, 0), p(2, 2)]);
    assert_eq!(c.mines_point(), vec![p(0, 0)]);
    assert_eq!(c.around_mines, vec![vec![0, 1, 0], vec![1, 1, 0], vec![0, 0, 0]]);

    let mut d = board(3, 3, 2);
    d.lay_mines(&vec![p(2, 2), p(0, 1), p(1, 1)]);
    assert_eq!(d.mines_point(), vec![p(0, 1), p(2, 2)]);
    assert_eq!(d.around_mines, vec![vec![1, 0, 1], vec![1, 2, 2], vec![0, 1, 0]]);
}

#[test]
fn lay_mines_works_once_in_a_round() {
    let mut b = with_mines(3, 3, &[(0, 0)]);
    b.lay_mines(&vec![Point { x: 2, y: 2 }]);
    assert_eq!(b.mines_point(), vec![Point { x: 0, y: 0 }]);
    assert_eq!(b.around_mines[1][1], 1);
}

#[test]
fn wrong_flags_lists_flags_without_a_mine() {
    let mut b = with_mines(3, 3, &[(0, 0), (2, 2)]);
    b.handle_operation(2, 2, true);
    b.handle_operation(2, 0, true);
    b.handle_operation(0, 1, true);
    assert_eq!(b.wrong_flags(), vec![Point { x: 0, y: 1 }, Point { x: 2, y: 0 }]);
    b.handle_operation(2, 0, true);
    assert_eq!(b.wrong_flags(), vec![Point { x: 0, y: 1 }]);
}

#[test]
fn win_needs_every_safe_cell() {
    let mut b = with_mines(2, 2, &[(0, 0)]);
    assert!(matches!(b.handle_operation(0, 1, false), OpResult::Success { .. }));
    assert!(!b.is_win());
    assert!(matches!(b.handle_operation(1, 0, false), OpResult::Success { .. }));
    assert_eq!(b.n_open, 2);
    assert!(!b.is_over);
    assert_eq!(
        b.handle_operation(1, 1, false),
        OpResult::Win { mines: vec![Point { x: 0, y: 0 }] }
    );
    assert_eq!(b.n_open, 3);
    assert!(b.is_win());
}

#[test]
fn board_check_accepts_what_the_board_makes() {
    let mut b = board(6, 5, 7);
    assert!(b.check());
    for (x, y, f) in [(0, 0, true), (2, 3, false), (0, 0, false), (4, 5, true), (2, 3, false), (4, 0, false)] {
        b.handle_operation(x, y, f);
        assert!(b.check());
    }
    let mut c = with_mines(3, 3, &[(1, 1)]);
    assert!(c.check());
    c.handle_operation(1, 1, false);
    assert!(c.check());
}

#[test]
fn board_check_finds_what_is_out_of_order() {
    let good = || with_mines(3, 3, &[(0, 0), (2, 2)]);
    assert!(good().check());

    let mut b = good();
    b.around_mines[1][1] = 1;
    assert!(!b.check());

    let mut b = good();
    b.around_flags[0][1] = 1;
    assert!(!b.check());

    let mut b = good();
    b.mine_states[0][2] = true;
    assert!(!b.check());

    let mut b = good();
    b.cell_states[0][0] = CellState::Opened { a_mines: 0 };
    assert!(!b.check());

    let mut b = good();
    b.cell_states[1][1] = CellState::Opened { a_mines: 3 };
    assert!(!b.check());

    let mut b = good();
    b.is_first_op = true;
    assert!(!b.check());

    let mut b = good();
    b.n_open = 8;
    assert!(!b.check());

    let mut b = good();
    b.n_open = 7;
    assert!(!b.check());
    b.is_over = true;
    assert!(!b.check());

    let mut b = with_mines(2, 1, &[(0, 0)]);
    b.handle_operation(0, 1, false);
    assert!(b.is_over);
    assert!(b.check());
    b.is_over = false;
    assert!(!b.check());

    let mut b = good();
    b.handle_operation(0, 1, false);
    assert_eq!(b.count_opened(), 1);
    b.n_open = 0;
    assert!(!b.check());

    let mut b = good();
    b.rows = 4;
    assert!(!b.check());

    let mut b = good();
    b.mines = 9;
    assert!(!b.check());

    let mut b = good();
    b.cell_states[2].pop();
    assert!(!b.check());

    let mut b = good();
    b.cell_states[0][1] = CellState::Flagged;
    assert!(!b.check());
    b.around_flags = vec![vec![1, 0, 1], vec![1, 1, 1], vec![0, 0, 0]];
    assert!(b.check());
}

#[test]
fn reported_cells_account_for_every_change() {
    let mut seed: u64 = 0x9e37_79b9_7f4a_7c15;
    let mut next = |n: u64| {
        seed ^= seed << 13;
        seed ^= seed >> 7;
        seed ^= seed << 17;
        seed % n
    };
    let mut successes = 0;
    for _ in 0..40 {
        let mut b = board(10, 8, 12);
        for _ in 0..200 {
            let before = b.cell_states.clone();
            let res = b.handle_operation(next(8) as usize, next(10) as usize, next(3) == 0);
            assert!(b.check());
            match res {
                OpResult::Success { cells } => {
                    let mut expected = before;
                    let mut seen = std::collections::HashSet::new();
                    for cell in &cells {
                        assert!(seen.insert((cell.x, cell.y)));
                        expected[cell.x][cell.y] = cell.status;
                    }
                    assert_eq!(b.cell_states, expected);
                    successes += 1;
                }
                _ => {
                    assert!(b.is_over);
                    break;
                }
            }
        }
    }
    assert!(successes > 100);
}

#[test]
fn a_round_with_all_its_mines_is_won_when_all_other_cells_are_open() {
    let mut b = board(6, 6, 5);
    b.handle_operation(0, 0, false);
    assert_eq!(count_mines(&b), 5);
    let mut won = b.is_over;
    for r in 0..6 {
        for c in 0..6 {
            if !b.mine_states[r][c] {
                let all_open = opened_cells(&b) == 31;
                assert_eq!(b.is_win(), all_open);
                let res = b.handle_operation(r, c, false);
                assert!(!matches!(res, OpResult::Over { .. }));
                won = won || matches!(res, OpResult::Win { .. });
            }
        }
    }
    assert!(won);
    assert!(b.is_win());
    assert_eq!(opened_cells(&b), 31);
    for r in 0..6 {
        for c in 0..6 {
            assert_eq!(b.mine_states[r][c], b.cell_states[r][c] == CellState::Closed);
        }
    }
}
