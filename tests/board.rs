use minesweeper::{in_bounds, Board, BoardError, CellState, Direction};

fn count_cells(b: &Board, want_mine: bool) -> usize {
    let mut n = 0;
    for r in 0..b.height() {
        for c in 0..b.width() {
            if b.get_cell_state(r, c).unwrap().is_mine() == want_mine {
                n += 1;
            }
        }
    }
    n
}

fn brute_force_count(b: &Board, r: usize, c: usize) -> u8 {
    let mut n = 0;
    for dr in -1i64..=1 {
        for dc in -1i64..=1 {
            if dr == 0 && dc == 0 {
                continue;
            }
            let rr = r as i64 + dr;
            let cc = c as i64 + dc;
            if rr < 0 || cc < 0 {
                continue;
            }
            if let Some(CellState::Mine(_, _)) = b.get_cell_state(rr as usize, cc as usize) {
                n += 1;
            }
        }
    }
    n
}

#[test]
fn new_board_has_requested_mines() {
    let b = Board::new(7, 5, 9);
    assert_eq!(b.width(), 7);
    assert_eq!(b.height(), 5);
    assert!(!b.is_game_over());
    assert_eq!(count_cells(&b, true), 9);
    assert_eq!(count_cells(&b, false), 7 * 5 - 9);
}

#[test]
fn new_board_all_mines_and_no_mines() {
    let full = Board::new(3, 4, 12);
    assert_eq!(count_cells(&full, true), 12);
    let empty = Board::new(3, 4, 0);
    assert_eq!(count_cells(&empty, true), 0);
    for r in 0..4 {
        for c in 0..3 {
            assert_eq!(empty.get_cell_state(r, c), Some(CellState::Neighbours(false, 0)));
        }
    }
}

#[test]
fn new_board_nothing_revealed_or_flagged() {
    let b = Board::new(6, 6, 10);
    for r in 0..6 {
        for c in 0..6 {
            let cell = b.get_cell_state(r, c).unwrap();
            assert!(!cell.is_revealed());
            assert_ne!(cell, CellState::Mine(false, true));
        }
    }
}

#[test]
fn counts_match_brute_force() {
    for _ in 0..5 {
        let b = Board::new(9, 7, 20);
        for r in 0..7 {
            for c in 0..9 {
                if let Some(CellState::Neighbours(_, n)) = b.get_cell_state(r, c) {
                    assert_eq!(n, brute_force_count(&b, r, c));
                }
            }
        }
    }
}

#[test]
fn single_centre_mine_counts_one_and_no_cascade() {
    let mut b = Board::with_mines(3, 3, &vec![(1, 1)]).unwrap();
    for r in 0..3 {
        for c in 0..3 {
            if (r, c) == (1, 1) {
                assert_eq!(b.get_cell_state(r, c), Some(CellState::Mine(false, false)));
            } else {
                assert_eq!(b.get_cell_state(r, c), Some(CellState::Neighbours(false, 1)));
            }
        }
    }
    assert_eq!(b.reveal_cell(0, 0), Ok(()));
    for r in 0..3 {
        for c in 0..3 {
            let revealed = b.get_cell_state(r, c).unwrap().is_revealed();
            assert_eq!(revealed, (r, c) == (0, 0));
        }
    }
    assert!(!b.is_game_over());
}

#[test]
fn empty_board_reveals_everything_at_once() {
    for (r0, c0) in [(0, 0), (2, 3), (4, 4)] {
        let mut b = Board::new(5, 5, 0);
        assert_eq!(b.reveal_cell(r0, c0), Ok(()));
        for r in 0..5 {
            for c in 0..5 {
                assert_eq!(b.get_cell_state(r, c), Some(CellState::Neighbours(true, 0)));
            }
        }
    }
}

#[test]
fn zero_region_and_border_revealed_mines_untouched() {
    // mines in the left column; the rest is one zero region with a numbered border
    let mut b = Board::with_mines(5, 4, &vec![(0, 0), (1, 0), (2, 0), (3, 0)]).unwrap();
    assert_eq!(b.reveal_cell(3, 4), Ok(()));
    for r in 0..4 {
        assert_eq!(b.get_cell_state(r, 0), Some(CellState::Mine(false, false)));
        for c in 1..5 {
            assert!(b.get_cell_state(r, c).unwrap().is_revealed());
        }
    }
    assert_eq!(b.get_cell_state(0, 1), Some(CellState::Neighbours(true, 2)));
    assert_eq!(b.get_cell_state(1, 1), Some(CellState::Neighbours(true, 3)));
    assert_eq!(b.get_cell_state(1, 2), Some(CellState::Neighbours(true, 0)));
}

#[test]
fn zero_region_stops_at_wall_of_mines() {
    // a column of mines splits the board in two
    let mines = vec![(0, 2), (1, 2), (2, 2)];
    let mut b = Board::with_mines(5, 3, &mines).unwrap();
    assert_eq!(b.reveal_cell(1, 0), Ok(()));
    for r in 0..3 {
        assert!(b.get_cell_state(r, 0).unwrap().is_revealed());
        assert!(b.get_cell_state(r, 1).unwrap().is_revealed());
        assert!(!b.get_cell_state(r, 2).unwrap().is_revealed());
        assert!(!b.get_cell_state(r, 3).unwrap().is_revealed());
        assert!(!b.get_cell_state(r, 4).unwrap().is_revealed());
    }
}

#[test]
fn revealing_numbered_cell_reveals_only_it() {
    let mut b = Board::with_mines(4, 4, &vec![(0, 0)]).unwrap();
    assert_eq!(b.reveal_cell(1, 1), Ok(()));
    assert_eq!(b.get_cell_state(1, 1), Some(CellState::Neighbours(true, 1)));
    assert_eq!(b.get_cell_state(2, 2), Some(CellState::Neighbours(false, 0)));
}

#[test]
fn revealing_mine_ends_game_for_good() {
    let mut b = Board::with_mines(3, 3, &vec![(0, 0)]).unwrap();
    assert_eq!(b.reveal_cell(0, 0), Ok(()));
    assert!(b.is_game_over());
    assert_eq!(b.get_cell_state(0, 0), Some(CellState::Mine(true, false)));
    let before = b.render();
    assert_eq!(b.reveal_cell(2, 2), Err(BoardError::GameOver));
    assert_eq!(b.reveal_cell(9, 9), Err(BoardError::GameOver));
    assert!(b.is_game_over());
    assert_eq!(b.render(), before);
    assert_eq!(b.get_cell_state(2, 2), Some(CellState::Neighbours(false, 0)));
}

#[test]
fn revealing_flagged_mine_is_no_op() {
    let mut b = Board::with_mines(3, 3, &vec![(2, 1)]).unwrap();
    assert_eq!(b.flag_cell(2, 1), Ok(()));
    assert_eq!(b.reveal_cell(2, 1), Ok(()));
    assert!(!b.is_game_over());
    assert_eq!(b.get_cell_state(2, 1), Some(CellState::Mine(false, true)));
}

#[test]
fn flag_toggles_back() {
    let mut b = Board::with_mines(3, 3, &vec![(0, 2)]).unwrap();
    assert_eq!(b.flag_cell(0, 2), Ok(()));
    assert_eq!(b.get_cell_state(0, 2), Some(CellState::Mine(false, true)));
    assert_eq!(b.flag_cell(0, 2), Ok(()));
    assert_eq!(b.get_cell_state(0, 2), Some(CellState::Mine(false, false)));
}

#[test]
fn flag_ignores_safe_and_revealed_cells() {
    let mut b = Board::with_mines(3, 3, &vec![(0, 0)]).unwrap();
    assert_eq!(b.flag_cell(2, 2), Ok(()));
    assert_eq!(b.get_cell_state(2, 2), Some(CellState::Neighbours(false, 0)));
    assert_eq!(b.reveal_cell(0, 0), Ok(()));
    assert_eq!(b.flag_cell(0, 0), Ok(()));
    assert_eq!(b.get_cell_state(0, 0), Some(CellState::Mine(true, false)));
}

#[test]
fn flag_still_works_after_game_over() {
    let mut b = Board::with_mines(3, 3, &vec![(0, 0), (2, 2)]).unwrap();
    assert_eq!(b.reveal_cell(0, 0), Ok(()));
    assert!(b.is_game_over());
    assert_eq!(b.flag_cell(2, 2), Ok(()));
    assert_eq!(b.get_cell_state(2, 2), Some(CellState::Mine(false, true)));
}

#[test]
fn out_of_bounds_changes_nothing() {
    let mut b = Board::with_mines(4, 3, &vec![(1, 1)]).unwrap();
    let before = b.render();
    assert_eq!(b.reveal_cell(3, 0), Err(BoardError::OutOfBounds));
    assert_eq!(b.reveal_cell(0, 4), Err(BoardError::OutOfBounds));
    assert_eq!(b.flag_cell(3, 0), Err(BoardError::OutOfBounds));
    assert_eq!(b.flag_cell(usize::MAX, usize::MAX), Err(BoardError::OutOfBounds));
    assert_eq!(b.render(), before);
    assert!(!b.is_game_over());
    assert_eq!(b.get_cell_state(3, 0), None);
    assert_eq!(b.get_cell_state(0, 4), None);
}

#[test]
fn with_mines_rejects_bad_input() {
    assert!(matches!(Board::with_mines(0, 3, &vec![]), Err(BoardError::InvalidConstruction)));
    assert!(matches!(Board::with_mines(3, 0, &vec![]), Err(BoardError::InvalidConstruction)));
    assert!(matches!(Board::with_mines(3, 3, &vec![(0, 0), (3, 1)]), Err(BoardError::InvalidConstruction)));
    assert!(matches!(Board::with_mines(3, 3, &vec![(1, 3)]), Err(BoardError::InvalidConstruction)));
    assert!(Board::with_mines(3, 3, &vec![(2, 2), (2, 2)]).is_ok());
}

#[test]
fn render_exact_text() {
    let mut b = Board::with_mines(2, 2, &vec![(0, 0)]).unwrap();
    assert_eq!(b.render(), "---------\n|   |   |\n---------\n|   |   |\n---------\n");
    assert_eq!(b.reveal_cell(1, 1), Ok(()));
    assert_eq!(b.render(), "---------\n|   |   |\n---------\n|   | 1 |\n---------\n");
    assert_eq!(b.flag_cell(0, 0), Ok(()));
    assert_eq!(b.render(), "---------\n| ! |   |\n---------\n|   | 1 |\n---------\n");
    assert_eq!(b.flag_cell(0, 0), Ok(()));
    assert_eq!(b.reveal_cell(0, 0), Ok(()));
    assert_eq!(b.render(), "---------\n| X |   |\n---------\n|   | 1 |\n---------\n");
}

#[test]
fn cell_symbols() {
    assert_eq!(CellState::Mine(true, false).symbol(), 'X');
    assert_eq!(CellState::Mine(false, true).symbol(), '!');
    assert_eq!(CellState::Mine(false, false).symbol(), ' ');
    assert_eq!(CellState::Neighbours(true, 3).symbol(), '3');
    assert_eq!(CellState::Neighbours(false, 3).symbol(), ' ');
    assert_eq!(CellState::Neighbours(true, 0).symbol(), ' ');
    assert_eq!(CellState::Neighbours(true, 8).symbol(), '8');
}

#[test]
fn render_shows_revealed_zero_as_blank() {
    let mut b = Board::with_mines(2, 1, &vec![(0, 0)]).unwrap();
    let mut empty = Board::with_mines(2, 1, &vec![]).unwrap();
    assert_eq!(empty.reveal_cell(0, 0), Ok(()));
    assert_eq!(empty.get_cell_state(0, 1), Some(CellState::Neighbours(true, 0)));
    assert_eq!(empty.render(), "---------\n|   |   |\n---------\n");
    assert_eq!(b.reveal_cell(0, 1), Ok(()));
    assert_eq!(b.render(), "---------\n|   | 1 |\n---------\n");
}

#[test]
fn in_bounds_checks_both_coordinates() {
    assert!(in_bounds(3, 2, (1, 2)));
    assert!(!in_bounds(3, 2, (2, 0)));
    assert!(!in_bounds(3, 2, (0, 3)));
}

#[test]
fn direction_offsets() {
    assert_eq!(Direction::N.offset((0, 0)), None);
    assert_eq!(Direction::N.offset((2, 3)), Some((1, 3)));
    assert_eq!(Direction::SE.offset((2, 3)), Some((3, 4)));
    assert_eq!(Direction::NW.offset((1, 0)), None);
    assert_eq!(Direction::SW.offset((1, 1)), Some((2, 0)));
    assert_eq!(Direction::E.offset((0, usize::MAX)), None);
    assert_eq!(Direction::nth(7), Direction::NW);
}

#[test]
fn try_new_validates_parameters() {
    assert!(matches!(Board::try_new(0, 4, 0), Err(BoardError::InvalidConstruction)));
    assert!(matches!(Board::try_new(4, 0, 0), Err(BoardError::InvalidConstruction)));
    assert!(matches!(Board::try_new(2, 2, 5), Err(BoardError::InvalidConstruction)));
    assert!(matches!(Board::try_new(usize::MAX, 2, 0), Err(BoardError::InvalidConstruction)));
    let b = Board::try_new(2, 2, 4).unwrap();
    assert_eq!(count_cells(&b, true), 4);
}
