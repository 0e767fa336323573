use minefield::board::{pick_mines, Board, BoardError, Outcome};
use minefield::field::FieldState;

fn open_all(board: &mut Board) {
    for y in 0..board.height() {
        for x in 0..board.width() {
            board.open(x, y).unwrap();
        }
    }
}

fn mine_at(board: &Board, x: usize, y: usize) -> bool {
    board.get_cell(x, y).unwrap().is_mine.unwrap()
}

#[test]
fn new_rejects_bad_config() {
    assert!(matches!(Board::new(0, 3, 0, 1), Err(BoardError::InvalidConfig)));
    assert!(matches!(Board::new(3, 0, 0, 1), Err(BoardError::InvalidConfig)));
    assert!(matches!(Board::new(3, 3, 9, 1), Err(BoardError::InvalidConfig)));
    assert!(matches!(Board::new(3, 3, 10, 1), Err(BoardError::InvalidConfig)));
    assert!(Board::new(3, 3, 8, 1).is_ok());
    assert!(Board::new(1, 1, 0, 1).is_ok());
}

#[test]
fn with_mines_rejects_bad_layouts() {
    assert!(matches!(Board::with_mines(3, 3, &vec![9]), Err(BoardError::InvalidConfig)));
    assert!(matches!(Board::with_mines(3, 3, &vec![1, 1]), Err(BoardError::InvalidConfig)));
    assert!(matches!(Board::with_mines(2, 1, &vec![0, 1]), Err(BoardError::InvalidConfig)));
    assert!(matches!(Board::with_mines(0, 1, &vec![]), Err(BoardError::InvalidConfig)));
    assert!(Board::with_mines(2, 1, &vec![1]).is_ok());
}

#[test]
fn new_board_is_closed_and_in_progress() {
    let board = Board::new(4, 3, 2, 7).unwrap();
    assert_eq!(board.width(), 4);
    assert_eq!(board.height(), 3);
    assert_eq!(board.mine_count(), 2);
    assert_eq!(board.revealed_count(), 0);
    assert_eq!(board.outcome(), Outcome::InProgress);
    for y in 0..3 {
        for x in 0..4 {
            let cell = board.get_cell(x, y).unwrap();
            assert_eq!(cell.visibility, FieldState::Closed);
            assert_eq!(cell.is_mine, None);
            assert_eq!(cell.adjacent_mine_count, None);
        }
    }
}

#[test]
fn mine_count_matches_after_construction() {
    for seed in 0..20u64 {
        let mut board = Board::new(6, 5, 7, seed).unwrap();
        open_all(&mut board);
        assert_eq!(board.outcome(), Outcome::Lost);
        let mut mines = 0;
        for y in 0..5 {
            for x in 0..6 {
                if mine_at(&board, x, y) {
                    mines += 1;
                }
            }
        }
        assert_eq!(mines, 7);
    }
}

#[test]
fn adjacent_counts_match_mine_neighbors() {
    let mut board = Board::new(6, 5, 9, 99).unwrap();
    open_all(&mut board);
    for y in 0..5usize {
        for x in 0..6usize {
            if mine_at(&board, x, y) {
                continue;
            }
            let mut expected = 0u8;
            for ny in y.saturating_sub(1)..=(y + 1).min(4) {
                for nx in x.saturating_sub(1)..=(x + 1).min(5) {
                    if (nx, ny) != (x, y) && mine_at(&board, nx, ny) {
                        expected += 1;
                    }
                }
            }
            assert_eq!(board.get_cell(x, y).unwrap().adjacent_mine_count, Some(expected));
        }
    }
}

#[test]
fn cascade_stops_at_numbered_cells() {
    // Column 2 is a wall of mines on a 5x5 board.
    let mut board = Board::with_mines(5, 5, &vec![2, 7, 12, 17, 22]).unwrap();
    let res = board.open(0, 0).unwrap();
    let mut opened = res.opened.clone();
    assert_eq!(opened[0], 0);
    opened.sort();
    assert_eq!(opened, vec![0, 1, 5, 6, 10, 11, 15, 16, 20, 21]);
    assert_eq!(res.outcome, Outcome::InProgress);
    for y in 0..5 {
        assert_eq!(board.get_cell(1, y).unwrap().adjacent_mine_count.map(|c| c > 0), Some(true));
        for x in 2..5 {
            assert_eq!(board.get_cell(x, y).unwrap().visibility, FieldState::Closed);
        }
    }
    assert_eq!(board.revealed_count(), 10);
}

#[test]
fn cascade_skips_flagged_cells() {
    let mut board = Board::new(3, 3, 0, 5).unwrap();
    assert_eq!(board.toggle_flag(2, 2), Ok(FieldState::Flagged));
    let res = board.open(0, 0).unwrap();
    assert_eq!(res.opened.len(), 8);
    assert_eq!(board.get_cell(2, 2).unwrap().visibility, FieldState::Flagged);
    assert_eq!(res.outcome, Outcome::InProgress);
}

#[test]
fn opening_twice_is_a_no_op() {
    let mut board = Board::with_mines(4, 4, &vec![15]).unwrap();
    let first = board.open(0, 3).unwrap();
    assert!(!first.opened.is_empty());
    let count = board.revealed_count();
    let second = board.open(0, 3).unwrap();
    assert!(second.opened.is_empty());
    assert_eq!(board.revealed_count(), count);
    assert_eq!(second.outcome, first.outcome);
}

#[test]
fn outcome_lost_and_won() {
    let mut board = Board::with_mines(2, 2, &vec![3]).unwrap();
    assert_eq!(board.open(0, 0).unwrap().outcome, Outcome::InProgress);
    assert_eq!(board.open(1, 0).unwrap().outcome, Outcome::InProgress);
    assert_eq!(board.open(0, 1).unwrap().outcome, Outcome::Won);
    assert_eq!(board.outcome(), Outcome::Won);

    let mut board = Board::with_mines(2, 2, &vec![3]).unwrap();
    assert_eq!(board.open(1, 1).unwrap().outcome, Outcome::Lost);
    assert_eq!(board.get_cell(0, 0).unwrap().is_mine, Some(false));
    assert_eq!(board.get_cell(0, 0).unwrap().visibility, FieldState::Closed);
}

#[test]
fn single_center_mine_scenario() {
    let mut board = Board::with_mines(3, 3, &vec![4]).unwrap();
    let res = board.open(0, 0).unwrap();
    assert_eq!(res.opened, vec![0]);
    assert_eq!(res.outcome, Outcome::InProgress);
    assert_eq!(board.get_cell(0, 0).unwrap().adjacent_mine_count, Some(1));
    let res = board.open(1, 1).unwrap();
    assert_eq!(res.opened, vec![4]);
    assert_eq!(res.outcome, Outcome::Lost);
    open_all(&mut board);
    for y in 0..3 {
        for x in 0..3 {
            if (x, y) != (1, 1) {
                assert_eq!(board.get_cell(x, y).unwrap().adjacent_mine_count, Some(1));
                assert_eq!(board.get_cell(x, y).unwrap().is_mine, Some(false));
            }
        }
    }
    assert_eq!(board.get_cell(1, 1).unwrap().is_mine, Some(true));
}

#[test]
fn empty_board_opens_everything() {
    for (x, y) in [(0, 0), (2, 3), (4, 4)] {
        let mut board = Board::new(5, 5, 0, 1234).unwrap();
        let res = board.open(x, y).unwrap();
        assert_eq!(res.opened.len(), 25);
        assert_eq!(res.opened[0], x + 5 * y);
        assert_eq!(res.outcome, Outcome::Won);
        assert_eq!(board.revealed_count(), 25);
    }
}

#[test]
fn flag_on_opened_cell_is_a_no_op() {
    let mut board = Board::with_mines(3, 3, &vec![4]).unwrap();
    board.open(0, 0).unwrap();
    assert_eq!(board.toggle_flag(0, 0), Ok(FieldState::Opened));
    assert_eq!(board.get_cell(0, 0).unwrap().visibility, FieldState::Opened);
}

#[test]
fn unflag_then_open() {
    let mut board = Board::with_mines(3, 3, &vec![4]).unwrap();
    assert_eq!(board.toggle_flag(2, 0), Ok(FieldState::Flagged));
    let blocked = board.open(2, 0).unwrap();
    assert!(blocked.opened.is_empty());
    assert_eq!(board.get_cell(2, 0).unwrap().visibility, FieldState::Flagged);
    assert_eq!(board.toggle_flag(2, 0), Ok(FieldState::Closed));
    let res = board.open(2, 0).unwrap();
    assert_eq!(res.opened, vec![2]);
    assert_eq!(board.get_cell(2, 0).unwrap().visibility, FieldState::Opened);
}

#[test]
fn out_of_bounds_positions() {
    let mut board = Board::new(3, 2, 1, 3).unwrap();
    assert!(matches!(board.open(3, 0), Err(BoardError::OutOfBounds)));
    assert!(matches!(board.open(0, 2), Err(BoardError::OutOfBounds)));
    assert_eq!(board.toggle_flag(5, 5), Err(BoardError::OutOfBounds));
    assert!(matches!(board.get_cell(3, 1), Err(BoardError::OutOfBounds)));
    assert_eq!(board.revealed_count(), 0);
}

#[test]
fn pick_mines_distinct_and_in_range() {
    for seed in 0..50u64 {
        let mines = pick_mines(10, 6, seed);
        assert_eq!(mines.len(), 6);
        let mut sorted = mines.clone();
        sorted.sort();
        sorted.dedup();
        assert_eq!(sorted.len(), 6);
        assert!(mines.iter().all(|&m| m < 10));
        assert_eq!(pick_mines(10, 6, seed), mines);
    }
    let mut all = pick_mines(5, 5, 77);
    all.sort();
    assert_eq!(all, vec![0, 1, 2, 3, 4]);
}

#[test]
fn largest_mine_count_leaves_one_safe_cell() {
    let mut board = Board::new(3, 3, 8, 11).unwrap();
    let mut safe = None;
    open_all(&mut board);
    for y in 0..3 {
        for x in 0..3 {
            if !mine_at(&board, x, y) {
                assert!(safe.is_none());
                safe = Some((x, y));
            }
        }
    }
    let (x, y) = safe.unwrap();
    assert_eq!(board.get_cell(x, y).unwrap().adjacent_mine_count, Some(neighbors_len(x, y)));
}

fn neighbors_len(x: usize, y: usize) -> u8 {
    minefield::grid::neighbors(x, y, 3, 3).len() as u8
}
