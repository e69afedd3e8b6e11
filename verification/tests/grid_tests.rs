use tetros::BlockColour;
use tetros::Board;

fn filled_board_except_top() -> Board {
    let mut board = Board::new(10, 18);
    for y in 1..18 {
        for x in 0..10 {
            board.set((x, y), BlockColour::Blue);
        }
    }
    board
}

#[test]
fn new_board_is_empty() {
    let board = Board::new(10, 18);
    for y in 0..18 {
        for x in 0..10 {
            assert_eq!(board.get((x, y)), BlockColour::Empty);
            assert!(board.is_free((x, y)));
        }
    }
    assert_eq!(board.width(), 10);
    assert_eq!(board.height(), 18);
}

#[test]
fn set_and_get_round_trip() {
    let mut board = Board::new(10, 18);
    board.set((5, 5), BlockColour::Red);
    assert_eq!(board.get((5, 5)), BlockColour::Red);
    assert!(!board.is_free((5, 5)));
    assert!(board.is_free((5, 6)));
}

#[test]
fn set_out_of_bounds_is_ignored() {
    let mut board = Board::new(10, 18);
    board.set((10, 0), BlockColour::Red);
    board.set((0, 18), BlockColour::Red);
    board.set((100, 100), BlockColour::Red);
    for y in 0..18 {
        for x in 0..10 {
            assert_eq!(board.get((x, y)), BlockColour::Empty);
        }
    }
}

#[test]
fn out_of_bounds_is_not_free() {
    let board = Board::new(10, 18);
    assert!(!board.is_free((10, 0)));
    assert!(!board.is_free((0, 18)));
    assert!(!board.is_free((10, 18)));
}

#[test]
fn find_full_row_finds_first() {
    let mut board = Board::new(10, 18);
    assert_eq!(board.find_full_row(), None);
    for x in 0..10 {
        board.set((x, 9), BlockColour::Green);
        board.set((x, 12), BlockColour::Green);
    }
    assert_eq!(board.find_full_row(), Some(9));
    // a row with one hole is not full
    board.set((4, 9), BlockColour::Empty);
    assert_eq!(board.find_full_row(), Some(12));
}

#[test]
fn clear_row_empties_only_that_row() {
    let mut board = Board::new(10, 18);
    for x in 0..10 {
        board.set((x, 3), BlockColour::Red);
        board.set((x, 4), BlockColour::Blue);
    }
    board.clear_row(3);
    for x in 0..10 {
        assert_eq!(board.get((x, 3)), BlockColour::Empty);
        assert_eq!(board.get((x, 4)), BlockColour::Blue);
    }
}

#[test]
fn compact_shifts_rows_down() {
    let mut board = Board::new(10, 18);
    board.set((2, 10), BlockColour::Red);
    board.set((7, 11), BlockColour::Blue);
    board.set((1, 13), BlockColour::Green);
    board.compact_from(12);
    // rows 1..=12 take the contents of the row above; row 0 is cleared
    assert_eq!(board.get((2, 11)), BlockColour::Red);
    assert_eq!(board.get((7, 12)), BlockColour::Blue);
    assert_eq!(board.get((2, 10)), BlockColour::Empty);
    assert_eq!(board.get((7, 11)), BlockColour::Empty);
    // rows below the compacted row stay put
    assert_eq!(board.get((1, 13)), BlockColour::Green);
    for x in 0..10 {
        assert_eq!(board.get((x, 0)), BlockColour::Empty);
    }
}

#[test]
fn clean_on_empty_board_returns_zero() {
    let mut board = Board::new(10, 18);
    assert_eq!(board.clean(), 0);
}

#[test]
fn clean_two_bottom_rows() {
    let mut board = Board::new(10, 18);
    for x in 0..10 {
        board.set((x, 16), BlockColour::Red);
        board.set((x, 17), BlockColour::Yellow);
    }
    assert_eq!(board.clean(), 2);
    for y in 0..18 {
        for x in 0..10 {
            assert_eq!(board.get((x, y)), BlockColour::Empty);
        }
    }
    assert_eq!(board.find_full_row(), None);
}

#[test]
fn clean_drops_rows_above() {
    let mut board = Board::new(10, 18);
    for x in 0..10 {
        board.set((x, 17), BlockColour::Red);
    }
    board.set((0, 16), BlockColour::Blue);
    assert_eq!(board.clean(), 1);
    assert_eq!(board.get((0, 17)), BlockColour::Blue);
    assert_eq!(board.get((0, 16)), BlockColour::Empty);
}

#[test]
fn clean_separated_full_rows() {
    let mut board = Board::new(10, 18);
    for x in 0..10 {
        board.set((x, 5), BlockColour::Red);
        board.set((x, 9), BlockColour::Green);
    }
    board.set((3, 7), BlockColour::Cyan);
    assert_eq!(board.clean(), 2);
    // the lone block sits below the first full row and above the second,
    // so only the second clear shifts it: down by exactly one row
    assert_eq!(board.get((3, 8)), BlockColour::Cyan);
    assert_eq!(board.get((3, 7)), BlockColour::Empty);
    assert_eq!(board.find_full_row(), None);
}

#[test]
fn lost_only_when_top_row_occupied() {
    let mut board = filled_board_except_top();
    assert!(!board.is_lost());
    board.set((3, 0), BlockColour::Red);
    assert!(board.is_lost());
}

#[test]
fn empty_board_is_not_lost() {
    let board = Board::new(10, 18);
    assert!(!board.is_lost());
}

#[test]
fn cell_state_emptiness() {
    assert!(BlockColour::Empty.is_empty());
    assert!(!BlockColour::Red.is_empty());
    assert!(!BlockColour::Grey.is_empty());
}

#[test]
fn clean_full_top_row() {
    let mut board = Board::new(10, 18);
    for x in 0..10 {
        board.set((x, 0), BlockColour::Orange);
    }
    board.set((9, 17), BlockColour::Blue);
    assert!(board.is_lost());
    assert_eq!(board.clean(), 1);
    assert!(!board.is_lost());
    for x in 0..10 {
        assert_eq!(board.get((x, 0)), BlockColour::Empty);
    }
    assert_eq!(board.get((9, 17)), BlockColour::Blue);
}

#[test]
fn small_board_dimensions() {
    let mut board = Board::new(4, 3);
    assert_eq!(board.width(), 4);
    assert_eq!(board.height(), 3);
    for x in 0..4 {
        board.set((x, 2), BlockColour::Purple);
    }
    assert_eq!(board.clean(), 1);
    for x in 0..4 {
        assert_eq!(board.get((x, 2)), BlockColour::Empty);
    }
}
