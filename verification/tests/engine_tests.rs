use tetros::BlockColour;
use tetros::Board;
use tetros::Shape;
use tetros::Tetromino;

#[test]
fn set_writes_piece_into_board() {
    let mut board = Board::new(10, 18);
    let mut t = Shape::Square.piece(BlockColour::Yellow);
    t.location = (4, 0);
    t.set(&mut board);
    for (x, y) in [(4, 0), (5, 0), (4, 1), (5, 1)] {
        assert_eq!(board.get((x, y)), BlockColour::Yellow);
    }
    assert!(board.is_free((6, 0)));
}

#[test]
fn unset_lifts_piece_off_board() {
    let mut board = Board::new(10, 18);
    let mut t = Shape::Square.piece(BlockColour::Yellow);
    t.location = (4, 0);
    t.set(&mut board);
    t.unset(&mut board);
    for y in 0..18 {
        for x in 0..10 {
            assert!(board.is_free((x, y)));
        }
    }
}

#[test]
fn is_legal_rejects_walls_and_blocks() {
    let mut board = Board::new(10, 18);
    let mut t = Shape::Square.piece(BlockColour::Yellow);
    t.location = (8, 16);
    assert!(t.is_legal(&board));
    t.location = (9, 16);
    assert!(!t.is_legal(&board));
    t.location = (8, 17);
    assert!(!t.is_legal(&board));
    t.location = (-1, 0);
    assert!(!t.is_legal(&board));
    board.set((8, 16), BlockColour::Red);
    t.location = (8, 16);
    assert!(!t.is_legal(&board));
}

#[test]
fn legal_move_applies_and_updates_board() {
    let mut board = Board::new(10, 18);
    let mut t = Shape::Square.piece(BlockColour::Yellow);
    t.location = (4, 0);
    t.set(&mut board);
    assert!(t.legal_move((1, 0), &mut board));
    assert_eq!(t.location, (5, 0));
    assert!(board.is_free((4, 0)));
    assert_eq!(board.get((5, 0)), BlockColour::Yellow);
    assert_eq!(board.get((6, 1)), BlockColour::Yellow);
}

#[test]
fn legal_move_rolls_back_at_wall() {
    let mut board = Board::new(10, 18);
    let mut t = Shape::Square.piece(BlockColour::Yellow);
    t.location = (0, 5);
    t.set(&mut board);
    assert!(!t.legal_move((-1, 0), &mut board));
    assert_eq!(t.location, (0, 5));
    assert_eq!(board.get((0, 5)), BlockColour::Yellow);
    assert_eq!(board.get((1, 6)), BlockColour::Yellow);
    assert!(board.is_free((2, 5)));
}

#[test]
fn legal_move_rolls_back_on_settled_block() {
    let mut board = Board::new(10, 18);
    board.set((6, 5), BlockColour::Red);
    let mut t = Shape::Square.piece(BlockColour::Yellow);
    t.location = (4, 4);
    t.set(&mut board);
    assert!(!t.legal_move((1, 0), &mut board));
    assert_eq!(t.location, (4, 4));
    assert_eq!(board.get((6, 5)), BlockColour::Red);
    assert_eq!(board.get((4, 4)), BlockColour::Yellow);
    assert_eq!(board.get((5, 5)), BlockColour::Yellow);
}

#[test]
fn translate_then_inverse_is_a_no_op() {
    let mut board = Board::new(10, 18);
    let mut t = Shape::Square.piece(BlockColour::Yellow);
    t.location = (4, 4);
    t.set(&mut board);
    assert!(t.legal_move((1, 1), &mut board));
    assert!(t.legal_move((-1, -1), &mut board));
    assert_eq!(t.location, (4, 4));
    for y in 0..18 {
        for x in 0..10usize {
            let covered = (4..=5).contains(&x) && (4..=5).contains(&y);
            if covered {
                assert_eq!(board.get((x, y)), BlockColour::Yellow);
            } else {
                assert!(board.is_free((x, y)));
            }
        }
    }
}

#[test]
fn square_drops_sixteen_rows_then_settles() {
    let mut board = Board::new(10, 18);
    let mut t = Shape::Square.piece(BlockColour::Yellow);
    t.location = (4, 0);
    t.set(&mut board);
    for _ in 0..16 {
        assert!(t.legal_move((0, 1), &mut board));
    }
    assert_eq!(t.location, (4, 16));
    assert!(!t.legal_move((0, 1), &mut board));
    assert_eq!(t.location, (4, 16));
    assert!(!t.legal_move((0, 1), &mut board));
    assert_eq!(t.location, (4, 16));
    assert_eq!(board.get((4, 16)), BlockColour::Yellow);
    assert_eq!(board.get((5, 17)), BlockColour::Yellow);
}

#[test]
fn plain_rotation_in_open_space() {
    let mut board = Board::new(10, 18);
    let mut t = Shape::I.piece(BlockColour::Cyan);
    t.location = (3, 5);
    t.set(&mut board);
    assert!(t.safe_ror(&mut board));
    assert_eq!(t.location, (3, 5));
    assert_eq!(t.size(), (1, 4));
    for y in 5..9 {
        assert_eq!(board.get((3, y)), BlockColour::Cyan);
    }
    assert!(board.is_free((4, 5)));
}

#[test]
fn rotation_against_left_wall_kicks_right() {
    let mut board = Board::new(10, 18);
    // a settled block in the leftmost column, just under the piece's row
    board.set((0, 6), BlockColour::Red);
    let mut t = Shape::I.piece(BlockColour::Cyan);
    t.location = (0, 5);
    t.set(&mut board);
    // the plain rotation at x = 0 collides with the settled block, the
    // left kick leaves the board, and the right kick succeeds
    assert!(t.safe_ror(&mut board));
    assert_eq!(t.location, (1, 5));
    assert_eq!(t.size(), (1, 4));
    for y in 5..9 {
        assert_eq!(board.get((1, y)), BlockColour::Cyan);
    }
    assert!(board.is_free((0, 5)));
    assert_eq!(board.get((0, 6)), BlockColour::Red);
}

#[test]
fn failed_rotation_rolls_everything_back() {
    let mut board = Board::new(10, 18);
    board.set((1, 14), BlockColour::Red);
    board.set((4, 14), BlockColour::Red);
    let mut t = Tetromino::new((1, 4), 0b1111, BlockColour::Cyan);
    t.location = (0, 14);
    t.set(&mut board);
    // plain rotation and the right kick hit the settled blocks; the left
    // kick leaves the board
    assert!(!t.safe_ror(&mut board));
    assert_eq!(t.location, (0, 14));
    assert_eq!(t.size(), (1, 4));
    for y in 14..18 {
        assert_eq!(board.get((0, y)), BlockColour::Cyan);
    }
    assert_eq!(board.get((1, 14)), BlockColour::Red);
    assert_eq!(board.get((4, 14)), BlockColour::Red);
}

#[test]
fn counterclockwise_rotation_also_kicks() {
    let mut board = Board::new(10, 18);
    board.set((0, 6), BlockColour::Red);
    let mut t = Shape::I.piece(BlockColour::Green);
    t.location = (0, 5);
    t.set(&mut board);
    assert!(t.safe_rol(&mut board));
    assert_eq!(t.location, (1, 5));
    assert_eq!(t.size(), (1, 4));
    for y in 5..9 {
        assert_eq!(board.get((1, y)), BlockColour::Green);
    }
}

#[test]
fn settle_then_clean_scores_a_row() {
    let mut board = Board::new(10, 18);
    // fill the bottom row except the two columns the square will land in
    for x in 0..10 {
        if x != 4 && x != 5 {
            board.set((x, 17), BlockColour::Grey);
            board.set((x, 16), BlockColour::Grey);
        }
    }
    let mut t = Shape::Square.piece(BlockColour::Yellow);
    t.location = (4, 0);
    t.set(&mut board);
    while t.legal_move((0, 1), &mut board) {}
    assert_eq!(t.location, (4, 16));
    assert_eq!(board.clean(), 2);
    assert!(!board.is_lost());
    for x in 0..10 {
        assert!(board.is_free((x, 17)));
    }
}
