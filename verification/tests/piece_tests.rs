use tetros::BlockColour;
use tetros::Shape;
use tetros::Tetromino;

#[test]
fn new_piece_reads_layout_bits() {
    let t = Tetromino::new((2, 2), 0b0110, BlockColour::Red);
    assert_eq!(t.size(), (2, 2));
    assert_eq!(t.location, (0, 0));
    assert_eq!(t.colour, BlockColour::Red);
    // bit 1 is local cell (1, 0), bit 2 is local cell (0, 1)
    assert_eq!(t.occupied_cells(), vec![(1, 0), (0, 1)]);
    assert_eq!(t.occupied_cell_count(), 2);
}

#[test]
fn excess_layout_bits_are_ignored() {
    let t = Tetromino::new((2, 2), 0b1111_0000_1111, BlockColour::Red);
    assert_eq!(t.occupied_cell_count(), 4);
}

#[test]
fn every_shape_has_four_cells() {
    let shapes = [
        Shape::Square,
        Shape::T,
        Shape::L,
        Shape::LMirrored,
        Shape::I,
        Shape::Z,
        Shape::ZMirrored,
    ];
    for shape in shapes {
        let t = shape.piece(BlockColour::Green);
        assert_eq!(t.occupied_cell_count(), 4);
    }
}

#[test]
fn count_invariant_under_rotations() {
    let mut t = Shape::T.piece(BlockColour::Purple);
    assert_eq!(t.occupied_cell_count(), 4);
    t.rotate_right();
    assert_eq!(t.occupied_cell_count(), 4);
    t.rotate_right();
    assert_eq!(t.occupied_cell_count(), 4);
    t.rotate_left();
    assert_eq!(t.occupied_cell_count(), 4);
    t.rotate_left();
    assert_eq!(t.occupied_cell_count(), 4);
}

#[test]
fn rotate_right_then_left_restores_piece() {
    let mut t = Shape::L.piece(BlockColour::Blue);
    let cells_before = t.occupied_cells();
    let size_before = t.size();
    t.rotate_right();
    t.rotate_left();
    assert_eq!(t.size(), size_before);
    assert_eq!(t.occupied_cells(), cells_before);

    t.rotate_left();
    t.rotate_right();
    assert_eq!(t.size(), size_before);
    assert_eq!(t.occupied_cells(), cells_before);
}

#[test]
fn rotate_swaps_bounding_box() {
    let mut t = Shape::I.piece(BlockColour::Cyan);
    assert_eq!(t.size(), (4, 1));
    t.rotate_right();
    assert_eq!(t.size(), (1, 4));
    assert_eq!(t.occupied_cells(), vec![(0, 0), (0, 1), (0, 2), (0, 3)]);
    t.rotate_right();
    assert_eq!(t.size(), (4, 1));
    assert_eq!(t.occupied_cells(), vec![(0, 0), (1, 0), (2, 0), (3, 0)]);
}

#[test]
fn rotate_right_maps_cells_clockwise() {
    // an L in a 3-by-3 box: cells (1,0), (1,1), (1,2), (2,2)
    let mut t = Tetromino::new((3, 3), 0b110010010, BlockColour::Blue);
    assert_eq!(t.occupied_cells(), vec![(1, 0), (1, 1), (1, 2), (2, 2)]);
    t.rotate_right();
    // source (x, y) lands on (height - 1 - y, x)
    assert_eq!(t.occupied_cells(), vec![(0, 1), (1, 1), (2, 1), (0, 2)]);
}

#[test]
fn relocate_adds_signed_delta() {
    let mut t = Shape::Square.piece(BlockColour::Yellow);
    t.location = (4, 0);
    t.relocate((1, 2));
    assert_eq!(t.location, (5, 2));
    t.relocate((-6, -1));
    assert_eq!(t.location, (-1, 1));
}

#[test]
fn occupied_cells_skip_negative_coordinates() {
    let mut t = Shape::Square.piece(BlockColour::Yellow);
    t.location = (-1, -1);
    assert_eq!(t.occupied_cells(), vec![(0, 0)]);
    t.location = (-2, -2);
    assert_eq!(t.occupied_cells(), vec![]);
}
