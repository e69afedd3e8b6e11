//! The closed catalogue of piece shapes, each with its bounding box and
//! its occupancy bitmask (bit order is row-major layout order).

use vstd::prelude::*;

use crate::cell::BlockColour;
use crate::piece::layout_bit;
use crate::piece::Tetromino;

verus! {

/// A named piece shape.
#[derive(Clone, Copy, Debug, PartialEq, Eq, Structural)]
pub enum Shape {
    Square,
    T,
    L,
    LMirrored,
    I,
    Z,
    ZMirrored,
}

impl Shape {
    /// Bounding-box size `(width, height)` of the shape.
    pub open spec fn spec_size(self) -> (usize, usize) {
        match self {
            Shape::Square => (2usize, 2usize),
            Shape::I => (4usize, 1usize),
            _ => (3usize, 3usize),
        }
    }

    /// Occupancy bitmask of the shape, in row-major bit order.
    pub open spec fn spec_layout(self) -> u16 {
        match self {
            Shape::Square => 0b1111u16,
            Shape::T => 0b010111000u16,
            Shape::L => 0b110010010u16,
            Shape::LMirrored => 0b010010011u16,
            Shape::I => 0b1111u16,
            Shape::Z => 0b110011000u16,
            Shape::ZMirrored => 0b000011110u16,
        }
    }

    /// Bounding-box size `(width, height)` of the shape.
    pub fn size(&self) -> (r: (usize, usize))
        ensures
            r == self.spec_size(),
    {
        match self {
            Shape::Square => (2, 2),
            Shape::I => (4, 1),
            _ => (3, 3),
        }
    }

    /// Occupancy bitmask of the shape, in row-major bit order.
    pub fn layout(&self) -> (r: u16)
        ensures
            r == self.spec_layout(),
    {
        match self {
            Shape::Square => 0b1111,
            Shape::T => 0b010111000,
            Shape::L => 0b110010010,
            Shape::LMirrored => 0b010010011,
            Shape::I => 0b1111,
            Shape::Z => 0b110011000,
            Shape::ZMirrored => 0b000011110,
        }
    }

    /// Make a piece of this shape in the given colour, at position
    /// `(0, 0)`.
    pub fn piece(&self, colour: BlockColour) -> (r: Tetromino)
        ensures
            r.wf(),
            r@.width == self.spec_size().0,
            r@.height == self.spec_size().1,
            r@.x == 0,
            r@.y == 0,
            r@.colour == colour,
            forall|lx: int, ly: int|
                0 <= lx < self.spec_size().0 && 0 <= ly < self.spec_size().1
                    ==> #[trigger] r@.occ(lx, ly) == layout_bit(
                    self.spec_layout(),
                    ly * self.spec_size().0 + lx,
                ),
    {
        let s = self.size();
        proof {
            match *self {
                Shape::Square => assert(s.0 * s.1 == 4),
                Shape::I => assert(s.0 * s.1 == 4),
                _ => assert(s.0 * s.1 == 9),
            }
        }
        Tetromino::new(s, self.layout(), colour)
    }
}

} // verus!
