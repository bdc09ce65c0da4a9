//! The mesh that a lattice of hexagons becomes: particles at the corners,
//! each created by one hexagon and shared by the hexagons that meet there, and
//! tethers along the sides.

use vstd::prelude::*;

verus! {

/// The six corners of a flat-topped hexagon, in the order of its perimeter.
#[derive(Clone, Copy, Debug, PartialEq, Eq, Structural)]
pub enum Corner {
    TopLeft,
    TopRight,
    MidRight,
    BottomRight,
    BottomLeft,
    MidLeft,
}

impl Corner {
    /// The place of the corner among the corners that one hexagon creates:
    /// the two at the top, the two in the middle from left to right, the two at
    /// the bottom from left to right.
    pub open spec fn rank(self) -> int {
        match self {
            Corner::TopLeft => 0,
            Corner::TopRight => 1,
            Corner::MidLeft => 2,
            Corner::MidRight => 3,
            Corner::BottomLeft => 4,
            Corner::BottomRight => 5,
        }
    }
}

/// Where a particle starts: at one corner of the hexagon that created it.
#[derive(Clone, Copy, Debug, PartialEq, Eq, Structural)]
pub struct Vertex {
    /// The slot of the hexagon that created the particle.
    pub cell: usize,
    /// The corner of that hexagon at which the particle lies.
    pub corner: Corner,
}

impl View for Vertex {
    type V = (int, Corner);

    open spec fn view(&self) -> (int, Corner) {
        (self.cell as int, self.corner)
    }
}

/// The particles at the six corners of one hexagon, by their indices.
#[derive(Clone, Copy, Debug, PartialEq, Eq, Structural)]
pub struct Hexagon {
    pub top_left: usize,
    pub top_right: usize,
    pub mid_right: usize,
    pub bottom_right: usize,
    pub bottom_left: usize,
    pub mid_left: usize,
}

impl Hexagon {
    /// The index of the particle at a corner.
    pub open spec fn at(self, corner: Corner) -> int {
        match corner {
            Corner::TopLeft => self.top_left as int,
            Corner::TopRight => self.top_right as int,
            Corner::MidRight => self.mid_right as int,
            Corner::BottomRight => self.bottom_right as int,
            Corner::BottomLeft => self.bottom_left as int,
            Corner::MidLeft => self.mid_left as int,
        }
    }

    /// The five sides that a hexagon ties: each corner to the next on the
    /// perimeter, from the top left round to the middle left.
    pub open spec fn sides(self) -> Seq<(int, int)> {
        seq![
            (self.top_left as int, self.top_right as int),
            (self.top_right as int, self.mid_right as int),
            (self.mid_right as int, self.bottom_right as int),
            (self.bottom_right as int, self.bottom_left as int),
            (self.bottom_left as int, self.mid_left as int),
        ]
    }

    /// The index of the particle at a corner.
    pub fn corner(&self, corner: Corner) -> (index: usize)
        ensures
            index == self.at(corner),
    {
        match corner {
            Corner::TopLeft => self.top_left,
            Corner::TopRight => self.top_right,
            Corner::MidRight => self.mid_right,
            Corner::BottomRight => self.bottom_right,
            Corner::BottomLeft => self.bottom_left,
            Corner::MidLeft => self.mid_left,
        }
    }
}

/// An elastic link between two particles, by their indices.
#[derive(Clone, Copy, Debug, PartialEq, Eq, Structural)]
pub struct Tether {
    pub p1_index: usize,
    pub p2_index: usize,
}

impl View for Tether {
    type V = (int, int);

    open spec fn view(&self) -> (int, int) {
        (self.p1_index as int, self.p2_index as int)
    }
}

/// Whether two pairs of indices join the same two particles, in either order.
pub open spec fn same_link(a: (int, int), b: (int, int)) -> bool {
    (a.0 == b.0 && a.1 == b.1) || (a.0 == b.1 && a.1 == b.0)
}

} // verus!
