use crate::coord::Coord;
use crate::patterns::Coords;
use crate::patterns::CoordIter;
use vstd::prelude::*;

verus! {

/// The coordinates around a coordinate.
pub struct Neighborhood(pub Coord);

impl Neighborhood {
    /// Whether every coordinate around the center is representable.
    pub open spec fn fits(&self) -> bool {
        i32::MIN < self.0.x < i32::MAX && i32::MIN < self.0.y < i32::MAX
    }

    /// The orthogonal and diagonal (Moore) neighborhood: the eight coordinates around the
    /// center, clockwise from the north.
    pub open spec fn moore(&self) -> Seq<Coord> {
        seq![
            self.0.offset_by(0, 1),
            self.0.offset_by(1, 1),
            self.0.offset_by(1, 0),
            self.0.offset_by(1, -1),
            self.0.offset_by(0, -1),
            self.0.offset_by(-1, -1),
            self.0.offset_by(-1, 0),
            self.0.offset_by(-1, 1),
        ]
    }

    /// The orthogonal (Von Neumann) neighborhood: the four coordinates that share an edge
    /// with the center, clockwise from the north.
    pub open spec fn ortho(&self) -> Seq<Coord> {
        seq![
            self.0.offset_by(0, 1),
            self.0.offset_by(1, 0),
            self.0.offset_by(0, -1),
            self.0.offset_by(-1, 0),
        ]
    }

    /// The diagonal neighborhood: the four coordinates that share only a corner with the
    /// center, clockwise from the north-east.
    pub open spec fn diag(&self) -> Seq<Coord> {
        seq![
            self.0.offset_by(1, 1),
            self.0.offset_by(1, -1),
            self.0.offset_by(-1, -1),
            self.0.offset_by(-1, 1),
        ]
    }

    pub fn new(coord: Coord) -> (neighborhood: Self)
        ensures
            neighborhood.0 == coord,
    {
        Self(coord)
    }

    /// Returns the orthogonal and diagonal (Moore) neighborhood of `coord`.
    pub fn iter(&self) -> (neighbors: Coords)
        requires
            self.fits(),
        ensures
            neighbors.wf(),
            neighbors.remaining() == self.moore(),
    {
        let mut neighbors: Vec<Coord> = Vec::new();
        neighbors.push(self.0 + Coord::north());
        neighbors.push(self.0 + Coord::north_east());
        neighbors.push(self.0 + Coord::east());
        neighbors.push(self.0 + Coord::south_east());
        neighbors.push(self.0 + Coord::south());
        neighbors.push(self.0 + Coord::south_west());
        neighbors.push(self.0 + Coord::west());
        neighbors.push(self.0 + Coord::north_west());
        assert(neighbors@ =~= self.moore());
        Coords::new(neighbors)
    }

    /// Returns the orthogonal and diagonal (Moore) neighborhood of `coord`.
    pub fn into_iter(self) -> (neighbors: Coords)
        requires
            self.fits(),
        ensures
            neighbors.wf(),
            neighbors.remaining() == self.moore(),
    {
        self.iter()
    }

    /// Returns the orthogonal (Von Neumann) neighborhood of `coord`.
    pub fn iter_ortho(&self) -> (neighbors: Coords)
        requires
            self.fits(),
        ensures
            neighbors.wf(),
            neighbors.remaining() == self.ortho(),
    {
        let mut neighbors: Vec<Coord> = Vec::new();
        neighbors.push(self.0 + Coord::north());
        neighbors.push(self.0 + Coord::east());
        neighbors.push(self.0 + Coord::south());
        neighbors.push(self.0 + Coord::west());
        assert(neighbors@ =~= self.ortho());
        Coords::new(neighbors)
    }

    /// Returns the orthogonal (Von Neumann) neighborhood of `coord`.
    pub fn into_iter_ortho(self) -> (neighbors: Coords)
        requires
            self.fits(),
        ensures
            neighbors.wf(),
            neighbors.remaining() == self.ortho(),
    {
        self.iter_ortho()
    }

    /// Returns the diagonal neighborhood of `coord` (for completeness).
    pub fn iter_diag(&self) -> (neighbors: Coords)
        requires
            self.fits(),
        ensures
            neighbors.wf(),
            neighbors.remaining() == self.diag(),
    {
        let mut neighbors: Vec<Coord> = Vec::new();
        neighbors.push(self.0 + Coord::north_east());
        neighbors.push(self.0 + Coord::south_east());
        neighbors.push(self.0 + Coord::south_west());
        neighbors.push(self.0 + Coord::north_west());
        assert(neighbors@ =~= self.diag());
        Coords::new(neighbors)
    }

    /// Returns the diagonal neighborhood of `coord` (for completeness).
    pub fn into_iter_diag(self) -> (neighbors: Coords)
        requires
            self.fits(),
        ensures
            neighbors.wf(),
            neighbors.remaining() == self.diag(),
    {
        self.iter_diag()
    }
}

} // verus!
