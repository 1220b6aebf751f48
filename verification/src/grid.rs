use crate::coord::Coord;
use vstd::prelude::*;

verus! {

/// The item type of all grid passes over shared cells; a tuple of the cell coordinate and a
/// reference to the cell data.
pub type IterCell<'a, T> = (Coord, &'a T);

/// The item type of all grid passes over exclusive cells; a tuple of the cell coordinate
/// and a mutable reference to the cell data.
pub type IterCellMut<'a, T> = (Coord, &'a mut T);

#[derive(Debug, Clone, Copy, PartialEq, Eq, Structural)]
pub enum GridError {
    /// The coordinate has no cell associated with it, as it's out of the grid bounds.
    OutOfBounds(Coord),
    /// The coordinate has previously been mutably borrowed in the same pass, and doing so
    /// again would hand out the same cell twice.
    AlreadyVisited(Coord),
}

/// A store of cells that are addressed by coordinate.
pub trait Grid<T> {
    /// Whether the store is in a consistent state. Its methods ask for that, and keep it.
    spec fn wf(&self) -> bool;

    /// The cells of the grid: each coordinate that has a cell, with the value of that cell.
    spec fn cell_map(&self) -> Map<Coord, T>;

    /// Whether the grid differs from `other` in nothing but the values of its cells. No
    /// method changes anything else.
    spec fn same_layout(&self, other: &Self) -> bool;

    /// The cell at `coord`, if there is one.
    fn get(&self, coord: Coord) -> (cell: Option<&T>)
        requires
            self.wf(),
        ensures
            self.cell_map().contains_key(coord) ==> cell == Some(&self.cell_map()[coord]),
            !self.cell_map().contains_key(coord) ==> cell is None,
    ;

    /// Exclusive access to the cell at `coord`, if there is one. What the caller leaves in
    /// the cell is what the grid then holds there; no other cell changes.
    fn get_mut(&mut self, coord: Coord) -> (cell: Option<&mut T>)
        requires
            old(self).wf(),
        ensures
            final(self).wf(),
            final(self).same_layout(old(self)),
            old(self).cell_map().contains_key(coord) ==> {
                &&& cell is Some
                &&& *cell->0 == old(self).cell_map()[coord]
                &&& final(self).cell_map() == old(self).cell_map().insert(coord, *final(cell->0))
            },
            !old(self).cell_map().contains_key(coord) ==> {
                &&& cell is None
                &&& final(self).cell_map() == old(self).cell_map()
            },
    ;

    /// Copies the contents of `src` into `dest`. Does nothing, and says so by `false`, unless
    /// both coordinates have a cell.
    fn copy(&mut self, src: Coord, dest: Coord) -> (done: bool) where T: Copy
        requires
            old(self).wf(),
        ensures
            final(self).wf(),
            final(self).same_layout(old(self)),
            done == (old(self).cell_map().contains_key(src) && old(self).cell_map().contains_key(
                dest,
            )),
            done ==> final(self).cell_map() == old(self).cell_map().insert(
                dest,
                old(self).cell_map()[src],
            ),
            !done ==> final(self).cell_map() == old(self).cell_map(),
    ;

    /// Swaps the contents of two cells. Does nothing, and says so by `false`, unless both
    /// coordinates have a cell.
    fn swap(&mut self, coord1: Coord, coord2: Coord) -> (done: bool)
        requires
            old(self).wf(),
        ensures
            final(self).wf(),
            final(self).same_layout(old(self)),
            done == (old(self).cell_map().contains_key(coord1) && old(
                self,
            ).cell_map().contains_key(coord2)),
            done ==> final(self).cell_map() == old(self).cell_map().insert(
                coord1,
                old(self).cell_map()[coord2],
            ).insert(coord2, old(self).cell_map()[coord1]),
            !done ==> final(self).cell_map() == old(self).cell_map(),
    ;

    /// Moves the contents of `src` into `dest`, returning the previous contents of `dest`
    /// and leaving a default value in `src`. Does nothing, and returns `None`, unless both
    /// coordinates have a cell.
    ///
    /// Where `src` and `dest` are the same cell, the cell keeps its contents and the default
    /// value is returned.
    fn mov(&mut self, src: Coord, dest: Coord) -> (previous: Option<T>) where T: Default
        requires
            old(self).wf(),
        ensures
            final(self).wf(),
            final(self).same_layout(old(self)),
            previous is Some == (old(self).cell_map().contains_key(src) && old(
                self,
            ).cell_map().contains_key(dest)),
            previous is Some ==> exists|fresh: T| #[trigger]
                call_ensures(T::default, (), fresh) && previous == Some(
                    old(self).cell_map().insert(src, fresh)[dest],
                ) && final(self).cell_map() == old(self).cell_map().insert(src, fresh).insert(
                    dest,
                    old(self).cell_map()[src],
                ),
            previous is None ==> final(self).cell_map() == old(self).cell_map(),
    ;

    //
    // DEFAULT IMPLEMENTATIONS
    //
    /// Puts `value` into the cell at `coord`. Does nothing, and says so by `false`, if
    /// there is no such cell.
    fn set(&mut self, coord: Coord, value: T) -> (done: bool)
        requires
            old(self).wf(),
        ensures
            final(self).wf(),
            final(self).same_layout(old(self)),
            done == old(self).cell_map().contains_key(coord),
            done ==> final(self).cell_map() == old(self).cell_map().insert(coord, value),
            !done ==> final(self).cell_map() == old(self).cell_map(),
    {
        if let Some(cell) = self.get_mut(coord) {
            *cell = value;
            true
        } else {
            false
        }
    }

    /// Puts `value` into the cell at `coord` and returns what the cell held. Does nothing,
    /// and returns `None`, if there is no such cell.
    fn replace(&mut self, coord: Coord, value: T) -> (previous: Option<T>)
        requires
            old(self).wf(),
        ensures
            final(self).wf(),
            final(self).same_layout(old(self)),
            old(self).cell_map().contains_key(coord) ==> {
                &&& previous == Some(old(self).cell_map()[coord])
                &&& final(self).cell_map() == old(self).cell_map().insert(coord, value)
            },
            !old(self).cell_map().contains_key(coord) ==> {
                &&& previous is None
                &&& final(self).cell_map() == old(self).cell_map()
            },
    {
        let mut value = value;
        match self.get_mut(coord) {
            Some(cell) => {
                std::mem::swap(cell, &mut value);
                Some(value)
            },
            None => None,
        }
    }

    /// Puts a default value into the cell at `coord` and returns what the cell held. Does
    /// nothing, and returns `None`, if there is no such cell.
    fn take(&mut self, coord: Coord) -> (previous: Option<T>) where T: Default
        requires
            old(self).wf(),
        ensures
            final(self).wf(),
            final(self).same_layout(old(self)),
            old(self).cell_map().contains_key(coord) ==> {
                &&& previous == Some(old(self).cell_map()[coord])
                &&& exists|fresh: T| #[trigger]
                    call_ensures(T::default, (), fresh) && final(self).cell_map() == old(
                        self,
                    ).cell_map().insert(coord, fresh)
            },
            !old(self).cell_map().contains_key(coord) ==> {
                &&& previous is None
                &&& final(self).cell_map() == old(self).cell_map()
            },
    {
        match self.get_mut(coord) {
            Some(cell) => {
                let mut value = T::default();
                std::mem::swap(cell, &mut value);
                Some(value)
            },
            None => None,
        }
    }
}

} // verus!
