use crate::coord::Coord;
use crate::grid::Grid;
use crate::grid::GridError;
use crate::grid::IterCell;
use crate::grid::IterCellMut;
use crate::patterns::rect::lemma_cell_index;
use crate::patterns::rect::lemma_index_cell;
use crate::patterns::rect::Rect;
use crate::patterns::contains_coord;
use crate::patterns::CoordIter;
use crate::text::push_char;
use std::collections::HashSet;
use std::collections::VecDeque;
use vstd::prelude::*;

verus! {

broadcast use vstd::std_specs::hash::group_hash_axioms;

/// The core type of this library. A 2D grid of cell type `T`.
#[derive(Debug, Clone, PartialEq, Eq)]
pub struct VecGrid<T> {
    /// Row-major, linear storage of cell data.
    pub cells: Vec<T>,
    pub bounds: Rect,
}

/// The place in row-major storage of the cell at `coord`, for a grid over `bounds`.
pub open spec fn spec_coord_to_index(bounds: Rect, coord: Coord) -> int {
    (coord.x - bounds.left) + (coord.y - bounds.top) * bounds.spec_width()
}

/// The coordinate of the cell that row-major storage holds at `index`, for a grid over
/// `bounds`.
pub open spec fn spec_index_to_coord(bounds: Rect, index: int) -> Coord {
    Coord {
        x: (bounds.left + index % bounds.spec_width()) as i32,
        y: (bounds.top + index / bounds.spec_width()) as i32,
    }
}

/// The cells that row-major storage `cells` holds for a grid over `bounds`, by coordinate.
pub open spec fn cells_by_coord<T>(bounds: Rect, cells: Seq<T>) -> Map<Coord, T> {
    Map::new(
        |coord: Coord| bounds.spec_contains(coord),
        |coord: Coord| cells[spec_coord_to_index(bounds, coord)],
    )
}

/// Every coordinate inside the bounds has a place in storage, and that place leads back
/// to the coordinate.
pub proof fn lemma_coord_index_roundtrip(bounds: Rect, coord: Coord)
    requires
        bounds.spec_contains(coord),
    ensures
        0 <= spec_coord_to_index(bounds, coord) < bounds.spec_area(),
        spec_index_to_coord(bounds, spec_coord_to_index(bounds, coord)) == coord,
{
    let w = bounds.spec_width();
    let h = bounds.spec_height();
    lemma_cell_index(w, h, coord.x - bounds.left, coord.y - bounds.top);
    assert((coord.y - bounds.top) * w + (coord.x - bounds.left) == spec_coord_to_index(
        bounds,
        coord,
    ));
}

/// Every place in storage belongs to a coordinate inside the bounds, and that coordinate
/// leads back to the place. Together with [`lemma_coord_index_roundtrip`]: the coordinates
/// inside the bounds and the places in storage correspond one to one.
pub proof fn lemma_index_coord_roundtrip(bounds: Rect, index: int)
    requires
        bounds.wf(),
        0 <= index < bounds.spec_area(),
    ensures
        bounds.spec_contains(spec_index_to_coord(bounds, index)),
        spec_coord_to_index(bounds, spec_index_to_coord(bounds, index)) == index,
{
    let w = bounds.spec_width();
    let h = bounds.spec_height();
    assert(w > 0) by (nonlinear_arith)
        requires
            0 <= w,
            0 <= index < w * h,
    ;
    lemma_index_cell(w, h, index);
    assert((index / w) * w == w * (index / w)) by (nonlinear_arith);
}

/// Two coordinates inside the bounds that share a place in storage are the same.
pub proof fn lemma_index_is_injective(bounds: Rect, a: Coord, b: Coord)
    requires
        bounds.spec_contains(a),
        bounds.spec_contains(b),
        spec_coord_to_index(bounds, a) == spec_coord_to_index(bounds, b),
    ensures
        a == b,
{
    lemma_coord_index_roundtrip(bounds, a);
    lemma_coord_index_roundtrip(bounds, b);
}

/// Writing to the place of a coordinate changes the cell of that coordinate and no other.
proof fn lemma_update_cell<T>(bounds: Rect, cells: Seq<T>, coord: Coord, value: T)
    requires
        bounds.spec_contains(coord),
        cells.len() == bounds.spec_area(),
    ensures
        cells_by_coord(bounds, cells.update(spec_coord_to_index(bounds, coord), value))
            == cells_by_coord(bounds, cells).insert(coord, value),
{
    let index = spec_coord_to_index(bounds, coord);
    let updated = cells_by_coord(bounds, cells.update(index, value));
    let inserted = cells_by_coord(bounds, cells).insert(coord, value);
    lemma_coord_index_roundtrip(bounds, coord);
    assert forall|c: Coord| inserted.contains_key(c) implies #[trigger] updated[c]
        == inserted[c] by {
        lemma_coord_index_roundtrip(bounds, c);
        if c != coord {
            if spec_coord_to_index(bounds, c) == index {
                lemma_index_is_injective(bounds, c, coord);
            }
        }
    }
    assert(updated =~= inserted);
}

impl<T> VecGrid<T> {
    /// The place in storage of the cell at `coord`, or `None` if the grid has no cell there:
    /// what `coord_to_index` answers.
    pub open spec fn spec_place(&self, coord: Coord) -> Option<usize> {
        if self.bounds.spec_contains(coord) {
            Some(spec_coord_to_index(self.bounds, coord) as usize)
        } else {
            None
        }
    }

    /// Converts a 2D Grid coordinate into a linear Vec index.
    pub fn coord_to_index(&self, coord: Coord) -> (index: Option<usize>)
        requires
            self.wf(),
        ensures
            index == self.spec_place(coord),
            index matches Some(i) ==> i < self.cells@.len() && i == spec_coord_to_index(
                self.bounds,
                coord,
            ),
    {
        if !self.bounds.contains(coord) {
            return None;
        }
        proof {
            lemma_coord_index_roundtrip(self.bounds, coord);
            let w = self.bounds.spec_width();
            let h = self.bounds.spec_height();
            assert(0 <= (coord.y - self.bounds.top) * w <= w * h - w) by (nonlinear_arith)
                requires
                    0 <= coord.y - self.bounds.top < h,
                    0 < w,
            ;
        }
        let column = (coord.x as i64 - self.bounds.left as i64) as usize;
        let row = (coord.y as i64 - self.bounds.top as i64) as usize;
        let width = (self.bounds.right as i64 - self.bounds.left as i64) as usize;
        assert(row * width == (coord.y - self.bounds.top) * self.bounds.spec_width())
            by (nonlinear_arith)
            requires
                row == coord.y - self.bounds.top,
                width == self.bounds.spec_width(),
        ;
        assert(row * width + width <= self.cells.len());
        Some(column + row * width)
    }

    /// Converts a linear Vec index into a 2D Grid coordinate.
    pub fn index_to_coord(&self, index: usize) -> (coord: Coord)
        requires
            self.wf(),
            index < self.cells@.len(),
        ensures
            coord == spec_index_to_coord(self.bounds, index as int),
            self.bounds.spec_contains(coord),
            self.spec_place(coord) == Some(index),
    {
        Self::index_to_coord_with_bounds(self.bounds, index)
    }

    /// Use `index_to_coord` if possible. This exists for passes that hold the cells
    /// exclusively, and so cannot ask the grid.
    pub fn index_to_coord_with_bounds(bounds: Rect, index: usize) -> (coord: Coord)
        requires
            bounds.wf(),
            index < bounds.spec_area(),
        ensures
            coord == spec_index_to_coord(bounds, index as int),
            bounds.spec_contains(coord),
            spec_coord_to_index(bounds, coord) == index,
    {
        proof {
            lemma_index_coord_roundtrip(bounds, index as int);
            let w = bounds.spec_width();
            let h = bounds.spec_height();
            assert(w > 0) by (nonlinear_arith)
                requires
                    0 <= w,
                    0 <= index < w * h,
            ;
            lemma_index_cell(w, h, index as int);
        }
        let width = (bounds.right as i64 - bounds.left as i64) as usize;
        let y = index / width;
        let x = index % width;
        Coord::new((bounds.left as i64 + x as i64) as i32, (bounds.top as i64 + y as i64) as i32)
    }
}

impl<T> VecGrid<T> {
    /// A grid over `bounds` in which every cell holds a default value.
    pub fn new(bounds: Rect) -> (grid: Self) where T: Default + Clone
        requires
            bounds.wf(),
            bounds.spec_area() <= usize::MAX,
        ensures
            grid.wf(),
            grid.bounds == bounds,
            exists|fresh: T| #[trigger]
                call_ensures(T::default, (), fresh) && forall|i: int|
                    0 <= i < grid.cells@.len() ==> cloned(fresh, #[trigger] grid.cells@[i]),
    {
        let width = (bounds.right as i64 - bounds.left as i64) as u64;
        let height = (bounds.bottom as i64 - bounds.top as i64) as u64;
        assert(width * height <= 0xffff_ffff * 0xffff_ffff) by (nonlinear_arith)
            requires
                width <= 0xffff_ffff,
                height <= 0xffff_ffff,
        ;
        let area = width * height;
        let fresh = T::default();
        Self { cells: vec![fresh; area as usize], bounds }
    }

    /// A grid over `bounds` in which every cell holds what `generator` returned for its
    /// coordinate. The generator is called once for each coordinate inside the bounds, row
    /// by row from the top, each row from the left.
    pub fn with_generator<F: Fn(Coord) -> T>(bounds: Rect, generator: F) -> (grid: Self)
        requires
            bounds.wf(),
            bounds.spec_area() <= usize::MAX,
            forall|coord: Coord| #[trigger]
                bounds.spec_contains(coord) ==> call_requires(generator, (coord,)),
        ensures
            grid.wf(),
            grid.bounds == bounds,
            forall|coord: Coord| #[trigger]
                bounds.spec_contains(coord) ==> call_ensures(
                    generator,
                    (coord,),
                    grid.cell_map()[coord],
                ),
    {
        let mut cells: Vec<T> = Vec::new();
        let ghost w = bounds.spec_width();
        let ghost h = bounds.spec_height();
        let mut y = bounds.top;
        while y < bounds.bottom
            invariant
                bounds.wf(),
                w == bounds.spec_width(),
                h == bounds.spec_height(),
                bounds.top <= y <= bounds.bottom,
                cells@.len() == (y - bounds.top) * w,
                forall|coord: Coord| #[trigger]
                    bounds.spec_contains(coord) ==> call_requires(generator, (coord,)),
                forall|i: int|
                    0 <= i < cells@.len() ==> call_ensures(
                        generator,
                        (spec_index_to_coord(bounds, i),),
                        #[trigger] cells@[i],
                    ),
            decreases bounds.bottom - y,
        {
            let mut x = bounds.left;
            while x < bounds.right
                invariant
                    bounds.wf(),
                    w == bounds.spec_width(),
                    h == bounds.spec_height(),
                    bounds.top <= y < bounds.bottom,
                    bounds.left <= x <= bounds.right,
                    cells@.len() == (y - bounds.top) * w + (x - bounds.left),
                    forall|coord: Coord| #[trigger]
                        bounds.spec_contains(coord) ==> call_requires(generator, (coord,)),
                    forall|i: int|
                        0 <= i < cells@.len() ==> call_ensures(
                            generator,
                            (spec_index_to_coord(bounds, i),),
                            #[trigger] cells@[i],
                        ),
                decreases bounds.right - x,
            {
                let coord = Coord::new(x, y);
                let ghost before = cells@;
                proof {
                    lemma_coord_index_roundtrip(bounds, coord);
                    assert(bounds.spec_contains(coord));
                }
                cells.push(generator(coord));
                proof {
                    assert forall|i: int| 0 <= i < cells@.len() implies call_ensures(
                        generator,
                        (spec_index_to_coord(bounds, i),),
                        #[trigger] cells@[i],
                    ) by {
                        if i < before.len() {
                            assert(cells@[i] == before[i]);
                        }
                    }
                }
                x = x + 1;
            }
            proof {
                assert((y + 1 - bounds.top) * w == (y - bounds.top) * w + w) by (nonlinear_arith);
            }
            y = y + 1;
        }
        proof {
            assert(h * w == w * h) by (nonlinear_arith);
        }
        let grid = Self { cells, bounds };
        proof {
            assert forall|coord: Coord| #[trigger] bounds.spec_contains(coord) implies call_ensures(
                generator,
                (coord,),
                grid.cell_map()[coord],
            ) by {
                lemma_coord_index_roundtrip(bounds, coord);
                let i = spec_coord_to_index(bounds, coord);
                assert(call_ensures(generator, (spec_index_to_coord(bounds, i),), grid.cells@[i]));
            }
        }
        grid
    }
}

impl<T> Grid<T> for VecGrid<T> {
    /// The bounds are in order, and storage holds one cell for each coordinate inside them.
    open spec fn wf(&self) -> bool {
        self.bounds.wf() && self.cells@.len() == self.bounds.spec_area()
    }

    open spec fn cell_map(&self) -> Map<Coord, T> {
        cells_by_coord(self.bounds, self.cells@)
    }

    open spec fn same_layout(&self, other: &Self) -> bool {
        self.bounds == other.bounds
    }

    fn get(&self, coord: Coord) -> (cell: Option<&T>)
        ensures
            cell is Some == self.bounds.spec_contains(coord),
    {
        match self.coord_to_index(coord) {
            Some(index) => Some(&self.cells[index]),
            None => None,
        }
    }

    fn get_mut(&mut self, coord: Coord) -> (cell: Option<&mut T>)
        ensures
            cell is Some == old(self).bounds.spec_contains(coord),
            cell is Some ==> final(self).cells@ == old(self).cells@.update(
                spec_coord_to_index(old(self).bounds, coord),
                *final(cell->0),
            ),
            cell is None ==> final(self).cells@ == old(self).cells@,
    {
        match self.coord_to_index(coord) {
            Some(index) => {
                proof {
                    assert forall|value: T| #[trigger]
                        cells_by_coord(self.bounds, self.cells@.update(index as int, value))
                            == cells_by_coord(self.bounds, self.cells@).insert(coord, value) by {
                        lemma_update_cell(self.bounds, self.cells@, coord, value);
                    }
                }
                Some(&mut self.cells[index])
            },
            None => None,
        }
    }

    fn copy(&mut self, src: Coord, dest: Coord) -> (done: bool) where T: Copy {
        if let Some(src_index) = self.coord_to_index(src) {
            if let Some(dest_index) = self.coord_to_index(dest) {
                let value = self.cells[src_index];
                proof {
                    lemma_update_cell(self.bounds, self.cells@, dest, value);
                }
                self.cells.set(dest_index, value);
                return true;
            }
        }
        false
    }

    /// Swaps the contents of two cells.
    fn swap(&mut self, coord1: Coord, coord2: Coord) -> (done: bool) {
        if let Some(index1) = self.coord_to_index(coord1) {
            if let Some(index2) = self.coord_to_index(coord2) {
                proof {
                    let first = self.cells@[index1 as int];
                    let second = self.cells@[index2 as int];
                    lemma_update_cell(self.bounds, self.cells@, coord1, second);
                    lemma_update_cell(
                        self.bounds,
                        self.cells@.update(index1 as int, second),
                        coord2,
                        first,
                    );
                }
                swap_cells(&mut self.cells, index1, index2);
                return true;
            }
        }
        false
    }

    /// Moves the contents of `src` into `dest`, returning the previous contents of `dest`.
    fn mov(&mut self, src: Coord, dest: Coord) -> (previous: Option<T>) where T: Default {
        // Make sure both coordinates are in bounds before mutating things.
        if !(self.bounds.contains(src) && self.bounds.contains(dest)) {
            return None;
        }
        let src_value = self.take(src).unwrap();
        self.replace(dest, src_value)
    }
}

/// Exchanges two cells of storage.
fn swap_cells<T>(cells: &mut Vec<T>, index1: usize, index2: usize)
    requires
        index1 < old(cells)@.len(),
        index2 < old(cells)@.len(),
    ensures
        final(cells)@ == old(cells)@.update(index1 as int, old(cells)@[index2 as int]).update(
            index2 as int,
            old(cells)@[index1 as int],
        ),
{
    if index1 == index2 {
        assert(cells@ =~= cells@.update(index1 as int, cells@[index2 as int]).update(
            index2 as int,
            cells@[index1 as int],
        ));
        return ;
    }
    let low = if index1 < index2 { index1 } else { index2 };
    let high = if index1 < index2 { index2 } else { index1 };
    let ghost before = cells@;
    let (front, back) = cells.as_mut_slice().split_at_mut(high);
    let (_, middle) = front.split_at_mut(low);
    let a = middle.first_mut().unwrap();
    let b = back.first_mut().unwrap();
    std::mem::swap(a, b);
    assert(cells@ =~= before.update(index1 as int, before[index2 as int]).update(
        index2 as int,
        before[index1 as int],
    ));
}

impl<T> VecGrid<T> {
    /// Returns a pass over all cells in the grid, in storage order.
    pub fn iter<'a>(&'a self) -> (cells: Cells<'a, T>)
        requires
            self.wf(),
        ensures
            cells.grid == self,
            cells.position == 0,
            cells.wf(),
    {
        Cells { grid: self, position: 0 }
    }

    /// Returns a pass over all cells in the grid, in storage order, that hands each cell out
    /// for writing.
    pub fn iter_mut<'a>(&'a mut self) -> (cells: CellsMut<'a, T>)
        requires
            old(self).wf(),
        ensures
            *cells.grid == *old(self),
            cells.position == 0,
            cells.wf(),
            *final(self) == *final(cells.grid),
    {
        CellsMut { grid: self, position: 0 }
    }

    /// Returns a pass over the cells specified by the coords source.
    pub fn selection_iter<I: CoordIter>(&self, coords: I) -> (selection: SelectionIter<'_, T, I>)
        requires
            self.wf(),
            coords.wf(),
        ensures
            selection.grid == self,
            selection.coords == coords,
            selection.wf(),
    {
        SelectionIter { grid: self, coords }
    }

    /// Returns a pass over the cells specified by the coords source that hands each cell
    /// out for writing.
    ///
    /// If there is an attempt to visit a given cell more than once in one pass, a
    /// [`GridError::AlreadyVisited`](GridError::AlreadyVisited) will be returned in place of
    /// the cell contents.
    pub fn selection_iter_mut<I: CoordIter>(&mut self, coords: I) -> (selection:
        SelectionIterMut<'_, T, I>)
        requires
            old(self).wf(),
            coords.wf(),
        ensures
            *selection.grid == *old(self),
            selection.coords == coords,
            selection.visited() == Set::<Coord>::empty(),
            selection.wf(),
            *final(self) == *final(selection.grid),
    {
        let selection = SelectionIterMut { grid: self, coords, visited_coords: HashSet::new() };
        assert(selection.visited() =~= Set::<Coord>::empty());
        selection
    }

    /// Returns a pass beginning from `starting_coord` and continuing through all
    /// recursively adjacent coords that satisfy the `predicate`. In other words, this
    /// goes through the cells according to a flood fill algorithm.
    ///
    /// Since there is no `mut` version of this pass (which would require simultaneous
    /// mutable and shared references to most of the cells), the coordinates can be
    /// collected and then passed into [`VecGrid::selection_iter_mut`] to gain access to
    /// mutable cell contents.
    pub fn flood_iter<P: Fn(&T) -> bool>(&self, starting_coord: Coord, predicate: P) -> (flood:
        FloodIter<'_, T, P>)
        requires
            self.wf(),
            forall|coord: Coord| #[trigger]
                self.bounds.spec_contains(coord) ==> call_requires(
                    predicate,
                    (&self.cell_map()[coord],),
                ),
        ensures
            flood.grid == self,
            flood.predicate == predicate,
            flood.searched_coords@ == Seq::<Coord>::empty(),
            flood.coords_to_search@ == seq![starting_coord],
            flood.wf(),
    {
        let mut coords_to_search = VecDeque::new();
        coords_to_search.push_back(starting_coord);
        assert(coords_to_search@ =~= seq![starting_coord]);
        FloodIter { grid: self, predicate, searched_coords: Vec::new(), coords_to_search }
    }
}

/// A pass over all cells of a grid, in storage order.
pub struct Cells<'a, T> {
    pub grid: &'a VecGrid<T>,
    /// The place in storage of the cell that comes next.
    pub position: usize,
}

impl<'a, T> Cells<'a, T> {
    pub open spec fn wf(&self) -> bool {
        self.grid.wf() && self.position <= self.grid.cells@.len()
    }

    /// The next cell with its coordinate, or `None` once every cell has been handed out.
    pub fn next(&mut self) -> (item: Option<IterCell<'a, T>>)
        requires
            old(self).wf(),
        ensures
            final(self).wf(),
            final(self).grid == old(self).grid,
            old(self).position < old(self).grid.cells@.len() ==> item == Some(
                (
                    spec_index_to_coord(old(self).grid.bounds, old(self).position as int),
                    &old(self).grid.cells@[old(self).position as int],
                ),
            ) && final(self).position == old(self).position + 1,
            old(self).position >= old(self).grid.cells@.len() ==> {
                &&& item is None
                &&& final(self).position == old(self).position
            },
    {
        if self.position < self.grid.cells.len() {
            let index = self.position;
            self.position = self.position + 1;
            Some((self.grid.index_to_coord(index), &self.grid.cells[index]))
        } else {
            None
        }
    }
}

/// A pass over all cells of a grid, in storage order, that hands each cell out for
/// writing.
pub struct CellsMut<'a, T> {
    pub grid: &'a mut VecGrid<T>,
    /// The place in storage of the cell that comes next.
    pub position: usize,
}

impl<'a, T> CellsMut<'a, T> {
    pub open spec fn wf(&self) -> bool {
        self.grid.wf() && self.position <= self.grid.cells@.len()
    }

    /// The next cell with its coordinate, or `None` once every cell has been handed out.
    /// What the caller leaves in the cell is what the grid then holds there.
    pub fn next(&mut self) -> (item: Option<IterCellMut<'_, T>>)
        requires
            old(self).wf(),
        ensures
            final(self).wf(),
            final(self).grid.bounds == old(self).grid.bounds,
            *final(final(self).grid) == *final(old(self).grid),
            old(self).position < old(self).grid.cells@.len() ==> {
                &&& item matches Some(handed)
                &&& handed.0 == spec_index_to_coord(
                    old(self).grid.bounds,
                    old(self).position as int,
                )
                &&& *handed.1 == old(self).grid.cells@[old(self).position as int]
                &&& final(self).grid.cells@ == old(self).grid.cells@.update(
                    old(self).position as int,
                    *final(handed.1),
                )
                &&& final(self).position == old(self).position + 1
            },
            old(self).position >= old(self).grid.cells@.len() ==> {
                &&& item is None
                &&& final(self).position == old(self).position
                &&& final(self).grid.cells@ == old(self).grid.cells@
            },
    {
        if self.position < self.grid.cells.len() {
            let index = self.position;
            self.position = self.position + 1;
            let coord = VecGrid::<T>::index_to_coord_with_bounds(self.grid.bounds, index);
            Some((coord, &mut self.grid.cells[index]))
        } else {
            None
        }
    }
}

/// The text of the first `columns` cells of the row `row`: for each cell its character and
/// a space.
pub open spec fn row_text(glyphs: Seq<char>, width: int, row: int, columns: int) -> Seq<char>
    decreases columns,
{
    if columns <= 0 {
        Seq::empty()
    } else {
        row_text(glyphs, width, row, columns - 1) + seq![glyphs[row * width + columns - 1], ' ']
    }
}

/// The text of the first `rows` rows of a grid of `width` columns whose cells show as
/// `glyphs`: row by row, each row closed by a line feed.
pub open spec fn grid_text(glyphs: Seq<char>, width: int, rows: int) -> Seq<char>
    decreases rows,
{
    if rows <= 0 {
        Seq::empty()
    } else {
        grid_text(glyphs, width, rows - 1) + row_text(glyphs, width, rows - 1, width) + seq![
            '\n',
        ]
    }
}

impl<T> VecGrid<T> {
    /// The grid as text, one row per line: each cell as the character that it converts into,
    /// followed by a space.
    pub fn render(&self) -> (text: String) where char: From<T>, T: Copy
        requires
            self.wf(),
        ensures
            exists|glyphs: Seq<char>|
                {
                    &&& glyphs.len() == self.cells@.len()
                    &&& forall|i: int|
                        0 <= i < glyphs.len() ==> call_ensures(
                            char::from,
                            (self.cells@[i],),
                            #[trigger] glyphs[i],
                        )
                    &&& text@ == #[trigger] grid_text(
                        glyphs,
                        self.bounds.spec_width(),
                        self.bounds.spec_height(),
                    )
                },
    {
        let mut glyphs: Vec<char> = Vec::new();
        let mut i: usize = 0;
        while i < self.cells.len()
            invariant
                i <= self.cells@.len(),
                glyphs@.len() == i,
                forall|j: int|
                    0 <= j < i ==> call_ensures(
                        char::from,
                        (self.cells@[j],),
                        #[trigger] glyphs@[j],
                    ),
            decreases self.cells@.len() - i,
        {
            glyphs.push(char::from(self.cells[i]));
            i = i + 1;
        }
        render_glyphs(self.bounds, &glyphs)
    }
}

/// The text of a grid over `bounds` whose cells, in storage order, show as `glyphs`.
pub fn render_glyphs(bounds: Rect, glyphs: &Vec<char>) -> (text: String)
    requires
        bounds.wf(),
        glyphs@.len() == bounds.spec_area(),
    ensures
        text@ == grid_text(glyphs@, bounds.spec_width(), bounds.spec_height()),
{
    let ghost w = bounds.spec_width();
    let ghost h = bounds.spec_height();
    let mut text = String::new();
    let mut index: usize = 0;
    let mut y = bounds.top;
    while y < bounds.bottom
        invariant
            bounds.wf(),
            w == bounds.spec_width(),
            h == bounds.spec_height(),
            glyphs@.len() == w * h,
            bounds.top <= y <= bounds.bottom,
            index == (y - bounds.top) * w,
            text@ == grid_text(glyphs@, w, y - bounds.top),
        decreases bounds.bottom - y,
    {
        let ghost row = y - bounds.top;
        let ghost above = text@;
        let mut x = bounds.left;
        while x < bounds.right
            invariant
                bounds.wf(),
                w == bounds.spec_width(),
                h == bounds.spec_height(),
                glyphs@.len() == w * h,
                bounds.top <= y < bounds.bottom,
                row == y - bounds.top,
                bounds.left <= x <= bounds.right,
                index == row * w + (x - bounds.left),
                text@ == above + row_text(glyphs@, w, row, x - bounds.left),
            decreases bounds.right - x,
        {
            proof {
                lemma_cell_index(w, h, x - bounds.left, row);
                assert(index < glyphs.len());
            }
            let ghost before = text@;
            push_char(&mut text, glyphs[index]);
            push_char(&mut text, ' ');
            proof {
                assert(text@ =~= before + seq![glyphs@[index as int], ' ']);
                assert(text@ =~= above + row_text(glyphs@, w, row, x - bounds.left + 1));
            }
            index = index + 1;
            x = x + 1;
        }
        push_char(&mut text, '\n');
        proof {
            assert((row + 1) * w == row * w + w) by (nonlinear_arith);
            assert(text@ =~= grid_text(glyphs@, w, row + 1));
        }
        y = y + 1;
    }
    text
}

/// What a selection pass over `grid` hands out for `coord`: the cell there, or the news
/// that there is none.
pub open spec fn selected<T>(grid: &VecGrid<T>, coord: Coord) -> Result<(Coord, &T), GridError> {
    if grid.bounds.spec_contains(coord) {
        Ok((coord, &grid.cell_map()[coord]))
    } else {
        Err(GridError::OutOfBounds(coord))
    }
}

/// A pass over the cells of a grid that a source of coordinates selects.
pub struct SelectionIter<'a, T, I: CoordIter> {
    pub grid: &'a VecGrid<T>,
    pub coords: I,
}

impl<'a, T, I: CoordIter> SelectionIter<'a, T, I> {
    pub open spec fn wf(&self) -> bool {
        self.grid.wf() && self.coords.wf()
    }

    /// What the pass will still hand out: one item for each coordinate that the source
    /// still holds, in the order of the source.
    pub open spec fn remaining(&self) -> Seq<Result<(Coord, &T), GridError>> {
        self.coords.remaining().map_values(|coord: Coord| selected(self.grid, coord))
    }

    /// The item for the next coordinate of the source, or `None` once the source has run
    /// out.
    pub fn next(&mut self) -> (item: Option<Result<IterCell<'a, T>, GridError>>)
        requires
            old(self).wf(),
        ensures
            final(self).wf(),
            final(self).grid == old(self).grid,
            old(self).remaining().len() == 0 ==> {
                &&& item is None
                &&& final(self).remaining() == old(self).remaining()
            },
            old(self).remaining().len() > 0 ==> {
                &&& item == Some(old(self).remaining()[0])
                &&& final(self).remaining() == old(self).remaining().skip(1)
                &&& final(self).coords.remaining() == old(self).coords.remaining().skip(1)
            },
    {
        let grid: &'a VecGrid<T> = self.grid;
        let item = match self.coords.next() {
            Some(coord) => {
                match grid.get(coord) {
                    Some(cell) => Some(Ok((coord, cell))),
                    None => Some(Err(GridError::OutOfBounds(coord))),
                }
            },
            None => None,
        };
        assert(old(self).remaining().len() > 0 ==> self.remaining() =~= old(
            self,
        ).remaining().skip(1));
        item
    }
}

/// A pass over the cells of a grid that a source of coordinates selects, handing each cell
/// out for writing, and none of them twice.
pub struct SelectionIterMut<'a, T, I: CoordIter> {
    pub grid: &'a mut VecGrid<T>,
    pub coords: I,
    /// The places in storage of the cells that the pass has handed out.
    pub visited_coords: HashSet<usize>,
}

impl<'a, T, I: CoordIter> SelectionIterMut<'a, T, I> {
    pub open spec fn wf(&self) -> bool {
        self.grid.wf() && self.coords.wf()
    }

    /// The coordinates whose cells the pass has handed out.
    pub closed spec fn visited(&self) -> Set<Coord> {
        Set::new(
            |coord: Coord|
                self.grid.bounds.spec_contains(coord) && self.visited_coords@.contains(
                    spec_coord_to_index(self.grid.bounds, coord) as usize,
                ),
        )
    }

    /// The item for the next coordinate of the source, or `None` once the source has run
    /// out. For a coordinate outside the grid the item is an `OutOfBounds` error; for one
    /// whose cell this pass has handed out before it is an `AlreadyVisited` error; in both
    /// cases nothing changes but the source. Otherwise the item is exclusive access to
    /// the cell: what the caller leaves in the cell is what the grid then holds there.
    pub fn next(&mut self) -> (item: Option<Result<IterCellMut<'_, T>, GridError>>)
        requires
            old(self).wf(),
        ensures
            final(self).wf(),
            final(self).grid.bounds == old(self).grid.bounds,
            *final(final(self).grid) == *final(old(self).grid),
            old(self).coords.remaining().len() == 0 ==> {
                &&& item is None
                &&& final(self).coords.remaining() == old(self).coords.remaining()
                &&& final(self).grid.cells@ == old(self).grid.cells@
                &&& final(self).visited() == old(self).visited()
            },
            old(self).coords.remaining().len() > 0 ==> {
                let coord = old(self).coords.remaining()[0];
                let inside = old(self).grid.bounds.spec_contains(coord);
                let seen = old(self).visited().contains(coord);
                &&& final(self).coords.remaining() == old(self).coords.remaining().skip(1)
                &&& !inside ==> item == Some(
                    Err::<(Coord, &mut T), GridError>(GridError::OutOfBounds(coord)),
                )
                &&& inside && seen ==> item == Some(
                    Err::<(Coord, &mut T), GridError>(GridError::AlreadyVisited(coord)),
                )
                &&& !inside || seen ==> {
                    &&& final(self).grid.cells@ == old(self).grid.cells@
                    &&& final(self).visited() == old(self).visited()
                }
                &&& inside && !seen ==> {
                    &&& item matches Some(Ok(handed))
                    &&& handed.0 == coord
                    &&& *handed.1 == old(self).grid.cell_map()[coord]
                    &&& final(self).grid.cell_map() == old(self).grid.cell_map().insert(
                        coord,
                        *final(handed.1),
                    )
                    &&& final(self).visited() == old(self).visited().insert(coord)
                }
            },
    {
        let ghost before = self.visited();
        match self.coords.next() {
            Some(coord) => {
                match self.grid.coord_to_index(coord) {
                    Some(index) => {
                        if self.visited_coords.contains(&index) {
                            return Some(Err(GridError::AlreadyVisited(coord)));
                        }
                        self.visited_coords.insert(index);
                        proof {
                            assert(self.grid.cells.len() == self.grid.bounds.spec_area());
                            assert forall|c: Coord| #[trigger]
                                self.visited().contains(c) <==> before.insert(coord).contains(
                                    c,
                                ) by {
                                if self.grid.bounds.spec_contains(c) {
                                    lemma_coord_index_roundtrip(self.grid.bounds, c);
                                    lemma_coord_index_roundtrip(self.grid.bounds, coord);
                                    if spec_coord_to_index(self.grid.bounds, c) == index {
                                        lemma_index_is_injective(self.grid.bounds, c, coord);
                                    }
                                }
                            }
                            assert(self.visited() =~= before.insert(coord));
                        }
                        match self.grid.get_mut(coord) {
                            Some(cell) => Some(Ok((coord, cell))),
                            None => Some(Err(GridError::OutOfBounds(coord))),
                        }
                    },
                    None => Some(Err(GridError::OutOfBounds(coord))),
                }
            },
            None => None,
        }
    }
}

/// The coordinate `(x, y)` as a list of one, if it lies inside `bounds` and in neither
/// `searched` nor `queue`; the empty list otherwise.
pub open spec fn fresh_coord(
    bounds: Rect,
    searched: Seq<Coord>,
    queue: Seq<Coord>,
    x: int,
    y: int,
) -> Seq<Coord> {
    let coord = Coord { x: x as i32, y: y as i32 };
    if bounds.left <= x < bounds.right && bounds.top <= y < bounds.bottom && !searched.contains(
        coord,
    ) && !queue.contains(coord) {
        seq![coord]
    } else {
        Seq::empty()
    }
}

/// The orthogonal neighbors of `coord`, in the order north, east, south, west, that lie
/// inside `bounds` and in neither `searched` nor `queue`.
pub open spec fn fresh_neighbors(
    bounds: Rect,
    searched: Seq<Coord>,
    queue: Seq<Coord>,
    coord: Coord,
) -> Seq<Coord> {
    fresh_coord(bounds, searched, queue, coord.x as int, coord.y + 1) + fresh_coord(
        bounds,
        searched,
        queue,
        coord.x + 1,
        coord.y as int,
    ) + fresh_coord(bounds, searched, queue, coord.x as int, coord.y - 1) + fresh_coord(
        bounds,
        searched,
        queue,
        coord.x - 1,
        coord.y as int,
    )
}

/// A flood fill in progress: a breadth-first search from a starting coordinate through the
/// cells that a predicate accepts.
pub struct FloodIter<'a, T, P: Fn(&T) -> bool> {
    pub grid: &'a VecGrid<T>,
    pub predicate: P,
    /// The coordinates that the search has looked at, accepted or not.
    pub searched_coords: Vec<Coord>,
    /// The coordinates that the search has yet to look at.
    pub coords_to_search: VecDeque<Coord>,
}

impl<'a, T, P: Fn(&T) -> bool> FloodIter<'a, T, P> {
    pub open spec fn wf(&self) -> bool {
        &&& self.grid.wf()
        &&& forall|coord: Coord| #[trigger]
            self.grid.bounds.spec_contains(coord) ==> call_requires(
                self.predicate,
                (&self.grid.cell_map()[coord],),
            )
    }

    /// Whether the search may pass over `coord`: it lies outside the grid, or the predicate
    /// may reject its cell.
    pub open spec fn may_reject(&self, coord: Coord) -> bool {
        self.grid.bounds.spec_contains(coord) ==> call_ensures(
            self.predicate,
            (&self.grid.cell_map()[coord],),
            false,
        )
    }

    /// Whether the search may take `coord` in: it lies inside the grid, and the predicate
    /// may accept its cell.
    pub open spec fn may_accept(&self, coord: Coord) -> bool {
        self.grid.bounds.spec_contains(coord) && call_ensures(
            self.predicate,
            (&self.grid.cell_map()[coord],),
            true,
        )
    }

    /// Whether the search gets from the state `(searched, queue)` to the state
    /// `(next_searched, next_queue)` by handing out `coord`: it passes over the first `skipped`
    /// coordinates of the queue, takes in the one behind them, which is `coord`, marks all
    /// of these as searched, and puts the fresh neighbors of `coord` at the back of the
    /// queue.
    pub open spec fn yields(
        &self,
        searched: Seq<Coord>,
        queue: Seq<Coord>,
        skipped: int,
        coord: Coord,
        next_searched: Seq<Coord>,
        next_queue: Seq<Coord>,
    ) -> bool {
        &&& 0 <= skipped < queue.len()
        &&& queue[skipped] == coord
        &&& forall|j: int| 0 <= j < skipped ==> self.may_reject(#[trigger] queue[j])
        &&& self.may_accept(coord)
        &&& next_searched == searched + queue.take(skipped + 1)
        &&& next_queue == queue.skip(skipped + 1) + fresh_neighbors(
            self.grid.bounds,
            next_searched,
            queue.skip(skipped + 1),
            coord,
        )
    }

    /// Whether the search comes to its end from the state `(searched, queue)`, leaving the
    /// state `(next_searched, next_queue)`: it passes over every coordinate of the queue.
    pub open spec fn finishes(
        &self,
        searched: Seq<Coord>,
        queue: Seq<Coord>,
        next_searched: Seq<Coord>,
        next_queue: Seq<Coord>,
    ) -> bool {
        &&& forall|j: int| 0 <= j < queue.len() ==> self.may_reject(#[trigger] queue[j])
        &&& next_searched == searched + queue
        &&& next_queue == Seq::<Coord>::empty()
    }

    /// The next cell of the fill with its coordinate, or `None` once the fill is complete.
    pub fn next(&mut self) -> (item: Option<IterCell<'a, T>>)
        requires
            old(self).wf(),
        ensures
            final(self).wf(),
            final(self).grid == old(self).grid,
            final(self).predicate == old(self).predicate,
            item matches Some(found) ==> found.1 == &old(self).grid.cell_map()[found.0]
                && exists|skipped: int| #[trigger]
                old(self).yields(
                    old(self).searched_coords@,
                    old(self).coords_to_search@,
                    skipped,
                    found.0,
                    final(self).searched_coords@,
                    final(self).coords_to_search@,
                ),
            item is None ==> old(self).finishes(
                old(self).searched_coords@,
                old(self).coords_to_search@,
                final(self).searched_coords@,
                final(self).coords_to_search@,
            ),
    {
        let ghost searched = self.searched_coords@;
        let ghost queue = self.coords_to_search@;
        let ghost mut skipped: int = 0;
        let mut item: Option<IterCell<'a, T>> = None;
        while self.coords_to_search.len() > 0
            invariant_except_break
                item is None,
                0 <= skipped <= queue.len(),
                self.searched_coords@ == searched + queue.take(skipped),
                self.coords_to_search@ == queue.skip(skipped),
                forall|j: int| 0 <= j < skipped ==> old(self).may_reject(#[trigger] queue[j]),
            invariant
                self.wf(),
                self.grid == old(self).grid,
                self.predicate == old(self).predicate,
                searched == old(self).searched_coords@,
                queue == old(self).coords_to_search@,
            ensures
                item matches Some(found) ==> found.1 == &old(self).grid.cell_map()[found.0]
                    && old(self).yields(
                    searched,
                    queue,
                    skipped,
                    found.0,
                    self.searched_coords@,
                    self.coords_to_search@,
                ),
                item is None ==> {
                    &&& 0 <= skipped <= queue.len()
                    &&& self.searched_coords@ == searched + queue.take(skipped)
                    &&& self.coords_to_search@ == queue.skip(skipped)
                    &&& self.coords_to_search@.len() == 0
                    &&& forall|j: int|
                        0 <= j < skipped ==> old(self).may_reject(#[trigger] queue[j])
                },
            decreases self.coords_to_search@.len(),
        {
            let coord = self.coords_to_search.pop_front().unwrap();
            let found = self.grid.get(coord);
            let is_cell_included = match found {
                Some(cell) => (self.predicate)(cell),
                None => false,
            };

            self.searched_coords.push(coord);
            proof {
                assert(coord == queue[skipped]);
                assert(self.searched_coords@ =~= searched + queue.take(skipped + 1));
                assert(self.coords_to_search@ =~= queue.skip(skipped + 1));
            }

            if !is_cell_included {
                proof {
                    skipped = skipped + 1;
                }
                continue ;
            }
            let north = fresh(
                &self.grid.bounds,
                &self.searched_coords,
                &self.coords_to_search,
                coord.x as i64,
                coord.y as i64 + 1,
            );
            let east = fresh(
                &self.grid.bounds,
                &self.searched_coords,
                &self.coords_to_search,
                coord.x as i64 + 1,
                coord.y as i64,
            );
            let south = fresh(
                &self.grid.bounds,
                &self.searched_coords,
                &self.coords_to_search,
                coord.x as i64,
                coord.y as i64 - 1,
            );
            let west = fresh(
                &self.grid.bounds,
                &self.searched_coords,
                &self.coords_to_search,
                coord.x as i64 - 1,
                coord.y as i64,
            );
            let ghost rest = self.coords_to_search@;
            if let Some(neighbor) = north {
                self.coords_to_search.push_back(neighbor);
            }
            if let Some(neighbor) = east {
                self.coords_to_search.push_back(neighbor);
            }
            if let Some(neighbor) = south {
                self.coords_to_search.push_back(neighbor);
            }
            if let Some(neighbor) = west {
                self.coords_to_search.push_back(neighbor);
            }
            proof {
                assert(self.coords_to_search@ =~= rest + fresh_neighbors(
                    self.grid.bounds,
                    self.searched_coords@,
                    rest,
                    coord,
                ));
            }
            item = Some((coord, found.unwrap()));
            break ;
        }
        proof {
            if item is None {
                assert(queue.take(skipped) =~= queue);
                assert(self.coords_to_search@ =~= Seq::<Coord>::empty());
            }
        }
        item
    }
}

/// The coordinate `(x, y)`, if it lies inside `bounds` and in neither `searched` nor `queue`.
fn fresh(bounds: &Rect, searched: &Vec<Coord>, queue: &VecDeque<Coord>, x: i64, y: i64) -> (found:
    Option<Coord>)
    ensures
        found is Some ==> fresh_coord(*bounds, searched@, queue@, x as int, y as int) == seq![
            found->0,
        ],
        found is None ==> fresh_coord(*bounds, searched@, queue@, x as int, y as int)
            == Seq::<Coord>::empty(),
{
    if !(bounds.left as i64 <= x && x < bounds.right as i64 && bounds.top as i64 <= y && y
        < bounds.bottom as i64) {
        return None;
    }
    let coord = Coord::new(x as i32, y as i32);
    if contains_coord(searched, coord) {
        return None;
    }
    let mut i: usize = 0;
    while i < queue.len()
        invariant
            i <= queue@.len(),
            coord == (Coord { x: x as i32, y: y as i32 }),
            forall|j: int| 0 <= j < i ==> queue@[j] != coord,
        decreases queue@.len() - i,
    {
        if queue[i] == coord {
            assert(queue@[i as int] == coord);
            return None;
        }
        i = i + 1;
    }
    Some(coord)
}

} // verus!
