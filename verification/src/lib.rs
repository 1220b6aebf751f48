//! A two-dimensional addressable grid: cell storage indexed by signed integer coordinates, and
//! generators of coordinate shapes (rectangles, lines, circles, neighborhoods, clusters) whose
//! output can be driven through the grid to read or change the cells they cover.

pub mod braille;
pub mod flood;
pub mod patterns;

mod coord;
mod grid;
mod text;
mod vecgrid;

pub use coord::Coord;
pub use coord::ParseCoordError;
pub use grid::Grid;
pub use grid::GridError;
pub use grid::IterCell;
pub use grid::IterCellMut;
pub use vecgrid::Cells;
pub use vecgrid::CellsMut;
pub use vecgrid::FloodIter;
pub use vecgrid::SelectionIter;
pub use vecgrid::SelectionIterMut;
pub use vecgrid::VecGrid;
