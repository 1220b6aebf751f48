use std::cell::Cell;
use tapestry::braille::bools_to_byte;
use tapestry::braille::braillify_grid;
use tapestry::braille::byte_to_braille;
use tapestry::patterns::collect;
use tapestry::patterns::neighborhood::Neighborhood;
use tapestry::patterns::rect::Rect;
use tapestry::patterns::Coords;
use tapestry::Coord;
use tapestry::Grid;
use tapestry::GridError;
use tapestry::VecGrid;

#[test]
fn bounds_and_dimensions() {
    let grid = VecGrid::<()>::new(Rect::new(Coord::new(8, 8)));
    assert_eq!(grid.bounds.width(), 8);
}

#[test]
fn out_of_bounds_coords() {
    let grid = VecGrid::<()>::new(Rect::new(Coord::new(8, 8)));
    // This would pass `coord_to_index` if there was no bounds check.
    assert_eq!(grid.get(Coord::new(-1, 4)), None);
}

#[test]
fn test_index_to_coord() {
    let grid = VecGrid::<()>::new(Rect::new(Coord::new(8, 4)));
    assert_eq!(grid.index_to_coord(12), Coord::new(4, 1));
}

#[test]
fn selection_iter_mut() {
    let mut grid: VecGrid<bool> = VecGrid::new(Rect::new(Coord::new(4, 4)));
    // Set all neighbors of (2, 2) to `true`.
    let mut selection = grid.selection_iter_mut(Neighborhood::new(Coord::new(2, 2)).iter());
    while let Some(res_cell) = selection.next() {
        *res_cell.unwrap().1 = true;
    }
    assert_eq!(grid.get(Coord::new(2, 2)), Some(&false)); // center
    assert_eq!(grid.get(Coord::new(3, 2)), Some(&true)); // right
    assert_eq!(grid.get(Coord::new(2, 1)), Some(&true)); // bottom
    assert_eq!(grid.get(Coord::new(1, 2)), Some(&true)); // left
    assert_eq!(grid.get(Coord::new(2, 3)), Some(&true)); // top
}

#[test]
fn selection_iter_mut_already_visited() {
    let mut grid: VecGrid<bool> = VecGrid::new(Rect::new(Coord::new(3, 3)));
    let coords = Coords::new([(2, 2), (2, 2)].iter().map(|&x| x.into()).collect());
    let mut iter = grid.selection_iter_mut(coords);
    assert!(iter.next().unwrap().is_ok());
    assert!(iter.next().unwrap() == Err(GridError::AlreadyVisited(Coord::new(2, 2))));
}

#[test]
fn selection_iter_mut_changes_a_repeated_cell_once() {
    let mut grid: VecGrid<u32> = VecGrid::new(Rect::new(Coord::new(3, 3)));
    let coords = Coords::new(vec![
        Coord::new(2, 2),
        Coord::new(5, 5),
        Coord::new(2, 2),
        Coord::new(0, 1),
    ]);
    let mut selection = grid.selection_iter_mut(coords);
    let mut outcomes = Vec::new();
    while let Some(item) = selection.next() {
        match item {
            Ok((coord, cell)) => {
                *cell += 1;
                outcomes.push(Ok(coord));
            }
            Err(error) => outcomes.push(Err(error)),
        }
    }
    assert_eq!(
        outcomes,
        vec![
            Ok(Coord::new(2, 2)),
            Err(GridError::OutOfBounds(Coord::new(5, 5))),
            Err(GridError::AlreadyVisited(Coord::new(2, 2))),
            Ok(Coord::new(0, 1)),
        ]
    );
    assert_eq!(grid.get(Coord::new(2, 2)), Some(&1));
    assert_eq!(grid.get(Coord::new(0, 1)), Some(&1));
    assert_eq!(grid.cells.iter().sum::<u32>(), 2);
}

#[test]
fn selection_iter_reports_each_coord() {
    let grid = VecGrid::with_generator(Rect::new(Coord::new(2, 2)), |coord: Coord| {
        coord.x + 10 * coord.y
    });
    let coords = Coords::new(vec![
        Coord::new(1, 1),
        Coord::new(2, 0),
        Coord::new(1, 1),
        Coord::new(0, -1),
        Coord::new(0, 0),
    ]);
    let mut selection = grid.selection_iter(coords);
    assert_eq!(selection.next(), Some(Ok((Coord::new(1, 1), &11))));
    assert_eq!(selection.next(), Some(Err(GridError::OutOfBounds(Coord::new(2, 0)))));
    assert_eq!(selection.next(), Some(Ok((Coord::new(1, 1), &11))));
    assert_eq!(selection.next(), Some(Err(GridError::OutOfBounds(Coord::new(0, -1)))));
    assert_eq!(selection.next(), Some(Ok((Coord::new(0, 0), &0))));
    assert_eq!(selection.next(), None);
    assert_eq!(selection.next(), None);
}

#[test]
fn with_generator_calls_once_per_coord_in_row_major_order() {
    let calls = Cell::new(0usize);
    let seen = std::cell::RefCell::new(Vec::new());
    let bounds = Rect::with_corners(Coord::new(-1, 2), Coord::new(2, 4));
    let grid = VecGrid::with_generator(bounds, |coord: Coord| {
        calls.set(calls.get() + 1);
        seen.borrow_mut().push(coord);
        (coord.x, coord.y)
    });
    assert_eq!(calls.get(), bounds.area() as usize);
    assert_eq!(calls.get(), 6);
    assert_eq!(grid.cells.len(), 6);
    assert_eq!(
        *seen.borrow(),
        vec![
            Coord::new(-1, 2),
            Coord::new(0, 2),
            Coord::new(1, 2),
            Coord::new(-1, 3),
            Coord::new(0, 3),
            Coord::new(1, 3),
        ]
    );
    for coord in seen.borrow().iter() {
        assert_eq!(grid.get(*coord), Some(&(coord.x, coord.y)));
    }
}

#[test]
fn index_and_coord_round_trip() {
    let bounds = Rect::with_corners(Coord::new(-3, 5), Coord::new(4, 9));
    let grid = VecGrid::<u8>::new(bounds);
    assert_eq!(grid.cells.len(), 28);
    let mut index = 0;
    for y in bounds.y_range() {
        for x in bounds.x_range() {
            let coord = Coord::new(x, y);
            assert!(bounds.contains(coord));
            assert_eq!(grid.coord_to_index(coord), Some(index));
            assert_eq!(grid.index_to_coord(index), coord);
            assert_eq!(VecGrid::<u8>::index_to_coord_with_bounds(bounds, index), coord);
            index += 1;
        }
    }
    assert_eq!(grid.coord_to_index(Coord::new(4, 5)), None);
    assert_eq!(grid.coord_to_index(Coord::new(-3, 9)), None);
    assert_eq!(grid.coord_to_index(Coord::new(-4, 5)), None);
    assert_eq!(grid.coord_to_index(Coord::new(0, 4)), None);
    // index = (x - left) + (y - top) * width
    assert_eq!(grid.coord_to_index(Coord::new(2, 7)), Some(5 + 2 * 7));
}

#[test]
fn flood_of_an_all_true_grid_covers_it() {
    let grid = VecGrid::with_generator(Rect::new(Coord::new(4, 4)), |_coord: Coord| true);
    let mut flood = grid.flood_iter(Coord::new(0, 0), |cell: &bool| *cell);
    let mut found = Vec::new();
    while let Some((coord, cell)) = flood.next() {
        assert!(*cell);
        found.push(coord);
    }
    assert_eq!(found.len(), 16);
    for y in 0..4 {
        for x in 0..4 {
            assert_eq!(found.iter().filter(|c| **c == Coord::new(x, y)).count(), 1);
        }
    }
    assert_eq!(flood.next(), None);
}

#[test]
fn flood_goes_breadth_first_north_east_south_west() {
    let grid = VecGrid::with_generator(Rect::new(Coord::new(3, 3)), |_coord: Coord| true);
    let mut flood = grid.flood_iter(Coord::new(1, 1), |cell: &bool| *cell);
    let mut found = Vec::new();
    while let Some((coord, _)) = flood.next() {
        found.push((coord.x, coord.y));
    }
    assert_eq!(
        found,
        vec![(1, 1), (1, 2), (2, 1), (1, 0), (0, 1), (2, 2), (0, 2), (2, 0), (0, 0)]
    );
}

#[test]
fn flood_stays_inside_the_connected_region() {
    // . # . .
    // . # # .
    // . . . #
    let wall = [(1, 0), (1, 1), (2, 1), (3, 2)];
    let grid = VecGrid::with_generator(Rect::new(Coord::new(4, 3)), |coord: Coord| {
        !wall.contains(&(coord.x, coord.y))
    });
    let mut flood = grid.flood_iter(Coord::new(0, 0), |cell: &bool| *cell);
    let mut found = Vec::new();
    while let Some((coord, _)) = flood.next() {
        found.push((coord.x, coord.y));
    }
    found.sort();
    assert_eq!(found, vec![(0, 0), (0, 1), (0, 2), (1, 2), (2, 2)]);

    let mut flood = grid.flood_iter(Coord::new(3, 0), |cell: &bool| *cell);
    let mut found = Vec::new();
    while let Some((coord, _)) = flood.next() {
        found.push((coord.x, coord.y));
    }
    found.sort();
    assert_eq!(found, vec![(2, 0), (3, 0), (3, 1)]);
}

#[test]
fn flood_from_a_rejected_or_outside_start_is_empty() {
    let grid = VecGrid::with_generator(Rect::new(Coord::new(2, 2)), |coord: Coord| coord.x == 1);
    let mut flood = grid.flood_iter(Coord::new(0, 0), |cell: &bool| *cell);
    assert_eq!(flood.next(), None);
    assert_eq!(flood.searched_coords, vec![Coord::new(0, 0)]);
    let mut flood = grid.flood_iter(Coord::new(7, 7), |cell: &bool| *cell);
    assert_eq!(flood.next(), None);
    let mut flood = grid.flood_iter(Coord::new(1, 0), |cell: &bool| *cell);
    assert_eq!(flood.next(), Some((Coord::new(1, 0), &true)));
    assert_eq!(flood.next(), Some((Coord::new(1, 1), &true)));
    assert_eq!(flood.next(), None);
}

#[test]
fn flood_at_the_edge_of_the_coordinate_space() {
    let bounds = Rect::with_corners(
        Coord::new(i32::MIN, i32::MIN),
        Coord::new(i32::MIN + 2, i32::MIN + 2),
    );
    let grid = VecGrid::with_generator(bounds, |_coord: Coord| true);
    let mut flood = grid.flood_iter(Coord::new(i32::MIN, i32::MIN), |cell: &bool| *cell);
    let mut count = 0;
    while let Some(_) = flood.next() {
        count += 1;
    }
    assert_eq!(count, 4);
}

#[test]
fn full_scan_goes_through_storage_in_order() {
    let bounds = Rect::with_corners(Coord::new(1, 1), Coord::new(3, 3));
    let mut grid = VecGrid::with_generator(bounds, |coord: Coord| coord.x * coord.y);
    let mut cells = grid.iter();
    assert_eq!(cells.next(), Some((Coord::new(1, 1), &1)));
    assert_eq!(cells.next(), Some((Coord::new(2, 1), &2)));
    assert_eq!(cells.next(), Some((Coord::new(1, 2), &2)));
    assert_eq!(cells.next(), Some((Coord::new(2, 2), &4)));
    assert_eq!(cells.next(), None);
    let mut cells = grid.iter_mut();
    while let Some((coord, cell)) = cells.next() {
        *cell += coord.x;
    }
    assert_eq!(grid.cells, vec![2, 4, 3, 6]);
}

#[test]
fn cell_operations() {
    let mut grid: VecGrid<i32> = VecGrid::new(Rect::new(Coord::new(2, 2)));
    let a = Coord::new(0, 0);
    let b = Coord::new(1, 1);
    let outside = Coord::new(2, 0);
    assert!(grid.set(a, 5));
    assert!(!grid.set(outside, 5));
    assert_eq!(grid.replace(b, 7), Some(0));
    assert_eq!(grid.replace(outside, 7), None);
    assert_eq!(grid.get(a), Some(&5));
    assert_eq!(grid.get(b), Some(&7));
    assert!(grid.swap(a, b));
    assert_eq!((grid.get(a), grid.get(b)), (Some(&7), Some(&5)));
    assert!(grid.swap(b, a));
    assert!(grid.swap(a, a));
    assert_eq!((grid.get(a), grid.get(b)), (Some(&5), Some(&7)));
    assert!(!grid.swap(a, outside));
    assert!(!grid.swap(outside, a));
    assert!(grid.copy(a, Coord::new(1, 0)));
    assert_eq!(grid.get(Coord::new(1, 0)), Some(&5));
    assert!(!grid.copy(outside, a));
    assert!(!grid.copy(a, outside));
    assert_eq!(grid.take(a), Some(5));
    assert_eq!(grid.get(a), Some(&0));
    assert_eq!(grid.take(outside), None);
    assert_eq!(grid.mov(b, a), Some(0));
    assert_eq!((grid.get(a), grid.get(b)), (Some(&7), Some(&0)));
    assert_eq!(grid.mov(a, outside), None);
    assert_eq!(grid.mov(outside, a), None);
    assert_eq!(grid.get(a), Some(&7));
    assert_eq!(grid.mov(a, a), Some(0));
    assert_eq!(grid.get(a), Some(&7));
    if let Some(cell) = grid.get_mut(b) {
        *cell = -1;
    }
    assert_eq!(grid.get_mut(outside), None);
    assert_eq!(grid.cells, vec![7, 5, 0, -1]);
}

#[test]
fn render_writes_one_row_per_line() {
    let grid = VecGrid::with_generator(Rect::new(Coord::new(3, 2)), |coord: Coord| {
        if coord.x == coord.y {
            b'#'
        } else {
            b'.'
        }
    });
    assert_eq!(grid.render(), "# . . \n. # . \n");
    let empty = VecGrid::<u8>::new(Rect::new(Coord::new(0, 2)));
    assert_eq!(empty.render(), "\n\n");
    let empty = VecGrid::<u8>::new(Rect::new(Coord::new(2, 0)));
    assert_eq!(empty.render(), "");
}

#[test]
fn braille_bytes_follow_the_dot_order() {
    let mut bools = [false; 8];
    assert_eq!(bools_to_byte(&bools), 0);
    let weights = [1u8, 8, 2, 16, 4, 32, 64, 128];
    for i in 0..8 {
        bools[i] = true;
        assert_eq!(bools_to_byte(&bools), weights[..=i].iter().sum::<u8>());
    }
    assert_eq!(bools_to_byte(&[true, false, false, true, false, false, false, true]), 145);
    assert_eq!(byte_to_braille(0), '\u{2800}');
    assert_eq!(byte_to_braille(255), '⣿');
    assert_eq!(byte_to_braille(1), '⠁');
}

#[test]
fn braillify_packs_two_by_four_cells() {
    // Two glyphs side by side: the left one has its top row set, the right one its left
    // column.
    let bits = VecGrid::with_generator(Rect::new(Coord::new(4, 4)), |coord: Coord| {
        if coord.x < 2 {
            coord.y == 0
        } else {
            coord.x == 2
        }
    });
    let glyphs = braillify_grid(bits);
    assert_eq!(glyphs.bounds.width(), 2);
    assert_eq!(glyphs.bounds.height(), 1);
    assert_eq!(glyphs.cells, vec!['\u{2809}', '\u{2847}']);
    assert_eq!(glyphs.render(), "\u{2809} \u{2847} \n");
}

#[test]
fn collected_coords_drive_a_selection() {
    let mut grid: VecGrid<u8> = VecGrid::new(Rect::new(Coord::new(3, 3)));
    let coords = collect(Rect::with_corners(Coord::new(1, 1), Coord::new(4, 2)).iter());
    let mut selection = grid.selection_iter_mut(Coords::new(coords));
    let mut errors = 0;
    while let Some(item) = selection.next() {
        match item {
            Ok((_, cell)) => *cell = 9,
            Err(_) => errors += 1,
        }
    }
    assert_eq!(errors, 1);
    assert_eq!(grid.cells, vec![0, 0, 0, 0, 9, 9, 0, 0, 0]);
}
