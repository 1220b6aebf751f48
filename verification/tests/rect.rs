use tapestry::patterns::collect;
use tapestry::patterns::BspTree;
use tapestry::patterns::CoordIter;
use tapestry::patterns::Orientation;
use tapestry::patterns::Rect;
use tapestry::Coord;

#[test]
fn dimensions() {
    let rect = Rect::new(Coord::new(3, 4));
    assert_eq!(rect.width(), 3);
    assert_eq!(rect.height(), 4);
}

#[test]
fn single_coord_rect_iter() {
    let rect = Rect::new(Coord::new(0, 0));
    assert_eq!(collect(rect.iter()).len(), 1);
}

#[test]
fn rect_single_coord_rect_iter() {
    let rect = Rect::with_corners(Coord::new(0, 0), Coord::new(0, 0));
    assert_eq!(collect(rect.iter()).len(), 1);
}

#[test]
fn multi_coord_rect_iter() {
    let rect = Rect::new(Coord::new(4, 4));
    assert_eq!(collect(rect.iter()).len(), 16);
}

#[test]
fn reversed_coord_rect_iter() {
    let rect = Rect::with_corners(Coord::new(3, 3), Coord::new(-2, -2));
    let coords = collect(rect.iter());
    assert_eq!(coords.first(), Some(&Coord::new(-2, -2)));
    assert_eq!(coords.last(), Some(&Coord::new(2, 2)));
}

#[test]
fn vertical_partitioning() {
    let rect = Rect::new(Coord::new(8, 8));
    let (top, bottom) = rect.partition_vertical(4);
    assert_eq!(top.area(), 32);
    assert_eq!(bottom.area(), 32);
}

#[test]
fn vertical_zero_partitioning() {
    let rect = Rect::new(Coord::new(8, 8));
    let (bottom, top) = rect.partition_vertical(0);
    assert_eq!(top.area(), 0);
    assert_eq!(bottom.area(), 64);
}

#[test]
fn horizontal_partitioning() {
    let rect = Rect::new(Coord::new(8, 8));
    let (left, right) = rect.partition_horizontal(4);
    assert_eq!(left.area(), 32);
    assert_eq!(right.area(), 32);
}

#[test]
fn horizontal_zero_partitioning() {
    let rect = Rect::new(Coord::new(8, 8));
    let (left, right) = rect.partition_horizontal(0);
    assert_eq!(left.area(), 0);
    assert_eq!(right.area(), 64);
}

#[test]
fn equally_subdivided_bsp() {
    let rect = Rect::new(Coord::new(16, 16));
    // The minimum distance a partition can get to the edge of a Rect.
    let min_size = 4;

    // Subdivide the rect into 16 4x4 pieces.
    let bsp_leaves = rect
        .bsp(Orientation::Horizontal, &|rect: Rect, orientation: Orientation| {
            let partition = match orientation {
                Orientation::Horizontal => rect.width() / 2,
                Orientation::Vertical => rect.height() / 2,
            };
            if partition < min_size {
                return None;
            }
            Some((partition, orientation.orthogonal()))
        })
        .leaves();

    assert_eq!(bsp_leaves.len(), 16);
    assert!(bsp_leaves.iter().all(|rect| rect.area() == 16));
}

#[test]
fn bsp_leaves_tile_the_root() {
    let root = Rect::with_corners(Coord::new(-5, 3), Coord::new(18, 20));
    let min_size = 3;
    // Always bisects, and refuses once a side would drop below the minimum size.
    let tree = root.bsp(Orientation::Vertical, &|rect: Rect, orientation: Orientation| {
        let partition = match orientation {
            Orientation::Horizontal => rect.width() / 2,
            Orientation::Vertical => rect.height() / 2,
        };
        if partition < min_size {
            return None;
        }
        Some((partition, orientation.orthogonal()))
    });
    let leaves = tree.leaves();
    assert!(leaves.len() > 1);
    assert_eq!(leaves.iter().map(|leaf| leaf.area()).sum::<i32>(), root.area());
    for coord in collect(root.iter()) {
        assert_eq!(leaves.iter().filter(|leaf| leaf.contains(coord)).count(), 1);
    }
    for leaf in leaves.iter() {
        for coord in collect(leaf.iter()) {
            assert!(root.contains(coord));
        }
    }
}

#[test]
fn bsp_tree_holds_the_parts_in_order() {
    let root = Rect::new(Coord::new(8, 4));
    let tree = root.bsp(Orientation::Horizontal, &|rect: Rect, orientation: Orientation| {
        match orientation {
            Orientation::Horizontal if rect.width() == 8 => Some((3, Orientation::Vertical)),
            Orientation::Vertical if rect.width() == 3 && rect.height() == 4 => {
                Some((1, Orientation::Vertical))
            }
            _ => None,
        }
    });
    match &tree {
        BspTree::Node(rect, first, second) => {
            assert_eq!(*rect, root);
            match &**first {
                BspTree::Node(left, below, above) => {
                    assert_eq!(*left, Rect { top: 0, bottom: 4, left: 0, right: 3 });
                    assert!(matches!(**below, BspTree::Leaf(_)));
                    assert!(matches!(**above, BspTree::Leaf(_)));
                }
                BspTree::Leaf(_) => panic!("the left part is cut again"),
            }
            assert!(matches!(**second, BspTree::Leaf(_)));
        }
        BspTree::Leaf(_) => panic!("the root is cut"),
    }
    assert_eq!(
        tree.leaves(),
        vec![
            Rect { top: 1, bottom: 4, left: 0, right: 3 },
            Rect { top: 0, bottom: 1, left: 0, right: 3 },
            Rect { top: 0, bottom: 4, left: 3, right: 8 },
        ]
    );
}

#[test]
fn unsplit_bsp_is_one_leaf() {
    let root = Rect::new(Coord::new(2, 2));
    let tree = root.bsp(Orientation::Horizontal, &|_: Rect, _: Orientation| None);
    assert_eq!(tree.leaves(), vec![root]);
}

#[test]
fn rect_corners_are_sorted() {
    let rect = Rect::with_corners(Coord::new(5, -1), Coord::new(-2, 7));
    assert_eq!(rect, Rect { top: -1, bottom: 7, left: -2, right: 5 });
    assert_eq!(rect.offset(), Coord::new(-2, -1));
    assert_eq!(rect.dimensions(), Coord::new(7, 8));
    assert_eq!(rect.area(), 56);
    assert_eq!(rect.x_range(), -2..5);
    assert_eq!(rect.y_range(), -1..7);
    assert_eq!(Rect::new(Coord::new(-3, 2)), Rect { top: 0, bottom: 2, left: -3, right: 0 });
}

#[test]
fn rect_contains_its_left_and_top_edges_only() {
    let rect = Rect::with_corners(Coord::new(1, 1), Coord::new(3, 4));
    assert!(rect.contains(Coord::new(1, 1)));
    assert!(rect.contains(Coord::new(2, 3)));
    assert!(!rect.contains(Coord::new(3, 1)));
    assert!(!rect.contains(Coord::new(1, 4)));
    assert!(!rect.contains(Coord::new(0, 1)));
    assert!(!rect.contains(Coord::new(1, 0)));
    for coord in collect(rect.iter()) {
        assert!(rect.contains(coord));
    }
}

#[test]
fn rect_iter_goes_row_by_row() {
    let rect = Rect::with_corners(Coord::new(1, 5), Coord::new(3, 7));
    assert_eq!(
        collect(rect.iter()),
        vec![Coord::new(1, 5), Coord::new(2, 5), Coord::new(1, 6), Coord::new(2, 6)]
    );
    let mut it = rect.iter();
    for _ in 0..4 {
        assert!(it.next().is_some());
    }
    assert_eq!(it.next(), None);
    assert_eq!(it.next(), None);
}

#[test]
fn rect_without_rows_or_columns_is_walked_as_if_it_had_one() {
    let flat = Rect { top: 2, bottom: 2, left: 0, right: 3 };
    assert_eq!(
        collect(flat.iter()),
        vec![Coord::new(0, 2), Coord::new(1, 2), Coord::new(2, 2)]
    );
    let thin = Rect { top: 0, bottom: 2, left: 4, right: 4 };
    assert_eq!(collect(thin.iter()), vec![Coord::new(4, 0), Coord::new(4, 1)]);
    let edge = Rect { top: i32::MIN, bottom: i32::MIN, left: i32::MIN, right: i32::MIN };
    assert_eq!(collect(edge.iter()), vec![Coord::new(i32::MIN, i32::MIN)]);
}

#[test]
fn rect_translate_moves_every_edge() {
    let rect = Rect::with_corners(Coord::new(1, 1), Coord::new(3, 4));
    let moved = rect.translate(Coord::new(-4, 10));
    assert_eq!(moved, Rect { top: 11, bottom: 14, left: -3, right: -1 });
    assert_eq!(moved.dimensions(), rect.dimensions());
}

#[test]
fn partitions_keep_the_other_edges() {
    let rect = Rect::with_corners(Coord::new(2, 3), Coord::new(10, 9));
    let (left, right) = rect.partition_horizontal(3);
    assert_eq!(left, Rect { top: 3, bottom: 9, left: 2, right: 5 });
    assert_eq!(right, Rect { top: 3, bottom: 9, left: 5, right: 10 });
    let (below, above) = rect.partition_vertical(2);
    assert_eq!(below, Rect { top: 5, bottom: 9, left: 2, right: 10 });
    assert_eq!(above, Rect { top: 3, bottom: 5, left: 2, right: 10 });
}

#[test]
fn orientations_are_orthogonal_to_each_other() {
    assert_eq!(Orientation::Horizontal.orthogonal(), Orientation::Vertical);
    assert_eq!(Orientation::Vertical.orthogonal(), Orientation::Horizontal);
}
