use tapestry::patterns::circle::Circle;
use tapestry::patterns::collect;
use tapestry::patterns::line::Line;
use tapestry::patterns::neighborhood::Neighborhood;
use tapestry::patterns::CoordIter;
use tapestry::Coord;

fn coords(pairs: &[(i32, i32)]) -> Vec<Coord> {
    pairs.iter().map(|&pair| Coord::from(pair)).collect()
}

#[test]
fn line_between_equal_endpoints_is_one_coord() {
    let line = Line::new(Coord::new(0, 0), Coord::new(0, 0));
    assert_eq!(collect(line.iter()), vec![Coord::new(0, 0)]);
    let mut it = Line::new(Coord::new(7, -3), Coord::new(7, -3)).iter();
    assert_eq!(it.next(), Some(Coord::new(7, -3)));
    assert_eq!(it.next(), None);
    assert_eq!(it.next(), None);
}

#[test]
fn horizontal_line() {
    let line = Line::new(Coord::new(0, 0), Coord::new(3, 0));
    assert_eq!(collect(line.iter()), coords(&[(0, 0), (1, 0), (2, 0), (3, 0)]));
}

#[test]
fn vertical_and_reversed_lines() {
    let line = Line::new(Coord::new(2, 1), Coord::new(2, -2));
    assert_eq!(collect(line.iter()), coords(&[(2, 1), (2, 0), (2, -1), (2, -2)]));
    let line = Line::new(Coord::new(3, 0), Coord::new(0, 0));
    assert_eq!(collect(line.iter()), coords(&[(3, 0), (2, 0), (1, 0), (0, 0)]));
}

#[test]
fn diagonal_line_steps_both_axes() {
    let line = Line::new(Coord::new(0, 0), Coord::new(3, 3));
    assert_eq!(collect(line.iter()), coords(&[(0, 0), (1, 1), (2, 2), (3, 3)]));
}

#[test]
fn shallow_line_steps_the_minor_axis_when_the_fault_falls_below_zero() {
    // Fault: 2.5, then 0.5, then -1.5 (step, 3.5), then 1.5, then -0.5 (step, 4.5), then 2.5.
    let line = Line::new(Coord::new(0, 0), Coord::new(5, 2));
    assert_eq!(
        collect(line.iter()),
        coords(&[(0, 0), (1, 0), (2, 1), (3, 1), (4, 2), (5, 2)])
    );
    // An even major distance: the fault reaches zero and does not step.
    let line = Line::new(Coord::new(0, 0), Coord::new(4, 2));
    assert_eq!(
        collect(line.iter()),
        coords(&[(0, 0), (1, 0), (2, 1), (3, 1), (4, 2)])
    );
}

#[test]
fn steep_line_toward_the_south_west() {
    let line = Line::new(Coord::new(1, 1), Coord::new(-1, -4));
    assert_eq!(
        collect(line.iter()),
        coords(&[(1, 1), (1, 0), (0, -1), (0, -2), (-1, -3), (-1, -4)])
    );
}

#[test]
fn line_includes_both_endpoints() {
    for &(x, y) in [(9, 4), (-9, 4), (4, -9), (-4, -9), (0, 6), (6, 0), (-7, -7)].iter() {
        let points = collect(Line::new(Coord::new(1, 2), Coord::new(1 + x, 2 + y)).iter());
        assert_eq!(points.first(), Some(&Coord::new(1, 2)));
        assert_eq!(points.last(), Some(&Coord::new(1 + x, 2 + y)));
        assert_eq!(points.len() as i32, x.abs().max(y.abs()) + 1);
    }
}

#[test]
fn circle_of_radius_zero_is_its_center() {
    let circle = Circle::new(Coord::new(0, 0), 0);
    assert_eq!(collect(circle.iter()), vec![Coord::new(0, 0)]);
    let circle = Circle::new(Coord::new(4, -2), 0);
    assert_eq!(collect(circle.iter()), vec![Coord::new(4, -2)]);
}

#[test]
fn circle_of_radius_one() {
    let circle = Circle::new(Coord::new(0, 0), 1);
    assert_eq!(collect(circle.iter()), coords(&[(0, 1), (1, 0), (0, -1), (-1, 0)]));
}

#[test]
fn circle_of_radius_three() {
    // d is -3 at the start: the walk goes to (1, 3) with d = 3, and then to (2, 2) with d = 5.
    let circle = Circle::new(Coord::new(0, 0), 3);
    let points = collect(circle.iter());
    assert_eq!(
        &points[..6],
        &coords(&[(0, 3), (3, 0), (0, -3), (-3, 0), (1, 3), (3, 1)])[..]
    );
    assert_eq!(points.len(), 16);
    assert!(points.contains(&Coord::new(2, 2)));
    assert!(points.contains(&Coord::new(-2, -2)));
}

#[test]
fn circle_of_radius_seven_is_symmetric_and_has_no_repeats() {
    let center = Coord::new(0, 0);
    let points = collect(Circle::new(center, 7).iter());
    for (i, coord) in points.iter().enumerate() {
        assert!(!points[..i].contains(coord));
        assert!(points.contains(&coord.negate_x()));
        assert!(points.contains(&coord.negate_y()));
        assert!(points.contains(&coord.flip()));
    }
    // d: -11, -5, 5, -5, 13, 15 along (0, 7), (1, 7), (2, 7), (3, 6), (4, 6), (5, 5).
    assert_eq!(points.len(), 40);
    for &(x, y) in [(0, 7), (1, 7), (2, 7), (3, 6), (4, 6), (5, 5)].iter() {
        assert!(points.contains(&Coord::new(x, y)));
    }
    assert!(!points.contains(&Coord::new(3, 7)));
    assert!(!points.contains(&Coord::new(0, 0)));
}

#[test]
fn circle_has_no_gaps() {
    for radius in 1..20 {
        let points = collect(Circle::new(Coord::new(3, -4), radius).iter());
        for coord in points.iter() {
            let neighbors = points
                .iter()
                .filter(|other| {
                    *other != coord
                        && (other.x - coord.x).abs() <= 1
                        && (other.y - coord.y).abs() <= 1
                })
                .count();
            assert!(neighbors >= 2);
        }
    }
}

#[test]
fn circle_around_another_center() {
    let points = collect(Circle::new(Coord::new(10, 20), 2).iter());
    assert_eq!(&points[..4], &coords(&[(10, 22), (12, 20), (10, 18), (8, 20)])[..]);
    for coord in points.iter() {
        assert!(points.contains(&Coord::new(20 - coord.x, coord.y)));
        assert!(points.contains(&Coord::new(coord.x, 40 - coord.y)));
    }
}

#[test]
fn neighborhoods_go_clockwise() {
    let around = Neighborhood::new(Coord::new(2, 2));
    assert_eq!(
        collect(around.iter()),
        coords(&[(2, 3), (3, 3), (3, 2), (3, 1), (2, 1), (1, 1), (1, 2), (1, 3)])
    );
    assert_eq!(collect(around.iter_ortho()), coords(&[(2, 3), (3, 2), (2, 1), (1, 2)]));
    assert_eq!(collect(around.iter_diag()), coords(&[(3, 3), (3, 1), (1, 1), (1, 3)]));
    assert_eq!(
        collect(Neighborhood::new(Coord::new(0, 0)).into_iter()),
        coords(&[(0, 1), (1, 1), (1, 0), (1, -1), (0, -1), (-1, -1), (-1, 0), (-1, 1)])
    );
    assert_eq!(
        collect(Neighborhood::new(Coord::new(0, 0)).into_iter_ortho()),
        coords(&[(0, 1), (1, 0), (0, -1), (-1, 0)])
    );
    assert_eq!(
        collect(Neighborhood::new(Coord::new(0, 0)).into_iter_diag()),
        coords(&[(1, 1), (1, -1), (-1, -1), (-1, 1)])
    );
}
