use tapestry::patterns::cluster::Cluster;
use tapestry::patterns::collect;
use tapestry::patterns::Coords;
use tapestry::Coord;

fn count(coords: Coords) -> usize {
    collect(coords).len()
}

#[test]
fn single_coord_cluster_layers() {
    let cluster = Cluster::new(Coords::new(vec![Coord::new(0, 0)]));
    assert!(count(cluster.iter_interior()) == 0);
    assert!(count(cluster.iter_internal_border()) == 1);
    assert!(collect(cluster.iter_external_border()).len() == 8);
}

#[test]
fn square_cluster_layers() {
    // 3x3 square
    let cluster = Cluster::new(Coords::new(
        [
            (0, 0),
            (1, 0),
            (2, 0),
            (0, 1),
            (1, 1),
            (2, 1),
            (0, 2),
            (1, 2),
            (2, 2),
        ]
        .iter()
        .map(|&x| x.into())
        .collect(),
    ));

    assert!(count(cluster.iter_interior()) == 1);
    assert!(count(cluster.iter_internal_border()) == 8);
    assert!(collect(cluster.iter_external_border()).len() == 16);
}

#[test]
fn square_cluster_interior_is_the_center() {
    let mut coords = Vec::new();
    for y in 0..3 {
        for x in 0..3 {
            coords.push(Coord::new(x, y));
        }
    }
    let cluster = Cluster::new(Coords::new(coords));
    assert_eq!(collect(cluster.iter_interior()), vec![Coord::new(1, 1)]);
    let border = collect(cluster.iter_internal_border());
    assert!(!border.contains(&Coord::new(1, 1)));
    let outside = collect(cluster.iter_external_border());
    for coord in outside.iter() {
        assert!(coord.x == -1 || coord.x == 3 || coord.y == -1 || coord.y == 3);
    }
}

#[test]
fn cluster_drops_repeated_coords() {
    let cluster = Cluster::new(Coords::new(vec![
        Coord::new(5, 5),
        Coord::new(5, 5),
        Coord::new(6, 5),
        Coord::new(5, 5),
    ]));
    assert_eq!(
        collect(cluster.iter_internal_border()),
        vec![Coord::new(5, 5), Coord::new(6, 5)]
    );
    assert_eq!(collect(cluster.iter_external_border()).len(), 10);
}

#[test]
fn external_neighbors_go_clockwise_from_the_north() {
    let cluster = Cluster::new(Coords::new(vec![Coord::new(0, 0), Coord::new(1, 0)]));
    assert_eq!(
        cluster.external_neighbors(Coord::new(0, 0)),
        vec![
            Coord::new(0, 1),
            Coord::new(1, 1),
            Coord::new(1, -1),
            Coord::new(0, -1),
            Coord::new(-1, -1),
            Coord::new(-1, 0),
            Coord::new(-1, 1),
        ]
    );
}

#[test]
fn cluster_at_the_edge_of_the_coordinate_space() {
    let corner = Coord::new(i32::MAX, i32::MIN);
    let cluster = Cluster::new(Coords::new(vec![corner]));
    assert_eq!(
        cluster.external_neighbors(corner),
        vec![
            Coord::new(i32::MAX, i32::MIN + 1),
            Coord::new(i32::MAX - 1, i32::MIN),
            Coord::new(i32::MAX - 1, i32::MIN + 1),
        ]
    );
}
