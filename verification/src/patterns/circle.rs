use crate::coord::Coord;
use crate::patterns::contains_coord;
use crate::patterns::lemma_concat_contains;
use crate::patterns::lemma_take_candidate;
use crate::patterns::lemma_unseen;
use crate::patterns::unseen;
use crate::patterns::CoordIter;
use std::collections::VecDeque;
use vstd::prelude::*;

verus! {

/// The coordinate that lies `dx` to the east and `dy` to the north of `center`, together
/// with its mirror images across the main diagonal: four of the eight.
pub open spec fn mirrored_four(center: Coord, dx: int, dy: int) -> Seq<Coord> {
    seq![
        center.offset_by(dx, dy),
        center.offset_by(dy, dx),
        center.offset_by(dx, -dy),
        center.offset_by(-dy, -dx),
    ]
}

/// The coordinate that lies `dx` to the east and `dy` to the north of `center`, together
/// with its mirror images across both axes and both diagonals through `center`.
pub open spec fn mirrored_eight(center: Coord, dx: int, dy: int) -> Seq<Coord> {
    seq![
        center.offset_by(dx, dy),
        center.offset_by(dy, dx),
        center.offset_by(-dy, dx),
        center.offset_by(-dx, dy),
        center.offset_by(-dx, -dy),
        center.offset_by(-dy, -dx),
        center.offset_by(dy, -dx),
        center.offset_by(dx, -dy),
    ]
}

/// The decision variable of the midpoint circle algorithm after the step that leads away
/// from `(x, y)`, where it was `d` before.
pub open spec fn next_decision(x: int, y: int, d: int) -> int {
    if d < 0 {
        d + 4 * x + 6
    } else {
        d + 4 * (x - y) + 10
    }
}

/// The height of the octant after the step that leads away from `(x, y)` with the decision
/// variable `d`.
pub open spec fn next_height(y: int, d: int) -> int {
    if d < 0 {
        y
    } else {
        y - 1
    }
}

/// What the walk along one octant still adds to the circle once it stands at `(x, y)` with
/// the decision variable `d`: with each step, one column to the east, the coordinate that
/// it reaches and its seven mirror images, until the walk has reached the diagonal.
pub open spec fn walk_candidates(center: Coord, x: int, y: int, d: int) -> Seq<Coord>
    decreases y - x + 1,
{
    if y > x {
        mirrored_eight(center, x + 1, next_height(y, d)) + walk_candidates(
            center,
            x + 1,
            next_height(y, d),
            next_decision(x, y, d),
        )
    } else {
        Seq::empty()
    }
}

/// The outline of a circle.
#[derive(Debug, Clone, Copy, PartialEq, Eq, Structural)]
pub struct Circle {
    pub center: Coord,
    pub radius: i32,
}

impl Circle {
    /// Every coordinate that the algorithm comes up with, in the order in which it comes
    /// up with them, mirror images that fall together included.
    pub open spec fn candidates(self) -> Seq<Coord> {
        mirrored_four(self.center, 0, self.radius as int) + walk_candidates(
            self.center,
            0,
            self.radius as int,
            3 - 2 * self.radius,
        )
    }

    /// The coordinates of the outline: each of the candidates once, in the order in which
    /// they first come up.
    pub open spec fn points(self) -> Seq<Coord> {
        unseen(self.candidates(), Set::empty())
    }

    /// Whether every coordinate at a distance of at most the radius from the center,
    /// along each axis, is representable.
    pub open spec fn fits(self) -> bool {
        &&& i32::MIN <= self.center.x - self.radius <= i32::MAX
        &&& i32::MIN <= self.center.x + self.radius <= i32::MAX
        &&& i32::MIN <= self.center.y - self.radius <= i32::MAX
        &&& i32::MIN <= self.center.y + self.radius <= i32::MAX
    }

    pub fn new(center: Coord, radius: i32) -> (circle: Self)
        ensures
            circle.center == center,
            circle.radius == radius,
    {
        Self { center, radius }
    }

    /// Traces Bresenham's circle algorithm.
    pub fn iter(&self) -> (it: CircleIter)
        requires
            self.fits(),
        ensures
            it.wf(),
            it.remaining() == self.points(),
    {
        let mut coord_queue: VecDeque<Coord> = VecDeque::new();
        let mut seen_coords: Vec<Coord> = Vec::new();

        let quadrants = self.mirror_quadrants(0, self.radius as i64);
        let ghost rest = walk_candidates(
            self.center,
            0,
            self.radius as int,
            3 - 2 * self.radius,
        );
        proof {
            assert(seen_coords@.to_set() =~= Set::<Coord>::empty());
            assert(quadrants@.skip(0) =~= quadrants@);
        }
        let mut i: usize = 0;
        while i < 4
            invariant
                i <= 4,
                quadrants@.len() == 4,
                coord_queue@ + unseen(quadrants@.skip(i as int) + rest, seen_coords@.to_set())
                    == unseen(quadrants@ + rest, Set::<Coord>::empty()),
            decreases 4 - i,
        {
            let coord = quadrants[i];
            proof {
                lemma_take_candidate(quadrants@, i as int, rest, seen_coords@);
            }
            if !contains_coord(&seen_coords, coord) {
                seen_coords.push(coord);
                coord_queue.push_back(coord);
            }
            i = i + 1;
            proof {
                assert(coord_queue@ + unseen(
                    quadrants@.skip(i as int) + rest,
                    seen_coords@.to_set(),
                ) =~= unseen(quadrants@ + rest, Set::<Coord>::empty()));
            }
        }
        proof {
            assert(quadrants@.skip(4) + rest =~= rest);
        }
        CircleIter {
            circle: *self,
            x: 0,
            y: self.radius,
            d: 3 - 2 * (self.radius as i64),
            coord_queue,
            seen_coords,
        }
    }

    /// The coordinate at the offset `(dx, dy)` from the center, with three of its mirror
    /// images.
    fn mirror_quadrants(&self, dx: i64, dy: i64) -> (mirrored: [Coord; 4])
        requires
            self.reaches(dx as int),
            self.reaches(dy as int),
        ensures
            mirrored@ == mirrored_four(self.center, dx as int, dy as int),
    {
        let mirrored = [
            self.at(dx, dy),
            self.at(dy, dx),
            self.at(dx, -dy),
            self.at(-dy, -dx),
        ];
        assert(mirrored@ =~= mirrored_four(self.center, dx as int, dy as int));
        mirrored
    }

    /// The coordinate at the offset `(dx, dy)` from the center, with its seven mirror
    /// images.
    fn mirror_octants(&self, dx: i64, dy: i64) -> (mirrored: [Coord; 8])
        requires
            self.reaches(dx as int),
            self.reaches(dy as int),
        ensures
            mirrored@ == mirrored_eight(self.center, dx as int, dy as int),
    {
        let mirrored = [
            self.at(dx, dy),
            self.at(dy, dx),
            self.at(-dy, dx),
            self.at(-dx, dy),
            self.at(-dx, -dy),
            self.at(-dy, -dx),
            self.at(dy, -dx),
            self.at(dx, -dy),
        ];
        assert(mirrored@ =~= mirrored_eight(self.center, dx as int, dy as int));
        mirrored
    }

    /// Whether a coordinate that lies `distance` away from the center along an axis, to
    /// either side, is representable.
    pub open spec fn reaches(self, distance: int) -> bool {
        &&& i32::MIN <= self.center.x - distance <= i32::MAX
        &&& i32::MIN <= self.center.x + distance <= i32::MAX
        &&& i32::MIN <= self.center.y - distance <= i32::MAX
        &&& i32::MIN <= self.center.y + distance <= i32::MAX
    }

    /// The coordinate at the offset `(dx, dy)` from the center.
    fn at(&self, dx: i64, dy: i64) -> (coord: Coord)
        requires
            i32::MIN <= self.center.x + dx <= i32::MAX,
            i32::MIN <= self.center.y + dy <= i32::MAX,
        ensures
            coord == self.center.offset_by(dx as int, dy as int),
    {
        Coord::new((self.center.x as i64 + dx) as i32, (self.center.y as i64 + dy) as i32)
    }
}

/// Walks the outline of a circle one coordinate at a time.
pub struct CircleIter {
    circle: Circle,
    /// Where the walk along the octant stands, as an offset from the center.
    x: i32,
    y: i32,
    /// The decision variable of the walk.
    d: i64,
    /// Coords to be returned on subsequent iterations.
    coord_queue: VecDeque<Coord>,
    /// Used to prevent duplicate Coords from being returned.
    seen_coords: Vec<Coord>,
}

impl CoordIter for CircleIter {
    closed spec fn wf(&self) -> bool {
        let r = self.circle.radius as int;
        &&& self.circle.fits()
        &&& self.y > self.x ==> 0 <= self.x && self.y <= r
        &&& self.y > self.x ==> -4 * r - 10 <= self.d <= 4 * r + 5 + 10 * self.x
    }

    closed spec fn remaining(&self) -> Seq<Coord> {
        self.coord_queue@ + unseen(
            walk_candidates(self.circle.center, self.x as int, self.y as int, self.d as int),
            self.seen_coords@.to_set(),
        )
    }

    fn next(&mut self) -> (r: Option<Coord>) {
        while self.coord_queue.len() == 0 && self.y > self.x
            invariant
                self.wf(),
                self.remaining() == old(self).remaining(),
            decreases self.y - self.x + 1,
        {
            let ghost before = *self;
            if self.d < 0 {
                self.d = self.d + (4 * (self.x as i64)) + 6;
            } else {
                self.d = self.d + 4 * (self.x as i64 - self.y as i64) + 10;
                self.y = self.y - 1;
            }
            self.x = self.x + 1;
            let ghost rest = walk_candidates(
                self.circle.center,
                self.x as int,
                self.y as int,
                self.d as int,
            );
            let octants = self.circle.mirror_octants(self.x as i64, self.y as i64);
            proof {
                assert(octants@.skip(0) =~= octants@);
                assert(self.coord_queue@ + unseen(octants@ + rest, self.seen_coords@.to_set())
                    =~= before.remaining());
            }
            let mut i: usize = 0;
            while i < 8
                invariant
                    i <= 8,
                    octants@.len() == 8,
                    self.wf(),
                    self.circle == before.circle,
                    self.x == before.x + 1,
                    self.y == next_height(before.y as int, before.d as int),
                    self.d == next_decision(before.x as int, before.y as int, before.d as int),
                    self.coord_queue@ + unseen(
                        octants@.skip(i as int) + rest,
                        self.seen_coords@.to_set(),
                    ) == before.remaining(),
                decreases 8 - i,
            {
                let coord = octants[i];
                proof {
                    lemma_take_candidate(octants@, i as int, rest, self.seen_coords@);
                }
                if !contains_coord(&self.seen_coords, coord) {
                    self.seen_coords.push(coord);
                    self.coord_queue.push_back(coord);
                }
                i = i + 1;
                proof {
                    assert(self.coord_queue@ + unseen(
                        octants@.skip(i as int) + rest,
                        self.seen_coords@.to_set(),
                    ) =~= before.remaining());
                }
            }
            proof {
                assert(octants@.skip(8) + rest =~= rest);
            }
        }

        if self.coord_queue.len() > 0 {
            let ghost before = self.coord_queue@;
            let coord = self.coord_queue.pop_front();
            proof {
                assert(old(self).remaining().skip(1) =~= self.remaining());
            }
            return coord;
        }
        proof {
            assert(self.remaining() =~= Seq::<Coord>::empty());
        }
        None
    }
}

/// The mirror image of `coord` across the vertical line through `center`.
pub open spec fn mirror_x(center: Coord, coord: Coord) -> Coord {
    Coord { x: (2 * center.x - coord.x) as i32, y: coord.y }
}

/// The mirror image of `coord` across the horizontal line through `center`.
pub open spec fn mirror_y(center: Coord, coord: Coord) -> Coord {
    Coord { x: coord.x, y: (2 * center.y - coord.y) as i32 }
}

/// The mirror image of `coord` across the main diagonal through `center`.
pub open spec fn mirror_diagonal(center: Coord, coord: Coord) -> Coord {
    Coord {
        x: (center.x + (coord.y - center.y)) as i32,
        y: (center.y + (coord.x - center.x)) as i32,
    }
}

/// Whether `coords` holds, with `coord`, its three mirror images about `center`.
pub open spec fn holds_mirror_images(coords: Seq<Coord>, center: Coord, coord: Coord) -> bool {
    &&& coords.contains(mirror_x(center, coord))
    &&& coords.contains(mirror_y(center, coord))
    &&& coords.contains(mirror_diagonal(center, coord))
}

/// A coordinate and its seven mirror images are a group that each reflection maps onto
/// itself.
proof fn lemma_eight_symmetric(center: Coord, r: int, dx: int, dy: int, coord: Coord)
    requires
        i32::MIN <= center.x - r && center.x + r <= i32::MAX,
        i32::MIN <= center.y - r && center.y + r <= i32::MAX,
        -r <= dx <= r,
        -r <= dy <= r,
        mirrored_eight(center, dx, dy).contains(coord),
    ensures
        holds_mirror_images(mirrored_eight(center, dx, dy), center, coord),
{
    let group = mirrored_eight(center, dx, dy);
    let i = choose|i: int| 0 <= i < group.len() && group[i] == coord;
    let (e0, e1, e2, e3) = (group[0], group[1], group[2], group[3]);
    let (e4, e5, e6, e7) = (group[4], group[5], group[6], group[7]);
    let across_x = mirror_x(center, coord);
    let across_y = mirror_y(center, coord);
    let across_diagonal = mirror_diagonal(center, coord);
    assert(across_x == e0 || across_x == e1 || across_x == e2 || across_x == e3 || across_x == e4
        || across_x == e5 || across_x == e6 || across_x == e7);
    assert(across_y == e0 || across_y == e1 || across_y == e2 || across_y == e3 || across_y == e4
        || across_y == e5 || across_y == e6 || across_y == e7);
    assert(across_diagonal == e0 || across_diagonal == e1 || across_diagonal == e2
        || across_diagonal == e3 || across_diagonal == e4 || across_diagonal == e5
        || across_diagonal == e6 || across_diagonal == e7);
}

/// The four coordinates at the distance of the radius along the axes are a group that each
/// reflection maps onto itself.
proof fn lemma_four_symmetric(center: Coord, r: int, coord: Coord)
    requires
        i32::MIN <= center.x - r && center.x + r <= i32::MAX,
        i32::MIN <= center.y - r && center.y + r <= i32::MAX,
        0 <= r,
        mirrored_four(center, 0, r).contains(coord),
    ensures
        holds_mirror_images(mirrored_four(center, 0, r), center, coord),
{
    let group = mirrored_four(center, 0, r);
    let i = choose|i: int| 0 <= i < group.len() && group[i] == coord;
    let (e0, e1, e2, e3) = (group[0], group[1], group[2], group[3]);
    let across_x = mirror_x(center, coord);
    let across_y = mirror_y(center, coord);
    let across_diagonal = mirror_diagonal(center, coord);
    assert(across_x == e0 || across_x == e1 || across_x == e2 || across_x == e3);
    assert(across_y == e0 || across_y == e1 || across_y == e2 || across_y == e3);
    assert(across_diagonal == e0 || across_diagonal == e1 || across_diagonal == e2
        || across_diagonal == e3);
}

/// What the walk along the octant adds to the circle holds, with each coordinate, its
/// mirror images.
proof fn lemma_walk_symmetric(center: Coord, r: int, x: int, y: int, d: int, coord: Coord)
    requires
        i32::MIN <= center.x - r && center.x + r <= i32::MAX,
        i32::MIN <= center.y - r && center.y + r <= i32::MAX,
        0 <= x,
        y <= r,
        walk_candidates(center, x, y, d).contains(coord),
    ensures
        holds_mirror_images(walk_candidates(center, x, y, d), center, coord),
    decreases y - x + 1,
{
    if y > x {
        let ny = next_height(y, d);
        let group = mirrored_eight(center, x + 1, ny);
        let rest = walk_candidates(center, x + 1, ny, next_decision(x, y, d));
        lemma_concat_contains(group, rest, coord);
        lemma_concat_contains(group, rest, mirror_x(center, coord));
        lemma_concat_contains(group, rest, mirror_y(center, coord));
        lemma_concat_contains(group, rest, mirror_diagonal(center, coord));
        if group.contains(coord) {
            lemma_eight_symmetric(center, r, x + 1, ny, coord);
        } else {
            lemma_walk_symmetric(center, r, x + 1, ny, next_decision(x, y, d), coord);
        }
    }
}

/// A circle holds no coordinate twice, and for a radius that is not negative it is
/// symmetric: with each coordinate it holds the mirror images of that coordinate across
/// the two axes and the main diagonal through its center.
pub proof fn lemma_circle_is_symmetric(circle: Circle)
    requires
        circle.fits(),
        circle.radius >= 0,
    ensures
        circle.points().no_duplicates(),
        forall|coord: Coord| #[trigger]
            circle.points().contains(coord) ==> holds_mirror_images(
                circle.points(),
                circle.center,
                coord,
            ),
{
    let candidates = circle.candidates();
    let center = circle.center;
    let r = circle.radius as int;
    lemma_unseen(candidates, Set::empty());
    let axes = mirrored_four(center, 0, r);
    let walk = walk_candidates(center, 0, r, 3 - 2 * r);
    assert forall|coord: Coord| #[trigger]
        circle.points().contains(coord) implies holds_mirror_images(
        circle.points(),
        center,
        coord,
    ) by {
        lemma_concat_contains(axes, walk, coord);
        lemma_concat_contains(axes, walk, mirror_x(center, coord));
        lemma_concat_contains(axes, walk, mirror_y(center, coord));
        lemma_concat_contains(axes, walk, mirror_diagonal(center, coord));
        if axes.contains(coord) {
            lemma_four_symmetric(center, r, coord);
        } else {
            lemma_walk_symmetric(center, r, 0, r, 3 - 2 * r, coord);
        }
    }
}

/// A circle of radius zero is its center alone.
pub proof fn lemma_circle_of_radius_zero(center: Coord)
    ensures
        (Circle { center, radius: 0 }).points() == seq![center],
{
    let circle = Circle { center, radius: 0 };
    let candidates = circle.candidates();
    assert(walk_candidates(center, 0, 0, 3) =~= Seq::<Coord>::empty());
    assert(candidates =~= seq![center, center, center, center]);
    reveal_with_fuel(unseen, 5);
    let seen = Set::<Coord>::empty().insert(center);
    assert(candidates.skip(1) =~= seq![center, center, center]);
    assert(candidates.skip(1).skip(1) =~= seq![center, center]);
    assert(candidates.skip(1).skip(1).skip(1) =~= seq![center]);
    assert(candidates.skip(1).skip(1).skip(1).skip(1) =~= Seq::<Coord>::empty());
    assert(circle.points() =~= seq![center]);
}

/// Whether `a` and `b` are the same coordinate or neighbors: at most one column and one row
/// apart.
pub open spec fn near(a: Coord, b: Coord) -> bool {
    -1 <= a.x - b.x <= 1 && -1 <= a.y - b.y <= 1
}

/// Whether `path` leads through `points` from neighbor to neighbor.
pub open spec fn is_chain(points: Seq<Coord>, path: Seq<Coord>) -> bool {
    &&& path.len() > 0
    &&& forall|i: int| 0 <= i < path.len() ==> points.contains(#[trigger] path[i])
    &&& forall|i: int| 0 <= i < path.len() - 1 ==> near(#[trigger] path[i], path[i + 1])
}

/// Whether a path through `points` leads from `a` to `b`, from neighbor to neighbor.
pub open spec fn linked(points: Seq<Coord>, a: Coord, b: Coord) -> bool {
    exists|path: Seq<Coord>| #[trigger] is_chain(points, path) && path[0] == a && path.last() == b
}

/// One of the eight mirror images of the coordinate at the offset `(dx, dy)` from `center`.
#[verifier::opaque]
pub open spec fn mirror(center: Coord, which: int, dx: int, dy: int) -> Coord {
    mirrored_eight(center, dx, dy)[which]
}

/// Where the walk along the octant ends that stands at `(x, y)` with the decision variable
/// `d`.
pub open spec fn walk_end(x: int, y: int, d: int) -> (int, int)
    decreases y - x + 1,
{
    if y > x {
        walk_end(x + 1, next_height(y, d), next_decision(x, y, d))
    } else {
        (x, y)
    }
}

/// Two neighbors are linked.
proof fn lemma_linked_step(points: Seq<Coord>, a: Coord, b: Coord)
    requires
        points.contains(a),
        points.contains(b),
        near(a, b),
    ensures
        linked(points, a, b),
        linked(points, a, a),
{
    let path = seq![a, b];
    assert(is_chain(points, path) && path[0] == a && path.last() == b);
    let stay = seq![a];
    assert(is_chain(points, stay) && stay[0] == a && stay.last() == a);
}

/// A path can be walked backwards.
proof fn lemma_linked_back(points: Seq<Coord>, a: Coord, b: Coord)
    requires
        linked(points, a, b),
    ensures
        linked(points, b, a),
        points.contains(a),
        points.contains(b),
{
    let path = choose|path: Seq<Coord>| #[trigger]
        is_chain(points, path) && path[0] == a && path.last() == b;
    let back = path.reverse();
    assert(points.contains(path[0]) && points.contains(path[path.len() - 1]));
    assert forall|i: int| 0 <= i < back.len() implies points.contains(#[trigger] back[i]) by {
        assert(back[i] == path[path.len() - 1 - i]);
    }
    assert forall|i: int| 0 <= i < back.len() - 1 implies near(#[trigger] back[i], back[i + 1]) by {
        assert(back[i] == path[path.len() - 1 - i]);
        assert(back[i + 1] == path[path.len() - 2 - i]);
        assert(near(path[path.len() - 2 - i], path[path.len() - 2 - i + 1]));
    }
    assert(is_chain(points, back) && back[0] == b && back.last() == a);
}

/// Two paths that meet make one.
proof fn lemma_linked_on(points: Seq<Coord>, a: Coord, b: Coord, c: Coord)
    requires
        linked(points, a, b),
        linked(points, b, c),
    ensures
        linked(points, a, c),
{
    let first = choose|path: Seq<Coord>| #[trigger]
        is_chain(points, path) && path[0] == a && path.last() == b;
    let second = choose|path: Seq<Coord>| #[trigger]
        is_chain(points, path) && path[0] == b && path.last() == c;
    let whole = first + second;
    assert forall|i: int| 0 <= i < whole.len() implies points.contains(#[trigger] whole[i]) by {
        if i < first.len() {
            assert(whole[i] == first[i]);
        } else {
            assert(whole[i] == second[i - first.len()]);
        }
    }
    assert forall|i: int| 0 <= i < whole.len() - 1 implies near(
        #[trigger] whole[i],
        whole[i + 1],
    ) by {
        if i < first.len() - 1 {
            assert(whole[i] == first[i] && whole[i + 1] == first[i + 1]);
        } else if i == first.len() - 1 {
            assert(whole[i] == b && whole[i + 1] == second[0]);
        } else {
            assert(whole[i] == second[i - first.len()]);
            assert(whole[i + 1] == second[i - first.len() + 1]);
        }
    }
    assert(is_chain(points, whole) && whole[0] == a && whole.last() == c);
}

/// The mirror images of two offsets that are near each other are near each other.
proof fn lemma_mirror_near(
    center: Coord,
    r: int,
    which: int,
    x1: int,
    y1: int,
    x2: int,
    y2: int,
)
    requires
        i32::MIN <= center.x - r && center.x + r <= i32::MAX,
        i32::MIN <= center.y - r && center.y + r <= i32::MAX,
        0 <= which < 8,
        -r <= x1 <= r && -r <= y1 <= r,
        -r <= x2 <= r && -r <= y2 <= r,
        -1 <= x1 - x2 <= 1,
        -1 <= y1 - y2 <= 1,
    ensures
        near(mirror(center, which, x1, y1), mirror(center, which, x2, y2)),
{
    reveal(mirror);
}

/// The mirror images of a coordinate are what `mirrored_eight` lists.
proof fn lemma_mirror_in_group(center: Coord, which: int, dx: int, dy: int)
    requires
        0 <= which < 8,
    ensures
        mirrored_eight(center, dx, dy)[which] == mirror(center, which, dx, dy),
        mirrored_eight(center, dx, dy).contains(mirror(center, which, dx, dy)),
        mirrored_eight(center, dx, dy).len() == 8,
{
    reveal(mirror);
    let group = mirrored_eight(center, dx, dy);
    assert(group[which] == mirror(center, which, dx, dy));
}

/// The mirror images of the coordinate on an axis, at the distance of the radius from the
/// center, fall together in pairs, and are the four coordinates with which the circle
/// starts.
proof fn lemma_axis_starts(center: Coord, r: int)
    requires
        i32::MIN <= center.x - r && center.x + r <= i32::MAX,
        i32::MIN <= center.y - r && center.y + r <= i32::MAX,
        0 <= r,
    ensures
        mirror(center, 3, 0, r) == mirror(center, 0, 0, r),
        mirror(center, 6, 0, r) == mirror(center, 1, 0, r),
        mirror(center, 5, 0, r) == mirror(center, 2, 0, r),
        mirror(center, 7, 0, r) == mirror(center, 4, 0, r),
        forall|which: int|
            0 <= which < 8 ==> mirrored_four(center, 0, r).contains(
                #[trigger] mirror(center, which, 0, r),
            ),
        forall|c: Coord|
            mirrored_four(center, 0, r).contains(c) ==> c == mirror(center, 0, 0, r) || c == mirror(
                center,
                1,
                0,
                r,
            ) || c == mirror(center, 2, 0, r) || c == mirror(center, 4, 0, r),
{
    reveal(mirror);
    let axes = mirrored_four(center, 0, r);
    assert(axes.contains(axes[0]) && axes.contains(axes[1]) && axes.contains(axes[2])
        && axes.contains(axes[3]));
    assert forall|which: int| 0 <= which < 8 implies axes.contains(
        #[trigger] mirror(center, which, 0, r),
    ) by {
        let start = mirror(center, which, 0, r);
        assert(start == axes[0] || start == axes[1] || start == axes[2] || start == axes[3]);
    }
    assert forall|c: Coord| axes.contains(c) implies c == mirror(center, 0, 0, r) || c == mirror(
        center,
        1,
        0,
        r,
    ) || c == mirror(center, 2, 0, r) || c == mirror(center, 4, 0, r) by {
        let i = choose|i: int| 0 <= i < axes.len() && axes[i] == c;
    }
}

/// Where the walk ends, by the diagonal, each mirror image is near the one across the
/// diagonal.
proof fn lemma_ends_near(center: Coord, r: int, x: int, y: int)
    requires
        i32::MIN <= center.x - r && center.x + r <= i32::MAX,
        i32::MIN <= center.y - r && center.y + r <= i32::MAX,
        0 <= x <= r,
        0 <= y <= r,
        y <= x <= y + 1,
    ensures
        near(mirror(center, 0, x, y), mirror(center, 1, x, y)),
        near(mirror(center, 6, x, y), mirror(center, 7, x, y)),
        near(mirror(center, 3, x, y), mirror(center, 2, x, y)),
        near(mirror(center, 4, x, y), mirror(center, 5, x, y)),
{
    reveal(mirror);
}

/// The walk along the octant links each mirror image of the coordinate at which it stands
/// to the same mirror image of the coordinate at which it ends.
proof fn lemma_walk_links(
    points: Seq<Coord>,
    center: Coord,
    r: int,
    x: int,
    y: int,
    d: int,
    which: int,
)
    requires
        i32::MIN <= center.x - r && center.x + r <= i32::MAX,
        i32::MIN <= center.y - r && center.y + r <= i32::MAX,
        0 <= x <= r,
        0 <= y <= r,
        x - 1 <= y,
        0 <= which < 8,
        points.contains(mirror(center, which, x, y)),
        forall|c: Coord| walk_candidates(center, x, y, d).contains(c) ==> points.contains(c),
    ensures
        linked(
            points,
            mirror(center, which, x, y),
            mirror(center, which, walk_end(x, y, d).0, walk_end(x, y, d).1),
        ),
        0 <= walk_end(x, y, d).0 <= r,
        0 <= walk_end(x, y, d).1 <= r,
        walk_end(x, y, d).1 <= walk_end(x, y, d).0 <= walk_end(x, y, d).1 + 1,
    decreases y - x + 1,
{
    let here = mirror(center, which, x, y);
    if y > x {
        let ny = next_height(y, d);
        let nd = next_decision(x, y, d);
        let group = mirrored_eight(center, x + 1, ny);
        let rest = walk_candidates(center, x + 1, ny, nd);
        let there = mirror(center, which, x + 1, ny);
        lemma_mirror_in_group(center, which, x + 1, ny);
        assert forall|c: Coord| group.contains(c) || rest.contains(c) implies points.contains(
            c,
        ) by {
            lemma_concat_contains(group, rest, c);
        }
        lemma_mirror_near(center, r, which, x, y, x + 1, ny);
        lemma_linked_step(points, here, there);
        lemma_walk_links(points, center, r, x + 1, ny, nd, which);
        lemma_linked_on(
            points,
            here,
            there,
            mirror(center, which, walk_end(x, y, d).0, walk_end(x, y, d).1),
        );
    } else {
        lemma_linked_step(points, here, here);
    }
}

/// Every coordinate that the walk along the octant adds is linked to a mirror image of the
/// coordinate at which the walk stands.
proof fn lemma_walk_reaches(
    points: Seq<Coord>,
    center: Coord,
    r: int,
    x: int,
    y: int,
    d: int,
    coord: Coord,
)
    requires
        i32::MIN <= center.x - r && center.x + r <= i32::MAX,
        i32::MIN <= center.y - r && center.y + r <= i32::MAX,
        0 <= x <= r,
        0 <= y <= r,
        x - 1 <= y,
        forall|which: int|
            0 <= which < 8 ==> points.contains(#[trigger] mirror(center, which, x, y)),
        forall|c: Coord| walk_candidates(center, x, y, d).contains(c) ==> points.contains(c),
        walk_candidates(center, x, y, d).contains(coord),
    ensures
        exists|which: int|
            0 <= which < 8 && linked(points, #[trigger] mirror(center, which, x, y), coord),
    decreases y - x + 1,
{
    if y > x {
        let ny = next_height(y, d);
        let nd = next_decision(x, y, d);
        let group = mirrored_eight(center, x + 1, ny);
        let rest = walk_candidates(center, x + 1, ny, nd);
        assert forall|c: Coord| group.contains(c) || rest.contains(c) implies points.contains(
            c,
        ) by {
            lemma_concat_contains(group, rest, c);
        }
        assert forall|which: int| 0 <= which < 8 implies points.contains(
            #[trigger] mirror(center, which, x + 1, ny),
        ) by {
            lemma_mirror_in_group(center, which, x + 1, ny);
        }
        lemma_concat_contains(group, rest, coord);
        if group.contains(coord) {
            let which = choose|i: int| 0 <= i < group.len() && group[i] == coord;
            lemma_mirror_in_group(center, 0, x + 1, ny);
            lemma_mirror_in_group(center, which, x + 1, ny);
            lemma_mirror_near(center, r, which, x, y, x + 1, ny);
            lemma_linked_step(points, mirror(center, which, x, y), coord);
        } else {
            lemma_walk_reaches(points, center, r, x + 1, ny, nd, coord);
            let which = choose|which: int|
                0 <= which < 8 && linked(
                    points,
                    #[trigger] mirror(center, which, x + 1, ny),
                    coord,
                );
            lemma_mirror_near(center, r, which, x, y, x + 1, ny);
            lemma_linked_step(
                points,
                mirror(center, which, x, y),
                mirror(center, which, x + 1, ny),
            );
            lemma_linked_on(
                points,
                mirror(center, which, x, y),
                mirror(center, which, x + 1, ny),
                coord,
            );
        }
    }
}

/// A circle has no gaps: from each of its coordinates a path leads to each of the others,
/// through the circle, from neighbor to neighbor.
pub proof fn lemma_circle_is_connected(circle: Circle)
    requires
        circle.fits(),
        circle.radius >= 0,
    ensures
        forall|a: Coord, b: Coord|
            circle.points().contains(a) && circle.points().contains(b) ==> #[trigger] linked(
                circle.points(),
                a,
                b,
            ),
{
    let points = circle.points();
    let center = circle.center;
    let r = circle.radius as int;
    let d = 3 - 2 * r;
    let axes = mirrored_four(center, 0, r);
    let walk = walk_candidates(center, 0, r, d);
    lemma_unseen(circle.candidates(), Set::empty());
    assert forall|c: Coord| points.contains(c) <==> axes.contains(c) || walk.contains(c) by {
        lemma_concat_contains(axes, walk, c);
    }
    let hub = mirror(center, 0, 0, r);
    let (xe, ye) = walk_end(0, r, d);
    lemma_axis_starts(center, r);
    // Each mirror image of the walk, from its start on an axis to its end by a diagonal.
    lemma_walk_links(points, center, r, 0, r, d, 0);
    lemma_walk_links(points, center, r, 0, r, d, 1);
    lemma_walk_links(points, center, r, 0, r, d, 2);
    lemma_walk_links(points, center, r, 0, r, d, 3);
    lemma_walk_links(points, center, r, 0, r, d, 6);
    lemma_walk_links(points, center, r, 0, r, d, 7);
    lemma_ends_near(center, r, xe, ye);
    let s1 = mirror(center, 1, 0, r);
    let s2 = mirror(center, 2, 0, r);
    let s4 = mirror(center, 4, 0, r);
    let e0 = mirror(center, 0, xe, ye);
    let e1 = mirror(center, 1, xe, ye);
    let e2 = mirror(center, 2, xe, ye);
    let e3 = mirror(center, 3, xe, ye);
    let e6 = mirror(center, 6, xe, ye);
    let e7 = mirror(center, 7, xe, ye);
    // Round the circle: the walks meet by the diagonals and on the axes.
    assert(linked(points, hub, s1)) by {
        lemma_linked_back(points, hub, e0);
        lemma_linked_back(points, s1, e1);
        lemma_linked_step(points, e0, e1);
        lemma_linked_on(points, hub, e0, e1);
        lemma_linked_on(points, hub, e1, s1);
    }
    assert(linked(points, hub, s4)) by {
        lemma_linked_back(points, s1, e6);
        lemma_linked_back(points, s4, e7);
        lemma_linked_step(points, e6, e7);
        lemma_linked_on(points, hub, s1, e6);
        lemma_linked_on(points, hub, e6, e7);
        lemma_linked_on(points, hub, e7, s4);
    }
    assert(linked(points, hub, s2)) by {
        lemma_linked_back(points, hub, e3);
        lemma_linked_back(points, s2, e2);
        lemma_linked_step(points, e3, e2);
        lemma_linked_on(points, hub, e3, e2);
        lemma_linked_on(points, hub, e2, s2);
    }
    assert(linked(points, hub, hub)) by {
        lemma_linked_step(points, hub, hub);
    }
    assert forall|which: int| 0 <= which < 8 implies linked(
        points,
        hub,
        #[trigger] mirror(center, which, 0, r),
    ) by {
        let start = mirror(center, which, 0, r);
        assert(mirrored_four(center, 0, r).contains(start));
    }
    assert forall|c: Coord| points.contains(c) implies linked(points, hub, c) by {
        if !axes.contains(c) {
            lemma_walk_reaches(points, center, r, 0, r, d, c);
            let which = choose|which: int|
                0 <= which < 8 && linked(points, #[trigger] mirror(center, which, 0, r), c);
            lemma_linked_on(points, hub, mirror(center, which, 0, r), c);
        }
    }
    assert forall|a: Coord, b: Coord|
        points.contains(a) && points.contains(b) implies #[trigger] linked(points, a, b) by {
        lemma_linked_back(points, hub, a);
        lemma_linked_on(points, a, hub, b);
    }
}

} // verus!
