use crate::coord::Coord;
use crate::patterns::contains_coord;
use crate::patterns::lemma_concat_contains;
use crate::patterns::lemma_filter_divides;
use crate::patterns::lemma_filter_keeps;
use crate::patterns::lemma_take_candidate;
use crate::patterns::lemma_unseen;
use crate::patterns::unseen;
use crate::patterns::CoordIter;
use crate::patterns::Coords;
use std::collections::VecDeque;
use vstd::prelude::*;

verus! {

/// Whether `a` and `b` are neighbors: different coordinates that are at most one column and
/// one row apart.
pub open spec fn adjacent(a: Coord, b: Coord) -> bool {
    a != b && -1 <= a.x - b.x <= 1 && -1 <= a.y - b.y <= 1
}

/// The coordinate `(x, y)` as a list of one, if there is such a coordinate and it is not
/// among `members`; the empty list otherwise.
pub open spec fn outsider(members: Seq<Coord>, x: int, y: int) -> Seq<Coord> {
    let coord = Coord { x: x as i32, y: y as i32 };
    if i32::MIN <= x <= i32::MAX && i32::MIN <= y <= i32::MAX && !members.contains(coord) {
        seq![coord]
    } else {
        Seq::empty()
    }
}

/// The neighbors of `coord` that are not among `members`, clockwise from the north.
pub open spec fn outsiders(members: Seq<Coord>, coord: Coord) -> Seq<Coord> {
    outsider(members, coord.x as int, coord.y + 1) + outsider(members, coord.x + 1, coord.y + 1)
        + outsider(members, coord.x + 1, coord.y as int) + outsider(
        members,
        coord.x + 1,
        coord.y - 1,
    ) + outsider(members, coord.x as int, coord.y - 1) + outsider(
        members,
        coord.x - 1,
        coord.y - 1,
    ) + outsider(members, coord.x - 1, coord.y as int) + outsider(
        members,
        coord.x - 1,
        coord.y + 1,
    )
}

/// The neighbors that the coordinates in `from` have outside `members`, in the order of
/// `from`, coordinates that are the neighbor of several included as often.
pub open spec fn all_outsiders(members: Seq<Coord>, from: Seq<Coord>) -> Seq<Coord>
    decreases from.len(),
{
    if from.len() == 0 {
        Seq::empty()
    } else {
        outsiders(members, from[0]) + all_outsiders(members, from.skip(1))
    }
}

/// Represents various "layers" of a selection of coords (cluster).
///
/// The internal and external borders straddle the "actual edge" of a coord cluster.
pub struct Cluster {
    /// The coordinates of the cluster, none of them twice.
    coords: Vec<Coord>,
}

impl Cluster {
    /// The coordinates of the cluster, in the order in which they were first given.
    pub closed spec fn members(&self) -> Seq<Coord> {
        self.coords@
    }

    /// Whether the cluster holds no coordinate twice.
    pub closed spec fn wf(&self) -> bool {
        self.coords@.no_duplicates()
    }

    /// The interior of the cluster, in the order of its members: the members that have no
    /// neighbor outside the cluster.
    pub open spec fn interior(&self) -> Seq<Coord> {
        self.members().filter(|coord: Coord| outsiders(self.members(), coord).len() == 0)
    }

    /// The internal border of the cluster, in the order of its members: the members that
    /// have a neighbor outside the cluster.
    pub open spec fn internal_border(&self) -> Seq<Coord> {
        self.members().filter(|coord: Coord| outsiders(self.members(), coord).len() != 0)
    }

    /// The external border of the cluster: the neighbors that its members have outside it,
    /// each of them once, in the order in which the members come to them.
    pub open spec fn external_border(&self) -> Seq<Coord> {
        unseen(all_outsiders(self.members(), self.members()), Set::empty())
    }

    /// The cluster of the coordinates that `iter` hands out.
    pub fn new<I: CoordIter>(iter: I) -> (cluster: Self)
        requires
            iter.wf(),
        ensures
            cluster.wf(),
            cluster.members() == unseen(iter.remaining(), Set::empty()),
    {
        let mut iter = iter;
        let ghost all = iter.remaining();
        let mut coords: Vec<Coord> = Vec::new();
        proof {
            assert(coords@.to_set() =~= Set::<Coord>::empty());
        }
        loop
            invariant
                iter.wf(),
                coords@ + unseen(iter.remaining(), coords@.to_set()) == unseen(
                    all,
                    Set::<Coord>::empty(),
                ),
            ensures
                coords@ == unseen(all, Set::<Coord>::empty()),
            decreases iter.remaining().len(),
        {
            let ghost before = iter.remaining();
            let ghost kept = coords@;
            match iter.next() {
                Some(coord) => {
                    if !contains_coord(&coords, coord) {
                        coords.push(coord);
                        proof {
                            kept.lemma_push_to_set_commute(coord);
                        }
                    }
                    proof {
                        assert(coords@ + unseen(iter.remaining(), coords@.to_set()) =~= kept
                            + unseen(before, kept.to_set()));
                    }
                },
                None => {
                    proof {
                        assert(coords@ + unseen(before, kept.to_set()) =~= coords@);
                    }
                    break ;
                },
            }
        }
        proof {
            lemma_unseen(all, Set::<Coord>::empty());
        }
        Self { coords }
    }

    /// The set of cluster coords that does not touch the exterior of the cluster in any
    /// way. For a filled shape, this should represent the majority of the coords.
    ///
    /// Defined as a cluster cell adjacent only to other cluster cells.
    pub fn iter_interior(&self) -> (interior: Coords)
        ensures
            interior.wf(),
            interior.remaining() == self.interior(),
    {
        Coords::new(self.layer(true))
    }

    /// The border layer lining the inside of a cluster of coords, separating it from the
    /// exterior. This is the layer between the `interior` and `external_border`.
    ///
    /// Defined as a cluster cell adjacent to at least one non-cluster cell.
    pub fn iter_internal_border(&self) -> (border: Coords)
        ensures
            border.wf(),
            border.remaining() == self.internal_border(),
    {
        Coords::new(self.layer(false))
    }

    /// The members that have no neighbor outside the cluster (`inner`), or those that have
    /// one.
    fn layer(&self, inner: bool) -> (layer: Vec<Coord>)
        ensures
            inner ==> layer@ == self.interior(),
            !inner ==> layer@ == self.internal_border(),
    {
        let ghost members = self.members();
        let ghost inside = |coord: Coord| outsiders(members, coord).len() == 0;
        let ghost outside = |coord: Coord| outsiders(members, coord).len() != 0;
        let mut layer: Vec<Coord> = Vec::new();
        let mut i: usize = 0;
        proof {
            reveal(Seq::filter);
            assert(members.take(0) =~= Seq::<Coord>::empty());
        }
        while i < self.coords.len()
            invariant
                i <= self.coords@.len(),
                members == self.coords@,
                inside == (|coord: Coord| outsiders(members, coord).len() == 0),
                outside == (|coord: Coord| outsiders(members, coord).len() != 0),
                inner ==> layer@ == members.take(i as int).filter(inside),
                !inner ==> layer@ == members.take(i as int).filter(outside),
            decreases self.coords@.len() - i,
        {
            let coord = self.coords[i];
            // If this coord has external neighbors, then it's on the internal border.
            let is_inner = self.external_neighbors(coord).len() == 0;
            proof {
                reveal(Seq::filter);
                assert(members.take(i + 1).drop_last() =~= members.take(i as int));
                assert(members.take(i + 1).last() == coord);
            }
            if is_inner == inner {
                layer.push(coord);
            }
            i = i + 1;
        }
        proof {
            assert(members.take(i as int) =~= members);
        }
        layer
    }

    /// The border layer surrounding the cluster of coords on the outside. These coords are
    /// not actually part of the cluster itself, but are adjacent to the `internal_border`.
    ///
    /// Defined as a non-cluster cell adjacent to at least one cluster cell.
    pub fn iter_external_border(&self) -> (border: ExternalBorderIter<'_>)
        ensures
            border.wf(),
            border.remaining() == self.external_border(),
    {
        let border = ExternalBorderIter {
            cluster: self,
            position: 0,
            external_border_coords: Vec::new(),
            coords_to_return: VecDeque::new(),
        };
        proof {
            assert(border.external_border_coords@.to_set() =~= Set::<Coord>::empty());
            assert(self.coords@.skip(0) =~= self.coords@);
            assert(border.remaining() =~= self.external_border());
        }
        border
    }

    /// The neighbors of `coord` that are not in the cluster, clockwise from the north.
    pub fn external_neighbors(&self, coord: Coord) -> (neighbors: Vec<Coord>)
        ensures
            neighbors@ == outsiders(self.members(), coord),
    {
        let mut neighbors: Vec<Coord> = Vec::new();
        let x = coord.x as i64;
        let y = coord.y as i64;
        self.push_outsider(x, y + 1, &mut neighbors);
        self.push_outsider(x + 1, y + 1, &mut neighbors);
        self.push_outsider(x + 1, y, &mut neighbors);
        self.push_outsider(x + 1, y - 1, &mut neighbors);
        self.push_outsider(x, y - 1, &mut neighbors);
        self.push_outsider(x - 1, y - 1, &mut neighbors);
        self.push_outsider(x - 1, y, &mut neighbors);
        self.push_outsider(x - 1, y + 1, &mut neighbors);
        assert(neighbors@ =~= outsiders(self.members(), coord));
        neighbors
    }

    /// Adds the coordinate `(x, y)` to `neighbors`, if there is such a coordinate and it is not
    /// in the cluster.
    fn push_outsider(&self, x: i64, y: i64, neighbors: &mut Vec<Coord>)
        ensures
            final(neighbors)@ == old(neighbors)@ + outsider(self.members(), x as int, y as int),
    {
        if -0x8000_0000 <= x && x <= 0x7fff_ffff && -0x8000_0000 <= y && y <= 0x7fff_ffff {
            let neighbor = Coord::new(x as i32, y as i32);
            if !contains_coord(&self.coords, neighbor) {
                neighbors.push(neighbor);
                assert(neighbors@ =~= old(neighbors)@ + seq![neighbor]);
                return ;
            }
        }
        assert(neighbors@ =~= old(neighbors)@ + Seq::<Coord>::empty());
    }
}

/// Walks the external border of a cluster one coordinate at a time.
pub struct ExternalBorderIter<'a> {
    /// Used for finding external neighbors.
    cluster: &'a Cluster,
    /// The place of the next cluster coord to go through.
    position: usize,
    /// Coords that have been found to be on the external border.
    external_border_coords: Vec<Coord>,
    /// External border coords that haven't been returned yet.
    coords_to_return: VecDeque<Coord>,
}

impl<'a> CoordIter for ExternalBorderIter<'a> {
    closed spec fn wf(&self) -> bool {
        self.position <= self.cluster.coords@.len()
    }

    closed spec fn remaining(&self) -> Seq<Coord> {
        self.coords_to_return@ + unseen(
            all_outsiders(
                self.cluster.coords@,
                self.cluster.coords@.skip(self.position as int),
            ),
            self.external_border_coords@.to_set(),
        )
    }

    fn next(&mut self) -> (r: Option<Coord>) {
        // If there are no external border coords to return, loop through the cluster to
        // find external neighbors until new ones are found.
        if self.coords_to_return.len() == 0 {
            while self.position < self.cluster.coords.len()
                invariant
                    self.wf(),
                    self.cluster == old(self).cluster,
                    self.remaining() == old(self).remaining(),
                decreases self.cluster.coords@.len() - self.position,
            {
                let ghost members = self.cluster.coords@;
                let ghost before = self.remaining();
                let coord = self.cluster.coords[self.position];
                let external_neighbors = self.cluster.external_neighbors(coord);
                let ghost rest = all_outsiders(members, members.skip(self.position + 1));
                self.position = self.position + 1;
                let ghost position = self.position;
                proof {
                    assert(members.skip(self.position - 1)[0] == coord);
                    assert(members.skip(self.position - 1).skip(1) =~= members.skip(
                        self.position as int,
                    ));
                    assert(external_neighbors@.skip(0) =~= external_neighbors@);
                }
                let mut i: usize = 0;
                while i < external_neighbors.len()
                    invariant
                        i <= external_neighbors@.len(),
                        self.wf(),
                        self.cluster == old(self).cluster,
                        self.position == position,
                        members == self.cluster.coords@,
                        rest == all_outsiders(members, members.skip(self.position as int)),
                        self.coords_to_return@ + unseen(
                            external_neighbors@.skip(i as int) + rest,
                            self.external_border_coords@.to_set(),
                        ) == before,
                    decreases external_neighbors@.len() - i,
                {
                    let neighbor = external_neighbors[i];
                    proof {
                        lemma_take_candidate(
                            external_neighbors@,
                            i as int,
                            rest,
                            self.external_border_coords@,
                        );
                    }
                    if !contains_coord(&self.external_border_coords, neighbor) {
                        self.external_border_coords.push(neighbor);
                        self.coords_to_return.push_back(neighbor);
                    }
                    i = i + 1;
                    proof {
                        assert(self.coords_to_return@ + unseen(
                            external_neighbors@.skip(i as int) + rest,
                            self.external_border_coords@.to_set(),
                        ) =~= before);
                    }
                }
                proof {
                    assert(external_neighbors@.skip(i as int) + rest =~= rest);
                }
            }
        }
        if self.coords_to_return.len() > 0 {
            let coord = self.coords_to_return.pop_front();
            proof {
                assert(old(self).remaining().skip(1) =~= self.remaining());
            }
            return coord;
        }
        proof {
            assert(self.remaining() =~= Seq::<Coord>::empty());
        }
        None
    }
}

/// The neighbors that a coordinate has outside a list are the coordinates next to it that
/// the list does not hold.
pub proof fn lemma_outsiders(members: Seq<Coord>, coord: Coord, other: Coord)
    ensures
        outsiders(members, coord).contains(other) <==> adjacent(coord, other) && !members.contains(
            other,
        ),
{
    let x = coord.x as int;
    let y = coord.y as int;
    let n = outsider(members, x, y + 1);
    let ne = outsider(members, x + 1, y + 1);
    let e = outsider(members, x + 1, y);
    let se = outsider(members, x + 1, y - 1);
    let s = outsider(members, x, y - 1);
    let sw = outsider(members, x - 1, y - 1);
    let w = outsider(members, x - 1, y);
    let nw = outsider(members, x - 1, y + 1);
    lemma_concat_contains(n, ne, other);
    lemma_concat_contains(n + ne, e, other);
    lemma_concat_contains(n + ne + e, se, other);
    lemma_concat_contains(n + ne + e + se, s, other);
    lemma_concat_contains(n + ne + e + se + s, sw, other);
    lemma_concat_contains(n + ne + e + se + s + sw, w, other);
    lemma_concat_contains(n + ne + e + se + s + sw + w, nw, other);
    lemma_outsider(members, x, y + 1, other);
    lemma_outsider(members, x + 1, y + 1, other);
    lemma_outsider(members, x + 1, y, other);
    lemma_outsider(members, x + 1, y - 1, other);
    lemma_outsider(members, x, y - 1, other);
    lemma_outsider(members, x - 1, y - 1, other);
    lemma_outsider(members, x - 1, y, other);
    lemma_outsider(members, x - 1, y + 1, other);
}

/// The list that `outsider` gives holds the coordinate `(x, y)`, if anything.
proof fn lemma_outsider(members: Seq<Coord>, x: int, y: int, other: Coord)
    ensures
        outsider(members, x, y).contains(other) <==> other.x == x && other.y == y
            && !members.contains(other),
{
    let found = outsider(members, x, y);
    if found.len() > 0 {
        assert(found[0] == found[0]);
    }
    if found.contains(other) {
        let i = choose|i: int| 0 <= i < found.len() && found[i] == other;
        assert(i == 0);
    }
    if other.x == x && other.y == y && !members.contains(other) {
        assert(other == (Coord { x: x as i32, y: y as i32 }));
        assert(found[0] == other);
    }
}

/// The neighbors that the coordinates of a list have outside `members` are the coordinates
/// that `members` does not hold and that are next to a coordinate of the list.
pub proof fn lemma_all_outsiders(members: Seq<Coord>, from: Seq<Coord>, other: Coord)
    ensures
        all_outsiders(members, from).contains(other) <==> !members.contains(other) && exists|
            m: Coord,
        | #[trigger] from.contains(m) && adjacent(m, other),
    decreases from.len(),
{
    if from.len() == 0 {
        assert(!all_outsiders(members, from).contains(other));
        assert forall|m: Coord| !from.contains(m) by {}
    } else {
        let first = from[0];
        let rest = from.skip(1);
        lemma_all_outsiders(members, rest, other);
        lemma_outsiders(members, first, other);
        lemma_concat_contains(outsiders(members, first), all_outsiders(members, rest), other);
        if all_outsiders(members, from).contains(other) {
            if outsiders(members, first).contains(other) {
                assert(from.contains(first) && adjacent(first, other));
            } else {
                let m = choose|m: Coord| #[trigger] rest.contains(m) && adjacent(m, other);
                let i = choose|i: int| 0 <= i < rest.len() && rest[i] == m;
                assert(from[i + 1] == m);
                assert(from.contains(m) && adjacent(m, other));
            }
        }
        if !members.contains(other) && exists|m: Coord| #[trigger]
            from.contains(m) && adjacent(m, other) {
            let m = choose|m: Coord| #[trigger] from.contains(m) && adjacent(m, other);
            let i = choose|i: int| 0 <= i < from.len() && from[i] == m;
            if i > 0 {
                assert(rest[i - 1] == m);
                assert(rest.contains(m) && adjacent(m, other));
            }
        }
    }
}

/// The interior and the internal border divide the cluster between them: every member is
/// in one of the two, none is in both, and neither holds anything else or anything twice.
pub proof fn lemma_layers_divide_cluster(cluster: Cluster)
    requires
        cluster.wf(),
    ensures
        cluster.interior().no_duplicates(),
        cluster.internal_border().no_duplicates(),
        cluster.interior().len() + cluster.internal_border().len() == cluster.members().len(),
        forall|c: Coord| #[trigger]
            cluster.interior().contains(c) <==> cluster.members().contains(c) && outsiders(
                cluster.members(),
                c,
            ).len() == 0,
        forall|c: Coord| #[trigger]
            cluster.internal_border().contains(c) <==> cluster.members().contains(c) && outsiders(
                cluster.members(),
                c,
            ).len() != 0,
        forall|c: Coord|
            cluster.members().contains(c) <==> (#[trigger] cluster.interior().contains(c)
                || cluster.internal_border().contains(c)),
        forall|c: Coord|
            !(#[trigger] cluster.interior().contains(c) && cluster.internal_border().contains(c)),
{
    let members = cluster.members();
    let inside = |coord: Coord| outsiders(members, coord).len() == 0;
    let outside = |coord: Coord| outsiders(members, coord).len() != 0;
    lemma_filter_keeps(members, inside);
    lemma_filter_keeps(members, outside);
    lemma_filter_divides(members, inside, outside);
}

/// The external border holds no member of the cluster and none of its own coordinates
/// twice: it is made of the coordinates outside the cluster that are next to a member.
pub proof fn lemma_external_border_surrounds(cluster: Cluster)
    ensures
        cluster.external_border().no_duplicates(),
        forall|c: Coord| #[trigger]
            cluster.external_border().contains(c) <==> !cluster.members().contains(c) && exists|
                m: Coord,
            | #[trigger] cluster.members().contains(m) && adjacent(m, c),
        forall|c: Coord|
            !(#[trigger] cluster.external_border().contains(c) && cluster.members().contains(c)),
{
    let members = cluster.members();
    lemma_unseen(all_outsiders(members, members), Set::empty());
    assert forall|c: Coord| #[trigger]
        cluster.external_border().contains(c) <==> !cluster.members().contains(c) && exists|
            m: Coord,
        | #[trigger] cluster.members().contains(m) && adjacent(m, c) by {
        lemma_all_outsiders(members, members, c);
    }
}

/// A member of the cluster is in the interior exactly when every coordinate next to it is a
/// member too.
pub proof fn lemma_interior_is_surrounded(cluster: Cluster, coord: Coord)
    requires
        cluster.members().contains(coord),
    ensures
        outsiders(cluster.members(), coord).len() == 0 <==> forall|other: Coord|
            adjacent(coord, other) ==> #[trigger] cluster.members().contains(other),
{
    let members = cluster.members();
    let found = outsiders(members, coord);
    if found.len() == 0 {
        assert forall|other: Coord| adjacent(coord, other) implies #[trigger] members.contains(
            other,
        ) by {
            lemma_outsiders(members, coord, other);
        }
    } else {
        let other = found[0];
        assert(found.contains(other));
        lemma_outsiders(members, coord, other);
    }
}

} // verus!
