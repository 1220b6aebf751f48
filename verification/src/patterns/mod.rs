//! Generators of common coordinate shapes and patterns.
//!
//! These patterns do not depend on any cell data. They produce coordinates, which a grid's
//! selection passes turn into cell values.

pub mod circle;
pub mod cluster;
pub mod line;
pub mod neighborhood;
pub mod rect;

pub use circle::Circle;
pub use circle::CircleIter;
pub use cluster::Cluster;
pub use cluster::ExternalBorderIter;
pub use line::Line;
pub use line::LineIter;
pub use neighborhood::Neighborhood;
pub use rect::BspTree;
pub use rect::Orientation;
pub use rect::Rect;
pub use rect::RectIter;

use crate::coord::Coord;
use vstd::prelude::*;

verus! {

/// A finite source of coordinates that hands them out one at a time, in order.
pub trait CoordIter {
    /// Whether the source is in a state from which it can be advanced.
    spec fn wf(&self) -> bool;

    /// The coordinates that are still to come, in the order in which they will come.
    spec fn remaining(&self) -> Seq<Coord>;

    /// Hands out the first of the remaining coordinates, or `None` once none are left.
    fn next(&mut self) -> (r: Option<Coord>)
        requires
            old(self).wf(),
        ensures
            final(self).wf(),
            old(self).remaining().len() == 0 ==> r is None && final(self).remaining()
                == old(self).remaining(),
            old(self).remaining().len() > 0 ==> r == Some(old(self).remaining()[0])
                && final(self).remaining() == old(self).remaining().skip(1),
    ;
}

/// A source that hands out the coordinates of a list, first to last.
pub struct Coords {
    items: Vec<Coord>,
    position: usize,
}

impl Coords {
    /// A source that will hand out exactly `items`, in order.
    pub fn new(items: Vec<Coord>) -> (coords: Self)
        ensures
            coords.wf(),
            coords.remaining() == items@,
    {
        Coords { items, position: 0 }
    }
}

impl CoordIter for Coords {
    closed spec fn wf(&self) -> bool {
        self.position <= self.items@.len()
    }

    closed spec fn remaining(&self) -> Seq<Coord> {
        self.items@.skip(self.position as int)
    }

    fn next(&mut self) -> (r: Option<Coord>) {
        if self.position < self.items.len() {
            let coord = self.items[self.position];
            self.position = self.position + 1;
            assert(self.items@.skip(self.position as int) =~= self.items@.skip(
                self.position - 1,
            ).skip(1));
            Some(coord)
        } else {
            None
        }
    }
}

/// Drains a source into a list.
pub fn collect<I: CoordIter>(iter: I) -> (coords: Vec<Coord>)
    requires
        iter.wf(),
    ensures
        coords@ == iter.remaining(),
{
    let mut iter = iter;
    let ghost all = iter.remaining();
    let mut coords: Vec<Coord> = Vec::new();
    loop
        invariant
            iter.wf(),
            coords@ + iter.remaining() == all,
        ensures
            coords@ == all,
        decreases iter.remaining().len(),
    {
        let ghost before = iter.remaining();
        match iter.next() {
            Some(coord) => {
                coords.push(coord);
                assert(coords@ + iter.remaining() =~= all) by {
                    assert(before =~= seq![coord] + before.skip(1));
                }
            },
            None => {
                assert(coords@ + iter.remaining() =~= coords@);
                break ;
            },
        }
    }
    coords
}

/// The coordinates of `candidates` that are not in `seen` and have not come before, in
/// the order in which they first come.
pub open spec fn unseen(candidates: Seq<Coord>, seen: Set<Coord>) -> Seq<Coord>
    decreases candidates.len(),
{
    if candidates.len() == 0 {
        Seq::empty()
    } else if seen.contains(candidates[0]) {
        unseen(candidates.skip(1), seen)
    } else {
        seq![candidates[0]] + unseen(candidates.skip(1), seen.insert(candidates[0]))
    }
}

/// What is left of a list once the coordinates that have been seen, or that come twice,
/// are dropped: no coordinate twice, none that had been seen, and every other coordinate
/// of the list.
pub proof fn lemma_unseen(candidates: Seq<Coord>, seen: Set<Coord>)
    ensures
        unseen(candidates, seen).no_duplicates(),
        forall|c: Coord| #[trigger]
            unseen(candidates, seen).contains(c) <==> candidates.contains(c) && !seen.contains(c),
    decreases candidates.len(),
{
    let kept = unseen(candidates, seen);
    if candidates.len() == 0 {
    } else {
        let first = candidates[0];
        let rest = candidates.skip(1);
        assert forall|c: Coord| candidates.contains(c) <==> c == first || rest.contains(c) by {
            if candidates.contains(c) {
                let i = choose|i: int| 0 <= i < candidates.len() && candidates[i] == c;
                if i > 0 {
                    assert(rest[i - 1] == c);
                }
            }
            if rest.contains(c) {
                let i = choose|i: int| 0 <= i < rest.len() && rest[i] == c;
                assert(candidates[i + 1] == c);
            }
        }
        if seen.contains(first) {
            lemma_unseen(rest, seen);
        } else {
            let tail = unseen(rest, seen.insert(first));
            lemma_unseen(rest, seen.insert(first));
            assert(kept == seq![first] + tail);
            assert forall|c: Coord| #[trigger] kept.contains(c) <==> candidates.contains(c)
                && !seen.contains(c) by {
                if kept.contains(c) {
                    let i = choose|i: int| 0 <= i < kept.len() && kept[i] == c;
                    if i > 0 {
                        assert(tail[i - 1] == c);
                        assert(tail.contains(c));
                    }
                }
                if candidates.contains(c) && !seen.contains(c) {
                    if c == first {
                        assert(kept[0] == c);
                    } else {
                        assert(tail.contains(c));
                        let i = choose|i: int| 0 <= i < tail.len() && tail[i] == c;
                        assert(kept[i + 1] == c);
                    }
                }
            }
            assert forall|i: int, j: int| 0 <= i < kept.len() && 0 <= j < kept.len() && i
                != j implies kept[i] != kept[j] by {
                if i > 0 && j > 0 {
                    assert(kept[i] == tail[i - 1] && kept[j] == tail[j - 1]);
                } else if i == 0 {
                    assert(kept[j] == tail[j - 1]);
                    assert(tail.contains(kept[j]));
                } else {
                    assert(kept[i] == tail[i - 1]);
                    assert(tail.contains(kept[i]));
                }
            }
        }
    }
}

/// Taking the candidate at `i` out of the list: if it has been seen, the rest is what is
/// unseen of the others; if not, the rest starts with it.
pub proof fn lemma_take_candidate(group: Seq<Coord>, i: int, rest: Seq<Coord>, seen: Seq<Coord>)
    requires
        0 <= i < group.len(),
    ensures
        seen.contains(group[i]) ==> unseen(group.skip(i) + rest, seen.to_set()) == unseen(
            group.skip(i + 1) + rest,
            seen.to_set(),
        ),
        !seen.contains(group[i]) ==> unseen(group.skip(i) + rest, seen.to_set()) == seq![
            group[i],
        ] + unseen(group.skip(i + 1) + rest, seen.push(group[i]).to_set()),
{
    let candidates = group.skip(i) + rest;
    assert(candidates[0] == group[i]);
    assert(candidates.skip(1) =~= group.skip(i + 1) + rest);
    seen.lemma_push_to_set_commute(group[i]);
}

/// A list made of two holds what either of the two holds.
pub proof fn lemma_concat_contains(front: Seq<Coord>, back: Seq<Coord>, coord: Coord)
    ensures
        (front + back).contains(coord) <==> front.contains(coord) || back.contains(coord),
{
    let whole = front + back;
    if whole.contains(coord) {
        let i = choose|i: int| 0 <= i < whole.len() && whole[i] == coord;
        if i < front.len() {
            assert(front[i] == coord);
        } else {
            assert(back[i - front.len()] == coord);
        }
    }
    if front.contains(coord) {
        let i = choose|i: int| 0 <= i < front.len() && front[i] == coord;
        assert(whole[i] == coord);
    }
    if back.contains(coord) {
        let i = choose|i: int| 0 <= i < back.len() && back[i] == coord;
        assert(whole[front.len() + i] == coord);
    }
}

/// What a filter keeps of a list: the coordinates of the list for which the condition
/// holds, and none of them twice where the list holds none twice.
pub proof fn lemma_filter_keeps(list: Seq<Coord>, keep: spec_fn(Coord) -> bool)
    ensures
        forall|c: Coord| #[trigger] list.filter(keep).contains(c) <==> list.contains(c) && keep(c),
        list.no_duplicates() ==> list.filter(keep).no_duplicates(),
    decreases list.len(),
{
    reveal(Seq::filter);
    if list.len() > 0 {
        let front = list.drop_last();
        let last = list.last();
        lemma_filter_keeps(front, keep);
        assert(list =~= front + seq![last]);
        let kept = front.filter(keep);
        assert forall|c: Coord| #[trigger] list.filter(keep).contains(c) <==> list.contains(c)
            && keep(c) by {
            lemma_concat_contains(front, seq![last], c);
            assert(seq![last].contains(c) <==> c == last) by {
                if c == last {
                    assert(seq![last][0] == c);
                }
            }
            if keep(last) {
                assert(list.filter(keep) =~= kept + seq![last]);
                lemma_concat_contains(kept, seq![last], c);
            }
        }
        if list.no_duplicates() {
            assert(front.no_duplicates());
            if keep(last) {
                assert(!front.contains(last)) by {
                    if front.contains(last) {
                        let i = choose|i: int| 0 <= i < front.len() && front[i] == last;
                        assert(list[i] == list[list.len() - 1]);
                    }
                }
                assert(!kept.contains(last));
                assert(list.filter(keep) =~= kept.push(last));
            }
        }
    }
}

/// A condition and its opposite divide a list between them.
pub proof fn lemma_filter_divides(
    list: Seq<Coord>,
    keep: spec_fn(Coord) -> bool,
    drop: spec_fn(Coord) -> bool,
)
    requires
        forall|c: Coord| #[trigger] drop(c) == !keep(c),
    ensures
        list.filter(keep).len() + list.filter(drop).len() == list.len(),
    decreases list.len(),
{
    reveal(Seq::filter);
    if list.len() > 0 {
        lemma_filter_divides(list.drop_last(), keep, drop);
        assert(drop(list.last()) == !keep(list.last()));
    }
}

/// Whether `coords` holds `coord`.
pub fn contains_coord(coords: &Vec<Coord>, coord: Coord) -> (found: bool)
    ensures
        found == coords@.contains(coord),
{
    let mut i: usize = 0;
    while i < coords.len()
        invariant
            i <= coords@.len(),
            forall|j: int| 0 <= j < i ==> coords@[j] != coord,
        decreases coords@.len() - i,
    {
        if coords[i] == coord {
            assert(coords@[i as int] == coord);
            return true;
        }
        i = i + 1;
    }
    false
}

} // verus!
