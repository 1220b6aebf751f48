//! What a flood fill comes to: the region of the grid that is connected to the starting
//! coordinate through cells that the predicate accepts.

use crate::coord::Coord;
use crate::grid::Grid;
use crate::patterns::lemma_concat_contains;
use crate::patterns::rect::Rect;
use crate::vecgrid::fresh_coord;
use crate::vecgrid::fresh_neighbors;
use crate::vecgrid::FloodIter;
use vstd::prelude::*;

verus! {

/// Whether `a` and `b` share an edge.
pub open spec fn ortho_adjacent(a: Coord, b: Coord) -> bool {
    ||| a.x == b.x && (a.y - b.y == 1 || b.y - a.y == 1)
    ||| a.y == b.y && (a.x - b.x == 1 || b.x - a.x == 1)
}

/// Whether `path` leads from coordinate to coordinate over shared edges, without leaving
/// `accepted`.
pub open spec fn is_path(accepted: Set<Coord>, path: Seq<Coord>) -> bool {
    &&& path.len() > 0
    &&& forall|i: int| 0 <= i < path.len() ==> accepted.contains(#[trigger] path[i])
    &&& forall|i: int| 0 <= i < path.len() - 1 ==> ortho_adjacent(#[trigger] path[i], path[i + 1])
}

/// Whether a path inside `accepted` leads from `from` to `to`.
pub open spec fn connected(accepted: Set<Coord>, from: Coord, to: Coord) -> bool {
    exists|path: Seq<Coord>| #[trigger]
        is_path(accepted, path) && path[0] == from && path.last() == to
}

/// Whether `accepted` is the set of the coordinates whose cells the predicate of `flood`
/// accepts, and the predicate leaves no doubt about any cell.
pub open spec fn decided_by<T, P: Fn(&T) -> bool>(
    flood: FloodIter<T, P>,
    accepted: Set<Coord>,
) -> bool {
    &&& forall|c: Coord| #[trigger] accepted.contains(c) ==> flood.grid.bounds.spec_contains(c)
    &&& forall|c: Coord| #[trigger] flood.may_accept(c) ==> accepted.contains(c)
    &&& forall|c: Coord|
        flood.grid.bounds.spec_contains(c) && #[trigger] flood.may_reject(c) ==> !accepted.contains(
            c,
        )
}

/// Whether, in a flood fill that goes through the states `(searched[i], queues[i])`, step
/// `i` hands out `found[i]`.
pub open spec fn step_yields<T, P: Fn(&T) -> bool>(
    flood: FloodIter<T, P>,
    searched: Seq<Seq<Coord>>,
    queues: Seq<Seq<Coord>>,
    found: Seq<Coord>,
    i: int,
) -> bool {
    exists|skipped: int| #[trigger]
        flood.yields(searched[i], queues[i], skipped, found[i], searched[i + 1], queues[i + 1])
}

/// What holds of a flood fill between any two of its steps, where it has searched
/// `searched`, has yet to search `queue`, and has handed out `found`.
pub open spec fn flood_invariant(
    bounds: Rect,
    accepted: Set<Coord>,
    start: Coord,
    searched: Seq<Coord>,
    queue: Seq<Coord>,
    found: Seq<Coord>,
) -> bool {
    &&& found.no_duplicates()
    &&& queue.no_duplicates()
    &&& forall|c: Coord| #[trigger]
        found.contains(c) ==> searched.contains(c) && connected(accepted, start, c)
    &&& forall|c: Coord| #[trigger]
        searched.contains(c) && accepted.contains(c) ==> found.contains(c)
    &&& forall|c: Coord| #[trigger] queue.contains(c) ==> !searched.contains(c)
    &&& forall|c: Coord| #[trigger]
        queue.contains(c) && accepted.contains(c) ==> connected(accepted, start, c)
    &&& forall|c: Coord, n: Coord|
        found.contains(c) && #[trigger] ortho_adjacent(c, n) && bounds.spec_contains(n)
            ==> searched.contains(n) || queue.contains(n)
    &&& searched.contains(start) || queue.contains(start)
}

/// A list holds what its front part or its back part holds; a list without repeats holds
/// nothing in both.
proof fn lemma_take_skip_contains(list: Seq<Coord>, k: int, coord: Coord)
    requires
        0 <= k <= list.len(),
    ensures
        list.contains(coord) <==> list.take(k).contains(coord) || list.skip(k).contains(coord),
        list.no_duplicates() ==> !(list.take(k).contains(coord) && list.skip(k).contains(coord)),
        list.no_duplicates() ==> list.skip(k).no_duplicates(),
{
    let front = list.take(k);
    let back = list.skip(k);
    assert(list =~= front + back);
    lemma_concat_contains(front, back, coord);
    if front.contains(coord) && back.contains(coord) {
        let i = choose|i: int| 0 <= i < front.len() && front[i] == coord;
        let j = choose|j: int| 0 <= j < back.len() && back[j] == coord;
        assert(list[i] == coord && list[k + j] == coord);
    }
    if list.no_duplicates() {
        assert forall|i: int, j: int| 0 <= i < back.len() && 0 <= j < back.len() && i
            != j implies back[i] != back[j] by {
            assert(back[i] == list[k + i] && back[j] == list[k + j]);
        }
    }
}

/// The list that `fresh_coord` gives holds the coordinate `(x, y)`, if anything.
proof fn lemma_fresh_coord(
    bounds: Rect,
    searched: Seq<Coord>,
    queue: Seq<Coord>,
    x: int,
    y: int,
    coord: Coord,
)
    ensures
        fresh_coord(bounds, searched, queue, x, y).contains(coord) <==> coord.x == x && coord.y == y
            && bounds.spec_contains(coord) && !searched.contains(coord) && !queue.contains(coord),
        fresh_coord(bounds, searched, queue, x, y).len() <= 1,
{
    let found = fresh_coord(bounds, searched, queue, x, y);
    if found.contains(coord) {
        let i = choose|i: int| 0 <= i < found.len() && found[i] == coord;
        assert(i == 0);
    }
    if coord.x == x && coord.y == y && bounds.spec_contains(coord) && !searched.contains(coord)
        && !queue.contains(coord) {
        assert(coord == (Coord { x: x as i32, y: y as i32 }));
        assert(found[0] == coord);
    }
}

/// The fresh neighbors of a coordinate are the coordinates inside the bounds that share an
/// edge with it and are in neither list; none of them comes twice.
proof fn lemma_fresh_neighbors(
    bounds: Rect,
    searched: Seq<Coord>,
    queue: Seq<Coord>,
    center: Coord,
)
    ensures
        forall|c: Coord| #[trigger]
            fresh_neighbors(bounds, searched, queue, center).contains(c) <==> ortho_adjacent(
                center,
                c,
            ) && bounds.spec_contains(c) && !searched.contains(c) && !queue.contains(c),
        fresh_neighbors(bounds, searched, queue, center).no_duplicates(),
{
    let x = center.x as int;
    let y = center.y as int;
    let north = fresh_coord(bounds, searched, queue, x, y + 1);
    let east = fresh_coord(bounds, searched, queue, x + 1, y);
    let south = fresh_coord(bounds, searched, queue, x, y - 1);
    let west = fresh_coord(bounds, searched, queue, x - 1, y);
    let all = fresh_neighbors(bounds, searched, queue, center);
    assert forall|c: Coord| #[trigger] all.contains(c) <==> ortho_adjacent(center, c)
        && bounds.spec_contains(c) && !searched.contains(c) && !queue.contains(c) by {
        lemma_concat_contains(north, east, c);
        lemma_concat_contains(north + east, south, c);
        lemma_concat_contains(north + east + south, west, c);
        lemma_fresh_coord(bounds, searched, queue, x, y + 1, c);
        lemma_fresh_coord(bounds, searched, queue, x + 1, y, c);
        lemma_fresh_coord(bounds, searched, queue, x, y - 1, c);
        lemma_fresh_coord(bounds, searched, queue, x - 1, y, c);
    }
    assert forall|i: int, j: int| 0 <= i < all.len() && 0 <= j < all.len() && i != j implies all[i]
        != all[j] by {
        let c = all[i];
        lemma_fresh_coord(bounds, searched, queue, x, y + 1, c);
        lemma_fresh_coord(bounds, searched, queue, x + 1, y, c);
        lemma_fresh_coord(bounds, searched, queue, x, y - 1, c);
        lemma_fresh_coord(bounds, searched, queue, x - 1, y, c);
        let d = all[j];
        lemma_fresh_coord(bounds, searched, queue, x, y + 1, d);
        lemma_fresh_coord(bounds, searched, queue, x + 1, y, d);
        lemma_fresh_coord(bounds, searched, queue, x, y - 1, d);
        lemma_fresh_coord(bounds, searched, queue, x - 1, y, d);
        if north.len() > 0 {
            assert(north.contains(north[0]));
        }
        if east.len() > 0 {
            assert(east.contains(east[0]));
        }
        if south.len() > 0 {
            assert(south.contains(south[0]));
        }
        if west.len() > 0 {
            assert(west.contains(west[0]));
        }
    }
}

/// A path that ends next to an accepted coordinate can be taken one step further.
proof fn lemma_extend_path(accepted: Set<Coord>, start: Coord, via: Coord, to: Coord)
    requires
        connected(accepted, start, via),
        ortho_adjacent(via, to),
        accepted.contains(to),
    ensures
        connected(accepted, start, to),
{
    let path = choose|path: Seq<Coord>| #[trigger]
        is_path(accepted, path) && path[0] == start && path.last() == via;
    let longer = path.push(to);
    assert forall|i: int| 0 <= i < longer.len() implies accepted.contains(#[trigger] longer[i]) by {
        if i < path.len() {
            assert(longer[i] == path[i]);
        }
    }
    assert forall|i: int| 0 <= i < longer.len() - 1 implies ortho_adjacent(
        #[trigger] longer[i],
        longer[i + 1],
    ) by {
        if i < path.len() - 1 {
            assert(longer[i] == path[i] && longer[i + 1] == path[i + 1]);
        } else {
            assert(longer[i] == via && longer[i + 1] == to);
        }
    }
    assert(is_path(accepted, longer) && longer[0] == start && longer.last() == to);
}

/// The invariant holds before the first step.
proof fn lemma_flood_starts(bounds: Rect, accepted: Set<Coord>, start: Coord)
    ensures
        flood_invariant(
            bounds,
            accepted,
            start,
            Seq::<Coord>::empty(),
            seq![start],
            Seq::<Coord>::empty(),
        ),
{
    let queue = seq![start];
    assert(queue[0] == start);
    assert forall|c: Coord| #[trigger] queue.contains(c) && accepted.contains(c) implies connected(
        accepted,
        start,
        c,
    ) by {
        let i = choose|i: int| 0 <= i < queue.len() && queue[i] == c;
        assert(c == start);
        let path = seq![start];
        assert(is_path(accepted, path) && path[0] == start && path.last() == c);
    }
}

/// A step that hands out a coordinate keeps the invariant.
proof fn lemma_flood_step<T, P: Fn(&T) -> bool>(
    flood: FloodIter<T, P>,
    accepted: Set<Coord>,
    start: Coord,
    searched: Seq<Coord>,
    queue: Seq<Coord>,
    found: Seq<Coord>,
    skipped: int,
    coord: Coord,
    next_searched: Seq<Coord>,
    next_queue: Seq<Coord>,
)
    requires
        decided_by(flood, accepted),
        flood_invariant(flood.grid.bounds, accepted, start, searched, queue, found),
        flood.yields(searched, queue, skipped, coord, next_searched, next_queue),
    ensures
        flood_invariant(
            flood.grid.bounds,
            accepted,
            start,
            next_searched,
            next_queue,
            found.push(coord),
        ),
{
    let bounds = flood.grid.bounds;
    let taken = queue.take(skipped + 1);
    let left = queue.skip(skipped + 1);
    let fresh = fresh_neighbors(bounds, next_searched, left, coord);
    let next_found = found.push(coord);
    lemma_fresh_neighbors(bounds, next_searched, left, coord);
    assert(queue.contains(coord));
    assert(accepted.contains(coord));
    assert(taken[skipped] == coord);
    assert(taken.contains(coord));

    assert forall|c: Coord| next_searched.contains(c) <==> searched.contains(c) || taken.contains(
        c,
    ) by {
        lemma_concat_contains(searched, taken, c);
    }
    assert forall|c: Coord| next_queue.contains(c) <==> left.contains(c) || fresh.contains(c) by {
        lemma_concat_contains(left, fresh, c);
    }
    assert forall|c: Coord| next_found.contains(c) <==> found.contains(c) || c == coord by {
        assert(next_found =~= found + seq![coord]);
        lemma_concat_contains(found, seq![coord], c);
        if c == coord {
            assert(seq![coord][0] == c);
        }
    }
    assert forall|c: Coord|
        (queue.contains(c) <==> taken.contains(c) || left.contains(c)) && !(taken.contains(c)
            && left.contains(c)) by {
        lemma_take_skip_contains(queue, skipped + 1, c);
    }
    lemma_take_skip_contains(queue, skipped + 1, coord);
    assert forall|c: Coord| taken.contains(c) && accepted.contains(c) implies c == coord by {
        let j = choose|j: int| 0 <= j < taken.len() && taken[j] == c;
        if j < skipped {
            assert(taken[j] == queue[j]);
            assert(flood.may_reject(queue[j]));
        }
    }

    assert(next_found.no_duplicates()) by {
        assert(!found.contains(coord));
        assert forall|i: int, j: int| 0 <= i < next_found.len() && 0 <= j < next_found.len() && i
            != j implies next_found[i] != next_found[j] by {
            if i < found.len() && j < found.len() {
            } else if i < found.len() {
                assert(found.contains(found[i]));
            } else {
                assert(found.contains(found[j]));
            }
        }
    }
    assert(next_queue.no_duplicates()) by {
        assert forall|i: int, j: int| 0 <= i < next_queue.len() && 0 <= j < next_queue.len() && i
            != j implies next_queue[i] != next_queue[j] by {
            if i < left.len() && j < left.len() {
            } else if i >= left.len() && j >= left.len() {
                assert(next_queue[i] == fresh[i - left.len()]);
                assert(next_queue[j] == fresh[j - left.len()]);
            } else if i < left.len() {
                assert(left.contains(left[i]));
                assert(fresh.contains(fresh[j - left.len()]));
            } else {
                assert(left.contains(left[j]));
                assert(fresh.contains(fresh[i - left.len()]));
            }
        }
    }
    assert forall|c: Coord| #[trigger] next_queue.contains(c) && accepted.contains(
        c,
    ) implies connected(accepted, start, c) by {
        if fresh.contains(c) {
            lemma_extend_path(accepted, start, coord, c);
        }
    }
    assert forall|c: Coord, n: Coord|
        next_found.contains(c) && #[trigger] ortho_adjacent(c, n) && bounds.spec_contains(
            n,
        ) implies next_searched.contains(n) || next_queue.contains(n) by {
        if found.contains(c) {
            assert(searched.contains(n) || queue.contains(n));
        }
    }
}

/// From one accepted coordinate of the invariant's region the search has found every
/// coordinate on a path, once the queue holds nothing that could be accepted.
proof fn lemma_path_is_found(
    bounds: Rect,
    accepted: Set<Coord>,
    start: Coord,
    searched: Seq<Coord>,
    queue: Seq<Coord>,
    found: Seq<Coord>,
    path: Seq<Coord>,
    upto: int,
)
    requires
        flood_invariant(bounds, accepted, start, searched, queue, found),
        forall|c: Coord| #[trigger] accepted.contains(c) ==> bounds.spec_contains(c),
        forall|c: Coord| #[trigger] queue.contains(c) ==> !accepted.contains(c),
        is_path(accepted, path),
        path[0] == start,
        0 <= upto < path.len(),
    ensures
        found.contains(path[upto]),
    decreases upto,
{
    if upto == 0 {
        assert(accepted.contains(path[0]));
    } else {
        lemma_path_is_found(bounds, accepted, start, searched, queue, found, path, upto - 1);
        assert(ortho_adjacent(path[upto - 1], path[upto - 1 + 1]));
        assert(accepted.contains(path[upto]));
    }
}

/// Every state that a flood fill goes through keeps the invariant.
proof fn lemma_flood_reaches<T, P: Fn(&T) -> bool>(
    flood: FloodIter<T, P>,
    accepted: Set<Coord>,
    start: Coord,
    searched: Seq<Seq<Coord>>,
    queues: Seq<Seq<Coord>>,
    found: Seq<Coord>,
    steps: int,
)
    requires
        decided_by(flood, accepted),
        searched.len() == found.len() + 2,
        queues.len() == found.len() + 2,
        searched[0] == Seq::<Coord>::empty(),
        queues[0] == seq![start],
        forall|i: int|
            0 <= i < found.len() ==> #[trigger] step_yields(flood, searched, queues, found, i),
        0 <= steps <= found.len(),
    ensures
        flood_invariant(
            flood.grid.bounds,
            accepted,
            start,
            searched[steps],
            queues[steps],
            found.take(steps),
        ),
    decreases steps,
{
    if steps == 0 {
        lemma_flood_starts(flood.grid.bounds, accepted, start);
        assert(found.take(0) =~= Seq::<Coord>::empty());
    } else {
        let i = steps - 1;
        lemma_flood_reaches(flood, accepted, start, searched, queues, found, i);
        assert(step_yields(flood, searched, queues, found, i));
        let skipped = choose|skipped: int| #[trigger]
            flood.yields(searched[i], queues[i], skipped, found[i], searched[i + 1], queues[i + 1]);
        lemma_flood_step(
            flood,
            accepted,
            start,
            searched[i],
            queues[i],
            found.take(i),
            skipped,
            found[i],
            searched[i + 1],
            queues[i + 1],
        );
        assert(found.take(i).push(found[i]) =~= found.take(i + 1));
    }
}

/// A flood fill hands out exactly the coordinates of the region that is connected to the
/// starting coordinate, each of them once.
///
/// The fill is given by the states that it goes through: it starts with nothing searched
/// and the starting coordinate to search, each step but the last leads from one state to
/// the next by handing out one of the coordinates `found`, and the last step finds
/// nothing more. The predicate must decide for each cell whether it accepts it: `accepted`
/// is the set of the coordinates inside the grid whose cells it accepts. Then `found`
/// holds no coordinate twice, and it holds a coordinate exactly if a path leads to it from
/// the starting coordinate, over shared edges, through accepted coordinates only. If the
/// starting coordinate itself is not accepted, that is no coordinate at all.
pub proof fn lemma_flood_fills_region<T, P: Fn(&T) -> bool>(
    flood: FloodIter<T, P>,
    accepted: Set<Coord>,
    start: Coord,
    searched: Seq<Seq<Coord>>,
    queues: Seq<Seq<Coord>>,
    found: Seq<Coord>,
)
    requires
        decided_by(flood, accepted),
        searched.len() == found.len() + 2,
        queues.len() == found.len() + 2,
        searched[0] == Seq::<Coord>::empty(),
        queues[0] == seq![start],
        forall|i: int|
            0 <= i < found.len() ==> #[trigger] step_yields(flood, searched, queues, found, i),
        flood.finishes(
            searched[found.len() as int],
            queues[found.len() as int],
            searched[found.len() as int + 1],
            queues[found.len() as int + 1],
        ),
    ensures
        found.no_duplicates(),
        forall|c: Coord| #[trigger] found.contains(c) <==> connected(accepted, start, c),
{
    let bounds = flood.grid.bounds;
    let n = found.len() as int;
    lemma_flood_reaches(flood, accepted, start, searched, queues, found, n);
    assert(found.take(n) =~= found);
    let last_searched = searched[n];
    let last_queue = queues[n];
    assert forall|c: Coord| #[trigger] last_queue.contains(c) implies !accepted.contains(c) by {
        let j = choose|j: int| 0 <= j < last_queue.len() && last_queue[j] == c;
        assert(flood.may_reject(last_queue[j]));
    }
    assert forall|c: Coord| #[trigger] found.contains(c) <==> connected(accepted, start, c) by {
        if connected(accepted, start, c) {
            let path = choose|path: Seq<Coord>| #[trigger]
                is_path(accepted, path) && path[0] == start && path.last() == c;
            lemma_path_is_found(
                bounds,
                accepted,
                start,
                last_searched,
                last_queue,
                found,
                path,
                path.len() - 1,
            );
        }
    }
}

} // verus!
