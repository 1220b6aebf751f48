use crate::coord::Coord;
use crate::patterns::CoordIter;
use std::ops::Range;
use vstd::prelude::*;

verus! {

/// An axis-aligned region of coordinates. `left` and `top` are the least x and y that it
/// holds; `right` and `bottom` are the first x and y beyond it.
#[derive(Debug, Clone, Copy, PartialEq, Eq, Structural)]
pub struct Rect {
    pub top: i32,
    pub bottom: i32,
    pub left: i32,
    pub right: i32,
}

impl Rect {
    /// Whether the edges are in order. Every constructor gives a rectangle for which this
    /// holds.
    pub open spec fn wf(self) -> bool {
        self.top <= self.bottom && self.left <= self.right
    }

    /// The number of columns.
    pub open spec fn spec_width(self) -> int {
        self.right - self.left
    }

    /// The number of rows.
    pub open spec fn spec_height(self) -> int {
        self.bottom - self.top
    }

    /// The number of coordinates.
    pub open spec fn spec_area(self) -> int {
        self.spec_width() * self.spec_height()
    }

    /// Whether `coord` lies inside.
    pub open spec fn spec_contains(self, coord: Coord) -> bool {
        self.left <= coord.x < self.right && self.top <= coord.y < self.bottom
    }

    /// The rectangle that has `corner1` and `corner2` for opposite corners.
    pub open spec fn spec_with_corners(corner1: Coord, corner2: Coord) -> Rect {
        Rect {
            top: if corner1.y <= corner2.y { corner1.y } else { corner2.y },
            bottom: if corner1.y <= corner2.y { corner2.y } else { corner1.y },
            left: if corner1.x <= corner2.x { corner1.x } else { corner2.x },
            right: if corner1.x <= corner2.x { corner2.x } else { corner1.x },
        }
    }

    /// The extent along the axis that a split of the given orientation cuts.
    pub open spec fn extent(self, orientation: Orientation) -> int {
        match orientation {
            Orientation::Horizontal => self.spec_width(),
            Orientation::Vertical => self.spec_height(),
        }
    }

    /// Whether the cut that lies `partition` away from the left edge (horizontal) or from
    /// the top edge (vertical) is at a representable position.
    pub open spec fn partition_fits(self, orientation: Orientation, partition: int) -> bool {
        match orientation {
            Orientation::Horizontal => i32::MIN <= self.left + partition <= i32::MAX,
            Orientation::Vertical => i32::MIN <= self.top + partition <= i32::MAX,
        }
    }

    /// The two parts into which the cut divides the rectangle: for a horizontal split the
    /// left part and then the right part, for a vertical split the part from the cut to the
    /// bottom edge and then the part from the top edge to the cut.
    pub open spec fn spec_partition(self, orientation: Orientation, partition: int) -> (
        Rect,
        Rect,
    ) {
        match orientation {
            Orientation::Horizontal => (
                Rect { right: (self.left + partition) as i32, ..self },
                Rect { left: (self.left + partition) as i32, ..self },
            ),
            Orientation::Vertical => (
                Rect { top: (self.top + partition) as i32, ..self },
                Rect { bottom: (self.top + partition) as i32, ..self },
            ),
        }
    }

    /// The number of columns that a walk of the rectangle goes through: a rectangle without
    /// columns is walked as if it had one.
    pub open spec fn walk_width(self) -> int {
        if self.spec_width() < 1 {
            1
        } else {
            self.spec_width()
        }
    }

    /// The number of rows that a walk of the rectangle goes through: a rectangle without
    /// rows is walked as if it had one.
    pub open spec fn walk_height(self) -> int {
        if self.spec_height() < 1 {
            1
        } else {
            self.spec_height()
        }
    }

    /// The coordinates that a walk of the rectangle visits: row by row from the top, each
    /// row from the left. For a rectangle with at least one row and one column these are
    /// the coordinates inside it.
    pub open spec fn coords(self) -> Seq<Coord> {
        Seq::new(
            (self.walk_width() * self.walk_height()) as nat,
            |i: int|
                Coord {
                    x: (self.left + i % self.walk_width()) as i32,
                    y: (self.top + i / self.walk_width()) as i32,
                },
        )
    }

    /// Constructs a Rect with one corner at (0, 0) and the opposite one at `dimensions`.
    pub fn new(dimensions: Coord) -> (rect: Self)
        ensures
            rect == Self::spec_with_corners(Coord { x: 0, y: 0 }, dimensions),
            rect.wf(),
    {
        Self::with_corners(Coord::new(0, 0), dimensions)
    }

    /// Constructs a Rect, given _any_ two corners.
    ///
    /// It is advisable to use this over creating a Rect literal, because this will prevent
    /// invalid states, such as `right` being less than `left`.
    pub fn with_corners(corner1: Coord, corner2: Coord) -> (rect: Self)
        ensures
            rect == Self::spec_with_corners(corner1, corner2),
            rect.wf(),
    {
        Self {
            // Top is less than bottom to match other graphics applications.
            top: if corner1.y <= corner2.y { corner1.y } else { corner2.y },
            bottom: if corner1.y <= corner2.y { corner2.y } else { corner1.y },
            left: if corner1.x <= corner2.x { corner1.x } else { corner2.x },
            right: if corner1.x <= corner2.x { corner2.x } else { corner1.x },
        }
    }

    pub fn dimensions(&self) -> (dimensions: Coord)
        requires
            i32::MIN <= self.spec_width() <= i32::MAX,
            i32::MIN <= self.spec_height() <= i32::MAX,
        ensures
            dimensions.x == self.spec_width(),
            dimensions.y == self.spec_height(),
    {
        Coord::new(self.width(), self.height())
    }

    pub fn offset(&self) -> (offset: Coord)
        ensures
            offset == (Coord { x: self.left, y: self.top }),
    {
        Coord::new(self.left, self.top)
    }

    pub fn area(&self) -> (area: i32)
        requires
            i32::MIN <= self.spec_width() <= i32::MAX,
            i32::MIN <= self.spec_height() <= i32::MAX,
            i32::MIN <= self.spec_area() <= i32::MAX,
        ensures
            area == self.spec_area(),
    {
        self.width() * self.height()
    }

    pub fn width(&self) -> (width: i32)
        requires
            i32::MIN <= self.spec_width() <= i32::MAX,
        ensures
            width == self.spec_width(),
    {
        self.right - self.left
    }

    pub fn height(&self) -> (height: i32)
        requires
            i32::MIN <= self.spec_height() <= i32::MAX,
        ensures
            height == self.spec_height(),
    {
        self.bottom - self.top
    }

    /// Cuts the rectangle in two along the row that lies `partition` below the top edge.
    pub fn partition_vertical(&self, partition: i32) -> (parts: (Self, Self))
        requires
            self.partition_fits(Orientation::Vertical, partition as int),
        ensures
            parts == self.spec_partition(Orientation::Vertical, partition as int),
    {
        let absolute_partition = self.top + partition;
        (
            // The part below the cut.
            Self {
                top: absolute_partition,
                bottom: self.bottom,
                left: self.left,
                right: self.right,
            },
            // The part above the cut.
            Self {
                top: self.top,
                bottom: absolute_partition,
                left: self.left,
                right: self.right,
            },
        )
    }

    /// Cuts the rectangle in two along the column that lies `partition` right of the left
    /// edge.
    pub fn partition_horizontal(&self, partition: i32) -> (parts: (Self, Self))
        requires
            self.partition_fits(Orientation::Horizontal, partition as int),
        ensures
            parts == self.spec_partition(Orientation::Horizontal, partition as int),
    {
        let absolute_partition = self.left + partition;
        (
            // Left partition
            Self {
                top: self.top,
                bottom: self.bottom,
                left: self.left,
                right: absolute_partition,
            },
            // Right partition
            Self {
                top: self.top,
                bottom: self.bottom,
                left: absolute_partition,
                right: self.right,
            },
        )
    }

    /// Executes a binary space partition with the given splitter algorithm.
    ///
    /// The splitter is asked about this rectangle and `orientation`. Where it answers with a
    /// cut and an orientation, the rectangle becomes a node, and the two parts are
    /// partitioned in turn, with that orientation; where it answers `None`, the rectangle
    /// becomes a leaf. The splitter has to see to it that this comes to an end: there must
    /// be a measure that every cut lowers for both parts (see [`splits_ranked`]).
    pub fn bsp<F: Fn(Rect, Orientation) -> Option<(i32, Orientation)>>(
        &self,
        orientation: Orientation,
        splitter: &F,
    ) -> (tree: BspTree)
        requires
            exists|measure: spec_fn(Rect, Orientation) -> int|
                splits_ranked(*splitter, measure) && #[trigger] measure(*self, orientation) >= 0,
        ensures
            tree.is_bsp_of(*self, orientation, *splitter),
            tree.root() == *self,
    {
        let ghost measure = choose|measure: spec_fn(Rect, Orientation) -> int|
            splits_ranked(*splitter, measure) && #[trigger] measure(*self, orientation) >= 0;
        self.bsp_ranked(orientation, splitter, Ghost(measure))
    }

    /// The partition itself, with the measure that shows that it ends.
    fn bsp_ranked<F: Fn(Rect, Orientation) -> Option<(i32, Orientation)>>(
        &self,
        orientation: Orientation,
        splitter: &F,
        Ghost(measure): Ghost<spec_fn(Rect, Orientation) -> int>,
    ) -> (tree: BspTree)
        requires
            splits_ranked(*splitter, measure),
            measure(*self, orientation) >= 0,
        ensures
            tree.is_bsp_of(*self, orientation, *splitter),
            tree.root() == *self,
        decreases measure(*self, orientation),
    {
        match splitter(*self, orientation) {
            Some((partition, next_orientation)) => {
                let (left_or_bottom, right_or_top) = match orientation {
                    Orientation::Horizontal => self.partition_horizontal(partition),
                    Orientation::Vertical => self.partition_vertical(partition),
                };
                let first = left_or_bottom.bsp_ranked(next_orientation, splitter, Ghost(measure));
                let second = right_or_top.bsp_ranked(next_orientation, splitter, Ghost(measure));
                BspTree::Node(*self, Box::new(first), Box::new(second))
            },
            None => BspTree::Leaf(*self),
        }
    }

    pub fn translate(&self, coord: Coord) -> (rect: Self)
        requires
            i32::MIN <= self.top + coord.y <= i32::MAX,
            i32::MIN <= self.bottom + coord.y <= i32::MAX,
            i32::MIN <= self.left + coord.x <= i32::MAX,
            i32::MIN <= self.right + coord.x <= i32::MAX,
        ensures
            rect.top == self.top + coord.y,
            rect.bottom == self.bottom + coord.y,
            rect.left == self.left + coord.x,
            rect.right == self.right + coord.x,
            forall|c: Coord|
                c.add_fits(coord) ==> (self.spec_contains(c) <==> #[trigger] rect.spec_contains(
                    c.spec_add(coord),
                )),
    {
        Self {
            bottom: self.bottom + coord.y,
            left: self.left + coord.x,
            top: self.top + coord.y,
            right: self.right + coord.x,
        }
    }

    pub fn contains(&self, coord: Coord) -> (inside: bool)
        ensures
            inside == self.spec_contains(coord),
    {
        coord.x >= self.left && coord.x < self.right && coord.y >= self.top && coord.y
            < self.bottom
    }

    pub fn x_range(&self) -> (range: Range<i32>)
        ensures
            range.start == self.left,
            range.end == self.right,
    {
        self.left..self.right
    }

    pub fn y_range(&self) -> (range: Range<i32>)
        ensures
            range.start == self.top,
            range.end == self.bottom,
    {
        self.top..self.bottom
    }

    /// Walks the rectangle row by row.
    pub fn iter(&self) -> (it: RectIter)
        ensures
            it.wf(),
            it.remaining() == self.coords(),
    {
        let next_coord = Coord::new(self.left, self.top);
        let it = RectIter { rect: *self, next_coord, is_finished: false };
        proof {
            assert(it.index() == 0) by (nonlinear_arith)
                requires
                    it.index() == (self.top - self.top) * self.walk_width() + (self.left
                        - self.left),
            ;
            assert(self.coords().skip(0) =~= self.coords());
        }
        it
    }
}

/// Iterates row by row from the top-left corner to the bottom-right corner.
pub struct RectIter {
    rect: Rect,
    next_coord: Coord,
    is_finished: bool,
}

impl RectIter {
    /// The place of `next_coord` in the walk.
    closed spec fn index(&self) -> int {
        (self.next_coord.y - self.rect.top) * self.rect.walk_width() + (self.next_coord.x
            - self.rect.left)
    }
}

impl CoordIter for RectIter {
    closed spec fn wf(&self) -> bool {
        !self.is_finished ==> {
            &&& 0 <= self.next_coord.x - self.rect.left < self.rect.walk_width()
            &&& 0 <= self.next_coord.y - self.rect.top < self.rect.walk_height()
        }
    }

    closed spec fn remaining(&self) -> Seq<Coord> {
        if self.is_finished {
            Seq::empty()
        } else {
            self.rect.coords().skip(self.index())
        }
    }

    fn next(&mut self) -> (r: Option<Coord>) {
        if self.is_finished {
            return None;
        }
        // We return the coordinate computed on the previous iteration.

        let next_coord = self.next_coord;
        let ghost w = self.rect.walk_width();
        let ghost h = self.rect.walk_height();
        let ghost col = self.next_coord.x - self.rect.left;
        let ghost row = self.next_coord.y - self.rect.top;
        let ghost k = self.index();
        proof {
            lemma_cell_index(w, h, col, row);
            assert(self.rect.coords()[k] == next_coord);
        }

        if self.next_coord.x < self.rect.right && self.next_coord.x + 1 < self.rect.right {
            self.next_coord.x = self.next_coord.x + 1;
            proof {
                lemma_cell_index(w, h, col + 1, row);
            }
        } else if self.next_coord.y < self.rect.bottom && self.next_coord.y + 1
            < self.rect.bottom {
            self.next_coord.x = self.rect.left;
            self.next_coord.y = self.next_coord.y + 1;
            proof {
                lemma_cell_index(w, h, 0, row + 1);
                assert((row + 1) * w + 0 == row * w + col + 1) by (nonlinear_arith)
                    requires
                        col == w - 1,
                ;
            }
        } else {
            // We've passed the last element.
            self.is_finished = true;
            proof {
                assert(k + 1 == w * h) by (nonlinear_arith)
                    requires
                        k == row * w + col,
                        col == w - 1,
                        row == h - 1,
                ;
            }
        }
        proof {
            assert(old(self).remaining().skip(1) =~= self.remaining());
        }
        Some(next_coord)
    }
}

/// In a table of `w` columns and `h` rows that is numbered row by row, the cell in column
/// `col` of row `row` has the number `row * w + col`, and no other cell has it.
pub proof fn lemma_cell_index(w: int, h: int, col: int, row: int)
    requires
        0 <= col < w,
        0 <= row < h,
    ensures
        0 <= row * w + col < w * h,
        (row * w + col) % w == col,
        (row * w + col) / w == row,
{
    assert(0 <= row * w && row * w + w <= w * h) by (nonlinear_arith)
        requires
            0 <= row < h,
            0 < w,
    ;
    vstd::arithmetic::div_mod::lemma_fundamental_div_mod_converse(row * w + col, w, row, col);
}

/// In a table of `w` columns and `h` rows that is numbered row by row, the cell with the
/// number `i` stands in column `i % w` of row `i / w`.
pub proof fn lemma_index_cell(w: int, h: int, i: int)
    requires
        0 < w,
        0 <= i < w * h,
    ensures
        0 <= i % w < w,
        0 <= i / w < h,
        (i / w) * w + i % w == i,
{
    vstd::arithmetic::div_mod::lemma_fundamental_div_mod(i, w);
    vstd::arithmetic::div_mod::lemma_mod_bound(i, w);
    let q = i / w;
    let r = i % w;
    assert(q * w == w * q) by (nonlinear_arith);
    assert(0 <= q < h) by (nonlinear_arith)
        requires
            i == w * q + r,
            0 <= r < w,
            0 <= i < w * h,
            0 < w,
    ;
}

/// A rectangle with at least one row and one column is walked through exactly the
/// coordinates inside it, each of them once.
pub proof fn lemma_walk_covers(rect: Rect)
    requires
        rect.spec_width() >= 1,
        rect.spec_height() >= 1,
    ensures
        rect.coords().len() == rect.spec_area(),
        rect.coords().no_duplicates(),
        forall|c: Coord| rect.spec_contains(c) <==> rect.coords().contains(c),
        forall|c: Coord| #[trigger]
            rect.spec_contains(c) ==> rect.coords()[(c.y - rect.top) * rect.spec_width() + (c.x
                - rect.left)] == c,
{
    let w = rect.spec_width();
    let h = rect.spec_height();
    let s = rect.coords();
    assert(w * h >= 1) by (nonlinear_arith)
        requires
            w >= 1,
            h >= 1,
    ;
    assert(w * h == h * w) by (nonlinear_arith);
    assert forall|i: int, j: int| 0 <= i < s.len() && 0 <= j < s.len() && i != j implies s[i]
        != s[j] by {
        lemma_index_cell(w, h, i);
        lemma_index_cell(w, h, j);
    }
    assert forall|c: Coord| rect.spec_contains(c) implies s.contains(c) && s[(c.y - rect.top)
        * w + (c.x - rect.left)] == c by {
        lemma_cell_index(w, h, c.x - rect.left, c.y - rect.top);
        let i = (c.y - rect.top) * w + (c.x - rect.left);
        assert(s[i] == c);
    }
    assert forall|c: Coord| s.contains(c) implies rect.spec_contains(c) by {
        let i = choose|i: int| 0 <= i < s.len() && s[i] == c;
        lemma_index_cell(w, h, i);
    }
}

#[derive(Debug, Clone, Copy, PartialEq, Eq, Structural)]
pub enum Orientation {
    Horizontal,
    Vertical,
}

impl Orientation {
    /// The other orientation.
    pub open spec fn spec_orthogonal(self) -> Orientation {
        match self {
            Orientation::Horizontal => Orientation::Vertical,
            Orientation::Vertical => Orientation::Horizontal,
        }
    }

    pub fn orthogonal(&self) -> (other: Self)
        ensures
            other == self.spec_orthogonal(),
    {
        match self {
            Orientation::Horizontal => Orientation::Vertical,
            Orientation::Vertical => Orientation::Horizontal,
        }
    }
}

/// What a partition needs from its splitter in order to end: on every rectangle on which
/// `measure` is not negative the splitter can be called, every cut that it may answer with is
/// at a representable position, and for both parts `measure` is lower, and not negative.
pub open spec fn splits_ranked<F: Fn(Rect, Orientation) -> Option<(i32, Orientation)>>(
    splitter: F,
    measure: spec_fn(Rect, Orientation) -> int,
) -> bool {
    forall|rect: Rect, orientation: Orientation| #[trigger]
        measure(rect, orientation) >= 0 ==> {
            &&& call_requires(splitter, (rect, orientation))
            &&& forall|partition: i32, next: Orientation| #[trigger]
                call_ensures(splitter, (rect, orientation), Some((partition, next))) ==> {
                    &&& rect.partition_fits(orientation, partition as int)
                    &&& 0 <= measure(rect.spec_partition(orientation, partition as int).0, next)
                        < measure(rect, orientation)
                    &&& 0 <= measure(rect.spec_partition(orientation, partition as int).1, next)
                        < measure(rect, orientation)
                }
        }
}

/// Whether every cut that the splitter may answer with lies on the rectangle: not before
/// its first row or column and not beyond its last.
pub open spec fn splits_inside<F: Fn(Rect, Orientation) -> Option<(i32, Orientation)>>(
    splitter: F,
) -> bool {
    forall|rect: Rect, orientation: Orientation, partition: i32, next: Orientation| #[trigger]
        call_ensures(splitter, (rect, orientation), Some((partition, next))) ==> 0 <= partition
            <= rect.extent(orientation)
}

/// The areas of `rects`, added up.
pub open spec fn total_area(rects: Seq<Rect>) -> int
    decreases rects.len(),
{
    if rects.len() == 0 {
        0
    } else {
        total_area(rects.drop_last()) + rects.last().spec_area()
    }
}

/// The tree of rectangles that a binary space partition leaves behind.
#[derive(Debug)]
pub enum BspTree {
    Node(Rect, Box<BspTree>, Box<BspTree>),
    Leaf(Rect),
}

impl BspTree {
    /// The rectangle that the tree divides.
    pub open spec fn root(self) -> Rect {
        match self {
            BspTree::Node(rect, _, _) => rect,
            BspTree::Leaf(rect) => rect,
        }
    }

    /// The rectangles at the leaves, from left to right.
    pub open spec fn spec_leaves(self) -> Seq<Rect>
        decreases self,
    {
        match self {
            BspTree::Node(_, first, second) => first.spec_leaves() + second.spec_leaves(),
            BspTree::Leaf(rect) => seq![rect],
        }
    }

    /// Whether the tree is one that the partition of `rect` with `splitter` can give: at
    /// each leaf the splitter may have answered `None`, at each node it may have answered
    /// with a cut by which the rectangle falls into the roots of the two subtrees.
    pub open spec fn is_bsp_of<F: Fn(Rect, Orientation) -> Option<(i32, Orientation)>>(
        self,
        rect: Rect,
        orientation: Orientation,
        splitter: F,
    ) -> bool
        decreases self,
    {
        match self {
            BspTree::Leaf(root) => root == rect && call_ensures(
                splitter,
                (rect, orientation),
                None::<(i32, Orientation)>,
            ),
            BspTree::Node(root, first, second) => root == rect && exists|
                partition: i32,
                next: Orientation,
            |
                {
                    &&& #[trigger] call_ensures(
                        splitter,
                        (rect, orientation),
                        Some((partition, next)),
                    )
                    &&& first.is_bsp_of(
                        rect.spec_partition(orientation, partition as int).0,
                        next,
                        splitter,
                    )
                    &&& second.is_bsp_of(
                        rect.spec_partition(orientation, partition as int).1,
                        next,
                        splitter,
                    )
                },
        }
    }

    /// The leaves of the tree, in left-to-right, depth-first order.
    pub fn leaves(&self) -> (leaves: Vec<Rect>)
        ensures
            leaves@ == self.spec_leaves(),
        decreases self,
    {
        match self {
            BspTree::Node(_, first, second) => {
                let mut leaves = first.leaves();
                let mut rest = second.leaves();
                leaves.append(&mut rest);
                leaves
            },
            BspTree::Leaf(rect) => {
                let mut leaves = Vec::new();
                leaves.push(*rect);
                assert(leaves@ =~= seq![*rect]);
                leaves
            },
        }
    }
}

/// The area of a list of rectangles is the area of its front part and that of its back
/// part together.
pub proof fn lemma_total_area_concat(front: Seq<Rect>, back: Seq<Rect>)
    ensures
        total_area(front + back) == total_area(front) + total_area(back),
    decreases back.len(),
{
    if back.len() == 0 {
        assert(front + back =~= front);
    } else {
        assert((front + back).drop_last() =~= front + back.drop_last());
        lemma_total_area_concat(front, back.drop_last());
    }
}

/// A cut that lies on the rectangle divides it into two rectangles that tile it: their
/// areas add up to its area, and each coordinate inside it is inside exactly one of them.
pub proof fn lemma_partition_tiles(rect: Rect, orientation: Orientation, partition: int)
    requires
        rect.wf(),
        0 <= partition <= rect.extent(orientation),
    ensures
        rect.spec_partition(orientation, partition).0.wf(),
        rect.spec_partition(orientation, partition).1.wf(),
        rect.spec_partition(orientation, partition).0.spec_area() + rect.spec_partition(
            orientation,
            partition,
        ).1.spec_area() == rect.spec_area(),
        forall|c: Coord|
            rect.spec_contains(c) <==> (#[trigger] rect.spec_partition(
                orientation,
                partition,
            ).0.spec_contains(c) || rect.spec_partition(orientation, partition).1.spec_contains(
                c,
            )),
        forall|c: Coord|
            !(#[trigger] rect.spec_partition(orientation, partition).0.spec_contains(c)
                && rect.spec_partition(orientation, partition).1.spec_contains(c)),
{
    let w = rect.spec_width();
    let h = rect.spec_height();
    assert(partition * h + (w - partition) * h == w * h) by (nonlinear_arith);
    assert(w * partition + w * (h - partition) == w * h) by (nonlinear_arith);
}

/// Where every cut of the splitter lies on the rectangle that it cuts, the leaves of a
/// binary space partition tile the rectangle that was partitioned: their areas add up to
/// its area, every coordinate inside it is inside a leaf, every coordinate inside a leaf is
/// inside it, and no coordinate is inside two leaves.
pub proof fn lemma_bsp_leaves_tile<F: Fn(Rect, Orientation) -> Option<(i32, Orientation)>>(
    tree: BspTree,
    rect: Rect,
    orientation: Orientation,
    splitter: F,
)
    requires
        rect.wf(),
        splits_inside(splitter),
        tree.is_bsp_of(rect, orientation, splitter),
    ensures
        total_area(tree.spec_leaves()) == rect.spec_area(),
        forall|i: int|
            0 <= i < tree.spec_leaves().len() ==> (#[trigger] tree.spec_leaves()[i]).wf(),
        forall|c: Coord|
            rect.spec_contains(c) <==> exists|i: int|
                0 <= i < tree.spec_leaves().len() && #[trigger] tree.spec_leaves()[i].spec_contains(
                    c,
                ),
        forall|i: int, j: int, c: Coord|
            0 <= i < j < tree.spec_leaves().len() ==> !(#[trigger] tree.spec_leaves()[i].spec_contains(
                c,
            ) && #[trigger] tree.spec_leaves()[j].spec_contains(c)),
    decreases tree,
{
    match tree {
        BspTree::Leaf(root) => {
            let leaves = tree.spec_leaves();
            assert(leaves.drop_last() =~= Seq::<Rect>::empty());
            assert(total_area(leaves.drop_last()) == 0);
            assert forall|c: Coord| rect.spec_contains(c) implies exists|i: int|
                0 <= i < leaves.len() && #[trigger] leaves[i].spec_contains(c) by {
                assert(leaves[0].spec_contains(c));
            }
        },
        BspTree::Node(root, first, second) => {
            let (partition, next) = choose|partition: i32, next: Orientation|
                {
                    &&& #[trigger] call_ensures(
                        splitter,
                        (rect, orientation),
                        Some((partition, next)),
                    )
                    &&& first.is_bsp_of(
                        rect.spec_partition(orientation, partition as int).0,
                        next,
                        splitter,
                    )
                    &&& second.is_bsp_of(
                        rect.spec_partition(orientation, partition as int).1,
                        next,
                        splitter,
                    )
                };
            let part0 = rect.spec_partition(orientation, partition as int).0;
            let part1 = rect.spec_partition(orientation, partition as int).1;
            lemma_partition_tiles(rect, orientation, partition as int);
            lemma_bsp_leaves_tile(*first, part0, next, splitter);
            lemma_bsp_leaves_tile(*second, part1, next, splitter);
            let a = first.spec_leaves();
            let b = second.spec_leaves();
            let leaves = tree.spec_leaves();
            assert(leaves == a + b);
            lemma_total_area_concat(a, b);
            assert forall|i: int| 0 <= i < leaves.len() implies (#[trigger] leaves[i]).wf() by {
                if i < a.len() {
                    assert(leaves[i] == a[i]);
                } else {
                    assert(leaves[i] == b[i - a.len()]);
                }
            }
            assert forall|c: Coord| rect.spec_contains(c) implies exists|i: int|
                0 <= i < leaves.len() && #[trigger] leaves[i].spec_contains(c) by {
                if part0.spec_contains(c) {
                    let i = choose|i: int| 0 <= i < a.len() && #[trigger] a[i].spec_contains(c);
                    assert(leaves[i] == a[i]);
                } else {
                    assert(part1.spec_contains(c));
                    let i = choose|i: int| 0 <= i < b.len() && #[trigger] b[i].spec_contains(c);
                    assert(leaves[a.len() + i] == b[i]);
                }
            }
            assert forall|c: Coord|
                (exists|i: int| 0 <= i < leaves.len() && #[trigger] leaves[i].spec_contains(c))
                implies rect.spec_contains(c) by {
                let i = choose|i: int|
                    0 <= i < leaves.len() && #[trigger] leaves[i].spec_contains(c);
                if i < a.len() {
                    assert(a[i].spec_contains(c));
                    assert(part0.spec_contains(c));
                } else {
                    assert(b[i - a.len()].spec_contains(c));
                    assert(part1.spec_contains(c));
                }
            }
            assert forall|i: int, j: int, c: Coord| 0 <= i < j < leaves.len() implies !(
            #[trigger] leaves[i].spec_contains(c) && #[trigger] leaves[j].spec_contains(c)) by {
                if leaves[i].spec_contains(c) && leaves[j].spec_contains(c) {
                    if j < a.len() {
                        assert(leaves[i] == a[i] && leaves[j] == a[j]);
                    } else if i >= a.len() {
                        assert(leaves[i] == b[i - a.len()] && leaves[j] == b[j - a.len()]);
                    } else {
                        assert(a[i].spec_contains(c));
                        assert(b[j - a.len()].spec_contains(c));
                        assert(part0.spec_contains(c));
                        assert(part1.spec_contains(c));
                    }
                }
            }
        },
    }
}

} // verus!
