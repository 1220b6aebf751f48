use crate::coord::Coord;
use crate::patterns::CoordIter;
use vstd::prelude::*;

verus! {

/// The sign of `v`: -1, 0 or 1.
pub open spec fn spec_signum(v: int) -> int {
    if v > 0 {
        1
    } else if v < 0 {
        -1
    } else {
        0
    }
}

/// The absolute value of `v`.
pub open spec fn spec_abs(v: int) -> int {
    if v < 0 {
        -v
    } else {
        v
    }
}

/// A straight segment between two coordinates, both included.
#[derive(Debug, Clone, Copy, PartialEq, Eq, Structural)]
pub struct Line {
    pub from: Coord,
    pub to: Coord,
}

impl Line {
    /// The horizontal distance from `from` to `to`, signed.
    pub open spec fn dx(self) -> int {
        self.to.x - self.from.x
    }

    /// The vertical distance from `from` to `to`, signed.
    pub open spec fn dy(self) -> int {
        self.to.y - self.from.y
    }

    /// Whether the line runs further horizontally than vertically. The major axis is the
    /// one with the greater distance; on a tie it is the vertical one.
    pub open spec fn x_is_major(self) -> bool {
        spec_abs(self.dx()) > spec_abs(self.dy())
    }

    /// The distance along the major axis.
    pub open spec fn major_len(self) -> int {
        if self.x_is_major() {
            spec_abs(self.dx())
        } else {
            spec_abs(self.dy())
        }
    }

    /// The distance along the minor axis.
    pub open spec fn minor_len(self) -> int {
        if self.x_is_major() {
            spec_abs(self.dy())
        } else {
            spec_abs(self.dx())
        }
    }

    /// How many steps along the minor axis the line has taken after `k` steps along the
    /// major axis. The error term starts at half the major distance, loses the minor
    /// distance with every major step, and whenever it falls below zero the line takes one
    /// minor step and the term gains the major distance: after `k` major steps that has
    /// happened this many times.
    pub open spec fn minor_steps(self, k: int) -> int {
        if self.major_len() == 0 {
            0
        } else {
            (2 * self.minor_len() * k + self.major_len() - 1) / (2 * self.major_len())
        }
    }

    /// The coordinate of the line after `k` steps along the major axis.
    pub open spec fn point(self, k: int) -> Coord {
        let m = self.minor_steps(k);
        if self.x_is_major() {
            self.from.offset_by(k * spec_signum(self.dx()), m * spec_signum(self.dy()))
        } else {
            self.from.offset_by(m * spec_signum(self.dx()), k * spec_signum(self.dy()))
        }
    }

    /// The coordinates of the line, from `from` to `to`.
    pub open spec fn points(self) -> Seq<Coord> {
        Seq::new((self.major_len() + 1) as nat, |k: int| self.point(k))
    }

    /// Whether the distances between the endpoints, and their absolute values, are
    /// representable.
    pub open spec fn fits(self) -> bool {
        &&& i32::MIN < self.dx() <= i32::MAX
        &&& i32::MIN < self.dy() <= i32::MAX
    }

    pub fn new(from: Coord, to: Coord) -> (line: Self)
        ensures
            line.from == from,
            line.to == to,
    {
        Self { from, to }
    }

    /// Traces Bresenham's line algorithm between `from` and `to`.
    pub fn iter(&self) -> (it: LineIter)
        requires
            self.fits(),
        ensures
            it.wf(),
            it.remaining() == self.points(),
    {
        proof {
            lemma_minor_steps(*self, 0);
            lemma_line_ends(*self);
        }
        let delta = self.to - self.from;
        let x_step = Coord::new(signum(delta.x), 0);
        let y_step = Coord::new(0, signum(delta.y));
        let x_is_major = magnitude(delta.x) > magnitude(delta.y);

        let (major_step, minor_step) = if x_is_major {
            (x_step, y_step)
        } else {
            (y_step, x_step)
        };

        let (major_fault, minor_fault) = if x_is_major {
            (magnitude(delta.x), magnitude(delta.y))
        } else {
            (magnitude(delta.y), magnitude(delta.x))
        };

        let it = LineIter {
            end_coord: self.to,
            next_coord: self.from,
            major_step,
            minor_step,
            fault: major_fault as i64,
            major_fault,
            minor_fault,
            is_finished: false,
            line: Ghost(*self),
            taken: Ghost(0),
        };
        proof {
            assert(it.remaining() =~= self.points());
        }
        it
    }
}

/// The sign of `v`.
fn signum(v: i32) -> (s: i32)
    ensures
        s == spec_signum(v as int),
{
    if v > 0 {
        1
    } else if v < 0 {
        -1
    } else {
        0
    }
}

/// The absolute value of `v`.
fn magnitude(v: i32) -> (m: i32)
    requires
        v != i32::MIN,
    ensures
        m == spec_abs(v as int),
{
    if v < 0 {
        -v
    } else {
        v
    }
}

/// Walks a line one coordinate at a time.
pub struct LineIter {
    end_coord: Coord,
    next_coord: Coord,
    /// Added to the coordinate every iteration.
    major_step: Coord,
    /// Added to the coordinate when `fault` falls below zero.
    minor_step: Coord,
    /// Twice the error term, so that it starts at a whole number.
    fault: i64,
    /// Amount to add to the error term when it falls below zero.
    major_fault: i32,
    /// Amount to subtract from the error term every iteration.
    minor_fault: i32,
    is_finished: bool,
    /// The line that is walked.
    line: Ghost<Line>,
    /// The number of steps taken along the major axis.
    taken: Ghost<int>,
}

impl LineIter {
    /// The steps that the walk has taken along the minor axis.
    closed spec fn minor_taken(&self) -> int {
        self.line@.minor_steps(self.taken@)
    }
}

impl CoordIter for LineIter {
    closed spec fn wf(&self) -> bool {
        let line = self.line@;
        let k = self.taken@;
        &&& line.fits()
        &&& self.end_coord == line.to
        &&& 0 <= k <= line.major_len()
        &&& self.is_finished ==> k == line.major_len()
        &&& self.next_coord == line.point(k)
        &&& self.major_fault == line.major_len()
        &&& self.minor_fault == line.minor_len()
        &&& line.x_is_major() ==> {
            &&& self.major_step == (Coord { x: spec_signum(line.dx()) as i32, y: 0 })
            &&& self.minor_step == (Coord { x: 0, y: spec_signum(line.dy()) as i32 })
        }
        &&& !line.x_is_major() ==> {
            &&& self.major_step == (Coord { x: 0, y: spec_signum(line.dy()) as i32 })
            &&& self.minor_step == (Coord { x: spec_signum(line.dx()) as i32, y: 0 })
        }
        &&& self.fault == line.major_len() - 2 * line.minor_len() * k + 2 * line.major_len()
            * self.minor_taken()
    }

    closed spec fn remaining(&self) -> Seq<Coord> {
        if self.is_finished {
            Seq::empty()
        } else {
            self.line@.points().skip(self.taken@)
        }
    }

    fn next(&mut self) -> (r: Option<Coord>) {
        if self.is_finished {
            return None;
        }
        let ghost line = self.line@;
        let ghost k = self.taken@;
        proof {
            lemma_minor_steps(line, k);
            lemma_point_in_box(line, k);
            lemma_line_ends(line);
        }
        if self.next_coord == self.end_coord {
            self.is_finished = true;
            proof {
                self.taken@ = line.major_len();
                assert(old(self).remaining() =~= seq![self.end_coord]);
            }
            return Some(self.end_coord);
        }
        // We return the coordinate computed on the previous iteration.

        let return_coord = self.next_coord;
        proof {
            lemma_minor_steps(line, k + 1);
            lemma_point_in_box(line, k + 1);
            lemma_step(line, k);
        }
        self.next_coord = Coord::new(
            self.next_coord.x + self.major_step.x,
            self.next_coord.y + self.major_step.y,
        );
        self.fault = self.fault - 2 * (self.minor_fault as i64);
        if self.fault < 0 {
            self.fault = self.fault + 2 * (self.major_fault as i64);
            self.next_coord = Coord::new(
                self.next_coord.x + self.minor_step.x,
                self.next_coord.y + self.minor_step.y,
            );
        }
        proof {
            self.taken@ = k + 1;
            assert(old(self).remaining().skip(1) =~= self.remaining());
        }
        Some(return_coord)
    }
}

/// The error term after `k` steps along the major axis, doubled: it stays in the range
/// that the walk keeps it in, and that pins down the number of minor steps.
proof fn lemma_minor_steps(line: Line, k: int)
    requires
        0 <= k <= line.major_len(),
    ensures
        0 <= line.minor_steps(k) <= k,
        line.minor_steps(k) <= line.minor_len(),
        line.major_len() > 0 ==> 0 <= line.major_len() - 2 * line.minor_len() * k + 2
            * line.major_len() * line.minor_steps(k) < 2 * line.major_len(),
        line.minor_steps(0) == 0,
        line.minor_steps(line.major_len()) == line.minor_len(),
{
    let major = line.major_len();
    let minor = line.minor_len();
    if major > 0 {
        let x = 2 * minor * k + major - 1;
        let d = 2 * major;
        vstd::arithmetic::div_mod::lemma_fundamental_div_mod(x, d);
        vstd::arithmetic::div_mod::lemma_mod_bound(x, d);
        let q = x / d;
        assert(d * q == 2 * major * q) by (nonlinear_arith)
            requires
                d == 2 * major,
        ;
        assert(0 <= 2 * minor * k <= 2 * major * k && 2 * minor * k <= 2 * minor * major)
            by (nonlinear_arith)
            requires
                0 <= minor <= major,
                0 <= k <= major,
        ;
        assert(0 <= q <= k && q <= minor) by (nonlinear_arith)
            requires
                x == d * q + x % d,
                0 <= x % d < d,
                d == 2 * major,
                major > 0,
                x == 2 * minor * k + major - 1,
                0 <= 2 * minor * k <= 2 * major * k,
                2 * minor * k <= 2 * minor * major,
                0 <= minor <= major,
                0 <= k,
        ;
        vstd::arithmetic::div_mod::lemma_fundamental_div_mod_converse_div(
            major - 1,
            d,
            0,
            major - 1,
        );
        assert(2 * minor * 0 + major - 1 == major - 1);
        assert(2 * minor * major + major - 1 == minor * d + (major - 1)) by (nonlinear_arith)
            requires
                d == 2 * major,
        ;
        vstd::arithmetic::div_mod::lemma_fundamental_div_mod_converse_div(
            2 * minor * major + major - 1,
            d,
            minor,
            major - 1,
        );
    }
}

/// Every coordinate of the line lies in the box that the endpoints span.
proof fn lemma_point_in_box(line: Line, k: int)
    requires
        line.fits(),
        0 <= k <= line.major_len(),
    ensures
        spec_abs(line.point(k).x - line.from.x) <= spec_abs(line.dx()),
        spec_abs(line.point(k).y - line.from.y) <= spec_abs(line.dy()),
        line.x_is_major() ==> line.point(k).x == line.from.x + k * spec_signum(line.dx())
            && line.point(k).y == line.from.y + line.minor_steps(k) * spec_signum(line.dy()),
        !line.x_is_major() ==> line.point(k).y == line.from.y + k * spec_signum(line.dy())
            && line.point(k).x == line.from.x + line.minor_steps(k) * spec_signum(line.dx()),
{
    lemma_minor_steps(line, k);
    let m = line.minor_steps(k);
    let sx = spec_signum(line.dx());
    let sy = spec_signum(line.dy());
    assert(k * sx == if sx == 1 { k } else if sx == -1 { -k } else { 0 }) by (nonlinear_arith)
        requires
            sx == 1 || sx == -1 || sx == 0,
    ;
    assert(k * sy == if sy == 1 { k } else if sy == -1 { -k } else { 0 }) by (nonlinear_arith)
        requires
            sy == 1 || sy == -1 || sy == 0,
    ;
    assert(m * sx == if sx == 1 { m } else if sx == -1 { -m } else { 0 }) by (nonlinear_arith)
        requires
            sx == 1 || sx == -1 || sx == 0,
    ;
    assert(m * sy == if sy == 1 { m } else if sy == -1 { -m } else { 0 }) by (nonlinear_arith)
        requires
            sy == 1 || sy == -1 || sy == 0,
    ;
}

/// The walk is at `to` exactly when it has taken every major step.
proof fn lemma_line_ends(line: Line)
    requires
        line.fits(),
    ensures
        line.point(0) == line.from,
        line.point(line.major_len()) == line.to,
        forall|k: int| 0 <= k < line.major_len() ==> line.point(k) != line.to,
{
    lemma_minor_steps(line, 0);
    lemma_point_in_box(line, 0);
    lemma_minor_steps(line, line.major_len());
    lemma_point_in_box(line, line.major_len());
    let major = line.major_len();
    let minor = line.minor_len();
    let sx = spec_signum(line.dx());
    let sy = spec_signum(line.dy());
    assert(major * sx == if sx == 1 { major } else if sx == -1 { -major } else { 0 })
        by (nonlinear_arith)
        requires
            sx == 1 || sx == -1 || sx == 0,
    ;
    assert(major * sy == if sy == 1 { major } else if sy == -1 { -major } else { 0 })
        by (nonlinear_arith)
        requires
            sy == 1 || sy == -1 || sy == 0,
    ;
    assert(minor * sx == if sx == 1 { minor } else if sx == -1 { -minor } else { 0 })
        by (nonlinear_arith)
        requires
            sx == 1 || sx == -1 || sx == 0,
    ;
    assert(minor * sy == if sy == 1 { minor } else if sy == -1 { -minor } else { 0 })
        by (nonlinear_arith)
        requires
            sy == 1 || sy == -1 || sy == 0,
    ;
    assert forall|k: int| 0 <= k < line.major_len() implies line.point(k) != line.to by {
        lemma_point_in_box(line, k);
        assert(k * sx == if sx == 1 { k } else if sx == -1 { -k } else { 0 })
            by (nonlinear_arith)
            requires
                sx == 1 || sx == -1 || sx == 0,
        ;
        assert(k * sy == if sy == 1 { k } else if sy == -1 { -k } else { 0 })
            by (nonlinear_arith)
            requires
                sy == 1 || sy == -1 || sy == 0,
        ;
    }
}

/// From one major step to the next the line takes a minor step exactly when the error
/// term, less the minor distance, falls below zero.
proof fn lemma_step(line: Line, k: int)
    requires
        line.fits(),
        0 <= k < line.major_len(),
    ensures
        ({
            let fault = line.major_len() - 2 * line.minor_len() * k + 2 * line.major_len()
                * line.minor_steps(k);
            let next = line.major_len() - 2 * line.minor_len() * (k + 1) + 2 * line.major_len()
                * line.minor_steps(k + 1);
            &&& fault - 2 * line.minor_len() < 0 ==> {
                &&& line.minor_steps(k + 1) == line.minor_steps(k) + 1
                &&& next == fault - 2 * line.minor_len() + 2 * line.major_len()
            }
            &&& fault - 2 * line.minor_len() >= 0 ==> {
                &&& line.minor_steps(k + 1) == line.minor_steps(k)
                &&& next == fault - 2 * line.minor_len()
            }
        }),
        ({
            let turn: int = if line.minor_steps(k + 1) == line.minor_steps(k) {
                0
            } else {
                1
            };
            let sx = spec_signum(line.dx());
            let sy = spec_signum(line.dy());
            &&& line.x_is_major() ==> line.point(k + 1).x == line.point(k).x + sx && line.point(
                k + 1,
            ).y == line.point(k).y + turn * sy
            &&& !line.x_is_major() ==> line.point(k + 1).y == line.point(k).y + sy && line.point(
                k + 1,
            ).x == line.point(k).x + turn * sx
        }),
{
    lemma_point_in_box(line, k);
    lemma_point_in_box(line, k + 1);
    let sx = spec_signum(line.dx());
    let sy = spec_signum(line.dy());
    assert((k + 1) * sx == k * sx + sx) by (nonlinear_arith);
    assert((k + 1) * sy == k * sy + sy) by (nonlinear_arith);
    assert((line.minor_steps(k) + 1) * sx == line.minor_steps(k) * sx + sx) by (nonlinear_arith);
    assert((line.minor_steps(k) + 1) * sy == line.minor_steps(k) * sy + sy) by (nonlinear_arith);
    let major = line.major_len();
    let minor = line.minor_len();
    lemma_minor_steps(line, k);
    lemma_minor_steps(line, k + 1);
    let m0 = line.minor_steps(k);
    let m1 = line.minor_steps(k + 1);
    let fault = major - 2 * minor * k + 2 * major * m0;
    let next = major - 2 * minor * (k + 1) + 2 * major * m1;
    assert(2 * minor * (k + 1) == 2 * minor * k + 2 * minor) by (nonlinear_arith);
    assert(next - fault + 2 * minor == 2 * major * (m1 - m0)) by (nonlinear_arith)
        requires
            fault == major - 2 * minor * k + 2 * major * m0,
            next == major - 2 * minor * k - 2 * minor + 2 * major * m1,
    ;
    let d = m1 - m0;
    assert(d == 0 || d == 1) by (nonlinear_arith)
        requires
            next - fault + 2 * minor == 2 * major * d,
            0 <= fault < 2 * major,
            0 <= next < 2 * major,
            0 <= minor <= major,
            major > 0,
    ;
    assert(2 * major * d == if d == 0 { 0 } else { 2 * major }) by (nonlinear_arith)
        requires
            d == 0 || d == 1,
    ;
}

/// A line starts at `from`, ends at `to`, and visits one coordinate for each step along its
/// major axis: no coordinate twice.
pub proof fn lemma_line_endpoints(line: Line)
    requires
        line.fits(),
    ensures
        line.points().len() == line.major_len() + 1,
        line.points().first() == line.from,
        line.points().last() == line.to,
        line.from == line.to ==> line.points() == seq![line.from],
        line.points().no_duplicates(),
{
    lemma_line_ends(line);
    if line.from == line.to {
        assert(line.points() =~= seq![line.from]);
    }
    let points = line.points();
    assert forall|i: int, j: int| 0 <= i < points.len() && 0 <= j < points.len() && i
        != j implies points[i] != points[j] by {
        lemma_point_in_box(line, i);
        lemma_point_in_box(line, j);
        let sx = spec_signum(line.dx());
        let sy = spec_signum(line.dy());
        assert(i * sx == if sx == 1 { i } else if sx == -1 { -i } else { 0 }) by (nonlinear_arith)
            requires
                sx == 1 || sx == -1 || sx == 0,
        ;
        assert(j * sx == if sx == 1 { j } else if sx == -1 { -j } else { 0 }) by (nonlinear_arith)
            requires
                sx == 1 || sx == -1 || sx == 0,
        ;
        assert(i * sy == if sy == 1 { i } else if sy == -1 { -i } else { 0 }) by (nonlinear_arith)
            requires
                sy == 1 || sy == -1 || sy == 0,
        ;
        assert(j * sy == if sy == 1 { j } else if sy == -1 { -j } else { 0 }) by (nonlinear_arith)
            requires
                sy == 1 || sy == -1 || sy == 0,
        ;
    }
}

/// From one coordinate of a line to the next, the line takes one step along its major
/// axis, and one step or none along its minor axis, toward `to`.
pub proof fn lemma_line_steps(line: Line, k: int)
    requires
        line.fits(),
        0 <= k < line.major_len(),
    ensures
        line.x_is_major() ==> line.point(k + 1).x - line.point(k).x == spec_signum(line.dx()) && (
        line.point(k + 1).y == line.point(k).y || line.point(k + 1).y - line.point(k).y
            == spec_signum(line.dy())),
        !line.x_is_major() ==> line.point(k + 1).y - line.point(k).y == spec_signum(line.dy())
            && (line.point(k + 1).x == line.point(k).x || line.point(k + 1).x - line.point(k).x
            == spec_signum(line.dx())),
{
    lemma_step(line, k);
    let sx = spec_signum(line.dx());
    let sy = spec_signum(line.dy());
    assert(1 * sx == sx && 0 * sx == 0 && 1 * sy == sy && 0 * sy == 0);
}

} // verus!
