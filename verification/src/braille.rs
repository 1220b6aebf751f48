use crate::coord::Coord;
use crate::grid::Grid;
use crate::patterns::rect::Rect;
use crate::patterns::CoordIter;
use crate::text::char_from_code;
use crate::vecgrid::VecGrid;
use vstd::prelude::*;

verus! {

/// Unicode code point for the first Braille character.
/// Decimal: 10240
pub const BRAILLE_UNICODE_OFFSET: u32 = 0x2800;

/// The value that the dot at place `i` of a cell adds to the number of its Braille pattern.
///
/// The dots of a cell are counted row by row, each row from the left:
/// ⣾ ⣷ ⣽ ⣯ ⣻ ⣟ ⢿ ⡿.
/// Braille counts the first three rows column by column, and then the last row:
/// ⣾ ⣽ ⣻ ⣷ ⣯ ⣟ ⢿ ⡿.
/// So the dots have the Braille numbers 0, 3, 1, 4, 2, 5, 6, 7, and each adds two to the
/// power of its number.
pub open spec fn spec_dot_weight(i: int) -> int {
    if i == 0 {
        1
    } else if i == 1 {
        8
    } else if i == 2 {
        2
    } else if i == 3 {
        16
    } else if i == 4 {
        4
    } else if i == 5 {
        32
    } else if i == 6 {
        64
    } else if i == 7 {
        128
    } else {
        0
    }
}

/// The dots among the first `n` of `bools` that are set, each with its weight, added up.
pub open spec fn spec_dots_to_byte(bools: Seq<bool>, n: int) -> int
    decreases n,
{
    if n <= 0 {
        0
    } else {
        spec_dots_to_byte(bools, n - 1) + if bools[n - 1] {
            spec_dot_weight(n - 1)
        } else {
            0
        }
    }
}

/// The number of the Braille pattern whose dots are the first eight of `bools`.
pub open spec fn spec_bools_to_byte(bools: Seq<bool>) -> int {
    spec_dots_to_byte(bools, 8)
}

/// Whether dot `i` of the cell `glyph` is set: the cell covers two columns and four rows of
/// the bit grid, and a dot that falls outside the bit grid is not set.
pub open spec fn spec_dot(bitgrid: &VecGrid<bool>, glyph: Coord, i: int) -> bool {
    let coord = Coord { x: (glyph.x * 2 + i % 2) as i32, y: (glyph.y * 4 + i / 2) as i32 };
    bitgrid.bounds.spec_contains(coord) && bitgrid.cell_map()[coord]
}

/// The code point of the Braille character for the cell `glyph` of the bit grid.
pub open spec fn spec_glyph_code(bitgrid: &VecGrid<bool>, glyph: Coord) -> int {
    BRAILLE_UNICODE_OFFSET + spec_bools_to_byte(Seq::new(8, |i: int| spec_dot(bitgrid, glyph, i)))
}

/// The weight of the dot at place `i`.
fn dot_weight(i: usize) -> (weight: u8)
    requires
        i < 8,
    ensures
        weight == spec_dot_weight(i as int),
{
    if i == 0 {
        1
    } else if i == 1 {
        8
    } else if i == 2 {
        2
    } else if i == 3 {
        16
    } else if i == 4 {
        4
    } else if i == 5 {
        32
    } else if i == 6 {
        64
    } else {
        128
    }
}

/// The number of a Braille pattern is at most the weights of all the dots together.
proof fn lemma_dots_to_byte_bound(bools: Seq<bool>, n: int)
    requires
        0 <= n <= 8,
    ensures
        0 <= spec_dots_to_byte(bools, n) <= if n == 0 {
            0int
        } else if n == 1 {
            1
        } else if n == 2 {
            9
        } else if n == 3 {
            11
        } else if n == 4 {
            27
        } else if n == 5 {
            31
        } else if n == 6 {
            63
        } else if n == 7 {
            127
        } else {
            255
        },
    decreases n,
{
    if n > 0 {
        lemma_dots_to_byte_bound(bools, n - 1);
    }
}

/// The number of the Braille pattern whose dots are the first eight of `bools`. `bools`
/// must have at least that length.
pub fn bools_to_byte(bools: &[bool]) -> (byte: u8)
    requires
        bools@.len() >= 8,
    ensures
        byte == spec_bools_to_byte(bools@),
{
    let mut total: u8 = 0;
    let mut i: usize = 0;
    while i < 8
        invariant
            i <= 8,
            bools@.len() >= 8,
            total == spec_dots_to_byte(bools@, i as int),
        decreases 8 - i,
    {
        proof {
            lemma_dots_to_byte_bound(bools@, i as int);
            lemma_dots_to_byte_bound(bools@, i + 1);
        }
        if bools[i] {
            total = total + dot_weight(i);
        }
        i = i + 1;
    }
    total
}

/// The Braille character with the pattern number `byte`.
pub fn byte_to_braille(byte: u8) -> (glyph: char)
    ensures
        glyph as u32 == BRAILLE_UNICODE_OFFSET + byte,
{
    // All 256 possible byte values (when offset) map to valid unicode characters.
    match char_from_code(byte as u32 + BRAILLE_UNICODE_OFFSET) {
        Some(glyph) => glyph,
        None => ' ',
    }
}

/// The Braille character for the cell `glyph` of the bit grid.
fn glyph_at(bitgrid: &VecGrid<bool>, glyph: Coord) -> (c: char)
    requires
        bitgrid.wf(),
        0 <= glyph.x,
        0 <= glyph.y,
        glyph.x * 2 + 2 <= i32::MAX,
        glyph.y * 4 + 4 <= i32::MAX,
    ensures
        c as u32 == spec_glyph_code(bitgrid, glyph),
{
    // Get a 2x4 rect of cells from the bitgrid and reduce them into a single char.
    let top_left = Coord::new(glyph.x * 2, glyph.y * 4);
    let rect = Rect::with_corners(top_left, top_left + Coord::new(2, 4));
    let mut selection = bitgrid.selection_iter(rect.iter());
    let mut bits: Vec<bool> = Vec::new();
    let ghost coords = rect.coords();
    let ghost dots = Seq::new(8, |i: int| spec_dot(bitgrid, glyph, i));
    proof {
        assert(rect.spec_width() == 2);
        assert(rect.spec_height() == 4);
        assert(rect.walk_width() * rect.walk_height() == 8) by (nonlinear_arith)
            requires
                rect.walk_width() == 2,
                rect.walk_height() == 4,
        ;
        assert(coords.len() == 8);
        assert(coords.skip(0) =~= coords);
    }
    loop
        invariant
            selection.wf(),
            selection.grid == bitgrid,
            rect.left == glyph.x * 2,
            rect.top == glyph.y * 4,
            rect.walk_width() == 2,
            coords == rect.coords(),
            coords.len() == 8,
            bits@.len() <= 8,
            selection.coords.remaining() == coords.skip(bits@.len() as int),
            dots == Seq::new(8, |i: int| spec_dot(bitgrid, glyph, i)),
            forall|j: int| 0 <= j < bits@.len() ==> bits@[j] == dots[j],
        ensures
            bits@.len() == 8,
            forall|j: int| 0 <= j < 8 ==> bits@[j] == dots[j],
        decreases 8 - bits@.len(),
    {
        let ghost place = bits@.len() as int;
        match selection.next() {
            Some(item) => {
                proof {
                    assert(coords.skip(place)[0] == coords[place]);
                    assert(coords.skip(place).skip(1) =~= coords.skip(place + 1));
                }
                let bit = match item {
                    Ok(cell) => *cell.1,
                    Err(_) => false,
                };
                bits.push(bit);
            },
            None => {
                break ;
            },
        }
    }
    proof {
        lemma_same_dots(bits@, dots, 8);
        lemma_dots_to_byte_bound(dots, 8);
    }
    byte_to_braille(bools_to_byte(bits.as_slice()))
}

/// Two lists that agree on their first `n` dots give the same number.
proof fn lemma_same_dots(a: Seq<bool>, b: Seq<bool>, n: int)
    requires
        forall|j: int| 0 <= j < n ==> a[j] == b[j],
    ensures
        spec_dots_to_byte(a, n) == spec_dots_to_byte(b, n),
    decreases n,
{
    if n > 0 {
        lemma_same_dots(a, b, n - 1);
    }
}

/// Turns a grid of bits into a grid of Braille characters, each of which shows two columns
/// and four rows of bits as dots. The first character shows the bits from the coordinate
/// (0, 0) on.
///
/// Assumes that the input grid has dimensions that are a multiple of (2, 4): columns and
/// rows beyond the last multiple are left out.
pub fn braillify_grid(bitgrid: VecGrid<bool>) -> (glyphs: VecGrid<char>)
    requires
        bitgrid.wf(),
        bitgrid.bounds.spec_width() <= i32::MAX,
        bitgrid.bounds.spec_height() <= i32::MAX,
    ensures
        glyphs.wf(),
        glyphs.bounds == Rect::spec_with_corners(
            Coord { x: 0, y: 0 },
            Coord {
                x: (bitgrid.bounds.spec_width() / 2) as i32,
                y: (bitgrid.bounds.spec_height() / 4) as i32,
            },
        ),
        forall|coord: Coord| #[trigger]
            glyphs.bounds.spec_contains(coord) ==> glyphs.cell_map()[coord] as u32
                == spec_glyph_code(&bitgrid, coord),
{
    let width = bitgrid.bounds.width();
    let height = bitgrid.bounds.height();
    let bounds = Rect::new(Coord::new(width / 2, height / 4));
    let source = &bitgrid;
    let generator = |coord: Coord| -> (glyph: char)
        requires
            source.wf(),
            0 <= coord.x,
            0 <= coord.y,
            coord.x * 2 + 2 <= i32::MAX,
            coord.y * 4 + 4 <= i32::MAX,
        ensures
            glyph as u32 == spec_glyph_code(source, coord),
        { glyph_at(source, coord) };
    proof {
        let w = bitgrid.bounds.spec_width();
        let h = bitgrid.bounds.spec_height();
        assert((w / 2) * (h / 4) <= w * h) by (nonlinear_arith)
            requires
                0 <= w,
                0 <= h,
        ;
        assert(bitgrid.cells.len() == w * h);
    }
    VecGrid::with_generator(bounds, generator)
}

} // verus!
