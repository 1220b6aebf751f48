use crate::text::push_char;
use std::ops::Add;
use std::ops::AddAssign;
use std::ops::Mul;
use std::ops::MulAssign;
use std::ops::Sub;
use std::ops::SubAssign;
use std::str::FromStr;
use vstd::prelude::*;
use vstd::string::StrSliceExecFns;

verus! {

/// The coordinate key to a specific grid cell.
#[derive(Debug, Clone, Copy, PartialEq, Eq, Hash, Structural)]
pub struct Coord {
    pub x: i32,
    pub y: i32,
}

impl Coord {
    /// The origin.
    pub fn zero() -> (c: Self)
        ensures
            c.x == 0,
            c.y == 0,
    {
        Self { x: 0, y: 0 }
    }

    /// The unit step along both axes.
    pub fn one() -> (c: Self)
        ensures
            c.x == 1,
            c.y == 1,
    {
        Self { x: 1, y: 1 }
    }

    /// The unit step to the north.
    pub fn north() -> (c: Self)
        ensures
            c.x == 0,
            c.y == 1,
    {
        Self { x: 0, y: 1 }
    }

    /// The unit step to the south.
    pub fn south() -> (c: Self)
        ensures
            c.x == 0,
            c.y == -1,
    {
        Self { x: 0, y: -1 }
    }

    /// The unit step to the east.
    pub fn east() -> (c: Self)
        ensures
            c.x == 1,
            c.y == 0,
    {
        Self { x: 1, y: 0 }
    }

    /// The unit step to the west.
    pub fn west() -> (c: Self)
        ensures
            c.x == -1,
            c.y == 0,
    {
        Self { x: -1, y: 0 }
    }

    /// The diagonal unit step to the north-east.
    pub fn north_east() -> (c: Self)
        ensures
            c.x == 1,
            c.y == 1,
    {
        Self { x: 1, y: 1 }
    }

    /// The diagonal unit step to the south-east.
    pub fn south_east() -> (c: Self)
        ensures
            c.x == 1,
            c.y == -1,
    {
        Self { x: 1, y: -1 }
    }

    /// The diagonal unit step to the north-west.
    pub fn north_west() -> (c: Self)
        ensures
            c.x == -1,
            c.y == 1,
    {
        Self { x: -1, y: 1 }
    }

    /// The diagonal unit step to the south-west.
    pub fn south_west() -> (c: Self)
        ensures
            c.x == -1,
            c.y == -1,
    {
        Self { x: -1, y: -1 }
    }

    /// The coordinate that lies `dx` to the east and `dy` to the north of this one, where both
    /// components are representable.
    pub open spec fn offset_by(self, dx: int, dy: int) -> Coord {
        Coord { x: (self.x + dx) as i32, y: (self.y + dy) as i32 }
    }

    /// Whether the component-wise sum with `rhs` is representable.
    pub open spec fn add_fits(self, rhs: Coord) -> bool {
        &&& i32::MIN <= self.x + rhs.x <= i32::MAX
        &&& i32::MIN <= self.y + rhs.y <= i32::MAX
    }

    /// The component-wise sum.
    pub open spec fn spec_add(self, rhs: Coord) -> Coord {
        Coord { x: (self.x + rhs.x) as i32, y: (self.y + rhs.y) as i32 }
    }

    /// Whether the component-wise difference with `rhs` is representable.
    pub open spec fn sub_fits(self, rhs: Coord) -> bool {
        &&& i32::MIN <= self.x - rhs.x <= i32::MAX
        &&& i32::MIN <= self.y - rhs.y <= i32::MAX
    }

    /// The component-wise difference.
    pub open spec fn spec_sub(self, rhs: Coord) -> Coord {
        Coord { x: (self.x - rhs.x) as i32, y: (self.y - rhs.y) as i32 }
    }

    /// Whether the component-wise product with `rhs` is representable.
    pub open spec fn mul_fits(self, rhs: Coord) -> bool {
        &&& i32::MIN <= self.x * rhs.x <= i32::MAX
        &&& i32::MIN <= self.y * rhs.y <= i32::MAX
    }

    /// The component-wise product.
    pub open spec fn spec_mul(self, rhs: Coord) -> Coord {
        Coord { x: (self.x * rhs.x) as i32, y: (self.y * rhs.y) as i32 }
    }

    /// The mirror image across the main diagonal.
    pub open spec fn spec_flip(self) -> Coord {
        Coord { x: self.y, y: self.x }
    }

    /// The mirror image through the origin.
    pub open spec fn spec_negate(self) -> Coord {
        Coord { x: (-self.x) as i32, y: (-self.y) as i32 }
    }

    /// The mirror image across the y-axis.
    pub open spec fn spec_negate_x(self) -> Coord {
        Coord { x: (-self.x) as i32, y: self.y }
    }

    /// The mirror image across the x-axis.
    pub open spec fn spec_negate_y(self) -> Coord {
        Coord { x: self.x, y: (-self.y) as i32 }
    }

    pub fn new(x: i32, y: i32) -> (c: Self)
        ensures
            c == (Coord { x, y }),
    {
        Self { x, y }
    }

    /// Reflect over the positive diagonal axis.
    pub fn flip(&self) -> (c: Self)
        ensures
            c == self.spec_flip(),
    {
        Self::new(self.y, self.x)
    }

    /// Reflect over the negative diagonal axis.
    pub fn negate(&self) -> (c: Self)
        requires
            self.x != i32::MIN,
            self.y != i32::MIN,
        ensures
            c == self.spec_negate(),
            c.x == -self.x,
            c.y == -self.y,
    {
        Self::new(-self.x, -self.y)
    }

    /// Reflect over the y-axis.
    pub fn negate_x(&self) -> (c: Self)
        requires
            self.x != i32::MIN,
        ensures
            c == self.spec_negate_x(),
            c.x == -self.x,
    {
        Self::new(-self.x, self.y)
    }

    /// Reflect over the x-axis.
    pub fn negate_y(&self) -> (c: Self)
        requires
            self.y != i32::MIN,
        ensures
            c == self.spec_negate_y(),
            c.y == -self.y,
    {
        Self::new(self.x, -self.y)
    }
}

/// The component-wise sum. Both components of it must be representable (`add_fits`).
impl Add<Coord> for Coord {
    type Output = Coord;

    fn add(self, rhs: Coord) -> (sum: Coord) {
        Coord::new(self.x + rhs.x, self.y + rhs.y)
    }
}

impl vstd::std_specs::ops::AddSpecImpl<Coord> for Coord {
    open spec fn obeys_add_spec() -> bool {
        true
    }

    open spec fn add_req(self, rhs: Coord) -> bool {
        self.add_fits(rhs)
    }

    open spec fn add_spec(self, rhs: Coord) -> Coord {
        self.spec_add(rhs)
    }
}

/// The component-wise sum, in place.
impl AddAssign<Coord> for Coord {
    fn add_assign(&mut self, rhs: Coord)
        requires
            old(self).add_fits(rhs),
        ensures
            *final(self) == old(self).spec_add(rhs),
    {
        self.x = self.x + rhs.x;
        self.y = self.y + rhs.y;
    }
}

/// The component-wise difference. Both components of it must be representable (`sub_fits`).
impl Sub<Coord> for Coord {
    type Output = Coord;

    fn sub(self, rhs: Coord) -> (difference: Coord) {
        Coord::new(self.x - rhs.x, self.y - rhs.y)
    }
}

impl vstd::std_specs::ops::SubSpecImpl<Coord> for Coord {
    open spec fn obeys_sub_spec() -> bool {
        true
    }

    open spec fn sub_req(self, rhs: Coord) -> bool {
        self.sub_fits(rhs)
    }

    open spec fn sub_spec(self, rhs: Coord) -> Coord {
        self.spec_sub(rhs)
    }
}

/// The component-wise difference, in place.
impl SubAssign<Coord> for Coord {
    fn sub_assign(&mut self, rhs: Coord)
        requires
            old(self).sub_fits(rhs),
        ensures
            *final(self) == old(self).spec_sub(rhs),
    {
        self.x = self.x - rhs.x;
        self.y = self.y - rhs.y;
    }
}

/// The component-wise product. Both components of it must be representable (`mul_fits`).
impl Mul<Coord> for Coord {
    type Output = Coord;

    fn mul(self, rhs: Coord) -> (product: Coord) {
        Coord::new(self.x * rhs.x, self.y * rhs.y)
    }
}

impl vstd::std_specs::ops::MulSpecImpl<Coord> for Coord {
    open spec fn obeys_mul_spec() -> bool {
        true
    }

    open spec fn mul_req(self, rhs: Coord) -> bool {
        self.mul_fits(rhs)
    }

    open spec fn mul_spec(self, rhs: Coord) -> Coord {
        self.spec_mul(rhs)
    }
}

/// The component-wise product, in place.
impl MulAssign<Coord> for Coord {
    fn mul_assign(&mut self, rhs: Coord)
        requires
            old(self).mul_fits(rhs),
        ensures
            *final(self) == old(self).spec_mul(rhs),
    {
        self.x = self.x * rhs.x;
        self.y = self.y * rhs.y;
    }
}

/// The coordinate with the given x and y.
impl From<(i32, i32)> for Coord {
    fn from(xy: (i32, i32)) -> (c: Self) {
        Coord::new(xy.0, xy.1)
    }
}

impl vstd::std_specs::convert::FromSpecImpl<(i32, i32)> for Coord {
    open spec fn obeys_from_spec() -> bool {
        true
    }

    open spec fn from_spec(xy: (i32, i32)) -> Self {
        Coord { x: xy.0, y: xy.1 }
    }
}

/// The x and y of a coordinate.
impl From<Coord> for (i32, i32) {
    fn from(coord: Coord) -> (xy: Self) {
        (coord.x, coord.y)
    }
}

impl vstd::std_specs::convert::FromSpecImpl<Coord> for (i32, i32) {
    open spec fn obeys_from_spec() -> bool {
        true
    }

    open spec fn from_spec(coord: Coord) -> Self {
        (coord.x, coord.y)
    }
}

/// Why a text is not a coordinate.
#[derive(Debug, Clone, Copy, PartialEq, Eq, Structural)]
pub enum ParseCoordError {
    /// The text does not have two parts with a comma in between.
    InvalidDimensions,
    /// A part of the text is not a number that a coordinate can hold.
    InvalidDigit,
}

/// Whether `c` is a white space character.
pub open spec fn is_whitespace(c: char) -> bool {
    let code = c as u32;
    ||| 0x09 <= code <= 0x0D
    ||| code == 0x20
    ||| code == 0x85
    ||| code == 0xA0
    ||| code == 0x1680
    ||| 0x2000 <= code <= 0x200A
    ||| code == 0x2028
    ||| code == 0x2029
    ||| code == 0x202F
    ||| code == 0x205F
    ||| code == 0x3000
}

/// Whether `c` is dropped from the ends of a text: white space if `spaces` holds, and a
/// round bracket, opening or closing, if not.
pub open spec fn is_dropped(spaces: bool, c: char) -> bool {
    if spaces {
        is_whitespace(c)
    } else {
        c == '(' || c == ')'
    }
}

/// `text` without the dropped characters at its front.
pub open spec fn strip_front(text: Seq<char>, spaces: bool) -> Seq<char>
    decreases text.len(),
{
    if text.len() > 0 && is_dropped(spaces, text[0]) {
        strip_front(text.skip(1), spaces)
    } else {
        text
    }
}

/// `text` without the dropped characters at its back.
pub open spec fn strip_back(text: Seq<char>, spaces: bool) -> Seq<char>
    decreases text.len(),
{
    if text.len() > 0 && is_dropped(spaces, text.last()) {
        strip_back(text.drop_last(), spaces)
    } else {
        text
    }
}

/// `text` without the dropped characters at either end.
pub open spec fn strip(text: Seq<char>, spaces: bool) -> Seq<char> {
    strip_back(strip_front(text, spaces), spaces)
}

/// The number of commas in `text`.
pub open spec fn comma_count(text: Seq<char>) -> nat
    decreases text.len(),
{
    if text.len() == 0 {
        0
    } else {
        comma_count(text.drop_last()) + if text.last() == ',' {
            1nat
        } else {
            0nat
        }
    }
}

/// The place of the first comma in `text`; the length of `text` if it holds none.
pub open spec fn first_comma(text: Seq<char>) -> int
    decreases text.len(),
{
    if text.len() == 0 || text[0] == ',' {
        0
    } else {
        1 + first_comma(text.skip(1))
    }
}

/// Whether `c` is one of the digits 0 to 9.
pub open spec fn is_digit(c: char) -> bool {
    '0' <= c <= '9'
}

/// Whether `text` is made of digits only.
pub open spec fn all_digits(text: Seq<char>) -> bool {
    forall|i: int| 0 <= i < text.len() ==> is_digit(#[trigger] text[i])
}

/// The number that the digits of `text` stand for.
pub open spec fn digits_value(text: Seq<char>) -> int
    decreases text.len(),
{
    if text.len() == 0 {
        0
    } else {
        digits_value(text.drop_last()) * 10 + (text.last() as int - '0' as int)
    }
}

/// The number that `text` stands for: a sign, `+` or `-`, or none, and then one digit or
/// more, which together give a number that a coordinate can hold.
pub open spec fn spec_parse_number(text: Seq<char>) -> Option<i32> {
    let signed = text.len() > 0 && (text[0] == '-' || text[0] == '+');
    let digits = if signed {
        text.skip(1)
    } else {
        text
    };
    let value = if text.len() > 0 && text[0] == '-' {
        -digits_value(digits)
    } else {
        digits_value(digits)
    };
    if digits.len() > 0 && all_digits(digits) && i32::MIN <= value <= i32::MAX {
        Some(value as i32)
    } else {
        None
    }
}

/// The coordinate that `text` stands for. Round brackets at either end of the text are
/// dropped, whichever and however many. What is left must hold one comma: before it
/// stands x and behind it y, each with any white space around it.
pub open spec fn spec_parse_coord(text: Seq<char>) -> Result<Coord, ParseCoordError> {
    let inner = strip(text, false);
    if comma_count(inner) != 1 {
        Err(ParseCoordError::InvalidDimensions)
    } else {
        let comma = first_comma(inner);
        let x = spec_parse_number(strip(inner.take(comma), true));
        let y = spec_parse_number(strip(inner.skip(comma + 1), true));
        if x is Some && y is Some {
            Ok(Coord { x: x->0, y: y->0 })
        } else {
            Err(ParseCoordError::InvalidDigit)
        }
    }
}

/// The digit for `d`, which is at least 0 and at most 9.
pub open spec fn spec_digit(d: int) -> char {
    if d == 0 {
        '0'
    } else if d == 1 {
        '1'
    } else if d == 2 {
        '2'
    } else if d == 3 {
        '3'
    } else if d == 4 {
        '4'
    } else if d == 5 {
        '5'
    } else if d == 6 {
        '6'
    } else if d == 7 {
        '7'
    } else if d == 8 {
        '8'
    } else {
        '9'
    }
}

/// The digits of `n`, which is not negative.
pub open spec fn spec_digits(n: int) -> Seq<char>
    decreases n,
{
    if n < 10 {
        seq![spec_digit(n)]
    } else {
        spec_digits(n / 10).push(spec_digit(n % 10))
    }
}

/// `n` in decimal notation.
pub open spec fn spec_decimal(n: int) -> Seq<char> {
    if n < 0 {
        seq!['-'] + spec_digits(-n)
    } else {
        spec_digits(n)
    }
}

/// Whether `c` is a white space character.
fn is_space(c: char) -> (space: bool)
    ensures
        space == is_whitespace(c),
{
    let code = c as u32;
    (0x09 <= code && code <= 0x0D) || code == 0x20 || code == 0x85 || code == 0xA0 || code
        == 0x1680 || (0x2000 <= code && code <= 0x200A) || code == 0x2028 || code == 0x2029
        || code == 0x202F || code == 0x205F || code == 0x3000
}

/// Whether `c` is dropped from the ends of a text.
fn drops(spaces: bool, c: char) -> (dropped: bool)
    ensures
        dropped == is_dropped(spaces, c),
{
    if spaces {
        is_space(c)
    } else {
        c == '(' || c == ')'
    }
}

/// The part of `chars` from `from` to `to` that is left when the dropped characters at
/// either end are taken away.
fn strip_range(chars: &Vec<char>, from: usize, to: usize, spaces: bool) -> (range: (usize, usize))
    requires
        from <= to <= chars@.len(),
    ensures
        from <= range.0 <= range.1 <= to,
        chars@.subrange(range.0 as int, range.1 as int) == strip(
            chars@.subrange(from as int, to as int),
            spaces,
        ),
{
    let mut start = from;
    while start < to && drops(spaces, chars[start])
        invariant
            from <= start <= to <= chars@.len(),
            strip_front(chars@.subrange(start as int, to as int), spaces) == strip_front(
                chars@.subrange(from as int, to as int),
                spaces,
            ),
        decreases to - start,
    {
        proof {
            assert(chars@.subrange(start as int, to as int).skip(1) =~= chars@.subrange(
                start + 1,
                to as int,
            ));
        }
        start = start + 1;
    }
    let mut end = to;
    while start < end && drops(spaces, chars[end - 1])
        invariant
            from <= start <= end <= to <= chars@.len(),
            strip_back(chars@.subrange(start as int, end as int), spaces) == strip(
                chars@.subrange(from as int, to as int),
                spaces,
            ),
        decreases end - start,
    {
        proof {
            assert(chars@.subrange(start as int, end as int).drop_last() =~= chars@.subrange(
                start as int,
                end - 1,
            ));
        }
        end = end - 1;
    }
    (start, end)
}

/// The first comma in a text is the one that has no comma before it.
proof fn lemma_first_comma(text: Seq<char>, place: int)
    requires
        0 <= place < text.len(),
        text[place] == ',',
        forall|i: int| 0 <= i < place ==> text[i] != ',',
    ensures
        first_comma(text) == place,
    decreases place,
{
    if place > 0 {
        assert(text[0] != ',');
        assert forall|i: int| 0 <= i < place - 1 implies text.skip(1)[i] != ',' by {
            assert(text.skip(1)[i] == text[i + 1]);
        }
        lemma_first_comma(text.skip(1), place - 1);
    }
}

/// The digits of a number tell at least as much as the first of them.
proof fn lemma_digits_grow(text: Seq<char>, upto: int)
    requires
        all_digits(text),
        0 <= upto <= text.len(),
    ensures
        0 <= digits_value(text.take(upto)) <= digits_value(text),
    decreases text.len() - upto,
{
    lemma_digits_not_negative(text.take(upto));
    if upto < text.len() {
        lemma_digits_grow(text, upto + 1);
        assert(text.take(upto + 1).drop_last() =~= text.take(upto));
        assert(is_digit(text[upto]));
        assert(text.take(upto + 1).last() == text[upto]);
    } else {
        assert(text.take(upto) =~= text);
    }
}

/// Digits stand for a number that is not negative.
proof fn lemma_digits_not_negative(text: Seq<char>)
    requires
        all_digits(text),
    ensures
        0 <= digits_value(text),
    decreases text.len(),
{
    if text.len() > 0 {
        assert(is_digit(text.last()));
        assert forall|i: int| 0 <= i < text.drop_last().len() implies is_digit(
            #[trigger] text.drop_last()[i],
        ) by {
            assert(text.drop_last()[i] == text[i]);
        }
        lemma_digits_not_negative(text.drop_last());
    }
}

/// The number that the part of `chars` from `from` to `to` stands for.
fn parse_number(chars: &Vec<char>, from: usize, to: usize) -> (number: Option<i32>)
    requires
        from <= to <= chars@.len(),
    ensures
        number == spec_parse_number(chars@.subrange(from as int, to as int)),
{
    let ghost text = chars@.subrange(from as int, to as int);
    if from == to {
        return None;
    }
    let first = chars[from];
    assert(text[0] == first);
    let negative = first == '-';
    let start = if first == '-' || first == '+' {
        from + 1
    } else {
        from
    };
    let ghost digits = chars@.subrange(start as int, to as int);
    proof {
        if start == from {
            assert(digits =~= text);
        } else {
            assert(digits =~= text.skip(1));
        }
    }
    if start == to {
        return None;
    }
    let mut value: i64 = 0;
    let mut i = start;
    proof {
        assert(digits.take(0) =~= Seq::<char>::empty());
    }
    while i < to
        invariant
            from <= start <= i <= to <= chars@.len(),
            start < to,
            text == chars@.subrange(from as int, to as int),
            negative == (text[0] == '-'),
            digits == if text[0] == '-' || text[0] == '+' {
                text.skip(1)
            } else {
                text
            },
            digits == chars@.subrange(start as int, to as int),
            forall|j: int| 0 <= j < i - start ==> is_digit(#[trigger] digits[j]),
            value == digits_value(digits.take(i - start)),
            0 <= value <= 0x8000_0000,
        decreases to - i,
    {
        let c = chars[i];
        assert(digits[i - start] == c);
        if !('0' <= c && c <= '9') {
            assert(!is_digit(digits[i - start]));
            return None;
        }
        let digit = (c as u32 - '0' as u32) as i64;
        proof {
            assert(digits.take(i - start + 1).drop_last() =~= digits.take(i - start));
            assert(digits.take(i - start + 1).last() == c);
        }
        value = value * 10 + digit;
        i = i + 1;
        if value > 0x8000_0000 {
            proof {
                if all_digits(digits) {
                    lemma_digits_grow(digits, i - start);
                }
            }
            return None;
        }
    }
    proof {
        assert(digits.take(to - start) =~= digits);
    }
    if negative {
        Some((-value) as i32)
    } else if value <= 0x7fff_ffff {
        Some(value as i32)
    } else {
        None
    }
}

/// The characters of `text`.
fn chars_of(text: &str) -> (chars: Vec<char>)
    ensures
        chars@ == text@,
{
    let mut chars: Vec<char> = Vec::new();
    let len = text.unicode_len();
    let mut i: usize = 0;
    while i < len
        invariant
            i <= len,
            len == text@.len(),
            chars@ == text@.take(i as int),
        decreases len - i,
    {
        chars.push(text.get_char(i));
        proof {
            assert(chars@ =~= text@.take(i + 1));
        }
        i = i + 1;
    }
    proof {
        assert(text@.take(len as int) =~= text@);
    }
    chars
}

/// The digit for `d`.
fn digit(d: i64) -> (c: char)
    requires
        0 <= d <= 9,
    ensures
        c == spec_digit(d as int),
{
    if d == 0 {
        '0'
    } else if d == 1 {
        '1'
    } else if d == 2 {
        '2'
    } else if d == 3 {
        '3'
    } else if d == 4 {
        '4'
    } else if d == 5 {
        '5'
    } else if d == 6 {
        '6'
    } else if d == 7 {
        '7'
    } else if d == 8 {
        '8'
    } else {
        '9'
    }
}

/// Adds the decimal notation of `n` to `text`.
fn push_decimal(text: &mut String, n: i32)
    ensures
        final(text)@ == old(text)@ + spec_decimal(n as int),
{
    let ghost before = text@;
    let mut rest: i64 = n as i64;
    if rest < 0 {
        push_char(text, '-');
        rest = -rest;
    }
    let ghost sign = text@;
    let ghost magnitude = rest as int;
    // The digits from the last to the first.
    let mut digits: Vec<char> = Vec::new();
    proof {
        assert(spec_digits(rest as int) + digits@.reverse() =~= spec_digits(rest as int));
    }
    loop
        invariant_except_break
            spec_digits(magnitude) == spec_digits(rest as int) + digits@.reverse(),
        invariant
            0 <= rest <= magnitude <= 0x8000_0000,
            text@ == sign,
        ensures
            text@ == sign,
            spec_digits(magnitude) == digits@.reverse(),
        decreases rest,
    {
        let ghost shown = digits@;
        let digit = digit(rest % 10);
        digits.push(digit);
        proof {
            assert(digits@.reverse() =~= seq![digit] + shown.reverse());
        }
        if rest < 10 {
            proof {
                assert(spec_digits(rest as int) =~= seq![digit]);
            }
            break ;
        }
        proof {
            assert(spec_digits(rest as int) =~= spec_digits(rest as int / 10) + seq![digit]);
        }
        rest = rest / 10;
    }
    let mut i = digits.len();
    while i > 0
        invariant
            i <= digits@.len(),
            text@ == sign + digits@.reverse().take(digits@.len() - i),
        decreases i,
    {
        i = i - 1;
        let ghost shown = text@;
        push_char(text, digits[i]);
        proof {
            assert(digits@.reverse()[digits@.len() - 1 - i] == digits@[i as int]);
            assert(text@ =~= sign + digits@.reverse().take(digits@.len() - i));
        }
    }
    proof {
        assert(digits@.reverse().take(digits@.len() as int) =~= digits@.reverse());
        if n < 0 {
            assert(sign =~= before + seq!['-']);
            assert(text@ =~= before + (seq!['-'] + spec_digits(-(n as int))));
        }
    }
}

impl Coord {
    /// The coordinate that `text` stands for, in the notation `(x, y)`.
    pub fn parse(text: &str) -> (coord: Result<Coord, ParseCoordError>)
        ensures
            coord == spec_parse_coord(text@),
    {
        // Parse standard `(x, y)` format.
        let chars = chars_of(text);
        let (from, to) = strip_range(&chars, 0, chars.len(), false);
        let ghost inner = chars@.subrange(from as int, to as int);
        proof {
            assert(chars@.subrange(0, chars@.len() as int) =~= chars@);
            assert(inner.take(0) =~= Seq::<char>::empty());
        }
        let mut commas: usize = 0;
        let mut first_comma = to;
        let mut i = from;
        while i < to
            invariant
                from <= i <= to <= chars@.len(),
                inner == chars@.subrange(from as int, to as int),
                commas == comma_count(inner.take(i - from)),
                commas <= i - from,
                commas == 0 ==> first_comma == to && forall|j: int|
                    0 <= j < i - from ==> inner[j] != ',',
                commas > 0 ==> from <= first_comma < i && inner[first_comma - from] == ','
                    && forall|j: int| 0 <= j < first_comma - from ==> inner[j] != ',',
            decreases to - i,
        {
            proof {
                assert(inner.take(i - from + 1).drop_last() =~= inner.take(i - from));
                assert(inner.take(i - from + 1).last() == chars@[i as int]);
            }
            if chars[i] == ',' {
                if commas == 0 {
                    first_comma = i;
                }
                commas = commas + 1;
            }
            i = i + 1;
        }
        proof {
            assert(inner.take(to - from) =~= inner);
        }
        if commas != 1 {
            return Err(ParseCoordError::InvalidDimensions);
        }
        proof {
            lemma_first_comma(inner, first_comma - from);
            assert(inner.take(first_comma - from) =~= chars@.subrange(
                from as int,
                first_comma as int,
            ));
            assert(inner.skip(first_comma - from + 1) =~= chars@.subrange(
                first_comma + 1,
                to as int,
            ));
        }
        let (x_from, x_to) = strip_range(&chars, from, first_comma, true);
        let (y_from, y_to) = strip_range(&chars, first_comma + 1, to, true);
        let x = parse_number(&chars, x_from, x_to);
        let y = parse_number(&chars, y_from, y_to);
        match (x, y) {
            (Some(x), Some(y)) => Ok(Coord::new(x, y)),
            _ => Err(ParseCoordError::InvalidDigit),
        }
    }

    /// The coordinate as text, in the notation `(x, y)`.
    pub fn to_string(&self) -> (text: String)
        ensures
            text@ == seq!['('] + spec_decimal(self.x as int) + seq![',', ' '] + spec_decimal(
                self.y as int,
            ) + seq![')'],
    {
        let mut text = String::new();
        push_char(&mut text, '(');
        push_decimal(&mut text, self.x);
        push_char(&mut text, ',');
        push_char(&mut text, ' ');
        push_decimal(&mut text, self.y);
        push_char(&mut text, ')');
        proof {
            assert(text@ =~= seq!['('] + spec_decimal(self.x as int) + seq![',', ' ']
                + spec_decimal(self.y as int) + seq![')']);
        }
        text
    }
}

/// Parsing by `str::parse`: the same as [`Coord::parse`].
impl FromStr for Coord {
    type Err = ParseCoordError;

    fn from_str(s: &str) -> (coord: Result<Self, Self::Err>)
        ensures
            coord == spec_parse_coord(s@),
    {
        Coord::parse(s)
    }
}

/// The reflections undo themselves and commute, so that mirroring one octant of a shape
/// eight ways gives a shape that each reflection maps onto itself.
pub proof fn lemma_reflections_are_involutions(c: Coord)
    requires
        c.x != i32::MIN,
        c.y != i32::MIN,
    ensures
        c.spec_flip().spec_flip() == c,
        c.spec_negate().spec_negate() == c,
        c.spec_negate_x().spec_negate_x() == c,
        c.spec_negate_y().spec_negate_y() == c,
        c.spec_negate_x().spec_negate_y() == c.spec_negate(),
        c.spec_flip().spec_negate() == c.spec_negate().spec_flip(),
{
}

} // verus!
