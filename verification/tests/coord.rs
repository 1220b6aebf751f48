use tapestry::Coord;
use tapestry::ParseCoordError;

#[test]
fn coord_parse() {
    let coord_str = "(0, 0)";
    // Ill-formatted but parseable coord strings
    let bad_parens_coord_str = ")0, 0(";
    let none_parens_coord_str = "0, 0";
    assert_eq!(coord_str.parse(), Ok(Coord::zero()));
    assert_eq!(bad_parens_coord_str.parse(), Ok(Coord::zero()));
    assert_eq!(none_parens_coord_str.parse(), Ok(Coord::zero()));
}

#[test]
fn neg_coord_parse() {
    let coord_str = "(-1, -1)";
    assert_eq!(coord_str.parse(), Ok(Coord::one().negate()));
}

#[test]
fn flexible_spacing_coord_parse() {
    let coord_str = "(0   , 0   )";
    assert_eq!(coord_str.parse(), Ok(Coord::zero()));
}

#[test]
fn coord_parse_invalid_digit() {
    let coord_str = "(x, y)";
    let newline_coord_str = "(0, 0)\n";
    assert!(coord_str.parse::<Coord>() == Err(ParseCoordError::InvalidDigit));
    assert!(newline_coord_str.parse::<Coord>() == Err(ParseCoordError::InvalidDigit));
}

#[test]
fn coord_parse_invalid_dimensions() {
    let insufficient_coord_str = "(0)";
    let excessive_coord_str = "(1, 2, 3)";
    assert!(insufficient_coord_str.parse::<Coord>() == Err(ParseCoordError::InvalidDimensions));
    assert!(excessive_coord_str.parse::<Coord>() == Err(ParseCoordError::InvalidDimensions));
}

#[test]
fn coord_parse_agrees_with_the_standard_number_parser() {
    let numbers = [
        "0", "7", "-7", "+7", "007", "-0", "+", "-", "", "1 2", "2147483647", "2147483648",
        "-2147483648", "-2147483649", "99999999999999999999", "--1", "+-1", "1-", "١", "1_0",
        "0x10", "1.0", "４",
    ];
    for x in numbers.iter() {
        for y in numbers.iter() {
            let text = format!("({}, {})", x, y);
            let expected = match (x.parse::<i32>(), y.parse::<i32>()) {
                (Ok(x), Ok(y)) => Ok(Coord::new(x, y)),
                _ => Err(ParseCoordError::InvalidDigit),
            };
            assert_eq!(Coord::parse(&text), expected);
        }
    }
}

#[test]
fn coord_parse_trims_as_the_standard_library_does() {
    let texts = [
        "((3,4))", "(3,4", ")(3,4)(", " (3, 4)", "(3, 4) ", "(\t3\u{a0},\u{3000}4\u{2003})",
        "( 3 ,4\n)", "(3 4, 5)", "(3,)", "(,4)", ",", "", "()", "(,)", "( , )", "3,(4)",
        "(3),4", "(3\u{200b},4)", "(3,\u{85}4\u{1680})", "(((", "(3;4)",
    ];
    for text in texts.iter() {
        let parts = text
            .trim_matches(|p| p == '(' || p == ')')
            .split(',')
            .map(|s| s.trim())
            .collect::<Vec<_>>();
        let expected = if parts.len() != 2 {
            Err(ParseCoordError::InvalidDimensions)
        } else {
            match (parts[0].parse::<i32>(), parts[1].parse::<i32>()) {
                (Ok(x), Ok(y)) => Ok(Coord::new(x, y)),
                _ => Err(ParseCoordError::InvalidDigit),
            }
        };
        assert_eq!(Coord::parse(text), expected);
    }
    assert_eq!(Coord::parse("(3, 4)"), Ok(Coord::new(3, 4)));
    assert_eq!(Coord::parse("(3,4"), Ok(Coord::new(3, 4)));
}

#[test]
fn coord_to_string() {
    assert_eq!(Coord::new(0, 0).to_string(), "(0, 0)");
    assert_eq!(Coord::new(-1, 10).to_string(), "(-1, 10)");
    assert_eq!(Coord::new(i32::MIN, i32::MAX).to_string(), "(-2147483648, 2147483647)");
    assert_eq!(Coord::new(1005, -90).to_string(), "(1005, -90)");
}

#[test]
fn coord_text_round_trip() {
    for &(x, y) in [(0, 0), (5, -5), (i32::MAX, i32::MIN), (-123456, 7890)].iter() {
        let coord = Coord::new(x, y);
        assert_eq!(coord.to_string().parse(), Ok(coord));
    }
}

#[test]
fn coord_arithmetic() {
    let a = Coord::new(3, -4);
    let b = Coord::new(10, 20);
    assert_eq!(a + b, Coord::new(13, 16));
    assert_eq!(a - b, Coord::new(-7, -24));
    assert_eq!(a * b, Coord::new(30, -80));
    let mut c = a;
    c += b;
    assert_eq!(c, Coord::new(13, 16));
    c -= a;
    assert_eq!(c, b);
    c *= Coord::new(2, -1);
    assert_eq!(c, Coord::new(20, -20));
}

#[test]
fn coord_reflections() {
    let c = Coord::new(3, -4);
    assert_eq!(c.flip(), Coord::new(-4, 3));
    assert_eq!(c.negate(), Coord::new(-3, 4));
    assert_eq!(c.negate_x(), Coord::new(-3, -4));
    assert_eq!(c.negate_y(), Coord::new(3, 4));
    assert_eq!(c.flip().flip(), c);
    assert_eq!(c.negate_x().negate_y(), c.negate());
}

#[test]
fn coord_unit_steps() {
    assert_eq!(Coord::zero(), Coord::new(0, 0));
    assert_eq!(Coord::one(), Coord::new(1, 1));
    assert_eq!(Coord::north(), Coord::new(0, 1));
    assert_eq!(Coord::south(), Coord::new(0, -1));
    assert_eq!(Coord::east(), Coord::new(1, 0));
    assert_eq!(Coord::west(), Coord::new(-1, 0));
    assert_eq!(Coord::north_east(), Coord::new(1, 1));
    assert_eq!(Coord::south_east(), Coord::new(1, -1));
    assert_eq!(Coord::north_west(), Coord::new(-1, 1));
    assert_eq!(Coord::south_west(), Coord::new(-1, -1));
}

#[test]
fn coord_conversions() {
    assert_eq!(Coord::from((2, 3)), Coord::new(2, 3));
    let pair: (i32, i32) = Coord::new(2, 3).into();
    assert_eq!(pair, (2, 3));
}
