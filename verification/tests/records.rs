use advent2018::coordinates;
use advent2018::scan::{parse_char, parse_i32, parse_u32, parse_u8, ParseError};
use advent2018::scheduler::graph::Dep;
use advent2018::stars;

#[test]
fn dep_from_str_reads_both_tasks() {
    let d = Dep::from_str("Step C must be finished before step A can begin.").unwrap();
    assert_eq!(d.dep, 'C');
    assert_eq!(d.step, 'A');
}

#[test]
fn dep_from_str_reports_the_missing_field() {
    assert_eq!(Dep::from_str(""), Err(ParseError { field: 0 }));
    assert_eq!(Dep::from_str("Stop C"), Err(ParseError { field: 0 }));
    assert_eq!(Dep::from_str("Step C must be"), Err(ParseError { field: 1 }));
    assert_eq!(Dep::from_str("Step CD must be finished before step A can begin."), Err(ParseError { field: 0 }));
}

#[test]
fn dep_from_fields_takes_the_first_two() {
    let fields = vec!["X".to_string(), "Y".to_string(), "Z".to_string()];
    assert_eq!(Dep::from_fields(&fields), Ok(Dep { dep: 'X', step: 'Y' }));
    assert_eq!(Dep::from_fields(&vec!["X".to_string()]), Err(ParseError { field: 1 }));
    assert_eq!(Dep::from_fields(&vec!["X".to_string(), "".to_string()]), Err(ParseError { field: 1 }));
    assert_eq!(Dep::from_fields(&Vec::new()), Err(ParseError { field: 0 }));
}

#[test]
fn parse_char_wants_one_character() {
    assert_eq!(parse_char("a"), Some('a'));
    assert_eq!(parse_char("é"), Some('é'));
    assert_eq!(parse_char(""), None);
    assert_eq!(parse_char("ab"), None);
}

#[test]
fn parse_unsigned_numbers() {
    assert_eq!(parse_u32("0"), Some(0));
    assert_eq!(parse_u32("+42"), Some(42));
    assert_eq!(parse_u32("007"), Some(7));
    assert_eq!(parse_u32("4294967295"), Some(u32::MAX));
    assert_eq!(parse_u32("4294967296"), None);
    assert_eq!(parse_u32("99999999999999999999999"), None);
    assert_eq!(parse_u32(""), None);
    assert_eq!(parse_u32("+"), None);
    assert_eq!(parse_u32("-1"), None);
    assert_eq!(parse_u32("12a"), None);
    assert_eq!(parse_u32(" 12"), None);
    assert_eq!(parse_u8("255"), Some(255));
    assert_eq!(parse_u8("256"), None);
    assert_eq!(parse_u8("+9"), Some(9));
}

#[test]
fn parse_signed_numbers() {
    assert_eq!(parse_i32("0"), Some(0));
    assert_eq!(parse_i32("-0"), Some(0));
    assert_eq!(parse_i32("+17"), Some(17));
    assert_eq!(parse_i32("-17"), Some(-17));
    assert_eq!(parse_i32("2147483647"), Some(i32::MAX));
    assert_eq!(parse_i32("2147483648"), None);
    assert_eq!(parse_i32("-2147483648"), Some(i32::MIN));
    assert_eq!(parse_i32("-2147483649"), None);
    assert_eq!(parse_i32("-"), None);
    assert_eq!(parse_i32("+-1"), None);
    assert_eq!(parse_i32("--1"), None);
    assert_eq!(parse_i32(""), None);
}

#[test]
fn parsers_agree_with_std() {
    for text in ["", "+", "-", "0", "+0", "-0", "12", "-12", "+12", "1_000", "12 ", "٣", "4294967295", "4294967296"] {
        assert_eq!(parse_u32(text), text.parse::<u32>().ok());
        assert_eq!(parse_i32(text), text.parse::<i32>().ok());
        assert_eq!(parse_u8(text), text.parse::<u8>().ok());
        assert_eq!(parse_char(text), text.parse::<char>().ok());
    }
}

#[test]
fn coordinate_from_str() {
    assert_eq!(coordinates::Point::from_str("1, 6"), Ok(coordinates::Point { x: 1, y: 6 }));
    assert_eq!(coordinates::Point::from_str("  81,   3 "), Ok(coordinates::Point { x: 81, y: 3 }));
    assert_eq!(coordinates::Point::from_str("x, 6"), Err(ParseError { field: 0 }));
    assert_eq!(coordinates::Point::from_str("1; 6"), Err(ParseError { field: 1 }));
    assert_eq!(coordinates::Point::from_str("-1, 6"), Err(ParseError { field: 0 }));
    assert_eq!(coordinates::Point::from_str("1, 4294967296"), Err(ParseError { field: 1 }));
}

#[test]
fn star_from_str() {
    let p = stars::Point::from_str("position=< 9,  1> velocity=< 0,  2>").unwrap();
    assert_eq!(p, stars::Point { x: 9, y: 1, vel_x: 0, vel_y: 2 });
    let q = stars::Point::from_str("position=<-3, 11> velocity=< 1, -2>").unwrap();
    assert_eq!(q, stars::Point { x: -3, y: 11, vel_x: 1, vel_y: -2 });
    assert_eq!(stars::Point::from_str("position=<a, 11> velocity=< 1, -2>"), Err(ParseError { field: 0 }));
    assert_eq!(stars::Point::from_str("position=<1, 11> velocity=< 1, x>"), Err(ParseError { field: 3 }));
    assert_eq!(stars::Point::from_str("position=<1, 11>"), Err(ParseError { field: 2 }));
}
