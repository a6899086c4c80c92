use ostn15_phf::ParseError;
use ostn15_phf::Shift;
use ostn15_phf::parse_i32;
use ostn15_phf::parse_line;
use ostn15_phf::parse_shift;

fn sh(thousandths: i64) -> Shift {
    Shift::from_thousandths(thousandths)
}

#[test]
fn parse_shift_exact_values() {
    assert_eq!(Some(sh(102787)), parse_shift(b"102.787"));
    assert_eq!(Some(sh(-78242)), parse_shift(b"-78.242"));
    assert_eq!(Some(sh(44236)), parse_shift(b"44.236"));
    assert_eq!(Some(sh(500)), parse_shift(b"0.5"));
    assert_eq!(Some(sh(1250)), parse_shift(b"1.25"));
    assert_eq!(Some(sh(12000)), parse_shift(b"12"));
    assert_eq!(Some(sh(0)), parse_shift(b"0.000"));
    assert_eq!(Some(sh(0)), parse_shift(b"-0"));
    assert_eq!(Some(sh(7000)), parse_shift(b"+7"));
}

#[test]
fn parse_shift_rejects_malformed_fields() {
    assert_eq!(None, parse_shift(b""));
    assert_eq!(None, parse_shift(b"-"));
    assert_eq!(None, parse_shift(b"1."));
    assert_eq!(None, parse_shift(b".5"));
    assert_eq!(None, parse_shift(b"-.5"));
    assert_eq!(None, parse_shift(b"1.2345"));
    assert_eq!(None, parse_shift(b"12a"));
    assert_eq!(None, parse_shift(b"1..2"));
    assert_eq!(None, parse_shift(b"1.2.3"));
    assert_eq!(None, parse_shift(b" 1.2"));
}

#[test]
fn parse_shift_magnitude_limits() {
    // i64::MAX thousandths is representable...
    assert_eq!(Some(sh(9223372036854775807)), parse_shift(b"9223372036854775.807"));
    // ...one more is not, nor is anything wider.
    assert_eq!(None, parse_shift(b"9223372036854775.808"));
    assert_eq!(None, parse_shift(b"9999999999999999999999"));
}

#[test]
fn parse_i32_reads_identifiers() {
    assert_eq!(Some(220065), parse_i32(b"220065"));
    assert_eq!(Some(0), parse_i32(b"0"));
    assert_eq!(Some(-5), parse_i32(b"-5"));
    assert_eq!(Some(7), parse_i32(b"+7"));
    assert_eq!(Some(2147483647), parse_i32(b"2147483647"));
    assert_eq!(Some(-2147483648), parse_i32(b"-2147483648"));
}

#[test]
fn parse_i32_rejects_bad_identifiers() {
    assert_eq!(None, parse_i32(b""));
    assert_eq!(None, parse_i32(b"-"));
    assert_eq!(None, parse_i32(b"+"));
    assert_eq!(None, parse_i32(b"12.5"));
    assert_eq!(None, parse_i32(b"abc"));
    assert_eq!(None, parse_i32(b"2147483648"));
    assert_eq!(None, parse_i32(b"-2147483649"));
    assert_eq!(None, parse_i32(b"99999999999999999999"));
}

#[test]
fn parse_line_reads_a_record() {
    let r = parse_line(b"220065,651307.003,313255.686,102.787,-78.242,44.236").unwrap();
    assert_eq!(220065, r.id);
    assert_eq!(sh(102787), r.easting_shift);
    assert_eq!(sh(-78242), r.northing_shift);
    assert_eq!(sh(44236), r.height_shift);
}

#[test]
fn parse_line_discards_position_fields() {
    // Fields two and three are read past positionally, never interpreted.
    let r = parse_line(b"9,garbage,more garbage,1.5,-2.5,3.5").unwrap();
    assert_eq!(9, r.id);
    assert_eq!(sh(1500), r.easting_shift);
    assert_eq!(sh(-2500), r.northing_shift);
    assert_eq!(sh(3500), r.height_shift);
}

#[test]
fn parse_line_ignores_extra_fields() {
    let r = parse_line(b"9,0,0,1.0,2.0,3.0,anything,else").unwrap();
    assert_eq!(9, r.id);
    assert_eq!(sh(3000), r.height_shift);
}

#[test]
fn parse_line_bad_point_id() {
    assert_eq!(Err(ParseError::BadPointId), parse_line(b"x,0,0,1.0,2.0,3.0"));
    assert_eq!(Err(ParseError::BadPointId), parse_line(b""));
    assert_eq!(Err(ParseError::BadPointId), parse_line(b"2147483648,0,0,1.0,2.0,3.0"));
}

#[test]
fn parse_line_missing_fields() {
    assert_eq!(Err(ParseError::MissingEastingShift), parse_line(b"1,0,0"));
    assert_eq!(Err(ParseError::MissingNorthingShift), parse_line(b"1,0,0,4.0"));
    assert_eq!(Err(ParseError::MissingHeightShift), parse_line(b"1,0,0,4.0,5.0"));
}

#[test]
fn parse_line_bad_shift_fields() {
    assert_eq!(Err(ParseError::BadEastingShift), parse_line(b"1,0,0,x,5.0,6.0"));
    assert_eq!(Err(ParseError::BadNorthingShift), parse_line(b"1,0,0,4.0,,6.0"));
    assert_eq!(Err(ParseError::BadHeightShift), parse_line(b"1,0,0,4.0,5.0,6.0.0"));
}
