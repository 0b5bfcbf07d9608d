use lib::data::{Data, Decimal};
use lib::error::Error;
use lib::number::{parse_i64, parse_number};

fn chars(s: &str) -> Vec<char> {
    s.chars().collect()
}

fn text(v: &[char]) -> String {
    v.iter().collect()
}

#[test]
fn integer_digits_read_as_their_value() {
    match parse_number(&chars("123"), None, false) {
        Ok(Some(Data::Integer(v))) => assert_eq!(v, 123),
        other => panic!("unexpected {:?}", other),
    }
}

#[test]
fn negative_flag_negates_the_integer() {
    match parse_number(&chars("123"), None, true) {
        Ok(Some(Data::Integer(v))) => assert_eq!(v, -123),
        other => panic!("unexpected {:?}", other),
    }
}

#[test]
fn zero_and_leading_zeros() {
    match parse_number(&chars("0007"), None, false) {
        Ok(Some(Data::Integer(v))) => assert_eq!(v, 7),
        other => panic!("unexpected {:?}", other),
    }
    match parse_number(&chars("0"), None, true) {
        Ok(Some(Data::Integer(v))) => assert_eq!(v, 0),
        other => panic!("unexpected {:?}", other),
    }
}

#[test]
fn digits_that_are_not_a_number_give_no_value() {
    assert!(matches!(parse_number(&chars("12a"), None, false), Ok(None)));
    assert!(matches!(parse_number(&chars(""), None, false), Ok(None)));
}

#[test]
fn integer_out_of_range_gives_no_value() {
    assert!(matches!(parse_number(&chars("9223372036854775808"), None, false), Ok(None)));
    match parse_number(&chars("9223372036854775807"), None, false) {
        Ok(Some(Data::Integer(v))) => assert_eq!(v, i64::MAX),
        other => panic!("unexpected {:?}", other),
    }
}

#[test]
fn decimal_keeps_its_digits() {
    match parse_number(&chars("3"), Some(&chars("014")), false) {
        Ok(Some(Data::Float(d))) => assert_eq!(
            d,
            Decimal { negative: false, whole: 3, fraction: 14, digits: 3 }
        ),
        other => panic!("unexpected {:?}", other),
    }
    match parse_number(&chars("2"), Some(&chars("5")), true) {
        Ok(Some(Data::Float(d))) => assert_eq!(
            d,
            Decimal { negative: true, whole: 2, fraction: 5, digits: 1 }
        ),
        other => panic!("unexpected {:?}", other),
    }
}

#[test]
fn decimal_with_bad_fraction_is_an_error() {
    match parse_number(&chars("3"), Some(&chars("1x")), false) {
        Err(Error::InvalidNumber(Data::Identifier(name))) => assert_eq!(text(&name), "decimal"),
        other => panic!("unexpected {:?}", other),
    }
}

#[test]
fn decimal_with_bad_whole_part_is_an_error() {
    match parse_number(&chars("x"), Some(&chars("5")), false) {
        Err(Error::InvalidNumber(Data::Identifier(name))) => assert_eq!(text(&name), "decimal"),
        other => panic!("unexpected {:?}", other),
    }
}

#[test]
fn signs_are_read_as_rust_reads_them() {
    assert_eq!(parse_i64(&chars("+5")), Some(5));
    assert_eq!(parse_i64(&chars("-5")), Some(-5));
    assert_eq!(parse_i64(&chars("-9223372036854775808")), Some(i64::MIN));
    assert_eq!(parse_i64(&chars("-9223372036854775809")), None);
    assert_eq!(parse_i64(&chars("+")), None);
    assert_eq!(parse_i64(&chars("-")), None);
    assert_eq!(parse_i64(&chars("")), None);
    assert_eq!(parse_i64(&chars(" 5")), None);
    assert_eq!(parse_i64(&chars("5 ")), None);
    assert_eq!(parse_i64(&chars("--5")), None);
}

#[test]
fn decimal_digits_read_back() {
    for n in [0i64, 1, 9, 10, 99, 100, 12345, i64::MAX] {
        assert_eq!(parse_i64(&chars(&n.to_string())), Some(n));
        assert_eq!(parse_i64(&chars(&format!("+{}", n))), Some(n));
        assert_eq!(parse_i64(&chars(&format!("-{}", n))), Some(-n));
    }
}

#[test]
fn negation_law_on_values() {
    for s in ["0", "17", "abc", "9223372036854775807", "99999999999999999999"] {
        let plain = parse_number(&chars(s), None, false);
        let negated = parse_number(&chars(s), None, true);
        match (plain, negated) {
            (Ok(Some(Data::Integer(a))), Ok(Some(Data::Integer(b)))) => assert_eq!(b, -a),
            (Ok(None), Ok(None)) => {}
            other => panic!("unexpected {:?}", other),
        }
    }
}
