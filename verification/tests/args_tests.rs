use string_art::get_argument_value;

#[test]
fn parses_a_decimal_value() {
    let s = String::from("123");
    assert_eq!(get_argument_value(Some(&s)), Some(123));
}

#[test]
fn parses_zero() {
    let s = String::from("0");
    assert_eq!(get_argument_value(Some(&s)), Some(0));
}

#[test]
fn parses_leading_zeros() {
    let s = String::from("0400");
    assert_eq!(get_argument_value(Some(&s)), Some(400));
}

#[test]
fn rejects_a_missing_argument() {
    assert_eq!(get_argument_value(None), None);
}

#[test]
fn rejects_an_empty_string() {
    let s = String::from("");
    assert_eq!(get_argument_value(Some(&s)), None);
}

#[test]
fn rejects_non_digits() {
    let s = String::from("12a");
    assert_eq!(get_argument_value(Some(&s)), None);
    let t = String::from("-5");
    assert_eq!(get_argument_value(Some(&t)), None);
}

#[test]
fn rejects_an_overflowing_value() {
    let s = String::from("99999999999999999999999999999999");
    assert_eq!(get_argument_value(Some(&s)), None);
}
