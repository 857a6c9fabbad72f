use textutil::numbers::parse_positive_int;

#[test]
fn test_parse_positive_int() {
    // 3 is a positive integer
    let res = parse_positive_int("3");
    assert!(res.is_ok());

    assert_eq!(res.unwrap(), 3);

    // A non-numeric string is an error
    let res = parse_positive_int("foo");
    assert!(res.is_err());
    assert_eq!(res.unwrap_err().to_string(), "foo".to_string());

    // Zero is an error too
    let res = parse_positive_int("0");
    assert!(res.is_err());
    assert_eq!(res.unwrap_err().to_string(), "0".to_string());
}

#[test]
fn leading_plus_is_accepted_once() {
    // The standard library's integer parser takes one optional "+"
    assert_eq!(parse_positive_int("+3").unwrap(), 3);
    assert!(parse_positive_int("+").is_err());
    assert!(parse_positive_int("++3").is_err());
    assert!(parse_positive_int("+0").is_err());
}

#[test]
fn leading_zeros_and_limits() {
    assert_eq!(parse_positive_int("007").unwrap(), 7);
    assert!(parse_positive_int("").is_err());
    assert!(parse_positive_int("-1").is_err());
    assert!(parse_positive_int("3 ").is_err());
    let res = parse_positive_int("99999999999999999999999999");
    assert_eq!(res.unwrap_err(), "99999999999999999999999999");

    // The exact edge of the machine word
    assert_eq!(
        parse_positive_int("18446744073709551615").unwrap(),
        usize::MAX
    );
    assert!(parse_positive_int("18446744073709551616").is_err());
}
