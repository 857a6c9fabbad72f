use textutil::selection::{parse_pos, SelectionError};

#[test]
fn test_parse_pos() {
    // The empty string is an error
    assert!(parse_pos("").is_err());

    // Zero is an error
    let res = parse_pos("0");
    assert!(res.is_err());
    assert_eq!(res.unwrap_err().message(), r#"illegal list value: "0""#);

    // A zero bound inside a well-formed range reports that bound
    let res = parse_pos("0-1");
    assert!(res.is_err());
    assert_eq!(res.unwrap_err().message(), r#"illegal list value: "0""#);

    // A leading "+" is an error
    let res = parse_pos("+1");
    assert!(res.is_err());
    assert_eq!(res.unwrap_err().message(), r#"illegal list value: "+1""#,);

    let res = parse_pos("+1-2");
    assert!(res.is_err());
    assert_eq!(res.unwrap_err().message(), r#"illegal list value: "+1-2""#,);

    let res = parse_pos("1-+2");
    assert!(res.is_err());
    assert_eq!(res.unwrap_err().message(), r#"illegal list value: "1-+2""#,);

    // Any non-number is an error
    let res = parse_pos("a");
    assert!(res.is_err());
    assert_eq!(res.unwrap_err().message(), r#"illegal list value: "a""#);

    let res = parse_pos("1,a");
    assert!(res.is_err());
    assert_eq!(res.unwrap_err().message(), r#"illegal list value: "a""#);

    let res = parse_pos("1-a");
    assert!(res.is_err());
    assert_eq!(res.unwrap_err().message(), r#"illegal list value: "1-a""#,);

    let res = parse_pos("a-1");
    assert!(res.is_err());
    assert_eq!(res.unwrap_err().message(), r#"illegal list value: "a-1""#,);

    // Wonky ranges
    let res = parse_pos("-");
    assert!(res.is_err());

    let res = parse_pos(",");
    assert!(res.is_err());

    let res = parse_pos("1,");
    assert!(res.is_err());

    let res = parse_pos("1-");
    assert!(res.is_err());

    let res = parse_pos("1-1-1");
    assert!(res.is_err());

    let res = parse_pos("1-1-a");
    assert!(res.is_err());

    // First number must be less than second
    let res = parse_pos("1-1");
    assert!(res.is_err());
    assert_eq!(
        res.unwrap_err().message(),
        "First number in range (1) must be lower than second number (1)"
    );

    let res = parse_pos("2-1");
    assert!(res.is_err());
    assert_eq!(
        res.unwrap_err().message(),
        "First number in range (2) must be lower than second number (1)"
    );

    // All the following are acceptable
    let res = parse_pos("1");
    assert!(res.is_ok());
    assert_eq!(res.unwrap(), vec![0..1]);

    let res = parse_pos("01");
    assert!(res.is_ok());
    assert_eq!(res.unwrap(), vec![0..1]);

    let res = parse_pos("1,3");
    assert!(res.is_ok());
    assert_eq!(res.unwrap(), vec![0..1, 2..3]);

    let res = parse_pos("001,0003");
    assert!(res.is_ok());
    assert_eq!(res.unwrap(), vec![0..1, 2..3]);

    let res = parse_pos("1-3");
    assert!(res.is_ok());
    assert_eq!(res.unwrap(), vec![0..3]);

    let res = parse_pos("0001-03");
    assert!(res.is_ok());
    assert_eq!(res.unwrap(), vec![0..3]);

    let res = parse_pos("1,7,3-5");
    assert!(res.is_ok());
    assert_eq!(res.unwrap(), vec![0..1, 6..7, 2..5]);

    let res = parse_pos("15,19-20");
    assert!(res.is_ok());
    assert_eq!(res.unwrap(), vec![14..15, 18..20]);
}

#[test]
fn error_variants_carry_their_data() {
    match parse_pos("a") {
        Err(SelectionError::IllegalValue(t)) => assert_eq!(t, "a"),
        other => panic!("expected IllegalValue, got {:?}", other),
    }
    match parse_pos("2-1") {
        Err(SelectionError::RangeOrder(a, b)) => {
            assert_eq!(a, 2);
            assert_eq!(b, 1);
        }
        other => panic!("expected RangeOrder, got {:?}", other),
    }
}

#[test]
fn range_order_message_with_multiple_digits() {
    let res = parse_pos("21-3");
    assert!(res.is_err());
    assert_eq!(
        res.unwrap_err().message(),
        "First number in range (21) must be lower than second number (3)"
    );
}

#[test]
fn first_bad_token_wins() {
    // The first failing token aborts the compilation with its own error,
    // whatever comes after it.
    let res = parse_pos("1,0,2-1");
    assert_eq!(res.unwrap_err().message(), r#"illegal list value: "0""#);
    let res = parse_pos("3,2-1,a");
    assert_eq!(
        res.unwrap_err().message(),
        "First number in range (2) must be lower than second number (1)"
    );
}

#[test]
fn compile_is_deterministic() {
    // Same specification, same outcome, bit for bit.
    assert_eq!(parse_pos("1,7,3-5"), parse_pos("1,7,3-5"));
    assert_eq!(parse_pos("15,19-20"), parse_pos("15,19-20"));
    assert_eq!(parse_pos("2-1"), parse_pos("2-1"));
    assert_eq!(parse_pos(""), parse_pos(""));
    let a = parse_pos("2-1").unwrap_err();
    let b = parse_pos("2-1").unwrap_err();
    assert_eq!(a.message(), b.message());
}

#[test]
fn overflowing_positions_are_illegal() {
    let res = parse_pos("99999999999999999999999999");
    assert!(res.is_err());
    assert_eq!(
        res.unwrap_err().message(),
        r#"illegal list value: "99999999999999999999999999""#
    );
}

#[test]
fn largest_position_still_compiles() {
    // usize::MAX is the last representable position
    let res = parse_pos("18446744073709551615");
    assert_eq!(res.unwrap(), vec![usize::MAX - 1..usize::MAX]);
    let res = parse_pos("18446744073709551616");
    assert_eq!(
        res.unwrap_err().message(),
        r#"illegal list value: "18446744073709551616""#
    );
}

#[test]
fn empty_tokens_are_illegal() {
    let res = parse_pos(",1");
    assert_eq!(res.unwrap_err().message(), r#"illegal list value: """#);
    let res = parse_pos("1,,2");
    assert_eq!(res.unwrap_err().message(), r#"illegal list value: """#);
}
