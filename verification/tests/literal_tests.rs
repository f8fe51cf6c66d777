use fdl::literal::{
    decimal_string, is_float_literal, parse_bool, parse_i32, push_decimal, signed_decimal_string,
};

#[test]
fn parse_i32_agrees_with_the_standard_library() {
    let literals = [
        "", "0", "-0", "+0", "12", "-12", "+12", "0012", "2147483647", "2147483648",
        "-2147483648", "-2147483649", "99999999999999999999", "-99999999999999999999", "+", "-",
        "+-1", "--1", "1 ", " 1", "1_000", "1.0", "1e3", "0x10", "abc", "12a", "\u{661}",
        "00000000000000000000000001", "-00000000000000000000002147483648",
    ];
    for literal in literals {
        assert_eq!(parse_i32(literal), literal.parse::<i32>().ok(), "{:?}", literal);
    }
}

#[test]
fn parse_bool_agrees_with_the_standard_library() {
    for literal in ["true", "false", "", "True", "FALSE", "1", "0", " true", "truee", "t"] {
        assert_eq!(parse_bool(literal), literal.parse::<bool>().ok(), "{:?}", literal);
    }
}

#[test]
fn float_literals_are_what_the_standard_library_reads_as_floats() {
    let literals = [
        "", "0", "1", "12.1", "-12.1", "+12.1", "5.", ".5", ".", "-.", "+.5", "-5.", "1e5", "1E5",
        "1e+5", "1e-5", "1e", "1e+", "e5", ".e5", "1.e5", ".5e5", "1.5e5.0", "1.2.3", "inf",
        "-inf", "+inf", "INF", "Inf", "infinity", "-Infinity", "INFINITY", "infinit", "infinityy",
        "nan", "NaN", "-nan", "+NAN", "na", "nanx", " 1", "1 ", "1_0", "0x10", "1f", "--1",
        "+-1", "+", "-", "1e5e5", "1ee5", "1e5.", "00.00", "0e0", "١", "1,5", "\"1.5\"",
        "340282350000000000000000000000000000000000", "1e400", "1e-400", "true", "hello world",
    ];
    for literal in literals {
        assert_eq!(
            is_float_literal(literal),
            literal.parse::<f32>().is_ok(),
            "{:?}",
            literal
        );
    }
}

#[test]
fn numbers_are_written_in_base_ten() {
    for n in [0u64, 1, 9, 10, 11, 99, 100, 1234567890, u64::MAX] {
        assert_eq!(decimal_string(n), n.to_string());
    }
    for v in [0i32, 1, -1, 9, -9, 10, -10, 12345, -12345, i32::MAX, i32::MIN] {
        assert_eq!(signed_decimal_string(v), v.to_string());
    }
    let mut text = "n = ".to_string();
    push_decimal(&mut text, 407);
    assert_eq!(text, "n = 407");
}
