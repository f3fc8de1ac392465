use sexpr_front::parse_integer;

#[test]
fn digits_spell_their_number() {
    assert_eq!(parse_integer("0"), Some(0));
    assert_eq!(parse_integer("42"), Some(42));
    assert_eq!(parse_integer("007"), Some(7));
    assert_eq!(parse_integer("1234567890"), Some(1234567890));
}

#[test]
fn sign_is_read() {
    assert_eq!(parse_integer("-5"), Some(-5));
    assert_eq!(parse_integer("+7"), Some(7));
    assert_eq!(parse_integer("-0"), Some(0));
}

#[test]
fn bounds_of_i64_are_read_and_nothing_beyond() {
    assert_eq!(parse_integer("9223372036854775807"), Some(i64::MAX));
    assert_eq!(parse_integer("9223372036854775808"), None);
    assert_eq!(parse_integer("-9223372036854775808"), Some(i64::MIN));
    assert_eq!(parse_integer("-9223372036854775809"), None);
    assert_eq!(parse_integer("00000000000000000000000000000000000000001"), Some(1));
    assert_eq!(parse_integer("99999999999999999999999999999999999999999"), None);
}

#[test]
fn what_is_no_numeral_is_refused() {
    assert_eq!(parse_integer(""), None);
    assert_eq!(parse_integer("-"), None);
    assert_eq!(parse_integer("+"), None);
    assert_eq!(parse_integer("--1"), None);
    assert_eq!(parse_integer("1-"), None);
    assert_eq!(parse_integer("12a"), None);
    assert_eq!(parse_integer("a12"), None);
    assert_eq!(parse_integer(" 1"), None);
    assert_eq!(parse_integer("1 "), None);
    assert_eq!(parse_integer("1_000"), None);
    assert_eq!(parse_integer("١٢"), None);
    assert_eq!(parse_integer("1é"), None);
}

#[test]
fn numerals_are_read_as_the_standard_library_reads_them() {
    let texts = [
        "", "0", "1", "-1", "+1", "-", "+", "+-1", "10", "0010", "9223372036854775807",
        "9223372036854775808", "-9223372036854775808", "-9223372036854775809",
        "18446744073709551616", "12x", "x12", "1.5", "1e3", " 7", "7 ", "٣", "+0", "-000",
    ];
    for text in texts {
        assert_eq!(parse_integer(text), i64::from_str_radix(text, 10).ok(), "{:?}", text);
    }
}
