use pbs_client::coerce::{as_number, coerce, parse_i64_str, Coerced};

#[test]
fn plain_integers_become_numbers() {
    assert_eq!(coerce("5"), Coerced::Number(5));
    assert_eq!(coerce("-3"), Coerced::Number(-3));
    assert_eq!(coerce("+7"), Coerced::Number(7));
    assert_eq!(coerce("007"), Coerced::Number(7));
    assert_eq!(coerce("0"), Coerced::Number(0));
}

#[test]
fn unit_suffixes_normalize_to_megabyte_base() {
    assert_eq!(coerce("2gb"), Coerced::Number(2000));
    assert_eq!(coerce("1tb"), Coerced::Number(1_000_000));
    assert_eq!(coerce("3mb"), Coerced::Number(3));
    assert_eq!(coerce("1500kb"), Coerced::Number(1));
    assert_eq!(coerce("2500000b"), Coerced::Number(2));
    assert_eq!(coerce("1b"), Coerced::Number(0));
}

#[test]
fn scaling_down_truncates_toward_zero() {
    assert_eq!(coerce("-1500kb"), Coerced::Number(-1));
    assert_eq!(coerce("-999b"), Coerced::Number(0));
}

#[test]
fn booleans_any_letter_case() {
    assert_eq!(coerce("true"), Coerced::Bool(true));
    assert_eq!(coerce("FALSE"), Coerced::Bool(false));
    assert_eq!(coerce("True"), Coerced::Bool(true));
    assert_eq!(coerce("fAlSe"), Coerced::Bool(false));
}

#[test]
fn everything_else_passes_through_as_string() {
    assert_eq!(coerce("abc"), Coerced::Str("abc".to_string()));
    assert_eq!(coerce(""), Coerced::Str("".to_string()));
    assert_eq!(coerce("1.5"), Coerced::Str("1.5".to_string()));
    assert_eq!(coerce("12x"), Coerced::Str("12x".to_string()));
    assert_eq!(coerce("xb"), Coerced::Str("xb".to_string()));
    assert_eq!(coerce("trueb"), Coerced::Str("trueb".to_string()));
}

#[test]
fn suffix_is_case_sensitive() {
    assert_eq!(coerce("2GB"), Coerced::Str("2GB".to_string()));
}

#[test]
fn sixty_four_bit_bounds() {
    assert_eq!(coerce("9223372036854775807"), Coerced::Number(i64::MAX));
    assert_eq!(coerce("-9223372036854775808"), Coerced::Number(i64::MIN));
    assert_eq!(
        coerce("9223372036854775808"),
        Coerced::Str("9223372036854775808".to_string())
    );
}

#[test]
fn scaling_past_the_range_passes_through() {
    assert_eq!(
        coerce("9223372036854775tb"),
        Coerced::Str("9223372036854775tb".to_string())
    );
}

#[test]
fn parse_i64_rejects_malformed_text() {
    assert_eq!(parse_i64_str("12"), Some(12));
    assert_eq!(parse_i64_str("-0"), Some(0));
    assert_eq!(parse_i64_str(""), None);
    assert_eq!(parse_i64_str("-"), None);
    assert_eq!(parse_i64_str("+"), None);
    assert_eq!(parse_i64_str("1 2"), None);
    assert_eq!(parse_i64_str("12a"), None);
    assert_eq!(parse_i64_str("a12"), None);
}

#[test]
fn numeric_reading_matches_coercion() {
    assert_eq!(as_number("2gb"), Some(2000));
    assert_eq!(as_number("17"), Some(17));
    assert_eq!(as_number("true"), None);
    assert_eq!(as_number("abc"), None);
}
