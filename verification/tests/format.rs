use pinger::csv::format_row;
use pinger::numerals::{i64_to_string, u64_to_string};

fn row(fields: Vec<&str>) -> String {
    format_row(&fields.into_iter().map(str::to_string).collect())
}

#[test]
fn header_row_joins_with_semicolons() {
    let r = row(vec!["Timestamp", "Host", "Address", "Available", "RTT", "Error"]);
    assert_eq!(r, "Timestamp;Host;Address;Available;RTT;Error\n");
}

#[test]
fn plain_fields_stay_bare() {
    assert_eq!(row(vec!["ab"]), "ab\n");
    assert_eq!(row(vec!["a", "", "b"]), "a;;b\n");
    assert_eq!(row(vec!["1.1.1.1", "true", "-1"]), "1.1.1.1;true;-1\n");
}

#[test]
fn delimiter_in_field_forces_quotes() {
    assert_eq!(row(vec!["a;b"]), "\"a;b\"\n");
    assert_eq!(row(vec!["x", "a;b", "y"]), "x;\"a;b\";y\n");
}

#[test]
fn quote_in_field_forces_quotes_and_doubling() {
    assert_eq!(row(vec!["a\"b"]), "\"a\"\"b\"\n");
}

#[test]
fn line_terminators_force_quotes() {
    assert_eq!(row(vec!["a\nb"]), "\"a\nb\"\n");
    assert_eq!(row(vec!["a\rb"]), "\"a\rb\"\n");
}

#[test]
fn empty_row_is_just_a_line() {
    assert_eq!(row(vec![]), "\n");
}

#[test]
fn unsigned_numerals_render_in_decimal() {
    assert_eq!(u64_to_string(0), "0");
    assert_eq!(u64_to_string(10), "10");
    assert_eq!(u64_to_string(305), "305");
    assert_eq!(u64_to_string(u64::MAX), "18446744073709551615");
}

#[test]
fn signed_numerals_render_with_sign() {
    assert_eq!(i64_to_string(-1), "-1");
    assert_eq!(i64_to_string(0), "0");
    assert_eq!(i64_to_string(42), "42");
    assert_eq!(i64_to_string(i64::MAX), "9223372036854775807");
    assert_eq!(i64_to_string(i64::MIN), "-9223372036854775808");
}
