use asteroidtracker::text::{compare_chars, decimal_i64, decimal_u64, insert_thousands_separators, Comparison};

fn chars(s: &str) -> Vec<char> {
    s.chars().collect()
}

#[test]
fn thousands_separators_in_whole_part() {
    assert_eq!(insert_thousands_separators("1234567.89"), "1,234,567.89");
    assert_eq!(insert_thousands_separators("123456.00"), "123,456.00");
    assert_eq!(insert_thousands_separators("1000.50"), "1,000.50");
    assert_eq!(insert_thousands_separators("999.99"), "999.99");
    assert_eq!(insert_thousands_separators("0.00"), "0.00");
}

#[test]
fn thousands_separators_without_fraction() {
    assert_eq!(insert_thousands_separators("1234567"), "1,234,567");
    assert_eq!(insert_thousands_separators(""), "");
    assert_eq!(insert_thousands_separators("NaN"), "NaN");
    assert_eq!(insert_thousands_separators("inf"), "inf");
}

#[test]
fn thousands_separators_drop_a_trailing_dot() {
    assert_eq!(insert_thousands_separators("1234."), "1,234");
}

#[test]
fn thousands_separators_split_at_first_dot() {
    assert_eq!(insert_thousands_separators("1234.5.6"), "1,234.5.6");
}

#[test]
fn thousands_separators_count_the_sign_as_a_character() {
    assert_eq!(insert_thousands_separators("-1234.00"), "-1,234.00");
    assert_eq!(insert_thousands_separators("-123.00"), "-,123.00");
}

#[test]
fn grouping_only_adds_commas() {
    let grouped = insert_thousands_separators("98765432101");
    assert_eq!(grouped, "98,765,432,101");
    assert_eq!(grouped.replace(',', ""), "98765432101");
}

#[test]
fn decimals_of_integers() {
    assert_eq!(decimal_u64(0), chars("0"));
    assert_eq!(decimal_u64(u64::MAX), chars("18446744073709551615"));
    assert_eq!(decimal_i64(-42), chars("-42"));
    assert_eq!(decimal_i64(i64::MIN), chars("-9223372036854775808"));
    assert_eq!(decimal_i64(i64::MAX), chars("9223372036854775807"));
}

#[test]
fn lexicographic_comparison() {
    assert_eq!(compare_chars(&chars("abc"), &chars("abd")), Comparison::Less);
    assert_eq!(compare_chars(&chars("abd"), &chars("abc")), Comparison::Greater);
    assert_eq!(compare_chars(&chars("ab"), &chars("abc")), Comparison::Less);
    assert_eq!(compare_chars(&chars("abc"), &chars("abc")), Comparison::Equal);
    assert_eq!(compare_chars(&chars("Z"), &chars("a")), Comparison::Less);
    assert_eq!(compare_chars(&chars(""), &chars("")), Comparison::Equal);
}
