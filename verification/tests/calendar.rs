use asteroidtracker::calendar::{feed_end_date, iso_date, CalendarDate};

fn date(year: i32, month: u32, day: u32) -> CalendarDate {
    CalendarDate { year, month, day }
}

#[test]
fn iso_dates_have_four_digit_years() {
    assert_eq!(iso_date(date(2024, 3, 5)), "2024-03-05");
    assert_eq!(iso_date(date(1999, 12, 31)), "1999-12-31");
    assert_eq!(iso_date(date(5, 1, 1)), "0005-01-01");
    assert_eq!(iso_date(date(0, 7, 10)), "0000-07-10");
}

#[test]
fn iso_dates_sign_years_beyond_four_digits() {
    assert_eq!(iso_date(date(12345, 6, 7)), "+12345-06-07");
    assert_eq!(iso_date(date(10000, 1, 1)), "+10000-01-01");
    assert_eq!(iso_date(date(-1, 2, 3)), "-0001-02-03");
    assert_eq!(iso_date(date(-12345, 2, 3)), "-12345-02-03");
}

#[test]
fn feed_ends_a_week_later() {
    assert_eq!(feed_end_date(date(2024, 3, 5)), Some(date(2024, 3, 12)));
    assert_eq!(feed_end_date(date(2024, 2, 25)), Some(date(2024, 3, 3)));
    assert_eq!(feed_end_date(date(2023, 2, 25)), Some(date(2023, 3, 4)));
    assert_eq!(feed_end_date(date(2023, 12, 28)), Some(date(2024, 1, 4)));
}

#[test]
fn feed_has_no_end_where_chrono_has_no_date() {
    assert_eq!(feed_end_date(date(2023, 2, 29)), None);
    assert_eq!(feed_end_date(date(2023, 13, 1)), None);
    assert_eq!(feed_end_date(date(262142, 12, 30)), None);
}
