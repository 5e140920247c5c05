//! Calendar dates: the ISO form in which the feed names its days, and the
//! end of the week that the tracker asks for.

use vstd::prelude::*;

use crate::text::{decimal, decimal_u64, digit_char, extend_chars, lemma_digit_char_code, string_of};

verus! {

/// A day of the proleptic Gregorian calendar, as chrono's `NaiveDate`
/// gives it (`year()`, `month()`, `day()`).
#[derive(Clone, Copy, Debug, PartialEq, Eq, Structural)]
pub struct CalendarDate {
    pub year: i32,
    pub month: u32,
    pub day: u32,
}

/// The date `days` days after `year-month-day`, as chrono computes it, or
/// `None` when the date does not exist or the result lies outside chrono's
/// range.
pub uninterp spec fn chrono_days_after(year: i32, month: u32, day: u32, days: i32) -> Option<(i32, u32, u32)>;

pub open spec fn date_of(t: Option<(i32, u32, u32)>) -> Option<CalendarDate> {
    match t {
        Some((year, month, day)) => Some(CalendarDate { year, month, day }),
        None => None,
    }
}

/// Calls chrono's `NaiveDate::from_ymd_opt` and `NaiveDate::checked_add_signed`;
/// claims that the result is `chrono_days_after` of the date and the count.
#[verifier::external_body]
fn date_after_days(date: CalendarDate, days: i32) -> (r: Option<CalendarDate>)
    ensures
        r == date_of(chrono_days_after(date.year, date.month, date.day, days)),
{
    let start = chrono::NaiveDate::from_ymd_opt(date.year, date.month, date.day)?;
    let end = start.checked_add_signed(chrono::TimeDelta::days(days as i64))?;
    Some(
        CalendarDate {
            year: chrono::Datelike::year(&end),
            month: chrono::Datelike::month(&end),
            day: chrono::Datelike::day(&end),
        },
    )
}

/// The number of days that the feed covers after its first day.
pub const FEED_SPAN_DAYS: i32 = 7;

/// The last day of the feed that starts on `today`: a week later, or `None`
/// where chrono has no such date.
pub fn feed_end_date(today: CalendarDate) -> (r: Option<CalendarDate>)
    ensures
        r == date_of(chrono_days_after(today.year, today.month, today.day, 7)),
{
    date_after_days(today, FEED_SPAN_DAYS)
}

/// `n` in decimal, with leading zeros up to `width` characters.
pub open spec fn zero_padded(n: nat, width: nat) -> Seq<char> {
    let digits = decimal(n);
    if digits.len() < width {
        Seq::new((width - digits.len()) as nat, |i: int| '0') + digits
    } else {
        digits
    }
}

/// The year as chrono's `%Y` writes it: four digits from 0 to 9999, and
/// otherwise a sign followed by at least four digits.
pub open spec fn year_text(year: int) -> Seq<char> {
    if 0 <= year <= 9999 {
        zero_padded(year as nat, 4)
    } else if year > 9999 {
        seq!['+'] + zero_padded(year as nat, 4)
    } else {
        seq!['-'] + zero_padded((-year) as nat, 4)
    }
}

/// The date as chrono's `%Y-%m-%d` writes it.
pub open spec fn iso_date_text(date: CalendarDate) -> Seq<char> {
    year_text(date.year as int) + seq!['-'] + zero_padded(date.month as nat, 2) + seq!['-']
        + zero_padded(date.day as nat, 2)
}

fn zero_padded_decimal(n: u64, width: usize) -> (r: Vec<char>)
    ensures
        r@ == zero_padded(n as nat, width as nat),
{
    let digits = decimal_u64(n);
    let mut r: Vec<char> = Vec::new();
    let mut i: usize = digits.len();
    while i < width
        invariant
            digits@.len() <= i <= width || (i == digits@.len() && i >= width),
            r@ == Seq::new((i - digits@.len()) as nat, |j: int| '0'),
        decreases width - i,
    {
        r.push('0');
        assert(r@ =~= Seq::new((i + 1 - digits@.len()) as nat, |j: int| '0'));
        i = i + 1;
    }
    proof {
        if digits@.len() >= width {
            assert(r@ =~= Seq::<char>::empty());
        }
    }
    extend_chars(&mut r, &digits);
    proof {
        if digits@.len() >= width {
            assert(r@ =~= digits@);
        }
    }
    r
}

/// The date in the form `YYYY-MM-DD` that chrono's `%Y-%m-%d` gives.
pub fn iso_date(date: CalendarDate) -> (r: String)
    ensures
        r@ == iso_date_text(date),
{
    let mut text: Vec<char>;
    if 0 <= date.year && date.year <= 9999 {
        text = zero_padded_decimal(date.year as u64, 4);
    } else if date.year > 9999 {
        text = vec!['+'];
        let digits = zero_padded_decimal(date.year as u64, 4);
        extend_chars(&mut text, &digits);
    } else {
        text = vec!['-'];
        let digits = zero_padded_decimal((0i64 - date.year as i64) as u64, 4);
        extend_chars(&mut text, &digits);
    }
    text.push('-');
    let month = zero_padded_decimal(date.month as u64, 2);
    extend_chars(&mut text, &month);
    text.push('-');
    let day = zero_padded_decimal(date.day as u64, 2);
    extend_chars(&mut text, &day);
    string_of(&text)
}

proof fn lemma_small_decimal(n: int)
    requires
        0 <= n < 10000,
    ensures
        n < 10 ==> decimal(n as nat) == seq![digit_char(n)],
        10 <= n < 100 ==> decimal(n as nat) == seq![digit_char(n / 10), digit_char(n % 10)],
        100 <= n < 1000 ==> decimal(n as nat) == seq![
            digit_char(n / 100),
            digit_char((n / 10) % 10),
            digit_char(n % 10),
        ],
        1000 <= n ==> decimal(n as nat) == seq![
            digit_char(n / 1000),
            digit_char((n / 100) % 10),
            digit_char((n / 10) % 10),
            digit_char(n % 10),
        ],
    decreases n,
{
    if n >= 10 {
        let q = n / 10;
        lemma_small_decimal(q);
        assert(decimal(n as nat) == decimal(q as nat).push(digit_char(n % 10)));
        assert(q / 10 == n / 100);
        assert(q % 10 == (n / 10) % 10);
        assert(q / 100 == n / 1000);
        assert((q / 10) % 10 == (n / 100) % 10);
        if n < 100 {
            assert(decimal(n as nat) =~= seq![digit_char(n / 10), digit_char(n % 10)]);
        } else if n < 1000 {
            assert(decimal(n as nat) =~= seq![
                digit_char(n / 100),
                digit_char((n / 10) % 10),
                digit_char(n % 10),
            ]);
        } else {
            assert(decimal(n as nat) =~= seq![
                digit_char(n / 1000),
                digit_char((n / 100) % 10),
                digit_char((n / 10) % 10),
                digit_char(n % 10),
            ]);
        }
    }
}

/// The four characters of `n` zero-padded to four places are its thousands,
/// hundreds, tens and ones digits.
proof fn lemma_four_places(n: int)
    requires
        0 <= n < 10000,
    ensures
        zero_padded(n as nat, 4) == seq![
            digit_char(n / 1000),
            digit_char((n / 100) % 10),
            digit_char((n / 10) % 10),
            digit_char(n % 10),
        ],
{
    lemma_small_decimal(n);
    assert(digit_char(0) == '0');
    if n < 10 {
        assert(zero_padded(n as nat, 4) =~= seq!['0', '0', '0', digit_char(n)]);
    } else if n < 100 {
        assert(zero_padded(n as nat, 4) =~= seq!['0', '0', digit_char(n / 10), digit_char(n % 10)]);
    } else if n < 1000 {
        assert(zero_padded(n as nat, 4) =~= seq![
            '0',
            digit_char(n / 100),
            digit_char((n / 10) % 10),
            digit_char(n % 10),
        ]);
    }
}

/// The two characters of `n` zero-padded to two places are its tens and
/// ones digits.
proof fn lemma_two_places(n: int)
    requires
        0 <= n < 100,
    ensures
        zero_padded(n as nat, 2) == seq![digit_char(n / 10), digit_char(n % 10)],
{
    lemma_small_decimal(n);
    assert(digit_char(0) == '0');
    if n < 10 {
        assert(zero_padded(n as nat, 2) =~= seq!['0', digit_char(n)]);
    }
}

/// For a year from 0 to 9999 the ISO text has no sign: it is exactly ten
/// characters, the four digits of the year, `-`, the two digits of the
/// month, `-` and the two digits of the day, each digit the character whose
/// code is that of `'0'` plus the digit's value.
pub proof fn lemma_iso_date_digits(date: CalendarDate)
    requires
        0 <= date.year <= 9999,
        date.month < 100,
        date.day < 100,
    ensures
        iso_date_text(date).len() == 10,
        iso_date_text(date)[0] as u32 == 48 + date.year / 1000,
        iso_date_text(date)[1] as u32 == 48 + (date.year / 100) % 10,
        iso_date_text(date)[2] as u32 == 48 + (date.year / 10) % 10,
        iso_date_text(date)[3] as u32 == 48 + date.year % 10,
        iso_date_text(date)[4] == '-',
        iso_date_text(date)[5] as u32 == 48 + date.month / 10,
        iso_date_text(date)[6] as u32 == 48 + date.month % 10,
        iso_date_text(date)[7] == '-',
        iso_date_text(date)[8] as u32 == 48 + date.day / 10,
        iso_date_text(date)[9] as u32 == 48 + date.day % 10,
{
    let y = date.year as int;
    let m = date.month as int;
    let d = date.day as int;
    lemma_four_places(y);
    lemma_two_places(m);
    lemma_two_places(d);
    let t = iso_date_text(date);
    assert(t =~= seq![
        digit_char(y / 1000),
        digit_char((y / 100) % 10),
        digit_char((y / 10) % 10),
        digit_char(y % 10),
        '-',
        digit_char(m / 10),
        digit_char(m % 10),
        '-',
        digit_char(d / 10),
        digit_char(d % 10),
    ]);
    lemma_digit_char_code(y / 1000);
    lemma_digit_char_code((y / 100) % 10);
    lemma_digit_char_code((y / 10) % 10);
    lemma_digit_char_code(y % 10);
    lemma_digit_char_code(m / 10);
    lemma_digit_char_code(m % 10);
    lemma_digit_char_code(d / 10);
    lemma_digit_char_code(d % 10);
}

/// Beyond year 9999 the ISO text starts with `+`, before year 0 with `-`;
/// from 0 to 9999 it starts with a digit.
pub proof fn lemma_iso_date_sign(date: CalendarDate)
    ensures
        date.year > 9999 ==> iso_date_text(date)[0] == '+',
        date.year < 0 ==> iso_date_text(date)[0] == '-',
        0 <= date.year <= 9999 && date.month < 100 && date.day < 100 ==> 48 <= iso_date_text(
            date,
        )[0] as u32 <= 57,
{
    if 0 <= date.year <= 9999 && date.month < 100 && date.day < 100 {
        lemma_iso_date_digits(date);
    }
}

} // verus!
