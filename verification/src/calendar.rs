//! Civil dates of the proleptic Gregorian calendar.

use crate::order::{differ_at, lemma_before_transitive, text_before};
use crate::text::{decimal, digit_char, lemma_decimal_digits, to_chars, to_decimal};
use vstd::prelude::*;
use vstd::string::*;

verus! {

// ---------------------------------------------------------------------------
// The calendar
// ---------------------------------------------------------------------------

/// A leap year.
pub open spec fn is_leap(year: int) -> bool {
    year % 4 == 0 && (year % 100 != 0 || year % 400 == 0)
}

/// The number of days of a month.
pub open spec fn month_length(year: int, month: int) -> int {
    if month == 2 {
        if is_leap(year) {
            29
        } else {
            28
        }
    } else if month == 4 || month == 6 || month == 9 || month == 11 {
        30
    } else {
        31
    }
}

/// A day of the calendar.
pub open spec fn is_date(year: int, month: int, day: int) -> bool {
    1 <= month <= 12 && 1 <= day <= month_length(year, month)
}

/// The number of leap years from the year 1 to `year`; negative before that.
pub open spec fn leap_years_through(year: int) -> int {
    year / 4 - year / 100 + year / 400
}

/// The number of days from 1970-01-01 to the first of January of `year`.
pub open spec fn days_to_year(year: int) -> int {
    365 * (year - 1970) + leap_years_through(year - 1) - leap_years_through(1969)
}

/// The number of days from the first of January to the first of a month.
pub open spec fn days_to_month(year: int, month: int) -> int
    decreases month,
{
    if month <= 1 {
        0
    } else {
        days_to_month(year, month - 1) + month_length(year, month - 1)
    }
}

/// The number of days from 1970-01-01 to a date.
pub open spec fn day_number(year: int, month: int, day: int) -> int {
    days_to_year(year) + days_to_month(year, month) + day - 1
}

/// A numeral with zeros in front up to a width.
pub open spec fn padded(numeral: Seq<char>, width: nat) -> Seq<char>
    decreases width - numeral.len(),
{
    if numeral.len() >= width {
        numeral
    } else {
        padded(seq!['0'] + numeral, width)
    }
}

/// A year in at least four characters, its sign among them.
pub open spec fn year_text(year: int) -> Seq<char> {
    if year >= 0 {
        padded(decimal(year as nat), 4)
    } else {
        "-"@ + padded(decimal((-year) as nat), 3)
    }
}

/// `YYYY-MM-DD`
pub open spec fn date_text(year: int, month: int, day: int) -> Seq<char> {
    year_text(year) + "-"@ + padded(decimal(month as nat), 2) + "-"@ + padded(
        decimal(day as nat),
        2,
    )
}

/// `text` is the date of the day on which `seconds` since
/// 1970-01-01T00:00:00Z have passed.
pub open spec fn is_date_of(text: Seq<char>, seconds: int) -> bool {
    exists|year: int, month: int, day: int|
        is_date(year, month, day) && #[trigger] day_number(year, month, day) == seconds / 86_400
            && text == date_text(year, month, day)
}

/// `days_to_month` month by month.
proof fn lemma_days_to_month(year: int)
    ensures
        days_to_month(year, 1) == 0,
        days_to_month(year, 2) == 31,
        days_to_month(year, 3) == 31 + month_length(year, 2),
        days_to_month(year, 4) == 62 + month_length(year, 2),
        days_to_month(year, 5) == 92 + month_length(year, 2),
        days_to_month(year, 6) == 123 + month_length(year, 2),
        days_to_month(year, 7) == 153 + month_length(year, 2),
        days_to_month(year, 8) == 184 + month_length(year, 2),
        days_to_month(year, 9) == 215 + month_length(year, 2),
        days_to_month(year, 10) == 245 + month_length(year, 2),
        days_to_month(year, 11) == 276 + month_length(year, 2),
        days_to_month(year, 12) == 306 + month_length(year, 2),
        days_to_month(year, 13) == 337 + month_length(year, 2),
{
    reveal_with_fuel(days_to_month, 14);
}

/// How many multiples of `d` lie between two neighbours.
proof fn lemma_quotient_step(n: int, d: int)
    requires
        d > 1,
    ensures
        n / d - (n - 1) / d == if n % d == 0 {
            1int
        } else {
            0int
        },
{
    let q = n / d;
    let r = n % d;
    vstd::arithmetic::div_mod::lemma_fundamental_div_mod(n, d);
    if r == 0 {
        assert(n - 1 == (q - 1) * d + (d - 1)) by (nonlinear_arith)
            requires
                n == d * q + r,
                r == 0,
        ;
        vstd::arithmetic::div_mod::lemma_fundamental_div_mod_converse(n - 1, d, q - 1, d - 1);
    } else {
        assert(n - 1 == q * d + (r - 1)) by (nonlinear_arith)
            requires
                n == d * q + r,
        ;
        vstd::arithmetic::div_mod::lemma_fundamental_div_mod_converse(n - 1, d, q, r - 1);
    }
}

/// The count of leap years grows by one in each.
proof fn lemma_leap_years_step(year: int)
    ensures
        leap_years_through(year) - leap_years_through(year - 1) == if is_leap(year) {
            1int
        } else {
            0int
        },
{
    lemma_quotient_step(year, 4);
    lemma_quotient_step(year, 100);
    lemma_quotient_step(year, 400);
    assert(year % 400 == 0 ==> year % 100 == 0);
    assert(year % 100 == 0 ==> year % 4 == 0);
}

/// A year is as long as its months together, and the count of days begins
/// on 1970-01-01.
pub proof fn law_years_follow_each_other(year: int)
    ensures
        days_to_year(1970) == 0,
        days_to_year(year + 1) == days_to_year(year) + days_to_month(year, 13),
        days_to_month(year, 13) == if is_leap(year) {
            366int
        } else {
            365int
        },
{
    lemma_days_to_month(year);
    lemma_leap_years_step(year);
}

/// Later years begin on later days.
proof fn lemma_years_grow(a: int, b: int)
    requires
        a <= b,
    ensures
        days_to_year(b) >= days_to_year(a) + 365 * (b - a),
    decreases b - a,
{
    if a < b {
        lemma_years_grow(a, b - 1);
        law_years_follow_each_other(b - 1);
    }
}

/// The days of a year come before the first day of the next.
proof fn lemma_day_within_year(year: int, month: int, day: int)
    requires
        is_date(year, month, day),
    ensures
        days_to_year(year) <= day_number(year, month, day) < days_to_year(year + 1),
{
    law_years_follow_each_other(year);
    lemma_days_to_month(year);
}

/// Two dates with the same day number are the same date.
pub proof fn law_day_number_tells_dates_apart(y1: int, m1: int, d1: int, y2: int, m2: int, d2: int)
    requires
        is_date(y1, m1, d1),
        is_date(y2, m2, d2),
        day_number(y1, m1, d1) == day_number(y2, m2, d2),
    ensures
        y1 == y2 && m1 == m2 && d1 == d2,
{
    lemma_day_within_year(y1, m1, d1);
    lemma_day_within_year(y2, m2, d2);
    if y1 < y2 {
        lemma_years_grow(y1 + 1, y2);
    } else if y2 < y1 {
        lemma_years_grow(y2 + 1, y1);
    }
    lemma_days_to_month(y1);
}

/// The number of days from 0000-03-01 to the first of March of `year`.
spec fn days_to_march(year: int) -> int {
    365 * year + leap_years_through(year)
}

/// Years counted from March on: how many of them the first `doe` days of an
/// era of 400 years hold.
proof fn lemma_year_of_era(doe: int, yoe: int)
    requires
        0 <= doe < 146_097,
        yoe == (doe - doe / 1_460 + doe / 36_524 - doe / 146_096) / 365,
    ensures
        0 <= yoe < 400,
        ({
            let doy = doe - (365 * yoe + yoe / 4 - yoe / 100);
            &&& 0 <= doy <= 365
            &&& doy == 365 ==> is_leap(yoe + 1)
        }),
{
    if doe == 146_096 {
        assert(yoe == 399);
    } else {
        let c = doe / 36_524;
        let r = doe % 36_524;
        assert(doe == 36_524 * c + r && 0 <= c <= 3 && 0 <= r < 36_524);
        let q = r / 1_461;
        let s = r % 1_461;
        assert(r == 1_461 * q + s && 0 <= q <= 24 && 0 <= s < 1_461);
        let t: int = if 24 * c + q + s >= 1_460 {
            1
        } else {
            0
        };
        assert(doe / 1_460 == 25 * c + q + t);
        assert(doe / 146_096 == 0);
        assert(doe - doe / 1_460 + doe / 36_524 - doe / 146_096 == 36_500 * c + 1_460 * q + s - t);
        let w: int = if s < 365 {
            0
        } else if s < 730 {
            1
        } else if s < 1_095 {
            2
        } else {
            3
        };
        assert(yoe == 100 * c + 4 * q + w);
        assert(yoe / 4 == 25 * c + q);
        assert(yoe / 100 == c);
        assert(doe - (365 * yoe + yoe / 4 - yoe / 100) == s - 365 * w);
        if s - 365 * w == 365 {
            assert(yoe + 1 == 100 * c + 4 * q + 4);
            assert((yoe + 1) % 4 == 0);
            assert(q == 24 ==> s < 1_460);
            assert((yoe + 1) % 100 != 0);
        }
    }
}

/// What an era of 400 years adds to the count of leap years.
proof fn lemma_era(era: int, yoe: int)
    requires
        0 <= yoe < 400,
    ensures
        days_to_march(400 * era + yoe) == 146_097 * era + 365 * yoe + yoe / 4 - yoe / 100,
        is_leap(400 * era + yoe + 1) == is_leap(yoe + 1),
{
    assert((400 * era + yoe) / 4 == 100 * era + yoe / 4);
    assert((400 * era + yoe) / 100 == 4 * era + yoe / 100);
    assert((400 * era + yoe) / 400 == era);
    assert((400 * era + yoe + 1) % 4 == (yoe + 1) % 4);
    assert((400 * era + yoe + 1) % 100 == (yoe + 1) % 100);
    assert((400 * era + yoe + 1) % 400 == (yoe + 1) % 400);
}

/// From the day of a year that begins in March to month and day.
proof fn lemma_march_year(year: int, doy: int, mp: int, day: int)
    requires
        0 <= doy <= 365,
        doy == 365 ==> is_leap(year + 1),
        mp == (5 * doy + 2) / 153,
        day == doy - (153 * mp + 2) / 5 + 1,
    ensures
        0 <= mp <= 11,
        mp < 10 ==> is_date(year, mp + 3, day) && day_number(year, mp + 3, day) == days_to_march(
            year,
        ) + doy - 719_468,
        mp >= 10 ==> is_date(year + 1, mp - 9, day) && day_number(year + 1, mp - 9, day)
            == days_to_march(year) + doy - 719_468,
{
    lemma_leap_years_step(year);
    lemma_days_to_month(year);
    lemma_days_to_month(year + 1);
    assert(0 <= mp <= 11);
    assert(153 * mp <= 5 * doy + 2 < 153 * mp + 153);
}

/// The date that a day number belongs to, as year, month and day.
fn civil_from_days(days: i64) -> (date: (i64, i64, i64))
    requires
        -200_000_000_000_000 < days < 200_000_000_000_000,
    ensures
        is_date(date.0 as int, date.1 as int, date.2 as int),
        day_number(date.0 as int, date.1 as int, date.2 as int) == days,
        -600_000_000_000 < date.0 < 600_000_000_000,
{
    // Years are counted from March on, in eras of 400 years.
    let z: i64 = days + 719_468;
    let era: i64 = if z >= 0 {
        z / 146_097
    } else {
        (z - 146_096) / 146_097
    };
    let doe: i64 = z - era * 146_097;
    let yoe: i64 = (doe - doe / 1_460 + doe / 36_524 - doe / 146_096) / 365;
    proof {
        lemma_year_of_era(doe as int, yoe as int);
        lemma_era(era as int, yoe as int);
    }
    let doy: i64 = doe - (365 * yoe + yoe / 4 - yoe / 100);
    let mp: i64 = (5 * doy + 2) / 153;
    let day: i64 = doy - (153 * mp + 2) / 5 + 1;
    proof {
        lemma_march_year(400 * era + yoe, doy as int, mp as int, day as int);
    }
    let month: i64 = if mp < 10 {
        mp + 3
    } else {
        mp - 9
    };
    let year: i64 = yoe + era * 400;
    if month <= 2 {
        (year + 1, month, day)
    } else {
        (year, month, day)
    }
}

/// A numeral with zeros in front up to a width.
fn pad(numeral: String, width: usize) -> (out: String)
    ensures
        out@ == padded(numeral@, width as nat),
{
    let chars: Vec<char> = to_chars(&numeral);
    let mut out: String = numeral;
    let mut length: usize = chars.len();
    while length < width
        invariant
            length == out@.len(),
            padded(out@, width as nat) == padded(numeral@, width as nat),
        decreases width - length,
    {
        let mut longer: String = "0".to_owned();
        proof {
            reveal_strlit("0");
            assert("0"@ =~= seq!['0']);
        }
        longer.append(&out);
        out = longer;
        length = length + 1;
    }
    out
}

/// The UTC date, as `YYYY-MM-DD`, on which `seconds` since
/// 1970-01-01T00:00:00Z have passed.
pub fn iso_date(seconds: i64) -> (date: String)
    ensures
        is_date_of(date@, seconds as int),
{
    let days: i64 = if seconds >= 0 {
        seconds / 86_400
    } else if seconds % 86_400 == 0 {
        seconds / 86_400
    } else {
        seconds / 86_400 - 1
    };
    assert(days == seconds as int / 86_400);
    let (year, month, day) = civil_from_days(days);
    let mut date: String = if year >= 0 {
        pad(to_decimal(year as u64), 4)
    } else {
        let mut negative: String = "-".to_owned();
        negative.append(&pad(to_decimal((-year) as u64), 3));
        negative
    };
    date.append("-");
    date.append(&pad(to_decimal(month as u64), 2));
    date.append("-");
    date.append(&pad(to_decimal(day as u64), 2));
    assert(date@ == date_text(year as int, month as int, day as int));
    date
}

/// The system clock: `std::time::SystemTime::elapsed` since
/// `std::time::UNIX_EPOCH`, in whole seconds, or `None` where the clock
/// stands before that. Nothing is promised of the time.
#[verifier::external_body]
fn seconds_since_epoch() -> (seconds: Option<u64>) {
    std::time::UNIX_EPOCH.elapsed().ok().map(|passed| passed.as_secs())
}

/// Today's UTC date as `YYYY-MM-DD`, derived from the system clock.
pub fn iso_date_today() -> (date: String)
    ensures
        exists|seconds: i64| is_date_of(date@, seconds as int),
{
    let seconds: i64 = match seconds_since_epoch() {
        Some(passed) => #[verifier::truncate]
        (passed as i64),
        None => 0,
    };
    iso_date(seconds)
}

/// A moment has one date.
pub proof fn law_date_is_unique(a: Seq<char>, b: Seq<char>, seconds: int)
    requires
        is_date_of(a, seconds),
        is_date_of(b, seconds),
    ensures
        a == b,
{
    let (y1, m1, d1) = choose|year: int, month: int, day: int|
        is_date(year, month, day) && #[trigger] day_number(year, month, day) == seconds / 86_400
            && a == date_text(year, month, day);
    let (y2, m2, d2) = choose|year: int, month: int, day: int|
        is_date(year, month, day) && #[trigger] day_number(year, month, day) == seconds / 86_400
            && b == date_text(year, month, day);
    law_day_number_tells_dates_apart(y1, m1, d1, y2, m2, d2);
}

/// A numeral that fits into a width is padded to exactly that width, and
/// stays a row of digits.
proof fn lemma_padded(numeral: Seq<char>, width: nat)
    requires
        numeral.len() <= width,
        forall|i: int| 0 <= i < numeral.len() ==> '0' <= #[trigger] numeral[i] <= '9',
    ensures
        padded(numeral, width).len() == width,
        forall|i: int| 0 <= i < width ==> '0' <= #[trigger] padded(numeral, width)[i] <= '9',
    decreases width - numeral.len(),
{
    if numeral.len() < width {
        lemma_padded(seq!['0'] + numeral, width);
    }
}

/// How many digits a small number has.
proof fn lemma_decimal_length(n: nat)
    ensures
        n < 10 ==> decimal(n).len() == 1,
        n < 100 ==> decimal(n).len() <= 2,
        n < 1_000 ==> decimal(n).len() <= 3,
        n < 10_000 ==> decimal(n).len() <= 4,
{
    reveal_with_fuel(decimal, 5);
}

/// The date of a year of at most four digits has ten characters: digits,
/// with hyphens behind the year and the month.
pub proof fn law_date_has_expected_shape(year: int, month: int, day: int)
    requires
        is_date(year, month, day),
        0 <= year <= 9999,
    ensures
        date_text(year, month, day).len() == 10,
        forall|i: int|
            0 <= i < 10 ==> {
                let c = #[trigger] date_text(year, month, day)[i];
                if i == 4 || i == 7 {
                    c == '-'
                } else {
                    '0' <= c <= '9'
                }
            },
{
    reveal_strlit("-");
    lemma_decimal_length(year as nat);
    lemma_decimal_length(month as nat);
    lemma_decimal_length(day as nat);
    lemma_decimal_digits(year as nat);
    lemma_decimal_digits(month as nat);
    lemma_decimal_digits(day as nat);
    lemma_padded(decimal(year as nat), 4);
    lemma_padded(decimal(month as nat), 2);
    lemma_padded(decimal(day as nat), 2);
}

/// The moment `seconds` after 1970-01-01T00:00:00Z lies in the years 0 to
/// 9999.
pub open spec fn is_in_four_digit_years(seconds: int) -> bool {
    -62_167_219_200 <= seconds < 253_402_300_800
}

/// The moments whose year has at most four digits.
proof fn lemma_four_digit_years(year: int, month: int, day: int, seconds: int)
    requires
        is_in_four_digit_years(seconds),
        is_date(year, month, day),
        day_number(year, month, day) == seconds / 86_400,
    ensures
        0 <= year <= 9999,
{
    lemma_day_within_year(year, month, day);
    assert(days_to_year(0) == -719_528);
    assert(days_to_year(10_000) == 2_932_897);
    if year < 0 {
        lemma_years_grow(year + 1, 0);
    } else if year > 9999 {
        lemma_years_grow(10_000, year);
    }
}

/// The date of a moment in a year of at most four digits has ten characters:
/// digits, with hyphens behind the year and the month.
pub proof fn law_date_of_moment_has_expected_shape(text: Seq<char>, seconds: int)
    requires
        is_in_four_digit_years(seconds),
        is_date_of(text, seconds),
    ensures
        text.len() == 10,
        forall|i: int|
            0 <= i < 10 ==> if i == 4 || i == 7 {
                #[trigger] text[i] == '-'
            } else {
                '0' <= text[i] <= '9'
            },
{
    let (year, month, day) = choose|year: int, month: int, day: int|
        is_date(year, month, day) && #[trigger] day_number(year, month, day) == seconds / 86_400
            && text == date_text(year, month, day);
    lemma_four_digit_years(year, month, day, seconds);
    law_date_has_expected_shape(year, month, day);
}

/// A number below a hundred in two digits.
proof fn lemma_two_digits(n: nat)
    requires
        n < 100,
    ensures
        padded(decimal(n), 2) == seq![digit_char((n / 10) as int), digit_char((n % 10) as int)],
{
    reveal_with_fuel(decimal, 3);
    reveal_with_fuel(padded, 3);
    assert(padded(decimal(n), 2) =~= seq![
        digit_char((n / 10) as int),
        digit_char((n % 10) as int),
    ]);
}

/// A number below ten thousand in four digits.
proof fn lemma_four_digits(n: nat)
    requires
        n < 10_000,
    ensures
        padded(decimal(n), 4) == seq![
            digit_char((n / 1_000) as int),
            digit_char((n / 100 % 10) as int),
            digit_char((n / 10 % 10) as int),
            digit_char((n % 10) as int),
        ],
{
    reveal_with_fuel(decimal, 5);
    reveal_with_fuel(padded, 5);
    assert(n / 10 / 10 == n / 100);
    assert(n / 100 / 10 == n / 1_000);
    assert(padded(decimal(n), 4) =~= seq![
        digit_char((n / 1_000) as int),
        digit_char((n / 100 % 10) as int),
        digit_char((n / 10 % 10) as int),
        digit_char((n % 10) as int),
    ]);
}

/// Of two dates the one with the smaller day number is earlier in the first
/// of year, month and day in which they differ.
proof fn lemma_earlier_date(y1: int, m1: int, d1: int, y2: int, m2: int, d2: int)
    requires
        is_date(y1, m1, d1),
        is_date(y2, m2, d2),
        day_number(y1, m1, d1) < day_number(y2, m2, d2),
    ensures
        y1 < y2 || y1 == y2 && (m1 < m2 || m1 == m2 && d1 < d2),
{
    lemma_day_within_year(y1, m1, d1);
    lemma_day_within_year(y2, m2, d2);
    if y2 < y1 {
        lemma_years_grow(y2 + 1, y1);
    }
    lemma_days_to_month(y1);
}

/// Digits are in the order of their values.
proof fn lemma_digits_in_order(a: int, b: int)
    requires
        0 <= a < b <= 9,
    ensures
        digit_char(a) < digit_char(b),
{
}

/// Numbers of two digits are in the order of their values.
proof fn lemma_two_digits_in_order(n: nat, m: nat)
    requires
        n < m < 100,
    ensures
        text_before(padded(decimal(n), 2), padded(decimal(m), 2)),
        padded(decimal(n), 2).len() == 2,
        padded(decimal(m), 2).len() == 2,
{
    let a = padded(decimal(n), 2);
    let b = padded(decimal(m), 2);
    lemma_two_digits(n);
    lemma_two_digits(m);
    if n / 10 != m / 10 {
        lemma_digits_in_order((n / 10) as int, (m / 10) as int);
        assert(differ_at(a, b, 0));
    } else {
        lemma_digits_in_order((n % 10) as int, (m % 10) as int);
        assert(differ_at(a, b, 1));
    }
}

/// The order of two stretches of one length decides behind a common front.
proof fn lemma_before_in_context(
    front: Seq<char>,
    a: Seq<char>,
    b: Seq<char>,
    x: Seq<char>,
    y: Seq<char>,
)
    requires
        text_before(a, b),
        a.len() == b.len(),
    ensures
        text_before(front + a + x, front + b + y),
{
    let k = choose|k: int| #[trigger] differ_at(a, b, k);
    assert(k < a.len());
    assert(differ_at(front + a + x, front + b + y, front.len() + k));
}

/// Four digits are twice two digits.
proof fn lemma_twice_two_digits(n: nat)
    requires
        n < 10_000,
    ensures
        padded(decimal(n), 4) == padded(decimal(n / 100), 2) + padded(decimal(n % 100), 2),
        padded(decimal(n / 100), 2).len() == 2,
        padded(decimal(n % 100), 2).len() == 2,
{
    lemma_four_digits(n);
    lemma_two_digits(n / 100);
    lemma_two_digits(n % 100);
    assert(n / 100 / 10 == n / 1_000);
    assert(n % 100 / 10 == n / 10 % 10);
    assert(n % 100 % 10 == n % 10);
    assert(padded(decimal(n), 4) =~= padded(decimal(n / 100), 2) + padded(decimal(n % 100), 2));
}

/// Numbers of four digits are in the order of their values.
proof fn lemma_four_digits_in_order(n: nat, m: nat)
    requires
        n < m < 10_000,
    ensures
        text_before(padded(decimal(n), 4), padded(decimal(m), 4)),
        padded(decimal(n), 4).len() == 4,
        padded(decimal(m), 4).len() == 4,
{
    let nothing = Seq::<char>::empty();
    let a = padded(decimal(n / 100), 2);
    let b = padded(decimal(m / 100), 2);
    let x = padded(decimal(n % 100), 2);
    let y = padded(decimal(m % 100), 2);
    lemma_twice_two_digits(n);
    lemma_twice_two_digits(m);
    if n / 100 < m / 100 {
        lemma_two_digits_in_order(n / 100, m / 100);
        lemma_before_in_context(nothing, a, b, x, y);
        assert(nothing + a + x =~= a + x);
        assert(nothing + b + y =~= b + y);
    } else {
        assert(n / 100 == m / 100);
        lemma_two_digits_in_order(n % 100, m % 100);
        lemma_before_in_context(a, x, y, nothing, nothing);
        assert(a + x + nothing =~= a + x);
        assert(a + y + nothing =~= b + y);
    }
}

/// An earlier date has the earlier text.
proof fn lemma_earlier_text(y1: int, m1: int, d1: int, y2: int, m2: int, d2: int)
    requires
        is_date(y1, m1, d1),
        is_date(y2, m2, d2),
        0 <= y1 <= 9999,
        0 <= y2 <= 9999,
        y1 < y2 || y1 == y2 && (m1 < m2 || m1 == m2 && d1 < d2),
    ensures
        text_before(date_text(y1, m1, d1), date_text(y2, m2, d2)),
{
    let nothing = Seq::<char>::empty();
    let a = date_text(y1, m1, d1);
    let b = date_text(y2, m2, d2);
    let month1 = padded(decimal(m1 as nat), 2);
    let month2 = padded(decimal(m2 as nat), 2);
    let day1 = padded(decimal(d1 as nat), 2);
    let day2 = padded(decimal(d2 as nat), 2);
    if y1 < y2 {
        let x = "-"@ + month1 + "-"@ + day1;
        let y = "-"@ + month2 + "-"@ + day2;
        lemma_four_digits_in_order(y1 as nat, y2 as nat);
        lemma_before_in_context(nothing, year_text(y1), year_text(y2), x, y);
        assert(a =~= nothing + year_text(y1) + x);
        assert(b =~= nothing + year_text(y2) + y);
    } else if m1 < m2 {
        let front = year_text(y1) + "-"@;
        lemma_two_digits_in_order(m1 as nat, m2 as nat);
        lemma_before_in_context(front, month1, month2, "-"@ + day1, "-"@ + day2);
        assert(a =~= front + month1 + ("-"@ + day1));
        assert(b =~= front + month2 + ("-"@ + day2));
    } else {
        let front = year_text(y1) + "-"@ + month1 + "-"@;
        lemma_two_digits_in_order(d1 as nat, d2 as nat);
        lemma_before_in_context(front, day1, day2, nothing, nothing);
        assert(a =~= front + day1 + nothing);
        assert(b =~= front + day2 + nothing);
    }
}

/// A later moment never has an earlier text, as long as years have at most
/// four digits.
pub proof fn law_dates_come_in_order(a: Seq<char>, s: int, b: Seq<char>, t: int)
    requires
        is_in_four_digit_years(s),
        is_in_four_digit_years(t),
        s <= t,
        is_date_of(a, s),
        is_date_of(b, t),
    ensures
        a == b || text_before(a, b),
        !text_before(b, a),
{
    let (y1, m1, d1) = choose|year: int, month: int, day: int|
        is_date(year, month, day) && #[trigger] day_number(year, month, day) == s / 86_400 && a
            == date_text(year, month, day);
    let (y2, m2, d2) = choose|year: int, month: int, day: int|
        is_date(year, month, day) && #[trigger] day_number(year, month, day) == t / 86_400 && b
            == date_text(year, month, day);
    lemma_four_digit_years(y1, m1, d1, s);
    lemma_four_digit_years(y2, m2, d2, t);
    if s / 86_400 == t / 86_400 {
        law_day_number_tells_dates_apart(y1, m1, d1, y2, m2, d2);
    } else {
        lemma_earlier_date(y1, m1, d1, y2, m2, d2);
        lemma_earlier_text(y1, m1, d1, y2, m2, d2);
    }
    if text_before(b, a) {
        if a != b {
            lemma_before_transitive(a, b, a);
        }
        let k = choose|k: int| #[trigger] differ_at(a, a, k);
    }
}

} // verus!
