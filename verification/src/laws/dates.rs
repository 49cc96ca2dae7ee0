//! Which date a moment has, and how it is written.

use crate::calendar::{
    date_text, day_number, days_to_month, is_date, is_date_of, law_date_has_expected_shape,
    law_day_number_tells_dates_apart, law_years_follow_each_other, month_length, padded, year_text,
};
use crate::laws::text::{law_numerals_stand_for_their_number, number_of};
use crate::text::decimal;
use vstd::prelude::*;

verus! {

/// The lengths of the months, one by one. February has one day more in every
/// fourth year, but not in a hundredth that is no four hundredth.
pub proof fn law_months_have_their_lengths(year: int)
    ensures
        month_length(year, 1) == 31,
        month_length(year, 2) == 28 + if year % 400 == 0 || year % 4 == 0 && year % 100 != 0 {
            1int
        } else {
            0int
        },
        month_length(year, 3) == 31,
        month_length(year, 4) == 30,
        month_length(year, 5) == 31,
        month_length(year, 6) == 30,
        month_length(year, 7) == 31,
        month_length(year, 8) == 31,
        month_length(year, 9) == 30,
        month_length(year, 10) == 31,
        month_length(year, 11) == 30,
        month_length(year, 12) == 31,
{
    assert(year % 400 == 0 ==> year % 4 == 0);
}

/// Days are counted one after another from 1970-01-01, through the days of a
/// month, the months of a year and the years.
pub proof fn law_days_follow_each_other(year: int, month: int, day: int)
    requires
        1 <= month <= 12,
        1 <= day <= month_length(year, month),
    ensures
        day_number(1970, 1, 1) == 0,
        is_date(year, month, day),
        day < month_length(year, month) ==> day_number(year, month, day + 1) == day_number(
            year,
            month,
            day,
        ) + 1,
        day == month_length(year, month) && month < 12 ==> day_number(year, month + 1, 1)
            == day_number(year, month, day) + 1,
        day == month_length(year, month) && month == 12 ==> day_number(year + 1, 1, 1)
            == day_number(year, month, day) + 1,
{
    law_years_follow_each_other(year);
    law_years_follow_each_other(1970);
    assert(days_to_month(year, month + 1) == days_to_month(year, month) + month_length(
        year,
        month,
    ));
}

/// A moment has the date of the day that it lies in, and no other text is
/// its date.
pub proof fn law_a_moment_has_the_date_of_its_day(
    text: Seq<char>,
    seconds: int,
    year: int,
    month: int,
    day: int,
)
    requires
        is_date(year, month, day),
        0 <= seconds - 86_400 * day_number(year, month, day) < 86_400,
    ensures
        is_date_of(text, seconds) <==> text == date_text(year, month, day),
{
    let n = day_number(year, month, day);
    assert(seconds / 86_400 == n);
    if is_date_of(text, seconds) {
        let (y, m, d) = choose|y: int, m: int, d: int|
            is_date(y, m, d) && #[trigger] day_number(y, m, d) == seconds / 86_400 && text
                == date_text(y, m, d);
        law_day_number_tells_dates_apart(y, m, d, year, month, day);
    }
}

/// A date is written as year, month and day, in numerals of at least four,
/// two and two characters, with hyphens in between.
pub proof fn law_dates_are_written_in_numerals(year: int, month: int, day: int)
    requires
        is_date(year, month, day),
        0 <= year,
    ensures
        ({
            let text = date_text(year, month, day);
            let n = (text.len() - 6) as int;
            &&& n >= 4
            &&& number_of(text.take(n)) == year
            &&& text[n] == '-'
            &&& number_of(text.subrange(n + 1, n + 3)) == month
            &&& text[n + 3] == '-'
            &&& number_of(text.subrange(n + 4, n + 6)) == day
            &&& year <= 9999 ==> n == 4
        }),
{
    let text = date_text(year, month, day);
    let y = year_text(year);
    let m = padded(decimal(month as nat), 2);
    let d = padded(decimal(day as nat), 2);
    reveal_strlit("-");
    lemma_padded_number(decimal(year as nat), 4);
    lemma_padded_number(decimal(month as nat), 2);
    lemma_padded_number(decimal(day as nat), 2);
    law_numerals_stand_for_their_number(year as nat);
    law_numerals_stand_for_their_number(month as nat);
    law_numerals_stand_for_their_number(day as nat);
    law_date_has_expected_shape(2000, month, 1);
    law_date_has_expected_shape(2000, 1, day);
    lemma_two_wide(month as nat);
    lemma_two_wide(day as nat);
    let n = y.len() as int;
    assert(text.len() == n + 6);
    assert(text.take(n) =~= y);
    assert(text.subrange(n + 1, n + 3) =~= m);
    assert(text.subrange(n + 4, n + 6) =~= d);
    if year <= 9999 {
        law_date_has_expected_shape(year, month, day);
    }
}

/// A year in front of the year 0 is written with a minus sign, which counts
/// among its four characters.
pub proof fn law_years_below_zero_have_a_sign(year: int)
    requires
        year < 0,
    ensures
        year_text(year).len() >= 4,
        year_text(year)[0] == '-',
        number_of(year_text(year).skip(1)) == -year,
        year > -1000 ==> year_text(year).len() == 4,
{
    let n = (-year) as nat;
    let rest = padded(decimal(n), 3);
    reveal_strlit("-");
    lemma_padded_number(decimal(n), 3);
    law_numerals_stand_for_their_number(n);
    assert(year_text(year).skip(1) =~= rest);
    if year > -1000 {
        reveal_with_fuel(decimal, 4);
        reveal_with_fuel(padded, 4);
    }
}

/// A number of at most two digits is padded to two.
proof fn lemma_two_wide(n: nat)
    requires
        n < 100,
    ensures
        padded(decimal(n), 2).len() == 2,
{
    reveal_with_fuel(decimal, 3);
    reveal_with_fuel(padded, 3);
}

/// Zeros in front do not change the number, and fill up to the width.
proof fn lemma_padded_number(numeral: Seq<char>, width: nat)
    ensures
        number_of(padded(numeral, width)) == number_of(numeral),
        padded(numeral, width).len() >= width,
        numeral.len() >= width ==> padded(numeral, width) == numeral,
    decreases width - numeral.len(),
{
    if numeral.len() < width {
        lemma_zero_in_front(numeral);
        lemma_padded_number(seq!['0'] + numeral, width);
    }
}

proof fn lemma_zero_in_front(numeral: Seq<char>)
    ensures
        number_of(seq!['0'] + numeral) == number_of(numeral),
    decreases numeral.len(),
{
    let longer = seq!['0'] + numeral;
    if numeral.len() == 0 {
        assert(longer.drop_last() =~= Seq::empty());
        reveal_with_fuel(number_of, 2);
    } else {
        assert(longer.drop_last() =~= seq!['0'] + numeral.drop_last());
        assert(longer.last() == numeral.last());
        lemma_zero_in_front(numeral.drop_last());
    }
}

} // verus!
