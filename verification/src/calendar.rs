//! Unix time to a calendar date, without a date library.
use vstd::prelude::*;
use crate::text;
use crate::text::{push_char, push_decimal_padded};

verus! {

/// Gregorian leap year.
pub open spec fn is_leap_year(y: int) -> bool {
    (y % 4 == 0 && y % 100 != 0) || y % 400 == 0
}

/// Days in year `y`.
pub open spec fn year_length(y: int) -> int {
    if is_leap_year(y) { 366 } else { 365 }
}

/// Days in month `m` (0 = January) of year `y`.
pub open spec fn month_length(y: int, m: int) -> int {
    if m == 1 {
        if is_leap_year(y) { 29 } else { 28 }
    } else if m == 3 || m == 5 || m == 8 || m == 10 {
        30
    } else {
        31
    }
}

/// The year containing day `d` counted from the first day of year `y`, and
/// the day's index within that year.
pub open spec fn year_of(y: int, d: nat) -> (int, nat)
    decreases d,
{
    if d < year_length(y) {
        (y, d)
    } else {
        year_of(y + 1, (d - year_length(y)) as nat)
    }
}

/// The month (0-based, from month `m` on) containing day `d` of year `y`, and
/// the day's index within that month.
pub open spec fn month_of(y: int, m: int, d: nat) -> (int, nat)
    decreases 12 - m,
{
    if m >= 12 || d < month_length(y, m) {
        (m, d)
    } else {
        month_of(y, m + 1, (d - month_length(y, m)) as nat)
    }
}

/// The date `(year, month, day)` of day `days` after 1970-01-01, months and
/// days counted from 1.
pub open spec fn civil_date(days: nat) -> (int, int, int) {
    let (y, d) = year_of(1970, days);
    let (m, md) = month_of(y, 0, d);
    (y, m + 1, md + 1int)
}

/// `YYYY-MM-DD`, each part zero-padded.
pub open spec fn date_text(date: (int, int, int)) -> Seq<char> {
    text::zero_pad(text::decimal(date.0 as nat), 4) + seq!['-'] + text::zero_pad(text::decimal(date.1 as nat), 2)
        + seq!['-'] + text::zero_pad(text::decimal(date.2 as nat), 2)
}

/// Days from 1970-01-01 to the first day of year `y` (for `y >= 1970`).
pub open spec fn days_before_year(y: int) -> nat
    decreases y - 1970,
{
    if y <= 1970 { 0 } else { (days_before_year(y - 1) + year_length(y - 1)) as nat }
}

/// Days from the first of the year to the first of month `m` (0-based).
pub open spec fn days_before_month(y: int, m: int) -> nat
    decreases m,
{
    if m <= 0 { 0 } else { (days_before_month(y, m - 1) + month_length(y, m - 1)) as nat }
}

proof fn lemma_year_of(y: int, d: nat)
    requires
        y >= 1970,
    ensures
        year_of(y, d).0 >= y,
        year_of(y, d).1 < year_length(year_of(y, d).0),
        days_before_year(year_of(y, d).0) + year_of(y, d).1 == days_before_year(y) + d,
    decreases d,
{
    if d >= year_length(y) {
        lemma_year_of(y + 1, (d - year_length(y)) as nat);
    }
}

proof fn lemma_month_of(y: int, m: int, d: nat)
    requires
        0 <= m <= 12,
        days_before_month(y, m) + d < year_length(y),
    ensures
        m <= month_of(y, m, d).0 < 12,
        month_of(y, m, d).1 < month_length(y, month_of(y, m, d).0),
        days_before_month(y, month_of(y, m, d).0) + month_of(y, m, d).1 == days_before_month(y, m) + d,
    decreases 12 - m,
{
    if m >= 12 {
        lemma_months_fill_year(y);
    } else if d >= month_length(y, m) {
        lemma_month_of(y, m + 1, (d - month_length(y, m)) as nat);
    }
}

proof fn lemma_months_fill_year(y: int)
    ensures
        days_before_month(y, 12) == year_length(y),
{
    reveal_with_fuel(days_before_month, 13);
}

/// The date `epoch_to_date` names is a real date, and it lies exactly
/// `epoch / 86400` days after 1970-01-01.
pub proof fn law_civil_date_counts_days(days: nat)
    ensures
        civil_date(days).0 >= 1970,
        1 <= civil_date(days).1 <= 12,
        1 <= civil_date(days).2 <= month_length(civil_date(days).0, civil_date(days).1 - 1),
        days_before_year(civil_date(days).0) + days_before_month(civil_date(days).0, civil_date(days).1 - 1)
            + civil_date(days).2 - 1 == days,
{
    lemma_year_of(1970, days);
    let (y, d) = year_of(1970, days);
    lemma_month_of(y, 0, d);
}

/// Unix epoch -> YYYY-MM-DD, without pulling in a date crate.
pub fn epoch_to_date(epoch: u64) -> (r: String)
    ensures
        r@ == date_text(civil_date((epoch / 86400) as nat)),
{
    let days = epoch / 86_400;
    let mut y: u64 = 1970;
    let mut d: u64 = days;
    loop
        invariant
            1970 <= y,
            y - 1970 + d <= days,
            days <= u64::MAX / 86_400,
            year_of(1970, days as nat) == year_of(y as int, d as nat),
        ensures
            year_of(1970, days as nat) == (y as int, d as nat),
            1970 <= y <= 1970 + days,
            d < 366,
        decreases d,
    {
        let leap = (y % 4 == 0 && y % 100 != 0) || y % 400 == 0;
        let len: u64 = if leap { 366 } else { 365 };
        if d < len {
            break;
        }
        d = d - len;
        y = y + 1;
    }
    let leap = (y % 4 == 0 && y % 100 != 0) || y % 400 == 0;
    let months: [u64; 12] = [31, if leap { 29 } else { 28 }, 31, 30, 31, 30, 31, 31, 30, 31, 30, 31];
    let mut m: usize = 0;
    while m < 12 && d >= months[m]
        invariant
            m <= 12,
            d < 366,
            months@ =~= Seq::new(12, |i: int| month_length(y as int, i) as u64),
            month_of(y as int, 0, year_of(1970, days as nat).1) == month_of(y as int, m as int, d as nat),
        decreases 12 - m,
    {
        d = d - months[m];
        m = m + 1;
    }
    let mut out = String::new();
    push_decimal_padded(&mut out, y, 4);
    push_char(&mut out, '-');
    push_decimal_padded(&mut out, (m + 1) as u64, 2);
    push_char(&mut out, '-');
    push_decimal_padded(&mut out, d + 1, 2);
    out
}

} // verus!
