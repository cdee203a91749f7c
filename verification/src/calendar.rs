//! Dates of the proleptic Gregorian calendar and their day numbers.

use crate::text::{decimal, to_decimal};
use vstd::prelude::*;

verus! {

/// Days before month `m` in a year that begins in March.
pub open spec fn month_start(m: int) -> int {
    if m == 3 {
        0
    } else if m == 4 {
        31
    } else if m == 5 {
        61
    } else if m == 6 {
        92
    } else if m == 7 {
        122
    } else if m == 8 {
        153
    } else if m == 9 {
        184
    } else if m == 10 {
        214
    } else if m == 11 {
        245
    } else if m == 12 {
        275
    } else if m == 1 {
        306
    } else {
        337
    }
}

/// The number of the day `d` of month `m` in year `y`, counted from
/// 1970-01-01. A year's leap day ends the year that began the March before.
pub open spec fn day_number(y: int, m: int, d: int) -> int {
    let a = if m <= 2 {
        y - 1
    } else {
        y
    };
    365 * a + a / 4 - a / 100 + a / 400 + month_start(m) + d - 1 - 719_468
}

/// Whether year `y` has a leap day.
pub open spec fn is_leap(y: int) -> bool {
    y % 4 == 0 && (y % 100 != 0 || y % 400 == 0)
}

/// The number of days of month `m` in year `y`.
pub open spec fn month_len(y: int, m: int) -> int {
    if m == 2 {
        if is_leap(y) {
            29
        } else {
            28
        }
    } else if m == 4 || m == 6 || m == 9 || m == 11 {
        30
    } else {
        31
    }
}

/// Whether `y`-`m`-`d` is a date.
pub open spec fn is_date(y: int, m: int, d: int) -> bool {
    1 <= m <= 12 && 1 <= d <= month_len(y, m)
}

/// Days before month `m` in a year that begins in March.
fn start_of_month(m: u32) -> (r: u32)
    requires
        1 <= m <= 12,
    ensures
        r == month_start(m as int),
{
    let mp: u32 = (m + 9) % 12;
    (153 * mp + 2) / 5
}

/// The number of a day, counted from 1970-01-01; `d` may lie past the
/// month's end.
pub fn days_from_civil(y: u64, m: u32, d: u32) -> (r: i128)
    requires
        1 <= m <= 12,
        1 <= d <= 31,
    ensures
        r == day_number(y as int, m as int, d as int),
{
    // Counted from 400 years before, which have 146097 days.
    let a: i128 = if m <= 2 {
        y as i128 + 399
    } else {
        y as i128 + 400
    };
    let b: u128 = a as u128;
    let whole: u128 = 365 * b + b / 4 - b / 100 + b / 400;
    whole as i128 + start_of_month(m) as i128 + d as i128 - 1 - 719_468 - 146_097
}

/// The years since March of year 0 within the 400-year era that begins there,
/// and the day within that March-based year.
fn year_of_era(doe: u64) -> (r: (u64, u64))
    requires
        doe < 146_097,
    ensures
        r.0 <= 399,
        doe == 365 * r.0 + r.0 as int / 4 - r.0 as int / 100 + r.1,
        r.1 <= 365,
        r.1 == 365 ==> is_leap(r.0 + 1),
{
    let c: u64 = if doe / 36_524 > 3 {
        3
    } else {
        doe / 36_524
    };
    let in_century: u64 = doe - c * 36_524;
    let q: u64 = in_century / 1461;
    let in_cycle: u64 = in_century % 1461;
    let y: u64 = if in_cycle / 365 > 3 {
        3
    } else {
        in_cycle / 365
    };
    let yoe: u64 = 100 * c + 4 * q + y;
    let doy: u64 = in_cycle - 365 * y;
    assert(in_century == 1461 * q + in_cycle);
    assert(c < 3 ==> in_century < 36_524);
    assert(c == 3 ==> in_century < 36_525);
    assert(q <= 24);
    assert(yoe as int / 4 == 25 * c + q);
    assert(yoe as int / 100 == c);
    if doy == 365 {
        assert(y == 3 && in_cycle == 1460);
        assert((yoe + 1) % 4 == 0);
        if q == 24 {
            assert(c == 3);
            assert((yoe + 1) % 400 == 0);
        } else {
            assert((yoe + 1) % 100 == 4 * q + 4);
        }
    }
    (yoe, doy)
}

/// The month and the day of the month for a day of a March-based year.
fn month_of_year(doy: u64) -> (r: (u64, u64))
    requires
        doy <= 365,
    ensures
        1 <= r.0 <= 12,
        doy == month_start(r.0 as int) + r.1 - 1,
        1 <= r.1 <= 31,
        r.0 == 2 ==> r.1 <= 29 && (r.1 == 29 ==> doy == 365),
        r.0 == 4 || r.0 == 6 || r.0 == 9 || r.0 == 11 ==> r.1 <= 30,
{
    let mp: u64 = (5 * doy + 2) / 153;
    let d: u64 = doy - (153 * mp + 2) / 5 + 1;
    let m: u64 = if mp < 10 {
        mp + 3
    } else {
        mp - 9
    };
    (m, d)
}

/// The year, month and day with the given day number.
pub fn civil_from_days(days: u64) -> (r: (u64, u64, u64))
    requires
        days <= 213_503_982_334_602,
    ensures
        is_date(r.0 as int, r.1 as int, r.2 as int),
        day_number(r.0 as int, r.1 as int, r.2 as int) == days,
{
    let z: u64 = days + 719_468;
    let era: u64 = z / 146_097;
    let doe: u64 = z % 146_097;
    let (yoe, doy) = year_of_era(doe);
    let y: u64 = yoe + era * 400;
    let (m, d) = month_of_year(doy);
    let year: u64 = if m <= 2 {
        y + 1
    } else {
        y
    };
    proof {
        lemma_era(era as int, yoe as int);
    }
    (year, m, d)
}

/// How the leap years of a 400-year era add up.
proof fn lemma_era(era: int, yoe: int)
    requires
        0 <= era,
        0 <= yoe <= 399,
    ensures
        (yoe + era * 400) / 4 == yoe / 4 + era * 100,
        (yoe + era * 400) / 100 == yoe / 100 + era * 4,
        (yoe + era * 400) / 400 == era,
        is_leap(yoe + era * 400 + 1) == is_leap(yoe + 1),
{
    assert((yoe + era * 400 + 1) % 4 == (yoe + 1) % 4);
    assert((yoe + era * 400 + 1) % 100 == (yoe + 1) % 100);
    assert((yoe + era * 400 + 1) % 400 == (yoe + 1) % 400);
}

/// A number in decimal, with zeros in front up to `width` digits.
pub open spec fn padded(n: nat, width: nat) -> Seq<char> {
    if decimal(n).len() >= width {
        decimal(n)
    } else {
        Seq::new((width - decimal(n).len()) as nat, |i: int| '0') + decimal(n)
    }
}

/// The number in decimal, with zeros in front up to `width` digits.
pub fn to_padded(n: u64, width: usize) -> (r: String)
    requires
        width <= 16,
    ensures
        r@ == padded(n as nat, width as nat),
{
    let digits = to_decimal(n);
    let count: usize = digits.as_str().unicode_len();
    let mut out = String::new();
    let mut i: usize = count;
    while i < width
        invariant
            count <= i,
            count < width ==> i <= width,
            count >= width ==> i == count,
            out@ == Seq::new((i - count) as nat, |k: int| '0'),
        decreases width - i,
    {
        out.push('0');
        assert(out@ =~= Seq::new((i + 1 - count) as nat, |k: int| '0'));
        i += 1;
    }
    out.append(digits.as_str());
    assert(count >= width ==> out@ =~= digits@);
    out
}

/// `y`-`m`-`d` as `YYYY-MM-DD`.
pub open spec fn date_text(y: int, m: int, d: int) -> Seq<char> {
    padded(y as nat, 4) + "-"@ + padded(m as nat, 2) + "-"@ + padded(d as nat, 2)
}

/// Whether a text is the day with the given number as `YYYY-MM-DD`.
pub open spec fn is_day_text(text: Seq<char>, day: int) -> bool {
    exists|y: int, m: int, d: int|
        is_date(y, m, d) && day_number(y, m, d) == day && text == #[trigger] date_text(y, m, d)
}

/// The UTC day of an instant in epoch seconds, as `YYYY-MM-DD`.
pub fn iso_date(epoch_secs: u64) -> (r: String)
    ensures
        is_day_text(r@, epoch_secs as int / 86_400),
{
    let (y, m, d) = civil_from_days(epoch_secs / 86_400);
    let mut out = to_padded(y, 4);
    out.append("-");
    out.append(to_padded(m, 2).as_str());
    out.append("-");
    out.append(to_padded(d, 2).as_str());
    assert(out@ == date_text(y as int, m as int, d as int));
    out
}

/// Two dates with the same day number are the same date.
pub proof fn law_dates_are_told_apart(y: int, m: int, d: int, y2: int, m2: int, d2: int)
    requires
        is_date(y, m, d),
        is_date(y2, m2, d2),
        day_number(y, m, d) == day_number(y2, m2, d2),
    ensures
        y == y2 && m == m2 && d == d2,
{
    let a = if m <= 2 {
        y - 1
    } else {
        y
    };
    let b = if m2 <= 2 {
        y2 - 1
    } else {
        y2
    };
    lemma_years_apart(a, b);
    lemma_years_apart(b, a);
    lemma_in_year(y, m, d);
    lemma_in_year(y2, m2, d2);
    assert(a == b);
}

/// The days before the March-based year `a`.
spec fn year_start(a: int) -> int {
    365 * a + a / 4 - a / 100 + a / 400
}

proof fn lemma_in_year(y: int, m: int, d: int)
    requires
        is_date(y, m, d),
    ensures
        ({
            let a = if m <= 2 {
                y - 1
            } else {
                y
            };
            let doy = month_start(m) + d - 1;
            0 <= doy < year_start(a + 1) - year_start(a)
        }),
{
    let a = if m <= 2 {
        y - 1
    } else {
        y
    };
    lemma_year_len(a);
}

proof fn lemma_year_len(a: int)
    ensures
        year_start(a + 1) - year_start(a) == (if is_leap(a + 1) {
            366int
        } else {
            365
        }),
{
    assert((a + 1) / 4 - a / 4 == if (a + 1) % 4 == 0 {
        1int
    } else {
        0
    });
    assert((a + 1) / 100 - a / 100 == if (a + 1) % 100 == 0 {
        1int
    } else {
        0
    });
    assert((a + 1) / 400 - a / 400 == if (a + 1) % 400 == 0 {
        1int
    } else {
        0
    });
}

proof fn lemma_years_apart(a: int, b: int)
    ensures
        a < b ==> year_start(a + 1) <= year_start(b),
    decreases b - a,
{
    if a + 1 < b {
        lemma_years_apart(a, b - 1);
        lemma_year_len(b - 1);
    }
}

/// Every day has the number behind that of the day before it: the next day of
/// the month, the first of the next month, or the first of the next year. The
/// count begins on 1970-01-01.
pub proof fn law_days_follow_each_other(y: int, m: int, d: int)
    requires
        is_date(y, m, d),
    ensures
        day_number(1970, 1, 1) == 0,
        d < month_len(y, m) ==> is_date(y, m, d + 1) && day_number(y, m, d + 1) == day_number(
            y,
            m,
            d,
        ) + 1,
        d == month_len(y, m) && m < 12 ==> is_date(y, m + 1, 1) && day_number(y, m + 1, 1)
            == day_number(y, m, d) + 1,
        d == month_len(y, m) && m == 12 ==> is_date(y + 1, 1, 1) && day_number(y + 1, 1, 1)
            == day_number(y, m, d) + 1,
        month_len(y, 2) == 29 <==> y % 400 == 0 || (y % 4 == 0 && y % 100 != 0),
{
    if m == 2 {
        lemma_year_step(y);
    }
    lemma_leap_years(y);
}

/// The days before a March-based year, with those of the months and of the days.
spec fn counted(a: int, before: int, d: int) -> int {
    365 * a + a / 4 - a / 100 + a / 400 + before + d - 1 - 719_468
}

proof fn lemma_year_step(y: int)
    ensures
        counted(y, 0, 1) == counted(y - 1, 337, month_len(y, 2)) + 1,
{
    lemma_step_by(y, 4);
    lemma_step_by(y, 100);
    lemma_step_by(y, 400);
    lemma_hundreds(y);
    lemma_one_year(
        y,
        y / 4,
        y / 100,
        y / 400,
        (y - 1) / 4,
        (y - 1) / 100,
        (y - 1) / 400,
        y % 4 == 0,
        y % 100 == 0,
        y % 400 == 0,
    );
}

proof fn lemma_hundreds(y: int)
    ensures
        y % 400 == 0 ==> y % 100 == 0,
        y % 100 == 0 ==> y % 4 == 0,
{
}

proof fn lemma_one_year(
    y: int,
    a4: int,
    a100: int,
    a400: int,
    b4: int,
    b100: int,
    b400: int,
    d4: bool,
    d100: bool,
    d400: bool,
)
    requires
        a4 == b4 + (if d4 {
            1int
        } else {
            0
        }),
        a100 == b100 + (if d100 {
            1int
        } else {
            0
        }),
        a400 == b400 + (if d400 {
            1int
        } else {
            0
        }),
        d400 ==> d100,
        d100 ==> d4,
    ensures
        365 * y + a4 - a100 + a400 == 365 * (y - 1) + b4 - b100 + b400 + 337 + (if d4 && (!d100
            || d400) {
            29int
        } else {
            28
        }),
{
}

proof fn lemma_step_by(y: int, n: int)
    requires
        n == 4 || n == 100 || n == 400,
    ensures
        y / n == (y - 1) / n + (if y % n == 0 {
            1int
        } else {
            0
        }),
{
    if n == 4 {
        assert(y / 4 == (y - 1) / 4 + (if y % 4 == 0 {
            1int
        } else {
            0
        }));
    } else if n == 100 {
        assert(y / 100 == (y - 1) / 100 + (if y % 100 == 0 {
            1int
        } else {
            0
        }));
    } else {
        assert(y / 400 == (y - 1) / 400 + (if y % 400 == 0 {
            1int
        } else {
            0
        }));
    }
}

proof fn lemma_leap_years(y: int)
    ensures
        is_leap(y) <==> y % 400 == 0 || (y % 4 == 0 && y % 100 != 0),
{
    assert(y % 400 == 0 ==> y % 100 == 0);
    assert(y % 100 == 0 ==> y % 4 == 0);
}

/// A padded number is its digits behind zeros, as long as is asked or longer.
pub proof fn law_padding_is_zeros(n: nat, width: nat, k: int)
    ensures
        padded(n, width).len() >= width,
        decimal(n).len() >= width ==> padded(n, width) == decimal(n),
        padded(n, width).skip(padded(n, width).len() - decimal(n).len()) == decimal(n),
        0 <= k < padded(n, width).len() - decimal(n).len() ==> padded(n, width)[k] == '0',
        padded(n, width).len() == width || padded(n, width).len() == decimal(n).len(),
{
    assert(padded(n, width).skip(padded(n, width).len() - decimal(n).len()) =~= decimal(n));
}

} // verus!
