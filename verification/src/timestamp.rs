//! Instants as text: what is written is read back.

use crate::assertion::instant;
use crate::calendar::{date_text, day_number, is_date, is_day_text, month_start, padded};
use crate::text::{
    before_suffix, cut, decimal, digit_char, digits_value, find_from, first_part, is_digit,
    occurs_at, parts, parts_from, unsigned_value,
};
use vstd::prelude::*;

verus! {

/// Whether a text is made of digits.
pub open spec fn all_digits(s: Seq<char>) -> bool {
    forall|i: int| 0 <= i < s.len() ==> is_digit(#[trigger] s[i])
}

/// Whether a text is a fraction of a second: nothing, or a dot and digits.
pub open spec fn is_fraction(s: Seq<char>) -> bool {
    s.len() == 0 || (s[0] == '.' && all_digits(s.skip(1)))
}

/// A day, a time of that day and a fraction of a second as
/// `YYYY-MM-DDTHH:MM:SS[.frac]Z`.
pub open spec fn stamp(day: Seq<char>, h: int, mi: int, se: int, fraction: Seq<char>) -> Seq<char> {
    day + "T"@ + (padded(h as nat, 2) + ":"@ + padded(mi as nat, 2) + ":"@ + (padded(se as nat, 2)
        + fraction)) + "Z"@
}

proof fn lemma_value_push(s: Seq<char>, c: char, acc: int, max: int)
    ensures
        digits_value(s.push(c), acc, max) == match digits_value(s, acc, max) {
            None => None::<int>,
            Some(v) => if is_digit(c) && v * 10 + (c as int - 48) <= max {
                Some(v * 10 + (c as int - 48))
            } else {
                None
            },
        },
    decreases s.len(),
{
    let t = s.push(c);
    if s.len() == 0 {
        assert(t.skip(1) =~= Seq::<char>::empty());
        assert(digits_value(t.skip(1), acc * 10 + (c as int - 48), max) == Some(
            acc * 10 + (c as int - 48),
        ));
    } else {
        assert(t[0] == s[0]);
        assert(t.skip(1) =~= s.skip(1).push(c));
        lemma_value_push(s.skip(1), c, acc * 10 + (s[0] as int - 48), max);
    }
}

proof fn lemma_decimal(n: nat, max: int)
    requires
        n <= max,
    ensures
        decimal(n).len() > 0,
        all_digits(decimal(n)),
        digits_value(decimal(n), 0, max) == Some(n as int),
    decreases n,
{
    if n < 10 {
        let s = decimal(n);
        assert(s.skip(1) =~= Seq::<char>::empty());
        assert(digits_value(s.skip(1), n as int, max) == Some(n as int));
    } else {
        lemma_decimal(n / 10, max);
        lemma_value_push(decimal(n / 10), digit_char((n % 10) as int), 0, max);
    }
}

proof fn lemma_zeros(k: nat, s: Seq<char>, max: int)
    requires
        max >= 0,
    ensures
        digits_value(Seq::new(k, |i: int| '0') + s, 0, max) == digits_value(s, 0, max),
    decreases k,
{
    let zeros = Seq::new(k, |i: int| '0');
    if k == 0 {
        assert(zeros + s =~= s);
    } else {
        let fewer = Seq::new((k - 1) as nat, |i: int| '0');
        assert((zeros + s).skip(1) =~= fewer + s);
        lemma_zeros((k - 1) as nat, s, max);
    }
}

proof fn lemma_padded(n: nat, width: nat, max: int)
    requires
        n <= max,
    ensures
        padded(n, width).len() > 0,
        all_digits(padded(n, width)),
        unsigned_value(padded(n, width), max) == Some(n as int),
{
    lemma_decimal(n, max);
    if decimal(n).len() < width {
        lemma_zeros((width - decimal(n).len()) as nat, decimal(n), max);
    }
    assert(is_digit(padded(n, width)[0]));
}

/// Looking for a character finds the first place where it stands.
proof fn lemma_find_char(s: Seq<char>, c: char, i: int, k: int)
    requires
        0 <= i <= k <= s.len(),
        forall|j: int| i <= j < k ==> #[trigger] s[j] != c,
        k < s.len() ==> s[k] == c,
    ensures
        find_from(s, seq![c], i) == if k < s.len() {
            Some(k)
        } else {
            None::<int>
        },
    decreases k - i,
{
    if i < s.len() {
        assert(s.subrange(i, i + 1) =~= seq![s[i]]);
        if i == k {
            assert(occurs_at(s, seq![c], i));
        } else {
            assert(s.subrange(i, i + 1)[0] == s[i]);
            assert(seq![c][0] == c);
            assert(!occurs_at(s, seq![c], i));
            lemma_find_char(s, c, i + 1, k);
        }
    }
}

proof fn lemma_parts_skip(s: Seq<char>, c: char, start: int, i: int, k: int)
    requires
        0 <= i <= k <= s.len(),
        forall|j: int| i <= j < k ==> #[trigger] s[j] != c,
    ensures
        parts_from(s, c, start, i) == parts_from(s, c, start, k),
    decreases k - i,
{
    if i < k {
        lemma_parts_skip(s, c, start, i + 1, k);
    }
}

/// Three texts without a separator are the parts of what joins them.
proof fn lemma_three_parts(a: Seq<char>, b: Seq<char>, e: Seq<char>, c: char)
    requires
        !a.contains(c),
        !b.contains(c),
        !e.contains(c),
    ensures
        parts(a + seq![c] + b + seq![c] + e, c) == seq![a, b, e],
{
    let s = a + seq![c] + b + seq![c] + e;
    let p = a.len() as int;
    let q = p + 1 + b.len();
    let n = s.len() as int;
    assert forall|j: int| 0 <= j < p implies #[trigger] s[j] != c by {
        assert(s[j] == a[j]);
        assert(a.contains(a[j]));
    }
    assert(s[p] == c);
    assert forall|j: int| p + 1 <= j < q implies #[trigger] s[j] != c by {
        assert(s[j] == b[j - p - 1]);
        assert(b.contains(b[j - p - 1]));
    }
    assert(s[q] == c);
    assert forall|j: int| q + 1 <= j < n implies #[trigger] s[j] != c by {
        assert(s[j] == e[j - q - 1]);
        assert(e.contains(e[j - q - 1]));
    }
    lemma_parts_skip(s, c, 0, 0, p);
    lemma_parts_skip(s, c, p + 1, p + 1, q);
    lemma_parts_skip(s, c, q + 1, q + 1, n);
    assert(s.subrange(0, p) =~= a);
    assert(s.subrange(p + 1, q) =~= b);
    assert(s.subrange(q + 1, n) =~= e);
    assert(parts_from(s, c, q + 1, n) == seq![e]);
    assert(parts_from(s, c, q + 1, q + 1) == seq![e]);
    assert(parts_from(s, c, p + 1, q) == seq![b] + parts_from(s, c, q + 1, q + 1));
    assert(parts_from(s, c, 0, p) == seq![a] + parts_from(s, c, p + 1, p + 1));
    assert(seq![a] + (seq![b] + seq![e]) =~= seq![a, b, e]);
}

proof fn lemma_no_digit(s: Seq<char>, c: char)
    requires
        all_digits(s),
        !is_digit(c),
    ensures
        !s.contains(c),
{
}

/// A date and a time of day that are written out are read back, to the second;
/// a fraction of a second is dropped.
#[verifier::spinoff_prover]
pub proof fn law_stamps_are_read_back(
    y: int,
    m: int,
    d: int,
    h: int,
    mi: int,
    se: int,
    fraction: Seq<char>,
)
    requires
        is_date(y, m, d),
        0 <= y <= i64::MAX,
        0 <= h < 24,
        0 <= mi < 60,
        0 <= se < 60,
        is_fraction(fraction),
    ensures
        instant(stamp(date_text(y, m, d), h, mi, se, fraction)) == Some(
            day_number(y, m, d) * 86_400 + h * 3_600 + mi * 60 + se,
        ),
{
    reveal_strlit("-");
    reveal_strlit(":");
    reveal_strlit("T");
    reveal_strlit("Z");
    reveal_strlit(".");
    let py = padded(y as nat, 4);
    let pm = padded(m as nat, 2);
    let pd = padded(d as nat, 2);
    let ph = padded(h as nat, 2);
    let pi = padded(mi as nat, 2);
    let ps = padded(se as nat, 2);
    lemma_padded(y as nat, 4, i64::MAX as int);
    lemma_padded(m as nat, 2, u32::MAX as int);
    lemma_padded(d as nat, 2, u32::MAX as int);
    lemma_padded(h as nat, 2, u64::MAX as int);
    lemma_padded(mi as nat, 2, u64::MAX as int);
    lemma_padded(se as nat, 2, u64::MAX as int);
    assert("-"@ =~= seq!['-']);
    assert(":"@ =~= seq![':']);
    assert("T"@ =~= seq!['T']);
    assert("Z"@ =~= seq!['Z']);
    assert("."@ =~= seq!['.']);
    let day = date_text(y, m, d);
    let last = ps + fraction;
    let time = ph + ":"@ + pi + ":"@ + last;
    let core = day + "T"@ + time;
    let s = stamp(day, h, mi, se, fraction);
    assert(s =~= core + "Z"@);
    assert("Z"@.is_suffix_of(s)) by {
        assert(s.subrange(s.len() - 1, s.len() as int) =~= "Z"@);
    }
    assert(before_suffix(s, "Z"@) == Some(core)) by {
        assert(s.take(s.len() - 1) =~= core);
    }
    let k = day.len() as int;
    assert forall|j: int| 0 <= j < k implies #[trigger] core[j] != 'T' by {
        assert(core[j] == day[j]);
        assert(day[j] == '-' || is_digit(day[j])) by {
            if j < py.len() {
                assert(day[j] == py[j]);
            } else if py.len() < j < py.len() + 1 + pm.len() {
                assert(day[j] == pm[j - py.len() - 1]);
            } else if j > py.len() + 1 + pm.len() {
                assert(day[j] == pd[j - py.len() - pm.len() - 2]);
            }
        }
    }
    assert(core[k] == 'T');
    lemma_find_char(core, 'T', 0, k);
    assert(cut(core, "T"@) == Some((day, time))) by {
        assert(core.take(k) =~= day);
        assert(core.skip(k + 1) =~= time);
    }
    lemma_no_digit(py, '-');
    lemma_no_digit(pm, '-');
    lemma_no_digit(pd, '-');
    lemma_three_parts(py, pm, pd, '-');
    lemma_no_digit(ph, ':');
    lemma_no_digit(pi, ':');
    assert(!last.contains(':')) by {
        assert forall|j: int| 0 <= j < last.len() implies last[j] != ':' by {
            if j < ps.len() {
                assert(last[j] == ps[j]);
            } else if j > ps.len() {
                assert(last[j] == fraction.skip(1)[j - ps.len() - 1]);
            } else {
                assert(last[j] == fraction[0]);
            }
        }
    }
    lemma_three_parts(ph, pi, last, ':');
    assert(first_part(last, "."@) == ps) by {
        assert forall|j: int| 0 <= j < ps.len() implies #[trigger] last[j] != '.' by {
            assert(last[j] == ps[j]);
        }
        if fraction.len() == 0 {
            assert(last =~= ps);
        } else {
            assert(last[ps.len() as int] == '.');
        }
        lemma_find_char(last, '.', 0, ps.len() as int);
        assert(last.take(ps.len() as int) =~= ps);
    }
}

proof fn lemma_time_of_day(s: int)
    requires
        s >= 0,
    ensures
        0 <= s % 86_400 / 3_600 < 24,
        0 <= s % 3_600 / 60 < 60,
        0 <= s % 60 < 60,
        s / 86_400 * 86_400 + s % 86_400 / 3_600 * 3_600 + s % 3_600 / 60 * 60 + s % 60 == s,
{
    let t = s % 86_400;
    assert(s == s / 86_400 * 86_400 + t);
    assert(t % 3_600 == s % 3_600);
    assert(s % 3_600 % 60 == s % 60);
}

/// The day of an instant, as it is written out, and its time of day are read
/// back as that instant.
#[verifier::spinoff_prover]
pub proof fn law_instants_are_read_back(epoch_secs: u64, day: Seq<char>, fraction: Seq<char>)
    requires
        is_day_text(day, epoch_secs as int / 86_400),
        is_fraction(fraction),
    ensures
        instant(
            stamp(
                day,
                epoch_secs as int % 86_400 / 3_600,
                epoch_secs as int % 3_600 / 60,
                epoch_secs as int % 60,
                fraction,
            ),
        ) == Some(epoch_secs as int),
{
    let s = epoch_secs as int;
    let (y, m, d) = choose|y: int, m: int, d: int|
        is_date(y, m, d) && day_number(y, m, d) == s / 86_400 && day == #[trigger] date_text(
            y,
            m,
            d,
        );
    lemma_year_bounds(y, m, d);
    lemma_time_of_day(s);
    law_stamps_are_read_back(y, m, d, s % 86_400 / 3_600, s % 3_600 / 60, s % 60, fraction);
}

/// A day that is not before 1970 and within a machine's seconds has a year that
/// is no negative number and no large one.
proof fn lemma_year_bounds(y: int, m: int, d: int)
    requires
        is_date(y, m, d),
        0 <= day_number(y, m, d) <= u64::MAX as int / 86_400,
    ensures
        0 <= y <= i64::MAX,
{
    let a = if m <= 2 {
        y - 1
    } else {
        y
    };
    assert(a / 4 - a / 100 >= -1 || a < 0);
    assert(0 <= month_start(m) <= 337);
    if a < 0 {
        assert(a / 4 - a / 100 + a / 400 <= 1);
        assert(365 * a <= -365);
    }
}

} // verus!
