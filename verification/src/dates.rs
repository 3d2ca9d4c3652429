//! Timestamps of the shape `YYYY-MM-DDTHH:MM:SSZ`, read as Unix seconds.
//!
//! The six numeric fields sit at fixed byte offsets (0..4, 5..7, 8..10, 11..13,
//! 14..16, 17..19); the characters between and after them are not looked at.
//! Each field is read as a decimal integer with an optional sign. The day count
//! is the civil-from-days inverse (Howard Hinnant's algorithm), with the year
//! starting in March.
use vstd::prelude::*;
use vstd::arithmetic::div_mod::lemma_fundamental_div_mod_converse;
use crate::text::chars_of;

verus! {

pub open spec fn is_digit(c: char) -> bool {
    '0' <= c && c <= '9'
}

/// The decimal value of a run of digits.
pub open spec fn digits_value(s: Seq<char>) -> int
    decreases s.len(),
{
    if s.len() == 0 {
        0
    } else {
        digits_value(s.drop_last()) * 10 + (s.last() as int - '0' as int)
    }
}

pub open spec fn all_digits(s: Seq<char>) -> bool {
    forall|i: int| 0 <= i < s.len() ==> is_digit(#[trigger] s[i])
}

/// A decimal integer with an optional leading `+` or `-` and at least one digit
/// (what `str::parse::<i64>` accepts, for fields too short to overflow).
pub open spec fn parse_int(s: Seq<char>) -> Option<int> {
    if s.len() > 0 && (s[0] == '+' || s[0] == '-') {
        let d = s.drop_first();
        if d.len() > 0 && all_digits(d) {
            Some(
                if s[0] == '-' {
                    -digits_value(d)
                } else {
                    digits_value(d)
                },
            )
        } else {
            None
        }
    } else if s.len() > 0 && all_digits(s) {
        Some(digits_value(s))
    } else {
        None
    }
}

/// The six fields: year, month, day, hour, minute, second. Absent when the string
/// is shorter than 19 bytes or a field is not an integer. (A character outside
/// ASCII among the first 19 either falls in a field or makes the next field start
/// inside a character, so it leaves the fields absent as well.)
pub open spec fn date_fields(s: Seq<char>) -> Option<(int, int, int, int, int, int)> {
    if s.len() < 19 || exists|i: int| 0 <= i < 19 && (s[i] as u32) >= 128 {
        None
    } else {
        match (
            parse_int(s.subrange(0, 4)),
            parse_int(s.subrange(5, 7)),
            parse_int(s.subrange(8, 10)),
            parse_int(s.subrange(11, 13)),
            parse_int(s.subrange(14, 16)),
            parse_int(s.subrange(17, 19)),
        ) {
            (Some(y), Some(mo), Some(d), Some(h), Some(mi), Some(se)) => Some((y, mo, d, h, mi, se)),
            _ => None,
        }
    }
}

/// Month index counted from March.
pub open spec fn month_from_march(month: int) -> int {
    if month > 2 {
        month - 3
    } else {
        month + 9
    }
}

/// The year of the March-based calendar.
pub open spec fn march_year(year: int, month: int) -> int {
    if month <= 2 {
        year - 1
    } else {
        year
    }
}

/// Day of the year (March-based) before the day-of-month is added.
pub open spec fn month_offset(month: int) -> int {
    (153 * month_from_march(month) + 2) / 5
}

/// Day of the 400-year era at which the March-based year starts.
pub open spec fn year_offset(year: int, month: int) -> int {
    let yoe = march_year(year, month) % 400;
    yoe * 365 + yoe / 4 - yoe / 100
}

/// Unix seconds of the fields.
pub open spec fn unix_secs(f: (int, int, int, int, int, int)) -> int {
    let (year, month, day, hour, minute, second) = f;
    let y = march_year(year, month);
    let era = y / 400;
    let doe = year_offset(year, month) + month_offset(month) + day - 1;
    let days = era * 146097 + doe - 719468;
    days * 86400 + hour * 3600 + minute * 60 + second
}

/// A leap year of the Gregorian calendar.
pub open spec fn is_leap_year(y: int) -> bool {
    (y % 4 == 0 && y % 100 != 0) || y % 400 == 0
}

/// The number of days of month `m` (1 to 12) of year `y`.
pub open spec fn month_length(y: int, m: int) -> int {
    if m == 2 {
        if is_leap_year(y) {
            29
        } else {
            28
        }
    } else if m == 4 || m == 6 || m == 9 || m == 11 {
        30
    } else {
        31
    }
}

/// The start of a day: midnight of year `y`, month `m`, day `d`.
pub open spec fn midnight(y: int, m: int, d: int) -> (int, int, int, int, int, int) {
    (y, m, d, 0, 0, 0)
}

proof fn lemma_march_years(x: int)
    ensures
        (x + 1) / 400 * 146097 + year_offset(x + 1, 3) == x / 400 * 146097 + year_offset(x, 3) + 365
            + if is_leap_year(x + 1) {
            1int
        } else {
            0int
        },
{
    let r = x % 400;
    assert(x == (x / 400) * 400 + r && 0 <= r < 400);
    if r < 399 {
        assert((x + 1) / 400 == x / 400);
        assert((x + 1) % 400 == r + 1);
        assert((x + 1) % 4 == (r + 1) % 4);
        assert((x + 1) % 100 == (r + 1) % 100);
    } else {
        assert((x + 1) / 400 == x / 400 + 1);
        assert((x + 1) % 400 == 0);
    }
}

/// Unix time follows the Gregorian calendar: midnight of 1 January 1970 is
/// zero; a time of day adds its hours, minutes and seconds to its midnight;
/// each day of a month comes one day after the one before; each month starts
/// its length in days after the previous one (29 days for February of a leap
/// year); and 1 January comes 31 days after 1 December.
pub proof fn law_unix_secs_calendar(y: int, m: int, d: int, h: int, mi: int, se: int)
    requires
        1 <= m <= 12,
    ensures
        unix_secs(midnight(1970, 1, 1)) == 0,
        unix_secs((y, m, d, h, mi, se)) == unix_secs(midnight(y, m, d)) + h * 3600 + mi * 60 + se,
        unix_secs(midnight(y, m, d + 1)) == unix_secs(midnight(y, m, d)) + 86400,
        m < 12 ==> unix_secs(midnight(y, m + 1, 1)) == unix_secs(midnight(y, m, 1)) + month_length(y, m)
            * 86400,
        unix_secs(midnight(y + 1, 1, 1)) == unix_secs(midnight(y, 12, 1)) + 31 * 86400,
{
    if m == 2 {
        lemma_march_years(y - 1);
    }
}

/// The fields on which the computation stays within unsigned arithmetic: a
/// negative month, a day-of-year below zero, or a negative day whose unsigned
/// reading does not wrap back below zero, each overflow.
pub open spec fn fields_computable(f: (int, int, int, int, int, int)) -> bool {
    let (year, month, day, hour, minute, second) = f;
    let a = month_offset(month);
    let b = year_offset(year, month);
    &&& month >= 0
    &&& if day >= 0 {
        a + day >= 1
    } else {
        a + day < 0 && b + a + day <= 0
    }
}

/// The timestamp's Unix seconds, when its fields are present.
pub open spec fn spec_parse_iso8601_secs(s: Seq<char>) -> Option<int> {
    match date_fields(s) {
        Some(f) => Some(unix_secs(f)),
        None => None,
    }
}

/// The timestamp can be read without an arithmetic overflow.
pub open spec fn iso8601_computable(s: Seq<char>) -> bool {
    match date_fields(s) {
        Some(f) => fields_computable(f),
        None => true,
    }
}

proof fn lemma_digits_bound(s: Seq<char>)
    requires
        all_digits(s),
        s.len() <= 4,
    ensures
        0 <= digits_value(s),
        s.len() <= 1 ==> digits_value(s) <= 9,
        s.len() <= 2 ==> digits_value(s) <= 99,
        s.len() <= 3 ==> digits_value(s) <= 999,
        digits_value(s) <= 9999,
    decreases s.len(),
{
    if s.len() > 0 {
        assert(all_digits(s.drop_last())) by {
            assert forall|i: int| 0 <= i < s.drop_last().len() implies is_digit(
                #[trigger] s.drop_last()[i],
            ) by {
                assert(s.drop_last()[i] == s[i]);
            }
        }
        assert(is_digit(s[s.len() - 1]));
        lemma_digits_bound(s.drop_last());
    }
}

/// Reads `v[from..to]` (at most four characters) as an integer.
fn parse_field(v: &Vec<char>, from: usize, to: usize) -> (r: Option<i64>)
    requires
        from < to <= v@.len(),
        to - from <= 4,
    ensures
        match r {
            Some(x) => parse_int(v@.subrange(from as int, to as int)) == Some(x as int) && -9999
                <= x <= 9999 && (to - from <= 2 ==> -99 <= x <= 99),
            None => parse_int(v@.subrange(from as int, to as int)) is None,
        },
{
    let ghost s = v@.subrange(from as int, to as int);
    let first = v[from];
    assert(s[0] == first);
    let neg = first == '-';
    let start = if first == '+' || first == '-' {
        from + 1
    } else {
        from
    };
    if start == to {
        return None;
    }
    let ghost d = v@.subrange(start as int, to as int);
    proof {
        if first == '+' || first == '-' {
            assert(d =~= s.drop_first());
        } else {
            assert(d =~= s);
        }
    }
    let mut value: i64 = 0;
    let mut i = start;
    assert(d.take(0) =~= Seq::<char>::empty());
    while i < to
        invariant
            from <= start <= i <= to <= v@.len(),
            to - start <= 4,
            d == v@.subrange(start as int, to as int),
            s == v@.subrange(from as int, to as int),
            s[0] == first,
            d == (if first == '+' || first == '-' {
                s.drop_first()
            } else {
                s
            }),
            d.len() > 0,
            all_digits(d.take(i - start)),
            value == digits_value(d.take(i - start)),
        decreases to - i,
    {
        let c = v[i];
        if !('0' <= c && c <= '9') {
            assert(d[i - start] == c);
            assert(!all_digits(d));
            return None;
        }
        proof {
            lemma_digits_bound(d.take(i - start));
            assert(d.take(i - start + 1).drop_last() =~= d.take(i - start));
            assert(d.take(i - start + 1).last() == c);
            assert forall|j: int| 0 <= j < d.take(i - start + 1).len() implies is_digit(
                #[trigger] d.take(i - start + 1)[j],
            ) by {
                if j < i - start {
                    assert(d.take(i - start + 1)[j] == d.take(i - start)[j]);
                }
            }
        }
        value = value * 10 + ((c as u32 - '0' as u32) as i64);
        i = i + 1;
    }
    assert(d.take(to - start) =~= d);
    proof {
        lemma_digits_bound(d);
    }
    if neg {
        Some(-value)
    } else {
        Some(value)
    }
}

/// `y / 400` rounded towards negative infinity.
fn floor_div_400(y: i64) -> (r: i64)
    requires
        -100000 <= y <= 100000,
    ensures
        r == y as int / 400,
{
    if y >= 0 {
        y / 400
    } else {
        let q = (399 - y) / 400;
        proof {
            let r = (399 - y) % 400;
            assert(399 - y == q * 400 + r);
            lemma_fundamental_div_mod_converse(y as int, 400, -q, 399 - r);
        }
        -q
    }
}

/// Unix seconds of date fields.
fn civil_secs(year: i64, month: i64, day: i64, hour: i64, minute: i64, second: i64) -> (r: i64)
    requires
        -9999 <= year <= 9999,
        0 <= month <= 99,
        -99 <= day <= 99,
        -99 <= hour <= 99,
        -99 <= minute <= 99,
        -99 <= second <= 99,
    ensures
        r == unix_secs((year as int, month as int, day as int, hour as int, minute as int, second as int)),
{
    let y = if month <= 2 {
        year - 1
    } else {
        year
    };
    let era = floor_div_400(y);
    let yoe = y - era * 400;
    assert(yoe == march_year(year as int, month as int) % 400) by {
        lemma_fundamental_div_mod_converse(y as int, 400, era as int, yoe as int);
    }
    let mm = if month > 2 {
        month - 3
    } else {
        month + 9
    };
    let doy = (153 * mm + 2) / 5 + day - 1;
    let doe = yoe * 365 + yoe / 4 - yoe / 100 + doy;
    let days = era * 146097 + doe - 719468;
    days * 86400 + hour * 3600 + minute * 60 + second
}

/// The six fields of the first 19 characters, all of them ASCII.
fn read_fields(v: &Vec<char>) -> (r: Option<(i64, i64, i64, i64, i64, i64)>)
    requires
        v@.len() >= 19,
        forall|i: int| 0 <= i < 19 ==> (v@[i] as u32) < 128,
    ensures
        match r {
            Some(f) => date_fields(v@) == Some(
                (f.0 as int, f.1 as int, f.2 as int, f.3 as int, f.4 as int, f.5 as int),
            ) && -9999 <= f.0 <= 9999 && -99 <= f.1 <= 99 && -99 <= f.2 <= 99 && -99 <= f.3 <= 99
                && -99 <= f.4 <= 99 && -99 <= f.5 <= 99,
            None => date_fields(v@) is None,
        },
{
    let year = parse_field(v, 0, 4);
    let month = parse_field(v, 5, 7);
    let day = parse_field(v, 8, 10);
    let hour = parse_field(v, 11, 13);
    let minute = parse_field(v, 14, 16);
    let second = parse_field(v, 17, 19);
    assert(!(exists|i: int| 0 <= i < 19 && (v@[i] as u32) >= 128));
    match (year, month, day, hour, minute, second) {
        (Some(a), Some(b), Some(c), Some(d), Some(e), Some(f)) => Some((a, b, c, d, e, f)),
        _ => None,
    }
}

/// Unix seconds of a `YYYY-MM-DDTHH:MM:SSZ` timestamp; `None` when a field is
/// missing or not an integer.
pub fn parse_iso8601_secs(s: &str) -> (r: Option<i64>)
    requires
        iso8601_computable(s@),
    ensures
        match r {
            Some(v) => spec_parse_iso8601_secs(s@) == Some(v as int),
            None => spec_parse_iso8601_secs(s@) is None,
        },
{
    let v = chars_of(s);
    if v.len() < 19 {
        return None;
    }
    let mut k: usize = 0;
    while k < 19
        invariant
            v@ == s@,
            v@.len() >= 19,
            k <= 19,
            forall|i: int| 0 <= i < k ==> (v@[i] as u32) < 128,
        decreases 19 - k,
    {
        if (v[k] as u32) >= 128 {
            return None;
        }
        k = k + 1;
    }
    match read_fields(&v) {
        Some((year, month, day, hour, minute, second)) => Some(
            civil_secs(year, month, day, hour, minute, second),
        ),
        None => None,
    }
}

/// Whether the timestamp can be read without an arithmetic overflow.
pub fn iso8601_is_computable(s: &str) -> (r: bool)
    ensures
        r == iso8601_computable(s@),
{
    let v = chars_of(s);
    if v.len() < 19 {
        return true;
    }
    let mut k: usize = 0;
    while k < 19
        invariant
            v@ == s@,
            v@.len() >= 19,
            k <= 19,
            forall|i: int| 0 <= i < k ==> (v@[i] as u32) < 128,
        decreases 19 - k,
    {
        if (v[k] as u32) >= 128 {
            return true;
        }
        k = k + 1;
    }
    match read_fields(&v) {
        None => true,
        Some((year, month, day, _, _, _)) => {
            if month < 0 {
                return false;
            }
            let y = if month <= 2 {
                year - 1
            } else {
                year
            };
            let era = floor_div_400(y);
            let yoe = y - era * 400;
            assert(yoe == march_year(year as int, month as int) % 400) by {
                lemma_fundamental_div_mod_converse(y as int, 400, era as int, yoe as int);
            }
            let mm = if month > 2 {
                month - 3
            } else {
                month + 9
            };
            let a = (153 * mm + 2) / 5;
            let b = yoe * 365 + yoe / 4 - yoe / 100;
            if day >= 0 {
                a + day >= 1
            } else {
                a + day < 0 && b + a + day <= 0
            }
        },
    }
}

} // verus!
