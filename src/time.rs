//! Conversion between epoch seconds and the RFC 3339 UTC form
//! `YYYY-MM-DDThh:mm:ssZ` that names snapshot directories.
//!
//! Years run from 1970 to 9999: snapshots predate neither the epoch nor a
//! five-digit year.

use vstd::prelude::*;
use vstd::string::*;

verus! {

/// Errors of the time conversions.
#[derive(Clone, Copy, Debug, PartialEq, Eq, Structural)]
pub enum TimeError {
    /// The instant lies outside the years 1970 to 9999.
    OutOfRange,
    /// The text is not a valid `YYYY-MM-DDThh:mm:ssZ` time stamp.
    Malformed,
}

/// Year, month and day of the given day number (days since 1970-01-01).
pub open spec fn civil_from_days(days: int) -> (int, int, int) {
    let z = days + 719468;
    let era = z / 146097;
    let doe = z - era * 146097;
    let yoe = (doe - doe / 1460 + doe / 36524 - doe / 146096) / 365;
    let y = yoe + era * 400;
    let doy = doe - (365 * yoe + yoe / 4 - yoe / 100);
    let mp = (5 * doy + 2) / 153;
    let d = doy - (153 * mp + 2) / 5 + 1;
    let m = if mp < 10 {
        mp + 3
    } else {
        mp - 9
    };
    (if m <= 2 {
        y + 1
    } else {
        y
    }, m, d)
}

/// Day number (days since 1970-01-01) of the given date.
pub open spec fn days_from_civil(y: int, m: int, d: int) -> int {
    let y2 = if m <= 2 {
        y - 1
    } else {
        y
    };
    let era = y2 / 400;
    let yoe = y2 - era * 400;
    let mp = if m > 2 {
        m - 3
    } else {
        m + 9
    };
    let doy = (153 * mp + 2) / 5 + d - 1;
    let doe = yoe * 365 + yoe / 4 - yoe / 100 + doy;
    era * 146097 + doe - 719468
}

pub open spec fn is_leap_year(y: int) -> bool {
    (y % 4 == 0 && y % 100 != 0) || y % 400 == 0
}

pub open spec fn days_in_month(y: int, m: int) -> int {
    if m == 2 {
        if is_leap_year(y) {
            29
        } else {
            28
        }
    } else if m == 4 || m == 6 || m == 9 || m == 11 {
        30
    } else {
        31
    }
}

pub open spec fn digit_char(d: int) -> char {
    ((d + 48) as u8) as char
}

pub open spec fn is_digit(c: char) -> bool {
    '0' <= c && c <= '9'
}

pub open spec fn digit_value(c: char) -> int {
    (c as u32) as int - 48
}

pub open spec fn two_digits(n: int) -> Seq<char> {
    seq![digit_char(n / 10), digit_char(n % 10)]
}

pub open spec fn four_digits(n: int) -> Seq<char> {
    seq![digit_char(n / 1000), digit_char(n / 100 % 10), digit_char(n / 10 % 10), digit_char(n % 10)]
}

/// The time stamp of an instant given in epoch seconds.
pub open spec fn rfc3339_of(epoch: int) -> Seq<char> {
    let (y, m, d) = civil_from_days(epoch / 86400);
    let secs = epoch % 86400;
    four_digits(y) + seq!['-'] + two_digits(m) + seq!['-'] + two_digits(d) + seq!['T'] + two_digits(
        secs / 3600,
    ) + seq![':'] + two_digits(secs % 3600 / 60) + seq![':'] + two_digits(secs % 60) + seq!['Z']
}

/// Whether an instant can be written as a time stamp.
pub open spec fn epoch_in_range(epoch: int) -> bool {
    0 <= epoch && civil_from_days(epoch / 86400).0 <= 9999
}

pub open spec fn num_at(s: Seq<char>, i: int, n: nat) -> int
    decreases n,
{
    if n == 0 {
        0
    } else {
        num_at(s, i, (n - 1) as nat) * 10 + digit_value(s[i + n - 1])
    }
}

/// Whether `s` has the shape `DDDD-DD-DDTDD:DD:DDZ`.
pub open spec fn rfc3339_shape(s: Seq<char>) -> bool {
    &&& s.len() == 20
    &&& s[4] == '-' && s[7] == '-' && s[10] == 'T' && s[13] == ':' && s[16] == ':' && s[19] == 'Z'
    &&& forall|i: int|
        0 <= i < 19 && i != 4 && i != 7 && i != 10 && i != 13 && i != 16 ==> is_digit(
            #[trigger] s[i],
        )
}

/// The instant named by a time stamp, if it is a valid one.
pub open spec fn parse_rfc3339_spec(s: Seq<char>) -> Option<int> {
    if !rfc3339_shape(s) {
        None
    } else {
        let y = num_at(s, 0, 4);
        let m = num_at(s, 5, 2);
        let d = num_at(s, 8, 2);
        let hh = num_at(s, 11, 2);
        let mm = num_at(s, 14, 2);
        let ss = num_at(s, 17, 2);
        if y < 1970 || m < 1 || m > 12 || d < 1 || d > days_in_month(y, m) || hh > 23 || mm > 59
            || ss > 59 {
            None
        } else {
            Some(days_from_civil(y, m, d) * 86400 + hh * 3600 + mm * 60 + ss)
        }
    }
}

pub(crate) fn civil_from_days_exec(days: u64) -> (r: (u64, u64, u64))
    requires
        days <= 200_000_000_000_000,
    ensures
        civil_from_days(days as int) == (r.0 as int, r.1 as int, r.2 as int),
        1 <= r.1 <= 12,
        r.2 <= 31,
{
    let z: u64 = days + 719468;
    let era: u64 = z / 146097;
    let doe: u64 = z - era * 146097;
    let yoe: u64 = (doe - doe / 1460 + doe / 36524 - doe / 146096) / 365;
    let y: u64 = yoe + era * 400;
    let doy: u64 = doe - (365 * yoe + yoe / 4 - yoe / 100);
    let mp: u64 = (5 * doy + 2) / 153;
    let d: u64 = doy - (153 * mp + 2) / 5 + 1;
    let m: u64 = if mp < 10 {
        mp + 3
    } else {
        mp - 9
    };
    let year: u64 = if m <= 2 {
        y + 1
    } else {
        y
    };
    (year, m, d)
}

fn push_digit(s: &mut String, d: u64)
    requires
        d < 10,
    ensures
        final(s)@ == old(s)@.push(digit_char(d as int)),
{
    let lit = if d == 0 {
        proof { reveal_strlit("0"); }
        "0"
    } else if d == 1 {
        proof { reveal_strlit("1"); }
        "1"
    } else if d == 2 {
        proof { reveal_strlit("2"); }
        "2"
    } else if d == 3 {
        proof { reveal_strlit("3"); }
        "3"
    } else if d == 4 {
        proof { reveal_strlit("4"); }
        "4"
    } else if d == 5 {
        proof { reveal_strlit("5"); }
        "5"
    } else if d == 6 {
        proof { reveal_strlit("6"); }
        "6"
    } else if d == 7 {
        proof { reveal_strlit("7"); }
        "7"
    } else if d == 8 {
        proof { reveal_strlit("8"); }
        "8"
    } else {
        proof { reveal_strlit("9"); }
        "9"
    };
    s.append(lit);
    assert(final(s)@ =~= old(s)@.push(digit_char(d as int)));
}

fn push_two(s: &mut String, n: u64)
    requires
        n < 100,
    ensures
        final(s)@ == old(s)@ + two_digits(n as int),
{
    push_digit(s, n / 10);
    push_digit(s, n % 10);
    assert(final(s)@ =~= old(s)@ + two_digits(n as int));
}

/// Writes an instant as an RFC 3339 UTC time stamp.
pub fn epoch_to_rfc3339_utc(epoch: i64) -> (r: Result<String, TimeError>)
    ensures
        r is Ok <==> epoch_in_range(epoch as int),
        r is Ok ==> r->Ok_0@ == rfc3339_of(epoch as int),
        r is Err ==> r == Err::<String, TimeError>(TimeError::OutOfRange),
{
    if epoch < 0 {
        return Err(TimeError::OutOfRange);
    }
    let t = epoch as u64;
    let days = t / 86400;
    let secs = t % 86400;
    let (y, m, d) = civil_from_days_exec(days);
    if y > 9999 {
        return Err(TimeError::OutOfRange);
    }
    let mut s = String::new();
    push_digit(&mut s, y / 1000);
    push_digit(&mut s, y / 100 % 10);
    push_digit(&mut s, y / 10 % 10);
    push_digit(&mut s, y % 10);
    proof { reveal_strlit("-"); reveal_strlit("T"); reveal_strlit(":"); reveal_strlit("Z"); }
    s.append("-");
    push_two(&mut s, m);
    s.append("-");
    push_two(&mut s, d);
    s.append("T");
    push_two(&mut s, secs / 3600);
    s.append(":");
    push_two(&mut s, secs % 3600 / 60);
    s.append(":");
    push_two(&mut s, secs % 60);
    s.append("Z");
    assert(s@ =~= rfc3339_of(epoch as int));
    Ok(s)
}

proof fn lemma_days_from_civil_nonneg(y: int, m: int, d: int)
    requires
        1970 <= y <= 9999,
        1 <= m <= 12,
        1 <= d,
    ensures
        days_from_civil(y, m, d) >= 0,
{
    let y2 = if m <= 2 {
        y - 1
    } else {
        y
    };
    let era = y2 / 400;
    assert(era >= 4);
    if era == 4 {
        assert(y2 - era * 400 >= 369);
    }
}

pub(crate) fn days_from_civil_exec(y: u64, m: u64, d: u64) -> (r: i64)
    requires
        1970 <= y <= 9999,
        1 <= m <= 12,
        1 <= d <= 31,
    ensures
        r as int == days_from_civil(y as int, m as int, d as int),
        -1_000_000 <= r <= 4_000_000,
{
    let y2: u64 = if m <= 2 {
        y - 1
    } else {
        y
    };
    let era: u64 = y2 / 400;
    let yoe: u64 = y2 - era * 400;
    let mp: u64 = if m > 2 {
        m - 3
    } else {
        m + 9
    };
    let doy: u64 = (153 * mp + 2) / 5 + d - 1;
    let doe: u64 = yoe * 365 + yoe / 4 - yoe / 100 + doy;
    (era * 146097 + doe) as i64 - 719468
}

fn days_in_month_exec(y: u64, m: u64) -> (r: u64)
    ensures
        r as int == days_in_month(y as int, m as int),
{
    if m == 2 {
        if (y % 4 == 0 && y % 100 != 0) || y % 400 == 0 {
            29
        } else {
            28
        }
    } else if m == 4 || m == 6 || m == 9 || m == 11 {
        30
    } else {
        31
    }
}

/// The number written with the `n` digits of `s` from position `i`, if all are digits.
fn digits_at(s: &str, i: usize, n: usize) -> (r: Option<u64>)
    requires
        n <= 4,
        i + n <= 20,
        s@.len() == 20,
    ensures
        r is Some <==> forall|k: int| i <= k < i + n ==> is_digit(#[trigger] s@[k]),
        r is Some ==> r->Some_0 as int == num_at(s@, i as int, n as nat),
        r is Some ==> r->Some_0 < 10000,
{
    let mut acc: u64 = 0;
    let mut k: usize = 0;
    while k < n
        invariant
            k <= n <= 4,
            i + n <= 20,
            s@.len() == 20,
            acc as int == num_at(s@, i as int, k as nat),
            0 <= acc < 10000,
            acc < if k == 0 { 1int } else if k == 1 { 10int } else if k == 2 { 100int } else if k == 3 { 1000int } else { 10000int },
            forall|j: int| i <= j < i + k ==> is_digit(#[trigger] s@[j]),
        decreases n - k,
    {
        let c = s.get_char(i + k);
        if !('0' <= c && c <= '9') {
            return None;
        }
        acc = acc * 10 + (c as u32 - 48) as u64;
        k = k + 1;
    }
    Some(acc)
}

/// Reads an RFC 3339 UTC time stamp `YYYY-MM-DDThh:mm:ssZ` as epoch seconds.
pub fn parse_rfc3339(s: &str) -> (r: Result<i64, TimeError>)
    ensures
        match parse_rfc3339_spec(s@) {
            Some(t) => r == Ok::<i64, TimeError>(t as i64) && 0 <= t <= i64::MAX,
            None => r == Err::<i64, TimeError>(TimeError::Malformed),
        },
{
    let len = s.unicode_len();
    if len != 20 {
        return Err(TimeError::Malformed);
    }
    if !(s.get_char(4) == '-' && s.get_char(7) == '-' && s.get_char(10) == 'T' && s.get_char(13)
        == ':' && s.get_char(16) == ':' && s.get_char(19) == 'Z') {
        return Err(TimeError::Malformed);
    }
    let fields = (
        digits_at(s, 0, 4),
        digits_at(s, 5, 2),
        digits_at(s, 8, 2),
        digits_at(s, 11, 2),
        digits_at(s, 14, 2),
        digits_at(s, 17, 2),
    );
    let (y, m, d, hh, mm, ss) = match fields {
        (Some(y), Some(m), Some(d), Some(hh), Some(mm), Some(ss)) => (y, m, d, hh, mm, ss),
        _ => {
            assert(!rfc3339_shape(s@));
            return Err(TimeError::Malformed);
        },
    };
    assert(rfc3339_shape(s@)) by {
        assert forall|i: int|
            0 <= i < 19 && i != 4 && i != 7 && i != 10 && i != 13 && i != 16 implies is_digit(
                #[trigger] s@[i],
            ) by {
            if i < 4 {
            } else if i < 7 {
            } else if i < 10 {
            } else if i < 13 {
            } else if i < 16 {
            } else {
            }
        }
    }
    if y < 1970 || m < 1 || m > 12 || d < 1 || d > days_in_month_exec(y, m) || hh > 23 || mm > 59
        || ss > 59 {
        return Err(TimeError::Malformed);
    }
    let days = days_from_civil_exec(y, m, d);
    proof {
        lemma_days_from_civil_nonneg(y as int, m as int, d as int);
    }
    let t: i64 = days * 86400 + (hh * 3600 + mm * 60 + ss) as i64;
    Ok(t)
}

} // verus!
