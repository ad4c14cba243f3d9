//! Broadcaster timestamps: `YYYYMMDDHHMMSS`, optionally followed by a space
//! and a numeric UTC offset such as `+0200`, turned into unix seconds.

use vstd::prelude::*;

use crate::text::{all_digits, spec_digits_val};

verus! {

broadcast use vstd::string::group_string_axioms;

/// Gregorian leap years.
pub open spec fn spec_is_leap(y: int) -> bool {
    y % 4 == 0 && (y % 100 != 0 || y % 400 == 0)
}

/// Days in one month of one year.
pub open spec fn spec_days_in_month(y: int, m: int) -> int {
    if m == 2 {
        if spec_is_leap(y) {
            29
        } else {
            28
        }
    } else if m == 4 || m == 6 || m == 9 || m == 11 {
        30
    } else {
        31
    }
}

/// Days between the civil date and 1970-01-01, for years 0 through 9999.
pub open spec fn spec_days_from_civil(y: int, m: int, d: int) -> int {
    let yy = if m <= 2 {
        y - 1
    } else {
        y
    };
    let era = if yy >= 0 {
        yy / 400
    } else {
        -1
    };
    let yoe = yy - era * 400;
    let doy = (153 * (if m > 2 {
        m - 3
    } else {
        m + 9
    }) + 2) / 5 + d - 1;
    let doe = yoe * 365 + yoe / 4 - yoe / 100 + doy;
    era * 146097 + doe - 719468
}

/// A well-formed date and time of day.
pub open spec fn spec_valid_civil(y: int, m: int, d: int, h: int, mi: int, sec: int) -> bool {
    &&& 1 <= m <= 12
    &&& 1 <= d <= spec_days_in_month(y, m)
    &&& 0 <= h <= 23
    &&& 0 <= mi <= 59
    &&& 0 <= sec <= 59
}

/// The unix instant of a date and time of day taken as UTC.
pub open spec fn spec_civil_to_unix(y: int, m: int, d: int, h: int, mi: int, sec: int) -> int {
    spec_days_from_civil(y, m, d) * 86400 + h * 3600 + mi * 60 + sec
}

/// What the timestamp parser accepts and returns: fourteen digits read as a
/// UTC date and time, or the same followed by a space and a signed
/// four-digit offset, which shifts the instant back to UTC.  The result is
/// clamped to be non-negative; a malformed or impossible timestamp gives
/// nothing.
pub open spec fn spec_to_timestamp(s: Seq<char>) -> Option<int> {
    if s.len() == 14 && all_digits(s) {
        let y = spec_digits_val(s.subrange(0, 4));
        let m = spec_digits_val(s.subrange(4, 6));
        let d = spec_digits_val(s.subrange(6, 8));
        let h = spec_digits_val(s.subrange(8, 10));
        let mi = spec_digits_val(s.subrange(10, 12));
        let sec = spec_digits_val(s.subrange(12, 14));
        if spec_valid_civil(y, m, d, h, mi, sec) {
            let ts = spec_civil_to_unix(y, m, d, h, mi, sec);
            Some(
                if ts >= 0 {
                    ts
                } else {
                    0
                },
            )
        } else {
            None
        }
    } else if s.len() == 20 && all_digits(s.subrange(0, 14)) && s[14] == ' ' && (s[15] == '+'
        || s[15] == '-') && all_digits(s.subrange(16, 20)) {
        let y = spec_digits_val(s.subrange(0, 4));
        let m = spec_digits_val(s.subrange(4, 6));
        let d = spec_digits_val(s.subrange(6, 8));
        let h = spec_digits_val(s.subrange(8, 10));
        let mi = spec_digits_val(s.subrange(10, 12));
        let sec = spec_digits_val(s.subrange(12, 14));
        let oh = spec_digits_val(s.subrange(16, 18));
        let om = spec_digits_val(s.subrange(18, 20));
        if spec_valid_civil(y, m, d, h, mi, sec) && oh <= 23 && om <= 59 {
            let off = oh * 3600 + om * 60;
            let ts = spec_civil_to_unix(y, m, d, h, mi, sec) + (if s[15] == '-' {
                off
            } else {
                -off
            });
            Some(
                if ts >= 0 {
                    ts
                } else {
                    0
                },
            )
        } else {
            None
        }
    } else {
        None
    }
}

/// Powers of ten.
pub open spec fn pow10(n: int) -> int
    decreases n,
{
    if n <= 0 {
        1
    } else {
        10 * pow10(n - 1)
    }
}

/// Reads the decimal number at `[a, b)` of `s`; nothing when a character
/// there is no digit.
#[verifier::loop_isolation(false)]
fn read_num(s: &str, a: usize, b: usize) -> (r: Option<i64>)
    requires
        a <= b <= s@.len(),
        b - a <= 4,
    ensures
        match r {
            Some(v) => all_digits(s@.subrange(a as int, b as int)) && v as int == spec_digits_val(
                s@.subrange(a as int, b as int),
            ) && 0 <= v < 10000,
            None => !all_digits(s@.subrange(a as int, b as int)),
        },
{
    proof {
        reveal_with_fuel(pow10, 5);
    }
    let mut acc: i64 = 0;
    let mut i: usize = a;
    while i < b
        invariant
            a <= i <= b,
            all_digits(s@.subrange(a as int, i as int)),
            acc as int == spec_digits_val(s@.subrange(a as int, i as int)),
            0 <= acc,
            (acc as int) < pow10(i - a),
        decreases b - i,
    {
        let c = s.get_char(i);
        let dv = c as u32;
        proof {
            assert(s@.subrange(a as int, i as int + 1).drop_last() =~= s@.subrange(
                a as int,
                i as int,
            ));
            assert(s@.subrange(a as int, i as int + 1).last() == s@[i as int]);
        }
        if !(48 <= dv && dv <= 57) {
            proof {
                assert(s@.subrange(a as int, b as int)[i - a] == s@[i as int]);
            }
            return None;
        }
        proof {
            assert(pow10(i - a) <= pow10(3)) by {
                if i - a <= 0 {
                } else if i - a == 1 {
                } else if i - a == 2 {
                }
            }
        }
        acc = acc * 10 + ((dv - 48) as i64);
        i += 1;
    }
    proof {
        assert(s@.subrange(a as int, i as int) =~= s@.subrange(a as int, b as int));
        assert(pow10(b - a) <= pow10(4)) by {
            if b - a <= 0 {
            } else if b - a == 1 {
            } else if b - a == 2 {
            } else if b - a == 3 {
            }
        }
    }
    Some(acc)
}

/// Days between the civil date and the unix epoch, computed as the spec
/// states it.
pub fn days_from_civil(y: i64, m: i64, d: i64) -> (r: i64)
    requires
        0 <= y < 10000,
        1 <= m <= 12,
        1 <= d <= 31,
    ensures
        r as int == spec_days_from_civil(y as int, m as int, d as int),
        -1000000 <= r <= 4000000,
{
    let yy: i64 = if m <= 2 {
        y - 1
    } else {
        y
    };
    let era: i64 = if yy >= 0 {
        yy / 400
    } else {
        -1
    };
    let yoe: i64 = yy - era * 400;
    let doy: i64 = (153 * (if m > 2 {
        m - 3
    } else {
        m + 9
    }) + 2) / 5 + d - 1;
    let doe: i64 = yoe * 365 + yoe / 4 - yoe / 100 + doy;
    era * 146097 + doe - 719468
}

/// Parses one broadcaster timestamp into unix seconds, exactly as
/// [`spec_to_timestamp`] describes.
pub fn to_timestamp(s: &str) -> (r: Option<i64>)
    ensures
        match r {
            Some(v) => spec_to_timestamp(s@) == Some(v as int),
            None => spec_to_timestamp(s@) is None,
        },
{
    let n = s.unicode_len();
    let with_offset: bool = if n == 14 {
        false
    } else if n == 20 {
        let sp = s.get_char(14);
        let sg = s.get_char(15);
        if sp == ' ' && (sg == '+' || sg == '-') {
            true
        } else {
            return None;
        }
    } else {
        return None;
    };
    let y = match read_num(s, 0, 4) {
        Some(v) => v,
        None => {
            proof {
                lemma_not_all_digits(s@, 0, 4);
            }
            return None;
        },
    };
    let m = match read_num(s, 4, 6) {
        Some(v) => v,
        None => {
            proof {
                lemma_not_all_digits(s@, 4, 6);
            }
            return None;
        },
    };
    let d = match read_num(s, 6, 8) {
        Some(v) => v,
        None => {
            proof {
                lemma_not_all_digits(s@, 6, 8);
            }
            return None;
        },
    };
    let h = match read_num(s, 8, 10) {
        Some(v) => v,
        None => {
            proof {
                lemma_not_all_digits(s@, 8, 10);
            }
            return None;
        },
    };
    let mi = match read_num(s, 10, 12) {
        Some(v) => v,
        None => {
            proof {
                lemma_not_all_digits(s@, 10, 12);
            }
            return None;
        },
    };
    let sec = match read_num(s, 12, 14) {
        Some(v) => v,
        None => {
            proof {
                lemma_not_all_digits(s@, 12, 14);
            }
            return None;
        },
    };
    proof {
        lemma_all_digit_groups(s@);
    }
    // Validate the civil fields.
    let leap: bool = y % 4 == 0 && (y % 100 != 0 || y % 400 == 0);
    let dim: i64 = if m == 2 {
        if leap {
            29
        } else {
            28
        }
    } else if m == 4 || m == 6 || m == 9 || m == 11 {
        30
    } else {
        31
    };
    if !(1 <= m && m <= 12 && 1 <= d && d <= dim && h <= 23 && mi <= 59 && sec <= 59) {
        return None;
    }
    let naive: i64 = days_from_civil(y, m, d) * 86400 + h * 3600 + mi * 60 + sec;
    let ts: i64 = if with_offset {
        let oh = match read_num(s, 16, 18) {
            Some(v) => v,
            None => {
                proof {
                    lemma_offset_group_bad(s@, 16, 18);
                }
                return None;
            },
        };
        let om = match read_num(s, 18, 20) {
            Some(v) => v,
            None => {
                proof {
                    lemma_offset_group_bad(s@, 18, 20);
                }
                return None;
            },
        };
        proof {
            lemma_offset_digit_groups(s@);
        }
        if !(oh <= 23 && om <= 59) {
            return None;
        }
        let off = oh * 3600 + om * 60;
        if s.get_char(15) == '-' {
            naive + off
        } else {
            naive - off
        }
    } else {
        naive
    };
    Some(
        if ts >= 0 {
            ts
        } else {
            0
        },
    )
}

/// Digits in both halves of the offset make the offset all digits.
proof fn lemma_offset_digit_groups(s: Seq<char>)
    requires
        s.len() == 20,
        all_digits(s.subrange(16, 18)),
        all_digits(s.subrange(18, 20)),
    ensures
        all_digits(s.subrange(16, 20)),
{
    assert forall|j: int| 0 <= j < 4 implies 48 <= (#[trigger] s.subrange(16, 20)[j]) as u32
        <= 57 by {
        if j < 2 {
            assert(s.subrange(16, 18)[j] == s[16 + j]);
        } else {
            assert(s.subrange(18, 20)[j - 2] == s[16 + j]);
        }
    }
}

/// A sour half poisons the whole offset.
proof fn lemma_offset_group_bad(s: Seq<char>, a: int, b: int)
    requires
        s.len() == 20,
        16 <= a <= b <= 20,
        !all_digits(s.subrange(a, b)),
    ensures
        !all_digits(s.subrange(16, 20)),
{
    let j = choose|j: int|
        0 <= j < b - a && !(48 <= (#[trigger] s.subrange(a, b)[j]) as u32 <= 57);
    assert(s.subrange(a, b)[j] == s[a + j]);
    assert(s.subrange(16, 20)[a + j - 16] == s[a + j]);
}

/// The civil date `days` days after 1970-01-01, as `(year, month, day)`;
/// meaningful for non-negative days up to the year 9999.
pub open spec fn spec_civil_from_days(days: int) -> (int, int, int) {
    let z = days + 719468;
    let era = z / 146097;
    let doe = z - era * 146097;
    let yoe = (doe - doe / 1460 + doe / 36524 - doe / 146096) / 365;
    let yy = yoe + era * 400;
    let doy = doe - (365 * yoe + yoe / 4 - yoe / 100);
    let mp = (5 * doy + 2) / 153;
    let d = doy - (153 * mp + 2) / 5 + 1;
    let m = if mp < 10 {
        mp + 3
    } else {
        mp - 9
    };
    (
        if m <= 2 {
            yy + 1
        } else {
            yy
        },
        m,
        d,
    )
}

/// The digit character for one decimal digit.
pub open spec fn spec_digit_char(d: int) -> char {
    if d == 0 {
        '0'
    } else if d == 1 {
        '1'
    } else if d == 2 {
        '2'
    } else if d == 3 {
        '3'
    } else if d == 4 {
        '4'
    } else if d == 5 {
        '5'
    } else if d == 6 {
        '6'
    } else if d == 7 {
        '7'
    } else if d == 8 {
        '8'
    } else {
        '9'
    }
}

/// A number rendered as two zero-padded digits.
pub open spec fn spec_two_digits(n: int) -> Seq<char> {
    seq![spec_digit_char(n / 10), spec_digit_char(n % 10)]
}

/// A year rendered as four zero-padded digits.
pub open spec fn spec_four_digits(n: int) -> Seq<char> {
    seq![
        spec_digit_char(n / 1000),
        spec_digit_char((n / 100) % 10),
        spec_digit_char((n / 10) % 10),
        spec_digit_char(n % 10),
    ]
}

/// A unix instant rendered as `YYYY-MM-DD HH:MM:SS` in UTC.
pub open spec fn spec_format_time(t: int) -> Seq<char> {
    let days = t / 86400;
    let secs = t % 86400;
    let ymd = spec_civil_from_days(days);
    spec_four_digits(ymd.0) + "-"@ + spec_two_digits(ymd.1) + "-"@ + spec_two_digits(ymd.2) + " "@
        + spec_two_digits(secs / 3600) + ":"@ + spec_two_digits((secs / 60) % 60) + ":"@
        + spec_two_digits(secs % 60)
}

/// The digit character for one decimal digit.
fn digit_char(d: i64) -> (r: char)
    requires
        0 <= d <= 9,
    ensures
        r == spec_digit_char(d as int),
{
    if d == 0 {
        '0'
    } else if d == 1 {
        '1'
    } else if d == 2 {
        '2'
    } else if d == 3 {
        '3'
    } else if d == 4 {
        '4'
    } else if d == 5 {
        '5'
    } else if d == 6 {
        '6'
    } else if d == 7 {
        '7'
    } else if d == 8 {
        '8'
    } else {
        '9'
    }
}

/// Appends a number as two zero-padded digits.
fn push_two_digits(out: &mut String, n: i64)
    requires
        0 <= n <= 99,
    ensures
        final(out)@ == old(out)@ + spec_two_digits(n as int),
{
    out.push(digit_char(n / 10));
    out.push(digit_char(n % 10));
    proof {
        assert(final(out)@ =~= old(out)@ + spec_two_digits(n as int));
    }
}

/// Renders a unix instant as `YYYY-MM-DD HH:MM:SS` in UTC, exactly as
/// [`spec_format_time`] describes.
#[verifier::rlimit(100)]
pub fn format_unix_time(t: i64) -> (r: String)
    requires
        0 <= t <= 253402300799,
    ensures
        r@ == spec_format_time(t as int),
{
    let days = t / 86400;
    let secs = t % 86400;
    // The civil date, computed as the spec states it.
    let z = days + 719468;
    let era = z / 146097;
    let doe = z - era * 146097;
    let yoe = (doe - doe / 1460 + doe / 36524 - doe / 146096) / 365;
    let yy = yoe + era * 400;
    let doy = doe - (365 * yoe + yoe / 4 - yoe / 100);
    let mp = (5 * doy + 2) / 153;
    let d = doy - (153 * mp + 2) / 5 + 1;
    let m = if mp < 10 {
        mp + 3
    } else {
        mp - 9
    };
    let y = if m <= 2 {
        yy + 1
    } else {
        yy
    };
    let mut out = String::new();
    out.push(digit_char(y / 1000));
    out.push(digit_char((y / 100) % 10));
    out.push(digit_char((y / 10) % 10));
    out.push(digit_char(y % 10));
    out.push('-');
    push_two_digits(&mut out, m);
    out.push('-');
    push_two_digits(&mut out, d);
    out.push(' ');
    push_two_digits(&mut out, secs / 3600);
    out.push(':');
    push_two_digits(&mut out, (secs / 60) % 60);
    out.push(':');
    push_two_digits(&mut out, secs % 60);
    proof {
        reveal_strlit("-");
        reveal_strlit(" ");
        reveal_strlit(":");
        assert(out@ =~= spec_format_time(t as int));
    }
    out
}

/// A group of characters that is not all digits poisons the whole string.
proof fn lemma_not_all_digits(s: Seq<char>, a: int, b: int)
    requires
        0 <= a <= b <= s.len(),
        !all_digits(s.subrange(a, b)),
    ensures
        !all_digits(s),
        s.len() >= 14 ==> !all_digits(s.subrange(0, 14)) || b > 14,
{
    let j = choose|j: int|
        0 <= j < b - a && !(48 <= (#[trigger] s.subrange(a, b)[j]) as u32 <= 57);
    assert(s[a + j] == s.subrange(a, b)[j]);
    if s.len() >= 14 && b <= 14 {
        assert(s.subrange(0, 14)[a + j] == s[a + j]);
    }
}

/// Digits in every group of the fourteen-character prefix make the prefix
/// all digits.
proof fn lemma_all_digit_groups(s: Seq<char>)
    requires
        s.len() >= 14,
        all_digits(s.subrange(0, 4)),
        all_digits(s.subrange(4, 6)),
        all_digits(s.subrange(6, 8)),
        all_digits(s.subrange(8, 10)),
        all_digits(s.subrange(10, 12)),
        all_digits(s.subrange(12, 14)),
    ensures
        all_digits(s.subrange(0, 14)),
        s.len() == 14 ==> all_digits(s),
{
    assert forall|j: int| 0 <= j < 14 implies 48 <= (#[trigger] s.subrange(0, 14)[j]) as u32
        <= 57 by {
        if j < 4 {
            assert(s.subrange(0, 4)[j] == s[j]);
        } else if j < 6 {
            assert(s.subrange(4, 6)[j - 4] == s[j]);
        } else if j < 8 {
            assert(s.subrange(6, 8)[j - 6] == s[j]);
        } else if j < 10 {
            assert(s.subrange(8, 10)[j - 8] == s[j]);
        } else if j < 12 {
            assert(s.subrange(10, 12)[j - 10] == s[j]);
        } else {
            assert(s.subrange(12, 14)[j - 12] == s[j]);
        }
    }
    if s.len() == 14 {
        assert(s.subrange(0, 14) =~= s);
    }
}

} // verus!
