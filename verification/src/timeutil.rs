//! RFC3339 UTC timestamps and the civil calendar, without a date crate.
use crate::fmt::{decimal, push_padded, string_from_chars, zero_pad};
use vstd::prelude::*;

verus! {

/// Howard Hinnant's civil-from-days: the proleptic Gregorian (year, month,
/// day) of the day `z` days after 1970-01-01. Divisions are floor divisions.
pub open spec fn civil(z0: int) -> (int, int, int) {
    let z = z0 + 719_468;
    let era = z / 146_097;
    let doe = z - era * 146_097;
    let yoe = (doe - doe / 1460 + doe / 36_524 - doe / 146_096) / 365;
    let y = yoe + era * 400;
    let doy = doe - (365 * yoe + yoe / 4 - yoe / 100);
    let mp = (5 * doy + 2) / 153;
    let d = doy - (153 * mp + 2) / 5 + 1;
    let m = if mp < 10 { mp + 3 } else { mp - 9 };
    (if m <= 2 { y + 1 } else { y }, m, d)
}

/// Civil date (year, month 1-12, day 1-31) of `z` days since the Unix epoch.
pub fn civil_from_days(z: i64) -> (r: (i64, i64, i64))
    ensures
        (r.0 as int, r.1 as int, r.2 as int) == civil(z as int),
        1 <= r.1 <= 12,
        1 <= r.2 <= 31,
{
    let zz: i128 = z as i128 + 719_468;
    let era: i128 = if zz >= 0 { zz } else { zz - 146_096 } / 146_097;
    proof {
        // the adjusted truncating division is the floor division
        assert(era == zz as int / 146_097) by (nonlinear_arith)
            requires
                zz >= 0 ==> era == zz / 146_097,
                zz < 0 ==> era == -((-(zz - 146_096)) / 146_097),
        {
        }
    }
    let doe: i128 = zz - era * 146_097;
    proof {
        assert(0 <= doe < 146_097) by (nonlinear_arith)
            requires doe == zz - era * 146_097, era == zz as int / 146_097;
    }
    let yoe: i128 = (doe - doe / 1460 + doe / 36_524 - doe / 146_096) / 365;
    proof {
        assert(0 <= yoe <= 399) by (nonlinear_arith)
            requires 0 <= doe < 146_097, yoe == (doe - doe / 1460 + doe / 36_524 - doe / 146_096) / 365;
    }
    let y: i128 = yoe + era * 400;
    let doy: i128 = doe - (365 * yoe + yoe / 4 - yoe / 100);
    proof {
        assert(0 <= doy <= 365) by (nonlinear_arith)
            requires
                0 <= doe < 146_097,
                yoe == (doe - doe / 1460 + doe / 36_524 - doe / 146_096) / 365,
                doy == doe - (365 * yoe + yoe / 4 - yoe / 100),
        {
        }
    }
    let mp: i128 = (5 * doy + 2) / 153;
    let d: i128 = doy - (153 * mp + 2) / 5 + 1;
    proof {
        assert(0 <= mp <= 11 && 1 <= d <= 31) by (nonlinear_arith)
            requires 0 <= doy <= 365, mp == (5 * doy + 2) / 153, d == doy - (153 * mp + 2) / 5 + 1;
    }
    let m: i128 = if mp < 10 { mp + 3 } else { mp - 9 };
    let yy: i128 = if m <= 2 { y + 1 } else { y };
    proof {
        assert(-2_000_000_000_000_000 < era < 2_000_000_000_000_000) by (nonlinear_arith)
            requires era == zz as int / 146_097, -0x8000_0000_0000_0000 <= zz <= 0x7fff_ffff_ffff_ffff + 719_468;
    }
    (yy as i64, m as i64, d as i64)
}

/// Floor division and the matching non-negative remainder.
pub fn floor_div_mod(x: i64, d: i64) -> (r: (i64, i64))
    requires
        d > 0,
    ensures
        r.0 == x as int / d as int,
        r.1 == x as int % d as int,
        0 <= r.1 < d,
{
    let q: i64 = x / d;
    proof {
        if x >= 0 {
            assert(0 <= q * d <= x && x - q * d < d) by (nonlinear_arith)
                requires d > 0, x >= 0, q == x as int / d as int;
        } else {
            assert(x <= q * d <= 0 && x - q * d > -d) by (nonlinear_arith)
                requires d > 0, x < 0, q == -((-x) as int / d as int);
        }
    }
    let m: i64 = x - q * d;
    if m < 0 {
        proof {
            assert(q > i64::MIN) by (nonlinear_arith)
                requires q * d + m == x, m < 0, d > 0, x >= i64::MIN;
            assert(q - 1 == x as int / d as int && m + d == x as int % d as int) by (nonlinear_arith)
                requires d > 0, q * d + m == x, -d < m < 0;
        }
        (q - 1, m + d)
    } else {
        proof {
            assert(q == x as int / d as int && m == x as int % d as int) by (nonlinear_arith)
                requires d > 0, q * d + m == x, 0 <= m < d;
        }
        (q, m)
    }
}

/// `y` rendered as `{y:04}` renders it: at least four characters, the sign
/// counted in the width.
pub open spec fn year_text(y: int) -> Seq<char> {
    if y < 0 {
        seq!['-'] + zero_pad(decimal((-y) as nat), 3)
    } else {
        zero_pad(decimal(y as nat), 4)
    }
}

pub open spec fn two(n: int) -> Seq<char> {
    zero_pad(decimal(n as nat), 2)
}

/// `YYYY-MM-DDTHH:MM:SSZ` for a Unix second count.
pub open spec fn spec_rfc3339(secs: int) -> Seq<char> {
    let days = secs / 86_400;
    let tod = secs % 86_400;
    let (y, mo, d) = civil(days);
    year_text(y) + seq!['-'] + two(mo) + seq!['-'] + two(d) + seq!['T'] + two(tod / 3600) + seq![':'] + two(
        (tod % 3600) / 60,
    ) + seq![':'] + two(tod % 60) + seq!['Z']
}

/// Format a Unix epoch second count as an RFC3339 UTC string.
pub fn rfc3339_from_unix_secs(secs: i64) -> (r: String)
    ensures
        r@ == spec_rfc3339(secs as int),
{
    let (days, tod) = floor_div_mod(secs, 86_400);
    let h = tod / 3600;
    let m = (tod % 3600) / 60;
    let s = tod % 60;
    let (y, mo, d) = civil_from_days(days);
    let mut out: Vec<char> = Vec::new();
    if y < 0 {
        out.push('-');
        let ay: u64 = (0i128 - y as i128) as u64;
        push_padded(&mut out, ay, 3);
    } else {
        push_padded(&mut out, y as u64, 4);
    }
    out.push('-');
    push_padded(&mut out, mo as u64, 2);
    out.push('-');
    push_padded(&mut out, d as u64, 2);
    out.push('T');
    push_padded(&mut out, h as u64, 2);
    out.push(':');
    push_padded(&mut out, m as u64, 2);
    out.push(':');
    push_padded(&mut out, s as u64, 2);
    out.push('Z');
    proof {
        assert(out@ =~= spec_rfc3339(secs as int));
    }
    string_from_chars(&out)
}

/// Reads `SystemTime::now()` as whole seconds since the Unix epoch; a clock
/// before the epoch reads as 0. Nothing is claimed of the value: it is the
/// machine's clock.
#[verifier::external_body]
pub(crate) fn now_unix() -> (r: i64) {
    std::time::SystemTime::now().duration_since(std::time::UNIX_EPOCH).map(|d| d.as_secs() as i64).unwrap_or(0)
}

/// Current time as an RFC3339 UTC string at second precision; a clock
/// before the epoch reads as the epoch.
pub fn now_rfc3339() -> (r: String)
    ensures
        exists|secs: i64| secs >= 0 && r@ == spec_rfc3339(secs as int),
{
    let t = now_unix();
    let secs = if t >= 0 {
        t
    } else {
        0
    };
    rfc3339_from_unix_secs(secs)
}

/// `x` clamped to the `i64` range.
pub open spec fn clamp_i64(x: int) -> i64 {
    if x > i64::MAX {
        i64::MAX
    } else if x < i64::MIN {
        i64::MIN
    } else {
        x as i64
    }
}

/// Milliseconds to nanoseconds: the millisecond count read as `i64` (as an
/// `as` cast reads it), times one million, saturating at the `i64` bounds.
pub fn ms_to_ns(ms: u64) -> (r: i64)
    ensures
        r == clamp_i64((ms as i64) * 1_000_000),
{
    let m: i64 = ms as i64;
    if m > i64::MAX / 1_000_000 {
        i64::MAX
    } else if m < i64::MIN / 1_000_000 {
        i64::MIN
    } else {
        m * 1_000_000
    }
}

} // verus!
