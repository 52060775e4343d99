//! UTC timestamps of the form `YYYY-MM-DDTHH:MM:SSZ` and Unix epoch seconds.
use vstd::prelude::*;
use vstd::string::*;
use vstd::utf8::*;
use crate::text::{is_digit_byte, bytes_of, lemma_decimal_small, lemma_padded, lemma_parse_padded, all_digits, digits_value, padded, padded_signed, parse_int, parse_signed, parse_unsigned, pow10, push_char, push_padded, push_padded_signed};

verus! {

// ---------------------------------------------------------------------------
// Civil calendar arithmetic (proleptic Gregorian calendar, eras of 400 years)
// ---------------------------------------------------------------------------

/// Days from 1970-01-01 to `year-month-day`, counting each era of 400 years
/// (146097 days) from March 1st; months and days outside the usual ranges are
/// carried by the same formula.
pub open spec fn civil_days(year: int, month: int, day: int) -> int {
    let y = if month <= 2 {
        year - 1
    } else {
        year
    };
    let era = y / 400;
    let yoe = y - era * 400;
    let mp = if month > 2 {
        month - 3
    } else {
        month + 9
    };
    let doy = (153 * mp + 2) / 5 + day - 1;
    let doe = yoe * 365 + yoe / 4 - yoe / 100 + doy;
    era * 146097 + doe - 719468
}

pub open spec fn clamp0(v: int) -> int {
    if v > 0 {
        v
    } else {
        0
    }
}

/// Day of the 400-year era (0..=146096) to year of the era.
pub open spec fn year_of_era(doe: int) -> int {
    (doe - doe / 1460 + doe / 36524 - doe / 146096) / 365
}

/// Day of the era to day of the year counted from March 1st.
pub open spec fn day_of_year(doe: int) -> int {
    let yoe = year_of_era(doe);
    doe - (365 * yoe + yoe / 4 - yoe / 100)
}

/// The civil date `(year, month, day)` of the given day number, counted from 1970-01-01.
pub open spec fn civil_from(days: int) -> (int, int, int) {
    let z = days + 719468;
    let era = z / 146097;
    let doe = z - era * 146097;
    let yoe = year_of_era(doe);
    let y = yoe + era * 400;
    let doy = day_of_year(doe);
    let mp = (5 * doy + 2) / 153;
    let d = doy - (153 * mp + 2) / 5 + 1;
    let m = if mp < 10 {
        mp + 3
    } else {
        mp - 9
    };
    (if m <= 2 {
        y + 1
    } else {
        y
    }, m, d)
}

/// The year and the day of the year stay in range for every day of an era.
pub proof fn lemma_era_split(doe: int)
    requires
        0 <= doe <= 146096,
    ensures
        0 <= year_of_era(doe) <= 399,
        0 <= day_of_year(doe) <= 365,
{
    if doe < 146096 {
        let c = doe / 36524;
        let r = doe % 36524;
        let q = r / 1461;
        let s = r % 1461;
        assert(doe == 36524 * c + r);
        assert(r == 1461 * q + s);
        assert(0 <= c <= 3);
        assert(0 <= q <= 24);
        let e = (24 * c + q + s) / 1460;
        assert(doe == 1460 * (25 * c + q) + (24 * c + q + s));
        assert(doe / 1460 == 25 * c + q + e);
        assert(doe / 36524 == c);
        assert(doe / 146096 == 0);
        assert(0 <= e <= 1);
        assert(s == 0 ==> e == 0);
        assert(s == 1460 ==> e == 1);
        let g = doe - doe / 1460 + doe / 36524 - doe / 146096;
        assert(g == 365 * (100 * c + 4 * q) + (s - e));
        let k = (s - e) / 365;
        assert(0 <= s - e <= 1459);
        assert(0 <= k <= 3);
        assert(g / 365 == 100 * c + 4 * q + k);
        let yoe = 100 * c + 4 * q + k;
        assert(yoe / 4 == 25 * c + q);
        assert(yoe / 100 == c);
        assert(day_of_year(doe) == s - 365 * k);
    }
}

/// Days that fall before year 10000 (`civil_days(10000, 1, 1)`).
pub open spec fn days_before_10000() -> int {
    2932897
}

/// For every day from 1970-01-01 up to the end of year 9999, `civil_from` gives a
/// valid date with a four-digit year, and `civil_days` maps it back to the same day.
pub proof fn lemma_civil_round_trip(days: int)
    requires
        0 <= days < days_before_10000(),
    ensures
        ({
            let (y, m, d) = civil_from(days);
            &&& 1600 <= y <= 9999
            &&& 1 <= m <= 12
            &&& 1 <= d <= 31
            &&& civil_days(y, m, d) == days
        }),
{
    let z = days + 719468;
    let era = z / 146097;
    let doe = z - era * 146097;
    assert(0 <= doe < 146097);
    assert(4 <= era <= 24);
    lemma_era_split(doe);
    let yoe = year_of_era(doe);
    let doy = day_of_year(doe);
    let mp = (5 * doy + 2) / 153;
    assert(0 <= mp <= 11);
    assert(153 * mp <= 5 * doy + 2 < 153 * mp + 153);
    let d = doy - (153 * mp + 2) / 5 + 1;
    assert(1 <= d <= 31);
    let y = yoe + era * 400;
    assert((y / 400) == era);
    if era == 24 && yoe == 399 {
        assert(doe == 145731 + doy);
        assert(doy < 306);
        assert(mp < 10);
    }
}

/// `days_from_civil`: the day number of a civil date, clamped at 0.
fn days_from_civil(year: i32, month: u32, day: u32) -> (r: u64)
    ensures
        r == clamp0(civil_days(year as int, month as int, day as int)),
{
    let mut y: i64 = year as i64;
    let m: i64 = month as i64;
    let d: i64 = day as i64;
    if m <= 2 {
        y = y - 1;
    }
    let era: i64 = if y >= 0 {
        y / 400
    } else {
        -((399 - y) / 400)
    };
    assert(era == y / 400) by {
        if y < 0 {
            let q = (399 - y) / 400;
            let r = (399 - y) % 400;
            assert(399 - y == 400 * q + r);
            assert(y == 400 * (-q) + (399 - r));
        }
    }
    assert(-5368710 <= era <= 5368710);
    let yoe: i64 = y - era * 400;
    let mp: i64 = if m > 2 {
        m - 3
    } else {
        m + 9
    };
    let doy: i64 = (153 * mp + 2) / 5 + d - 1;
    let doe: i64 = yoe * 365 + yoe / 4 - yoe / 100 + doy;
    let days: i64 = era * 146_097 + doe - 719_468;
    if days > 0 {
        days as u64
    } else {
        0
    }
}

/// `civil_from_days`: the civil date of a day number, with the year cast to `i32`.
fn civil_from_days(days: i64) -> (r: (i32, u32, u32))
    requires
        0 <= days <= u64::MAX / 86400,
    ensures
        r.0 as int == (civil_from(days as int).0 as i32) as int,
        r.1 as int == (civil_from(days as int).1 as u32) as int,
        r.2 as int == (civil_from(days as int).2 as u32) as int,
{
    let z: i64 = days + 719_468;
    let era: i64 = z / 146_097;
    let doe: i64 = z - era * 146_097;
    proof {
        lemma_era_split(doe as int);
    }
    let yoe: i64 = (doe - doe / 1460 + doe / 36524 - doe / 146_096) / 365;
    let y: i64 = yoe + era * 400;
    let doy: i64 = doe - (365 * yoe + yoe / 4 - yoe / 100);
    let mp: i64 = (5 * doy + 2) / 153;
    let d: i64 = doy - (153 * mp + 2) / 5 + 1;
    let m: i64 = if mp < 10 {
        mp + 3
    } else {
        mp - 9
    };
    let yy: i64 = if m <= 2 {
        y + 1
    } else {
        y
    };
    (yy as i32, m as u32, d as u32)
}

// ---------------------------------------------------------------------------
// Formatting
// ---------------------------------------------------------------------------

/// `epoch_to_iso`: the timestamp `{year:04}-{month:02}-{day:02}T{hh:02}:{mm:02}:{ss:02}Z`
/// of `epoch` seconds after 1970-01-01T00:00:00Z.
pub open spec fn iso_of(epoch: nat) -> Seq<char> {
    let (y, m, d) = civil_from((epoch / 86400) as int);
    let secs = epoch % 86400;
    padded_signed((y as i32) as int, 4) + seq!['-'] + padded((m as u32) as nat, 2) + seq!['-']
        + padded((d as u32) as nat, 2) + seq!['T'] + padded(secs / 3600, 2) + seq![':'] + padded(
        (secs % 3600) / 60,
        2,
    ) + seq![':'] + padded(secs % 60, 2) + seq!['Z']
}

pub fn epoch_to_iso(epoch: u64) -> (r: String)
    ensures
        r@ == iso_of(epoch as nat),
{
    let days: i64 = (epoch / 86_400) as i64;
    let secs: u64 = epoch % 86_400;
    let (year, month, day) = civil_from_days(days);
    let mut out = String::new();
    push_padded_signed(&mut out, year as i64, 4);
    push_char(&mut out, '-');
    push_padded(&mut out, month as u64, 2);
    push_char(&mut out, '-');
    push_padded(&mut out, day as u64, 2);
    push_char(&mut out, 'T');
    push_padded(&mut out, secs / 3600, 2);
    push_char(&mut out, ':');
    push_padded(&mut out, (secs % 3600) / 60, 2);
    push_char(&mut out, ':');
    push_padded(&mut out, secs % 60, 2);
    push_char(&mut out, 'Z');
    out
}

// ---------------------------------------------------------------------------
// Parsing
// ---------------------------------------------------------------------------

/// `str::is_char_boundary` on the UTF-8 bytes of a string: the start, the end, or
/// a byte that is not a continuation byte.
pub open spec fn boundary(b: Seq<u8>, k: int) -> bool {
    k == 0 || k == b.len() || (0 < k < b.len() && !(0x80 <= b[k] < 0xc0))
}

/// `str::get(lo..hi)`, on the UTF-8 bytes of a string.
pub open spec fn slice(b: Seq<u8>, lo: int, hi: int) -> Option<Seq<u8>> {
    if 0 <= lo <= hi <= b.len() && boundary(b, lo) && boundary(b, hi) {
        Some(b.subrange(lo, hi))
    } else {
        None
    }
}

/// `s.get(lo..hi).and_then(|v| v.parse().ok()).unwrap_or(default)` for an integer
/// type with values `min..=max`.
pub open spec fn field(s: Seq<u8>, lo: int, hi: int, min: int, max: int, default: int) -> int {
    match slice(s, lo, hi) {
        Some(p) => match parse_int(p, min, max) {
            Some(v) => v,
            None => default,
        },
        None => default,
    }
}

/// `iso_to_epoch` on the UTF-8 bytes `b` of its argument. The date is read from
/// bytes 0..10 (defaulting to 1970-01-01) and the time from bytes 11..19
/// (defaulting to 00:00:00); within them each number that does not parse falls
/// back to its default.
pub open spec fn epoch_of(b: Seq<u8>) -> int {
    let (year, month, day) = match slice(b, 0, 10) {
        Some(date) => (
            field(date, 0, 4, i32::MIN as int, i32::MAX as int, 1970),
            field(date, 5, 7, 0, u32::MAX as int, 1),
            field(date, 8, 10, 0, u32::MAX as int, 1),
        ),
        None => (1970, 1, 1),
    };
    let (hour, minute, second) = match slice(b, 11, 19) {
        Some(time) => (
            field(time, 0, 2, 0, u64::MAX as int, 0),
            field(time, 3, 5, 0, u64::MAX as int, 0),
            field(time, 6, 8, 0, u64::MAX as int, 0),
        ),
        None => (0, 0, 0),
    };
    clamp0(civil_days(year, month, day)) * 86400 + hour * 3600 + minute * 60 + second
}

fn boundary_at(b: &[u8], k: usize) -> (r: bool)
    requires
        k <= b@.len(),
    ensures
        r == boundary(b@, k as int),
{
    k == 0 || k == b.len() || !(0x80 <= b[k] && b[k] < 0xc0)
}

/// Whether `slice(b[start..end], lo, hi)` is defined.
fn sub_slice_ok(b: &[u8], start: usize, end: usize, lo: usize, hi: usize) -> (r: bool)
    requires
        start <= end <= b@.len(),
        lo <= hi,
        hi <= 20,
    ensures
        r == slice(b@.subrange(start as int, end as int), lo as int, hi as int) is Some,
        r ==> slice(b@.subrange(start as int, end as int), lo as int, hi as int) == Some(
            b@.subrange(start + lo, start + hi),
        ),
{
    let ghost s = b@.subrange(start as int, end as int);
    if hi > end - start {
        return false;
    }
    let lo_ok: bool = lo == 0 || lo == end - start || !(0x80 <= b[start + lo] && b[start + lo]
        < 0xc0);
    let hi_ok: bool = hi == 0 || hi == end - start || !(0x80 <= b[start + hi] && b[start + hi]
        < 0xc0);
    assert(lo < s.len() ==> s[lo as int] == b@[start + lo]);
    assert(hi < s.len() ==> s[hi as int] == b@[start + hi]);
    assert(s.subrange(lo as int, hi as int) =~= b@.subrange(start + lo, start + hi));
    lo_ok && hi_ok
}

/// `field` on `b[start..end]` for an unsigned type with largest value `max`.
fn unsigned_field(
    b: &[u8],
    start: usize,
    end: usize,
    lo: usize,
    hi: usize,
    max: u64,
    default: u64,
) -> (r: u64)
    requires
        start <= end <= b@.len(),
        lo <= hi <= 20,
    ensures
        r as int == field(
            b@.subrange(start as int, end as int),
            lo as int,
            hi as int,
            0,
            max as int,
            default as int,
        ),
{
    if sub_slice_ok(b, start, end, lo, hi) {
        match parse_unsigned(b, start + lo, start + hi, max) {
            Some(v) => v,
            None => default,
        }
    } else {
        default
    }
}

/// `field` on `b[start..end]` for `i32`.
fn i32_field(b: &[u8], start: usize, end: usize, lo: usize, hi: usize, default: i32) -> (r: i32)
    requires
        start <= end <= b@.len(),
        lo <= hi <= 20,
    ensures
        r as int == field(
            b@.subrange(start as int, end as int),
            lo as int,
            hi as int,
            i32::MIN as int,
            i32::MAX as int,
            default as int,
        ),
{
    if sub_slice_ok(b, start, end, lo, hi) {
        match parse_signed(b, start + lo, start + hi, i32::MIN as i64, i32::MAX as i64) {
            Some(v) => v as i32,
            None => default,
        }
    } else {
        default
    }
}

/// Bounds of what a four-byte year and two-byte month and day can hold.
proof fn lemma_field_bounds(s: Seq<u8>, lo: int, hi: int, min: int, max: int, default: int)
    requires
        0 <= lo <= hi,
        hi - lo <= 4,
        min <= default <= max,
    ensures
        min <= field(s, lo, hi, min, max, default) <= max,
        (hi - lo == 2 && default <= 99 && min >= 0) ==> field(s, lo, hi, min, max, default) <= 99,
        (hi - lo == 4 && default <= 9999) ==> field(s, lo, hi, min, max, default) <= 9999,
        (hi - lo == 4 && default >= -999) ==> field(s, lo, hi, min, max, default) >= -999,
{
    match slice(s, lo, hi) {
        Some(p) => {
            assert(p.len() == hi - lo);
            if p.len() > 0 {
                let neg = p[0] == 45u8 && min < 0;
                let body = if p[0] == 43u8 || neg {
                    p.drop_first()
                } else {
                    p
                };
                if body.len() > 0 && all_digits(body) {
                    lemma_digits_value_bound(body);
                    assert(pow10(0) == 1);
                    assert(pow10(1) == 10);
                    assert(pow10(2) == 100);
                    assert(pow10(3) == 1000);
                    assert(pow10(4) == 10000);
                    assert(body.len() <= 4);
                    assert(body.len() == 4 ==> !neg);
                    assert(digits_value(body) < pow10(body.len()));
                }
            }
        },
        None => {},
    }
}

/// A value of `k` digits is below `10^k`.
pub proof fn lemma_digits_value_bound(s: Seq<u8>)
    requires
        all_digits(s),
    ensures
        digits_value(s) < pow10(s.len()),
    decreases s.len(),
{
    if s.len() > 0 {
        lemma_digits_value_bound(s.drop_last());
        let v = digits_value(s.drop_last());
        let p = pow10(s.drop_last().len());
        assert(s.last() == s[s.len() - 1]);
        assert(v * 10 + 9 < 10 * p) by (nonlinear_arith)
            requires
                v < p,
        ;
    }
}

/// `iso_to_epoch`: seconds since 1970-01-01T00:00:00Z of a timestamp
/// `YYYY-MM-DDTHH:MM:SS...`, read field by field with defaults for what does not parse.
pub fn iso_to_epoch(iso: &str) -> (r: u64)
    ensures
        r == epoch_of(iso.spec_bytes()),
{
    let b: &[u8] = iso.as_bytes();
    let n: usize = b.len();
    let date_ok: bool = 10 <= n && boundary_at(b, 10);
    let ghost bs = b@;
    assert(boundary(bs, 0));
    let year: i32;
    let month: u64;
    let day: u64;
    if date_ok {
        year = i32_field(b, 0, 10, 0, 4, 1970);
        month = unsigned_field(b, 0, 10, 5, 7, u32::MAX as u64, 1);
        day = unsigned_field(b, 0, 10, 8, 10, u32::MAX as u64, 1);
        proof {
            let date = bs.subrange(0, 10);
            lemma_field_bounds(date, 0, 4, i32::MIN as int, i32::MAX as int, 1970);
            lemma_field_bounds(date, 5, 7, 0, u32::MAX as int, 1);
            lemma_field_bounds(date, 8, 10, 0, u32::MAX as int, 1);
        }
    } else {
        year = 1970;
        month = 1;
        day = 1;
    }
    let time_ok: bool = 19 <= n && boundary_at(b, 11) && boundary_at(b, 19);
    let hour: u64;
    let minute: u64;
    let second: u64;
    if time_ok {
        hour = unsigned_field(b, 11, 19, 0, 2, u64::MAX, 0);
        minute = unsigned_field(b, 11, 19, 3, 5, u64::MAX, 0);
        second = unsigned_field(b, 11, 19, 6, 8, u64::MAX, 0);
        proof {
            let time = bs.subrange(11, 19);
            lemma_field_bounds(time, 0, 2, 0, u64::MAX as int, 0);
            lemma_field_bounds(time, 3, 5, 0, u64::MAX as int, 0);
            lemma_field_bounds(time, 6, 8, 0, u64::MAX as int, 0);
        }
    } else {
        hour = 0;
        minute = 0;
        second = 0;
    }
    let days: u64 = days_from_civil(year, month as u32, day as u32);
    proof {
        lemma_civil_days_bound(year as int, month as int, day as int);
    }
    let day_secs: u64 = if days > u64::MAX / 86_400 {
        u64::MAX
    } else {
        days * 86_400
    };
    day_secs + hour * 3600 + minute * 60 + second
}

/// Dates with a year of at most four digits and a two-digit month and day stay
/// below 3 million days.
proof fn lemma_civil_days_bound(year: int, month: int, day: int)
    requires
        -999 <= year <= 9999,
        0 <= month <= 99,
        0 <= day <= 99,
    ensures
        civil_days(year, month, day) < 3000000,
{
}

/// `add_days_iso`: the timestamp `days` days after `iso`.
pub open spec fn iso_plus_days(b: Seq<u8>, days: nat) -> Seq<char> {
    let t = epoch_of(b) + days * 86400;
    iso_of(
        if t > u64::MAX {
            u64::MAX as nat
        } else {
            t as nat
        },
    )
}

pub fn add_days_iso(iso: &str, days: u64) -> (r: String)
    requires
        days <= u64::MAX / 86400,
    ensures
        r@ == iso_plus_days(iso.spec_bytes(), days as nat),
{
    epoch_to_iso(iso_to_epoch(iso).saturating_add(days * 86_400))
}

} // verus!

verus! {

/// The seconds of the first moment of year 10000 (10000-01-01T00:00:00Z).
pub open spec fn year_10000() -> nat {
    253402300800
}

/// The parts of the timestamp of second `e`: year, month, day, hour, minute, second.
pub open spec fn iso_parts(e: nat) -> (int, int, int, nat, nat, nat) {
    let (y, m, d) = civil_from((e / 86400) as int);
    let secs = e % 86400;
    (y, m, d, secs / 3600, (secs % 3600) / 60, secs % 60)
}

/// Before year 10000 the timestamp is twenty ASCII characters with each field at a
/// fixed position.
pub(crate) proof fn lemma_iso_layout(e: nat)
    requires
        e < year_10000(),
    ensures
        ({
            let (y, m, d, hh, mi, ss) = iso_parts(e);
            let b = encode_utf8(iso_of(e));
            &&& b.len() == 20
            &&& b[4] == 45u8 && b[7] == 45u8 && b[10] == 84u8 && b[13] == 58u8 && b[16] == 58u8
            &&& b[19] == 90u8
            &&& b.subrange(0, 4) == bytes_of(padded(y as nat, 4))
            &&& b.subrange(5, 7) == bytes_of(padded(m as nat, 2))
            &&& b.subrange(8, 10) == bytes_of(padded(d as nat, 2))
            &&& b.subrange(11, 13) == bytes_of(padded(hh, 2))
            &&& b.subrange(14, 16) == bytes_of(padded(mi, 2))
            &&& b.subrange(17, 19) == bytes_of(padded(ss, 2))
            &&& 1600 <= y <= 9999 && 1 <= m <= 12 && 1 <= d <= 31 && hh < 24 && mi < 60 && ss < 60
            &&& civil_days(y, m, d) == e / 86400
        }),
{
    let days = (e / 86400) as int;
    lemma_civil_round_trip(days);
    let (y, m, d, hh, mi, ss) = iso_parts(e);
    lemma_decimal_small(y as nat);
    lemma_decimal_small(m as nat);
    lemma_decimal_small(d as nat);
    lemma_decimal_small(hh);
    lemma_decimal_small(mi);
    lemma_decimal_small(ss);
    lemma_padded(y as nat, 4);
    lemma_padded(m as nat, 2);
    lemma_padded(d as nat, 2);
    lemma_padded(hh, 2);
    lemma_padded(mi, 2);
    lemma_padded(ss, 2);
    assert((y as i32) as int == y);
    assert((m as u32) as nat == m);
    assert((d as u32) as nat == d);
    let py = padded(y as nat, 4);
    let pm = padded(m as nat, 2);
    let pd = padded(d as nat, 2);
    let ph = padded(hh, 2);
    let pi = padded(mi, 2);
    let ps = padded(ss, 2);
    let s = iso_of(e);
    assert(s =~= py + seq!['-'] + pm + seq!['-'] + pd + seq!['T'] + ph + seq![':'] + pi + seq![':']
        + ps + seq!['Z']);
    assert forall|i: int| 0 <= i < s.len() implies '\0' <= #[trigger] s[i] <= '\u{7f}' by {
        if i < 4 {
            assert(s[i] == py[i]);
        } else if 5 <= i < 7 {
            assert(s[i] == pm[i - 5]);
        } else if 8 <= i < 10 {
            assert(s[i] == pd[i - 8]);
        } else if 11 <= i < 13 {
            assert(s[i] == ph[i - 11]);
        } else if 14 <= i < 16 {
            assert(s[i] == pi[i - 14]);
        } else if 17 <= i < 19 {
            assert(s[i] == ps[i - 17]);
        }
    }
    assert(is_ascii_chars(s));
    is_ascii_chars_encode_utf8(s);
    let b = encode_utf8(s);
    assert(b =~= bytes_of(s));
    assert(b.subrange(0, 4) =~= bytes_of(py));
    assert(b.subrange(5, 7) =~= bytes_of(pm));
    assert(b.subrange(8, 10) =~= bytes_of(pd));
    assert(b.subrange(11, 13) =~= bytes_of(ph));
    assert(b.subrange(14, 16) =~= bytes_of(pi));
    assert(b.subrange(17, 19) =~= bytes_of(ps));
}

/// Reading back a formatted timestamp gives the same second, for every second
/// before year 10000; from year 10000 on the year takes five digits and the fixed
/// byte positions that `iso_to_epoch` reads no longer line up.
#[verifier::rlimit(60)]
pub proof fn lemma_iso_round_trip(e: nat)
    requires
        e < year_10000(),
    ensures
        epoch_of(encode_utf8(iso_of(e))) == e,
{
    lemma_iso_layout(e);
    let (y, m, d, hh, mi, ss) = iso_parts(e);
    let b = encode_utf8(iso_of(e));
    let date = b.subrange(0, 10);
    let time = b.subrange(11, 19);
    assert(b.subrange(11, 13)[0] == b[11]);
    lemma_decimal_small(hh);
    lemma_padded(hh, 2);
    assert(is_digit_byte(b[11]));
    assert(slice(b, 0, 10) == Some(date));
    assert(slice(b, 11, 19) == Some(time));
    assert(date.subrange(0, 4) =~= b.subrange(0, 4));
    assert(date.subrange(5, 7) =~= b.subrange(5, 7));
    assert(date.subrange(8, 10) =~= b.subrange(8, 10));
    assert(time.subrange(0, 2) =~= b.subrange(11, 13));
    assert(time.subrange(3, 5) =~= b.subrange(14, 16));
    assert(time.subrange(6, 8) =~= b.subrange(17, 19));
    lemma_decimal_small(y as nat);
    lemma_decimal_small(m as nat);
    lemma_decimal_small(d as nat);
    lemma_decimal_small(hh);
    lemma_decimal_small(mi);
    lemma_decimal_small(ss);
    lemma_parse_padded(y as nat, 4, i32::MIN as int, i32::MAX as int);
    lemma_parse_padded(m as nat, 2, 0, u32::MAX as int);
    lemma_parse_padded(d as nat, 2, 0, u32::MAX as int);
    lemma_parse_padded(hh, 2, 0, u64::MAX as int);
    lemma_parse_padded(mi, 2, 0, u64::MAX as int);
    lemma_parse_padded(ss, 2, 0, u64::MAX as int);
    assert(field(date, 0, 4, i32::MIN as int, i32::MAX as int, 1970) == y);
    assert(field(date, 5, 7, 0, u32::MAX as int, 1) == m);
    assert(field(date, 8, 10, 0, u32::MAX as int, 1) == d);
    assert(field(time, 0, 2, 0, u64::MAX as int, 0) == hh);
    assert(field(time, 3, 5, 0, u64::MAX as int, 0) == mi);
    assert(field(time, 6, 8, 0, u64::MAX as int, 0) == ss);
}

} // verus!

verus! {

/// Adding days to a timestamp moves its epoch seconds by 86400 per day, as long
/// as the result stays before year 10000.
pub proof fn lemma_add_days(b: Seq<u8>, days: nat)
    requires
        epoch_of(b) + days * 86400 < year_10000(),
    ensures
        epoch_of(encode_utf8(iso_plus_days(b, days))) == epoch_of(b) + days * 86400,
{
    lemma_epoch_of_nonneg(b);
    lemma_iso_round_trip((epoch_of(b) + days * 86400) as nat);
}

proof fn lemma_epoch_of_nonneg(b: Seq<u8>)
    ensures
        epoch_of(b) >= 0,
{
    lemma_field_bounds(b.subrange(11, 19), 0, 2, 0, u64::MAX as int, 0);
    lemma_field_bounds(b.subrange(11, 19), 3, 5, 0, u64::MAX as int, 0);
    lemma_field_bounds(b.subrange(11, 19), 6, 8, 0, u64::MAX as int, 0);
}

/// Seconds since 1970-01-01T00:00:00Z by the system clock (`SystemTime::now`), or 0
/// if the clock reads an earlier time. Nothing is promised of the value: it is
/// whatever the clock says.
#[verifier::external_body]
pub(crate) fn now_epoch() -> u64 {
    std::time::SystemTime::now().duration_since(std::time::UNIX_EPOCH).unwrap_or_default().as_secs()
}

/// The system clock, with the readings taken through it so far.
pub struct Clock {
    log: Ghost<Seq<u64>>,
}

impl Clock {
    /// The readings taken through this clock, oldest first: each is what the
    /// system clock (`now_epoch`) said when `read` was called.
    pub closed spec fn readings(&self) -> Seq<u64> {
        self.log@
    }

    /// A clock through which nothing has been read yet.
    pub fn new() -> (r: Self)
        ensures
            r.readings() == Seq::<u64>::empty(),
    {
        Clock { log: Ghost(Seq::empty()) }
    }

    /// Reads the system clock: seconds since 1970-01-01T00:00:00Z, or 0 for an
    /// earlier time. The reading joins the log.
    pub fn read(&mut self) -> (r: u64)
        ensures
            final(self).readings() == old(self).readings().push(r),
    {
        let r = now_epoch();
        self.log = Ghost(self.log@.push(r));
        r
    }
}

/// The current time as an ISO-8601 timestamp.
pub fn now_iso() -> (r: String)
    ensures
        exists|e: u64| r@ == iso_of(e as nat),
{
    let e = now_epoch();
    epoch_to_iso(e)
}

} // verus!

verus! {

/// A timestamp as `epoch_to_iso` writes it, for a second before year 10000.
pub open spec fn is_timestamp(s: Seq<char>) -> bool {
    exists|e: nat| e < year_10000() && s == #[trigger] iso_of(e)
}

/// Reading any text as seconds and writing those seconds out gives a timestamp
/// that reads back as the same seconds, when they fall before year 10000.
pub proof fn lemma_timestamp_normal_form(b: Seq<u8>)
    requires
        epoch_of(b) < year_10000(),
    ensures
        is_timestamp(iso_of(epoch_of(b) as nat)),
        epoch_of(encode_utf8(iso_of(epoch_of(b) as nat))) == epoch_of(b),
{
    lemma_epoch_of_nonneg(b);
    let e = epoch_of(b) as nat;
    assert(iso_of(e) == iso_of(e));
    lemma_iso_round_trip(e);
}

} // verus!

verus! {

// ---------------------------------------------------------------------------
// Later days have later dates
// ---------------------------------------------------------------------------

/// `a` is an earlier (year, month, day) than `b`.
pub open spec fn date_before(a: (int, int, int), b: (int, int, int)) -> bool {
    a.0 < b.0 || (a.0 == b.0 && (a.1 < b.1 || (a.1 == b.1 && a.2 < b.2)))
}

proof fn lemma_year_of_era_step(doe: int)
    requires
        0 <= doe < 146096,
    ensures
        year_of_era(doe) <= year_of_era(doe + 1),
{
    let f0 = doe - doe / 1460 + doe / 36524 - doe / 146096;
    let f1 = (doe + 1) - (doe + 1) / 1460 + (doe + 1) / 36524 - (doe + 1) / 146096;
    assert(doe / 146096 == 0);
    assert((doe + 1) / 146096 == (if doe + 1 == 146096 { 1int } else { 0int }));
    assert((doe + 1) / 1460 <= doe / 1460 + 1);
    assert((doe + 1) / 36524 >= doe / 36524);
    if doe + 1 == 146096 {
        assert((doe + 1) / 36524 == 4);
        assert(doe / 36524 == 3);
    }
    assert(f0 <= f1);
}

/// The date of the next day is later.
proof fn lemma_civil_step(n: int)
    requires
        0 <= n,
    ensures
        date_before(civil_from(n), civil_from(n + 1)),
{
    let z = n + 719468;
    let era = z / 146097;
    let doe = z - era * 146097;
    assert(0 <= doe < 146097);
    if doe == 146096 {
        assert((z + 1) / 146097 == era + 1);
        assert(year_of_era(146096) == 399);
        assert(day_of_year(146096) == 365);
        assert(year_of_era(0) == 0);
        assert(day_of_year(0) == 0);
    } else {
        assert((z + 1) / 146097 == era);
        lemma_era_split(doe);
        lemma_era_split(doe + 1);
        lemma_year_of_era_step(doe);
        let y0 = year_of_era(doe);
        let y1 = year_of_era(doe + 1);
        let d0 = day_of_year(doe);
        let d1 = day_of_year(doe + 1);
        let mp0 = (5 * d0 + 2) / 153;
        let mp1 = (5 * d1 + 2) / 153;
        assert(0 <= mp0 <= 11 && 0 <= mp1 <= 11);
        if y0 == y1 {
            assert(d1 == d0 + 1);
            assert(mp0 <= mp1);
            assert(153 * mp0 <= 5 * d0 + 2);
            assert(153 * mp1 <= 5 * d1 + 2);
        }
    }
}

/// A later day has a later date.
pub proof fn lemma_civil_monotone(a: int, b: int)
    requires
        0 <= a < b,
    ensures
        date_before(civil_from(a), civil_from(b)),
    decreases b - a,
{
    lemma_civil_step(b - 1);
    if a < b - 1 {
        lemma_civil_monotone(a, b - 1);
    }
}

} // verus!

verus! {

/// The timestamp of second `e` (before year 10000) field by field.
pub(crate) proof fn lemma_iso_chars(e: nat)
    requires
        e < year_10000(),
    ensures
        ({
            let (y, m, d, hh, mi, ss) = iso_parts(e);
            &&& 1600 <= y <= 9999 && 1 <= m <= 12 && 1 <= d <= 31 && hh < 24 && mi < 60 && ss < 60
            &&& iso_of(e) == padded(y as nat, 4) + seq!['-'] + padded(m as nat, 2) + seq!['-']
                + padded(d as nat, 2) + seq!['T'] + padded(hh, 2) + seq![':'] + padded(mi, 2)
                + seq![':'] + padded(ss, 2) + seq!['Z']
        }),
{
    let days = (e / 86400) as int;
    lemma_civil_round_trip(days);
    let (y, m, d, hh, mi, ss) = iso_parts(e);
    assert((y as i32) as int == y);
    assert((m as u32) as nat == m);
    assert((d as u32) as nat == d);
}

} // verus!

verus! {

/// The date of a day before year 10000 has its fields in range.
pub(crate) proof fn lemma_civil_ranges(days: int)
    requires
        0 <= days < days_before_10000(),
    ensures
        1600 <= civil_from(days).0 <= 9999,
        1 <= civil_from(days).1 <= 12,
        1 <= civil_from(days).2 <= 31,
{
    lemma_civil_round_trip(days);
}

} // verus!
