//! Time normalisation: UTC and GPS scales, truncated GPS weeks and leap seconds.
//!
//! All scales are reduced to continuous GPS time, which counts no leap seconds,
//! in integer nanoseconds since 1980-01-06T00:00:00Z.

use crate::text;
use vstd::arithmetic::power2::*;
use vstd::prelude::*;
use vstd::string::*;

verus! {

/// A time or a span of time in nanoseconds.
pub type Nanos = i128;

/// Nanoseconds in a second.
pub const SECOND: i128 = 1_000_000_000;

/// Nanoseconds in a day of 86400 seconds.
pub const DAY: i128 = 86_400_000_000_000;

/// Nanoseconds in a GPS week.
pub const WEEK: i128 = 604_800_000_000_000;

/// The GPS epoch, 1980-01-06T00:00:00Z, on the Unix scale.
pub const GPS_EPOCH: i128 = 315_964_800_000_000_000;

/// The largest magnitude of a time stamp that is handled, 2 to the power 90, some forty
/// thousand million years. Offsets add up over the stamps of a device, so that a stamp
/// leaves room in the machine's widest integer for millions of others.
pub const STAMP_LIMIT: i128 = 1_237_940_039_285_380_274_899_124_224;

/// Whether a time is within the range that is handled.
pub open spec fn is_stamp(t: int) -> bool {
    -STAMP_LIMIT <= t <= STAMP_LIMIT
}

/// Whether a time is within the range that is handled.
pub fn stamp_ok(t: Nanos) -> (r: bool)
    ensures
        r == is_stamp(t as int),
{
    -STAMP_LIMIT <= t && t <= STAMP_LIMIT
}

/// The largest magnitude of a continuous time, one less than 2 to the power 126: the sum
/// and the difference of two such times are machine numbers.
pub const SPAN_LIMIT: i128 = 85_070_591_730_234_615_865_843_651_857_942_052_863;

/// The largest magnitude of a time field, 2 to the power 125: with any week or date, what
/// it stands for is a continuous time.
pub const FIELD_LIMIT: i128 = 42_535_295_865_117_307_932_921_825_928_971_026_432;

/// Whether a time field is within the range that is handled.
pub open spec fn is_field(t: int) -> bool {
    -FIELD_LIMIT <= t <= FIELD_LIMIT
}

/// Whether a continuous time is within the range that is handled.
pub open spec fn is_span(t: int) -> bool {
    -SPAN_LIMIT <= t <= SPAN_LIMIT
}

/// Whether a continuous time is within the range that is handled.
pub fn span_ok(t: Nanos) -> (r: bool)
    ensures
        r == is_span(t as int),
{
    -SPAN_LIMIT <= t && t <= SPAN_LIMIT
}

/// The nearest whole number of units in a time, halves away from zero.
pub open spec fn rounded(t: int, unit: int) -> int {
    if t < 0 {
        -((-t + unit / 2) / unit)
    } else {
        (t + unit / 2) / unit
    }
}

/// The nearest whole number of units in a time, halves away from zero.
pub fn round_to(t: Nanos, unit: Nanos) -> (r: Nanos)
    requires
        is_span(t as int),
        0 < unit <= 1_000_000_000,
    ensures
        r == rounded(t as int, unit as int),
        is_span(r as int),
{
    let size: i128 = if t < 0 { -t } else { t };
    let q: i128 = (size + unit / 2) / unit;
    proof {
        let s = size as int;
        let u = unit as int;
        assert((s + u / 2) / u <= SPAN_LIMIT) by (nonlinear_arith)
            requires
                0 <= s <= SPAN_LIMIT,
                0 < u,
        {
            assert((s + u / 2) / u <= s || s == 0 || u == 1);
        }
    }
    if t < 0 { -q } else { q }
}

/// Rendering of a time, rounded to units that are its last decimal place. A time below
/// zero keeps its sign where it rounds to zero.
pub open spec fn shown(t: int, unit: int, places: nat) -> Seq<char> {
    let n = rounded(t, unit);
    text::fixed(t < 0, (if n < 0 { -n } else { n }) as nat, places)
}

/// Renders a time, rounded to units that are its last decimal place.
pub fn show(t: Nanos, unit: Nanos, places: u32) -> (r: String)
    requires
        is_span(t as int),
        0 < unit <= 1_000_000_000,
        places <= 9,
    ensures
        r@ == shown(t as int, unit as int, places as nat),
{
    let n: Nanos = round_to(t, unit);
    let size: u128 = if n < 0 { (-n) as u128 } else { n as u128 };
    text::fixed_text(t < 0, size, places)
}

// ---- calendar -------------------------------------------------------------

/// Whether a year of the proleptic Gregorian calendar has 366 days.
pub open spec fn is_leap_year(y: int) -> bool {
    y % 4 == 0 && (y % 100 != 0 || y % 400 == 0)
}

/// The number of days in a month.
pub open spec fn month_length(y: int, m: int) -> int {
    if m == 2 {
        if is_leap_year(y) {
            29
        } else {
            28
        }
    } else if m == 4 || m == 6 || m == 9 || m == 11 {
        30
    } else {
        31
    }
}

/// Whether a year, month and day name a date of the calendar.
pub open spec fn is_date(y: int, m: int, d: int) -> bool {
    1 <= m <= 12 && 1 <= d <= month_length(y, m)
}

/// Days from 1970-01-01 to the first of March of year zero, plus the days in
/// the years that start on the first of March before year `y`.
pub open spec fn march_year_start(y: int) -> int {
    365 * y + y / 4 - y / 100 + y / 400 - 719468
}

/// Days from 1970-01-01 to a date.
pub open spec fn day_number(y: int, m: int, d: int) -> int {
    if m > 2 {
        march_year_start(y) + (153 * (m - 3) + 2) / 5 + d - 1
    } else {
        march_year_start(y - 1) + (153 * (m + 9) + 2) / 5 + d - 1
    }
}

/// The date after a given one.
pub open spec fn next_date(y: int, m: int, d: int) -> (int, int, int) {
    if d < month_length(y, m) {
        (y, m, d + 1)
    } else if m < 12 {
        (y, m + 1, 1)
    } else {
        (y + 1, 1, 1)
    }
}

proof fn lemma_march_year(y: int)
    ensures
        march_year_start(y + 1) - march_year_start(y) == if is_leap_year(y + 1) {
            366int
        } else {
            365int
        },
{
    assert((y + 1) / 4 == y / 4 + if (y + 1) % 4 == 0 { 1int } else { 0int });
    assert((y + 1) / 100 == y / 100 + if (y + 1) % 100 == 0 { 1int } else { 0int });
    assert((y + 1) / 400 == y / 400 + if (y + 1) % 400 == 0 { 1int } else { 0int });
}

/// Day numbers count days: 1970-01-01 is day zero, and the date after a given
/// one has the next number.
pub proof fn law_day_number_counts_days(y: int, m: int, d: int)
    requires
        is_date(y, m, d),
    ensures
        day_number(1970, 1, 1) == 0,
        ({
            let n = next_date(y, m, d);
            is_date(n.0, n.1, n.2) && day_number(n.0, n.1, n.2) == day_number(y, m, d) + 1
        }),
{
    lemma_march_year(y - 1);
}

proof fn lemma_march_years_grow(a: int, b: int)
    requires
        a < b,
    ensures
        march_year_start(a + 1) <= march_year_start(b),
    decreases b - a,
{
    lemma_march_year(b - 1);
    if a + 1 < b {
        lemma_march_years_grow(a, b - 1);
    }
}

/// No two dates have the same day number.
pub proof fn law_day_number_is_injective(y: int, m: int, d: int, y2: int, m2: int, d2: int)
    requires
        is_date(y, m, d),
        is_date(y2, m2, d2),
        day_number(y, m, d) == day_number(y2, m2, d2),
    ensures
        y == y2 && m == m2 && d == d2,
{
    let a = if m > 2 { y } else { y - 1 };
    let b = if m2 > 2 { y2 } else { y2 - 1 };
    lemma_march_year(a);
    lemma_march_year(b);
    if a < b {
        lemma_march_years_grow(a, b);
    }
    if b < a {
        lemma_march_years_grow(b, a);
    }
}

/// The largest magnitude of a day number that any date in machine numbers has, 2 to the
/// power 72.
pub const DAY_LIMIT: i128 = 4_722_366_482_869_645_213_696;

fn day_of(y: i64, m: u32, d: u32) -> (r: i128)
    ensures
        r == day_number(y as int, m as int, d as int),
        -DAY_LIMIT <= r <= DAY_LIMIT,
{
    let y2: i128 = if m <= 2 { y as i128 - 1 } else { y as i128 };
    let era: i128 = if y2 >= 0 { y2 / 400 } else { (y2 - 399) / 400 };
    let yoe: i128 = y2 - era * 400;
    proof {
        lemma_era_year(era as int, yoe as int);
    }
    let mp: i128 = if m > 2 { m as i128 - 3 } else { m as i128 + 9 };
    let doy: i128 = (153 * mp + 2) / 5 + d as i128 - 1;
    let doe: i128 = yoe * 365 + yoe / 4 - yoe / 100 + doy;
    era * 146097 + doe - 719468
}

/// Days from 1970-01-01 to a date whose day number is a machine number. Months and days
/// outside the calendar carry the same formula on.
pub fn days_from_civil(y: i64, m: u32, d: u32) -> (r: i64)
    requires
        i64::MIN <= day_number(y as int, m as int, d as int) <= i64::MAX,
    ensures
        r == day_number(y as int, m as int, d as int),
{
    day_of(y, m, d) as i64
}

/// Splitting a day of a 400-year era into a year of the era and a day of that
/// year, which starts on the first of March.
proof fn lemma_day_of_era(doe: int, century: int, quad: int, year: int)
    requires
        0 <= doe < 146097,
        century == if doe / 36524 > 3 { 3int } else { doe / 36524 },
        quad == (doe - 36524 * century) / 1461,
        year == ({
            let r = doe - 36524 * century - 1461 * quad;
            if r / 365 > 3 { 3int } else { r / 365 }
        }),
    ensures
        ({
            let yoe = 100 * century + 4 * quad + year;
            let doy = doe - 36524 * century - 1461 * quad - 365 * year;
            &&& 0 <= yoe < 400
            &&& 0 <= doy <= 365
            &&& doe == 365 * yoe + yoe / 4 - yoe / 100 + doy
            &&& doy == 365 ==> is_leap_year(yoe + 1)
        }),
{
    let in_century = doe - 36524 * century;
    assert(0 <= century <= 3);
    assert(0 <= in_century <= 36524);
    assert(in_century == 36524 ==> century == 3);
    assert(0 <= quad <= 24);
    let in_quad = in_century - 1461 * quad;
    assert(0 <= in_quad <= 1460);
    assert(quad == 24 ==> in_quad <= 1460);
    assert(0 <= year <= 3);
    let yoe = 100 * century + 4 * quad + year;
    assert(yoe / 4 == 25 * century + quad);
    assert(yoe / 100 == century);
    let doy = in_quad - 365 * year;
    if doy == 365 {
        assert(year == 3);
        assert((yoe + 1) % 4 == 0);
        if quad == 24 {
            assert(in_century == 36524);
            assert(yoe + 1 == 400);
        } else {
            assert((yoe + 1) % 100 == 4 * (quad + 1));
        }
    }
}

/// Splitting a day of a year that starts on the first of March into a month and
/// a day of the month.
proof fn lemma_day_of_march_year(y: int, doy: int, mp: int)
    requires
        0 <= doy <= 365,
        doy == 365 ==> is_leap_year(y + 1),
        mp == (5 * doy + 2) / 153,
    ensures
        0 <= mp <= 11,
        ({
            let d = doy - (153 * mp + 2) / 5 + 1;
            let m = if mp < 10 { mp + 3 } else { mp - 9 };
            let cal = if mp < 10 { y } else { y + 1 };
            is_date(cal, m, d)
        }),
{
}

/// The date with a given day number.
#[verifier::rlimit(40)]
#[verifier::spinoff_prover]
pub fn civil_from_days(z: i64) -> (r: (i64, u32, u32))
    requires
        z <= i64::MAX - 719468,
    ensures
        is_date(r.0 as int, r.1 as int, r.2 as int),
        day_number(r.0 as int, r.1 as int, r.2 as int) == z,
{
    let z2: i64 = z + 719468;
    let era: i64 = if z2 >= 0 { z2 / 146097 } else { (z2 - 146096) / 146097 };
    let doe: i64 = z2 - era * 146097;
    let century: i64 = if doe / 36524 > 3 { 3 } else { doe / 36524 };
    let in_century: i64 = doe - 36524 * century;
    let quad: i64 = in_century / 1461;
    let in_quad: i64 = in_century - 1461 * quad;
    let year: i64 = if in_quad / 365 > 3 { 3 } else { in_quad / 365 };
    proof {
        lemma_day_of_era(doe as int, century as int, quad as int, year as int);
    }
    let doy: i64 = in_quad - 365 * year;
    let yoe: i64 = 100 * century + 4 * quad + year;
    let y: i64 = yoe + era * 400;
    let mp: i64 = (5 * doy + 2) / 153;
    proof {
        lemma_era_year(era as int, yoe as int);
        lemma_day_of_march_year(y as int, doy as int, mp as int);
    }
    let d: i64 = doy - (153 * mp + 2) / 5 + 1;
    let m: i64 = if mp < 10 { mp + 3 } else { mp - 9 };
    if m <= 2 {
        (y + 1, m as u32, d as u32)
    } else {
        (y, m as u32, d as u32)
    }
}

proof fn lemma_era_year(era: int, yoe: int)
    requires
        0 <= yoe < 400,
    ensures
        march_year_start(yoe + era * 400) == era * 146097 + 365 * yoe + yoe / 4 - yoe / 100 - 719468,
        is_leap_year(yoe + era * 400 + 1) == is_leap_year(yoe + 1),
{
    let y = yoe + era * 400;
    assert(y / 4 == era * 100 + yoe / 4);
    assert(y / 100 == era * 4 + yoe / 100);
    assert(y / 400 == era);
    assert((y + 1) % 4 == (yoe + 1) % 4);
    assert((y + 1) % 100 == (yoe + 1) % 100);
    assert((y + 1) % 400 == (yoe + 1) % 400);
}

// ---- leap seconds ---------------------------------------------------------

/// UTC dates from which TAI - UTC has a given number of seconds.
pub open spec fn leap_table() -> Seq<(i64, u32, u32, i64)> {
    seq![
        (1980i64, 1u32, 1u32, 19i64),
        (1981i64, 7u32, 1u32, 20i64),
        (1982i64, 7u32, 1u32, 21i64),
        (1983i64, 7u32, 1u32, 22i64),
        (1985i64, 7u32, 1u32, 23i64),
        (1988i64, 1u32, 1u32, 24i64),
        (1990i64, 1u32, 1u32, 25i64),
        (1991i64, 1u32, 1u32, 26i64),
        (1992i64, 7u32, 1u32, 27i64),
        (1993i64, 7u32, 1u32, 28i64),
        (1994i64, 7u32, 1u32, 29i64),
        (1996i64, 1u32, 1u32, 30i64),
        (1997i64, 7u32, 1u32, 31i64),
        (1999i64, 1u32, 1u32, 32i64),
        (2006i64, 1u32, 1u32, 33i64),
        (2009i64, 1u32, 1u32, 34i64),
        (2012i64, 7u32, 1u32, 35i64),
        (2015i64, 7u32, 1u32, 36i64),
        (2017i64, 1u32, 1u32, 37i64),
    ]
}

fn leap_rows() -> (r: Vec<(i64, u32, u32, i64)>)
    ensures
        r@ == leap_table(),
{
    let v: Vec<(i64, u32, u32, i64)> = vec![
        (1980i64, 1u32, 1u32, 19i64),
        (1981i64, 7u32, 1u32, 20i64),
        (1982i64, 7u32, 1u32, 21i64),
        (1983i64, 7u32, 1u32, 22i64),
        (1985i64, 7u32, 1u32, 23i64),
        (1988i64, 1u32, 1u32, 24i64),
        (1990i64, 1u32, 1u32, 25i64),
        (1991i64, 1u32, 1u32, 26i64),
        (1992i64, 7u32, 1u32, 27i64),
        (1993i64, 7u32, 1u32, 28i64),
        (1994i64, 7u32, 1u32, 29i64),
        (1996i64, 1u32, 1u32, 30i64),
        (1997i64, 7u32, 1u32, 31i64),
        (1999i64, 1u32, 1u32, 32i64),
        (2006i64, 1u32, 1u32, 33i64),
        (2009i64, 1u32, 1u32, 34i64),
        (2012i64, 7u32, 1u32, 35i64),
        (2015i64, 7u32, 1u32, 36i64),
        (2017i64, 1u32, 1u32, 37i64),
    ];
    assert(v@ =~= leap_table());
    v
}

/// The day number from which a row of the leap table holds.
pub open spec fn leap_row_day(k: int) -> int {
    let e = leap_table()[k];
    day_number(e.0 as int, e.1 as int, e.2 as int)
}

/// GPS - UTC on a day, looking at the first `k` rows of the leap table: nineteen
/// seconds less than TAI - UTC of the last row that has started, or zero where
/// none has.
pub open spec fn leap_among(day: int, k: int) -> int
    decreases k,
{
    if k <= 0 {
        0
    } else if leap_row_day(k - 1) <= day {
        leap_table()[k - 1].3 - 19
    } else {
        leap_among(day, k - 1)
    }
}

/// GPS - UTC on a day, in seconds.
pub open spec fn leap_on_day(day: int) -> int {
    leap_among(day, leap_table().len() as int)
}

/// TAI - UTC after the last row of the leap table.
pub fn current_tai_offset() -> (r: i64)
    ensures
        r == 37,
        r == leap_table().last().3,
{
    37
}

/// GPS - UTC at a Unix time in whole seconds.
pub fn leap_seconds_at(unix_seconds: i64) -> (r: i64)
    ensures
        r == leap_on_day(unix_seconds as int / 86400),
        0 <= r <= 18,
{
    let day: i64 = if unix_seconds >= 0 {
        unix_seconds / 86400
    } else {
        let q: i64 = unix_seconds / 86400;
        if q * 86400 == unix_seconds { q } else { q - 1 }
    };
    leap_offset(day as i128)
}

/// GPS - UTC on a day, in seconds.
fn leap_offset(day: i128) -> (r: i64)
    ensures
        r == leap_on_day(day as int),
        0 <= r <= 18,
{
    let rows = leap_rows();
    let mut k: usize = rows.len();
    while k > 0
        invariant
            k <= rows.len(),
            rows@ == leap_table(),
            leap_on_day(day as int) == leap_among(day as int, k as int),
        decreases k,
    {
        let e = rows[k - 1];
        if day_of(e.0, e.1, e.2) <= day {
            return e.3 - 19;
        }
        k -= 1;
    }
    0
}

proof fn lemma_leap_rows_ascend(i: int, j: int)
    requires
        0 <= i < j < leap_table().len(),
    ensures
        leap_row_day(i) < leap_row_day(j),
        leap_table()[i].3 < leap_table()[j].3,
        19 <= leap_table()[i].3,
{
}

proof fn lemma_leap_among(day: int, k: int)
    requires
        0 <= k <= leap_table().len(),
    ensures
        0 <= leap_among(day, k) <= 18,
        leap_among(day, k) <= if k == 0 { 0int } else { leap_table()[k - 1].3 - 19 },
    decreases k,
{
    if k > 0 {
        lemma_leap_among(day, k - 1);
        if k > 1 {
            lemma_leap_rows_ascend(k - 2, k - 1);
        }
    }
}

/// GPS - UTC never decreases.
pub proof fn law_leap_seconds_never_decrease(a: int, b: int)
    requires
        a <= b,
    ensures
        0 <= leap_on_day(a) <= leap_on_day(b) <= 18,
{
    lemma_leap_among(a, leap_table().len() as int);
    lemma_leap_among(b, leap_table().len() as int);
    lemma_leap_monotone(a, b, leap_table().len() as int);
}

proof fn lemma_leap_monotone(a: int, b: int, k: int)
    requires
        a <= b,
        0 <= k <= leap_table().len(),
    ensures
        leap_among(a, k) <= leap_among(b, k),
    decreases k,
{
    if k > 0 {
        lemma_leap_monotone(a, b, k - 1);
        lemma_leap_among(a, k - 1);
        if k > 1 {
            lemma_leap_rows_ascend(k - 2, k - 1);
        }
    }
}

// ---- scales ---------------------------------------------------------------

/// GPS time of a Unix time: what has passed since the GPS epoch, less the leap seconds
/// inserted by then. Since 2017 the two differ by 315964818 seconds.
pub open spec fn gps_of_unix(unix: int) -> int {
    unix - GPS_EPOCH - leap_on_day(unix / (DAY as int)) * SECOND
}

/// Unix time to GPS time.
pub fn unix_to_gps(unix: Nanos) -> (r: Nanos)
    requires
        is_field(unix as int),
    ensures
        r == gps_of_unix(unix as int),
{
    let q: i128 = unix / DAY;
    let day: i128 = if unix >= 0 || q * DAY == unix { q } else { q - 1 };
    let leap: i64 = leap_offset(day);
    unix - GPS_EPOCH - leap as i128 * SECOND
}

/// GPS time keeps the strict order of Unix times that are further apart than the leap
/// seconds inserted between them.
pub proof fn law_unix_to_gps_keeps_order_beyond_leap_seconds(a: int, b: int)
    requires
        b - a > (leap_on_day(b / (DAY as int)) - leap_on_day(a / (DAY as int))) * SECOND,
    ensures
        gps_of_unix(a) < gps_of_unix(b),
{
}

/// GPS week and time of week to continuous GPS time.
pub fn week_sow_to_gps(week: i64, sow: Nanos) -> (r: Nanos)
    requires
        is_field(sow as int),
    ensures
        r == week * WEEK + sow,
{
    week as i128 * WEEK + sow
}

/// The full GPS week that a continuous GPS time falls in.
pub fn gps_week(gps: Nanos) -> (r: Nanos)
    ensures
        r == gps as int / (WEEK as int),
{
    let q: i128 = gps / WEEK;
    if gps >= 0 || q * WEEK == gps { q } else { q - 1 }
}

/// A time of week within the week falls in the week it was given with.
pub proof fn law_week_of_week_sow(week: int, sow: int)
    requires
        0 <= sow < WEEK,
    ensures
        (week * WEEK + sow) / (WEEK as int) == week,
{
}

/// Seconds by which GPS is ahead of UTC after the last row of the leap table.
pub const LEAPS_NOW: i128 = 18;

/// A continuous GPS time on the Unix scale of today: the two agree on every date
/// after the last leap second, and no second is counted twice before it.
pub open spec fn unix_of_gps(gps: int) -> int {
    gps + GPS_EPOCH - LEAPS_NOW * SECOND
}

/// GPS week and time of week on the continuous Unix scale.
pub fn gps_to_unix(week: i64, tow: Nanos) -> (r: Nanos)
    requires
        is_field(tow as int),
    ensures
        r == unix_of_gps(week * WEEK + tow),
        is_span(r as int),
{
    week_sow_to_gps(week, tow) + GPS_EPOCH - LEAPS_NOW * SECOND
}

/// The time of day that a clock label stands for.
pub open spec fn time_of_day(h: int, min: int, sec: int) -> int {
    (h * 3600 + min * 60) * SECOND + sec
}

/// Continuous GPS time of a UTC label. A leap second is the second after 23:59:59
/// of its day.
pub open spec fn gps_of_label(y: int, m: int, d: int, h: int, min: int, sec: int) -> int {
    let day = day_number(y, m, d);
    day * DAY + time_of_day(h, min, sec) - GPS_EPOCH + leap_on_day(day) * SECOND
}

/// On every day after the last leap second the continuous Unix scale is Unix time.
pub proof fn law_continuous_unix_is_unix_today(y: int, m: int, d: int, h: int, min: int, sec: int)
    requires
        day_number(y, m, d) >= leap_row_day(leap_table().len() - 1),
    ensures
        unix_of_gps(gps_of_label(y, m, d, h, min, sec)) == day_number(y, m, d) * DAY + time_of_day(
            h,
            min,
            sec,
        ),
{
}

/// Whether a clock label occurs on a day: seconds go to sixty, and past it in the
/// last minute of a day that ends with a leap second.
pub open spec fn is_label(day: int, h: int, min: int, sec: int) -> bool {
    &&& 0 <= h < 24
    &&& 0 <= min < 60
    &&& 0 <= sec
    &&& sec < 60 * SECOND || (h == 23 && min == 59 && sec < 61 * SECOND && leap_on_day(day + 1)
        == leap_on_day(day) + 1)
}

/// UTC labels keep their strict order on the continuous scale, the labels of a leap
/// second among them.
pub proof fn law_utc_labels_keep_their_order(
    y: int,
    m: int,
    d: int,
    h: int,
    min: int,
    sec: int,
    y2: int,
    m2: int,
    d2: int,
    h2: int,
    min2: int,
    sec2: int,
)
    requires
        is_label(day_number(y, m, d), h, min, sec),
        is_label(day_number(y2, m2, d2), h2, min2, sec2),
        day_number(y, m, d) < day_number(y2, m2, d2) || day_number(y, m, d) == day_number(
            y2,
            m2,
            d2,
        ) && time_of_day(h, min, sec) < time_of_day(h2, min2, sec2),
    ensures
        gps_of_label(y, m, d, h, min, sec) < gps_of_label(y2, m2, d2, h2, min2, sec2),
{
    let a = day_number(y, m, d);
    let b = day_number(y2, m2, d2);
    if a < b {
        law_leap_seconds_never_decrease(a, a + 1);
        law_leap_seconds_never_decrease(a + 1, b);
        assert(time_of_day(h, min, sec) + leap_on_day(a) * SECOND < DAY + leap_on_day(a + 1)
            * SECOND);
    }
}

/// A UTC label on the continuous Unix scale.
pub fn utc_to_unix(y: i64, m: u32, d: u32, h: u32, min: u32, sec: Nanos) -> (r: Nanos)
    requires
        is_field(sec as int),
    ensures
        r == unix_of_gps(
            gps_of_label(y as int, m as int, d as int, h as int, min as int, sec as int),
        ),
        is_span(r as int),
{
    let day: i128 = day_of(y, m, d);
    let leap: i64 = leap_offset(day);
    let of_day: i128 = (h as i128 * 3600 + min as i128 * 60) * SECOND + sec;
    day * DAY + of_day + leap as i128 * SECOND - LEAPS_NOW * SECOND
}

// ---- truncated weeks --------------------------------------------------------

/// The week nearest to `reference` among those that agree with `raw` modulo
/// `modulus`; of two at the same distance, the one in the period of `reference`.
pub open spec fn nearest_week(raw: int, modulus: int, reference: int) -> int {
    let c = reference - reference % modulus + raw % modulus;
    if 2 * (c - reference) > modulus {
        c - modulus
    } else if 2 * (reference - c) > modulus {
        c + modulus
    } else {
        c
    }
}

/// The full week that a possibly truncated week number stands for.
pub open spec fn full_week(raw: int, week_bits: Option<u32>, reference: int) -> int {
    match week_bits {
        None => raw,
        Some(bits) => if bits == 0 {
            raw
        } else {
            nearest_week(raw, pow2(bits as nat) as int, reference)
        },
    }
}

/// Whether a week number can be completed: the number of bits is below 63 and
/// the full week is a 64-bit number.
pub open spec fn week_fits(raw: int, week_bits: Option<u32>, reference: int) -> bool {
    &&& week_bits is Some ==> week_bits->0 <= 62
    &&& i64::MIN <= full_week(raw, week_bits, reference) <= i64::MAX
}

/// The distance between two numbers.
pub open spec fn distance(a: int, b: int) -> int {
    if a <= b {
        b - a
    } else {
        a - b
    }
}

/// A completed week agrees with the raw number modulo the period, and no week
/// that does is nearer to the reference.
pub proof fn law_completed_week_is_nearest(raw: int, bits: u32, reference: int, other: int)
    requires
        bits > 0,
        (other - raw) % (pow2(bits as nat) as int) == 0,
    ensures
        ({
            let w = full_week(raw, Some(bits), reference);
            let m = pow2(bits as nat) as int;
            (w - raw) % m == 0 && distance(w, reference) <= distance(other, reference)
        }),
{
    lemma_pow2_pos(bits as nat);
    lemma_nearest(raw, pow2(bits as nat) as int, reference, other);
}

proof fn lemma_nearest(raw: int, m: int, reference: int, other: int)
    requires
        m > 0,
        (other - raw) % m == 0,
    ensures
        (nearest_week(raw, m, reference) - raw) % m == 0,
        distance(nearest_week(raw, m, reference), reference) <= distance(other, reference),
{
    let w = nearest_week(raw, m, reference);
    let qr = raw / m;
    let qf = reference / m;
    vstd::arithmetic::div_mod::lemma_fundamental_div_mod(raw, m);
    vstd::arithmetic::div_mod::lemma_fundamental_div_mod(reference, m);
    vstd::arithmetic::div_mod::lemma_fundamental_div_mod(other - raw, m);
    vstd::arithmetic::div_mod::lemma_mod_bound(raw, m);
    vstd::arithmetic::div_mod::lemma_mod_bound(reference, m);
    let c = reference - reference % m + raw % m;
    let k: int = if w == c { 0 } else if w < c { -1 } else { 1 };
    assert(c - raw == m * (qf - qr)) by (nonlinear_arith)
        requires
            c == reference - reference % m + raw % m,
            raw == m * qr + raw % m,
            reference == m * qf + reference % m,
    ;
    assert(m * 0 == 0 && m * 1 == m && m * (-1) == -m) by (nonlinear_arith);
    assert(w == c + m * k);
    assert(w - raw == m * (qf - qr + k)) by (nonlinear_arith)
        requires
            c - raw == m * (qf - qr),
            w == c + m * k,
    ;
    vstd::arithmetic::div_mod::lemma_mod_multiples_basic(qf - qr + k, m);
    assert((qf - qr + k) * m == m * (qf - qr + k)) by (nonlinear_arith);
    let j = (other - raw) / m - (qf - qr + k);
    assert(other - w == m * j) by (nonlinear_arith)
        requires
            other - raw == m * ((other - raw) / m),
            w - raw == m * (qf - qr + k),
            j == (other - raw) / m - (qf - qr + k),
    ;
    if j >= 1 {
        assert(m * j >= m) by (nonlinear_arith)
            requires
                j >= 1,
                m > 0,
        ;
    } else if j <= -1 {
        assert(m * j <= -m) by (nonlinear_arith)
            requires
                j <= -1,
                m > 0,
        ;
    } else {
        assert(m * j == 0) by (nonlinear_arith)
            requires
                j == 0,
        ;
    }
}

/// Completes a week number of `week_bits` bits near a reference week, where it can
/// be completed.
pub fn try_unwrap_week(raw_week: i64, week_bits: Option<u32>, ref_week: i64) -> (r: Option<i64>)
    ensures
        r is Some <==> week_fits(raw_week as int, week_bits, ref_week as int),
        r is Some ==> r->0 == full_week(raw_week as int, week_bits, ref_week as int),
{
    let bits: u32 = match week_bits {
        None => 0,
        Some(b) => b,
    };
    if bits == 0 {
        return Some(raw_week);
    }
    if bits > 62 {
        return None;
    }
    let modulus: i128 = power_of_two(bits);
    let r: i128 = rem_floor(raw_week as i128, modulus);
    let c: i128 = ref_week as i128 - rem_floor(ref_week as i128, modulus) + r;
    let w: i128 = if 2 * (c - ref_week as i128) > modulus {
        c - modulus
    } else if 2 * (ref_week as i128 - c) > modulus {
        c + modulus
    } else {
        c
    };
    if i64::MIN as i128 <= w && w <= i64::MAX as i128 {
        Some(w as i64)
    } else {
        None
    }
}

/// Completes a week number of `week_bits` bits near a reference week.
pub fn unwrap_week(raw_week: i64, week_bits: Option<u32>, ref_week: i64) -> (r: i64)
    requires
        week_fits(raw_week as int, week_bits, ref_week as int),
    ensures
        r == full_week(raw_week as int, week_bits, ref_week as int),
{
    match try_unwrap_week(raw_week, week_bits, ref_week) {
        Some(w) => w,
        None => raw_week,
    }
}

fn power_of_two(bits: u32) -> (r: i128)
    requires
        bits <= 62,
    ensures
        r == pow2(bits as nat),
        1 <= r <= 0x4000_0000_0000_0000,
{
    let mut m: i128 = 1;
    let mut k: u32 = 0;
    proof {
        lemma2_to64();
        lemma2_to64_rest();
    }
    while k < bits
        invariant
            k <= bits <= 62,
            m == pow2(k as nat),
            1 <= m <= 0x4000_0000_0000_0000,
            pow2(62) == 0x4000_0000_0000_0000,
        decreases bits - k,
    {
        proof {
            lemma_pow2_unfold((k + 1) as nat);
            if k + 1 < 62 {
                lemma_pow2_strictly_increases((k + 1) as nat, 62);
            }
        }
        m = m * 2;
        k += 1;
    }
    m
}

fn rem_floor(a: i128, m: i128) -> (r: i128)
    requires
        0 < m <= 0x4000_0000_0000_0000,
    ensures
        r == a as int % (m as int),
        0 <= r < m,
{
    if a >= 0 {
        a % m
    } else {
        let b: i128 = -(a + 1);
        let t: i128 = b % m;
        proof {
            let q = b as int / (m as int);
            vstd::arithmetic::div_mod::lemma_fundamental_div_mod(b as int, m as int);
            assert(a == (-q - 1) * m + (m - 1 - t)) by (nonlinear_arith)
                requires
                    b == -(a + 1),
                    b == m * q + t,
            ;
            vstd::arithmetic::div_mod::lemma_fundamental_div_mod_converse(
                a as int,
                m as int,
                -q - 1,
                m - 1 - t,
            );
        }
        m - 1 - t
    }
}

// ---- normalisation ----------------------------------------------------------

/// The outcome of normalising raw time fields.
pub open spec fn normalized(
    scale: Option<Seq<char>>,
    week: Option<i64>,
    week_bits: Option<u32>,
    sow: Option<Nanos>,
    unix: Option<Nanos>,
    ref_week: i64,
) -> Result<int, Seq<char>> {
    let name = match scale {
        Some(s) => text::lower(s),
        None => "gps"@,
    };
    if name == "gps"@ || name == "gpst"@ {
        match sow {
            None => Err("gps 时标需要 sow"@),
            Some(s) => {
                let w = match week {
                    Some(w) => full_week(w as int, week_bits, ref_week as int),
                    None => ref_week as int,
                };
                Ok(w * WEEK + s)
            },
        }
    } else if name == "unix"@ || name == "utc"@ {
        match (unix, sow) {
            (Some(u), _) => Ok(gps_of_unix(u as int)),
            (None, Some(s)) => Ok(gps_of_unix(s as int)),
            (None, None) => Err("utc/unix 时标需要 unix 秒"@),
        }
    } else {
        Err("未知时间尺度: "@ + name)
    }
}

/// Raw time fields to continuous GPS time. A missing scale is GPS; a missing
/// week is the reference week.
pub fn normalize(
    scale: Option<&str>,
    week: Option<i64>,
    week_bits: Option<u32>,
    sow: Option<Nanos>,
    unix: Option<Nanos>,
    ref_week: i64,
) -> (r: Result<Nanos, String>)
    requires
        week is Some ==> week_fits(week->0 as int, week_bits, ref_week as int),
        sow is Some ==> is_field(sow->0 as int),
        unix is Some ==> is_field(unix->0 as int),
    ensures
        match (
            r,
            normalized(
                match scale {
                    Some(s) => Some(s@),
                    None => None,
                },
                week,
                week_bits,
                sow,
                unix,
                ref_week,
            ),
        ) {
            (Ok(a), Ok(b)) => a == b,
            (Err(a), Err(b)) => a@ == b,
            _ => false,
        },
{
    let name: Vec<char> = match scale {
        Some(s) => text::lower_chars(s),
        None => text::chars_of("gps"),
    };
    if text::holds(&name, "gps") || text::holds(&name, "gpst") {
        match sow {
            None => Err("gps 时标需要 sow".to_owned()),
            Some(s) => {
                let w: i64 = match week {
                    Some(w) => unwrap_week(w, week_bits, ref_week),
                    None => ref_week,
                };
                Ok(week_sow_to_gps(w, s))
            },
        }
    } else if text::holds(&name, "unix") || text::holds(&name, "utc") {
        match unix {
            Some(u) => Ok(unix_to_gps(u)),
            None => match sow {
                Some(s) => Ok(unix_to_gps(s)),
                None => Err("utc/unix 时标需要 unix 秒".to_owned()),
            },
        }
    } else {
        let mut m = "未知时间尺度: ".to_owned();
        text::push_all(&mut m, &name);
        Err(m)
    }
}

/// As `normalize`, where a continuous GPS time, if given, is taken as it is.
pub fn normalize_flex(
    scale: Option<&str>,
    week: Option<i64>,
    week_bits: Option<u32>,
    sow: Option<Nanos>,
    unix: Option<Nanos>,
    gps: Option<Nanos>,
    ref_week: i64,
) -> (r: Result<Nanos, String>)
    requires
        week is Some ==> week_fits(week->0 as int, week_bits, ref_week as int),
        sow is Some ==> is_field(sow->0 as int),
        unix is Some ==> is_field(unix->0 as int),
    ensures
        gps is Some ==> r == Ok::<Nanos, String>(gps->0),
        gps is None ==> match (
            r,
            normalized(
                match scale {
                    Some(s) => Some(s@),
                    None => None,
                },
                week,
                week_bits,
                sow,
                unix,
                ref_week,
            ),
        ) {
            (Ok(a), Ok(b)) => a == b,
            (Err(a), Err(b)) => a@ == b,
            _ => false,
        },
{
    match gps {
        Some(g) => Ok(g),
        None => normalize(scale, week, week_bits, sow, unix, ref_week),
    }
}

// ---- scales and dates, in plain terms -------------------------------------------------------

/// A week number of a given number of bits stands for the week nearest to the reference
/// that ends in these bits: normalised time is that many whole weeks and the time of week.
pub proof fn law_truncated_week_is_completed_near_the_reference(
    scale: Option<Seq<char>>,
    week: i64,
    bits: u32,
    sow: Nanos,
    unix: Option<Nanos>,
    ref_week: i64,
    other: int,
)
    requires
        scale is None || text::lower(scale->0) == "gps"@ || text::lower(scale->0) == "gpst"@,
        bits > 0,
    ensures
        normalized(scale, Some(week), Some(bits), Some(sow), unix, ref_week) matches Ok(t) && {
            let weeks = (t - sow) / 604_800_000_000_000;
            let period = pow2(bits as nat) as int;
            &&& t == weeks * 604_800_000_000_000 + sow
            &&& (weeks - week) % period == 0
            &&& (other - week) % period == 0 ==> {
                let near = if weeks <= ref_week { ref_week - weeks } else { weeks - ref_week };
                let far = if other <= ref_week { ref_week - other } else { other - ref_week };
                near <= far
            }
            &&& (other - week) % period == 0 && other - ref_week == ref_week - weeks && other
                != weeks ==> weeks / period == ref_week as int / period
        },
{
    let m = pow2(bits as nat) as int;
    lemma_pow2_pos(bits as nat);
    let w = full_week(week as int, Some(bits), ref_week as int);
    vstd::arithmetic::div_mod::lemma_small_mod(0, m as nat);
    lemma_nearest(week as int, m, ref_week as int, week as int);
    if (other - week) % m == 0 {
        lemma_nearest(week as int, m, ref_week as int, other);
        let c = ref_week - ref_week as int % m + week as int % m;
        let q = ref_week as int / m;
        vstd::arithmetic::div_mod::lemma_mod_bound(week as int, m);
        vstd::arithmetic::div_mod::lemma_mod_bound(ref_week as int, m);
        vstd::arithmetic::div_mod::lemma_fundamental_div_mod(ref_week as int, m);
        assert(c == q * m + week as int % m) by (nonlinear_arith)
            requires
                c == ref_week - ref_week as int % m + week as int % m,
                ref_week as int == m * q + ref_week as int % m,
        ;
        vstd::arithmetic::div_mod::lemma_fundamental_div_mod_converse(c, m, q, week as int % m);
        if other - ref_week == ref_week - w && other != w && w != c {
            lemma_difference_of_multiples(other - week, w - week, m);
            lemma_multiple_in_reach(other - w, m);
        }
    }
}

proof fn lemma_difference_of_multiples(x: int, y: int, m: int)
    requires
        m > 0,
        x % m == 0,
        y % m == 0,
    ensures
        (x - y) % m == 0,
{
    vstd::arithmetic::div_mod::lemma_fundamental_div_mod(x, m);
    vstd::arithmetic::div_mod::lemma_fundamental_div_mod(y, m);
    let q = x / m - y / m;
    assert(x - y == q * m) by (nonlinear_arith)
        requires
            x == m * (x / m),
            y == m * (y / m),
            q == x / m - y / m,
    ;
    vstd::arithmetic::div_mod::lemma_mod_multiples_basic(q, m);
}

proof fn lemma_multiple_in_reach(x: int, m: int)
    requires
        m > 0,
        x % m == 0,
        x != 0,
    ensures
        x >= m || x <= -m,
{
    let q = x / m;
    vstd::arithmetic::div_mod::lemma_fundamental_div_mod(x, m);
    assert(m * q >= m || m * q <= -m) by (nonlinear_arith)
        requires
            m > 0,
            q != 0,
    ;
}

/// A full week number stands for itself, and a missing one for the reference week.
pub proof fn law_full_week_is_taken_as_it_is(
    scale: Option<Seq<char>>,
    week: Option<i64>,
    bits: Option<u32>,
    sow: Nanos,
    unix: Option<Nanos>,
    ref_week: i64,
)
    requires
        scale is None || text::lower(scale->0) == "gps"@ || text::lower(scale->0) == "gpst"@,
    ensures
        week is Some && (bits is None || bits == Some(0u32)) ==> normalized(
            scale,
            week,
            bits,
            Some(sow),
            unix,
            ref_week,
        ) == Ok::<int, Seq<char>>(week->0 * 604_800_000_000_000 + sow),
        week is None ==> normalized(scale, week, bits, Some(sow), unix, ref_week) == Ok::<
            int,
            Seq<char>,
        >(ref_week * 604_800_000_000_000 + sow),
{
}

/// Two times of one week are as far apart as their times of week.
pub proof fn law_normalised_times_keep_their_distance(
    scale: Option<Seq<char>>,
    week: Option<i64>,
    bits: Option<u32>,
    sow: Nanos,
    sow2: Nanos,
    unix: Option<Nanos>,
    ref_week: i64,
)
    requires
        scale is None || text::lower(scale->0) == "gps"@ || text::lower(scale->0) == "gpst"@,
    ensures
        normalized(scale, week, bits, Some(sow), unix, ref_week) is Ok,
        normalized(scale, week, bits, Some(sow2), unix, ref_week) is Ok,
        normalized(scale, week, bits, Some(sow2), unix, ref_week)->Ok_0 - normalized(
            scale,
            week,
            bits,
            Some(sow),
            unix,
            ref_week,
        )->Ok_0 == sow2 - sow,
{
}

/// Time fields are refused where the scale is not known, or where the field that it needs
/// is missing: the time of week on the GPS scale, any of the two seconds on the Unix scale.
pub proof fn law_refused_time_fields(
    scale: Option<Seq<char>>,
    week: Option<i64>,
    bits: Option<u32>,
    sow: Option<Nanos>,
    unix: Option<Nanos>,
    ref_week: i64,
)
    ensures
        ({
            let gps = scale is None || text::lower(scale->0) == "gps"@ || text::lower(scale->0)
                == "gpst"@;
            let utc = scale is Some && (text::lower(scale->0) == "unix"@ || text::lower(scale->0)
                == "utc"@);
            normalized(scale, week, bits, sow, unix, ref_week) is Err <==> (gps && sow is None) || (
            utc && sow is None && unix is None) || (!gps && !utc)
        }),
{
    reveal_strlit("gps");
    reveal_strlit("gpst");
    reveal_strlit("unix");
    reveal_strlit("utc");
    assert("gps"@.len() == 3 && "gpst"@.len() == 4 && "unix"@.len() == 4 && "utc"@.len() == 3);
    assert("gps"@[0] == 'g' && "gpst"@[0] == 'g' && "unix"@[0] == 'u' && "utc"@[0] == 'u');
}

/// On the Unix scale the Unix field is read before the other one, and two times of a day
/// are as far apart as they were.
pub proof fn law_unix_fields_keep_their_distance(
    scale: Seq<char>,
    week: Option<i64>,
    bits: Option<u32>,
    sow: Option<Nanos>,
    unix: Nanos,
    unix2: Nanos,
    ref_week: i64,
)
    requires
        text::lower(scale) == "unix"@ || text::lower(scale) == "utc"@,
    ensures
        normalized(Some(scale), week, bits, sow, Some(unix), ref_week) == normalized(
            Some(scale),
            week,
            bits,
            Some(unix),
            None,
            ref_week,
        ),
        normalized(Some(scale), week, bits, sow, Some(unix), ref_week) is Ok,
        unix as int / 86_400_000_000_000 == unix2 as int / 86_400_000_000_000 ==> normalized(
            Some(scale),
            week,
            bits,
            sow,
            Some(unix2),
            ref_week,
        )->Ok_0 - normalized(Some(scale), week, bits, sow, Some(unix), ref_week)->Ok_0 == unix2
            - unix,
{
    reveal_strlit("gps");
    reveal_strlit("gpst");
    reveal_strlit("unix");
    reveal_strlit("utc");
    assert("gps"@.len() == 3 && "gpst"@.len() == 4 && "unix"@.len() == 4 && "utc"@.len() == 3);
    assert("gps"@[0] == 'g' && "gpst"@[0] == 'g' && "unix"@[0] == 'u' && "utc"@[0] == 'u');
}

/// One for a day from a given one on, zero before.
pub open spec fn passed(day: int, from: int) -> int {
    if from <= day {
        1
    } else {
        0
    }
}

/// GPS has run ahead of UTC by one second more from each of eighteen days on, counted from
/// 1970-01-01, and by none before the first.
#[verifier::spinoff_prover]
pub proof fn law_leap_seconds_come_one_by_one(day: int)
    ensures
        leap_on_day(day) == passed(day, 4_199) + passed(day, 4_564) + passed(day, 4_929) + passed(day, 5_660) + passed(day, 6_574) + passed(day, 7_305) + passed(day, 7_670) + passed(day, 8_217) + passed(day, 8_582) + passed(day, 8_947) + passed(day, 9_496) + passed(day, 10_043) + passed(day, 10_592) + passed(day, 13_149) + passed(day, 14_245) + passed(day, 15_522) + passed(day, 16_617) + passed(day, 17_167),
{
    reveal_with_fuel(leap_among, 20);
    assert(leap_row_day(0) == 3_652);
    assert(leap_row_day(1) == 4_199);
    assert(leap_row_day(2) == 4_564);
    assert(leap_row_day(3) == 4_929);
    assert(leap_row_day(4) == 5_660);
    assert(leap_row_day(5) == 6_574);
    assert(leap_row_day(6) == 7_305);
    assert(leap_row_day(7) == 7_670);
    assert(leap_row_day(8) == 8_217);
    assert(leap_row_day(9) == 8_582);
    assert(leap_row_day(10) == 8_947);
    assert(leap_row_day(11) == 9_496);
    assert(leap_row_day(12) == 10_043);
    assert(leap_row_day(13) == 10_592);
    assert(leap_row_day(14) == 13_149);
    assert(leap_row_day(15) == 14_245);
    assert(leap_row_day(16) == 15_522);
    assert(leap_row_day(17) == 16_617);
    assert(leap_row_day(18) == 17_167);
}

/// From 2017 on, GPS time is Unix time less one distance; before 1981-07-01 it is Unix time
/// less the GPS epoch.
pub proof fn law_gps_time_now_and_at_first(unix: int)
    ensures
        unix >= 17_167 * 86_400_000_000_000 ==> gps_of_unix(unix) == unix
            - 315_964_818_000_000_000,
        unix < 4_199 * 86_400_000_000_000 ==> gps_of_unix(unix) == unix - 315_964_800_000_000_000,
{
    law_leap_seconds_come_one_by_one(unix / (DAY as int));
}

/// The continuous Unix scale runs with GPS time, as many seconds ahead as since 2017.
pub proof fn law_continuous_unix_runs_with_gps(gps: int)
    ensures
        unix_of_gps(gps) - gps == 315_964_782_000_000_000,
{
}

/// A year has 366 days where its number is divisible by four, centuries left out but for
/// every fourth, and 365 else; four centuries have 146097.
#[verifier::spinoff_prover]
pub proof fn law_length_of_years(y: int)
    ensures
        day_number(y + 1, 1, 1) - day_number(y, 1, 1) == if (y % 4 == 0 && y % 100 != 0) || y % 400
            == 0 {
            366int
        } else {
            365int
        },
        day_number(y + 400, 1, 1) - day_number(y, 1, 1) == 146_097,
{
    lemma_march_year(y - 1);
    lemma_era_steps(y - 1);
}

proof fn lemma_era_steps(y: int)
    ensures
        march_year_start(y + 400) == march_year_start(y) + 146_097,
{
    assert((y + 400) / 4 == y / 4 + 100);
    assert((y + 400) / 100 == y / 100 + 4);
    assert((y + 400) / 400 == y / 400 + 1);
}

/// Days of a month follow each other, and months have their lengths: 30 days in April,
/// June, September and November, 28 or 29 in February, 31 else.
#[verifier::spinoff_prover]
pub proof fn law_length_of_months(y: int, m: int, d: int)
    requires
        1 <= m < 12,
    ensures
        day_number(y, m, d) == day_number(y, m, 1) + d - 1,
        day_number(y, m + 1, 1) - day_number(y, m, 1) == if m == 4 || m == 6 || m == 9 || m == 11 {
            30int
        } else if m != 2 {
            31int
        } else if (y % 4 == 0 && y % 100 != 0) || y % 400 == 0 {
            29int
        } else {
            28int
        },
{
    lemma_march_year(y - 1);
    assert(m == 1 || m == 2 || m == 3 || m == 4 || m == 5 || m == 6 || m == 7 || m == 8 || m == 9
        || m == 10 || m == 11);
    assert((153 * 10 + 2) / 5 == 306 && (153 * 11 + 2) / 5 == 337 && (153 * 0 + 2) / 5 == 0 && (153
        * 1 + 2) / 5 == 31 && (153 * 2 + 2) / 5 == 61 && (153 * 3 + 2) / 5 == 92 && (153 * 4 + 2)
        / 5 == 122 && (153 * 5 + 2) / 5 == 153 && (153 * 6 + 2) / 5 == 184 && (153 * 7 + 2) / 5
        == 214 && (153 * 8 + 2) / 5 == 245 && (153 * 9 + 2) / 5 == 275);
}

/// Two labels of one day are as far apart as their clock times.
pub proof fn law_labels_of_a_day_keep_their_distance(
    y: int,
    m: int,
    d: int,
    h: int,
    min: int,
    sec: int,
    h2: int,
    min2: int,
    sec2: int,
)
    ensures
        gps_of_label(y, m, d, h2, min2, sec2) - gps_of_label(y, m, d, h, min, sec) == (h2 - h)
            * 3_600_000_000_000 + (min2 - min) * 60_000_000_000 + (sec2 - sec),
{
}

/// Midnights of two days are whole days apart, and as many seconds more as GPS has come to
/// be ahead of UTC between them; the first midnight of GPS time is zero.
pub proof fn law_midnights_are_days_apart(y: int, m: int, d: int, y2: int, m2: int, d2: int)
    ensures
        gps_of_label(y2, m2, d2, 0, 0, 0) - gps_of_label(y, m, d, 0, 0, 0) == (day_number(y2, m2, d2)
            - day_number(y, m, d)) * 86_400_000_000_000 + (leap_on_day(day_number(y2, m2, d2))
            - leap_on_day(day_number(y, m, d))) * 1_000_000_000,
        gps_of_label(1980, 1, 6, 0, 0, 0) == 0,
{
    law_leap_seconds_come_one_by_one(day_number(1980, 1, 6));
}

/// Rounding is to the nearest whole number of units, a half away from zero, and mirrors
/// about zero.
pub proof fn law_rounding_is_to_the_nearest(t: int, unit: int)
    requires
        unit > 0,
        unit % 2 == 0 || unit == 1,
    ensures
        -unit <= 2 * (t - rounded(t, unit) * unit) <= unit,
        2 * (t - rounded(t, unit) * unit) == unit ==> t < 0,
        2 * (t - rounded(t, unit) * unit) == -unit ==> t > 0,
        rounded(-t, unit) == -rounded(t, unit),
{
    let s = if t < 0 { -t } else { t };
    let h = unit / 2;
    let q = (s + h) / unit;
    vstd::arithmetic::div_mod::lemma_fundamental_div_mod(s + h, unit);
    vstd::arithmetic::div_mod::lemma_mod_bound(s + h, unit);
    assert(unit * q == q * unit && (-q) * unit == -(q * unit)) by (nonlinear_arith);
    if t == 0 {
        vstd::arithmetic::div_mod::lemma_fundamental_div_mod_converse(h, unit, 0, h);
        assert(q == 0);
        assert(0 * unit == 0);
    }
}

/// Whether a text reads as a time, in units of its last decimal place, to the nearest one:
/// a minus sign below zero, whole digits, a point, and so many places.
pub open spec fn reads_near(s: Seq<char>, t: int, unit: int, places: nat) -> bool {
    let start: int = if t < 0 { 1 } else { 0 };
    let point = s.len() - places - 1;
    let whole = s.subrange(start, point);
    let part = s.skip(point + 1);
    let size = text::read(whole, 10) * text::ten_to(places) + text::read(part, 10);
    let value = if t < 0 { -size } else { size };
    &&& start < point
    &&& t < 0 <==> s[0] == '-'
    &&& s[point] == '.'
    &&& text::is_digits(whole)
    &&& text::is_digits(part)
    &&& -unit <= 2 * (t - value * unit) <= unit
}

/// A rendered time reads as it, to the nearest unit.
pub proof fn law_shown_time_reads_back(t: int, unit: int, places: nat)
    requires
        unit > 0,
        unit % 2 == 0 || unit == 1,
    ensures
        reads_near(shown(t, unit, places), t, unit, places),
{
    let n = rounded(t, unit);
    law_rounding_is_to_the_nearest(t, unit);
    let s = if t < 0 { -t } else { t };
    assert((s + unit / 2) / unit >= 0) by (nonlinear_arith)
        requires
            s >= 0,
            unit > 0,
    ;
    text::law_fixed_reads_back(t < 0, (if n < 0 { -n } else { n }) as nat, places);
}

} // verus!
