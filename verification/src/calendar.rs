//! Proleptic Gregorian calendar arithmetic over UTC instants measured in
//! milliseconds since 1970-01-01T00:00:00Z. The tree builder and the
//! timestamp formatter both rest on these conversions.
use vstd::prelude::*;

verus! {

pub const MILLIS_PER_SECOND: i64 = 1_000;

pub const MILLIS_PER_MINUTE: i64 = 60_000;

pub const MILLIS_PER_HOUR: i64 = 3_600_000;

pub const MILLIS_PER_DAY: i64 = 86_400_000;

/// Earliest year the library models (the epoch year).
pub const MIN_YEAR: i64 = 1970;

/// Latest year the library models: four-digit years only.
pub const MAX_YEAR: i64 = 9999;

pub open spec fn is_leap_year(y: int) -> bool {
    (y % 4 == 0 && y % 100 != 0) || y % 400 == 0
}

pub open spec fn days_in_year(y: int) -> int {
    if is_leap_year(y) {
        366
    } else {
        365
    }
}

pub open spec fn days_in_month(y: int, m: int) -> int {
    if m == 2 {
        if is_leap_year(y) {
            29
        } else {
            28
        }
    } else if m == 4 || m == 6 || m == 9 || m == 11 {
        30
    } else {
        31
    }
}

/// A civil date the tree may hold: within the modelled years, and the
/// day exists in that month (so there is no February 30th).
pub open spec fn valid_date(y: int, m: int, d: int) -> bool {
    &&& MIN_YEAR <= y <= MAX_YEAR
    &&& 1 <= m <= 12
    &&& 1 <= d <= days_in_month(y, m)
}

/// Days from 1970-01-01 up to January 1st of year `y`.
pub open spec fn days_before_year(y: int) -> int
    decreases y,
{
    if y <= MIN_YEAR {
        0
    } else {
        days_before_year(y - 1) + days_in_year(y - 1)
    }
}

/// Days from the start of year `y` up to the first of month `m`.
pub open spec fn days_before_month(y: int, m: int) -> int
    decreases m,
{
    if m <= 1 {
        0
    } else {
        days_before_month(y, m - 1) + days_in_month(y, m - 1)
    }
}

/// Days from 1970-01-01 to the civil date `y-m-d`.
pub open spec fn epoch_days(y: int, m: int, d: int) -> int {
    days_before_year(y) + days_before_month(y, m) + d - 1
}

/// Milliseconds from the epoch to `y-m-d h:mi:s.ms` UTC.
pub open spec fn epoch_millis_at(y: int, m: int, d: int, h: int, mi: int, s: int, ms: int) -> int {
    epoch_days(y, m, d) * 86_400_000 + h * 3_600_000 + mi * 60_000 + s * 1_000 + ms
}

/// Instants at or past this bound would need a fifth year digit.
pub open spec fn millis_upper_bound() -> int {
    days_before_year(MAX_YEAR as int + 1) * 86_400_000
}

proof fn lemma_days_before_year_bounds(y: int)
    requires
        MIN_YEAR <= y,
    ensures
        365 * (y - MIN_YEAR) <= days_before_year(y) <= 366 * (y - MIN_YEAR),
    decreases y,
{
    if y > MIN_YEAR {
        lemma_days_before_year_bounds(y - 1);
    }
}

proof fn lemma_days_before_year_monotonic(y1: int, y2: int)
    requires
        MIN_YEAR <= y1 <= y2,
    ensures
        days_before_year(y1) <= days_before_year(y2),
    decreases y2,
{
    if y1 < y2 {
        lemma_days_before_year_monotonic(y1, y2 - 1);
    }
}

proof fn lemma_days_before_month_bounds(y: int, m: int)
    requires
        1 <= m <= 13,
    ensures
        28 * (m - 1) <= days_before_month(y, m) <= 31 * (m - 1),
    decreases m,
{
    if m > 1 {
        lemma_days_before_month_bounds(y, m - 1);
    }
}

/// A valid civil date's day number lies within the modelled day range.
pub proof fn lemma_epoch_days_bounds(y: int, m: int, d: int)
    requires
        valid_date(y, m, d),
    ensures
        0 <= epoch_days(y, m, d),
        epoch_days(y, m, d) < days_before_year(y + 1),
        epoch_days(y, m, d) < days_before_year(MAX_YEAR as int + 1),
{
    lemma_days_before_year_bounds(y);
    lemma_days_before_month_bounds(y, m);
    lemma_days_before_month_upto_year(y, m, d);
    lemma_days_before_year_monotonic(y + 1, MAX_YEAR as int + 1);
}

proof fn lemma_days_before_month_upto_year(y: int, m: int, d: int)
    requires
        valid_date(y, m, d),
    ensures
        days_before_month(y, m) + d - 1 < days_in_year(y),
{
    lemma_month_sum(y);
    lemma_days_before_month_mono(y, m + 1, 13);
}

proof fn lemma_month_sum(y: int)
    ensures
        days_before_month(y, 13) == days_in_year(y),
{
    reveal_with_fuel(days_before_month, 14);
}

proof fn lemma_days_before_month_mono(y: int, m1: int, m2: int)
    requires
        1 <= m1 <= m2 <= 13,
    ensures
        days_before_month(y, m1) <= days_before_month(y, m2),
    decreases m2,
{
    if m1 < m2 {
        lemma_days_before_month_mono(y, m1, m2 - 1);
    }
}

/// Instant `ms` falls within civil year `y`.
pub open spec fn year_millis_bounds(ms: int, y: int) -> bool {
    &&& MIN_YEAR <= y <= MAX_YEAR
    &&& days_before_year(y) * 86_400_000 <= ms
    &&& ms < days_before_year(y + 1) * 86_400_000
}

/// The civil year an instant falls in.
pub open spec fn millis_year(ms: int) -> int {
    choose|y: int| year_millis_bounds(ms, y)
}

proof fn lemma_year_exists(ms: int, y: int)
    requires
        MIN_YEAR <= y <= MAX_YEAR,
        days_before_year(y) * 86_400_000 <= ms,
        ms < millis_upper_bound(),
    ensures
        exists|y2: int| year_millis_bounds(ms, y2),
    decreases MAX_YEAR - y,
{
    if ms < days_before_year(y + 1) * 86_400_000 {
        assert(year_millis_bounds(ms, y));
    } else {
        assert(y < MAX_YEAR);
        lemma_year_exists(ms, y + 1);
    }
}

/// Every modelled instant falls in exactly one year.
pub proof fn lemma_millis_year(ms: int)
    requires
        0 <= ms < millis_upper_bound(),
    ensures
        year_millis_bounds(ms, millis_year(ms)),
{
    lemma_year_exists(ms, MIN_YEAR as int);
    let y2 = choose|y2: int| year_millis_bounds(ms, y2);
    assert(year_millis_bounds(ms, y2));
}

/// The year an instant falls in is unique.
pub proof fn lemma_millis_year_unique(ms: int, y: int)
    requires
        year_millis_bounds(ms, y),
    ensures
        millis_year(ms) == y,
{
    lemma_days_before_year_monotonic(y + 1, MAX_YEAR as int + 1);
    lemma_days_before_year_bounds(y);
    lemma_millis_year(ms);
    let y2 = millis_year(ms);
    if y2 < y {
        lemma_days_before_year_monotonic(y2 + 1, y);
        assert(false);
    }
    if y2 > y {
        lemma_days_before_year_monotonic(y + 1, y2);
        assert(false);
    }
}

/// A well-formed broken-down time falls in its own year.
pub proof fn lemma_civil_year(ct: CivilTime)
    requires
        ct.wf(),
    ensures
        year_millis_bounds(ct.as_millis(), ct.year as int),
{
    lemma_epoch_days_bounds(ct.year as int, ct.month as int, ct.day as int);
    lemma_days_before_month_bounds(ct.year as int, ct.month as int);
    lemma_days_before_year_bounds(ct.year as int);
}

/// Year starts advance between 365 and 366 days per year.
pub proof fn lemma_days_before_year_diff(y1: int, y2: int)
    requires
        MIN_YEAR <= y1 <= y2 <= MAX_YEAR + 1,
    ensures
        365 * (y2 - y1) <= days_before_year(y2) - days_before_year(y1) <= 366 * (y2 - y1),
    decreases y2,
{
    if y1 < y2 {
        lemma_days_before_year_diff(y1, y2 - 1);
    }
}

/// An instant has exactly one well-formed broken-down form.
pub proof fn lemma_civil_unique(a: CivilTime, b: CivilTime)
    requires
        a.wf(),
        b.wf(),
        a.as_millis() == b.as_millis(),
    ensures
        a.year == b.year,
        a.month == b.month,
        a.day == b.day,
        a.hour == b.hour,
        a.minute == b.minute,
        a.second == b.second,
        a.millisecond == b.millisecond,
{
    let ms = a.as_millis();
    lemma_civil_year(a);
    lemma_civil_year(b);
    lemma_millis_year_unique(ms, a.year as int);
    lemma_millis_year_unique(ms, b.year as int);
    assert(a.year == b.year);
    let eda = epoch_days(a.year as int, a.month as int, a.day as int);
    let edb = epoch_days(b.year as int, b.month as int, b.day as int);
    let toda = a.as_millis() - eda * 86_400_000;
    let todb = b.as_millis() - edb * 86_400_000;
    lemma_epoch_days_bounds(a.year as int, a.month as int, a.day as int);
    lemma_epoch_days_bounds(b.year as int, b.month as int, b.day as int);
    assert(0 <= toda < 86_400_000 && 0 <= todb < 86_400_000);
    assert(eda == edb && toda == todb) by {
        vstd::arithmetic::div_mod::lemma_fundamental_div_mod_converse(ms, 86_400_000, eda, toda);
        vstd::arithmetic::div_mod::lemma_fundamental_div_mod_converse(ms, 86_400_000, edb, todb);
    }
    lemma_month_day_unique(
        a.year as int,
        a.month as int,
        a.day as int,
        b.month as int,
        b.day as int,
    );
    let ha = a.hour as int;
    let hb = b.hour as int;
    let hra = toda - ha * 3_600_000;
    let hrb = todb - hb * 3_600_000;
    assert(ha == hb && hra == hrb) by {
        vstd::arithmetic::div_mod::lemma_fundamental_div_mod_converse(toda, 3_600_000, ha, hra);
        vstd::arithmetic::div_mod::lemma_fundamental_div_mod_converse(todb, 3_600_000, hb, hrb);
    }
    let mia = a.minute as int;
    let mib = b.minute as int;
    let mra = hra - mia * 60_000;
    let mrb = hrb - mib * 60_000;
    assert(mia == mib && mra == mrb) by {
        vstd::arithmetic::div_mod::lemma_fundamental_div_mod_converse(hra, 60_000, mia, mra);
        vstd::arithmetic::div_mod::lemma_fundamental_div_mod_converse(hrb, 60_000, mib, mrb);
    }
    assert(a.second == b.second && a.millisecond == b.millisecond) by {
        vstd::arithmetic::div_mod::lemma_fundamental_div_mod_converse(
            mra,
            1_000,
            a.second as int,
            a.millisecond as int,
        );
        vstd::arithmetic::div_mod::lemma_fundamental_div_mod_converse(
            mrb,
            1_000,
            b.second as int,
            b.millisecond as int,
        );
    }
}

proof fn lemma_month_day_unique(y: int, m1: int, d1: int, m2: int, d2: int)
    requires
        valid_date(y, m1, d1),
        valid_date(y, m2, d2),
        days_before_month(y, m1) + d1 == days_before_month(y, m2) + d2,
    ensures
        m1 == m2,
        d1 == d2,
{
    if m1 < m2 {
        lemma_days_before_month_mono(y, m1 + 1, m2);
        assert(days_before_month(y, m1 + 1) == days_before_month(y, m1) + days_in_month(y, m1));
        assert(false);
    }
    if m2 < m1 {
        lemma_days_before_month_mono(y, m2 + 1, m1);
        assert(days_before_month(y, m2 + 1) == days_before_month(y, m2) + days_in_month(y, m2));
        assert(false);
    }
}

/// The modelled range of instants is far inside `i64`.
pub proof fn lemma_millis_upper_bound()
    ensures
        0 < millis_upper_bound() < 0x8000_0000_0000_0000,
{
    lemma_days_before_year_bounds(MAX_YEAR as int + 1);
}

/// Every instant of a valid date and time of day lies in the modelled range.
pub proof fn lemma_epoch_millis_range(y: int, m: int, d: int, h: int, mi: int, s: int, ms: int)
    requires
        valid_date(y, m, d),
        0 <= h < 24,
        0 <= mi < 60,
        0 <= s < 60,
        0 <= ms < 1000,
    ensures
        0 <= epoch_millis_at(y, m, d, h, mi, s, ms),
        epoch_millis_at(y, m, d, h, mi, s, ms) < millis_upper_bound(),
{
    lemma_epoch_days_bounds(y, m, d);
    lemma_days_before_year_monotonic(y + 1, MAX_YEAR as int + 1);
}

pub fn leap_year(y: i64) -> (r: bool)
    ensures
        r == is_leap_year(y as int),
{
    (y % 4 == 0 && y % 100 != 0) || y % 400 == 0
}

pub fn month_days(y: i64, m: i64) -> (r: i64)
    requires
        1 <= m <= 12,
    ensures
        r == days_in_month(y as int, m as int),
{
    if m == 2 {
        if leap_year(y) {
            29
        } else {
            28
        }
    } else if m == 4 || m == 6 || m == 9 || m == 11 {
        30
    } else {
        31
    }
}

fn year_start_days(y: i64) -> (r: i64)
    requires
        MIN_YEAR <= y <= MAX_YEAR + 1,
    ensures
        r == days_before_year(y as int),
        0 <= r <= 366 * (y - MIN_YEAR),
{
    let mut yy: i64 = MIN_YEAR;
    let mut acc: i64 = 0;
    while yy < y
        invariant
            MIN_YEAR <= yy <= y <= MAX_YEAR + 1,
            acc == days_before_year(yy as int),
            0 <= acc <= 366 * (yy - MIN_YEAR),
        decreases y - yy,
    {
        let year_len: i64 = if leap_year(yy) {
            366
        } else {
            365
        };
        acc = acc + year_len;
        yy = yy + 1;
    }
    acc
}

fn month_start_days(y: i64, m: i64) -> (r: i64)
    requires
        1 <= m <= 13,
    ensures
        r == days_before_month(y as int, m as int),
        0 <= r <= 31 * (m - 1),
{
    let mut mm: i64 = 1;
    let mut acc: i64 = 0;
    while mm < m
        invariant
            1 <= mm <= m <= 13,
            acc == days_before_month(y as int, mm as int),
            0 <= acc <= 31 * (mm - 1),
        decreases m - mm,
    {
        acc = acc + month_days(y, mm);
        mm = mm + 1;
    }
    acc
}

/// Days from 1970-01-01 to the valid civil date `y-m-d`.
pub fn day_number(y: i64, m: i64, d: i64) -> (r: i64)
    requires
        valid_date(y as int, m as int, d as int),
    ensures
        r == epoch_days(y as int, m as int, d as int),
        0 <= r < days_before_year(MAX_YEAR as int + 1),
{
    proof {
        lemma_epoch_days_bounds(y as int, m as int, d as int);
        lemma_days_before_year_bounds(y as int);
        lemma_days_before_month_bounds(y as int, m as int);
    }
    year_start_days(y) + month_start_days(y, m) + (d - 1)
}

/// Milliseconds from the epoch to `y-m-d h:mi:s.ms` UTC.
pub fn civil_to_millis(y: i64, m: i64, d: i64, h: i64, mi: i64, s: i64, ms: i64) -> (r: i64)
    requires
        valid_date(y as int, m as int, d as int),
        0 <= h < 24,
        0 <= mi < 60,
        0 <= s < 60,
        0 <= ms < 1000,
    ensures
        r == epoch_millis_at(y as int, m as int, d as int, h as int, mi as int, s as int, ms as int),
        0 <= r < millis_upper_bound(),
{
    proof {
        lemma_epoch_millis_range(y as int, m as int, d as int, h as int, mi as int, s as int, ms as int);
        lemma_millis_upper_bound();
    }
    let days = day_number(y, m, d);
    proof {
        lemma_days_before_year_bounds(MAX_YEAR as int + 1);
    }
    days * MILLIS_PER_DAY + h * MILLIS_PER_HOUR + mi * MILLIS_PER_MINUTE + s * MILLIS_PER_SECOND + ms
}

/// Decide whether an instant lies within the modelled years, 1970
/// through 9999.
pub fn within_modelled_range(ms: i64) -> (r: bool)
    ensures
        r == (0 <= ms < millis_upper_bound()),
{
    proof {
        lemma_millis_upper_bound();
    }
    if ms < 0 {
        false
    } else {
        let bound_days = year_start_days(MAX_YEAR + 1);
        ms < bound_days * MILLIS_PER_DAY
    }
}

/// A broken-down UTC instant.
pub struct CivilTime {
    pub year: i64,
    pub month: i64,
    pub day: i64,
    pub hour: i64,
    pub minute: i64,
    pub second: i64,
    pub millisecond: i64,
}

impl CivilTime {
    /// The broken-down fields denote a valid date and time of day.
    pub open spec fn wf(self) -> bool {
        &&& valid_date(self.year as int, self.month as int, self.day as int)
        &&& 0 <= self.hour < 24
        &&& 0 <= self.minute < 60
        &&& 0 <= self.second < 60
        &&& 0 <= self.millisecond < 1000
    }

    /// The instant these fields denote.
    pub open spec fn as_millis(self) -> int {
        epoch_millis_at(
            self.year as int,
            self.month as int,
            self.day as int,
            self.hour as int,
            self.minute as int,
            self.second as int,
            self.millisecond as int,
        )
    }
}

/// Break an instant into its civil fields; inverse of `civil_to_millis`.
pub fn millis_to_civil(ms: i64) -> (r: CivilTime)
    requires
        0 <= ms < millis_upper_bound(),
    ensures
        r.wf(),
        r.as_millis() == ms,
{
    proof {
        lemma_millis_upper_bound();
        lemma_days_before_year_bounds(MAX_YEAR as int + 1);
    }
    let days: i64 = ms / MILLIS_PER_DAY;
    let rem: i64 = ms % MILLIS_PER_DAY;
    let mut y: i64 = MIN_YEAR;
    let mut acc: i64 = 0;
    loop
        invariant
            MIN_YEAR <= y <= MAX_YEAR,
            acc == days_before_year(y as int),
            0 <= acc <= days,
            days < days_before_year(MAX_YEAR as int + 1),
            days <= 366 * (MAX_YEAR + 1 - MIN_YEAR),
        ensures
            MIN_YEAR <= y <= MAX_YEAR,
            acc == days_before_year(y as int),
            acc <= days < acc + days_in_year(y as int),
        decreases MAX_YEAR - y,
    {
        let year_len: i64 = if leap_year(y) {
            366
        } else {
            365
        };
        if acc + year_len > days {
            break;
        }
        proof {
            if y as int == MAX_YEAR as int {
                lemma_days_before_year_monotonic(y as int + 1, MAX_YEAR as int + 1);
                assert(false);
            }
        }
        acc = acc + year_len;
        y = y + 1;
    }
    let day_of_year: i64 = days - acc;
    let mut m: i64 = 1;
    let mut macc: i64 = 0;
    loop
        invariant
            1 <= m <= 12,
            macc == days_before_month(y as int, m as int),
            0 <= macc <= day_of_year,
            day_of_year < days_in_year(y as int),
            MIN_YEAR <= y <= MAX_YEAR,
        ensures
            1 <= m <= 12,
            macc == days_before_month(y as int, m as int),
            macc <= day_of_year < macc + days_in_month(y as int, m as int),
        decreases 12 - m,
    {
        let mdays = month_days(y, m);
        if macc + mdays > day_of_year {
            break;
        }
        proof {
            if m as int == 12 {
                lemma_month_sum(y as int);
                assert(false);
            }
        }
        macc = macc + mdays;
        m = m + 1;
    }
    let d: i64 = day_of_year - macc + 1;
    let hour: i64 = rem / MILLIS_PER_HOUR;
    let hrem: i64 = rem % MILLIS_PER_HOUR;
    let minute: i64 = hrem / MILLIS_PER_MINUTE;
    let mrem: i64 = hrem % MILLIS_PER_MINUTE;
    let second: i64 = mrem / MILLIS_PER_SECOND;
    let millisecond: i64 = mrem % MILLIS_PER_SECOND;
    CivilTime { year: y, month: m, day: d, hour, minute, second, millisecond }
}

} // verus!
