//! Local calendar days: which day an edition covers in the reader's time
//! zone, and which candidates were published on that day.
//!
//! Time-zone rules come from the chrono-tz database; the library keeps the
//! zone's name beside the zone and names chrono's answers over that name.
use vstd::prelude::*;
use chrono::{DateTime, Datelike, Offset, TimeZone};
use chrono_tz::Tz;
use crate::text::{decimal_text, push_char, push_decimal};

verus! {

broadcast use vstd::string::group_string_axioms;

/// The earliest year of chrono's calendar dates.
pub const MIN_YEAR: i32 = -262143;

/// The latest year of chrono's calendar dates.
pub const MAX_YEAR: i32 = 262142;

/// A day of the proleptic Gregorian calendar.
#[derive(Debug, Clone, Copy, PartialEq, Eq, Structural)]
pub struct CalendarDate {
    pub year: i32,
    pub month: u32,
    pub day: u32,
}

/// Leap years of the Gregorian calendar.
pub open spec fn is_leap_year(year: int) -> bool {
    (year % 4 == 0 && year % 100 != 0) || year % 400 == 0
}

/// The number of days of a month.
pub open spec fn month_length(year: int, month: int) -> int {
    if month == 2 {
        if is_leap_year(year) {
            29
        } else {
            28
        }
    } else if month == 4 || month == 6 || month == 9 || month == 11 {
        30
    } else {
        31
    }
}

/// A month between 1 and 12 and a day that the month has.
pub open spec fn is_valid_date(d: CalendarDate) -> bool {
    &&& 1 <= d.month <= 12
    &&& 1 <= d.day <= month_length(d.year as int, d.month as int)
}

/// `a` is an earlier day than `b`.
pub open spec fn is_earlier(a: CalendarDate, b: CalendarDate) -> bool {
    ||| a.year < b.year
    ||| a.year == b.year && a.month < b.month
    ||| a.year == b.year && a.month == b.month && a.day < b.day
}

/// The day before `d`, as `NaiveDate::checked_sub_days(Days::new(1))`
/// computes it: within the year no range check is made; from a first of
/// January the result is the last of December of the year before, when that
/// year lies within chrono's range.
pub open spec fn day_before(d: CalendarDate) -> Option<CalendarDate> {
    if d.day > 1 {
        Some(CalendarDate { year: d.year, month: d.month, day: (d.day - 1) as u32 })
    } else if d.month > 1 {
        Some(
            CalendarDate {
                year: d.year,
                month: (d.month - 1) as u32,
                day: month_length(d.year as int, d.month - 1) as u32,
            },
        )
    } else if MIN_YEAR <= d.year - 1 <= MAX_YEAR {
        Some(CalendarDate { year: (d.year - 1) as i32, month: 12, day: 31 })
    } else {
        None
    }
}

/// Whether `year` is a leap year.
fn leap_year(year: i32) -> (b: bool)
    ensures
        b == is_leap_year(year as int),
{
    // shift by a multiple of 400 so that the remainders are taken of a
    // non-negative number
    let shifted = year as i64 + 2_148_000_000;
    assert(shifted % 4 == (year as int) % 4 && shifted % 100 == (year as int) % 100 && shifted
        % 400 == (year as int) % 400) by (nonlinear_arith)
        requires
            shifted == year as int + 2_148_000_000,
    ;
    (shifted % 4 == 0 && shifted % 100 != 0) || shifted % 400 == 0
}

/// The number of days of `month` in `year`.
pub fn days_in_month(year: i32, month: u32) -> (days: u32)
    ensures
        days == month_length(year as int, month as int),
{
    if month == 2 {
        if leap_year(year) {
            29
        } else {
            28
        }
    } else if month == 4 || month == 6 || month == 9 || month == 11 {
        30
    } else {
        31
    }
}

/// The day before `d`, or `None` when it falls before chrono's range.
pub fn previous_day(d: CalendarDate) -> (prev: Option<CalendarDate>)
    requires
        is_valid_date(d),
    ensures
        prev == day_before(d),
{
    if d.day > 1 {
        Some(CalendarDate { year: d.year, month: d.month, day: d.day - 1 })
    } else if d.month > 1 {
        Some(CalendarDate { year: d.year, month: d.month - 1, day: days_in_month(d.year, d.month - 1) })
    } else {
        let year = d.year as i64 - 1;
        if MIN_YEAR as i64 <= year && year <= MAX_YEAR as i64 {
            Some(CalendarDate { year: year as i32, month: 12, day: 31 })
        } else {
            None
        }
    }
}

/// The day before a valid day is a valid, earlier day, and no valid day lies
/// strictly between them.
pub proof fn law_day_before_is_adjacent(d: CalendarDate, q: CalendarDate)
    requires
        is_valid_date(d),
        day_before(d) is Some,
        is_valid_date(q),
    ensures
        is_valid_date(day_before(d)->0),
        is_earlier(day_before(d)->0, d),
        !(is_earlier(day_before(d)->0, q) && is_earlier(q, d)),
{
}

/// Every valid day within chrono's range, except the first of January of
/// its first year, has a day before it.
pub proof fn law_day_before_exists(d: CalendarDate)
    requires
        is_valid_date(d),
        MIN_YEAR <= d.year <= MAX_YEAR,
        !(d.year == MIN_YEAR && d.month == 1 && d.day == 1),
    ensures
        day_before(d) is Some,
{
}

/// What parsing `name` as a `chrono_tz::Tz` answers: whether the bundled
/// time-zone database holds a zone of exactly that name.
pub uninterp spec fn zone_name_known(name: Seq<char>) -> bool;

/// Calls `<chrono_tz::Tz as FromStr>::from_str` and reports whether it
/// succeeded; the answer is named `zone_name_known(name@)`.
#[verifier::external_body]
fn zone_name_exists(name: &str) -> (known: bool)
    ensures
        known == zone_name_known(name@),
{
    name.parse::<Tz>().is_ok()
}

/// The name of a time zone that the bundled database holds.
#[derive(Debug, Clone)]
pub struct Zone {
    name: String,
}

impl View for Zone {
    type V = Seq<char>;

    /// The zone's name.
    closed spec fn view(&self) -> Seq<char> {
        self.name@
    }
}

impl Zone {
    /// The zone called `name`, when the database has one.
    pub fn parse(name: &str) -> (zone: Option<Zone>)
        ensures
            zone is Some <==> zone_name_known(name@),
            zone matches Some(z) ==> z@ == name@,
    {
        if zone_name_exists(name) {
            Some(Zone { name: name.to_owned() })
        } else {
            None
        }
    }

    /// The zone's name.
    pub fn name(&self) -> (name: &str)
        ensures
            name@ == self@,
    {
        self.name.as_str()
    }
}

/// The local calendar day, in the zone of the database called `zone_name`,
/// of the instant `utc_secs` seconds after 1970-01-01T00:00:00Z, as chrono
/// computes it (year, month, day); `None` when the database has no zone of
/// that name, or when chrono cannot represent the instant or its local time.
pub uninterp spec fn local_day_at(zone_name: Seq<char>, utc_secs: i64) -> Option<(i32, u32, u32)>;

/// The calendar date of a (year, month, day) triple.
pub open spec fn date_of(t: (i32, u32, u32)) -> CalendarDate {
    CalendarDate { year: t.0, month: t.1, day: t.2 }
}

/// Looks up the zone called `zone_name` (`<chrono_tz::Tz as FromStr>::from_str`),
/// makes the instant (`DateTime::from_timestamp`), finds the zone's offset
/// there (`TimeZone::offset_from_utc_datetime`, `Offset::fix`), adds it
/// (`NaiveDateTime::checked_add_offset`, which fails instead of panicking
/// outside chrono's range) and reads the day's year, month and day. The result
/// is named `local_day_at(zone_name@, utc_secs)`; a `NaiveDate` always holds a
/// valid calendar day.
#[verifier::external_body]
fn local_date(zone_name: &str, utc_secs: i64) -> (date: Option<CalendarDate>)
    ensures
        date matches Some(d) ==> local_day_at(zone_name@, utc_secs) == Some((d.year, d.month, d.day))
            && is_valid_date(d),
        date is None <==> local_day_at(zone_name@, utc_secs) is None,
{
    let tz = match zone_name.parse::<Tz>() { Ok(tz) => tz, Err(_) => return None };
    let utc = match DateTime::from_timestamp(utc_secs, 0) { Some(t) => t.naive_utc(), None => return None };
    match utc.checked_add_offset(tz.offset_from_utc_datetime(&utc).fix()) {
        Some(local) => Some(CalendarDate { year: local.year(), month: local.month(), day: local.day() }),
        None => None,
    }
}

/// Why the previous local day could not be found.
#[derive(Debug, Clone)]
pub enum TimeError {
    /// The time-zone database has no zone of this name.
    InvalidTimezone(String),
    /// The day before falls outside chrono's calendar, or the instant itself
    /// does.
    NoPreviousDate,
}

impl TimeError {
    /// The error's message.
    pub fn message(&self) -> (text: String)
        ensures
            self matches TimeError::InvalidTimezone(name) ==> text@ == "invalid timezone: "@ + name@,
            self is NoPreviousDate ==> text@ == "could not calculate previous local date"@,
    {
        match self {
            TimeError::InvalidTimezone(name) => {
                let mut text = "invalid timezone: ".to_owned();
                text.append(name.as_str());
                text
            },
            TimeError::NoPreviousDate => "could not calculate previous local date".to_owned(),
        }
    }
}

/// The outcome of asking for the local day before an instant, over chrono's
/// answers.
pub open spec fn previous_local_day(utc_secs: i64, timezone: Seq<char>) -> Option<CalendarDate> {
    match local_day_at(timezone, utc_secs) {
        Some(t) => day_before(date_of(t)),
        None => None,
    }
}

/// The day an edition covers is the eve of the local day of the instant
/// itself: it is a valid day, earlier than the local day of `now`, with no
/// valid day between them; it exists whenever that local day is valid and
/// lies within chrono's range past its very first day; and there is none when
/// chrono gives no local day for `now`.
pub proof fn law_previous_local_day_is_eve_of_now(now: i64, timezone: Seq<char>)
    ensures
        local_day_at(timezone, now) is None ==> previous_local_day(now, timezone) is None,
        local_day_at(timezone, now) is Some && is_valid_date(date_of(local_day_at(timezone, now)->0))
            && previous_local_day(now, timezone) is Some ==> {
            let today = date_of(local_day_at(timezone, now)->0);
            let d = previous_local_day(now, timezone)->0;
            &&& is_valid_date(d)
            &&& is_earlier(d, today)
            &&& forall|q: CalendarDate| is_valid_date(q) ==> !(#[trigger] is_earlier(d, q) && is_earlier(q, today))
        },
        local_day_at(timezone, now) is Some && is_valid_date(date_of(local_day_at(timezone, now)->0)) && {
            let today = date_of(local_day_at(timezone, now)->0);
            MIN_YEAR <= today.year <= MAX_YEAR && !(today.year == MIN_YEAR && today.month == 1 && today.day == 1)
        } ==> previous_local_day(now, timezone) is Some,
{
    if let Some(t) = local_day_at(timezone, now) {
        let today = date_of(t);
        if is_valid_date(today) {
            if day_before(today) is Some {
                law_day_before_is_adjacent(today, today);
                assert forall|q: CalendarDate| is_valid_date(q) implies !(#[trigger] is_earlier(day_before(today)->0, q) && is_earlier(q, today)) by {
                    law_day_before_is_adjacent(today, q);
                }
            }
            if MIN_YEAR <= t.0 <= MAX_YEAR && !(t.0 == MIN_YEAR && t.1 == 1 && t.2 == 1) {
                law_day_before_exists(today);
            }
        }
    }
}

/// The calendar day before the one on which the instant `now_utc_secs`
/// (seconds after the Unix epoch) falls in the zone called `timezone`: the
/// day a daily edition generated at that instant covers.
pub fn previous_local_date(now_utc_secs: i64, timezone: &str) -> (date: Result<CalendarDate, TimeError>)
    ensures
        !zone_name_known(timezone@) <==> (date is Err && date->Err_0 is InvalidTimezone),
        date matches Err(TimeError::InvalidTimezone(name)) ==> name@ == timezone@,
        zone_name_known(timezone@) ==> match previous_local_day(now_utc_secs, timezone@) {
            Some(d) => date == Ok::<CalendarDate, TimeError>(d),
            None => date is Err && date->Err_0 is NoPreviousDate,
        },
        zone_name_known(timezone@) ==> match local_day_at(timezone@, now_utc_secs) {
            Some(t) => match day_before(date_of(t)) {
                Some(d) => date == Ok::<CalendarDate, TimeError>(d),
                None => date is Err && date->Err_0 is NoPreviousDate,
            },
            None => date is Err && date->Err_0 is NoPreviousDate,
        },
        date matches Ok(d) ==> local_day_at(timezone@, now_utc_secs) matches Some(t) && is_valid_date(d)
            && is_earlier(d, date_of(t)) && forall|q: CalendarDate|
            is_valid_date(q) ==> !(#[trigger] is_earlier(d, q) && is_earlier(q, date_of(t))),
{
    match Zone::parse(timezone) {
        None => Err(TimeError::InvalidTimezone(timezone.to_owned())),
        Some(zone) => match local_date(zone.name(), now_utc_secs) {
            Some(today) => match previous_day(today) {
                Some(d) => {
                    proof {
                        assert forall|q: CalendarDate| is_valid_date(q) implies !(#[trigger] is_earlier(d, q) && is_earlier(q, today)) by {
                            law_day_before_is_adjacent(today, q);
                        }
                        law_day_before_is_adjacent(today, today);
                    }
                    Ok(d)
                },
                None => Err(TimeError::NoPreviousDate),
            },
            None => Err(TimeError::NoPreviousDate),
        },
    }
}

/// The positions, in order, of the instants among `published` whose local
/// day in the zone called `zone_name` is `target`.
pub open spec fn positions_on_day(zone_name: Seq<char>, published: Seq<i64>, target: CalendarDate) -> Seq<usize>
    decreases published.len(),
{
    if published.len() == 0 {
        Seq::empty()
    } else {
        let rest = positions_on_day(zone_name, published.drop_last(), target);
        if local_day_at(zone_name, published.last()) == Some((target.year, target.month, target.day)) {
            rest.push((published.len() - 1) as usize)
        } else {
            rest
        }
    }
}

/// The positions of the publication instants (seconds after the Unix epoch)
/// that fall on the local day `target` in `zone`: the candidates of that
/// day's edition.
pub fn published_on(zone: &Zone, published: &Vec<i64>, target: CalendarDate) -> (positions: Vec<usize>)
    ensures
        positions@ == positions_on_day(zone@, published@, target),
        forall|a: int, b: int| 0 <= a < b < positions@.len() ==> #[trigger] positions@[a] < #[trigger] positions@[b],
        forall|k: int| 0 <= k < positions@.len() ==> #[trigger] positions@[k] < published@.len(),
        forall|k: int| 0 <= k < published@.len() ==> (positions@.contains(k as usize) <==> local_day_at(
            zone@,
            #[trigger] published@[k],
        ) == Some((target.year, target.month, target.day))),
{
    let n = published.len();
    let mut positions: Vec<usize> = Vec::new();
    proof {
        assert(published@.take(0) =~= Seq::<i64>::empty());
    }
    for i in 0..n
        invariant
            n == published@.len(),
            positions@ == positions_on_day(zone@, published@.take(i as int), target),
    {
        let day = local_date(zone.name(), published[i]);
        proof {
            assert(published@.take(i + 1).drop_last() =~= published@.take(i as int));
            assert(published@.take(i + 1).last() == published@[i as int]);
        }
        match day {
            Some(d) => {
                if d == target {
                    positions.push(i);
                }
            },
            None => {},
        }
    }
    assert(published@.take(n as int) =~= published@);
    proof {
        law_positions_on_day_are_the_matching_instants(zone@, published@, target);
    }
    positions
}

/// The positions listed are, in increasing order, exactly those of the
/// instants whose local day is `target` in year, month and day.
pub proof fn law_positions_on_day_are_the_matching_instants(zone_name: Seq<char>, published: Seq<i64>, target: CalendarDate)
    requires
        published.len() <= usize::MAX,
    ensures
        forall|a: int, b: int|
            0 <= a < b < positions_on_day(zone_name, published, target).len()
                ==> #[trigger] positions_on_day(zone_name, published, target)[a]
                < #[trigger] positions_on_day(zone_name, published, target)[b],
        forall|k: int| 0 <= k < positions_on_day(zone_name, published, target).len()
            ==> #[trigger] positions_on_day(zone_name, published, target)[k] < published.len(),
        forall|k: int| 0 <= k < published.len() ==> (positions_on_day(zone_name, published, target).contains(k as usize)
            <==> local_day_at(zone_name, #[trigger] published[k]) == Some((target.year, target.month, target.day))),
    decreases published.len(),
{
    if published.len() > 0 {
        let front = published.drop_last();
        law_positions_on_day_are_the_matching_instants(zone_name, front, target);
        let rest = positions_on_day(zone_name, front, target);
        let all = positions_on_day(zone_name, published, target);
        let last = (published.len() - 1) as usize;
        let hit = local_day_at(zone_name, published.last()) == Some((target.year, target.month, target.day));
        assert(all == if hit { rest.push(last) } else { rest });
        assert forall|a: int, b: int| 0 <= a < b < all.len() implies #[trigger] all[a] < #[trigger] all[b] by {
            if hit && b == rest.len() {
                assert(all[a] == rest[a]);
                assert(rest[a] < front.len());
            } else {
                assert(all[a] == rest[a] && all[b] == rest[b]);
            }
        }
        assert forall|k: int| 0 <= k < all.len() implies #[trigger] all[k] < published.len() by {
            if k < rest.len() {
                assert(all[k] == rest[k]);
            }
        }
        assert forall|k: int| 0 <= k < published.len() implies (all.contains(k as usize)
            <==> local_day_at(zone_name, #[trigger] published[k]) == Some((target.year, target.month, target.day))) by {
            if k < front.len() {
                assert(published[k] == front[k]);
                if all.contains(k as usize) {
                    let w = choose|w: int| 0 <= w < all.len() && all[w] == k as usize;
                    if hit && w == rest.len() {
                        assert(false);
                    }
                    assert(rest[w] == k as usize);
                }
                if rest.contains(k as usize) {
                    let w = choose|w: int| 0 <= w < rest.len() && rest[w] == k as usize;
                    assert(all[w] == k as usize);
                }
            } else {
                assert(published[k] == published.last());
                if hit {
                    assert(all[rest.len() as int] == last);
                } else if all.contains(k as usize) {
                    let w = choose|w: int| 0 <= w < all.len() && all[w] == k as usize;
                    assert(rest[w] < front.len());
                }
            }
        }
    }
}

/// `text` with zeros in front, up to `width` characters.
pub open spec fn zero_padded(text: Seq<char>, width: nat) -> Seq<char> {
    if text.len() >= width {
        text
    } else {
        Seq::new((width - text.len()) as nat, |i: int| '0') + text
    }
}

/// The ISO 8601 form of a day, as chrono writes a `NaiveDate`: a four-digit
/// year for years 0 to 9999 and a signed year of at least four digits
/// otherwise, then two-digit month and day, joined by hyphens.
pub open spec fn iso_date_text(d: CalendarDate) -> Seq<char> {
    let year = if 0 <= d.year <= 9999 {
        zero_padded(decimal_text(d.year as nat), 4)
    } else if d.year < 0 {
        "-"@ + zero_padded(decimal_text((-d.year) as nat), 4)
    } else {
        "+"@ + zero_padded(decimal_text(d.year as nat), 4)
    };
    year + "-"@ + zero_padded(decimal_text(d.month as nat), 2) + "-"@ + zero_padded(
        decimal_text(d.day as nat),
        2,
    )
}

/// Appends `n` in decimal, with zeros in front up to `width` characters.
fn push_padded(s: &mut String, n: usize, width: usize)
    requires
        width <= 8,
    ensures
        final(s)@ == old(s)@ + zero_padded(decimal_text(n as nat), width as nat),
{
    let mut digits = String::new();
    push_decimal(&mut digits, n);
    let len = digits.as_str().unicode_len();
    let ghost start = s@;
    if len < width {
        let pad = width - len;
        for i in 0..pad
            invariant
                s@ == start + Seq::new(i as nat, |k: int| '0'),
        {
            push_char(s, '0');
            assert(start + Seq::new((i + 1) as nat, |k: int| '0') =~= (start + Seq::new(i as nat, |k: int| '0')).push('0'));
        }
        s.append(digits.as_str());
        assert(s@ =~= start + (Seq::new(pad as nat, |k: int| '0') + decimal_text(n as nat)));
    } else {
        s.append(digits.as_str());
    }
}

impl CalendarDate {
    /// The ISO 8601 form of the day, such as `2026-04-23`.
    pub fn to_string(&self) -> (text: String)
        ensures
            text@ == iso_date_text(*self),
    {
        let mut text = String::new();
        if 0 <= self.year && self.year <= 9999 {
            push_padded(&mut text, self.year as usize, 4);
        } else if self.year < 0 {
            push_char(&mut text, '-');
            let magnitude = (-(self.year as i64)) as usize;
            push_padded(&mut text, magnitude, 4);
        } else {
            push_char(&mut text, '+');
            push_padded(&mut text, self.year as usize, 4);
        }
        push_char(&mut text, '-');
        push_padded(&mut text, self.month as usize, 2);
        push_char(&mut text, '-');
        push_padded(&mut text, self.day as usize, 2);
        proof {
            reveal_strlit("-");
            reveal_strlit("+");
        }
        text
    }
}

} // verus!
