//! Helpers shared by the request and response transforms: timestamps and the value
//! mini-language of the configuration.
//!
//! A timestamp is computed once per request or response and passed on, so that a
//! header and a body that both refer to it always agree.

use vstd::prelude::*;

use crate::text;

verus! {

/// Whether a year of the Gregorian calendar is a leap year.
pub open spec fn is_leap(year: int) -> bool {
    year % 4 == 0 && (year % 100 != 0 || year % 400 == 0)
}

/// The days of a year.
pub open spec fn days_in_year(year: int) -> int {
    if is_leap(year) {
        366
    } else {
        365
    }
}

/// The days of a month.
pub open spec fn days_in_month(year: int, month: int) -> int {
    if month == 2 {
        if is_leap(year) {
            29
        } else {
            28
        }
    } else if month == 4 || month == 6 || month == 9 || month == 11 {
        30
    } else {
        31
    }
}

/// The days of a year before its `month`.
pub open spec fn days_before_month(year: int, month: int) -> int
    decreases month,
{
    if month <= 1 {
        0
    } else {
        days_before_month(year, month - 1) + days_in_month(year, month - 1)
    }
}

/// The days from the start of 1970 to the start of `year`.
pub open spec fn days_before_year(year: int) -> int
    decreases year,
{
    if year <= 1970 {
        0
    } else {
        days_before_year(year - 1) + days_in_year(year - 1)
    }
}

/// `n` as two decimal digits.
pub open spec fn two_digits(n: int) -> Seq<char> {
    seq![text::digit(n / 10 % 10), text::digit(n % 10)]
}

/// A second of the calendar: a date, and how many seconds of its day have passed.
pub struct Civil {
    pub year: int,
    pub month: int,
    pub day: int,
    pub second: int,
}

/// The RFC 3339 text of a second of the calendar, in UTC.
pub open spec fn rfc3339(c: Civil) -> Seq<char> {
    two_digits(c.year / 100) + two_digits(c.year % 100) + "-"@ + two_digits(c.month) + "-"@
        + two_digits(c.day) + "T"@ + two_digits(c.second / 3600) + ":"@ + two_digits(
        c.second / 60 % 60,
    ) + ":"@ + two_digits(c.second % 60) + "Z"@
}

/// The days from the start of 1970 to a date.
pub open spec fn days_to(c: Civil) -> int {
    days_before_year(c.year) + days_before_month(c.year, c.month) + c.day - 1
}

/// Whether `c` is the second of the calendar that begins `secs` seconds after the
/// start of 1970.
pub open spec fn is_civil(secs: int, c: Civil) -> bool {
    &&& 1970 <= c.year <= 9999
    &&& 1 <= c.month <= 12
    &&& 1 <= c.day <= days_in_month(c.year, c.month)
    &&& days_to(c) == secs / 86400
    &&& c.second == secs % 86400
}

/// Whether `s` is the RFC 3339 text of the second that begins `secs` seconds after
/// the start of 1970.
pub open spec fn shows_time(secs: int, s: Seq<char>) -> bool {
    exists|c: Civil| #[trigger] is_civil(secs, c) && s == rfc3339(c)
}

/// The last second of the year 9999.
pub const LAST_SECOND: i64 = 253402300799;

/// [`time::OffsetDateTime`], whose contents are given by [`civil`].
#[verifier::external_type_specification]
#[verifier::external_body]
pub struct ExOffsetDateTime(time::OffsetDateTime);

/// [`std::time::SystemTime`], whose contents are given by [`since_epoch`].
#[verifier::external_type_specification]
#[verifier::external_body]
pub struct ExSystemTime(std::time::SystemTime);

/// The second of the calendar a time in UTC without a fraction stands for; nothing
/// for any other time.
pub uninterp spec fn civil(t: time::OffsetDateTime) -> Option<Civil>;

/// How many nanoseconds after the Unix epoch a system time is; nothing for one
/// before it.
pub uninterp spec fn since_epoch(t: std::time::SystemTime) -> Option<nat>;

/// The length of a span in nanoseconds.
pub uninterp spec fn span_nanos(d: std::time::Duration) -> nat;

/// Calls `time::OffsetDateTime::from_unix_timestamp`, which counts the seconds of
/// the proleptic Gregorian calendar in UTC and reaches to the end of the year 9999.
/// Stated for times from the epoch on.
#[verifier::external_body]
fn from_unix(secs: i64) -> (t: Option<time::OffsetDateTime>)
    requires
        0 <= secs,
    ensures
        t is Some <==> secs <= LAST_SECOND,
        t is Some ==> civil(t->0) is Some && is_civil(secs as int, civil(t->0)->0),
{
    time::OffsetDateTime::from_unix_timestamp(secs).ok()
}

/// Calls `time::OffsetDateTime::format` with
/// `time::format_description::well_known::Rfc3339`, which writes a year of four
/// digits, no fraction for a whole second and `Z` for UTC.
#[verifier::external_body]
fn format_utc(t: &time::OffsetDateTime) -> (s: Option<String>)
    requires
        civil(*t) is Some,
        1970 <= civil(*t)->0.year <= 9999,
    ensures
        s is Some,
        s->0@ == rfc3339(civil(*t)->0),
{
    t.format(&time::format_description::well_known::Rfc3339).ok()
}

/// Calls `std::time::SystemTime::now`. What it returns is up to the clock.
#[verifier::external_body]
fn system_now() -> (t: std::time::SystemTime) {
    std::time::SystemTime::now()
}

/// Calls `std::time::SystemTime::duration_since` with the Unix epoch, which is
/// refused for a time before it.
#[verifier::external_body]
fn after_epoch(t: &std::time::SystemTime) -> (d: Option<std::time::Duration>)
    ensures
        d is Some == since_epoch(*t) is Some,
        d is Some ==> span_nanos(d->0) == since_epoch(*t)->0,
{
    t.duration_since(std::time::UNIX_EPOCH).ok()
}

/// Calls `std::time::Duration::as_secs`: the whole seconds of a span.
#[verifier::external_body]
fn span_secs(d: &std::time::Duration) -> (secs: u64)
    ensures
        secs == span_nanos(*d) / 1_000_000_000,
{
    d.as_secs()
}

/// The whole seconds from the Unix epoch to a system time: none for one before it.
pub open spec fn unix_secs(t: std::time::SystemTime) -> nat {
    match since_epoch(t) {
        Some(nanos) => nanos / 1_000_000_000,
        None => 0,
    }
}

/// What a Unix time is shown as: one past the calendar's end is shown as the epoch.
pub open spec fn timestamp(secs: nat, s: Seq<char>) -> bool {
    if secs <= LAST_SECOND {
        shows_time(secs as int, s)
    } else {
        s == "1970-01-01T00:00:00Z"@
    }
}

/// Format a Unix time as RFC 3339 in UTC: `YYYY-MM-DDTHH:MM:SSZ`. One past the
/// calendar's end is shown as the epoch.
pub fn format_unix_secs(secs: u64) -> (s: String)
    ensures
        timestamp(secs as nat, s@),
{
    if secs <= LAST_SECOND as u64 {
        if let Some(at) = from_unix(secs as i64) {
            if let Some(s) = format_utc(&at) {
                return s;
            }
        }
    }
    "1970-01-01T00:00:00Z".to_string()
}

/// Format a system time as RFC 3339 in UTC at second precision. A time before the
/// epoch is shown as the epoch.
pub fn format_rfc3339_utc(t: std::time::SystemTime) -> (s: String)
    ensures
        timestamp(unix_secs(t), s@),
{
    match after_epoch(&t) {
        Some(d) => format_unix_secs(span_secs(&d)),
        None => format_unix_secs(0),
    }
}

/// The current time as RFC 3339 in UTC. To be called **once** per request or
/// response.
pub fn now_rfc3339() -> (s: String)
    ensures
        exists|t: std::time::SystemTime| timestamp(#[trigger] unix_secs(t), s@),
{
    format_rfc3339_utc(system_now())
}

/// What a value of the configuration stands for: `$literal:<v>` for `<v>`,
/// `$request_time` and `$response_time` for the timestamp, anything else for
/// itself.
pub open spec fn resolved(spec_text: Seq<char>, time: Seq<char>) -> Seq<char> {
    if "$literal:"@.is_prefix_of(spec_text) {
        spec_text.skip("$literal:"@.len() as int)
    } else if spec_text == "$request_time"@ || spec_text == "$response_time"@ {
        time
    } else {
        spec_text
    }
}

/// Executable form of [`resolved`].
pub fn resolve_value(spec_text: &str, time: &str) -> (s: String)
    ensures
        s@ == resolved(spec_text@, time@),
{
    match text::strip_prefix(spec_text, "$literal:") {
        Some(literal) => literal.to_string(),
        None => if text::eq(spec_text, "$request_time") || text::eq(spec_text, "$response_time") {
            time.to_string()
        } else {
            spec_text.to_string()
        },
    }
}

/// Law: `$literal:` is an escape: whatever follows it comes out unchanged, even if
/// it looks like a placeholder.
pub proof fn law_literal_escapes(v: Seq<char>, time: Seq<char>)
    ensures
        resolved("$literal:"@ + v, time) == v,
{
    let p = "$literal:"@;
    assert((p + v).subrange(0, p.len() as int) =~= p);
    assert((p + v).skip(p.len() as int) =~= v);
}

/// Law: what a configured value stands for: the two time placeholders for the
/// timestamp, and whatever does not begin with a dollar for itself.
pub proof fn law_value_placeholders(v: Seq<char>, time: Seq<char>)
    ensures
        resolved("$request_time"@, time) == time,
        resolved("$response_time"@, time) == time,
        v.len() == 0 || v[0] != '$' ==> resolved(v, time) == v,
{
    reveal_strlit("$literal:");
    reveal_strlit("$request_time");
    reveal_strlit("$response_time");
    let p = "$literal:"@;
    assert(p[0] == '$' && p[1] == 'l');
    assert("$request_time"@[0] == '$' && "$request_time"@[1] == 'r');
    assert("$response_time"@[0] == '$' && "$response_time"@[1] == 'r');
    if p.is_prefix_of("$request_time"@) {
        assert("$request_time"@.subrange(0, p.len() as int)[1] == 'r');
    }
    if p.is_prefix_of("$response_time"@) {
        assert("$response_time"@.subrange(0, p.len() as int)[1] == 'r');
    }
    if v.len() > 0 && p.is_prefix_of(v) {
        assert(v.subrange(0, p.len() as int)[0] == v[0]);
    }
    if v.len() == 0 {
        assert(v != "$request_time"@ && v != "$response_time"@);
    }
}

/// A month ends within its year, and before any later month.
proof fn lemma_months(year: int, month: int, later: int)
    requires
        1 <= month < later <= 13,
    ensures
        0 <= days_before_month(year, month),
        days_before_month(year, month) + days_in_month(year, month) <= days_before_month(
            year,
            later,
        ),
        days_before_month(year, 13) == days_in_year(year),
    decreases later - month,
{
    reveal_with_fuel(days_before_month, 14);
    if month + 1 < later {
        lemma_months(year, month + 1, later);
    }
}

/// A year ends before any later year.
proof fn lemma_years(year: int, later: int)
    requires
        1970 <= year < later,
    ensures
        days_before_year(year) + days_in_year(year) <= days_before_year(later),
    decreases later - year,
{
    if year + 1 < later {
        lemma_years(year, later - 1);
    }
}

/// A date of an earlier year or month comes before one of a later.
proof fn lemma_earlier_date(secs: int, a: Civil, b: Civil)
    requires
        is_civil(secs, a),
        is_civil(secs, b),
    ensures
        a.year >= b.year,
        a.year == b.year ==> a.month >= b.month,
{
    lemma_months(a.year, a.month, 13);
    lemma_months(b.year, b.month, 13);
    if a.year < b.year {
        lemma_years(a.year, b.year);
    } else if a.year == b.year && a.month < b.month {
        lemma_months(a.year, a.month, b.month);
    }
}

/// Law: a time has one text. Whatever is shown for a second is the same each time.
pub proof fn law_timestamp_is_unique(secs: nat, a: Seq<char>, b: Seq<char>)
    requires
        timestamp(secs, a),
        timestamp(secs, b),
    ensures
        a == b,
{
    if secs <= LAST_SECOND {
        let c = choose|c: Civil| #[trigger] is_civil(secs as int, c) && a == rfc3339(c);
        let d = choose|d: Civil| #[trigger] is_civil(secs as int, d) && b == rfc3339(d);
        lemma_earlier_date(secs as int, c, d);
        lemma_earlier_date(secs as int, d, c);
        assert(c == d);
    }
}

/// Law: every timestamp has the shape `YYYY-MM-DDTHH:MM:SSZ`.
pub proof fn law_timestamp_shape(secs: nat, s: Seq<char>)
    requires
        timestamp(secs, s),
    ensures
        s.len() == 20,
        s[4] == '-' && s[7] == '-' && s[10] == 'T' && s[13] == ':' && s[16] == ':' && s[19] == 'Z',
{
    reveal_strlit("1970-01-01T00:00:00Z");
    reveal_strlit("-");
    reveal_strlit("T");
    reveal_strlit(":");
    reveal_strlit("Z");
}

/// Law: a timestamp shows the hour, minute and second of its day, each in two digits,
/// and a time past the calendar's end is shown as its beginning.
pub proof fn law_timestamp_shows_the_time_of_day(secs: nat, s: Seq<char>)
    requires
        timestamp(secs, s),
    ensures
        secs <= 253402300799 ==> {
            let hour = secs as int / 3600 % 24;
            let minute = secs as int / 60 % 60;
            let second = secs as int % 60;
            &&& s[11] == text::digit(hour / 10) && s[12] == text::digit(hour % 10)
            &&& s[14] == text::digit(minute / 10) && s[15] == text::digit(minute % 10)
            &&& s[17] == text::digit(second / 10) && s[18] == text::digit(second % 10)
        },
        secs > 253402300799 ==> s == "1970-01-01T00:00:00Z"@,
{
    if secs <= LAST_SECOND {
        let c = choose|c: Civil| #[trigger] is_civil(secs as int, c) && s == rfc3339(c);
        lemma_clock_digits(c);
        lemma_time_of_day(secs as int);
    }
}

/// Where the time of day stands in a timestamp.
proof fn lemma_clock_digits(c: Civil)
    ensures
        rfc3339(c)[11] == text::digit(c.second / 3600 / 10 % 10),
        rfc3339(c)[12] == text::digit(c.second / 3600 % 10),
        rfc3339(c)[14] == text::digit(c.second / 60 % 60 / 10 % 10),
        rfc3339(c)[15] == text::digit(c.second / 60 % 60 % 10),
        rfc3339(c)[17] == text::digit(c.second % 60 / 10 % 10),
        rfc3339(c)[18] == text::digit(c.second % 60 % 10),
{
    reveal_strlit("-");
    reveal_strlit("T");
    reveal_strlit(":");
    reveal_strlit("Z");
    let (h, m, s) = (c.second / 3600, c.second / 60 % 60, c.second % 60);
    let date = two_digits(c.year / 100) + two_digits(c.year % 100) + "-"@ + two_digits(c.month)
        + "-"@ + two_digits(c.day) + "T"@;
    assert(date.len() == 11);
    assert(rfc3339(c) == date + two_digits(h) + ":"@ + two_digits(m) + ":"@ + two_digits(s) + "Z"@);
}

/// The time of day of a second since the epoch.
proof fn lemma_time_of_day(n: int)
    requires
        0 <= n,
    ensures
        n % 86400 / 3600 == n / 3600 % 24,
        n % 86400 / 60 % 60 == n / 60 % 60,
        n % 86400 % 60 == n % 60,
        0 <= n / 3600 % 24 < 24,
{
    let q = n / 86400;
    let r = n % 86400;
    assert(n == 86400 * q + r);
    assert(n / 3600 == 24 * q + r / 3600);
    assert(n / 60 == 1440 * q + r / 60);
    assert((1440 * q + r / 60) % 60 == (r / 60) % 60);
}

} // verus!
