use vstd::prelude::*;

use chrono::Datelike;

verus! {

/// The UTC calendar day that a stored timestamp falls on, formatted
/// `YYYY-MM-DD`; nothing when the text is not a valid timestamp. The result
/// is a function of the text alone.
pub uninterp spec fn rfc3339_day_of(s: Seq<char>) -> Option<Seq<char>>;

/// Relies on chrono: `str::parse::<DateTime<Utc>>` and
/// `DateTime::format("%Y-%m-%d")`. Parsing either fails or yields a date,
/// deterministically from the text alone.
#[verifier::external_body]
pub(crate) fn parse_rfc3339_day(s: &str) -> (r: Option<String>)
    ensures
        match r {
            Some(d) => rfc3339_day_of(s@) == Some(d@),
            None => rfc3339_day_of(s@) is None,
        },
{
    match s.parse::<chrono::DateTime<chrono::Utc>>() {
        Ok(t) => Some(t.format("%Y-%m-%d").to_string()),
        Err(_) => None,
    }
}

/// The key under which a day number (days from the common era, day 1 being
/// 0001-01-01) falls, formatted `YYYY-MM-DD`.
pub uninterp spec fn day_key_of(n: int) -> Seq<char>;

/// 0001-01-01.
pub const MIN_DAY_NUMBER: i64 = 1;

/// 9999-12-31.
pub const MAX_DAY_NUMBER: i64 = 3652059;

/// Relies on chrono: `NaiveDate::from_num_days_from_ce_opt` (day 1 is
/// 0001-01-01; every day number admitted here is a real date) and
/// `format("%Y-%m-%d")` (year zero-padded to four digits, month and day to
/// two). Keys in the admitted range have fixed width, so a later day always
/// formats to a lexicographically larger key.
#[verifier::external_body]
pub(crate) fn day_key_of_day_number(n: i64) -> (r: String)
    requires
        MIN_DAY_NUMBER <= n <= MAX_DAY_NUMBER,
    ensures
        r@ == day_key_of(n as int),
        r@.len() == 10,
        forall|m: int| MIN_DAY_NUMBER <= m < n ==> crate::text::lex_lt(day_key_of(m), r@),
{
    let d = chrono::NaiveDate::from_num_days_from_ce_opt(n as i32).expect(
        "a day number between 0001-01-01 and 9999-12-31 is a date",
    );
    d.format("%Y-%m-%d").to_string()
}

/// Relies on chrono: `DateTime::<Utc>::from(SystemTime::now())` (which,
/// unlike `Utc::now`, handles a clock set before the Unix epoch) and
/// `num_days_from_ce`. The value depends on the clock, but chrono dates lie
/// within about 262,000 years of the common era either way.
#[verifier::external_body]
pub(crate) fn today_day_number() -> (r: i64)
    ensures
        -100_000_000 <= r <= 100_000_000,
{
    let now = chrono::DateTime::<chrono::Utc>::from(std::time::SystemTime::now());
    i64::from(now.date_naive().num_days_from_ce())
}

/// Relies on chrono: `DateTime::<Utc>::from(SystemTime::now())` (which,
/// unlike `Utc::now`, handles a clock set before the Unix epoch) and
/// `to_rfc3339`. The value depends on the clock; an RFC 3339 timestamp with
/// an offset is never shorter than this.
#[verifier::external_body]
pub(crate) fn now_rfc3339() -> (r: String)
    ensures
        r@.len() >= 20,
{
    chrono::DateTime::<chrono::Utc>::from(std::time::SystemTime::now()).to_rfc3339()
}

/// Relies on uuid: `Uuid::new_v4().to_string()`. The value is random; its
/// hyphenated textual form is always 36 characters.
#[verifier::external_body]
pub(crate) fn fresh_session_id() -> (r: String)
    ensures
        r@.len() == 36,
{
    uuid::Uuid::new_v4().to_string()
}

} // verus!
