//! A point in time in UTC, held as calendar fields, and its text forms.
use vstd::prelude::*;
use chrono::{DateTime, Datelike, NaiveDate, Timelike};
use std::time::{SystemTime, UNIX_EPOCH};
use crate::digits::{all_digits, digits_value, padded, pow10, lemma_padded};
use crate::text::{push_char, push_padded};

verus! {

/// A calendar instant in UTC, to the nanosecond, in the years `0..=9999`
/// (the range that a four-digit RFC 3339 year covers).
#[derive(Clone, Copy, Debug, PartialEq, Eq, Structural)]
pub struct Timestamp {
    pub year: u32,
    pub month: u32,
    pub day: u32,
    pub hour: u32,
    pub minute: u32,
    pub second: u32,
    pub nanosecond: u32,
}

pub open spec fn is_leap_year(y: int) -> bool {
    (y % 4 == 0 && y % 100 != 0) || y % 400 == 0
}

pub open spec fn days_in_month(y: int, m: int) -> int {
    if m == 2 {
        if is_leap_year(y) {
            29
        } else {
            28
        }
    } else if m == 4 || m == 6 || m == 9 || m == 11 {
        30
    } else {
        31
    }
}

/// The fields name an existing instant.
pub open spec fn valid_fields(
    year: int,
    month: int,
    day: int,
    hour: int,
    minute: int,
    second: int,
    nanosecond: int,
) -> bool {
    &&& 0 <= year <= 9999
    &&& 1 <= month <= 12
    &&& 1 <= day <= days_in_month(year, month)
    &&& 0 <= hour < 24
    &&& 0 <= minute < 60
    &&& 0 <= second < 60
    &&& 0 <= nanosecond < 1_000_000_000
}

/// The digits of a non-zero fraction of a second as chrono writes them:
/// 3, 6 or 9 digits, the fewest that hold it exactly.
pub open spec fn fraction_digits(ns: nat) -> Seq<char> {
    if ns % 1_000_000 == 0 {
        padded(ns / 1_000_000, 3)
    } else if ns % 1000 == 0 {
        padded(ns / 1000, 6)
    } else {
        padded(ns, 9)
    }
}

/// What one unit of a fraction written with `w` digits is worth in
/// nanoseconds.
pub open spec fn fraction_scale(w: nat) -> nat {
    if w == 3 {
        1_000_000
    } else if w == 6 {
        1000
    } else {
        1
    }
}

/// The fraction of a second as chrono writes it: nothing for zero, else a
/// point and its digits.
pub open spec fn fraction_text(ns: nat) -> Seq<char> {
    if ns == 0 {
        Seq::empty()
    } else {
        seq!['.'] + fraction_digits(ns)
    }
}

pub proof fn lemma_fraction_digits(ns: nat)
    requires
        0 < ns < 1_000_000_000,
    ensures
        all_digits(fraction_digits(ns)),
        fraction_digits(ns).len() == 3 || fraction_digits(ns).len() == 6 || fraction_digits(
            ns,
        ).len() == 9,
        ns == digits_value(fraction_digits(ns)) * fraction_scale(fraction_digits(ns).len()),
{
    reveal_with_fuel(pow10, 10);
    assert(pow10(3) == 1000);
    assert(pow10(6) == 1_000_000);
    assert(pow10(9) == 1_000_000_000);
    if ns % 1_000_000 == 0 {
        lemma_padded(ns / 1_000_000, 3);
    } else if ns % 1000 == 0 {
        lemma_padded(ns / 1000, 6);
    } else {
        lemma_padded(ns, 9);
    }
}

/// How chrono displays this instant as a `DateTime<Utc>`:
/// `YYYY-MM-DD HH:MM:SS[.fraction] UTC`.
pub open spec fn utc_display(t: Timestamp) -> Seq<char> {
    padded(t.year as nat, 4) + seq!['-'] + padded(t.month as nat, 2) + seq!['-'] + padded(
        t.day as nat,
        2,
    ) + seq![' '] + padded(t.hour as nat, 2) + seq![':'] + padded(t.minute as nat, 2) + seq![':']
        + padded(t.second as nat, 2) + fraction_text(t.nanosecond as nat) + seq![' ', 'U', 'T', 'C']
}

/// Relies on chrono's `NaiveDate::from_ymd_opt`, `and_hms_nano_opt`, `and_utc`
/// and `Display for DateTime<Utc>` (the `Debug` forms of `NaiveDate` and
/// `NaiveTime`, a space, then `UTC`). Both constructors return `Some` for the
/// fields that `wf` admits, which are in the years 0..=9999 and hold no leap
/// second.
#[verifier::external_body]
fn display_utc(t: &Timestamp) -> (r: String)
    requires
        t.wf(),
    ensures
        r@ == utc_display(*t),
{
    match NaiveDate::from_ymd_opt(t.year as i32, t.month, t.day) {
        Some(d) => match d.and_hms_nano_opt(t.hour, t.minute, t.second, t.nanosecond) {
            Some(dt) => dt.and_utc().to_string(),
            None => String::new(),
        },
        None => String::new(),
    }
}

/// Relies on `SystemTime::now` measured from `UNIX_EPOCH`, and on chrono's
/// `DateTime::from_timestamp` and field getters: the calendar fields of the
/// current instant, or `None` where the clock reads before 1970 or beyond
/// chrono's range. Nothing is known of the values.
#[verifier::external_body]
fn clock_fields() -> (r: Option<(i32, u32, u32, u32, u32, u32, u32)>) {
    let d = match SystemTime::now().duration_since(UNIX_EPOCH) {
        Ok(d) => d,
        Err(_) => return None,
    };
    let secs = match i64::try_from(d.as_secs()) {
        Ok(s) => s,
        Err(_) => return None,
    };
    match DateTime::from_timestamp(secs, d.subsec_nanos()) {
        Some(t) => Some((t.year(), t.month(), t.day(), t.hour(), t.minute(), t.second(), t.nanosecond())),
        None => None,
    }
}

impl Timestamp {
    pub open spec fn wf(&self) -> bool {
        valid_fields(
            self.year as int,
            self.month as int,
            self.day as int,
            self.hour as int,
            self.minute as int,
            self.second as int,
            self.nanosecond as int,
        )
    }

    /// The instant with these fields, where they name one.
    pub fn new(
        year: i32,
        month: u32,
        day: u32,
        hour: u32,
        minute: u32,
        second: u32,
        nanosecond: u32,
    ) -> (r: Option<Timestamp>)
        ensures
            valid_fields(
                year as int,
                month as int,
                day as int,
                hour as int,
                minute as int,
                second as int,
                nanosecond as int,
            ) <==> r is Some,
            r matches Some(t) ==> t.wf() && t.year == year && t.month == month && t.day == day
                && t.hour == hour && t.minute == minute && t.second == second && t.nanosecond
                == nanosecond,
    {
        if year < 0 || year > 9999 || month < 1 || month > 12 || hour >= 24 || minute >= 60
            || second >= 60 || nanosecond >= 1_000_000_000 {
            return None;
        }
        let leap = (year % 4 == 0 && year % 100 != 0) || year % 400 == 0;
        let dim: u32 = if month == 2 {
            if leap {
                29
            } else {
                28
            }
        } else if month == 4 || month == 6 || month == 9 || month == 11 {
            30
        } else {
            31
        };
        if day < 1 || day > dim {
            return None;
        }
        Some(
            Timestamp {
                year: year as u32,
                month,
                day,
                hour,
                minute,
                second,
                nanosecond,
            },
        )
    }

    /// 1970-01-01T00:00:00Z.
    pub fn epoch() -> (r: Timestamp)
        ensures
            r.wf(),
            r.year == 1970 && r.month == 1 && r.day == 1 && r.hour == 0 && r.minute == 0
                && r.second == 0 && r.nanosecond == 0,
    {
        Timestamp { year: 1970, month: 1, day: 1, hour: 0, minute: 0, second: 0, nanosecond: 0 }
    }

    /// The current instant. `None` where the clock reads before 1970, after
    /// the year 9999, or in a leap second.
    pub fn now() -> (r: Option<Timestamp>)
        ensures
            r matches Some(t) ==> t.wf(),
    {
        match clock_fields() {
            Some((y, mo, d, h, mi, s, ns)) => Timestamp::new(y, mo, d, h, mi, s, ns),
            None => None,
        }
    }

    /// The RFC 3339 text `YYYY-MM-DDTHH:MM:SS[.fraction]Z`, as chrono's
    /// serialisation writes it.
    pub open spec fn rfc3339(self) -> Seq<char> {
        padded(self.year as nat, 4) + seq!['-'] + padded(self.month as nat, 2) + seq!['-']
            + padded(self.day as nat, 2) + seq!['T'] + padded(self.hour as nat, 2) + seq![':']
            + padded(self.minute as nat, 2) + seq![':'] + padded(self.second as nat, 2)
            + fraction_text(self.nanosecond as nat) + seq!['Z']
    }

    /// The text that chrono gives this instant; part of a block's header.
    pub fn display(&self) -> (r: String)
        requires
            self.wf(),
        ensures
            r@ == utc_display(*self),
    {
        display_utc(self)
    }

    /// Appends the RFC 3339 text.
    pub fn push_rfc3339(&self, s: &mut String)
        ensures
            final(s)@ == old(s)@ + self.rfc3339(),
    {
        push_padded(s, self.year, 4);
        push_char(s, '-');
        push_padded(s, self.month, 2);
        push_char(s, '-');
        push_padded(s, self.day, 2);
        push_char(s, 'T');
        push_padded(s, self.hour, 2);
        push_char(s, ':');
        push_padded(s, self.minute, 2);
        push_char(s, ':');
        push_padded(s, self.second, 2);
        push_fraction(s, self.nanosecond);
        push_char(s, 'Z');
        assert(final(s)@ =~= old(s)@ + self.rfc3339());
    }
}

/// Appends the fraction of a second as chrono writes it.
fn push_fraction(s: &mut String, ns: u32)
    ensures
        final(s)@ == old(s)@ + fraction_text(ns as nat),
{
    if ns == 0 {
        assert(final(s)@ =~= old(s)@ + fraction_text(ns as nat));
    } else {
        push_char(s, '.');
        if ns % 1_000_000 == 0 {
            push_padded(s, ns / 1_000_000, 3);
        } else if ns % 1000 == 0 {
            push_padded(s, ns / 1000, 6);
        } else {
            push_padded(s, ns, 9);
        }
        assert(final(s)@ =~= old(s)@ + fraction_text(ns as nat));
    }
}

pub proof fn lemma_rfc3339_len(t: Timestamp)
    requires
        t.wf(),
    ensures
        t.rfc3339().len() == 20 + fraction_text(t.nanosecond as nat).len(),
        t.rfc3339().len() <= 30,
{
    lemma_fields_padded(t);
    if t.nanosecond > 0 {
        lemma_fraction_digits(t.nanosecond as nat);
    }
}

pub proof fn lemma_fields_padded(t: Timestamp)
    requires
        t.wf(),
    ensures
        digits_value(padded(t.year as nat, 4)) == t.year && padded(t.year as nat, 4).len() == 4,
        digits_value(padded(t.month as nat, 2)) == t.month && padded(t.month as nat, 2).len() == 2,
        digits_value(padded(t.day as nat, 2)) == t.day && padded(t.day as nat, 2).len() == 2,
        digits_value(padded(t.hour as nat, 2)) == t.hour && padded(t.hour as nat, 2).len() == 2,
        digits_value(padded(t.minute as nat, 2)) == t.minute && padded(t.minute as nat, 2).len()
            == 2,
        digits_value(padded(t.second as nat, 2)) == t.second && padded(t.second as nat, 2).len()
            == 2,
        digits_value(padded(t.nanosecond as nat, 9)) == t.nanosecond && padded(
            t.nanosecond as nat,
            9,
        ).len() == 9,
        all_digits(padded(t.year as nat, 4)),
        all_digits(padded(t.month as nat, 2)),
        all_digits(padded(t.day as nat, 2)),
        all_digits(padded(t.hour as nat, 2)),
        all_digits(padded(t.minute as nat, 2)),
        all_digits(padded(t.second as nat, 2)),
        all_digits(padded(t.nanosecond as nat, 9)),
{
    reveal_with_fuel(pow10, 10);
    assert(pow10(2) == 100);
    assert(pow10(4) == 10000);
    assert(pow10(9) == 1_000_000_000);
    lemma_padded(t.year as nat, 4);
    lemma_padded(t.month as nat, 2);
    lemma_padded(t.day as nat, 2);
    lemma_padded(t.hour as nat, 2);
    lemma_padded(t.minute as nat, 2);
    lemma_padded(t.second as nat, 2);
    lemma_padded(t.nanosecond as nat, 9);
}

} // verus!
