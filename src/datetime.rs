//! Expiry timestamps: lenient RFC 3339 on input, one canonical form on output.
use vstd::prelude::*;
use chrono::{Datelike, Timelike};
use crate::error::Error;

verus! {

/// An instant in UTC, to the second.
#[derive(Clone, Copy, Debug, PartialEq, Eq, Structural)]
pub struct DateTime {
    pub year: i32,
    pub month: u32,
    pub day: u32,
    pub hour: u32,
    pub minute: u32,
    pub second: u32,
}

pub open spec fn is_leap_year(y: int) -> bool {
    y % 4 == 0 && (y % 100 != 0 || y % 400 == 0)
}

pub open spec fn days_in_month(y: int, m: int) -> int {
    if m == 2 {
        if is_leap_year(y) {
            29
        } else {
            28
        }
    } else if m == 4 || m == 6 || m == 9 || m == 11 {
        30
    } else {
        31
    }
}

/// The fields name a real calendar date and time of day (seconds 0 to 59).
pub open spec fn fields_valid(f: (i32, u32, u32, u32, u32, u32)) -> bool {
    &&& 1 <= f.1 <= 12
    &&& 1 <= f.2 <= days_in_month(f.0 as int, f.1 as int)
    &&& f.3 <= 23
    &&& f.4 <= 59
    &&& f.5 <= 59
}

/// The fields of a timestamp.
pub open spec fn fields_of(t: DateTime) -> (i32, u32, u32, u32, u32, u32) {
    (t.year, t.month, t.day, t.hour, t.minute, t.second)
}

/// The UTC fields of the instant that chrono reads from an RFC 3339 text,
/// or `None` where chrono rejects the text.
pub uninterp spec fn rfc3339_utc(s: Seq<char>) -> Option<(i32, u32, u32, u32, u32, u32)>;

impl DateTime {
    /// A valid timestamp whose year takes four digits.
    pub open spec fn wf(&self) -> bool {
        fields_valid(fields_of(*self)) && 0 <= self.year <= 9999
    }
}

pub open spec fn digit_char(d: int) -> char {
    if d == 0 {
        '0'
    } else if d == 1 {
        '1'
    } else if d == 2 {
        '2'
    } else if d == 3 {
        '3'
    } else if d == 4 {
        '4'
    } else if d == 5 {
        '5'
    } else if d == 6 {
        '6'
    } else if d == 7 {
        '7'
    } else if d == 8 {
        '8'
    } else {
        '9'
    }
}

/// `n` in two decimal digits.
pub open spec fn pad2(n: int) -> Seq<char> {
    seq![digit_char(n / 10), digit_char(n % 10)]
}

/// `n` in four decimal digits.
pub open spec fn pad4(n: int) -> Seq<char> {
    seq![digit_char(n / 1000), digit_char((n / 100) % 10), digit_char((n / 10) % 10), digit_char(n % 10)]
}

/// The canonical text `YYYY-MM-DDTHH:MM:SSZ` of a field tuple.
pub open spec fn canonical_text(f: (i32, u32, u32, u32, u32, u32)) -> Seq<char> {
    pad4(f.0 as int) + seq!['-'] + pad2(f.1 as int) + seq!['-'] + pad2(f.2 as int) + seq!['T']
        + pad2(f.3 as int) + seq![':'] + pad2(f.4 as int) + seq![':'] + pad2(f.5 as int) + seq!['Z']
}

/// chrono's parse failure, carried through unread.
#[verifier::external_type_specification]
#[verifier::external_body]
pub struct ExParseError(chrono::ParseError);

/// Relies on chrono's `DateTime::parse_from_rfc3339`, with the instant taken
/// to UTC: it reads what RFC 3339 allows (any fraction of a second, `Z` or a
/// numeric offset), yields a valid date and time of day, and reads the
/// canonical `Z` form of a valid four-digit-year instant as exactly its fields.
#[verifier::external_body]
fn parse_rfc3339_utc(ts: &str) -> (r: Result<(i32, u32, u32, u32, u32, u32), chrono::ParseError>)
    ensures
        r is Ok <==> rfc3339_utc(ts@) is Some,
        r is Ok ==> r->Ok_0 == rfc3339_utc(ts@)->0 && fields_valid(r->Ok_0),
        forall|f: (i32, u32, u32, u32, u32, u32)|
            fields_valid(f) && 0 <= f.0 <= 9999 && ts@ == canonical_text(f) ==> r is Ok && r->Ok_0 == f,
{
    match chrono::DateTime::parse_from_rfc3339(ts) {
        Ok(t) => {
            let u = t.with_timezone(&chrono::Utc);
            Ok((u.year(), u.month(), u.day(), u.hour(), u.minute(), u.second()))
        },
        Err(e) => Err(e),
    }
}

impl DateTime {
    /// Whether this is a valid timestamp whose year takes four digits.
    pub fn is_wf(&self) -> (r: bool)
        ensures
            r == self.wf(),
    {
        if self.year < 0 || self.year > 9999 || self.month < 1 || self.month > 12 {
            return false;
        }
        let y = self.year as u32;
        let leap = y % 4 == 0 && (y % 100 != 0 || y % 400 == 0);
        let days: u32 = if self.month == 2 {
            if leap {
                29
            } else {
                28
            }
        } else if self.month == 4 || self.month == 6 || self.month == 9 || self.month == 11 {
            30
        } else {
            31
        };
        assert(leap == is_leap_year(self.year as int));
        1 <= self.day && self.day <= days && self.hour <= 23 && self.minute <= 59 && self.second <= 59
    }
}

/// The year of a parse result.
pub open spec fn year_of(o: Option<(i32, u32, u32, u32, u32, u32)>) -> int {
    (o->0).0 as int
}

/// The failure that `parse_datetime` reports for `ts`.
pub open spec fn is_malformed_timestamp(e: Error, ts: Seq<char>) -> bool {
    match e {
        Error::MalformedTimestamp { text } => text@ == ts,
        _ => false,
    }
}

/// Reads an expiry timestamp: any RFC 3339 text, normalised to UTC, whose
/// UTC year takes four digits. The fraction of a second is dropped.
pub fn parse_datetime(ts: &str) -> (r: Result<DateTime, Error>)
    ensures
        r is Ok <==> (rfc3339_utc(ts@) is Some && 0 <= year_of(rfc3339_utc(ts@)) <= 9999),
        r is Ok ==> fields_of(r->Ok_0) == rfc3339_utc(ts@)->0 && r->Ok_0.wf(),
        r is Err ==> is_malformed_timestamp(r->Err_0, ts@),
        forall|t: DateTime| t.wf() && ts@ == canonical_text(fields_of(t)) ==> r is Ok && r->Ok_0 == t,
{
    match parse_rfc3339_utc(ts) {
        Ok(f) => {
            if 0 <= f.0 && f.0 <= 9999 {
                let t = DateTime { year: f.0, month: f.1, day: f.2, hour: f.3, minute: f.4, second: f.5 };
                proof {
                    assert forall|u: DateTime| u.wf() && ts@ == canonical_text(fields_of(u)) implies u == t by {
                        assert(fields_of(u) == f);
                    }
                }
                Ok(t)
            } else {
                Err(Error::MalformedTimestamp { text: ts.to_owned() })
            }
        },
        Err(_) => Err(Error::MalformedTimestamp { text: ts.to_owned() }),
    }
}

fn digit_str(d: u32) -> (r: &'static str)
    requires
        d < 10,
    ensures
        r@ == seq![digit_char(d as int)],
{
    proof {
        reveal_strlit("0");
        reveal_strlit("1");
        reveal_strlit("2");
        reveal_strlit("3");
        reveal_strlit("4");
        reveal_strlit("5");
        reveal_strlit("6");
        reveal_strlit("7");
        reveal_strlit("8");
        reveal_strlit("9");
    }
    if d == 0 {
        "0"
    } else if d == 1 {
        "1"
    } else if d == 2 {
        "2"
    } else if d == 3 {
        "3"
    } else if d == 4 {
        "4"
    } else if d == 5 {
        "5"
    } else if d == 6 {
        "6"
    } else if d == 7 {
        "7"
    } else if d == 8 {
        "8"
    } else {
        "9"
    }
}

fn push_pad2(s: &mut String, n: u32)
    requires
        n < 100,
    ensures
        final(s)@ == old(s)@ + pad2(n as int),
{
    s.append(digit_str(n / 10));
    s.append(digit_str(n % 10));
    assert(final(s)@ =~= old(s)@ + pad2(n as int));
}

fn push_char(s: &mut String, c: char)
    requires
        c == '-' || c == 'T' || c == ':' || c == 'Z',
    ensures
        final(s)@ == old(s)@ + seq![c],
{
    proof {
        reveal_strlit("-");
        reveal_strlit("T");
        reveal_strlit(":");
        reveal_strlit("Z");
    }
    if c == '-' {
        s.append("-");
    } else if c == 'T' {
        s.append("T");
    } else if c == ':' {
        s.append(":");
    } else {
        s.append("Z");
    }
}

/// Writes a timestamp in the canonical form `YYYY-MM-DDTHH:MM:SSZ`.
pub fn format_datetime(ts: &DateTime) -> (r: String)
    requires
        ts.wf(),
    ensures
        r@ == canonical_text(fields_of(*ts)),
{
    let y = ts.year as u32;
    let mut s = String::new();
    s.append(digit_str(y / 1000));
    s.append(digit_str((y / 100) % 10));
    s.append(digit_str((y / 10) % 10));
    s.append(digit_str(y % 10));
    assert(s@ =~= pad4(ts.year as int));
    push_char(&mut s, '-');
    push_pad2(&mut s, ts.month);
    push_char(&mut s, '-');
    push_pad2(&mut s, ts.day);
    push_char(&mut s, 'T');
    push_pad2(&mut s, ts.hour);
    push_char(&mut s, ':');
    push_pad2(&mut s, ts.minute);
    push_char(&mut s, ':');
    push_pad2(&mut s, ts.second);
    push_char(&mut s, 'Z');
    assert(s@ =~= canonical_text(fields_of(*ts)));
    s
}

} // verus!
