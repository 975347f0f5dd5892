//! Days of the week and checkpoint timestamps.
//!
//! A `Timestamp` keeps the RFC 3339 text it was read from together with the
//! instant that text denotes, in milliseconds since the Unix epoch. The text
//! is what the event log stores; the milliseconds drive the scheduling
//! arithmetic. Time-zone-dependent questions (the local weekday of an
//! instant) go through chrono and are treated as free of any promise.

use vstd::prelude::*;
use vstd::string::StrSliceExecFns;

use crate::chars::is_space;
use crate::parse_util::{leading_spaces, trailing_spaces};

verus! {

#[derive(Clone, Copy, Debug, PartialEq, Eq, Structural)]
pub enum Weekday {
    Mon,
    Tue,
    Wed,
    Thu,
    Fri,
    Sat,
    Sun,
}

pub open spec fn weekday_succ(w: Weekday) -> Weekday {
    match w {
        Weekday::Mon => Weekday::Tue,
        Weekday::Tue => Weekday::Wed,
        Weekday::Wed => Weekday::Thu,
        Weekday::Thu => Weekday::Fri,
        Weekday::Fri => Weekday::Sat,
        Weekday::Sat => Weekday::Sun,
        Weekday::Sun => Weekday::Mon,
    }
}

impl Weekday {
    /// The day after this one.
    pub fn succ(self) -> (r: Weekday)
        ensures
            r == weekday_succ(self),
    {
        match self {
            Weekday::Mon => Weekday::Tue,
            Weekday::Tue => Weekday::Wed,
            Weekday::Wed => Weekday::Thu,
            Weekday::Thu => Weekday::Fri,
            Weekday::Fri => Weekday::Sat,
            Weekday::Sat => Weekday::Sun,
            Weekday::Sun => Weekday::Mon,
        }
    }
}

/// The instant, in milliseconds since the Unix epoch, that an RFC 3339
/// date-and-time string denotes, or `None` when the string is not one.
/// Named for the result of chrono's `DateTime::parse_from_rfc3339` followed
/// by `DateTime::timestamp_millis`; it depends on the string alone.
pub uninterp spec fn rfc3339_millis(s: Seq<char>) -> Option<i64>;

/// Relies on chrono's `DateTime::parse_from_rfc3339` (parses exactly the
/// RFC 3339 date-and-time strings) and `DateTime::timestamp_millis` (the
/// denoted instant in non-leap-milliseconds since the Unix epoch); both
/// results depend on the input string alone.
#[verifier::external_body]
fn parse_rfc3339_to_millis(text: &str) -> (r: Option<i64>)
    ensures
        r == rfc3339_millis(text@),
{
    chrono::DateTime::parse_from_rfc3339(text).ok().map(|dt| dt.timestamp_millis())
}

/// Relies on chrono's `DateTime::from_timestamp_millis`, `with_timezone` and
/// `Datelike::weekday`: some weekday of the given instant in the machine's
/// local time zone. Nothing is promised of the result — the local time zone
/// is the machine's affair. Instants out of chrono's range fall back to the
/// Unix epoch.
#[verifier::external_body]
pub(crate) fn local_weekday_of_millis(millis: i64) -> Weekday {
    let dt = chrono::DateTime::from_timestamp_millis(millis).unwrap_or_default();
    match chrono::Datelike::weekday(&dt.with_timezone(&chrono::Local)) {
        chrono::Weekday::Mon => Weekday::Mon,
        chrono::Weekday::Tue => Weekday::Tue,
        chrono::Weekday::Wed => Weekday::Wed,
        chrono::Weekday::Thu => Weekday::Thu,
        chrono::Weekday::Fri => Weekday::Fri,
        chrono::Weekday::Sat => Weekday::Sat,
        chrono::Weekday::Sun => Weekday::Sun,
    }
}

/// Timestamp text as the event log may store it: non-empty, a single line,
/// and with no surrounding whitespace, so that writing it out and reading the
/// line back recovers the same text.
pub open spec fn ts_text_ok(t: Seq<char>) -> bool {
    &&& t.len() > 0
    &&& leading_spaces(t) == 0
    &&& trailing_spaces(t) == 0
    &&& forall|i: int| 0 <= i < t.len() ==> t[i] != '\n'
}

/// A checkpoint timestamp: valid RFC 3339 text and the instant it denotes.
pub open spec fn ts_wf(text: Seq<char>, millis: i64) -> bool {
    &&& ts_text_ok(text)
    &&& rfc3339_millis(text) == Some(millis)
}

/// A point in time read from, or destined for, an event log.
#[derive(Debug, PartialEq)]
pub struct Timestamp {
    text: String,
    millis: i64,
}

impl Timestamp {
    #[verifier::type_invariant]
    spec fn inv(self) -> bool {
        ts_wf(self.text@, self.millis)
    }

    pub closed spec fn text_view(self) -> Seq<char> {
        self.text@
    }

    pub closed spec fn millis_view(self) -> i64 {
        self.millis
    }

    /// Parse an RFC 3339 date-and-time string. Returns `None` exactly when
    /// the text is not a single-line, unpadded, valid RFC 3339 string.
    pub fn from_rfc3339(text: &str) -> (r: Option<Timestamp>)
        ensures
            r is Some <==> (ts_text_ok(text@) && rfc3339_millis(text@) is Some),
            r is Some ==> r->0.text_view() == text@ && Some(r->0.millis_view()) == rfc3339_millis(
                text@,
            ),
    {
        let n = text.unicode_len();
        if n == 0 {
            return None;
        }
        if is_space(text.get_char(0)) {
            return None;
        }
        if is_space(text.get_char(n - 1)) {
            assert(trailing_spaces(text@) > 0);
            return None;
        }
        let mut i: usize = 0;
        while i < n
            invariant
                0 <= i <= n,
                n == text@.len(),
                forall|j: int| 0 <= j < i ==> text@[j] != '\n',
            decreases n - i,
        {
            if text.get_char(i) == '\n' {
                return None;
            }
            i = i + 1;
        }
        assert(ts_text_ok(text@));
        match parse_rfc3339_to_millis(text) {
            Some(ms) => Some(Timestamp { text: text.to_owned(), millis: ms }),
            None => None,
        }
    }

    /// The instant, in milliseconds since the Unix epoch.
    pub fn millis(&self) -> (ms: i64)
        ensures
            ms == self.millis_view(),
    {
        self.millis
    }

    /// The RFC 3339 text this timestamp was built from.
    pub fn as_rfc3339(&self) -> (t: &String)
        ensures
            t@ == self.text_view(),
    {
        &self.text
    }

    /// Every timestamp value satisfies the pair of facts its constructor
    /// established.
    pub fn holds_wf(&self)
        ensures
            ts_wf(self.text_view(), self.millis_view()),
    {
        proof {
            use_type_invariant(self);
        }
    }
}

impl Clone for Timestamp {
    fn clone(&self) -> (r: Self)
        ensures
            r == *self,
    {
        proof {
            use_type_invariant(self);
        }
        let r = Timestamp { text: self.text.clone(), millis: self.millis };
        assert(r == *self);
        r
    }
}

} // verus!
