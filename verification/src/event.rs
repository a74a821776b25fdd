//! Events: a summary, a day, and possibly a time and a place.

use crate::calendar::{CivilDate, CivilDateTime, CivilTime};
use crate::error::EventParseError;
use crate::temporal::{find_datetime, found_datetime, DateTimeMatch};
use crate::text::{
    is_match, pattern_found, str_eq, trim, trim_start, trim_start_matches, trimmed,
    trimmed_start, without_leading,
};
use vstd::prelude::*;
use vstd::string::*;
use vstd::utf8::*;

verus! {

/// The span of time of `jiff`. A span is carried along and never looked
/// into.
#[verifier::external_type_specification]
#[verifier::external_body]
pub struct ExSpan(jiff::Span);

/// Represents a parsed event
#[derive(Debug)]
pub struct NewEvent {
    /// Summary of the parsed event
    pub summary: String,
    /// The day on which the event takes place
    pub date: CivilDate,
    /// When on that day the event takes place, not mandatory
    pub time: Option<CivilTime>,
    /// Where the event takes place, not mandatory
    pub location: Option<String>,
    /// For how long the event goes on, not mandatory
    pub duration: Option<jiff::Span>,
}

/// What an event holds.
pub struct NewEventView {
    pub summary: Seq<char>,
    pub date: CivilDate,
    pub time: Option<CivilTime>,
    pub location: Option<Seq<char>>,
    pub duration: Option<jiff::Span>,
}

impl View for NewEvent {
    type V = NewEventView;

    open spec fn view(&self) -> NewEventView {
        NewEventView {
            summary: self.summary@,
            date: self.date,
            time: self.time,
            location: match self.location {
                Some(location) => Some(location@),
                None => None,
            },
            duration: self.duration,
        }
    }
}

/// The regular expression that text has to match to be taken as a location:
/// an at sign, a comma, a bar or a space, then white space, then anything.
pub open spec fn location_pattern() -> Seq<char> {
    "\\s*[@ | ,]\\s+.+"@
}

/// The characters that introduce a location and are not part of it.
pub open spec fn location_marks() -> Seq<char> {
    seq!['@', ',']
}

/// The text in front of offset `end`.
pub open spec fn text_before(s: Seq<u8>, end: int) -> Seq<char> {
    decode_utf8(s.take(end))
}

/// The text from offset `start` on. There is none if `start` lies behind the
/// text or inside a character.
pub open spec fn text_from(s: Seq<u8>, start: int) -> Seq<char> {
    if 0 <= start <= s.len() && is_char_boundary(s, start) {
        decode_utf8(s.skip(start))
    } else {
        Seq::empty()
    }
}

/// The summary that the text in front of a date gives: the text without the
/// white space around it, unless nothing is left of it.
pub open spec fn summary_in(before: Seq<char>) -> Option<Seq<char>> {
    if trimmed(before).len() > 0 {
        Some(trimmed(before))
    } else {
        None
    }
}

/// The location that the text behind a date and time gives, if it looks like
/// one: the text without the white space around it, the marks in front of it
/// and the white space behind those.
pub open spec fn location_in(after: Seq<char>) -> Option<Seq<char>> {
    if pattern_found(location_pattern(), after) == Some(true) {
        Some(trimmed_start(without_leading(trimmed(after), location_marks())))
    } else {
        None
    }
}

/// The event that a text and the date and time found in it make up.
pub open spec fn assembled(s: Seq<u8>, found: DateTimeMatch) -> Result<
    NewEventView,
    EventParseError,
> {
    match summary_in(text_before(s, found.start_char as int)) {
        Some(summary) => Ok(
            NewEventView {
                summary,
                date: found.date,
                time: found.time,
                location: location_in(text_from(s, found.end_char as int)),
                duration: None,
            },
        ),
        None => Err(EventParseError::MissingSummary),
    }
}

/// The event that the text `s` describes when it is read on the day `now`.
pub open spec fn parsed_event(s: Seq<u8>, now: CivilDate) -> Result<
    NewEventView,
    EventParseError,
> {
    match found_datetime(s, now) {
        Err(e) => Err(e),
        Ok(None) => Err(EventParseError::MissingTime),
        Ok(Some(found)) => assembled(s, found),
    }
}

/// What a result holds, with the event replaced by what it holds.
pub open spec fn result_view(r: Result<NewEvent, EventParseError>) -> Result<
    NewEventView,
    EventParseError,
> {
    match r {
        Ok(event) => Ok(event@),
        Err(e) => Err(e),
    }
}

/// The summary that is left of the text in front of a date once the white
/// space around it is gone: the text itself, unless it is empty.
pub fn summary_from(before_time_trimmed: &str) -> (r: Option<String>)
    ensures
        match r {
            Some(found) => before_time_trimmed@.len() > 0 && found@ == before_time_trimmed@,
            None => before_time_trimmed@.len() == 0,
        },
{
    if !before_time_trimmed.is_empty() {
        Some(before_time_trimmed.to_owned())
    } else {
        None
    }
}

/// The summary in the text in front of a date.
pub fn find_summary(before_time: &str) -> (r: Option<String>)
    ensures
        match summary_in(before_time@) {
            Some(summary) => r matches Some(found) && found@ == summary,
            None => r is None,
        },
{
    summary_from(trim(before_time))
}

/// The location in the text behind a date and time, once it is known whether
/// the text looks like a location: `looks_like_location` is what the search
/// for the location pattern in the text gave.
pub fn location_from(after_time: &str, looks_like_location: Option<bool>) -> (r: Option<String>)
    ensures
        match looks_like_location {
            Some(true) => r matches Some(found) && found@ == trimmed_start(
                without_leading(trimmed(after_time@), location_marks()),
            ),
            _ => r is None,
        },
{
    match looks_like_location {
        Some(true) => {
            let marks: [char; 2] = ['@', ','];
            assert(marks@ =~= location_marks());
            let trimmed_location = trim_start(
                trim_start_matches(trim(after_time), marks.as_slice()),
            );
            Some(trimmed_location.to_owned())
        },
        _ => None,
    }
}

/// The location in the text behind a date and time.
pub fn find_location(after_time: &str) -> (r: Option<String>)
    ensures
        match location_in(after_time@) {
            Some(location) => r matches Some(found) && found@ == location,
            None => r is None,
        },
{
    proof {
        reveal_strlit("\\s*[@ | ,]\\s+.+");
    }
    location_from(after_time, is_match("\\s*[@ | ,]\\s+.+", after_time))
}

/// Calls `jiff::Span::compare` and tells whether it found the two spans to
/// be equally long.
///
/// Trusted: nothing. A span is opaque here, so no claim is made about the
/// answer.
#[verifier::external_body]
pub(crate) fn spans_equal(a: &jiff::Span, b: &jiff::Span) -> bool {
    matches!(a.compare(b), Ok(std::cmp::Ordering::Equal))
}

impl NewEvent {
    /// Whether two events are the same, once it is known whether they go on
    /// for the same time: summary, day, time and location have to agree as
    /// well.
    pub fn same_given(&self, other: &NewEvent, duration_same: bool) -> (r: bool)
        ensures
            r == (self.summary@ == other.summary@ && self.date == other.date && self.time
                == other.time && self@.location == other@.location && duration_same),
    {
        let location_same = match (&self.location, &other.location) {
            (None, None) => true,
            (Some(a), Some(b)) => str_eq(a.as_str(), b.as_str()),
            _ => false,
        };
        let time_same = match (self.time, other.time) {
            (None, None) => true,
            (Some(a), Some(b)) => a == b,
            _ => false,
        };
        str_eq(self.summary.as_str(), other.summary.as_str()) && self.date == other.date
            && time_same && location_same && duration_same
    }

    /// Whether two events are the same. Events with a duration are the same
    /// only if `jiff` finds their durations to be equally long; an event with
    /// a duration and one without are never the same.
    pub fn eq(&self, other: &NewEvent) -> (r: bool)
        ensures
            r ==> self.summary@ == other.summary@ && self.date == other.date && self.time
                == other.time && self@.location == other@.location,
            self.duration is None && other.duration is None ==> r == (self@ == other@),
            (self.duration is None) != (other.duration is None) ==> !r,
    {
        let duration_same = match (&self.duration, &other.duration) {
            (None, None) => true,
            (Some(_), None) => false,
            (None, Some(_)) => false,
            (Some(a), Some(b)) => spans_equal(a, b),
        };
        self.same_given(other, duration_same)
    }

    /// Puts an event together from a text and the date and time that were
    /// found in it. The summary is what stands in front of the date, the
    /// location what stands behind the date and the time.
    pub fn assemble(s: &str, found: DateTimeMatch) -> (r: Result<NewEvent, EventParseError>)
        requires
            found.start_char <= s.spec_bytes().len(),
            is_char_boundary(s.spec_bytes(), found.start_char as int),
        ensures
            result_view(r) == assembled(s.spec_bytes(), found),
    {
        let DateTimeMatch { date, time, start_char: time_starts, end_char: time_ends } = found;
        proof {
            encode_utf8_valid_utf8(s@);
            decode_utf8_split(s.spec_bytes(), time_starts as int);
        }
        let (before_time, _) = s.split_at(time_starts);
        proof {
            encode_utf8_decode_utf8(before_time@);
            assert(s.spec_bytes().take(time_starts as int) =~= s.spec_bytes().subrange(
                0,
                time_starts as int,
            ));
        }
        let location = if time_ends <= s.as_bytes().len() && s.is_char_boundary(time_ends) {
            let (_, after_time) = s.split_at(time_ends);
            proof {
                encode_utf8_decode_utf8(after_time@);
                assert(s.spec_bytes().skip(time_ends as int) =~= s.spec_bytes().subrange(
                    time_ends as int,
                    s.spec_bytes().len() as int,
                ));
            }
            find_location(after_time)
        } else {
            proof {
                reveal_strlit("");
                assert(""@ =~= Seq::<char>::empty());
            }
            find_location("")
        };
        match find_summary(before_time) {
            Some(summary) => Ok(NewEvent { summary, date, time, location, duration: None }),
            None => Err(EventParseError::MissingSummary),
        }
    }

    /// Reads an event from `s`, taking `now` as the day on which it is read.
    pub fn parse_at_time(s: &str, now: CivilDate) -> (r: Result<NewEvent, EventParseError>)
        requires
            now.wf(),
            s.spec_bytes().len() <= usize::MAX / 2,
        ensures
            result_view(r) == parsed_event(s.spec_bytes(), now),
    {
        match find_datetime(s, now) {
            Err(e) => Err(e),
            Ok(None) => Err(EventParseError::MissingTime),
            Ok(Some(found)) => NewEvent::assemble(s, found),
        }
    }

    /// The day of the event with its time, or with midnight if it has none.
    pub fn datetime(&self) -> (r: CivilDateTime)
        ensures
            r.date == self.date,
            r.time == match self.time {
                Some(time) => time,
                None => CivilTime { hour: 0, minute: 0, second: 0 },
            },
    {
        match self.time {
            Some(time) => CivilDateTime { date: self.date, time },
            None => CivilDateTime {
                date: self.date,
                time: CivilTime { hour: 0, minute: 0, second: 0 },
            },
        }
    }
}

} // verus!
