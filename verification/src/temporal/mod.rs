//! Finding dates and times in text.

pub mod date;
pub mod time;

use crate::calendar::{CivilDate, CivilTime};
use crate::error::EventParseError;
use crate::text::lemma_boundary_in_rest;
use crate::words::split;
use date::{
    date_at, date_separators, find_date, found_date, lemma_found_date, lemma_found_date_none,
    AsDate,
};
use time::{find_time, found_time, lemma_found_time, time_offset_base, AsTime};
use vstd::prelude::*;
use vstd::string::*;
use vstd::utf8::*;

verus! {

/// A date, and possibly a time, found in a text.
#[derive(Debug, Clone, Copy)]
pub struct DateTimeMatch {
    /// The day that the text speaks of.
    pub date: CivilDate,
    /// The time of day that the text speaks of, if it gives one.
    pub time: Option<CivilTime>,
    /// The offset in the text at which the date starts.
    pub start_char: usize,
    /// The offset at which the date ends, moved on by the offset at which the
    /// scan of the rest of the text says that the time ends.
    pub end_char: usize,
}

/// What `find_datetime` finds in `s` when it is read on the day `now`.
///
/// The first date of `s` is resolved. A time is looked for in what follows
/// the date; if there is one, it is resolved, and the end of the match is the
/// end of the date plus the end that the time scanner reports. Text without a
/// date gives no match, whatever else it holds. A date or a time that does
/// not exist is an error.
pub open spec fn found_datetime(s: Seq<u8>, now: CivilDate) -> Result<
    Option<DateTimeMatch>,
    EventParseError,
> {
    match found_date(s) {
        None => Ok(None),
        Some((date_unit, start, date_end)) => match date_unit.resolved(now) {
            Err(e) => Err(e),
            Ok(date) => match found_time(s.skip(date_end)) {
                None => Ok(
                    Some(
                        DateTimeMatch {
                            date,
                            time: None,
                            start_char: start as usize,
                            end_char: date_end as usize,
                        },
                    ),
                ),
                Some((time_unit, _, time_end)) => match time_unit.resolved() {
                    Err(e) => Err(e),
                    Ok(time) => Ok(
                        Some(
                            DateTimeMatch {
                                date,
                                time: Some(time),
                                start_char: start as usize,
                                end_char: (date_end + time_end) as usize,
                            },
                        ),
                    ),
                },
            },
        },
    }
}

/// Text in which no date is recognised at any word gives no match, whatever
/// else it holds and whatever the day on which it is read.
pub proof fn lemma_no_date_no_match(s: Seq<u8>, now: CivilDate)
    requires
        forall|i: int|
            0 <= i < split(s, date_separators()).len() ==> date_at(
                split(s, date_separators()),
                i,
            ) is None,
    ensures
        found_datetime(s, now) == Ok::<Option<DateTimeMatch>, EventParseError>(None),
{
    lemma_found_date_none(s);
}

/// What a match says about the text it was found in.
///
/// The match starts where the date starts, between two characters of the
/// text. It does not end before the date ends. If no time was found, it ends
/// where the date ends. If a time was found and at most one space stands
/// between the date and the words that follow it, it ends where the time
/// ends, inside the text and between two characters. With more spaces than
/// one, the end lies as many bytes behind the end of the time as there are
/// spaces more than one.
pub proof fn lemma_match_range(s: Seq<u8>, now: CivilDate)
    requires
        valid_utf8(s),
        s.len() <= usize::MAX / 2,
    ensures
        found_datetime(s, now) matches Ok(Some(found)) ==> found_date(s) matches Some(
            (_, start, date_end),
        ) && {
            let rest = s.skip(date_end);
            &&& 0 <= start <= date_end <= s.len()
            &&& found.start_char == start
            &&& is_char_boundary(s, start)
            &&& date_end <= found.end_char <= s.len() + time_offset_base(rest)
            &&& found.time is None <==> found_time(rest) is None
            &&& found.time is None ==> found.end_char == date_end
            &&& found_time(rest) matches Some((_, _, time_end)) ==> found.end_char == date_end
                + time_end
            &&& time_offset_base(rest) == 0 ==> is_char_boundary(s, found.end_char as int)
        },
{
    lemma_found_date(s);
    if let Some((_, start, date_end)) = found_date(s) {
        let rest = s.skip(date_end);
        assert(rest =~= s.subrange(date_end, s.len() as int));
        valid_utf8_split(s, date_end);
        lemma_found_time(rest);
        if let Some((_, time_start, time_end)) = found_time(rest) {
            if time_offset_base(rest) == 0 {
                lemma_boundary_in_rest(s, date_end, time_end);
            }
        }
    }
}

/// Tries to find a datetime from the supplied string.
/// The date must be before the time.
/// See [`find_date`] and [`find_time`] for more information on accepted formatting of the date or
/// time.
pub fn find_datetime(s: &str, now: CivilDate) -> (r: Result<Option<DateTimeMatch>, EventParseError>)
    requires
        now.wf(),
        s.spec_bytes().len() <= usize::MAX / 2,
    ensures
        r == found_datetime(s.spec_bytes(), now),
        r matches Ok(Some(found)) ==> {
            &&& found.date.wf()
            &&& found.time matches Some(time) ==> time.wf()
            &&& found.start_char <= found.end_char
            &&& found.start_char <= s.spec_bytes().len()
            &&& is_char_boundary(s.spec_bytes(), found.start_char as int)
            &&& found.time is None ==> found.end_char <= s.spec_bytes().len() && is_char_boundary(
                s.spec_bytes(),
                found.end_char as int,
            )
        },
{
    if let Some((date, date_start, date_end)) = find_date(s) {
        let (_, s_after_date) = s.split_at(date_end);
        assert(s_after_date.spec_bytes() =~= s.spec_bytes().skip(date_end as int));
        let date = match date.as_date(now) {
            Ok(date) => date,
            Err(e) => {
                return Err(e);
            },
        };
        let mut end = date_end;
        let time = if let Some((time, _time_start, time_end)) = find_time(s_after_date) {
            end += time_end;
            match time.as_time() {
                Ok(time) => Some(time),
                Err(e) => {
                    return Err(e);
                },
            }
        } else {
            None
        };
        return Ok(Some(DateTimeMatch { date, time, start_char: date_start, end_char: end }));
    }
    Ok(None)
}

} // verus!
