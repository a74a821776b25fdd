//! Date expressions: what they look like and which day they mean.

use crate::calendar::{
    date_checked_add_days, date_checked_sub_days, date_nth_weekday, date_plus_days,
    first_day_number, is_date, last_day_number, lemma_date_of_day_number,
    lemma_date_plus_days, lemma_day_number_range, lemma_days_until, nth_weekday_offset,
    CivilDate,
};
use crate::error::EventParseError;
use crate::number::{i16_of, i8_of, parse_i16, parse_i8, parse_u16, parse_u8, u16_of, u8_of};
use crate::text::{
    ascii_only, lemma_words_between_chars, lowercase_of, str_eq, take_word, to_lowercase,
};
use crate::words::{
    lemma_split_concat, lemma_split_single, lemma_split_start, lemma_split_step,
    lemma_word_offset_concat, lemma_word_offset_end, lemma_word_offset_monotonic, scan_word,
    split, word_offset,
};
use vstd::slice::slice_subrange;
use vstd::prelude::*;
use vstd::string::*;
use vstd::utf8::*;

verus! {

/// The languages in which relative dates are understood.
#[derive(Debug, Clone, Copy, PartialEq, Eq, Structural)]
pub enum DateRelativeLanguage {
    English,
    Finnish,
}

impl DateRelativeLanguage {
    /// The word that points at the previous occurrence of a weekday.
    pub open spec fn noun_prev(self) -> Seq<char> {
        match self {
            DateRelativeLanguage::English => "last"@,
            DateRelativeLanguage::Finnish => "viime"@,
        }
    }

    /// The word that points at the next occurrence of a weekday.
    pub open spec fn noun_next(self) -> Seq<char> {
        match self {
            DateRelativeLanguage::English => "next"@,
            DateRelativeLanguage::Finnish => "ensi"@,
        }
    }

    /// The word that points at the previous occurrence of a weekday.
    pub fn get_noun_prev(&self) -> (r: &'static str)
        ensures
            r@ == self.noun_prev(),
    {
        match self {
            DateRelativeLanguage::English => "last",
            DateRelativeLanguage::Finnish => "viime",
        }
    }

    /// The word that points at the next occurrence of a weekday.
    pub fn get_noun_next(&self) -> (r: &'static str)
        ensures
            r@ == self.noun_next(),
    {
        match self {
            DateRelativeLanguage::English => "next",
            DateRelativeLanguage::Finnish => "ensi",
        }
    }
}

/// The days of the week.
#[derive(Debug, Clone, Copy, PartialEq, Eq, Structural)]
pub enum DateRelativeWeekday {
    Monday,
    Tuesday,
    Wednesday,
    Thurdsday,
    Friday,
    Saturday,
    Sunday,
}

impl DateRelativeWeekday {
    /// The name of the weekday as it follows "next" or "last" in `lang`.
    pub open spec fn locale_name(self, lang: DateRelativeLanguage) -> Seq<char> {
        match (self, lang) {
            (DateRelativeWeekday::Monday, DateRelativeLanguage::English) => "monday"@,
            (DateRelativeWeekday::Monday, DateRelativeLanguage::Finnish) => "maanantaina"@,
            (DateRelativeWeekday::Tuesday, DateRelativeLanguage::English) => "tuesday"@,
            (DateRelativeWeekday::Tuesday, DateRelativeLanguage::Finnish) => "tiistaina"@,
            (DateRelativeWeekday::Wednesday, DateRelativeLanguage::English) => "wednesday"@,
            (DateRelativeWeekday::Wednesday, DateRelativeLanguage::Finnish) => "keskiviikkona"@,
            (DateRelativeWeekday::Thurdsday, DateRelativeLanguage::English) => "thursday"@,
            (DateRelativeWeekday::Thurdsday, DateRelativeLanguage::Finnish) => "torstaina"@,
            (DateRelativeWeekday::Friday, DateRelativeLanguage::English) => "friday"@,
            (DateRelativeWeekday::Friday, DateRelativeLanguage::Finnish) => "perjantaina"@,
            (DateRelativeWeekday::Saturday, DateRelativeLanguage::English) => "saturday"@,
            (DateRelativeWeekday::Saturday, DateRelativeLanguage::Finnish) => "lauantaina"@,
            (DateRelativeWeekday::Sunday, DateRelativeLanguage::English) => "sunday"@,
            (DateRelativeWeekday::Sunday, DateRelativeLanguage::Finnish) => "sunnuntaina"@,
        }
    }

    /// The position of the weekday in a week that starts on Monday, which is
    /// zero.
    pub open spec fn number(self) -> int {
        match self {
            DateRelativeWeekday::Monday => 0,
            DateRelativeWeekday::Tuesday => 1,
            DateRelativeWeekday::Wednesday => 2,
            DateRelativeWeekday::Thurdsday => 3,
            DateRelativeWeekday::Friday => 4,
            DateRelativeWeekday::Saturday => 5,
            DateRelativeWeekday::Sunday => 6,
        }
    }

    /// The name of the weekday as it follows "next" or "last" in `lang`.
    pub fn to_locale_static_str(&self, lang: DateRelativeLanguage) -> (r: &'static str)
        ensures
            r@ == self.locale_name(lang),
    {
        match (self, lang) {
            (DateRelativeWeekday::Monday, DateRelativeLanguage::English) => "monday",
            (DateRelativeWeekday::Monday, DateRelativeLanguage::Finnish) => "maanantaina",
            (DateRelativeWeekday::Tuesday, DateRelativeLanguage::English) => "tuesday",
            (DateRelativeWeekday::Tuesday, DateRelativeLanguage::Finnish) => "tiistaina",
            (DateRelativeWeekday::Wednesday, DateRelativeLanguage::English) => "wednesday",
            (DateRelativeWeekday::Wednesday, DateRelativeLanguage::Finnish) => "keskiviikkona",
            (DateRelativeWeekday::Thurdsday, DateRelativeLanguage::English) => "thursday",
            (DateRelativeWeekday::Thurdsday, DateRelativeLanguage::Finnish) => "torstaina",
            (DateRelativeWeekday::Friday, DateRelativeLanguage::English) => "friday",
            (DateRelativeWeekday::Friday, DateRelativeLanguage::Finnish) => "perjantaina",
            (DateRelativeWeekday::Saturday, DateRelativeLanguage::English) => "saturday",
            (DateRelativeWeekday::Saturday, DateRelativeLanguage::Finnish) => "lauantaina",
            (DateRelativeWeekday::Sunday, DateRelativeLanguage::English) => "sunday",
            (DateRelativeWeekday::Sunday, DateRelativeLanguage::Finnish) => "sunnuntaina",
        }
    }

    /// The position of the weekday in a week that starts on Monday.
    pub fn monday_offset(&self) -> (r: i8)
        ensures
            r == self.number(),
    {
        match self {
            DateRelativeWeekday::Monday => 0,
            DateRelativeWeekday::Tuesday => 1,
            DateRelativeWeekday::Wednesday => 2,
            DateRelativeWeekday::Thurdsday => 3,
            DateRelativeWeekday::Friday => 4,
            DateRelativeWeekday::Saturday => 5,
            DateRelativeWeekday::Sunday => 6,
        }
    }

    /// The weekday that `name` is the name of in `lang`.
    pub open spec fn named(lang: DateRelativeLanguage, name: Seq<char>) -> Option<
        DateRelativeWeekday,
    > {
        if name == DateRelativeWeekday::Monday.locale_name(lang) {
            Some(DateRelativeWeekday::Monday)
        } else if name == DateRelativeWeekday::Tuesday.locale_name(lang) {
            Some(DateRelativeWeekday::Tuesday)
        } else if name == DateRelativeWeekday::Wednesday.locale_name(lang) {
            Some(DateRelativeWeekday::Wednesday)
        } else if name == DateRelativeWeekday::Thurdsday.locale_name(lang) {
            Some(DateRelativeWeekday::Thurdsday)
        } else if name == DateRelativeWeekday::Friday.locale_name(lang) {
            Some(DateRelativeWeekday::Friday)
        } else if name == DateRelativeWeekday::Saturday.locale_name(lang) {
            Some(DateRelativeWeekday::Saturday)
        } else if name == DateRelativeWeekday::Sunday.locale_name(lang) {
            Some(DateRelativeWeekday::Sunday)
        } else {
            None
        }
    }

    /// Looks `name` up among the weekday names of `lang`. The name has to be
    /// in lower case.
    pub fn from_locale_name(lang: DateRelativeLanguage, name: &str) -> (r: Option<
        DateRelativeWeekday,
    >)
        ensures
            r == DateRelativeWeekday::named(lang, name@),
    {
        if str_eq(name, DateRelativeWeekday::Monday.to_locale_static_str(lang)) {
            Some(DateRelativeWeekday::Monday)
        } else if str_eq(name, DateRelativeWeekday::Tuesday.to_locale_static_str(lang)) {
            Some(DateRelativeWeekday::Tuesday)
        } else if str_eq(name, DateRelativeWeekday::Wednesday.to_locale_static_str(lang)) {
            Some(DateRelativeWeekday::Wednesday)
        } else if str_eq(name, DateRelativeWeekday::Thurdsday.to_locale_static_str(lang)) {
            Some(DateRelativeWeekday::Thurdsday)
        } else if str_eq(name, DateRelativeWeekday::Friday.to_locale_static_str(lang)) {
            Some(DateRelativeWeekday::Friday)
        } else if str_eq(name, DateRelativeWeekday::Saturday.to_locale_static_str(lang)) {
            Some(DateRelativeWeekday::Saturday)
        } else if str_eq(name, DateRelativeWeekday::Sunday.to_locale_static_str(lang)) {
            Some(DateRelativeWeekday::Sunday)
        } else {
            None
        }
    }
}

/// A date that is given relative to the day on which it is read. The language
/// records in which language the date was written; it has no bearing on the
/// day that is meant.
#[derive(Debug, Clone, Copy, PartialEq, Eq, Structural)]
pub enum DateRelative {
    LastWeekday(DateRelativeLanguage, DateRelativeWeekday),
    Yesterday(DateRelativeLanguage),
    Today(DateRelativeLanguage),
    Tomorrow(DateRelativeLanguage),
    Overmorrow(DateRelativeLanguage),
    NextWeekday(DateRelativeLanguage, DateRelativeWeekday),
}

impl DateRelative {
    /// The relative date that the lower-case text `word` is the keyword of.
    pub open spec fn keyword(word: Seq<char>) -> Option<DateRelative> {
        if word == "yesterday"@ {
            Some(DateRelative::Yesterday(DateRelativeLanguage::English))
        } else if word == "eilen"@ {
            Some(DateRelative::Yesterday(DateRelativeLanguage::Finnish))
        } else if word == "today"@ {
            Some(DateRelative::Today(DateRelativeLanguage::English))
        } else if word == "t\u{e4}n\u{e4}\u{e4}n"@ {
            Some(DateRelative::Today(DateRelativeLanguage::Finnish))
        } else if word == "tomorrow"@ {
            Some(DateRelative::Tomorrow(DateRelativeLanguage::English))
        } else if word == "huomenna"@ {
            Some(DateRelative::Tomorrow(DateRelativeLanguage::Finnish))
        } else if word == "overmorrow"@ || word == "day after tomorrow"@ {
            Some(DateRelative::Overmorrow(DateRelativeLanguage::English))
        } else if word == "ylihuomenna"@ {
            Some(DateRelative::Overmorrow(DateRelativeLanguage::Finnish))
        } else {
            None
        }
    }

    /// The relative date that `text` names, in whatever case it is written.
    pub open spec fn parsed(text: Seq<char>) -> Option<DateRelative> {
        DateRelative::keyword(lowercase_of(text))
    }

    /// The weekday phrase of `lang` that the lower-case words `first` and
    /// `second` form.
    pub open spec fn weekday_phrase(
        lang: DateRelativeLanguage,
        first: Seq<char>,
        second: Seq<char>,
    ) -> Option<DateRelative> {
        if first == lang.noun_next() && DateRelativeWeekday::named(lang, second) is Some {
            Some(DateRelative::NextWeekday(lang, DateRelativeWeekday::named(lang, second)->0))
        } else if first == lang.noun_prev() && DateRelativeWeekday::named(lang, second) is Some {
            Some(DateRelative::LastWeekday(lang, DateRelativeWeekday::named(lang, second)->0))
        } else {
            None
        }
    }

    /// The phrase that ends a run of lower-case words, and the number of
    /// words it is made of. `last` is the word at the end of the run,
    /// `second_last` and `third_last` are the words in front of it, as far as
    /// there are any.
    pub open spec fn phrase(
        third_last: Option<Seq<char>>,
        second_last: Option<Seq<char>>,
        last: Seq<char>,
    ) -> Option<(DateRelative, usize)> {
        if last == "tomorrow"@ && second_last == Some("after"@) && third_last == Some("day"@) {
            Some((DateRelative::Overmorrow(DateRelativeLanguage::English), 3usize))
        } else if second_last is Some {
            let first = second_last->0;
            if DateRelative::weekday_phrase(DateRelativeLanguage::English, first, last) is Some {
                Some(
                    (
                        DateRelative::weekday_phrase(DateRelativeLanguage::English, first, last)->0,
                        2usize,
                    ),
                )
            } else if DateRelative::weekday_phrase(DateRelativeLanguage::Finnish, first, last)
                is Some {
                Some(
                    (
                        DateRelative::weekday_phrase(DateRelativeLanguage::Finnish, first, last)->0,
                        2usize,
                    ),
                )
            } else {
                None
            }
        } else {
            None
        }
    }

    /// The phrase that ends the run of words `words`, in whatever case they
    /// are written, and the number of words it is made of.
    pub open spec fn trailing_phrase(words: Seq<Seq<char>>) -> Option<(DateRelative, usize)> {
        let n = words.len() as int;
        if n == 0 {
            None
        } else {
            DateRelative::phrase(
                if n >= 3 {
                    Some(lowercase_of(words[n - 3]))
                } else {
                    None
                },
                if n >= 2 {
                    Some(lowercase_of(words[n - 2]))
                } else {
                    None
                },
                lowercase_of(words[n - 1]),
            )
        }
    }

    /// Looks a single lower-case word up among the keywords.
    pub fn from_lowercase(word: &str) -> (r: Option<DateRelative>)
        ensures
            r == DateRelative::keyword(word@),
    {
        if str_eq(word, "yesterday") {
            Some(DateRelative::Yesterday(DateRelativeLanguage::English))
        } else if str_eq(word, "eilen") {
            Some(DateRelative::Yesterday(DateRelativeLanguage::Finnish))
        } else if str_eq(word, "today") {
            Some(DateRelative::Today(DateRelativeLanguage::English))
        } else if str_eq(word, "t\u{e4}n\u{e4}\u{e4}n") {
            Some(DateRelative::Today(DateRelativeLanguage::Finnish))
        } else if str_eq(word, "tomorrow") {
            Some(DateRelative::Tomorrow(DateRelativeLanguage::English))
        } else if str_eq(word, "huomenna") {
            Some(DateRelative::Tomorrow(DateRelativeLanguage::Finnish))
        } else if str_eq(word, "overmorrow") || str_eq(word, "day after tomorrow") {
            Some(DateRelative::Overmorrow(DateRelativeLanguage::English))
        } else if str_eq(word, "ylihuomenna") {
            Some(DateRelative::Overmorrow(DateRelativeLanguage::Finnish))
        } else {
            None
        }
    }

    /// Reads a single word as a relative date. Upper and lower case are not
    /// told apart.
    pub fn from_str(s: &str) -> (r: Result<DateRelative, ()>)
        ensures
            r == match DateRelative::parsed(s@) {
                Some(date) => Ok::<DateRelative, ()>(date),
                None => Err::<DateRelative, ()>(()),
            },
    {
        let lower = to_lowercase(s);
        match DateRelative::from_lowercase(lower.as_str()) {
            Some(date) => Ok(date),
            None => Err(()),
        }
    }

    /// Looks two lower-case words up among the weekday phrases of `lang`.
    pub fn weekday_phrase_from_lowercase(
        lang: DateRelativeLanguage,
        first: &str,
        second: &str,
    ) -> (r: Option<DateRelative>)
        ensures
            r == DateRelative::weekday_phrase(lang, first@, second@),
    {
        let weekday = DateRelativeWeekday::from_locale_name(lang, second);
        match weekday {
            Some(weekday) => {
                if str_eq(first, lang.get_noun_next()) {
                    Some(DateRelative::NextWeekday(lang, weekday))
                } else if str_eq(first, lang.get_noun_prev()) {
                    Some(DateRelative::LastWeekday(lang, weekday))
                } else {
                    None
                }
            },
            None => None,
        }
    }

    /// Looks the last words of a run of lower-case words up among the
    /// phrases: "day after tomorrow", and "next" or "last" with a weekday in
    /// each language.
    pub fn phrase_from_lowercase(
        third_last: Option<&str>,
        second_last: Option<&str>,
        last: &str,
    ) -> (r: Option<(DateRelative, usize)>)
        ensures
            r == DateRelative::phrase(
                match third_last {
                    Some(w) => Some(w@),
                    None => None,
                },
                match second_last {
                    Some(w) => Some(w@),
                    None => None,
                },
                last@,
            ),
    {
        match second_last {
            Some(first) => {
                let idiom = match third_last {
                    Some(day) => str_eq(last, "tomorrow") && str_eq(first, "after") && str_eq(
                        day,
                        "day",
                    ),
                    None => false,
                };
                if idiom {
                    return Some((DateRelative::Overmorrow(DateRelativeLanguage::English), 3));
                }
                match DateRelative::weekday_phrase_from_lowercase(
                    DateRelativeLanguage::English,
                    first,
                    last,
                ) {
                    Some(date) => Some((date, 2)),
                    None => match DateRelative::weekday_phrase_from_lowercase(
                        DateRelativeLanguage::Finnish,
                        first,
                        last,
                    ) {
                        Some(date) => Some((date, 2)),
                        None => None,
                    },
                }
            },
            None => None,
        }
    }

    /// Looks for a phrase at the end of `words`. Returns the date that the
    /// phrase stands for and the number of words that the phrase is made of.
    pub fn parse_multiword(words: &Vec<String>) -> (r: Option<(DateRelative, usize)>)
        ensures
            r == DateRelative::trailing_phrase(texts(words@)),
            r matches Some((_, n)) ==> 2 <= n <= words@.len(),
    {
        let n = words.len();
        if n == 0 {
            return None;
        }
        let last = to_lowercase(words[n - 1].as_str());
        let second_last = if n >= 2 {
            Some(to_lowercase(words[n - 2].as_str()))
        } else {
            None
        };
        let third_last = if n >= 3 {
            Some(to_lowercase(words[n - 3].as_str()))
        } else {
            None
        };
        DateRelative::phrase_from_lowercase(
            match &third_last {
                Some(w) => Some(w.as_str()),
                None => None,
            },
            match &second_last {
                Some(w) => Some(w.as_str()),
                None => None,
            },
            last.as_str(),
        )
    }
}

/// Something that stands for a day, once it is known on which day it is read.
pub trait AsDate {
    /// The day that this stands for when read on the day `now`, or the reason
    /// why there is no such day.
    spec fn resolved(&self, now: CivilDate) -> Result<CivilDate, EventParseError>;

    /// Works out the day that this stands for when read on the day `now`.
    fn as_date(&self, now: CivilDate) -> (r: Result<CivilDate, EventParseError>)
        requires
            now.wf(),
        ensures
            r == self.resolved(now),
            r matches Ok(date) ==> date.wf(),
    ;
}

impl DateRelative {
    /// How many days after the day on which it is read the date lies. The
    /// number is negative for a date that lies before that day.
    pub open spec fn day_offset(self, now: CivilDate) -> int {
        match self {
            DateRelative::LastWeekday(_, weekday) => nth_weekday_offset(now, -1, weekday.number()),
            DateRelative::Yesterday(_) => -1,
            DateRelative::Today(_) => 0,
            DateRelative::Tomorrow(_) => 1,
            DateRelative::Overmorrow(_) => 2,
            DateRelative::NextWeekday(_, weekday) => nth_weekday_offset(now, 1, weekday.number()),
        }
    }
}

impl AsDate for DateRelative {
    open spec fn resolved(&self, now: CivilDate) -> Result<CivilDate, EventParseError> {
        match date_plus_days(now, self.day_offset(now)) {
            Some(date) => Ok(date),
            None => Err(EventParseError::AmbiguousTime),
        }
    }

    fn as_date(&self, now: CivilDate) -> (r: Result<CivilDate, EventParseError>) {
        proof {
            lemma_day_number_range(now);
            lemma_date_of_day_number(now);
            match self {
                DateRelative::LastWeekday(_, weekday) => {
                    lemma_days_until(now.day_number() + 5, weekday.number());
                },
                DateRelative::NextWeekday(_, weekday) => {
                    lemma_days_until(now.day_number() + 5, weekday.number());
                },
                _ => {},
            }
        }
        let moved = match self {
            DateRelative::LastWeekday(_, weekday) => date_nth_weekday(
                now,
                -1,
                weekday.monday_offset(),
            ),
            DateRelative::Yesterday(_) => date_checked_sub_days(now, 1),
            DateRelative::Today(_) => {
                return Ok(now);
            },
            DateRelative::Tomorrow(_) => date_checked_add_days(now, 1),
            DateRelative::Overmorrow(_) => date_checked_add_days(now, 2),
            DateRelative::NextWeekday(_, weekday) => date_nth_weekday(
                now,
                1,
                weekday.monday_offset(),
            ),
        };
        match moved {
            Ok(date) => {
                proof {
                    lemma_date_of_day_number(date);
                }
                Ok(date)
            },
            Err(_) => Err(EventParseError::AmbiguousTime),
        }
    }
}

/// A date written out in numbers. The widths of the numbers limit what can be
/// written, not what exists: whether there is such a day is decided when the
/// date is resolved.
#[derive(Debug, Clone, Copy, PartialEq, Eq, Structural)]
pub enum DateStructured {
    /// Year, month and day of the month.
    Ymd(i16, i8, i8),
    /// Month and day of the month, in the year in which the day comes next.
    Ym(i8, i8),
}

impl DateStructured {
    /// The year in which the given day of the given month comes next, seen
    /// from the day `now`: the year after `now` if the day has passed in the
    /// year of `now`, else the year of `now`.
    pub open spec fn next_year_of(month: i8, day: i8, now: CivilDate) -> int {
        if month < now.month || (month == now.month && day < now.day) {
            now.year + 1
        } else {
            now.year as int
        }
    }
}

impl AsDate for DateStructured {
    open spec fn resolved(&self, now: CivilDate) -> Result<CivilDate, EventParseError> {
        match *self {
            DateStructured::Ymd(year, month, day) => {
                if is_date(year as int, month as int, day as int) {
                    Ok(CivilDate { year, month, day })
                } else {
                    Err(EventParseError::InvalidTime)
                }
            },
            DateStructured::Ym(month, day) => {
                let year = DateStructured::next_year_of(month, day, now);
                if is_date(year, month as int, day as int) {
                    Ok(CivilDate { year: year as i16, month, day })
                } else {
                    Err(EventParseError::InvalidTime)
                }
            },
        }
    }

    fn as_date(&self, now: CivilDate) -> (r: Result<CivilDate, EventParseError>) {
        let found = match self {
            DateStructured::Ymd(year, month, day) => CivilDate::new(*year, *month, *day),
            DateStructured::Ym(month, day) => {
                let current_year = now.year();
                let current_month = now.month();
                let current_day = now.day();
                if *month < current_month || *month == current_month && *day < current_day {
                    // That day has passed this year: the next one is a year away.
                    CivilDate::new(current_year + 1, *month, *day)
                } else {
                    CivilDate::new(current_year, *month, *day)
                }
            },
        };
        match found {
            Some(date) => Ok(date),
            None => Err(EventParseError::InvalidTime),
        }
    }
}

/// A date that is written out in full and exists in the calendar stands for
/// itself, whatever the day on which it is read.
pub proof fn lemma_full_date_resolves_to_itself(year: i16, month: i8, day: i8, now: CivilDate)
    requires
        is_date(year as int, month as int, day as int),
    ensures
        DateStructured::Ymd(year, month, day).resolved(now) == Ok::<CivilDate, EventParseError>(
            CivilDate { year, month, day },
        ),
{
}

/// A date without a year keeps its month and day. Its year is the year after
/// that of the day on which it is read if month and day come earlier in the
/// year than that day, and the year of that day otherwise.
pub proof fn lemma_yearless_date_year(month: i8, day: i8, now: CivilDate)
    requires
        now.wf(),
    ensures
        DateStructured::Ym(month, day).resolved(now) matches Ok(date) ==> {
            &&& date.wf()
            &&& date.month == month
            &&& date.day == day
            &&& date.year == if month < now.month || (month == now.month && day < now.day) {
                now.year + 1
            } else {
                now.year as int
            }
        },
        DateStructured::Ym(month, day).resolved(now) matches Err(e) ==> e
            == EventParseError::InvalidTime,
{
}

/// "Next" and "last" with a weekday never stand for the day on which they
/// are read. They stand for a day that falls on the weekday named, the
/// nearest one after that day for "next" and the nearest one before it for
/// "last": never more than a week away.
pub proof fn lemma_weekday_dates(
    lang: DateRelativeLanguage,
    weekday: DateRelativeWeekday,
    now: CivilDate,
)
    requires
        now.wf(),
    ensures
        DateRelative::NextWeekday(lang, weekday).resolved(now) matches Ok(date) ==> {
            &&& date.wf()
            &&& date != now
            &&& date.weekday() == weekday.number()
            &&& 1 <= date.day_number() - now.day_number() <= 7
        },
        DateRelative::LastWeekday(lang, weekday).resolved(now) matches Ok(date) ==> {
            &&& date.wf()
            &&& date != now
            &&& date.weekday() == weekday.number()
            &&& 1 <= now.day_number() - date.day_number() <= 7
        },
{
    lemma_days_until(now.day_number() + 5, weekday.number());
    lemma_date_plus_days(now, nth_weekday_offset(now, 1, weekday.number()));
    lemma_date_plus_days(now, nth_weekday_offset(now, -1, weekday.number()));
}

/// The simple relative dates stand for the day that lies the given number of
/// days from the day on which they are read, and fail only where the
/// calendar ends.
pub proof fn lemma_relative_dates(relative: DateRelative, now: CivilDate)
    requires
        now.wf(),
    ensures
        relative.resolved(now) matches Ok(date) ==> date.is_days_after(
            now,
            relative.day_offset(now),
        ),
        relative.resolved(now) matches Err(e) ==> e == EventParseError::AmbiguousTime && !(
        first_day_number() <= now.day_number() + relative.day_offset(now) <= last_day_number()),
        relative matches DateRelative::Today(_) ==> relative.resolved(now) == Ok::<
            CivilDate,
            EventParseError,
        >(now),
{
    lemma_date_plus_days(now, relative.day_offset(now));
}

/// A date as it was found in a text.
#[derive(Debug, Clone, Copy, PartialEq, Eq, Structural)]
pub enum DateUnit {
    Structured(DateStructured),
    Relative(DateRelative),
}

impl AsDate for DateUnit {
    open spec fn resolved(&self, now: CivilDate) -> Result<CivilDate, EventParseError> {
        match self {
            DateUnit::Structured(structured) => structured.resolved(now),
            DateUnit::Relative(relative) => relative.resolved(now),
        }
    }

    fn as_date(&self, now: CivilDate) -> (r: Result<CivilDate, EventParseError>) {
        match self {
            DateUnit::Structured(structured) => structured.as_date(now),
            DateUnit::Relative(relative) => relative.as_date(now),
        }
    }
}

/// The texts of a list of strings.
pub open spec fn texts(words: Seq<String>) -> Seq<Seq<char>> {
    Seq::new(words.len(), |i: int| words[i]@)
}

/// The byte that separates day, month and year.
pub open spec fn dot() -> Seq<u8> {
    seq![0x2eu8]
}

/// The bytes that separate the words among which a date is looked for: the
/// space and the comma.
pub open spec fn date_separators() -> Seq<u8> {
    seq![0x20u8, 0x2c]
}

impl DateStructured {
    /// The date that `word` spells: a day and a month, each followed by a
    /// dot, and then possibly a year. The day comes first. What follows a
    /// third dot is not looked at.
    pub open spec fn parsed(word: Seq<u8>) -> Option<DateStructured> {
        let parts = split(word, dot());
        if parts.len() < 2 {
            None
        } else {
            match (i8_of(parts[0]), i8_of(parts[1])) {
                (Some(day), Some(month)) => if parts.len() >= 3 && parts[2].len() > 0 {
                    match i16_of(parts[2]) {
                        Some(year) => Some(DateStructured::Ymd(year, month, day)),
                        None => None,
                    }
                } else {
                    Some(DateStructured::Ym(month, day))
                },
                _ => None,
            }
        }
    }

    /// Reads a word as a date.
    pub fn from_bytes(word: &[u8]) -> (r: Option<DateStructured>)
        ensures
            r == DateStructured::parsed(word@),
    {
        let marks: [u8; 1] = [0x2e];
        let seps = marks.as_slice();
        assert(seps@ =~= dot());
        proof {
            lemma_split_start(word@, dot());
            lemma_split_step(word@, dot(), 0, 0);
        }
        let n0 = scan_word(word, 0, seps);
        if n0 >= word.len() {
            return None;
        }
        let from1 = n0 + 1;
        proof {
            lemma_split_step(word@, dot(), from1 as int, 1);
        }
        let n1 = scan_word(word, from1, seps);
        let day = match parse_i8(slice_subrange(word, 0, n0)) {
            Some(day) => day,
            None => {
                return None;
            },
        };
        let month = match parse_i8(slice_subrange(word, from1, from1 + n1)) {
            Some(month) => month,
            None => {
                return None;
            },
        };
        if from1 + n1 >= word.len() {
            return Some(DateStructured::Ym(month, day));
        }
        let from2 = from1 + n1 + 1;
        proof {
            lemma_split_step(word@, dot(), from2 as int, 2);
        }
        let n2 = scan_word(word, from2, seps);
        if n2 == 0 {
            return Some(DateStructured::Ym(month, day));
        }
        match parse_i16(slice_subrange(word, from2, from2 + n2)) {
            Some(year) => Some(DateStructured::Ymd(year, month, day)),
            None => None,
        }
    }

    /// Reads a word as a date.
    pub fn from_str(s: &str) -> (r: Result<DateStructured, ()>)
        ensures
            r == match DateStructured::parsed(s.spec_bytes()) {
                Some(date) => Ok::<DateStructured, ()>(date),
                None => Err::<DateStructured, ()>(()),
            },
    {
        match DateStructured::from_bytes(s.as_bytes()) {
            Some(date) => Ok(date),
            None => Err(()),
        }
    }
}

/// A day and a month with a dot between them are read as a date without a
/// year, the day first, whether or not a dot follows the month.
pub proof fn lemma_day_month_token(day: Seq<u8>, month: Seq<u8>)
    requires
        !day.contains(0x2eu8),
        !month.contains(0x2eu8),
    ensures
        DateStructured::parsed(day + seq![0x2eu8] + month) == match (i8_of(day), i8_of(month)) {
            (Some(d), Some(m)) => Some(DateStructured::Ym(m, d)),
            _ => None,
        },
        DateStructured::parsed(day + seq![0x2eu8] + month + seq![0x2eu8]) == match (
            i8_of(day),
            i8_of(month),
        ) {
            (Some(d), Some(m)) => Some(DateStructured::Ym(m, d)),
            _ => None,
        },
{
    lemma_split_single(day, 0x2e);
    lemma_split_single(month, 0x2e);
    lemma_split_single(Seq::<u8>::empty(), 0x2e);
    assert(dot()[0] == 0x2e);
    lemma_split_concat(day, 0x2e, month, dot());
    lemma_split_concat(month, 0x2e, Seq::<u8>::empty(), dot());
    lemma_split_concat(day, 0x2e, month + seq![0x2eu8] + Seq::<u8>::empty(), dot());
    assert(day + seq![0x2eu8] + month + seq![0x2eu8] =~= day + seq![0x2eu8] + (month
        + seq![0x2eu8] + Seq::<u8>::empty()));
    let parts = split(day + seq![0x2eu8] + month + seq![0x2eu8], dot());
    assert(parts =~= seq![day, month, Seq::<u8>::empty()]);
}

/// A day, a month and a year with dots between them are read as a full date,
/// the day first and the year last.
pub proof fn lemma_day_month_year_token(day: Seq<u8>, month: Seq<u8>, year: Seq<u8>)
    requires
        !day.contains(0x2eu8),
        !month.contains(0x2eu8),
        !year.contains(0x2eu8),
        year.len() > 0,
    ensures
        DateStructured::parsed(day + seq![0x2eu8] + month + seq![0x2eu8] + year) == match (
            i8_of(day),
            i8_of(month),
            i16_of(year),
        ) {
            (Some(d), Some(m), Some(y)) => Some(DateStructured::Ymd(y, m, d)),
            _ => None,
        },
{
    lemma_split_single(day, 0x2e);
    lemma_split_single(month, 0x2e);
    lemma_split_single(year, 0x2e);
    assert(dot()[0] == 0x2e);
    lemma_split_concat(month, 0x2e, year, dot());
    lemma_split_concat(day, 0x2e, month + seq![0x2eu8] + year, dot());
    assert(day + seq![0x2eu8] + month + seq![0x2eu8] + year =~= day + seq![0x2eu8] + (month
        + seq![0x2eu8] + year));
    let parts = split(day + seq![0x2eu8] + month + seq![0x2eu8] + year, dot());
    assert(parts =~= seq![day, month, year]);
}

/// A date of the common era written as day, month and year.
#[derive(Debug, Clone, Copy, PartialEq, Eq, Structural)]
pub struct DateYMD(u16, u8, u8);

impl DateYMD {
    /// Year, month and day, in this order.
    pub closed spec fn parts(self) -> (u16, u8, u8) {
        (self.0, self.1, self.2)
    }

    /// The year, month and day that `word` spells: a day, a month and a year
    /// with dots between them and nothing after the year.
    pub open spec fn parsed(word: Seq<u8>) -> Option<(u16, u8, u8)> {
        let parts = split(word, dot());
        if parts.len() != 3 {
            None
        } else {
            match (u8_of(parts[0]), u8_of(parts[1]), u16_of(parts[2])) {
                (Some(day), Some(month), Some(year)) => Some((year, month, day)),
                _ => None,
            }
        }
    }

    /// Reads a word as a date.
    pub fn from_str(s: &str) -> (r: Result<DateYMD, ()>)
        ensures
            match DateYMD::parsed(s.spec_bytes()) {
                Some(parts) => r is Ok && r->Ok_0.parts() == parts,
                None => r is Err,
            },
    {
        let word = s.as_bytes();
        let marks: [u8; 1] = [0x2e];
        let seps = marks.as_slice();
        assert(seps@ =~= dot());
        proof {
            lemma_split_start(word@, dot());
            lemma_split_step(word@, dot(), 0, 0);
        }
        let n0 = scan_word(word, 0, seps);
        if n0 >= word.len() {
            return Err(());
        }
        let from1 = n0 + 1;
        proof {
            lemma_split_step(word@, dot(), from1 as int, 1);
        }
        let n1 = scan_word(word, from1, seps);
        if from1 + n1 >= word.len() {
            return Err(());
        }
        let from2 = from1 + n1 + 1;
        proof {
            lemma_split_step(word@, dot(), from2 as int, 2);
        }
        let n2 = scan_word(word, from2, seps);
        if from2 + n2 < word.len() {
            return Err(());
        }
        let day = parse_u8(slice_subrange(word, 0, n0));
        let month = parse_u8(slice_subrange(word, from1, from1 + n1));
        let year = parse_u16(slice_subrange(word, from2, from2 + n2));
        match (day, month, year) {
            (Some(day), Some(month), Some(year)) => Ok(DateYMD(year, month, day)),
            _ => Err(()),
        }
    }

    /// The year as it was written.
    pub fn year(&self) -> (r: u16)
        ensures
            r == self.parts().0,
    {
        self.0
    }

    /// The month as it was written.
    pub fn month(&self) -> (r: u8)
        ensures
            r == self.parts().1,
    {
        self.1
    }

    /// The day as it was written.
    pub fn day(&self) -> (r: u8)
        ensures
            r == self.parts().2,
    {
        self.2
    }
}

/// A day of a month written as day and month.
#[derive(Debug, Clone, Copy, PartialEq, Eq, Structural)]
pub struct DateMD(u8, u8);

impl DateMD {
    /// Month and day, in this order.
    pub closed spec fn parts(self) -> (u8, u8) {
        (self.0, self.1)
    }

    /// The month and day that `word` spells: a day and a month with a dot
    /// between them. What follows a second dot is not looked at.
    pub open spec fn parsed(word: Seq<u8>) -> Option<(u8, u8)> {
        let parts = split(word, dot());
        if parts.len() < 2 {
            None
        } else {
            match (u8_of(parts[0]), u8_of(parts[1])) {
                (Some(day), Some(month)) => Some((month, day)),
                _ => None,
            }
        }
    }

    /// Reads a word as a day of a month.
    pub fn from_str(s: &str) -> (r: Result<DateMD, ()>)
        ensures
            match DateMD::parsed(s.spec_bytes()) {
                Some(parts) => r is Ok && r->Ok_0.parts() == parts,
                None => r is Err,
            },
    {
        let word = s.as_bytes();
        let marks: [u8; 1] = [0x2e];
        let seps = marks.as_slice();
        assert(seps@ =~= dot());
        proof {
            lemma_split_start(word@, dot());
            lemma_split_step(word@, dot(), 0, 0);
        }
        let n0 = scan_word(word, 0, seps);
        if n0 >= word.len() {
            return Err(());
        }
        let from1 = n0 + 1;
        proof {
            lemma_split_step(word@, dot(), from1 as int, 1);
        }
        let n1 = scan_word(word, from1, seps);
        let day = parse_u8(slice_subrange(word, 0, n0));
        let month = parse_u8(slice_subrange(word, from1, from1 + n1));
        match (day, month) {
            (Some(day), Some(month)) => Ok(DateMD(month, day)),
            _ => Err(()),
        }
    }

    /// The month as it was written.
    pub fn month(&self) -> (r: u8)
        ensures
            r == self.parts().0,
    {
        self.0
    }

    /// The day as it was written.
    pub fn day(&self) -> (r: u8)
        ensures
            r == self.parts().1,
    {
        self.1
    }
}

/// The texts that a list of words spells.
pub open spec fn texts_of(words: Seq<Seq<u8>>) -> Seq<Seq<char>> {
    Seq::new(words.len(), |i: int| decode_utf8(words[i]))
}

/// The phrase that ends at word `i` of `words`, and the number of words it is
/// made of.
pub open spec fn phrase_at(words: Seq<Seq<u8>>, i: int) -> Option<(DateRelative, usize)> {
    DateRelative::trailing_phrase(texts_of(words.take(i + 1)))
}

/// The date that is recognised once word `i` of `words` has been read, and
/// the number of words it is made of. A phrase that ends at word `i` comes
/// before a keyword, and a keyword before a date in numbers.
pub open spec fn date_at(words: Seq<Seq<u8>>, i: int) -> Option<(DateUnit, usize)> {
    match phrase_at(words, i) {
        Some((date, n)) => Some((DateUnit::Relative(date), n)),
        None => match DateRelative::parsed(decode_utf8(words[i])) {
            Some(date) => Some((DateUnit::Relative(date), 1usize)),
            None => match DateStructured::parsed(words[i]) {
                Some(date) => Some((DateUnit::Structured(date), 1usize)),
                None => None,
            },
        },
    }
}

/// The index of the first word at or after `from` at which a date is
/// recognised, or the number of words if there is none.
pub open spec fn first_date_word(words: Seq<Seq<u8>>, from: int) -> int
    decreases words.len() - from,
{
    if from >= words.len() || date_at(words, from) is Some {
        from
    } else {
        first_date_word(words, from + 1)
    }
}

/// The first date in `s`, with the offsets of the first byte of its first
/// word and of the byte after its last word.
pub open spec fn found_date(s: Seq<u8>) -> Option<(DateUnit, int, int)> {
    let words = split(s, date_separators());
    let i = first_date_word(words, 0);
    if i < words.len() {
        let (unit, n) = date_at(words, i)->0;
        Some((unit, word_offset(words, i + 1 - n), word_offset(words, i) + words[i].len()))
    } else {
        None
    }
}

/// A phrase is made of two or three words, and of no more words than there
/// are.
pub proof fn lemma_trailing_phrase_len(words: Seq<Seq<char>>)
    ensures
        DateRelative::trailing_phrase(words) matches Some((_, n)) ==> 2 <= n <= words.len(),
{
}

/// `first_date_word` is the first index at which a date is recognised: no
/// date is recognised at a word in front of it, and one is recognised at the
/// word itself unless the words have run out.
pub proof fn lemma_first_date_word(words: Seq<Seq<u8>>, from: int)
    requires
        0 <= from <= words.len(),
    ensures
        from <= first_date_word(words, from) <= words.len(),
        forall|j: int| from <= j < first_date_word(words, from) ==> date_at(words, j) is None,
        first_date_word(words, from) < words.len() ==> date_at(
            words,
            first_date_word(words, from),
        ) is Some,
    decreases words.len() - from,
{
    if from < words.len() && date_at(words, from) is None {
        lemma_first_date_word(words, from + 1);
    }
}

/// An index with no date in front of it, at which a date is recognised or the
/// words run out, is the one that `first_date_word` gives.
pub proof fn lemma_first_date_word_is(words: Seq<Seq<u8>>, from: int, i: int)
    requires
        0 <= from <= i <= words.len(),
        forall|j: int| from <= j < i ==> date_at(words, j) is None,
        i < words.len() ==> date_at(words, i) is Some,
    ensures
        first_date_word(words, from) == i,
    decreases i - from,
{
    if from < i {
        lemma_first_date_word_is(words, from + 1, i);
    }
}

/// No date is found exactly where no date is recognised at any word.
pub proof fn lemma_found_date_none(s: Seq<u8>)
    ensures
        found_date(s) is None <==> forall|i: int|
            0 <= i < split(s, date_separators()).len() ==> date_at(
                split(s, date_separators()),
                i,
            ) is None,
{
    let words = split(s, date_separators());
    lemma_first_date_word(words, 0);
    if forall|i: int| 0 <= i < words.len() ==> date_at(words, i) is None {
        lemma_first_date_word_is(words, 0, words.len() as int);
    }
}

/// A date that is found is the first one: no date is recognised at a word in
/// front of the word at which it ends. It lies inside the text, and it
/// starts and ends between characters.
pub proof fn lemma_found_date(s: Seq<u8>)
    requires
        valid_utf8(s),
    ensures
        found_date(s) matches Some((unit, start, end)) ==> {
            let words = split(s, date_separators());
            let i = first_date_word(words, 0);
            &&& 0 <= i < words.len()
            &&& date_at(words, i) matches Some((found, n)) && found == unit && 1 <= n <= i + 1
                && start == word_offset(words, i + 1 - n)
            &&& end == word_offset(words, i) + words[i].len()
            &&& forall|j: int| 0 <= j < i ==> date_at(words, j) is None
            &&& 0 <= start <= end <= s.len()
            &&& is_char_boundary(s, start)
            &&& is_char_boundary(s, end)
        },
{
    let words = split(s, date_separators());
    lemma_first_date_word(words, 0);
    let i = first_date_word(words, 0);
    if i < words.len() {
        let (unit, n) = date_at(words, i)->0;
        lemma_trailing_phrase_len(texts_of(words.take(i + 1)));
        let first = i + 1 - n;
        lemma_word_offset_monotonic(words, first, i);
        assert(ascii_only(date_separators()));
        lemma_words_between_chars(s, date_separators(), i);
        lemma_words_between_chars(s, date_separators(), first);
    }
}

/// A date behind other words is found where it stands.
///
/// Let `token` be a date and nothing else: read on its own, it is found to
/// reach from its first byte to its last. Put it behind a `prefix` and a
/// separator. If no date is found in the prefix, and no phrase reaches from a
/// word of the token back into the prefix, the date that is found in the
/// whole text is that of the token, it starts where the token starts, and it
/// ends where the token ends.
pub proof fn lemma_date_after_prefix(prefix: Seq<u8>, sep: u8, token: Seq<u8>)
    requires
        date_separators().contains(sep),
        found_date(prefix) is None,
        found_date(token) matches Some((_, start, end)) && start == 0 && end == token.len(),
        forall|j: int|
            0 <= j < split(token, date_separators()).len() ==> phrase_at(
                split(prefix, date_separators()) + split(token, date_separators()),
                split(prefix, date_separators()).len() + j,
            ) == phrase_at(split(token, date_separators()), j),
    ensures
        found_date(token) matches Some((unit, _, _)) && found_date(prefix + seq![sep] + token)
            == Some((unit, prefix.len() + 1int, prefix.len() + 1int + token.len())),
{
    let seps = date_separators();
    let before = split(prefix, seps);
    let after = split(token, seps);
    let words = before + after;
    let p = before.len() as int;
    lemma_split_concat(prefix, sep, token, seps);
    assert(split(prefix + seq![sep] + token, seps) == words);
    lemma_first_date_word(before, 0);
    lemma_first_date_word(after, 0);
    let m = first_date_word(after, 0);
    assert forall|j: int| 0 <= j < p + m implies date_at(words, j) is None by {
        if j < p {
            assert(date_at(before, j) is None);
            assert(words.take(j + 1) =~= before.take(j + 1));
            assert(words[j] == before[j]);
        } else {
            assert(date_at(after, j - p) is None);
            assert(phrase_at(words, p + (j - p)) == phrase_at(after, j - p));
            assert(words[j] == after[j - p]);
        }
    }
    assert(date_at(words, p + m) == date_at(after, m)) by {
        assert(phrase_at(words, p + m) == phrase_at(after, m));
        assert(words[p + m] == after[m]);
    }
    lemma_first_date_word_is(words, 0, p + m);
    let (unit, n) = date_at(after, m)->0;
    lemma_trailing_phrase_len(texts_of(after.take(m + 1)));
    lemma_word_offset_concat(before, after, m + 1 - n);
    lemma_word_offset_concat(before, after, m);
    lemma_word_offset_end(prefix, seps);
}

/// Tries to find a date from the supplied string.
/// The date can be expressed as
/// - a full gregorian calendar date in (d)d.(m)m.(yyy)y: 8.12.2000, 13.04.2004, 1.1.0
/// - next matching (d)d.(m)m. gregorian calendar date: 8.12., 13.04., 1.1.
///   - If the date is currently 01.06.2019, the strings above will be parsed as: 8.12.2019,
///     13.04.2020, 1.1.2020
/// - a relative date, such as:
///   - tomorrow
///   - yesterday
///   - ("next"/"last") (weekday)
///
/// The first date that can be read is taken. It is returned with the offsets
/// in `s` at which it starts and ends, both of which lie between characters.
pub fn find_date(s: &str) -> (r: Option<(DateUnit, usize, usize)>)
    ensures
        r == match found_date(s.spec_bytes()) {
            Some((unit, start, end)) => Some((unit, start as usize, end as usize)),
            None => None,
        },
        found_date(s.spec_bytes()) matches Some((_, start, end)) ==> 0 <= start <= end
            <= s.spec_bytes().len() && is_char_boundary(s.spec_bytes(), start)
            && is_char_boundary(s.spec_bytes(), end),
{
    let ghost bytes = s.spec_bytes();
    let ghost words = split(bytes, date_separators());
    let total = s.as_bytes().len();
    let marks: [u8; 2] = [0x20, 0x2c];
    let seps = marks.as_slice();
    assert(seps@ =~= date_separators());
    let mut start: usize = 0;
    let mut rest: &str = s;
    let mut past_words: Vec<String> = Vec::new();
    let mut past_words_start_positions: Vec<usize> = Vec::new();
    proof {
        lemma_split_start(bytes, date_separators());
        assert(bytes.skip(0) =~= bytes);
        encode_utf8_valid_utf8(s@);
    }
    loop
        invariant
            bytes == s.spec_bytes(),
            total == bytes.len(),
            valid_utf8(bytes),
            words == split(bytes, date_separators()),
            seps@ == date_separators(),
            0 <= start <= bytes.len(),
            rest.spec_bytes() == bytes.skip(start as int),
            past_words@.len() < words.len(),
            past_words_start_positions@.len() == past_words@.len(),
            words.skip(past_words@.len() as int) =~= split(
                bytes.skip(start as int),
                date_separators(),
            ),
            start == word_offset(words, past_words@.len() as int),
            first_date_word(words, 0) == first_date_word(words, past_words@.len() as int),
            forall|j: int|
                0 <= j < past_words@.len() ==> (#[trigger] past_words@[j])@ == decode_utf8(
                    words[j],
                ),
            forall|j: int|
                0 <= j < past_words@.len() ==> #[trigger] past_words_start_positions@[j]
                    == word_offset(words, j),
        decreases bytes.len() - start,
    {
        let ghost k = past_words@.len() as int;
        proof {
            lemma_split_step(bytes, date_separators(), start as int, k);
        }
        let (word, next) = take_word(rest, seps);
        let end = start + word.as_bytes().len();
        assert(word.spec_bytes() =~= words[k]);
        past_words.push(word.to_owned());
        past_words_start_positions.push(start);
        proof {
            assert(texts(past_words@) =~= texts_of(words.take(k + 1)));
            lemma_words_between_chars(bytes, date_separators(), k);
        }
        if let Some((unit, words_matched)) = DateRelative::parse_multiword(&past_words) {
            let first = past_words_start_positions.len() - words_matched;
            let start = past_words_start_positions[first];
            proof {
                lemma_word_offset_monotonic(words, first as int, k);
                lemma_words_between_chars(bytes, date_separators(), first as int);
            }
            return Some((DateUnit::Relative(unit), start, end));
        }
        if let Ok(unit) = DateRelative::from_str(word) {
            return Some((DateUnit::Relative(unit), start, end));
        }
        if let Ok(unit) = DateStructured::from_str(word) {
            return Some((DateUnit::Structured(unit), start, end));
        }
        match next {
            Some(next) => {
                assert(next.spec_bytes() =~= bytes.skip(end + 1));
                rest = next;
                start = end + 1;
            },
            None => {
                assert(first_date_word(words, k + 1) == words.len());
                return None;
            },
        }
    }
}

} // verus!
