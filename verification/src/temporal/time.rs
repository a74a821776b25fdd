//! Time expressions: what they look like and which time of day they mean.

use crate::calendar::{is_time, CivilTime};
use crate::error::EventParseError;
use crate::number::{i8_of, parse_i8};
use crate::text::{ascii_only, lemma_words_between_chars};
use crate::words::{
    lemma_split_concat, lemma_split_layout, lemma_split_single, lemma_split_start,
    lemma_split_step, scan_word, split, word_offset,
};
use vstd::utf8::*;
use vstd::prelude::*;
use vstd::slice::slice_subrange;
use vstd::string::*;

verus! {

/// The byte that separates hours, minutes and seconds.
pub open spec fn colon() -> Seq<u8> {
    seq![0x3au8]
}

/// The bytes that separate the words among which a time is looked for: the
/// space, the comma and the at sign, which may introduce a location, and the
/// hyphen, which may introduce a duration.
pub open spec fn time_separators() -> Seq<u8> {
    seq![0x20u8, 0x2c, 0x40, 0x2d]
}

/// A time of day written out in numbers. The numbers are kept as they were
/// written: whether there is such a time is decided when it is resolved.
#[derive(Debug, Clone, Copy, PartialEq, Eq, Structural)]
pub enum TimeStructured {
    /// Hours
    H(i8),
    /// Hours, Minutes
    Hm(i8, i8),
    /// Hours, Minutes, Seconds
    Hms(i8, i8, i8),
}

impl TimeStructured {
    /// The time that `word` spells: up to three numbers with colons between
    /// them. Minutes and seconds may be left out, also where the colon in
    /// front of them is written; what follows a third colon is not looked at.
    pub open spec fn parsed(word: Seq<u8>) -> Option<TimeStructured> {
        let parts = split(word, colon());
        match i8_of(parts[0]) {
            None => None,
            Some(hours) => if parts.len() >= 2 && parts[1].len() > 0 {
                match i8_of(parts[1]) {
                    None => None,
                    Some(minutes) => if parts.len() >= 3 && parts[2].len() > 0 {
                        match i8_of(parts[2]) {
                            None => None,
                            Some(seconds) => Some(TimeStructured::Hms(hours, minutes, seconds)),
                        }
                    } else {
                        Some(TimeStructured::Hm(hours, minutes))
                    },
                }
            } else {
                Some(TimeStructured::H(hours))
            },
        }
    }

    /// Reads a word as a time.
    pub fn from_bytes(word: &[u8]) -> (r: Option<TimeStructured>)
        ensures
            r == TimeStructured::parsed(word@),
    {
        let marks: [u8; 1] = [0x3a];
        let seps = marks.as_slice();
        assert(seps@ =~= colon());
        let ghost parts = split(word@, colon());
        proof {
            lemma_split_start(word@, colon());
            lemma_split_step(word@, colon(), 0, 0);
        }
        let n0 = scan_word(word, 0, seps);
        let hours = match parse_i8(slice_subrange(word, 0, n0)) {
            Some(hours) => hours,
            None => {
                return None;
            },
        };
        if n0 >= word.len() {
            return Some(TimeStructured::H(hours));
        }
        let from1 = n0 + 1;
        proof {
            lemma_split_step(word@, colon(), from1 as int, 1);
        }
        let n1 = scan_word(word, from1, seps);
        if n1 == 0 {
            return Some(TimeStructured::H(hours));
        }
        let minutes = match parse_i8(slice_subrange(word, from1, from1 + n1)) {
            Some(minutes) => minutes,
            None => {
                return None;
            },
        };
        if from1 + n1 >= word.len() {
            return Some(TimeStructured::Hm(hours, minutes));
        }
        let from2 = from1 + n1 + 1;
        proof {
            lemma_split_step(word@, colon(), from2 as int, 2);
        }
        let n2 = scan_word(word, from2, seps);
        if n2 == 0 {
            return Some(TimeStructured::Hm(hours, minutes));
        }
        match parse_i8(slice_subrange(word, from2, from2 + n2)) {
            Some(seconds) => Some(TimeStructured::Hms(hours, minutes, seconds)),
            None => None,
        }
    }

    /// Reads a word as a time.
    pub fn from_str(s: &str) -> (r: Result<TimeStructured, ()>)
        ensures
            r == match TimeStructured::parsed(s.spec_bytes()) {
                Some(time) => Ok::<TimeStructured, ()>(time),
                None => Err::<TimeStructured, ()>(()),
            },
    {
        match TimeStructured::from_bytes(s.as_bytes()) {
            Some(time) => Ok(time),
            None => Err(()),
        }
    }
}

/// An hour alone is read as a time, and so is an hour followed by a colon.
pub proof fn lemma_hour_token(hours: Seq<u8>)
    requires
        !hours.contains(0x3au8),
    ensures
        TimeStructured::parsed(hours) == match i8_of(hours) {
            Some(h) => Some(TimeStructured::H(h)),
            None => None,
        },
        TimeStructured::parsed(hours + seq![0x3au8]) == TimeStructured::parsed(hours),
{
    lemma_split_single(hours, 0x3a);
    lemma_split_single(Seq::<u8>::empty(), 0x3a);
    assert(colon()[0] == 0x3a);
    lemma_split_concat(hours, 0x3a, Seq::<u8>::empty(), colon());
    assert(hours + seq![0x3au8] =~= hours + seq![0x3au8] + Seq::<u8>::empty());
    let parts = split(hours + seq![0x3au8], colon());
    assert(parts =~= seq![hours, Seq::<u8>::empty()]);
}

/// An hour and a minute with a colon between them are read as a time.
pub proof fn lemma_hour_minute_token(hours: Seq<u8>, minutes: Seq<u8>)
    requires
        !hours.contains(0x3au8),
        !minutes.contains(0x3au8),
        minutes.len() > 0,
    ensures
        TimeStructured::parsed(hours + seq![0x3au8] + minutes) == match (
            i8_of(hours),
            i8_of(minutes),
        ) {
            (Some(h), Some(m)) => Some(TimeStructured::Hm(h, m)),
            _ => None,
        },
{
    lemma_split_single(hours, 0x3a);
    lemma_split_single(minutes, 0x3a);
    assert(colon()[0] == 0x3a);
    lemma_split_concat(hours, 0x3a, minutes, colon());
    let parts = split(hours + seq![0x3au8] + minutes, colon());
    assert(parts =~= seq![hours, minutes]);
}

/// An hour, a minute and a second with colons between them are read as a
/// time.
pub proof fn lemma_hour_minute_second_token(hours: Seq<u8>, minutes: Seq<u8>, seconds: Seq<u8>)
    requires
        !hours.contains(0x3au8),
        !minutes.contains(0x3au8),
        !seconds.contains(0x3au8),
        minutes.len() > 0,
        seconds.len() > 0,
    ensures
        TimeStructured::parsed(hours + seq![0x3au8] + minutes + seq![0x3au8] + seconds) == match (
            i8_of(hours),
            i8_of(minutes),
            i8_of(seconds),
        ) {
            (Some(h), Some(m), Some(s)) => Some(TimeStructured::Hms(h, m, s)),
            _ => None,
        },
{
    lemma_split_single(hours, 0x3a);
    lemma_split_single(minutes, 0x3a);
    lemma_split_single(seconds, 0x3a);
    assert(colon()[0] == 0x3a);
    lemma_split_concat(minutes, 0x3a, seconds, colon());
    lemma_split_concat(hours, 0x3a, minutes + seq![0x3au8] + seconds, colon());
    assert(hours + seq![0x3au8] + minutes + seq![0x3au8] + seconds =~= hours + seq![0x3au8] + (
    minutes + seq![0x3au8] + seconds));
    let parts = split(hours + seq![0x3au8] + minutes + seq![0x3au8] + seconds, colon());
    assert(parts =~= seq![hours, minutes, seconds]);
}

/// Something that stands for a time of day.
pub trait AsTime {
    /// The time of day that this stands for, or the reason why there is no
    /// such time.
    spec fn resolved(&self) -> Result<CivilTime, EventParseError>;

    /// Works out the time of day that this stands for.
    fn as_time(&self) -> (r: Result<CivilTime, EventParseError>)
        ensures
            r == self.resolved(),
            r matches Ok(time) ==> time.wf(),
    ;
}

impl TimeStructured {
    /// The hour that was written.
    pub open spec fn hours(self) -> i8 {
        match self {
            TimeStructured::H(h) => h,
            TimeStructured::Hm(h, _) => h,
            TimeStructured::Hms(h, _, _) => h,
        }
    }

    /// The minute that was written, zero if none was.
    pub open spec fn minutes(self) -> i8 {
        match self {
            TimeStructured::H(_) => 0,
            TimeStructured::Hm(_, m) => m,
            TimeStructured::Hms(_, m, _) => m,
        }
    }

    /// The second that was written, zero if none was.
    pub open spec fn seconds(self) -> i8 {
        match self {
            TimeStructured::H(_) => 0,
            TimeStructured::Hm(_, _) => 0,
            TimeStructured::Hms(_, _, s) => s,
        }
    }
}

impl AsTime for TimeStructured {
    open spec fn resolved(&self) -> Result<CivilTime, EventParseError> {
        if is_time(self.hours() as int, self.minutes() as int, self.seconds() as int) {
            Ok(CivilTime { hour: self.hours(), minute: self.minutes(), second: self.seconds() })
        } else {
            Err(EventParseError::InvalidTime)
        }
    }

    fn as_time(&self) -> (r: Result<CivilTime, EventParseError>) {
        let found = match self {
            TimeStructured::H(h) => CivilTime::new(*h, 0, 0),
            TimeStructured::Hm(h, m) => CivilTime::new(*h, *m, 0),
            TimeStructured::Hms(h, m, s) => CivilTime::new(*h, *m, *s),
        };
        match found {
            Some(time) => Ok(time),
            None => Err(EventParseError::InvalidTime),
        }
    }
}

/// A time as it was found in a text.
#[derive(Debug, Clone, Copy, PartialEq, Eq, Structural)]
pub enum TimeUnit {
    Structured(TimeStructured),
}

impl AsTime for TimeUnit {
    open spec fn resolved(&self) -> Result<CivilTime, EventParseError> {
        match self {
            TimeUnit::Structured(structured) => structured.resolved(),
        }
    }

    fn as_time(&self) -> (r: Result<CivilTime, EventParseError>) {
        match self {
            TimeUnit::Structured(structured) => structured.as_time(),
        }
    }
}

/// The number of spaces at the start of `s`.
pub open spec fn leading_spaces(s: Seq<u8>) -> int
    decreases s.len(),
{
    if s.len() == 0 || s[0] != 0x20 {
        0
    } else {
        1 + leading_spaces(s.skip(1))
    }
}

/// A run of `n` spaces that ends at another byte, or at the end of `s`, is
/// the run of spaces at the start of `s`.
pub proof fn lemma_leading_spaces_is(s: Seq<u8>, n: int)
    requires
        0 <= n <= s.len(),
        n < s.len() ==> s[n] != 0x20,
        forall|j: int| 0 <= j < n ==> #[trigger] s[j] == 0x20,
    ensures
        leading_spaces(s) == n,
    decreases n,
{
    if n > 0 {
        let t = s.skip(1);
        assert forall|j: int| 0 <= j < n - 1 implies #[trigger] t[j] == 0x20 by {
            assert(t[j] == s[j + 1]);
        }
        lemma_leading_spaces_is(t, n - 1);
    }
}

/// There are no more spaces at the start of a text than the text has bytes.
pub proof fn lemma_leading_spaces_bound(s: Seq<u8>)
    ensures
        0 <= leading_spaces(s) <= s.len(),
    decreases s.len(),
{
    if s.len() > 0 && s[0] == 0x20 {
        lemma_leading_spaces_bound(s.skip(1));
    }
}

/// The index of the first word at or after `from` that spells a time, or the
/// number of words if there is none.
pub open spec fn first_time_word(words: Seq<Seq<u8>>, from: int) -> int
    decreases words.len() - from,
{
    if from >= words.len() || TimeStructured::parsed(words[from]) is Some {
        from
    } else {
        first_time_word(words, from + 1)
    }
}

/// What is added to every offset that the time scanner reports: one less than
/// the number of spaces at the start of the text, and nothing if there are
/// none. With at most one space in front, the offsets are those of the word
/// in the text.
pub open spec fn time_offset_base(s: Seq<u8>) -> int {
    if leading_spaces(s) >= 1 {
        leading_spaces(s) - 1
    } else {
        0
    }
}

/// The first word of `s` that spells a time, with the offsets at which the
/// scanner reports its start and its end.
pub open spec fn found_time(s: Seq<u8>) -> Option<(TimeUnit, int, int)> {
    let words = split(s, time_separators());
    let i = first_time_word(words, 0);
    if i < words.len() {
        let start = time_offset_base(s) + word_offset(words, i);
        Some(
            (
                TimeUnit::Structured(TimeStructured::parsed(words[i])->0),
                start,
                start + words[i].len(),
            ),
        )
    } else {
        None
    }
}

/// `first_time_word` is the first index at which a time is spelt: no word in
/// front of it spells a time, and the word itself does unless the words have
/// run out.
pub proof fn lemma_first_time_word(words: Seq<Seq<u8>>, from: int)
    requires
        0 <= from <= words.len(),
    ensures
        from <= first_time_word(words, from) <= words.len(),
        forall|j: int|
            from <= j < first_time_word(words, from) ==> TimeStructured::parsed(
                #[trigger] words[j],
            ) is None,
        first_time_word(words, from) < words.len() ==> TimeStructured::parsed(
            words[first_time_word(words, from)],
        ) is Some,
    decreases words.len() - from,
{
    if from < words.len() && TimeStructured::parsed(words[from]) is None {
        lemma_first_time_word(words, from + 1);
    }
}

/// A time that is found is the first word that spells one. Where the text
/// starts with at most one space, the offsets are those of that word in the
/// text: they lie inside the text and between characters.
pub proof fn lemma_found_time(s: Seq<u8>)
    requires
        valid_utf8(s),
    ensures
        found_time(s) matches Some((unit, start, end)) ==> {
            let words = split(s, time_separators());
            let i = first_time_word(words, 0);
            &&& 0 <= i < words.len()
            &&& TimeStructured::parsed(words[i]) == Some(unit->Structured_0)
            &&& start == time_offset_base(s) + word_offset(words, i)
            &&& end == start + words[i].len()
            &&& 0 <= start <= end <= s.len() + time_offset_base(s)
            &&& 0 <= time_offset_base(s) <= s.len()
            &&& time_offset_base(s) == 0 ==> end <= s.len() && is_char_boundary(s, start)
                && is_char_boundary(s, end) && words[i] == s.subrange(start, end)
        },
        found_time(s) is None <==> forall|i: int|
            0 <= i < split(s, time_separators()).len() ==> TimeStructured::parsed(
                #[trigger] split(s, time_separators())[i],
            ) is None,
{
    let words = split(s, time_separators());
    lemma_first_time_word(words, 0);
    lemma_leading_spaces_bound(s);
    let i = first_time_word(words, 0);
    if i < words.len() {
        assert(ascii_only(time_separators()));
        lemma_words_between_chars(s, time_separators(), i);
        lemma_split_layout(s, time_separators(), i);
    }
}

/// Tries to find a time in the text that follows a date.
/// The time can be expressed as
/// - a (H)H time: 12, 01, 8, ...
/// - a (H)H:(M)M time: 12:00, 01:30, 8:1, ...
/// - a (H)H:(M)M:(S)S time: 12:00:00, 01:30:1, 8:1:23, ...
///
/// The first word that reads as a time is taken. It is returned with the
/// offsets of its start and its end, both moved by `time_offset_base`.
pub fn find_time(s_after_date: &str) -> (r: Option<(TimeUnit, usize, usize)>)
    requires
        s_after_date.spec_bytes().len() <= usize::MAX / 2,
    ensures
        r == match found_time(s_after_date.spec_bytes()) {
            Some((unit, start, end)) => Some((unit, start as usize, end as usize)),
            None => None,
        },
        found_time(s_after_date.spec_bytes()) matches Some((_, start, end)) ==> 0 <= start <= end
            <= s_after_date.spec_bytes().len() + time_offset_base(s_after_date.spec_bytes())
            && time_offset_base(s_after_date.spec_bytes()) <= s_after_date.spec_bytes().len(),
{
    let bytes = s_after_date.as_bytes();
    let n = bytes.len();
    let mut spaces: usize = 0;
    while spaces < n && bytes[spaces] == 0x20
        invariant
            0 <= spaces <= n,
            n == bytes@.len(),
            forall|j: int| 0 <= j < spaces ==> #[trigger] bytes@[j] == 0x20,
        decreases n - spaces,
    {
        spaces = spaces + 1;
    }
    proof {
        lemma_leading_spaces_is(bytes@, spaces as int);
    }
    let base: usize = if spaces > 0 {
        spaces - 1
    } else {
        0
    };
    let marks: [u8; 4] = [0x20, 0x2c, 0x40, 0x2d];
    let seps = marks.as_slice();
    assert(seps@ =~= time_separators());
    let ghost words = split(bytes@, time_separators());
    let mut from: usize = 0;
    let ghost mut k: int = 0;
    proof {
        lemma_split_start(bytes@, time_separators());
    }
    loop
        invariant
            bytes@ == s_after_date.spec_bytes(),
            n == bytes@.len(),
            n <= usize::MAX / 2,
            base == time_offset_base(bytes@),
            base <= n,
            seps@ == time_separators(),
            words == split(bytes@, time_separators()),
            0 <= from <= n,
            0 <= k <= words.len(),
            words.skip(k) =~= split(bytes@.skip(from as int), time_separators()),
            from == word_offset(words, k),
            first_time_word(words, 0) == first_time_word(words, k),
        decreases n - from,
    {
        proof {
            lemma_split_step(bytes@, time_separators(), from as int, k);
        }
        let len = scan_word(bytes, from, seps);
        let word = slice_subrange(bytes, from, from + len);
        match TimeStructured::from_bytes(word) {
            Some(time) => {
                return Some((TimeUnit::Structured(time), base + from, base + from + len));
            },
            None => {},
        }
        if from + len >= n {
            assert(first_time_word(words, k + 1) == words.len());
            return None;
        }
        from = from + len + 1;
        proof {
            k = k + 1;
        }
    }
}

} // verus!
