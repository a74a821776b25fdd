use nlcep::number::{parse_i16, parse_i8, parse_u16, parse_u8};
use nlcep::temporal::date::{
    find_date, DateMD, DateRelative, DateRelativeLanguage, DateRelativeWeekday, DateStructured,
    DateUnit, DateYMD,
};
use nlcep::temporal::time::{find_time, TimeStructured, TimeUnit};
use nlcep::text::{bytes_eq, str_eq, take_word};
use nlcep::words::{is_separator, scan_word};

const ENGLISH: DateRelativeLanguage = DateRelativeLanguage::English;
const FINNISH: DateRelativeLanguage = DateRelativeLanguage::Finnish;

#[test]
fn numbers_accept_a_sign_and_digits_only() {
    assert_eq!(parse_i8(b"0"), Some(0));
    assert_eq!(parse_i8(b"007"), Some(7));
    assert_eq!(parse_i8(b"+5"), Some(5));
    assert_eq!(parse_i8(b"-5"), Some(-5));
    assert_eq!(parse_i8(b"-0"), Some(0));
    assert_eq!(parse_i8(b""), None);
    assert_eq!(parse_i8(b"+"), None);
    assert_eq!(parse_i8(b"-"), None);
    assert_eq!(parse_i8(b"+-5"), None);
    assert_eq!(parse_i8(b" 5"), None);
    assert_eq!(parse_i8(b"5 "), None);
    assert_eq!(parse_i8(b"1_0"), None);
    assert_eq!(parse_i8(b"5a"), None);
    assert_eq!(parse_i8("\u{661}".as_bytes()), None);
}

#[test]
fn numbers_are_held_to_their_width() {
    assert_eq!(parse_i8(b"127"), Some(127));
    assert_eq!(parse_i8(b"128"), None);
    assert_eq!(parse_i8(b"-128"), Some(-128));
    assert_eq!(parse_i8(b"-129"), None);
    assert_eq!(parse_i8(b"0000000000000000000000127"), Some(127));
    assert_eq!(parse_i8(b"99999999999999999999999999"), None);
    assert_eq!(parse_i16(b"32767"), Some(32767));
    assert_eq!(parse_i16(b"32768"), None);
    assert_eq!(parse_i16(b"-32768"), Some(-32768));
    assert_eq!(parse_i16(b"-32769"), None);
    assert_eq!(parse_u8(b"255"), Some(255));
    assert_eq!(parse_u8(b"256"), None);
    assert_eq!(parse_u8(b"+255"), Some(255));
    assert_eq!(parse_u8(b"-1"), None);
    assert_eq!(parse_u8(b"-0"), None);
    assert_eq!(parse_u16(b"65535"), Some(65535));
    assert_eq!(parse_u16(b"65536"), None);
    assert_eq!(parse_u16(b"-1"), None);
}

#[test]
fn numbers_agree_with_the_standard_library() {
    let samples = [
        "", "0", "1", "-1", "+1", "12", "127", "128", "-128", "-129", "255", "256", "0255",
        "32767", "32768", "-32768", "-32769", "65535", "65536", "1e3", "0x10", "--1", "++1", "1-",
        "1+", " 1", "1 ", "٣",
    ];
    for s in samples {
        assert_eq!(parse_i8(s.as_bytes()), s.parse::<i8>().ok(), "{:?}", s);
        assert_eq!(parse_i16(s.as_bytes()), s.parse::<i16>().ok(), "{:?}", s);
        assert_eq!(parse_u8(s.as_bytes()), s.parse::<u8>().ok(), "{:?}", s);
        assert_eq!(parse_u16(s.as_bytes()), s.parse::<u16>().ok(), "{:?}", s);
    }
}

#[test]
fn every_small_number_round_trips() {
    for v in i8::MIN..=i8::MAX {
        assert_eq!(parse_i8(format!("{}", v).as_bytes()), Some(v));
    }
    for v in [i16::MIN, -1000, -1, 0, 1, 999, 2024, i16::MAX] {
        assert_eq!(parse_i16(format!("{}", v).as_bytes()), Some(v));
    }
}

#[test]
fn words_end_at_separators() {
    let seps = [b' ', b','];
    assert!(is_separator(b' ', &seps));
    assert!(is_separator(b',', &seps));
    assert!(!is_separator(b'.', &seps));
    assert!(!is_separator(b' ', &[]));
    assert_eq!(scan_word(b"ab cd", 0, &seps), 2);
    assert_eq!(scan_word(b"ab cd", 2, &seps), 0);
    assert_eq!(scan_word(b"ab cd", 3, &seps), 2);
    assert_eq!(scan_word(b"ab cd", 5, &seps), 0);
    assert_eq!(scan_word(b"ab,cd", 1, &seps), 1);
    assert_eq!(scan_word(b"", 0, &seps), 0);
}

#[test]
fn words_are_cut_off_one_by_one() {
    let seps = [b' ', b','];
    assert_eq!(take_word("ab cd", &seps), ("ab", Some("cd")));
    assert_eq!(take_word("ab", &seps), ("ab", None));
    assert_eq!(take_word("ab ", &seps), ("ab", Some("")));
    assert_eq!(take_word(" ab", &seps), ("", Some("ab")));
    assert_eq!(take_word("", &seps), ("", None));
    assert_eq!(take_word("\u{e4}\u{e4},\u{f6}", &seps), ("\u{e4}\u{e4}", Some("\u{f6}")));
}

#[test]
fn texts_are_equal_when_their_bytes_are() {
    assert!(str_eq("", ""));
    assert!(str_eq("abc", "abc"));
    assert!(!str_eq("abc", "abd"));
    assert!(!str_eq("abc", "ab"));
    assert!(!str_eq("ab", "abc"));
    assert!(str_eq("t\u{e4}n\u{e4}\u{e4}n", "tänään"));
    assert!(bytes_eq(b"", b""));
    assert!(bytes_eq(b"xy", b"xy"));
    assert!(!bytes_eq(b"xy", b"xz"));
    assert!(!bytes_eq(b"xy", b"x"));
}

#[test]
fn time_words() {
    assert_eq!(TimeStructured::from_str("12"), Ok(TimeStructured::H(12)));
    assert_eq!(TimeStructured::from_str("12:30"), Ok(TimeStructured::Hm(12, 30)));
    assert_eq!(TimeStructured::from_str("12:30:45"), Ok(TimeStructured::Hms(12, 30, 45)));
    assert_eq!(TimeStructured::from_str("007:08:09"), Ok(TimeStructured::Hms(7, 8, 9)));
    assert_eq!(TimeStructured::from_str("+5"), Ok(TimeStructured::H(5)));
    assert_eq!(TimeStructured::from_str("-5:30"), Ok(TimeStructured::Hm(-5, 30)));
    assert_eq!(TimeStructured::from_str("99:99:99"), Ok(TimeStructured::Hms(99, 99, 99)));
    assert_eq!(TimeStructured::from_str("127"), Ok(TimeStructured::H(127)));
    assert_eq!(TimeStructured::from_bytes(b"8:15"), Some(TimeStructured::Hm(8, 15)));
}

#[test]
fn time_words_may_leave_out_what_follows_a_colon() {
    assert_eq!(TimeStructured::from_str("12:"), Ok(TimeStructured::H(12)));
    assert_eq!(TimeStructured::from_str("12:30:"), Ok(TimeStructured::Hm(12, 30)));
    assert_eq!(TimeStructured::from_str("1::3"), Ok(TimeStructured::H(1)));
    assert_eq!(TimeStructured::from_str("1::x"), Ok(TimeStructured::H(1)));
    assert_eq!(TimeStructured::from_str("1:2:3:4"), Ok(TimeStructured::Hms(1, 2, 3)));
    assert_eq!(TimeStructured::from_str("1:2:3:x"), Ok(TimeStructured::Hms(1, 2, 3)));
    assert_eq!(TimeStructured::from_str("1:2::"), Ok(TimeStructured::Hm(1, 2)));
}

#[test]
fn words_that_are_no_time() {
    assert_eq!(TimeStructured::from_str(""), Err(()));
    assert_eq!(TimeStructured::from_str(":30"), Err(()));
    assert_eq!(TimeStructured::from_str("a"), Err(()));
    assert_eq!(TimeStructured::from_str("12:xx"), Err(()));
    assert_eq!(TimeStructured::from_str("1:2:zz"), Err(()));
    assert_eq!(TimeStructured::from_str("128"), Err(()));
    assert_eq!(TimeStructured::from_str("1:128"), Err(()));
    assert_eq!(TimeStructured::from_str("1:2:128"), Err(()));
    assert_eq!(TimeStructured::from_str("12.30"), Err(()));
    assert_eq!(TimeStructured::from_str("12 30"), Err(()));
    assert_eq!(TimeStructured::from_bytes(b"noon"), None);
}

#[test]
fn find_time_takes_the_first_word_that_is_a_time() {
    assert_eq!(find_time(""), None);
    assert_eq!(find_time("abc"), None);
    assert_eq!(find_time("   "), None);
    assert_eq!(find_time("soon, maybe @ home - or not"), None);
    assert_eq!(find_time("x,12:30"), Some((TimeUnit::Structured(TimeStructured::Hm(12, 30)), 2, 7)));
    assert_eq!(find_time("x@7"), Some((TimeUnit::Structured(TimeStructured::H(7)), 2, 3)));
    assert_eq!(find_time("10-12"), Some((TimeUnit::Structured(TimeStructured::H(10)), 0, 2)));
    assert_eq!(find_time("9 10"), Some((TimeUnit::Structured(TimeStructured::H(9)), 0, 1)));
    assert_eq!(
        find_time("a 99:99 b"),
        Some((TimeUnit::Structured(TimeStructured::Hm(99, 99)), 2, 7))
    );
}

#[test]
fn find_time_moves_offsets_by_the_spaces_in_front() {
    assert_eq!(find_time("4:01"), Some((TimeUnit::Structured(TimeStructured::Hm(4, 1)), 0, 4)));
    assert_eq!(find_time(" 4:01"), Some((TimeUnit::Structured(TimeStructured::Hm(4, 1)), 1, 5)));
    assert_eq!(find_time("  4:01"), Some((TimeUnit::Structured(TimeStructured::Hm(4, 1)), 3, 7)));
    assert_eq!(
        find_time("   4:01"),
        Some((TimeUnit::Structured(TimeStructured::Hm(4, 1)), 5, 9))
    );
    assert_eq!(
        find_time("  at 4:01"),
        Some((TimeUnit::Structured(TimeStructured::Hm(4, 1)), 6, 10))
    );
    assert_eq!(find_time("x  4:01"), Some((TimeUnit::Structured(TimeStructured::Hm(4, 1)), 3, 7)));
}

#[test]
fn date_words() {
    assert_eq!(DateStructured::from_str("18.11."), Ok(DateStructured::Ym(11, 18)));
    assert_eq!(DateStructured::from_str("18.11"), Ok(DateStructured::Ym(11, 18)));
    assert_eq!(DateStructured::from_str("18.11.2004"), Ok(DateStructured::Ymd(2004, 11, 18)));
    assert_eq!(DateStructured::from_str("1.1.0"), Ok(DateStructured::Ymd(0, 1, 1)));
    assert_eq!(DateStructured::from_str("08.12.2000"), Ok(DateStructured::Ymd(2000, 12, 8)));
    assert_eq!(DateStructured::from_str("-1.-2.-3"), Ok(DateStructured::Ymd(-3, -2, -1)));
    assert_eq!(DateStructured::from_str("99.99.9999"), Ok(DateStructured::Ymd(9999, 99, 99)));
    assert_eq!(DateStructured::from_str("1.2.3.4"), Ok(DateStructured::Ymd(3, 2, 1)));
    assert_eq!(DateStructured::from_str("1.2.3.x"), Ok(DateStructured::Ymd(3, 2, 1)));
    assert_eq!(DateStructured::from_str("1.2..5"), Ok(DateStructured::Ym(2, 1)));
    assert_eq!(DateStructured::from_bytes(b"31.12."), Some(DateStructured::Ym(12, 31)));
}

#[test]
fn words_that_are_no_date() {
    assert_eq!(DateStructured::from_str(""), Err(()));
    assert_eq!(DateStructured::from_str("18"), Err(()));
    assert_eq!(DateStructured::from_str("18."), Err(()));
    assert_eq!(DateStructured::from_str(".11."), Err(()));
    assert_eq!(DateStructured::from_str("."), Err(()));
    assert_eq!(DateStructured::from_str("1.2.x"), Err(()));
    assert_eq!(DateStructured::from_str("200.1."), Err(()));
    assert_eq!(DateStructured::from_str("1.200."), Err(()));
    assert_eq!(DateStructured::from_str("1.1.40000"), Err(()));
    assert_eq!(DateStructured::from_str("1/1/2000"), Err(()));
    assert_eq!(DateStructured::from_str("a.b."), Err(()));
    assert_eq!(DateStructured::from_bytes(b"tomorrow"), None);
}

#[test]
fn day_month_year() {
    let date = DateYMD::from_str("18.11.2004").unwrap();
    assert_eq!((date.year(), date.month(), date.day()), (2004, 11, 18));
    let date = DateYMD::from_str("+1.02.65535").unwrap();
    assert_eq!((date.year(), date.month(), date.day()), (65535, 2, 1));
    assert_eq!(DateYMD::from_str("18.11.2004"), DateYMD::from_str("18.11.02004"));
    assert_eq!(DateYMD::from_str("18.11."), Err(()));
    assert_eq!(DateYMD::from_str("18.11"), Err(()));
    assert_eq!(DateYMD::from_str("18"), Err(()));
    assert_eq!(DateYMD::from_str(""), Err(()));
    assert_eq!(DateYMD::from_str("18.11.2004."), Err(()));
    assert_eq!(DateYMD::from_str("18.11.2004.5"), Err(()));
    assert_eq!(DateYMD::from_str("-1.1.2000"), Err(()));
    assert_eq!(DateYMD::from_str("256.1.2000"), Err(()));
    assert_eq!(DateYMD::from_str("1.1.65536"), Err(()));
    assert_eq!(DateYMD::from_str("1.x.2000"), Err(()));
}

#[test]
fn day_month() {
    let date = DateMD::from_str("18.11.").unwrap();
    assert_eq!((date.month(), date.day()), (11, 18));
    let date = DateMD::from_str("1.2").unwrap();
    assert_eq!((date.month(), date.day()), (2, 1));
    let date = DateMD::from_str("1.2.what.ever").unwrap();
    assert_eq!((date.month(), date.day()), (2, 1));
    assert_eq!(DateMD::from_str("18"), Err(()));
    assert_eq!(DateMD::from_str("18."), Err(()));
    assert_eq!(DateMD::from_str(""), Err(()));
    assert_eq!(DateMD::from_str("-1.1."), Err(()));
    assert_eq!(DateMD::from_str("1.256."), Err(()));
}

#[test]
fn keywords_in_both_languages() {
    assert_eq!(DateRelative::from_str("yesterday"), Ok(DateRelative::Yesterday(ENGLISH)));
    assert_eq!(DateRelative::from_str("eilen"), Ok(DateRelative::Yesterday(FINNISH)));
    assert_eq!(DateRelative::from_str("today"), Ok(DateRelative::Today(ENGLISH)));
    assert_eq!(DateRelative::from_str("tänään"), Ok(DateRelative::Today(FINNISH)));
    assert_eq!(DateRelative::from_str("tomorrow"), Ok(DateRelative::Tomorrow(ENGLISH)));
    assert_eq!(DateRelative::from_str("huomenna"), Ok(DateRelative::Tomorrow(FINNISH)));
    assert_eq!(DateRelative::from_str("overmorrow"), Ok(DateRelative::Overmorrow(ENGLISH)));
    assert_eq!(DateRelative::from_str("day after tomorrow"), Ok(DateRelative::Overmorrow(ENGLISH)));
    assert_eq!(DateRelative::from_str("ylihuomenna"), Ok(DateRelative::Overmorrow(FINNISH)));
    assert_eq!(DateRelative::from_str(""), Err(()));
    assert_eq!(DateRelative::from_str("monday"), Err(()));
    assert_eq!(DateRelative::from_str("next"), Err(()));
    assert_eq!(DateRelative::from_str("tomorrow "), Err(()));
    assert_eq!(DateRelative::from_str("tanaan"), Err(()));
}

#[test]
fn keywords_in_any_case() {
    assert_eq!(DateRelative::from_str("TOMORROW"), Ok(DateRelative::Tomorrow(ENGLISH)));
    assert_eq!(DateRelative::from_str("Tomorrow"), Ok(DateRelative::Tomorrow(ENGLISH)));
    assert_eq!(DateRelative::from_str("Huomenna"), Ok(DateRelative::Tomorrow(FINNISH)));
    assert_eq!(DateRelative::from_str("TÄNÄÄN"), Ok(DateRelative::Today(FINNISH)));
    assert_eq!(DateRelative::from_str("Day After Tomorrow"), Ok(DateRelative::Overmorrow(ENGLISH)));
    assert_eq!(DateRelative::from_lowercase("tomorrow"), Some(DateRelative::Tomorrow(ENGLISH)));
    assert_eq!(DateRelative::from_lowercase("TOMORROW"), None);
}

#[test]
fn nouns_and_weekday_names() {
    assert_eq!(ENGLISH.get_noun_prev(), "last");
    assert_eq!(FINNISH.get_noun_prev(), "viime");
    assert_eq!(ENGLISH.get_noun_next(), "next");
    assert_eq!(FINNISH.get_noun_next(), "ensi");
    let names = [
        (DateRelativeWeekday::Monday, 0, "monday", "maanantaina"),
        (DateRelativeWeekday::Tuesday, 1, "tuesday", "tiistaina"),
        (DateRelativeWeekday::Wednesday, 2, "wednesday", "keskiviikkona"),
        (DateRelativeWeekday::Thurdsday, 3, "thursday", "torstaina"),
        (DateRelativeWeekday::Friday, 4, "friday", "perjantaina"),
        (DateRelativeWeekday::Saturday, 5, "saturday", "lauantaina"),
        (DateRelativeWeekday::Sunday, 6, "sunday", "sunnuntaina"),
    ];
    for (weekday, number, english, finnish) in names {
        assert_eq!(weekday.monday_offset(), number);
        assert_eq!(weekday.to_locale_static_str(ENGLISH), english);
        assert_eq!(weekday.to_locale_static_str(FINNISH), finnish);
        assert_eq!(DateRelativeWeekday::from_locale_name(ENGLISH, english), Some(weekday));
        assert_eq!(DateRelativeWeekday::from_locale_name(FINNISH, finnish), Some(weekday));
        assert_eq!(DateRelativeWeekday::from_locale_name(ENGLISH, finnish), None);
        assert_eq!(DateRelativeWeekday::from_locale_name(FINNISH, english), None);
    }
    assert_eq!(DateRelativeWeekday::from_locale_name(ENGLISH, "Monday"), None);
    assert_eq!(DateRelativeWeekday::from_locale_name(ENGLISH, ""), None);
}

fn words(list: &[&str]) -> Vec<String> {
    list.iter().map(|w| w.to_string()).collect()
}

#[test]
fn phrases_at_the_end_of_a_list_of_words() {
    assert_eq!(
        DateRelative::parse_multiword(&words(&["day", "after", "tomorrow"])),
        Some((DateRelative::Overmorrow(ENGLISH), 3))
    );
    assert_eq!(
        DateRelative::parse_multiword(&words(&["the", "day", "after", "tomorrow"])),
        Some((DateRelative::Overmorrow(ENGLISH), 3))
    );
    assert_eq!(
        DateRelative::parse_multiword(&words(&["next", "monday"])),
        Some((DateRelative::NextWeekday(ENGLISH, DateRelativeWeekday::Monday), 2))
    );
    assert_eq!(
        DateRelative::parse_multiword(&words(&["x", "y", "last", "thursday"])),
        Some((DateRelative::LastWeekday(ENGLISH, DateRelativeWeekday::Thurdsday), 2))
    );
    assert_eq!(
        DateRelative::parse_multiword(&words(&["viime", "perjantaina"])),
        Some((DateRelative::LastWeekday(FINNISH, DateRelativeWeekday::Friday), 2))
    );
    assert_eq!(
        DateRelative::parse_multiword(&words(&["ensi", "sunnuntaina"])),
        Some((DateRelative::NextWeekday(FINNISH, DateRelativeWeekday::Sunday), 2))
    );
}

#[test]
fn phrases_in_any_case() {
    assert_eq!(
        DateRelative::parse_multiword(&words(&["Next", "MONDAY"])),
        Some((DateRelative::NextWeekday(ENGLISH, DateRelativeWeekday::Monday), 2))
    );
    assert_eq!(
        DateRelative::parse_multiword(&words(&["Day", "After", "Tomorrow"])),
        Some((DateRelative::Overmorrow(ENGLISH), 3))
    );
    assert_eq!(
        DateRelative::phrase_from_lowercase(None, Some("Next"), "monday"),
        None
    );
}

#[test]
fn lists_of_words_that_end_in_no_phrase() {
    assert_eq!(DateRelative::parse_multiword(&words(&[])), None);
    assert_eq!(DateRelative::parse_multiword(&words(&["next"])), None);
    assert_eq!(DateRelative::parse_multiword(&words(&["monday"])), None);
    assert_eq!(DateRelative::parse_multiword(&words(&["tomorrow"])), None);
    assert_eq!(DateRelative::parse_multiword(&words(&["after", "tomorrow"])), None);
    assert_eq!(DateRelative::parse_multiword(&words(&["day", "after", "", "tomorrow"])), None);
    assert_eq!(DateRelative::parse_multiword(&words(&["ensi", "monday"])), None);
    assert_eq!(DateRelative::parse_multiword(&words(&["next", "maanantaina"])), None);
    assert_eq!(DateRelative::parse_multiword(&words(&["next", "", "monday"])), None);
    assert_eq!(DateRelative::parse_multiword(&words(&["next", "monday", "x"])), None);
    assert_eq!(DateRelative::parse_multiword(&words(&["monday", "next"])), None);
}

#[test]
fn phrase_lookup_on_lowercase_words() {
    assert_eq!(
        DateRelative::phrase_from_lowercase(Some("day"), Some("after"), "tomorrow"),
        Some((DateRelative::Overmorrow(ENGLISH), 3))
    );
    assert_eq!(DateRelative::phrase_from_lowercase(None, Some("after"), "tomorrow"), None);
    assert_eq!(DateRelative::phrase_from_lowercase(None, None, "tomorrow"), None);
    assert_eq!(
        DateRelative::phrase_from_lowercase(Some("day"), Some("next"), "friday"),
        Some((DateRelative::NextWeekday(ENGLISH, DateRelativeWeekday::Friday), 2))
    );
    assert_eq!(
        DateRelative::weekday_phrase_from_lowercase(FINNISH, "ensi", "tiistaina"),
        Some(DateRelative::NextWeekday(FINNISH, DateRelativeWeekday::Tuesday))
    );
    assert_eq!(
        DateRelative::weekday_phrase_from_lowercase(FINNISH, "viime", "lauantaina"),
        Some(DateRelative::LastWeekday(FINNISH, DateRelativeWeekday::Saturday))
    );
    assert_eq!(DateRelative::weekday_phrase_from_lowercase(ENGLISH, "ensi", "tiistaina"), None);
    assert_eq!(DateRelative::weekday_phrase_from_lowercase(ENGLISH, "this", "friday"), None);
}

#[test]
fn find_date_prefers_a_phrase_to_a_keyword() {
    assert_eq!(
        find_date("day after tomorrow"),
        Some((DateUnit::Relative(DateRelative::Overmorrow(ENGLISH)), 0, 18))
    );
    assert_eq!(
        find_date("after tomorrow"),
        Some((DateUnit::Relative(DateRelative::Tomorrow(ENGLISH)), 6, 14))
    );
    assert_eq!(
        find_date("day  after tomorrow"),
        Some((DateUnit::Relative(DateRelative::Tomorrow(ENGLISH)), 11, 19))
    );
    assert_eq!(
        find_date("next tomorrow"),
        Some((DateUnit::Relative(DateRelative::Tomorrow(ENGLISH)), 5, 13))
    );
    assert_eq!(
        find_date("Next Monday"),
        Some((
            DateUnit::Relative(DateRelative::NextWeekday(ENGLISH, DateRelativeWeekday::Monday)),
            0,
            11
        ))
    );
    assert_eq!(
        find_date("viime,keskiviikkona"),
        Some((
            DateUnit::Relative(DateRelative::LastWeekday(FINNISH, DateRelativeWeekday::Wednesday)),
            0,
            19
        ))
    );
}

#[test]
fn find_date_takes_the_first_date() {
    assert_eq!(find_date("1.1. 2.2."), Some((DateUnit::Structured(DateStructured::Ym(1, 1)), 0, 4)));
    assert_eq!(
        find_date("a,b,1.2."),
        Some((DateUnit::Structured(DateStructured::Ym(2, 1)), 4, 8))
    );
    assert_eq!(
        find_date("tomorrow 1.2.2000"),
        Some((DateUnit::Relative(DateRelative::Tomorrow(ENGLISH)), 0, 8))
    );
    assert_eq!(
        find_date("40.40.40 next monday"),
        Some((DateUnit::Structured(DateStructured::Ymd(40, 40, 40)), 0, 8))
    );
    assert_eq!(
        find_date("pääsiäinen huomenna"),
        Some((DateUnit::Relative(DateRelative::Tomorrow(FINNISH)), 14, 22))
    );
}

#[test]
fn find_date_without_a_date() {
    assert_eq!(find_date(""), None);
    assert_eq!(find_date(" "), None);
    assert_eq!(find_date("Meet Saara @ Local Library"), None);
    assert_eq!(find_date("see you tomorrow!"), None);
    assert_eq!(find_date("monday"), None);
    assert_eq!(find_date("next week"), None);
    assert_eq!(find_date("12:30"), None);
    assert_eq!(find_date("1/2/2000"), None);
}
