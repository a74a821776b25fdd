use nlcep::calendar::CivilDate;
use nlcep::temporal::{find_datetime, DateTimeMatch};

#[test]
fn date_a() {
    let now = CivilDate::new(2000, 1, 1).unwrap();
    let DateTimeMatch {
        date,
        time,
        start_char,
        end_char,
    } = find_datetime("21.11.2004", now)
        .expect("parse failed")
        .expect("no parse result");
    assert_eq!(start_char, 0);
    assert_eq!(end_char, 10);
    assert_eq!(date.year(), 2004);
    assert_eq!(date.month(), 11);
    assert_eq!(date.day(), 21);
    assert!(time.is_none());
}
#[test]
fn datetime_a() {
    let now = CivilDate::new(2000, 1, 1).unwrap();
    let DateTimeMatch {
        date,
        time,
        start_char,
        end_char,
    } = find_datetime("22.9.1999 11:00", now)
        .expect("parse failed")
        .expect("no parse result");
    assert_eq!(start_char, 0);
    assert_eq!(end_char, 15);
    assert_eq!(date.year(), 1999);
    assert_eq!(date.month(), 9);
    assert_eq!(date.day(), 22);
    let time = time.unwrap();
    assert_eq!(time.hour(), 11);
    assert_eq!(time.minute(), 0);
}
#[test]
fn datetime_b() {
    let now = CivilDate::new(2000, 1, 1).unwrap();
    let DateTimeMatch {
        date,
        time,
        start_char,
        end_char,
    } = find_datetime("22.9.1999 11", now)
        .expect("parse failed")
        .expect("no parse result");
    assert_eq!(start_char, 0);
    assert_eq!(end_char, 12);
    assert_eq!(date.year(), 1999);
    assert_eq!(date.month(), 9);
    assert_eq!(date.day(), 22);
    let time = time.unwrap();
    assert_eq!(time.hour(), 11);
    assert_eq!(time.minute(), 0);
}
#[test]
fn datetime_relative_year_a() {
    let now = CivilDate::new(2000, 6, 1).unwrap();
    let DateTimeMatch {
        date,
        time,
        start_char,
        end_char,
    } = find_datetime("22.9. 11", now)
        .expect("parse failed")
        .expect("no parse result");
    assert_eq!(start_char, 0);
    assert_eq!(end_char, 8);
    assert_eq!(date.year(), 2000);
    assert_eq!(date.month(), 9);
    assert_eq!(date.day(), 22);
    let time = time.unwrap();
    assert_eq!(time.hour(), 11);
    assert_eq!(time.minute(), 0);
}
#[test]
fn datetime_relative_year_b() {
    let now = CivilDate::new(2000, 6, 1).unwrap();
    let DateTimeMatch {
        date,
        time,
        start_char,
        end_char,
    } = find_datetime("22.1. 11", now)
        .expect("parse failed")
        .expect("no parse result");
    assert_eq!(start_char, 0);
    assert_eq!(end_char, 8);
    assert_eq!(date.year(), 2001);
    assert_eq!(date.month(), 1);
    assert_eq!(date.day(), 22);
    let time = time.unwrap();
    assert_eq!(time.hour(), 11);
    assert_eq!(time.minute(), 0);
}

#[test]
fn datetime_relative() {
    let now = CivilDate::new(2000, 1, 2).unwrap();
    let DateTimeMatch {
        date,
        time,
        start_char,
        end_char,
    } = find_datetime("tomorrow 0:30:12", now)
        .expect("parse failed")
        .expect("no parse result");
    assert_eq!(start_char, 0);
    assert_eq!(end_char, 16);
    assert_eq!(date.year(), 2000);
    assert_eq!(date.month(), 1);
    assert_eq!(date.day(), 3);
    let time = time.unwrap();
    assert_eq!(time.hour(), 0);
    assert_eq!(time.minute(), 30);
    assert_eq!(time.second(), 12);
}

#[test]
fn datetime_relative_weekday_a() {
    let now = CivilDate::new(2024, 12, 8).unwrap();
    let DateTimeMatch {
        date,
        time,
        start_char,
        end_char,
    } = find_datetime("next monday 0:30:12", now)
        .expect("parse failed")
        .expect("no parse result");
    assert_eq!(start_char, 0);
    assert_eq!(end_char, 19);
    assert_eq!(date.year(), 2024);
    assert_eq!(date.month(), 12);
    assert_eq!(date.day(), 9);
    let time = time.unwrap();
    assert_eq!(time.hour(), 0);
    assert_eq!(time.minute(), 30);
    assert_eq!(time.second(), 12);
}
#[test]
fn datetime_relative_weekday_b() {
    let now = CivilDate::new(2024, 12, 8).unwrap();
    let DateTimeMatch {
        date,
        time,
        start_char,
        end_char,
    } = find_datetime("last sunday 0:30:12", now)
        .expect("parse failed")
        .expect("no parse result");
    assert_eq!(start_char, 0);
    assert_eq!(end_char, 19);
    assert_eq!(date.year(), 2024);
    assert_eq!(date.month(), 12);
    assert_eq!(date.day(), 1);
    let time = time.unwrap();
    assert_eq!(time.hour(), 0);
    assert_eq!(time.minute(), 30);
    assert_eq!(time.second(), 12);
}
#[test]
fn datetime_relative_weekday_c() {
    let now = CivilDate::new(2024, 12, 8).unwrap();
    let DateTimeMatch {
        date,
        time,
        start_char,
        end_char,
    } = find_datetime("last wednesday 0:30:12", now)
        .expect("parse failed")
        .expect("no parse result");
    assert_eq!(start_char, 0);
    assert_eq!(end_char, 22);
    assert_eq!(date.year(), 2024);
    assert_eq!(date.month(), 12);
    assert_eq!(date.day(), 4);
    let time = time.unwrap();
    assert_eq!(time.hour(), 0);
    assert_eq!(time.minute(), 30);
    assert_eq!(time.second(), 12);
}
