use nlcep::temporal::date::{
    find_date, DateRelative, DateRelativeLanguage, DateRelativeWeekday, DateStructured, DateUnit,
};

#[test]
fn find_date_trivial_month_date_a() {
    let (unit, start, end) = find_date("John's birthday 18.11.").expect("parse failed");
    assert_eq!(unit, DateUnit::Structured(DateStructured::Ym(11, 18)));
    assert_eq!(start, 16);
    assert_eq!(end, 22);
}
#[test]
fn find_date_trivial_month_date_b() {
    let (unit, start, end) = find_date("Meet with Evelyn 1.12.").expect("parse failed");
    assert_eq!(unit, DateUnit::Structured(DateStructured::Ym(12, 1)));
    assert_eq!(start, 17);
    assert_eq!(end, 22);
}
#[test]
fn find_date_trivial_month_date_c() {
    let (unit, start, end) = find_date("Meet with Evelyn 12.1.").expect("parse failed");
    assert_eq!(unit, DateUnit::Structured(DateStructured::Ym(1, 12)));
    assert_eq!(start, 17);
    assert_eq!(end, 22);
}
#[test]
fn find_date_trivial_year_month_date() {
    let (unit, start, end) = find_date("John's birthday 18.11.2004").expect("parse failed");
    assert_eq!(unit, DateUnit::Structured(DateStructured::Ymd(2004, 11, 18)));
    assert_eq!(start, 16);
    assert_eq!(end, 26);
}
#[test]
fn find_date_relative_a() {
    let (unit, start, end) = find_date("John's birthday tomorrow").expect("parse failed");
    assert_eq!(unit, DateUnit::Relative(DateRelative::Tomorrow(DateRelativeLanguage::English)));
    assert_eq!(start, 16);
    assert_eq!(end, 24);
}
#[test]
fn find_date_relative_b() {
    let (unit, start, end) = find_date("John's birthday yesterday").expect("parse failed");
    assert_eq!(unit, DateUnit::Relative(DateRelative::Yesterday(DateRelativeLanguage::English)));
    assert_eq!(start, 16);
    assert_eq!(end, 25);
}
#[test]
fn find_date_relative_overmorrow_a() {
    let (unit, start, end) = find_date("John's birthday overmorrow").expect("parse failed");
    assert_eq!(unit, DateUnit::Relative(DateRelative::Overmorrow(DateRelativeLanguage::English)));
    assert_eq!(start, 16);
    assert_eq!(end, 26);
}
#[test]
fn find_date_relative_overmorrow_b() {
    let (unit, start, end) = find_date("John's birthday day after tomorrow").expect("parse failed");
    assert_eq!(unit, DateUnit::Relative(DateRelative::Overmorrow(DateRelativeLanguage::English)));
    assert_eq!(start, 16);
    assert_eq!(end, 34);
}

#[test]
fn find_date_relative_weekday_a() {
    let (unit, start, end) = find_date("John's birthday next monday").expect("parse failed");
    assert_eq!(unit, DateUnit::Relative(DateRelative::NextWeekday(DateRelativeLanguage::English, DateRelativeWeekday::Monday)));
    assert_eq!(start, 16);
    assert_eq!(end, 27);
}
#[test]
fn find_date_relative_weekday_b() {
    let (unit, start, end) = find_date("John's birthday next wednesday").expect("parse failed");
    assert_eq!(unit, DateUnit::Relative(DateRelative::NextWeekday(DateRelativeLanguage::English, DateRelativeWeekday::Wednesday)));
    assert_eq!(start, 16);
    assert_eq!(end, 30);
}
#[test]
fn find_date_relative_weekday_c() {
    let (unit, start, end) = find_date("Marian synttärit ensi torstaina").expect("parse failed");
    assert_eq!(unit, DateUnit::Relative(DateRelative::NextWeekday(DateRelativeLanguage::Finnish, DateRelativeWeekday::Thurdsday)));
    assert_eq!(start, 18);
    assert_eq!(end, 32);
}

#[test]
fn find_date_whitespace_a() {
    let (unit, start, end) = find_date(" John's birthday tomorrow").expect("parse failed");
    assert_eq!(unit, DateUnit::Relative(DateRelative::Tomorrow(DateRelativeLanguage::English)));
    assert_eq!(start, 17);
    assert_eq!(end, 25);
}
#[test]
fn find_date_whitespace_b() {
    let (unit, start, end) = find_date("  John's birthday tomorrow ").expect("parse failed");
    assert_eq!(unit, DateUnit::Relative(DateRelative::Tomorrow(DateRelativeLanguage::English)));
    assert_eq!(start, 18);
    assert_eq!(end, 26);
}
#[test]
fn find_date_whitespace_c() {
    let (unit, start, end) = find_date("John's birthday  yesterday ").expect("parse failed");
    assert_eq!(unit, DateUnit::Relative(DateRelative::Yesterday(DateRelativeLanguage::English)));
    assert_eq!(start, 17);
    assert_eq!(end, 26);
}
#[test]
fn find_date_whitespace_d() {
    let (unit, start, end) = find_date(" John's  birthday   tomorrow ").expect("parse failed");
    assert_eq!(unit, DateUnit::Relative(DateRelative::Tomorrow(DateRelativeLanguage::English)));
    assert_eq!(start, 20);
    assert_eq!(end, 28);
}
