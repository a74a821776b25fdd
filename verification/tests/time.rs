use nlcep::temporal::time::{find_time, TimeStructured, TimeUnit};

#[test]
fn find_time_trivial_a() {
    let (unit, start, end) = find_time("18:11").expect("parse failed");
    assert_eq!(unit, TimeUnit::Structured(TimeStructured::Hm(18, 11)));
    assert_eq!(start, 0);
    assert_eq!(end, 5);
}
#[test]
fn find_time_trivial_b() {
    let (unit, start, end) = find_time("3:03").expect("parse failed");
    assert_eq!(unit, TimeUnit::Structured(TimeStructured::Hm(3, 3)));
    assert_eq!(start, 0);
    assert_eq!(end, 4);
}
#[test]
fn find_time_trivial_c() {
    let (unit, start, end) = find_time("0:1").expect("parse failed");
    assert_eq!(unit, TimeUnit::Structured(TimeStructured::Hm(0, 1)));
    assert_eq!(start, 0);
    assert_eq!(end, 3);
}
#[test]
fn find_time_trivial_d() {
    let (unit, start, end) = find_time("18").expect("parse failed");
    assert_eq!(unit, TimeUnit::Structured(TimeStructured::H(18)));
    assert_eq!(start, 0);
    assert_eq!(end, 2);
}

#[test]
fn find_time_whitespace_a() {
    let (unit, start, end) = find_time(" 4:01").expect("parse failed");
    assert_eq!(unit, TimeUnit::Structured(TimeStructured::Hm(4, 1)));
    assert_eq!(start, 1);
    assert_eq!(end, 5);
}
#[test]
fn find_time_whitespace_b() {
    let (unit, start, end) = find_time(" 23:59  ").expect("parse failed");
    assert_eq!(unit, TimeUnit::Structured(TimeStructured::Hm(23, 59)));
    assert_eq!(start, 1);
    assert_eq!(end, 6);
}

#[test]
fn find_time_junk_a() {
    let (unit, start, end) = find_time(" iaksjdk 13:30").expect("parse failed");
    assert_eq!(unit, TimeUnit::Structured(TimeStructured::Hm(13, 30)));
    assert_eq!(start, 9);
    assert_eq!(end, 14);
}
#[test]
fn find_time_junk_b() {
    let (unit, start, end) = find_time("8:15 @ Annankatu 13").expect("parse failed");
    assert_eq!(unit, TimeUnit::Structured(TimeStructured::Hm(8, 15)));
    assert_eq!(start, 0);
    assert_eq!(end, 4);
}
#[test]
fn find_time_junk_c() {
    let (unit, start, end) = find_time("ab123.23. 14:13 @ Taajamankatu 5").expect("parse failed");
    assert_eq!(unit, TimeUnit::Structured(TimeStructured::Hm(14, 13)));
    assert_eq!(start, 10);
    assert_eq!(end, 15);
}
#[test]
fn find_time_junk_d() {
    let (unit, start, end) = find_time("ab123.23. 8 @ Taajamankatu 5").expect("parse failed");
    assert_eq!(unit, TimeUnit::Structured(TimeStructured::H(8)));
    assert_eq!(start, 10);
    assert_eq!(end, 11);
}

#[test]
fn find_time_with_seconds_a() {
    let (unit, start, end) = find_time("19:59:00").expect("parse failed");
    assert_eq!(unit, TimeUnit::Structured(TimeStructured::Hms(19, 59, 0)));
    assert_eq!(start, 0);
    assert_eq!(end, 8);
}
#[test]
fn find_time_with_seconds_b() {
    let (unit, start, end) = find_time("11:09:59").expect("parse failed");
    assert_eq!(unit, TimeUnit::Structured(TimeStructured::Hms(11, 9, 59)));
    assert_eq!(start, 0);
    assert_eq!(end, 8);
}
#[test]
fn find_time_with_seconds_c() {
    let (unit, start, end) = find_time("8:0:1").expect("parse failed");
    assert_eq!(unit, TimeUnit::Structured(TimeStructured::Hms(8, 0, 1)));
    assert_eq!(start, 0);
    assert_eq!(end, 5);
}
