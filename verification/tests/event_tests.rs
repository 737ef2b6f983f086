use calendar_lib::date::Date;
use calendar_lib::date::Time;
use calendar_lib::event::Cadence;
use calendar_lib::event::Event;
use calendar_lib::event::Recurrence;

use chrono::Datelike;
use chrono::Timelike;

#[test]
/// tests the new function
fn test_event_new() {
    let t = String::from("Some title");
    let des = String::from("Some description");
    let dt = chrono::NaiveDate::from_ymd_opt(2022, 7, 13).unwrap();
    let tm = chrono::NaiveTime::from_hms_opt(12, 23, 0).unwrap();
    let dur = 2.75_f32;
    let loc = String::from("Some location");

    println!("{} {}", dt, tm);

    let dur_secs = (dur as i32) as i64 * 3600;
    let e1 = Event::new(
        &t,
        &des,
        &dt.to_string(),
        &tm.to_string(),
        dur_secs,
        Some(loc.as_str()),
        None,
        None,
    );
    let mut e2 = Event::default();
    assert_ne!(e1.get_title(), e2.get_title());
    e2.set_title(&t);
    assert_eq!(e1.get_title(), e2.get_title());
    assert_ne!(e1.get_description(), e2.get_description());
    e2.set_description(&des);
    assert_eq!(e1.get_description(), e2.get_description());
    assert_ne!(e1.get_start_date(), e2.get_start_date());
    assert!(e2.set_start_date((dt.day(), dt.month(), dt.year())));
    assert_eq!(e1.get_start_date(), e2.get_start_date());
    assert_ne!(e1.get_start_time(), e2.get_start_time());
    assert!(e2.set_start_time((tm.hour(), tm.minute(), tm.second())));
    assert_eq!(e1.get_start_time(), e2.get_start_time());
    assert_ne!(e1.get_duration(), e2.get_duration());
    e2.set_duration((dur as i64) * 3600);
    assert_eq!(e1.get_duration(), e2.get_duration());
    assert_ne!(e1.get_location(), e2.get_location());
    e2.set_location(loc.as_str());
    assert_eq!(e1.get_location(), e2.get_location());
}

#[test]
/// Tests all recognized date & time formats
fn test_date_time_formats() {
    let test_date = "10/03/2022";
    let test_time = "16:10";
    let fmt_date = "%d/%m/%Y";
    let fmt_time = "%H:%M";
    let dmy_hm = Event::new("test", "test", test_date, test_time, 3600, None, None, None);
    let expect_date = chrono::NaiveDate::parse_from_str(test_date, fmt_date).unwrap();
    assert_eq!(
        dmy_hm.get_start_date(),
        Date {
            year: expect_date.year() as u16,
            month: expect_date.month() as u8,
            day: expect_date.day() as u8,
        }
    );
    let expect_time = chrono::NaiveTime::parse_from_str(test_time, fmt_time).unwrap();
    assert_eq!(
        dmy_hm.get_start_time(),
        Time {
            hour: expect_time.hour() as u8,
            minute: expect_time.minute() as u8,
            second: expect_time.second() as u8,
        }
    );
}

#[test]
/// Test recurrent events (secondly)
fn test_recurrent_secondly() {
    // an event that repeats each second for 55 times
    let ev_min = Event::new(
        "test",
        "test",
        "xxx",
        "xxx",
        3600,
        None,
        Some("minutely 55"),
        None,
    );
    assert_eq!(
        ev_min.get_recurrence(),
        Some(&Recurrence {
            cadence: Cadence::Minutely,
            repetitions: 55,
            ..Recurrence::default()
        })
    );
}

#[test]
/// Test recurrent events (minutely)
fn test_recurrent_minutely() {
    // an event that repeats each minute for 55 times
    let ev_sec = Event::new(
        "test",
        "test",
        "xxx",
        "xxx",
        3600,
        None,
        Some("secondly 55"),
        None,
    );
    assert_eq!(
        ev_sec.get_recurrence(),
        Some(&Recurrence {
            cadence: Cadence::Secondly,
            repetitions: 55,
            ..Recurrence::default()
        })
    );
}

#[test]
/// Test recurrent events (daily)
fn test_recurrent_daily() {
    // an event that repeats daily for 5 days
    let ev_daily = Event::new(
        "test",
        "test",
        "xxx",
        "yyy",
        3600,
        None,
        Some("daily 5"),
        None,
    );
    assert_eq!(
        ev_daily.get_recurrence(),
        Some(&Recurrence {
            cadence: Cadence::Daily,
            repetitions: 5,
            ..Recurrence::default()
        })
    );
}

#[test]
/// Test recurrent events (weekly)
fn test_recurrent_weekly() {
    // an event that repeats weekly for 2 weeks
    let ev_weekly = Event::new(
        "test",
        "test",
        "xxx",
        "yyy",
        3600,
        None,
        Some("Weekly 2"),
        None,
    );
    assert_eq!(
        ev_weekly.get_recurrence(),
        Some(&Recurrence {
            cadence: Cadence::Weekly,
            repetitions: 2,
            ..Recurrence::default()
        })
    );
}

#[test]
/// Test recurrent events (monthly)
fn test_recurrent_monthly() {
    // an event that repeats monthly for 12 months
    let ev_monthly = Event::new(
        "test",
        "test",
        "xxx",
        "yyy",
        3600,
        None,
        Some("MONTHLY 12"),
        None,
    );
    assert_eq!(
        ev_monthly.get_recurrence(),
        Some(&Recurrence {
            cadence: Cadence::Monthly,
            repetitions: 12,
            ..Recurrence::default()
        })
    );
}

#[test]
/// Test recurrent events (invalid)
fn test_recurrent_bad() {
    // an event that does not repeat (badly formatted)
    let ev_bad_fmt = Event::new(
        "test",
        "test",
        "xxx",
        "yyy",
        3600,
        None,
        Some("Monthly -1"),
        None,
    );
    assert_eq!(ev_bad_fmt.get_recurrence(), None);
    // an event that repeats yearly for 110 years
    let ev_yearly = Event::new(
        "test",
        "test",
        "xxx",
        "yyy",
        3600,
        None,
        Some("YearLY 110"),
        None,
    );
    assert_eq!(
        ev_yearly.get_recurrence(),
        Some(&Recurrence {
            cadence: Cadence::Yearly,
            repetitions: 110,
            ..Recurrence::default()
        })
    );
}

#[test]
/// Test recurrent events (0 repeats)
fn test_recurrent_zero() {
    // an events that repeats 0 times (does not repeat)
    let ev_zero_rep = Event::new(
        "test",
        "test",
        "xxx",
        "yyy",
        3600,
        None,
        Some("daily 0"),
        None,
    );
    assert_eq!(ev_zero_rep.get_recurrence(), None);
}
