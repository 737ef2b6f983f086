use calendar_lib::calendar::Calendar;
use calendar_lib::event::Event;

use chrono::Datelike;
use chrono::Timelike;

fn get_hash(e: &Event) -> u64 {
    e.fingerprint()
}

#[test]
/// tests the event addition method
fn test_event_addition() {
    let e1 = Event::default();
    let e2 = Event::default();
    let e1_hash = get_hash(&e1);
    let e2_hash = get_hash(&e2);

    // identical content (the bookkeeping timestamps play no part), so the
    // two events share one fingerprint and only one entry is kept
    assert_eq!(e1_hash, e2_hash);

    let mut empty_cal = Calendar::new("owner", "test");
    empty_cal.add_event(e1);
    empty_cal.add_event(e2);

    assert_eq!(empty_cal.get_size(), 1);
    assert!(empty_cal.get_event(e1_hash).is_ok());
}

#[test]
/// tests adding multiple different events
fn test_event_multiple() {
    // defines some events
    let v = vec![
        Event::new("title1", "desc1", "11/02/2001", "-", 10800, None, None, None),
        Event::new(
            "title2",
            "desc2",
            "08/09/2011",
            "-",
            10800,
            Some("Some location"),
            None,
            None,
        ),
        Event::new(
            "title3",
            "desc3",
            "11/02/2001",
            "-",
            10800,
            Some("Random loc"),
            None,
            None,
        ),
        Event::new("title4", "desc4", "13/04/1999", "-", 10800, None, None, None),
        Event::new("title5", "desc5", "21/01/2021", "-", 10800, None, None, None),
        Event::new("title6", "desc6", "13/03/2001", "-", 10800, None, None, None),
        Event::new(
            "title7",
            "desc7",
            "12/12/2012",
            "-",
            10800,
            Some("Pisa"),
            None,
            None,
        ),
    ];

    let mut cal = Calendar::new("owner", "test_multiple_cal");
    assert_eq!(cal.get_size(), 0);
    for ev in v.iter() {
        cal.add_event(ev.clone());
    }
    assert_eq!(cal.get_size(), v.len());

    for ev in &v {
        let h = get_hash(ev);
        assert!(cal.get_event(h).is_ok());
    }
}

#[test]
/// tests the event deletion method
fn test_event_deletion() {
    let e = Event::default();
    let eid = get_hash(&e);

    let mut cal = Calendar::new("owner", "test");
    cal.add_event(e);

    assert!(cal.remove_event(rand::random()).is_err());
    assert!(cal.remove_event(eid).is_ok());
    assert!(cal.remove_event(eid).is_err());
}

#[test]
/// test week filter
fn test_week_filter() {
    let dt = chrono::Local::now().naive_local();
    let mut cal = Calendar::new("owner", "test");
    for offt in -365..365 {
        let date_offt = dt.checked_add_signed(chrono::Duration::days(offt)).unwrap();
        let e = Event::new(
            "test",
            "test",
            &date_offt.to_string(),
            &dt.time().format("%H:%M").to_string(),
            3600,
            None,
            None,
            None,
        );
        cal.add_event(e);
    }

    let weekday = dt.weekday();
    let start = dt
        .with_day(dt.day() - weekday.num_days_from_monday())
        .unwrap()
        .with_hour(0)
        .unwrap()
        .with_minute(0)
        .unwrap();
    let end = dt
        .with_day(dt.day() - weekday.num_days_from_sunday())
        .unwrap()
        .with_hour(0)
        .unwrap()
        .with_minute(0)
        .unwrap();
    let start_dt = calendar_lib::date::DateTime {
        date: calendar_lib::date::Date {
            year: start.year() as u16,
            month: start.month() as u8,
            day: start.day() as u8,
        },
        time: calendar_lib::date::Time {
            hour: start.hour() as u8,
            minute: start.minute() as u8,
            second: start.second() as u8,
        },
    };
    let end_dt = calendar_lib::date::DateTime {
        date: calendar_lib::date::Date {
            year: end.year() as u16,
            month: end.month() as u8,
            day: end.day() as u8,
        },
        time: calendar_lib::date::Time {
            hour: end.hour() as u8,
            minute: end.minute() as u8,
            second: end.second() as u8,
        },
    };
    for ev in cal.list_events_between(Some(start_dt), Some(end_dt)) {
        let d = ev.get_start_date();
        let nd = chrono::NaiveDate::from_ymd_opt(d.year as i32, d.month as u32, d.day as u32)
            .unwrap();
        assert_eq!(nd.iso_week(), dt.iso_week());
    }
}

#[test]
/// tests that duplicate events (events with the same hash) are not added
fn test_duplicate_add() {
    let mut cal = Calendar::new("owner", "test");
    let ev = Event::new(
        "title",
        "description",
        "10/02/2011",
        "15:00",
        14400,
        Some("Somewhere"),
        None,
        None,
    );
    assert_eq!(cal.get_size(), 0);
    cal.add_event(ev.clone());
    assert_eq!(cal.get_size(), 1);
    // trying to add an event with the same hash should not result in a new event being added
    cal.add_event(ev.clone());
    assert_eq!(cal.get_size(), 1);
    let mut ev2 = ev;
    // but if the event is mutated than it should have a different hash and hence be added
    ev2.set_title("Random");
    cal.add_event(ev2);
    assert_eq!(cal.get_size(), 2);
}

#[test]
/// tests the clear method
fn test_clear() {
    // defines some events
    let v = vec![
        Event::new("title1", "desc1", "11/02/2001", "-", 10800, None, None, None),
        Event::new(
            "title2",
            "desc2",
            "08/09/2011",
            "-",
            10800,
            Some("Some location"),
            None,
            None,
        ),
        Event::new(
            "title3",
            "desc3",
            "11/02/2001",
            "-",
            10800,
            Some("Random loc"),
            None,
            None,
        ),
        Event::new("title4", "desc4", "13/04/1999", "-", 10800, None, None, None),
        Event::new("title5", "desc5", "21/01/2021", "-", 10800, None, None, None),
        Event::new("title6", "desc6", "13/03/2001", "-", 10800, None, None, None),
        Event::new(
            "title7",
            "desc7",
            "12/12/2012",
            "-",
            10800,
            Some("Pisa"),
            None,
            None,
        ),
    ];
    let mut cal = Calendar::new("owner", "test");
    let vlen = v.len();
    for ev in v {
        cal.add_event(ev);
    }
    assert_eq!(vlen, cal.list_events_between(None, None).len());
    cal.clear();
    assert_eq!(0, cal.list_events_between(None, None).len());
}
