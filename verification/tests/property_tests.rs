use calendar_lib::calendar::Calendar;
use calendar_lib::calendar::expand_recurrence;
use calendar_lib::date::Date;
use calendar_lib::date::DateTime;
use calendar_lib::date::Time;
use calendar_lib::date::day_bounds;
use calendar_lib::date::month_bounds;
use calendar_lib::date::week_bounds;
use calendar_lib::event::Cadence;
use calendar_lib::event::Event;
use calendar_lib::event::ParseRecurrenceError;
use calendar_lib::event::Recurrence;
use calendar_lib::event::parse_recurrence;
use calendar_lib::event::parse_usize;
use calendar_lib::event::date_text_accepted;
use calendar_lib::event::time_text_accepted;

fn dt(year: u16, month: u8, day: u8, hour: u8, minute: u8, second: u8) -> DateTime {
    DateTime {
        date: Date { year, month, day },
        time: Time {
            hour,
            minute,
            second,
        },
    }
}

fn base_event() -> Event {
    Event::new(
        "Standup",
        "daily sync",
        "01/01/2024",
        "09:00",
        1800,
        Some("Room 1"),
        None,
        Some(vec![String::from("work")]),
    )
}

#[test]
/// inserting an identical-content event twice leaves the store size unchanged
fn idempotent_insert() {
    let mut cal = Calendar::new("me", "cal");
    assert!(cal.add_event(base_event()));
    assert_eq!(cal.get_size(), 1);
    assert!(!cal.add_event(base_event()));
    assert_eq!(cal.get_size(), 1);
}

#[test]
/// changing any single content field changes the fingerprint
fn fingerprint_sensitivity() {
    let base = base_event();
    let fp = base.fingerprint();

    let mut e = base.clone();
    e.set_title("Standup 2");
    assert_ne!(e.fingerprint(), fp);

    let mut e = base.clone();
    e.set_description("other text");
    assert_ne!(e.fingerprint(), fp);

    let mut e = base.clone();
    assert!(e.set_start_date((2, 1, 2024)));
    assert_ne!(e.fingerprint(), fp);

    let mut e = base.clone();
    assert!(e.set_start_time((9, 30, 0)));
    assert_ne!(e.fingerprint(), fp);

    let mut e = base.clone();
    e.set_duration(3600);
    assert_ne!(e.fingerprint(), fp);

    let mut e = base.clone();
    e.set_location("Room 2");
    assert_ne!(e.fingerprint(), fp);

    let mut e = base.clone();
    e.set_recurrence("daily 2");
    assert_ne!(e.fingerprint(), fp);

    let mut e = base.clone();
    e.set_tags(vec![String::from("work"), String::from("sync")]);
    assert_ne!(e.fingerprint(), fp);

    // the bookkeeping timestamps are excluded: a clone keeps the fingerprint
    assert_eq!(base.clone().fingerprint(), fp);
}

#[test]
/// expand with five repetitions yields exactly six occurrences, anchor first
fn expansion_length() {
    let rec = Recurrence {
        cadence: Cadence::Hourly,
        repetitions: 5,
        interval: None,
    };
    let anchor_date = Date {
        year: 2024,
        month: 6,
        day: 10,
    };
    let anchor_time = Time {
        hour: 8,
        minute: 0,
        second: 0,
    };
    let occs = expand_recurrence(&rec, &anchor_date, &anchor_time);
    assert_eq!(occs.len(), 6);
    assert_eq!(
        occs[0],
        DateTime {
            date: anchor_date,
            time: anchor_time
        }
    );
}

#[test]
/// daily expansion walks forward one day at a time, keeping the time
fn expansion_daily_exact() {
    let rec = Recurrence {
        cadence: Cadence::Daily,
        repetitions: 3,
        interval: None,
    };
    let occs = expand_recurrence(
        &rec,
        &Date {
            year: 2024,
            month: 1,
            day: 1,
        },
        &Time {
            hour: 10,
            minute: 0,
            second: 0,
        },
    );
    let expected = vec![
        dt(2024, 1, 1, 10, 0, 0),
        dt(2024, 1, 2, 10, 0, 0),
        dt(2024, 1, 3, 10, 0, 0),
        dt(2024, 1, 4, 10, 0, 0),
    ];
    assert_eq!(occs, expected);
}

#[test]
/// a month step from 31 January lands on the last day of February
fn month_rollover_clamps() {
    let rec = Recurrence {
        cadence: Cadence::Monthly,
        repetitions: 1,
        interval: None,
    };
    let occs = expand_recurrence(
        &rec,
        &Date {
            year: 2024,
            month: 1,
            day: 31,
        },
        &Time {
            hour: 9,
            minute: 0,
            second: 0,
        },
    );
    assert_eq!(occs, vec![dt(2024, 1, 31, 9, 0, 0), dt(2024, 2, 29, 9, 0, 0)]);

    // and in a common year the clamp lands on the 28th
    let occs = expand_recurrence(
        &rec,
        &Date {
            year: 2023,
            month: 1,
            day: 31,
        },
        &Time {
            hour: 9,
            minute: 0,
            second: 0,
        },
    );
    assert_eq!(occs, vec![dt(2023, 1, 31, 9, 0, 0), dt(2023, 2, 28, 9, 0, 0)]);
}

#[test]
/// a yearly step from 29 February clamps to 28 February of the target year
fn year_rollover_clamps() {
    let rec = Recurrence {
        cadence: Cadence::Yearly,
        repetitions: 1,
        interval: None,
    };
    let occs = expand_recurrence(
        &rec,
        &Date {
            year: 2024,
            month: 2,
            day: 29,
        },
        &Time {
            hour: 12,
            minute: 0,
            second: 0,
        },
    );
    assert_eq!(occs, vec![dt(2024, 2, 29, 12, 0, 0), dt(2025, 2, 28, 12, 0, 0)]);
}

#[test]
/// sub-day cadences carry across minute, hour, day, month and year boundaries
fn expansion_carries() {
    let rec = Recurrence {
        cadence: Cadence::Minutely,
        repetitions: 1,
        interval: None,
    };
    let occs = expand_recurrence(
        &rec,
        &Date {
            year: 2024,
            month: 12,
            day: 31,
        },
        &Time {
            hour: 23,
            minute: 59,
            second: 30,
        },
    );
    assert_eq!(
        occs,
        vec![dt(2024, 12, 31, 23, 59, 30), dt(2025, 1, 1, 0, 0, 30)]
    );
}

#[test]
/// the interval multiplies every cadence's step uniformly
fn expansion_interval_scales() {
    let rec = Recurrence {
        cadence: Cadence::Daily,
        repetitions: 2,
        interval: Some(3),
    };
    let occs = expand_recurrence(
        &rec,
        &Date {
            year: 2024,
            month: 1,
            day: 1,
        },
        &Time {
            hour: 7,
            minute: 0,
            second: 0,
        },
    );
    assert_eq!(
        occs,
        vec![
            dt(2024, 1, 1, 7, 0, 0),
            dt(2024, 1, 4, 7, 0, 0),
            dt(2024, 1, 7, 7, 0, 0)
        ]
    );

    let rec = Recurrence {
        cadence: Cadence::Monthly,
        repetitions: 1,
        interval: Some(2),
    };
    let occs = expand_recurrence(
        &rec,
        &Date {
            year: 2024,
            month: 1,
            day: 15,
        },
        &Time {
            hour: 7,
            minute: 0,
            second: 0,
        },
    );
    assert_eq!(occs, vec![dt(2024, 1, 15, 7, 0, 0), dt(2024, 3, 15, 7, 0, 0)]);
}

#[test]
/// an event starting exactly at `until` is included; so is one exactly at
/// `from`; one a second past `until` is not
fn range_query_inclusive() {
    let mut cal = Calendar::new("me", "cal");
    let at_from = Event::new("a", "", "01/01/2024", "00:00", 0, None, None, None);
    let at_until = Event::new("b", "", "05/01/2024", "18:00", 0, None, None, None);
    let past_until = Event::new("c", "", "05/01/2024", "18:00:01", 0, None, None, None);
    cal.add_event(at_from.clone());
    cal.add_event(at_until.clone());
    cal.add_event(past_until.clone());

    let from = dt(2024, 1, 1, 0, 0, 0);
    let until = dt(2024, 1, 5, 18, 0, 0);
    let hits = cal.list_events_between(Some(from), Some(until));
    assert_eq!(hits.len(), 2);
    let titles: Vec<&str> = hits.iter().map(|e| e.get_title()).collect();
    assert!(titles.contains(&"a"));
    assert!(titles.contains(&"b"));
    assert!(!titles.contains(&"c"));
}

#[test]
/// `between` results are non-decreasing by (date, time)
fn between_sorted() {
    let mut cal = Calendar::new("me", "cal");
    cal.add_event(Event::new("late", "", "20/06/2024", "18:00", 0, None, None, None));
    cal.add_event(Event::new("early", "", "02/01/2024", "08:00", 0, None, None, None));
    cal.add_event(Event::new("mid", "", "02/01/2024", "09:30", 0, None, None, None));
    cal.add_event(Event::new(
        "weekly",
        "",
        "01/01/2024",
        "12:00",
        0,
        None,
        Some("weekly 10"),
        None,
    ));
    let all = cal.list_events_between(None, None);
    assert_eq!(all.len(), 14);
    for w in all.windows(2) {
        let a = (w[0].get_start_date(), w[0].get_start_time());
        let b = (w[1].get_start_date(), w[1].get_start_time());
        let ka = (a.0.year, a.0.month, a.0.day, a.1.hour, a.1.minute, a.1.second);
        let kb = (b.0.year, b.0.month, b.0.day, b.1.hour, b.1.minute, b.1.second);
        assert!(ka <= kb);
    }
}

#[test]
/// overlap is symmetric on a few concrete pairs
fn overlap_symmetry() {
    let a = Event::new("a", "", "01/01/2024", "09:00", 3600, None, None, None);
    let b = Event::new("b", "", "01/01/2024", "09:30", 3600, None, None, None);
    let c = Event::new("c", "", "02/01/2024", "09:00", 3600, None, None, None);
    let r = Event::new("r", "", "01/01/2024", "16:00", 1800, None, Some("daily 3"), None);
    assert_eq!(a.overlaps(&b), b.overlaps(&a));
    assert_eq!(a.overlaps(&c), c.overlaps(&a));
    assert_eq!(a.overlaps(&r), r.overlaps(&a));
    assert_eq!(c.overlaps(&r), r.overlaps(&c));
    assert!(a.overlaps(&b));
    assert!(!a.overlaps(&c));
}

#[test]
/// removing an unknown fingerprint reports `EventNotFound`; removing twice in
/// a row fails the second time
fn remove_unknown_id() {
    let mut cal = Calendar::new("me", "cal");
    let r = cal.remove_event(42);
    assert!(matches!(
        r,
        Err(calendar_lib::calendar_error::CalendarError::EventNotFound(42))
    ));
    let ev = base_event();
    let fp = ev.fingerprint();
    cal.add_event(ev);
    assert!(cal.remove_event(fp).is_ok());
    assert!(matches!(
        cal.remove_event(fp),
        Err(calendar_lib::calendar_error::CalendarError::EventNotFound(x)) if x == fp
    ));
}

#[test]
/// the standup scenario: five projected occurrences at 09:00 on 1-5 January
fn standup_scenario() {
    let mut cal = Calendar::new("me", "cal");
    let standup = Event::new(
        "Standup",
        "",
        "01/01/2024",
        "09:00",
        1800,
        None,
        Some("daily 4"),
        None,
    );
    assert!(cal.add_event(standup));
    let hits = cal.list_events_between(Some(dt(2024, 1, 1, 0, 0, 0)), Some(dt(2024, 1, 5, 23, 59, 59)));
    assert_eq!(hits.len(), 5);
    for (i, ev) in hits.iter().enumerate() {
        assert_eq!(ev.get_title(), "Standup");
        assert_eq!(
            ev.get_start_date(),
            Date {
                year: 2024,
                month: 1,
                day: 1 + i as u8
            }
        );
        assert_eq!(
            ev.get_start_time(),
            Time {
                hour: 9,
                minute: 0,
                second: 0
            }
        );
    }
}

#[test]
/// two intersecting events are both stored; the overlap only warns
fn overlapping_insert_succeeds() {
    let mut cal = Calendar::new("me", "cal");
    let first = Event::new("first", "", "01/01/2024", "09:00", 3600, None, None, None);
    let second = Event::new("second", "", "01/01/2024", "09:30", 3600, None, None, None);
    let first_fp = first.fingerprint();
    assert!(cal.add_event(first));
    let warnings = cal.overlap_warnings(&second);
    assert_eq!(warnings, vec![first_fp]);
    assert!(cal.add_event(second));
    assert_eq!(cal.get_size(), 2);
}

#[test]
/// the recurrence grammar: cadence name, repetitions, optional interval
fn recurrence_grammar() {
    assert_eq!(
        parse_recurrence("daily 3"),
        Some(Recurrence {
            cadence: Cadence::Daily,
            repetitions: 3,
            interval: None
        })
    );
    assert_eq!(
        parse_recurrence("  DAILY 3 2  "),
        Some(Recurrence {
            cadence: Cadence::Daily,
            repetitions: 3,
            interval: Some(2)
        })
    );
    // a third word that is no unsigned integer is another shape: no recurrence
    assert_eq!(parse_recurrence("daily 3 x"), None);
    // the interval is a positive multiplier: zero is another shape too
    assert_eq!(parse_recurrence("daily 3 0"), None);
    // a leading plus sign is what the standard integer parser accepts
    assert_eq!(
        parse_recurrence("daily +5"),
        Some(Recurrence {
            cadence: Cadence::Daily,
            repetitions: 5,
            interval: None
        })
    );
    assert_eq!(parse_recurrence(""), None);
    assert_eq!(parse_recurrence("daily"), None);
    assert_eq!(parse_recurrence("daily 1 2 3"), None);
    assert_eq!(parse_recurrence("fortnightly 2"), None);
    assert_eq!(parse_recurrence("daily 0"), None);
    assert_eq!(parse_recurrence("daily 99999999999999999999999999"), None);
}

#[test]
/// cadence names are matched without regard to ASCII case; anything else is
/// an unknown cadence
fn cadence_parsing() {
    assert_eq!(Cadence::from_str("sEcOnDlY").unwrap(), Cadence::Secondly);
    assert_eq!(Cadence::from_str("HOURLY").unwrap(), Cadence::Hourly);
    assert_eq!(Cadence::from_str("weekly").unwrap(), Cadence::Weekly);
    // the folding is Unicode, not ASCII: the Kelvin sign lowercases to 'k'
    assert_eq!(Cadence::from_str("wee\u{212a}ly").unwrap(), Cadence::Weekly);
    let e = Cadence::from_str("biweekly");
    assert!(matches!(e, Err(ParseRecurrenceError::UnknownCadence(s)) if s == "biweekly"));
}

#[test]
/// the standard integer parser's shape: digits, optional plus, range checked
fn usize_parsing() {
    assert_eq!(parse_usize("0"), Some(0));
    assert_eq!(parse_usize("42"), Some(42));
    assert_eq!(parse_usize("+42"), Some(42));
    assert_eq!(parse_usize(""), None);
    assert_eq!(parse_usize("+"), None);
    assert_eq!(parse_usize("-1"), None);
    assert_eq!(parse_usize("4 2"), None);
    assert_eq!(parse_usize("99999999999999999999999999"), None);
    assert_eq!(parse_usize("18446744073709551615"), Some(18446744073709551615));
    assert_eq!(parse_usize("18446744073709551616"), None);
}

#[test]
/// tag queries are exact and case-sensitive, and do not expand recurrences
fn tag_query() {
    let mut cal = Calendar::new("me", "cal");
    let mut a = Event::new("a", "", "01/01/2024", "09:00", 0, None, Some("daily 3"), None);
    a.set_tags(vec![String::from("Work")]);
    let mut b = Event::new("b", "", "02/01/2024", "09:00", 0, None, None, None);
    b.set_tags(vec![String::from("work"), String::from("sync")]);
    cal.add_event(a);
    cal.add_event(b);

    let hits = cal.list_events_tagged(String::from("work"));
    assert_eq!(hits.len(), 1);
    assert_eq!(hits[0].get_title(), "b");
    let hits = cal.list_events_tagged(String::from("Work"));
    assert_eq!(hits.len(), 1);
    assert_eq!(hits[0].get_title(), "a");
    let hits = cal.list_events_tagged(String::from("play"));
    assert_eq!(hits.len(), 0);
}

#[test]
/// the day, ISO-week and month windows around a date
fn window_bounds() {
    let d = Date {
        year: 2024,
        month: 1,
        day: 3,
    };
    let (lo, hi) = day_bounds(&d);
    assert_eq!(lo, dt(2024, 1, 3, 0, 0, 0));
    assert_eq!(hi, dt(2024, 1, 3, 23, 59, 59));

    // 3 January 2024 is a Wednesday; its ISO week runs Monday 1 January
    // through Sunday 7 January
    let (lo, hi) = week_bounds(&d);
    assert_eq!(lo, dt(2024, 1, 1, 0, 0, 0));
    assert_eq!(hi, dt(2024, 1, 7, 23, 59, 59));

    // a week crossing a month boundary
    let (lo, hi) = week_bounds(&Date {
        year: 2024,
        month: 3,
        day: 1,
    });
    assert_eq!(lo, dt(2024, 2, 26, 0, 0, 0));
    assert_eq!(hi, dt(2024, 3, 3, 23, 59, 59));

    let (lo, hi) = month_bounds(&Date {
        year: 2024,
        month: 2,
        day: 15,
    });
    assert_eq!(lo, dt(2024, 2, 1, 0, 0, 0));
    assert_eq!(hi, dt(2024, 2, 29, 23, 59, 59));
}

#[test]
/// the next occurrence of an event shifts both start and end by one step
fn next_occurrence_shifts() {
    let ev = Event::new("a", "", "01/01/2024", "10:00", 3600, None, None, None);
    let (s, e) = Event::next_occurrence(&ev, &Cadence::Daily);
    assert_eq!(s, dt(2024, 1, 2, 10, 0, 0));
    assert_eq!(e, dt(2024, 1, 2, 11, 0, 0));
    let (s, e) = Event::next_occurrence(&ev, &Cadence::Monthly);
    assert_eq!(s, dt(2024, 2, 1, 10, 0, 0));
    assert_eq!(e, dt(2024, 2, 1, 11, 0, 0));
}

#[test]
/// recurring events whose expansion would leave the representable date range
/// are detected before insertion
fn expansion_range_check() {
    let ok = Event::new("a", "", "01/01/2024", "10:00", 0, None, Some("yearly 100"), None);
    assert!(ok.expansion_in_range());
    let too_far = Event::new("b", "", "01/01/2024", "10:00", 0, None, Some("yearly 8000"), None);
    assert!(!too_far.expansion_in_range());
}

#[test]
/// occurrence totals count each event's repetitions plus one
fn occurrence_totals() {
    let mut cal = Calendar::new("me", "cal");
    cal.add_event(Event::new("a", "", "01/01/2024", "10:00", 0, None, Some("daily 4"), None));
    cal.add_event(Event::new("b", "", "02/01/2024", "10:00", 0, None, None, None));
    assert_eq!(cal.total_occurrences(), 6);
    assert_eq!(cal.all_events().len(), 2);
}

#[test]
/// store bookkeeping: names, owners, and the event accessor
fn store_bookkeeping() {
    let mut cal = Calendar::new("me", "home");
    assert_eq!(cal.get_owner(), "me");
    assert_eq!(cal.get_name(), "home");
    cal.set_owner("you");
    cal.set_name("away");
    assert_eq!(cal.get_owner(), "you");
    assert_eq!(cal.get_name(), "away");

    let ev = base_event();
    let fp = ev.fingerprint();
    assert!(cal.get_event(fp).is_err());
    cal.add_event(ev);
    let found = cal.get_event(fp).unwrap();
    assert_eq!(found.get_title(), "Standup");
}

#[test]
/// expanded occurrences exactly on the window's bounds are kept too
fn recurring_boundary_occurrences() {
    let mut cal = Calendar::new("me", "cal");
    let daily = Event::new(
        "daily",
        "",
        "01/01/2024",
        "09:00",
        0,
        None,
        Some("daily 4"),
        None,
    );
    cal.add_event(daily);
    // occurrence 2 falls exactly on `from`, occurrence 4 exactly on `until`
    let hits = cal.list_events_between(Some(dt(2024, 1, 3, 9, 0, 0)), Some(dt(2024, 1, 5, 9, 0, 0)));
    assert_eq!(hits.len(), 3);
    assert_eq!(
        hits[0].get_start_date(),
        Date {
            year: 2024,
            month: 1,
            day: 3
        }
    );
    assert_eq!(
        hits[2].get_start_date(),
        Date {
            year: 2024,
            month: 1,
            day: 5
        }
    );
}

#[test]
/// date and time text that will fall back to the clock is detectable
fn fallback_detection() {
    assert!(date_text_accepted("10/03/2022"));
    assert!(date_text_accepted("2022-03-10"));
    assert!(!date_text_accepted("xxx"));
    assert!(!date_text_accepted("31/02/2022"));
    assert!(time_text_accepted("16:10"));
    assert!(time_text_accepted("16:10:30"));
    assert!(!time_text_accepted("yyy"));
    assert!(!time_text_accepted("25:00"));
}
