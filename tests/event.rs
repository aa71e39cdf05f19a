use calendar::{Date, DateTime, Event, EventError, Time};

fn date(y: i32, m: u32, d: u32) -> Date {
    Date::from_ymd(y, m, d).unwrap()
}

fn at(d: Date, h: u32, mi: u32, s: u32) -> DateTime {
    DateTime::new(d, Time::from_hms(h, mi, s).unwrap())
}

#[test]
fn date_from_ymd_counts_days_from_common_era() {
    assert_eq!(date(1970, 1, 1).num_days_from_ce(), 719_163);
    assert_eq!(date(1, 1, 1).num_days_from_ce(), 1);
    assert_eq!(date(2, 1, 1).num_days_from_ce(), 366);
    assert_eq!(date(0, 1, 1).num_days_from_ce(), -365);
    assert_eq!(
        date(2024, 3, 1).num_days_from_ce() - date(2024, 2, 28).num_days_from_ce(),
        2
    );
}

#[test]
fn date_from_ymd_rejects_invalid_dates() {
    assert!(Date::from_ymd(2015, 0, 14).is_none());
    assert!(Date::from_ymd(2015, 2, 29).is_none());
    assert!(Date::from_ymd(2015, 4, 31).is_none());
    assert!(Date::from_ymd(-4, 2, 29).is_some());
    assert!(Date::from_ymd(1900, 2, 29).is_none());
    assert!(Date::from_ymd(2000, 2, 29).is_some());
    assert!(Date::from_ymd(400000, 1, 1).is_none());
    assert!(Date::from_ymd(-400000, 1, 1).is_none());
}

#[test]
fn time_from_hms_bounds() {
    assert_eq!(Time::from_hms(9, 30, 15).unwrap().seconds_since_midnight(), 34_215);
    assert_eq!(Time::from_hms(23, 59, 59).unwrap().seconds_since_midnight(), 86_399);
    assert!(Time::from_hms(24, 0, 0).is_none());
    assert!(Time::from_hms(0, 60, 0).is_none());
    assert!(Time::from_hms(0, 0, 60).is_none());
    assert!(Time::from_seconds_since_midnight(86_400).is_none());
    assert_eq!(Time::from_seconds_since_midnight(60), Time::from_hms(0, 1, 0));
}

#[test]
fn seconds_between_datetimes() {
    let d = date(2024, 1, 10);
    let next = date(2024, 1, 11);
    assert_eq!(at(next, 0, 0, 0).seconds_since(&at(d, 23, 59, 59)), 1);
    assert_eq!(at(d, 9, 0, 0).seconds_since(&at(d, 10, 0, 0)), -3600);
}

#[test]
fn standup_scenario() {
    let d = date(2024, 1, 10);
    let e = Event::new("Standup".to_string(), &d);
    assert_eq!(e.start(), at(d, 0, 0, 0));
    assert_eq!(e.end(), at(d, 23, 59, 59));
    assert_eq!(e.name(), "Standup");
    let e = e.set_start_time(Time::from_hms(9, 0, 0).unwrap()).unwrap();
    assert_eq!(e.start(), at(d, 9, 0, 0));
    let r = e.set_start_time(Time::from_hms(23, 59, 59).unwrap());
    assert_eq!(r.unwrap_err(), EventError::InvalidStartTime);
}

#[test]
fn new_events_get_different_ids() {
    let d = date(2024, 1, 10);
    let a = Event::new("a".to_string(), &d);
    let b = Event::new("a".to_string(), &d);
    assert_ne!(a.id(), b.id());
}

#[test]
fn set_start_then_set_end_round_trips() {
    let d = date(2024, 1, 10);
    let cases = [
        (at(d, 9, 0, 0), at(d, 9, 0, 1)),
        (at(d, 0, 0, 0), at(date(2024, 2, 1), 12, 0, 0)),
        (at(date(2023, 12, 31), 23, 0, 0), at(d, 8, 0, 0)),
    ];
    for (start, end) in cases {
        let e = Event::with_id("x".to_string(), &d, 7);
        let e = e.set_start(start).unwrap().set_end(end).unwrap();
        assert_eq!(e.start(), start);
        assert_eq!(e.end(), end);
        assert_eq!(e.name(), "x");
        assert_eq!(e.id(), 7);
    }
}

#[test]
fn backwards_spans_are_refused() {
    let d = date(2024, 1, 10);
    let end = at(d, 10, 0, 0);
    for start in [at(d, 10, 0, 0), at(d, 11, 0, 0), at(date(2024, 1, 11), 0, 0, 0)] {
        let e = Event::with_id("x".to_string(), &d, 1).set_end(end).unwrap();
        assert_eq!(e.set_start(start).unwrap_err(), EventError::InvalidStartTime);
        let e = Event::with_id("x".to_string(), &d, 1).set_start(start);
        if let Ok(e) = e {
            assert_eq!(e.set_end(end).unwrap_err(), EventError::InvalidEndTime);
        }
    }
    let e = Event::with_id("x".to_string(), &d, 1)
        .set_start(at(d, 12, 0, 0))
        .unwrap();
    assert_eq!(e.set_end(at(d, 11, 0, 0)).unwrap_err(), EventError::InvalidEndTime);
}

#[test]
fn set_name_twice_is_idempotent() {
    let d = date(2024, 1, 10);
    let mut e = Event::with_id("old".to_string(), &d, 3);
    e.set_name("new".to_string());
    let once_start = e.start();
    e.set_name("new".to_string());
    assert_eq!(e.name(), "new");
    assert_eq!(e.start(), once_start);
    assert_eq!(e.id(), 3);
}

#[test]
fn date_and_time_setters() {
    let d = date(2024, 1, 10);
    let e = Event::with_id("x".to_string(), &d, 1);
    let e = e.set_end_date(date(2024, 1, 12)).unwrap();
    assert_eq!(e.end(), at(date(2024, 1, 12), 23, 59, 59));
    let e = e.set_start_date(date(2024, 1, 11)).unwrap();
    assert_eq!(e.start(), at(date(2024, 1, 11), 0, 0, 0));
    let e = e.set_end_time(Time::from_hms(6, 0, 0).unwrap()).unwrap();
    assert_eq!(e.end(), at(date(2024, 1, 12), 6, 0, 0));
    let e = e.set_start_date(date(2024, 1, 13)).unwrap_err();
    assert_eq!(e, EventError::InvalidStartTime);
    let e = Event::with_id("x".to_string(), &d, 1)
        .set_start_time(Time::from_hms(12, 0, 0).unwrap())
        .unwrap();
    assert_eq!(
        e.clone().set_end_time(Time::from_hms(12, 0, 0).unwrap()).unwrap_err(),
        EventError::InvalidEndTime
    );
    assert_eq!(
        e.set_end_date(date(2024, 1, 9)).unwrap_err(),
        EventError::InvalidEndTime
    );
}

#[test]
fn precedes_orders_by_start_end_name_id() {
    let d = date(2024, 1, 10);
    let base = || Event::with_id("b".to_string(), &d, 5);
    let earlier = Event::with_id("z".to_string(), &d, 9)
        .set_end(at(d, 12, 0, 0))
        .unwrap();
    assert!(earlier.precedes(&base()));
    let by_name = Event::with_id("a".to_string(), &d, 9);
    assert!(by_name.precedes(&base()));
    assert!(!base().precedes(&by_name));
    let by_id = Event::with_id("b".to_string(), &d, 4);
    assert!(by_id.precedes(&base()));
    assert!(!base().precedes(&base()));
    let prefix = Event::with_id("bb".to_string(), &d, 1);
    assert!(base().precedes(&prefix));
}

#[test]
fn time_components() {
    let t = Time::from_hms(13, 45, 7).unwrap();
    assert_eq!((t.hour(), t.minute(), t.second()), (13, 45, 7));
}

#[test]
fn events_compare_by_all_fields() {
    let d = date(2024, 1, 10);
    let a = Event::with_id("a".to_string(), &d, 1);
    assert!(a == Event::with_id("a".to_string(), &d, 1));
    assert!(a != Event::with_id("a".to_string(), &d, 2));
    assert!(a != Event::with_id("b".to_string(), &d, 1));
    assert!(a != Event::with_id("a".to_string(), &date(2024, 1, 11), 1));
}

#[test]
fn date_range_matches_year_bounds() {
    assert!(Date::from_ymd(262_142, 12, 31).is_some());
    assert!(Date::from_ymd(262_143, 1, 1).is_none());
    assert!(Date::from_ymd(-262_143, 1, 1).is_some());
    assert!(Date::from_ymd(-262_144, 12, 31).is_none());
}
