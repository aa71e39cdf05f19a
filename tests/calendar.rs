use calendar::{Date, DateTime, Event, EventCalendar, Time};

fn date(y: i32, m: u32, d: u32) -> Date {
    Date::from_ymd(y, m, d).unwrap()
}

fn at(d: Date, h: u32, mi: u32, s: u32) -> DateTime {
    DateTime::new(d, Time::from_hms(h, mi, s).unwrap())
}

fn hour_event(name: &str, d: Date, h: u32, id: u128) -> Event {
    Event::with_id(name.to_string(), &d, id)
        .set_start(at(d, h, 0, 0))
        .unwrap()
}

#[test]
fn three_events_scenario() {
    let d = date(2024, 1, 10);
    let mut cal = EventCalendar::new();
    assert!(cal.add_event(hour_event("c", d, 11, 3)));
    assert!(cal.add_event(hour_event("a", d, 9, 1)));
    assert!(cal.add_event(hour_event("b", d, 10, 2)));
    let r = cal.events_in_range(at(d, 9, 30, 0), at(d, 10, 30, 0));
    assert_eq!(r.len(), 1);
    assert_eq!(r[0].id(), 2);
    assert_eq!(cal.first_event().unwrap().id(), 1);
}

#[test]
fn empty_calendar() {
    let cal = EventCalendar::new();
    assert!(cal.first_event().is_none());
    assert!(cal.get(1).is_none());
    let d = date(2024, 1, 10);
    assert!(cal.events_in_range(at(d, 0, 0, 0), at(d, 23, 0, 0)).is_empty());
}

#[test]
fn range_is_sorted_whatever_the_insertion_order() {
    let d = date(2024, 1, 10);
    let a = || hour_event("a", d, 9, 10);
    let b = || hour_event("b", d, 9, 11).set_end(at(d, 12, 0, 0)).unwrap();
    let c = || hour_event("c", d, 9, 12).set_end(at(d, 12, 0, 0)).unwrap();
    let orders: [[u8; 3]; 6] = [[0, 1, 2], [0, 2, 1], [1, 0, 2], [1, 2, 0], [2, 0, 1], [2, 1, 0]];
    for order in orders {
        let mut cal = EventCalendar::new();
        for k in order {
            let e = match k {
                0 => a(),
                1 => b(),
                _ => c(),
            };
            assert!(cal.add_event(e));
        }
        let r = cal.events_in_range(at(date(2024, 1, 1), 0, 0, 0), at(date(2024, 2, 1), 0, 0, 0));
        let ids: Vec<u128> = r.iter().map(|e| e.id()).collect();
        assert_eq!(ids, vec![11, 12, 10]);
    }
}

#[test]
fn range_includes_either_endpoint_inclusive() {
    let d = date(2024, 1, 10);
    let mut cal = EventCalendar::new();
    let long = Event::with_id("long".to_string(), &d, 1)
        .set_start(at(d, 8, 0, 0))
        .unwrap()
        .set_end(at(d, 18, 0, 0))
        .unwrap();
    let ends_in = Event::with_id("ends".to_string(), &d, 2)
        .set_start(at(date(2024, 1, 9), 20, 0, 0))
        .unwrap()
        .set_end(at(d, 10, 0, 0))
        .unwrap();
    cal.add_event(long);
    cal.add_event(ends_in);
    let r = cal.events_in_range(at(d, 9, 0, 0), at(d, 10, 0, 0));
    let ids: Vec<u128> = r.iter().map(|e| e.id()).collect();
    assert_eq!(ids, vec![2]);
    let r = cal.events_in_range(at(d, 18, 0, 0), at(d, 19, 0, 0));
    let ids: Vec<u128> = r.iter().map(|e| e.id()).collect();
    assert_eq!(ids, vec![1]);
}

#[test]
fn add_event_reports_new_ids_once() {
    let d = date(2024, 1, 10);
    let mut cal = EventCalendar::new();
    assert!(cal.add_event(hour_event("a", d, 9, 1)));
    assert!(!cal.add_event(hour_event("a", d, 9, 1)));
    assert!(!cal.add_event(hour_event("renamed", d, 14, 1)));
    assert!(cal.add_event(hour_event("b", d, 9, 2)));
    let all = cal.events_in_range(at(d, 0, 0, 0), at(d, 23, 59, 59));
    assert_eq!(all.len(), 2);
    let e = cal.get(1).unwrap();
    assert_eq!(e.name(), "renamed");
    assert_eq!(e.start(), at(d, 14, 0, 0));
}

#[test]
fn get_after_add_returns_equal_fields() {
    let d = date(2024, 1, 10);
    let mut cal = EventCalendar::new();
    let e = hour_event("standup", d, 9, 42);
    let (start, end) = (e.start(), e.end());
    cal.add_event(e);
    cal.add_event(hour_event("other", d, 8, 43));
    let got = cal.get(42).unwrap();
    assert_eq!(got.id(), 42);
    assert_eq!(got.name(), "standup");
    assert_eq!(got.start(), start);
    assert_eq!(got.end(), end);
    assert!(cal.get(44).is_none());
    assert_eq!(cal.first_event().unwrap().id(), 43);
}

#[test]
fn random_ids_work_in_calendar() {
    let d = date(2024, 1, 10);
    let mut cal = EventCalendar::new();
    let e = Event::new("x".to_string(), &d);
    let id = e.id();
    assert!(cal.add_event(e));
    assert_eq!(cal.get(id).unwrap().name(), "x");
}

#[test]
fn default_calendar_is_empty() {
    let cal = EventCalendar::default();
    assert!(cal.first_event().is_none());
}
