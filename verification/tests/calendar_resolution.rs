//! End-to-end tests of the service-calendar resolution engine.

use transit_calendar::common_format::{
    manage_calendar_dates, manage_calendars, Calendar, CalendarDate,
};
use transit_calendar::collection::CollectionWithId;
use transit_calendar::dates::from_ymd;
use transit_calendar::objects::ExceptionType;
use transit_calendar::Error;

fn date(y: u32, m: u32, d: u32) -> u32 {
    from_ymd(y, m, d).unwrap()
}

fn mondays_pattern(id: &str, start: u32, end: u32) -> Calendar {
    Calendar {
        id: id.to_string(),
        monday: true,
        tuesday: false,
        wednesday: false,
        thursday: false,
        friday: false,
        saturday: false,
        sunday: false,
        start_date: start,
        end_date: end,
    }
}

fn exception(id: &str, d: u32, et: ExceptionType) -> CalendarDate {
    CalendarDate {
        service_id: id.to_string(),
        date: d,
        exception_type: et,
    }
}

fn dates_of(store: &CollectionWithId<transit_calendar::objects::Calendar>, id: &str) -> Vec<u32> {
    let c = store.get(&id.to_string()).expect("service should exist");
    let mut v = Vec::new();
    let mut i = 0;
    while i < c.dates.len() {
        v.push(c.dates.get(i));
        i += 1;
    }
    v
}

#[test]
fn mondays_only_pattern_expands_to_three_dates() {
    let pattern = mondays_pattern("S1", date(2020, 1, 6), date(2020, 1, 20));
    let store = manage_calendars(Some(vec![pattern]), None).expect("resolution should succeed");
    assert_eq!(store.len(), 1);
    assert_eq!(
        dates_of(&store, "S1"),
        vec![date(2020, 1, 6), date(2020, 1, 13), date(2020, 1, 20)]
    );
}

#[test]
fn exceptions_alone_create_and_prune_a_service() {
    let rows = vec![
        exception("S2", date(2020, 2, 1), ExceptionType::Add),
        exception("S2", date(2020, 2, 2), ExceptionType::Add),
        exception("S2", date(2020, 2, 1), ExceptionType::Remove),
    ];
    let store = manage_calendars(None, Some(rows)).expect("resolution should succeed");
    assert_eq!(store.len(), 1);
    assert_eq!(dates_of(&store, "S2"), vec![date(2020, 2, 2)]);
}

#[test]
fn missing_both_sources_is_fatal() {
    let r = manage_calendars(None, None);
    assert_eq!(r.err(), Some(Error::MissingCalendarSource));
}

#[test]
fn duplicate_pattern_identifiers_are_fatal() {
    let p1 = mondays_pattern("S1", date(2020, 1, 6), date(2020, 1, 20));
    let p2 = mondays_pattern("S1", date(2020, 3, 2), date(2020, 3, 9));
    let exceptions = vec![exception("S9", date(2020, 5, 4), ExceptionType::Add)];
    let r = manage_calendars(Some(vec![p1, p2]), Some(exceptions));
    assert_eq!(r.err(), Some(Error::DuplicateIdentifier));
}

#[test]
fn reversed_range_yields_an_empty_calendar_not_an_error() {
    let pattern = mondays_pattern("S1", date(2020, 1, 20), date(2020, 1, 6));
    let store = manage_calendars(Some(vec![pattern]), None).expect("resolution should succeed");
    assert_eq!(store.len(), 1);
    assert_eq!(dates_of(&store, "S1"), Vec::<u32>::new());
}

#[test]
fn expansion_keeps_only_flagged_weekdays_inside_the_range() {
    let mut pattern = mondays_pattern("S1", date(2020, 1, 1), date(2020, 1, 31));
    pattern.thursday = true;
    let store = manage_calendars(Some(vec![pattern]), None).expect("resolution should succeed");
    let got = dates_of(&store, "S1");
    let expected = vec![
        date(2020, 1, 2),
        date(2020, 1, 6),
        date(2020, 1, 9),
        date(2020, 1, 13),
        date(2020, 1, 16),
        date(2020, 1, 20),
        date(2020, 1, 23),
        date(2020, 1, 27),
        date(2020, 1, 30),
    ];
    assert_eq!(got, expected);
}

#[test]
fn adding_the_same_date_twice_is_idempotent() {
    let rows = vec![
        exception("S1", date(2020, 2, 1), ExceptionType::Add),
        exception("S1", date(2020, 2, 1), ExceptionType::Add),
    ];
    let store = manage_calendars(None, Some(rows)).expect("resolution should succeed");
    assert_eq!(dates_of(&store, "S1"), vec![date(2020, 2, 1)]);
}

#[test]
fn removing_an_absent_date_and_an_unknown_service_are_no_ops() {
    let rows = vec![
        exception("S1", date(2020, 2, 1), ExceptionType::Add),
        exception("S1", date(2020, 2, 2), ExceptionType::Remove),
        exception("GHOST", date(2020, 2, 1), ExceptionType::Remove),
    ];
    let store = manage_calendars(None, Some(rows)).expect("resolution should succeed");
    assert_eq!(store.len(), 1);
    assert!(store.get(&"GHOST".to_string()).is_none());
    assert_eq!(dates_of(&store, "S1"), vec![date(2020, 2, 1)]);
}

#[test]
fn exceptions_mutate_a_pattern_seeded_service() {
    let pattern = mondays_pattern("S1", date(2020, 1, 6), date(2020, 1, 20));
    let rows = vec![
        exception("S1", date(2020, 1, 13), ExceptionType::Remove),
        exception("S1", date(2020, 1, 7), ExceptionType::Add),
    ];
    let store =
        manage_calendars(Some(vec![pattern]), Some(rows)).expect("resolution should succeed");
    assert_eq!(
        dates_of(&store, "S1"),
        vec![date(2020, 1, 6), date(2020, 1, 7), date(2020, 1, 20)]
    );
}

#[test]
fn absent_exception_source_with_patterns_is_not_an_error() {
    let mut store = CollectionWithId::empty();
    let r = manage_calendar_dates(&mut store, None, true);
    assert!(r.is_ok());
    assert_eq!(store.len(), 0);
}

#[test]
fn a_service_emptied_by_exceptions_remains_in_the_store() {
    let rows = vec![
        exception("S1", date(2020, 2, 1), ExceptionType::Add),
        exception("S1", date(2020, 2, 1), ExceptionType::Remove),
    ];
    let store = manage_calendars(None, Some(rows)).expect("resolution should succeed");
    assert_eq!(store.len(), 1);
    assert_eq!(dates_of(&store, "S1"), Vec::<u32>::new());
}
