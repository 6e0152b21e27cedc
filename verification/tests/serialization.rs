//! Tests of the exception-row serialization and the round trip back.

use transit_calendar::common_format::{
    manage_calendars, write_calendar_dates, Calendar, CalendarDate,
};
use transit_calendar::dates::from_ymd;
use transit_calendar::objects::ExceptionType;

fn date(y: u32, m: u32, d: u32) -> u32 {
    from_ymd(y, m, d).unwrap()
}

fn pattern(id: &str, mon: bool, tue: bool, start: u32, end: u32) -> Calendar {
    Calendar {
        id: id.to_string(),
        monday: mon,
        tuesday: tue,
        wednesday: false,
        thursday: false,
        friday: false,
        saturday: false,
        sunday: false,
        start_date: start,
        end_date: end,
    }
}

#[test]
fn serialization_emits_add_rows_in_store_and_date_order() {
    let p1 = pattern("A", true, false, date(2020, 1, 6), date(2020, 1, 13));
    let p2 = pattern("B", false, true, date(2020, 1, 6), date(2020, 1, 7));
    let store = manage_calendars(Some(vec![p1, p2]), None).expect("resolution should succeed");
    let rows = write_calendar_dates(&store);
    let flat: Vec<(String, u32)> = rows
        .iter()
        .map(|r| {
            assert_eq!(r.exception_type, ExceptionType::Add);
            (r.service_id.clone(), r.date)
        })
        .collect();
    assert_eq!(
        flat,
        vec![
            ("A".to_string(), date(2020, 1, 6)),
            ("A".to_string(), date(2020, 1, 13)),
            ("B".to_string(), date(2020, 1, 7)),
        ]
    );
}

#[test]
fn round_trip_through_the_exception_phase_reproduces_the_mapping() {
    let p1 = pattern("A", true, true, date(2020, 3, 2), date(2020, 3, 31));
    let p2 = pattern("B", false, true, date(2020, 6, 1), date(2020, 6, 30));
    let extra = vec![
        CalendarDate {
            service_id: "C".to_string(),
            date: date(2021, 12, 24),
            exception_type: ExceptionType::Add,
        },
        CalendarDate {
            service_id: "A".to_string(),
            date: date(2020, 3, 2),
            exception_type: ExceptionType::Remove,
        },
    ];
    let store =
        manage_calendars(Some(vec![p1, p2]), Some(extra)).expect("resolution should succeed");
    let rows = write_calendar_dates(&store);

    let reingested = manage_calendars(None, Some(rows)).expect("round trip should succeed");
    assert_eq!(reingested.len(), store.len());
    let originals = store.values();
    for c in originals.iter() {
        let again = reingested.get(&c.id).expect("service should survive the round trip");
        assert_eq!(again.dates.len(), c.dates.len());
        let mut i = 0;
        while i < c.dates.len() {
            assert_eq!(again.dates.get(i), c.dates.get(i));
            i += 1;
        }
    }
}

#[test]
fn a_service_with_no_dates_serializes_to_no_rows_and_is_lost_on_reingestion() {
    let rows = vec![
        CalendarDate {
            service_id: "E".to_string(),
            date: date(2020, 2, 1),
            exception_type: ExceptionType::Add,
        },
        CalendarDate {
            service_id: "E".to_string(),
            date: date(2020, 2, 1),
            exception_type: ExceptionType::Remove,
        },
        CalendarDate {
            service_id: "F".to_string(),
            date: date(2020, 2, 2),
            exception_type: ExceptionType::Add,
        },
    ];
    let store = manage_calendars(None, Some(rows)).expect("resolution should succeed");
    assert_eq!(store.len(), 2); // the emptied service is kept in the store
    let written = write_calendar_dates(&store);
    assert_eq!(written.len(), 1); // but it has no rows to serialize
    let reingested = manage_calendars(None, Some(written)).expect("round trip should succeed");
    assert_eq!(reingested.len(), 1);
    assert!(reingested.get(&"E".to_string()).is_none());
    assert!(reingested.get(&"F".to_string()).is_some());
}

#[test]
fn an_empty_store_serializes_to_no_rows() {
    let store = manage_calendars(
        Some(Vec::new()),
        None,
    )
    .expect("an empty pattern source is still a source");
    let rows = write_calendar_dates(&store);
    assert!(rows.is_empty());
}
