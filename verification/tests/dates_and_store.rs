//! Tests of the date arithmetic, the date set and the id-keyed collection.

use transit_calendar::collection::CollectionWithId;
use transit_calendar::common_format::Availability;
use transit_calendar::dates::{from_ymd, weekday_of, DateSet, Weekday};
use transit_calendar::objects::Calendar;
use transit_calendar::Error;

fn date(y: u32, m: u32, d: u32) -> u32 {
    from_ymd(y, m, d).unwrap()
}

fn service(id: &str) -> Calendar {
    Calendar { id: id.to_string(), dates: DateSet::new() }
}

#[test]
fn day_numbers_follow_the_proleptic_gregorian_calendar() {
    assert_eq!(from_ymd(1, 1, 1), Some(1));
    assert_eq!(from_ymd(1, 12, 31), Some(365));
    assert_eq!(from_ymd(2, 1, 1), Some(366));
    assert_eq!(date(2020, 3, 1) - date(2020, 2, 28), 2); // 2020 is a leap year
    assert_eq!(date(2021, 3, 1) - date(2021, 2, 28), 1); // 2021 is not
    assert_eq!(date(2020, 1, 13) - date(2020, 1, 6), 7);
}

#[test]
fn invalid_year_month_day_combinations_are_rejected() {
    assert_eq!(from_ymd(0, 1, 1), None);
    assert_eq!(from_ymd(10000, 1, 1), None);
    assert_eq!(from_ymd(2020, 0, 1), None);
    assert_eq!(from_ymd(2020, 13, 1), None);
    assert_eq!(from_ymd(2020, 1, 0), None);
    assert_eq!(from_ymd(2020, 1, 32), None);
    assert_eq!(from_ymd(2021, 2, 29), None);
    assert!(from_ymd(2020, 2, 29).is_some());
    assert_eq!(from_ymd(1900, 2, 29), None); // 1900 is not a leap year
    assert!(from_ymd(2000, 2, 29).is_some()); // 2000 is
}

#[test]
fn weekdays_cycle_from_the_monday_of_year_one() {
    assert_eq!(weekday_of(from_ymd(1, 1, 1).unwrap()), Weekday::Monday);
    assert_eq!(weekday_of(date(2020, 1, 6)), Weekday::Monday);
    assert_eq!(weekday_of(date(2020, 1, 7)), Weekday::Tuesday);
    assert_eq!(weekday_of(date(2020, 1, 12)), Weekday::Sunday);
    assert_eq!(weekday_of(date(2020, 2, 29)), Weekday::Saturday);
}

#[test]
fn date_sets_stay_sorted_and_deduplicated() {
    let mut s = DateSet::new();
    s.insert(20);
    s.insert(10);
    s.insert(30);
    s.insert(20);
    assert_eq!(s.len(), 3);
    assert_eq!((s.get(0), s.get(1), s.get(2)), (10, 20, 30));
    assert!(s.contains(10));
    assert!(!s.contains(15));
    s.remove(20);
    assert_eq!(s.len(), 2);
    assert_eq!((s.get(0), s.get(1)), (10, 30));
    s.remove(99); // absent: a no-op
    assert_eq!(s.len(), 2);
}

#[test]
fn collections_reject_duplicate_identifiers_on_push() {
    let mut c = CollectionWithId::empty();
    assert!(c.push(service("a")).is_ok());
    assert!(c.push(service("b")).is_ok());
    assert_eq!(c.push(service("a")), Err(Error::DuplicateIdentifier));
    assert_eq!(c.len(), 2);
}

#[test]
fn collections_reject_duplicate_identifiers_on_construction() {
    let r = CollectionWithId::new(vec![service("x"), service("y"), service("x")]);
    assert!(matches!(r, Err(Error::DuplicateIdentifier)));
    let ok = CollectionWithId::new(vec![service("x"), service("y")]);
    assert!(ok.is_ok());
}

#[test]
fn lookup_finds_entities_by_exact_identifier() {
    let mut c = CollectionWithId::empty();
    c.push(service("alpha")).unwrap();
    c.push(service("beta")).unwrap();
    assert!(c.get(&"alpha".to_string()).is_some());
    assert!(c.get(&"Alpha".to_string()).is_none());
    assert!(c.get(&"alph".to_string()).is_none());
    let m = c.get_mut(&"beta".to_string()).expect("beta should be found");
    m.dates.insert(7);
    assert_eq!(c.get(&"beta".to_string()).unwrap().dates.len(), 1);
}

#[test]
fn values_iterate_in_insertion_order() {
    let mut c = CollectionWithId::empty();
    c.push(service("z")).unwrap();
    c.push(service("a")).unwrap();
    c.push(service("m")).unwrap();
    let ids: Vec<String> = c.values().iter().map(|s| s.id.clone()).collect();
    assert_eq!(ids, vec!["z".to_string(), "a".to_string(), "m".to_string()]);
}

#[test]
fn availability_defaults_to_information_not_available() {
    assert_eq!(Availability::default(), Availability::InformationNotAvailable);
    assert_ne!(Availability::Available, Availability::NotAvailable);
}
