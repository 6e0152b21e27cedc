//! The service-calendar portion of the interchange format.
//!
//! Weekly pattern rows are expanded into materialized date sets, date
//! exception rows are merged on top of them, and the resulting store can
//! be serialized back into exception-only rows.

use vstd::prelude::*;
use crate::collection::{contains_id, lemma_spec_find, spec_find, unique_ids, CollectionWithId};
use crate::dates::{spec_weekday_of, weekday_of, Date, DateSet, Weekday};
use crate::objects;
use crate::objects::ExceptionType;
use crate::Error;

verus! {

/// Whether a facility or a piece of equipment is available.
#[derive(Debug, PartialEq, Eq, Hash, Clone, Copy, Structural)]
pub enum Availability {
    InformationNotAvailable,
    Available,
    NotAvailable,
}

impl Default for Availability {
    /// When nothing is stated, availability is unknown.
    fn default() -> (r: Self)
        ensures
            r == Availability::InformationNotAvailable,
    {
        Availability::InformationNotAvailable
    }
}

/// One date exception row: adds or removes one date for one service.
#[derive(Debug)]
pub struct CalendarDate {
    pub service_id: String,
    pub date: Date,
    pub exception_type: ExceptionType,
}

/// One weekly pattern row: a recurrence rule made of one flag per weekday
/// and an inclusive date range.
#[derive(Debug)]
pub struct Calendar {
    pub id: String,
    pub monday: bool,
    pub tuesday: bool,
    pub wednesday: bool,
    pub thursday: bool,
    pub friday: bool,
    pub saturday: bool,
    pub sunday: bool,
    pub start_date: Date,
    pub end_date: Date,
}

/// Whether the pattern `c` flags the weekday `w`.
pub open spec fn spec_has_weekday(c: Calendar, w: Weekday) -> bool {
    match w {
        Weekday::Monday => c.monday,
        Weekday::Tuesday => c.tuesday,
        Weekday::Wednesday => c.wednesday,
        Weekday::Thursday => c.thursday,
        Weekday::Friday => c.friday,
        Weekday::Saturday => c.saturday,
        Weekday::Sunday => c.sunday,
    }
}

/// The weekdays that the pattern flags, Monday first.
pub open spec fn spec_valid_days(c: Calendar) -> Seq<Weekday> {
    let s = Seq::<Weekday>::empty();
    let s = if c.monday {
        s.push(Weekday::Monday)
    } else {
        s
    };
    let s = if c.tuesday {
        s.push(Weekday::Tuesday)
    } else {
        s
    };
    let s = if c.wednesday {
        s.push(Weekday::Wednesday)
    } else {
        s
    };
    let s = if c.thursday {
        s.push(Weekday::Thursday)
    } else {
        s
    };
    let s = if c.friday {
        s.push(Weekday::Friday)
    } else {
        s
    };
    let s = if c.saturday {
        s.push(Weekday::Saturday)
    } else {
        s
    };
    let s = if c.sunday {
        s.push(Weekday::Sunday)
    } else {
        s
    };
    s
}

/// The pattern's weekday list holds a weekday exactly when its flag is set.
pub proof fn lemma_valid_days_contains(c: Calendar)
    ensures
        forall|w: Weekday| spec_valid_days(c).contains(w) <==> spec_has_weekday(c, w),
{
    broadcast use vstd::seq_lib::lemma_seq_contains_after_push;

    assert forall|w: Weekday| spec_valid_days(c).contains(w) <==> spec_has_weekday(c, w) by {
        assert(!Seq::<Weekday>::empty().contains(w));
        match w {
            Weekday::Monday => {},
            Weekday::Tuesday => {},
            Weekday::Wednesday => {},
            Weekday::Thursday => {},
            Weekday::Friday => {},
            Weekday::Saturday => {},
            Weekday::Sunday => {},
        }
    }
}

/// The dates of the inclusive range whose weekday the pattern flags.
pub open spec fn spec_valid_dates(c: Calendar) -> Set<Date> {
    Set::new(
        |d: Date| c.start_date <= d <= c.end_date && spec_has_weekday(c, spec_weekday_of(d as int)),
    )
}

/// Whether `v` holds the weekday `w`.
fn contains_weekday(v: &Vec<Weekday>, w: Weekday) -> (r: bool)
    ensures
        r == v@.contains(w),
{
    let mut i: usize = 0;
    while i < v.len()
        invariant
            i <= v@.len(),
            forall|k: int| 0 <= k < i ==> v@[k] != w,
        decreases v@.len() - i,
    {
        if v[i] == w {
            return true;
        }
        i = i + 1;
    }
    false
}

impl Calendar {
    /// The weekdays flagged by this pattern, in Monday-to-Sunday order.
    pub fn get_valid_days(&self) -> (r: Vec<Weekday>)
        ensures
            r@ == spec_valid_days(*self),
            forall|w: Weekday| r@.contains(w) <==> spec_has_weekday(*self, w),
    {
        let mut valid_days: Vec<Weekday> = Vec::new();
        if self.monday {
            valid_days.push(Weekday::Monday);
        }
        if self.tuesday {
            valid_days.push(Weekday::Tuesday);
        }
        if self.wednesday {
            valid_days.push(Weekday::Wednesday);
        }
        if self.thursday {
            valid_days.push(Weekday::Thursday);
        }
        if self.friday {
            valid_days.push(Weekday::Friday);
        }
        if self.saturday {
            valid_days.push(Weekday::Saturday);
        }
        if self.sunday {
            valid_days.push(Weekday::Sunday);
        }
        proof {
            assert(valid_days@ =~= spec_valid_days(*self));
            lemma_valid_days_contains(*self);
        }
        valid_days
    }

    /// Expands the pattern: the resulting set holds exactly the dates of
    /// the inclusive range whose weekday is flagged. A range whose start
    /// lies after its end yields the empty set.
    pub fn get_valid_dates(&self) -> (r: DateSet)
        ensures
            forall|d: Date| r@.contains(d) <==> spec_valid_dates(*self).contains(d),
            self.start_date > self.end_date ==> r@ == Seq::<Date>::empty(),
    {
        let valid_days = self.get_valid_days();
        let mut r = DateSet::new();
        let start: u64 = self.start_date as u64;
        let end: u64 = self.end_date as u64;
        let mut d: u64 = start;
        while d <= end
            invariant
                start == self.start_date as u64,
                end == self.end_date as u64,
                start <= d,
                d <= end + 1 || d == start,
                valid_days@ == spec_valid_days(*self),
                forall|w: Weekday| valid_days@.contains(w) <==> spec_has_weekday(*self, w),
                forall|x: Date|
                    r@.contains(x) <==> (self.start_date <= x && x < d
                        && spec_has_weekday(*self, spec_weekday_of(x as int))),
            decreases end + 1 - d,
        {
            let date: Date = d as Date;
            let w = weekday_of(date);
            if contains_weekday(&valid_days, w) {
                r.insert(date);
            }
            d = d + 1;
        }
        proof {
            if self.start_date > self.end_date {
                if r@.len() > 0 {
                    assert(r@.contains(r@[0]));
                }
                assert(r@ =~= Seq::<Date>::empty());
            }
        }
        r
    }
}

/// The abstraction of one stored service: its identifier and its set of
/// active dates.
pub type ServiceModel = (Seq<char>, Set<Date>);

/// The set of dates that the sequence `s` holds.
pub open spec fn date_set_of(s: Seq<Date>) -> Set<Date> {
    Set::new(|d: Date| s.contains(d))
}

/// The abstraction of one stored service calendar.
pub open spec fn service_abs(c: objects::Calendar) -> ServiceModel {
    (c.id@, date_set_of(c.dates@))
}

/// The abstraction of a whole store, in insertion order.
pub open spec fn store_abs(s: Seq<objects::Calendar>) -> Seq<ServiceModel> {
    s.map_values(|c: objects::Calendar| service_abs(c))
}

/// Position of the first service of `s` with identifier `id`, or -1 when
/// no service carries it.
pub open spec fn find_service(s: Seq<ServiceModel>, id: Seq<char>) -> int
    decreases s.len(),
{
    if s.len() == 0 {
        -1
    } else if s[0].0 == id {
        0
    } else {
        let r = find_service(s.drop_first(), id);
        if r < 0 {
            -1
        } else {
            r + 1
        }
    }
}

/// Finding a service in the abstraction agrees with finding the entity
/// in the store.
pub proof fn lemma_find_abs(s: Seq<objects::Calendar>, id: Seq<char>)
    ensures
        find_service(store_abs(s), id) == spec_find(s, id),
    decreases s.len(),
{
    if s.len() > 0 {
        assert(store_abs(s.drop_first()) =~= store_abs(s).drop_first());
        lemma_find_abs(s.drop_first(), id);
    }
}

/// The effect of one date exception on the abstract store: an existing
/// service's date set gains or loses the date; otherwise an `Add` creates
/// a new service holding exactly that date, and a `Remove` is discarded.
pub open spec fn spec_apply_exception(s: Seq<ServiceModel>, e: CalendarDate) -> Seq<ServiceModel> {
    let i = find_service(s, e.service_id@);
    if 0 <= i < s.len() {
        let entry = s[i];
        let ds = if e.exception_type == ExceptionType::Add {
            entry.1.insert(e.date)
        } else {
            entry.1.remove(e.date)
        };
        s.update(i, (entry.0, ds))
    } else if e.exception_type == ExceptionType::Add {
        s.push((e.service_id@, Set::empty().insert(e.date)))
    } else {
        s
    }
}

/// The effect of a stream of date exceptions, applied in source order.
pub open spec fn spec_apply_exceptions(s: Seq<ServiceModel>, rows: Seq<CalendarDate>) -> Seq<
    ServiceModel,
>
    decreases rows.len(),
{
    if rows.len() == 0 {
        s
    } else {
        spec_apply_exception(spec_apply_exceptions(s, rows.drop_last()), rows.last())
    }
}

/// Unrolls `spec_apply_exceptions` by one row.
proof fn lemma_apply_exceptions_step(s: Seq<ServiceModel>, rows: Seq<CalendarDate>, k: int)
    requires
        0 <= k < rows.len(),
    ensures
        spec_apply_exceptions(s, rows.take(k + 1)) == spec_apply_exception(
            spec_apply_exceptions(s, rows.take(k)),
            rows[k],
        ),
{
    assert(rows.take(k + 1).drop_last() =~= rows.take(k));
    assert(rows.take(k + 1).last() == rows[k]);
}

/// Two abstract stores with equal identifiers and equal date sets are
/// equal.
proof fn lemma_models_equal(a: Seq<ServiceModel>, b: Seq<ServiceModel>)
    requires
        a.len() == b.len(),
        forall|i: int| 0 <= i < a.len() ==> a[i].0 == b[i].0 && a[i].1 =~= b[i].1,
    ensures
        a == b,
{
    assert forall|i: int| 0 <= i < a.len() implies a[i] == b[i] by {
        assert(a[i].1 =~= b[i].1);
    }
    assert(a =~= b);
}

/// Merges the date exception rows into the store of service calendars.
///
/// `calendar_dates` holds the decoded rows of the exception source, or
/// `None` when that source is absent; `calendar_exists` says whether a
/// pattern source was present. The joint absence of both sources is the
/// fatal `MissingCalendarSource` condition; the absence of the exception
/// source alone leaves the store untouched.
pub fn manage_calendar_dates(
    calendars: &mut CollectionWithId<objects::Calendar>,
    calendar_dates: Option<Vec<CalendarDate>>,
    calendar_exists: bool,
) -> (r: Result<(), Error>)
    requires
        old(calendars).wf(),
    ensures
        r is Err <==> (calendar_dates is None && !calendar_exists),
        match r {
            Ok(()) => final(calendars).wf() && (match calendar_dates {
                Some(rows) => store_abs(final(calendars)@) == spec_apply_exceptions(
                    store_abs(old(calendars)@),
                    rows@,
                ),
                None => *final(calendars) == *old(calendars),
            }),
            Err(e) => e == Error::MissingCalendarSource && *final(calendars) == *old(calendars),
        },
{
    match calendar_dates {
        None => {
            if !calendar_exists {
                return Err(Error::MissingCalendarSource);
            }
            Ok(())
        },
        Some(rows) => {
            let ghost all = rows@;
            let ghost init = calendars@;
            let mut rest = rows;
            proof {
                assert(all.take(0) =~= Seq::<CalendarDate>::empty());
                assert(all.skip(0) =~= all);
            }
            while rest.len() > 0
                invariant
                    calendars.wf(),
                    rest@.len() <= all.len(),
                    rest@ == all.skip(all.len() - rest@.len()),
                    store_abs(calendars@) == spec_apply_exceptions(
                        store_abs(init),
                        all.take(all.len() - rest@.len()),
                    ),
                decreases rest@.len(),
            {
                let ghost k = all.len() - rest@.len();
                let ghost prev = calendars@;
                let cd = rest.remove(0);
                let ghost cdg = cd;
                proof {
                    assert(all.skip(k)[0] == all[k]);
                    assert(cdg == all[k]);
                    assert(all.skip(k).remove(0) =~= all.skip(k + 1));
                    lemma_find_abs(prev, cdg.service_id@);
                    lemma_spec_find(prev, cdg.service_id@);
                }
                match calendars.get_mut(&cd.service_id) {
                    Some(c) => {
                        if cd.exception_type == ExceptionType::Add {
                            c.dates.insert(cd.date);
                        } else {
                            c.dates.remove(cd.date);
                        }
                    },
                    None => {
                        if cd.exception_type == ExceptionType::Add {
                            let mut dates = DateSet::new();
                            dates.insert(cd.date);
                            let res = calendars.push(
                                objects::Calendar { id: cd.service_id, dates },
                            );
                            proof {
                                assert(res is Ok);
                            }
                        }
                    },
                }
                proof {
                    let absprev = store_abs(prev);
                    let f = spec_find(prev, cdg.service_id@);
                    if contains_id(prev, cdg.service_id@) {
                        let v = calendars@[f];
                        assert(calendars@ == prev.update(f, v));
                        assert(v.id@ == prev[f].id@);
                        assert forall|i: int, j: int|
                            0 <= i < j < calendars@.len() implies calendars@[i].id@
                            != calendars@[j].id@ by {
                            assert(calendars@[i].id@ == prev[i].id@);
                            assert(calendars@[j].id@ == prev[j].id@);
                        }
                        assert(unique_ids(calendars@));
                        lemma_models_equal(
                            store_abs(calendars@),
                            spec_apply_exception(absprev, cdg),
                        );
                    } else if cdg.exception_type == ExceptionType::Add {
                        lemma_models_equal(
                            store_abs(calendars@),
                            spec_apply_exception(absprev, cdg),
                        );
                    } else {
                        assert(store_abs(calendars@) == spec_apply_exception(absprev, cdg));
                    }
                    lemma_apply_exceptions_step(store_abs(init), all, k);
                    assert(store_abs(calendars@) == spec_apply_exceptions(
                        store_abs(init),
                        all.take(k + 1),
                    ));
                }
            }
            proof {
                assert(all.take(all.len() as int) =~= all);
            }
            Ok(())
        },
    }
}

/// Whether the pattern rows carry pairwise distinct identifiers.
pub open spec fn unique_pattern_ids(rows: Seq<Calendar>) -> bool {
    forall|i: int, j: int| 0 <= i < j < rows.len() ==> rows[i].id@ != rows[j].id@
}

/// The abstract store that expanding the pattern rows produces.
pub open spec fn spec_expand(rows: Seq<Calendar>) -> Seq<ServiceModel> {
    rows.map_values(|c: Calendar| (c.id@, spec_valid_dates(c)))
}

/// Resolves the two calendar sources into a store of service calendars.
///
/// The pattern rows (`calendar`), when present, are expanded first, each
/// into one service keyed by its identifier; duplicate identifiers are the
/// fatal `DuplicateIdentifier` condition, raised before any exception row
/// is considered. The exception rows (`calendar_dates`) are then merged on
/// top. Each argument is `None` when its source is absent; the joint
/// absence of both is the fatal `MissingCalendarSource` condition.
pub fn manage_calendars(
    calendar: Option<Vec<Calendar>>,
    calendar_dates: Option<Vec<CalendarDate>>,
) -> (r: Result<CollectionWithId<objects::Calendar>, Error>)
    ensures
        r is Ok <==> ((calendar is Some || calendar_dates is Some) && (calendar matches Some(rows)
            ==> unique_pattern_ids(rows@))),
        match r {
            Ok(store) => store.wf() && store_abs(store@) == ({
                let base = match calendar {
                    Some(rows) => spec_expand(rows@),
                    None => Seq::<ServiceModel>::empty(),
                };
                match calendar_dates {
                    Some(ex) => spec_apply_exceptions(base, ex@),
                    None => base,
                }
            }),
            Err(e) => match e {
                Error::DuplicateIdentifier => calendar matches Some(rows)
                    && !unique_pattern_ids(rows@),
                Error::MissingCalendarSource => calendar is None && calendar_dates is None,
                Error::MalformedRecord(_) => false,
            },
        },
{
    let calendar_exists = calendar.is_some();
    let mut store: CollectionWithId<objects::Calendar> = CollectionWithId::empty();
    proof {
        assert(store_abs(store@) =~= Seq::<ServiceModel>::empty());
    }
    match calendar {
        None => {},
        Some(rows) => {
            let ghost prows = rows@;
            let mut rest = rows;
            let mut objs: Vec<objects::Calendar> = Vec::new();
            proof {
                assert(prows.skip(0) =~= prows);
            }
            while rest.len() > 0
                invariant
                    objs@.len() + rest@.len() == prows.len(),
                    rest@ == prows.skip(objs@.len() as int),
                    forall|i: int|
                        0 <= i < objs@.len() ==> objs@[i].id@ == prows[i].id@ && (forall|d: Date|
                            objs@[i].dates@.contains(d) <==> spec_valid_dates(
                                prows[i],
                            ).contains(d)),
                decreases rest@.len(),
            {
                let ghost k = objs@.len() as int;
                let c = rest.remove(0);
                proof {
                    assert(prows.skip(k)[0] == prows[k]);
                    assert(c == prows[k]);
                    assert(prows.skip(k).remove(0) =~= prows.skip(k + 1));
                }
                let dates = c.get_valid_dates();
                objs.push(objects::Calendar { id: c.id, dates });
            }
            match CollectionWithId::new(objs) {
                Ok(s) => {
                    proof {
                        lemma_models_equal(store_abs(s@), spec_expand(prows));
                    }
                    store = s;
                },
                Err(e) => {
                    proof {
                        let (i, j) = choose|i: int, j: int|
                            0 <= i < j < objs@.len() && objs@[i].id@ == objs@[j].id@;
                        assert(prows[i].id@ == prows[j].id@);
                    }
                    return Err(e);
                },
            }
        },
    }
    match manage_calendar_dates(&mut store, calendar_dates, calendar_exists) {
        Ok(()) => Ok(store),
        Err(e) => Err(e),
    }
}

/// The exception rows that one service serializes to: one `Add` row per
/// active date, in ascending date order.
pub open spec fn spec_service_rows(c: objects::Calendar) -> Seq<CalendarDate> {
    Seq::new(
        c.dates@.len(),
        |i: int|
            CalendarDate {
                service_id: c.id,
                date: c.dates@[i],
                exception_type: ExceptionType::Add,
            },
    )
}

/// The exception rows that a whole store serializes to, services in
/// insertion order.
pub open spec fn spec_write(s: Seq<objects::Calendar>) -> Seq<CalendarDate> {
    s.map_values(|c: objects::Calendar| spec_service_rows(c)).flatten()
}

/// Serializing one more service appends its rows.
proof fn lemma_spec_write_step(s: Seq<objects::Calendar>, i: int)
    requires
        0 <= i < s.len(),
    ensures
        spec_write(s.take(i + 1)) == spec_write(s.take(i)) + spec_service_rows(s[i]),
{
    let f = |c: objects::Calendar| spec_service_rows(c);
    assert(s.take(i + 1).map_values(f) =~= s.take(i).map_values(f).push(spec_service_rows(s[i])));
    s.take(i).map_values(f).lemma_flatten_push(spec_service_rows(s[i]));
}

/// Serializes the store back into exception rows: for every service one
/// `Add` row per active date, dates ascending within one service and
/// services in insertion order.
pub fn write_calendar_dates(calendars: &CollectionWithId<objects::Calendar>) -> (r: Vec<
    CalendarDate,
>)
    ensures
        r@ == spec_write(calendars@),
{
    let mut rows: Vec<CalendarDate> = Vec::new();
    let values = calendars.values();
    let n = values.len();
    let mut i: usize = 0;
    proof {
        assert(calendars@.take(0).map_values(|c: objects::Calendar| spec_service_rows(c))
            =~= Seq::<Seq<CalendarDate>>::empty());
    }
    while i < n
        invariant
            n == calendars@.len(),
            i <= n,
            values@ == calendars@,
            rows@ == spec_write(calendars@.take(i as int)),
        decreases n - i,
    {
        let c = &values[i];
        let m = c.dates.len();
        let mut j: usize = 0;
        while j < m
            invariant
                n == calendars@.len(),
                i < n,
                values@ == calendars@,
                *c == calendars@[i as int],
                m == c.dates@.len(),
                j <= m,
                rows@ == spec_write(calendars@.take(i as int)) + spec_service_rows(
                    calendars@[i as int],
                ).take(j as int),
            decreases m - j,
        {
            let row = CalendarDate {
                service_id: c.id.clone(),
                date: c.dates.get(j),
                exception_type: ExceptionType::Add,
            };
            rows.push(row);
            proof {
                let full = spec_service_rows(calendars@[i as int]);
                assert(row == full[j as int]);
                assert(full.take(j + 1) =~= full.take(j as int).push(full[j as int]));
                assert(rows@ =~= spec_write(calendars@.take(i as int)) + full.take(j + 1));
            }
            j = j + 1;
        }
        proof {
            let full = spec_service_rows(calendars@[i as int]);
            assert(full.take(m as int) =~= full);
            lemma_spec_write_step(calendars@, i as int);
        }
        i = i + 1;
    }
    proof {
        assert(calendars@.take(n as int) =~= calendars@);
    }
    rows
}

/// `find_service` returns -1 exactly when the identifier is absent and
/// otherwise the position of its first occurrence.
pub proof fn lemma_find_service(s: Seq<ServiceModel>, id: Seq<char>)
    ensures
        find_service(s, id) == -1 ==> forall|k: int| 0 <= k < s.len() ==> s[k].0 != id,
        find_service(s, id) != -1 ==> 0 <= find_service(s, id) < s.len() && s[find_service(
            s,
            id,
        )].0 == id,
        forall|k: int| 0 <= k < find_service(s, id) ==> s[k].0 != id,
    decreases s.len(),
{
    if s.len() == 0 {
    } else if s[0].0 == id {
    } else {
        let t = s.drop_first();
        lemma_find_service(t, id);
        assert forall|k: int| 0 <= k < t.len() implies t[k] == s[k + 1] by {}
        if find_service(s, id) == -1 {
            assert forall|k: int| 0 <= k < s.len() implies s[k].0 != id by {
                if k > 0 {
                    assert(t[k - 1] == s[k]);
                }
            }
        }
        assert forall|k: int| 0 <= k < find_service(s, id) implies s[k].0 != id by {
            if k > 0 {
                assert(t[k - 1] == s[k]);
            }
        }
    }
}

/// Appending a service does not change where existing identifiers are
/// found; a fresh identifier is found at the end.
proof fn lemma_find_push(s: Seq<ServiceModel>, x: ServiceModel, id: Seq<char>)
    ensures
        find_service(s.push(x), id) == if find_service(s, id) != -1 {
            find_service(s, id)
        } else if x.0 == id {
            s.len() as int
        } else {
            -1
        },
    decreases s.len(),
{
    let p = s.push(x);
    if s.len() == 0 {
        assert(p[0] == x);
        assert(p.drop_first() =~= Seq::<ServiceModel>::empty());
        assert(find_service(Seq::<ServiceModel>::empty(), id) == -1);
    } else {
        assert(p.drop_first() =~= s.drop_first().push(x));
        lemma_find_push(s.drop_first(), x, id);
    }
}

/// Replacing a service by one with the same identifier does not change
/// where any identifier is found.
proof fn lemma_find_same_ids(a: Seq<ServiceModel>, b: Seq<ServiceModel>, id: Seq<char>)
    requires
        a.len() == b.len(),
        forall|k: int| 0 <= k < a.len() ==> a[k].0 == b[k].0,
    ensures
        find_service(a, id) == find_service(b, id),
    decreases a.len(),
{
    if a.len() > 0 {
        assert forall|k: int|
            0 <= k < a.drop_first().len() implies a.drop_first()[k].0 == b.drop_first()[k].0 by {
            assert(a.drop_first()[k] == a[k + 1]);
            assert(b.drop_first()[k] == b[k + 1]);
        }
        lemma_find_same_ids(a.drop_first(), b.drop_first(), id);
    }
}

/// Applying the same date exception twice leaves the store as after the
/// first application: adding and removing a date are idempotent, and so
/// is the creation of a service by its first `Add`.
pub proof fn lemma_apply_exception_idempotent(s: Seq<ServiceModel>, e: CalendarDate)
    ensures
        spec_apply_exception(spec_apply_exception(s, e), e) == spec_apply_exception(s, e),
{
    let id = e.service_id@;
    let s1 = spec_apply_exception(s, e);
    let i = find_service(s, id);
    lemma_find_service(s, id);
    if 0 <= i < s.len() {
        let ds = if e.exception_type == ExceptionType::Add {
            s[i].1.insert(e.date)
        } else {
            s[i].1.remove(e.date)
        };
        assert forall|k: int| 0 <= k < s.len() implies s1[k].0 == s[k].0 by {}
        lemma_find_same_ids(s1, s, id);
        let ds2 = if e.exception_type == ExceptionType::Add {
            s1[i].1.insert(e.date)
        } else {
            s1[i].1.remove(e.date)
        };
        assert(ds2 =~= ds);
        assert(s1.update(i, (s1[i].0, ds2)) =~= s1);
    } else if e.exception_type == ExceptionType::Add {
        let x = (id, Set::<Date>::empty().insert(e.date));
        lemma_find_push(s, x, id);
        assert(find_service(s1, id) == s.len() as int);
        assert(x.1.insert(e.date) =~= x.1);
        assert(s1.update(s.len() as int, (s1[s.len() as int].0, s1[s.len() as int].1.insert(
            e.date,
        ))) =~= s1);
    } else {
    }
}

/// A `Remove` exception for a date that is not present, or for a service
/// that does not exist, leaves the store unchanged.
pub proof fn lemma_remove_noop(s: Seq<ServiceModel>, e: CalendarDate)
    requires
        e.exception_type == ExceptionType::Remove,
        ({
            let i = find_service(s, e.service_id@);
            i == -1 || !s[i].1.contains(e.date)
        }),
    ensures
        spec_apply_exception(s, e) == s,
{
    let i = find_service(s, e.service_id@);
    lemma_find_service(s, e.service_id@);
    if i != -1 {
        assert(s[i].1.remove(e.date) =~= s[i].1);
        assert((s[i].0, s[i].1.remove(e.date)) == s[i]);
        assert(s.update(i, s[i]) =~= s);
    }
}

/// Applying a concatenation of exception streams applies them in turn.
proof fn lemma_apply_exceptions_concat(
    s: Seq<ServiceModel>,
    r1: Seq<CalendarDate>,
    r2: Seq<CalendarDate>,
)
    ensures
        spec_apply_exceptions(s, r1 + r2) == spec_apply_exceptions(
            spec_apply_exceptions(s, r1),
            r2,
        ),
    decreases r2.len(),
{
    if r2.len() == 0 {
        assert(r1 + r2 =~= r1);
    } else {
        assert((r1 + r2).drop_last() =~= r1 + r2.drop_last());
        assert((r1 + r2).last() == r2.last());
        lemma_apply_exceptions_concat(s, r1, r2.drop_last());
    }
}

/// Ingesting the serialized rows of one service that the store does not
/// yet hold appends that service with the serialized dates.
proof fn lemma_ingest_fresh_service(base: Seq<ServiceModel>, c: objects::Calendar, j: int)
    requires
        find_service(base, c.id@) == -1,
        0 < j <= c.dates@.len(),
    ensures
        spec_apply_exceptions(base, spec_service_rows(c).take(j)) == base.push(
            (c.id@, date_set_of(c.dates@.take(j))),
        ),
    decreases j,
{
    broadcast use vstd::seq_lib::lemma_seq_contains_after_push;

    let rows = spec_service_rows(c);
    if j == 1 {
        assert(rows.take(1).drop_last() =~= Seq::<CalendarDate>::empty());
        assert(rows.take(1).last() == rows[0]);
        assert(spec_apply_exceptions(base, Seq::<CalendarDate>::empty()) == base);
        assert(spec_apply_exceptions(base, rows.take(1)) == spec_apply_exception(base, rows[0]));
        assert(spec_apply_exception(base, rows[0]) == base.push(
            (c.id@, Set::<Date>::empty().insert(c.dates@[0])),
        ));
        assert(c.dates@.take(1) =~= Seq::<Date>::empty().push(c.dates@[0]));
        assert(Set::<Date>::empty().insert(c.dates@[0]) =~= date_set_of(c.dates@.take(1)));
    } else {
        lemma_ingest_fresh_service(base, c, j - 1);
        let prior = base.push((c.id@, date_set_of(c.dates@.take(j - 1))));
        assert(rows.take(j).drop_last() =~= rows.take(j - 1));
        assert(rows.take(j).last() == rows[j - 1]);
        lemma_find_push(base, (c.id@, date_set_of(c.dates@.take(j - 1))), c.id@);
        assert(find_service(prior, c.id@) == base.len() as int);
        let d = c.dates@[j - 1];
        assert(c.dates@.take(j) =~= c.dates@.take(j - 1).push(d));
        assert(date_set_of(c.dates@.take(j - 1)).insert(d) =~= date_set_of(c.dates@.take(j)));
        assert(prior.update(base.len() as int, (c.id@, date_set_of(c.dates@.take(j)))) =~= base.push(
            (c.id@, date_set_of(c.dates@.take(j))),
        ));
    }
}

/// Round trip: serializing a store and re-ingesting the rows through the
/// exception phase alone, starting from an empty store, rebuilds the same
/// abstract store — provided every service holds at least one active
/// date, since a service with none serializes to no rows at all.
pub proof fn lemma_round_trip(s: Seq<objects::Calendar>)
    requires
        unique_ids(s),
        forall|i: int| 0 <= i < s.len() ==> s[i].dates@.len() > 0,
    ensures
        spec_apply_exceptions(Seq::<ServiceModel>::empty(), spec_write(s)) == store_abs(s),
    decreases s.len(),
{
    let f = |c: objects::Calendar| spec_service_rows(c);
    if s.len() == 0 {
        assert(s.map_values(f) =~= Seq::<Seq<CalendarDate>>::empty());
        assert(store_abs(s) =~= Seq::<ServiceModel>::empty());
    } else {
        let t = s.drop_last();
        let c = s.last();
        assert forall|i: int, j: int|
            0 <= i < j < t.len() implies t[i].id@ != t[j].id@ by {
            assert(t[i] == s[i]);
            assert(t[j] == s[j]);
        }
        lemma_round_trip(t);
        assert(s.take(s.len() - 1) =~= t);
        assert(s.take(s.len() as int) =~= s);
        lemma_spec_write_step(s, s.len() - 1);
        assert(spec_write(s) == spec_write(t) + spec_service_rows(c));
        lemma_apply_exceptions_concat(
            Seq::<ServiceModel>::empty(),
            spec_write(t),
            spec_service_rows(c),
        );
        let base = store_abs(t);
        assert(find_service(base, c.id@) == -1) by {
            lemma_find_service(base, c.id@);
            if find_service(base, c.id@) != -1 {
                let k = find_service(base, c.id@);
                assert(base[k].0 == t[k].id@);
                assert(s[k].id@ == s[s.len() - 1].id@);
            }
        }
        let m = c.dates@.len() as int;
        lemma_ingest_fresh_service(base, c, m);
        assert(spec_service_rows(c).take(m) =~= spec_service_rows(c));
        assert(c.dates@.take(m) =~= c.dates@);
        assert(store_abs(s) =~= base.push((c.id@, date_set_of(c.dates@))));
    }
}

} // verus!
