//! Calendar dates and ordered sets of dates.
//!
//! A date is represented as its serial day number in the proleptic Gregorian
//! calendar, counted so that January 1 of year 1 is day 1 (year, month and
//! day convert to and from this number through `from_ymd`). Day numbers make
//! the range and weekday arithmetic of the resolution engine plain integer
//! arithmetic: day 1 is a Monday, so the weekday cycles with the day number
//! modulo seven.

use vstd::prelude::*;

verus! {

/// A calendar date as its proleptic Gregorian serial day number
/// (day 1 is January 1 of year 1).
pub type Date = u32;

/// One day of the week.
#[derive(Debug, Clone, Copy, PartialEq, Eq, Structural)]
pub enum Weekday {
    Monday,
    Tuesday,
    Wednesday,
    Thursday,
    Friday,
    Saturday,
    Sunday,
}

/// Whether year `y` is a leap year of the Gregorian calendar.
pub open spec fn spec_is_leap_year(y: int) -> bool {
    (y % 4 == 0 && y % 100 != 0) || y % 400 == 0
}

/// Number of days in month `m` of year `y`.
pub open spec fn spec_days_in_month(y: int, m: int) -> int {
    if m == 2 {
        if spec_is_leap_year(y) {
            29
        } else {
            28
        }
    } else if m == 4 || m == 6 || m == 9 || m == 11 {
        30
    } else {
        31
    }
}

/// Number of days of year `y` that precede the first day of month `m`.
pub open spec fn spec_days_before_month(y: int, m: int) -> int {
    let leap: int = if spec_is_leap_year(y) { 1 } else { 0 };
    if m == 1 {
        0
    } else if m == 2 {
        31
    } else if m == 3 {
        59 + leap
    } else if m == 4 {
        90 + leap
    } else if m == 5 {
        120 + leap
    } else if m == 6 {
        151 + leap
    } else if m == 7 {
        181 + leap
    } else if m == 8 {
        212 + leap
    } else if m == 9 {
        243 + leap
    } else if m == 10 {
        273 + leap
    } else if m == 11 {
        304 + leap
    } else {
        334 + leap
    }
}

/// Whether year, month and day form a calendar date this crate accepts:
/// years 1 through 9999 of the proleptic Gregorian calendar.
pub open spec fn spec_valid_ymd(y: int, m: int, d: int) -> bool {
    &&& 1 <= y <= 9999
    &&& 1 <= m <= 12
    &&& 1 <= d <= spec_days_in_month(y, m)
}

/// Serial day number of the given calendar date: days of the full years
/// before `y`, plus days of the full months of `y` before `m`, plus `d`.
pub open spec fn spec_day_number(y: int, m: int, d: int) -> int {
    365 * (y - 1) + (y - 1) / 4 - (y - 1) / 100 + (y - 1) / 400 + spec_days_before_month(y, m) + d
}

/// Weekday position (0 = Monday) of the date with serial day number `date`.
/// Day 1, January 1 of year 1, is a Monday.
pub open spec fn spec_weekday_index_of(date: int) -> int {
    (date + 6) % 7
}

/// The weekday of the date with serial day number `date`.
pub open spec fn spec_weekday_of(date: int) -> Weekday {
    let i = spec_weekday_index_of(date);
    if i == 0 {
        Weekday::Monday
    } else if i == 1 {
        Weekday::Tuesday
    } else if i == 2 {
        Weekday::Wednesday
    } else if i == 3 {
        Weekday::Thursday
    } else if i == 4 {
        Weekday::Friday
    } else if i == 5 {
        Weekday::Saturday
    } else {
        Weekday::Sunday
    }
}

/// Builds the date for the given year, month and day, or `None` when the
/// three numbers do not form a calendar date this crate accepts.
pub fn from_ymd(year: u32, month: u32, day: u32) -> (r: Option<Date>)
    ensures
        r is Some <==> spec_valid_ymd(year as int, month as int, day as int),
        r matches Some(d) ==> d == spec_day_number(year as int, month as int, day as int),
{
    if year < 1 || year > 9999 || month < 1 || month > 12 {
        return None;
    }
    let leap: bool = (year % 4 == 0 && year % 100 != 0) || year % 400 == 0;
    let days_in_month: u32 = if month == 2 {
        if leap {
            29
        } else {
            28
        }
    } else if month == 4 || month == 6 || month == 9 || month == 11 {
        30
    } else {
        31
    };
    if day < 1 || day > days_in_month {
        return None;
    }
    let leap_add: u32 = if leap {
        1
    } else {
        0
    };
    let before_month: u32 = match month {
        1 => 0,
        2 => 31,
        3 => 59 + leap_add,
        4 => 90 + leap_add,
        5 => 120 + leap_add,
        6 => 151 + leap_add,
        7 => 181 + leap_add,
        8 => 212 + leap_add,
        9 => 243 + leap_add,
        10 => 273 + leap_add,
        11 => 304 + leap_add,
        _ => 334 + leap_add,
    };
    let y: u32 = year - 1;
    Some(365 * y + y / 4 - y / 100 + y / 400 + before_month + day)
}

/// The weekday of a date.
pub fn weekday_of(date: Date) -> (w: Weekday)
    ensures
        w == spec_weekday_of(date as int),
{
    let shifted: u64 = date as u64 + 6;
    let i: u64 = shifted % 7;
    match i {
        0 => Weekday::Monday,
        1 => Weekday::Tuesday,
        2 => Weekday::Wednesday,
        3 => Weekday::Thursday,
        4 => Weekday::Friday,
        5 => Weekday::Saturday,
        _ => Weekday::Sunday,
    }
}

/// Whether the dates of `s` are in strictly ascending order (which also
/// means that `s` holds no duplicates).
pub open spec fn sorted_strict(s: Seq<Date>) -> bool {
    forall|i: int, j: int| 0 <= i < j < s.len() ==> s[i] < s[j]
}

/// An ordered set of distinct calendar dates: the active dates of one
/// service. The dates are kept in strictly ascending order at all times.
#[derive(Debug)]
pub struct DateSet {
    dates: Vec<Date>,
}

impl View for DateSet {
    type V = Seq<Date>;

    closed spec fn view(&self) -> Seq<Date> {
        self.dates@
    }
}

impl DateSet {
    /// The dates are strictly ascending, hence distinct.
    #[verifier::type_invariant]
    pub closed spec fn inv(self) -> bool {
        sorted_strict(self@)
    }

    /// The empty date set.
    pub fn new() -> (s: DateSet)
        ensures
            s@ == Seq::<Date>::empty(),
    {
        DateSet { dates: Vec::new() }
    }

    /// Number of dates in the set.
    pub fn len(&self) -> (n: usize)
        ensures
            n == self@.len(),
    {
        self.dates.len()
    }

    /// The date at position `i` in ascending order.
    pub fn get(&self, i: usize) -> (d: Date)
        requires
            i < self@.len(),
        ensures
            d == self@[i as int],
    {
        self.dates[i]
    }

    /// Whether `d` is in the set.
    pub fn contains(&self, d: Date) -> (r: bool)
        ensures
            r == self@.contains(d),
    {
        let mut i: usize = 0;
        while i < self.dates.len()
            invariant
                i <= self.dates.len(),
                self.dates@ == self@,
                forall|k: int| 0 <= k < i ==> self@[k] != d,
            decreases self.dates.len() - i,
        {
            if self.dates[i] == d {
                return true;
            }
            i = i + 1;
        }
        false
    }

    /// Inserts `d`; a no-op when `d` is already present.
    pub fn insert(&mut self, d: Date)
        ensures
            forall|x: Date| final(self)@.contains(x) <==> old(self)@.contains(x) || x == d,
    {
        proof {
            use_type_invariant(&*self);
        }
        let mut i: usize = 0;
        while i < self.dates.len() && self.dates[i] < d
            invariant
                i <= self.dates.len(),
                sorted_strict(self.dates@),
                self.dates@ == old(self)@,
                forall|k: int| 0 <= k < i ==> self.dates@[k] < d,
            decreases self.dates.len() - i,
        {
            i = i + 1;
        }
        if i < self.dates.len() && self.dates[i] == d {
            return;
        }
        let mut v: Vec<Date> = Vec::new();
        core::mem::swap(&mut self.dates, &mut v);
        v.insert(i, d);
        core::mem::swap(&mut self.dates, &mut v);
        proof {
            assert forall|x: Date| final(self)@.contains(x) implies old(self)@.contains(x) || x
                == d by {
                if x != d {
                    let k = choose|k: int|
                        0 <= k < final(self)@.len() && final(self)@[k] == x;
                    if k < i {
                        assert(old(self)@[k] == x);
                    } else {
                        assert(old(self)@[k - 1] == x);
                    }
                }
            }
            assert forall|x: Date| old(self)@.contains(x) implies final(self)@.contains(x) by {
                let k = choose|k: int| 0 <= k < old(self)@.len() && old(self)@[k] == x;
                if k < i {
                    assert(final(self)@[k] == x);
                } else {
                    assert(final(self)@[k + 1] == x);
                }
            }
            assert(final(self)@[i as int] == d);
        }
    }

    /// Removes `d`; a no-op when `d` is absent.
    pub fn remove(&mut self, d: Date)
        ensures
            forall|x: Date| final(self)@.contains(x) <==> old(self)@.contains(x) && x != d,
    {
        proof {
            use_type_invariant(&*self);
        }
        let mut i: usize = 0;
        while i < self.dates.len()
            invariant
                i <= self.dates.len(),
                sorted_strict(self.dates@),
                self.dates@ == old(self)@,
                forall|k: int| 0 <= k < i ==> self.dates@[k] != d,
            decreases self.dates.len() - i,
        {
            if self.dates[i] == d {
                let mut v: Vec<Date> = Vec::new();
                core::mem::swap(&mut self.dates, &mut v);
                v.remove(i);
                core::mem::swap(&mut self.dates, &mut v);
                proof {
                    assert forall|x: Date| final(self)@.contains(x) implies old(self)@.contains(x)
                        && x != d by {
                        let k = choose|k: int|
                            0 <= k < final(self)@.len() && final(self)@[k] == x;
                        if k < i {
                            assert(old(self)@[k] == x);
                        } else {
                            assert(old(self)@[k + 1] == x);
                        }
                    }
                    assert forall|x: Date| old(self)@.contains(x) && x != d implies final(self)@.contains(x) by {
                        let k = choose|k: int| 0 <= k < old(self)@.len() && old(self)@[k] == x;
                        if k < i {
                            assert(final(self)@[k] == x);
                        } else {
                            assert(final(self)@[k - 1] == x);
                        }
                    }
                }
                return;
            }
            i = i + 1;
        }
    }

    /// Two date sets holding the same dates are equal: the strictly
    /// ascending order leaves exactly one layout for a given set of dates.
    pub proof fn lemma_same_dates_same_view(a: DateSet, b: DateSet)
        requires
            a.inv(),
            b.inv(),
            forall|x: Date| a@.contains(x) <==> b@.contains(x),
        ensures
            a@ == b@,
    {
        lemma_sorted_strict_unique(a@, b@);
    }
}

/// Strictly sorted sequences holding the same dates are equal.
pub proof fn lemma_sorted_strict_unique(s1: Seq<Date>, s2: Seq<Date>)
    requires
        sorted_strict(s1),
        sorted_strict(s2),
        forall|x: Date| s1.contains(x) <==> s2.contains(x),
    ensures
        s1 == s2,
    decreases s1.len(),
{
    if s1.len() == 0 {
        if s2.len() > 0 {
            assert(s2.contains(s2[0]));
            assert(false);
        }
        assert(s1 =~= s2);
    } else {
        assert(s1.contains(s1[0]));
        assert(s2.len() > 0) by {
            assert(s2.contains(s1[0]));
        }
        // The heads are both the minimum of the common set of dates.
        assert(s1[0] == s2[0]) by {
            assert(s2.contains(s1[0]));
            assert(s1.contains(s2[0]));
            let i = choose|i: int| 0 <= i < s2.len() && s2[i] == s1[0];
            let j = choose|j: int| 0 <= j < s1.len() && s1[j] == s2[0];
            assert(s2[0] <= s2[i]);
            assert(s1[0] <= s1[j]);
        }
        let t1 = s1.drop_first();
        let t2 = s2.drop_first();
        assert forall|x: Date| t1.contains(x) implies t2.contains(x) by {
            let k = choose|k: int| 0 <= k < t1.len() && t1[k] == x;
            assert(s1[k + 1] == x);
            assert(s1.contains(x));
            let m = choose|m: int| 0 <= m < s2.len() && s2[m] == x;
            assert(x > s1[0]);
            assert(m > 0);
            assert(t2[m - 1] == x);
        }
        assert forall|x: Date| t2.contains(x) implies t1.contains(x) by {
            let k = choose|k: int| 0 <= k < t2.len() && t2[k] == x;
            assert(s2[k + 1] == x);
            assert(s2.contains(x));
            let m = choose|m: int| 0 <= m < s1.len() && s1[m] == x;
            assert(x > s2[0]);
            assert(m > 0);
            assert(t1[m - 1] == x);
        }
        lemma_sorted_strict_unique(t1, t2);
        assert forall|i: int| 0 <= i < s1.len() implies s1[i] == s2[i] by {
            if i > 0 {
                assert(t1[i - 1] == t2[i - 1]);
            }
        }
        assert(s1 =~= s2);
    }
}

} // verus!
