//! Ascending runs of distinct dates, and the calendar helpers that the
//! occurrence engine builds on.
use crate::date::{
    spec_iso_week, iso_week,
    chrono_add_days, chrono_from_yo, days_before_year, days_in_month, first_day_number,
    last_day_number, lemma_day_in_year, lemma_num_in_range, lemma_num_injective, valid_ymd,
    year_length, Date, Weekday, MAX_YEAR, MIN_YEAR,
};
use vstd::prelude::*;

verus! {

broadcast use vstd::seq_lib::group_seq_properties;

/// Valid dates in strictly ascending order.
pub open spec fn increasing(s: Seq<Date>) -> bool {
    &&& forall|i: int| 0 <= i < s.len() ==> (#[trigger] s[i]).wf()
    &&& forall|i: int, j: int| 0 <= i < j < s.len() ==> (#[trigger] s[i]).num() < (#[trigger] s[j]).num()
}

/// The ascending run of the dates in `set`.
pub open spec fn sorted_of(set: Set<Date>) -> Seq<Date> {
    choose|s: Seq<Date>| increasing(s) && s.to_set() == set
}

pub proof fn lemma_increasing_unique(s1: Seq<Date>, s2: Seq<Date>)
    requires
        increasing(s1),
        increasing(s2),
        s1.to_set() == s2.to_set(),
    ensures
        s1 == s2,
    decreases s1.len(),
{
    if s1.len() == 0 {
        if s2.len() > 0 {
            assert(s2.to_set().contains(s2[0]));
        }
        assert(s1 =~= s2);
    } else if s2.len() == 0 {
        assert(s1.to_set().contains(s1[0]));
    } else {
        let x = s1[0];
        let y = s2[0];
        assert(s1.to_set().contains(x));
        assert(s2.to_set().contains(y));
        let j = s2.index_of(x);
        let i = s1.index_of(y);
        if j > 0 {
            assert(s2[0].num() < s2[j].num());
            if i > 0 {
                assert(s1[0].num() < s1[i].num());
            }
            assert(false);
        }
        assert(x == y);
        let t1 = s1.drop_first();
        let t2 = s2.drop_first();
        assert forall|z: Date| t1.to_set().contains(z) implies t2.to_set().contains(z) by {
            let k = t1.index_of(z);
            assert(s1[k + 1] == z);
            assert(s2.to_set().contains(z));
            let m = s2.index_of(z);
            if m == 0 {
                assert(s1[0].num() < s1[k + 1].num());
            }
            assert(t2[m - 1] == z);
        }
        assert forall|z: Date| t2.to_set().contains(z) implies t1.to_set().contains(z) by {
            let k = t2.index_of(z);
            assert(s2[k + 1] == z);
            assert(s1.to_set().contains(z));
            let m = s1.index_of(z);
            if m == 0 {
                assert(s2[0].num() < s2[k + 1].num());
            }
            assert(t1[m - 1] == z);
        }
        assert(t1.to_set() =~= t2.to_set());
        lemma_increasing_unique(t1, t2);
        assert(s1 =~= s2);
    }
}

pub proof fn lemma_sorted_of(s: Seq<Date>)
    requires
        increasing(s),
    ensures
        sorted_of(s.to_set()) == s,
{
    let t = sorted_of(s.to_set());
    assert(increasing(t) && t.to_set() == s.to_set());
    lemma_increasing_unique(t, s);
}

/// Inserts `d` into an ascending run, unless it is there already.
pub fn insert_sorted(v: &mut Vec<Date>, d: Date)
    requires
        increasing(old(v)@),
        d.wf(),
    ensures
        increasing(final(v)@),
        final(v)@.to_set() == old(v)@.to_set().insert(d),
        final(v)@.len() <= old(v)@.len() + 1,
{
    let mut i: usize = 0;
    while i < v.len() && v[i].before(&d)
        invariant
            i <= v.len(),
            increasing(v@),
            d.wf(),
            forall|j: int| 0 <= j < i ==> (#[trigger] v@[j]).num() < d.num(),
        decreases v.len() - i,
    {
        i += 1;
    }
    if i < v.len() && v[i].same_day(&d) {
        proof {
            assert(v@.to_set() =~= v@.to_set().insert(d));
        }
        return;
    }
    let ghost old_v = v@;
    v.insert(i, d);
    proof {
        assert(v@ == old_v.insert(i as int, d));
        assert forall|a: int, b: int| 0 <= a < b < v@.len() implies (#[trigger] v@[a]).num() < (
        #[trigger] v@[b]).num() by {
            if b < i {
            } else if b == i {
            } else if a < i {
                assert(v@[b] == old_v[b - 1]);
                if b - 1 > i {
                    assert(old_v[i as int].num() < old_v[b - 1].num());
                }
                assert(d.num() <= old_v[i as int].num());
                if i < old_v.len() {
                    lemma_num_injective(old_v[i as int], d);
                }
            } else if a == i {
                assert(v@[b] == old_v[b - 1]);
                if i < old_v.len() {
                    lemma_num_injective(old_v[i as int], d);
                    if b - 1 > i {
                        assert(old_v[i as int].num() < old_v[b - 1].num());
                    }
                }
            } else {
                assert(v@[a] == old_v[a - 1]);
                assert(v@[b] == old_v[b - 1]);
            }
        }
        assert(v@.to_set() =~= old_v.to_set().insert(d)) by {
            assert forall|z: Date| v@.to_set().contains(z) implies old_v.to_set().insert(d).contains(
                z,
            ) by {
                let k = v@.index_of(z);
                if k < i {
                    assert(old_v[k] == z);
                } else if k > i {
                    assert(old_v[k - 1] == z);
                }
            }
            assert forall|z: Date| old_v.to_set().insert(d).contains(z) implies v@.to_set().contains(
                z,
            ) by {
                if z == d {
                    assert(v@[i as int] == d);
                } else {
                    let k = old_v.index_of(z);
                    if k < i {
                        assert(v@[k] == z);
                    } else {
                        assert(v@[k + 1] == z);
                    }
                }
            }
        }
    }
}

/// The ascending run of the dates in `v`.
pub fn sort_dedup(v: &Vec<Date>) -> (r: Vec<Date>)
    requires
        forall|i: int| 0 <= i < v@.len() ==> (#[trigger] v@[i]).wf(),
    ensures
        increasing(r@),
        r@.to_set() == v@.to_set(),
        r@ == sorted_of(v@.to_set()),
        r@.len() <= v@.len(),
        forall|i: int| 0 <= i < r@.len() ==> v@.contains(#[trigger] r@[i]),
{
    let mut r: Vec<Date> = Vec::new();
    let mut i: usize = 0;
    while i < v.len()
        invariant
            i <= v.len(),
            forall|k: int| 0 <= k < v@.len() ==> (#[trigger] v@[k]).wf(),
            increasing(r@),
            r@.to_set() == v@.take(i as int).to_set(),
            r@.len() <= i,
        decreases v.len() - i,
    {
        insert_sorted(&mut r, v[i]);
        proof {
            assert(v@.take(i + 1) =~= v@.take(i as int).push(v@[i as int]));
            v@.take(i as int).lemma_push_to_set_commute(v@[i as int]);
        }
        i += 1;
    }
    proof {
        assert(v@.take(v.len() as int) =~= v@);
        lemma_sorted_of(r@);
        assert forall|i: int| 0 <= i < r@.len() implies v@.contains(#[trigger] r@[i]) by {
            assert(r@.to_set().contains(r@[i]));
        }
    }
    r
}

// ---- calendar helpers ----

/// The valid date with day number `n`.
pub open spec fn date_at(n: int) -> Date {
    choose|d: Date| d.wf() && d.num() == n
}

pub proof fn lemma_date_at(d: Date)
    requires
        d.wf(),
    ensures
        date_at(d.num()) == d,
{
    let e = date_at(d.num());
    assert(e.wf() && e.num() == d.num());
    lemma_num_injective(e, d);
}

/// The date `n` days after `d` (before it for negative `n`), if representable.
pub open spec fn spec_add_days(d: Date, n: int) -> Option<Date> {
    if first_day_number() <= d.num() + n <= last_day_number() {
        Some(date_at(d.num() + n))
    } else {
        None
    }
}

pub fn month_length(year: i32, month: u32) -> (r: u32)
    requires
        1 <= month <= 12,
        MIN_YEAR <= year <= MAX_YEAR,
    ensures
        r == days_in_month(year as int, month as int),
{
    let y: u64 = (year as i64 + 400000) as u64;
    assert(y % 4 == 0 <==> year % 4 == 0);
    assert(y % 100 == 0 <==> year % 100 == 0);
    assert(y % 400 == 0 <==> year % 400 == 0);
    if month == 2 {
        if y % 4 == 0 && (y % 100 != 0 || y % 400 == 0) {
            29
        } else {
            28
        }
    } else if month == 4 || month == 6 || month == 9 || month == 11 {
        30
    } else {
        31
    }
}

/// The date `n` days after `date` (before it when `n` is negative).
pub fn add_days(date: &Date, n: i64) -> (r: Option<Date>)
    requires
        date.wf(),
    ensures
        r == spec_add_days(*date, n as int),
        r matches Some(d) ==> d.wf() && d.num() == date.num() + n,
{
    proof {
        lemma_num_in_range(*date);
        crate::date::lemma_range_bounds();
    }
    let r = if n >= 0 {
        chrono_add_days(date, n as u64)
    } else if n == i64::MIN {
        None
    } else {
        crate::date::chrono_sub_days(date, (-n) as u64)
    };
    proof {
        if let Some(d) = r {
            lemma_date_at(d);
        }
    }
    r
}

/// Days to go back from `date` to the start of its week, for weeks that
/// begin on `wkst`.
pub open spec fn week_offset(date: Date, wkst: Weekday) -> int {
    (date.weekday_index() - wkst.index()) % 7
}

pub open spec fn spec_week_start(date: Date, wkst: Weekday) -> Date {
    match spec_add_days(date, -week_offset(date, wkst)) {
        Some(d) => d,
        None => date,
    }
}

/// The first day of the week (beginning on `wkst`) that holds `date`.
pub fn week_start(date: &Date, wkst: Weekday) -> (r: Date)
    requires
        date.wf(),
    ensures
        r == spec_week_start(*date, wkst),
        r.wf(),
{
    let wd = date.weekday().num_days_from_monday() as i64;
    let ws = wkst.num_days_from_monday() as i64;
    let diff = wd - ws;
    let offset = if diff < 0 {
        diff + 7
    } else {
        diff
    };
    assert(offset == week_offset(*date, wkst));
    match add_days(date, -offset) {
        Some(d) => d,
        None => *date,
    }
}

/// The first day of the month `months_forward` months after the month of
/// `anchor`, if its year is representable.
pub open spec fn spec_month_start(anchor: Date, months_forward: int) -> Option<Date> {
    let total = anchor.year * 12 + (anchor.month - 1) + months_forward;
    let year = total / 12;
    let month = total % 12 + 1;
    if MIN_YEAR <= year <= MAX_YEAR {
        Some(Date { year: year as i32, month: month as u32, day: 1 })
    } else {
        None
    }
}

pub fn month_start(anchor: &Date, months_forward: u64) -> (r: Option<Date>)
    requires
        anchor.wf(),
        months_forward <= 0x10_0000_0000_0000,
    ensures
        r == spec_month_start(*anchor, months_forward as int),
        r matches Some(d) ==> d.wf(),
{
    let base: i64 = anchor.year as i64 * 12 + (anchor.month as i64 - 1);
    let total: i64 = base + months_forward as i64;
    let year: i64 = if total >= 0 {
        total / 12
    } else {
        -((-total + 11) / 12)
    };
    let month: i64 = total - year * 12 + 1;
    assert(year == total / 12 && month == total % 12 + 1) by {
        vstd::arithmetic::div_mod::lemma_fundamental_div_mod(total as int, 12);
    }
    if year < MIN_YEAR as i64 || year > MAX_YEAR as i64 {
        return None;
    }
    Date::from_ymd_opt(year as i32, month as u32, 1)
}

/// The last day of `month` in `year`; 28 where the first day of the next
/// month cannot be formed.
pub open spec fn spec_last_day(year: int, month: int) -> int {
    if MIN_YEAR <= year <= MAX_YEAR && 1 <= month <= 12 && !(year == MAX_YEAR && month == 12) {
        days_in_month(year, month)
    } else if month == 0 && MIN_YEAR < year <= MAX_YEAR {
        31
    } else {
        28
    }
}

proof fn lemma_last_day(year: int, month: int)
    requires
        MIN_YEAR <= year <= MAX_YEAR,
        0 <= month <= 12,
    ensures
        month >= 1 ==> ({
            let last = Date { year: year as i32, month: month as u32, day: days_in_month(year, month) as u32 };
            last.wf() && (if month < 12 {
                last.num() + 1 == Date { year: year as i32, month: (month + 1) as u32, day: 1 }.num()
            } else {
                last.num() + 1 == Date { year: (year + 1) as i32, month: 1, day: 1 }.num()
            })
        }),
        month == 0 && year > MIN_YEAR ==> ({
            let last = Date { year: (year - 1) as i32, month: 12, day: 31 };
            last.wf() && last.num() + 1 == Date { year: year as i32, month: 1, day: 1 }.num()
        }),
{
    if month >= 1 {
        crate::date::lemma_days_before_month_step(year, month);
        crate::date::lemma_days_before_year_step(year);
        crate::date::lemma_days_before_month_values(year);
        crate::date::lemma_days_before_month_values(year + 1);
        crate::date::lemma_days_before_month_step(year, 12);
    } else if year > MIN_YEAR {
        crate::date::lemma_days_before_year_step(year - 1);
        crate::date::lemma_days_before_month_values(year - 1);
        crate::date::lemma_days_before_month_values(year);
        crate::date::lemma_days_before_month_step(year - 1, 12);
    }
}

pub fn last_day_of_month(year: i32, month: u32) -> (r: u32)
    ensures
        r == spec_last_day(year as int, month as int),
{
    let first_next = if month == 12 {
        if year < MAX_YEAR {
            Date::from_ymd_opt(year + 1, 1, 1)
        } else {
            None
        }
    } else if month < 12 {
        Date::from_ymd_opt(year, month + 1, 1)
    } else {
        None
    };
    match first_next {
        Some(f) => {
            proof {
                if MIN_YEAR <= year {
                    lemma_last_day(year as int, month as int);
                }
            }
            match f.pred_opt() {
                Some(p) => {
                    proof {
                        if year < MIN_YEAR {
                            lemma_num_in_range(p);
                        } else if month >= 1 {
                            let last = Date {
                                year,
                                month,
                                day: days_in_month(year as int, month as int) as u32,
                            };
                            lemma_num_injective(p, last);
                        } else if year > MIN_YEAR {
                            let last = Date { year: (year - 1) as i32, month: 12, day: 31 };
                            lemma_num_injective(p, last);
                        } else {
                            lemma_num_in_range(p);
                        }
                    }
                    p.day
                },
                None => {
                    proof {
                        if year < MIN_YEAR {
                        } else if month >= 1 {
                            let last = Date {
                                year,
                                month,
                                day: days_in_month(year as int, month as int) as u32,
                            };
                            lemma_num_in_range(last);
                        } else if year > MIN_YEAR {
                            let last = Date { year: (year - 1) as i32, month: 12, day: 31 };
                            lemma_num_in_range(last);
                        }
                    }
                    28
                },
            }
        },
        None => 28,
    }
}

/// The date for a BYMONTHDAY value: positive counts from the first day,
/// negative from the last.
pub open spec fn spec_resolve_monthday(year: int, month: int, md: int) -> Option<Date> {
    let last = spec_last_day(year, month);
    let day = if md > 0 {
        md
    } else {
        last + md + 1
    };
    if day < 1 || day > last {
        None
    } else if valid_ymd(year, month, day) {
        Some(Date { year: year as i32, month: month as u32, day: day as u32 })
    } else {
        None
    }
}

pub fn resolve_monthday(year: i32, month: u32, md: i8) -> (r: Option<Date>)
    ensures
        r == spec_resolve_monthday(year as int, month as int, md as int),
{
    let last = last_day_of_month(year, month) as i32;
    let day: i32 = if md > 0 {
        md as i32
    } else {
        last + md as i32 + 1
    };
    if day < 1 || day > last {
        return None;
    }
    Date::from_ymd_opt(year, month, day as u32)
}

pub open spec fn month_weekday_set(year: int, month: int, w: Weekday) -> Set<Date> {
    Set::new(
        |d: Date| d.wf() && d.year == year && d.month == month && d.spec_weekday() == w,
    )
}

pub open spec fn year_weekday_set(year: int, w: Weekday) -> Set<Date> {
    Set::new(|d: Date| d.wf() && d.year == year && d.spec_weekday() == w)
}

/// Every `weekday` of the month, in order.
pub fn weekdays_of_month(year: i32, month: u32, weekday: Weekday) -> (r: Vec<Date>)
    ensures
        increasing(r@),
        r@.to_set() == month_weekday_set(year as int, month as int, weekday),
        r@ == sorted_of(month_weekday_set(year as int, month as int, weekday)),
{
    let mut v: Vec<Date> = Vec::new();
    if month < 1 || month > 12 || year < MIN_YEAR || year > MAX_YEAR {
        proof {
            assert(v@.to_set() =~= month_weekday_set(year as int, month as int, weekday));
            lemma_sorted_of(v@);
        }
        return v;
    }
    let len = month_length(year, month);
    let mut day: u32 = 1;
    while day <= len
        invariant
            1 <= month <= 12,
            MIN_YEAR <= year <= MAX_YEAR,
            len == days_in_month(year as int, month as int),
            1 <= day <= len + 1,
            len <= 31,
            increasing(v@),
            forall|i: int|
                0 <= i < v@.len() ==> (#[trigger] v@[i]).year == year && v@[i].month == month
                    && v@[i].day < day,
            v@.to_set() == Set::new(
                |d: Date|
                    d.wf() && d.year == year && d.month == month && d.day < day && d.spec_weekday()
                        == weekday,
            ),
        decreases len + 1 - day,
    {
        let d = Date::from_ymd_opt(year, month, day).unwrap();
        let ghost prev = v@;
        if d.weekday().same(&weekday) {
            v.push(d);
            proof {
                assert forall|i: int| 0 <= i < prev.len() implies (#[trigger] prev[i]).num() < d.num() by {
                    crate::date::lemma_num_order(prev[i], d);
                }
                prev.lemma_push_to_set_commute(d);
            }
        }
        proof {
            assert(v@.to_set() =~= Set::new(
                |e: Date|
                    e.wf() && e.year == year && e.month == month && e.day < day + 1 && e.spec_weekday()
                        == weekday,
            ));
        }
        day += 1;
    }
    proof {
        assert(v@.to_set() =~= month_weekday_set(year as int, month as int, weekday));
        lemma_sorted_of(v@);
    }
    v
}

/// The `ord`-th element (1-based from the front, or from the back when
/// negative).
pub open spec fn spec_nth(days: Seq<Date>, ord: int) -> Option<Date> {
    let i = if ord > 0 {
        ord - 1
    } else {
        days.len() + ord
    };
    if 0 <= i < days.len() {
        Some(days[i])
    } else {
        None
    }
}

pub fn nth(days: &Vec<Date>, ord: i8) -> (r: Option<Date>)
    ensures
        r == spec_nth(days@, ord as int),
{
    let i: i128 = if ord > 0 {
        ord as i128 - 1
    } else {
        days.len() as i128 + ord as i128
    };
    if i >= 0 && i < days.len() as i128 {
        Some(days[i as usize])
    } else {
        None
    }
}

pub open spec fn spec_nth_weekday_of_month(year: int, month: int, w: Weekday, ord: int) -> Option<
    Date,
> {
    spec_nth(sorted_of(month_weekday_set(year, month, w)), ord)
}

pub fn nth_weekday_of_month(year: i32, month: u32, weekday: Weekday, ord: i8) -> (r: Option<Date>)
    ensures
        r == spec_nth_weekday_of_month(year as int, month as int, weekday, ord as int),
{
    let days = weekdays_of_month(year, month, weekday);
    nth(&days, ord)
}

pub fn year_len(year: i32) -> (r: u32)
    requires
        MIN_YEAR <= year <= MAX_YEAR,
    ensures
        r == year_length(year as int),
{
    let y: u64 = (year as i64 + 400000) as u64;
    assert(y % 4 == 0 <==> year % 4 == 0);
    assert(y % 100 == 0 <==> year % 100 == 0);
    assert(y % 400 == 0 <==> year % 400 == 0);
    if y % 4 == 0 && (y % 100 != 0 || y % 400 == 0) {
        366
    } else {
        365
    }
}

/// Every `weekday` of the year, in order.
pub fn weekdays_of_year(year: i32, weekday: Weekday) -> (r: Vec<Date>)
    ensures
        increasing(r@),
        r@ == sorted_of(year_weekday_set(year as int, weekday)),
{
    let mut v: Vec<Date> = Vec::new();
    if year < MIN_YEAR || year > MAX_YEAR {
        proof {
            assert(v@.to_set() =~= year_weekday_set(year as int, weekday));
            lemma_sorted_of(v@);
        }
        return v;
    }
    let len = year_len(year);
    let mut ord: u32 = 1;
    proof {
        assert(v@.to_set() =~= Set::new(
            |d: Date|
                d.wf() && d.year == year && d.num() - days_before_year(year as int) < 1
                    && d.spec_weekday() == weekday,
        )) by {
            assert forall|e: Date| e.wf() && e.year == year implies e.num() - days_before_year(
                year as int,
            ) >= 1 by {
                lemma_day_in_year(e);
            }
        }
    }
    while ord <= len
        invariant
            MIN_YEAR <= year <= MAX_YEAR,
            len == year_length(year as int),
            1 <= ord <= len + 1,
            increasing(v@),
            forall|i: int|
                0 <= i < v@.len() ==> (#[trigger] v@[i]).num() < days_before_year(year as int) + ord,
            v@.to_set() == Set::new(
                |d: Date|
                    d.wf() && d.year == year && d.num() - days_before_year(year as int) < ord
                        && d.spec_weekday() == weekday,
            ),
        decreases len + 1 - ord,
    {
        let d = chrono_from_yo(year, ord).unwrap();
        let ghost prev = v@;
        if d.weekday().same(&weekday) {
            v.push(d);
            proof {
                prev.lemma_push_to_set_commute(d);
            }
        }
        proof {
            assert(v@.to_set() =~= Set::new(
                |e: Date|
                    e.wf() && e.year == year && e.num() - days_before_year(year as int) < ord + 1
                        && e.spec_weekday() == weekday,
            )) by {
                assert forall|e: Date|
                    e.wf() && e.year == year && e.num() - days_before_year(year as int) == ord
                    implies e == d by {
                    lemma_num_injective(e, d);
                }
            }
        }
        ord += 1;
    }
    proof {
        assert(v@.to_set() =~= year_weekday_set(year as int, weekday)) by {
            assert forall|e: Date| e.wf() && e.year == year implies e.num() - days_before_year(
                year as int,
            ) < len + 1 by {
                lemma_day_in_year(e);
            }
        }
        lemma_sorted_of(v@);
    }
    v
}

pub open spec fn spec_nth_weekday_of_year(year: int, w: Weekday, ord: int) -> Option<Date> {
    spec_nth(sorted_of(year_weekday_set(year, w)), ord)
}

pub fn nth_weekday_of_year(year: i32, weekday: Weekday, ord: i8) -> (r: Option<Date>)
    ensures
        r == spec_nth_weekday_of_year(year as int, weekday, ord as int),
        r matches Some(d) ==> d.wf(),
{
    let days = weekdays_of_year(year, weekday);
    nth(&days, ord)
}

/// The date for a BYYEARDAY value: positive counts from January 1st,
/// negative from December 31st.
pub open spec fn spec_resolve_yearday(year: int, yd: int) -> Option<Date> {
    let len: int = if valid_ymd(year, 2, 29) {
        366
    } else {
        365
    };
    let ord = if yd > 0 {
        yd
    } else {
        len + yd + 1
    };
    if ord < 1 || ord > len {
        None
    } else if MIN_YEAR <= year <= MAX_YEAR {
        Some(date_at(days_before_year(year) + ord))
    } else {
        None
    }
}

pub fn resolve_yearday(year: i32, yd: i16) -> (r: Option<Date>)
    ensures
        r == spec_resolve_yearday(year as int, yd as int),
        r matches Some(d) ==> d.wf() && d.year == year,
{
    let len: i32 = if Date::from_ymd_opt(year, 2, 29).is_some() {
        366
    } else {
        365
    };
    let ord: i32 = if yd > 0 {
        yd as i32
    } else {
        len + yd as i32 + 1
    };
    if ord < 1 || ord > len {
        return None;
    }
    let r = chrono_from_yo(year, ord as u32);
    proof {
        if let Some(d) = r {
            lemma_date_at(d);
        }
    }
    r
}

pub open spec fn spec_monthday_matches(d: Date, list: Seq<i8>) -> bool {
    exists|i: int| 0 <= i < list.len() && spec_resolve_monthday(d.year as int, d.month as int, #[trigger] list[i] as int) == Some(d)
}

pub fn monthday_matches(d: &Date, list: &Vec<i8>) -> (r: bool)
    ensures
        r == spec_monthday_matches(*d, list@),
{
    let mut i: usize = 0;
    while i < list.len()
        invariant
            i <= list.len(),
            forall|j: int| 0 <= j < i ==> spec_resolve_monthday(d.year as int, d.month as int, #[trigger] list@[j] as int) != Some(*d),
        decreases list.len() - i,
    {
        match resolve_monthday(d.year, d.month, list[i]) {
            Some(x) => {
                if x.year == d.year && x.month == d.month && x.day == d.day {
                    return true;
                }
            },
            None => {},
        }
        i += 1;
    }
    false
}

pub open spec fn spec_yearday_matches(d: Date, list: Seq<i16>) -> bool {
    exists|i: int| 0 <= i < list.len() && spec_resolve_yearday(d.year as int, #[trigger] list[i] as int) == Some(d)
}

pub fn yearday_matches(d: &Date, list: &Vec<i16>) -> (r: bool)
    ensures
        r == spec_yearday_matches(*d, list@),
{
    let mut i: usize = 0;
    while i < list.len()
        invariant
            i <= list.len(),
            forall|j: int| 0 <= j < i ==> spec_resolve_yearday(d.year as int, #[trigger] list@[j] as int) != Some(*d),
        decreases list.len() - i,
    {
        match resolve_yearday(d.year, list[i]) {
            Some(x) => {
                if x.year == d.year && x.month == d.month && x.day == d.day {
                    return true;
                }
            },
            None => {},
        }
        i += 1;
    }
    false
}

pub open spec fn iso_of(d: Date) -> (int, int) {
    spec_iso_week(d.year as int, d.month as int, d.day as int)
}

/// The largest ISO week number, among the first `k` days of `year`, of a
/// day whose ISO year is `year` (0 if none).
pub open spec fn max_week_upto(year: int, k: int) -> int
    decreases k,
{
    if k <= 0 {
        0
    } else {
        let d = date_at(days_before_year(year) + k);
        let w = if iso_of(d).0 == year {
            iso_of(d).1
        } else {
            0
        };
        let m = max_week_upto(year, k - 1);
        if w > m {
            w
        } else {
            m
        }
    }
}

/// The ISO week that a BYWEEKNO value names: positive counts from week 1,
/// negative from the last week of the year.
pub open spec fn week_target(year: int, wn: int) -> int {
    if wn > 0 {
        wn
    } else {
        let t = max_week_upto(year, year_length(year)) + wn + 1;
        if t > 0 {
            t
        } else {
            0
        }
    }
}

pub open spec fn week_no_set(year: int, wn: int) -> Set<Date> {
    Set::new(|d: Date| d.wf() && d.year == year && iso_of(d) == (year, week_target(year, wn)))
}

/// The days of `year` in the ISO week that `wn` names, in order.
pub fn week_no_days(year: i32, wn: i8) -> (r: Vec<Date>)
    ensures
        increasing(r@),
        r@.to_set() == week_no_set(year as int, wn as int),
{
    let mut v: Vec<Date> = Vec::new();
    if year < MIN_YEAR || year > MAX_YEAR {
        proof {
            assert(v@.to_set() =~= week_no_set(year as int, wn as int));
        }
        return v;
    }
    let len = year_len(year);
    let mut maxw: u32 = 0;
    let mut ord: u32 = 1;
    while ord <= len
        invariant
            MIN_YEAR <= year <= MAX_YEAR,
            len == year_length(year as int),
            1 <= ord <= len + 1,
            maxw == max_week_upto(year as int, ord - 1),
            maxw <= 53,
        decreases len + 1 - ord,
    {
        let d = chrono_from_yo(year, ord).unwrap();
        proof {
            lemma_date_at(d);
        }
        let (iy, iw) = iso_week(&d);
        if iy == year && iw > maxw {
            maxw = iw;
        }
        ord += 1;
    }
    let target: u32 = if wn > 0 {
        wn as u32
    } else {
        let t: i32 = maxw as i32 + wn as i32 + 1;
        if t > 0 {
            t as u32
        } else {
            0
        }
    };
    assert(target == week_target(year as int, wn as int));
    let mut ord: u32 = 1;
    proof {
        assert(v@.to_set() =~= Set::new(
            |d: Date|
                d.wf() && d.year == year && d.num() - days_before_year(year as int) < 1 && iso_of(d)
                    == (year as int, target as int),
        )) by {
            assert forall|e: Date| e.wf() && e.year == year implies e.num() - days_before_year(
                year as int,
            ) >= 1 by {
                lemma_day_in_year(e);
            }
        }
    }
    while ord <= len
        invariant
            MIN_YEAR <= year <= MAX_YEAR,
            len == year_length(year as int),
            1 <= ord <= len + 1,
            increasing(v@),
            forall|i: int|
                0 <= i < v@.len() ==> (#[trigger] v@[i]).num() < days_before_year(year as int) + ord,
            v@.to_set() == Set::new(
                |d: Date|
                    d.wf() && d.year == year && d.num() - days_before_year(year as int) < ord
                        && iso_of(d) == (year as int, target as int),
            ),
        decreases len + 1 - ord,
    {
        let d = chrono_from_yo(year, ord).unwrap();
        let ghost prev = v@;
        let (iy, iw) = iso_week(&d);
        if iy == year && iw == target {
            v.push(d);
            proof {
                prev.lemma_push_to_set_commute(d);
            }
        }
        proof {
            assert(v@.to_set() =~= Set::new(
                |e: Date|
                    e.wf() && e.year == year && e.num() - days_before_year(year as int) < ord + 1
                        && iso_of(e) == (year as int, target as int),
            )) by {
                assert forall|e: Date|
                    e.wf() && e.year == year && e.num() - days_before_year(year as int) == ord
                    implies e == d by {
                    lemma_num_injective(e, d);
                }
            }
        }
        ord += 1;
    }
    proof {
        assert(v@.to_set() =~= week_no_set(year as int, wn as int)) by {
            assert forall|e: Date| e.wf() && e.year == year implies e.num() - days_before_year(
                year as int,
            ) < len + 1 by {
                lemma_day_in_year(e);
            }
        }
    }
    v
}


// ---- every day number names a date; finite sets of dates have a run ----

proof fn lemma_year_holding(n: int, y: int) -> (yy: int)
    requires
        MIN_YEAR <= y <= MAX_YEAR,
        days_before_year(y) < n <= last_day_number(),
    ensures
        y <= yy <= MAX_YEAR,
        days_before_year(yy) < n <= days_before_year(yy) + year_length(yy),
    decreases MAX_YEAR - y,
{
    crate::date::lemma_days_before_year_step(y);
    if n <= days_before_year(y) + year_length(y) {
        y
    } else {
        if y == MAX_YEAR {
            crate::date::lemma_days_before_month_values(y);
            crate::date::lemma_days_before_month_step(y, 12);
        }
        lemma_year_holding(n, y + 1)
    }
}

proof fn lemma_month_holding(y: int, k: int, m: int) -> (mm: int)
    requires
        1 <= m <= 12,
        crate::date::days_before_month(y, m) < k <= year_length(y),
    ensures
        m <= mm <= 12,
        crate::date::days_before_month(y, mm) < k <= crate::date::days_before_month(y, mm)
            + days_in_month(y, mm),
    decreases 12 - m,
{
    crate::date::lemma_days_before_month_step(y, m);
    if k <= crate::date::days_before_month(y, m) + days_in_month(y, m) {
        m
    } else {
        if m == 12 {
            crate::date::lemma_days_before_month_values(y);
        }
        lemma_month_holding(y, k, m + 1)
    }
}

/// Every day number between the first and the last representable day is
/// the number of a valid date.
pub proof fn lemma_date_exists(n: int)
    requires
        first_day_number() <= n <= last_day_number(),
    ensures
        date_at(n).wf(),
        date_at(n).num() == n,
{
    crate::date::lemma_days_before_month_values(MIN_YEAR as int);
    let y = lemma_year_holding(n, MIN_YEAR as int);
    let k = n - days_before_year(y);
    crate::date::lemma_days_before_month_values(y);
    let m = lemma_month_holding(y, k, 1);
    let d = Date { year: y as i32, month: m as u32, day: (k - crate::date::days_before_month(y, m)) as u32 };
    assert(d.wf() && d.num() == n);
}

/// The valid dates numbered from `lo` up to (not including) `hi`.
pub open spec fn days_between(lo: int, hi: int) -> Set<Date> {
    Set::new(|d: Date| d.wf() && lo <= d.num() < hi)
}

pub proof fn lemma_days_between_finite(lo: int, hi: int)
    ensures
        days_between(lo, hi).finite(),
{
    let top = if lo <= hi {
        hi
    } else {
        lo
    };
    let ns = vstd::set_lib::set_int_range(lo, top);
    vstd::set_lib::lemma_int_range(lo, top);
    let f = |n: int| date_at(n);
    let m = ns.map(f);
    ns.lemma_map_finite(f);
    assert forall|d: Date| days_between(lo, hi).contains(d) implies m.contains(d) by {
        lemma_date_at(d);
        assert(ns.contains(d.num()));
        assert(f(d.num()) == d);
    }
    assert(days_between(lo, hi).subset_of(m));
    vstd::set_lib::lemma_set_subset_finite(m, days_between(lo, hi));
}

proof fn lemma_latest_in(s: Set<Date>) -> (m: Date)
    requires
        s.finite(),
        s.len() > 0,
    ensures
        s.contains(m),
        forall|x: Date| s.contains(x) ==> x.num() <= m.num(),
    decreases s.len(),
{
    let a = s.choose();
    let t = s.remove(a);
    if t.len() == 0 {
        assert forall|x: Date| s.contains(x) implies x.num() <= a.num() by {
            if x != a {
                assert(t.contains(x));
            }
        }
        a
    } else {
        let b = lemma_latest_in(t);
        if a.num() <= b.num() {
            b
        } else {
            a
        }
    }
}

/// A finite set of valid dates has an ascending run, so `sorted_of` lists it.
pub proof fn lemma_sorted_of_finite(s: Set<Date>)
    requires
        s.finite(),
        forall|d: Date| s.contains(d) ==> d.wf(),
    ensures
        increasing(sorted_of(s)),
        sorted_of(s).to_set() == s,
    decreases s.len(),
{
    if s.len() == 0 {
        assert(s =~= Set::<Date>::empty());
        let e = Seq::<Date>::empty();
        assert(e.to_set() =~= s);
        assert(increasing(e));
    } else {
        let m = lemma_latest_in(s);
        let t = s.remove(m);
        lemma_sorted_of_finite(t);
        let q = sorted_of(t);
        let w = q.push(m);
        assert forall|i: int, j: int| 0 <= i < j < w.len() implies (#[trigger] w[i]).num() < (
        #[trigger] w[j]).num() by {
            if j == w.len() - 1 {
                assert(t.contains(q[i]));
                lemma_num_injective(q[i], m);
            }
        }
        assert forall|d: Date| w.to_set().contains(d) <==> s.contains(d) by {
            if s.contains(d) && d != m {
                assert(t.contains(d));
                let k = q.index_of(d);
                assert(w[k] == d);
            }
            if w.to_set().contains(d) {
                let k = w.index_of(d);
                if k < q.len() {
                    assert(q[k] == d);
                    assert(q.to_set().contains(d));
                }
            }
        }
        assert(w.to_set() =~= s);
        assert(increasing(w));
    }
}

/// Filtering keeps an ascending run ascending.
pub proof fn lemma_filter_increasing(s: Seq<Date>, p: spec_fn(Date) -> bool)
    requires
        increasing(s),
    ensures
        increasing(s.filter(p)),
    decreases s.len(),
{
    reveal(Seq::filter);
    if s.len() > 0 {
        let t = s.drop_last();
        assert(increasing(t));
        lemma_filter_increasing(t, p);
        if p(s.last()) {
            let f = t.filter(p);
            assert forall|k: int| 0 <= k < f.len() implies (#[trigger] f[k]).num() < s.last().num() by {
                assert(f.contains(f[k]));
                t.lemma_filter_contains_rev(p, f[k]);
                let j = choose|j: int| 0 <= j < t.len() && t[j] == f[k];
                assert(s[j] == t[j]);
                assert(s[s.len() - 1] == s.last());
            }
        }
    }
}


/// The first and the last day of the month of `date` (the last day is
/// `date` itself in the last representable month, whose successor month
/// cannot be formed).
pub fn month_bounds(date: &Date) -> (r: (Date, Date))
    requires
        date.wf(),
    ensures
        r.0 == (Date { year: date.year, month: date.month, day: 1 }),
        r.1 == (if date.month == 12 && date.year == MAX_YEAR {
            *date
        } else {
            Date { year: date.year, month: date.month, day: days_in_month(date.year as int, date.month as int) as u32 }
        }),
{
    let lo = match Date::from_ymd_opt(date.year, date.month, 1) {
        Some(d) => d,
        None => *date,
    };
    let next = if date.month == 12 {
        if date.year < MAX_YEAR {
            Date::from_ymd_opt(date.year + 1, 1, 1)
        } else {
            None
        }
    } else {
        Date::from_ymd_opt(date.year, date.month + 1, 1)
    };
    let hi = match next {
        Some(n) => match n.pred_opt() {
            Some(p) => p,
            None => *date,
        },
        None => *date,
    };
    proof {
        if !(date.month == 12 && date.year == MAX_YEAR) {
            lemma_last_day(date.year as int, date.month as int);
            let last = Date {
                year: date.year,
                month: date.month,
                day: days_in_month(date.year as int, date.month as int) as u32,
            };
            lemma_num_in_range(last);
            crate::date::lemma_num_injective(hi, last);
        }
    }
    (lo, hi)
}

} // verus!
