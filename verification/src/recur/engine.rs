//! Occurrence generation for a [`Recurrence`].
//!
//! `occurrences(rule, anchor, window)` returns the ascending in-window dates.
//! The caller always passes a finite window (a visible month, or
//! `[anchor, today]` for backfill), which keeps generation bounded.
use super::dates::{
    add_days, increasing, lemma_sorted_of, nth, spec_nth, month_start, monthday_matches,
    nth_weekday_of_month, nth_weekday_of_year, resolve_monthday, resolve_yearday, sort_dedup,
    sorted_of, spec_add_days, spec_month_start, spec_monthday_matches, spec_nth_weekday_of_month,
    spec_nth_weekday_of_year, spec_resolve_monthday, spec_resolve_yearday, spec_week_start,
    spec_yearday_matches, week_no_days, week_no_set, week_start, weekdays_of_month,
    month_weekday_set, yearday_matches,
};
use super::rule::{Freq, NWeekday, Recurrence, RuleView};
use crate::date::{valid_ymd, Date, Weekday, MAX_YEAR, MIN_YEAR};
use core::ops::RangeInclusive;
use vstd::prelude::*;

verus! {

broadcast use vstd::seq_lib::group_seq_properties;

/// Periods walked at most (a bound against rules that never match).
pub const MAX_PERIODS: u64 = 400_000;

// ---- what a rule lets through ----

pub open spec fn by_day_has(r: RuleView, w: Weekday) -> bool {
    exists|i: int| 0 <= i < r.by_day.len() && (#[trigger] r.by_day[i]).weekday == w
}

pub open spec fn month_ok(r: RuleView, m: u32) -> bool {
    r.by_month.len() == 0 || r.by_month.contains(m)
}

/// The BY* filters of a DAILY rule.
pub open spec fn spec_daily_passes(r: RuleView, d: Date) -> bool {
    &&& month_ok(r, d.month)
    &&& r.by_month_day.len() == 0 || spec_monthday_matches(d, r.by_month_day)
    &&& r.by_day.len() == 0 || by_day_has(r, d.spec_weekday())
    &&& r.by_year_day.len() == 0 || spec_yearday_matches(d, r.by_year_day)
}

/// Whether a day of a WEEKLY period is a candidate.
pub open spec fn week_ok(r: RuleView, anchor: Date, d: Date) -> bool {
    &&& if r.by_day.len() == 0 {
        d.spec_weekday() == anchor.spec_weekday()
    } else {
        by_day_has(r, d.spec_weekday())
    }
    &&& month_ok(r, d.month)
    &&& r.by_month_day.len() == 0 || spec_monthday_matches(d, r.by_month_day)
}

pub open spec fn week_set(r: RuleView, week_start: Date, anchor: Date) -> Set<Date> {
    Set::new(
        |d: Date|
            d.wf() && week_start.num() <= d.num() < week_start.num() + 7 && week_ok(r, anchor, d),
    )
}

fn has_weekday(by_day: &Vec<NWeekday>, w: Weekday) -> (r: bool)
    ensures
        r == exists|i: int| 0 <= i < by_day@.len() && (#[trigger] by_day@[i]).weekday == w,
{
    let mut i: usize = 0;
    while i < by_day.len()
        invariant
            i <= by_day.len(),
            forall|j: int| 0 <= j < i ==> (#[trigger] by_day@[j]).weekday != w,
        decreases by_day.len() - i,
    {
        if by_day[i].weekday.same(&w) {
            return true;
        }
        i += 1;
    }
    false
}

fn has_month(by_month: &Vec<u32>, m: u32) -> (r: bool)
    ensures
        r == by_month@.contains(m),
{
    let mut i: usize = 0;
    while i < by_month.len()
        invariant
            i <= by_month.len(),
            forall|j: int| 0 <= j < i ==> by_month@[j] != m,
        decreases by_month.len() - i,
    {
        if by_month[i] == m {
            return true;
        }
        i += 1;
    }
    false
}

fn month_allowed(rule: &Recurrence, m: u32) -> (r: bool)
    ensures
        r == month_ok(rule@, m),
{
    rule.by_month.len() == 0 || has_month(&rule.by_month, m)
}

fn daily_passes(rule: &Recurrence, d: &Date) -> (r: bool)
    requires
        d.wf(),
    ensures
        r == spec_daily_passes(rule@, *d),
{
    if !month_allowed(rule, d.month) {
        return false;
    }
    if rule.by_month_day.len() != 0 && !monthday_matches(d, &rule.by_month_day) {
        return false;
    }
    if rule.by_day.len() != 0 && !has_weekday(&rule.by_day, d.weekday()) {
        return false;
    }
    if rule.by_year_day.len() != 0 && !yearday_matches(d, &rule.by_year_day) {
        return false;
    }
    true
}

pub fn extend_dates(out: &mut Vec<Date>, more: &Vec<Date>)
    ensures
        final(out)@ == old(out)@ + more@,
        final(out)@.to_set() == old(out)@.to_set() + more@.to_set(),
{
    let ghost start = out@;
    let mut i: usize = 0;
    while i < more.len()
        invariant
            i <= more.len(),
            out@ == start + more@.take(i as int),
        decreases more.len() - i,
    {
        out.push(more[i]);
        i += 1;
        proof {
            assert(out@ =~= start + more@.take(i as int));
        }
    }
    proof {
        assert(more@.take(more.len() as int) =~= more@);
        vstd::seq_lib::seq_to_set_distributes_over_add(start, more@);
    }
}

/// The candidates of a WEEKLY period that starts on `week_start`.
#[verifier::spinoff_prover]
fn expand_week(rule: &Recurrence, week_start: &Date, anchor: &Date) -> (r: Vec<Date>)
    requires
        week_start.wf(),
        anchor.wf(),
    ensures
        forall|i: int| 0 <= i < r@.len() ==> (#[trigger] r@[i]).wf(),
        r@.to_set() == week_set(rule@, *week_start, *anchor),
{
    let mut c: Vec<Date> = Vec::new();
    let mut i: i64 = 0;
    while i < 7
        invariant
            0 <= i <= 7,
            week_start.wf(),
            anchor.wf(),
            forall|k: int| 0 <= k < c@.len() ==> (#[trigger] c@[k]).wf(),
            c@.to_set() == Set::new(
                |d: Date|
                    d.wf() && week_start.num() <= d.num() < week_start.num() + i && week_ok(
                        rule@,
                        *anchor,
                        d,
                    ),
            ),
        decreases 7 - i,
    {
        let ghost prev = c@;
        match add_days(week_start, i) {
            None => {
                proof {
                    assert(c@.to_set() =~= Set::new(
                        |d: Date|
                            d.wf() && week_start.num() <= d.num() < week_start.num() + i + 1
                                && week_ok(rule@, *anchor, d),
                    )) by {
                        assert forall|d: Date| d.wf() && d.num() == week_start.num() + i implies false by {
                            crate::date::lemma_num_in_range(d);
                        }
                    }
                }
            },
            Some(d) => {
                let weekday_ok = if rule.by_day.len() == 0 {
                    d.weekday().same(&anchor.weekday())
                } else {
                    has_weekday(&rule.by_day, d.weekday())
                };
                let keep = weekday_ok && month_allowed(rule, d.month) && (rule.by_month_day.len()
                    == 0 || monthday_matches(&d, &rule.by_month_day));
                if keep {
                    c.push(d);
                    proof {
                        prev.lemma_push_to_set_commute(d);
                    }
                }
                proof {
                    assert(c@.to_set() =~= Set::new(
                        |e: Date|
                            e.wf() && week_start.num() <= e.num() < week_start.num() + i + 1
                                && week_ok(rule@, *anchor, e),
                    )) by {
                        assert forall|e: Date| e.wf() && e.num() == week_start.num() + i implies e
                            == d by {
                            crate::date::lemma_num_injective(e, d);
                        }
                    }
                }
            },
        }
        i += 1;
    }
    c
}

pub open spec fn in_monthdays(r: RuleView, year: int, month: int, d: Date) -> bool {
    exists|i: int|
        0 <= i < r.by_month_day.len() && spec_resolve_monthday(
            year,
            month,
            #[trigger] r.by_month_day[i] as int,
        ) == Some(d)
}

/// Whether `d` is a day that the BYDAY item `n` picks in the month.
pub open spec fn nwd_month_hit(n: NWeekday, year: int, month: int, d: Date) -> bool {
    match n.ord {
        Some(o) => spec_nth_weekday_of_month(year, month, n.weekday, o as int) == Some(d),
        None => month_weekday_set(year, month, n.weekday).contains(d),
    }
}

pub open spec fn in_bydays_month(r: RuleView, year: int, month: int, d: Date) -> bool {
    exists|i: int| 0 <= i < r.by_day.len() && nwd_month_hit(#[trigger] r.by_day[i], year, month, d)
}

/// Whether `d` is a candidate of the MONTHLY period for `month` of `year`.
pub open spec fn month_cand(r: RuleView, year: int, month: int, anchor: Date, d: Date) -> bool {
    &&& month_ok(r, month as u32)
    &&& if r.by_month_day.len() > 0 && r.by_day.len() > 0 {
        in_monthdays(r, year, month, d) && by_day_has(r, d.spec_weekday())
    } else if r.by_month_day.len() > 0 {
        in_monthdays(r, year, month, d)
    } else if r.by_day.len() > 0 {
        in_bydays_month(r, year, month, d)
    } else {
        spec_resolve_monthday(year, month, anchor.day as i8 as int) == Some(d)
    }
}

pub open spec fn month_set(r: RuleView, year: int, month: int, anchor: Date) -> Set<Date> {
    Set::new(|d: Date| month_cand(r, year, month, anchor, d))
}

pub open spec fn all_wf(s: Seq<Date>) -> bool {
    forall|i: int| 0 <= i < s.len() ==> (#[trigger] s[i]).wf()
}

proof fn lemma_resolve_monthday_wf(year: int, month: int, md: int)
    ensures
        spec_resolve_monthday(year, month, md) matches Some(d) ==> d.wf() && d.year == year
            && d.month == month,
{
}

// ---- the candidates of a period in the order they are found ----

/// The pieces `f(0)`, ..., `f(n - 1)`, one after another.
pub open spec fn pieces(f: spec_fn(int) -> Seq<Date>, n: int) -> Seq<Date>
    decreases n,
{
    if n <= 0 {
        seq![]
    } else {
        pieces(f, n - 1) + f(n - 1)
    }
}

/// The date, if there is one, as a run of at most one date.
pub open spec fn opt_seq(o: Option<Date>) -> Seq<Date> {
    match o {
        Some(d) => seq![d],
        None => seq![],
    }
}

/// The weekday filter (BYDAY, when given) and, if `check_month`, the month
/// filter.
pub open spec fn wm_pred(r: RuleView, check_month: bool) -> spec_fn(Date) -> bool {
    |d: Date|
        (r.by_day.len() == 0 || by_day_has(r, d.spec_weekday())) && (!check_month || month_ok(
            r,
            d.month,
        ))
}

/// The day that BYMONTHDAY value `j` names in the month.
pub open spec fn monthday_piece(r: RuleView, year: int, month: int) -> spec_fn(int) -> Seq<Date> {
    |j: int| opt_seq(spec_resolve_monthday(year, month, r.by_month_day[j] as int))
}

/// The days that BYMONTHDAY names in the month, in its order.
pub open spec fn monthdays_seq(r: RuleView, year: int, month: int) -> Seq<Date> {
    pieces(monthday_piece(r, year, month), r.by_month_day.len() as int)
}

/// The days that one BYDAY item picks in the month, ascending.
pub open spec fn nwd_month_seq(n: NWeekday, year: int, month: int) -> Seq<Date> {
    match n.ord {
        Some(o) => opt_seq(spec_nth_weekday_of_month(year, month, n.weekday, o as int)),
        None => sorted_of(month_weekday_set(year, month, n.weekday)),
    }
}

pub open spec fn byday_month_piece(r: RuleView, year: int, month: int) -> spec_fn(int) -> Seq<Date> {
    |j: int| nwd_month_seq(r.by_day[j], year, month)
}

/// The days that BYDAY picks in the month, item after item.
pub open spec fn bydays_month_seq(r: RuleView, year: int, month: int) -> Seq<Date> {
    pieces(byday_month_piece(r, year, month), r.by_day.len() as int)
}

/// The candidates of the MONTHLY period for `month` of `year`, in the
/// order they are found (repeats included).
pub open spec fn month_seq(r: RuleView, year: int, month: int, anchor: Date) -> Seq<Date> {
    if !month_ok(r, month as u32) {
        seq![]
    } else if r.by_month_day.len() > 0 && r.by_day.len() > 0 {
        monthdays_seq(r, year, month).filter(wm_pred(r, false))
    } else if r.by_month_day.len() > 0 {
        monthdays_seq(r, year, month)
    } else if r.by_day.len() > 0 {
        bydays_month_seq(r, year, month)
    } else {
        opt_seq(spec_resolve_monthday(year, month, anchor.day as i8 as int))
    }
}

fn monthdays_in(rule: &Recurrence, year: i32, month: u32) -> (r: Vec<Date>)
    ensures
        r@ == monthdays_seq(rule@, year as int, month as int),
        all_wf(r@),
        r@.to_set() == Set::new(|d: Date| in_monthdays(rule@, year as int, month as int, d)),
{
    let mut c: Vec<Date> = Vec::new();
    let mut i: usize = 0;
    while i < rule.by_month_day.len()
        invariant
            i <= rule.by_month_day.len(),
            c@ == pieces(monthday_piece(rule@, year as int, month as int), i as int),
            all_wf(c@),
            c@.to_set() == Set::new(
                |d: Date|
                    exists|j: int|
                        0 <= j < i && spec_resolve_monthday(
                            year as int,
                            month as int,
                            #[trigger] rule.by_month_day@[j] as int,
                        ) == Some(d),
            ),
        decreases rule.by_month_day.len() - i,
    {
        let ghost prev = c@;
        let x = resolve_monthday(year, month, rule.by_month_day[i]);
        proof {
            lemma_resolve_monthday_wf(year as int, month as int, rule.by_month_day@[i as int] as int);
        }
        if let Some(d) = x {
            c.push(d);
            proof {
                prev.lemma_push_to_set_commute(d);
            }
        }
        proof {
            let f = monthday_piece(rule@, year as int, month as int);
            assert(f(i as int) == opt_seq(x));
            assert(c@ =~= prev + opt_seq(x));
            assert(pieces(f, i + 1) == pieces(f, i as int) + f(i as int));
        }
        proof {
            let md = rule.by_month_day@;
            assert forall|d: Date|
                (exists|j: int|
                    0 <= j < i + 1 && spec_resolve_monthday(
                        year as int,
                        month as int,
                        #[trigger] md[j] as int,
                    ) == Some(d)) <==> c@.to_set().contains(d) by {
                if c@.to_set().contains(d) {
                    if prev.to_set().contains(d) {
                        let j = choose|j: int|
                            0 <= j < i && spec_resolve_monthday(
                                year as int,
                                month as int,
                                #[trigger] md[j] as int,
                            ) == Some(d);
                        assert(0 <= j < i + 1);
                    } else {
                        assert(spec_resolve_monthday(year as int, month as int, md[i as int] as int)
                            == Some(d));
                    }
                }
            }
            assert(c@.to_set() =~= Set::new(
                |d: Date|
                    exists|j: int|
                        0 <= j < i + 1 && spec_resolve_monthday(
                            year as int,
                            month as int,
                            #[trigger] md[j] as int,
                        ) == Some(d),
            ));
        }
        i += 1;
    }
    proof {
        assert(c@.to_set() =~= Set::new(
            |d: Date| in_monthdays(rule@, year as int, month as int, d),
        ));
    }
    c
}

#[verifier::spinoff_prover]
fn bydays_in_month(rule: &Recurrence, year: i32, month: u32) -> (r: Vec<Date>)
    ensures
        r@ == bydays_month_seq(rule@, year as int, month as int),
        all_wf(r@),
        r@.to_set() == Set::new(|d: Date| in_bydays_month(rule@, year as int, month as int, d)),
{
    let mut c: Vec<Date> = Vec::new();
    let mut i: usize = 0;
    while i < rule.by_day.len()
        invariant
            i <= rule.by_day.len(),
            c@ == pieces(byday_month_piece(rule@, year as int, month as int), i as int),
            all_wf(c@),
            c@.to_set() == Set::new(
                |d: Date|
                    exists|j: int|
                        0 <= j < i && nwd_month_hit(
                            #[trigger] rule.by_day@[j],
                            year as int,
                            month as int,
                            d,
                        ),
            ),
        decreases rule.by_day.len() - i,
    {
        let nwd = rule.by_day[i];
        let days = weekdays_of_month(year, month, nwd.weekday);
        let more: Vec<Date> = match nwd.ord {
            Some(o) => {
                let mut m: Vec<Date> = Vec::new();
                if let Some(x) = nth_weekday_of_month(year, month, nwd.weekday, o) {
                    m.push(x);
                }
                m
            },
            None => days,
        };
        proof {
            let by = rule.by_day@;
            assert(all_wf(more@)) by {
                if let Some(o) = nwd.ord {
                    let s = sorted_of(month_weekday_set(year as int, month as int, nwd.weekday));
                    assert(s == days@);
                }
            }
            assert(more@.to_set() =~= Set::new(
                |d: Date| nwd_month_hit(nwd, year as int, month as int, d),
            ));
        }
        proof {
            let f = byday_month_piece(rule@, year as int, month as int);
            let s = sorted_of(month_weekday_set(year as int, month as int, nwd.weekday));
            assert(s == days@);
            assert(rule@.by_day[i as int] == nwd);
            assert(f(i as int) == more@) by {
                if let Some(o) = nwd.ord {
                    assert(more@ =~= opt_seq(spec_nth_weekday_of_month(year as int, month as int, nwd.weekday, o as int)));
                }
            }
        }
        let ghost prev = c@;
        extend_dates(&mut c, &more);
        proof {
            let f = byday_month_piece(rule@, year as int, month as int);
            assert(pieces(f, i + 1) == pieces(f, i as int) + f(i as int));
        }
        proof {
            let by = rule.by_day@;
            assert forall|d: Date|
                (exists|j: int|
                    0 <= j < i + 1 && nwd_month_hit(#[trigger] by[j], year as int, month as int, d))
                    <==> c@.to_set().contains(d) by {
                if c@.to_set().contains(d) {
                    if prev.to_set().contains(d) {
                        let j = choose|j: int|
                            0 <= j < i && nwd_month_hit(
                                #[trigger] by[j],
                                year as int,
                                month as int,
                                d,
                            );
                        assert(0 <= j < i + 1);
                    } else {
                        assert(nwd_month_hit(by[i as int], year as int, month as int, d));
                    }
                }
            }
            assert(c@.to_set() =~= Set::new(
                |d: Date|
                    exists|j: int|
                        0 <= j < i + 1 && nwd_month_hit(
                            #[trigger] by[j],
                            year as int,
                            month as int,
                            d,
                        ),
            ));
            assert(all_wf(c@)) by {
                assert forall|k: int| 0 <= k < c@.len() implies (#[trigger] c@[k]).wf() by {
                    if k >= prev.len() {
                        assert(c@[k] == more@[k - prev.len()]);
                    }
                }
            }
        }
        i += 1;
    }
    proof {
        assert forall|d: Date| c@.to_set().contains(d) <==> in_bydays_month(
            rule@,
            year as int,
            month as int,
            d,
        ) by {
            if c@.to_set().contains(d) {
                let j = choose|j: int|
                    0 <= j < rule.by_day@.len() && nwd_month_hit(
                        #[trigger] rule.by_day@[j],
                        year as int,
                        month as int,
                        d,
                    );
                assert(rule@.by_day[j] == rule.by_day@[j]);
            }
            if in_bydays_month(rule@, year as int, month as int, d) {
                let j = choose|j: int|
                    0 <= j < rule@.by_day.len() && nwd_month_hit(
                        #[trigger] rule@.by_day[j],
                        year as int,
                        month as int,
                        d,
                    );
                assert(rule@.by_day[j] == rule.by_day@[j]);
            }
        }
        assert(c@.to_set() =~= Set::new(
            |d: Date| in_bydays_month(rule@, year as int, month as int, d),
        ));
    }
    c
}

/// The dates that some index below `i` picks.
pub open spec fn picked_upto(p: spec_fn(int, Date) -> bool, i: int) -> Set<Date> {
    Set::new(|d: Date| exists|j: int| 0 <= j < i && #[trigger] p(j, d))
}

proof fn lemma_picked_step(
    prev: Seq<Date>,
    cur: Seq<Date>,
    more: Seq<Date>,
    p: spec_fn(int, Date) -> bool,
    i: int,
)
    requires
        0 <= i,
        prev.to_set() == picked_upto(p, i),
        more.to_set() == Set::new(|d: Date| p(i, d)),
        cur.to_set() == prev.to_set() + more.to_set(),
    ensures
        cur.to_set() == picked_upto(p, i + 1),
{
    assert forall|d: Date| cur.to_set().contains(d) <==> picked_upto(p, i + 1).contains(d) by {
        if cur.to_set().contains(d) {
            if prev.to_set().contains(d) {
                assert(picked_upto(p, i).contains(d));
                let j = choose|j: int| 0 <= j < i && #[trigger] p(j, d);
                assert(0 <= j < i + 1 && p(j, d));
                assert(picked_upto(p, i + 1).contains(d));
            } else {
                assert(more.to_set().contains(d));
                assert(p(i, d));
                assert(picked_upto(p, i + 1).contains(d));
            }
        }
        if picked_upto(p, i + 1).contains(d) {
            let j = choose|j: int| 0 <= j < i + 1 && #[trigger] p(j, d);
            if j < i {
                assert(picked_upto(p, i).contains(d));
                assert(prev.to_set().contains(d));
            } else {
                assert(Set::new(|d: Date| p(i, d)).contains(d));
                assert(more.to_set().contains(d));
            }
        }
    }
    assert(cur.to_set() =~= picked_upto(p, i + 1));
}

proof fn lemma_picked_empty(p: spec_fn(int, Date) -> bool)
    ensures
        picked_upto(p, 0) == Set::<Date>::empty(),
{
    assert(picked_upto(p, 0) =~= Set::<Date>::empty());
}

/// The dates of `days` that the weekday filter (BYDAY, when given) and the
/// month filter let through.
fn filter_weekday_month(rule: &Recurrence, days: &Vec<Date>, check_month: bool) -> (r: Vec<Date>)
    requires
        all_wf(days@),
    ensures
        r@ == days@.filter(wm_pred(rule@, check_month)),
        all_wf(r@),
        r@.to_set() == Set::new(
            |d: Date|
                days@.contains(d) && (rule@.by_day.len() == 0 || by_day_has(
                    rule@,
                    d.spec_weekday(),
                )) && (!check_month || month_ok(rule@, d.month)),
        ),
{
    let mut c: Vec<Date> = Vec::new();
    let mut i: usize = 0;
    while i < days.len()
        invariant
            i <= days.len(),
            all_wf(days@),
            c@ == days@.take(i as int).filter(wm_pred(rule@, check_month)),
            all_wf(c@),
            c@.to_set() == Set::new(
                |d: Date|
                    days@.take(i as int).contains(d) && (rule@.by_day.len() == 0 || by_day_has(
                        rule@,
                        d.spec_weekday(),
                    )) && (!check_month || month_ok(rule@, d.month)),
            ),
        decreases days.len() - i,
    {
        let d = days[i];
        let ghost prev = c@;
        let keep = (rule.by_day.len() == 0 || has_weekday(&rule.by_day, d.weekday())) && (
        !check_month || month_allowed(rule, d.month));
        if keep {
            c.push(d);
            proof {
                prev.lemma_push_to_set_commute(d);
            }
        }
        proof {
            assert(days@.take(i + 1) =~= days@.take(i as int).push(d));
            days@.take(i as int).lemma_filter_push(d, wm_pred(rule@, check_month));
            assert(keep == wm_pred(rule@, check_month)(d));
            days@.take(i as int).lemma_push_to_set_commute(d);
            assert(days@.take(i + 1).to_set() =~= days@.take(i as int).to_set().insert(d));
            assert forall|e: Date| #[trigger] days@.take(i + 1).contains(e) <==> (days@.take(
                i as int,
            ).contains(e) || e == d) by {
                assert(days@.take(i + 1).to_set().contains(e) == days@.take(i + 1).contains(e));
                assert(days@.take(i as int).to_set().contains(e) == days@.take(i as int).contains(
                    e,
                ));
            }
            assert(c@.to_set() =~= Set::new(
                |e: Date|
                    days@.take(i + 1).contains(e) && (rule@.by_day.len() == 0 || by_day_has(
                        rule@,
                        e.spec_weekday(),
                    )) && (!check_month || month_ok(rule@, e.month)),
            ));
        }
        i += 1;
    }
    proof {
        assert(days@.take(days.len() as int) =~= days@);
    }
    c
}

/// The candidates of the MONTHLY period for `month` of `year`.
#[verifier::spinoff_prover]
fn expand_month(rule: &Recurrence, year: i32, month: u32, anchor: &Date) -> (r: Vec<Date>)
    requires
        anchor.wf(),
    ensures
        r@ == month_seq(rule@, year as int, month as int, *anchor),
        all_wf(r@),
        r@.to_set() == month_set(rule@, year as int, month as int, *anchor),
{
    if !month_allowed(rule, month) {
        let v: Vec<Date> = Vec::new();
        proof {
            assert(v@ =~= month_seq(rule@, year as int, month as int, *anchor));
            assert(v@.to_set() =~= month_set(rule@, year as int, month as int, *anchor));
        }
        return v;
    }
    let has_md = rule.by_month_day.len() > 0;
    let has_day = rule.by_day.len() > 0;
    if has_md && has_day {
        let md = monthdays_in(rule, year, month);
        let r = filter_weekday_month(rule, &md, false);
        proof {
            assert forall|d: Date| md@.contains(d) <==> in_monthdays(rule@, year as int, month as int, d) by {
                assert(md@.to_set().contains(d) == md@.contains(d));
            }
            assert(r@.to_set() =~= month_set(rule@, year as int, month as int, *anchor));
        }
        r
    } else if has_md {
        let md = monthdays_in(rule, year, month);
        proof {
            assert(md@.to_set() =~= month_set(rule@, year as int, month as int, *anchor));
        }
        md
    } else if has_day {
        let day = bydays_in_month(rule, year, month);
        proof {
            assert(day@.to_set() =~= month_set(rule@, year as int, month as int, *anchor));
        }
        day
    } else {
        let mut v: Vec<Date> = Vec::new();
        let x = resolve_monthday(year, month, anchor.day as i8);
        proof {
            lemma_resolve_monthday_wf(year as int, month as int, anchor.day as i8 as int);
        }
        if let Some(d) = x {
            v.push(d);
        }
        proof {
            assert(v@ =~= opt_seq(x));
            assert(v@.to_set() =~= month_set(rule@, year as int, month as int, *anchor));
        }
        v
    }
}

// ---- YEARLY periods ----

/// The months a YEARLY period walks: BYMONTH, or all twelve.
pub open spec fn months_of(r: RuleView) -> Seq<u32> {
    if r.by_month.len() == 0 {
        Seq::new(12, |i: int| (i + 1) as u32)
    } else {
        r.by_month
    }
}

pub open spec fn wd_filter(r: RuleView, d: Date) -> bool {
    r.by_day.len() == 0 || by_day_has(r, d.spec_weekday())
}

/// Days named by BYYEARDAY (in an allowed month).
pub open spec fn yd_set(r: RuleView, year: int) -> Set<Date> {
    picked_upto(
        |j: int, d: Date|
            spec_resolve_yearday(year, r.by_year_day[j] as int) == Some(d) && month_ok(r, d.month),
        r.by_year_day.len() as int,
    )
}

/// Days of the ISO weeks named by BYWEEKNO (matching BYDAY and BYMONTH).
pub open spec fn wn_set(r: RuleView, year: int) -> Set<Date> {
    picked_upto(
        |j: int, d: Date|
            week_no_set(year, r.by_week_no[j] as int).contains(d) && wd_filter(r, d) && month_ok(
                r,
                d.month,
            ),
        r.by_week_no.len() as int,
    )
}

/// Days named by BYMONTHDAY in each walked month (matching BYDAY).
pub open spec fn md_year_set(r: RuleView, year: int) -> Set<Date> {
    picked_upto(
        |mi: int, d: Date| in_monthdays(r, year, months_of(r)[mi] as int, d) && wd_filter(r, d),
        months_of(r).len() as int,
    )
}

/// Days that one BYDAY item picks in the walked month `months_of(r)[mi]`.
pub open spec fn nwd_month_pick(r: RuleView, n: NWeekday, year: int) -> spec_fn(int, Date) -> bool {
    |mi: int, d: Date|
        match n.ord {
            Some(o) => spec_nth_weekday_of_month(year, months_of(r)[mi] as int, n.weekday, o as int)
                == Some(d),
            None => month_weekday_set(year, months_of(r)[mi] as int, n.weekday).contains(d),
        }
}

/// Days that one BYDAY item picks in a YEARLY period.
pub open spec fn nwd_year_set(r: RuleView, n: NWeekday, year: int) -> Set<Date> {
    if n.ord is Some && r.by_month.len() == 0 {
        Set::new(|d: Date| spec_nth_weekday_of_year(year, n.weekday, n.ord->0 as int) == Some(d))
    } else {
        picked_upto(nwd_month_pick(r, n, year), months_of(r).len() as int)
    }
}

pub open spec fn bd_year_set(r: RuleView, year: int) -> Set<Date> {
    picked_upto(
        |j: int, d: Date| nwd_year_set(r, r.by_day[j], year).contains(d),
        r.by_day.len() as int,
    )
}

pub open spec fn plain_months(r: RuleView, anchor: Date) -> Seq<u32> {
    if r.by_month.len() == 0 {
        seq![anchor.month]
    } else {
        r.by_month
    }
}

/// A plain YEARLY rule: the anchor's day of the month in each walked month.
pub open spec fn plain_set(r: RuleView, year: int, anchor: Date) -> Set<Date> {
    picked_upto(
        |mi: int, d: Date|
            valid_ymd(year, plain_months(r, anchor)[mi] as int, anchor.day as int) && d == Date {
                year: year as i32,
                month: plain_months(r, anchor)[mi],
                day: anchor.day,
            },
        plain_months(r, anchor).len() as int,
    )
}

pub open spec fn produced(r: RuleView) -> bool {
    r.by_year_day.len() > 0 || r.by_week_no.len() > 0 || r.by_month_day.len() > 0
        || r.by_day.len() > 0
}

/// The candidates of the YEARLY period for `year`.
pub open spec fn year_set(r: RuleView, year: int, anchor: Date) -> Set<Date> {
    yd_set(r, year) + wn_set(r, year) + (if r.by_month_day.len() > 0 {
        md_year_set(r, year)
    } else if r.by_day.len() > 0 && r.by_week_no.len() == 0 {
        bd_year_set(r, year)
    } else {
        Set::empty()
    }) + (if !produced(r) {
        plain_set(r, year, anchor)
    } else {
        Set::empty()
    })
}

/// The day that BYYEARDAY value `j` names, if its month is allowed.
pub open spec fn yd_piece(r: RuleView, year: int) -> spec_fn(int) -> Seq<Date> {
    |j: int|
        match spec_resolve_yearday(year, r.by_year_day[j] as int) {
            Some(d) => if month_ok(r, d.month) {
                seq![d]
            } else {
                seq![]
            },
            None => seq![],
        }
}

/// The days of ISO week `r.by_week_no[j]` that the filters let through.
pub open spec fn wn_piece(r: RuleView, year: int) -> spec_fn(int) -> Seq<Date> {
    |j: int| sorted_of(week_no_set(year, r.by_week_no[j] as int)).filter(wm_pred(r, true))
}

/// The days that BYMONTHDAY names in walked month `mi`, filtered by BYDAY.
pub open spec fn md_year_piece(r: RuleView, year: int) -> spec_fn(int) -> Seq<Date> {
    |mi: int| monthdays_seq(r, year, months_of(r)[mi] as int).filter(wm_pred(r, false))
}

/// The days that one BYDAY item picks in walked month `mi`.
pub open spec fn nwd_year_piece(r: RuleView, n: NWeekday, year: int) -> spec_fn(int) -> Seq<Date> {
    |mi: int| nwd_month_seq(n, year, months_of(r)[mi] as int)
}

/// The days that one BYDAY item picks in a YEARLY period, in order.
pub open spec fn nwd_year_seq(r: RuleView, n: NWeekday, year: int) -> Seq<Date> {
    if n.ord is Some && r.by_month.len() == 0 {
        opt_seq(spec_nth_weekday_of_year(year, n.weekday, n.ord->0 as int))
    } else {
        pieces(nwd_year_piece(r, n, year), months_of(r).len() as int)
    }
}

pub open spec fn bd_year_piece(r: RuleView, year: int) -> spec_fn(int) -> Seq<Date> {
    |j: int| nwd_year_seq(r, r.by_day[j], year)
}

/// The anchor's day of the month in walked month `mi`, if it exists.
pub open spec fn plain_piece(r: RuleView, year: int, anchor: Date) -> spec_fn(int) -> Seq<Date> {
    |mi: int|
        if valid_ymd(year, plain_months(r, anchor)[mi] as int, anchor.day as int) {
            seq![Date { year: year as i32, month: plain_months(r, anchor)[mi], day: anchor.day }]
        } else {
            seq![]
        }
}

/// The candidates of the YEARLY period for `year`, in the order they are
/// found (repeats included): BYYEARDAY, BYWEEKNO, then BYMONTHDAY or BYDAY,
/// and the anchor's day where none of these is given.
pub open spec fn year_seq(r: RuleView, year: int, anchor: Date) -> Seq<Date> {
    pieces(yd_piece(r, year), r.by_year_day.len() as int) + pieces(
        wn_piece(r, year),
        r.by_week_no.len() as int,
    ) + (if r.by_month_day.len() > 0 {
        pieces(md_year_piece(r, year), months_of(r).len() as int)
    } else if r.by_day.len() > 0 && r.by_week_no.len() == 0 {
        pieces(bd_year_piece(r, year), r.by_day.len() as int)
    } else {
        seq![]
    }) + (if !produced(r) {
        pieces(plain_piece(r, year, anchor), plain_months(r, anchor).len() as int)
    } else {
        seq![]
    })
}

fn months_vec(rule: &Recurrence) -> (r: Vec<u32>)
    ensures
        r@ == months_of(rule@),
{
    if rule.by_month.len() == 0 {
        let mut v: Vec<u32> = Vec::new();
        let mut m: u32 = 1;
        while m <= 12
            invariant
                1 <= m <= 13,
                v@ == Seq::new((m - 1) as nat, |i: int| (i + 1) as u32),
            decreases 13 - m,
        {
            v.push(m);
            m += 1;
            proof {
                assert(v@ =~= Seq::new((m - 1) as nat, |i: int| (i + 1) as u32));
            }
        }
        v
    } else {
        let mut v: Vec<u32> = Vec::new();
        let mut i: usize = 0;
        while i < rule.by_month.len()
            invariant
                i <= rule.by_month.len(),
                v@ == rule.by_month@.take(i as int),
            decreases rule.by_month.len() - i,
        {
            v.push(rule.by_month[i]);
            i += 1;
            proof {
                assert(v@ =~= rule.by_month@.take(i as int));
            }
        }
        proof {
            assert(rule.by_month@.take(i as int) =~= rule.by_month@);
        }
        v
    }
}

fn yd_dates(rule: &Recurrence, year: i32) -> (r: Vec<Date>)
    ensures
        r@ == pieces(yd_piece(rule@, year as int), rule@.by_year_day.len() as int),
        all_wf(r@),
        r@.to_set() == yd_set(rule@, year as int),
{
    let ghost p = |j: int, d: Date|
        spec_resolve_yearday(year as int, rule@.by_year_day[j] as int) == Some(d) && month_ok(
            rule@,
            d.month,
        );
    let mut c: Vec<Date> = Vec::new();
    let mut i: usize = 0;
    proof {
        lemma_picked_empty(p);
        assert(c@.to_set() =~= Set::<Date>::empty());
    }
    while i < rule.by_year_day.len()
        invariant
            i <= rule.by_year_day.len(),
            c@ == pieces(yd_piece(rule@, year as int), i as int),
            all_wf(c@),
            p == (|j: int, d: Date|
                spec_resolve_yearday(year as int, rule@.by_year_day[j] as int) == Some(d)
                    && month_ok(rule@, d.month)),
            c@.to_set() == picked_upto(p, i as int),
        decreases rule.by_year_day.len() - i,
    {
        let mut more: Vec<Date> = Vec::new();
        if let Some(d) = resolve_yearday(year, rule.by_year_day[i]) {
            if month_allowed(rule, d.month) {
                more.push(d);
            }
        }
        proof {
            assert(more@.to_set() =~= Set::new(|d: Date| p(i as int, d)));
            let f = yd_piece(rule@, year as int);
            assert(f(i as int) =~= more@);
            assert(pieces(f, i + 1) == pieces(f, i as int) + f(i as int));
        }
        let ghost prev = c@;
        extend_dates(&mut c, &more);
        proof {
            lemma_picked_step(prev, c@, more@, p, i as int);
            assert(all_wf(c@)) by {
                assert forall|k: int| 0 <= k < c@.len() implies (#[trigger] c@[k]).wf() by {
                    if k >= prev.len() {
                        assert(c@[k] == more@[k - prev.len()]);
                    }
                }
            }
        }
        i += 1;
    }
    c
}

proof fn lemma_all_wf_extend(prev: Seq<Date>, more: Seq<Date>, cur: Seq<Date>)
    requires
        all_wf(prev),
        all_wf(more),
        cur == prev + more,
    ensures
        all_wf(cur),
{
    assert forall|k: int| 0 <= k < cur.len() implies (#[trigger] cur[k]).wf() by {
        if k >= prev.len() {
            assert(cur[k] == more[k - prev.len()]);
        }
    }
}

fn wn_dates(rule: &Recurrence, year: i32) -> (r: Vec<Date>)
    ensures
        r@ == pieces(wn_piece(rule@, year as int), rule@.by_week_no.len() as int),
        all_wf(r@),
        r@.to_set() == wn_set(rule@, year as int),
{
    let ghost p = |j: int, d: Date|
        week_no_set(year as int, rule@.by_week_no[j] as int).contains(d) && wd_filter(rule@, d)
            && month_ok(rule@, d.month);
    let mut c: Vec<Date> = Vec::new();
    let mut i: usize = 0;
    proof {
        lemma_picked_empty(p);
        assert(c@.to_set() =~= Set::<Date>::empty());
    }
    while i < rule.by_week_no.len()
        invariant
            i <= rule.by_week_no.len(),
            c@ == pieces(wn_piece(rule@, year as int), i as int),
            all_wf(c@),
            p == (|j: int, d: Date|
                week_no_set(year as int, rule@.by_week_no[j] as int).contains(d) && wd_filter(
                    rule@,
                    d,
                ) && month_ok(rule@, d.month)),
            c@.to_set() == picked_upto(p, i as int),
        decreases rule.by_week_no.len() - i,
    {
        let days = week_no_days(year, rule.by_week_no[i]);
        let more = filter_weekday_month(rule, &days, true);
        proof {
            assert forall|d: Date| days@.contains(d) <==> week_no_set(
                year as int,
                rule@.by_week_no[i as int] as int,
            ).contains(d) by {
                assert(days@.to_set().contains(d) == days@.contains(d));
            }
            assert(more@.to_set() =~= Set::new(|d: Date| p(i as int, d)));
            lemma_sorted_of(days@);
            let f = wn_piece(rule@, year as int);
            assert(f(i as int) == more@);
            assert(pieces(f, i + 1) == pieces(f, i as int) + f(i as int));
        }
        let ghost prev = c@;
        extend_dates(&mut c, &more);
        proof {
            lemma_picked_step(prev, c@, more@, p, i as int);
            lemma_all_wf_extend(prev, more@, c@);
        }
        i += 1;
    }
    c
}

fn md_year_dates(rule: &Recurrence, year: i32) -> (r: Vec<Date>)
    ensures
        r@ == pieces(md_year_piece(rule@, year as int), months_of(rule@).len() as int),
        all_wf(r@),
        r@.to_set() == md_year_set(rule@, year as int),
{
    let months = months_vec(rule);
    let ghost p = |mi: int, d: Date|
        in_monthdays(rule@, year as int, months_of(rule@)[mi] as int, d) && wd_filter(rule@, d);
    let mut c: Vec<Date> = Vec::new();
    let mut i: usize = 0;
    proof {
        lemma_picked_empty(p);
        assert(c@.to_set() =~= Set::<Date>::empty());
    }
    while i < months.len()
        invariant
            i <= months.len(),
            months@ == months_of(rule@),
            c@ == pieces(md_year_piece(rule@, year as int), i as int),
            all_wf(c@),
            p == (|mi: int, d: Date|
                in_monthdays(rule@, year as int, months_of(rule@)[mi] as int, d) && wd_filter(
                    rule@,
                    d,
                )),
            c@.to_set() == picked_upto(p, i as int),
        decreases months.len() - i,
    {
        let md = monthdays_in(rule, year, months[i]);
        let more = filter_weekday_month(rule, &md, false);
        proof {
            assert forall|d: Date| md@.contains(d) <==> in_monthdays(
                rule@,
                year as int,
                months@[i as int] as int,
                d,
            ) by {
                assert(md@.to_set().contains(d) == md@.contains(d));
            }
            assert(more@.to_set() =~= Set::new(|d: Date| p(i as int, d)));
            let f = md_year_piece(rule@, year as int);
            assert(f(i as int) == more@);
            assert(pieces(f, i + 1) == pieces(f, i as int) + f(i as int));
        }
        let ghost prev = c@;
        extend_dates(&mut c, &more);
        proof {
            lemma_picked_step(prev, c@, more@, p, i as int);
            lemma_all_wf_extend(prev, more@, c@);
        }
        i += 1;
    }
    c
}

fn nwd_year_dates(rule: &Recurrence, n: NWeekday, year: i32) -> (r: Vec<Date>)
    ensures
        r@ == nwd_year_seq(rule@, n, year as int),
        all_wf(r@),
        r@.to_set() == nwd_year_set(rule@, n, year as int),
{
    match n.ord {
        Some(o) => {
            if rule.by_month.len() == 0 {
                let mut v: Vec<Date> = Vec::new();
                if let Some(d) = nth_weekday_of_year(year, n.weekday, o) {
                    v.push(d);
                }
                proof {
                    assert(v@.to_set() =~= nwd_year_set(rule@, n, year as int));
                    assert(v@ =~= nwd_year_seq(rule@, n, year as int));
                }
                return v;
            }
        },
        None => {},
    }
    let months = months_vec(rule);
    let ghost p = nwd_month_pick(rule@, n, year as int);
    let mut c: Vec<Date> = Vec::new();
    let mut i: usize = 0;
    proof {
        lemma_picked_empty(p);
        assert(c@.to_set() =~= Set::<Date>::empty());
    }
    while i < months.len()
        invariant
            i <= months.len(),
            months@ == months_of(rule@),
            all_wf(c@),
            p == nwd_month_pick(rule@, n, year as int),
            c@ == pieces(nwd_year_piece(rule@, n, year as int), i as int),
            c@.to_set() == picked_upto(p, i as int),
        decreases months.len() - i,
    {
        let days = weekdays_of_month(year, months[i], n.weekday);
        let more: Vec<Date> = match n.ord {
            Some(o) => {
                let mut m: Vec<Date> = Vec::new();
                if let Some(x) = super::dates::nth(&days, o) {
                    m.push(x);
                }
                m
            },
            None => days,
        };
        proof {
            assert(more@.to_set() =~= Set::new(|d: Date| p(i as int, d)));
            let f = nwd_year_piece(rule@, n, year as int);
            assert(f(i as int) =~= more@);
            assert(pieces(f, i + 1) == pieces(f, i as int) + f(i as int));
        }
        let ghost prev = c@;
        extend_dates(&mut c, &more);
        proof {
            lemma_picked_step(prev, c@, more@, p, i as int);
            lemma_all_wf_extend(prev, more@, c@);
        }
        i += 1;
    }
    proof {
        assert(c@.to_set() =~= nwd_year_set(rule@, n, year as int));
    }
    c
}

fn bd_year_dates(rule: &Recurrence, year: i32) -> (r: Vec<Date>)
    ensures
        r@ == pieces(bd_year_piece(rule@, year as int), rule@.by_day.len() as int),
        all_wf(r@),
        r@.to_set() == bd_year_set(rule@, year as int),
{
    let ghost p = |j: int, d: Date| nwd_year_set(rule@, rule@.by_day[j], year as int).contains(d);
    let mut c: Vec<Date> = Vec::new();
    let mut i: usize = 0;
    proof {
        lemma_picked_empty(p);
        assert(c@.to_set() =~= Set::<Date>::empty());
    }
    while i < rule.by_day.len()
        invariant
            i <= rule.by_day.len(),
            c@ == pieces(bd_year_piece(rule@, year as int), i as int),
            all_wf(c@),
            p == (|j: int, d: Date| nwd_year_set(rule@, rule@.by_day[j], year as int).contains(d)),
            c@.to_set() == picked_upto(p, i as int),
        decreases rule.by_day.len() - i,
    {
        let more = nwd_year_dates(rule, rule.by_day[i], year);
        proof {
            assert(more@.to_set() =~= Set::new(|d: Date| p(i as int, d)));
            let f = bd_year_piece(rule@, year as int);
            assert(f(i as int) == more@);
            assert(pieces(f, i + 1) == pieces(f, i as int) + f(i as int));
        }
        let ghost prev = c@;
        extend_dates(&mut c, &more);
        proof {
            lemma_picked_step(prev, c@, more@, p, i as int);
            lemma_all_wf_extend(prev, more@, c@);
        }
        i += 1;
    }
    c
}

fn plain_dates(rule: &Recurrence, year: i32, anchor: &Date) -> (r: Vec<Date>)
    ensures
        r@ == pieces(plain_piece(rule@, year as int, *anchor), plain_months(rule@, *anchor).len() as int),
        all_wf(r@),
        r@.to_set() == plain_set(rule@, year as int, *anchor),
{
    let ms: Vec<u32> = if rule.by_month.len() == 0 {
        let mut v: Vec<u32> = Vec::new();
        v.push(anchor.month);
        v
    } else {
        months_vec(rule)
    };
    assert(ms@ =~= plain_months(rule@, *anchor));
    let ghost p = |mi: int, d: Date|
        valid_ymd(year as int, plain_months(rule@, *anchor)[mi] as int, anchor.day as int) && d
            == Date { year: year as i32, month: plain_months(rule@, *anchor)[mi], day: anchor.day };
    let mut c: Vec<Date> = Vec::new();
    let mut i: usize = 0;
    proof {
        lemma_picked_empty(p);
        assert(c@.to_set() =~= Set::<Date>::empty());
    }
    while i < ms.len()
        invariant
            i <= ms.len(),
            ms@ == plain_months(rule@, *anchor),
            c@ == pieces(plain_piece(rule@, year as int, *anchor), i as int),
            all_wf(c@),
            p == (|mi: int, d: Date|
                valid_ymd(year as int, plain_months(rule@, *anchor)[mi] as int, anchor.day as int)
                    && d == Date {
                    year: year as i32,
                    month: plain_months(rule@, *anchor)[mi],
                    day: anchor.day,
                }),
            c@.to_set() == picked_upto(p, i as int),
        decreases ms.len() - i,
    {
        let mut more: Vec<Date> = Vec::new();
        if let Some(d) = Date::from_ymd_opt(year, ms[i], anchor.day) {
            more.push(d);
        }
        proof {
            assert(more@.to_set() =~= Set::new(|d: Date| p(i as int, d)));
            let f = plain_piece(rule@, year as int, *anchor);
            assert(f(i as int) =~= more@);
            assert(pieces(f, i + 1) == pieces(f, i as int) + f(i as int));
        }
        let ghost prev = c@;
        extend_dates(&mut c, &more);
        proof {
            lemma_picked_step(prev, c@, more@, p, i as int);
            lemma_all_wf_extend(prev, more@, c@);
        }
        i += 1;
    }
    c
}

/// The candidates of the YEARLY period for `year`.
fn expand_year(rule: &Recurrence, year: i32, anchor: &Date) -> (r: Vec<Date>)
    requires
        anchor.wf(),
    ensures
        r@ == year_seq(rule@, year as int, *anchor),
        all_wf(r@),
        r@.to_set() == year_set(rule@, year as int, *anchor),
{
    let mut cands = yd_dates(rule, year);
    let wn = wn_dates(rule, year);
    let ghost c0 = cands@;
    extend_dates(&mut cands, &wn);
    proof {
        lemma_all_wf_extend(c0, wn@, cands@);
    }
    let third: Vec<Date> = if rule.by_month_day.len() > 0 {
        md_year_dates(rule, year)
    } else if rule.by_day.len() > 0 && rule.by_week_no.len() == 0 {
        bd_year_dates(rule, year)
    } else {
        Vec::new()
    };
    let ghost c1 = cands@;
    extend_dates(&mut cands, &third);
    proof {
        lemma_all_wf_extend(c1, third@, cands@);
    }
    let produced = rule.by_year_day.len() > 0 || rule.by_week_no.len() > 0
        || rule.by_month_day.len() > 0 || rule.by_day.len() > 0;
    let fourth: Vec<Date> = if !produced {
        plain_dates(rule, year, anchor)
    } else {
        Vec::new()
    };
    let ghost c2 = cands@;
    extend_dates(&mut cands, &fourth);
    proof {
        lemma_all_wf_extend(c2, fourth@, cands@);
        assert(cands@.to_set() =~= year_set(rule@, year as int, *anchor));
        assert(cands@ =~= year_seq(rule@, year as int, *anchor));
    }
    cands
}

// ---- BYSETPOS ----

/// BYSETPOS applied to a period's ascending candidates: the picked positions
/// (1-based from the front, negative from the back), ascending and distinct.
pub open spec fn spec_setpos(s: Seq<Date>, setpos: Seq<i16>) -> Seq<Date> {
    if setpos.len() == 0 {
        s
    } else {
        sorted_of(
            Set::new(
                |d: Date|
                    exists|i: int| 0 <= i < setpos.len() && spec_nth(s, #[trigger] setpos[i] as int) == Some(d),
            ),
        )
    }
}

#[verifier::spinoff_prover]
fn apply_setpos(cands: &Vec<Date>, setpos: &Vec<i16>) -> (r: Vec<Date>)
    requires
        increasing(cands@),
    ensures
        increasing(r@),
        r@ == spec_setpos(cands@, setpos@),
        forall|i: int| 0 <= i < r@.len() ==> cands@.contains(#[trigger] r@[i]),
{
    if setpos.len() == 0 {
        return cands.clone();
    }
    let ghost p = |j: int, d: Date| spec_nth(cands@, setpos@[j] as int) == Some(d);
    let mut picked: Vec<Date> = Vec::new();
    let mut i: usize = 0;
    proof {
        lemma_picked_empty(p);
        assert(picked@.to_set() =~= Set::<Date>::empty());
    }
    while i < setpos.len()
        invariant
            i <= setpos.len(),
            increasing(cands@),
            all_wf(picked@),
            forall|k: int| 0 <= k < picked@.len() ==> cands@.contains(#[trigger] picked@[k]),
            p == (|j: int, d: Date| spec_nth(cands@, setpos@[j] as int) == Some(d)),
            picked@.to_set() == picked_upto(p, i as int),
        decreases setpos.len() - i,
    {
        let mut more: Vec<Date> = Vec::new();
        let pos = setpos[i];
        let x: Option<Date> = if pos > 0 {
            if (pos as usize) <= cands.len() {
                Some(cands[(pos - 1) as usize])
            } else {
                None
            }
        } else if pos < 0 && (-(pos as i32)) as usize <= cands.len() {
            Some(cands[cands.len() - ((-(pos as i32)) as usize)])
        } else {
            None
        };
        assert(x == spec_nth(cands@, pos as int));
        if let Some(d) = x {
            more.push(d);
        }
        proof {
            assert(more@.to_set() =~= Set::new(|d: Date| p(i as int, d)));
        }
        let ghost prev = picked@;
        extend_dates(&mut picked, &more);
        proof {
            lemma_picked_step(prev, picked@, more@, p, i as int);
            lemma_all_wf_extend(prev, more@, picked@);
            assert forall|k: int| 0 <= k < picked@.len() implies cands@.contains(#[trigger] picked@[k]) by {
                if k >= prev.len() {
                    assert(picked@[k] == more@[k - prev.len()]);
                    let idx = if pos > 0 { pos - 1 } else { cands@.len() + pos };
                    assert(cands@[idx] == picked@[k]);
                }
            }
        }
        i += 1;
    }
    let r = sort_dedup(&picked);
    proof {
        assert(picked_upto(p, setpos@.len() as int) =~= Set::new(
            |d: Date|
                exists|i: int| 0 <= i < setpos@.len() && spec_nth(cands@, #[trigger] setpos@[i] as int) == Some(d),
        )) by {
            assert forall|d: Date| #![auto] picked_upto(p, setpos@.len() as int).contains(d) implies
                exists|i: int| 0 <= i < setpos@.len() && spec_nth(cands@, #[trigger] setpos@[i] as int) == Some(d) by {
                let j = choose|j: int| 0 <= j < setpos@.len() && #[trigger] p(j, d);
                assert(spec_nth(cands@, setpos@[j] as int) == Some(d));
            }
            assert forall|d: Date| #![auto] (exists|i: int| 0 <= i < setpos@.len() && spec_nth(cands@, #[trigger] setpos@[i] as int) == Some(d)) implies
                picked_upto(p, setpos@.len() as int).contains(d) by {
                let j = choose|j: int| 0 <= j < setpos@.len() && spec_nth(cands@, #[trigger] setpos@[j] as int) == Some(d);
                assert(p(j, d));
            }
        }
    }
    r
}

// ---- periods and the walk over them ----

/// The first day of period `k` (counted from the anchor's period), if it
/// can be formed.
pub open spec fn period_start(r: RuleView, anchor: Date, k: int) -> Option<Date> {
    match r.freq {
        Freq::Daily => spec_add_days(anchor, k * r.interval),
        Freq::Weekly => spec_add_days(spec_week_start(anchor, r.wkst), k * r.interval * 7),
        Freq::Monthly => spec_month_start(anchor, k * r.interval),
        Freq::Yearly => {
            let yr = anchor.year + k * r.interval;
            if MIN_YEAR <= yr <= MAX_YEAR {
                Some(Date { year: yr as i32, month: 1, day: 1 })
            } else {
                None
            }
        },
    }
}

/// The candidates of the period that starts on `ps`.
pub open spec fn period_set(r: RuleView, anchor: Date, ps: Date) -> Set<Date> {
    match r.freq {
        Freq::Daily => if spec_daily_passes(r, ps) {
            set![ps]
        } else {
            Set::empty()
        },
        Freq::Weekly => week_set(r, ps, anchor),
        Freq::Monthly => month_set(r, ps.year as int, ps.month as int, anchor),
        Freq::Yearly => year_set(r, ps.year as int, anchor),
    }
}

/// The dates a period contributes, in order: its candidates from the anchor
/// on, then BYSETPOS.
pub open spec fn period_seq(r: RuleView, anchor: Date, ps: Date) -> Seq<Date> {
    spec_setpos(
        sorted_of(period_set(r, anchor, ps).filter(|d: Date| d.num() >= anchor.num())),
        r.by_set_pos,
    )
}

/// The walk ends at period `k`: it cannot start, or it starts after UNTIL,
/// or (without COUNT) after the end of the window.
pub open spec fn stop_at(r: RuleView, anchor: Date, hi: Date, k: int) -> bool {
    match period_start(r, anchor, k) {
        None => true,
        Some(ps) => (r.until matches Some(u) && ps.num() > u.num()) || (r.count is None && ps.num()
            > hi.num()),
    }
}

/// Periods `0..=k` are all walked.
pub open spec fn running(r: RuleView, anchor: Date, hi: Date, k: nat) -> bool
    decreases k,
{
    !stop_at(r, anchor, hi, k as int) && (k == 0 || running(r, anchor, hi, (k - 1) as nat))
}

/// The dates of the periods walked among the first `k`.
pub open spec fn walked(r: RuleView, anchor: Date, hi: Date, k: nat) -> Seq<Date>
    decreases k,
{
    if k == 0 {
        seq![]
    } else if running(r, anchor, hi, (k - 1) as nat) {
        walked(r, anchor, hi, (k - 1) as nat) + period_seq(
            r,
            anchor,
            period_start(r, anchor, k - 1)->0,
        )
    } else {
        walked(r, anchor, hi, (k - 1) as nat)
    }
}

pub open spec fn past_until(r: RuleView, d: Date) -> bool {
    r.until matches Some(u) && d.num() > u.num()
}

/// How many dates of `s` come before the first one after UNTIL.
pub open spec fn cut(r: RuleView, s: Seq<Date>) -> int
    decreases s.len(),
{
    if s.len() == 0 {
        0
    } else if past_until(r, s[0]) {
        0
    } else {
        1 + cut(r, s.drop_first())
    }
}

pub open spec fn in_window(d: Date, lo: Date, hi: Date) -> bool {
    lo.num() <= d.num() <= hi.num()
}

/// The dates of the walk that are kept: those before the first date after
/// UNTIL, at most COUNT of them, and of these the ones in the window.
pub open spec fn emitted(r: RuleView, s: Seq<Date>, lo: Date, hi: Date) -> Set<Date> {
    let t = cut(r, s);
    let t2 = match r.count {
        Some(c) => if (c as int) < t {
            c as int
        } else {
            t
        },
        None => t,
    };
    s.take(t2).to_set().filter(|d: Date| in_window(d, lo, hi))
}

/// The occurrences of the rule from `anchor`, within `lo..=hi`, ascending.
pub open spec fn spec_occurrences(r: RuleView, anchor: Date, lo: Date, hi: Date) -> Seq<Date> {
    sorted_of(emitted(r, walked(r, anchor, hi, MAX_PERIODS as nat), lo, hi))
}

proof fn lemma_walked_stopped(r: RuleView, anchor: Date, hi: Date, k: nat, j: nat)
    requires
        k <= j,
        k == 0 || !running(r, anchor, hi, (k - 1) as nat) || stop_at(r, anchor, hi, k as int),
        k > 0 ==> running(r, anchor, hi, (k - 1) as nat) ==> stop_at(r, anchor, hi, k as int),
        k == 0 ==> stop_at(r, anchor, hi, 0),
    ensures
        walked(r, anchor, hi, j) == walked(r, anchor, hi, k),
        !running(r, anchor, hi, k),
    decreases j - k,
{
    if j > k {
        lemma_walked_stopped(r, anchor, hi, k, (j - 1) as nat);
        assert(!running(r, anchor, hi, (j - 1) as nat)) by {
            lemma_not_running_later(r, anchor, hi, k, (j - 1) as nat);
        }
    }
}

proof fn lemma_not_running_later(r: RuleView, anchor: Date, hi: Date, k: nat, j: nat)
    requires
        k <= j,
        !running(r, anchor, hi, k),
    ensures
        !running(r, anchor, hi, j),
    decreases j - k,
{
    if j > k {
        lemma_not_running_later(r, anchor, hi, k, (j - 1) as nat);
    }
}

proof fn lemma_walked_prefix(r: RuleView, anchor: Date, hi: Date, k: nat, j: nat)
    requires
        k <= j,
    ensures
        walked(r, anchor, hi, j).len() >= walked(r, anchor, hi, k).len(),
        walked(r, anchor, hi, j).take(walked(r, anchor, hi, k).len() as int) == walked(
            r,
            anchor,
            hi,
            k,
        ),
    decreases j - k,
{
    if j > k {
        lemma_walked_prefix(r, anchor, hi, k, (j - 1) as nat);
        let a = walked(r, anchor, hi, (j - 1) as nat);
        let b = walked(r, anchor, hi, j);
        let n = walked(r, anchor, hi, k).len() as int;
        assert(b.take(a.len() as int) =~= a);
        assert(b.take(n) =~= a.take(n));
    } else {
        assert(walked(r, anchor, hi, j).take(walked(r, anchor, hi, k).len() as int) =~= walked(
            r,
            anchor,
            hi,
            k,
        ));
    }
}

pub proof fn lemma_cut_concat(r: RuleView, a: Seq<Date>, b: Seq<Date>)
    requires
        cut(r, a) == a.len(),
    ensures
        cut(r, a + b) == a.len() + cut(r, b),
    decreases a.len(),
{
    if a.len() > 0 {
        assert((a + b).drop_first() =~= a.drop_first() + b);
        assert((a + b)[0] == a[0]);
        lemma_cut_concat(r, a.drop_first(), b);
    } else {
        assert(a + b =~= b);
    }
}

proof fn lemma_cut_push(r: RuleView, a: Seq<Date>, x: Date)
    requires
        cut(r, a) == a.len(),
    ensures
        cut(r, a.push(x)) == a.len() + (if past_until(r, x) {
            0int
        } else {
            1
        }),
{
    lemma_cut_concat(r, a, seq![x]);
    assert(a.push(x) =~= a + seq![x]);
    assert(seq![x].drop_first() =~= Seq::<Date>::empty());
    assert(cut(r, Seq::<Date>::empty()) == 0);
    assert(seq![x][0] == x);
}

pub proof fn lemma_cut_bound(r: RuleView, s: Seq<Date>)
    ensures
        0 <= cut(r, s) <= s.len(),
        cut(r, s) < s.len() ==> past_until(r, s[cut(r, s)]),
        forall|i: int| 0 <= i < cut(r, s) ==> !past_until(r, #[trigger] s[i]),
    decreases s.len(),
{
    if s.len() > 0 && !past_until(r, s[0]) {
        lemma_cut_bound(r, s.drop_first());
        assert forall|i: int| 0 <= i < cut(r, s) implies !past_until(r, #[trigger] s[i]) by {
            if i > 0 {
                assert(s[i] == s.drop_first()[i - 1]);
            }
        }
    }
}

/// `cut` depends only on the dates up to the first one after UNTIL.
pub proof fn lemma_cut_prefix(r: RuleView, s: Seq<Date>, n: int)
    requires
        0 <= n <= s.len(),
        cut(r, s.take(n)) < n,
    ensures
        cut(r, s) == cut(r, s.take(n)),
    decreases n,
{
    if s.len() > 0 && n > 0 {
        assert(s.take(n)[0] == s[0]);
        if !past_until(r, s[0]) {
            assert(s.take(n).drop_first() =~= s.drop_first().take(n - 1));
            lemma_cut_prefix(r, s.drop_first(), n - 1);
        }
    }
}

proof fn lemma_period_product(k: int, iv: int)
    requires
        0 <= k < MAX_PERIODS,
        0 <= iv <= u32::MAX,
    ensures
        0 <= k * iv <= 400_000 * 0xffff_ffff,
        0 <= k * iv * 7 <= 400_000 * 0xffff_ffff * 7,
{
    assert(0 <= k * iv <= 400_000 * 0xffff_ffff) by (nonlinear_arith)
        requires
            0 <= k < 400_000,
            0 <= iv <= 0xffff_ffff,
    ;
}

/// The start and the candidates of period `k`, if the period can be formed.
fn period_cands(rule: &Recurrence, anchor: &Date, k: u64) -> (r: Option<(Date, Vec<Date>)>)
    requires
        anchor.wf(),
        k < MAX_PERIODS,
    ensures
        match r {
            None => period_start(rule@, *anchor, k as int) is None,
            Some((ps, c)) => period_start(rule@, *anchor, k as int) == Some(ps) && ps.wf() && all_wf(
                c@,
            ) && c@.to_set() == period_set(rule@, *anchor, ps),
        },
{
    proof {
        lemma_period_product(k as int, rule.interval as int);
    }
    let steps: i64 = k as i64 * rule.interval as i64;
    match rule.freq {
        Freq::Daily => {
            let d = add_days(anchor, steps)?;
            let mut c: Vec<Date> = Vec::new();
            if daily_passes(rule, &d) {
                c.push(d);
            }
            proof {
                assert(c@.to_set() =~= period_set(rule@, *anchor, d));
            }
            Some((d, c))
        },
        Freq::Weekly => {
            let ws = week_start(anchor, rule.wkst);
            let ps = add_days(&ws, steps * 7)?;
            let c = expand_week(rule, &ps, anchor);
            Some((ps, c))
        },
        Freq::Monthly => {
            let ps = month_start(anchor, k * rule.interval as u64)?;
            let c = expand_month(rule, ps.year, ps.month, anchor);
            Some((ps, c))
        },
        Freq::Yearly => {
            let yr: i64 = anchor.year as i64 + steps;
            if yr < MIN_YEAR as i64 || yr > MAX_YEAR as i64 {
                return None;
            }
            let ps = Date::from_ymd_opt(yr as i32, 1, 1).unwrap();
            let c = expand_year(rule, yr as i32, anchor);
            Some((ps, c))
        },
    }
}

fn keep_from(cands: &Vec<Date>, anchor: &Date) -> (r: Vec<Date>)
    requires
        all_wf(cands@),
        anchor.wf(),
    ensures
        all_wf(r@),
        r@.to_set() == cands@.to_set().filter(|d: Date| d.num() >= anchor.num()),
{
    let mut out: Vec<Date> = Vec::new();
    let mut i: usize = 0;
    while i < cands.len()
        invariant
            i <= cands.len(),
            all_wf(cands@),
            anchor.wf(),
            all_wf(out@),
            out@.to_set() == cands@.take(i as int).to_set().filter(|d: Date| d.num() >= anchor.num()),
        decreases cands.len() - i,
    {
        let d = cands[i];
        let ghost prev = out@;
        if !d.before(anchor) {
            out.push(d);
            proof {
                prev.lemma_push_to_set_commute(d);
            }
        }
        proof {
            assert(cands@.take(i + 1) =~= cands@.take(i as int).push(d));
            cands@.take(i as int).lemma_push_to_set_commute(d);
            assert(out@.to_set() =~= cands@.take(i + 1).to_set().filter(
                |d: Date| d.num() >= anchor.num(),
            ));
        }
        i += 1;
    }
    proof {
        assert(cands@.take(cands.len() as int) =~= cands@);
    }
    out
}

/// The dates that the period starting on `ps` contributes, in order.
fn period_dates(rule: &Recurrence, anchor: &Date, ps: &Date, cands: &Vec<Date>) -> (r: Vec<Date>)
    requires
        all_wf(cands@),
        anchor.wf(),
        cands@.to_set() == period_set(rule@, *anchor, *ps),
    ensures
        increasing(r@),
        r@ == period_seq(rule@, *anchor, *ps),
        forall|i: int| 0 <= i < r@.len() ==> (#[trigger] r@[i]).num() >= anchor.num(),
{
    let kept = keep_from(cands, anchor);
    let sorted = sort_dedup(&kept);
    let r = apply_setpos(&sorted, &rule.by_set_pos);
    proof {
        assert forall|i: int| 0 <= i < r@.len() implies (#[trigger] r@[i]).num() >= anchor.num() by {
            let x = r@[i];
            assert(sorted@.contains(x));
            assert(kept@.contains(x));
            assert(kept@.to_set().contains(x));
        }
    }
    r
}

pub open spec fn window_set(s: Seq<Date>, lo: Date, hi: Date) -> Set<Date> {
    s.to_set().filter(|d: Date| in_window(d, lo, hi))
}

/// Wraps `RangeInclusive::start`: the first date of the window.
#[verifier::external_body]
pub(crate) fn window_start(w: &RangeInclusive<Date>) -> (r: Date)
    ensures
        r == w@.start,
{
    *w.start()
}

/// Wraps `RangeInclusive::end`: the last date of the window.
#[verifier::external_body]
pub(crate) fn window_end(w: &RangeInclusive<Date>) -> (r: Date)
    ensures
        r == w@.end,
{
    *w.end()
}

/// The occurrences of `rule`, with its phase taken from `anchor`, that fall
/// in `window`, ascending.
pub fn occurrences(rule: &Recurrence, anchor: Date, window: RangeInclusive<Date>) -> (r: Vec<Date>)
    requires
        rule.wf(),
        anchor.wf(),
        window@.start.wf(),
        window@.end.wf(),
    ensures
        increasing(r@),
        r@ == spec_occurrences(rule@, anchor, window@.start, window@.end),
        forall|i: int| 0 <= i < r@.len() ==> in_window(#[trigger] r@[i], window@.start, window@.end),
        forall|i: int| 0 <= i < r@.len() ==> (#[trigger] r@[i]).num() >= anchor.num(),
        forall|i: int| 0 <= i < r@.len() ==> !past_until(rule@, #[trigger] r@[i]),
        rule.count matches Some(c) ==> r@.len() <= c,
        rule.by_month.len() > 0 ==> forall|i: int|
            0 <= i < r@.len() ==> rule.by_month@.contains((#[trigger] r@[i]).month),
        rule.freq != Freq::Yearly && rule.by_day.len() > 0 ==> forall|i: int|
            #![trigger r@[i]]
            0 <= i < r@.len() ==> exists|k: int|
                0 <= k < rule.by_day.len() && (#[trigger] rule.by_day@[k]).weekday
                    == r@[i].spec_weekday(),
        rule.freq != Freq::Yearly && rule.by_month_day.len() > 0 ==> forall|i: int|
            0 <= i < r@.len() ==> super::walk::named_by(rule.by_month_day@, #[trigger] r@[i]),
        rule.freq == Freq::Daily ==> forall|i: int|
            0 <= i < r@.len() ==> ((#[trigger] r@[i]).num() - anchor.num()) % (
            rule.interval as int) == 0,
        rule.freq == Freq::Weekly ==> forall|i: int|
            0 <= i < r@.len() ==> ((#[trigger] r@[i]).num() - spec_week_start(anchor, rule.wkst).num())
                >= 0 && (((r@[i].num() - spec_week_start(anchor, rule.wkst).num()) / 7) % (
            rule.interval as int)) == 0,
        rule.freq == Freq::Weekly && rule.by_day.len() == 0 ==> forall|i: int|
            0 <= i < r@.len() ==> (#[trigger] r@[i]).spec_weekday() == anchor.spec_weekday(),
        rule.freq == Freq::Monthly && rule.by_month_day.len() == 0 && rule.by_day.len() == 0
            ==> forall|i: int| 0 <= i < r@.len() ==> (#[trigger] r@[i]).day == anchor.day,
        rule.freq == Freq::Yearly && rule.by_year_day.len() == 0 && rule.by_week_no.len() == 0
            && rule.by_month_day.len() == 0 && rule.by_day.len() == 0 ==> forall|i: int|
            0 <= i < r@.len() ==> (#[trigger] r@[i]).day == anchor.day && (rule.by_month.len()
                == 0 ==> r@[i].month == anchor.month),
{
    let lo = window_start(&window);
    let hi = window_end(&window);
    let r = occurrences_between(rule, &anchor, &lo, &hi);
    proof {
        if rule.by_month.len() > 0 {
            super::walk::lemma_by_month_holds(rule@, anchor, lo, hi);
        }
        if rule.freq != Freq::Yearly && rule.by_month_day.len() > 0 {
            super::walk::lemma_by_month_day_holds(rule@, anchor, lo, hi);
        }
        if rule.freq != Freq::Yearly && rule.by_day.len() > 0 {
            super::walk::lemma_by_day_holds(rule@, anchor, lo, hi);
        }
        match rule.freq {
            Freq::Daily => super::walk::lemma_daily_steps(rule@, anchor, lo, hi),
            Freq::Weekly => {
                super::walk::lemma_weekly_steps(rule@, anchor, lo, hi);
                if rule.by_day.len() == 0 {
                    super::walk::lemma_weekly_on_anchor_weekday(rule@, anchor, lo, hi);
                }
            },
            Freq::Monthly => if rule.by_month_day.len() == 0 && rule.by_day.len() == 0 {
                super::walk::lemma_monthly_on_anchor_day(rule@, anchor, lo, hi);
            },
            Freq::Yearly => if rule.by_year_day.len() == 0 && rule.by_week_no.len() == 0
                && rule.by_month_day.len() == 0 && rule.by_day.len() == 0 {
                super::walk::lemma_yearly_on_anchor_date(rule@, anchor, lo, hi);
            },
        }
    }
    r
}

#[verifier::spinoff_prover]
fn occurrences_between(rule: &Recurrence, anchor: &Date, lo: &Date, hi: &Date) -> (r: Vec<Date>)
    requires
        rule.wf(),
        anchor.wf(),
        lo.wf(),
        hi.wf(),
    ensures
        increasing(r@),
        r@ == spec_occurrences(rule@, *anchor, *lo, *hi),
        forall|i: int| 0 <= i < r@.len() ==> in_window(#[trigger] r@[i], *lo, *hi),
        forall|i: int| 0 <= i < r@.len() ==> (#[trigger] r@[i]).num() >= anchor.num(),
        forall|i: int| 0 <= i < r@.len() ==> !past_until(rule@, #[trigger] r@[i]),
        rule.count matches Some(c) ==> r@.len() <= c,
{
    let ghost rv = rule@;
    let ghost full = walked(rv, *anchor, *hi, MAX_PERIODS as nat);
    let mut out: Vec<Date> = Vec::new();
    let mut count_seen: u32 = 0;
    let mut k: u64 = 0;
    proof {
        assert(out@.to_set() =~= window_set(walked(rv, *anchor, *hi, 0), *lo, *hi));
    }
    while k < MAX_PERIODS
        invariant
            k <= MAX_PERIODS,
            rule.wf(),
            anchor.wf(),
            lo.wf(),
            hi.wf(),
            rv == rule@,
            full == walked(rv, *anchor, *hi, MAX_PERIODS as nat),
            k > 0 ==> running(rv, *anchor, *hi, (k - 1) as nat),
            all_wf(out@),
            good_dates(rv, out@, *anchor, *lo, *hi),
            rv.count matches Some(c) ==> out@.len() <= count_seen,
            out@.to_set() == window_set(walked(rv, *anchor, *hi, k as nat), *lo, *hi),
            cut(rv, walked(rv, *anchor, *hi, k as nat)) == walked(rv, *anchor, *hi, k as nat).len(),
            rv.count matches Some(c) ==> count_seen == walked(rv, *anchor, *hi, k as nat).len()
                && count_seen <= c,
        decreases MAX_PERIODS - k,
    {
        let ghost w = walked(rv, *anchor, *hi, k as nat);
        let (pstart, cands) = match period_cands(rule, anchor, k) {
            None => {
                proof {
                    lemma_walked_stopped(rv, *anchor, *hi, k as nat, MAX_PERIODS as nat);
                    self::lemma_emitted_all(rv, w, *lo, *hi);
                }
                return sort_dedup(&out);
            },
            Some(p) => p,
        };
        let stop = match rule.until {
            Some(u) => u.before(&pstart),
            None => false,
        } || (rule.count.is_none() && hi.before(&pstart));
        if stop {
            proof {
                lemma_walked_stopped(rv, *anchor, *hi, k as nat, MAX_PERIODS as nat);
                self::lemma_emitted_all(rv, w, *lo, *hi);
            }
            return sort_dedup(&out);
        }
        let ds = period_dates(rule, anchor, &pstart, &cands);
        let ghost next = walked(rv, *anchor, *hi, (k + 1) as nat);
        proof {
            assert(running(rv, *anchor, *hi, k as nat));
            assert(next == w + ds@);
            lemma_walked_prefix(rv, *anchor, *hi, (k + 1) as nat, MAX_PERIODS as nat);
        }
        let mut j: usize = 0;
        while j < ds.len()
            invariant
                j <= ds.len(),
                increasing(ds@),
                rule.wf(),
                lo.wf(),
                hi.wf(),
                rv == rule@,
                next == w + ds@,
                full == walked(rv, *anchor, *hi, MAX_PERIODS as nat),
                full.len() >= next.len(),
                full.take(next.len() as int) == next,
                all_wf(out@),
                anchor.wf(),
                forall|i: int| 0 <= i < ds@.len() ==> (#[trigger] ds@[i]).num() >= anchor.num(),
                good_dates(rv, out@, *anchor, *lo, *hi),
                rv.count matches Some(c) ==> out@.len() <= count_seen,
                out@.to_set() == window_set(w + ds@.take(j as int), *lo, *hi),
                cut(rv, w + ds@.take(j as int)) == w.len() + j,
                rv.count matches Some(c) ==> count_seen == w.len() + j && count_seen <= c,
            decreases ds.len() - j,
        {
            let d = ds[j];
            let ghost before = w + ds@.take(j as int);
            proof {
                assert(w + ds@.take(j + 1) =~= before.push(d));
                assert(next.take(before.len() + 1int) =~= before.push(d));
                assert(full.take(before.len() + 1int) =~= before.push(d));
                assert(before.push(d).take(before.len() as int) =~= before);
                assert(full.take(before.len() as int) =~= before);
            }
            if let Some(u) = rule.until {
                if u.before(&d) {
                    proof {
                        lemma_cut_push(rv, before, d);
                        assert(full.take(before.len() + 1int) =~= before.push(d)) by {
                            assert(next.take(before.len() + 1int) =~= before.push(d));
                        }
                        lemma_cut_prefix(rv, full, before.len() + 1int);
                        assert(before.push(d).take(before.len() as int) =~= before);
                        assert(full.take(before.len() as int) =~= before);
                        self::lemma_emitted_prefix(rv, full, before, *lo, *hi);
                        assert(emitted(rv, full, *lo, *hi) == out@.to_set());
                    }
                    let res = sort_dedup(&out);
                    proof {
                        assert(res@ == sorted_of(out@.to_set()));
                    }
                    return res;
                }
            }
            if let Some(c) = rule.count {
                if count_seen >= c {
                    proof {
                        self::lemma_emitted_count(rv, full, before, *lo, *hi);
                    }
                    return sort_dedup(&out);
                }
                count_seen += 1;
            }
            let ghost prev = out@;
            if !d.before(lo) && !hi.before(&d) {
                out.push(d);
            }
            proof {
                lemma_cut_push(rv, before, d);
                prev.lemma_push_to_set_commute(d);
                before.lemma_push_to_set_commute(d);
                assert(out@.to_set() =~= window_set(before.push(d), *lo, *hi));
            }
            j += 1;
        }
        proof {
            assert(ds@.take(ds.len() as int) =~= ds@);
        }
        if let Some(c) = rule.count {
            if count_seen >= c {
                proof {
                    self::lemma_emitted_count(rv, full, next, *lo, *hi);
                }
                return sort_dedup(&out);
            }
        }
        k += 1;
    }
    proof {
        lemma_emitted_all(rv, walked(rv, *anchor, *hi, MAX_PERIODS as nat), *lo, *hi);
    }
    sort_dedup(&out)
}

/// Every date is in the window, from the anchor on, and not after UNTIL.
pub open spec fn good_dates(r: RuleView, s: Seq<Date>, anchor: Date, lo: Date, hi: Date) -> bool {
    forall|i: int|
        0 <= i < s.len() ==> in_window(#[trigger] s[i], lo, hi) && s[i].num() >= anchor.num()
            && !past_until(r, s[i])
}

/// When the walk holds no date after UNTIL and fewer than COUNT dates, all
/// of it is kept.
proof fn lemma_emitted_all(r: RuleView, s: Seq<Date>, lo: Date, hi: Date)
    requires
        cut(r, s) == s.len(),
        r.count matches Some(c) ==> s.len() <= c,
    ensures
        emitted(r, s, lo, hi) == window_set(s, lo, hi),
{
    assert(s.take(s.len() as int) =~= s);
}

/// The walk goes on past `prefix` only with a date after UNTIL.
proof fn lemma_emitted_prefix(r: RuleView, full: Seq<Date>, prefix: Seq<Date>, lo: Date, hi: Date)
    requires
        prefix.len() < full.len(),
        full.take(prefix.len() as int) == prefix,
        cut(r, full) == prefix.len(),
        r.count matches Some(c) ==> prefix.len() <= c,
    ensures
        emitted(r, full, lo, hi) == window_set(prefix, lo, hi),
{
}

/// COUNT dates were taken with `prefix`, none of them after UNTIL.
proof fn lemma_emitted_count(r: RuleView, full: Seq<Date>, prefix: Seq<Date>, lo: Date, hi: Date)
    requires
        prefix.len() <= full.len(),
        full.take(prefix.len() as int) == prefix,
        cut(r, prefix) == prefix.len(),
        r.count matches Some(c) && prefix.len() == c,
    ensures
        emitted(r, full, lo, hi) == window_set(prefix, lo, hi),
{
    if prefix.len() < full.len() {
        lemma_cut_concat(r, prefix, full.skip(prefix.len() as int));
        assert(full =~= prefix + full.skip(prefix.len() as int));
    } else {
        assert(full =~= prefix);
    }
    lemma_cut_bound(r, full.skip(prefix.len() as int));
}

} // verus!
