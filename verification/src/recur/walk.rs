//! How the walk over periods behaves: each period's dates lie inside the
//! period, so the walk ascends; the end of the window only decides how far
//! it goes; a cap on UNTIL at or after the window's end changes nothing in
//! it; and a COUNT rule has the occurrences of the UNTIL rule that stops at
//! its last counted date.
use super::dates::{
    date_at, days_between, increasing, lemma_date_exists, lemma_days_between_finite,
    lemma_filter_increasing, lemma_sorted_of, lemma_sorted_of_finite, month_weekday_set, sorted_of, spec_nth, spec_resolve_monthday,
    spec_resolve_yearday, spec_week_start, week_no_set, year_weekday_set,
};
use super::engine::{
    plain_months, bd_year_set, in_bydays_month, in_monthdays, md_year_set, month_cand, month_ok, months_of,
    nwd_month_hit, nwd_month_pick, nwd_year_set, period_seq, picked_upto, period_set, period_start, plain_set,
    cut, emitted, in_window, past_until, lemma_cut_bound, lemma_cut_concat, lemma_cut_prefix, running,
    spec_occurrences, spec_setpos, stop_at, walked, MAX_PERIODS,
    wd_filter, year_set, yd_set, wn_set,
};
use super::rule::{Freq, RuleView};
use crate::date::{
    days_before_year, first_day_number, valid_ymd, last_day_number, lemma_day_in_year,
    lemma_days_before_month_values, lemma_days_before_year_monotone, lemma_num_in_range,
    lemma_num_order, year_length, days_in_month, Date, MAX_YEAR, MIN_YEAR,
};
use vstd::prelude::*;

verus! {

broadcast use vstd::seq_lib::group_seq_properties;

// ---- sets of valid dates ----

/// Any set of valid dates is finite.
pub proof fn lemma_wf_dates_finite(s: Set<Date>)
    requires
        forall|d: Date| s.contains(d) ==> d.wf(),
    ensures
        s.finite(),
{
    let all = days_between(first_day_number(), last_day_number() + 1);
    lemma_days_between_finite(first_day_number(), last_day_number() + 1);
    assert forall|d: Date| s.contains(d) implies all.contains(d) by {
        lemma_num_in_range(d);
    }
    vstd::set_lib::lemma_set_subset_finite(all, s);
}

/// `sorted_of` lists a set of valid dates: its members, ascending.
pub proof fn lemma_sorted_wf(s: Set<Date>)
    requires
        forall|d: Date| s.contains(d) ==> d.wf(),
    ensures
        increasing(sorted_of(s)),
        sorted_of(s).to_set() == s,
{
    lemma_wf_dates_finite(s);
    lemma_sorted_of_finite(s);
}

/// A date picked by position from a set of valid dates is one of them.
proof fn lemma_nth_of_set(s: Set<Date>, ord: int, d: Date)
    requires
        forall|x: Date| s.contains(x) ==> x.wf(),
        spec_nth(sorted_of(s), ord) == Some(d),
    ensures
        s.contains(d),
{
    lemma_sorted_wf(s);
    let q = sorted_of(s);
    let i = if ord > 0 {
        ord - 1
    } else {
        q.len() + ord
    };
    assert(q[i] == d);
    assert(q.to_set().contains(d));
}

// ---- each period's candidates lie inside the period ----

/// A candidate of the MONTHLY period for `month` of `year` is a valid day
/// of that month.
proof fn lemma_month_cand_in(r: RuleView, year: int, month: int, anchor: Date, d: Date)
    requires
        month_cand(r, year, month, anchor, d),
    ensures
        d.wf(),
        d.year == year,
        d.month == month,
{
    if r.by_month_day.len() > 0 {
        assert(in_monthdays(r, year, month, d));
        let i = choose|i: int|
            0 <= i < r.by_month_day.len() && spec_resolve_monthday(
                year,
                month,
                #[trigger] r.by_month_day[i] as int,
            ) == Some(d);
    } else if r.by_day.len() > 0 {
        assert(in_bydays_month(r, year, month, d));
        let i = choose|i: int|
            0 <= i < r.by_day.len() && nwd_month_hit(#[trigger] r.by_day[i], year, month, d);
        let n = r.by_day[i];
        if let Some(o) = n.ord {
            lemma_nth_of_set(month_weekday_set(year, month, n.weekday), o as int, d);
        }
    }
}

/// A day that BYYEARDAY names lies in its year.
proof fn lemma_yearday_in(year: int, yd: int, d: Date)
    requires
        spec_resolve_yearday(year, yd) == Some(d),
    ensures
        d.wf(),
        d.year == year,
{
    let len: int = if crate::date::valid_ymd(year, 2, 29) {
        366
    } else {
        365
    };
    assert(len == year_length(year));
    let ord = if yd > 0 {
        yd
    } else {
        len + yd + 1
    };
    let n = days_before_year(year) + ord;
    lemma_days_before_month_values(MIN_YEAR as int);
    lemma_days_before_month_values(MAX_YEAR as int);
    crate::date::lemma_days_before_month_step(MAX_YEAR as int, 12);
    if year > MIN_YEAR {
        lemma_days_before_year_monotone(MIN_YEAR as int, year);
    }
    if year < MAX_YEAR {
        lemma_days_before_year_monotone(year, MAX_YEAR as int);
    }
    assert(first_day_number() <= n <= last_day_number());
    lemma_date_exists(n);
    assert(d == date_at(n));
    lemma_day_in_year(d);
    if d.year < year {
        lemma_days_before_year_monotone(d.year as int, year);
    } else if d.year > year {
        lemma_days_before_year_monotone(year, d.year as int);
    }
}

/// A candidate of the YEARLY period for `year` is a valid day of that year.
proof fn lemma_year_cand_in(r: RuleView, year: int, anchor: Date, d: Date)
    requires
        year_set(r, year, anchor).contains(d),
    ensures
        d.wf(),
        d.year == year,
{
    if yd_set(r, year).contains(d) {
        let j = choose|j: int|
            0 <= j < r.by_year_day.len() && spec_resolve_yearday(
                year,
                #[trigger] r.by_year_day[j] as int,
            ) == Some(d) && month_ok(r, d.month);
        lemma_yearday_in(year, r.by_year_day[j] as int, d);
    } else if wn_set(r, year).contains(d) {
        let j = choose|j: int|
            0 <= j < r.by_week_no.len() && week_no_set(
                year,
                #[trigger] r.by_week_no[j] as int,
            ).contains(d) && wd_filter(r, d) && month_ok(r, d.month);
    } else if r.by_month_day.len() > 0 && md_year_set(r, year).contains(d) {
        let mi = choose|mi: int|
            0 <= mi < months_of(r).len() && in_monthdays(r, year, #[trigger] months_of(r)[mi] as int, d)
                && wd_filter(r, d);
        let m = months_of(r)[mi] as int;
        let i = choose|i: int|
            0 <= i < r.by_month_day.len() && spec_resolve_monthday(
                year,
                m,
                #[trigger] r.by_month_day[i] as int,
            ) == Some(d);
    } else if r.by_month_day.len() == 0 && r.by_day.len() > 0 && r.by_week_no.len() == 0
        && bd_year_set(r, year).contains(d) {
        let j = choose|j: int|
            0 <= j < r.by_day.len() && nwd_year_set(r, #[trigger] r.by_day[j], year).contains(d);
        let n = r.by_day[j];
        if n.ord is Some && r.by_month.len() == 0 {
            lemma_nth_of_set(year_weekday_set(year, n.weekday), n.ord->0 as int, d);
        } else {
            let p = nwd_month_pick(r, n, year);
            let mi = choose|mi: int| 0 <= mi < months_of(r).len() && #[trigger] p(mi, d);
            let m = months_of(r)[mi] as int;
            if let Some(o) = n.ord {
                lemma_nth_of_set(month_weekday_set(year, m, n.weekday), o as int, d);
            }
        }
    } else {
        assert(plain_set(r, year, anchor).contains(d));
    }
}

proof fn lemma_mul_step(j: int, k: int, iv: int)
    requires
        j > k,
        iv >= 1,
    ensures
        j * iv >= k * iv + iv,
        j * iv * 7 >= k * iv * 7 + 7,
{
    assert(j * iv >= k * iv + iv) by (nonlinear_arith)
        requires
            j > k,
            iv >= 1,
    ;
    assert(j * iv * 7 >= k * iv * 7 + 7) by (nonlinear_arith)
        requires
            j * iv >= k * iv + iv,
            iv >= 1,
    ;
}

proof fn lemma_month_index_order(a: int, b: int)
    requires
        a < b,
    ensures
        a / 12 < b / 12 || (a / 12 == b / 12 && a % 12 < b % 12),
{
    vstd::arithmetic::div_mod::lemma_fundamental_div_mod(a, 12);
    vstd::arithmetic::div_mod::lemma_fundamental_div_mod(b, 12);
    vstd::arithmetic::div_mod::lemma_mod_bound(a, 12);
    vstd::arithmetic::div_mod::lemma_mod_bound(b, 12);
    if a / 12 > b / 12 {
        assert(12 * (a / 12) >= 12 * (b / 12) + 12) by (nonlinear_arith)
            requires
                a / 12 > b / 12,
        ;
    }
}

/// Every candidate of period `k` is a valid date on or after the period's
/// first day, and before the first day of every later period.
pub proof fn lemma_period_bounds(r: RuleView, anchor: Date, k: int, x: Date)
    requires
        r.interval >= 1,
        anchor.wf(),
        k >= 0,
        period_start(r, anchor, k) is Some,
        period_set(r, anchor, period_start(r, anchor, k)->0).contains(x),
    ensures
        x.wf(),
        period_start(r, anchor, k)->0.num() <= x.num(),
        forall|j: int|
            j > k && #[trigger] period_start(r, anchor, j) is Some ==> x.num() < period_start(
                r,
                anchor,
                j,
            )->0.num(),
{
    let ps = period_start(r, anchor, k)->0;
    let iv = r.interval as int;
    match r.freq {
        Freq::Daily => {
            lemma_date_exists(anchor.num() + k * iv);
            assert forall|j: int|
                j > k && #[trigger] period_start(r, anchor, j) is Some implies x.num()
                < period_start(r, anchor, j)->0.num() by {
                lemma_date_exists(anchor.num() + j * iv);
                lemma_mul_step(j, k, iv);
            }
        },
        Freq::Weekly => {
            let ws = spec_week_start(anchor, r.wkst);
            lemma_date_exists(ws.num() + k * iv * 7);
            assert forall|j: int|
                j > k && #[trigger] period_start(r, anchor, j) is Some implies x.num()
                < period_start(r, anchor, j)->0.num() by {
                lemma_date_exists(ws.num() + j * iv * 7);
                lemma_mul_step(j, k, iv);
            }
        },
        Freq::Monthly => {
            lemma_month_cand_in(r, ps.year as int, ps.month as int, anchor, x);
            let base = anchor.year * 12 + (anchor.month - 1);
            assert forall|j: int|
                j > k && #[trigger] period_start(r, anchor, j) is Some implies x.num()
                < period_start(r, anchor, j)->0.num() by {
                let q = period_start(r, anchor, j)->0;
                lemma_mul_step(j, k, iv);
                lemma_month_index_order(base + k * iv, base + j * iv);
                vstd::arithmetic::div_mod::lemma_mod_bound(base + j * iv, 12);
                assert(q.wf());
                lemma_num_order(x, q);
            }
        },
        Freq::Yearly => {
            lemma_year_cand_in(r, ps.year as int, anchor, x);
            lemma_days_before_month_values(ps.year as int);
            lemma_day_in_year(x);
            assert forall|j: int|
                j > k && #[trigger] period_start(r, anchor, j) is Some implies x.num()
                < period_start(r, anchor, j)->0.num() by {
                let q = period_start(r, anchor, j)->0;
                lemma_mul_step(j, k, iv);
                assert(q.wf());
                lemma_num_order(x, q);
            }
        },
    }
}


/// BYSETPOS picks, ascending, among the dates it is given.
proof fn lemma_setpos_in(s: Seq<Date>, sp: Seq<i16>)
    requires
        increasing(s),
    ensures
        increasing(spec_setpos(s, sp)),
        forall|i: int| 0 <= i < spec_setpos(s, sp).len() ==> s.contains(#[trigger] spec_setpos(s, sp)[i]),
{
    if sp.len() > 0 {
        let p = Set::new(
            |d: Date| exists|i: int| 0 <= i < sp.len() && spec_nth(s, #[trigger] sp[i] as int) == Some(d),
        );
        assert(spec_setpos(s, sp) == sorted_of(p));
        assert forall|d: Date| p.contains(d) implies s.contains(d) by {
            let i = choose|i: int| 0 <= i < sp.len() && spec_nth(s, #[trigger] sp[i] as int) == Some(d);
            let o = sp[i] as int;
            let idx = if o > 0 {
                o - 1
            } else {
                s.len() + o
            };
            assert(s[idx] == d);
        }
        lemma_sorted_wf(p);
        let q = sorted_of(p);
        assert forall|i: int| 0 <= i < q.len() implies s.contains(#[trigger] q[i]) by {
            assert(q.to_set().contains(q[i]));
        }
    }
}

/// What period `k` contributes: candidates of the period, from the anchor
/// on, ascending.
pub proof fn lemma_period_seq(r: RuleView, anchor: Date, k: int)
    requires
        r.interval >= 1,
        anchor.wf(),
        k >= 0,
        period_start(r, anchor, k) is Some,
    ensures
        increasing(period_seq(r, anchor, period_start(r, anchor, k)->0)),
        forall|i: int|
            0 <= i < period_seq(r, anchor, period_start(r, anchor, k)->0).len() ==> {
                let x = #[trigger] period_seq(r, anchor, period_start(r, anchor, k)->0)[i];
                period_set(r, anchor, period_start(r, anchor, k)->0).contains(x) && x.num()
                    >= anchor.num()
            },
{
    let ps = period_start(r, anchor, k)->0;
    let t = period_set(r, anchor, ps).filter(|d: Date| d.num() >= anchor.num());
    assert forall|d: Date| t.contains(d) implies d.wf() by {
        lemma_period_bounds(r, anchor, k, d);
    }
    lemma_sorted_wf(t);
    let s = sorted_of(t);
    lemma_setpos_in(s, r.by_set_pos);
    let q = period_seq(r, anchor, ps);
    assert forall|i: int| 0 <= i < q.len() implies {
        let x = #[trigger] q[i];
        period_set(r, anchor, ps).contains(x) && x.num() >= anchor.num()
    } by {
        assert(s.contains(q[i]));
        assert(s.to_set().contains(q[i]));
    }
}


/// Later periods start later.
pub proof fn lemma_period_start_mono(r: RuleView, anchor: Date, k: int, j: int)
    requires
        r.interval >= 1,
        anchor.wf(),
        0 <= k < j,
        period_start(r, anchor, k) is Some,
        period_start(r, anchor, j) is Some,
    ensures
        period_start(r, anchor, k)->0.num() < period_start(r, anchor, j)->0.num(),
{
    let iv = r.interval as int;
    let p = period_start(r, anchor, k)->0;
    let q = period_start(r, anchor, j)->0;
    lemma_mul_step(j, k, iv);
    match r.freq {
        Freq::Daily => {
            lemma_date_exists(anchor.num() + k * iv);
            lemma_date_exists(anchor.num() + j * iv);
        },
        Freq::Weekly => {
            let ws = spec_week_start(anchor, r.wkst);
            lemma_date_exists(ws.num() + k * iv * 7);
            lemma_date_exists(ws.num() + j * iv * 7);
        },
        Freq::Monthly => {
            let base = anchor.year * 12 + (anchor.month - 1);
            lemma_month_index_order(base + k * iv, base + j * iv);
            vstd::arithmetic::div_mod::lemma_mod_bound(base + k * iv, 12);
            vstd::arithmetic::div_mod::lemma_mod_bound(base + j * iv, 12);
            assert(p.wf() && q.wf());
            lemma_num_order(p, q);
        },
        Freq::Yearly => {
            assert(p.wf() && q.wf());
            lemma_num_order(p, q);
        },
    }
}

// ---- the walk ----

/// The walk ascends, and what it has gathered before period `k` lies before
/// the start of every period from `k` on.
pub proof fn lemma_walked_ascends(r: RuleView, anchor: Date, hi: Date, k: nat)
    requires
        r.interval >= 1,
        anchor.wf(),
    ensures
        increasing(walked(r, anchor, hi, k)),
        forall|i: int|
            0 <= i < walked(r, anchor, hi, k).len() ==> (#[trigger] walked(r, anchor, hi, k)[i]).num()
                >= anchor.num(),
        forall|i: int, j: int|
            0 <= i < walked(r, anchor, hi, k).len() && j >= k && #[trigger] period_start(
                r,
                anchor,
                j,
            ) is Some ==> (#[trigger] walked(r, anchor, hi, k)[i]).num() < period_start(
                r,
                anchor,
                j,
            )->0.num(),
    decreases k,
{
    if k > 0 {
        let k1 = (k - 1) as nat;
        lemma_walked_ascends(r, anchor, hi, k1);
        if running(r, anchor, hi, k1) {
            let a = walked(r, anchor, hi, k1);
            let ps = period_start(r, anchor, k1 as int)->0;
            let p = period_seq(r, anchor, ps);
            lemma_period_seq(r, anchor, k1 as int);
            let w = a + p;
            assert(w == walked(r, anchor, hi, k));
            assert forall|i: int| 0 <= i < p.len() implies {
                &&& ps.num() <= (#[trigger] p[i]).num()
                &&& forall|j: int|
                    j > k1 && #[trigger] period_start(r, anchor, j) is Some ==> p[i].num()
                        < period_start(r, anchor, j)->0.num()
            } by {
                lemma_period_bounds(r, anchor, k1 as int, p[i]);
            }
            assert forall|i: int| 0 <= i < w.len() implies (#[trigger] w[i]).wf() && w[i].num()
                >= anchor.num() by {
                if i >= a.len() {
                    assert(w[i] == p[i - a.len()]);
                }
            }
            assert forall|i: int, j: int| 0 <= i < j < w.len() implies (#[trigger] w[i]).num() < (
            #[trigger] w[j]).num() by {
                if j >= a.len() && i < a.len() {
                    assert(w[j] == p[j - a.len()]);
                } else if i >= a.len() {
                    assert(w[i] == p[i - a.len()]);
                    assert(w[j] == p[j - a.len()]);
                }
            }
            assert forall|i: int, j: int|
                0 <= i < w.len() && j >= k && #[trigger] period_start(r, anchor, j) is Some implies (
            #[trigger] w[i]).num() < period_start(r, anchor, j)->0.num() by {
                if i >= a.len() {
                    assert(w[i] == p[i - a.len()]);
                } else {
                    assert(w[i] == a[i]);
                }
            }
        }
    }
}

/// Without COUNT, a walk to a later window end walks every period that a
/// walk to an earlier end does.
proof fn lemma_running_later_end(r: RuleView, anchor: Date, hi2: Date, hi: Date, k: nat)
    requires
        r.count is None,
        hi2.num() <= hi.num(),
        running(r, anchor, hi2, k),
    ensures
        running(r, anchor, hi, k),
    decreases k,
{
    if k > 0 {
        lemma_running_later_end(r, anchor, hi2, hi, (k - 1) as nat);
    }
}

/// Without COUNT, a period that only the walk to the later end reaches
/// starts after the earlier end.
proof fn lemma_reached_later(r: RuleView, anchor: Date, hi2: Date, hi: Date, k: nat)
    requires
        r.interval >= 1,
        anchor.wf(),
        r.count is None,
        hi2.num() <= hi.num(),
        !running(r, anchor, hi2, k),
        running(r, anchor, hi, k),
    ensures
        period_start(r, anchor, k as int)->0.num() > hi2.num(),
    decreases k,
{
    assert(!stop_at(r, anchor, hi, k as int));
    if !stop_at(r, anchor, hi2, k as int) {
        let k1 = (k - 1) as nat;
        assert(running(r, anchor, hi, k1));
        assert(!stop_at(r, anchor, hi, k1 as int));
        lemma_reached_later(r, anchor, hi2, hi, k1);
        lemma_period_start_mono(r, anchor, k1 as int, k as int);
    }
}

/// Without COUNT, the walk to a later window end is the walk to the earlier
/// end followed by dates after the earlier end; the two agree while the
/// earlier walk still runs.
pub proof fn lemma_walk_later_end(r: RuleView, anchor: Date, hi2: Date, hi: Date, k: nat)
    requires
        r.interval >= 1,
        anchor.wf(),
        r.count is None,
        hi2.num() <= hi.num(),
    ensures
        walked(r, anchor, hi2, k).len() <= walked(r, anchor, hi, k).len(),
        walked(r, anchor, hi, k).take(walked(r, anchor, hi2, k).len() as int) == walked(
            r,
            anchor,
            hi2,
            k,
        ),
        forall|i: int|
            walked(r, anchor, hi2, k).len() <= i < walked(r, anchor, hi, k).len() ==> (
            #[trigger] walked(r, anchor, hi, k)[i]).num() > hi2.num(),
        k == 0 || running(r, anchor, hi2, (k - 1) as nat) ==> walked(r, anchor, hi, k) == walked(
            r,
            anchor,
            hi2,
            k,
        ),
    decreases k,
{
    let a2 = walked(r, anchor, hi2, k);
    let b = walked(r, anchor, hi, k);
    if k == 0 {
        assert(b.take(0) =~= a2);
    } else {
        let k1 = (k - 1) as nat;
        lemma_walk_later_end(r, anchor, hi2, hi, k1);
        let a0 = walked(r, anchor, hi2, k1);
        let b0 = walked(r, anchor, hi, k1);
        if running(r, anchor, hi2, k1) {
            lemma_running_later_end(r, anchor, hi2, hi, k1);
            assert(b0 == a0);
            assert(b == a2);
            assert(b.take(a2.len() as int) =~= a2);
        } else if running(r, anchor, hi, k1) {
            let ps = period_start(r, anchor, k1 as int)->0;
            let p = period_seq(r, anchor, ps);
            lemma_reached_later(r, anchor, hi2, hi, k1);
            lemma_period_seq(r, anchor, k1 as int);
            assert forall|i: int| 0 <= i < p.len() implies (#[trigger] p[i]).num() > hi2.num() by {
                lemma_period_bounds(r, anchor, k1 as int, p[i]);
            }
            assert(b == b0 + p);
            assert(a2 == a0);
            assert(b.take(a2.len() as int) =~= b0.take(a0.len() as int));
            assert forall|i: int| a2.len() <= i < b.len() implies (#[trigger] b[i]).num()
                > hi2.num() by {
                if i >= b0.len() {
                    assert(b[i] == p[i - b0.len()]);
                } else {
                    assert(b[i] == b0[i]);
                }
            }
            if k1 > 0 {
                assert(!running(r, anchor, hi2, (k1 - 1) as nat) || stop_at(r, anchor, hi2, k1 as int));
            }
        } else {
            assert(b == b0);
            assert(a2 == a0);
        }
    }
}


// ---- what the walk emits ----

/// The members of a filtered run are the members of the run that pass.
pub proof fn lemma_filter_to_set(s: Seq<Date>, p: spec_fn(Date) -> bool)
    ensures
        s.filter(p).to_set() == s.to_set().filter(p),
{
    assert forall|d: Date| s.filter(p).to_set().contains(d) <==> s.to_set().filter(p).contains(d) by {
        if s.filter(p).contains(d) {
            s.lemma_filter_contains_rev(p, d);
            let i = s.filter(p).index_of(d);
            s.lemma_filter_pred(p, i);
        }
        if s.contains(d) && p(d) {
            let j = s.index_of(d);
            s.lemma_filter_contains(p, j);
        }
    }
    assert(s.filter(p).to_set() =~= s.to_set().filter(p));
}

/// Without COUNT, dates after the window's end that follow the walk change
/// nothing in what it emits.
proof fn lemma_emitted_tail(r: RuleView, a: Seq<Date>, b: Seq<Date>, lo: Date, hi: Date)
    requires
        r.count is None,
        a.len() <= b.len(),
        b.take(a.len() as int) == a,
        forall|i: int| a.len() <= i < b.len() ==> (#[trigger] b[i]).num() > hi.num(),
    ensures
        emitted(r, b, lo, hi) == emitted(r, a, lo, hi),
{
    lemma_cut_bound(r, a);
    let n = a.len() as int;
    if cut(r, a) < n {
        lemma_cut_prefix(r, b, n);
        let t = cut(r, a);
        assert(b.take(t) =~= a.take(t));
    } else {
        let e = b.skip(n);
        assert(b =~= a + e);
        lemma_cut_concat(r, a, e);
        let t = cut(r, b);
        lemma_cut_bound(r, b);
        assert(a.take(n) =~= a);
        assert forall|d: Date|
            emitted(r, b, lo, hi).contains(d) <==> emitted(r, a, lo, hi).contains(d) by {
            if emitted(r, b, lo, hi).contains(d) {
                let i = b.take(t).index_of(d);
                assert(b[i] == d);
                if i < n {
                    assert(a[i] == d);
                    assert(a.take(n).contains(d));
                }
            }
            if emitted(r, a, lo, hi).contains(d) {
                let i = a.take(n).index_of(d);
                assert(b.take(t)[i] == d);
                assert(b.take(t).contains(d));
            }
        }
        assert(emitted(r, b, lo, hi) =~= emitted(r, a, lo, hi));
    }
}

/// The occurrences in a window are those of any larger window that fall in
/// it.
pub proof fn lemma_occurrences_window(
    r: RuleView,
    anchor: Date,
    lo: Date,
    hi: Date,
    lo2: Date,
    hi2: Date,
)
    requires
        r.wf(),
        anchor.wf(),
        lo.num() <= lo2.num(),
        hi2.num() <= hi.num(),
    ensures
        spec_occurrences(r, anchor, lo2, hi2) == spec_occurrences(r, anchor, lo, hi).filter(
            |d: Date| in_window(d, lo2, hi2),
        ),
{
    let kk = MAX_PERIODS as nat;
    let a = walked(r, anchor, hi2, kk);
    let b = walked(r, anchor, hi, kk);
    let win2 = |d: Date| in_window(d, lo2, hi2);
    if r.count is None {
        lemma_walk_later_end(r, anchor, hi2, hi, kk);
        lemma_emitted_tail(r, a, b, lo2, hi2);
    } else {
        lemma_count_walk_fixed(r, anchor, hi2, hi, kk);
    }
    let e = emitted(r, b, lo, hi);
    let e2 = emitted(r, b, lo2, hi2);
    assert(e2 =~= e.filter(win2));
    lemma_walked_ascends(r, anchor, hi, kk);
    assert forall|d: Date| e.contains(d) implies d.wf() by {
        let t = kept_count(r, b);
        lemma_cut_bound(r, b);
        assert(b.take(t).to_set().contains(d));
        assert(b.take(t).contains(d));
        let i = b.take(t).index_of(d);
        assert(b.take(t)[i] == d);
        assert(b[i] == d);
    }
    lemma_sorted_wf(e);
    let s = sorted_of(e);
    let f = s.filter(win2);
    lemma_filter_increasing(s, win2);
    lemma_filter_to_set(s, win2);
    assert(f.to_set() =~= e2);
    lemma_sorted_of(f);
}


// ---- UNTIL and COUNT do not shape the periods ----

/// Two rules that differ at most in UNTIL and COUNT, so that they have the
/// same periods.
pub open spec fn same_shape(r1: RuleView, r2: RuleView) -> bool {
    r1 == RuleView { until: r1.until, count: r1.count, ..r2 }
}

proof fn lemma_picked_same(p1: spec_fn(int, Date) -> bool, p2: spec_fn(int, Date) -> bool, n: int)
    requires
        forall|j: int, d: Date| 0 <= j < n ==> #[trigger] p1(j, d) == #[trigger] p2(j, d),
    ensures
        picked_upto(p1, n) == picked_upto(p2, n),
{
    assert forall|d: Date| picked_upto(p1, n).contains(d) <==> picked_upto(p2, n).contains(d) by {
        if picked_upto(p1, n).contains(d) {
            let j = choose|j: int| 0 <= j < n && #[trigger] p1(j, d);
            assert(p2(j, d));
        }
        if picked_upto(p2, n).contains(d) {
            let j = choose|j: int| 0 <= j < n && #[trigger] p2(j, d);
            assert(p1(j, d));
        }
    }
    assert(picked_upto(p1, n) =~= picked_upto(p2, n));
}

proof fn lemma_yd_until(r1: RuleView, r2: RuleView, y: int)
    requires
        same_shape(r1, r2),
    ensures
        yd_set(r1, y) == yd_set(r2, y),
{
    let p1 = |j: int, d: Date|
        spec_resolve_yearday(y, r1.by_year_day[j] as int) == Some(d) && month_ok(r1, d.month);
    let p2 = |j: int, d: Date|
        spec_resolve_yearday(y, r2.by_year_day[j] as int) == Some(d) && month_ok(r2, d.month);
    lemma_picked_same(p1, p2, r1.by_year_day.len() as int);
    assert(yd_set(r1, y) == picked_upto(p1, r1.by_year_day.len() as int));
    assert(yd_set(r2, y) == picked_upto(p2, r2.by_year_day.len() as int));
}

proof fn lemma_wn_until(r1: RuleView, r2: RuleView, y: int)
    requires
        same_shape(r1, r2),
    ensures
        wn_set(r1, y) == wn_set(r2, y),
{
    let p1 = |j: int, d: Date|
        week_no_set(y, r1.by_week_no[j] as int).contains(d) && wd_filter(r1, d) && month_ok(r1, d.month);
    let p2 = |j: int, d: Date|
        week_no_set(y, r2.by_week_no[j] as int).contains(d) && wd_filter(r2, d) && month_ok(r2, d.month);
    lemma_picked_same(p1, p2, r1.by_week_no.len() as int);
    assert(wn_set(r1, y) == picked_upto(p1, r1.by_week_no.len() as int));
    assert(wn_set(r2, y) == picked_upto(p2, r2.by_week_no.len() as int));
}

proof fn lemma_md_until(r1: RuleView, r2: RuleView, y: int)
    requires
        same_shape(r1, r2),
    ensures
        md_year_set(r1, y) == md_year_set(r2, y),
{
    let p1 = |mi: int, d: Date| in_monthdays(r1, y, months_of(r1)[mi] as int, d) && wd_filter(r1, d);
    let p2 = |mi: int, d: Date| in_monthdays(r2, y, months_of(r2)[mi] as int, d) && wd_filter(r2, d);
    assert(months_of(r1) == months_of(r2));
    lemma_picked_same(p1, p2, months_of(r1).len() as int);
    assert(md_year_set(r1, y) == picked_upto(p1, months_of(r1).len() as int));
    assert(md_year_set(r2, y) == picked_upto(p2, months_of(r2).len() as int));
}

proof fn lemma_bd_until(r1: RuleView, r2: RuleView, y: int)
    requires
        same_shape(r1, r2),
    ensures
        bd_year_set(r1, y) == bd_year_set(r2, y),
{
    assert(months_of(r1) == months_of(r2));
    assert forall|j: int| 0 <= j < r1.by_day.len() implies nwd_year_set(r1, #[trigger] r1.by_day[j], y)
        == nwd_year_set(r2, r2.by_day[j], y) by {
        let n = r1.by_day[j];
        lemma_picked_same(nwd_month_pick(r1, n, y), nwd_month_pick(r2, n, y), months_of(r1).len() as int);
    }
    let p1 = |j: int, d: Date| nwd_year_set(r1, r1.by_day[j], y).contains(d);
    let p2 = |j: int, d: Date| nwd_year_set(r2, r2.by_day[j], y).contains(d);
    lemma_picked_same(p1, p2, r1.by_day.len() as int);
    assert(bd_year_set(r1, y) == picked_upto(p1, r1.by_day.len() as int));
    assert(bd_year_set(r2, y) == picked_upto(p2, r2.by_day.len() as int));
}

proof fn lemma_plain_until(r1: RuleView, r2: RuleView, y: int, anchor: Date)
    requires
        same_shape(r1, r2),
    ensures
        plain_set(r1, y, anchor) == plain_set(r2, y, anchor),
{
    assert(plain_set(r1, y, anchor) =~= plain_set(r2, y, anchor));
}

/// A period's candidates do not depend on UNTIL or COUNT.
proof fn lemma_period_set_until(r1: RuleView, r2: RuleView, anchor: Date, ps: Date)
    requires
        same_shape(r1, r2),
    ensures
        period_set(r1, anchor, ps) == period_set(r2, anchor, ps),
{
    let y = ps.year as int;
    match r1.freq {
        Freq::Daily => {},
        Freq::Weekly => {
            assert(period_set(r1, anchor, ps) =~= period_set(r2, anchor, ps));
        },
        Freq::Monthly => {
            assert(period_set(r1, anchor, ps) =~= period_set(r2, anchor, ps));
        },
        Freq::Yearly => {
            lemma_yd_until(r1, r2, y);
            lemma_wn_until(r1, r2, y);
            lemma_md_until(r1, r2, y);
            lemma_bd_until(r1, r2, y);
            lemma_plain_until(r1, r2, y, anchor);
        },
    }
}

/// A period's dates do not depend on UNTIL or COUNT.
pub proof fn lemma_period_seq_until(r1: RuleView, r2: RuleView, anchor: Date, ps: Date)
    requires
        same_shape(r1, r2),
    ensures
        period_seq(r1, anchor, ps) == period_seq(r2, anchor, ps),
{
    lemma_period_set_until(r1, r2, anchor, ps);
}


/// Two rules that differ at most in UNTIL, the first stopping also after
/// `cap`: to a window end no later than `cap`, they walk the same periods.
proof fn lemma_walk_capped(r1: RuleView, r2: RuleView, anchor: Date, hi: Date, cap: Date, k: nat)
    requires
        same_shape(r1, r2),
        r1.count is None,
        r2.count is None,
        forall|x: Date| #[trigger] past_until(r1, x) <==> (past_until(r2, x) || x.num() > cap.num()),
        hi.num() <= cap.num(),
    ensures
        running(r1, anchor, hi, k) == running(r2, anchor, hi, k),
        walked(r1, anchor, hi, k) == walked(r2, anchor, hi, k),
    decreases k,
{
    assert(period_start(r1, anchor, k as int) == period_start(r2, anchor, k as int));
    if let Some(ps) = period_start(r1, anchor, k as int) {
        assert(past_until(r1, ps) == (past_until(r2, ps) || ps.num() > cap.num()));
    }
    assert(stop_at(r1, anchor, hi, k as int) == stop_at(r2, anchor, hi, k as int));
    if k > 0 {
        let k1 = (k - 1) as nat;
        lemma_walk_capped(r1, r2, anchor, hi, cap, k1);
        assert(period_start(r1, anchor, k1 as int) == period_start(r2, anchor, k1 as int));
        lemma_period_seq_until(r1, r2, anchor, period_start(r1, anchor, k1 as int)->0);
    }
}

/// On an ascending walk, stopping also after `cap` changes nothing in a
/// window that ends by `cap`.
proof fn lemma_emitted_capped(r1: RuleView, r2: RuleView, w: Seq<Date>, lo: Date, hi: Date, cap: Date)
    requires
        r1.count is None,
        r2.count is None,
        increasing(w),
        forall|x: Date| #[trigger] past_until(r1, x) <==> (past_until(r2, x) || x.num() > cap.num()),
        hi.num() <= cap.num(),
    ensures
        emitted(r1, w, lo, hi) == emitted(r2, w, lo, hi),
{
    lemma_cut_bound(r1, w);
    lemma_cut_bound(r2, w);
    let c1 = cut(r1, w);
    let c2 = cut(r2, w);
    if c2 < c1 {
        assert(past_until(r2, w[c2]));
        assert(!past_until(r1, w[c2]));
    }
    assert forall|i: int| c1 <= i < c2 implies (#[trigger] w[i]).num() > cap.num() by {
        assert(past_until(r1, w[c1]));
        assert(!past_until(r2, w[c1]));
        if i > c1 {
            assert(w[c1].num() < w[i].num());
        }
    }
    assert forall|d: Date| emitted(r1, w, lo, hi).contains(d) <==> emitted(r2, w, lo, hi).contains(d) by {
        if emitted(r2, w, lo, hi).contains(d) {
            assert(w.take(c2).contains(d));
            let i = w.take(c2).index_of(d);
            assert(w[i] == d);
            if i >= c1 {
                assert(w[i].num() > cap.num());
            }
            assert(w.take(c1)[i] == d);
            assert(w.take(c1).contains(d));
        }
        if emitted(r1, w, lo, hi).contains(d) {
            assert(w.take(c1).contains(d));
            let i = w.take(c1).index_of(d);
            assert(w.take(c2)[i] == d);
            assert(w.take(c2).contains(d));
        }
    }
    assert(emitted(r1, w, lo, hi) =~= emitted(r2, w, lo, hi));
}

/// Without COUNT, a rule that stops also after `cap` has, in a window that
/// ends by `cap`, the occurrences of the rule it was capped from.
pub proof fn lemma_occurrences_capped(
    r1: RuleView,
    r2: RuleView,
    anchor: Date,
    lo: Date,
    hi: Date,
    cap: Date,
)
    requires
        r2.wf(),
        anchor.wf(),
        same_shape(r1, r2),
        r1.count is None,
        r2.count is None,
        forall|x: Date| #[trigger] past_until(r1, x) <==> (past_until(r2, x) || x.num() > cap.num()),
        hi.num() <= cap.num(),
    ensures
        spec_occurrences(r1, anchor, lo, hi) == spec_occurrences(r2, anchor, lo, hi),
{
    let kk = MAX_PERIODS as nat;
    lemma_walk_capped(r1, r2, anchor, hi, cap, kk);
    let w = walked(r2, anchor, hi, kk);
    lemma_walked_ascends(r2, anchor, hi, kk);
    lemma_emitted_capped(r1, r2, w, lo, hi, cap);
}


/// The occurrences ascend and lie in their window.
pub proof fn lemma_occurrences_shape(r: RuleView, anchor: Date, lo: Date, hi: Date)
    requires
        r.wf(),
        anchor.wf(),
    ensures
        increasing(spec_occurrences(r, anchor, lo, hi)),
        forall|i: int|
            0 <= i < spec_occurrences(r, anchor, lo, hi).len() ==> in_window(
                #[trigger] spec_occurrences(r, anchor, lo, hi)[i],
                lo,
                hi,
            ),
{
    let kk = MAX_PERIODS as nat;
    let b = walked(r, anchor, hi, kk);
    let e = emitted(r, b, lo, hi);
    lemma_walked_ascends(r, anchor, hi, kk);
    lemma_cut_bound(r, b);
    assert forall|d: Date| e.contains(d) implies d.wf() by {
        let t = match r.count {
            Some(c) => if (c as int) < cut(r, b) {
                c as int
            } else {
                cut(r, b)
            },
            None => cut(r, b),
        };
        assert(b.take(t).to_set().contains(d));
        assert(b.take(t).contains(d));
        let i = b.take(t).index_of(d);
        assert(b.take(t)[i] == d);
        assert(b[i] == d);
    }
    lemma_sorted_wf(e);
    let q = sorted_of(e);
    assert forall|i: int| 0 <= i < q.len() implies in_window(#[trigger] q[i], lo, hi) by {
        assert(q.to_set().contains(q[i]));
    }
}


/// Every date the walk gathers is a candidate of one of its periods: the
/// date at `i` comes from period `j`.
proof fn lemma_walked_period(r: RuleView, anchor: Date, hi: Date, k: nat, i: int) -> (j: int)
    requires
        r.interval >= 1,
        anchor.wf(),
        0 <= i < walked(r, anchor, hi, k).len(),
    ensures
        0 <= j < k,
        period_start(r, anchor, j) is Some,
        period_set(r, anchor, period_start(r, anchor, j)->0).contains(walked(r, anchor, hi, k)[i]),
    decreases k,
{
    if k == 0 {
        assert(walked(r, anchor, hi, k).len() == 0);
        0
    } else {
        let k1 = (k - 1) as nat;
        if running(r, anchor, hi, k1) {
            let a = walked(r, anchor, hi, k1);
            let ps = period_start(r, anchor, k1 as int)->0;
            let p = period_seq(r, anchor, ps);
            assert(walked(r, anchor, hi, k) == a + p);
            if i < a.len() {
                assert(walked(r, anchor, hi, k)[i] == a[i]);
                lemma_walked_period(r, anchor, hi, k1, i)
            } else {
                lemma_period_seq(r, anchor, k1 as int);
                assert(walked(r, anchor, hi, k)[i] == p[i - a.len()]);
                k1 as int
            }
        } else {
            assert(walked(r, anchor, hi, k) == walked(r, anchor, hi, k1));
            lemma_walked_period(r, anchor, hi, k1, i)
        }
    }
}

/// Every occurrence is a candidate of one of the rule's periods, from the
/// anchor on.
pub proof fn lemma_occurrence_in_period(r: RuleView, anchor: Date, lo: Date, hi: Date, d: Date)
    requires
        r.wf(),
        anchor.wf(),
        spec_occurrences(r, anchor, lo, hi).contains(d),
    ensures
        exists|j: int|
            0 <= j && period_start(r, anchor, j) is Some && #[trigger] period_set(
                r,
                anchor,
                period_start(r, anchor, j)->0,
            ).contains(d),
{
    let kk = MAX_PERIODS as nat;
    let b = walked(r, anchor, hi, kk);
    let e = emitted(r, b, lo, hi);
    lemma_walked_ascends(r, anchor, hi, kk);
    lemma_cut_bound(r, b);
    let t = match r.count {
        Some(c) => if (c as int) < cut(r, b) {
            c as int
        } else {
            cut(r, b)
        },
        None => cut(r, b),
    };
    assert forall|x: Date| e.contains(x) implies b.contains(x) by {
        assert(b.take(t).to_set().contains(x));
        assert(b.take(t).contains(x));
        let i = b.take(t).index_of(x);
        assert(b.take(t)[i] == x);
        assert(b[i] == x);
    }
    assert forall|x: Date| e.contains(x) implies x.wf() by {
        let i = b.index_of(x);
        assert(b[i] == x);
    }
    lemma_sorted_wf(e);
    assert(sorted_of(e).to_set().contains(d));
    assert(b.contains(d));
    let i = b.index_of(d);
    assert(b[i] == d);
    let j = lemma_walked_period(r, anchor, hi, kk, i);
    assert(period_set(r, anchor, period_start(r, anchor, j)->0).contains(d));
}

/// A WEEKLY rule without BYDAY falls on the anchor's weekday: every
/// occurrence, in any window, has the weekday of the anchor.
pub proof fn lemma_weekly_on_anchor_weekday(r: RuleView, anchor: Date, lo: Date, hi: Date)
    requires
        r.wf(),
        anchor.wf(),
        r.freq == Freq::Weekly,
        r.by_day.len() == 0,
    ensures
        forall|i: int|
            0 <= i < spec_occurrences(r, anchor, lo, hi).len() ==> (
            #[trigger] spec_occurrences(r, anchor, lo, hi)[i]).spec_weekday()
                == anchor.spec_weekday(),
{
    let q = spec_occurrences(r, anchor, lo, hi);
    assert forall|i: int| 0 <= i < q.len() implies (#[trigger] q[i]).spec_weekday()
        == anchor.spec_weekday() by {
        assert(q.contains(q[i]));
        lemma_occurrence_in_period(r, anchor, lo, hi, q[i]);
    }
}

/// A DAILY rule steps by its interval: every occurrence lies a whole
/// number of intervals on from the anchor.
pub proof fn lemma_daily_steps(r: RuleView, anchor: Date, lo: Date, hi: Date)
    requires
        r.wf(),
        anchor.wf(),
        r.freq == Freq::Daily,
    ensures
        forall|i: int|
            0 <= i < spec_occurrences(r, anchor, lo, hi).len() ==> {
                &&& (#[trigger] spec_occurrences(r, anchor, lo, hi)[i]).num() >= anchor.num()
                &&& (spec_occurrences(r, anchor, lo, hi)[i].num() - anchor.num()) % (
                r.interval as int) == 0
            },
{
    let q = spec_occurrences(r, anchor, lo, hi);
    assert forall|i: int| 0 <= i < q.len() implies {
        &&& (#[trigger] q[i]).num() >= anchor.num()
        &&& (q[i].num() - anchor.num()) % (r.interval as int) == 0
    } by {
        assert(q.contains(q[i]));
        lemma_occurrence_in_period(r, anchor, lo, hi, q[i]);
        let j = choose|j: int|
            0 <= j && period_start(r, anchor, j) is Some && #[trigger] period_set(
                r,
                anchor,
                period_start(r, anchor, j)->0,
            ).contains(q[i]);
        let n = j * r.interval;
        assert(j * r.interval >= 0) by (nonlinear_arith)
            requires
                j >= 0,
                r.interval >= 1,
        ;
        lemma_date_exists(anchor.num() + n);
        assert(q[i].num() == anchor.num() + n);
        vstd::arithmetic::div_mod::lemma_mod_multiples_basic(j, r.interval as int);
    }
}

/// A WEEKLY rule steps by its interval in weeks: every occurrence lies in
/// a week (from the week start `WKST` of the anchor's week) a whole number
/// of intervals on.
pub proof fn lemma_weekly_steps(r: RuleView, anchor: Date, lo: Date, hi: Date)
    requires
        r.wf(),
        anchor.wf(),
        r.freq == Freq::Weekly,
    ensures
        forall|i: int|
            0 <= i < spec_occurrences(r, anchor, lo, hi).len() ==> {
                let off = (#[trigger] spec_occurrences(r, anchor, lo, hi)[i]).num() - spec_week_start(
                    anchor,
                    r.wkst,
                ).num();
                off >= 0 && (off / 7) % (r.interval as int) == 0
            },
{
    let q = spec_occurrences(r, anchor, lo, hi);
    let ws = spec_week_start(anchor, r.wkst);
    assert forall|i: int| 0 <= i < q.len() implies {
        let off = (#[trigger] q[i]).num() - ws.num();
        off >= 0 && (off / 7) % (r.interval as int) == 0
    } by {
        assert(q.contains(q[i]));
        lemma_occurrence_in_period(r, anchor, lo, hi, q[i]);
        let j = choose|j: int|
            0 <= j && period_start(r, anchor, j) is Some && #[trigger] period_set(
                r,
                anchor,
                period_start(r, anchor, j)->0,
            ).contains(q[i]);
        let ps = period_start(r, anchor, j)->0;
        let m = j * r.interval;
        assert(j * r.interval >= 0) by (nonlinear_arith)
            requires
                j >= 0,
                r.interval >= 1,
        ;
        assert(j * r.interval * 7 == m * 7) by (nonlinear_arith)
            requires
                m == j * r.interval,
        ;
        lemma_date_exists(ws.num() + m * 7);
        assert(ps.num() == ws.num() + m * 7);
        let off = q[i].num() - ws.num();
        let t = off - m * 7;
        assert(0 <= t < 7);
        vstd::arithmetic::div_mod::lemma_fundamental_div_mod_converse(off, 7, m, t);
        vstd::arithmetic::div_mod::lemma_mod_multiples_basic(j, r.interval as int);
    }
}

/// A MONTHLY rule without BYMONTHDAY and BYDAY falls on the anchor's day
/// of the month.
pub proof fn lemma_monthly_on_anchor_day(r: RuleView, anchor: Date, lo: Date, hi: Date)
    requires
        r.wf(),
        anchor.wf(),
        r.freq == Freq::Monthly,
        r.by_month_day.len() == 0,
        r.by_day.len() == 0,
    ensures
        forall|i: int|
            0 <= i < spec_occurrences(r, anchor, lo, hi).len() ==> (
            #[trigger] spec_occurrences(r, anchor, lo, hi)[i]).day == anchor.day,
{
    let q = spec_occurrences(r, anchor, lo, hi);
    assert forall|i: int| 0 <= i < q.len() implies (#[trigger] q[i]).day == anchor.day by {
        assert(q.contains(q[i]));
        lemma_occurrence_in_period(r, anchor, lo, hi, q[i]);
    }
}

/// A YEARLY rule with none of BYYEARDAY, BYWEEKNO, BYMONTHDAY and BYDAY
/// falls on the anchor's day of the month, and, without BYMONTH, in the
/// anchor's month.
pub proof fn lemma_yearly_on_anchor_date(r: RuleView, anchor: Date, lo: Date, hi: Date)
    requires
        r.wf(),
        anchor.wf(),
        r.freq == Freq::Yearly,
        r.by_year_day.len() == 0,
        r.by_week_no.len() == 0,
        r.by_month_day.len() == 0,
        r.by_day.len() == 0,
    ensures
        forall|i: int|
            0 <= i < spec_occurrences(r, anchor, lo, hi).len() ==> {
                &&& (#[trigger] spec_occurrences(r, anchor, lo, hi)[i]).day == anchor.day
                &&& r.by_month.len() == 0 ==> spec_occurrences(r, anchor, lo, hi)[i].month
                    == anchor.month
            },
{
    let q = spec_occurrences(r, anchor, lo, hi);
    assert forall|i: int| 0 <= i < q.len() implies {
        &&& (#[trigger] q[i]).day == anchor.day
        &&& r.by_month.len() == 0 ==> q[i].month == anchor.month
    } by {
        assert(q.contains(q[i]));
        lemma_occurrence_in_period(r, anchor, lo, hi, q[i]);
        let j = choose|j: int|
            0 <= j && period_start(r, anchor, j) is Some && #[trigger] period_set(
                r,
                anchor,
                period_start(r, anchor, j)->0,
            ).contains(q[i]);
        let ps = period_start(r, anchor, j)->0;
        assert(year_set(r, ps.year as int, anchor).contains(q[i]));
        assert(yd_set(r, ps.year as int).contains(q[i]) == false);
        assert(wn_set(r, ps.year as int).contains(q[i]) == false);
        assert(plain_set(r, ps.year as int, anchor).contains(q[i]));
    }
}

/// A candidate of a YEARLY period lies in one of the BYMONTH months, where
/// BYMONTH is given.
proof fn lemma_year_cand_month(r: RuleView, year: int, anchor: Date, d: Date)
    requires
        year_set(r, year, anchor).contains(d),
        r.by_month.len() > 0,
    ensures
        r.by_month.contains(d.month),
{
    if yd_set(r, year).contains(d) {
        let j = choose|j: int|
            0 <= j < r.by_year_day.len() && spec_resolve_yearday(
                year,
                #[trigger] r.by_year_day[j] as int,
            ) == Some(d) && month_ok(r, d.month);
    } else if wn_set(r, year).contains(d) {
        let j = choose|j: int|
            0 <= j < r.by_week_no.len() && week_no_set(
                year,
                #[trigger] r.by_week_no[j] as int,
            ).contains(d) && wd_filter(r, d) && month_ok(r, d.month);
    } else if r.by_month_day.len() > 0 && md_year_set(r, year).contains(d) {
        let mi = choose|mi: int|
            0 <= mi < months_of(r).len() && in_monthdays(r, year, #[trigger] months_of(r)[mi] as int, d)
                && wd_filter(r, d);
        let m = months_of(r)[mi] as int;
        let i = choose|i: int|
            0 <= i < r.by_month_day.len() && spec_resolve_monthday(
                year,
                m,
                #[trigger] r.by_month_day[i] as int,
            ) == Some(d);
        assert(d.month == r.by_month[mi]);
    } else if r.by_month_day.len() == 0 && r.by_day.len() > 0 && r.by_week_no.len() == 0
        && bd_year_set(r, year).contains(d) {
        let j = choose|j: int|
            0 <= j < r.by_day.len() && nwd_year_set(r, #[trigger] r.by_day[j], year).contains(d);
        let n = r.by_day[j];
        let p = nwd_month_pick(r, n, year);
        let mi = choose|mi: int| 0 <= mi < months_of(r).len() && #[trigger] p(mi, d);
        let m = months_of(r)[mi] as int;
        if let Some(o) = n.ord {
            lemma_nth_of_set(month_weekday_set(year, m, n.weekday), o as int, d);
        }
        assert(d.month == r.by_month[mi]);
    } else {
        assert(plain_set(r, year, anchor).contains(d));
        let mi = choose|mi: int|
            0 <= mi < plain_months(r, anchor).len() && valid_ymd(
                year,
                #[trigger] plain_months(r, anchor)[mi] as int,
                anchor.day as int,
            ) && d == Date { year: year as i32, month: plain_months(r, anchor)[mi], day: anchor.day };
        assert(d.month == r.by_month[mi]);
    }
}

/// A candidate of any period lies in one of the BYMONTH months, where
/// BYMONTH is given.
proof fn lemma_period_cand_month(r: RuleView, anchor: Date, ps: Date, d: Date)
    requires
        period_set(r, anchor, ps).contains(d),
        r.by_month.len() > 0,
    ensures
        r.by_month.contains(d.month),
{
    match r.freq {
        Freq::Daily => {
            assert(d == ps);
        },
        Freq::Weekly => {},
        Freq::Monthly => {
            lemma_month_cand_in(r, ps.year as int, ps.month as int, anchor, d);
        },
        Freq::Yearly => {
            lemma_year_cand_month(r, ps.year as int, anchor, d);
        },
    }
}

/// Where BYMONTH is given, every occurrence lies in one of its months,
/// whatever the frequency.
pub proof fn lemma_by_month_holds(r: RuleView, anchor: Date, lo: Date, hi: Date)
    requires
        r.wf(),
        anchor.wf(),
        r.by_month.len() > 0,
    ensures
        forall|i: int|
            0 <= i < spec_occurrences(r, anchor, lo, hi).len() ==> r.by_month.contains(
                (#[trigger] spec_occurrences(r, anchor, lo, hi)[i]).month,
            ),
{
    let q = spec_occurrences(r, anchor, lo, hi);
    assert forall|i: int| 0 <= i < q.len() implies r.by_month.contains((#[trigger] q[i]).month) by {
        let d = q[i];
        assert(q.contains(d));
        lemma_occurrence_in_period(r, anchor, lo, hi, d);
        let j = choose|j: int|
            0 <= j && period_start(r, anchor, j) is Some && #[trigger] period_set(
                r,
                anchor,
                period_start(r, anchor, j)->0,
            ).contains(d);
        lemma_period_cand_month(r, anchor, period_start(r, anchor, j)->0, d);
    }
}

/// The day `md` of BYMONTHDAY names in `d`'s month: day `md` counted from
/// the first, or for a negative `md` from the last (`-1` is the last day).
pub open spec fn names_day(md: int, d: Date) -> bool {
    ||| md > 0 && d.day == md
    ||| md < 0 && !(d.year == MAX_YEAR && d.month == 12) && d.day == days_in_month(
        d.year as int,
        d.month as int,
    ) + md + 1
    ||| md < 0 && d.year == MAX_YEAR && d.month == 12 && d.day == 28 + md + 1
}

/// Some value of the list names `d`'s day.
pub open spec fn named_by(list: Seq<i8>, d: Date) -> bool {
    exists|k: int| 0 <= k < list.len() && names_day(#[trigger] list[k] as int, d)
}

proof fn lemma_resolved_names(year: int, month: int, md: int, d: Date)
    requires
        spec_resolve_monthday(year, month, md) == Some(d),
    ensures
        names_day(md, d),
        d.year == year,
        d.month == month,
{
}

/// Where BYMONTHDAY is given, a DAILY, WEEKLY or MONTHLY rule falls only on
/// the days it names.
pub proof fn lemma_by_month_day_holds(r: RuleView, anchor: Date, lo: Date, hi: Date)
    requires
        r.wf(),
        anchor.wf(),
        r.freq != Freq::Yearly,
        r.by_month_day.len() > 0,
    ensures
        forall|i: int|
            0 <= i < spec_occurrences(r, anchor, lo, hi).len() ==> named_by(
                r.by_month_day,
                #[trigger] spec_occurrences(r, anchor, lo, hi)[i],
            ),
{
    let q = spec_occurrences(r, anchor, lo, hi);
    assert forall|i: int| 0 <= i < q.len() implies named_by(r.by_month_day, #[trigger] q[i]) by {
        let d = q[i];
        assert(q.contains(d));
        lemma_occurrence_in_period(r, anchor, lo, hi, d);
        let j = choose|j: int|
            0 <= j && period_start(r, anchor, j) is Some && #[trigger] period_set(
                r,
                anchor,
                period_start(r, anchor, j)->0,
            ).contains(d);
        let ps = period_start(r, anchor, j)->0;
        let (y, m) = if r.freq == Freq::Monthly {
            (ps.year as int, ps.month as int)
        } else {
            (d.year as int, d.month as int)
        };
        if r.freq == Freq::Daily {
            assert(d == ps);
        }
        assert(in_monthdays(r, y, m, d));
        let k = choose|k: int|
            0 <= k < r.by_month_day.len() && spec_resolve_monthday(
                y,
                m,
                #[trigger] r.by_month_day[k] as int,
            ) == Some(d);
        lemma_resolved_names(y, m, r.by_month_day[k] as int, d);
    }
}

/// Where BYDAY is given, a DAILY, WEEKLY or MONTHLY rule falls only on its
/// weekdays.
pub proof fn lemma_by_day_holds(r: RuleView, anchor: Date, lo: Date, hi: Date)
    requires
        r.wf(),
        anchor.wf(),
        r.freq != Freq::Yearly,
        r.by_day.len() > 0,
    ensures
        forall|i: int|
            #![trigger spec_occurrences(r, anchor, lo, hi)[i]]
            0 <= i < spec_occurrences(r, anchor, lo, hi).len() ==> exists|k: int|
                0 <= k < r.by_day.len() && (#[trigger] r.by_day[k]).weekday == spec_occurrences(
                    r,
                    anchor,
                    lo,
                    hi,
                )[i].spec_weekday(),
{
    let q = spec_occurrences(r, anchor, lo, hi);
    assert forall|i: int| #![trigger q[i]] 0 <= i < q.len() implies exists|k: int|
        0 <= k < r.by_day.len() && (#[trigger] r.by_day[k]).weekday == q[i].spec_weekday() by {
        let d = q[i];
        assert(q.contains(d));
        lemma_occurrence_in_period(r, anchor, lo, hi, d);
        let j = choose|j: int|
            0 <= j && period_start(r, anchor, j) is Some && #[trigger] period_set(
                r,
                anchor,
                period_start(r, anchor, j)->0,
            ).contains(d);
        let ps = period_start(r, anchor, j)->0;
        match r.freq {
            Freq::Daily => {
                assert(d == ps);
            },
            Freq::Weekly => {},
            Freq::Monthly => {
                let (y, m) = (ps.year as int, ps.month as int);
                if r.by_month_day.len() == 0 {
                    assert(in_bydays_month(r, y, m, d));
                    let k = choose|k: int|
                        0 <= k < r.by_day.len() && nwd_month_hit(#[trigger] r.by_day[k], y, m, d);
                    let n = r.by_day[k];
                    if let Some(o) = n.ord {
                        lemma_nth_of_set(month_weekday_set(y, m, n.weekday), o as int, d);
                    }
                    assert(r.by_day[k].weekday == d.spec_weekday());
                }
            },
            Freq::Yearly => {},
        }
    }
}

// ---- COUNT turned into UNTIL ----

/// With COUNT the walk does not depend on the window's end.
pub proof fn lemma_count_walk_fixed(r: RuleView, anchor: Date, hi1: Date, hi2: Date, k: nat)
    requires
        r.count is Some,
    ensures
        running(r, anchor, hi1, k) == running(r, anchor, hi2, k),
        walked(r, anchor, hi1, k) == walked(r, anchor, hi2, k),
    decreases k,
{
    assert(stop_at(r, anchor, hi1, k as int) == stop_at(r, anchor, hi2, k as int));
    if k > 0 {
        lemma_count_walk_fixed(r, anchor, hi1, hi2, (k - 1) as nat);
    }
}

/// A period that a COUNT rule reaches and a rule of its shape without COUNT
/// (stopping wherever the first one stops) does not, starts past the
/// latter's UNTIL or window end.
proof fn lemma_reached_by_count(r1: RuleView, r2: RuleView, anchor: Date, hi1: Date, hi2: Date, k: nat)
    requires
        r1.interval >= 1,
        anchor.wf(),
        same_shape(r1, r2),
        r1.count is None,
        r2.count is Some,
        forall|x: Date| #[trigger] past_until(r2, x) ==> past_until(r1, x),
        !running(r1, anchor, hi1, k),
        running(r2, anchor, hi2, k),
    ensures
        past_until(r1, period_start(r1, anchor, k as int)->0) || period_start(r1, anchor, k as int)->0.num()
            > hi1.num(),
    decreases k,
{
    assert(period_start(r1, anchor, k as int) == period_start(r2, anchor, k as int));
    assert(!stop_at(r2, anchor, hi2, k as int));
    if !stop_at(r1, anchor, hi1, k as int) {
        let k1 = (k - 1) as nat;
        assert(running(r2, anchor, hi2, k1));
        lemma_reached_by_count(r1, r2, anchor, hi1, hi2, k1);
        assert(period_start(r1, anchor, k1 as int) == period_start(r2, anchor, k1 as int));
        assert(!stop_at(r2, anchor, hi2, k1 as int));
        lemma_period_start_mono(r1, anchor, k1 as int, k as int);
    }
}

/// A rule without COUNT that stops wherever a COUNT rule of its shape stops
/// runs only while the latter does.
proof fn lemma_running_sub(r1: RuleView, r2: RuleView, anchor: Date, hi1: Date, hi2: Date, k: nat)
    requires
        same_shape(r1, r2),
        r1.count is None,
        r2.count is Some,
        forall|x: Date| #[trigger] past_until(r2, x) ==> past_until(r1, x),
        running(r1, anchor, hi1, k),
    ensures
        running(r2, anchor, hi2, k),
    decreases k,
{
    assert(period_start(r1, anchor, k as int) == period_start(r2, anchor, k as int));
    let ps = period_start(r1, anchor, k as int)->0;
    assert(past_until(r2, ps) ==> past_until(r1, ps));
    if k > 0 {
        lemma_running_sub(r1, r2, anchor, hi1, hi2, (k - 1) as nat);
    }
}

/// A rule without COUNT that stops wherever a COUNT rule of its shape stops
/// walks a first part of the latter's walk; what follows is past its UNTIL
/// or its window's end.
proof fn lemma_walk_sub(r1: RuleView, r2: RuleView, anchor: Date, hi1: Date, hi2: Date, k: nat)
    requires
        r1.interval >= 1,
        anchor.wf(),
        same_shape(r1, r2),
        r1.count is None,
        r2.count is Some,
        forall|x: Date| #[trigger] past_until(r2, x) ==> past_until(r1, x),
    ensures
        walked(r1, anchor, hi1, k).len() <= walked(r2, anchor, hi2, k).len(),
        walked(r2, anchor, hi2, k).take(walked(r1, anchor, hi1, k).len() as int) == walked(
            r1,
            anchor,
            hi1,
            k,
        ),
        forall|i: int|
            walked(r1, anchor, hi1, k).len() <= i < walked(r2, anchor, hi2, k).len() ==> past_until(
                r1,
                #[trigger] walked(r2, anchor, hi2, k)[i],
            ) || walked(r2, anchor, hi2, k)[i].num() > hi1.num(),
        k == 0 || running(r1, anchor, hi1, (k - 1) as nat) ==> walked(r1, anchor, hi1, k) == walked(
            r2,
            anchor,
            hi2,
            k,
        ),
    decreases k,
{
    let a1 = walked(r1, anchor, hi1, k);
    let b = walked(r2, anchor, hi2, k);
    if k == 0 {
        assert(b.take(0) =~= a1);
    } else {
        let k1 = (k - 1) as nat;
        lemma_walk_sub(r1, r2, anchor, hi1, hi2, k1);
        let a0 = walked(r1, anchor, hi1, k1);
        let b0 = walked(r2, anchor, hi2, k1);
        assert(period_start(r1, anchor, k1 as int) == period_start(r2, anchor, k1 as int));
        let ps = period_start(r1, anchor, k1 as int)->0;
        if running(r1, anchor, hi1, k1) {
            assert(!stop_at(r1, anchor, hi1, k1 as int));
            assert(past_until(r2, ps) ==> past_until(r1, ps));
            assert(!stop_at(r2, anchor, hi2, k1 as int));
            lemma_running_sub(r1, r2, anchor, hi1, hi2, k1);
            lemma_period_seq_until(r1, r2, anchor, ps);
            assert(b == a1);
            assert(b.take(a1.len() as int) =~= a1);
        } else if running(r2, anchor, hi2, k1) {
            let p = period_seq(r2, anchor, ps);
            lemma_reached_by_count(r1, r2, anchor, hi1, hi2, k1);
            lemma_period_seq(r2, anchor, k1 as int);
            assert forall|i: int| 0 <= i < p.len() implies past_until(r1, #[trigger] p[i]) || p[i].num()
                > hi1.num() by {
                lemma_period_bounds(r2, anchor, k1 as int, p[i]);
            }
            assert(b == b0 + p);
            assert(a1 == a0);
            assert(b.take(a1.len() as int) =~= b0.take(a0.len() as int));
            assert forall|i: int| a1.len() <= i < b.len() implies past_until(r1, #[trigger] b[i])
                || b[i].num() > hi1.num() by {
                if i >= b0.len() {
                    assert(b[i] == p[i - b0.len()]);
                } else {
                    assert(b[i] == b0[i]);
                }
            }
        } else {
            assert(b == b0);
            assert(a1 == a0);
        }
    }
}

/// How many dates of the walk `s` a rule keeps: those before the first one
/// after UNTIL, and at most COUNT of them.
pub open spec fn kept_count(r: RuleView, s: Seq<Date>) -> int {
    match r.count {
        Some(c) => if (c as int) < cut(r, s) {
            c as int
        } else {
            cut(r, s)
        },
        None => cut(r, s),
    }
}

/// `r1` is the rule without COUNT that stops after the last date that the
/// COUNT rule `r` keeps (or, if it keeps none, at its UNTIL).
pub open spec fn until_at_last(r: RuleView, r1: RuleView, anchor: Date) -> bool {
    let w = walked(r, anchor, anchor, MAX_PERIODS as nat);
    let t2 = kept_count(r, w);
    &&& same_shape(r1, r)
    &&& r1.count is None
    &&& t2 == 0 ==> r1.until == r.until
    &&& t2 > 0 ==> forall|x: Date|
        #[trigger] past_until(r1, x) <==> (past_until(r, x) || x.num() > w[t2 - 1].num())
}

proof fn lemma_count_none_kept(r: RuleView, r1: RuleView, anchor: Date, lo: Date, hi: Date)
    requires
        r.interval >= 1,
        anchor.wf(),
        r.count matches Some(c) && c >= 1,
        until_at_last(r, r1, anchor),
        kept_count(r, walked(r, anchor, anchor, MAX_PERIODS as nat)) == 0,
    ensures
        spec_occurrences(r1, anchor, lo, hi) == spec_occurrences(r, anchor, lo, hi),
{
    let kk = MAX_PERIODS as nat;
    let w = walked(r, anchor, anchor, kk);
    lemma_count_walk_fixed(r, anchor, anchor, hi, kk);
    let w1 = walked(r1, anchor, hi, kk);
    assert(r1.until == r.until);
    assert forall|x: Date| #[trigger] past_until(r, x) implies past_until(r1, x) by {}
    lemma_walk_sub(r1, r, anchor, hi, hi, kk);
    lemma_cut_bound(r, w);
    if w1.len() > 0 {
        assert(w1[0] == w[0]);
        assert(past_until(r, w[0]));
        assert(past_until(r1, w1[0]));
    }
    assert(emitted(r1, w1, lo, hi) =~= emitted(r, w, lo, hi));
}

proof fn lemma_count_some_kept(r: RuleView, r1: RuleView, anchor: Date, lo: Date, hi: Date)
    requires
        r.interval >= 1,
        anchor.wf(),
        r.count matches Some(c) && c >= 1,
        until_at_last(r, r1, anchor),
        kept_count(r, walked(r, anchor, anchor, MAX_PERIODS as nat)) > 0,
    ensures
        spec_occurrences(r1, anchor, lo, hi) == spec_occurrences(r, anchor, lo, hi),
{
    let kk = MAX_PERIODS as nat;
    let w = walked(r, anchor, anchor, kk);
    lemma_count_walk_fixed(r, anchor, anchor, hi, kk);
    let w1 = walked(r1, anchor, hi, kk);
    let t2 = kept_count(r, w);
    let v = w[t2 - 1];
    assert forall|x: Date| #[trigger] past_until(r, x) implies past_until(r1, x) by {
        assert(past_until(r1, x) <==> (past_until(r, x) || x.num() > v.num()));
    }
    lemma_walk_sub(r1, r, anchor, hi, hi, kk);
    lemma_walked_ascends(r, anchor, anchor, kk);
    lemma_cut_bound(r, w);
    lemma_cut_bound(r1, w1);
    let c1 = cut(r1, w1);
    assert forall|i: int| 0 <= i < w1.len() implies (past_until(r1, #[trigger] w1[i]) <==> i >= t2) by {
        assert(w1[i] == w[i]);
        assert(past_until(r1, w[i]) <==> (past_until(r, w[i]) || w[i].num() > v.num()));
        if i < t2 {
            assert(!past_until(r, w[i]));
            if i < t2 - 1 {
                assert(w[i].num() < v.num());
            }
        } else {
            if i > t2 - 1 {
                assert(w[i].num() > v.num());
            }
        }
    }
    if c1 > t2 {
        assert(!past_until(r1, w1[t2]));
    }
    assert forall|d: Date|
        emitted(r1, w1, lo, hi).contains(d) <==> emitted(r, w, lo, hi).contains(d) by {
        if emitted(r1, w1, lo, hi).contains(d) {
            assert(w1.take(c1).contains(d));
            let i = w1.take(c1).index_of(d);
            assert(w1[i] == d);
            assert(w[i] == d);
            assert(w.take(t2)[i] == d);
            assert(w.take(t2).contains(d));
        }
        if emitted(r, w, lo, hi).contains(d) {
            assert(w.take(t2).contains(d));
            let i = w.take(t2).index_of(d);
            assert(w[i] == d);
            if i >= w1.len() {
                assert(past_until(r1, w[i]) || w[i].num() > hi.num());
            }
            assert(w1[i] == d);
            if c1 < w1.len() {
                assert(past_until(r1, w1[c1]));
            }
            assert(w1.take(c1)[i] == d);
            assert(w1.take(c1).contains(d));
        }
    }
    assert(emitted(r1, w1, lo, hi) =~= emitted(r, w, lo, hi));
}

/// A COUNT rule (COUNT at least one) has in every window the occurrences of
/// the rule of its shape without COUNT that stops after its last kept date
/// (or, if it keeps none, at its own UNTIL).
pub proof fn lemma_count_as_until(r: RuleView, r1: RuleView, anchor: Date, lo: Date, hi: Date)
    requires
        r.wf(),
        anchor.wf(),
        r.count matches Some(c) && c >= 1,
        until_at_last(r, r1, anchor),
    ensures
        spec_occurrences(r1, anchor, lo, hi) == spec_occurrences(r, anchor, lo, hi),
{
    lemma_cut_bound(r, walked(r, anchor, anchor, MAX_PERIODS as nat));
    if kept_count(r, walked(r, anchor, anchor, MAX_PERIODS as nat)) == 0 {
        lemma_count_none_kept(r, r1, anchor, lo, hi);
    } else {
        lemma_count_some_kept(r, r1, anchor, lo, hi);
    }
}


/// A rule that keeps no date of its walk has no occurrences in any window.
pub proof fn lemma_keeps_none(r: RuleView, anchor: Date, lo: Date, hi: Date)
    requires
        kept_count(r, walked(r, anchor, hi, MAX_PERIODS as nat)) == 0,
    ensures
        spec_occurrences(r, anchor, lo, hi) == Seq::<Date>::empty(),
{
    let w = walked(r, anchor, hi, MAX_PERIODS as nat);
    assert(w.take(0) =~= Seq::<Date>::empty());
    assert(emitted(r, w, lo, hi) =~= Set::<Date>::empty());
    let e = Seq::<Date>::empty();
    assert(e.to_set() =~= Set::<Date>::empty());
    assert(increasing(e));
    lemma_sorted_of(e);
}

/// A rule with COUNT 0 has no occurrences.
pub proof fn lemma_count_zero(r: RuleView, anchor: Date, lo: Date, hi: Date)
    requires
        r.count == Some(0u32),
    ensures
        spec_occurrences(r, anchor, lo, hi) == Seq::<Date>::empty(),
{
    lemma_cut_bound(r, walked(r, anchor, hi, MAX_PERIODS as nat));
    lemma_keeps_none(r, anchor, lo, hi);
}

} // verus!
