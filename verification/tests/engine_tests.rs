use todo_app::date::Date;
use todo_app::recur::dates::month_bounds;
use todo_app::recur::engine::occurrences;
use todo_app::recur::rule::Recurrence;

fn ed(y: i32, m: u32, day: u32) -> Date {
    Date::from_ymd_opt(y, m, day).unwrap()
}

fn occ(rrule: &str, anchor: Date, lo: Date, hi: Date) -> Vec<Date> {
    occurrences(&Recurrence::from_rrule(rrule).unwrap(), anchor, lo..=hi)
}

#[test]
fn every_other_day() {
    assert_eq!(
        occ("FREQ=DAILY;INTERVAL=2", ed(2026, 6, 1), ed(2026, 6, 1), ed(2026, 6, 7)),
        vec![ed(2026, 6, 1), ed(2026, 6, 3), ed(2026, 6, 5), ed(2026, 6, 7)]
    );
}

#[test]
fn every_two_weeks_on_monday() {
    assert_eq!(
        occ(
            "FREQ=WEEKLY;INTERVAL=2;BYDAY=MO",
            ed(2026, 6, 1),
            ed(2026, 6, 1),
            ed(2026, 7, 15)
        ),
        vec![ed(2026, 6, 1), ed(2026, 6, 15), ed(2026, 6, 29), ed(2026, 7, 13)]
    );
}

#[test]
fn first_sunday_of_each_month() {
    let got = occ("FREQ=MONTHLY;BYDAY=1SU", ed(2026, 1, 1), ed(2026, 1, 1), ed(2026, 12, 31));
    assert_eq!(got.len(), 12);
    assert_eq!(got[0], ed(2026, 1, 4));
    assert_eq!(got[5], ed(2026, 6, 7));
}

#[test]
fn last_weekday_of_month_via_setpos() {
    assert_eq!(
        occ(
            "FREQ=MONTHLY;BYDAY=MO,TU,WE,TH,FR;BYSETPOS=-1",
            ed(2026, 6, 1),
            ed(2026, 6, 1),
            ed(2026, 6, 30)
        ),
        vec![ed(2026, 6, 30)]
    );
}

#[test]
fn second_to_last_day_of_month() {
    assert_eq!(
        occ("FREQ=MONTHLY;BYMONTHDAY=-2", ed(2026, 2, 1), ed(2026, 2, 1), ed(2026, 2, 28)),
        vec![ed(2026, 2, 27)]
    );
}

#[test]
fn yearly_jan_and_jul_fifteenth() {
    assert_eq!(
        occ(
            "FREQ=YEARLY;BYMONTH=1,7;BYMONTHDAY=15",
            ed(2026, 1, 1),
            ed(2026, 1, 1),
            ed(2026, 12, 31)
        ),
        vec![ed(2026, 1, 15), ed(2026, 7, 15)]
    );
}

#[test]
fn fifth_monday_missing_month_is_empty() {
    let got = occ("FREQ=MONTHLY;BYDAY=5MO", ed(2026, 2, 1), ed(2026, 2, 1), ed(2026, 2, 28));
    assert!(got.is_empty(), "Feb 2026 has no 5th Monday, got {got:?}");
}

#[test]
fn monthday_31_skips_short_months() {
    let got = occ("FREQ=MONTHLY;BYMONTHDAY=31", ed(2026, 1, 1), ed(2026, 1, 1), ed(2026, 4, 30));
    assert_eq!(got, vec![ed(2026, 1, 31), ed(2026, 3, 31)]);
}

#[test]
fn yearly_feb_29_leap_only() {
    let got = occ(
        "FREQ=YEARLY;BYMONTH=2;BYMONTHDAY=29",
        ed(2024, 1, 1),
        ed(2024, 1, 1),
        ed(2030, 12, 31),
    );
    assert_eq!(got, vec![ed(2024, 2, 29), ed(2028, 2, 29)]);
}

#[test]
fn yearday_negative_one_is_dec_31() {
    assert_eq!(
        occ("FREQ=YEARLY;BYYEARDAY=-1", ed(2026, 1, 1), ed(2026, 1, 1), ed(2026, 12, 31)),
        vec![ed(2026, 12, 31)]
    );
}

#[test]
fn count_caps_from_anchor_regardless_of_window() {
    let got = occ("FREQ=DAILY;COUNT=3", ed(2026, 6, 1), ed(2026, 6, 2), ed(2026, 6, 30));
    assert_eq!(got, vec![ed(2026, 6, 2), ed(2026, 6, 3)]);
}

#[test]
fn until_is_inclusive() {
    let got = occ("FREQ=DAILY;UNTIL=20260603", ed(2026, 6, 1), ed(2026, 6, 1), ed(2026, 6, 30));
    assert_eq!(got, vec![ed(2026, 6, 1), ed(2026, 6, 2), ed(2026, 6, 3)]);
}

#[test]
fn weekly_interval_phase_is_anchor_relative() {
    assert_eq!(
        occ(
            "FREQ=WEEKLY;INTERVAL=2;BYDAY=WE",
            ed(2026, 6, 3),
            ed(2026, 6, 1),
            ed(2026, 7, 5)
        ),
        vec![ed(2026, 6, 3), ed(2026, 6, 17), ed(2026, 7, 1)]
    );
}

#[test]
fn plain_yearly_is_anchor_month_day() {
    assert_eq!(
        occ("FREQ=YEARLY", ed(2026, 3, 5), ed(2026, 1, 1), ed(2028, 12, 31)),
        vec![ed(2026, 3, 5), ed(2027, 3, 5), ed(2028, 3, 5)]
    );
}

// ---- further cases ----

#[test]
fn empty_window_gives_nothing() {
    let got = occ("FREQ=DAILY", ed(2026, 6, 1), ed(2026, 6, 10), ed(2026, 6, 5));
    assert!(got.is_empty());
}

#[test]
fn window_before_anchor_gives_nothing() {
    let got = occ("FREQ=DAILY", ed(2026, 6, 1), ed(2026, 5, 1), ed(2026, 5, 31));
    assert!(got.is_empty());
}

#[test]
fn yearday_thirty_two_is_feb_first() {
    let got = occ("FREQ=YEARLY;BYYEARDAY=32", ed(2026, 1, 1), ed(2026, 1, 1), ed(2027, 12, 31));
    assert_eq!(got, vec![ed(2026, 2, 1), ed(2027, 2, 1)]);
}

#[test]
fn monthly_by_month_filter() {
    let got = occ("FREQ=MONTHLY;BYMONTH=3;BYMONTHDAY=1", ed(2026, 1, 1), ed(2026, 1, 1), ed(2027, 12, 31));
    assert_eq!(got, vec![ed(2026, 3, 1), ed(2027, 3, 1)]);
}

#[test]
fn occurrences_ascend_and_stay_in_window() {
    let lo = ed(2026, 2, 10);
    let hi = ed(2026, 5, 20);
    let got = occ("FREQ=WEEKLY;BYDAY=TU,FR", ed(2026, 1, 1), lo, hi);
    assert!(!got.is_empty());
    for w in got.windows(2) {
        assert!(w[0].before(&w[1]));
    }
    for x in &got {
        assert!(!x.before(&lo) && !hi.before(x));
    }
}

#[test]
fn smaller_window_is_a_slice_of_larger() {
    let rule = "FREQ=WEEKLY;BYDAY=MO,WE,FR";
    let anchor = ed(2026, 1, 5);
    let big = occ(rule, anchor, ed(2026, 1, 1), ed(2026, 12, 31));
    let small = occ(rule, anchor, ed(2026, 3, 10), ed(2026, 4, 20));
    let sliced: Vec<Date> = big
        .into_iter()
        .filter(|d| !d.before(&ed(2026, 3, 10)) && !ed(2026, 4, 20).before(d))
        .collect();
    assert_eq!(small, sliced);
    assert_eq!(small.first(), Some(&ed(2026, 3, 11)));
}

#[test]
fn month_bounds_give_first_and_last_day() {
    assert_eq!(month_bounds(&ed(2026, 2, 14)), (ed(2026, 2, 1), ed(2026, 2, 28)));
    assert_eq!(month_bounds(&ed(2024, 2, 29)), (ed(2024, 2, 1), ed(2024, 2, 29)));
    assert_eq!(month_bounds(&ed(2026, 12, 5)), (ed(2026, 12, 1), ed(2026, 12, 31)));
}

#[test]
fn iso_week_fifty_three_exists_in_2026() {
    let got = occ("FREQ=YEARLY;BYWEEKNO=53;BYDAY=MO", ed(2026, 1, 1), ed(2026, 1, 1), ed(2026, 12, 31));
    assert_eq!(got, vec![ed(2026, 12, 28)]);
    let none = occ("FREQ=YEARLY;BYWEEKNO=53;BYDAY=MO", ed(2025, 1, 1), ed(2025, 1, 1), ed(2025, 12, 31));
    assert!(none.is_empty());
}

#[test]
fn plain_yearly_from_leap_day_skips_common_years() {
    let got = occ("FREQ=YEARLY", ed(2024, 2, 29), ed(2024, 1, 1), ed(2030, 12, 31));
    assert_eq!(got, vec![ed(2024, 2, 29), ed(2028, 2, 29)]);
    let none = occ("FREQ=YEARLY", ed(2024, 2, 29), ed(2025, 1, 1), ed(2025, 12, 31));
    assert!(none.is_empty());
}

#[test]
fn friday_the_thirteenth_monthly() {
    let got = occ(
        "FREQ=MONTHLY;BYMONTHDAY=13;BYDAY=FR",
        ed(2026, 1, 1),
        ed(2026, 1, 1),
        ed(2026, 12, 31),
    );
    assert_eq!(got, vec![ed(2026, 2, 13), ed(2026, 3, 13), ed(2026, 11, 13)]);
    let april = occ(
        "FREQ=MONTHLY;BYMONTHDAY=13;BYDAY=FR",
        ed(2026, 1, 1),
        ed(2026, 4, 1),
        ed(2026, 4, 30),
    );
    assert!(april.is_empty());
}
