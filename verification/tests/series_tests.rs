use todo_app::date::Date;
use todo_app::item::Status;
use todo_app::recur::rule::Recurrence;
use todo_app::recur::series::{Override, RecurringSeries, Snapshot};

fn sd(y: i32, m: u32, day: u32) -> Date {
    Date::from_ymd_opt(y, m, day).unwrap()
}

fn series(rrule: &str, anchor: Date) -> RecurringSeries {
    RecurringSeries::new(1, "Water".into(), 0, Recurrence::from_rrule(rrule).unwrap(), anchor)
}

fn has_override(s: &RecurringSeries, d: Date) -> bool {
    s.overrides.iter().any(|(x, _)| *x == d)
}

#[test]
fn occurrences_floor_at_start_and_skip_exdates() {
    let mut s = series("FREQ=WEEKLY;BYDAY=MO", sd(2026, 6, 1));
    s.start = sd(2026, 6, 15);
    s.skip(sd(2026, 6, 22));
    let got = s.occurrences_in(sd(2026, 6, 1)..=sd(2026, 6, 30));
    assert_eq!(got, vec![sd(2026, 6, 15), sd(2026, 6, 29)]);
}

#[test]
fn view_reflects_overrides_and_freezes_done() {
    let mut s = series("FREQ=DAILY", sd(2026, 6, 1));
    s.set_override(
        sd(2026, 6, 2),
        Override::Done(Snapshot {
            title: "Old title".into(),
            priority: 1,
            state: Status::Checked,
        }),
    );
    s.set_override(sd(2026, 6, 3), Override::State(Status::Ongoing));
    s.title = "New title".into();

    assert_eq!(s.view(sd(2026, 6, 2)).0, "Old title");
    assert_eq!(s.view(sd(2026, 6, 2)).2, Status::Checked);
    assert_eq!(s.view(sd(2026, 6, 3)), ("New title".into(), 0, Status::Ongoing));
    assert_eq!(s.view(sd(2026, 6, 4)), ("New title".into(), 0, Status::Open));
}

#[test]
fn split_preserves_phase_and_partitions_overrides() {
    let mut s = series("FREQ=WEEKLY;INTERVAL=2;BYDAY=MO", sd(2026, 6, 1));
    s.set_override(sd(2026, 6, 1), Override::State(Status::Ongoing));
    s.set_override(sd(2026, 6, 29), Override::State(Status::Ongoing));

    let mut future = s.split_at(sd(2026, 6, 29), 2);
    future.title = "Renamed".into();

    assert_eq!(
        s.occurrences_in(sd(2026, 6, 1)..=sd(2026, 12, 31)),
        vec![sd(2026, 6, 1), sd(2026, 6, 15)]
    );
    let f = future.occurrences_in(sd(2026, 6, 1)..=sd(2026, 7, 31));
    assert_eq!(f, vec![sd(2026, 6, 29), sd(2026, 7, 13), sd(2026, 7, 27)]);

    assert!(has_override(&s, sd(2026, 6, 1)));
    assert!(!has_override(&s, sd(2026, 6, 29)));
    assert!(has_override(&future, sd(2026, 6, 29)));
    assert_eq!(future.title, "Renamed");
}

#[test]
fn truncate_before_caps_series() {
    let mut s = series("FREQ=DAILY", sd(2026, 6, 1));
    s.truncate_before(sd(2026, 6, 4));
    assert_eq!(
        s.occurrences_in(sd(2026, 6, 1)..=sd(2026, 6, 30)),
        vec![sd(2026, 6, 1), sd(2026, 6, 2), sd(2026, 6, 3)]
    );
}

#[test]
fn count_resolves_to_until_on_split() {
    let mut s = series("FREQ=DAILY;COUNT=10", sd(2026, 6, 1));
    let future = s.split_at(sd(2026, 6, 5), 2);
    assert_eq!(s.occurrences_in(sd(2026, 6, 1)..=sd(2026, 6, 30)).len(), 4);
    assert_eq!(
        future.occurrences_in(sd(2026, 6, 1)..=sd(2026, 6, 30)),
        vec![sd(2026, 6, 5), sd(2026, 6, 6), sd(2026, 6, 7), sd(2026, 6, 8), sd(2026, 6, 9), sd(2026, 6, 10)]
    );
}

// ---- further cases ----

#[test]
fn occurs_on_follows_skips() {
    let mut s = series("FREQ=DAILY", sd(2026, 6, 1));
    assert!(s.occurs_on(sd(2026, 6, 3)));
    s.skip(sd(2026, 6, 3));
    assert!(!s.occurs_on(sd(2026, 6, 3)));
    assert!(!s.occurs_on(sd(2026, 5, 31)));
}

#[test]
fn skip_twice_keeps_one_date_in_order() {
    let mut s = series("FREQ=DAILY", sd(2026, 6, 1));
    s.skip(sd(2026, 6, 9));
    s.skip(sd(2026, 6, 3));
    s.skip(sd(2026, 6, 9));
    assert_eq!(s.exdates, vec![sd(2026, 6, 3), sd(2026, 6, 9)]);
}

#[test]
fn override_set_replace_and_clear() {
    let mut s = series("FREQ=DAILY", sd(2026, 6, 1));
    s.set_override(sd(2026, 6, 5), Override::State(Status::Ongoing));
    s.set_override(sd(2026, 6, 2), Override::State(Status::InQuestion));
    s.set_override(sd(2026, 6, 5), Override::State(Status::Obsolete));
    assert_eq!(s.overrides.len(), 2);
    assert_eq!(s.overrides[0].0, sd(2026, 6, 2));
    assert_eq!(s.view(sd(2026, 6, 5)).2, Status::Obsolete);
    s.clear_override(sd(2026, 6, 5));
    assert_eq!(s.view(sd(2026, 6, 5)).2, Status::Open);
    s.clear_override(sd(2026, 6, 7));
    assert_eq!(s.overrides.len(), 1);
}

#[test]
fn end_caps_the_window() {
    let mut s = series("FREQ=DAILY", sd(2026, 6, 1));
    s.end = Some(sd(2026, 6, 2));
    assert_eq!(s.occurrences_in(sd(2026, 5, 1)..=sd(2026, 6, 30)), vec![sd(2026, 6, 1), sd(2026, 6, 2)]);
    assert!(s.occurrences_in(sd(2026, 6, 3)..=sd(2026, 6, 30)).is_empty());
}

#[test]
fn split_moves_exdates_and_keeps_anchor() {
    let mut s = series("FREQ=DAILY", sd(2026, 6, 1));
    s.skip(sd(2026, 6, 2));
    s.skip(sd(2026, 6, 8));
    let f = s.split_at(sd(2026, 6, 5), 7);
    assert_eq!(s.exdates, vec![sd(2026, 6, 2)]);
    assert_eq!(f.exdates, vec![sd(2026, 6, 8)]);
    assert_eq!(f.anchor, sd(2026, 6, 1));
    assert_eq!(f.start, sd(2026, 6, 5));
    assert_eq!(f.id, 7);
    assert_eq!(s.end, Some(sd(2026, 6, 4)));
    assert_eq!(s.rule.until, Some(sd(2026, 6, 4)));
}

#[test]
fn split_halves_together_show_the_original() {
    let original = series("FREQ=MONTHLY;BYDAY=-1FR", sd(2026, 1, 30));
    let window = sd(2026, 1, 1)..=sd(2027, 6, 30);
    let before = original.occurrences_in(window.clone());
    let mut kept = series("FREQ=MONTHLY;BYDAY=-1FR", sd(2026, 1, 30));
    let future = kept.split_at(sd(2026, 7, 1), 2);
    let mut joined = kept.occurrences_in(window.clone());
    joined.extend(future.occurrences_in(window.clone()));
    assert_eq!(joined, before);
    assert_eq!(kept.occurrences_in(window.clone()).last(), Some(&sd(2026, 6, 26)));
    assert_eq!(future.occurrences_in(window).first(), Some(&sd(2026, 7, 31)));
}

#[test]
fn split_of_count_rule_keeps_the_count() {
    let original = series("FREQ=WEEKLY;BYDAY=TU,TH;COUNT=7", sd(2026, 3, 3));
    let window = sd(2026, 1, 1)..=sd(2026, 12, 31);
    let before = original.occurrences_in(window.clone());
    assert_eq!(before.len(), 7);
    let mut kept = series("FREQ=WEEKLY;BYDAY=TU,TH;COUNT=7", sd(2026, 3, 3));
    let future = kept.split_at(sd(2026, 3, 12), 2);
    let mut joined = kept.occurrences_in(window.clone());
    assert_eq!(joined.len(), 3);
    joined.extend(future.occurrences_in(window));
    assert_eq!(joined, before);
}

#[test]
fn truncate_keeps_only_earlier_occurrences() {
    let mut s = series("FREQ=DAILY;INTERVAL=3;COUNT=20", sd(2026, 6, 1));
    let window = sd(2026, 5, 1)..=sd(2026, 12, 31);
    let before = s.occurrences_in(window.clone());
    s.truncate_before(sd(2026, 6, 20));
    let expected: Vec<Date> = before.into_iter().filter(|d| d.before(&sd(2026, 6, 20))).collect();
    assert_eq!(s.occurrences_in(window), expected);
    assert_eq!(expected.len(), 7);
}

#[test]
fn split_of_count_zero_rule_shows_nothing() {
    let original = series("FREQ=DAILY;COUNT=0", sd(2026, 6, 1));
    let window = sd(2026, 5, 1)..=sd(2026, 12, 31);
    assert!(original.occurrences_in(window.clone()).is_empty());
    let mut kept = series("FREQ=DAILY;COUNT=0", sd(2026, 6, 1));
    let future = kept.split_at(sd(2026, 6, 10), 2);
    assert_eq!(kept.rule.count, None);
    assert_eq!(future.rule.count, None);
    assert_eq!(future.rule.until, Some(sd(2026, 5, 31)));
    assert!(kept.occurrences_in(window.clone()).is_empty());
    assert!(future.occurrences_in(window.clone()).is_empty());
    let mut cut = series("FREQ=DAILY;COUNT=0", sd(2026, 6, 1));
    cut.truncate_before(sd(2026, 6, 10));
    assert_eq!(cut.rule.count, None);
    assert!(cut.occurrences_in(window).is_empty());
}
