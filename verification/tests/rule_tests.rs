use todo_app::date::{Date, Weekday};
use todo_app::recur::rule::{parse_signed_list, Freq, NWeekday, Recurrence, RruleError};

fn nwd(ord: Option<i8>, weekday: Weekday) -> NWeekday {
    NWeekday { ord, weekday }
}

#[test]
fn parses_common_rules() {
    let r = Recurrence::from_rrule("FREQ=WEEKLY;INTERVAL=2;BYDAY=MO").unwrap();
    assert_eq!(r.freq, Freq::Weekly);
    assert_eq!(r.interval, 2);
    assert_eq!(r.by_day, vec![nwd(None, Weekday::Mon)]);

    let r = Recurrence::from_rrule("FREQ=MONTHLY;BYDAY=1SU").unwrap();
    assert_eq!(r.by_day, vec![nwd(Some(1), Weekday::Sun)]);

    let r = Recurrence::from_rrule("FREQ=MONTHLY;BYDAY=-1FR;BYSETPOS=-1").unwrap();
    assert_eq!(r.by_day, vec![nwd(Some(-1), Weekday::Fri)]);
    assert_eq!(r.by_set_pos, vec![-1]);

    let r = Recurrence::from_rrule("FREQ=YEARLY;BYMONTH=1,7;BYMONTHDAY=15").unwrap();
    assert_eq!(r.by_month, vec![1, 7]);
    assert_eq!(r.by_month_day, vec![15]);
}

#[test]
fn accepts_rrule_prefix_and_until_formats() {
    let r = Recurrence::from_rrule("RRULE:FREQ=DAILY;UNTIL=20261231").unwrap();
    assert_eq!(r.until, Date::from_ymd_opt(2026, 12, 31));
    let r = Recurrence::from_rrule("FREQ=DAILY;UNTIL=2026-12-31T00:00:00Z").unwrap();
    assert_eq!(r.until, Date::from_ymd_opt(2026, 12, 31));
}

#[test]
fn round_trips() {
    for s in [
        "FREQ=DAILY;INTERVAL=2",
        "FREQ=WEEKLY;INTERVAL=2;BYDAY=MO",
        "FREQ=MONTHLY;BYDAY=1SU",
        "FREQ=MONTHLY;BYDAY=-1FR;BYSETPOS=-1",
        "FREQ=MONTHLY;BYMONTHDAY=-2",
        "FREQ=YEARLY;BYMONTH=1,7;BYMONTHDAY=15",
        "FREQ=WEEKLY;WKST=SU;BYDAY=SU,SA",
        "FREQ=DAILY;COUNT=5",
    ] {
        let r = Recurrence::from_rrule(s).unwrap();
        assert_eq!(r.to_rrule(), s, "round trip changed {s:?}");
        assert_eq!(Recurrence::from_rrule(&r.to_rrule()).unwrap(), r);
    }
}

#[test]
fn rejects_bad_input() {
    assert_eq!(Recurrence::from_rrule(""), Err(RruleError::Empty));
    assert_eq!(Recurrence::from_rrule("INTERVAL=2"), Err(RruleError::MissingFreq));
    assert_eq!(
        Recurrence::from_rrule("FREQ=HOURLY"),
        Err(RruleError::BadFreq("HOURLY".into()))
    );
    assert_eq!(
        Recurrence::from_rrule("FREQ=DAILY;INTERVAL=0"),
        Err(RruleError::ZeroValue { key: "INTERVAL" })
    );
    assert_eq!(
        Recurrence::from_rrule("FREQ=MONTHLY;BYMONTHDAY=0"),
        Err(RruleError::ZeroValue { key: "BYMONTHDAY" })
    );
    assert!(matches!(
        Recurrence::from_rrule("FREQ=WEEKLY;BYDAY=XX"),
        Err(RruleError::BadWeekday(_))
    ));
    assert!(matches!(
        Recurrence::from_rrule("FREQ=DAILY;FOO=1"),
        Err(RruleError::UnknownPart(_))
    ));
}

// ---- further cases ----

#[test]
fn until_round_trips_and_wins_over_count() {
    let r = Recurrence::from_rrule("FREQ=DAILY;UNTIL=20270115").unwrap();
    assert_eq!(r.until, Date::from_ymd_opt(2027, 1, 15));
    assert_eq!(r.to_rrule(), "FREQ=DAILY;UNTIL=20270115");
    assert_eq!(Recurrence::from_rrule(&r.to_rrule()).unwrap(), r);
    let both = Recurrence::from_rrule("FREQ=DAILY;COUNT=3;UNTIL=20270115").unwrap();
    assert_eq!(both.count, Some(3));
    assert_eq!(both.to_rrule(), "FREQ=DAILY;UNTIL=20270115");
}

#[test]
fn lower_case_and_spaces_are_accepted() {
    let r = Recurrence::from_rrule("  freq=weekly;byday=MO,WE  ").unwrap();
    assert_eq!(r.freq, Freq::Weekly);
    assert_eq!(r.by_day, vec![nwd(None, Weekday::Mon), nwd(None, Weekday::Wed)]);
}

#[test]
fn bad_int_and_out_of_range_and_bad_date() {
    assert_eq!(
        Recurrence::from_rrule("FREQ=DAILY;INTERVAL=x"),
        Err(RruleError::BadInt { key: "INTERVAL", val: "x".into() })
    );
    assert_eq!(
        Recurrence::from_rrule("FREQ=YEARLY;BYMONTH=13"),
        Err(RruleError::OutOfRange { key: "BYMONTH", val: 13 })
    );
    assert!(matches!(
        Recurrence::from_rrule("FREQ=DAILY;UNTIL=2026"),
        Err(RruleError::BadDate { key: "UNTIL", .. })
    ));
}

#[test]
fn signed_list_reads_values_in_range() {
    assert_eq!(parse_signed_list("1,-2,31", "BYMONTHDAY", -31, 31), Ok(vec![1, -2, 31]));
    assert_eq!(
        parse_signed_list("40", "BYMONTHDAY", -31, 31),
        Err(RruleError::OutOfRange { key: "BYMONTHDAY", val: 40 })
    );
}

#[test]
fn default_rule_is_daily_every_day() {
    let r = Recurrence::default();
    assert_eq!(r.freq, Freq::Daily);
    assert_eq!(r.interval, 1);
    assert_eq!(r.to_rrule(), "FREQ=DAILY");
}

#[test]
fn byday_cut_inside_a_character_is_detected() {
    assert!(Recurrence::cuts_inside_char("FREQ=DAILY;BYDAY=éO"));
    assert!(Recurrence::cuts_inside_char("FREQ=WEEKLY;BYDAY=MO,1中"));
    assert!(!Recurrence::cuts_inside_char("FREQ=WEEKLY;BYDAY=MO,TU"));
    assert!(!Recurrence::cuts_inside_char("FREQ=HOURLY;BYDAY=éO"));
    assert!(!Recurrence::cuts_inside_char("FREQ=DAILY;BYDAY=XX,éO"));
    assert!(!Recurrence::cuts_inside_char("FREQ=DAILY;BYDAY=1é"));
    assert!(matches!(
        Recurrence::from_rrule("FREQ=DAILY;BYDAY=1é"),
        Err(RruleError::BadWeekday(_))
    ));
}

#[test]
fn until_in_four_digit_years_reads_back() {
    let r = Recurrence::from_rrule("FREQ=WEEKLY;BYDAY=MO;UNTIL=20270115").unwrap();
    assert!(r.until_reads_back());
    assert_eq!(Recurrence::from_rrule(&r.to_rrule()).unwrap(), r);
    let plain = Recurrence::from_rrule("FREQ=DAILY").unwrap();
    assert!(plain.until_reads_back());
}
