use todo_app::date::Date;
use todo_app::item::Status;
use todo_app::recur::rule::Recurrence;
use todo_app::recur::series::{Override, Snapshot};
use todo_app::recur::store::{sidecar_path, state_code, SeriesDto, SeriesStore};

fn std_date(y: i32, m: u32, day: u32) -> Date {
    Date::from_ymd_opt(y, m, day).unwrap()
}

#[test]
fn sidecar_path_cases() {
    assert_eq!(sidecar_path("todo.xit"), "todo.recur.toml");
    assert_eq!(sidecar_path("/a/b/foo.xit"), "/a/b/foo.recur.toml");
    assert_eq!(sidecar_path("notes"), "notes.recur.toml");
}

#[test]
fn save_then_load_round_trips() {
    let path = "/tmp/__recur_test.xit";
    let mut store = SeriesStore::from_records(path, &Vec::new());
    let anchor = std_date(2026, 6, 1);
    let id = store.add(
        "Water".into(),
        2,
        Recurrence::from_rrule("FREQ=WEEKLY;INTERVAL=2;BYDAY=MO").unwrap(),
        anchor,
    );
    let s = store.get_mut(id).unwrap();
    s.skip(std_date(2026, 6, 15));
    s.set_override(
        std_date(2026, 6, 1),
        Override::Done(Snapshot {
            title: "Water".into(),
            priority: 2,
            state: Status::Checked,
        }),
    );
    s.set_override(std_date(2026, 6, 29), Override::State(Status::Ongoing));
    let records = store.to_records();

    let loaded = SeriesStore::from_records(path, &records);
    assert_eq!(loaded.series.len(), 1);
    let ls = loaded.get(id).unwrap();
    assert_eq!(ls.title, "Water");
    assert_eq!(ls.rule.to_rrule(), "FREQ=WEEKLY;INTERVAL=2;BYDAY=MO");
    assert_eq!(ls.priority, 2);
    assert!(ls.exdates.contains(&std_date(2026, 6, 15)));
    assert_eq!(ls.overrides.len(), 2);
}

#[test]
fn missing_file_is_empty_store() {
    let store = SeriesStore::from_records("/tmp/__definitely_absent_recur.xit", &Vec::new());
    assert!(store.series.is_empty());
}

// ---- further cases ----

#[test]
fn state_codes_drop_the_space() {
    assert_eq!(state_code(&Status::Open), "[ ]");
    assert_eq!(state_code(&Status::Checked), "[x]");
    assert_eq!(state_code(&Status::InQuestion), "[?]");
}

#[test]
fn sidecar_replaces_only_the_last_extension() {
    assert_eq!(sidecar_path("a.b.xit"), "a.b.recur.toml");
    assert_eq!(sidecar_path("dir.d/list"), "dir.d/list.recur.toml");
    assert_eq!(sidecar_path(".profile"), ".profile.recur.toml");
}

#[test]
fn ids_are_fresh_and_split_uses_the_next() {
    let mut store = SeriesStore::from_records("x.xit", &Vec::new());
    let rule = || Recurrence::from_rrule("FREQ=DAILY").unwrap();
    let a = store.add("a".into(), 0, rule(), std_date(2026, 6, 1));
    let b = store.add("b".into(), 0, rule(), std_date(2026, 6, 1));
    assert_eq!((a, b), (0, 1));
    let c = store.split(a, std_date(2026, 6, 10));
    assert_eq!(c, Some(2));
    assert_eq!(store.series.len(), 3);
    assert_eq!(store.split(99, std_date(2026, 6, 10)), None);
    let d = store.add("d".into(), 0, rule(), std_date(2026, 6, 1));
    assert_eq!(d, 4);
    store.remove(b);
    assert!(store.get(b).is_none());
    assert!(store.get_mut(b).is_none());
    assert_eq!(store.position(d), Some(2));
    assert_eq!(store.series.len(), 3);
}

#[test]
fn records_that_do_not_read_are_dropped() {
    let good = SeriesDto {
        id: 5,
        title: "t".into(),
        priority: 0,
        rrule: "FREQ=DAILY".into(),
        anchor: "2026-06-01".into(),
        start: "2026-06-01".into(),
        end: Some("not a date".into()),
        exdates: vec!["2026-06-03".into(), "junk".into(), "2026-06-02".into()],
        overrides: vec![],
    };
    let bad = SeriesDto {
        id: 9,
        title: "u".into(),
        priority: 0,
        rrule: "FREQ=SOMETIMES".into(),
        anchor: "2026-06-01".into(),
        start: "2026-06-01".into(),
        end: None,
        exdates: vec![],
        overrides: vec![],
    };
    let store = SeriesStore::from_records("x.xit", &vec![good, bad]);
    assert_eq!(store.series.len(), 1);
    assert_eq!(store.next_id, 6);
    let s = &store.series[0];
    assert_eq!(s.end, None);
    assert_eq!(s.exdates, vec![std_date(2026, 6, 2), std_date(2026, 6, 3)]);
}
