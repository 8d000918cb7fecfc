use todo_app::date::Date;
use todo_app::item::{Item, Status};
use todo_app::todo::Todo;

fn sample() -> Todo {
    let mut t = Todo::new("test.xit".into());
    t.add("buy milk".into());
    t
}

fn tdate(y: i32, m: u32, day: u32) -> Date {
    Date::from_ymd_opt(y, m, day).unwrap()
}

#[test]
fn add_creates_open_zero_priority() {
    let t = sample();
    assert_eq!(t.item_vec.len(), 1);
    assert_eq!(t.item_vec[0].state, Status::Open);
    assert_eq!(t.item_vec[0].priority, 0);
    assert_eq!(t.item_vec[0].description, "buy milk");
}

#[test]
fn toggle_done_flips() {
    let mut t = sample();
    t.toggle_done(0);
    assert_eq!(t.item_vec[0].state, Status::Checked);
    t.toggle_done(0);
    assert_eq!(t.item_vec[0].state, Status::Open);
}

#[test]
fn set_status_and_edit() {
    let mut t = sample();
    t.set_status(0, Status::Ongoing);
    assert_eq!(t.item_vec[0].state, Status::Ongoing);
    t.edit(0, "buy oat milk".into());
    assert_eq!(t.item_vec[0].description, "buy oat milk");
}

#[test]
fn priority_clamps_at_zero() {
    let mut t = sample();
    t.adjust_priority(0, 2);
    assert_eq!(t.item_vec[0].priority, 2);
    t.adjust_priority(0, -5);
    assert_eq!(t.item_vec[0].priority, 0);
}

#[test]
fn due_date_set_and_clear() {
    let mut t = sample();
    let d = tdate(2026, 7, 1);
    t.set_due_date(0, Some(d));
    assert_eq!(t.item_vec[0].due_date, Some(d));
    t.set_due_date(0, None);
    assert_eq!(t.item_vec[0].due_date, None);
}

#[test]
fn remove_shifts() {
    let mut t = sample();
    t.add("walk dog".into());
    t.remove(0);
    assert_eq!(t.item_vec.len(), 1);
    assert_eq!(t.item_vec[0].description, "walk dog");
    t.remove(99);
    assert_eq!(t.item_vec.len(), 1);
}

#[test]
fn sort_orders_by_status_then_priority() {
    let mut t = Todo::new("test.xit".into());
    t.add("a done".into());
    t.toggle_done(0);
    t.add("b ongoing".into());
    t.set_status(1, Status::Ongoing);
    t.sort();
    assert_eq!(t.item_vec[0].state, Status::Ongoing);
    assert_eq!(t.item_vec[1].state, Status::Checked);
}

#[test]
fn xit_round_trip_is_idempotent() {
    for line in [
        "[ ]  buy milk",
        "[@]  !! ship release -> 2026-07-01",
        "[x]  fix a -> b mapping",
    ] {
        let item = Item::parse_line(line);
        assert_eq!(item.get_file_string(), line, "round trip changed {line:?}");
    }
}

#[test]
fn clean_description_survives_save_load() {
    let mut t = Todo::new("test.xit".into());
    t.add("buy milk".into());
    t.adjust_priority(0, 2);
    t.set_due_date(0, Date::from_ymd_opt(2026, 7, 1));
    let parsed = Item::parse_line(&t.item_vec[0].get_file_string());
    assert_eq!(parsed.description, "buy milk");
    assert_eq!(parsed.priority, 2);
    assert_eq!(parsed.due_date, Date::from_ymd_opt(2026, 7, 1));
}

// ---- further cases ----

#[test]
fn status_markers_read_and_write() {
    for (marker, st) in [
        ("[ ]", Status::Open),
        ("[@]", Status::Ongoing),
        ("[x]", Status::Checked),
        ("[~]", Status::Obsolete),
        ("[?]", Status::InQuestion),
    ] {
        assert_eq!(Status::from_str(marker), Some(st));
        assert_eq!(st.as_str(), format!("{marker} "));
    }
    assert_eq!(Status::from_str("[X]"), None);
    assert_eq!(Status::from_str(""), None);
}

#[test]
fn parse_line_reads_slash_dates_and_ignores_bad_ones() {
    let it = Item::parse_line("[ ]  call mum -> 2026/08/09");
    assert_eq!(it.description, "call mum");
    assert_eq!(it.due_date, Date::from_ymd_opt(2026, 8, 9));
    let it = Item::parse_line("[ ]  call mum -> someday");
    assert_eq!(it.description, "call mum -> someday");
    assert_eq!(it.due_date, None);
}

#[test]
fn parse_dates_takes_ten_leading_bytes() {
    assert_eq!(Item::parse_dates("2026-07-01 and more"), Date::from_ymd_opt(2026, 7, 1));
    assert_eq!(Item::parse_dates("2026-02-30"), None);
    assert_eq!(Item::parse_dates("short"), None);
}

#[test]
fn bang_run_needs_a_following_word() {
    let it = Item::parse_line("[ ]  !!!");
    assert_eq!(it.priority, 0);
    assert_eq!(it.description, "!!!");
    let it = Item::parse_line("[?]  !!! urgent");
    assert_eq!(it.priority, 3);
    assert_eq!(it.description, "urgent");
    assert_eq!(it.state, Status::InQuestion);
}

#[test]
fn from_existing_skips_empty_lines_and_file_text_writes_back() {
    let text = "[ ]  a\n\n[x]  !! b -> 2026-07-01\r\n";
    let t = Todo::from_existing(text, "f.xit".into());
    assert_eq!(t.item_vec.len(), 2);
    assert_eq!(t.item_vec[1].state, Status::Checked);
    assert_eq!(t.item_vec[1].priority, 2);
    assert_eq!(t.file_text(), "[ ]  a\n[x]  !! b -> 2026-07-01\n");
}

#[test]
fn sort_keeps_every_item_and_orders_priority_then_name() {
    let mut t = Todo::new("s.xit".into());
    t.add("b".into());
    t.add("a".into());
    t.add("c".into());
    t.adjust_priority(2, 1);
    t.sort();
    let names: Vec<&str> = t.item_vec.iter().map(|i| i.description.as_str()).collect();
    assert_eq!(names, vec!["c", "a", "b"]);
}

#[test]
fn toggling_twice_restores_an_open_item() {
    let mut t = sample();
    t.toggle_done(0);
    t.toggle_done(0);
    assert_eq!(t.item_vec[0].state, Status::Open);
    let mut t = sample();
    t.set_status(0, Status::Ongoing);
    t.toggle_done(0);
    t.toggle_done(0);
    assert_eq!(t.item_vec[0].state, Status::Open);
}

#[test]
fn item_equality_goes_by_description() {
    let a = Item::new("x".into(), Status::Open, None, 0);
    let b = Item::new("x".into(), Status::Checked, None, 3);
    assert!(a == b);
    assert!(b.sorts_before(&a) == false);
    assert!(Item::from_description("y").description == "y");
}

#[test]
fn sort_is_stable_for_equal_keys() {
    let mut t = Todo::new("st.xit".into());
    t.add("same".into());
    t.add("same".into());
    t.add("first".into());
    t.set_due_date(0, Some(tdate(2026, 1, 2)));
    t.set_due_date(1, Some(tdate(2026, 1, 1)));
    t.sort();
    assert_eq!(t.item_vec[0].description, "first");
    assert_eq!(t.item_vec[1].due_date, Some(tdate(2026, 1, 2)));
    assert_eq!(t.item_vec[2].due_date, Some(tdate(2026, 1, 1)));
}

#[test]
fn saved_text_loads_back_as_the_same_list() {
    let mut t = Todo::new("rt.xit".into());
    t.add("plain".into());
    t.add("due soon".into());
    t.set_due_date(1, Some(tdate(2026, 9, 30)));
    t.adjust_priority(1, 3);
    t.add("arrow -> not a date".into());
    t.set_status(2, Status::Obsolete);
    let back = Todo::from_existing(&t.file_text(), "rt.xit".into());
    assert_eq!(back.item_vec.len(), 3);
    for (a, b) in t.item_vec.iter().zip(back.item_vec.iter()) {
        assert_eq!(a.description, b.description);
        assert_eq!(a.state, b.state);
        assert_eq!(a.priority, b.priority);
        assert_eq!(a.due_date, b.due_date);
    }
}

#[test]
fn due_dates_outside_four_digit_years_are_written_with_a_sign() {
    let far = Item {
        description: "far".into(),
        state: Status::Open,
        due_date: Some(tdate(12345, 1, 2)),
        priority: 0,
    };
    assert_eq!(far.get_file_string(), "[ ]  far -> +12345-01-02");
    let early = Item {
        description: "early".into(),
        state: Status::Open,
        due_date: Some(tdate(-5, 11, 30)),
        priority: 0,
    };
    assert_eq!(early.get_file_string(), "[ ]  early -> -0005-11-30");
}
