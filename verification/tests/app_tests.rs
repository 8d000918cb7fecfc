use todo_app::app::{App, Effect, Key, KeyCode, Mode};
use todo_app::date::Date;
use todo_app::item::Status;
use todo_app::todo::Todo;

fn key(c: char) -> Key {
    Key { code: KeyCode::Char(c), ctrl: false }
}

fn press(app: &mut App, code: KeyCode) -> Effect {
    app.handle_key(Key { code, ctrl: false })
}

fn empty_app() -> App {
    App::new(Todo::new("/tmp/__todo_test_unused.xit".into()))
}

#[test]
fn add_popup_commits_item() {
    let mut app = empty_app();
    press(&mut app, KeyCode::Char('a'));
    for c in "buy milk".chars() {
        app.handle_key(key(c));
    }
    press(&mut app, KeyCode::Enter);
    assert_eq!(app.todo.item_vec.len(), 1);
    assert_eq!(app.todo.item_vec[0].description, "buy milk");
    assert!(matches!(app.mode, Mode::Normal));
}

#[test]
fn esc_cancels_add() {
    let mut app = empty_app();
    press(&mut app, KeyCode::Char('a'));
    app.handle_key(key('x'));
    press(&mut app, KeyCode::Esc);
    assert!(app.todo.item_vec.is_empty());
}

#[test]
fn status_keys_and_filter_mapping() {
    let mut app = App::new(Todo::from_existing("[ ]  a\n[ ]  b\n", "/tmp/__x.xit".into()));
    press(&mut app, KeyCode::Char('j'));
    app.handle_key(key('@'));
    assert_eq!(app.todo.item_vec[1].state, Status::Ongoing);
    app.handle_key(key('f'));
    assert_eq!(app.filter, Some(Status::Open));
    assert_eq!(app.visible_indices(), vec![0]);
    app.handle_key(key('f'));
    assert_eq!(app.visible_indices(), vec![1]);
}

#[test]
fn due_date_popup_sets_date() {
    let mut app = App::new(Todo::from_existing("[ ]  a\n", "/tmp/__x.xit".into()));
    press(&mut app, KeyCode::Char('D'));
    for c in "2026-07-01".chars() {
        app.handle_key(key(c));
    }
    press(&mut app, KeyCode::Enter);
    assert_eq!(app.todo.item_vec[0].due_date, Date::from_ymd_opt(2026, 7, 1));
}

// ---- further cases ----

#[test]
fn effects_say_when_to_save_and_quit() {
    let mut app = App::new(Todo::from_existing("[ ]  a\n", "q.xit".into()));
    assert_eq!(app.handle_key(key('x')), Effect::Save);
    assert_eq!(app.handle_key(key('j')), Effect::Nothing);
    assert_eq!(app.handle_key(key('q')), Effect::Quit);
    assert!(app.should_quit);
}

#[test]
fn control_c_quits_from_a_popup() {
    let mut app = empty_app();
    press(&mut app, KeyCode::Char('a'));
    let e = app.handle_key(Key { code: KeyCode::Char('c'), ctrl: true });
    assert_eq!(e, Effect::Quit);
    assert!(app.should_quit);
}

#[test]
fn remove_needs_confirmation() {
    let mut app = App::new(Todo::from_existing("[ ]  a\n[ ]  b\n", "r.xit".into()));
    press(&mut app, KeyCode::Char('r'));
    assert_eq!(app.mode, Mode::ConfirmRemove);
    press(&mut app, KeyCode::Char('n'));
    assert_eq!(app.mode, Mode::Normal);
    assert_eq!(app.todo.item_vec.len(), 2);
    press(&mut app, KeyCode::Char('-'));
    assert_eq!(press(&mut app, KeyCode::Char('y')), Effect::Save);
    assert_eq!(app.todo.item_vec.len(), 1);
    assert_eq!(app.todo.item_vec[0].description, "b");
    assert_eq!(app.selected, Some(0));
}

#[test]
fn bad_due_date_sets_a_message() {
    let mut app = App::new(Todo::from_existing("[ ]  a\n", "d.xit".into()));
    press(&mut app, KeyCode::Char('D'));
    for c in "soon".chars() {
        app.handle_key(key(c));
    }
    assert_eq!(press(&mut app, KeyCode::Enter), Effect::Nothing);
    assert_eq!(app.status_msg, "couldn't parse date: soon");
    assert_eq!(app.todo.item_vec[0].due_date, None);
}

#[test]
fn edit_prefills_and_backspace_deletes() {
    let mut app = App::new(Todo::from_existing("[ ]  milk\n", "e.xit".into()));
    press(&mut app, KeyCode::Char('e'));
    assert_eq!(app.input, "milk");
    press(&mut app, KeyCode::Backspace);
    app.handle_key(key('s'));
    press(&mut app, KeyCode::Enter);
    assert_eq!(app.todo.item_vec[0].description, "mils");
}

#[test]
fn navigation_stays_within_rows() {
    let mut app = App::new(Todo::from_existing("[ ]  a\n[ ]  b\n[ ]  c\n", "n.xit".into()));
    press(&mut app, KeyCode::Up);
    assert_eq!(app.selected, Some(0));
    press(&mut app, KeyCode::End);
    assert_eq!(app.selected, Some(2));
    press(&mut app, KeyCode::Down);
    assert_eq!(app.selected, Some(2));
    press(&mut app, KeyCode::Home);
    assert_eq!(app.selected, Some(0));
}

#[test]
fn help_closes_on_any_key_and_priority_keys_work() {
    let mut app = App::new(Todo::from_existing("[ ]  a\n", "h.xit".into()));
    press(&mut app, KeyCode::F(1));
    assert_eq!(app.mode, Mode::Help);
    press(&mut app, KeyCode::Char('z'));
    assert_eq!(app.mode, Mode::Normal);
    app.handle_key(key('>'));
    app.handle_key(key('>'));
    app.handle_key(key('<'));
    assert_eq!(app.todo.item_vec[0].priority, 1);
}

#[test]
fn sort_key_sorts_and_saves() {
    let mut app = App::new(Todo::from_existing("[x]  done\n[@]  doing\n", "s.xit".into()));
    assert_eq!(app.handle_key(key('s')), Effect::Save);
    assert_eq!(app.todo.item_vec[0].description, "doing");
}
