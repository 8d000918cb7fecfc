use todo_app::item::{Item, Status};
use todo_app::output::{Color, ColoredString, Outputtable};
use todo_app::response::{Kind, Response};

#[test]
fn colour_codes() {
    assert_eq!(i32::from(&Color::Red), 31);
    assert_eq!(i32::from(&Color::Green), 32);
    assert_eq!(i32::from(&Color::Yellow), 33);
    assert_eq!(i32::from(&Color::Blue), 34);
    assert_eq!(i32::from(&Color::Default), 0);
}

#[test]
fn coloured_string_shows_escape_codes() {
    let c = ColoredString { color: Color::Green, string: "hi".into() };
    assert_eq!(c.show(), "\u{1b}[32mhi\u{1b}[0m");
    let v = vec![c, ColoredString::from(String::from("yo"))];
    assert_eq!(v.show(), "\u{1b}[32mhi\u{1b}[0m\n\u{1b}[34myo\u{1b}[0m\n");
    assert_eq!(String::from("plain").show(), "plain");
}

#[test]
fn responses_render_the_list() {
    let items = vec![Item::new("a".into(), Status::Open, None, 0), Item::new("b".into(), Status::Checked, None, 1)];
    let out = Response::Save.render(&items);
    assert_eq!(out.kind, Kind::Continue);
    assert_eq!(out.value, "[ ]  a\n[x]  ! b\n");
    let out = Response::List.render(&[]);
    assert_eq!(out.value, "your todo list has no items, add one with the `add` command");
    let out = Response::Error("oops".into()).render(&items);
    assert_eq!(out.kind, Kind::Error);
    assert!(out.value.starts_with("[ ]  a\n[x]  ! b\n"));
    assert!(out.value.contains("oops"));
    let out = Response::Exit.render(&items);
    assert_eq!(out.kind, Kind::Exit);
    assert!(out.value.contains("buh-bye!"));
    assert_eq!(Response::Continue("go".into()).render(&items).value, "go");
    assert_eq!(Response::Empty.render(&items).value, "");
}
