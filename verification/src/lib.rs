//! A keyboard-driven todo list kept in `.xit` files, with recurring series
//! described by RRULE strings.
pub mod date;
pub mod text;
pub mod recur;
pub mod item;
pub mod todo;
pub mod app;
pub mod output;
pub mod response;
