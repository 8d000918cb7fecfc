//! The interactive list: a state machine from key presses to a new state
//! and an effect (save the list, or save it, export it and quit) that the
//! program around it carries out.
use crate::item::{spec_parse_dates, Item, ItemView, Status};
use crate::text::{chars_of, concat, string_of, trim, trim_vec};
use crate::todo::{
    adjusted, fresh_item, sorted_items, stable_reorder, toggle_at, update_at, Todo,
};
use vstd::prelude::*;

verus! {

broadcast use vstd::seq_lib::group_seq_properties;

pub const HELP_TEXT: &'static str = " j / k  ↓ / ↑   move          a / +   add
 g / G          top / bottom  e       edit
 x / Space      toggle done   D       due date
 o              undo (open)   > / <   priority +/-
 @              ongoing       r / -   remove
 ~              obsolete      s       sort
 i              question      f       cycle filter
 h / F1         this help     q / Esc quit (saves)";

#[derive(Clone, Copy, PartialEq, Eq, Structural, Debug)]
pub enum Mode {
    Normal,
    Add,
    Edit,
    DueDate,
    Help,
    ConfirmRemove,
}

/// The key of a key press.
#[derive(Clone, Copy, PartialEq, Eq, Structural, Debug)]
pub enum KeyCode {
    Char(char),
    Enter,
    Esc,
    Backspace,
    Up,
    Down,
    Home,
    End,
    F(u8),
    Other,
}

/// A key press: the key, and whether Control was held.
#[derive(Clone, Copy, PartialEq, Eq, Structural, Debug)]
pub struct Key {
    pub code: KeyCode,
    pub ctrl: bool,
}

/// What the program has to do after a key press.
#[derive(Clone, Copy, PartialEq, Eq, Structural, Debug)]
pub enum Effect {
    Nothing,
    /// Write the list to its file.
    Save,
    /// Write the list to its file, export it, and stop.
    Quit,
}

/// An edit of the selected item.
#[derive(Clone, Copy, PartialEq, Eq, Structural, Debug)]
pub enum Op {
    Toggle,
    SetStatus(Status),
    Priority(i8),
    Remove,
}

pub struct App {
    pub todo: Todo,
    pub mode: Mode,
    /// The selected row among the visible items.
    pub selected: Option<usize>,
    pub input: String,
    pub filter: Option<Status>,
    pub status_msg: String,
    pub should_quit: bool,
}

/// The content of an `App`.
pub struct AppView {
    pub items: Seq<ItemView>,
    pub file_path: Seq<char>,
    pub mode: Mode,
    pub selected: Option<usize>,
    pub input: Seq<char>,
    pub filter: Option<Status>,
    pub status_msg: Seq<char>,
    pub should_quit: bool,
}

impl View for App {
    type V = AppView;

    open spec fn view(&self) -> AppView {
        AppView {
            items: self.todo.items(),
            file_path: self.todo.file_path@,
            mode: self.mode,
            selected: self.selected,
            input: self.input@,
            filter: self.filter,
            status_msg: self.status_msg@,
            should_quit: self.should_quit,
        }
    }
}

/// The positions of the items that the filter lets through, in order.
pub open spec fn visible(items: Seq<ItemView>, filter: Option<Status>) -> Seq<int>
    decreases items.len(),
{
    if items.len() == 0 {
        Seq::empty()
    } else {
        let v = visible(items.drop_last(), filter);
        match filter {
            Some(f) => if items.last().state == f {
                v.push(items.len() - 1)
            } else {
                v
            },
            None => v.push(items.len() - 1),
        }
    }
}

/// The position in the list of the selected row, if a row is selected.
pub open spec fn selected_item(a: AppView) -> Option<int> {
    let v = visible(a.items, a.filter);
    match a.selected {
        Some(i) => if i < v.len() {
            Some(v[i as int])
        } else {
            None
        },
        None => None,
    }
}

/// The selection kept within `len` rows: none when there are none, else
/// the selected row (row 0 if none) capped at the last row.
pub open spec fn clamped(len: int, sel: Option<usize>) -> Option<usize> {
    if len == 0 {
        None
    } else {
        let i = match sel {
            Some(i) => i as int,
            None => 0,
        };
        Some((if i <= len - 1 {
            i
        } else {
            len - 1
        }) as usize)
    }
}

/// The selection after moving `delta` rows within `len` rows.
pub open spec fn moved(len: int, sel: Option<usize>, delta: int) -> Option<usize> {
    if len == 0 {
        sel
    } else {
        let cur = match sel {
            Some(i) => i as int,
            None => 0,
        };
        let n = cur + delta;
        Some((if n < 0 {
            0
        } else if n > len - 1 {
            len - 1
        } else {
            n
        }) as usize)
    }
}

/// The next filter: none, open, ongoing, in question, checked, obsolete,
/// and round again.
pub open spec fn next_filter(f: Option<Status>) -> Option<Status> {
    match f {
        None => Some(Status::Open),
        Some(Status::Open) => Some(Status::Ongoing),
        Some(Status::Ongoing) => Some(Status::InQuestion),
        Some(Status::InQuestion) => Some(Status::Checked),
        Some(Status::Checked) => Some(Status::Obsolete),
        Some(Status::Obsolete) => None,
    }
}

/// The list after an edit of the item at `i`.
pub open spec fn edited(items: Seq<ItemView>, i: int, op: Op) -> Seq<ItemView> {
    match op {
        Op::Toggle => toggle_at(items, i),
        Op::SetStatus(st) => update_at(items, i, ItemView { state: st, ..items[i] }),
        Op::Priority(d) => update_at(
            items,
            i,
            ItemView { priority: adjusted(items[i].priority, d), ..items[i] },
        ),
        Op::Remove => items.remove(i),
    }
}

/// An edit that does not overflow the priority.
pub open spec fn op_ok(items: Seq<ItemView>, i: int, op: Op) -> bool {
    op matches Op::Priority(d) ==> i8::MIN <= items[i].priority + d <= i8::MAX
}

// ---- the transitions ----

/// An edit of the selected item: applied, and the selection kept within
/// the rows; nothing changes when no row is selected.
pub open spec fn op_state(a: AppView, op: Op) -> AppView {
    match selected_item(a) {
        Some(i) => {
            let items = edited(a.items, i, op);
            AppView { items, selected: clamped(visible(items, a.filter).len() as int, a.selected), ..a }
        },
        None => a,
    }
}

/// An edit saves the list when a row is selected.
pub open spec fn op_effect(a: AppView) -> Effect {
    if selected_item(a) is Some {
        Effect::Save
    } else {
        Effect::Nothing
    }
}

pub open spec fn after_op(a: AppView, op: Op, b: AppView, e: Effect) -> bool {
    b == op_state(a, op) && e == op_effect(a)
}

/// Quitting: the state says so, and the list is saved and exported.
pub open spec fn after_quit(a: AppView, b: AppView, e: Effect) -> bool {
    b == AppView { should_quit: true, ..a } && e == Effect::Quit
}

/// Opening a popup with `text` in its input.
pub open spec fn after_open(a: AppView, mode: Mode, text: Seq<char>, b: AppView, e: Effect) -> bool {
    b == AppView { input: text, mode, ..a } && e == Effect::Nothing
}

/// Sorting: the items sorted stably (the same items, in list order, those
/// with the same key in their former order), the selection kept within the
/// rows, and a save.
pub open spec fn after_sort(a: AppView, b: AppView, e: Effect) -> bool {
    &&& sorted_items(b.items)
    &&& b.items.to_multiset() == a.items.to_multiset()
    &&& exists|perm: Seq<int>| stable_reorder(a.items, b.items, perm)
    &&& b == AppView {
        items: b.items,
        selected: clamped(visible(b.items, a.filter).len() as int, a.selected),
        ..a
    }
    &&& e == Effect::Save
}

/// Confirming a popup with Enter: the trimmed input is added as an item,
/// made the selected item's description, or read as its due date (empty
/// clears it); then the input is emptied and the mode is normal again.
pub open spec fn after_commit(a: AppView, b: AppView, e: Effect) -> bool {
    let text = trim(a.input);
    let base = AppView { input: Seq::empty(), mode: Mode::Normal, ..a };
    match a.mode {
        Mode::Add => if text.len() > 0 {
            let items = a.items.push(fresh_item(text));
            &&& b == AppView {
                items,
                selected: clamped(visible(items, a.filter).len() as int, a.selected),
                ..base
            }
            &&& e == Effect::Save
        } else {
            b == base && e == Effect::Nothing
        },
        Mode::Edit => match selected_item(a) {
            Some(i) => if text.len() > 0 {
                &&& b == AppView {
                    items: update_at(a.items, i, ItemView { description: text, ..a.items[i] }),
                    ..base
                }
                &&& e == Effect::Save
            } else {
                b == base && e == Effect::Nothing
            },
            None => b == base && e == Effect::Nothing,
        },
        Mode::DueDate => match selected_item(a) {
            Some(i) => if text.len() == 0 {
                &&& b == AppView {
                    items: update_at(a.items, i, ItemView { due_date: None, ..a.items[i] }),
                    ..base
                }
                &&& e == Effect::Save
            } else {
                match spec_parse_dates(text) {
                    Some(d) => {
                        &&& b == AppView {
                            items: update_at(a.items, i, ItemView { due_date: Some(d), ..a.items[i] }),
                            ..base
                        }
                        &&& e == Effect::Save
                    },
                    None => {
                        &&& b == AppView {
                            status_msg: "couldn't parse date: "@ + text,
                            ..base
                        }
                        &&& e == Effect::Nothing
                    },
                }
            },
            None => b == base && e == Effect::Nothing,
        },
        _ => b == base && e == Effect::Nothing,
    }
}

/// A key in normal mode.
pub open spec fn normal_step(a: AppView, k: KeyCode, b: AppView, e: Effect) -> bool {
    let len = visible(a.items, a.filter).len() as int;
    let same = b == a && e == Effect::Nothing;
    match k {
        KeyCode::Char('q') | KeyCode::Esc => after_quit(a, b, e),
        KeyCode::Char('j') | KeyCode::Down => b == AppView { selected: moved(len, a.selected, 1), ..a }
            && e == Effect::Nothing,
        KeyCode::Char('k') | KeyCode::Up => b == AppView { selected: moved(len, a.selected, -1), ..a }
            && e == Effect::Nothing,
        KeyCode::Char('g') | KeyCode::Home => b == AppView {
            selected: if len == 0 {
                a.selected
            } else {
                Some(0usize)
            },
            ..a
        } && e == Effect::Nothing,
        KeyCode::Char('G') | KeyCode::End => b == AppView {
            selected: if len == 0 {
                a.selected
            } else {
                Some((len - 1) as usize)
            },
            ..a
        } && e == Effect::Nothing,
        KeyCode::Char('x') | KeyCode::Char(' ') => after_op(a, Op::Toggle, b, e),
        KeyCode::Char('o') => after_op(a, Op::SetStatus(Status::Open), b, e),
        KeyCode::Char('@') => after_op(a, Op::SetStatus(Status::Ongoing), b, e),
        KeyCode::Char('~') => after_op(a, Op::SetStatus(Status::Obsolete), b, e),
        KeyCode::Char('i') => after_op(a, Op::SetStatus(Status::InQuestion), b, e),
        KeyCode::Char('>') => after_op(a, Op::Priority(1i8), b, e),
        KeyCode::Char('<') => after_op(a, Op::Priority(-1i8), b, e),
        KeyCode::Char('s') => after_sort(a, b, e),
        KeyCode::Char('f') => b == AppView {
            filter: next_filter(a.filter),
            selected: clamped(visible(a.items, next_filter(a.filter)).len() as int, a.selected),
            ..a
        } && e == Effect::Nothing,
        KeyCode::Char('a') | KeyCode::Char('+') => after_open(a, Mode::Add, Seq::empty(), b, e),
        KeyCode::Char('e') => match selected_item(a) {
            Some(i) => after_open(a, Mode::Edit, a.items[i].description, b, e),
            None => same,
        },
        KeyCode::Char('D') => after_open(a, Mode::DueDate, Seq::empty(), b, e),
        KeyCode::Char('r') | KeyCode::Char('-') => if selected_item(a) is Some {
            b == AppView { mode: Mode::ConfirmRemove, ..a } && e == Effect::Nothing
        } else {
            same
        },
        KeyCode::Char('h') | KeyCode::F(1) => b == AppView { mode: Mode::Help, ..a } && e
            == Effect::Nothing,
        _ => same,
    }
}

/// A key in a popup with text input.
pub open spec fn input_step(a: AppView, k: KeyCode, b: AppView, e: Effect) -> bool {
    match k {
        KeyCode::Esc => b == AppView { input: Seq::empty(), mode: Mode::Normal, ..a } && e
            == Effect::Nothing,
        KeyCode::Backspace => b == AppView {
            input: if a.input.len() > 0 {
                a.input.drop_last()
            } else {
                a.input
            },
            ..a
        } && e == Effect::Nothing,
        KeyCode::Char(c) => b == AppView { input: a.input.push(c), ..a } && e == Effect::Nothing,
        KeyCode::Enter => after_commit(a, b, e),
        _ => b == a && e == Effect::Nothing,
    }
}

/// What a key press does: Control-C quits from any mode; otherwise the key
/// goes by the mode (any key leaves the help; `y` confirms a removal, any
/// other key cancels it).
pub open spec fn step(a: AppView, key: Key, b: AppView, e: Effect) -> bool {
    if key.ctrl && key.code == KeyCode::Char('c') {
        after_quit(a, b, e)
    } else {
        match a.mode {
            Mode::Normal => normal_step(a, key.code, b, e),
            Mode::Add | Mode::Edit | Mode::DueDate => input_step(a, key.code, b, e),
            Mode::Help => b == AppView { mode: Mode::Normal, ..a } && e == Effect::Nothing,
            Mode::ConfirmRemove => if key.code == KeyCode::Char('y') {
                b == AppView { mode: Mode::Normal, ..op_state(a, Op::Remove) } && e == op_effect(a)
            } else {
                b == AppView { mode: Mode::Normal, ..a } && e == Effect::Nothing
            },
        }
    }
}

/// The priority keys do not overflow the selected item's priority.
pub open spec fn key_ok(a: AppView, key: Key) -> bool {
    (a.mode == Mode::Normal && !(key.ctrl && key.code == KeyCode::Char('c'))) ==> match key.code {
        KeyCode::Char('>') => selected_item(a) matches Some(i) ==> a.items[i].priority + 1
            <= i8::MAX,
        KeyCode::Char('<') => selected_item(a) matches Some(i) ==> a.items[i].priority - 1
            >= i8::MIN,
        _ => true,
    }
}

impl App {
    pub open spec fn wf(&self) -> bool {
        self.todo.wf()
    }

    /// A fresh view of `todo`: normal mode, the first row selected if there
    /// is one, no filter.
    pub fn new(todo: Todo) -> (r: Self)
        requires
            todo.wf(),
        ensures
            r.wf(),
            r@.items == todo.items(),
            r@.file_path == todo.file_path@,
            r.mode == Mode::Normal,
            r.selected == (if todo.items().len() > 0 {
                Some(0usize)
            } else {
                None
            }),
            r.input@ == Seq::<char>::empty(),
            r.filter is None,
            r.status_msg@ == "`h` for help"@,
            !r.should_quit,
            selection_valid(r@),
    {
        proof {
            lemma_visible_all(todo.items());
        }
        let selected = if todo.item_vec.len() > 0 {
            Some(0)
        } else {
            None
        };
        App {
            todo,
            mode: Mode::Normal,
            selected,
            input: String::new(),
            filter: None,
            status_msg: string_of(chars_of("`h` for help").as_slice()),
            should_quit: false,
        }
    }

    /// The positions in the list of the visible items.
    pub fn visible_indices(&self) -> (r: Vec<usize>)
        ensures
            r@.len() == visible(self@.items, self.filter).len(),
            forall|k: int|
                0 <= k < r@.len() ==> (#[trigger] r@[k]) as int == visible(
                    self@.items,
                    self.filter,
                )[k],
    {
        let ghost items = self@.items;
        let mut out: Vec<usize> = Vec::new();
        let mut i: usize = 0;
        while i < self.todo.item_vec.len()
            invariant
                i <= self.todo.item_vec.len(),
                items == self@.items,
                out@.len() == visible(items.take(i as int), self.filter).len(),
                forall|k: int|
                    0 <= k < out@.len() ==> (#[trigger] out@[k]) as int == visible(
                        items.take(i as int),
                        self.filter,
                    )[k],
            decreases self.todo.item_vec.len() - i,
        {
            proof {
                assert(items.take(i + 1).drop_last() =~= items.take(i as int));
                assert(items.take(i + 1).last() == self.todo.item_vec@[i as int]@);
            }
            let shown = match self.filter {
                Some(f) => self.todo.item_vec[i].state == f,
                None => true,
            };
            if shown {
                out.push(i);
            }
            i += 1;
        }
        proof {
            assert(items.take(i as int) =~= items);
        }
        out
    }

    fn selected_real(&self) -> (r: Option<usize>)
        ensures
            match selected_item(self@) {
                Some(k) => r matches Some(j) && j as int == k && 0 <= k < self@.items.len(),
                None => r is None,
            },
    {
        proof {
            lemma_visible_bounds(self@.items, self.filter);
        }
        let vis = self.visible_indices();
        match self.selected {
            Some(i) => if i < vis.len() {
                Some(vis[i])
            } else {
                None
            },
            None => None,
        }
    }

    fn clamp_selection(&mut self)
        ensures
            final(self)@ == (AppView {
                selected: clamped(visible(old(self)@.items, old(self).filter).len() as int, old(self).selected),
                ..old(self)@
            }),
            final(self).todo.wf() == old(self).todo.wf(),
    {
        let len = self.visible_indices().len();
        if len == 0 {
            self.selected = None;
        } else {
            let i = match self.selected {
                Some(i) => i,
                None => 0,
            };
            let i = if i <= len - 1 {
                i
            } else {
                len - 1
            };
            self.selected = Some(i);
        }
    }

    fn move_by(&mut self, delta: i8)
        ensures
            final(self)@ == (AppView {
                selected: moved(visible(old(self)@.items, old(self).filter).len() as int, old(self).selected, delta as int),
                ..old(self)@
            }),
            final(self).todo.wf() == old(self).todo.wf(),
    {
        let len = self.visible_indices().len();
        if len == 0 {
            return;
        }
        let cur: i128 = match self.selected {
            Some(i) => i as i128,
            None => 0,
        };
        let n: i128 = cur + delta as i128;
        let last: i128 = (len - 1) as i128;
        let next: i128 = if n < 0 {
            0
        } else if n > last {
            last
        } else {
            n
        };
        self.selected = Some(next as usize);
    }

    fn jump(&mut self, to_end: bool)
        ensures
            ({
                let len = visible(old(self)@.items, old(self).filter).len();
                final(self)@ == (AppView {
                    selected: if len == 0 {
                        old(self).selected
                    } else if to_end {
                        Some((len - 1) as usize)
                    } else {
                        Some(0usize)
                    },
                    ..old(self)@
                })
            }),
            final(self).todo.wf() == old(self).todo.wf(),
    {
        let len = self.visible_indices().len();
        if len == 0 {
            return;
        }
        self.selected = Some(if to_end {
            len - 1
        } else {
            0
        });
    }

    fn cycle_filter(&mut self)
        ensures
            final(self)@ == (AppView {
                filter: next_filter(old(self).filter),
                selected: clamped(
                    visible(old(self)@.items, next_filter(old(self).filter)).len() as int,
                    old(self).selected,
                ),
                ..old(self)@
            }),
            final(self).todo.wf() == old(self).todo.wf(),
    {
        self.filter = match self.filter {
            None => Some(Status::Open),
            Some(Status::Open) => Some(Status::Ongoing),
            Some(Status::Ongoing) => Some(Status::InQuestion),
            Some(Status::InQuestion) => Some(Status::Checked),
            Some(Status::Checked) => Some(Status::Obsolete),
            Some(Status::Obsolete) => None,
        };
        self.clamp_selection();
    }
}

impl App {
    /// Applies `op` to the selected item, keeps the selection within the
    /// rows, and asks for a save; nothing when no row is selected.
    fn mutate(&mut self, op: Op) -> (e: Effect)
        requires
            old(self).wf(),
            selected_item(old(self)@) matches Some(i) ==> op_ok(old(self)@.items, i, op),
        ensures
            final(self).wf(),
            after_op(old(self)@, op, final(self)@, e),
    {
        match self.selected_real() {
            Some(i) => {
                proof {
                    assert(self@.items[i as int] == self.todo.item_vec@[i as int]@);
                }
                match op {
                    Op::Toggle => self.todo.toggle_done(i),
                    Op::SetStatus(st) => self.todo.set_status(i, st),
                    Op::Priority(d) => self.todo.adjust_priority(i, d),
                    Op::Remove => self.todo.remove(i),
                }
                proof {
                    let a = old(self)@;
                    assert(self@.items =~= edited(a.items, i as int, op));
                }
                self.clamp_selection();
                Effect::Save
            },
            None => Effect::Nothing,
        }
    }

    fn open_input(&mut self, mode: Mode, prefill: String)
        ensures
            final(self)@ == (AppView { input: prefill@, mode, ..old(self)@ }),
            final(self).todo == old(self).todo,
    {
        self.input = prefill;
        self.mode = mode;
    }

    fn quit(&mut self) -> (e: Effect)
        ensures
            after_quit(old(self)@, final(self)@, e),
            final(self).todo == old(self).todo,
    {
        self.should_quit = true;
        Effect::Quit
    }

    #[verifier::spinoff_prover]
    fn commit_input(&mut self) -> (e: Effect)
        requires
            old(self).wf(),
        ensures
            final(self).wf(),
            after_commit(old(self)@, final(self)@, e),
    {
        let tv = trim_vec(&chars_of(self.input.as_str()));
        let text = string_of(tv.as_slice());
        let mut e = Effect::Nothing;
        match self.mode {
            Mode::Add => {
                if tv.len() > 0 {
                    self.todo.add(text);
                    self.clamp_selection();
                    e = Effect::Save;
                }
            },
            Mode::Edit => {
                match self.selected_real() {
                    Some(i) => {
                        if tv.len() > 0 {
                            self.todo.edit(i, text);
                            e = Effect::Save;
                        }
                    },
                    None => {},
                }
            },
            Mode::DueDate => {
                match self.selected_real() {
                    Some(i) => {
                        if tv.len() == 0 {
                            self.todo.set_due_date(i, None);
                            e = Effect::Save;
                        } else {
                            match Item::parse_dates(text.as_str()) {
                                Some(d) => {
                                    self.todo.set_due_date(i, Some(d));
                                    e = Effect::Save;
                                },
                                None => {
                                    let msg = concat(&chars_of("couldn't parse date: "), &tv);
                                    self.status_msg = string_of(msg.as_slice());
                                },
                            }
                        }
                    },
                    None => {},
                }
            },
            _ => {},
        }
        self.input = String::new();
        self.mode = Mode::Normal;
        proof {
            let a = old(self)@;
            let b = self@;
            if a.mode == Mode::Add && trim(a.input).len() > 0 {
                assert(b.items =~= a.items.push(crate::todo::fresh_item(trim(a.input))));
            }
        }
        e
    }

    #[verifier::spinoff_prover]
    fn handle_normal(&mut self, code: KeyCode) -> (e: Effect)
        requires
            old(self).wf(),
            old(self).mode == Mode::Normal,
            key_ok(old(self)@, Key { code, ctrl: false }),
        ensures
            final(self).wf(),
            normal_step(old(self)@, code, final(self)@, e),
    {
        match code {
            KeyCode::Char('q') | KeyCode::Esc => self.quit(),
            KeyCode::Char('j') | KeyCode::Down => {
                self.move_by(1);
                Effect::Nothing
            },
            KeyCode::Char('k') | KeyCode::Up => {
                self.move_by(-1);
                Effect::Nothing
            },
            KeyCode::Char('g') | KeyCode::Home => {
                self.jump(false);
                Effect::Nothing
            },
            KeyCode::Char('G') | KeyCode::End => {
                self.jump(true);
                Effect::Nothing
            },
            KeyCode::Char('x') | KeyCode::Char(' ') => self.mutate(Op::Toggle),
            KeyCode::Char('o') => self.mutate(Op::SetStatus(Status::Open)),
            KeyCode::Char('@') => self.mutate(Op::SetStatus(Status::Ongoing)),
            KeyCode::Char('~') => self.mutate(Op::SetStatus(Status::Obsolete)),
            KeyCode::Char('i') => self.mutate(Op::SetStatus(Status::InQuestion)),
            KeyCode::Char('>') => self.mutate(Op::Priority(1)),
            KeyCode::Char('<') => self.mutate(Op::Priority(-1)),
            KeyCode::Char('s') => {
                self.todo.sort();
                self.clamp_selection();
                Effect::Save
            },
            KeyCode::Char('f') => {
                self.cycle_filter();
                Effect::Nothing
            },
            KeyCode::Char('a') | KeyCode::Char('+') => {
                self.open_input(Mode::Add, String::new());
                Effect::Nothing
            },
            KeyCode::Char('e') => {
                match self.selected_real() {
                    Some(i) => {
                        let desc = self.todo.item_vec[i].description.clone();
                        self.open_input(Mode::Edit, desc);
                    },
                    None => {},
                }
                Effect::Nothing
            },
            KeyCode::Char('D') => {
                self.open_input(Mode::DueDate, String::new());
                Effect::Nothing
            },
            KeyCode::Char('r') | KeyCode::Char('-') => {
                if self.selected_real().is_some() {
                    self.mode = Mode::ConfirmRemove;
                }
                Effect::Nothing
            },
            KeyCode::Char('h') | KeyCode::F(1) => {
                self.mode = Mode::Help;
                Effect::Nothing
            },
            _ => Effect::Nothing,
        }
    }

    fn handle_text_input(&mut self, code: KeyCode) -> (e: Effect)
        requires
            old(self).wf(),
        ensures
            final(self).wf(),
            input_step(old(self)@, code, final(self)@, e),
    {
        match code {
            KeyCode::Esc => {
                self.input = String::new();
                self.mode = Mode::Normal;
                Effect::Nothing
            },
            KeyCode::Backspace => {
                let v = chars_of(self.input.as_str());
                if v.len() > 0 {
                    let w = crate::text::subvec(&v, 0, v.len() - 1);
                    proof {
                        assert(w@ =~= self.input@.drop_last());
                    }
                    self.input = string_of(w.as_slice());
                }
                Effect::Nothing
            },
            KeyCode::Char(c) => {
                let mut v = chars_of(self.input.as_str());
                v.push(c);
                self.input = string_of(v.as_slice());
                Effect::Nothing
            },
            KeyCode::Enter => self.commit_input(),
            _ => Effect::Nothing,
        }
    }

    /// Handles a key press and says what the program has to do next.
    pub fn handle_key(&mut self, key: Key) -> (e: Effect)
        requires
            old(self).wf(),
            key_ok(old(self)@, key),
        ensures
            final(self).wf(),
            step(old(self)@, key, final(self)@, e),
    {
        if key.ctrl && key.code == KeyCode::Char('c') {
            return self.quit();
        }
        match self.mode {
            Mode::Normal => self.handle_normal(key.code),
            Mode::Add | Mode::Edit | Mode::DueDate => self.handle_text_input(key.code),
            Mode::Help => {
                self.mode = Mode::Normal;
                Effect::Nothing
            },
            Mode::ConfirmRemove => self.handle_confirm(key.code),
        }
    }

    /// The answer to "remove?": `y` removes the selected item, any other key
    /// cancels; either way the list comes back.
    fn handle_confirm(&mut self, code: KeyCode) -> (e: Effect)
        requires
            old(self).wf(),
            old(self)@.mode == Mode::ConfirmRemove,
        ensures
            final(self).wf(),
            step(old(self)@, Key { code, ctrl: false }, final(self)@, e),
    {
        if code == KeyCode::Char('y') {
            let e = self.mutate(Op::Remove);
            self.mode = Mode::Normal;
            e
        } else {
            self.mode = Mode::Normal;
            Effect::Nothing
        }
    }
}

// ---- the selection stays on a visible row ----

/// The selected row is a visible row, and a row is selected whenever there
/// is one.
pub open spec fn selection_valid(a: AppView) -> bool {
    let n = visible(a.items, a.filter).len();
    match a.selected {
        Some(i) => i < n,
        None => n == 0,
    }
}

proof fn lemma_visible_same_states(x: Seq<ItemView>, y: Seq<ItemView>, f: Option<Status>)
    requires
        x.len() == y.len(),
        forall|k: int| 0 <= k < x.len() ==> (#[trigger] x[k]).state == y[k].state,
    ensures
        visible(x, f) == visible(y, f),
    decreases x.len(),
{
    if x.len() > 0 {
        lemma_visible_same_states(x.drop_last(), y.drop_last(), f);
        assert(x.last().state == y.last().state);
    }
}

proof fn lemma_visible_all(x: Seq<ItemView>)
    ensures
        visible(x, None).len() == x.len(),
    decreases x.len(),
{
    if x.len() > 0 {
        lemma_visible_all(x.drop_last());
    }
}

/// Every key press keeps the selection on a visible row (or none when no
/// row is visible).
pub proof fn lemma_step_keeps_selection(a: AppView, key: Key, b: AppView, e: Effect)
    requires
        selection_valid(a),
        step(a, key, b, e),
    ensures
        selection_valid(b),
{
    if !(key.ctrl && key.code == KeyCode::Char('c')) {
        match a.mode {
            Mode::Normal => lemma_normal_keeps_selection(a, key.code, b, e),
            Mode::Add | Mode::Edit | Mode::DueDate => lemma_input_keeps_selection(a, key.code, b, e),
            _ => {},
        }
    }
}

proof fn lemma_normal_keeps_selection(a: AppView, k: KeyCode, b: AppView, e: Effect)
    requires
        selection_valid(a),
        normal_step(a, k, b, e),
    ensures
        selection_valid(b),
{
}

proof fn lemma_input_keeps_selection(a: AppView, k: KeyCode, b: AppView, e: Effect)
    requires
        selection_valid(a),
        input_step(a, k, b, e),
    ensures
        selection_valid(b),
{
    if k == KeyCode::Enter && (a.mode == Mode::Edit || a.mode == Mode::DueDate) {
        if let Some(i) = selected_item(a) {
            lemma_visible_bounds(a.items, a.filter);
            lemma_visible_same_states(a.items, b.items, a.filter);
        }
    }
}

/// Every visible position is a position of the list, and they ascend.
proof fn lemma_visible_bounds(items: Seq<ItemView>, filter: Option<Status>)
    ensures
        forall|k: int|
            0 <= k < visible(items, filter).len() ==> 0 <= #[trigger] visible(items, filter)[k]
                < items.len(),
        visible(items, filter).len() <= items.len(),
    decreases items.len(),
{
    if items.len() > 0 {
        lemma_visible_bounds(items.drop_last(), filter);
    }
}

/// The status keys of the list view, as the help screen lists them: with a
/// row selected, `o` marks its item open, `@` ongoing, `~` obsolete, `i` in
/// question, and `x` or space check it (a checked one is opened again). The
/// item keeps its text, priority and due date, the other items stay as they
/// were, and the list is saved.
pub proof fn lemma_status_keys(a: AppView, key: Key, b: AppView, e: Effect)
    requires
        a.mode == Mode::Normal,
        selected_item(a) is Some,
        step(a, key, b, e),
        key.code == KeyCode::Char('o') || key.code == KeyCode::Char('@') || key.code
            == KeyCode::Char('~') || key.code == KeyCode::Char('i') || key.code == KeyCode::Char(
            'x',
        ) || key.code == KeyCode::Char(' '),
    ensures
        ({
            let i = selected_item(a)->0;
            &&& 0 <= i < a.items.len()
            &&& b.items.len() == a.items.len()
            &&& key.code == KeyCode::Char('o') ==> b.items[i].state == Status::Open
            &&& key.code == KeyCode::Char('@') ==> b.items[i].state == Status::Ongoing
            &&& key.code == KeyCode::Char('~') ==> b.items[i].state == Status::Obsolete
            &&& key.code == KeyCode::Char('i') ==> b.items[i].state == Status::InQuestion
            &&& (key.code == KeyCode::Char('x') || key.code == KeyCode::Char(' ')) ==> (
            b.items[i].state == if a.items[i].state == Status::Checked {
                Status::Open
            } else {
                Status::Checked
            })
            &&& b.items[i].description == a.items[i].description
            &&& b.items[i].priority == a.items[i].priority
            &&& b.items[i].due_date == a.items[i].due_date
            &&& forall|k: int| 0 <= k < a.items.len() && k != i ==> #[trigger] b.items[k] == a.items[k]
            &&& b.mode == Mode::Normal
            &&& e == Effect::Save
        }),
{
    lemma_visible_bounds(a.items, a.filter);
    let i = selected_item(a)->0;
    assert(a.items.len() > 0);
    assert(0 <= i < a.items.len());
}


/// The other keys of the list view, as the help screen lists them: `j` and
/// `k` (or the arrows) move the selection one row down and up, `>` and `<`
/// raise and lower the selected item's priority by one (never below 0, and
/// a negative one raised becomes 0),
/// `f` cycles the filter through open, ongoing, in question, checked,
/// obsolete and back to none, `a` (or `+`) and `D` open the add and
/// due-date popups with an empty input, `r` (or `-`) asks to confirm the
/// removal of the selected item, `h` shows help, and `q` (or Esc) quits
/// with the list saved and exported.
pub proof fn lemma_list_keys(a: AppView, key: Key, b: AppView, e: Effect)
    requires
        a.mode == Mode::Normal,
        !(key.ctrl && key.code == KeyCode::Char('c')),
        step(a, key, b, e),
    ensures
        a.selected matches Some(s) ==> ((key.code == KeyCode::Char('j') || key.code
            == KeyCode::Down) && s + 1 < visible(a.items, a.filter).len() ==> b.selected == Some(
            (s + 1) as usize,
        ) && b.items == a.items),
        a.selected matches Some(s) ==> ((key.code == KeyCode::Char('k') || key.code
            == KeyCode::Up) && 0 < s < visible(a.items, a.filter).len() ==> b.selected == Some(
            (s - 1) as usize,
        ) && b.items == a.items),
        selected_item(a) matches Some(i) ==> (key.code == KeyCode::Char('>')
            && a.items[i].priority < 127 ==> b.items[i].priority == (if a.items[i].priority >= 0 {
            a.items[i].priority + 1
        } else {
            0
        }) && b.items[i].state == a.items[i].state && e == Effect::Save),
        selected_item(a) matches Some(i) ==> (key.code == KeyCode::Char('<')
            ==> b.items[i].priority == (if a.items[i].priority > 0 {
            a.items[i].priority - 1
        } else {
            0
        }) && b.items[i].state == a.items[i].state && e == Effect::Save),
        key.code == KeyCode::Char('f') ==> b.items == a.items && (a.filter is None ==> b.filter
            == Some(Status::Open)) && (a.filter == Some(Status::Open) ==> b.filter == Some(
            Status::Ongoing,
        )) && (a.filter == Some(Status::Ongoing) ==> b.filter == Some(Status::InQuestion)) && (
        a.filter == Some(Status::InQuestion) ==> b.filter == Some(Status::Checked)) && (a.filter
            == Some(Status::Checked) ==> b.filter == Some(Status::Obsolete)) && (a.filter == Some(
            Status::Obsolete,
        ) ==> b.filter is None),
        (key.code == KeyCode::Char('a') || key.code == KeyCode::Char('+')) ==> b.mode == Mode::Add
            && b.input.len() == 0 && b.items == a.items,
        key.code == KeyCode::Char('D') ==> b.mode == Mode::DueDate && b.input.len() == 0
            && b.items == a.items,
        (key.code == KeyCode::Char('r') || key.code == KeyCode::Char('-')) && selected_item(a) is Some
            ==> b.mode == Mode::ConfirmRemove && b.items == a.items,
        key.code == KeyCode::Char('h') ==> b.mode == Mode::Help && b.items == a.items,
        (key.code == KeyCode::Char('q') || key.code == KeyCode::Esc) ==> b.should_quit && e
            == Effect::Quit && b.items == a.items,
{
    lemma_visible_bounds(a.items, a.filter);
    if let Some(i) = selected_item(a) {
        if key.code == KeyCode::Char('>') && a.items[i].priority < 127 {
            assert(0 <= i < a.items.len());
            let p = a.items[i].priority;
            let d: i8 = 1;
            assert((p + d) as i8 == p + d) by (bit_vector)
                requires
                    p < 127,
                    d == 1,
            ;
            assert(b.items == edited(a.items, i, Op::Priority(1i8)));
        }
    }
}

} // verus!
