//! Responses of the line-based front end and the text they render to.
use crate::item::Item;
use crate::text::{chars_of, concat, string_of};
use crate::todo::{item_views, spec_file_text};
use crossterm::style::Stylize;
use vstd::prelude::*;

verus! {

broadcast use vstd::seq_lib::group_seq_properties;

pub enum Response {
    Empty,
    Continue(String),
    Error(String),
    List,
    Help(&'static str),
    Save,
    Exit,
}

/// What the front end does after a response.
#[derive(Clone, Copy, PartialEq, Eq, Structural, Debug)]
pub enum Kind {
    Exit,
    Continue,
    Error,
}

/// The text of a response and what follows it.
pub struct Output {
    pub kind: Kind,
    pub value: String,
}

/// `r` is `s` in the foreground colour written `code` (`5;9` for red and
/// the like), as `crossterm` writes it: with the colour's escape sequence and
/// the one that resets the foreground, or with empty sequences where the
/// `NO_COLOR` variable is set, or (on a Windows console without ANSI
/// support, where the styled content is written to the console directly)
/// as the empty text.
pub open spec fn styled(s: Seq<char>, code: Seq<char>, r: Seq<char>) -> bool {
    ||| r == seq!['\u{1b}', '[', '3', '8', ';'] + code + seq!['m'] + s + seq![
        '\u{1b}',
        '[',
        '3',
        '9',
        'm',
    ]
    ||| r == seq!['\u{1b}', '[', 'm'] + s + seq!['\u{1b}', '[', 'm']
    ||| r == Seq::<char>::empty()
}

/// Wraps `crossterm::style::Stylize::red` (then `to_string`): the text in
/// red (`5;9`), in one of the forms of `styled`; which one depends on the
/// `NO_COLOR` variable and the console, so no more is stated.
#[verifier::external_body]
fn red_text(s: &str) -> (r: String)
    ensures
        styled(s@, seq!['5', ';', '9'], r@),
{
    s.red().to_string()
}

/// Wraps `crossterm::style::Stylize::yellow` (then `to_string`): the text in
/// yellow (`5;11`), in one of the forms of `styled`; which one depends on the
/// `NO_COLOR` variable and the console, so no more is stated.
#[verifier::external_body]
fn yellow_text(s: &str) -> (r: String)
    ensures
        styled(s@, seq!['5', ';', '1', '1'], r@),
{
    s.yellow().to_string()
}

/// Wraps `crossterm::style::Stylize::blue` (then `to_string`): the text in
/// blue (`5;12`), in one of the forms of `styled`; which one depends on the
/// `NO_COLOR` variable and the console, so no more is stated.
#[verifier::external_body]
fn blue_text(s: &str) -> (r: String)
    ensures
        styled(s@, seq!['5', ';', '1', '2'], r@),
{
    s.blue().to_string()
}

pub open spec fn all_wf(items: Seq<Item>) -> bool {
    forall|k: int| 0 <= k < items.len() ==> (#[trigger] items[k]).wf()
}

impl Response {
    /// The text of the response, with the list where it shows it.
    pub fn render(&self, items: &[Item]) -> (r: Output)
        requires
            all_wf(items@),
        ensures
            ({
                let list = spec_file_text(item_views(items@));
                match self {
                    Response::Empty => r.kind == Kind::Continue && r.value@ == Seq::<char>::empty(),
                    Response::Continue(msg) => r.kind == Kind::Continue && r.value@ == msg@,
                    Response::Error(msg) => {
                        &&& r.kind == Kind::Error
                        &&& r.value@.len() >= list.len()
                        &&& r.value@.take(list.len() as int) == list
                        &&& styled(msg@, seq!['5', ';', '9'], r.value@.skip(list.len() as int))
                    },
                    Response::List => r.kind == Kind::Continue && r.value@ == (if items@.len() == 0 {
                        "your todo list has no items, add one with the `add` command"@
                    } else {
                        list
                    }),
                    Response::Help(msg) => r.kind == Kind::Continue && styled(
                        msg@,
                        seq!['5', ';', '1', '1'],
                        r.value@,
                    ),
                    Response::Save => r.kind == Kind::Continue && r.value@ == list,
                    Response::Exit => r.kind == Kind::Exit && styled(
                        "buh-bye!"@,
                        seq!['5', ';', '1', '2'],
                        r.value@,
                    ),
                }
            }),
    {
        match self {
            Response::Empty => Output { kind: Kind::Continue, value: String::new() },
            Response::Continue(msg) => Output { kind: Kind::Continue, value: msg.clone() },
            Response::Error(msg) => {
                let list = Self::format_list(items);
                let red = red_text(msg.as_str());
                let v = concat(&chars_of(list.as_str()), &chars_of(red.as_str()));
                proof {
                    assert(v@.take(list@.len() as int) =~= list@);
                    assert(v@.skip(list@.len() as int) =~= red@);
                }
                Output { kind: Kind::Error, value: string_of(v.as_slice()) }
            },
            Response::List => {
                if items.len() == 0 {
                    Output {
                        kind: Kind::Continue,
                        value: string_of(
                            chars_of(
                                "your todo list has no items, add one with the `add` command",
                            ).as_slice(),
                        ),
                    }
                } else {
                    Output { kind: Kind::Continue, value: Self::format_list(items) }
                }
            },
            Response::Help(msg) => Output { kind: Kind::Continue, value: yellow_text(msg) },
            Response::Save => Output { kind: Kind::Continue, value: Self::format_list(items) },
            Response::Exit => Output { kind: Kind::Exit, value: blue_text("buh-bye!") },
        }
    }

    /// Each item's line, then a newline.
    fn format_list(items: &[Item]) -> (r: String)
        requires
            all_wf(items@),
        ensures
            r@ == spec_file_text(item_views(items@)),
    {
        let ghost iv = item_views(items@);
        let mut out: Vec<char> = Vec::new();
        let mut i: usize = 0;
        while i < items.len()
            invariant
                i <= items.len(),
                all_wf(items@),
                iv == item_views(items@),
                out@ == spec_file_text(iv.take(i as int)),
            decreases items.len() - i,
        {
            let line = items[i].get_file_string();
            let mut nl: Vec<char> = Vec::new();
            nl.push('\n');
            out = concat(&concat(&out, &chars_of(line.as_str())), &nl);
            proof {
                assert(iv.take(i + 1).drop_last() =~= iv.take(i as int));
                assert(iv.take(i + 1).last() == items@[i as int]@);
                assert(nl@ =~= seq!['\n']);
            }
            i += 1;
        }
        proof {
            assert(iv.take(i as int) =~= iv);
        }
        string_of(out.as_slice())
    }
}

} // verus!
