//! Text for a colour terminal: strings with an ANSI colour, and the trait of
//! the values that can be shown as text.
use crate::response::Kind;
use crate::text::{chars_of, concat, int_text, int_to_vec, string_of};
use vstd::prelude::*;
use vstd::std_specs::convert::FromSpecImpl;

verus! {

#[derive(Clone, Copy, PartialEq, Eq, Structural, Debug)]
pub enum Color {
    Red,
    Green,
    Yellow,
    Blue,
    Default,
}

/// The SGR code of a colour: 31 to 34, or 0 for the default.
pub open spec fn color_code(c: Color) -> i32 {
    match c {
        Color::Red => 31,
        Color::Green => 32,
        Color::Yellow => 33,
        Color::Blue => 34,
        Color::Default => 0,
    }
}

impl From<&Color> for i32 {
    fn from(color: &Color) -> (r: i32) {
        match color {
            Color::Red => 31,
            Color::Green => 32,
            Color::Yellow => 33,
            Color::Blue => 34,
            Color::Default => 0,
        }
    }
}

impl FromSpecImpl<&Color> for i32 {
    open spec fn obeys_from_spec() -> bool {
        true
    }

    open spec fn from_spec(color: &Color) -> i32 {
        color_code(*color)
    }
}

/// A string to be shown in a colour.
pub struct ColoredString {
    pub color: Color,
    pub string: String,
}

/// The text of a coloured string: the colour's escape sequence, the
/// string, and the sequence that resets the colour.
pub open spec fn colored_text(c: Color, s: Seq<char>) -> Seq<char> {
    seq!['\u{1b}', '['] + int_text(color_code(c) as int) + seq!['m'] + s + seq![
        '\u{1b}',
        '[',
        '0',
        'm',
    ]
}

/// The lines of coloured strings, each ended by a newline.
pub open spec fn colored_lines(v: Seq<ColoredString>) -> Seq<char>
    decreases v.len(),
{
    if v.len() == 0 {
        Seq::empty()
    } else {
        colored_lines(v.drop_last()) + colored_text(v.last().color, v.last().string@) + seq!['\n']
    }
}

/// A value that can be shown as text.
pub trait Outputtable {
    spec fn shown(&self) -> Seq<char>;

    fn show(&self) -> (r: String)
        ensures
            r@ == self.shown(),
    ;
}

fn colored_chars(c: Color, s: &Vec<char>) -> (r: Vec<char>)
    ensures
        r@ == colored_text(c, s@),
{
    let code = i32::from(&c);
    let mut head: Vec<char> = Vec::new();
    head.push('\u{1b}');
    head.push('[');
    let mut tail: Vec<char> = Vec::new();
    tail.push('\u{1b}');
    tail.push('[');
    tail.push('0');
    tail.push('m');
    let mut m: Vec<char> = Vec::new();
    m.push('m');
    let a = concat(&head, &int_to_vec(code as i64));
    let b = concat(&concat(&a, &m), s);
    let r = concat(&b, &tail);
    proof {
        assert(head@ =~= seq!['\u{1b}', '[']);
        assert(m@ =~= seq!['m']);
        assert(tail@ =~= seq!['\u{1b}', '[', '0', 'm']);
    }
    r
}

impl Outputtable for ColoredString {
    open spec fn shown(&self) -> Seq<char> {
        colored_text(self.color, self.string@)
    }

    fn show(&self) -> (r: String) {
        string_of(colored_chars(self.color, &chars_of(self.string.as_str())).as_slice())
    }
}

impl Outputtable for Vec<ColoredString> {
    open spec fn shown(&self) -> Seq<char> {
        colored_lines(self@)
    }

    fn show(&self) -> (r: String) {
        let mut out: Vec<char> = Vec::new();
        let mut i: usize = 0;
        while i < self.len()
            invariant
                i <= self.len(),
                out@ == colored_lines(self@.take(i as int)),
            decreases self.len() - i,
        {
            let line = colored_chars(self[i].color, &chars_of(self[i].string.as_str()));
            let mut nl: Vec<char> = Vec::new();
            nl.push('\n');
            out = concat(&concat(&out, &line), &nl);
            proof {
                assert(self@.take(i + 1).drop_last() =~= self@.take(i as int));
                assert(nl@ =~= seq!['\n']);
            }
            i += 1;
        }
        proof {
            assert(self@.take(i as int) =~= self@);
        }
        string_of(out.as_slice())
    }
}

impl Outputtable for String {
    open spec fn shown(&self) -> Seq<char> {
        self@
    }

    fn show(&self) -> (r: String) {
        self.clone()
    }
}

impl From<String> for ColoredString {
    /// A string shown in blue.
    fn from(string: String) -> (r: ColoredString) {
        ColoredString { color: Color::Blue, string }
    }
}

impl FromSpecImpl<String> for ColoredString {
    open spec fn obeys_from_spec() -> bool {
        true
    }

    open spec fn from_spec(string: String) -> ColoredString {
        ColoredString { color: Color::Blue, string }
    }
}

/// A value to be shown, with the kind of response it belongs to.
pub struct Output<'a, T> where T: Outputtable {
    pub kind: &'a Kind,
    pub value: &'a T,
}

impl<'a, T: Outputtable> Output<'a, T> {
    /// The text of the value.
    pub fn text(&self) -> (r: String)
        ensures
            r@ == self.value.shown(),
    {
        self.value.show()
    }
}

} // verus!
