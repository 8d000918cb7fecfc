//! A todo item and its line in a `.xit` file.
use crate::date::{
    chrono_parse_result, dash_date_text, format_date_with, lemma_ymd_dash_text_chars,
    parse_date_with, ymd_dash_text, Date,
};
use crate::text::{
    all_ws, byte_prefix_or_all, byte_prefix_vec, chars_of, concat, eq_str, is_ws,
    lemma_ascii_byte_prefix, lemma_find_ws_after, lemma_find_ws_bounds, lemma_trimmed_ends, lemma_rfind_arrow, lemma_rfind_arrow_prefix,
    lemma_rfind_arrow_suffix, lemma_trim_end_skip_ws, lemma_trim_end_stop,
    lemma_trim_start_skip_ws, lemma_trim_start_stop, no_char, no_ws, rfind_arrow, rsplit_arrow,
    rsplit_arrow_vec, split_once_ws, split_once_ws_vec, string_of, subvec, trim, trim_start, trim_start_vec, trim_vec,
};
use vstd::prelude::*;
use vstd::std_specs::cmp::PartialEqSpecImpl;

verus! {

#[derive(Clone, Copy, PartialEq, Eq, Structural, Debug)]
pub enum Status {
    Open,
    Ongoing,
    Checked,
    Obsolete,
    InQuestion,
}

/// The marker that begins an item's line, with its trailing space.
pub open spec fn status_marker(s: Status) -> Seq<char> {
    match s {
        Status::Open => "[ ] "@,
        Status::Ongoing => "[@] "@,
        Status::Checked => "[x] "@,
        Status::Obsolete => "[~] "@,
        Status::InQuestion => "[?] "@,
    }
}

/// The status named by a three-character marker.
pub open spec fn spec_status_from(s: Seq<char>) -> Option<Status> {
    if s == "[ ]"@ {
        Some(Status::Open)
    } else if s == "[@]"@ {
        Some(Status::Ongoing)
    } else if s == "[x]"@ {
        Some(Status::Checked)
    } else if s == "[~]"@ {
        Some(Status::Obsolete)
    } else if s == "[?]"@ {
        Some(Status::InQuestion)
    } else {
        None
    }
}

impl Status {
    pub fn as_str(&self) -> (r: &'static str)
        ensures
            r@ == status_marker(*self),
    {
        match self {
            Status::Open => "[ ] ",
            Status::Ongoing => "[@] ",
            Status::Checked => "[x] ",
            Status::Obsolete => "[~] ",
            Status::InQuestion => "[?] ",
        }
    }

    pub fn from_str(s: &str) -> (r: Option<Status>)
        ensures
            r == spec_status_from(s@),
    {
        let v = chars_of(s);
        from_marker(&v)
    }
}

fn from_marker(v: &Vec<char>) -> (r: Option<Status>)
    ensures
        r == spec_status_from(v@),
{
    if eq_str(v, "[ ]") {
        Some(Status::Open)
    } else if eq_str(v, "[@]") {
        Some(Status::Ongoing)
    } else if eq_str(v, "[x]") {
        Some(Status::Checked)
    } else if eq_str(v, "[~]") {
        Some(Status::Obsolete)
    } else if eq_str(v, "[?]") {
        Some(Status::InQuestion)
    } else {
        None
    }
}

pub struct Item {
    pub description: String,
    pub state: Status,
    pub due_date: Option<Date>,
    pub priority: i8,
}

/// The mathematical content of an `Item`.
pub struct ItemView {
    pub description: Seq<char>,
    pub state: Status,
    pub due_date: Option<Date>,
    pub priority: i8,
}

impl View for Item {
    type V = ItemView;

    open spec fn view(&self) -> ItemView {
        ItemView {
            description: self.description@,
            state: self.state,
            due_date: self.due_date,
            priority: self.priority,
        }
    }
}

impl ItemView {
    pub open spec fn wf(self) -> bool {
        self.due_date matches Some(d) ==> d.wf()
    }
}

impl Item {
    pub open spec fn wf(&self) -> bool {
        self@.wf()
    }
}

// ---- the line format ----

pub open spec fn date_of(t: (int, int, int)) -> Date {
    Date { year: t.0 as i32, month: t.1 as u32, day: t.2 as u32 }
}

/// What `chrono` reads from `s` as `%Y-%m-%d`, or else as `%Y/%m/%d`.
pub open spec fn parse_date_text(s: Seq<char>) -> Option<Date> {
    match chrono_parse_result(s, "%Y-%m-%d"@) {
        Some(t) => Some(date_of(t)),
        None => match chrono_parse_result(s, "%Y/%m/%d"@) {
            Some(t) => Some(date_of(t)),
            None => None,
        },
    }
}

/// A due date: the leading ten bytes of `s` (all of it when they do not end
/// on a character boundary) read as a date.
pub open spec fn spec_parse_dates(s: Seq<char>) -> Option<Date> {
    parse_date_text(byte_prefix_or_all(s, 10))
}

/// A line that begins with one of the five status markers.
pub open spec fn line_ok(s: Seq<char>) -> bool {
    s.len() >= 3 && spec_status_from(s.take(3)) is Some
}

pub open spec fn all_bangs(s: Seq<char>) -> bool {
    forall|i: int| 0 <= i < s.len() ==> #[trigger] s[i] == '!'
}

/// The text after the marker, split into body and due date: a trailing
/// `-> <date>` is the due date only when the date parses.
pub open spec fn body_and_due(rest: Seq<char>) -> (Seq<char>, Option<Date>) {
    match rsplit_arrow(rest) {
        Some(p) => match spec_parse_dates(trim(p.1)) {
            Some(d) => (p.0, Some(d)),
            None => (rest, None),
        },
        None => (rest, None),
    }
}

/// The body split into a leading run of `!` (the priority) and the
/// description.
pub open spec fn priority_and_description(body: Seq<char>) -> (i8, Seq<char>) {
    match split_once_ws(body) {
        Some(p) => if p.0.len() > 0 && all_bangs(p.0) {
            (p.0.len() as i8, trim_start(p.1))
        } else {
            (0, body)
        },
        None => (0, body),
    }
}

/// The item that a `.xit` line describes.
pub open spec fn spec_parse_line(s: Seq<char>) -> ItemView {
    let state = spec_status_from(s.take(3))->0;
    let bd = body_and_due(s.skip(3));
    let pd = priority_and_description(trim(bd.0));
    ItemView { description: pd.1, state, due_date: bd.1, priority: pd.0 }
}

pub open spec fn bangs(n: int) -> Seq<char> {
    Seq::new(n as nat, |i: int| '!')
}

/// The text between marker and description: ` !!! ` for a positive
/// priority, else one space.
pub open spec fn priority_text(p: i8) -> Seq<char> {
    if p > 0 {
        " "@ + bangs(p as int) + " "@
    } else {
        " "@
    }
}

/// ` -> YYYY-MM-DD` for a due date, else nothing.
pub open spec fn due_text(d: Option<Date>) -> Seq<char> {
    match d {
        Some(d) => " -> "@ + date_text(d),
        None => seq![],
    }
}

/// A due date as `chrono` writes it with `%Y-%m-%d`: `YYYY-MM-DD` for the
/// years 0 to 9999, a signed year of at least four digits otherwise.
pub open spec fn date_text(d: Date) -> Seq<char> {
    if 0 <= d.year <= 9999 {
        ymd_dash_text(d.year as int, d.month as int, d.day as int)
    } else {
        dash_date_text(d.year as int, d.month as int, d.day as int)
    }
}

/// The line of an item in a `.xit` file.
pub open spec fn spec_file_string(i: ItemView) -> Seq<char> {
    status_marker(i.state) + priority_text(i.priority) + i.description + due_text(i.due_date)
}

fn bang_vec(n: i8) -> (r: Vec<char>)
    requires
        n > 0,
    ensures
        r@ == bangs(n as int),
{
    let mut v: Vec<char> = Vec::new();
    let mut i: i8 = 0;
    while i < n
        invariant
            0 <= i <= n,
            v@ == bangs(i as int),
        decreases n - i,
    {
        v.push('!');
        i += 1;
        proof {
            assert(v@ =~= bangs(i as int));
        }
    }
    v
}

fn all_bangs_vec(v: &Vec<char>) -> (r: bool)
    ensures
        r == all_bangs(v@),
{
    let mut i: usize = 0;
    while i < v.len()
        invariant
            i <= v.len(),
            forall|j: int| 0 <= j < i ==> #[trigger] v@[j] == '!',
        decreases v.len() - i,
    {
        if v[i] != '!' {
            return false;
        }
        i += 1;
    }
    true
}

impl Item {
    pub fn new(description: String, state: Status, due_date: Option<Date>, priority: i8) -> (r:
        Self)
        ensures
            r@ == (ItemView { description: description@, state, due_date, priority }),
    {
        Item { description, state, due_date, priority }
    }

    /// Reads a due date from text: `YYYY-MM-DD` or `YYYY/MM/DD` in the first
    /// ten bytes; anything after them is ignored.
    pub fn parse_dates(date_string: &str) -> (r: Option<Date>)
        ensures
            r == spec_parse_dates(date_string@),
            r matches Some(d) ==> d.wf(),
    {
        let v = chars_of(date_string);
        let head = byte_prefix_vec(&v, 10);
        parse_date_chars(&head)
    }

    /// Reads a `.xit` line: status marker, optional `!` priority run,
    /// description, optional `-> <date>`.
    pub fn parse_line(string: &str) -> (r: Self)
        requires
            line_ok(string@),
        ensures
            r@ == spec_parse_line(string@),
            r.wf(),
            forall|i: ItemView|
                line_stable(i) && string@ == #[trigger] spec_file_string(i) ==> r@ == i,
    {
        let v = chars_of(string);
        parse_line_chars(&v)
    }

    /// The priority part and the due-date part of the item's line.
    pub fn suffix(&self) -> (r: (String, String))
        requires
            self.wf(),
        ensures
            r.0@ == priority_text(self.priority),
            r.1@ == due_text(self.due_date),
    {
        let priority = if self.priority > 0 {
            let sp = chars_of(" ");
            let b = bang_vec(self.priority);
            let t = concat(&concat(&sp, &b), &sp);
            string_of(t.as_slice())
        } else {
            string_of(chars_of(" ").as_slice())
        };
        let date_string = match self.due_date {
            Some(d) => {
                let f = format_date_with(&d, "%Y-%m-%d");
                let t = concat(&chars_of(" -> "), &chars_of(f.as_str()));
                string_of(t.as_slice())
            },
            None => string_of(Vec::<char>::new().as_slice()),
        };
        (priority, date_string)
    }

    /// The item's line in a `.xit` file.
    pub fn get_file_string(&self) -> (r: String)
        requires
            self.wf(),
        ensures
            r@ == spec_file_string(self@),
            line_ok(r@),
    {
        proof {
            lemma_marker(self.state);
            let m = status_marker(self.state);
            let t = priority_text(self.priority) + self.description@ + due_text(self.due_date);
            assert((m + t).take(3) =~= m.take(3));
            assert(spec_file_string(self@) =~= m + t);
        }
        let prefix = chars_of(self.state.as_str());
        let (priority, date_string) = self.suffix();
        let a = concat(&prefix, &chars_of(priority.as_str()));
        let b = concat(&a, &chars_of(self.description.as_str()));
        let c = concat(&b, &chars_of(date_string.as_str()));
        string_of(c.as_slice())
    }
}

fn parse_date_chars(v: &Vec<char>) -> (r: Option<Date>)
    ensures
        r == parse_date_text(v@),
        r matches Some(d) ==> d.wf(),
        forall|d: Date| d.wf() && 0 <= d.year <= 9999 && v@ == date_text(d) ==> r == Some(d),
{
    let s = string_of(v.as_slice());
    match parse_date_with(s.as_str(), "%Y-%m-%d") {
        Some(d) => Some(d),
        None => parse_date_with(s.as_str(), "%Y/%m/%d"),
    }
}

#[verifier::spinoff_prover]
fn parse_line_chars(v: &Vec<char>) -> (r: Item)
    requires
        line_ok(v@),
    ensures
        r@ == spec_parse_line(v@),
        r.wf(),
        forall|i: ItemView| line_stable(i) && v@ == #[trigger] spec_file_string(i) ==> r@ == i,
{
    let marker = subvec(v, 0, 3);
    let rest = subvec(v, 3, v.len());
    proof {
        assert(marker@ =~= v@.take(3));
        assert(rest@ =~= v@.skip(3));
    }
    let state = from_marker(&marker).unwrap();
    let ghost mut read_text: Seq<char> = Seq::empty();
    let ghost mut read_date: Option<Date> = None;
    let (body, due_date) = match rsplit_arrow_vec(&rest) {
        Some((before, after)) => {
            let t = trim_vec(&after);
            let v2 = byte_prefix_vec(&t, 10);
            let pd = parse_date_chars(&v2);
            proof {
                read_text = v2@;
                read_date = pd;
            }
            match pd {
                Some(d) => (before, Some(d)),
                None => (rest, None),
            }
        },
        None => (rest, None),
    };
    let body = trim_vec(&body);
    let (priority, description) = match split_once_ws_vec(&body) {
        Some((head, tail)) => {
            if head.len() > 0 && all_bangs_vec(&head) {
                (head.len() as i8, trim_start_vec(&tail))
            } else {
                (0i8, body)
            }
        },
        None => (0i8, body),
    };
    let r = Item::new(string_of(description.as_slice()), state, due_date, priority);
    proof {
        assert forall|i: ItemView| line_stable(i) && v@ == #[trigger] spec_file_string(i) implies r@
            == i by {
            if let Some(dd) = i.due_date {
                lemma_line_parts(i);
                assert(read_text == date_text(dd));
            }
            lemma_line_round_trip(i);
        }
    }
    r
}

impl Item {
    /// A fresh open item with this description, no due date, priority 0.
    pub fn from_description(string: &str) -> (r: Self)
        ensures
            r@ == (ItemView { description: string@, state: Status::Open, due_date: None, priority: 0 }),
            r.wf(),
    {
        Item::new(string_of(chars_of(string).as_slice()), Status::Open, None, 0)
    }
}


// ---- reading back a written line ----

/// An item that its own line gives back: a due date in the years 0 to
/// 9999, no negative priority, a description without whitespace at either
/// end, not empty after a priority marker, not beginning with a word of
/// `!` when there is no priority, and, when there is no due date, whose
/// last `->` is not followed by a date.
pub open spec fn line_stable(i: ItemView) -> bool {
    &&& i.wf()
    &&& (i.due_date matches Some(d) ==> 0 <= d.year <= 9999)
    &&& i.priority >= 0
    &&& (i.description.len() > 0 ==> !is_ws(i.description[0]) && !is_ws(i.description.last()))
    &&& (i.priority > 0 ==> i.description.len() > 0)
    &&& (i.priority == 0 ==> !(split_once_ws(i.description) matches Some(q) && q.0.len() > 0
        && all_bangs(q.0)))
    &&& (i.due_date is None ==> !(rsplit_arrow(i.description) matches Some(q) && spec_parse_dates(
        trim(q.1),
    ) is Some))
}

/// An item reads back from its line (`line_stable`) when its description
/// is trimmed, holds no `->` where it has no due date, and does not start
/// with `!` where its priority is 0; its priority is not negative, and not
/// positive with an empty description; and its due date lies in the years
/// 0 to 9999.
pub proof fn lemma_plain_line_stable(i: ItemView)
    requires
        i.wf(),
        trim(i.description) == i.description,
        i.priority >= 0,
        i.priority > 0 ==> i.description.len() > 0,
        i.priority == 0 && i.description.len() > 0 ==> i.description[0] != '!',
        i.due_date is None ==> forall|k: int|
            0 <= k < i.description.len() - 1 ==> !(#[trigger] i.description[k] == '-'
                && i.description[k + 1] == '>'),
        i.due_date matches Some(d) ==> 0 <= d.year <= 9999,
    ensures
        line_stable(i),
{
    let d = i.description;
    if d.len() > 0 {
        lemma_trimmed_ends(d);
    }
    lemma_find_ws_bounds(d);
    if let Some(q) = split_once_ws(d) {
        if q.0.len() > 0 && i.priority == 0 {
            assert(q.0[0] == d[0]);
        }
    }
    lemma_rfind_arrow(d);
}

/// The status markers of the `.xit` format: `[ ]` open, `[@]` ongoing,
/// `[x]` checked, `[~]` obsolete and `[?]` in question, each written with a
/// space after it and read without it.
pub proof fn lemma_marker_table()
    ensures
        spec_status_from(seq!['[', ' ', ']']) == Some(Status::Open),
        spec_status_from(seq!['[', '@', ']']) == Some(Status::Ongoing),
        spec_status_from(seq!['[', 'x', ']']) == Some(Status::Checked),
        spec_status_from(seq!['[', '~', ']']) == Some(Status::Obsolete),
        spec_status_from(seq!['[', '?', ']']) == Some(Status::InQuestion),
        status_marker(Status::Open) == seq!['[', ' ', ']', ' '],
        status_marker(Status::Ongoing) == seq!['[', '@', ']', ' '],
        status_marker(Status::Checked) == seq!['[', 'x', ']', ' '],
        status_marker(Status::Obsolete) == seq!['[', '~', ']', ' '],
        status_marker(Status::InQuestion) == seq!['[', '?', ']', ' '],
{
    reveal_strlit("[ ] ");
    reveal_strlit("[@] ");
    reveal_strlit("[x] ");
    reveal_strlit("[~] ");
    reveal_strlit("[?] ");
    reveal_strlit("[ ]");
    reveal_strlit("[@]");
    reveal_strlit("[x]");
    reveal_strlit("[~]");
    reveal_strlit("[?]");
    assert("[ ]"@ =~= seq!['[', ' ', ']']);
    assert("[@]"@ =~= seq!['[', '@', ']']);
    assert("[x]"@ =~= seq!['[', 'x', ']']);
    assert("[~]"@ =~= seq!['[', '~', ']']);
    assert("[?]"@ =~= seq!['[', '?', ']']);
    assert("[ ] "@ =~= seq!['[', ' ', ']', ' ']);
    assert("[@] "@ =~= seq!['[', '@', ']', ' ']);
    assert("[x] "@ =~= seq!['[', 'x', ']', ' ']);
    assert("[~] "@ =~= seq!['[', '~', ']', ' ']);
    assert("[?] "@ =~= seq!['[', '?', ']', ' ']);
}

/// A line shows the priority as that many `!` between the marker and the
/// description, with a space on each side; a priority of 0 or less shows
/// none.
pub proof fn lemma_priority_bangs(p: i8)
    ensures
        p > 0 ==> priority_text(p).len() == p + 2 && priority_text(p)[0] == ' '
            && priority_text(p)[p + 1] == ' ' && forall|k: int|
            1 <= k <= p ==> #[trigger] priority_text(p)[k] == '!',
        p <= 0 ==> priority_text(p) == seq![' '],
{
    reveal_strlit(" ");
    assert(" "@ =~= seq![' ']);
}

/// A due date is written at the end of the line after ` -> `, as
/// `YYYY-MM-DD` in the years 0 to 9999; without one nothing is written.
pub proof fn lemma_due_arrow(d: Option<Date>)
    ensures
        d matches Some(x) ==> due_text(d) == seq![' ', '-', '>', ' '] + date_text(x),
        d matches Some(x) ==> (0 <= x.year <= 9999 ==> date_text(x).len() == 10
            && date_text(x)[4] == '-' && date_text(x)[7] == '-'),
        d is None ==> due_text(d).len() == 0,
{
    reveal_strlit(" -> ");
    assert(" -> "@ =~= seq![' ', '-', '>', ' ']);
}

/// Each status marker, without its space, reads back as its status.
pub proof fn lemma_marker(st: Status)
    ensures
        status_marker(st).len() == 4,
        spec_status_from(status_marker(st).take(3)) == Some(st),
        status_marker(st).skip(3) == " "@,
{
    reveal_strlit("[ ] ");
    reveal_strlit("[@] ");
    reveal_strlit("[x] ");
    reveal_strlit("[~] ");
    reveal_strlit("[?] ");
    reveal_strlit("[ ]");
    reveal_strlit("[@]");
    reveal_strlit("[x]");
    reveal_strlit("[~]");
    reveal_strlit("[?]");
    reveal_strlit(" ");
    let m = status_marker(st);
    assert(m.skip(3) =~= " "@);
    let c = m.take(3)[1];
    assert(" "@[0] == ' ');
    assert("[ ]"@[1] == ' ');
    assert("[@]"@[1] == '@');
    assert("[x]"@[1] == 'x');
    assert("[~]"@[1] == '~');
    assert("[?]"@[1] == '?');
    match st {
        Status::Open => {
            assert(m.take(3) =~= "[ ]"@);
        },
        Status::Ongoing => {
            assert(m.take(3) =~= "[@]"@);
        },
        Status::Checked => {
            assert(m.take(3) =~= "[x]"@);
        },
        Status::Obsolete => {
            assert(m.take(3) =~= "[~]"@);
        },
        Status::InQuestion => {
            assert(m.take(3) =~= "[?]"@);
        },
    }
    assert(c == m.take(3)[1]);
}

/// The trimmed body of a line: the priority marker and the description.
proof fn lemma_body_trim(p: i8, d: Seq<char>, tail: Seq<char>)
    requires
        p >= 0,
        d.len() > 0 ==> !is_ws(d[0]) && !is_ws(d.last()),
        p > 0 ==> d.len() > 0,
        all_ws(tail),
    ensures
        trim(" "@ + priority_text(p) + d + tail) == (if p > 0 {
            bangs(p as int) + " "@ + d
        } else {
            d
        }),
{
    reveal_strlit(" ");
    let x = " "@ + priority_text(p);
    if p > 0 {
        let b = bangs(p as int);
        let w = seq![' ', ' '];
        let z = b + " "@ + d + tail;
        assert(x + d + tail =~= w + z);
        assert(all_ws(w));
        lemma_trim_start_skip_ws(w, z);
        assert(z[0] == '!');
        lemma_trim_start_stop(z);
        lemma_trim_end_skip_ws(b + " "@ + d, tail);
        lemma_trim_end_stop(b + " "@ + d);
    } else {
        let w = seq![' ', ' '];
        assert(x + d + tail =~= w + (d + tail));
        assert(all_ws(w));
        lemma_trim_start_skip_ws(w, d + tail);
        if d.len() > 0 {
            assert((d + tail)[0] == d[0]);
            lemma_trim_start_stop(d + tail);
            lemma_trim_end_skip_ws(d, tail);
            lemma_trim_end_stop(d);
        } else {
            assert(d + tail =~= tail);
            assert(seq![] + tail =~= tail);
            lemma_trim_start_skip_ws(tail, seq![]);
            assert(tail + seq![] =~= tail);
            assert(trim_start(Seq::<char>::empty()) =~= Seq::<char>::empty());
        }
    }
}

/// Reading the priority from the trimmed body.
proof fn lemma_body_priority(p: i8, d: Seq<char>)
    requires
        p > 0,
        d.len() > 0,
        !is_ws(d[0]),
    ensures
        priority_and_description(bangs(p as int) + " "@ + d) == (p, d),
{
    reveal_strlit(" ");
    let b = bangs(p as int);
    assert(no_ws(b));
    lemma_find_ws_after(b, " "@ + d);
    assert((" "@ + d)[0] == ' ');
    let body = b + " "@ + d;
    assert(body =~= b + (" "@ + d));
    assert(body.take(b.len() as int) =~= b);
    assert(body.skip(b.len() as int + 1) =~= d);
    assert(all_bangs(b));
    lemma_trim_start_stop(d);
}

/// Where the line of an item with a due date splits at its last arrow.
proof fn lemma_line_parts(i: ItemView)
    requires
        line_stable(i),
        i.due_date is Some,
    ensures
        ({
            let y = date_text(i.due_date->0);
            &&& rsplit_arrow(spec_file_string(i).skip(3)) == Some(
                (" "@ + priority_text(i.priority) + i.description + " "@, " "@ + y),
            )
            &&& trim(" "@ + y) == y
            &&& byte_prefix_or_all(y, 10) == y
        }),
{
    reveal_strlit(" ");
    reveal_strlit(" -> ");
    let s = spec_file_string(i);
    let m = status_marker(i.state);
    let pt = priority_text(i.priority);
    let d = i.description;
    let dd = i.due_date->0;
    let y = date_text(dd);
    lemma_marker(i.state);
    let x = " "@ + pt;
    let rest = s.skip(3);
    assert(s =~= m + (pt + d + due_text(i.due_date)));
    assert(rest =~= x + d + " -> "@ + y);
    lemma_ymd_dash_text_chars(dd.year as int, dd.month as int, dd.day as int);
    let a = x + d + seq![' ', '-', '>'];
    let b = " "@ + y;
    assert(rest =~= a + b);
    assert(no_char(b, '>'));
    lemma_rfind_arrow_suffix(a, b);
    assert(rfind_arrow(a) == Some(a.len() - 2));
    assert(rest.take(a.len() - 2) =~= x + d + " "@);
    assert(rest.skip(a.len() as int) =~= b);
    let w = seq![' '];
    assert(b =~= w + y);
    assert(all_ws(w));
    lemma_trim_start_skip_ws(w, y);
    lemma_trim_start_stop(y);
    lemma_trim_end_stop(y);
    lemma_ascii_byte_prefix(y);
}

/// Writing an item and reading the line back gives the item, for the items
/// of `line_stable` (given that `chrono` reads its own date text back).
#[verifier::spinoff_prover]
proof fn lemma_line_round_trip(i: ItemView)
    requires
        line_stable(i),
        i.due_date matches Some(d) ==> parse_date_text(date_text(d)) == Some(d),
    ensures
        line_ok(spec_file_string(i)),
        spec_parse_line(spec_file_string(i)) == i,
{
    reveal_strlit(" ");
    let s = spec_file_string(i);
    let m = status_marker(i.state);
    let pt = priority_text(i.priority);
    let d = i.description;
    let t = due_text(i.due_date);
    lemma_marker(i.state);
    assert(s =~= m + (pt + d + t));
    assert(s.take(3) =~= m.take(3));
    let x = " "@ + pt;
    let rest = s.skip(3);
    assert(rest =~= x + d + t);
    assert(no_char(x, '>'));
    assert(x.last() == ' ');
    match i.due_date {
        Some(dd) => {
            lemma_line_parts(i);
            assert(body_and_due(rest) == (x + d + " "@, Some(dd)));
            assert(all_ws(" "@));
            lemma_body_trim(i.priority, d, " "@);
        },
        None => {
            assert(t =~= Seq::<char>::empty());
            assert(rest =~= x + d);
            lemma_rfind_arrow_prefix(x, d);
            match rfind_arrow(d) {
                Some(k) => {
                    lemma_rfind_arrow(d);
                    assert(rest.skip(k + x.len() + 2) =~= d.skip(k + 2));
                },
                None => {},
            }
            assert(body_and_due(rest) == (rest, None::<Date>));
            assert(all_ws(Seq::<char>::empty()));
            lemma_body_trim(i.priority, d, Seq::<char>::empty());
            assert(x + d + Seq::<char>::empty() =~= rest);
        },
    }
    if i.priority > 0 {
        lemma_body_priority(i.priority, d);
    }
}

// ---- ordering ----

/// Rank of a status in the list order: ongoing, open, in question, checked,
/// obsolete.
pub open spec fn status_rank(s: Status) -> int {
    match s {
        Status::Ongoing => 0,
        Status::Open => 1,
        Status::InQuestion => 2,
        Status::Checked => 3,
        Status::Obsolete => 4,
    }
}

/// Lexicographic order of texts by character.
pub open spec fn text_lt(a: Seq<char>, b: Seq<char>) -> bool
    decreases a.len(),
{
    if a.len() == 0 {
        b.len() > 0
    } else if b.len() == 0 {
        false
    } else if a[0] != b[0] {
        (a[0] as u32) < (b[0] as u32)
    } else {
        text_lt(a.drop_first(), b.drop_first())
    }
}

/// `a` sorts strictly before `b`: by status rank, then higher priority
/// first, then by description.
pub open spec fn item_before(a: ItemView, b: ItemView) -> bool {
    status_rank(a.state) < status_rank(b.state) || (status_rank(a.state) == status_rank(b.state)
        && (a.priority > b.priority || (a.priority == b.priority && text_lt(
        a.description,
        b.description,
    ))))
}

fn rank(s: Status) -> (r: u8)
    ensures
        r == status_rank(s),
{
    match s {
        Status::Ongoing => 0,
        Status::Open => 1,
        Status::InQuestion => 2,
        Status::Checked => 3,
        Status::Obsolete => 4,
    }
}

fn text_less(a: &Vec<char>, b: &Vec<char>) -> (r: bool)
    ensures
        r == text_lt(a@, b@),
{
    let mut i: usize = 0;
    proof {
        assert(a@.skip(0) =~= a@);
        assert(b@.skip(0) =~= b@);
    }
    while i < a.len() && i < b.len() && a[i] == b[i]
        invariant
            i <= a.len(),
            i <= b.len(),
            text_lt(a@, b@) == text_lt(a@.skip(i as int), b@.skip(i as int)),
        decreases a.len() - i,
    {
        proof {
            assert(a@.skip(i as int).drop_first() =~= a@.skip(i + 1));
            assert(b@.skip(i as int).drop_first() =~= b@.skip(i + 1));
        }
        i += 1;
    }
    proof {
        if i < a.len() {
            assert(a@.skip(i as int)[0] == a@[i as int]);
        }
        if i < b.len() {
            assert(b@.skip(i as int)[0] == b@[i as int]);
        }
    }
    if i == a.len() {
        i < b.len()
    } else if i == b.len() {
        false
    } else {
        (a[i] as u32) < (b[i] as u32)
    }
}

impl Item {
    /// This item sorts strictly before `other`.
    pub fn sorts_before(&self, other: &Item) -> (r: bool)
        ensures
            r == item_before(self@, other@),
    {
        let ra = rank(self.state);
        let rb = rank(other.state);
        if ra != rb {
            return ra < rb;
        }
        if self.priority != other.priority {
            return self.priority > other.priority;
        }
        let a = chars_of(self.description.as_str());
        let b = chars_of(other.description.as_str());
        text_less(&a, &b)
    }
}

pub proof fn lemma_text_lt_irrefl(a: Seq<char>)
    ensures
        !text_lt(a, a),
    decreases a.len(),
{
    if a.len() > 0 {
        lemma_text_lt_irrefl(a.drop_first());
    }
}

pub proof fn lemma_text_lt_asym(a: Seq<char>, b: Seq<char>)
    requires
        text_lt(a, b),
    ensures
        !text_lt(b, a),
    decreases a.len(),
{
    if a.len() > 0 && b.len() > 0 && a[0] == b[0] {
        lemma_text_lt_asym(a.drop_first(), b.drop_first());
    }
}

pub proof fn lemma_text_lt_trans(a: Seq<char>, b: Seq<char>, c: Seq<char>)
    requires
        text_lt(a, b),
        text_lt(b, c),
    ensures
        text_lt(a, c),
    decreases a.len(),
{
    if a.len() > 0 && b.len() > 0 && c.len() > 0 && a[0] == b[0] && b[0] == c[0] {
        lemma_text_lt_trans(a.drop_first(), b.drop_first(), c.drop_first());
    }
}

/// The sorting order is transitive.
pub proof fn lemma_before_trans(a: ItemView, b: ItemView, c: ItemView)
    requires
        item_before(a, b),
        item_before(b, c),
    ensures
        item_before(a, c),
{
    if status_rank(a.state) == status_rank(b.state) && status_rank(b.state) == status_rank(
        c.state,
    ) && a.priority == b.priority && b.priority == c.priority {
        lemma_text_lt_trans(a.description, b.description, c.description);
    }
}

/// If `a` sorts before `b` and `c` does not sort before `b`, then `c`
/// does not sort before `a` either.
pub proof fn lemma_before_chain(a: ItemView, b: ItemView, c: ItemView)
    requires
        item_before(a, b),
        !item_before(c, b),
    ensures
        !item_before(c, a),
{
    if item_before(c, a) {
        lemma_before_trans(c, a, b);
    }
}

/// The sorting order is asymmetric.
pub proof fn lemma_before_asym(a: ItemView, b: ItemView)
    requires
        item_before(a, b),
    ensures
        !item_before(b, a),
{
    if status_rank(a.state) == status_rank(b.state) && a.priority == b.priority {
        lemma_text_lt_asym(a.description, b.description);
    }
}

impl PartialEq for Item {
    /// Items are equal when their descriptions are.
    fn eq(&self, other: &Self) -> (r: bool) {
        self.description == other.description
    }
}

impl PartialEqSpecImpl for Item {
    open spec fn obeys_eq_spec() -> bool {
        true
    }

    open spec fn eq_spec(&self, other: &Self) -> bool {
        self.description@ == other.description@
    }
}

impl Eq for Item {

}

} // verus!
