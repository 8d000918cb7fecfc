//! The todo list: items in file order, with index-based edits.
use crate::date::{lemma_ymd_dash_text_chars, Date};
use crate::item::{
    due_text, item_before, lemma_before_asym, lemma_before_chain, line_ok, line_stable,
    priority_text, spec_file_string, spec_parse_line, status_marker, status_rank, Item,
    ItemView, Status,
};
use crate::text::{
    chars_of, concat, lemma_split_piece, no_char, split, split_vec, string_of, subvec, views,
};
use vstd::prelude::*;
use vstd::multiset::Multiset;

verus! {

broadcast use vstd::seq_lib::group_seq_properties;

pub struct Todo {
    pub item_vec: Vec<Item>,
    pub file_path: String,
}

/// The items of a list, as values.
pub open spec fn item_views(s: Seq<Item>) -> Seq<ItemView> {
    s.map_values(|i: Item| i@)
}

impl Todo {
    pub open spec fn items(&self) -> Seq<ItemView> {
        item_views(self.item_vec@)
    }

    pub open spec fn wf(&self) -> bool {
        forall|i: int| 0 <= i < self.item_vec@.len() ==> (#[trigger] self.item_vec@[i]).wf()
    }
}

pub open spec fn fresh_item(description: Seq<char>) -> ItemView {
    ItemView { description, state: Status::Open, due_date: None, priority: 0 }
}

/// Without a trailing carriage return.
pub open spec fn strip_cr(s: Seq<char>) -> Seq<char> {
    if s.len() > 0 && s.last() == '\r' {
        s.drop_last()
    } else {
        s
    }
}

/// `str::lines`: pieces between `\n`, each line that a `\n` ends losing a
/// `\r` before it, and no empty last line after a final `\n`.
pub open spec fn spec_lines(s: Seq<char>) -> Seq<Seq<char>> {
    let p = split(s, '\n');
    let init = p.drop_last().map_values(|l: Seq<char>| strip_cr(l));
    if p.last().len() > 0 {
        init.push(p.last())
    } else {
        init
    }
}

/// The non-empty lines of a `.xit` text.
pub open spec fn item_lines(s: Seq<char>) -> Seq<Seq<char>> {
    spec_lines(s).filter(|l: Seq<char>| l.len() > 0)
}

/// Every non-empty line begins with a status marker.
pub open spec fn lines_ok(s: Seq<char>) -> bool {
    forall|i: int| 0 <= i < item_lines(s).len() ==> line_ok(#[trigger] item_lines(s)[i])
}

/// The text of a list in a `.xit` file: each item's line, then a newline.
pub open spec fn spec_file_text(items: Seq<ItemView>) -> Seq<char>
    decreases items.len(),
{
    if items.len() == 0 {
        seq![]
    } else {
        spec_file_text(items.drop_last()) + spec_file_string(items.last()) + seq!['\n']
    }
}

/// Two items with the same sort key: status rank, priority, description.
pub open spec fn same_key(a: ItemView, b: ItemView) -> bool {
    status_rank(a.state) == status_rank(b.state) && a.priority == b.priority && a.description
        == b.description
}

/// `out` is `orig` reordered: `out[k]` is `orig[perm[k]]`, each position of
/// `orig` used once, and items with the same key keep their order.
pub open spec fn stable_reorder(orig: Seq<ItemView>, out: Seq<ItemView>, perm: Seq<int>) -> bool {
    &&& perm.len() == out.len()
    &&& out.len() == orig.len()
    &&& forall|k: int| 0 <= k < perm.len() ==> 0 <= #[trigger] perm[k] < orig.len() && out[k] == orig[perm[k]]
    &&& forall|a: int, b: int| 0 <= a < b < perm.len() ==> #[trigger] perm[a] != #[trigger] perm[b]
    &&& forall|a: int, b: int|
        0 <= a < b < out.len() && same_key(#[trigger] out[a], #[trigger] out[b]) ==> perm[a] < perm[b]
}

/// Items in list order: none sorts before an earlier one.
pub open spec fn sorted_items(s: Seq<ItemView>) -> bool {
    forall|i: int, j: int| 0 <= i < j < s.len() ==> !item_before(#[trigger] s[j], #[trigger] s[i])
}

/// In a sorted list the statuses come in the order ongoing, open, in
/// question, checked, obsolete; and among items of one status, a higher
/// priority comes first.
pub proof fn lemma_sorted_status_order(s: Seq<ItemView>)
    requires
        sorted_items(s),
    ensures
        forall|i: int, j: int|
            0 <= i < j < s.len() ==> {
                &&& (#[trigger] s[j]).state == Status::Ongoing ==> (#[trigger] s[i]).state
                    == Status::Ongoing
                &&& s[j].state == Status::Open ==> s[i].state == Status::Ongoing || s[i].state
                    == Status::Open
                &&& s[j].state == Status::InQuestion ==> s[i].state != Status::Checked
                    && s[i].state != Status::Obsolete
                &&& s[j].state == Status::Checked ==> s[i].state != Status::Obsolete
                &&& s[j].state == s[i].state ==> s[i].priority >= s[j].priority
            },
{
    assert forall|i: int, j: int| 0 <= i < j < s.len() implies {
        &&& (#[trigger] s[j]).state == Status::Ongoing ==> (#[trigger] s[i]).state
            == Status::Ongoing
        &&& s[j].state == Status::Open ==> s[i].state == Status::Ongoing || s[i].state
            == Status::Open
        &&& s[j].state == Status::InQuestion ==> s[i].state != Status::Checked && s[i].state
            != Status::Obsolete
        &&& s[j].state == Status::Checked ==> s[i].state != Status::Obsolete
        &&& s[j].state == s[i].state ==> s[i].priority >= s[j].priority
    } by {
        assert(!item_before(s[j], s[i]));
    }
}

fn strip_cr_vec(v: &Vec<char>) -> (r: Vec<char>)
    ensures
        r@ == strip_cr(v@),
{
    if v.len() > 0 && v[v.len() - 1] == '\r' {
        let r = subvec(v, 0, v.len() - 1);
        proof {
            assert(r@ =~= v@.drop_last());
        }
        r
    } else {
        v.clone()
    }
}

fn lines_vec(v: &Vec<char>) -> (r: Vec<Vec<char>>)
    ensures
        views(r@) == spec_lines(v@),
{
    let pieces = split_vec(v, '\n');
    proof {
        crate::text::lemma_split_len(v@, '\n');
    }
    let n = pieces.len();
    let mut out: Vec<Vec<char>> = Vec::new();
    let mut i: usize = 0;
    while i + 1 < n
        invariant
            n == pieces.len(),
            n >= 1,
            i + 1 <= n,
            views(pieces@) == split(v@, '\n'),
            out@.len() == i,
            forall|k: int| 0 <= k < i ==> (#[trigger] out@[k])@ == strip_cr(pieces@[k]@),
        decreases n - i,
    {
        let l = strip_cr_vec(&pieces[i]);
        out.push(l);
        i += 1;
    }
    proof {
        assert(views(out@) =~= views(pieces@).drop_last().map_values(|l: Seq<char>| strip_cr(l)));
    }
    let last = &pieces[n - 1];
    if last.len() > 0 {
        out.push(last.clone());
        proof {
            assert(views(out@) =~= spec_lines(v@));
        }
    }
    out
}

impl Todo {
    /// An empty list kept at `file_path`.
    pub fn new(file_path: String) -> (r: Self)
        ensures
            r.items() == Seq::<ItemView>::empty(),
            r.file_path@ == file_path@,
            r.wf(),
    {
        let r = Todo { item_vec: Vec::new(), file_path };
        proof {
            assert(r.items() =~= Seq::<ItemView>::empty());
        }
        r
    }

    /// The list that a `.xit` text holds: one item per non-empty line.
    #[verifier::spinoff_prover]
    pub fn from_existing(existing_list: &str, file_path: String) -> (r: Self)
        requires
            lines_ok(existing_list@),
        ensures
            r.items() == item_lines(existing_list@).map_values(|l: Seq<char>| spec_parse_line(l)),
            r.file_path@ == file_path@,
            r.wf(),
            forall|t: Seq<ItemView>|
                list_stable(t) && existing_list@ == #[trigger] spec_file_text(t) ==> r.items() == t,
    {
        let v = chars_of(existing_list);
        let lines = lines_vec(&v);
        let ghost ls = views(lines@);
        let mut items: Vec<Item> = Vec::new();
        let mut i: usize = 0;
        while i < lines.len()
            invariant
                i <= lines.len(),
                ls == views(lines@),
                ls == spec_lines(v@),
                v@ == existing_list@,
                lines_ok(existing_list@),
                forall|k: int| 0 <= k < items@.len() ==> (#[trigger] items@[k]).wf(),
                item_views(items@) == ls.take(i as int).filter(|l: Seq<char>| l.len() > 0).map_values(
                    |l: Seq<char>| spec_parse_line(l),
                ),
                forall|t: Seq<ItemView>|
                    list_stable(t) && existing_list@ == #[trigger] spec_file_text(t)
                        ==> item_views(items@) == t.take(i as int),
            decreases lines.len() - i,
        {
            proof {
                assert(ls.take(i + 1) =~= ls.take(i as int).push(ls[i as int]));
                ls.take(i as int).lemma_filter_push(ls[i as int], |l: Seq<char>| l.len() > 0);
            }
            if lines[i].len() > 0 {
                proof {
                    lemma_line_in_item_lines(ls, i as int);
                    let il = item_lines(existing_list@);
                    assert(il == ls.filter(|l: Seq<char>| l.len() > 0));
                    let k = il.index_of(ls[i as int]);
                    assert(line_ok(il[k]));
                    assert(line_ok(lines@[i as int]@));
                }
                let s = string_of(lines[i].as_slice());
                let it = Item::parse_line(s.as_str());
                let ghost prev = item_views(items@);
                items.push(it);
                proof {
                    assert(item_views(items@) =~= prev.push(it@));
                    assert forall|t: Seq<ItemView>|
                        list_stable(t) && existing_list@ == #[trigger] spec_file_text(
                            t,
                        ) implies item_views(items@) == t.take(i + 1) by {
                        lemma_lines_of_file_text(t);
                        assert(s@ == spec_file_string(t[i as int]));
                        assert(t.take(i + 1) =~= t.take(i as int).push(t[i as int]));
                    }
                }
            } else {
                proof {
                    assert forall|t: Seq<ItemView>|
                        list_stable(t) && existing_list@ == #[trigger] spec_file_text(
                            t,
                        ) implies false by {
                        lemma_lines_of_file_text(t);
                    }
                }
            }
            i += 1;
        }
        proof {
            assert(ls.take(lines.len() as int) =~= ls);
            assert forall|t: Seq<ItemView>|
                list_stable(t) && existing_list@ == #[trigger] spec_file_text(t) implies item_views(
                items@,
            ) == t by {
                lemma_lines_of_file_text(t);
                assert(t.take(t.len() as int) =~= t);
            }
        }
        Todo { item_vec: items, file_path }
    }

    /// The `.xit` text of the list.
    pub fn file_text(&self) -> (r: String)
        requires
            self.wf(),
        ensures
            r@ == spec_file_text(self.items()),
    {
        let mut out: Vec<char> = Vec::new();
        let mut i: usize = 0;
        while i < self.item_vec.len()
            invariant
                i <= self.item_vec.len(),
                self.wf(),
                out@ == spec_file_text(self.items().take(i as int)),
            decreases self.item_vec.len() - i,
        {
            let line = self.item_vec[i].get_file_string();
            let mut nl: Vec<char> = Vec::new();
            nl.push('\n');
            out = concat(&concat(&out, &chars_of(line.as_str())), &nl);
            proof {
                assert(self.items().take(i + 1).drop_last() =~= self.items().take(i as int));
                assert(nl@ =~= seq!['\n']);
            }
            i += 1;
        }
        proof {
            assert(self.items().take(i as int) =~= self.items());
        }
        string_of(out.as_slice())
    }
}

// ---- reading back a written list ----

/// Items whose lines read back as them, with no line break in a
/// description.
pub open spec fn list_stable(t: Seq<ItemView>) -> bool {
    forall|k: int|
        0 <= k < t.len() ==> line_stable(#[trigger] t[k]) && no_char(t[k].description, '\n')
}

proof fn lemma_file_text_front(t: Seq<ItemView>)
    requires
        t.len() > 0,
    ensures
        spec_file_text(t) == spec_file_string(t[0]) + seq!['\n'] + spec_file_text(t.drop_first()),
    decreases t.len(),
{
    if t.len() == 1 {
        assert(t.drop_last() =~= Seq::<ItemView>::empty());
        assert(t.drop_first() =~= Seq::<ItemView>::empty());
    } else {
        lemma_file_text_front(t.drop_last());
        assert(t.drop_last().drop_first() =~= t.drop_first().drop_last());
        assert(t.drop_first().last() == t.last());
        assert(t.drop_last()[0] == t[0]);
    }
}

proof fn lemma_line_shape(i: ItemView)
    requires
        line_stable(i),
        no_char(i.description, '\n'),
    ensures
        no_char(spec_file_string(i), '\n'),
        spec_file_string(i).len() > 0,
        spec_file_string(i).last() != '\r',
{
    reveal_strlit("[ ] ");
    reveal_strlit("[@] ");
    reveal_strlit("[x] ");
    reveal_strlit("[~] ");
    reveal_strlit("[?] ");
    reveal_strlit(" ");
    reveal_strlit(" -> ");
    let m = status_marker(i.state);
    let pt = priority_text(i.priority);
    let t = due_text(i.due_date);
    let s = spec_file_string(i);
    if let Some(d) = i.due_date {
        lemma_ymd_dash_text_chars(d.year as int, d.month as int, d.day as int);
    }
    assert forall|k: int| 0 <= k < s.len() implies #[trigger] s[k] != '\n' by {
        if k < m.len() {
            assert(s[k] == m[k]);
        } else if k < m.len() + pt.len() {
            assert(s[k] == pt[k - m.len()]);
        } else if k < m.len() + pt.len() + i.description.len() {
            assert(s[k] == i.description[k - m.len() - pt.len()]);
        } else {
            assert(s[k] == t[k - m.len() - pt.len() - i.description.len()]);
        }
    }
    if t.len() > 0 {
        assert(s.last() == t.last());
    } else if i.description.len() > 0 {
        assert(s.last() == i.description.last());
    } else {
        assert(s.last() == pt.last());
    }
}

/// The pieces of a written list between line breaks: its lines, then an
/// empty piece.
proof fn lemma_split_file_text(t: Seq<ItemView>)
    requires
        list_stable(t),
    ensures
        split(spec_file_text(t), '\n').len() == t.len() + 1,
        forall|k: int|
            0 <= k < t.len() ==> split(spec_file_text(t), '\n')[k] == spec_file_string(#[trigger] t[k]),
        split(spec_file_text(t), '\n').last() == Seq::<char>::empty(),
    decreases t.len(),
{
    if t.len() == 0 {
        assert(split(Seq::<char>::empty(), '\n') =~= seq![Seq::<char>::empty()]);
    } else {
        let r = t.drop_first();
        assert(list_stable(r)) by {
            assert forall|k: int| 0 <= k < r.len() implies line_stable(#[trigger] r[k]) && no_char(
                r[k].description,
                '\n',
            ) by {
                assert(r[k] == t[k + 1]);
            }
        }
        lemma_split_file_text(r);
        lemma_file_text_front(t);
        lemma_line_shape(t[0]);
        lemma_split_piece(spec_file_string(t[0]), spec_file_text(r), '\n');
        assert forall|k: int| 0 <= k < t.len() implies split(spec_file_text(t), '\n')[k]
            == spec_file_string(#[trigger] t[k]) by {
            if k > 0 {
                assert(t[k] == r[k - 1]);
            }
        }
    }
}

/// The non-empty lines of a written list are the items' lines.
proof fn lemma_lines_of_file_text(t: Seq<ItemView>)
    requires
        list_stable(t),
    ensures
        item_lines(spec_file_text(t)).len() == t.len(),
        forall|k: int|
            0 <= k < t.len() ==> item_lines(spec_file_text(t))[k] == spec_file_string(#[trigger] t[k]),
        spec_lines(spec_file_text(t)).len() == t.len(),
        forall|k: int|
            0 <= k < t.len() ==> spec_lines(spec_file_text(t))[k] == spec_file_string(#[trigger] t[k]),
        forall|k: int|
            0 <= k < t.len() ==> (#[trigger] spec_lines(spec_file_text(t))[k]).len() > 0,
{
    let p = split(spec_file_text(t), '\n');
    lemma_split_file_text(t);
    let init = p.drop_last().map_values(|l: Seq<char>| strip_cr(l));
    assert forall|k: int| 0 <= k < t.len() implies init[k] == spec_file_string(#[trigger] t[k]) && init[k].len() > 0 by {
        lemma_line_shape(t[k]);
    }
    assert(init.len() == t.len());
    assert forall|k: int| 0 <= k < init.len() implies (#[trigger] init[k]).len() > 0 by {
        assert(init[k] == spec_file_string(t[k]));
    }
    assert(spec_lines(spec_file_text(t)) == init);
    lemma_filter_all_nonempty(init);
}

proof fn lemma_filter_all_nonempty(s: Seq<Seq<char>>)
    requires
        forall|k: int| 0 <= k < s.len() ==> (#[trigger] s[k]).len() > 0,
    ensures
        s.filter(|l: Seq<char>| l.len() > 0) == s,
    decreases s.len(),
{
    reveal(Seq::filter);
    if s.len() > 0 {
        lemma_filter_all_nonempty(s.drop_last());
        assert(s.drop_last().push(s.last()) =~= s);
    }
}

proof fn lemma_line_in_item_lines(ls: Seq<Seq<char>>, i: int)
    requires
        0 <= i < ls.len(),
        ls[i].len() > 0,
    ensures
        ls.filter(|l: Seq<char>| l.len() > 0).contains(ls[i]),
{
    ls.lemma_filter_contains(|l: Seq<char>| l.len() > 0, i);
}

// ---- index-based edits (the UI passes the selected real index) ----

/// The item at `index` replaced by `f` of it; the list unchanged when
/// `index` is out of range.
pub open spec fn update_at(s: Seq<ItemView>, index: int, new_item: ItemView) -> Seq<ItemView> {
    if 0 <= index < s.len() {
        s.update(index, new_item)
    } else {
        s
    }
}

pub open spec fn toggled(s: Status) -> Status {
    if s == Status::Checked {
        Status::Open
    } else {
        Status::Checked
    }
}

/// The list with the item at `index` toggled between checked and open.
pub open spec fn toggle_at(s: Seq<ItemView>, index: int) -> Seq<ItemView> {
    update_at(s, index, ItemView { state: toggled(s[index].state), ..s[index] })
}

/// Toggling checks an item that is not checked, whatever its status (open,
/// ongoing, obsolete or in question), and reopens a checked one; nothing
/// else changes.
pub proof fn lemma_toggle_checks(s: Seq<ItemView>, index: int)
    requires
        0 <= index < s.len(),
    ensures
        toggle_at(s, index).len() == s.len(),
        s[index].state != Status::Checked ==> toggle_at(s, index)[index].state == Status::Checked,
        s[index].state == Status::Checked ==> toggle_at(s, index)[index].state == Status::Open,
        toggle_at(s, index)[index].description == s[index].description,
        toggle_at(s, index)[index].priority == s[index].priority,
        toggle_at(s, index)[index].due_date == s[index].due_date,
        forall|k: int| 0 <= k < s.len() && k != index ==> #[trigger] toggle_at(s, index)[k] == s[k],
{
}

/// Toggling an open or checked item twice gives the list back.
pub proof fn lemma_toggle_twice(s: Seq<ItemView>, index: int)
    requires
        0 <= index < s.len() ==> (s[index].state == Status::Open || s[index].state
            == Status::Checked),
    ensures
        toggle_at(toggle_at(s, index), index) == s,
{
    if 0 <= index < s.len() {
        assert(toggle_at(toggle_at(s, index), index) =~= s);
    }
}

/// Priority moved by `delta`, never below 0.
pub open spec fn adjusted(p: i8, delta: i8) -> i8 {
    if p + delta < 0 {
        0
    } else {
        (p + delta) as i8
    }
}

impl Todo {
    /// Appends an open item with priority 0.
    pub fn add(&mut self, description: String)
        requires
            old(self).wf(),
        ensures
            final(self).wf(),
            final(self).items() == old(self).items().push(fresh_item(description@)),
            final(self).file_path == old(self).file_path,
    {
        let it = Item::from_description(description.as_str());
        self.item_vec.push(it);
        proof {
            assert(final(self).items() =~= old(self).items().push(fresh_item(description@)));
        }
    }

    pub fn edit(&mut self, index: usize, description: String)
        requires
            old(self).wf(),
        ensures
            final(self).wf(),
            final(self).items() == update_at(
                old(self).items(),
                index as int,
                ItemView { description: description@, ..old(self).items()[index as int] },
            ),
            final(self).file_path == old(self).file_path,
    {
        if index < self.item_vec.len() {
            self.item_vec[index].description = description;
            proof {
                assert(final(self).items() =~= old(self).items().update(
                    index as int,
                    ItemView { description: description@, ..old(self).items()[index as int] },
                ));
            }
        }
    }

    /// Checked becomes open; anything else becomes checked.
    pub fn toggle_done(&mut self, index: usize)
        requires
            old(self).wf(),
        ensures
            final(self).wf(),
            final(self).items() == toggle_at(old(self).items(), index as int),
            index < old(self).items().len() && old(self).items()[index as int].state
                != Status::Checked ==> final(self).items()[index as int].state == Status::Checked,
            index < old(self).items().len() && old(self).items()[index as int].state
                == Status::Checked ==> final(self).items()[index as int].state == Status::Open,
            final(self).file_path == old(self).file_path,
    {
        if index < self.item_vec.len() {
            let st = if self.item_vec[index].state == Status::Checked {
                Status::Open
            } else {
                Status::Checked
            };
            self.item_vec[index].state = st;
            proof {
                assert(final(self).items() =~= old(self).items().update(
                    index as int,
                    ItemView { state: toggled(old(self).items()[index as int].state), ..old(self).items()[index as int] },
                ));
            }
        }
    }

    pub fn set_status(&mut self, index: usize, status: Status)
        requires
            old(self).wf(),
        ensures
            final(self).wf(),
            final(self).items() == update_at(
                old(self).items(),
                index as int,
                ItemView { state: status, ..old(self).items()[index as int] },
            ),
            final(self).file_path == old(self).file_path,
    {
        if index < self.item_vec.len() {
            self.item_vec[index].state = status;
            proof {
                assert(final(self).items() =~= old(self).items().update(
                    index as int,
                    ItemView { state: status, ..old(self).items()[index as int] },
                ));
            }
        }
    }

    /// Adds `delta` to the priority, clamping at 0.
    pub fn adjust_priority(&mut self, index: usize, delta: i8)
        requires
            old(self).wf(),
            index < old(self).item_vec@.len() ==> old(self).item_vec@[index as int].priority + delta
                <= i8::MAX,
            index < old(self).item_vec@.len() ==> old(self).item_vec@[index as int].priority + delta
                >= i8::MIN,
        ensures
            final(self).wf(),
            final(self).items() == update_at(
                old(self).items(),
                index as int,
                ItemView {
                    priority: adjusted(old(self).items()[index as int].priority, delta),
                    ..old(self).items()[index as int]
                },
            ),
            final(self).file_path == old(self).file_path,
    {
        if index < self.item_vec.len() {
            let p = self.item_vec[index].priority + delta;
            let p = if p < 0 {
                0
            } else {
                p
            };
            self.item_vec[index].priority = p;
            proof {
                assert(final(self).items() =~= old(self).items().update(
                    index as int,
                    ItemView {
                        priority: adjusted(old(self).items()[index as int].priority, delta),
                        ..old(self).items()[index as int]
                    },
                ));
            }
        }
    }

    pub fn set_due_date(&mut self, index: usize, date: Option<Date>)
        requires
            old(self).wf(),
            date matches Some(d) ==> d.wf(),
        ensures
            final(self).wf(),
            final(self).items() == update_at(
                old(self).items(),
                index as int,
                ItemView { due_date: date, ..old(self).items()[index as int] },
            ),
            final(self).file_path == old(self).file_path,
    {
        if index < self.item_vec.len() {
            self.item_vec[index].due_date = date;
            proof {
                assert(final(self).items() =~= old(self).items().update(
                    index as int,
                    ItemView { due_date: date, ..old(self).items()[index as int] },
                ));
            }
        }
    }

    /// Removes the item at `index`; out of range does nothing.
    pub fn remove(&mut self, index: usize)
        requires
            old(self).wf(),
        ensures
            final(self).wf(),
            final(self).items() == (if index < old(self).items().len() {
                old(self).items().remove(index as int)
            } else {
                old(self).items()
            }),
            final(self).file_path == old(self).file_path,
    {
        if index < self.item_vec.len() {
            self.item_vec.remove(index);
            proof {
                assert(final(self).items() =~= old(self).items().remove(index as int));
            }
        }
    }
}

impl Todo {
    /// Sorts by status (ongoing, open, in question, checked, obsolete), then
    /// higher priority first, then description.
    #[verifier::spinoff_prover]
    pub fn sort(&mut self)
        requires
            old(self).wf(),
        ensures
            final(self).wf(),
            sorted_items(final(self).items()),
            forall|i: int, j: int|
                0 <= i < j < final(self).items().len() ==> {
                    &&& (#[trigger] final(self).items()[j]).state == Status::Ongoing ==> (
                    #[trigger] final(self).items()[i]).state == Status::Ongoing
                    &&& final(self).items()[j].state == Status::Open ==> final(self).items()[i].state
                        == Status::Ongoing || final(self).items()[i].state == Status::Open
                    &&& final(self).items()[j].state == Status::InQuestion
                        ==> final(self).items()[i].state != Status::Checked
                        && final(self).items()[i].state != Status::Obsolete
                    &&& final(self).items()[j].state == Status::Checked
                        ==> final(self).items()[i].state != Status::Obsolete
                },
            final(self).items().to_multiset() == old(self).items().to_multiset(),
            exists|perm: Seq<int>| stable_reorder(old(self).items(), final(self).items(), perm),
            final(self).file_path == old(self).file_path,
    {
        let mut src: Vec<Item> = Vec::new();
        std::mem::swap(&mut src, &mut self.item_vec);
        let ghost orig = item_views(src@);
        let ghost mut perm: Seq<int> = Seq::empty();
        proof {
            assert(item_views(self.item_vec@) =~= Seq::<ItemView>::empty());
            assert(orig.skip(0) =~= orig);
        }
        while src.len() > 0
            invariant
                forall|k: int| 0 <= k < src@.len() ==> (#[trigger] src@[k]).wf(),
                forall|k: int| 0 <= k < self.item_vec@.len() ==> (#[trigger] self.item_vec@[k]).wf(),
                sorted_items(item_views(self.item_vec@)),
                item_views(self.item_vec@).to_multiset().add(item_views(src@).to_multiset())
                    == orig.to_multiset(),
                self.file_path == old(self).file_path,
                item_views(src@) == orig.skip(orig.len() - src@.len()),
                src@.len() <= orig.len(),
                stable_reorder(orig.take(orig.len() - src@.len()), item_views(self.item_vec@), perm),
            decreases src.len(),
        {
            let ghost src0 = item_views(src@);
            let ghost c = orig.len() - src@.len();
            let it = src.remove(0);
            proof {
                assert(item_views(src@) =~= src0.remove(0));
                vstd::seq_lib::to_multiset_remove(src0, 0);
                assert(it@ == orig[c]);
                assert(item_views(src@) =~= orig.skip(c + 1));
            }
            let mut p: usize = 0;
            while p < self.item_vec.len() && !it.sorts_before(&self.item_vec[p])
                invariant
                    p <= self.item_vec.len(),
                    forall|i: int| 0 <= i < p ==> !item_before(it@, #[trigger] item_views(self.item_vec@)[i]),
                decreases self.item_vec.len() - p,
            {
                p += 1;
            }
            let ghost out0 = item_views(self.item_vec@);
            self.item_vec.insert(p, it);
            proof {
                let out1 = item_views(self.item_vec@);
                assert(out1 =~= out0.insert(p as int, it@));
                vstd::seq_lib::to_multiset_insert(out0, p as int, it@);
                assert forall|i: int, j: int| 0 <= i < j < out1.len() implies !item_before(
                    #[trigger] out1[j],
                    #[trigger] out1[i],
                ) by {
                    if j < p {
                    } else if j == p {
                    } else if i < p {
                        // out1[i] == out0[i], out1[j] == out0[j - 1], both after position p
                        assert(!item_before(out0[j - 1], out0[i]));
                    } else if i == p {
                        if j - 1 == p {
                            lemma_before_asym(it@, out0[p as int]);
                        } else {
                            assert(!item_before(out0[j - 1], out0[p as int]));
                            lemma_before_chain(it@, out0[p as int], out0[j - 1]);
                        }
                    } else {
                        assert(!item_before(out0[j - 1], out0[i - 1]));
                    }
                }
                assert(out1.to_multiset().add(item_views(src@).to_multiset()) =~= orig.to_multiset());
                let perm1 = perm.insert(p as int, c);
                lemma_insert_stable(orig, out0, perm, c, p as int, it@, out1, perm1);
                perm = perm1;
            }
        }
        proof {
            assert(item_views(src@) =~= Seq::<ItemView>::empty());
            assert(item_views(src@).to_multiset() =~= Multiset::<ItemView>::empty());
            assert(item_views(self.item_vec@).to_multiset() =~= orig.to_multiset());
            assert(orig.take(orig.len() as int) =~= orig);
            assert(stable_reorder(orig, item_views(self.item_vec@), perm));
            assert(orig == old(self).items());
            assert(stable_reorder(old(self).items(), self.items(), perm));
            lemma_sorted_status_order(self.items());
        }
    }
}

/// Inserting the next item of `orig` where it sorts keeps the reordering
/// stable.
proof fn lemma_insert_stable(
    orig: Seq<ItemView>,
    out0: Seq<ItemView>,
    perm: Seq<int>,
    c: int,
    p: int,
    it: ItemView,
    out1: Seq<ItemView>,
    perm1: Seq<int>,
)
    requires
        0 <= c < orig.len(),
        it == orig[c],
        stable_reorder(orig.take(c), out0, perm),
        sorted_items(out0),
        0 <= p <= out0.len(),
        forall|i: int| 0 <= i < p ==> !item_before(it, #[trigger] out0[i]),
        p < out0.len() ==> item_before(it, out0[p]),
        out1 == out0.insert(p, it),
        perm1 == perm.insert(p, c),
    ensures
        stable_reorder(orig.take(c + 1), out1, perm1),
{
    let o0 = orig.take(c);
    let o1 = orig.take(c + 1);
    assert forall|k: int| 0 <= k < perm1.len() implies 0 <= #[trigger] perm1[k] < o1.len() && out1[k]
        == o1[perm1[k]] by {
        if k < p {
            assert(perm1[k] == perm[k]);
            assert(o0[perm[k]] == o1[perm[k]]);
        } else if k > p {
            assert(perm1[k] == perm[k - 1]);
            assert(o0[perm[k - 1]] == o1[perm[k - 1]]);
        }
    }
    assert forall|a: int, b: int| 0 <= a < b < perm1.len() implies #[trigger] perm1[a] != #[trigger] perm1[b] by {
        if a != p && b != p {
            let a0 = if a < p { a } else { a - 1 };
            let b0 = if b < p { b } else { b - 1 };
            assert(perm1[a] == perm[a0] && perm1[b] == perm[b0]);
            assert(perm[a0] != perm[b0]);
        } else if a == p {
            assert(perm1[b] == perm[b - 1]);
        } else {
            assert(perm1[a] == perm[a]);
        }
    }
    assert forall|a: int, b: int| 0 <= a < b < out1.len() && same_key(#[trigger] out1[a], #[trigger] out1[b])
        implies perm1[a] < perm1[b] by {
        if a != p && b != p {
            let a0 = if a < p { a } else { a - 1 };
            let b0 = if b < p { b } else { b - 1 };
            assert(out1[a] == out0[a0] && out1[b] == out0[b0]);
            assert(perm1[a] == perm[a0] && perm1[b] == perm[b0]);
        } else if a == p {
            // nothing after the inserted item shares its key
            assert(out1[b] == out0[b - 1]);
            assert(item_before(it, out0[p]));
            if b - 1 > p {
                assert(!item_before(out0[b - 1], out0[p]));
            } else {
                crate::item::lemma_text_lt_irrefl(out0[p].description);
            }
            assert(item_before(out0[b - 1], out0[p]));
        } else {
            assert(perm1[a] == perm[a]);
            assert(perm1[b] == c);
        }
    }
}

} // verus!
