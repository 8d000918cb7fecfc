//! The series of a list, kept beside its `.xit` file in a `.recur.toml`
//! sidecar (`todo.xit` -> `todo.recur.toml`), and the plain records that the
//! sidecar holds: the rule as its RRULE text, dates as `YYYY-MM-DD`.
use crate::date::{chrono_parse_result, format_date_with, parse_date_with, Date};
use crate::item::{date_of, date_text, spec_status_from, status_marker, Status};
use crate::recur::dates::increasing;
use crate::recur::rule::{
    lemma_parsed_shape, lemma_rrule_round_trip, rrule_cut_inside, rule_stable, spec_from_rrule,
    spec_to_rrule, until_text_ok, ErrView, Recurrence, RuleView,
};
use crate::recur::series::{
    lemma_override_dates_wf, override_dates, override_map, override_on, split_result, OverrideView,
    Override, RecurringSeries, Snapshot,
};
use crate::text::{
    chars_of, lemma_trim_end_skip_ws, lemma_trim_end_stop, lemma_trim_start_stop, string_of,
    trim_vec, all_ws, no_char,
};
use vstd::prelude::*;

verus! {

broadcast use vstd::seq_lib::group_seq_properties;

// ---- the sidecar path ----

/// The last `/` of `p`, if any.
pub open spec fn last_slash(p: Seq<char>) -> Option<int>
    decreases p.len(),
{
    if p.len() == 0 {
        None
    } else if p.last() == '/' {
        Some(p.len() - 1)
    } else {
        last_slash(p.drop_last())
    }
}

/// Where the file name of `p` begins.
pub open spec fn name_start(p: Seq<char>) -> int {
    match last_slash(p) {
        Some(i) => i + 1,
        None => 0,
    }
}

/// The last `.` of `p` at or after position `from`, if any.
pub open spec fn last_dot_from(p: Seq<char>, from: int) -> Option<int>
    decreases p.len(),
{
    if p.len() <= from || p.len() == 0 {
        None
    } else if p.last() == '.' {
        Some(p.len() - 1)
    } else {
        last_dot_from(p.drop_last(), from)
    }
}

/// A path whose file name is plain: it does not end in `/`, its file name is
/// neither `.` nor `..`, and it has no `\` or `:` (so that it reads the same
/// on every platform).
pub open spec fn plain_path(p: Seq<char>) -> bool {
    let n = p.skip(name_start(p));
    &&& n.len() > 0
    &&& n != seq!['.']
    &&& n != seq!['.', '.']
    &&& forall|i: int| 0 <= i < p.len() ==> #[trigger] p[i] != '\\' && p[i] != ':'
}

/// Where the file stem of a plain path ends: at the last `.` of the file
/// name, unless that is its first character (a name such as `.profile`
/// has no extension).
pub open spec fn stem_end(p: Seq<char>) -> int {
    match last_dot_from(p, name_start(p)) {
        Some(i) => if i > name_start(p) {
            i
        } else {
            p.len() as int
        },
        None => p.len() as int,
    }
}

/// `p` with its extension set to `ext`: the file stem, a `.`, and `ext`.
pub open spec fn with_extension(p: Seq<char>, ext: Seq<char>) -> Seq<char> {
    p.take(stem_end(p)) + seq!['.'] + ext
}

/// Wraps `std::path::Path::with_extension` (then `to_string_lossy`, which
/// changes nothing in text that came from a `str`). As its documentation
/// describes it, for a path with a plain file name the file name's
/// extension (the part after its last `.`, when that `.` is not its first
/// character) is replaced by `ext`, or `.` and `ext` are added where it has
/// none; `ext` must not be empty (an empty one removes the extension
/// instead) and must hold no path separator (with one the call panics).
/// For other paths (a trailing `/`, a name `.` or `..`, platform
/// separators) nothing is stated: what they give depends on the platform's
/// separators, so it is neither stated nor named.
#[verifier::external_body]
fn path_with_extension(p: &str, ext: &str) -> (r: String)
    requires
        ext@.len() > 0,
        no_char(ext@, '/'),
        no_char(ext@, '\\'),
    ensures
        plain_path(p@) ==> r@ == with_extension(p@, ext@),
{
    std::path::Path::new(p).with_extension(ext).to_string_lossy().into_owned()
}

/// The sidecar that holds the series of the list at `xit_path`: the same
/// path with the extension `recur.toml`.
pub fn sidecar_path(xit_path: &str) -> (r: String)
    ensures
        plain_path(xit_path@) ==> r@ == with_extension(xit_path@, "recur.toml"@),
{
    proof {
        reveal_strlit("recur.toml");
    }
    path_with_extension(xit_path, "recur.toml")
}

// ---- the records of the sidecar ----

/// A series as the sidecar holds it.
pub struct SeriesDto {
    pub id: u64,
    pub title: String,
    pub priority: i8,
    pub rrule: String,
    pub anchor: String,
    pub start: String,
    pub end: Option<String>,
    pub exdates: Vec<String>,
    pub overrides: Vec<OverrideDto>,
}

/// An override as the sidecar holds it: the status marker without its
/// space, and the frozen title and priority of a completed occurrence.
pub struct OverrideDto {
    pub date: String,
    pub state: String,
    pub title: Option<String>,
    pub priority: Option<i8>,
}

pub struct OverrideRecord {
    pub date: Seq<char>,
    pub state: Seq<char>,
    pub title: Option<Seq<char>>,
    pub priority: Option<i8>,
}

pub struct SeriesRecord {
    pub id: u64,
    pub title: Seq<char>,
    pub priority: i8,
    pub rrule: Seq<char>,
    pub anchor: Seq<char>,
    pub start: Seq<char>,
    pub end: Option<Seq<char>>,
    pub exdates: Seq<Seq<char>>,
    pub overrides: Seq<OverrideRecord>,
}

pub open spec fn opt_text(o: Option<String>) -> Option<Seq<char>> {
    match o {
        Some(s) => Some(s@),
        None => None,
    }
}

impl View for OverrideDto {
    type V = OverrideRecord;

    open spec fn view(&self) -> OverrideRecord {
        OverrideRecord {
            date: self.date@,
            state: self.state@,
            title: opt_text(self.title),
            priority: self.priority,
        }
    }
}

impl View for SeriesDto {
    type V = SeriesRecord;

    open spec fn view(&self) -> SeriesRecord {
        SeriesRecord {
            id: self.id,
            title: self.title@,
            priority: self.priority,
            rrule: self.rrule@,
            anchor: self.anchor@,
            start: self.start@,
            end: opt_text(self.end),
            exdates: self.exdates@.map_values(|s: String| s@),
            overrides: self.overrides@.map_values(|o: OverrideDto| o@),
        }
    }
}

/// The status marker without its trailing space, as the sidecar writes it.
pub open spec fn state_text(s: Status) -> Seq<char> {
    status_marker(s).take(3)
}

/// A date that `chrono` reads from `s` with `%Y-%m-%d`.
pub open spec fn iso_date(s: Seq<char>) -> Option<Date> {
    match chrono_parse_result(s, "%Y-%m-%d"@) {
        Some(t) => Some(date_of(t)),
        None => None,
    }
}

/// The record of an override on `date`.
pub open spec fn override_record(date: Date, o: OverrideView) -> OverrideRecord {
    match o {
        OverrideView::State(st) => OverrideRecord {
            date: date_text(date),
            state: state_text(st),
            title: None,
            priority: None,
        },
        OverrideView::Done(t, p, st) => OverrideRecord {
            date: date_text(date),
            state: state_text(st),
            title: Some(t),
            priority: Some(p),
        },
    }
}

/// The override that a record gives, with its status read.
pub open spec fn record_override(o: OverrideRecord, st: Status) -> OverrideView {
    match o.title {
        Some(t) => OverrideView::Done(
            t,
            match o.priority {
                Some(p) => p,
                None => 0,
            },
            st,
        ),
        None => OverrideView::State(st),
    }
}

/// The dates that the texts give (those that do not read are dropped).
pub open spec fn read_dates(v: Seq<Seq<char>>) -> Set<Date>
    decreases v.len(),
{
    if v.len() == 0 {
        Set::empty()
    } else {
        match iso_date(v.last()) {
            Some(d) => read_dates(v.drop_last()).insert(d),
            None => read_dates(v.drop_last()),
        }
    }
}

/// The overrides that the records give, a later record on a date winning
/// (those whose date or status does not read are dropped).
pub open spec fn read_overrides(v: Seq<OverrideRecord>) -> Map<Date, OverrideView>
    decreases v.len(),
{
    if v.len() == 0 {
        Map::empty()
    } else {
        let o = v.last();
        match (iso_date(o.date), spec_status_from(o.state)) {
            (Some(d), Some(st)) => read_overrides(v.drop_last()).insert(d, record_override(o, st)),
            _ => read_overrides(v.drop_last()),
        }
    }
}

/// A record that gives a series: its rule, anchor and start read.
pub open spec fn record_ok(r: SeriesRecord) -> bool {
    &&& spec_from_rrule(r.rrule) is Ok
    &&& iso_date(r.anchor) is Some
    &&& iso_date(r.start) is Some
}

/// `s` is the series that the record `r` gives.
pub open spec fn series_of_record(s: RecurringSeries, r: SeriesRecord) -> bool {
    &&& s.wf()
    &&& spec_from_rrule(r.rrule) == Ok::<RuleView, ErrView>(s.rule@)
    &&& s.id == r.id
    &&& s.title@ == r.title
    &&& s.priority == r.priority
    &&& Some(s.anchor) == iso_date(r.anchor)
    &&& Some(s.start) == iso_date(r.start)
    &&& s.end == (match r.end {
        Some(e) => iso_date(e),
        None => None,
    })
    &&& s.exdates@.to_set() == read_dates(r.exdates)
    &&& override_map(s.overrides@) == read_overrides(r.overrides)
}

/// `r` is the record of the series `s`.
pub open spec fn record_of_series(r: SeriesRecord, s: RecurringSeries) -> bool {
    &&& r.id == s.id
    &&& r.title == s.title@
    &&& r.priority == s.priority
    &&& r.rrule == spec_to_rrule(s.rule@)
    &&& r.anchor == date_text(s.anchor)
    &&& r.start == date_text(s.start)
    &&& r.end == (match s.end {
        Some(e) => Some(date_text(e)),
        None => None,
    })
    &&& r.exdates == s.exdates@.map_values(|d: Date| date_text(d))
    &&& r.overrides == s.overrides@.map_values(
        |p: (Date, Override)| override_record(p.0, p.1@),
    )
}

fn fmt_date(d: Date) -> (r: String)
    requires
        d.wf(),
    ensures
        r@ == date_text(d),
{
    format_date_with(&d, "%Y-%m-%d")
}

fn parse_date(s: &str) -> (r: Option<Date>)
    ensures
        r == iso_date(s@),
        r matches Some(d) ==> d.wf(),
        forall|d: Date| d.wf() && 0 <= d.year <= 9999 && s@ == #[trigger] date_text(d) ==> r == Some(d),
{
    parse_date_with(s, "%Y-%m-%d")
}

/// The status marker without its trailing space: `[x]` and the like.
pub fn state_code(s: &Status) -> (r: String)
    ensures
        r@ == state_text(*s),
{
    let v = trim_vec(&chars_of(s.as_str()));
    proof {
        reveal_strlit("[ ] ");
        reveal_strlit("[@] ");
        reveal_strlit("[x] ");
        reveal_strlit("[~] ");
        reveal_strlit("[?] ");
        let m = status_marker(*s);
        let w = seq![' '];
        assert(m =~= m.take(3) + w);
        assert(all_ws(w));
        lemma_trim_start_stop(m);
        lemma_trim_end_skip_ws(m.take(3), w);
        lemma_trim_end_stop(m.take(3));
    }
    string_of(v.as_slice())
}


/// The record of a series.
#[verifier::spinoff_prover]
pub fn series_to_dto(s: &RecurringSeries) -> (r: SeriesDto)
    requires
        s.wf(),
    ensures
        record_of_series(r@, *s),
{
    let mut exdates: Vec<String> = Vec::new();
    let mut i: usize = 0;
    while i < s.exdates.len()
        invariant
            i <= s.exdates.len(),
            s.wf(),
            exdates@.len() == i,
            forall|k: int| 0 <= k < i ==> (#[trigger] exdates@[k])@ == date_text(s.exdates@[k]),
        decreases s.exdates.len() - i,
    {
        let t = fmt_date(s.exdates[i]);
        exdates.push(t);
        i += 1;
    }
    let mut overrides: Vec<OverrideDto> = Vec::new();
    let mut j: usize = 0;
    proof {
        crate::recur::series::lemma_override_dates_wf(s.overrides@);
    }
    while j < s.overrides.len()
        invariant
            j <= s.overrides.len(),
            s.wf(),
            forall|k: int| 0 <= k < s.overrides@.len() ==> (#[trigger] s.overrides@[k]).0.wf(),
            overrides@.len() == j,
            forall|k: int| 0 <= k < j ==> (#[trigger] overrides@[k])@ == override_record(
                s.overrides@[k].0,
                s.overrides@[k].1@,
            ),
        decreases s.overrides.len() - j,
    {
        let date = fmt_date(s.overrides[j].0);
        let o = match &s.overrides[j].1 {
            Override::State(st) => OverrideDto {
                date,
                state: state_code(st),
                title: None,
                priority: None,
            },
            Override::Done(snap) => OverrideDto {
                date,
                state: state_code(&snap.state),
                title: Some(snap.title.clone()),
                priority: Some(snap.priority),
            },
        };
        overrides.push(o);
        j += 1;
    }
    let end = match s.end {
        Some(e) => Some(fmt_date(e)),
        None => None,
    };
    let r = SeriesDto {
        id: s.id,
        title: s.title.clone(),
        priority: s.priority,
        rrule: s.rule.to_rrule(),
        anchor: fmt_date(s.anchor),
        start: fmt_date(s.start),
        end,
        exdates,
        overrides,
    };
    proof {
        assert(r@.exdates =~= s.exdates@.map_values(|d: Date| date_text(d)));
        assert(r@.overrides =~= s.overrides@.map_values(
            |p: (Date, Override)| override_record(p.0, p.1@),
        ));
    }
    r
}


// ---- a record read back ----

/// A series that its record gives back: its rule reads back from its RRULE
/// text (`rule_stable`), and its dates lie in the years 0 to 9999.
pub open spec fn series_stable(s: RecurringSeries) -> bool {
    &&& s.wf()
    &&& rule_stable(s.rule@)
    &&& 0 <= s.anchor.year <= 9999
    &&& 0 <= s.start.year <= 9999
    &&& (s.end matches Some(e) ==> 0 <= e.year <= 9999)
    &&& forall|k: int| 0 <= k < s.exdates@.len() ==> 0 <= (#[trigger] s.exdates@[k]).year <= 9999
    &&& forall|k: int|
        0 <= k < s.overrides@.len() ==> 0 <= (#[trigger] s.overrides@[k]).0.year <= 9999
}

/// A well-formed series whose rule the parser made, with an UNTIL (if any)
/// that stands without COUNT and reads back through chrono, and with its
/// dates in the years 0 to 9999, reads back from its record.
pub proof fn lemma_parsed_series_stable(s: RecurringSeries, text: Seq<char>)
    requires
        s.wf(),
        spec_from_rrule(text) == Ok::<RuleView, ErrView>(s.rule@),
        s.rule@.until matches Some(u) ==> s.rule@.count is None && until_text_ok(u),
        0 <= s.anchor.year <= 9999,
        0 <= s.start.year <= 9999,
        s.end matches Some(e) ==> 0 <= e.year <= 9999,
        forall|k: int| 0 <= k < s.exdates@.len() ==> 0 <= (#[trigger] s.exdates@[k]).year <= 9999,
        forall|k: int|
            0 <= k < s.overrides@.len() ==> 0 <= (#[trigger] s.overrides@[k]).0.year <= 9999,
    ensures
        series_stable(s),
{
    lemma_parsed_shape(text);
}

/// `x` has the content of `s`.
pub open spec fn same_series(x: RecurringSeries, s: RecurringSeries) -> bool {
    &&& x.id == s.id
    &&& x.title@ == s.title@
    &&& x.priority == s.priority
    &&& x.rule@ == s.rule@
    &&& x.anchor == s.anchor
    &&& x.start == s.start
    &&& x.end == s.end
    &&& x.exdates@ == s.exdates@
    &&& override_map(x.overrides@) == override_map(s.overrides@)
}

proof fn lemma_read_dates_of(ex: Seq<Seq<char>>, ds: Seq<Date>)
    requires
        ex.len() == ds.len(),
        forall|k: int| 0 <= k < ex.len() ==> iso_date(#[trigger] ex[k]) == Some(ds[k]),
    ensures
        read_dates(ex) == ds.to_set(),
    decreases ex.len(),
{
    if ex.len() == 0 {
        assert(ds.to_set() =~= Set::<Date>::empty());
    } else {
        let n = ex.len() - 1;
        assert forall|k: int| 0 <= k < ex.drop_last().len() implies iso_date(#[trigger] ex.drop_last()[k])
            == Some(ds.drop_last()[k]) by {
            assert(ex.drop_last()[k] == ex[k]);
        }
        lemma_read_dates_of(ex.drop_last(), ds.drop_last());
        assert(iso_date(ex[n]) == Some(ds[n]));
        assert(ds.to_set() =~= ds.drop_last().to_set().insert(ds[n])) by {
            assert forall|x: Date| ds.to_set().contains(x) implies ds.drop_last().to_set().insert(
                ds[n],
            ).contains(x) by {
                let k = choose|k: int| 0 <= k < ds.len() && ds[k] == x;
                if k < n {
                    assert(ds.drop_last()[k] == x);
                }
            }
            assert forall|x: Date| ds.drop_last().to_set().insert(ds[n]).contains(x) implies ds.to_set().contains(
                x,
            ) by {
                if x != ds[n] {
                    let k = choose|k: int| 0 <= k < ds.drop_last().len() && ds.drop_last()[k] == x;
                    assert(ds[k] == x);
                }
            }
        }
    }
}

/// With dates ascending, the override map is the map of all but the last,
/// with the last added.
proof fn lemma_override_map_last(s: Seq<(Date, Override)>)
    requires
        increasing(override_dates(s)),
        s.len() > 0,
    ensures
        override_map(s) == override_map(s.drop_last()).insert(s.last().0, s.last().1@),
{
    let n = s.len() - 1;
    let t = s.drop_last();
    lemma_override_dates_wf(s);
    crate::recur::series::lemma_override_on_at(s, n);
    assert(increasing(override_dates(t))) by {
        assert(override_dates(t) =~= override_dates(s).drop_last());
    }
    assert forall|x: Date| x != s.last().0 implies #[trigger] override_on(s, x) == override_on(t, x) by {
        lemma_override_on_drop_last(s, x);
    }
    assert(override_map(s) =~= override_map(t).insert(s.last().0, s.last().1@));
}

proof fn lemma_override_on_drop_last(s: Seq<(Date, Override)>, x: Date)
    requires
        s.len() > 0,
        x != s.last().0,
    ensures
        override_on(s, x) == override_on(s.drop_last(), x),
    decreases s.len(),
{
    if s.len() > 1 {
        if s[0].0 != x {
            assert(s.drop_first().drop_last() =~= s.drop_last().drop_first());
            assert(s.drop_first().last() == s.last());
            lemma_override_on_drop_last(s.drop_first(), x);
        }
        assert(s.drop_last()[0] == s[0]);
    } else {
        assert(s.drop_last() =~= Seq::<(Date, Override)>::empty());
        assert(s[0] == s.last());
        assert(s.drop_first() =~= Seq::<(Date, Override)>::empty());
    }
}

proof fn lemma_read_overrides_of(rs: Seq<OverrideRecord>, s: Seq<(Date, Override)>)
    requires
        rs.len() == s.len(),
        increasing(override_dates(s)),
        forall|k: int|
            0 <= k < rs.len() ==> #[trigger] rs[k] == override_record(s[k].0, s[k].1@) && iso_date(
                rs[k].date,
            ) == Some(s[k].0),
    ensures
        read_overrides(rs) == override_map(s),
    decreases rs.len(),
{
    if rs.len() == 0 {
        assert(override_map(s) =~= Map::<Date, OverrideView>::empty());
    } else {
        let n = rs.len() - 1;
        let t = s.drop_last();
        assert(increasing(override_dates(t))) by {
            assert(override_dates(t) =~= override_dates(s).drop_last());
        }
        assert forall|k: int| 0 <= k < rs.drop_last().len() implies #[trigger] rs.drop_last()[k]
            == override_record(t[k].0, t[k].1@) && iso_date(rs.drop_last()[k].date) == Some(t[k].0) by {
            assert(rs.drop_last()[k] == rs[k]);
            assert(t[k] == s[k]);
        }
        lemma_read_overrides_of(rs.drop_last(), t);
        lemma_override_map_last(s);
        let o = rs[n];
        assert(o == override_record(s[n].0, s[n].1@));
        let st = match s[n].1@ {
            OverrideView::State(st) => st,
            OverrideView::Done(_, _, st) => st,
        };
        crate::item::lemma_marker(st);
        assert(spec_status_from(o.state) == Some(st));
        assert(record_override(o, st) == s[n].1@);
    }
}

/// The series that a record gives, if its rule, anchor and start read.
/// Skipped dates and overrides that do not read are dropped.
#[verifier::spinoff_prover]
pub fn dto_to_series(dto: &SeriesDto) -> (r: Option<RecurringSeries>)
    requires
        !rrule_cut_inside(dto.rrule@),
    ensures
        r is Some <==> record_ok(dto@),
        r matches Some(s) ==> series_of_record(s, dto@),
        forall|x: RecurringSeries|
            series_stable(x) && record_of_series(dto@, x) ==> (r matches Some(s) && same_series(
                s,
                x,
            )),
{
    let rule = match Recurrence::from_rrule(dto.rrule.as_str()) {
        Ok(rule) => rule,
        Err(_) => {
            proof {
                assert forall|x: RecurringSeries|
                    series_stable(x) && record_of_series(dto@, x) implies false by {
                    lemma_rrule_round_trip(x.rule@);
                }
            }
            return None;
        },
    };
    let anchor = match parse_date(dto.anchor.as_str()) {
        Some(d) => d,
        None => {
            proof {
                assert forall|x: RecurringSeries|
                    series_stable(x) && record_of_series(dto@, x) implies false by {
                    assert(dto.anchor@ == date_text(x.anchor));
                }
            }
            return None;
        },
    };
    let start = match parse_date(dto.start.as_str()) {
        Some(d) => d,
        None => {
            proof {
                assert forall|x: RecurringSeries|
                    series_stable(x) && record_of_series(dto@, x) implies false by {
                    assert(dto.start@ == date_text(x.start));
                }
            }
            return None;
        },
    };
    proof {
        assert forall|x: RecurringSeries| series_stable(x) && record_of_series(dto@, x) implies rule@
            == x.rule@ && anchor == x.anchor && start == x.start by {
            lemma_rrule_round_trip(x.rule@);
            assert(dto.anchor@ == date_text(x.anchor));
            assert(dto.start@ == date_text(x.start));
        }
    }
    let mut s = RecurringSeries::new(dto.id, dto.title.clone(), dto.priority, rule, anchor);
    s.start = start;
    s.end = match &dto.end {
        Some(e) => parse_date(e.as_str()),
        None => None,
    };
    proof {
        assert forall|x: RecurringSeries| series_stable(x) && record_of_series(dto@, x) implies s.end
            == x.end by {
            if let Some(e) = x.end {
                assert(dto@.end == Some(date_text(e)));
            }
        }
    }
    let ghost ex = dto@.exdates;
    let mut i: usize = 0;
    proof {
        assert(s.exdates@.to_set() =~= read_dates(ex.take(0)));
    }
    while i < dto.exdates.len()
        invariant
            i <= dto.exdates.len(),
            ex == dto@.exdates,
            s.wf(),
            s.exdates@.to_set() == read_dates(ex.take(i as int)),
            s.rule@ == rule@,
            s.id == dto.id,
            s.title@ == dto.title@,
            s.priority == dto.priority,
            s.anchor == anchor,
            s.start == start,
            s.end == (match dto@.end {
                Some(e) => iso_date(e),
                None => None,
            }),
            s.overrides@ == Seq::<(Date, Override)>::empty(),
            forall|k: int, d: Date|
                #![trigger ex[k], date_text(d)]
                0 <= k < i && d.wf() && 0 <= d.year <= 9999 && ex[k] == date_text(d) ==> iso_date(ex[k])
                    == Some(d),
            forall|x: RecurringSeries|
                series_stable(x) && record_of_series(dto@, x) ==> rule@ == x.rule@ && anchor
                    == x.anchor && start == x.start && s.end == x.end,
        decreases dto.exdates.len() - i,
    {
        proof {
            assert(ex.take(i + 1).drop_last() =~= ex.take(i as int));
            assert(ex[i as int] == dto.exdates@[i as int]@);
        }
        let pd = parse_date(dto.exdates[i].as_str());
        match pd {
            Some(d) => s.skip(d),
            None => {},
        }
        proof {
            assert forall|k: int, d: Date|
                #![trigger ex[k], date_text(d)]
                0 <= k < i + 1 && d.wf() && 0 <= d.year <= 9999 && ex[k] == date_text(d) implies iso_date(
                ex[k],
            ) == Some(d) by {
                if k == i {
                    assert(dto.exdates@[i as int]@ == ex[k]);
                }
            }
        }
        i += 1;
    }
    let ghost ovs = dto@.overrides;
    let mut j: usize = 0;
    proof {
        assert(ex.take(i as int) =~= ex);
        assert(override_map(s.overrides@) =~= read_overrides(ovs.take(0)));
    }
    while j < dto.overrides.len()
        invariant
            j <= dto.overrides.len(),
            ovs == dto@.overrides,
            s.wf(),
            override_map(s.overrides@) == read_overrides(ovs.take(j as int)),
            s.exdates@.to_set() == read_dates(ex),
            ex == dto@.exdates,
            s.rule@ == rule@,
            s.id == dto.id,
            s.title@ == dto.title@,
            s.priority == dto.priority,
            s.anchor == anchor,
            s.start == start,
            s.end == (match dto@.end {
                Some(e) => iso_date(e),
                None => None,
            }),
            forall|k: int, d: Date|
                #![trigger ex[k], date_text(d)]
                0 <= k < ex.len() && d.wf() && 0 <= d.year <= 9999 && ex[k] == date_text(d) ==> iso_date(ex[k])
                    == Some(d),
            forall|k: int, d: Date|
                #![trigger ovs[k], date_text(d)]
                0 <= k < j && d.wf() && 0 <= d.year <= 9999 && ovs[k].date == date_text(d) ==> iso_date(
                    ovs[k].date,
                ) == Some(d),
            forall|x: RecurringSeries|
                series_stable(x) && record_of_series(dto@, x) ==> rule@ == x.rule@ && anchor
                    == x.anchor && start == x.start && s.end == x.end,
        decreases dto.overrides.len() - j,
    {
        proof {
            assert(ovs.take(j + 1).drop_last() =~= ovs.take(j as int));
            assert(ovs[j as int] == dto.overrides@[j as int]@);
        }
        let o = &dto.overrides[j];
        let date = parse_date(o.date.as_str());
        proof {
            assert forall|k: int, d: Date|
                #![trigger ovs[k], date_text(d)]
                0 <= k < j + 1 && d.wf() && 0 <= d.year <= 9999 && ovs[k].date == date_text(d) implies iso_date(
                ovs[k].date,
            ) == Some(d) by {
                if k == j {
                    assert(o.date@ == ovs[k].date);
                }
            }
        }
        let state = Status::from_str(o.state.as_str());
        match (date, state) {
            (Some(d), Some(st)) => {
                let ov = match &o.title {
                    Some(t) => Override::Done(
                        Snapshot {
                            title: t.clone(),
                            priority: match o.priority {
                                Some(p) => p,
                                None => 0,
                            },
                            state: st,
                        },
                    ),
                    None => Override::State(st),
                };
                s.set_override(d, ov);
            },
            _ => {},
        }
        j += 1;
    }
    proof {
        assert(ovs.take(j as int) =~= ovs);
        assert forall|x: RecurringSeries| series_stable(x) && record_of_series(dto@, x) implies same_series(
            s,
            x,
        ) by {
            assert forall|k: int| 0 <= k < ex.len() implies iso_date(#[trigger] ex[k]) == Some(
                x.exdates@[k],
            ) by {
                assert(ex[k] == date_text(x.exdates@[k]));
            }
            lemma_read_dates_of(ex, x.exdates@);
            crate::recur::dates::lemma_increasing_unique(s.exdates@, x.exdates@);
            lemma_override_dates_wf(x.overrides@);
            assert forall|k: int| 0 <= k < ovs.len() implies #[trigger] ovs[k] == override_record(
                x.overrides@[k].0,
                x.overrides@[k].1@,
            ) && iso_date(ovs[k].date) == Some(x.overrides@[k].0) by {
                assert(ovs[k] == override_record(x.overrides@[k].0, x.overrides@[k].1@));
                assert(ovs[k].date == date_text(x.overrides@[k].0));
            }
            lemma_read_overrides_of(ovs, x.overrides@);
        }
    }
    Some(s)
}


// ---- the store ----

/// The series of a list, the path of their sidecar, and the next free id.
pub struct SeriesStore {
    pub series: Vec<RecurringSeries>,
    pub path: String,
    /// The id that the next new series gets.
    pub next_id: u64,
}

/// The records that give a series, in order.
pub open spec fn ok_records(v: Seq<SeriesRecord>) -> Seq<SeriesRecord>
    decreases v.len(),
{
    if v.len() == 0 {
        Seq::empty()
    } else if record_ok(v.last()) {
        ok_records(v.drop_last()).push(v.last())
    } else {
        ok_records(v.drop_last())
    }
}

/// `records` are the records of the series `st`, one for one, and each
/// series reads back from its record.
pub open spec fn records_of(records: Seq<SeriesDto>, st: Seq<RecurringSeries>) -> bool {
    &&& records.len() == st.len()
    &&& forall|k: int|
        0 <= k < st.len() ==> series_stable(#[trigger] st[k]) && record_of_series(records[k]@, st[k])
}

/// One more than the largest id, or 0 when there is no series.
pub open spec fn next_after(s: Seq<RecurringSeries>) -> int
    decreases s.len(),
{
    if s.len() == 0 {
        0
    } else {
        let n = next_after(s.drop_last());
        if s.last().id + 1 > n {
            s.last().id + 1
        } else {
            n
        }
    }
}

/// The position of the first series numbered `id`.
pub open spec fn position_of(s: Seq<RecurringSeries>, id: u64) -> Option<int>
    decreases s.len(),
{
    if s.len() == 0 {
        None
    } else {
        match position_of(s.drop_last(), id) {
            Some(k) => Some(k),
            None => if s.last().id == id {
                Some(s.len() - 1)
            } else {
                None
            },
        }
    }
}

/// The series without those numbered `id`.
pub open spec fn without_id(s: Seq<RecurringSeries>, id: u64) -> Seq<RecurringSeries>
    decreases s.len(),
{
    if s.len() == 0 {
        Seq::empty()
    } else if s.last().id == id {
        without_id(s.drop_last(), id)
    } else {
        without_id(s.drop_last(), id).push(s.last())
    }
}

proof fn lemma_position_of(s: Seq<RecurringSeries>, id: u64)
    ensures
        position_of(s, id) matches Some(k) ==> 0 <= k < s.len() && s[k].id == id && forall|j: int|
            0 <= j < k ==> (#[trigger] s[j]).id != id,
        position_of(s, id) is None ==> forall|j: int| 0 <= j < s.len() ==> (#[trigger] s[j]).id != id,
    decreases s.len(),
{
    if s.len() > 0 {
        lemma_position_of(s.drop_last(), id);
        assert forall|j: int| 0 <= j < s.len() - 1 implies #[trigger] s[j] == s.drop_last()[j] by {}
    }
}

proof fn lemma_position_of_first(s: Seq<RecurringSeries>, id: u64, k: int)
    requires
        0 <= k < s.len(),
        s[k].id == id,
        forall|j: int| 0 <= j < k ==> (#[trigger] s[j]).id != id,
    ensures
        position_of(s, id) == Some(k),
{
    lemma_position_of(s, id);
    match position_of(s, id) {
        Some(p) => {
            if p > k {
            } else if p < k {
                assert(s[p].id != id);
            }
        },
        None => {},
    }
}

impl SeriesStore {
    /// The next free id.
    pub open spec fn next_free(&self) -> u64 {
        self.next_id
    }

    /// Every series is well formed and numbered below the next free id.
    pub open spec fn wf(&self) -> bool {
        forall|k: int|
            0 <= k < self.series@.len() ==> (#[trigger] self.series@[k]).wf() && self.series@[k].id
                < self.next_free()
    }

    /// The store of the list at `xit_path`, from the records of its sidecar:
    /// the series of the records that give one, and the next id one past
    /// the largest.
    #[verifier::spinoff_prover]
    pub fn from_records(xit_path: &str, records: &Vec<SeriesDto>) -> (r: SeriesStore)
        requires
            forall|k: int|
                0 <= k < records@.len() && record_ok((#[trigger] records@[k])@) ==> records@[k].id
                    < u64::MAX,
            forall|k: int| 0 <= k < records@.len() ==> !rrule_cut_inside((#[trigger] records@[k]).rrule@),
        ensures
            r.wf(),
            plain_path(xit_path@) ==> r.path@ == with_extension(xit_path@, "recur.toml"@),
            ({
                let oks = ok_records(records@.map_values(|d: SeriesDto| d@));
                &&& r.series@.len() == oks.len()
                &&& forall|k: int|
                    0 <= k < oks.len() ==> series_of_record(#[trigger] r.series@[k], oks[k])
            }),
            r.next_free() == next_after(r.series@),
            forall|st: Seq<RecurringSeries>|
                #[trigger] records_of(records@, st) ==> r.series@.len() == st.len() && forall|k: int|
                    0 <= k < st.len() ==> same_series(#[trigger] r.series@[k], st[k]),
    {
        let path = sidecar_path(xit_path);
        let ghost recs = records@.map_values(|d: SeriesDto| d@);
        let mut series: Vec<RecurringSeries> = Vec::new();
        let mut next: u64 = 0;
        let mut i: usize = 0;
        while i < records.len()
            invariant
                i <= records.len(),
                recs == records@.map_values(|d: SeriesDto| d@),
                forall|k: int|
                    0 <= k < records@.len() && record_ok((#[trigger] records@[k])@) ==> records@[k].id
                        < u64::MAX,
                forall|k: int| 0 <= k < records@.len() ==> !rrule_cut_inside((#[trigger] records@[k]).rrule@),
                series@.len() == ok_records(recs.take(i as int)).len(),
                forall|k: int|
                    0 <= k < series@.len() ==> series_of_record(
                        #[trigger] series@[k],
                        ok_records(recs.take(i as int))[k],
                    ),
                next == next_after(series@),
                forall|k: int| 0 <= k < series@.len() ==> (#[trigger] series@[k]).id < next,
                forall|st: Seq<RecurringSeries>|
                    #[trigger] records_of(records@, st) ==> series@.len() == i && forall|k: int|
                        0 <= k < i ==> same_series(#[trigger] series@[k], st[k]),
            decreases records.len() - i,
        {
            proof {
                assert(recs.take(i + 1).drop_last() =~= recs.take(i as int));
                assert(recs.take(i + 1).last() == records@[i as int]@);
            }
            match dto_to_series(&records[i]) {
                Some(s) => {
                    let ghost prev = series@;
                    let id = s.id;
                    series.push(s);
                    if id + 1 > next {
                        next = id + 1;
                    }
                    proof {
                        assert(series@.drop_last() =~= prev);
                        assert forall|st: Seq<RecurringSeries>| #[trigger] records_of(records@, st) implies series@.len()
                            == i + 1 && forall|k: int|
                            0 <= k < i + 1 ==> same_series(#[trigger] series@[k], st[k]) by {
                            assert(series_stable(st[i as int]) && record_of_series(records@[i as int]@, st[i as int]));
                            assert forall|k: int| 0 <= k < i + 1 implies same_series(#[trigger] series@[k], st[k]) by {
                                if k < i {
                                    assert(series@[k] == prev[k]);
                                }
                            }
                        }
                    }
                },
                None => {
                    proof {
                        assert forall|st: Seq<RecurringSeries>| #[trigger] records_of(records@, st) implies false by {
                            assert(series_stable(st[i as int]) && record_of_series(records@[i as int]@, st[i as int]));
                        }
                    }
                },
            }
            i += 1;
        }
        proof {
            assert(recs.take(i as int) =~= recs);
        }
        SeriesStore { series, path, next_id: next }
    }

    /// The records of the series, for the sidecar.
    pub fn to_records(&self) -> (r: Vec<SeriesDto>)
        requires
            self.wf(),
        ensures
            r@.len() == self.series@.len(),
            forall|k: int| 0 <= k < r@.len() ==> record_of_series((#[trigger] r@[k])@, self.series@[k]),
    {
        let mut out: Vec<SeriesDto> = Vec::new();
        let mut i: usize = 0;
        while i < self.series.len()
            invariant
                i <= self.series.len(),
                self.wf(),
                out@.len() == i,
                forall|k: int| 0 <= k < i ==> record_of_series((#[trigger] out@[k])@, self.series@[k]),
            decreases self.series.len() - i,
        {
            out.push(series_to_dto(&self.series[i]));
            i += 1;
        }
        out
    }

    fn next_id(&mut self) -> (r: u64)
        requires
            old(self).next_free() < u64::MAX,
        ensures
            r == old(self).next_free(),
            final(self).next_free() == old(self).next_free() + 1,
            final(self).series@ == old(self).series@,
            final(self).path@ == old(self).path@,
    {
        let id = self.next_id;
        self.next_id = self.next_id + 1;
        id
    }

    /// Creates a series and returns its id, one that no series had.
    pub fn add(&mut self, title: String, priority: i8, rule: Recurrence, anchor: Date) -> (r: u64)
        requires
            old(self).wf(),
            old(self).next_free() < u64::MAX,
            rule.wf(),
            anchor.wf(),
        ensures
            final(self).wf(),
            r == old(self).next_free(),
            forall|k: int| 0 <= k < old(self).series@.len() ==> (#[trigger] old(self).series@[k]).id != r,
            final(self).next_free() == old(self).next_free() + 1,
            final(self).path@ == old(self).path@,
            final(self).series@.len() == old(self).series@.len() + 1,
            final(self).series@.drop_last() == old(self).series@,
            ({
                let s = final(self).series@.last();
                &&& s.id == r
                &&& s.title@ == title@
                &&& s.priority == priority
                &&& s.rule@ == rule@
                &&& s.anchor == anchor
                &&& s.start == anchor
                &&& s.end is None
                &&& s.exdates@.len() == 0
                &&& s.overrides@.len() == 0
            }),
    {
        let id = self.next_id();
        self.series.push(RecurringSeries::new(id, title, priority, rule, anchor));
        proof {
            assert(self.series@.drop_last() =~= old(self).series@);
        }
        id
    }

    /// The first series numbered `id`.
    pub fn get(&self, id: u64) -> (r: Option<&RecurringSeries>)
        ensures
            match position_of(self.series@, id) {
                Some(k) => r == Some(&self.series@[k]),
                None => r is None,
            },
    {
        let mut i: usize = 0;
        while i < self.series.len()
            invariant
                i <= self.series.len(),
                forall|j: int| 0 <= j < i ==> (#[trigger] self.series@[j]).id != id,
            decreases self.series.len() - i,
        {
            if self.series[i].id == id {
                proof {
                    lemma_position_of_first(self.series@, id, i as int);
                }
                return Some(&self.series[i]);
            }
            i += 1;
        }
        proof {
            lemma_position_of(self.series@, id);
        }
        None
    }

    /// The first series numbered `id`, to change in place.
    pub fn get_mut(&mut self, id: u64) -> (r: Option<&mut RecurringSeries>)
        ensures
            match position_of(old(self).series@, id) {
                Some(k) => r matches Some(s) && *s == old(self).series@[k] && final(self).series@
                    == old(self).series@.update(k, *final(s)) && final(self).path == old(self).path
                    && final(self).next_id == old(self).next_id,
                None => r is None && final(self).series@ == old(self).series@ && final(self).path
                    == old(self).path && final(self).next_id == old(self).next_id,
            },
    {
        proof {
            lemma_position_of(self.series@, id);
        }
        match self.position(id) {
            Some(i) => Some(&mut self.series[i]),
            None => None,
        }
    }

    /// The position of the first series numbered `id`.
    pub fn position(&self, id: u64) -> (r: Option<usize>)
        ensures
            match position_of(self.series@, id) {
                Some(k) => r matches Some(i) && i as int == k,
                None => r is None,
            },
    {
        let mut i: usize = 0;
        while i < self.series.len()
            invariant
                i <= self.series.len(),
                forall|j: int| 0 <= j < i ==> (#[trigger] self.series@[j]).id != id,
            decreases self.series.len() - i,
        {
            if self.series[i].id == id {
                proof {
                    lemma_position_of_first(self.series@, id, i as int);
                }
                return Some(i);
            }
            i += 1;
        }
        proof {
            lemma_position_of(self.series@, id);
        }
        None
    }

    /// Removes every series numbered `id`.
    pub fn remove(&mut self, id: u64)
        requires
            old(self).wf(),
        ensures
            final(self).wf(),
            final(self).series@ == without_id(old(self).series@, id),
            final(self).next_free() == old(self).next_free(),
            final(self).path@ == old(self).path@,
    {
        let ghost s0 = self.series@;
        let mut kept: Vec<RecurringSeries> = Vec::new();
        let mut rest: Vec<RecurringSeries> = Vec::new();
        std::mem::swap(&mut rest, &mut self.series);
        proof {
            assert(rest@ == s0);
            assert(s0.len() == rest.len());
        }
        let mut i: usize = 0;
        while rest.len() > 0
            invariant
                i + rest@.len() == s0.len(),
                s0.len() <= usize::MAX,
                rest@ == s0.skip(i as int),
                kept@ == without_id(s0.take(i as int), id),
                forall|k: int| 0 <= k < kept@.len() ==> (#[trigger] kept@[k]).wf() && kept@[k].id < self.next_free(),
                forall|k: int| 0 <= k < s0.len() ==> (#[trigger] s0[k]).wf() && s0[k].id < self.next_free(),
                self.next_free() == old(self).next_free(),
                self.path@ == old(self).path@,
            decreases rest.len(),
        {
            let s = rest.remove(0);
            proof {
                assert(s == s0[i as int]);
                assert(s0.take(i + 1).drop_last() =~= s0.take(i as int));
                assert(rest@ =~= s0.skip(i + 1));
            }
            if s.id != id {
                kept.push(s);
            }
            i += 1;
        }
        proof {
            assert(s0.take(i as int) =~= s0);
        }
        self.series = kept;
    }

    /// Splits the series numbered `id` at `d` (this and future): the future
    /// half gets the next id, which is returned; `None` when there is no such
    /// series. The next id is used up either way.
    #[verifier::spinoff_prover]
    pub fn split(&mut self, id: u64, d: Date) -> (r: Option<u64>)
        requires
            old(self).wf(),
            old(self).next_free() < u64::MAX,
            d.wf(),
        ensures
            final(self).wf(),
            final(self).next_free() == old(self).next_free() + 1,
            final(self).path@ == old(self).path@,
            match position_of(old(self).series@, id) {
                Some(k) => {
                    &&& r == Some(old(self).next_free())
                    &&& final(self).series@.len() == old(self).series@.len() + 1
                    &&& forall|j: int|
                        0 <= j < old(self).series@.len() && j != k ==> #[trigger] final(self).series@[j]
                            == old(self).series@[j]
                    &&& split_result(
                        old(self).series@[k],
                        d,
                        old(self).next_free(),
                        final(self).series@[k],
                        final(self).series@.last(),
                    )
                },
                None => r is None && final(self).series@ == old(self).series@,
            },
    {
        let new_id = self.next_id();
        let idx = match self.position(id) {
            Some(i) => i,
            None => {
                return None;
            },
        };
        proof {
            lemma_position_of(self.series@, id);
        }
        let ghost s0 = self.series@;
        let mut s = self.series.remove(idx);
        let future = s.split_at(d, new_id);
        let ghost kept = s;
        let ghost fut = future;
        self.series.insert(idx, s);
        self.series.push(future);
        proof {
            assert(self.series@[idx as int] == kept);
            assert(self.series@.last() == fut);
            assert forall|j: int| 0 <= j < s0.len() && j != idx implies #[trigger] self.series@[j]
                == s0[j] by {}
            assert forall|j: int| 0 <= j < self.series@.len() implies (#[trigger] self.series@[j]).wf()
                && self.series@[j].id < self.next_free() by {
                if j < s0.len() && j != idx {
                    assert(self.series@[j] == s0[j]);
                }
            }
        }
        Some(new_id)
    }
}

} // verus!
