//! The recurrence rule type and its RRULE-string parser and formatter.
//!
//! Date-level subset of RFC 5545 RRULE, with no time of day: FREQ daily,
//! weekly, monthly or yearly, INTERVAL, BYDAY (with ordinals), BYMONTHDAY,
//! BYMONTH, BYYEARDAY, BYWEEKNO, BYSETPOS, WKST, and COUNT or UNTIL.
use crate::date::{
    parse_date_with, format_date_with, lemma_ymd_compact_text_chars, ymd_compact_text, Date,
    Weekday, chrono_parse_result, compact_date_text,
};
use crate::text::{
    chars_of, concat, eq_str, int_to_vec, parse_int, parse_in_range, split, split_once,
    split_once_vec, split_vec, starts_with_str, string_of, subvec, to_upper, to_upper_vec, trim, trim_vec, views,
    int_text, join, is_ws, lemma_int_text_chars, lemma_parse_int_text, lemma_split_join,
    lemma_trim_plain, no_char, lemma_find_char_after, lemma_to_upper_same,
    lemma_join_ends, lemma_join_chars,
};
use vstd::prelude::*;

verus! {

#[derive(Clone, Copy, PartialEq, Eq, Structural, Debug)]
pub enum Freq {
    Daily,
    Weekly,
    Monthly,
    Yearly,
}

/// A weekday with an optional ordinal: `1SU` is the first Sunday, `-1FR` the
/// last Friday. `ord == None` means every such weekday within the period.
#[derive(Clone, Copy, PartialEq, Eq, Structural, Debug)]
pub struct NWeekday {
    pub ord: Option<i8>,
    pub weekday: Weekday,
}

#[derive(Clone, PartialEq, Eq, Debug)]
pub struct Recurrence {
    pub freq: Freq,
    pub interval: u32,
    pub by_month: Vec<u32>,
    pub by_month_day: Vec<i8>,
    pub by_year_day: Vec<i16>,
    pub by_week_no: Vec<i8>,
    pub by_day: Vec<NWeekday>,
    pub by_set_pos: Vec<i16>,
    pub wkst: Weekday,
    pub count: Option<u32>,
    pub until: Option<Date>,
}

/// The mathematical content of a `Recurrence`.
pub struct RuleView {
    pub freq: Freq,
    pub interval: u32,
    pub by_month: Seq<u32>,
    pub by_month_day: Seq<i8>,
    pub by_year_day: Seq<i16>,
    pub by_week_no: Seq<i8>,
    pub by_day: Seq<NWeekday>,
    pub by_set_pos: Seq<i16>,
    pub wkst: Weekday,
    pub count: Option<u32>,
    pub until: Option<Date>,
}

impl View for Recurrence {
    type V = RuleView;

    open spec fn view(&self) -> RuleView {
        RuleView {
            freq: self.freq,
            interval: self.interval,
            by_month: self.by_month@,
            by_month_day: self.by_month_day@,
            by_year_day: self.by_year_day@,
            by_week_no: self.by_week_no@,
            by_day: self.by_day@,
            by_set_pos: self.by_set_pos@,
            wkst: self.wkst,
            count: self.count,
            until: self.until,
        }
    }
}

impl RuleView {
    /// A rule as the parser makes it: an interval of at least 1 and a
    /// valid UNTIL.
    pub open spec fn wf(self) -> bool {
        &&& self.interval >= 1
        &&& self.until matches Some(u) ==> u.wf()
    }
}

impl Recurrence {
    pub open spec fn wf(&self) -> bool {
        self@.wf()
    }
}

#[derive(Debug, PartialEq, Eq)]
pub enum RruleError {
    Empty,
    MissingFreq,
    UnknownPart(String),
    BadFreq(String),
    BadInt { key: &'static str, val: String },
    BadWeekday(String),
    BadDate { key: &'static str, val: String },
    OutOfRange { key: &'static str, val: i64 },
    ZeroValue { key: &'static str },
}

/// The mathematical content of an `RruleError`.
pub enum ErrView {
    Empty,
    MissingFreq,
    UnknownPart(Seq<char>),
    BadFreq(Seq<char>),
    BadInt(Seq<char>, Seq<char>),
    BadWeekday(Seq<char>),
    BadDate(Seq<char>, Seq<char>),
    OutOfRange(Seq<char>, int),
    ZeroValue(Seq<char>),
}

impl View for RruleError {
    type V = ErrView;

    open spec fn view(&self) -> ErrView {
        match self {
            RruleError::Empty => ErrView::Empty,
            RruleError::MissingFreq => ErrView::MissingFreq,
            RruleError::UnknownPart(s) => ErrView::UnknownPart(s@),
            RruleError::BadFreq(s) => ErrView::BadFreq(s@),
            RruleError::BadInt { key, val } => ErrView::BadInt(key@, val@),
            RruleError::BadWeekday(s) => ErrView::BadWeekday(s@),
            RruleError::BadDate { key, val } => ErrView::BadDate(key@, val@),
            RruleError::OutOfRange { key, val } => ErrView::OutOfRange(key@, *val as int),
            RruleError::ZeroValue { key } => ErrView::ZeroValue(key@),
        }
    }
}

// ---- specification of the text form ----

pub open spec fn default_rule() -> RuleView {
    RuleView {
        freq: Freq::Daily,
        interval: 1,
        by_month: seq![],
        by_month_day: seq![],
        by_year_day: seq![],
        by_week_no: seq![],
        by_day: seq![],
        by_set_pos: seq![],
        wkst: Weekday::Mon,
        count: None,
        until: None,
    }
}

pub open spec fn spec_weekday_from_code(s: Seq<char>) -> Option<Weekday> {
    if s == "SU"@ {
        Some(Weekday::Sun)
    } else if s == "MO"@ {
        Some(Weekday::Mon)
    } else if s == "TU"@ {
        Some(Weekday::Tue)
    } else if s == "WE"@ {
        Some(Weekday::Wed)
    } else if s == "TH"@ {
        Some(Weekday::Thu)
    } else if s == "FR"@ {
        Some(Weekday::Fri)
    } else if s == "SA"@ {
        Some(Weekday::Sat)
    } else {
        None
    }
}

pub open spec fn spec_weekday_code(w: Weekday) -> Seq<char> {
    match w {
        Weekday::Sun => "SU"@,
        Weekday::Mon => "MO"@,
        Weekday::Tue => "TU"@,
        Weekday::Wed => "WE"@,
        Weekday::Thu => "TH"@,
        Weekday::Fri => "FR"@,
        Weekday::Sat => "SA"@,
    }
}

/// One BYDAY item: an optional nonzero `i8` ordinal, then a two-letter code.
pub open spec fn spec_parse_nweekday(s: Seq<char>) -> Result<NWeekday, ErrView> {
    if s.len() < 2 {
        Err(ErrView::BadWeekday(s))
    } else {
        let ord_str = s.take(s.len() - 2);
        match spec_weekday_from_code(s.skip(s.len() - 2)) {
            None => Err(ErrView::BadWeekday(s)),
            Some(weekday) => if ord_str.len() == 0 {
                Ok(NWeekday { ord: None, weekday })
            } else {
                match parse_in_range(ord_str, -128, 127) {
                    None => Err(ErrView::BadWeekday(s)),
                    Some(n) => if n == 0 {
                        Err(ErrView::ZeroValue("BYDAY"@))
                    } else {
                        Ok(NWeekday { ord: Some(n as i8), weekday })
                    },
                }
            },
        }
    }
}

/// BYDAY items, in order; the first bad item decides the error.
pub open spec fn spec_parse_nweekdays(pieces: Seq<Seq<char>>) -> Result<Seq<NWeekday>, ErrView>
    decreases pieces.len(),
{
    if pieces.len() == 0 {
        Ok(seq![])
    } else {
        match spec_parse_nweekdays(pieces.drop_last()) {
            Err(e) => Err(e),
            Ok(done) => match spec_parse_nweekday(trim(pieces.last())) {
                Err(e) => Err(e),
                Ok(n) => Ok(done.push(n)),
            },
        }
    }
}

/// The number of bytes that `c` takes in UTF-8.
pub open spec fn utf8_len(c: char) -> int {
    if (c as u32) < 0x80 {
        1
    } else if (c as u32) < 0x800 {
        2
    } else if (c as u32) < 0x1_0000 {
        3
    } else {
        4
    }
}

/// A BYDAY item is cut two bytes before its end, where its weekday code
/// starts; this holds when that cut falls inside a character (which the
/// cut does not allow).
pub open spec fn nweekday_cut_inside(s: Seq<char>) -> bool {
    ||| s.len() == 1 && utf8_len(s[0]) >= 3
    ||| s.len() >= 2 && utf8_len(s.last()) != 2 && !(utf8_len(s.last()) == 1 && utf8_len(
        s[s.len() - 2],
    ) == 1)
}

/// Reading the BYDAY items reaches one whose cut falls inside a character,
/// every item before it being read.
pub open spec fn nweekdays_cut_inside(pieces: Seq<Seq<char>>) -> bool
    decreases pieces.len(),
{
    if pieces.len() == 0 {
        false
    } else {
        nweekdays_cut_inside(pieces.drop_last()) || (spec_parse_nweekdays(pieces.drop_last()) is Ok
            && nweekday_cut_inside(trim(pieces.last())))
    }
}

proof fn lemma_nweekdays_cut_prefix(pieces: Seq<Seq<char>>, j: int)
    requires
        0 <= j <= pieces.len(),
        nweekdays_cut_inside(pieces.take(j)),
    ensures
        nweekdays_cut_inside(pieces),
    decreases pieces.len() - j,
{
    if j < pieces.len() {
        assert(pieces.drop_last().take(j) =~= pieces.take(j));
        lemma_nweekdays_cut_prefix(pieces.drop_last(), j);
    } else {
        assert(pieces.take(j) =~= pieces);
    }
}

/// One item of a signed list: an `i64`, nonzero, within `min..=max`.
pub open spec fn spec_signed_item(p: Seq<char>, key: Seq<char>, min: int, max: int) -> Result<
    int,
    ErrView,
> {
    match parse_in_range(trim(p), i64::MIN as int, i64::MAX as int) {
        None => Err(ErrView::BadInt(key, p)),
        Some(n) => if n == 0 {
            Err(ErrView::ZeroValue(key))
        } else if n < min || n > max {
            Err(ErrView::OutOfRange(key, n))
        } else {
            Ok(n)
        },
    }
}

pub open spec fn spec_signed_items(pieces: Seq<Seq<char>>, key: Seq<char>, min: int, max: int) -> Result<
    Seq<i64>,
    ErrView,
>
    decreases pieces.len(),
{
    if pieces.len() == 0 {
        Ok(seq![])
    } else {
        match spec_signed_items(pieces.drop_last(), key, min, max) {
            Err(e) => Err(e),
            Ok(done) => match spec_signed_item(pieces.last(), key, min, max) {
                Err(e) => Err(e),
                Ok(n) => Ok(done.push(n as i64)),
            },
        }
    }
}

/// A comma list of signed integers, each nonzero and within `min..=max`.
pub open spec fn spec_parse_signed_list(val: Seq<char>, key: Seq<char>, min: int, max: int) -> Result<
    Seq<i64>,
    ErrView,
> {
    spec_signed_items(split(val, ','), key, min, max)
}

/// UNTIL: the text before the first `T`, as `%Y-%m-%d` or else `%Y%m%d`.
pub open spec fn spec_parse_until(val: Seq<char>) -> Result<(int, int, int), ErrView> {
    let date_part = split(val, 'T')[0];
    match chrono_parse_result(date_part, "%Y-%m-%d"@) {
        Some(d) => Ok(d),
        None => match chrono_parse_result(date_part, "%Y%m%d"@) {
            Some(d) => Ok(d),
            None => Err(ErrView::BadDate("UNTIL"@, val)),
        },
    }
}

pub open spec fn as_dates(d: (int, int, int)) -> Date {
    Date { year: d.0 as i32, month: d.1 as u32, day: d.2 as u32 }
}

/// Applies one `KEY=value` part to the rule built so far.
pub open spec fn spec_apply_part(acc: (RuleView, bool), raw: Seq<char>) -> Result<
    (RuleView, bool),
    ErrView,
> {
    let part = trim(raw);
    let r = acc.0;
    if part.len() == 0 {
        Ok(acc)
    } else {
        match split_once(part, '=') {
            None => Err(ErrView::UnknownPart(part)),
            Some(kv) => {
                let key = to_upper(trim(kv.0));
                let val = trim(kv.1);
                if key == "FREQ"@ {
                    let f = to_upper(val);
                    if f == "DAILY"@ {
                        Ok((RuleView { freq: Freq::Daily, ..r }, true))
                    } else if f == "WEEKLY"@ {
                        Ok((RuleView { freq: Freq::Weekly, ..r }, true))
                    } else if f == "MONTHLY"@ {
                        Ok((RuleView { freq: Freq::Monthly, ..r }, true))
                    } else if f == "YEARLY"@ {
                        Ok((RuleView { freq: Freq::Yearly, ..r }, true))
                    } else {
                        Err(ErrView::BadFreq(val))
                    }
                } else if key == "INTERVAL"@ {
                    match parse_in_range(val, 0, u32::MAX as int) {
                        None => Err(ErrView::BadInt("INTERVAL"@, val)),
                        Some(n) => if n == 0 {
                            Err(ErrView::ZeroValue("INTERVAL"@))
                        } else {
                            Ok((RuleView { interval: n as u32, ..r }, acc.1))
                        },
                    }
                } else if key == "COUNT"@ {
                    match parse_in_range(val, 0, u32::MAX as int) {
                        None => Err(ErrView::BadInt("COUNT"@, val)),
                        Some(n) => Ok((RuleView { count: Some(n as u32), ..r }, acc.1)),
                    }
                } else if key == "UNTIL"@ {
                    match spec_parse_until(val) {
                        Err(e) => Err(e),
                        Ok(d) => Ok((RuleView { until: Some(as_dates(d)), ..r }, acc.1)),
                    }
                } else if key == "WKST"@ {
                    match spec_weekday_from_code(val) {
                        None => Err(ErrView::BadWeekday(val)),
                        Some(w) => Ok((RuleView { wkst: w, ..r }, acc.1)),
                    }
                } else if key == "BYMONTH"@ {
                    match spec_parse_signed_list(val, "BYMONTH"@, 1, 12) {
                        Err(e) => Err(e),
                        Ok(ns) => Ok(
                            (RuleView { by_month: ns.map_values(|n: i64| n as u32), ..r }, acc.1),
                        ),
                    }
                } else if key == "BYMONTHDAY"@ {
                    match spec_parse_signed_list(val, "BYMONTHDAY"@, -31, 31) {
                        Err(e) => Err(e),
                        Ok(ns) => Ok(
                            (RuleView { by_month_day: ns.map_values(|n: i64| n as i8), ..r }, acc.1),
                        ),
                    }
                } else if key == "BYYEARDAY"@ {
                    match spec_parse_signed_list(val, "BYYEARDAY"@, -366, 366) {
                        Err(e) => Err(e),
                        Ok(ns) => Ok(
                            (RuleView { by_year_day: ns.map_values(|n: i64| n as i16), ..r }, acc.1),
                        ),
                    }
                } else if key == "BYWEEKNO"@ {
                    match spec_parse_signed_list(val, "BYWEEKNO"@, -53, 53) {
                        Err(e) => Err(e),
                        Ok(ns) => Ok(
                            (RuleView { by_week_no: ns.map_values(|n: i64| n as i8), ..r }, acc.1),
                        ),
                    }
                } else if key == "BYSETPOS"@ {
                    match spec_parse_signed_list(val, "BYSETPOS"@, -366, 366) {
                        Err(e) => Err(e),
                        Ok(ns) => Ok(
                            (RuleView { by_set_pos: ns.map_values(|n: i64| n as i16), ..r }, acc.1),
                        ),
                    }
                } else if key == "BYDAY"@ {
                    match spec_parse_nweekdays(split(val, ',')) {
                        Err(e) => Err(e),
                        Ok(ds) => Ok((RuleView { by_day: ds, ..r }, acc.1)),
                    }
                } else {
                    Err(ErrView::UnknownPart(key))
                }
            },
        }
    }
}

pub open spec fn spec_apply_parts(acc: (RuleView, bool), parts: Seq<Seq<char>>) -> Result<
    (RuleView, bool),
    ErrView,
>
    decreases parts.len(),
{
    if parts.len() == 0 {
        Ok(acc)
    } else {
        match spec_apply_parts(acc, parts.drop_last()) {
            Err(e) => Err(e),
            Ok(a) => spec_apply_part(a, parts.last()),
        }
    }
}

/// The part is a BYDAY part whose items reach a cut inside a character.
pub open spec fn part_cut_inside(raw: Seq<char>) -> bool {
    let part = trim(raw);
    &&& part.len() > 0
    &&& split_once(part, '=') matches Some(kv)
    &&& to_upper(trim(kv.0)) == "BYDAY"@
    &&& nweekdays_cut_inside(split(trim(kv.1), ','))
}

/// Reading the parts reaches such a BYDAY part, every part before it being
/// applied.
pub open spec fn parts_cut_inside(acc: (RuleView, bool), parts: Seq<Seq<char>>) -> bool
    decreases parts.len(),
{
    if parts.len() == 0 {
        false
    } else {
        parts_cut_inside(acc, parts.drop_last()) || (spec_apply_parts(acc, parts.drop_last()) is Ok
            && part_cut_inside(parts.last()))
    }
}

proof fn lemma_parts_cut_prefix(acc: (RuleView, bool), parts: Seq<Seq<char>>, j: int)
    requires
        0 <= j <= parts.len(),
        parts_cut_inside(acc, parts.take(j)),
    ensures
        parts_cut_inside(acc, parts),
    decreases parts.len() - j,
{
    if j < parts.len() {
        assert(parts.drop_last().take(j) =~= parts.take(j));
        lemma_parts_cut_prefix(acc, parts.drop_last(), j);
    } else {
        assert(parts.take(j) =~= parts);
    }
}

/// The text that remains once surrounding whitespace and an `RRULE:` prefix
/// are taken off.
pub open spec fn rrule_body(s: Seq<char>) -> Seq<char> {
    let t = trim(s);
    let u = if t.len() >= 6 && t.take(6) == "RRULE:"@ {
        t.skip(6)
    } else {
        t
    };
    trim(u)
}

/// Reading the RRULE string `s` reaches a BYDAY item whose cut falls inside
/// a character.
pub open spec fn rrule_cut_inside(s: Seq<char>) -> bool {
    rrule_body(s).len() > 0 && parts_cut_inside((default_rule(), false), split(rrule_body(s), ';'))
}

/// The rule that an RRULE string describes, or the error that rejects it.
pub open spec fn spec_from_rrule(s: Seq<char>) -> Result<RuleView, ErrView> {
    let body = rrule_body(s);
    if body.len() == 0 {
        Err(ErrView::Empty)
    } else {
        match spec_apply_parts((default_rule(), false), split(body, ';')) {
            Err(e) => Err(e),
            Ok(a) => if a.1 {
                Ok(a.0)
            } else {
                Err(ErrView::MissingFreq)
            },
        }
    }
}

pub open spec fn freq_name(f: Freq) -> Seq<char> {
    match f {
        Freq::Daily => "DAILY"@,
        Freq::Weekly => "WEEKLY"@,
        Freq::Monthly => "MONTHLY"@,
        Freq::Yearly => "YEARLY"@,
    }
}

pub open spec fn nweekday_text(n: NWeekday) -> Seq<char> {
    match n.ord {
        Some(o) => int_text(o as int) + spec_weekday_code(n.weekday),
        None => spec_weekday_code(n.weekday),
    }
}

/// Integers written in decimal and joined by commas.
pub open spec fn ints_text(s: Seq<int>) -> Seq<char> {
    join(s.map_values(|x: int| int_text(x)), ","@)
}

/// `KEY=value` if `present`, else nothing.
pub open spec fn opt_part(present: bool, key: Seq<char>, val: Seq<char>) -> Seq<Seq<char>> {
    if present {
        seq![key + "="@ + val]
    } else {
        seq![]
    }
}

/// The parts that `to_rrule` writes, in order.
pub open spec fn rrule_parts(r: RuleView) -> Seq<Seq<char>> {
    seq!["FREQ"@ + "="@ + freq_name(r.freq)]
    + opt_part(r.interval > 1, "INTERVAL"@, int_text(r.interval as int))
    + opt_part(r.wkst != Weekday::Mon, "WKST"@, spec_weekday_code(r.wkst))
    + opt_part(r.by_month.len() > 0, "BYMONTH"@, ints_text(r.by_month.map_values(|x: u32| x as int)))
    + opt_part(r.by_week_no.len() > 0, "BYWEEKNO"@, ints_text(r.by_week_no.map_values(|x: i8| x as int)))
    + opt_part(r.by_year_day.len() > 0, "BYYEARDAY"@, ints_text(r.by_year_day.map_values(|x: i16| x as int)))
    + opt_part(r.by_month_day.len() > 0, "BYMONTHDAY"@, ints_text(r.by_month_day.map_values(|x: i8| x as int)))
    + opt_part(r.by_day.len() > 0, "BYDAY"@, join(r.by_day.map_values(|n: NWeekday| nweekday_text(n)), ","@))
    + opt_part(r.by_set_pos.len() > 0, "BYSETPOS"@, ints_text(r.by_set_pos.map_values(|x: i16| x as int)))
    + match r.until {
        Some(u) => seq!["UNTIL"@ + "="@ + compact_date_text(u.year as int, u.month as int, u.day as int)],
        None => match r.count {
            Some(c) => seq!["COUNT"@ + "="@ + int_text(c as int)],
            None => seq![],
        },
    }
}

/// The RRULE text of a rule.
pub open spec fn spec_to_rrule(r: RuleView) -> Seq<char> {
    join(rrule_parts(r), ";"@)
}

// ---- parsing ----

fn weekday_from_code(s: &Vec<char>) -> (r: Option<Weekday>)
    ensures
        r == spec_weekday_from_code(s@),
{
    if eq_str(s, "SU") {
        Some(Weekday::Sun)
    } else if eq_str(s, "MO") {
        Some(Weekday::Mon)
    } else if eq_str(s, "TU") {
        Some(Weekday::Tue)
    } else if eq_str(s, "WE") {
        Some(Weekday::Wed)
    } else if eq_str(s, "TH") {
        Some(Weekday::Thu)
    } else if eq_str(s, "FR") {
        Some(Weekday::Fri)
    } else if eq_str(s, "SA") {
        Some(Weekday::Sat)
    } else {
        None
    }
}

fn weekday_code(w: Weekday) -> (r: &'static str)
    ensures
        r@ == spec_weekday_code(w),
{
    match w {
        Weekday::Sun => "SU",
        Weekday::Mon => "MO",
        Weekday::Tue => "TU",
        Weekday::Wed => "WE",
        Weekday::Thu => "TH",
        Weekday::Fri => "FR",
        Weekday::Sat => "SA",
    }
}

fn text_of(v: &Vec<char>) -> (s: String)
    ensures
        s@ == v@,
{
    string_of(v.as_slice())
}

fn parse_nweekday(s: &Vec<char>) -> (r: Result<NWeekday, RruleError>)
    requires
        !nweekday_cut_inside(s@),
    ensures
        match r {
            Ok(n) => spec_parse_nweekday(s@) == Ok::<NWeekday, ErrView>(n),
            Err(e) => spec_parse_nweekday(s@) == Err::<NWeekday, ErrView>(e@),
        },
{
    if s.len() < 2 {
        return Err(RruleError::BadWeekday(text_of(s)));
    }
    let ord_str = subvec(s, 0, s.len() - 2);
    let wd_str = subvec(s, s.len() - 2, s.len());
    proof {
        assert(ord_str@ =~= s@.take(s.len() - 2));
        assert(wd_str@ =~= s@.skip(s.len() - 2));
    }
    let weekday = match weekday_from_code(&wd_str) {
        Some(w) => w,
        None => {
            return Err(RruleError::BadWeekday(text_of(s)));
        },
    };
    if ord_str.len() == 0 {
        return Ok(NWeekday { ord: None, weekday });
    }
    match parse_int(&ord_str, -128, 127) {
        None => Err(RruleError::BadWeekday(text_of(s))),
        Some(n) => {
            if n == 0 {
                Err(RruleError::ZeroValue { key: "BYDAY" })
            } else {
                Ok(NWeekday { ord: Some(n as i8), weekday })
            }
        },
    }
}

proof fn lemma_views_take_last(v: Seq<Vec<char>>, i: int)
    requires
        0 <= i < v.len(),
    ensures
        views(v).take(i + 1).drop_last() == views(v).take(i),
        views(v).take(i + 1).last() == v[i]@,
        views(v).take(i + 1).len() == i + 1,
{
    assert(views(v).take(i + 1).drop_last() =~= views(v).take(i));
}

proof fn lemma_signed_items_err(s: Seq<Seq<char>>, key: Seq<char>, min: int, max: int, k: int)
    requires
        0 <= k <= s.len(),
        spec_signed_items(s.take(k), key, min, max) is Err,
    ensures
        spec_signed_items(s, key, min, max) == spec_signed_items(s.take(k), key, min, max),
    decreases s.len() - k,
{
    if k < s.len() {
        assert(s.take(k + 1).drop_last() =~= s.take(k));
        lemma_signed_items_err(s, key, min, max, k + 1);
    } else {
        assert(s.take(k) =~= s);
    }
}

proof fn lemma_nweekdays_err(s: Seq<Seq<char>>, k: int)
    requires
        0 <= k <= s.len(),
        spec_parse_nweekdays(s.take(k)) is Err,
    ensures
        spec_parse_nweekdays(s) == spec_parse_nweekdays(s.take(k)),
    decreases s.len() - k,
{
    if k < s.len() {
        assert(s.take(k + 1).drop_last() =~= s.take(k));
        lemma_nweekdays_err(s, k + 1);
    } else {
        assert(s.take(k) =~= s);
    }
}

proof fn lemma_apply_parts_err(acc: (RuleView, bool), s: Seq<Seq<char>>, k: int)
    requires
        0 <= k <= s.len(),
        spec_apply_parts(acc, s.take(k)) is Err,
    ensures
        spec_apply_parts(acc, s) == spec_apply_parts(acc, s.take(k)),
    decreases s.len() - k,
{
    if k < s.len() {
        assert(s.take(k + 1).drop_last() =~= s.take(k));
        lemma_apply_parts_err(acc, s, k + 1);
    } else {
        assert(s.take(k) =~= s);
    }
}

fn parse_signed_vec(val: &Vec<char>, key: &'static str, min: i64, max: i64) -> (r: Result<
    Vec<i64>,
    RruleError,
>)
    ensures
        match r {
            Ok(v) => spec_parse_signed_list(val@, key@, min as int, max as int) == Ok::<
                Seq<i64>,
                ErrView,
            >(v@),
            Err(e) => spec_parse_signed_list(val@, key@, min as int, max as int) == Err::<
                Seq<i64>,
                ErrView,
            >(e@),
        },
{
    let pieces = split_vec(val, ',');
    let mut out: Vec<i64> = Vec::new();
    let mut i: usize = 0;
    proof {
        assert(views(pieces@).take(0) =~= Seq::<Seq<char>>::empty());
    }
    while i < pieces.len()
        invariant
            i <= pieces.len(),
            views(pieces@) == split(val@, ','),
            spec_signed_items(views(pieces@).take(i as int), key@, min as int, max as int) == Ok::<
                Seq<i64>,
                ErrView,
            >(out@),
        decreases pieces.len() - i,
    {
        proof {
            lemma_views_take_last(pieces@, i as int);
        }
        let p = &pieces[i];
        let t = trim_vec(p);
        match parse_int(&t, i64::MIN as i128, i64::MAX as i128) {
            None => {
                let e = RruleError::BadInt { key, val: text_of(p) };
                proof {
                    lemma_signed_items_err(views(pieces@), key@, min as int, max as int, i + 1);
                }
                return Err(e);
            },
            Some(n) => {
                if n == 0 {
                    proof {
                        lemma_signed_items_err(views(pieces@), key@, min as int, max as int, i + 1);
                    }
                    return Err(RruleError::ZeroValue { key });
                }
                if n < min as i128 || n > max as i128 {
                    proof {
                        lemma_signed_items_err(views(pieces@), key@, min as int, max as int, i + 1);
                    }
                    return Err(RruleError::OutOfRange { key, val: n as i64 });
                }
                out.push(n as i64);
            },
        }
        i += 1;
    }
    proof {
        assert(views(pieces@).take(pieces.len() as int) =~= views(pieces@));
    }
    Ok(out)
}

/// Parses a comma list of signed integers, rejecting 0 and values outside
/// `min..=max`.
pub fn parse_signed_list(val: &str, key: &'static str, min: i64, max: i64) -> (r: Result<
    Vec<i64>,
    RruleError,
>)
    ensures
        match r {
            Ok(v) => spec_parse_signed_list(val@, key@, min as int, max as int) == Ok::<
                Seq<i64>,
                ErrView,
            >(v@),
            Err(e) => spec_parse_signed_list(val@, key@, min as int, max as int) == Err::<
                Seq<i64>,
                ErrView,
            >(e@),
        },
{
    let v = chars_of(val);
    parse_signed_vec(&v, key, min, max)
}

fn parse_nweekdays(val: &Vec<char>) -> (r: Result<Vec<NWeekday>, RruleError>)
    requires
        !nweekdays_cut_inside(split(val@, ',')),
    ensures
        match r {
            Ok(v) => spec_parse_nweekdays(split(val@, ',')) == Ok::<Seq<NWeekday>, ErrView>(v@),
            Err(e) => spec_parse_nweekdays(split(val@, ',')) == Err::<Seq<NWeekday>, ErrView>(e@),
        },
{
    let pieces = split_vec(val, ',');
    let mut out: Vec<NWeekday> = Vec::new();
    let mut i: usize = 0;
    proof {
        assert(views(pieces@).take(0) =~= Seq::<Seq<char>>::empty());
    }
    while i < pieces.len()
        invariant
            i <= pieces.len(),
            views(pieces@) == split(val@, ','),
            !nweekdays_cut_inside(split(val@, ',')),
            spec_parse_nweekdays(views(pieces@).take(i as int)) == Ok::<Seq<NWeekday>, ErrView>(
                out@,
            ),
        decreases pieces.len() - i,
    {
        proof {
            lemma_views_take_last(pieces@, i as int);
        }
        let t = trim_vec(&pieces[i]);
        proof {
            let ps = views(pieces@);
            if nweekdays_cut_inside(ps.take(i + 1)) {
                lemma_nweekdays_cut_prefix(ps, i + 1);
            }
            assert(ps.take(i + 1).drop_last() =~= ps.take(i as int));
            assert(ps.take(i + 1).last() == ps[i as int]);
        }
        match parse_nweekday(&t) {
            Err(e) => {
                proof {
                    lemma_nweekdays_err(views(pieces@), i + 1);
                }
                return Err(e);
            },
            Ok(n) => {
                out.push(n);
            },
        }
        i += 1;
    }
    proof {
        assert(views(pieces@).take(pieces.len() as int) =~= views(pieces@));
    }
    Ok(out)
}

fn parse_until(val: &Vec<char>) -> (r: Result<Date, RruleError>)
    ensures
        match r {
            Ok(d) => d.wf() && spec_parse_until(val@) == Ok::<(int, int, int), ErrView>(
                (d.year as int, d.month as int, d.day as int),
            ),
            Err(e) => spec_parse_until(val@) == Err::<(int, int, int), ErrView>(e@),
        },
{
    let pieces = split_vec(val, 'T');
    proof {
        lemma_split_nonempty(val@, 'T');
    }
    let date_part = text_of(&pieces[0]);
    match parse_date_with(date_part.as_str(), "%Y-%m-%d") {
        Some(d) => Ok(d),
        None => match parse_date_with(date_part.as_str(), "%Y%m%d") {
            Some(d) => Ok(d),
            None => Err(RruleError::BadDate { key: "UNTIL", val: text_of(val) }),
        },
    }
}

proof fn lemma_split_nonempty(s: Seq<char>, c: char)
    ensures
        split(s, c).len() >= 1,
    decreases s.len(),
{
    match crate::text::find_char(s, c) {
        Some(i) => {
            if 0 <= i < s.len() {
                lemma_split_nonempty(s.skip(i + 1), c);
            }
        },
        None => {},
    }
}

fn to_u32s(v: &Vec<i64>) -> (r: Vec<u32>)
    ensures
        r@ == v@.map_values(|n: i64| n as u32),
{
    let mut r: Vec<u32> = Vec::new();
    let mut i: usize = 0;
    while i < v.len()
        invariant
            i <= v.len(),
            r@ == v@.take(i as int).map_values(|n: i64| n as u32),
        decreases v.len() - i,
    {
        r.push(v[i] as u32);
        i += 1;
        proof {
            assert(v@.take(i as int).drop_last() =~= v@.take(i - 1));
            assert(r@ =~= v@.take(i as int).map_values(|n: i64| n as u32));
        }
    }
    proof {
        assert(v@.take(v.len() as int) =~= v@);
    }
    r
}

fn to_i8s(v: &Vec<i64>) -> (r: Vec<i8>)
    ensures
        r@ == v@.map_values(|n: i64| n as i8),
{
    let mut r: Vec<i8> = Vec::new();
    let mut i: usize = 0;
    while i < v.len()
        invariant
            i <= v.len(),
            r@ == v@.take(i as int).map_values(|n: i64| n as i8),
        decreases v.len() - i,
    {
        r.push(v[i] as i8);
        i += 1;
        proof {
            assert(r@ =~= v@.take(i as int).map_values(|n: i64| n as i8));
        }
    }
    proof {
        assert(v@.take(v.len() as int) =~= v@);
    }
    r
}

fn to_i16s(v: &Vec<i64>) -> (r: Vec<i16>)
    ensures
        r@ == v@.map_values(|n: i64| n as i16),
{
    let mut r: Vec<i16> = Vec::new();
    let mut i: usize = 0;
    while i < v.len()
        invariant
            i <= v.len(),
            r@ == v@.take(i as int).map_values(|n: i64| n as i16),
        decreases v.len() - i,
    {
        r.push(v[i] as i16);
        i += 1;
        proof {
            assert(r@ =~= v@.take(i as int).map_values(|n: i64| n as i16));
        }
    }
    proof {
        assert(v@.take(v.len() as int) =~= v@);
    }
    r
}

/// An element-for-element copy.
fn copy_vec<T: Copy>(v: &Vec<T>) -> (r: Vec<T>)
    ensures
        r@ == v@,
{
    let mut r: Vec<T> = Vec::new();
    let mut i: usize = 0;
    while i < v.len()
        invariant
            i <= v.len(),
            r@ == v@.take(i as int),
        decreases v.len() - i,
    {
        r.push(v[i]);
        i += 1;
        proof {
            assert(r@ =~= v@.take(i as int));
        }
    }
    proof {
        assert(v@.take(i as int) =~= v@);
    }
    r
}

impl Recurrence {
    /// A copy of the rule with the same content.
    pub fn duplicate(&self) -> (r: Recurrence)
        ensures
            r@ == self@,
    {
        Recurrence {
            freq: self.freq,
            interval: self.interval,
            by_month: copy_vec(&self.by_month),
            by_month_day: copy_vec(&self.by_month_day),
            by_year_day: copy_vec(&self.by_year_day),
            by_week_no: copy_vec(&self.by_week_no),
            by_day: copy_vec(&self.by_day),
            by_set_pos: copy_vec(&self.by_set_pos),
            wkst: self.wkst,
            count: self.count,
            until: self.until,
        }
    }
}

impl Default for Recurrence {
    fn default() -> (r: Self)
        ensures
            r@ == default_rule(),
    {
        Recurrence {
            freq: Freq::Daily,
            interval: 1,
            by_month: Vec::new(),
            by_month_day: Vec::new(),
            by_year_day: Vec::new(),
            by_week_no: Vec::new(),
            by_day: Vec::new(),
            by_set_pos: Vec::new(),
            wkst: Weekday::Mon,
            count: None,
            until: None,
        }
    }
}

#[verifier::spinoff_prover]
fn apply_part(r: &mut Recurrence, freq_set: &mut bool, raw: &Vec<char>) -> (res: Result<
    (),
    RruleError,
>)
    requires
        old(r).wf(),
        !part_cut_inside(raw@),
    ensures
        final(r).wf(),
        match res {
            Ok(_) => spec_apply_part((old(r)@, *old(freq_set)), raw@) == Ok::<
                (RuleView, bool),
                ErrView,
            >((final(r)@, *final(freq_set))),
            Err(e) => spec_apply_part((old(r)@, *old(freq_set)), raw@) == Err::<
                (RuleView, bool),
                ErrView,
            >(e@),
        },
{
    let part = trim_vec(raw);
    if part.len() == 0 {
        return Ok(());
    }
    let (k, v) = match split_once_vec(&part, '=') {
        None => {
            return Err(RruleError::UnknownPart(text_of(&part)));
        },
        Some(p) => p,
    };
    let key = to_upper_vec(&trim_vec(&k));
    let val = trim_vec(&v);
    if eq_str(&key, "FREQ") {
        let f = to_upper_vec(&val);
        if eq_str(&f, "DAILY") {
            r.freq = Freq::Daily;
        } else if eq_str(&f, "WEEKLY") {
            r.freq = Freq::Weekly;
        } else if eq_str(&f, "MONTHLY") {
            r.freq = Freq::Monthly;
        } else if eq_str(&f, "YEARLY") {
            r.freq = Freq::Yearly;
        } else {
            return Err(RruleError::BadFreq(text_of(&val)));
        }
        *freq_set = true;
        Ok(())
    } else if eq_str(&key, "INTERVAL") {
        match parse_int(&val, 0, u32::MAX as i128) {
            None => Err(RruleError::BadInt { key: "INTERVAL", val: text_of(&val) }),
            Some(n) => {
                if n == 0 {
                    Err(RruleError::ZeroValue { key: "INTERVAL" })
                } else {
                    r.interval = n as u32;
                    Ok(())
                }
            },
        }
    } else if eq_str(&key, "COUNT") {
        match parse_int(&val, 0, u32::MAX as i128) {
            None => Err(RruleError::BadInt { key: "COUNT", val: text_of(&val) }),
            Some(n) => {
                r.count = Some(n as u32);
                Ok(())
            },
        }
    } else if eq_str(&key, "UNTIL") {
        let d = parse_until(&val)?;
        r.until = Some(d);
        Ok(())
    } else if eq_str(&key, "WKST") {
        match weekday_from_code(&val) {
            None => Err(RruleError::BadWeekday(text_of(&val))),
            Some(w) => {
                r.wkst = w;
                Ok(())
            },
        }
    } else if eq_str(&key, "BYMONTH") {
        let ns = parse_signed_vec(&val, "BYMONTH", 1, 12)?;
        r.by_month = to_u32s(&ns);
        Ok(())
    } else if eq_str(&key, "BYMONTHDAY") {
        let ns = parse_signed_vec(&val, "BYMONTHDAY", -31, 31)?;
        r.by_month_day = to_i8s(&ns);
        Ok(())
    } else if eq_str(&key, "BYYEARDAY") {
        let ns = parse_signed_vec(&val, "BYYEARDAY", -366, 366)?;
        r.by_year_day = to_i16s(&ns);
        Ok(())
    } else if eq_str(&key, "BYWEEKNO") {
        let ns = parse_signed_vec(&val, "BYWEEKNO", -53, 53)?;
        r.by_week_no = to_i8s(&ns);
        Ok(())
    } else if eq_str(&key, "BYSETPOS") {
        let ns = parse_signed_vec(&val, "BYSETPOS", -366, 366)?;
        r.by_set_pos = to_i16s(&ns);
        Ok(())
    } else if eq_str(&key, "BYDAY") {
        let ds = parse_nweekdays(&val)?;
        r.by_day = ds;
        Ok(())
    } else {
        Err(RruleError::UnknownPart(text_of(&key)))
    }
}

impl Recurrence {
    /// Parses an RRULE string (an optional `RRULE:` prefix, then `KEY=value`
    /// parts separated by `;`).
    #[verifier::spinoff_prover]
    pub fn from_rrule(s: &str) -> (r: Result<Recurrence, RruleError>)
        requires
            !rrule_cut_inside(s@),
        ensures
            match r {
                Ok(rule) => rule.wf() && spec_from_rrule(s@) == Ok::<RuleView, ErrView>(rule@),
                Err(e) => spec_from_rrule(s@) == Err::<RuleView, ErrView>(e@),
            },
    {
        let v = chars_of(s);
        let t = trim_vec(&v);
        proof {
            reveal_strlit("RRULE:");
        }
        let u = if starts_with_str(&t, "RRULE:") {
            subvec(&t, 6, t.len())
        } else {
            t
        };
        proof {
            if t@.len() >= 6 && t@.take(6) == "RRULE:"@ {
                assert(u@ =~= t@.skip(6));
            }
        }
        let body = trim_vec(&u);
        if body.len() == 0 {
            return Err(RruleError::Empty);
        }
        let parts = split_vec(&body, ';');
        let mut rule = Recurrence::default();
        let mut freq_set = false;
        let mut i: usize = 0;
        proof {
            assert(views(parts@).take(0) =~= Seq::<Seq<char>>::empty());
        }
        while i < parts.len()
            invariant
                i <= parts.len(),
                rule.wf(),
                body@ == rrule_body(s@),
                body@.len() > 0,
                views(parts@) == split(body@, ';'),
                !parts_cut_inside((default_rule(), false), split(body@, ';')),
                spec_apply_parts((default_rule(), false), views(parts@).take(i as int)) == Ok::<
                    (RuleView, bool),
                    ErrView,
                >((rule@, freq_set)),
            decreases parts.len() - i,
        {
            proof {
                lemma_views_take_last(parts@, i as int);
                let ps = views(parts@);
                if parts_cut_inside((default_rule(), false), ps.take(i + 1)) {
                    lemma_parts_cut_prefix((default_rule(), false), ps, i + 1);
                }
                assert(ps.take(i + 1).drop_last() =~= ps.take(i as int));
                assert(ps.take(i + 1).last() == ps[i as int]);
            }
            let ghost pre = (rule@, freq_set);
            match apply_part(&mut rule, &mut freq_set, &parts[i]) {
                Err(e) => {
                    proof {
                        assert(spec_apply_parts((default_rule(), false), views(parts@).take(i + 1))
                            == spec_apply_part(pre, parts@[i as int]@));
                        lemma_apply_parts_err((default_rule(), false), views(parts@), i + 1);
                    }
                    return Err(e);
                },
                Ok(_) => {},
            }
            i += 1;
        }
        proof {
            assert(views(parts@).take(parts.len() as int) =~= views(parts@));
        }
        if !freq_set {
            return Err(RruleError::MissingFreq);
        }
        Ok(rule)
    }
}

impl Recurrence {
    /// Whether the rule's UNTIL, if it has one, has the chrono behaviour of
    /// `until_text_ok` (written as `YYYYMMDD` and read back only with
    /// `%Y%m%d`); so it is for every UNTIL in the years 0 to 9999. With it,
    /// `lemma_rrule_round_trip` applies to rules with an UNTIL.
    pub fn until_reads_back(&self) -> (r: bool)
        requires
            self.wf(),
        ensures
            r == (self.until matches Some(u) ==> until_text_ok(u)),
            (self.until matches Some(u) ==> 0 <= u.year <= 9999) ==> r,
    {
        match self.until {
            None => true,
            Some(u) => {
                if u.year < 0 || u.year > 9999 {
                    return false;
                }
                let t = format_date_with(&u, "%Y%m%d");
                let dashed = parse_date_with(t.as_str(), "%Y-%m-%d");
                let compact = parse_date_with(t.as_str(), "%Y%m%d");
                proof {
                    assert(t@ == ymd_compact_text(u.year as int, u.month as int, u.day as int));
                }
                match (dashed, compact) {
                    (None, Some(back)) => back.year == u.year && back.month == u.month && back.day
                        == u.day,
                    _ => false,
                }
            },
        }
    }
}

// ---- where reading cuts inside a character ----

fn utf8_len_of(c: char) -> (r: u8)
    ensures
        r == utf8_len(c),
{
    let v = c as u32;
    if v < 0x80 {
        1
    } else if v < 0x800 {
        2
    } else if v < 0x1_0000 {
        3
    } else {
        4
    }
}

fn nweekday_cuts_inside(s: &Vec<char>) -> (r: bool)
    ensures
        r == nweekday_cut_inside(s@),
{
    let n = s.len();
    if n == 0 {
        false
    } else if n == 1 {
        utf8_len_of(s[0]) >= 3
    } else {
        let last = utf8_len_of(s[n - 1]);
        let before = utf8_len_of(s[n - 2]);
        proof {
            assert(s@.last() == s@[n - 1]);
        }
        last != 2 && !(last == 1 && before == 1)
    }
}

/// Once an item fails to read, no later item is reached.
proof fn lemma_nweekdays_stop(ps: Seq<Seq<char>>, j: int)
    requires
        0 <= j <= ps.len(),
        spec_parse_nweekdays(ps.take(j)) is Err,
        !nweekdays_cut_inside(ps.take(j)),
    ensures
        spec_parse_nweekdays(ps) is Err,
        !nweekdays_cut_inside(ps),
    decreases ps.len() - j,
{
    if j < ps.len() {
        assert(ps.drop_last().take(j) =~= ps.take(j));
        lemma_nweekdays_stop(ps.drop_last(), j);
    } else {
        assert(ps.take(j) =~= ps);
    }
}

fn nweekdays_cut(val: &Vec<char>) -> (r: bool)
    ensures
        r == nweekdays_cut_inside(split(val@, ',')),
{
    let pieces = split_vec(val, ',');
    let ghost ps = views(pieces@);
    let mut i: usize = 0;
    proof {
        assert(ps.take(0) =~= Seq::<Seq<char>>::empty());
    }
    while i < pieces.len()
        invariant
            i <= pieces.len(),
            ps == views(pieces@),
            ps == split(val@, ','),
            spec_parse_nweekdays(ps.take(i as int)) is Ok,
            !nweekdays_cut_inside(ps.take(i as int)),
        decreases pieces.len() - i,
    {
        proof {
            lemma_views_take_last(pieces@, i as int);
            assert(ps.take(i + 1).drop_last() =~= ps.take(i as int));
            assert(ps.take(i + 1).last() == ps[i as int]);
        }
        let t = trim_vec(&pieces[i]);
        if nweekday_cuts_inside(&t) {
            proof {
                lemma_nweekdays_cut_prefix(ps, i + 1);
            }
            return true;
        }
        match parse_nweekday(&t) {
            Err(_) => {
                proof {
                    lemma_nweekdays_stop(ps, i + 1);
                }
                return false;
            },
            Ok(_) => {},
        }
        i += 1;
    }
    proof {
        assert(ps.take(pieces.len() as int) =~= ps);
    }
    false
}

fn part_cuts_inside(raw: &Vec<char>) -> (r: bool)
    ensures
        r == part_cut_inside(raw@),
{
    let part = trim_vec(raw);
    if part.len() == 0 {
        return false;
    }
    match split_once_vec(&part, '=') {
        None => false,
        Some((k, v)) => {
            let key = to_upper_vec(&trim_vec(&k));
            if eq_str(&key, "BYDAY") {
                nweekdays_cut(&trim_vec(&v))
            } else {
                false
            }
        },
    }
}

/// Once a part fails to apply, no later part is reached.
proof fn lemma_parts_stop(acc: (RuleView, bool), ps: Seq<Seq<char>>, j: int)
    requires
        0 <= j <= ps.len(),
        spec_apply_parts(acc, ps.take(j)) is Err,
        !parts_cut_inside(acc, ps.take(j)),
    ensures
        spec_apply_parts(acc, ps) is Err,
        !parts_cut_inside(acc, ps),
    decreases ps.len() - j,
{
    if j < ps.len() {
        assert(ps.drop_last().take(j) =~= ps.take(j));
        lemma_parts_stop(acc, ps.drop_last(), j);
    } else {
        assert(ps.take(j) =~= ps);
    }
}

impl Recurrence {
    /// Whether reading `s` as an RRULE string reaches a BYDAY item whose
    /// weekday code, taken as its last two bytes, would start inside a
    /// character; there the reading cannot go on.
    pub fn cuts_inside_char(s: &str) -> (r: bool)
        ensures
            r == rrule_cut_inside(s@),
    {
        let v = chars_of(s);
        let t = trim_vec(&v);
        proof {
            reveal_strlit("RRULE:");
        }
        let u = if starts_with_str(&t, "RRULE:") {
            subvec(&t, 6, t.len())
        } else {
            t
        };
        proof {
            if t@.len() >= 6 && t@.take(6) == "RRULE:"@ {
                assert(u@ =~= t@.skip(6));
            }
        }
        let body = trim_vec(&u);
        if body.len() == 0 {
            return false;
        }
        let parts = split_vec(&body, ';');
        let ghost ps = views(parts@);
        let ghost a0 = (default_rule(), false);
        let mut rule = Recurrence::default();
        let mut freq_set = false;
        let mut i: usize = 0;
        proof {
            assert(ps.take(0) =~= Seq::<Seq<char>>::empty());
        }
        while i < parts.len()
            invariant
                i <= parts.len(),
                rule.wf(),
                body@ == rrule_body(s@),
                body@.len() > 0,
                ps == views(parts@),
                ps == split(body@, ';'),
                a0 == (default_rule(), false),
                spec_apply_parts(a0, ps.take(i as int)) == Ok::<(RuleView, bool), ErrView>(
                    (rule@, freq_set),
                ),
                !parts_cut_inside(a0, ps.take(i as int)),
            decreases parts.len() - i,
        {
            proof {
                lemma_views_take_last(parts@, i as int);
                assert(ps.take(i + 1).drop_last() =~= ps.take(i as int));
                assert(ps.take(i + 1).last() == ps[i as int]);
            }
            if part_cuts_inside(&parts[i]) {
                proof {
                    lemma_parts_cut_prefix(a0, ps, i + 1);
                }
                return true;
            }
            let ghost pre = (rule@, freq_set);
            match apply_part(&mut rule, &mut freq_set, &parts[i]) {
                Err(_) => {
                    proof {
                        assert(spec_apply_parts(a0, ps.take(i + 1)) == spec_apply_part(pre, ps[i as int]));
                        lemma_parts_stop(a0, ps, i + 1);
                    }
                    return false;
                },
                Ok(_) => {},
            }
            i += 1;
        }
        proof {
            assert(ps.take(parts.len() as int) =~= ps);
        }
        false
    }
}

// ---- formatting ----

fn join_vec(pieces: &Vec<Vec<char>>, sep: &Vec<char>) -> (r: Vec<char>)
    ensures
        r@ == join(views(pieces@), sep@),
{
    if pieces.len() == 0 {
        return Vec::new();
    }
    let mut r = pieces[0].clone();
    let mut i: usize = 1;
    proof {
        assert(views(pieces@).take(1) =~= seq![pieces@[0]@]);
    }
    while i < pieces.len()
        invariant
            1 <= i <= pieces.len(),
            r@ == join(views(pieces@).take(i as int), sep@),
        decreases pieces.len() - i,
    {
        proof {
            lemma_views_take_last(pieces@, i as int);
        }
        let with_sep = concat(&r, sep);
        r = concat(&with_sep, &pieces[i]);
        i += 1;
    }
    proof {
        assert(views(pieces@).take(pieces.len() as int) =~= views(pieces@));
    }
    r
}

fn ints_vec(v: &Vec<i64>) -> (r: Vec<char>)
    ensures
        r@ == ints_text(v@.map_values(|x: i64| x as int)),
{
    let mut pieces: Vec<Vec<char>> = Vec::new();
    let mut i: usize = 0;
    while i < v.len()
        invariant
            i <= v.len(),
            pieces@.len() == i,
            forall|j: int| 0 <= j < i ==> (#[trigger] pieces@[j])@ == int_text(v@[j] as int),
        decreases v.len() - i,
    {
        let t = int_to_vec(v[i]);
        pieces.push(t);
        i += 1;
    }
    let comma = chars_of(",");
    proof {
        assert(views(pieces@) =~= v@.map_values(|x: i64| x as int).map_values(
            |x: int| int_text(x),
        ));
    }
    join_vec(&pieces, &comma)
}

fn widen_u32(v: &Vec<u32>) -> (r: Vec<i64>)
    ensures
        r@.map_values(|x: i64| x as int) == v@.map_values(|x: u32| x as int),
{
    let mut r: Vec<i64> = Vec::new();
    let mut i: usize = 0;
    while i < v.len()
        invariant
            i <= v.len(),
            r@.len() == i,
            forall|j: int| 0 <= j < i ==> r@[j] as int == v@[j] as int,
        decreases v.len() - i,
    {
        r.push(v[i] as i64);
        i += 1;
    }
    proof {
        assert(r@.map_values(|x: i64| x as int) =~= v@.map_values(|x: u32| x as int));
    }
    r
}

fn widen_i8(v: &Vec<i8>) -> (r: Vec<i64>)
    ensures
        r@.map_values(|x: i64| x as int) == v@.map_values(|x: i8| x as int),
{
    let mut r: Vec<i64> = Vec::new();
    let mut i: usize = 0;
    while i < v.len()
        invariant
            i <= v.len(),
            r@.len() == i,
            forall|j: int| 0 <= j < i ==> r@[j] as int == v@[j] as int,
        decreases v.len() - i,
    {
        r.push(v[i] as i64);
        i += 1;
    }
    proof {
        assert(r@.map_values(|x: i64| x as int) =~= v@.map_values(|x: i8| x as int));
    }
    r
}

fn widen_i16(v: &Vec<i16>) -> (r: Vec<i64>)
    ensures
        r@.map_values(|x: i64| x as int) == v@.map_values(|x: i16| x as int),
{
    let mut r: Vec<i64> = Vec::new();
    let mut i: usize = 0;
    while i < v.len()
        invariant
            i <= v.len(),
            r@.len() == i,
            forall|j: int| 0 <= j < i ==> r@[j] as int == v@[j] as int,
        decreases v.len() - i,
    {
        r.push(v[i] as i64);
        i += 1;
    }
    proof {
        assert(r@.map_values(|x: i64| x as int) =~= v@.map_values(|x: i16| x as int));
    }
    r
}

fn key_value(key: &str, val: &Vec<char>) -> (r: Vec<char>)
    ensures
        r@ == key@ + "="@ + val@,
{
    let k = chars_of(key);
    let eq = chars_of("=");
    let ke = concat(&k, &eq);
    concat(&ke, val)
}

fn freq_text(f: Freq) -> (r: &'static str)
    ensures
        r@ == freq_name(f),
{
    match f {
        Freq::Daily => "DAILY",
        Freq::Weekly => "WEEKLY",
        Freq::Monthly => "MONTHLY",
        Freq::Yearly => "YEARLY",
    }
}

fn nweekdays_vec(v: &Vec<NWeekday>) -> (r: Vec<char>)
    ensures
        r@ == join(v@.map_values(|n: NWeekday| nweekday_text(n)), ","@),
{
    let mut pieces: Vec<Vec<char>> = Vec::new();
    let mut i: usize = 0;
    while i < v.len()
        invariant
            i <= v.len(),
            pieces@.len() == i,
            forall|j: int| 0 <= j < i ==> (#[trigger] pieces@[j])@ == nweekday_text(v@[j]),
        decreases v.len() - i,
    {
        let n = v[i];
        let code = chars_of(weekday_code(n.weekday));
        let t = match n.ord {
            Some(o) => {
                let num = int_to_vec(o as i64);
                concat(&num, &code)
            },
            None => code,
        };
        pieces.push(t);
        i += 1;
    }
    let comma = chars_of(",");
    proof {
        assert(views(pieces@) =~= v@.map_values(|n: NWeekday| nweekday_text(n)));
    }
    join_vec(&pieces, &comma)
}

fn push_part(parts: &mut Vec<Vec<char>>, present: bool, key: &str, val: Vec<char>)
    ensures
        views(final(parts)@) == views(old(parts)@) + opt_part(present, key@, val@),
{
    let ghost prev = views(parts@);
    if present {
        parts.push(key_value(key, &val));
        proof {
            assert(views(parts@) =~= prev + opt_part(present, key@, val@));
        }
    } else {
        proof {
            assert(views(parts@) =~= prev + opt_part(present, key@, val@));
        }
    }
}

impl Recurrence {
    fn end_part(&self) -> (r: Vec<Vec<char>>)
        requires
            self.wf(),
        ensures
            views(r@) == (match self.until {
                Some(u) => seq![
                    "UNTIL"@ + "="@ + compact_date_text(u.year as int, u.month as int, u.day as int),
                ],
                None => match self.count {
                    Some(c) => seq!["COUNT"@ + "="@ + int_text(c as int)],
                    None => seq![],
                },
            }),
    {
        let mut parts: Vec<Vec<char>> = Vec::new();
        match self.until {
            Some(u) => {
                let t = format_date_with(&u, "%Y%m%d");
                parts.push(key_value("UNTIL", &chars_of(t.as_str())));
                proof {
                    assert(views(parts@) =~= seq![
                        "UNTIL"@ + "="@ + compact_date_text(u.year as int, u.month as int, u.day as int),
                    ]);
                }
            },
            None => match self.count {
                Some(c) => {
                    parts.push(key_value("COUNT", &int_to_vec(c as i64)));
                    proof {
                        assert(views(parts@) =~= seq!["COUNT"@ + "="@ + int_text(c as int)]);
                    }
                },
                None => {
                    proof {
                        assert(views(parts@) =~= Seq::<Seq<char>>::empty());
                    }
                },
            },
        }
        parts
    }

    /// The RRULE text of the rule. UNTIL wins over COUNT when both are set.
    #[verifier::rlimit(40)]
    pub fn to_rrule(&self) -> (r: String)
        requires
            self.wf(),
        ensures
            r@ == spec_to_rrule(self@),
    {
        let ghost rv = self@;
        let mut parts: Vec<Vec<char>> = Vec::new();
        parts.push(key_value("FREQ", &chars_of(freq_text(self.freq))));
        proof {
            assert(views(parts@) =~= seq!["FREQ"@ + "="@ + freq_name(rv.freq)]);
        }
        push_part(&mut parts, self.interval > 1, "INTERVAL", int_to_vec(self.interval as i64));
        push_part(
            &mut parts,
            !self.wkst.same(&Weekday::Mon),
            "WKST",
            chars_of(weekday_code(self.wkst)),
        );
        push_part(
            &mut parts,
            self.by_month.len() > 0,
            "BYMONTH",
            ints_vec(&widen_u32(&self.by_month)),
        );
        push_part(
            &mut parts,
            self.by_week_no.len() > 0,
            "BYWEEKNO",
            ints_vec(&widen_i8(&self.by_week_no)),
        );
        push_part(
            &mut parts,
            self.by_year_day.len() > 0,
            "BYYEARDAY",
            ints_vec(&widen_i16(&self.by_year_day)),
        );
        push_part(
            &mut parts,
            self.by_month_day.len() > 0,
            "BYMONTHDAY",
            ints_vec(&widen_i8(&self.by_month_day)),
        );
        push_part(&mut parts, self.by_day.len() > 0, "BYDAY", nweekdays_vec(&self.by_day));
        push_part(
            &mut parts,
            self.by_set_pos.len() > 0,
            "BYSETPOS",
            ints_vec(&widen_i16(&self.by_set_pos)),
        );
        let tail = self.end_part();
        let ghost before = views(parts@);
        let mut k: usize = 0;
        while k < tail.len()
            invariant
                k <= tail.len(),
                views(parts@) == before + views(tail@).take(k as int),
            decreases tail.len() - k,
        {
            proof {
                lemma_views_take_last(tail@, k as int);
            }
            let ghost prev = views(parts@);
            parts.push(tail[k].clone());
            proof {
                assert(views(parts@) =~= prev.push(tail@[k as int]@));
            }
            k += 1;
        }
        proof {
            assert(views(tail@).take(tail.len() as int) =~= views(tail@));
            assert(views(parts@) =~= rrule_parts(rv));
        }
        let semi = chars_of(";");
        let all = join_vec(&parts, &semi);
        text_of(&all)
    }
}


// ---- the RRULE text read back ----

/// Signed-list items written in decimal read back as the values.
proof fn lemma_signed_items_round(pieces: Seq<Seq<char>>, vals: Seq<int>, key: Seq<char>, min: int, max: int)
    requires
        pieces.len() == vals.len(),
        i64::MIN <= min,
        max <= i64::MAX,
        forall|k: int|
            0 <= k < vals.len() ==> pieces[k] == int_text(#[trigger] vals[k]) && min <= vals[k] <= max
                && vals[k] != 0,
    ensures
        spec_signed_items(pieces, key, min, max) matches Ok(ns) && ns.len() == vals.len() && forall|
            k: int,
        | 0 <= k < vals.len() ==> ns[k] as int == vals[k],
    decreases pieces.len(),
{
    if pieces.len() > 0 {
        let n = pieces.len() - 1;
        assert forall|k: int| 0 <= k < vals.drop_last().len() implies pieces.drop_last()[k] == int_text(
            #[trigger] vals.drop_last()[k],
        ) && min <= vals.drop_last()[k] <= max && vals.drop_last()[k] != 0 by {
            assert(vals.drop_last()[k] == vals[k]);
        }
        lemma_signed_items_round(pieces.drop_last(), vals.drop_last(), key, min, max);
        let v = vals[n];
        lemma_int_text_chars(v);
        lemma_trim_plain(int_text(v));
        lemma_parse_int_text(v, i64::MIN as int, i64::MAX as int);
        assert(pieces.last() == int_text(vals[n]));
    }
}

/// BYDAY items written back read as the items.
proof fn lemma_nweekdays_round(pieces: Seq<Seq<char>>, ds: Seq<NWeekday>)
    requires
        pieces.len() == ds.len(),
        forall|k: int|
            0 <= k < ds.len() ==> pieces[k] == nweekday_text(#[trigger] ds[k]) && (ds[k].ord matches Some(
                o,
            ) ==> o != 0),
    ensures
        spec_parse_nweekdays(pieces) == Ok::<Seq<NWeekday>, ErrView>(ds),
    decreases pieces.len(),
{
    if pieces.len() > 0 {
        let n = pieces.len() - 1;
        assert forall|k: int| 0 <= k < ds.drop_last().len() implies pieces.drop_last()[k]
            == nweekday_text(#[trigger] ds.drop_last()[k]) && (ds.drop_last()[k].ord matches Some(o)
            ==> o != 0) by {
            assert(ds.drop_last()[k] == ds[k]);
        }
        lemma_nweekdays_round(pieces.drop_last(), ds.drop_last());
        lemma_nweekday_round(ds[n]);
        assert(pieces.last() == nweekday_text(ds[n]));
        assert(ds.drop_last().push(ds[n]) =~= ds);
    } else {
        assert(ds =~= Seq::<NWeekday>::empty());
    }
}

/// The weekday codes of RFC 5545, read and written: `MO`, `TU`, `WE`, `TH`,
/// `FR`, `SA` and `SU` are Monday to Sunday, and no other two letters name
/// a weekday.
pub proof fn lemma_weekday_codes()
    ensures
        spec_weekday_from_code(seq!['M', 'O']) == Some(Weekday::Mon),
        spec_weekday_from_code(seq!['T', 'U']) == Some(Weekday::Tue),
        spec_weekday_from_code(seq!['W', 'E']) == Some(Weekday::Wed),
        spec_weekday_from_code(seq!['T', 'H']) == Some(Weekday::Thu),
        spec_weekday_from_code(seq!['F', 'R']) == Some(Weekday::Fri),
        spec_weekday_from_code(seq!['S', 'A']) == Some(Weekday::Sat),
        spec_weekday_from_code(seq!['S', 'U']) == Some(Weekday::Sun),
        spec_weekday_code(Weekday::Mon) == seq!['M', 'O'],
        spec_weekday_code(Weekday::Tue) == seq!['T', 'U'],
        spec_weekday_code(Weekday::Wed) == seq!['W', 'E'],
        spec_weekday_code(Weekday::Thu) == seq!['T', 'H'],
        spec_weekday_code(Weekday::Fri) == seq!['F', 'R'],
        spec_weekday_code(Weekday::Sat) == seq!['S', 'A'],
        spec_weekday_code(Weekday::Sun) == seq!['S', 'U'],
        forall|s: Seq<char>|
            #[trigger] spec_weekday_from_code(s) is Some ==> s == seq!['M', 'O'] || s == seq![
                'T',
                'U',
            ] || s == seq!['W', 'E'] || s == seq!['T', 'H'] || s == seq!['F', 'R'] || s == seq![
                'S',
                'A',
            ] || s == seq!['S', 'U'],
{
    reveal_strlit("SU");
    reveal_strlit("MO");
    reveal_strlit("TU");
    reveal_strlit("WE");
    reveal_strlit("TH");
    reveal_strlit("FR");
    reveal_strlit("SA");
    assert("SU"@ =~= seq!['S', 'U']);
    assert("MO"@ =~= seq!['M', 'O']);
    assert("TU"@ =~= seq!['T', 'U']);
    assert("WE"@ =~= seq!['W', 'E']);
    assert("TH"@ =~= seq!['T', 'H']);
    assert("FR"@ =~= seq!['F', 'R']);
    assert("SA"@ =~= seq!['S', 'A']);
}

proof fn lemma_weekday_code(w: Weekday)
    ensures
        spec_weekday_code(w).len() == 2,
        spec_weekday_from_code(spec_weekday_code(w)) == Some(w),
        forall|i: int|
            0 <= i < 2 ==> 'A' <= #[trigger] spec_weekday_code(w)[i] <= 'Z',
{
    reveal_strlit("SU");
    reveal_strlit("MO");
    reveal_strlit("TU");
    reveal_strlit("WE");
    reveal_strlit("TH");
    reveal_strlit("FR");
    reveal_strlit("SA");
    assert("SU"@[0] == 'S' && "SU"@[1] == 'U');
    assert("MO"@[0] == 'M' && "MO"@[1] == 'O');
    assert("TU"@[0] == 'T' && "TU"@[1] == 'U');
    assert("WE"@[0] == 'W' && "WE"@[1] == 'E');
    assert("TH"@[0] == 'T' && "TH"@[1] == 'H');
    assert("FR"@[0] == 'F' && "FR"@[1] == 'R');
    assert("SA"@[0] == 'S' && "SA"@[1] == 'A');
}

proof fn lemma_nweekday_round(d: NWeekday)
    requires
        d.ord matches Some(o) ==> o != 0,
    ensures
        spec_parse_nweekday(trim(nweekday_text(d))) == Ok::<NWeekday, ErrView>(d),
        nweekday_text(d).len() > 0,
        !is_ws(nweekday_text(d)[0]),
        !is_ws(nweekday_text(d).last()),
        no_char(nweekday_text(d), ','),
{
    lemma_weekday_code(d.weekday);
    let c = spec_weekday_code(d.weekday);
    let t = nweekday_text(d);
    match d.ord {
        Some(o) => {
            lemma_int_text_chars(o as int);
            let it = int_text(o as int);
            assert(t.last() == c[1]);
            assert(t[0] == it[0]);
            assert(t.take(t.len() - 2) =~= it);
            assert(t.skip(t.len() - 2) =~= c);
            lemma_parse_int_text(o as int, -128, 127);
            assert forall|i: int| 0 <= i < t.len() implies #[trigger] t[i] != ',' by {
                if i < it.len() {
                    assert(t[i] == it[i]);
                } else {
                    assert(t[i] == c[i - it.len()]);
                }
            }
        },
        None => {
            assert(t.take(0) =~= Seq::<char>::empty());
            assert(t.skip(0) =~= c);
        },
    }
    lemma_trim_plain(t);
}


/// The literals of the RRULE text, spelled out.
proof fn lemma_rrule_literals()
    ensures
        "FREQ"@ == seq!['F', 'R', 'E', 'Q'],
        "INTERVAL"@ == seq!['I', 'N', 'T', 'E', 'R', 'V', 'A', 'L'],
        "COUNT"@ == seq!['C', 'O', 'U', 'N', 'T'],
        "UNTIL"@ == seq!['U', 'N', 'T', 'I', 'L'],
        "WKST"@ == seq!['W', 'K', 'S', 'T'],
        "BYMONTH"@ == seq!['B', 'Y', 'M', 'O', 'N', 'T', 'H'],
        "BYMONTHDAY"@ == seq!['B', 'Y', 'M', 'O', 'N', 'T', 'H', 'D', 'A', 'Y'],
        "BYYEARDAY"@ == seq!['B', 'Y', 'Y', 'E', 'A', 'R', 'D', 'A', 'Y'],
        "BYWEEKNO"@ == seq!['B', 'Y', 'W', 'E', 'E', 'K', 'N', 'O'],
        "BYSETPOS"@ == seq!['B', 'Y', 'S', 'E', 'T', 'P', 'O', 'S'],
        "BYDAY"@ == seq!['B', 'Y', 'D', 'A', 'Y'],
        "="@ == seq!['='],
        "DAILY"@ == seq!['D', 'A', 'I', 'L', 'Y'],
        "WEEKLY"@ == seq!['W', 'E', 'E', 'K', 'L', 'Y'],
        "MONTHLY"@ == seq!['M', 'O', 'N', 'T', 'H', 'L', 'Y'],
        "YEARLY"@ == seq!['Y', 'E', 'A', 'R', 'L', 'Y'],
        ","@ == seq![','],
        ";"@ == seq![';'],
        "RRULE:"@ == seq!['R', 'R', 'U', 'L', 'E', ':'],
{
    reveal_strlit("FREQ");
    reveal_strlit("INTERVAL");
    reveal_strlit("COUNT");
    reveal_strlit("UNTIL");
    reveal_strlit("WKST");
    reveal_strlit("BYMONTH");
    reveal_strlit("BYMONTHDAY");
    reveal_strlit("BYYEARDAY");
    reveal_strlit("BYWEEKNO");
    reveal_strlit("BYSETPOS");
    reveal_strlit("BYDAY");
    reveal_strlit("=");
    reveal_strlit("DAILY");
    reveal_strlit("WEEKLY");
    reveal_strlit("MONTHLY");
    reveal_strlit("YEARLY");
    reveal_strlit(",");
    reveal_strlit(";");
    reveal_strlit("RRULE:");
}


/// The characters of the RRULE text that `to_rrule` writes for a rule
/// without UNTIL.
pub open spec fn rrule_char(c: char) -> bool {
    ||| ('A' <= c && c <= 'Z')
    ||| ('0' <= c && c <= '9')
    ||| c == '-'
    ||| c == ','
    ||| c == '='
}

pub open spec fn rrule_text(s: Seq<char>) -> bool {
    forall|i: int| 0 <= i < s.len() ==> rrule_char(#[trigger] s[i])
}

pub open spec fn upper_word(s: Seq<char>) -> bool {
    &&& s.len() > 0
    &&& forall|i: int| 0 <= i < s.len() ==> 'A' <= #[trigger] s[i] && s[i] <= 'Z'
}

proof fn lemma_int_text_rrule(n: int)
    ensures
        rrule_text(int_text(n)),
        int_text(n).len() > 0,
        !is_ws(int_text(n)[0]),
        !is_ws(int_text(n).last()),
        no_char(int_text(n), ','),
{
    lemma_int_text_chars(n);
    let t = int_text(n);
    assert(t.last() == t[t.len() - 1]);
}

proof fn lemma_nweekday_rrule(d: NWeekday)
    ensures
        rrule_text(nweekday_text(d)),
{
    lemma_weekday_code(d.weekday);
    let c = spec_weekday_code(d.weekday);
    let t = nweekday_text(d);
    match d.ord {
        Some(o) => {
            lemma_int_text_chars(o as int);
            let it = int_text(o as int);
            assert forall|i: int| 0 <= i < t.len() implies rrule_char(#[trigger] t[i]) by {
                if i < it.len() {
                    assert(t[i] == it[i]);
                } else {
                    assert(t[i] == c[i - it.len()]);
                }
            }
        },
        None => {},
    }
}

/// A `KEY=value` part, as the parser reads it.
proof fn lemma_part_shape(key: Seq<char>, val: Seq<char>)
    requires
        upper_word(key),
        val.len() > 0,
        rrule_text(val),
    ensures
        ({
            let part = key + "="@ + val;
            &&& trim(part) == part
            &&& split_once(part, '=') == Some((key, val))
            &&& to_upper(trim(key)) == key
            &&& trim(val) == val
            &&& rrule_text(part)
            &&& part.len() > 0
            &&& !is_ws(part[0])
            &&& !is_ws(part.last())
        }),
{
    lemma_rrule_literals();
    let part = key + "="@ + val;
    assert(part =~= key + (seq!['='] + val));
    lemma_find_char_after(key, seq!['='] + val, '=');
    assert((seq!['='] + val)[0] == '=');
    assert(part.take(key.len() as int) =~= key);
    assert(part.skip(key.len() as int + 1) =~= val);
    assert(part.last() == val.last());
    assert(val.last() == val[val.len() - 1]);
    assert(key.last() == key[key.len() - 1]);
    lemma_trim_plain(part);
    lemma_trim_plain(key);
    lemma_trim_plain(val);
    lemma_to_upper_same(key);
    assert forall|i: int| 0 <= i < part.len() implies rrule_char(#[trigger] part[i]) by {
        if i < key.len() {
            assert(part[i] == key[i]);
        } else if i == key.len() {
        } else {
            assert(part[i] == val[i - key.len() - 1]);
        }
    }
}


proof fn lemma_apply_freq(acc: (RuleView, bool), f: Freq)
    ensures
        spec_apply_part(acc, "FREQ"@ + "="@ + freq_name(f)) == Ok::<(RuleView, bool), ErrView>(
            (RuleView { freq: f, ..acc.0 }, true),
        ),
{
    lemma_rrule_literals();
    let v = freq_name(f);
    lemma_part_shape("FREQ"@, v);
    lemma_to_upper_same(v);
}

proof fn lemma_apply_interval(acc: (RuleView, bool), n: u32)
    requires
        n > 0,
    ensures
        spec_apply_part(acc, "INTERVAL"@ + "="@ + int_text(n as int)) == Ok::<(RuleView, bool), ErrView>(
            (RuleView { interval: n, ..acc.0 }, acc.1),
        ),
{
    lemma_rrule_literals();
    lemma_int_text_rrule(n as int);
    lemma_part_shape("INTERVAL"@, int_text(n as int));
    lemma_parse_int_text(n as int, 0, u32::MAX as int);
}

proof fn lemma_apply_count(acc: (RuleView, bool), n: u32)
    ensures
        spec_apply_part(acc, "COUNT"@ + "="@ + int_text(n as int)) == Ok::<(RuleView, bool), ErrView>(
            (RuleView { count: Some(n), ..acc.0 }, acc.1),
        ),
{
    lemma_rrule_literals();
    lemma_int_text_rrule(n as int);
    lemma_part_shape("COUNT"@, int_text(n as int));
    lemma_parse_int_text(n as int, 0, u32::MAX as int);
}

/// The UNTIL text of a date is RRULE text without a `T`.
proof fn lemma_until_text(u: Date)
    requires
        until_text_ok(u),
    ensures
        ({
            let t = ymd_compact_text(u.year as int, u.month as int, u.day as int);
            &&& t.len() == 8
            &&& rrule_text(t)
            &&& no_char(t, 'T')
            &&& !is_ws(t[0])
            &&& !is_ws(t.last())
            &&& no_char(t, ',')
        }),
{
    let t = ymd_compact_text(u.year as int, u.month as int, u.day as int);
    lemma_ymd_compact_text_chars(u.year as int, u.month as int, u.day as int);
    assert(t.last() == t[7]);
}

proof fn lemma_apply_until(acc: (RuleView, bool), u: Date)
    requires
        until_text_ok(u),
    ensures
        spec_apply_part(
            acc,
            "UNTIL"@ + "="@ + compact_date_text(u.year as int, u.month as int, u.day as int),
        ) == Ok::<(RuleView, bool), ErrView>((RuleView { until: Some(u), ..acc.0 }, acc.1)),
{
    lemma_rrule_literals();
    let t = ymd_compact_text(u.year as int, u.month as int, u.day as int);
    lemma_until_text(u);
    lemma_part_shape("UNTIL"@, t);
    lemma_split_join(seq![t], 'T');
    assert(join(seq![t], seq!['T']) == t);
    assert(split(t, 'T')[0] == t);
    assert(as_dates((u.year as int, u.month as int, u.day as int)) == u);
}

proof fn lemma_apply_wkst(acc: (RuleView, bool), w: Weekday)
    ensures
        spec_apply_part(acc, "WKST"@ + "="@ + spec_weekday_code(w)) == Ok::<(RuleView, bool), ErrView>(
            (RuleView { wkst: w, ..acc.0 }, acc.1),
        ),
{
    lemma_rrule_literals();
    lemma_weekday_code(w);
    lemma_part_shape("WKST"@, spec_weekday_code(w));
}

/// A list of integers written with `ints_text` is read back by the signed
/// list parser.
proof fn lemma_ints_round(ys: Seq<int>, key: Seq<char>, min: int, max: int)
    requires
        ys.len() > 0,
        i64::MIN <= min,
        max <= i64::MAX,
        forall|k: int| 0 <= k < ys.len() ==> min <= #[trigger] ys[k] <= max && ys[k] != 0,
    ensures
        spec_parse_signed_list(ints_text(ys), key, min, max) matches Ok(ns) && ns.len() == ys.len()
            && forall|k: int| 0 <= k < ys.len() ==> ns[k] as int == ys[k],
        rrule_text(ints_text(ys)),
        ints_text(ys).len() > 0,
{
    lemma_rrule_literals();
    let pieces = ys.map_values(|x: int| int_text(x));
    assert forall|k: int| 0 <= k < pieces.len() implies no_char(#[trigger] pieces[k], ',') && pieces[k].len() > 0
        && rrule_text(pieces[k]) by {
        lemma_int_text_rrule(ys[k]);
    }
    lemma_split_join(pieces, ',');
    lemma_signed_items_round(pieces, ys, key, min, max);
    lemma_join_ends(pieces, ","@);
    lemma_join_chars(pieces, ","@, |c: char| rrule_char(c));
}

proof fn lemma_nweekdays_text_round(ds: Seq<NWeekday>)
    requires
        ds.len() > 0,
        forall|k: int| 0 <= k < ds.len() ==> ((#[trigger] ds[k]).ord matches Some(o) ==> o != 0),
    ensures
        spec_parse_nweekdays(split(join(ds.map_values(|n: NWeekday| nweekday_text(n)), ","@), ','))
            == Ok::<Seq<NWeekday>, ErrView>(ds),
        rrule_text(join(ds.map_values(|n: NWeekday| nweekday_text(n)), ","@)),
        join(ds.map_values(|n: NWeekday| nweekday_text(n)), ","@).len() > 0,
{
    lemma_rrule_literals();
    let pieces = ds.map_values(|n: NWeekday| nweekday_text(n));
    assert forall|k: int| 0 <= k < pieces.len() implies no_char(#[trigger] pieces[k], ',') && pieces[k].len() > 0
        && rrule_text(pieces[k]) by {
        lemma_nweekday_round(ds[k]);
        lemma_nweekday_rrule(ds[k]);
    }
    lemma_split_join(pieces, ',');
    lemma_nweekdays_round(pieces, ds);
    lemma_join_ends(pieces, ","@);
    lemma_join_chars(pieces, ","@, |c: char| rrule_char(c));
}


proof fn lemma_apply_by_month(acc: (RuleView, bool), xs: Seq<u32>)
    requires
        xs.len() > 0,
        forall|k: int| 0 <= k < xs.len() ==> 1 <= #[trigger] xs[k] <= 12,
    ensures
        spec_apply_part(acc, "BYMONTH"@ + "="@ + ints_text(xs.map_values(|x: u32| x as int))) == Ok::<
            (RuleView, bool),
            ErrView,
        >((RuleView { by_month: xs, ..acc.0 }, acc.1)),
{
    lemma_rrule_literals();
    let ys = xs.map_values(|x: u32| x as int);
    lemma_ints_round(ys, "BYMONTH"@, 1, 12);
    lemma_part_shape("BYMONTH"@, ints_text(ys));
    let ns = spec_parse_signed_list(ints_text(ys), "BYMONTH"@, 1, 12)->Ok_0;
    assert(ns.map_values(|n: i64| n as u32) =~= xs);
}

proof fn lemma_apply_by_month_day(acc: (RuleView, bool), xs: Seq<i8>)
    requires
        xs.len() > 0,
        forall|k: int| 0 <= k < xs.len() ==> -31 <= #[trigger] xs[k] <= 31 && xs[k] != 0,
    ensures
        spec_apply_part(acc, "BYMONTHDAY"@ + "="@ + ints_text(xs.map_values(|x: i8| x as int))) == Ok::<
            (RuleView, bool),
            ErrView,
        >((RuleView { by_month_day: xs, ..acc.0 }, acc.1)),
{
    lemma_rrule_literals();
    let ys = xs.map_values(|x: i8| x as int);
    lemma_ints_round(ys, "BYMONTHDAY"@, -31, 31);
    lemma_part_shape("BYMONTHDAY"@, ints_text(ys));
    let ns = spec_parse_signed_list(ints_text(ys), "BYMONTHDAY"@, -31, 31)->Ok_0;
    assert(ns.map_values(|n: i64| n as i8) =~= xs);
}

proof fn lemma_apply_by_year_day(acc: (RuleView, bool), xs: Seq<i16>)
    requires
        xs.len() > 0,
        forall|k: int| 0 <= k < xs.len() ==> -366 <= #[trigger] xs[k] <= 366 && xs[k] != 0,
    ensures
        spec_apply_part(acc, "BYYEARDAY"@ + "="@ + ints_text(xs.map_values(|x: i16| x as int))) == Ok::<
            (RuleView, bool),
            ErrView,
        >((RuleView { by_year_day: xs, ..acc.0 }, acc.1)),
{
    lemma_rrule_literals();
    let ys = xs.map_values(|x: i16| x as int);
    lemma_ints_round(ys, "BYYEARDAY"@, -366, 366);
    lemma_part_shape("BYYEARDAY"@, ints_text(ys));
    let ns = spec_parse_signed_list(ints_text(ys), "BYYEARDAY"@, -366, 366)->Ok_0;
    assert(ns.map_values(|n: i64| n as i16) =~= xs);
}

proof fn lemma_apply_by_week_no(acc: (RuleView, bool), xs: Seq<i8>)
    requires
        xs.len() > 0,
        forall|k: int| 0 <= k < xs.len() ==> -53 <= #[trigger] xs[k] <= 53 && xs[k] != 0,
    ensures
        spec_apply_part(acc, "BYWEEKNO"@ + "="@ + ints_text(xs.map_values(|x: i8| x as int))) == Ok::<
            (RuleView, bool),
            ErrView,
        >((RuleView { by_week_no: xs, ..acc.0 }, acc.1)),
{
    lemma_rrule_literals();
    let ys = xs.map_values(|x: i8| x as int);
    lemma_ints_round(ys, "BYWEEKNO"@, -53, 53);
    lemma_part_shape("BYWEEKNO"@, ints_text(ys));
    let ns = spec_parse_signed_list(ints_text(ys), "BYWEEKNO"@, -53, 53)->Ok_0;
    assert(ns.map_values(|n: i64| n as i8) =~= xs);
}

proof fn lemma_apply_by_set_pos(acc: (RuleView, bool), xs: Seq<i16>)
    requires
        xs.len() > 0,
        forall|k: int| 0 <= k < xs.len() ==> -366 <= #[trigger] xs[k] <= 366 && xs[k] != 0,
    ensures
        spec_apply_part(acc, "BYSETPOS"@ + "="@ + ints_text(xs.map_values(|x: i16| x as int))) == Ok::<
            (RuleView, bool),
            ErrView,
        >((RuleView { by_set_pos: xs, ..acc.0 }, acc.1)),
{
    lemma_rrule_literals();
    let ys = xs.map_values(|x: i16| x as int);
    lemma_ints_round(ys, "BYSETPOS"@, -366, 366);
    lemma_part_shape("BYSETPOS"@, ints_text(ys));
    let ns = spec_parse_signed_list(ints_text(ys), "BYSETPOS"@, -366, 366)->Ok_0;
    assert(ns.map_values(|n: i64| n as i16) =~= xs);
}

proof fn lemma_apply_by_day(acc: (RuleView, bool), ds: Seq<NWeekday>)
    requires
        ds.len() > 0,
        forall|k: int| 0 <= k < ds.len() ==> ((#[trigger] ds[k]).ord matches Some(o) ==> o != 0),
    ensures
        spec_apply_part(acc, "BYDAY"@ + "="@ + join(ds.map_values(|n: NWeekday| nweekday_text(n)), ","@))
            == Ok::<(RuleView, bool), ErrView>((RuleView { by_day: ds, ..acc.0 }, acc.1)),
{
    lemma_rrule_literals();
    lemma_nweekdays_text_round(ds);
    lemma_part_shape("BYDAY"@, join(ds.map_values(|n: NWeekday| nweekday_text(n)), ","@));
}


pub open spec fn part_ok(p: Seq<char>) -> bool {
    &&& p.len() > 0
    &&& rrule_text(p)
    &&& !is_ws(p[0])
    &&& !is_ws(p.last())
}

pub open spec fn parts_ok(s: Seq<Seq<char>>) -> bool {
    forall|k: int| 0 <= k < s.len() ==> part_ok(#[trigger] s[k])
}

proof fn lemma_parts_ok_append(a: Seq<Seq<char>>, b: Seq<Seq<char>>)
    requires
        parts_ok(a),
        parts_ok(b),
    ensures
        parts_ok(a + b),
{
    assert forall|k: int| 0 <= k < (a + b).len() implies part_ok(#[trigger] (a + b)[k]) by {
        if k < a.len() {
            assert((a + b)[k] == a[k]);
        } else {
            assert((a + b)[k] == b[k - a.len()]);
        }
    }
}

/// Applying parts one after another.
proof fn lemma_apply_parts_append(acc: (RuleView, bool), x: Seq<Seq<char>>, y: Seq<Seq<char>>)
    requires
        y.len() <= 1,
    ensures
        spec_apply_parts(acc, x + y) == (if y.len() == 0 {
            spec_apply_parts(acc, x)
        } else {
            match spec_apply_parts(acc, x) {
                Ok(a) => spec_apply_part(a, y[0]),
                Err(e) => Err(e),
            }
        }),
{
    if y.len() == 0 {
        assert(x + y =~= x);
    } else {
        assert((x + y).drop_last() =~= x);
        assert((x + y).last() == y[0]);
    }
}

/// An optional part, when present, is a well-formed part.
proof fn lemma_opt_part_ok(present: bool, key: Seq<char>, val: Seq<char>)
    requires
        present ==> upper_word(key) && val.len() > 0 && rrule_text(val),
    ensures
        parts_ok(opt_part(present, key, val)),
        opt_part(present, key, val).len() <= 1,
{
    if present {
        lemma_part_shape(key, val);
        assert(opt_part(present, key, val)[0] == key + "="@ + val);
    }
}

/// What chrono does with the UNTIL date `u` in the years 0 to 9999, which
/// it writes with `%Y%m%d` as `YYYYMMDD`: it does not read that text with
/// `%Y-%m-%d`, and reads it back with `%Y%m%d` as `u`.
pub open spec fn until_text_ok(u: Date) -> bool {
    let (y, m, d) = (u.year as int, u.month as int, u.day as int);
    &&& u.wf()
    &&& 0 <= y <= 9999
    &&& chrono_parse_result(ymd_compact_text(y, m, d), "%Y-%m-%d"@) is None
    &&& chrono_parse_result(ymd_compact_text(y, m, d), "%Y%m%d"@) == Some((y, m, d))
}

/// A rule that its RRULE text gives back: an UNTIL only without COUNT
/// (the text keeps UNTIL alone) and with the chrono behaviour of
/// `until_text_ok`, and the shape of `parser_shape`.
pub open spec fn rule_stable(r: RuleView) -> bool {
    &&& (r.until matches Some(u) ==> r.count is None && until_text_ok(u))
    &&& parser_shape(r)
}

/// What every rule that the parser makes has: an interval of at least 1,
/// and list values in their ranges and nonzero (BYDAY ordinals nonzero).
pub open spec fn parser_shape(r: RuleView) -> bool {
    &&& r.interval >= 1
    &&& forall|k: int| 0 <= k < r.by_month.len() ==> 1 <= #[trigger] r.by_month[k] <= 12
    &&& forall|k: int|
        0 <= k < r.by_month_day.len() ==> -31 <= #[trigger] r.by_month_day[k] <= 31
            && r.by_month_day[k] != 0
    &&& forall|k: int|
        0 <= k < r.by_year_day.len() ==> -366 <= #[trigger] r.by_year_day[k] <= 366
            && r.by_year_day[k] != 0
    &&& forall|k: int|
        0 <= k < r.by_week_no.len() ==> -53 <= #[trigger] r.by_week_no[k] <= 53 && r.by_week_no[k]
            != 0
    &&& forall|k: int|
        0 <= k < r.by_set_pos.len() ==> -366 <= #[trigger] r.by_set_pos[k] <= 366
            && r.by_set_pos[k] != 0
    &&& forall|k: int|
        0 <= k < r.by_day.len() ==> ((#[trigger] r.by_day[k]).ord matches Some(o) ==> o != 0)
}

/// The parts of the RRULE text of a rule, one optional part after another.
pub open spec fn rrule_pieces(r: RuleView) -> Seq<Seq<Seq<char>>> {
    seq![
        seq!["FREQ"@ + "="@ + freq_name(r.freq)],
        opt_part(r.interval > 1, "INTERVAL"@, int_text(r.interval as int)),
        opt_part(r.wkst != Weekday::Mon, "WKST"@, spec_weekday_code(r.wkst)),
        opt_part(r.by_month.len() > 0, "BYMONTH"@, ints_text(r.by_month.map_values(|x: u32| x as int))),
        opt_part(r.by_week_no.len() > 0, "BYWEEKNO"@, ints_text(r.by_week_no.map_values(|x: i8| x as int))),
        opt_part(r.by_year_day.len() > 0, "BYYEARDAY"@, ints_text(r.by_year_day.map_values(|x: i16| x as int))),
        opt_part(r.by_month_day.len() > 0, "BYMONTHDAY"@, ints_text(r.by_month_day.map_values(|x: i8| x as int))),
        opt_part(r.by_day.len() > 0, "BYDAY"@, join(r.by_day.map_values(|n: NWeekday| nweekday_text(n)), ","@)),
        opt_part(r.by_set_pos.len() > 0, "BYSETPOS"@, ints_text(r.by_set_pos.map_values(|x: i16| x as int))),
        match r.until {
            Some(u) => seq!["UNTIL"@ + "="@ + compact_date_text(u.year as int, u.month as int, u.day as int)],
            None => match r.count {
                Some(c) => seq!["COUNT"@ + "="@ + int_text(c as int)],
                None => seq![],
            },
        },
    ]
}

/// The first `k` pieces, joined.
pub open spec fn pieces_upto(ps: Seq<Seq<Seq<char>>>, k: int) -> Seq<Seq<char>>
    decreases k,
{
    if k <= 0 {
        seq![]
    } else {
        pieces_upto(ps, k - 1) + ps[k - 1]
    }
}

proof fn lemma_rrule_pieces_join(r: RuleView)
    ensures
        pieces_upto(rrule_pieces(r), 10) == rrule_parts(r),
{
    let ps = rrule_pieces(r);
    reveal_with_fuel(pieces_upto, 11);
    assert(seq![] + ps[0] =~= ps[0]);
    assert(pieces_upto(ps, 10) == ps[0] + ps[1] + ps[2] + ps[3] + ps[4] + ps[5] + ps[6] + ps[7] + ps[8]
        + ps[9]);
}

proof fn lemma_piece_ok(r: RuleView, k: int)
    requires
        rule_stable(r),
        0 <= k < 10,
    ensures
        parts_ok(rrule_pieces(r)[k]),
        rrule_pieces(r)[k].len() <= 1,
{
    lemma_rrule_literals();
    let ps = rrule_pieces(r);
    if k == 0 {
        lemma_part_shape("FREQ"@, freq_name(r.freq));
        assert(ps[0][0] == "FREQ"@ + "="@ + freq_name(r.freq));
    } else if k == 1 {
        lemma_int_text_rrule(r.interval as int);
        lemma_opt_part_ok(r.interval > 1, "INTERVAL"@, int_text(r.interval as int));
    } else if k == 2 {
        lemma_weekday_code(r.wkst);
        lemma_opt_part_ok(r.wkst != Weekday::Mon, "WKST"@, spec_weekday_code(r.wkst));
    } else if k == 3 {
        if r.by_month.len() > 0 {
            lemma_ints_round(r.by_month.map_values(|x: u32| x as int), "BYMONTH"@, 1, 12);
        }
        lemma_opt_part_ok(r.by_month.len() > 0, "BYMONTH"@, ints_text(r.by_month.map_values(|x: u32| x as int)));
    } else if k == 4 {
        if r.by_week_no.len() > 0 {
            lemma_ints_round(r.by_week_no.map_values(|x: i8| x as int), "BYWEEKNO"@, -53, 53);
        }
        lemma_opt_part_ok(r.by_week_no.len() > 0, "BYWEEKNO"@, ints_text(r.by_week_no.map_values(|x: i8| x as int)));
    } else if k == 5 {
        if r.by_year_day.len() > 0 {
            lemma_ints_round(r.by_year_day.map_values(|x: i16| x as int), "BYYEARDAY"@, -366, 366);
        }
        lemma_opt_part_ok(r.by_year_day.len() > 0, "BYYEARDAY"@, ints_text(r.by_year_day.map_values(|x: i16| x as int)));
    } else if k == 6 {
        if r.by_month_day.len() > 0 {
            lemma_ints_round(r.by_month_day.map_values(|x: i8| x as int), "BYMONTHDAY"@, -31, 31);
        }
        lemma_opt_part_ok(r.by_month_day.len() > 0, "BYMONTHDAY"@, ints_text(r.by_month_day.map_values(|x: i8| x as int)));
    } else if k == 7 {
        if r.by_day.len() > 0 {
            lemma_nweekdays_text_round(r.by_day);
        }
        lemma_opt_part_ok(r.by_day.len() > 0, "BYDAY"@, join(r.by_day.map_values(|n: NWeekday| nweekday_text(n)), ","@));
    } else if k == 8 {
        if r.by_set_pos.len() > 0 {
            lemma_ints_round(r.by_set_pos.map_values(|x: i16| x as int), "BYSETPOS"@, -366, 366);
        }
        lemma_opt_part_ok(r.by_set_pos.len() > 0, "BYSETPOS"@, ints_text(r.by_set_pos.map_values(|x: i16| x as int)));
    } else {
        if let Some(u) = r.until {
            let t = ymd_compact_text(u.year as int, u.month as int, u.day as int);
            lemma_until_text(u);
            lemma_part_shape("UNTIL"@, t);
            assert(ps[9][0] == "UNTIL"@ + "="@ + t);
        } else if let Some(c) = r.count {
            lemma_int_text_rrule(c as int);
            lemma_part_shape("COUNT"@, int_text(c as int));
            assert(ps[9][0] == "COUNT"@ + "="@ + int_text(c as int));
        }
    }
}

proof fn lemma_rrule_pieces(r: RuleView)
    requires
        rule_stable(r),
    ensures
        pieces_upto(rrule_pieces(r), 10) == rrule_parts(r),
        forall|k: int| 0 <= k < 10 ==> parts_ok(#[trigger] rrule_pieces(r)[k]) && rrule_pieces(r)[k].len() <= 1,
{
    lemma_rrule_pieces_join(r);
    assert forall|k: int| 0 <= k < 10 implies parts_ok(#[trigger] rrule_pieces(r)[k]) && rrule_pieces(r)[k].len() <= 1 by {
        lemma_piece_ok(r, k);
    }
}

proof fn lemma_pieces_ok(ps: Seq<Seq<Seq<char>>>, k: int)
    requires
        0 <= k <= ps.len(),
        forall|j: int| 0 <= j < ps.len() ==> parts_ok(#[trigger] ps[j]),
    ensures
        parts_ok(pieces_upto(ps, k)),
    decreases k,
{
    if k > 0 {
        lemma_pieces_ok(ps, k - 1);
        lemma_parts_ok_append(pieces_upto(ps, k - 1), ps[k - 1]);
    }
}

/// The RRULE text of a rule is its own body, and splits back into its parts.
proof fn lemma_rrule_text_splits(r: RuleView)
    requires
        rule_stable(r),
    ensures
        rrule_body(spec_to_rrule(r)) == spec_to_rrule(r),
        spec_to_rrule(r).len() > 0,
        split(spec_to_rrule(r), ';') == rrule_parts(r),
{
    lemma_rrule_literals();
    lemma_rrule_pieces(r);
    let ps = rrule_pieces(r);
    lemma_pieces_ok(ps, 10);
    let parts = rrule_parts(r);
    let t = spec_to_rrule(r);
    reveal_with_fuel(pieces_upto, 11);
    assert(parts.len() >= 1);
    assert(parts[0] == ps[0][0]);
    assert forall|k: int| 0 <= k < parts.len() implies no_char(#[trigger] parts[k], ';') by {
        assert(part_ok(parts[k]));
        assert forall|i: int| 0 <= i < parts[k].len() implies parts[k][i] != ';' by {
            assert(rrule_char(parts[k][i]));
        }
    }
    lemma_split_join(parts, ';');
    assert forall|k: int| 0 <= k < parts.len() implies (#[trigger] parts[k]).len() > 0 by {
        assert(part_ok(parts[k]));
    }
    lemma_join_ends(parts, ";"@);
    assert(t[0] == 'F');
    assert(part_ok(parts[parts.len() - 1]));
    lemma_trim_plain(t);
    assert(t.len() >= 6 ==> t.take(6) != "RRULE:"@) by {
        if t.len() >= 6 {
            assert(t.take(6)[0] == 'F');
        }
    }
}

/// The state after the parts of the first `k` pieces.
pub open spec fn rebuilt(r: RuleView, k: int) -> RuleView {
    RuleView {
        freq: if k >= 1 { r.freq } else { Freq::Daily },
        interval: if k >= 2 { r.interval } else { 1 },
        wkst: if k >= 3 { r.wkst } else { Weekday::Mon },
        by_month: if k >= 4 { r.by_month } else { seq![] },
        by_week_no: if k >= 5 { r.by_week_no } else { seq![] },
        by_year_day: if k >= 6 { r.by_year_day } else { seq![] },
        by_month_day: if k >= 7 { r.by_month_day } else { seq![] },
        by_day: if k >= 8 { r.by_day } else { seq![] },
        by_set_pos: if k >= 9 { r.by_set_pos } else { seq![] },
        count: if k >= 10 { r.count } else { None },
        until: if k >= 10 { r.until } else { None },
    }
}

#[verifier::spinoff_prover]
proof fn lemma_rebuild_step(r: RuleView, k: int)
    requires
        rule_stable(r),
        1 <= k <= 10,
        spec_apply_parts((default_rule(), false), pieces_upto(rrule_pieces(r), k - 1)) == Ok::<(RuleView, bool), ErrView>(
            (rebuilt(r, k - 1), k - 1 >= 1),
        ),
    ensures
        spec_apply_parts((default_rule(), false), pieces_upto(rrule_pieces(r), k)) == Ok::<(RuleView, bool), ErrView>(
            (rebuilt(r, k), true),
        ),
{
    let ps = rrule_pieces(r);
    let a0 = (default_rule(), false);
    let prev = (rebuilt(r, k - 1), k - 1 >= 1);
    lemma_rrule_pieces(r);
    lemma_rrule_literals();
    lemma_apply_parts_append(a0, pieces_upto(ps, k - 1), ps[k - 1]);
    assert(pieces_upto(ps, k) == pieces_upto(ps, k - 1) + ps[k - 1]);
    let want = rebuilt(r, k);
    if k == 1 {
        lemma_apply_freq(prev, r.freq);
        assert(want == RuleView { freq: r.freq, ..prev.0 });
    } else if k == 2 {
        if r.interval > 1 {
            lemma_apply_interval(prev, r.interval);
        }
        assert(want == RuleView { interval: r.interval, ..prev.0 });
    } else if k == 3 {
        if r.wkst != Weekday::Mon {
            lemma_apply_wkst(prev, r.wkst);
        }
        assert(want == RuleView { wkst: r.wkst, ..prev.0 });
    } else if k == 4 {
        if r.by_month.len() > 0 {
            lemma_apply_by_month(prev, r.by_month);
        } else {
            assert(r.by_month =~= Seq::<u32>::empty());
        }
        assert(want =~= RuleView { by_month: r.by_month, ..prev.0 });
    } else if k == 5 {
        if r.by_week_no.len() > 0 {
            lemma_apply_by_week_no(prev, r.by_week_no);
        } else {
            assert(r.by_week_no =~= Seq::<i8>::empty());
        }
        assert(want =~= RuleView { by_week_no: r.by_week_no, ..prev.0 });
    } else if k == 6 {
        if r.by_year_day.len() > 0 {
            lemma_apply_by_year_day(prev, r.by_year_day);
        } else {
            assert(r.by_year_day =~= Seq::<i16>::empty());
        }
        assert(want =~= RuleView { by_year_day: r.by_year_day, ..prev.0 });
    } else if k == 7 {
        if r.by_month_day.len() > 0 {
            lemma_apply_by_month_day(prev, r.by_month_day);
        } else {
            assert(r.by_month_day =~= Seq::<i8>::empty());
        }
        assert(want =~= RuleView { by_month_day: r.by_month_day, ..prev.0 });
    } else if k == 8 {
        if r.by_day.len() > 0 {
            lemma_apply_by_day(prev, r.by_day);
        } else {
            assert(r.by_day =~= Seq::<NWeekday>::empty());
        }
        assert(want =~= RuleView { by_day: r.by_day, ..prev.0 });
    } else if k == 9 {
        if r.by_set_pos.len() > 0 {
            lemma_apply_by_set_pos(prev, r.by_set_pos);
        } else {
            assert(r.by_set_pos =~= Seq::<i16>::empty());
        }
        assert(want =~= RuleView { by_set_pos: r.by_set_pos, ..prev.0 });
    } else {
        if let Some(u) = r.until {
            lemma_apply_until(prev, u);
        } else if let Some(c) = r.count {
            lemma_apply_count(prev, c);
        }
        assert(want == RuleView { count: r.count, until: r.until, ..prev.0 });
    }
}

proof fn lemma_signed_items_shape(pieces: Seq<Seq<char>>, key: Seq<char>, min: int, max: int)
    ensures
        spec_signed_items(pieces, key, min, max) matches Ok(ns) ==> forall|k: int|
            0 <= k < ns.len() ==> min <= #[trigger] ns[k] <= max && ns[k] != 0,
    decreases pieces.len(),
{
    if pieces.len() > 0 {
        lemma_signed_items_shape(pieces.drop_last(), key, min, max);
    }
}

proof fn lemma_nweekdays_shape(pieces: Seq<Seq<char>>)
    ensures
        spec_parse_nweekdays(pieces) matches Ok(ds) ==> forall|k: int|
            0 <= k < ds.len() ==> ((#[trigger] ds[k]).ord matches Some(o) ==> o != 0),
    decreases pieces.len(),
{
    if pieces.len() > 0 {
        lemma_nweekdays_shape(pieces.drop_last());
    }
}

proof fn lemma_apply_part_shape(acc: (RuleView, bool), raw: Seq<char>)
    requires
        parser_shape(acc.0),
    ensures
        spec_apply_part(acc, raw) matches Ok(a) ==> parser_shape(a.0),
{
    let part = trim(raw);
    if part.len() > 0 {
        if let Some(kv) = split_once(part, '=') {
            let val = trim(kv.1);
            let items = split(val, ',');
            lemma_signed_items_shape(items, "BYMONTH"@, 1, 12);
            lemma_signed_items_shape(items, "BYMONTHDAY"@, -31, 31);
            lemma_signed_items_shape(items, "BYYEARDAY"@, -366, 366);
            lemma_signed_items_shape(items, "BYWEEKNO"@, -53, 53);
            lemma_signed_items_shape(items, "BYSETPOS"@, -366, 366);
            lemma_nweekdays_shape(items);
        }
    }
}

proof fn lemma_apply_parts_shape(acc: (RuleView, bool), parts: Seq<Seq<char>>)
    requires
        parser_shape(acc.0),
    ensures
        spec_apply_parts(acc, parts) matches Ok(a) ==> parser_shape(a.0),
    decreases parts.len(),
{
    if parts.len() > 0 {
        lemma_apply_parts_shape(acc, parts.drop_last());
        if let Ok(a) = spec_apply_parts(acc, parts.drop_last()) {
            lemma_apply_part_shape(a, parts.last());
        }
    }
}

/// Every rule that the parser makes has the shape of `parser_shape`.
pub proof fn lemma_parsed_shape(s: Seq<char>)
    ensures
        spec_from_rrule(s) matches Ok(r) ==> parser_shape(r),
{
    lemma_apply_parts_shape((default_rule(), false), split(rrule_body(s), ';'));
}

/// A rule that the parser made reads back from its RRULE text, where it has
/// no UNTIL, or an UNTIL without COUNT whose text chrono reads back
/// (`until_text_ok`).
pub proof fn lemma_parsed_round_trip(s: Seq<char>, r: RuleView)
    requires
        spec_from_rrule(s) == Ok::<RuleView, ErrView>(r),
        r.until matches Some(u) ==> r.count is None && until_text_ok(u),
    ensures
        spec_from_rrule(spec_to_rrule(r)) == Ok::<RuleView, ErrView>(r),
{
    lemma_parsed_shape(s);
    lemma_rrule_round_trip(r);
}

/// Reading the RRULE text of a rule gives the rule back, for the rules of
/// `rule_stable`.
pub proof fn lemma_rrule_round_trip(r: RuleView)
    requires
        rule_stable(r),
    ensures
        spec_from_rrule(spec_to_rrule(r)) == Ok::<RuleView, ErrView>(r),
{
    lemma_rrule_text_splits(r);
    lemma_rrule_pieces(r);
    let ps = rrule_pieces(r);
    let a0 = (default_rule(), false);
    assert(pieces_upto(ps, 0) == Seq::<Seq<char>>::empty());
    assert(rebuilt(r, 0) == default_rule());
    lemma_rebuild_step(r, 1);
    lemma_rebuild_step(r, 2);
    lemma_rebuild_step(r, 3);
    lemma_rebuild_step(r, 4);
    lemma_rebuild_step(r, 5);
    lemma_rebuild_step(r, 6);
    lemma_rebuild_step(r, 7);
    lemma_rebuild_step(r, 8);
    lemma_rebuild_step(r, 9);
    lemma_rebuild_step(r, 10);
    assert(rebuilt(r, 10) == r);
}

} // verus!
