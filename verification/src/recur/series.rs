//! A recurring series: a rule plus per-occurrence state, with this-and-future
//! split editing. Occurrences are computed when asked for, never stored.
use crate::date::{first_day_number, lemma_num_injective, Date, MAX_YEAR};
use crate::item::Status;
use crate::recur::dates::{
    date_at, increasing, lemma_date_exists, lemma_filter_increasing, lemma_increasing_unique,
    lemma_sorted_of,
};
use crate::recur::engine::{
    cut, emitted, in_window, lemma_cut_bound, occurrences, past_until, spec_occurrences, walked,
    window_end, window_start, MAX_PERIODS,
};
use crate::recur::walk::{
    kept_count, lemma_count_as_until, lemma_count_walk_fixed, lemma_filter_to_set,
    lemma_occurrences_capped, lemma_occurrences_shape, lemma_occurrences_window,
    lemma_walked_ascends, same_shape, until_at_last, lemma_keeps_none, lemma_count_zero,
};
use crate::recur::rule::{Recurrence, RuleView};
use vstd::prelude::*;

verus! {

broadcast use vstd::seq_lib::group_seq_properties;

/// A frozen snapshot captured when an occurrence is completed.
#[derive(Clone, Debug, PartialEq, Eq)]
pub struct Snapshot {
    pub title: String,
    pub priority: i8,
    pub state: Status,
}

/// Per-occurrence state on a specific date.
#[derive(Clone, Debug, PartialEq, Eq)]
pub enum Override {
    /// A status that is not frozen (ongoing, say): the occurrence still shows
    /// the series title.
    State(Status),
    /// A completed occurrence: title, priority and state frozen at completion.
    Done(Snapshot),
}

/// A rule with its phase origin, the dates it is active on, the skipped
/// dates (ascending) and the per-date overrides (ascending by date).
pub struct RecurringSeries {
    pub id: u64,
    pub title: String,
    pub priority: i8,
    pub rule: Recurrence,
    /// Phase origin: never changes, so that splits keep the cadence.
    pub anchor: Date,
    /// First active date (the anchor for a series never split, the split date
    /// after a split).
    pub start: Date,
    /// A hard cap beyond the rule's UNTIL (set by splits).
    pub end: Option<Date>,
    pub exdates: Vec<Date>,
    pub overrides: Vec<(Date, Override)>,
}

/// The content of an override: the status alone, or the frozen title,
/// priority and status.
pub enum OverrideView {
    State(Status),
    Done(Seq<char>, i8, Status),
}

impl View for Override {
    type V = OverrideView;

    open spec fn view(&self) -> OverrideView {
        match self {
            Override::State(st) => OverrideView::State(*st),
            Override::Done(s) => OverrideView::Done(s.title@, s.priority, s.state),
        }
    }
}

/// The dates of the overrides, in order.
pub open spec fn override_dates(s: Seq<(Date, Override)>) -> Seq<Date> {
    s.map_values(|p: (Date, Override)| p.0)
}

/// The override on `date`, if there is one (the first, should there be two).
pub open spec fn override_on(s: Seq<(Date, Override)>, date: Date) -> Option<Override>
    decreases s.len(),
{
    if s.len() == 0 {
        None
    } else if s[0].0 == date {
        Some(s[0].1)
    } else {
        override_on(s.drop_first(), date)
    }
}

/// With dates in ascending order, the override on a date is the one at its
/// position.
pub proof fn lemma_override_on_at(s: Seq<(Date, Override)>, k: int)
    requires
        increasing(override_dates(s)),
        0 <= k < s.len(),
    ensures
        override_on(s, s[k].0) == Some(s[k].1),
    decreases k,
{
    let keys = override_dates(s);
    if k > 0 {
        assert(keys[0] == s[0].0);
        assert(keys[k] == s[k].0);
        assert(keys[0].num() < keys[k].num());
        let t = s.drop_first();
        assert(override_dates(t) =~= keys.drop_first());
        assert(t[k - 1] == s[k]);
        lemma_override_on_at(t, k - 1);
    }
}

/// No override on a date that none of them has.
proof fn lemma_override_on_none(s: Seq<(Date, Override)>, date: Date)
    requires
        forall|k: int| 0 <= k < s.len() ==> #[trigger] s[k].0 != date,
    ensures
        override_on(s, date) is None,
    decreases s.len(),
{
    if s.len() > 0 {
        let t = s.drop_first();
        assert forall|k: int| 0 <= k < t.len() implies #[trigger] t[k].0 != date by {
            assert(t[k] == s[k + 1]);
        }
        lemma_override_on_none(t, date);
    }
}

/// The overrides as a map from date to override.
pub open spec fn override_map(s: Seq<(Date, Override)>) -> Map<Date, OverrideView> {
    Map::new(|x: Date| override_on(s, x) is Some, |x: Date| override_on(s, x)->0@)
}

/// The later of two dates.
pub open spec fn later(a: Date, b: Date) -> Date {
    if a.num() >= b.num() {
        a
    } else {
        b
    }
}

/// The earlier of two dates.
pub open spec fn earlier(a: Date, b: Date) -> Date {
    if a.num() <= b.num() {
        a
    } else {
        b
    }
}

/// The last date that a series may show: the window's end, or the series'
/// cap where that is earlier.
pub open spec fn capped(end: Option<Date>, hi: Date) -> Date {
    match end {
        Some(e) => earlier(hi, e),
        None => hi,
    }
}

/// The latest representable date.
pub open spec fn max_date() -> Date {
    Date { year: MAX_YEAR, month: 12, day: 31 }
}

/// The day before `d`, or `d` itself when it is the first representable day.
pub open spec fn day_before(d: Date) -> Date {
    if first_day_number() <= d.num() - 1 {
        date_at(d.num() - 1)
    } else {
        d
    }
}

/// A COUNT rule turned into an UNTIL rule with the same occurrences: where
/// it counts some, UNTIL becomes the last counted occurrence (or stays, if
/// earlier); where it counts none, UNTIL becomes the day before the anchor,
/// which no occurrence reaches. COUNT goes in both cases, except for an
/// anchor on the first representable day, before which no UNTIL can fall:
/// there the rule keeps COUNT 0, and so has no occurrences either.
pub open spec fn resolved(r: RuleView, anchor: Date) -> RuleView {
    if r.count is None {
        r
    } else {
        let all = spec_occurrences(r, anchor, anchor, max_date());
        if all.len() > 0 {
            RuleView {
                until: Some(
                    match r.until {
                        Some(u) => earlier(u, all.last()),
                        None => all.last(),
                    },
                ),
                count: None,
                ..r
            }
        } else if first_day_number() < anchor.num() {
            RuleView { until: Some(day_before(anchor)), count: None, ..r }
        } else {
            RuleView { count: Some(0), ..r }
        }
    }
}

/// A rule capped at `cap`: UNTIL becomes `cap` where that is earlier.
pub open spec fn capped_rule(r: RuleView, cap: Date) -> RuleView {
    RuleView {
        until: Some(
            match r.until {
                Some(u) => earlier(u, cap),
                None => cap,
            },
        ),
        ..r
    }
}

/// `after` is `before` cut short at `d`: it stops the day before `d` (its
/// end and UNTIL capped there, a COUNT rule first turned into its UNTIL
/// rule), and keeps only the overrides and skipped dates before `d`.
pub open spec fn truncated(before: RecurringSeries, d: Date, after: RecurringSeries) -> bool {
    let rr = resolved(before.rule@, before.anchor);
    let cap = day_before(d);
    &&& after.wf()
    &&& after.id == before.id
    &&& after.title@ == before.title@
    &&& after.priority == before.priority
    &&& after.rule@ == capped_rule(rr, cap)
    &&& after.anchor == before.anchor
    &&& after.start == before.start
    &&& after.end == Some(
        match before.end {
            Some(e) => earlier(e, cap),
            None => cap,
        },
    )
    &&& after.exdates@ == before.exdates@.filter(|x: Date| x.num() < d.num())
    &&& after.overrides@ == before.overrides@.filter(|o: (Date, Override)| o.0.num() < d.num())
}

/// `kept` and `future` are what splitting `before` at `d` gives, the
/// future half numbered `new_id`: `kept` stops the day before `d` (its end
/// and UNTIL capped there), `future` is active from `d` with the same
/// anchor, and the overrides and skipped dates on or after `d` are the
/// future's. A COUNT rule is first turned into its UNTIL rule.
pub open spec fn split_result(
    before: RecurringSeries,
    d: Date,
    new_id: u64,
    kept: RecurringSeries,
    future: RecurringSeries,
) -> bool {
    &&& truncated(before, d, kept)
    &&& future.wf()
    &&& future.id == new_id
    &&& future.title@ == before.title@
    &&& future.priority == before.priority
    &&& future.rule@ == resolved(before.rule@, before.anchor)
    &&& future.anchor == before.anchor
    &&& future.start == d
    &&& future.end == before.end
    &&& future.exdates@ == before.exdates@.filter(|x: Date| x.num() >= d.num())
    &&& future.overrides@ == before.overrides@.filter(|o: (Date, Override)| o.0.num() >= d.num())
}

impl RecurringSeries {
    pub open spec fn wf(&self) -> bool {
        &&& self.rule.wf()
        &&& self.anchor.wf()
        &&& self.start.wf()
        &&& (self.end matches Some(e) ==> e.wf())
        &&& increasing(self.exdates@)
        &&& increasing(override_dates(self.overrides@))
    }

    /// Everything but the overrides is as in `other`.
    pub open spec fn same_except_overrides(&self, other: Self) -> bool {
        &&& self.id == other.id
        &&& self.title@ == other.title@
        &&& self.priority == other.priority
        &&& self.rule@ == other.rule@
        &&& self.anchor == other.anchor
        &&& self.start == other.start
        &&& self.end == other.end
        &&& self.exdates@ == other.exdates@
    }

    /// The occurrences shown in the window `lo..=hi`: those of the rule
    /// (phase from the anchor) between the later of `lo` and the start and
    /// the earlier of `hi` and the end, without the skipped dates.
    #[verifier::opaque]
    pub open spec fn spec_occurrences_in(&self, lo: Date, hi: Date) -> Seq<Date> {
        let a = later(lo, self.start);
        let b = capped(self.end, hi);
        if a.num() > b.num() {
            Seq::empty()
        } else {
            spec_occurrences(self.rule@, self.anchor, a, b).filter(
                |x: Date| !self.exdates@.contains(x),
            )
        }
    }

    /// What an occurrence on `date` shows: title, priority and status.
    pub open spec fn spec_view(&self, date: Date) -> (Seq<char>, i8, Status) {
        match override_on(self.overrides@, date) {
            Some(Override::Done(s)) => (s.title@, s.priority, s.state),
            Some(Override::State(st)) => (self.title@, self.priority, st),
            None => (self.title@, self.priority, Status::Open),
        }
    }

    pub fn new(id: u64, title: String, priority: i8, rule: Recurrence, anchor: Date) -> (r: Self)
        requires
            rule.wf(),
            anchor.wf(),
        ensures
            r.wf(),
            r.id == id,
            r.title@ == title@,
            r.priority == priority,
            r.rule@ == rule@,
            r.anchor == anchor,
            r.start == anchor,
            r.end is None,
            r.exdates@ == Seq::<Date>::empty(),
            r.overrides@ == Seq::<(Date, Override)>::empty(),
    {
        let r = RecurringSeries {
            id,
            title,
            priority,
            rule,
            anchor,
            start: anchor,
            end: None,
            exdates: Vec::new(),
            overrides: Vec::new(),
        };
        proof {
            assert(override_dates(r.overrides@) =~= Seq::<Date>::empty());
        }
        r
    }

    /// Occurrence dates within `window`, floored at the start, capped at the
    /// end, without the skipped dates; ascending.
    #[verifier::spinoff_prover]
    pub fn occurrences_in(&self, window: std::ops::RangeInclusive<Date>) -> (r: Vec<Date>)
        requires
            self.wf(),
            window@.start.wf(),
            window@.end.wf(),
        ensures
            r@ == self.spec_occurrences_in(window@.start, window@.end),
            increasing(r@),
    {
        proof {
            reveal(RecurringSeries::spec_occurrences_in);
        }
        let wlo = window_start(&window);
        let whi = window_end(&window);
        let lo = if wlo.before(&self.start) {
            self.start
        } else {
            wlo
        };
        let hi = match self.end {
            Some(e) => if e.before(&whi) {
                e
            } else {
                whi
            },
            None => whi,
        };
        if hi.before(&lo) {
            return Vec::new();
        }
        let occ = occurrences(&self.rule, self.anchor, lo..=hi);
        let mut out: Vec<Date> = Vec::new();
        let mut i: usize = 0;
        while i < occ.len()
            invariant
                i <= occ.len(),
                increasing(occ@),
                self.wf(),
                out@ == occ@.take(i as int).filter(|x: Date| !self.exdates@.contains(x)),
            decreases occ.len() - i,
        {
            proof {
                assert(occ@.take(i + 1) =~= occ@.take(i as int).push(occ@[i as int]));
                occ@.take(i as int).lemma_filter_push(
                    occ@[i as int],
                    |x: Date| !self.exdates@.contains(x),
                );
            }
            if !date_in(&self.exdates, &occ[i]) {
                out.push(occ[i]);
            }
            i += 1;
        }
        proof {
            assert(occ@.take(i as int) =~= occ@);
            lemma_filter_increasing(occ@, |x: Date| !self.exdates@.contains(x));
        }
        out
    }

    /// Whether the series has an occurrence on `date`.
    pub fn occurs_on(&self, date: Date) -> (r: bool)
        requires
            self.wf(),
            date.wf(),
        ensures
            r == self.spec_occurrences_in(date, date).contains(date),
    {
        let occ = self.occurrences_in(date..=date);
        date_in(&occ, &date)
    }

    /// Effective (title, priority, state) shown for an occurrence on `date`.
    pub fn view(&self, date: Date) -> (r: (String, i8, Status))
        requires
            self.wf(),
            date.wf(),
        ensures
            (r.0@, r.1, r.2) == self.spec_view(date),
    {
        match override_index(&self.overrides, &date) {
            Some(k) => match &self.overrides[k].1 {
                Override::Done(s) => (s.title.clone(), s.priority, s.state),
                Override::State(st) => (self.title.clone(), self.priority, *st),
            },
            None => (self.title.clone(), self.priority, Status::Open),
        }
    }
}

impl RecurringSeries {
    pub fn set_override(&mut self, date: Date, ov: Override)
        requires
            old(self).wf(),
            date.wf(),
        ensures
            final(self).wf(),
            override_map(final(self).overrides@) == override_map(old(self).overrides@).insert(
                date,
                ov@,
            ),
            final(self).same_except_overrides(*old(self)),
    {
        put_override(&mut self.overrides, date, ov);
    }

    pub fn clear_override(&mut self, date: Date)
        requires
            old(self).wf(),
            date.wf(),
        ensures
            final(self).wf(),
            override_map(final(self).overrides@) == override_map(old(self).overrides@).remove(
                date,
            ),
            final(self).same_except_overrides(*old(self)),
    {
        drop_override(&mut self.overrides, date);
    }

    /// Skips the occurrence on `date`.
    pub fn skip(&mut self, date: Date)
        requires
            old(self).wf(),
            date.wf(),
        ensures
            final(self).wf(),
            final(self).exdates@.to_set() == old(self).exdates@.to_set().insert(date),
            final(self).overrides@ == old(self).overrides@,
            final(self).id == old(self).id,
            final(self).title@ == old(self).title@,
            final(self).priority == old(self).priority,
            final(self).rule@ == old(self).rule@,
            final(self).anchor == old(self).anchor,
            final(self).start == old(self).start,
            final(self).end == old(self).end,
    {
        add_date(&mut self.exdates, date);
    }
}

/// Filtering by a test that holds exactly on a prefix keeps the prefix.
proof fn lemma_filter_split<A>(s: Seq<A>, before: spec_fn(A) -> bool, after: spec_fn(A) -> bool, p: int)
    requires
        0 <= p <= s.len(),
        forall|k: int| 0 <= k < p ==> before(#[trigger] s[k]) && !after(s[k]),
        forall|k: int| p <= k < s.len() ==> !before(#[trigger] s[k]) && after(s[k]),
    ensures
        s.filter(before) == s.take(p),
        s.filter(after) == s.skip(p),
    decreases s.len(),
{
    reveal(Seq::filter);
    if s.len() == 0 {
        assert(s.take(p) =~= s);
        assert(s.skip(p) =~= s);
    } else {
        let t = s.drop_last();
        if p < s.len() {
            lemma_filter_split(t, before, after, p);
            assert(t.take(p) =~= s.take(p));
            assert(t.skip(p).push(s.last()) =~= s.skip(p));
        } else {
            lemma_filter_split(t, before, after, p - 1);
            assert(t.take(p - 1).push(s.last()) =~= s.take(p));
            assert(t.skip(p - 1) =~= Seq::<A>::empty());
            assert(s.skip(p) =~= Seq::<A>::empty());
        }
    }
}

impl RecurringSeries {
    /// Turns a COUNT rule into the UNTIL rule with the same occurrences, so
    /// that splits go by date alone (a rule that counts no date gets an UNTIL
    /// before its anchor).
    fn resolve_count_to_until(&mut self)
        requires
            old(self).wf(),
        ensures
            final(self).wf(),
            final(self).rule@ == resolved(old(self).rule@, old(self).anchor),
            final(self).id == old(self).id,
            final(self).title@ == old(self).title@,
            final(self).priority == old(self).priority,
            final(self).anchor == old(self).anchor,
            final(self).start == old(self).start,
            final(self).end == old(self).end,
            final(self).exdates@ == old(self).exdates@,
            final(self).overrides@ == old(self).overrides@,
    {
        if self.rule.count.is_none() {
            return;
        }
        let max = Date { year: MAX_YEAR, month: 12, day: 31 };
        let all = occurrences(&self.rule, self.anchor, self.anchor..=max);
        if all.len() > 0 {
            let last = all[all.len() - 1];
            let u = match self.rule.until {
                Some(u) => if last.before(&u) {
                    last
                } else {
                    u
                },
                None => last,
            };
            self.rule.until = Some(u);
            self.rule.count = None;
        } else {
            match self.anchor.pred_opt() {
                Some(p) => {
                    proof {
                        crate::recur::dates::lemma_date_at(p);
                    }
                    self.rule.until = Some(p);
                    self.rule.count = None;
                },
                None => {
                    self.rule.count = Some(0);
                },
            }
        }
    }

    /// Splits at `d`: this series stops the day before `d`, and the returned
    /// series (numbered `new_id`) is active from `d` with the same phase
    /// (the same anchor). Overrides and skipped dates on or after `d` move to
    /// the returned series; a COUNT rule is first turned into its UNTIL rule.
    pub fn split_at(&mut self, d: Date, new_id: u64) -> (r: RecurringSeries)
        requires
            old(self).wf(),
            d.wf(),
        ensures
            split_result(*old(self), d, new_id, *final(self), r),
    {
        self.resolve_count_to_until();
        let ghost ov0 = self.overrides@;
        let ghost ex0 = self.exdates@;
        let po = first_override_not_before(&self.overrides, &d);
        let future_overrides = self.overrides.split_off(po);
        let pe = first_not_before(&self.exdates, &d);
        let future_exdates = self.exdates.split_off(pe);
        proof {
            lemma_filter_split(
                ov0,
                |o: (Date, Override)| o.0.num() < d.num(),
                |o: (Date, Override)| o.0.num() >= d.num(),
                po as int,
            );
            lemma_filter_split(
                ex0,
                |x: Date| x.num() < d.num(),
                |x: Date| x.num() >= d.num(),
                pe as int,
            );
            assert(ex0.subrange(0, pe as int) =~= ex0.take(pe as int));
            assert(ex0.subrange(pe as int, ex0.len() as int) =~= ex0.skip(pe as int));
            assert(ov0.subrange(0, po as int) =~= ov0.take(po as int));
            assert(ov0.subrange(po as int, ov0.len() as int) =~= ov0.skip(po as int));
            lemma_override_keys(ov0);
            lemma_override_keys_back(self.overrides@);
            lemma_override_keys_back(future_overrides@);
        }
        let future = RecurringSeries {
            id: new_id,
            title: self.title.clone(),
            priority: self.priority,
            rule: self.rule.duplicate(),
            anchor: self.anchor,
            start: d,
            end: self.end,
            exdates: future_exdates,
            overrides: future_overrides,
        };
        self.cap_before(d);
        future
    }

    /// Ends the series the day before `d`: sets the end and UNTIL to that day
    /// where they are later.
    fn cap_before(&mut self, d: Date)
        requires
            old(self).wf(),
            d.wf(),
        ensures
            final(self).wf(),
            final(self).rule@ == capped_rule(old(self).rule@, day_before(d)),
            final(self).end == Some(
                match old(self).end {
                    Some(e) => earlier(e, day_before(d)),
                    None => day_before(d),
                },
            ),
            final(self).id == old(self).id,
            final(self).title@ == old(self).title@,
            final(self).priority == old(self).priority,
            final(self).anchor == old(self).anchor,
            final(self).start == old(self).start,
            final(self).exdates@ == old(self).exdates@,
            final(self).overrides@ == old(self).overrides@,
    {
        let cap = match d.pred_opt() {
            Some(p) => {
                proof {
                    crate::recur::dates::lemma_date_at(p);
                }
                p
            },
            None => d,
        };
        let e = match self.end {
            Some(e) => if cap.before(&e) {
                cap
            } else {
                e
            },
            None => cap,
        };
        self.end = Some(e);
        let u = match self.rule.until {
            Some(u) => if cap.before(&u) {
                cap
            } else {
                u
            },
            None => cap,
        };
        self.rule.until = Some(u);
    }

    /// Deletes the occurrence on `d` and all later ones: the series ends the
    /// day before `d`, and overrides and skipped dates from `d` on go.
    pub fn truncate_before(&mut self, d: Date)
        requires
            old(self).wf(),
            d.wf(),
        ensures
            truncated(*old(self), d, *final(self)),
    {
        self.resolve_count_to_until();
        self.cap_before(d);
        let ghost ov0 = self.overrides@;
        let ghost ex0 = self.exdates@;
        let po = first_override_not_before(&self.overrides, &d);
        let _ = self.overrides.split_off(po);
        let pe = first_not_before(&self.exdates, &d);
        let _ = self.exdates.split_off(pe);
        proof {
            lemma_filter_split(
                ov0,
                |o: (Date, Override)| o.0.num() < d.num(),
                |o: (Date, Override)| o.0.num() >= d.num(),
                po as int,
            );
            lemma_filter_split(
                ex0,
                |x: Date| x.num() < d.num(),
                |x: Date| x.num() >= d.num(),
                pe as int,
            );
            assert(ex0.subrange(0, pe as int) =~= ex0.take(pe as int));
            assert(ov0.subrange(0, po as int) =~= ov0.take(po as int));
            lemma_override_keys(ov0);
            lemma_override_keys_back(self.overrides@);
        }
    }
}

/// Whether `v` holds `d`.
fn date_in(v: &Vec<Date>, d: &Date) -> (r: bool)
    requires
        forall|i: int| 0 <= i < v@.len() ==> (#[trigger] v@[i]).wf(),
        d.wf(),
    ensures
        r == v@.contains(*d),
{
    let mut i: usize = 0;
    while i < v.len()
        invariant
            i <= v.len(),
            forall|k: int| 0 <= k < v@.len() ==> (#[trigger] v@[k]).wf(),
            d.wf(),
            forall|k: int| 0 <= k < i ==> v@[k] != *d,
        decreases v.len() - i,
    {
        if v[i].same_day(d) {
            return true;
        }
        i += 1;
    }
    false
}

/// Where the override on `d` stands, if there is one.
fn override_index(v: &Vec<(Date, Override)>, d: &Date) -> (r: Option<usize>)
    requires
        increasing(override_dates(v@)),
        d.wf(),
    ensures
        r matches Some(k) ==> k < v@.len() && v@[k as int].0 == *d && override_on(v@, *d) == Some(
            v@[k as int].1,
        ),
        r is None ==> override_on(v@, *d) is None,
        r is None ==> forall|k: int| 0 <= k < v@.len() ==> #[trigger] v@[k].0 != *d,
{
    let ghost keys = override_dates(v@);
    let mut i: usize = 0;
    while i < v.len()
        invariant
            i <= v.len(),
            keys == override_dates(v@),
            increasing(keys),
            d.wf(),
            forall|k: int| 0 <= k < i ==> #[trigger] v@[k].0 != *d,
        decreases v.len() - i,
    {
        proof {
            assert(keys[i as int] == v@[i as int].0);
        }
        if v[i].0.same_day(d) {
            proof {
                lemma_override_on_at(v@, i as int);
            }
            return Some(i);
        }
        i += 1;
    }
    proof {
        lemma_override_on_none(v@, *d);
    }
    None
}


/// The override dates are valid dates.
pub proof fn lemma_override_dates_wf(s: Seq<(Date, Override)>)
    requires
        increasing(override_dates(s)),
    ensures
        forall|k: int| 0 <= k < s.len() ==> (#[trigger] s[k]).0.wf(),
{
    lemma_override_keys(s);
}

/// Ascending override dates, read off the overrides themselves.
proof fn lemma_override_keys(s: Seq<(Date, Override)>)
    requires
        increasing(override_dates(s)),
    ensures
        forall|k: int| 0 <= k < s.len() ==> (#[trigger] s[k]).0.wf(),
        forall|a: int, b: int| 0 <= a < b < s.len() ==> (#[trigger] s[a]).0.num() < (#[trigger] s[b]).0.num(),
{
    let keys = override_dates(s);
    assert forall|k: int| 0 <= k < s.len() implies (#[trigger] s[k]).0.wf() by {
        assert(keys[k] == s[k].0);
    }
    assert forall|a: int, b: int| 0 <= a < b < s.len() implies (#[trigger] s[a]).0.num() < (
    #[trigger] s[b]).0.num() by {
        assert(keys[a] == s[a].0);
        assert(keys[b] == s[b].0);
    }
}

/// Overrides whose dates ascend have ascending override dates.
proof fn lemma_override_keys_back(s: Seq<(Date, Override)>)
    requires
        forall|k: int| 0 <= k < s.len() ==> (#[trigger] s[k]).0.wf(),
        forall|a: int, b: int| 0 <= a < b < s.len() ==> (#[trigger] s[a]).0.num() < (#[trigger] s[b]).0.num(),
    ensures
        increasing(override_dates(s)),
{
    let keys = override_dates(s);
    assert forall|k: int| 0 <= k < keys.len() implies (#[trigger] keys[k]).wf() by {
        assert(keys[k] == s[k].0);
    }
    assert forall|a: int, b: int| 0 <= a < b < keys.len() implies (#[trigger] keys[a]).num() < (
    #[trigger] keys[b]).num() by {
        assert(keys[a] == s[a].0);
        assert(keys[b] == s[b].0);
    }
}

/// The first position whose date is not before `d` (the length if none).
fn first_not_before(v: &Vec<Date>, d: &Date) -> (r: usize)
    requires
        increasing(v@),
        d.wf(),
    ensures
        r <= v@.len(),
        forall|k: int| 0 <= k < r ==> (#[trigger] v@[k]).num() < d.num(),
        forall|k: int| r <= k < v@.len() ==> (#[trigger] v@[k]).num() >= d.num(),
{
    let mut i: usize = 0;
    while i < v.len() && v[i].before(d)
        invariant
            i <= v.len(),
            increasing(v@),
            d.wf(),
            forall|k: int| 0 <= k < i ==> (#[trigger] v@[k]).num() < d.num(),
        decreases v.len() - i,
    {
        i += 1;
    }
    proof {
        assert forall|k: int| i <= k < v@.len() implies (#[trigger] v@[k]).num() >= d.num() by {
            if k > i {
                assert(v@[i as int].num() < v@[k].num());
            }
        }
    }
    i
}

/// The first override position whose date is not before `d`.
fn first_override_not_before(v: &Vec<(Date, Override)>, d: &Date) -> (r: usize)
    requires
        increasing(override_dates(v@)),
        d.wf(),
    ensures
        r <= v@.len(),
        forall|k: int| 0 <= k < r ==> (#[trigger] v@[k]).0.num() < d.num(),
        forall|k: int| r <= k < v@.len() ==> (#[trigger] v@[k]).0.num() >= d.num(),
{
    proof {
        lemma_override_keys(v@);
    }
    let mut i: usize = 0;
    while i < v.len() && v[i].0.before(d)
        invariant
            i <= v.len(),
            forall|k: int| 0 <= k < v@.len() ==> (#[trigger] v@[k]).0.wf(),
            forall|a: int, b: int| 0 <= a < b < v@.len() ==> (#[trigger] v@[a]).0.num() < (#[trigger] v@[b]).0.num(),
            d.wf(),
            forall|k: int| 0 <= k < i ==> (#[trigger] v@[k]).0.num() < d.num(),
        decreases v.len() - i,
    {
        i += 1;
    }
    proof {
        assert forall|k: int| i <= k < v@.len() implies (#[trigger] v@[k]).0.num() >= d.num() by {
            if k > i {
                assert(v@[i as int].0.num() < v@[k].0.num());
            }
        }
    }
    i
}

/// Sets the override on `date`, keeping the dates ascending.
fn put_override(v: &mut Vec<(Date, Override)>, date: Date, ov: Override)
    requires
        increasing(override_dates(old(v)@)),
        date.wf(),
    ensures
        increasing(override_dates(final(v)@)),
        override_map(final(v)@) == override_map(old(v)@).insert(date, ov@),
{
    let ghost s0 = v@;
    proof {
        lemma_override_keys(s0);
    }
    let i = first_override_not_before(v, &date);
    let exact = i < v.len() && v[i].0.same_day(&date);
    if exact {
        v.set(i, (date, ov));
    } else {
        v.insert(i, (date, ov));
    }
    proof {
        lemma_put_override(s0, v@, i as int, exact, date, ov);
    }
}

/// The overrides after setting the one on `date` at position `ii`.
#[verifier::spinoff_prover]
proof fn lemma_put_override(
    s0: Seq<(Date, Override)>,
    s1: Seq<(Date, Override)>,
    ii: int,
    exact: bool,
    date: Date,
    ov: Override,
)
    requires
        increasing(override_dates(s0)),
        date.wf(),
        0 <= ii <= s0.len(),
        forall|k: int| 0 <= k < ii ==> (#[trigger] s0[k]).0.num() < date.num(),
        forall|k: int| ii <= k < s0.len() ==> (#[trigger] s0[k]).0.num() >= date.num(),
        exact == (ii < s0.len() && s0[ii].0 == date),
        s1 == (if exact {
            s0.update(ii, (date, ov))
        } else {
            s0.insert(ii, (date, ov))
        }),
    ensures
        increasing(override_dates(s1)),
        override_map(s1) == override_map(s0).insert(date, ov@),
{
    lemma_override_keys(s0);
    assert forall|a: int, b: int| 0 <= a < b < s1.len() implies (#[trigger] s1[a]).0.num() < (
    #[trigger] s1[b]).0.num() by {
        if exact {
            if a == ii {
                assert(s1[b] == s0[b]);
            } else if b == ii {
                assert(s1[a] == s0[a]);
            } else {
                assert(s1[a] == s0[a] && s1[b] == s0[b]);
            }
        } else {
            if b < ii {
                assert(s1[a] == s0[a] && s1[b] == s0[b]);
            } else if a > ii {
                assert(s1[a] == s0[a - 1] && s1[b] == s0[b - 1]);
            } else if a == ii {
                assert(s1[b] == s0[b - 1]);
                if ii < s0.len() {
                    lemma_num_injective(s0[ii].0, date);
                    if b - 1 > ii {
                        assert(s0[ii].0.num() < s0[b - 1].0.num());
                    }
                }
            } else if b == ii {
                assert(s1[a] == s0[a]);
            } else {
                assert(s1[a] == s0[a] && s1[b] == s0[b - 1]);
            }
        }
    }
    assert forall|k: int| 0 <= k < s1.len() implies (#[trigger] s1[k]).0.wf() by {
        if k != ii {
            if exact || k < ii {
                assert(s1[k] == s0[k]);
            } else {
                assert(s1[k] == s0[k - 1]);
            }
        }
    }
    lemma_override_keys_back(s1);
    assert forall|x: Date| #[trigger] override_on(s1, x) == (if x == date {
        Some(ov)
    } else {
        override_on(s0, x)
    }) by {
        if x == date {
            assert(s1[ii].0 == date);
            lemma_override_on_at(s1, ii);
        } else if exists|k: int| 0 <= k < s0.len() && #[trigger] s0[k].0 == x {
            let k = choose|k: int| 0 <= k < s0.len() && #[trigger] s0[k].0 == x;
            lemma_override_on_at(s0, k);
            if exact {
                assert(k != ii);
                assert(s1[k] == s0[k]);
                lemma_override_on_at(s1, k);
            } else if k < ii {
                assert(s1[k] == s0[k]);
                lemma_override_on_at(s1, k);
            } else {
                assert(s1[k + 1] == s0[k]);
                lemma_override_on_at(s1, k + 1);
            }
        } else {
            lemma_override_on_none(s0, x);
            assert forall|k: int| 0 <= k < s1.len() implies #[trigger] s1[k].0 != x by {
                if k != ii {
                    if exact || k < ii {
                        assert(s1[k] == s0[k]);
                    } else {
                        assert(s1[k] == s0[k - 1]);
                    }
                }
            }
            lemma_override_on_none(s1, x);
        }
    }
    assert(override_map(s1) =~= override_map(s0).insert(date, ov@));
}

/// Drops the override on `date`, if there is one.
#[verifier::spinoff_prover]
fn drop_override(v: &mut Vec<(Date, Override)>, date: Date)
    requires
        increasing(override_dates(old(v)@)),
        date.wf(),
    ensures
        increasing(override_dates(final(v)@)),
        override_map(final(v)@) == override_map(old(v)@).remove(date),
{
    let ghost s0 = v@;
    proof {
        lemma_override_keys(s0);
    }
    match override_index(v, &date) {
        Some(i) => {
            v.remove(i);
            proof {
                let s1 = v@;
                let ii = i as int;
                assert forall|a: int, b: int| 0 <= a < b < s1.len() implies (#[trigger] s1[a]).0.num()
                    < (#[trigger] s1[b]).0.num() by {
                    if b < ii {
                        assert(s1[a] == s0[a] && s1[b] == s0[b]);
                    } else if a >= ii {
                        assert(s1[a] == s0[a + 1] && s1[b] == s0[b + 1]);
                    } else {
                        assert(s1[a] == s0[a] && s1[b] == s0[b + 1]);
                    }
                }
                assert forall|k: int| 0 <= k < s1.len() implies (#[trigger] s1[k]).0.wf() by {
                    if k < ii {
                        assert(s1[k] == s0[k]);
                    } else {
                        assert(s1[k] == s0[k + 1]);
                    }
                }
                lemma_override_keys_back(s1);
                assert forall|x: Date| #[trigger] override_on(s1, x) == (if x == date {
                    None
                } else {
                    override_on(s0, x)
                }) by {
                    if x == date {
                        assert forall|k: int| 0 <= k < s1.len() implies #[trigger] s1[k].0 != x by {
                            if k < ii {
                                assert(s1[k] == s0[k]);
                                assert(s0[k].0.num() < s0[ii].0.num());
                            } else {
                                assert(s1[k] == s0[k + 1]);
                                assert(s0[ii].0.num() < s0[k + 1].0.num());
                            }
                        }
                        lemma_override_on_none(s1, x);
                    } else if exists|k: int| 0 <= k < s0.len() && #[trigger] s0[k].0 == x {
                        let k = choose|k: int| 0 <= k < s0.len() && #[trigger] s0[k].0 == x;
                        lemma_override_on_at(s0, k);
                        if k < ii {
                            assert(s1[k] == s0[k]);
                            lemma_override_on_at(s1, k);
                        } else {
                            assert(k != ii);
                            assert(s1[k - 1] == s0[k]);
                            lemma_override_on_at(s1, k - 1);
                        }
                    } else {
                        lemma_override_on_none(s0, x);
                        assert forall|k: int| 0 <= k < s1.len() implies #[trigger] s1[k].0 != x by {
                            if k < ii {
                                assert(s1[k] == s0[k]);
                            } else {
                                assert(s1[k] == s0[k + 1]);
                            }
                        }
                        lemma_override_on_none(s1, x);
                    }
                }
                assert(override_map(s1) =~= override_map(s0).remove(date));
            }
        },
        None => {
            proof {
                assert(override_map(s0) =~= override_map(s0).remove(date));
            }
        },
    }
}

/// Adds `d` to an ascending run of dates, if it is not there yet.
fn add_date(v: &mut Vec<Date>, d: Date)
    requires
        increasing(old(v)@),
        d.wf(),
    ensures
        increasing(final(v)@),
        final(v)@.to_set() == old(v)@.to_set().insert(d),
{
    let ghost s0 = v@;
    let i = first_not_before(v, &d);
    if i < v.len() && v[i].same_day(&d) {
        proof {
            assert(s0.to_set().insert(d) =~= s0.to_set());
        }
        return;
    }
    v.insert(i, d);
    proof {
        let s1 = v@;
        let ii = i as int;
        assert forall|a: int, b: int| 0 <= a < b < s1.len() implies (#[trigger] s1[a]).num() < (
        #[trigger] s1[b]).num() by {
            if b < ii {
            } else if a > ii {
                assert(s1[a] == s0[a - 1] && s1[b] == s0[b - 1]);
            } else if a == ii {
                assert(s1[b] == s0[b - 1]);
                if b - 1 > ii {
                    assert(s0[ii].num() < s0[b - 1].num());
                }
                lemma_num_injective(s0[ii], d);
            } else if b == ii {
            } else {
                assert(s1[b] == s0[b - 1]);
            }
        }
        assert(s1.to_set() =~= s0.to_set().insert(d)) by {
            assert forall|x: Date| s1.to_set().contains(x) implies s0.to_set().insert(d).contains(x) by {
                let k = choose|k: int| 0 <= k < s1.len() && s1[k] == x;
                if k < ii {
                    assert(s0[k] == x);
                } else if k > ii {
                    assert(s0[k - 1] == x);
                }
            }
            assert forall|x: Date| s0.to_set().insert(d).contains(x) implies s1.to_set().contains(x) by {
                if x == d {
                    assert(s1[ii] == d);
                } else {
                    let k = choose|k: int| 0 <= k < s0.len() && s0[k] == x;
                    if k < ii {
                        assert(s1[k] == x);
                    } else {
                        assert(s1[k + 1] == x);
                    }
                }
            }
        }
    }
}


// ---- what a split does to the occurrences ----

/// The test "falls before `d`".
pub open spec fn before_day(d: Date) -> spec_fn(Date) -> bool {
    |x: Date| x.num() < d.num()
}

/// The test "falls on or after `d`".
pub open spec fn from_day(d: Date) -> spec_fn(Date) -> bool {
    |x: Date| x.num() >= d.num()
}

/// The members of a filtered run: the members of the run that pass.
proof fn lemma_filter_member(s: Seq<Date>, p: spec_fn(Date) -> bool, x: Date)
    ensures
        s.filter(p).contains(x) <==> s.contains(x) && p(x),
{
    lemma_filter_to_set(s, p);
    assert(s.filter(p).to_set().contains(x) == s.filter(p).contains(x));
    assert(s.to_set().contains(x) == s.contains(x));
}

/// What the split law asks: `d` a representable date after the first one
/// and not before the series' start.
#[verifier::opaque]
spec fn split_divides_pre(
    before: RecurringSeries,
    d: Date,
    new_id: u64,
    kept: RecurringSeries,
    future: RecurringSeries,
) -> bool {
    &&& before.wf()
    &&& d.wf()
    &&& first_day_number() < d.num()
    &&& before.start.num() <= d.num()
    &&& split_result(before, d, new_id, kept, future)
}

/// Cutting a series short at `d` leaves, in every window, just its
/// occurrences before `d`.
pub proof fn lemma_truncated_before(
    before: RecurringSeries,
    d: Date,
    kept: RecurringSeries,
    lo: Date,
    hi: Date,
)
    requires
        before.wf(),
        d.wf(),
        first_day_number() < d.num(),
        truncated(before, d, kept),
    ensures
        kept.spec_occurrences_in(lo, hi) == before.spec_occurrences_in(lo, hi).filter(before_day(d)),
{
    reveal(RecurringSeries::spec_occurrences_in);
    let r0 = before.rule@;
    let anchor = before.anchor;
    let r = resolved(r0, anchor);
    let cap = day_before(d);
    crate::date::lemma_num_in_range(d);
    lemma_date_exists(d.num() - 1);
    let a = later(lo, before.start);
    let b = capped(before.end, hi);
    let bk = capped(kept.end, hi);
    let e = spec_occurrences(r, anchor, a, b);
    lemma_resolved_same(r0, anchor, a, b);
    lemma_occurrences_shape(r, anchor, a, b);
    let nb = |x: Date| !before.exdates@.contains(x);
    let nk = |x: Date| !kept.exdates@.contains(x);
    let lt = before_day(d);
    let bs = before.spec_occurrences_in(lo, hi);
    let ks = kept.spec_occurrences_in(lo, hi);
    let target = bs.filter(lt);
    if a.num() > b.num() {
        assert(bs =~= Seq::<Date>::empty());
        assert(ks =~= Seq::<Date>::empty());
        assert(target =~= Seq::<Date>::empty()) by {
            reveal(Seq::filter);
        }
    } else {
        assert(bs == e.filter(nb));
        lemma_filter_increasing(e, nb);
        lemma_filter_increasing(bs, lt);
        if a.num() > bk.num() {
            assert(ks =~= Seq::<Date>::empty());
            if target.len() > 0 {
                let x = target[0];
                assert(target.contains(x));
                lemma_filter_member(bs, lt, x);
                lemma_filter_member(e, nb, x);
                let i = e.index_of(x);
                assert(in_window(e[i], a, b));
            }
            assert(target =~= Seq::<Date>::empty());
        } else if r.count is Some {
            let r1 = kept.rule@;
            assert(r.count == Some(0u32) && r1.count == Some(0u32));
            lemma_count_zero(r, anchor, a, b);
            lemma_count_zero(r1, anchor, a, bk);
            assert(ks =~= Seq::<Date>::empty()) by {
                reveal(Seq::filter);
            }
            assert(target =~= Seq::<Date>::empty()) by {
                reveal(Seq::filter);
            }
        } else {
            let r1 = kept.rule@;
            assert(same_shape(r1, r));
            assert forall|x: Date| #[trigger] past_until(r1, x) <==> (past_until(r, x) || x.num()
                > cap.num()) by {}
            lemma_occurrences_capped(r1, r, anchor, a, bk, cap);
            lemma_occurrences_window(r, anchor, a, b, a, bk);
            let w = |x: Date| in_window(x, a, bk);
            let ew = e.filter(w);
            assert(ks == ew.filter(nk));
            lemma_filter_increasing(e, w);
            lemma_filter_increasing(ew, nk);
            assert forall|x: Date| ks.contains(x) <==> target.contains(x) by {
                lemma_filter_member(ew, nk, x);
                lemma_filter_member(e, w, x);
                lemma_filter_member(bs, lt, x);
                lemma_filter_member(e, nb, x);
                lemma_filter_member(before.exdates@, lt, x);
                if e.contains(x) {
                    let i = e.index_of(x);
                    assert(in_window(e[i], a, b));
                }
            }
            assert(ks.to_set() =~= target.to_set());
            lemma_increasing_unique(ks, target);
        }
    }
}


/// The future half of a split shows the occurrences from the split date on.
proof fn lemma_split_future(
    before: RecurringSeries,
    d: Date,
    new_id: u64,
    kept: RecurringSeries,
    future: RecurringSeries,
    lo: Date,
    hi: Date,
)
    requires
        split_divides_pre(before, d, new_id, kept, future),
    ensures
        future.spec_occurrences_in(lo, hi) == before.spec_occurrences_in(lo, hi).filter(
            from_day(d),
        ),
{
    reveal(split_divides_pre);
    reveal(RecurringSeries::spec_occurrences_in);
    let r0 = before.rule@;
    let anchor = before.anchor;
    let r = resolved(r0, anchor);
    let a = later(lo, before.start);
    let af = later(lo, d);
    let b = capped(before.end, hi);
    let e = spec_occurrences(r, anchor, a, b);
    lemma_resolved_same(r0, anchor, a, b);
    lemma_occurrences_shape(r, anchor, a, b);
    let nb = |x: Date| !before.exdates@.contains(x);
    let nf = |x: Date| !future.exdates@.contains(x);
    let ge = from_day(d);
    let bs = before.spec_occurrences_in(lo, hi);
    let fs = future.spec_occurrences_in(lo, hi);
    let target = bs.filter(ge);
    if a.num() > b.num() {
        assert(bs =~= Seq::<Date>::empty());
        assert(fs =~= Seq::<Date>::empty());
        assert(target =~= Seq::<Date>::empty()) by {
            reveal(Seq::filter);
        }
    } else {
        assert(bs == e.filter(nb));
        lemma_filter_increasing(e, nb);
        lemma_filter_increasing(bs, ge);
        if af.num() > b.num() {
            assert(fs =~= Seq::<Date>::empty());
            if target.len() > 0 {
                let x = target[0];
                assert(target.contains(x));
                lemma_filter_member(bs, ge, x);
                lemma_filter_member(e, nb, x);
                let i = e.index_of(x);
                assert(in_window(e[i], a, b));
            }
            assert(target =~= Seq::<Date>::empty());
        } else {
            lemma_occurrences_window(r, anchor, a, b, af, b);
            let w = |x: Date| in_window(x, af, b);
            let ew = e.filter(w);
            assert(fs == ew.filter(nf));
            lemma_filter_increasing(e, w);
            lemma_filter_increasing(ew, nf);
            assert forall|x: Date| fs.contains(x) <==> target.contains(x) by {
                lemma_filter_member(ew, nf, x);
                lemma_filter_member(e, w, x);
                lemma_filter_member(bs, ge, x);
                lemma_filter_member(e, nb, x);
                lemma_filter_member(before.exdates@, ge, x);
                if e.contains(x) {
                    let i = e.index_of(x);
                    assert(in_window(e[i], a, b));
                }
            }
            assert(fs.to_set() =~= target.to_set());
            lemma_increasing_unique(fs, target);
        }
    }
}

/// `ks` followed by `fs` is `bs`.
#[verifier::opaque]
pub open spec fn joins(ks: Seq<Date>, fs: Seq<Date>, bs: Seq<Date>) -> bool {
    ks + fs == bs
}

/// An ascending run is its dates before `d` followed by those from `d` on.
proof fn lemma_run_splits(bs: Seq<Date>, d: Date)
    requires
        increasing(bs),
    ensures
        joins(bs.filter(before_day(d)), bs.filter(from_day(d)), bs),
{
    reveal(joins);
    let lt = before_day(d);
    let ge = from_day(d);
    let ks = bs.filter(lt);
    let fs = bs.filter(ge);
    lemma_filter_increasing(bs, lt);
    lemma_filter_increasing(bs, ge);
    let w = ks + fs;
    assert forall|i: int| 0 <= i < w.len() implies (#[trigger] w[i]).wf() by {
        if i >= ks.len() {
            assert(w[i] == fs[i - ks.len()]);
        }
    }
    assert forall|i: int, j: int| 0 <= i < j < w.len() implies (#[trigger] w[i]).num() < (
    #[trigger] w[j]).num() by {
        if i < ks.len() && j >= ks.len() {
            assert(ks.contains(ks[i]));
            assert(fs.contains(fs[j - ks.len()]));
            lemma_filter_member(bs, lt, ks[i]);
            lemma_filter_member(bs, ge, fs[j - ks.len()]);
            assert(w[j] == fs[j - ks.len()]);
        } else if i >= ks.len() {
            assert(w[i] == fs[i - ks.len()]);
            assert(w[j] == fs[j - ks.len()]);
        }
    }
    assert forall|x: Date| w.contains(x) <==> bs.contains(x) by {
        lemma_filter_member(bs, lt, x);
        lemma_filter_member(bs, ge, x);
        if ks.contains(x) {
            let i = ks.index_of(x);
            assert(w[i] == x);
        }
        if fs.contains(x) {
            let i = fs.index_of(x);
            assert(w[ks.len() + i] == x);
        }
        if w.contains(x) {
            let i = w.index_of(x);
            if i >= ks.len() {
                assert(fs[i - ks.len()] == x);
            } else {
                assert(ks[i] == x);
            }
        }
    }
    assert(w.to_set() =~= bs.to_set());
    lemma_increasing_unique(w, bs);
}

/// The occurrences that a series shows ascend.
proof fn lemma_shown_ascend(s: RecurringSeries, lo: Date, hi: Date)
    requires
        s.rule@.wf(),
        s.anchor.wf(),
    ensures
        increasing(s.spec_occurrences_in(lo, hi)),
{
    reveal(RecurringSeries::spec_occurrences_in);
    let a = later(lo, s.start);
    let b = capped(s.end, hi);
    if a.num() <= b.num() {
        lemma_occurrences_shape(s.rule@, s.anchor, a, b);
        lemma_filter_increasing(
            spec_occurrences(s.rule@, s.anchor, a, b),
            |x: Date| !s.exdates@.contains(x),
        );
    }
}

/// What a series shows is its dates before `d` followed by those from `d` on.
proof fn lemma_shown_splits(s: RecurringSeries, lo: Date, hi: Date, d: Date)
    requires
        s.rule@.wf(),
        s.anchor.wf(),
    ensures
        joins(
            s.spec_occurrences_in(lo, hi).filter(before_day(d)),
            s.spec_occurrences_in(lo, hi).filter(from_day(d)),
            s.spec_occurrences_in(lo, hi),
        ),
{
    lemma_shown_ascend(s, lo, hi);
    lemma_run_splits(s.spec_occurrences_in(lo, hi), d);
}

/// Given its dates before `d` and those from `d` on, what a series shows
/// is the first followed by the second.
proof fn lemma_joined(ks: Seq<Date>, fs: Seq<Date>, s: RecurringSeries, lo: Date, hi: Date, d: Date)
    requires
        s.rule@.wf(),
        s.anchor.wf(),
        ks == s.spec_occurrences_in(lo, hi).filter(before_day(d)),
        fs == s.spec_occurrences_in(lo, hi).filter(from_day(d)),
    ensures
        joins(ks, fs, s.spec_occurrences_in(lo, hi)),
{
    lemma_shown_splits(s, lo, hi, d);
}

/// Splitting a series at a date on or after its start divides its
/// occurrences: in any window, the kept half shows those before the split
/// date, the future half those from it on, and the two together show just
/// what the series showed before the split.
#[verifier::spinoff_prover]
#[verifier::rlimit(40)]
pub proof fn lemma_split_divides(
    before: RecurringSeries,
    d: Date,
    new_id: u64,
    kept: RecurringSeries,
    future: RecurringSeries,
    lo: Date,
    hi: Date,
)
    requires
        before.wf(),
        d.wf(),
        first_day_number() < d.num(),
        before.start.num() <= d.num(),
        split_result(before, d, new_id, kept, future),
    ensures
        kept.spec_occurrences_in(lo, hi) == before.spec_occurrences_in(lo, hi).filter(before_day(d)),
        future.spec_occurrences_in(lo, hi) == before.spec_occurrences_in(lo, hi).filter(from_day(d)),
        joins(
            kept.spec_occurrences_in(lo, hi),
            future.spec_occurrences_in(lo, hi),
            before.spec_occurrences_in(lo, hi),
        ),
{
    assert(split_divides_pre(before, d, new_id, kept, future)) by {
        reveal(split_divides_pre);
    }
    lemma_truncated_before(before, d, kept, lo, hi);
    lemma_split_future(before, d, new_id, kept, future, lo, hi);
    lemma_joined(
        kept.spec_occurrences_in(lo, hi),
        future.spec_occurrences_in(lo, hi),
        before,
        lo,
        hi,
        d,
    );
}


/// Turning a COUNT rule into a rule without COUNT, as a split does, keeps
/// its occurrences in every window.
pub proof fn lemma_resolved_same(r: RuleView, anchor: Date, lo: Date, hi: Date)
    requires
        r.wf(),
        anchor.wf(),
    ensures
        resolved(r, anchor).wf(),
        spec_occurrences(resolved(r, anchor), anchor, lo, hi) == spec_occurrences(r, anchor, lo, hi),
{
    if r.count is Some {
        let kk = MAX_PERIODS as nat;
        let w = walked(r, anchor, anchor, kk);
        let t2 = kept_count(r, w);
        lemma_count_walk_fixed(r, anchor, anchor, max_date(), kk);
        lemma_count_walk_fixed(r, anchor, anchor, hi, kk);
        lemma_walked_ascends(r, anchor, anchor, kk);
        lemma_cut_bound(r, w);
        let head = w.take(t2);
        assert forall|i: int| 0 <= i < head.len() implies in_window(#[trigger] head[i], anchor, max_date()) by {
            assert(head[i] == w[i]);
            crate::date::lemma_num_in_range(w[i]);
        }
        assert(emitted(r, w, anchor, max_date()) =~= head.to_set());
        assert(increasing(head));
        lemma_sorted_of(head);
        let all = spec_occurrences(r, anchor, anchor, max_date());
        assert(all == head);
        let r1 = resolved(r, anchor);
        if t2 > 0 {
            assert(until_at_last(r, r1, anchor));
            lemma_count_as_until(r, r1, anchor, lo, hi);
        } else if first_day_number() < anchor.num() {
            lemma_keeps_none(r, anchor, lo, hi);
            crate::date::lemma_num_in_range(anchor);
            lemma_date_exists(anchor.num() - 1);
            let w1 = walked(r1, anchor, hi, kk);
            lemma_walked_ascends(r1, anchor, hi, kk);
            if w1.len() > 0 {
                assert(past_until(r1, w1[0]));
            }
            assert(cut(r1, w1) == 0);
            lemma_keeps_none(r1, anchor, lo, hi);
        } else {
            lemma_keeps_none(r, anchor, lo, hi);
            lemma_count_zero(r1, anchor, lo, hi);
        }
    }
}

} // verus!
