//! The calendar store: a mapping from content fingerprint to event, with
//! dedup-on-insert, overlap warnings, removal by fingerprint, and the query
//! engine that projects recurring events into concrete occurrences.

use vstd::prelude::*;

use crate::calendar_error::CalendarError;
use crate::date::Date;
use crate::date::DateTime;
use crate::date::Time;
use crate::date::add_months;
use crate::date::add_secs;
use crate::date::dt_le;
use crate::date::dt_lex_le;
use crate::date::dt_to_secs;
use crate::event::Event;
use crate::event::EventV;
use crate::event::Recurrence;
use crate::event::cadence_is_fixed;
use crate::event::cadence_unit;
use crate::event::expansion_bounded;
use crate::event::fingerprint_of;
use crate::event::lemma_occurrence_zero;
use crate::event::occurrence_at;
use crate::event::overlaps_spec;

verus! {

/// A named, owned set of events keyed by content fingerprint.
pub struct Calendar {
    owner: String,
    name: String,
    events: Vec<Event>,
}

/// The mathematical value of a [`Calendar`].
pub ghost struct CalendarV {
    pub owner: Seq<char>,
    pub name: Seq<char>,
    pub events: Seq<EventV>,
}

impl View for Calendar {
    type V = CalendarV;

    closed spec fn view(&self) -> CalendarV {
        CalendarV {
            owner: self.owner@,
            name: self.name@,
            events: Seq::new(self.events@.len(), |i: int| self.events@[i]@),
        }
    }
}

/// The views of a sequence of events.
pub open spec fn views_of(s: Seq<Event>) -> Seq<EventV> {
    Seq::new(s.len(), |i: int| s[i]@)
}

/// Some stored event carries this fingerprint.
pub open spec fn has_fp(events: Seq<EventV>, fp: u64) -> bool {
    exists|i: int| 0 <= i < events.len() && fingerprint_of(events[i]) == fp
}

impl CalendarV {
    /// The store's invariant: every event is valid and expandable, and no two
    /// events share a fingerprint.
    pub open spec fn wf(self) -> bool {
        (forall|i: int| 0 <= i < self.events.len() ==> (#[trigger] self.events[i]).ok())
            && (forall|i: int, j: int|
            0 <= i < j < self.events.len() ==> fingerprint_of(self.events[i]) != fingerprint_of(
                self.events[j],
            ))
    }
}

/// What insertion does to the stored events: a duplicate fingerprint is
/// refused and changes nothing; otherwise the event is appended.
pub open spec fn insert_model(events: Seq<EventV>, e: EventV) -> (bool, Seq<EventV>) {
    if has_fp(events, fingerprint_of(e)) {
        (false, events)
    } else {
        (true, events.push(e))
    }
}

/// Inserting an identical-content event a second time is refused and leaves
/// the store exactly as the first insert left it — in particular its size.
pub proof fn lemma_insert_idempotent(events: Seq<EventV>, e: EventV)
    ensures
        ({
            let (r1, evs1) = insert_model(events, e);
            let (r2, evs2) = insert_model(evs1, e);
            r2 == false && evs2 == evs1 && evs2.len() == evs1.len()
        }),
{
    let fp = fingerprint_of(e);
    let (r1, evs1) = insert_model(events, e);
    if !has_fp(events, fp) {
        assert(evs1[evs1.len() - 1] == e);
        assert(has_fp(evs1, fp));
    }
}

/// Given a repeat rule and a starting date and time, the dates and times of
/// all the rule's occurrences, the anchor first.
pub fn expand_recurrence(rec: &Recurrence, dt: &Date, tm: &Time) -> (r: Vec<DateTime>)
    requires
        dt.wf(),
        tm.wf(),
        expansion_bounded(*rec, (DateTime { date: *dt, time: *tm })),
    ensures
        r@.len() == rec.repetitions + 1,
        forall|i: int|
            0 <= i < r@.len() ==> #[trigger] r@[i] == occurrence_at(
                *rec,
                DateTime { date: *dt, time: *tm },
                i,
            ),
        forall|i: int| 0 <= i < r@.len() ==> #[trigger] r@[i].wf(),
        r@[0] == (DateTime { date: *dt, time: *tm }),
{
    let anchor = DateTime { date: *dt, time: *tm };
    proof {
        lemma_occurrence_zero(*rec, anchor);
        crate::date::lemma_dt_to_secs_le_max(anchor);
    }
    let step: u64 = match rec.interval {
        Some(v) => v as u64,
        None => 1,
    };
    let unit: u64 = match rec.cadence {
        crate::event::Cadence::Secondly => 1,
        crate::event::Cadence::Minutely => 60,
        crate::event::Cadence::Hourly => 3600,
        crate::event::Cadence::Daily => 86400,
        crate::event::Cadence::Weekly => 604800,
        crate::event::Cadence::Monthly => 1,
        crate::event::Cadence::Yearly => 12,
    };
    let is_fixed = match rec.cadence {
        crate::event::Cadence::Monthly => false,
        crate::event::Cadence::Yearly => false,
        _ => true,
    };
    let reps = rec.repetitions;
    let mut out: Vec<DateTime> = Vec::new();
    let mut i: usize = 0;
    loop
        invariant_except_break
            out@.len() == i,
            forall|k: int|
                0 <= k < i ==> #[trigger] out@[k] == occurrence_at(*rec, anchor, k)
                    && out@[k].wf(),
        invariant
            dt.wf(),
            tm.wf(),
            anchor == (DateTime { date: *dt, time: *tm }),
            expansion_bounded(*rec, anchor),
            step == rec.step(),
            unit == cadence_unit(rec.cadence),
            is_fixed == cadence_is_fixed(rec.cadence),
            reps == rec.repetitions,
            i <= reps,
        ensures
            out@.len() == reps + 1,
            forall|k: int|
                0 <= k < out@.len() ==> #[trigger] out@[k] == occurrence_at(*rec, anchor, k)
                    && out@[k].wf(),
        decreases reps - i,
    {
        proof {
            crate::date::lemma_range_bounds();
            crate::date::lemma_dt_to_secs_le_max(anchor);
            let ri = i as int;
            let rr = reps as int;
            let rs = step as int;
            let ru = unit as int;
            assert(0 <= ri * rs * ru <= rr * rs * ru && ri * rs <= ri * rs * ru && rr * rs <= rr
                * rs * ru) by (nonlinear_arith)
                requires
                    0 <= ri <= rr,
                    rs >= 0,
                    ru >= 1,
            ;
        }
        let k1 = (i as u64) * step;
        let k = k1 * unit;
        let occ = if is_fixed {
            add_secs(&anchor, k)
        } else {
            let d2 = add_months(dt, k);
            DateTime { date: d2, time: *tm }
        };
        out.push(occ);
        if i == reps {
            proof {
                assert(forall|k: int|
                    0 <= k < out@.len() ==> #[trigger] out@[k] == occurrence_at(*rec, anchor, k)
                        && out@[k].wf());
            }
            break ;
        }
        i = i + 1;
    }
    proof {
        assert(out@[0] == anchor);
    }
    out
}

impl Calendar {
    /// An empty calendar with the given owner and name.
    pub fn new(owner_name: &str, calendar_name: &str) -> (r: Calendar)
        ensures
            r@.owner == owner_name@,
            r@.name == calendar_name@,
            r@.events == Seq::<EventV>::empty(),
            r@.wf(),
    {
        let r = Calendar {
            owner: owner_name.to_owned(),
            name: calendar_name.to_owned(),
            events: Vec::new(),
        };
        proof {
            assert(r@.events =~= Seq::<EventV>::empty());
        }
        r
    }

    pub fn get_owner(&self) -> (r: &str)
        ensures
            r@ == self@.owner,
    {
        self.owner.as_str()
    }

    pub fn get_name(&self) -> (r: &str)
        ensures
            r@ == self@.name,
    {
        self.name.as_str()
    }

    /// How many events the store holds.
    pub fn get_size(&self) -> (r: usize)
        ensures
            r == self@.events.len(),
    {
        self.events.len()
    }

    pub fn set_owner(&mut self, s: &str)
        ensures
            final(self)@ == (CalendarV { owner: s@, ..old(self)@ }),
    {
        self.owner = s.to_owned();
        proof {
            assert(self@.events =~= old(self)@.events);
        }
    }

    pub fn set_name(&mut self, s: &str)
        ensures
            final(self)@ == (CalendarV { name: s@, ..old(self)@ }),
    {
        self.name = s.to_owned();
        proof {
            assert(self@.events =~= old(self)@.events);
        }
    }

    /// Empties the store unconditionally.
    pub fn clear(&mut self)
        ensures
            final(self)@ == (CalendarV { events: Seq::<EventV>::empty(), ..old(self)@ }),
            final(self)@.wf(),
    {
        self.events.clear();
        proof {
            assert(self@.events =~= Seq::<EventV>::empty());
        }
    }

    /// The stored event with the given fingerprint, or `EventNotFound`.
    pub fn get_event(&self, eid: u64) -> (r: Result<&Event, CalendarError>)
        ensures
            (match r {
                Ok(e) => has_fp(self@.events, eid) && fingerprint_of(e@) == eid && (exists|i: int|
                    0 <= i < self@.events.len() && self@.events[i] == e@),
                Err(err) => !has_fp(self@.events, eid) && (err matches
                    CalendarError::EventNotFound(x) && x == eid),
            }),
    {
        let n = self.events.len();
        let mut i: usize = 0;
        while i < n
            invariant
                i <= n,
                n == self@.events.len(),
                self@.events.len() == self.events@.len(),
                forall|k: int|
                    0 <= k < i ==> fingerprint_of(#[trigger] self@.events[k]) != eid,
            decreases n - i,
        {
            let fp = self.events[i].fingerprint();
            proof {
                assert(self@.events[i as int] == self.events@[i as int]@);
            }
            if fp == eid {
                return Ok(&self.events[i]);
            }
            i = i + 1;
        }
        Err(CalendarError::EventNotFound(eid))
    }

    /// Removes the event with the given fingerprint and hands it back, or
    /// reports `EventNotFound`; exactly one of the two happens, according to
    /// whether the fingerprint is present.
    #[verifier::rlimit(100)]
    pub fn remove_event(&mut self, eid: u64) -> (r: Result<Event, CalendarError>)
        requires
            old(self)@.wf(),
        ensures
            final(self)@.wf(),
            final(self)@.owner == old(self)@.owner,
            final(self)@.name == old(self)@.name,
            (match r {
                Ok(e) => has_fp(old(self)@.events, eid) && fingerprint_of(e@) == eid
                    && (exists|i: int|
                    0 <= i < old(self)@.events.len() && old(self)@.events[i] == e@
                        && final(self)@.events == old(self)@.events.remove(i)),
                Err(err) => !has_fp(old(self)@.events, eid) && final(self)@ == old(self)@ && (err
                    matches CalendarError::EventNotFound(x) && x == eid),
            }),
    {
        let n = self.events.len();
        let mut i: usize = 0;
        while i < n
            invariant
                i <= n,
                n == self@.events.len(),
                self@ == old(self)@,
                old(self)@.wf(),
                forall|k: int|
                    0 <= k < i ==> fingerprint_of(#[trigger] self@.events[k]) != eid,
            decreases n - i,
        {
            let fp = self.events[i].fingerprint();
            proof {
                assert(self@.events[i as int] == self.events@[i as int]@);
            }
            if fp == eid {
                let e = self.events.remove(i);
                proof {
                    assert(self@.events =~= old(self)@.events.remove(i as int));
                    old(self)@.events.remove_ensures(i as int);
                    assert forall|k: int| 0 <= k < self@.events.len() implies (
                    #[trigger] self@.events[k]).ok() by {
                        if k < i {
                            assert(self@.events[k] == old(self)@.events[k]);
                            assert(old(self)@.events[k].ok());
                        } else {
                            assert(self@.events[k] == old(self)@.events[k + 1]);
                            assert(old(self)@.events[k + 1].ok());
                        }
                    };
                    assert forall|a: int, b: int|
                        0 <= a < b < self@.events.len() implies fingerprint_of(self@.events[a])
                        != fingerprint_of(self@.events[b]) by {
                        let fa = if a < i {
                            a
                        } else {
                            a + 1
                        };
                        let fb = if b < i {
                            b
                        } else {
                            b + 1
                        };
                        assert(self@.events[a] == old(self)@.events[fa]);
                        assert(self@.events[b] == old(self)@.events[fb]);
                        assert(fingerprint_of(old(self)@.events[fa]) != fingerprint_of(
                            old(self)@.events[fb],
                        ));
                    };
                }
                return Ok(e);
            }
            i = i + 1;
        }
        Err(CalendarError::EventNotFound(eid))
    }

    /// Inserts an event under its content fingerprint. An event whose
    /// fingerprint is already present is refused and the store is untouched;
    /// anything else is appended. The caller is told which happened.
    #[verifier::rlimit(100)]
    pub fn add_event(&mut self, ev: Event) -> (r: bool)
        requires
            old(self)@.wf(),
            ev@.ok(),
        ensures
            final(self)@.wf(),
            final(self)@.owner == old(self)@.owner,
            final(self)@.name == old(self)@.name,
            (r, final(self)@.events) == insert_model(old(self)@.events, ev@),
    {
        let fp = ev.fingerprint();
        let n = self.events.len();
        let mut i: usize = 0;
        while i < n
            invariant
                i <= n,
                n == self@.events.len(),
                self@ == old(self)@,
                old(self)@.wf(),
                fp == fingerprint_of(ev@),
                forall|k: int|
                    0 <= k < i ==> fingerprint_of(#[trigger] self@.events[k]) != fp,
            decreases n - i,
        {
            let efp = self.events[i].fingerprint();
            proof {
                assert(self@.events[i as int] == self.events@[i as int]@);
            }
            if efp == fp {
                proof {
                    assert(fingerprint_of(old(self)@.events[i as int]) == fp);
                    assert(has_fp(old(self)@.events, fp));
                    assert(self@.wf());
                }
                return false;
            }
            i = i + 1;
        }
        self.events.push(ev);
        proof {
            assert(self@.events =~= old(self)@.events.push(ev@));
            let m = old(self)@.events.len() as int;
            assert forall|k: int| 0 <= k < self@.events.len() implies (
            #[trigger] self@.events[k]).ok() by {
                if k < m {
                    assert(self@.events[k] == old(self)@.events[k]);
                    assert(old(self)@.events[k].ok());
                } else {
                    assert(self@.events[k] == ev@);
                }
            };
            assert forall|a: int, b: int|
                0 <= a < b < self@.events.len() implies fingerprint_of(self@.events[a])
                != fingerprint_of(self@.events[b]) by {
                assert(self@.events[a] == old(self)@.events[a]);
                if b < m {
                    assert(self@.events[b] == old(self)@.events[b]);
                } else {
                    assert(self@.events[b] == ev@);
                    assert(fingerprint_of(old(self)@.events[a]) != fp);
                }
            };
            assert(!has_fp(old(self)@.events, fp));
        }
        true
    }
}

impl Default for Calendar {
    /// An empty calendar named "default" and owned by "default".
    fn default() -> (r: Calendar)
        ensures
            r@.owner == "default"@,
            r@.name == "default"@,
            r@.events == Seq::<EventV>::empty(),
            r@.wf(),
    {
        Calendar::new("default", "default")
    }
}

} // verus!

verus! {

/// The events of the store, in order, that carry the given tag.
pub open spec fn tagged(events: Seq<EventV>, tag: Seq<char>) -> Seq<EventV>
    decreases events.len(),
{
    if events.len() == 0 {
        Seq::empty()
    } else {
        tagged(events.drop_last(), tag) + (if events.last().metadata.tags.contains(tag) {
            seq![events.last()]
        } else {
            Seq::empty()
        })
    }
}

/// The fingerprints of the stored events, in order, that overlap `e`.
pub open spec fn warn_fps(events: Seq<EventV>, e: EventV) -> Seq<u64>
    decreases events.len(),
{
    if events.len() == 0 {
        Seq::empty()
    } else {
        warn_fps(events.drop_last(), e) + (if overlaps_spec(events.last(), e) {
            seq![fingerprint_of(events.last())]
        } else {
            Seq::empty()
        })
    }
}

impl Calendar {
    /// Copies of every stored event whose tag set contains an exact,
    /// case-sensitive match of `tag`; recurrence is not expanded here.
    pub fn list_events_tagged(&self, tag: String) -> (r: Vec<Event>)
        ensures
            views_of(r@) == tagged(self@.events, tag@),
    {
        let n = self.events.len();
        let mut out: Vec<Event> = Vec::new();
        let mut i: usize = 0;
        while i < n
            invariant
                i <= n,
                n == self@.events.len(),
                self@.events.len() == self.events@.len(),
                views_of(out@) == tagged(self@.events.subrange(0, i as int), tag@),
            decreases n - i,
        {
            let ghost pre = self@.events.subrange(0, i as int);
            let ghost cur = self@.events.subrange(0, i + 1);
            proof {
                assert(cur.drop_last() =~= pre);
                assert(cur.last() == self@.events[i as int]);
                assert(self@.events[i as int] == self.events@[i as int]@);
            }
            if self.events[i].has_tag(&tag) {
                let c = self.events[i].clone();
                out.push(c);
                proof {
                    assert(views_of(out@) =~= tagged(cur, tag@));
                }
            } else {
                proof {
                    assert(views_of(out@) =~= tagged(cur, tag@));
                }
            }
            i = i + 1;
        }
        proof {
            assert(self@.events.subrange(0, n as int) =~= self@.events);
        }
        out
    }

    /// The fingerprints of the stored events that overlap the given one: the
    /// warnings an insert would raise. Advisory only; insertion never blocks
    /// on it.
    pub fn overlap_warnings(&self, ev: &Event) -> (r: Vec<u64>)
        requires
            self@.wf(),
            ev@.ok(),
        ensures
            r@ == warn_fps(self@.events, ev@),
    {
        let n = self.events.len();
        let mut out: Vec<u64> = Vec::new();
        let mut i: usize = 0;
        while i < n
            invariant
                i <= n,
                n == self@.events.len(),
                self@.events.len() == self.events@.len(),
                self@.wf(),
                ev@.ok(),
                out@ == warn_fps(self@.events.subrange(0, i as int), ev@),
            decreases n - i,
        {
            let ghost pre = self@.events.subrange(0, i as int);
            let ghost cur = self@.events.subrange(0, i + 1);
            proof {
                assert(cur.drop_last() =~= pre);
                assert(cur.last() == self@.events[i as int]);
                assert(self@.events[i as int] == self.events@[i as int]@);
                assert(self@.events[i as int].ok());
            }
            if self.events[i].overlaps(ev) {
                let fp = self.events[i].fingerprint();
                out.push(fp);
                proof {
                    assert(out@ =~= warn_fps(cur, ev@));
                }
            } else {
                proof {
                    assert(out@ =~= warn_fps(cur, ev@));
                }
            }
            i = i + 1;
        }
        proof {
            assert(self@.events.subrange(0, n as int) =~= self@.events);
        }
        out
    }
}

} // verus!

verus! {

/// The earliest representable instant: the default lower window bound.
pub open spec fn dt_min() -> DateTime {
    DateTime { date: Date { year: 0, month: 1, day: 1 }, time: Time { hour: 0, minute: 0, second: 0 } }
}

/// The latest representable instant: the default upper window bound.
pub open spec fn dt_max() -> DateTime {
    DateTime {
        date: Date { year: 9999, month: 12, day: 31 },
        time: Time { hour: 23, minute: 59, second: 59 },
    }
}

/// The occurrence lies in the inclusive window `[from, until]`.
pub open spec fn in_window(occ: DateTime, from: DateTime, until: DateTime) -> bool {
    dt_to_secs(from) <= dt_to_secs(occ) && dt_to_secs(occ) <= dt_to_secs(until)
}

/// The projections, in occurrence order, of the first `n` occurrences of one
/// event that fall in the window.
pub open spec fn event_projs_upto(e: EventV, from: DateTime, until: DateTime, n: int) -> Seq<EventV>
    decreases n,
{
    if n <= 0 {
        Seq::empty()
    } else {
        event_projs_upto(e, from, until, n - 1) + (if in_window(e.occurrence(n - 1), from, until) {
            seq![e.projected(e.occurrence(n - 1))]
        } else {
            Seq::empty()
        })
    }
}

/// All of one event's in-window projections.
pub open spec fn event_projs(e: EventV, from: DateTime, until: DateTime) -> Seq<EventV> {
    event_projs_upto(e, from, until, e.occ_count())
}

/// Every in-window projection of every stored event, store order outside,
/// occurrence order inside.
pub open spec fn all_projs(events: Seq<EventV>, from: DateTime, until: DateTime) -> Seq<EventV>
    decreases events.len(),
{
    if events.len() == 0 {
        Seq::empty()
    } else {
        all_projs(events.drop_last(), from, until) + event_projs(events.last(), from, until)
    }
}

/// Non-decreasing by (date, time) of the start.
pub open spec fn sorted_by_start(s: Seq<EventV>) -> bool {
    forall|i: int, j: int| 0 <= i <= j < s.len() ==> dt_lex_le(s[i].start(), s[j].start())
}

/// Inserts an event into a start-sorted vector, keeping it sorted; the events
/// as a multiset gain exactly the new one.
#[verifier::rlimit(100)]
fn insert_sorted(out: &mut Vec<Event>, x: Event)
    requires
        sorted_by_start(views_of(old(out)@)),
        forall|i: int| 0 <= i < old(out)@.len() ==> (#[trigger] old(out)@[i]@).wf(),
        x@.wf(),
    ensures
        sorted_by_start(views_of(final(out)@)),
        forall|i: int| 0 <= i < final(out)@.len() ==> (#[trigger] final(out)@[i]@).wf(),
        views_of(final(out)@).to_multiset() == views_of(old(out)@).to_multiset().insert(x@),
{
    let xs = x.start_dt();
    let n = out.len();
    let mut p: usize = 0;
    loop
        invariant_except_break
            p <= n,
        invariant
            n == out@.len(),
            out@ == old(out)@,
            xs == x@.start(),
            x@.wf(),
            sorted_by_start(views_of(out@)),
            forall|i: int| 0 <= i < out@.len() ==> (#[trigger] out@[i]@).wf(),
            forall|k: int|
                0 <= k < p ==> dt_lex_le((#[trigger] views_of(out@)[k]).start(), x@.start()),
        ensures
            p <= out@.len(),
            forall|k: int|
                0 <= k < p ==> dt_lex_le((#[trigger] views_of(out@)[k]).start(), x@.start()),
            p < out@.len() ==> !dt_lex_le(views_of(out@)[p as int].start(), x@.start()),
        decreases n - p,
    {
        if p == n {
            break ;
        }
        let os = out[p].start_dt();
        proof {
            assert(views_of(out@)[p as int] == out@[p as int]@);
            assert(out@[p as int]@.wf());
        }
        if !dt_le(&os, &xs) {
            proof {
                crate::date::lemma_secs_order_is_lex_order(os, xs);
            }
            break ;
        }
        p = p + 1;
    }
    let ghost before = views_of(out@);
    out.insert(p, x);
    proof {
        assert(views_of(out@) =~= before.insert(p as int, x@));
        vstd::seq_lib::to_multiset_insert(before, p as int, x@);
        let s = views_of(out@);
        assert forall|i: int, j: int| 0 <= i <= j < s.len() implies dt_lex_le(
            s[i].start(),
            s[j].start(),
        ) by {
            let a = if i < p {
                i
            } else {
                i - 1
            };
            let b = if j < p {
                j
            } else {
                j - 1
            };
            if i == j {
                crate::date::lemma_secs_order_is_lex_order(s[i].start(), s[i].start());
            } else if j < p || i > p {
                assert(s[i] == before[a] && s[j] == before[b]);
            } else if i == p && j > p {
                assert(s[j] == before[b]);
                assert(!dt_lex_le(before[p as int].start(), x@.start()));
                crate::date::lemma_secs_order_is_lex_order(before[p as int].start(), x@.start());
                crate::date::lemma_secs_order_is_lex_order(x@.start(), before[b].start());
                crate::date::lemma_secs_order_is_lex_order(before[p as int].start(), before[b].start());
            } else if i < p && j == p {
                assert(s[i] == before[a]);
            } else {
                // i < p < j or i == p == j handled; remaining: i < p, j > p
                assert(s[i] == before[a] && s[j] == before[b]);
                assert(dt_lex_le(before[a].start(), x@.start()));
                assert(!dt_lex_le(before[p as int].start(), x@.start()));
                crate::date::lemma_secs_order_is_lex_order(before[a].start(), x@.start());
                crate::date::lemma_secs_order_is_lex_order(x@.start(), before[b].start());
                crate::date::lemma_secs_order_is_lex_order(before[p as int].start(), x@.start());
                crate::date::lemma_secs_order_is_lex_order(before[p as int].start(), before[b].start());
                crate::date::lemma_secs_order_is_lex_order(before[a].start(), before[b].start());
            }
        };
    }
}

} // verus!

verus! {

/// Inserts every in-window projection of one event's occurrence list into a
/// start-sorted vector, keeping it sorted. As multisets, the vector gains
/// exactly the event's in-window projections.
#[verifier::rlimit(100)]
fn insert_event_occurrences(
    out: &mut Vec<Event>,
    ev: &Event,
    occs: &Vec<DateTime>,
    from_dt: &DateTime,
    until_dt: &DateTime,
    Ghost(base): Ghost<Seq<EventV>>,
)
    requires
        from_dt.wf(),
        until_dt.wf(),
        ev@.wf(),
        occs@.len() == ev@.occ_count(),
        forall|l: int|
            0 <= l < occs@.len() ==> #[trigger] occs@[l] == ev@.occurrence(l) && occs@[l].wf(),
        sorted_by_start(views_of(old(out)@)),
        forall|k: int| 0 <= k < old(out)@.len() ==> (#[trigger] old(out)@[k]@).wf(),
        views_of(old(out)@).to_multiset() == base.to_multiset(),
    ensures
        sorted_by_start(views_of(final(out)@)),
        forall|k: int| 0 <= k < final(out)@.len() ==> (#[trigger] final(out)@[k]@).wf(),
        views_of(final(out)@).to_multiset() == (base + event_projs(
            ev@,
            *from_dt,
            *until_dt,
        )).to_multiset(),
{
    let ghost e = ev@;
    let m = occs.len();
    let mut j: usize = 0;
    proof {
        assert(base + event_projs_upto(e, *from_dt, *until_dt, 0) =~= base);
    }
    while j < m
        invariant
            j <= m,
            m == occs@.len(),
            m == e.occ_count(),
            e == ev@,
            from_dt.wf(),
            until_dt.wf(),
            e.wf(),
            forall|l: int|
                0 <= l < occs@.len() ==> #[trigger] occs@[l] == e.occurrence(l) && occs@[l].wf(),
            sorted_by_start(views_of(out@)),
            forall|k: int| 0 <= k < out@.len() ==> (#[trigger] out@[k]@).wf(),
            views_of(out@).to_multiset() == (base + event_projs_upto(
                e,
                *from_dt,
                *until_dt,
                j as int,
            )).to_multiset(),
        decreases m - j,
    {
        let occ = occs[j];
        let ghost done = base + event_projs_upto(e, *from_dt, *until_dt, j as int);
        if dt_le(from_dt, &occ) && dt_le(&occ, until_dt) {
            let c = ev.project(occ);
            proof {
                assert(c@ == e.projected(e.occurrence(j as int)));
                assert(c@.wf());
            }
            insert_sorted(out, c);
            proof {
                let pj = e.projected(e.occurrence(j as int));
                assert(event_projs_upto(e, *from_dt, *until_dt, j + 1) =~= event_projs_upto(
                    e,
                    *from_dt,
                    *until_dt,
                    j as int,
                ).push(pj));
                assert(base + event_projs_upto(e, *from_dt, *until_dt, j + 1) =~= done.push(pj));
                vstd::seq_lib::to_multiset_build(done, pj);
            }
        } else {
            proof {
                assert(event_projs_upto(e, *from_dt, *until_dt, j + 1) =~= event_projs_upto(
                    e,
                    *from_dt,
                    *until_dt,
                    j as int,
                ));
            }
        }
        j = j + 1;
    }
}

impl Calendar {
    /// Every stored event's occurrences falling in the inclusive window
    /// `[from, until]`, each materialized as a copy of the event with its
    /// start overwritten to the occurrence, sorted ascending by (date, time).
    /// A missing bound defaults to the earliest or latest representable
    /// instant. The stored events are untouched.
    #[verifier::rlimit(100)]
    pub fn list_events_between(&self, from: Option<DateTime>, until: Option<DateTime>) -> (r: Vec<
        Event,
    >)
        requires
            self@.wf(),
            (match from {
                Some(f) => f.wf(),
                None => true,
            }),
            (match until {
                Some(u) => u.wf(),
                None => true,
            }),
        ensures
            sorted_by_start(views_of(r@)),
            views_of(r@).to_multiset() == all_projs(
                self@.events,
                (match from {
                    Some(f) => f,
                    None => dt_min(),
                }),
                (match until {
                    Some(u) => u,
                    None => dt_max(),
                }),
            ).to_multiset(),
            forall|i: int| 0 <= i < r@.len() ==> (#[trigger] r@[i]@).wf(),
    {
        let from_dt = match from {
            Some(f) => f,
            None => DateTime {
                date: Date { year: 0, month: 1, day: 1 },
                time: Time { hour: 0, minute: 0, second: 0 },
            },
        };
        let until_dt = match until {
            Some(u) => u,
            None => DateTime {
                date: Date { year: 9999, month: 12, day: 31 },
                time: Time { hour: 23, minute: 59, second: 59 },
            },
        };
        let n = self.events.len();
        let mut out: Vec<Event> = Vec::new();
        let mut i: usize = 0;
        proof {
            assert(views_of(out@) =~= Seq::<EventV>::empty());
            assert(all_projs(self@.events.subrange(0, 0), from_dt, until_dt) =~= Seq::<
                EventV,
            >::empty());
        }
        while i < n
            invariant
                i <= n,
                n == self@.events.len(),
                self@.events.len() == self.events@.len(),
                self@.wf(),
                from_dt.wf(),
                until_dt.wf(),
                from_dt == (match from {
                    Some(f) => f,
                    None => dt_min(),
                }),
                until_dt == (match until {
                    Some(u) => u,
                    None => dt_max(),
                }),
                sorted_by_start(views_of(out@)),
                forall|k: int| 0 <= k < out@.len() ==> (#[trigger] out@[k]@).wf(),
                views_of(out@).to_multiset() == all_projs(
                    self@.events.subrange(0, i as int),
                    from_dt,
                    until_dt,
                ).to_multiset(),
            decreases n - i,
        {
            let ghost pre = self@.events.subrange(0, i as int);
            let ghost cur = self@.events.subrange(0, i + 1);
            let ghost e = self@.events[i as int];
            let ghost pre_projs = all_projs(pre, from_dt, until_dt);
            proof {
                assert(cur.drop_last() =~= pre);
                assert(cur.last() == e);
                assert(self@.events[i as int] == self.events@[i as int]@);
                assert(e.ok());
            }
            let occs = match self.events[i].get_recurrence() {
                Some(rec) => {
                    let d = self.events[i].get_start_date();
                    let t = self.events[i].get_start_time();
                    proof {
                        assert((DateTime { date: d, time: t }) == e.start());
                    }
                    expand_recurrence(rec, &d, &t)
                },
                None => {
                    let mut v: Vec<DateTime> = Vec::new();
                    v.push(self.events[i].start_dt());
                    proof {
                        assert(e.occ_count() == 1);
                        assert(v@[0] == e.occurrence(0));
                    }
                    v
                },
            };
            proof {
                assert(occs@.len() == e.occ_count());
                assert(forall|l: int|
                    0 <= l < occs@.len() ==> #[trigger] occs@[l] == e.occurrence(l)
                        && occs@[l].wf());
                assert(views_of(out@).to_multiset() == pre_projs.to_multiset());
            }
            insert_event_occurrences(
                &mut out,
                &self.events[i],
                &occs,
                &from_dt,
                &until_dt,
                Ghost(pre_projs),
            );
            proof {
                assert(all_projs(cur, from_dt, until_dt) == pre_projs + event_projs(
                    e,
                    from_dt,
                    until_dt,
                ));
                assert(self@.events.subrange(0, i + 1) == cur);
            }
            i = i + 1;
        }
        proof {
            assert(self@.events.subrange(0, n as int) =~= self@.events);
        }
        out
    }
}

} // verus!

verus! {

/// The query window is inclusive at both ends: an occurrence exactly at
/// `from`, or exactly at `until`, lies in the window.
pub proof fn lemma_window_inclusive(from: DateTime, until: DateTime)
    requires
        dt_to_secs(from) <= dt_to_secs(until),
    ensures
        in_window(from, from, until),
        in_window(until, from, until),
{
}

/// How many occurrences one event contributes: its repetitions plus one.
pub open spec fn total_occs(events: Seq<EventV>) -> int
    decreases events.len(),
{
    if events.len() == 0 {
        0int
    } else {
        total_occs(events.drop_last()) + events.last().occ_count()
    }
}

impl Calendar {
    /// Copies of every stored event, in store order.
    pub fn all_events(&self) -> (r: Vec<Event>)
        ensures
            views_of(r@) == self@.events,
    {
        let n = self.events.len();
        let mut out: Vec<Event> = Vec::new();
        let mut i: usize = 0;
        while i < n
            invariant
                i <= n,
                n == self@.events.len(),
                self@.events.len() == self.events@.len(),
                out@.len() == i,
                forall|k: int| 0 <= k < i ==> #[trigger] out@[k]@ == self@.events[k],
            decreases n - i,
        {
            let c = self.events[i].clone();
            proof {
                assert(self@.events[i as int] == self.events@[i as int]@);
            }
            out.push(c);
            i = i + 1;
        }
        proof {
            assert(views_of(out@) =~= self@.events);
        }
        out
    }

    /// How many concrete occurrences the store's events project to in all:
    /// each event counts its repetitions plus one. Saturates at the largest
    /// machine count.
    pub fn total_occurrences(&self) -> (r: usize)
        ensures
            r == (if total_occs(self@.events) <= usize::MAX {
                total_occs(self@.events)
            } else {
                usize::MAX as int
            }),
    {
        let n = self.events.len();
        let mut acc: usize = 0;
        let mut i: usize = 0;
        while i < n
            invariant
                i <= n,
                n == self@.events.len(),
                self@.events.len() == self.events@.len(),
                acc == (if total_occs(self@.events.subrange(0, i as int)) <= usize::MAX {
                    total_occs(self@.events.subrange(0, i as int))
                } else {
                    usize::MAX as int
                }),
            decreases n - i,
        {
            let ghost pre = self@.events.subrange(0, i as int);
            let ghost cur = self@.events.subrange(0, i + 1);
            proof {
                assert(cur.drop_last() =~= pre);
                assert(cur.last() == self@.events[i as int]);
                assert(self@.events[i as int] == self.events@[i as int]@);
                lemma_total_occs_nonneg(pre);
            }
            let add_count: usize = match self.events[i].get_recurrence() {
                Some(rec) => {
                    let reps = rec.repetitions();
                    if reps < usize::MAX {
                        reps + 1
                    } else {
                        usize::MAX
                    }
                },
                None => 1,
            };
            proof {
                assert(add_count as int == (if self@.events[i as int].occ_count() <= usize::MAX {
                    self@.events[i as int].occ_count()
                } else {
                    usize::MAX as int
                }));
            }
            acc = match acc.checked_add(add_count) {
                Some(v) => v,
                None => usize::MAX,
            };
            i = i + 1;
        }
        proof {
            assert(self@.events.subrange(0, n as int) =~= self@.events);
        }
        acc
    }
}

proof fn lemma_total_occs_nonneg(events: Seq<EventV>)
    ensures
        total_occs(events) >= 0,
    decreases events.len(),
{
    if events.len() > 0 {
        lemma_total_occs_nonneg(events.drop_last());
    }
}

} // verus!

verus! {

proof fn lemma_event_projs_upto_contains(
    e: EventV,
    from: DateTime,
    until: DateTime,
    j: int,
    n: int,
)
    requires
        0 <= j < n,
        in_window(e.occurrence(j), from, until),
    ensures
        event_projs_upto(e, from, until, n).contains(e.projected(e.occurrence(j))),
    decreases n,
{
    let pj = e.projected(e.occurrence(j));
    let pre = event_projs_upto(e, from, until, n - 1);
    if j == n - 1 {
        assert(event_projs_upto(e, from, until, n)[pre.len() as int] == pj);
    } else {
        lemma_event_projs_upto_contains(e, from, until, j, n - 1);
        let k = choose|k: int| 0 <= k < pre.len() && pre[k] == pj;
        assert(event_projs_upto(e, from, until, n)[k] == pj);
    }
}

proof fn lemma_all_projs_contains(
    events: Seq<EventV>,
    from: DateTime,
    until: DateTime,
    i: int,
    x: EventV,
)
    requires
        0 <= i < events.len(),
        event_projs(events[i], from, until).contains(x),
    ensures
        all_projs(events, from, until).contains(x),
    decreases events.len(),
{
    let pre = all_projs(events.drop_last(), from, until);
    if i == events.len() - 1 {
        assert(events.last() == events[i]);
        let k = choose|k: int|
            0 <= k < event_projs(events[i], from, until).len() && event_projs(
                events[i],
                from,
                until,
            )[k] == x;
        assert(all_projs(events, from, until)[pre.len() + k] == x);
    } else {
        assert(events.drop_last()[i] == events[i]);
        lemma_all_projs_contains(events.drop_last(), from, until, i, x);
        let k = choose|k: int| 0 <= k < pre.len() && pre[k] == x;
        assert(all_projs(events, from, until)[k] == x);
    }
}

/// The inclusive window applies to expanded occurrences too: when an
/// occurrence of a stored event falls exactly on `from` or exactly on `until`
/// of a non-empty window, its projection is among the window's projections —
/// and so, through `list_events_between`'s multiset equality, in every query
/// result.
pub proof fn lemma_boundary_occurrence_kept(
    events: Seq<EventV>,
    from: DateTime,
    until: DateTime,
    i: int,
    j: int,
)
    requires
        dt_to_secs(from) <= dt_to_secs(until),
        0 <= i < events.len(),
        0 <= j < events[i].occ_count(),
        dt_to_secs(events[i].occurrence(j)) == dt_to_secs(from) || dt_to_secs(
            events[i].occurrence(j),
        ) == dt_to_secs(until),
    ensures
        all_projs(events, from, until).contains(events[i].projected(events[i].occurrence(j))),
{
    lemma_event_projs_upto_contains(events[i], from, until, j, events[i].occ_count());
    lemma_all_projs_contains(
        events,
        from,
        until,
        i,
        events[i].projected(events[i].occurrence(j)),
    );
}

} // verus!
