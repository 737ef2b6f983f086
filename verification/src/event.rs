//! The event model: repeat rules (cadence, repetitions, interval), the text
//! grammar `"<cadence-name> <repetitions> [interval]"` that produces them, and
//! the events themselves with their content fingerprint and overlap test.

use vstd::prelude::*;

use crate::date::Date;
use crate::date::DateTime;
use crate::date::Time;
use crate::date::days_in_month;
use crate::date::add_months_spec;
use crate::date::dt_from_secs;
use crate::date::dt_to_secs;
use crate::date::month_index;
use crate::date::spec_max_month_index;
use crate::date::spec_max_secs;

verus! {

/// The unit of repetition of a recurring event.
#[derive(Debug, Clone, Copy, PartialEq, Eq, Structural, Hash)]
pub enum Cadence {
    Secondly,
    Minutely,
    Hourly,
    Daily,
    Weekly,
    Monthly,
    Yearly,
}

/// Why a piece of recurrence text was rejected.
#[derive(Debug)]
pub enum ParseRecurrenceError {
    UnknownCadence(String),
    BadFormat(String),
}

/// A repeat rule: `repetitions` further occurrences, one every `interval`
/// (default 1) steps of `cadence`.
#[derive(Debug, Clone, Copy, PartialEq, Eq, Hash)]
pub struct Recurrence {
    pub cadence: Cadence,
    pub repetitions: usize,
    pub interval: Option<usize>,
}

impl Recurrence {
    pub fn cadence(&self) -> (r: &Cadence)
        ensures
            r == self.cadence,
    {
        &self.cadence
    }

    pub fn repetitions(&self) -> (r: usize)
        ensures
            r == self.repetitions,
    {
        self.repetitions
    }

    pub fn interval(&self) -> (r: Option<usize>)
        ensures
            r == self.interval,
    {
        self.interval
    }

    pub fn set_cadence(&mut self, new_cad: Cadence)
        ensures
            *final(self) == (Recurrence { cadence: new_cad, ..*old(self) }),
    {
        self.cadence = new_cad;
    }

    pub fn set_repetitions(&mut self, new_repeat: usize)
        ensures
            *final(self) == (Recurrence { repetitions: new_repeat, ..*old(self) }),
    {
        self.repetitions = new_repeat;
    }

    pub fn set_interval(&mut self, new_interval: Option<usize>)
        ensures
            *final(self) == (Recurrence { interval: new_interval, ..*old(self) }),
    {
        self.interval = new_interval;
    }

    /// The multiplier applied to every step: `interval`, defaulting to 1.
    /// The grammar only produces positive intervals; a zero interval (which
    /// `set_interval` can still store) makes every occurrence the anchor.
    pub open spec fn step(self) -> int {
        match self.interval {
            Some(v) => v as int,
            None => 1,
        }
    }
}

impl Default for Recurrence {
    /// A placeholder rule: weekly with no further occurrence.
    fn default() -> (r: Self)
        ensures
            r == (Recurrence { cadence: Cadence::Weekly, repetitions: 0, interval: None }),
    {
        Recurrence { cadence: Cadence::Weekly, repetitions: 0, interval: None }
    }
}

// ---------------------------------------------------------------------------
// Recurrence text: `"<cadence-name> <repetitions> [interval]"`.
// ---------------------------------------------------------------------------
pub open spec fn is_ascii_ws(c: char) -> bool {
    c == ' ' || c == '\t' || c == '\n' || c == '\r' || c == '\u{c}'
}

/// The first index at or after `i` holding a non-whitespace character, or the
/// text's length.
pub open spec fn next_non_ws(s: Seq<char>, i: int) -> int
    decreases s.len() - i,
{
    if i < 0 || i >= s.len() {
        s.len() as int
    } else if is_ascii_ws(s[i]) {
        next_non_ws(s, i + 1)
    } else {
        i
    }
}

/// The first index at or after `i` holding a whitespace character, or the
/// text's length.
pub open spec fn end_of_word(s: Seq<char>, i: int) -> int
    decreases s.len() - i,
{
    if i < 0 || i >= s.len() {
        s.len() as int
    } else if !is_ascii_ws(s[i]) {
        end_of_word(s, i + 1)
    } else {
        i
    }
}

pub proof fn lemma_next_non_ws_bounds(s: Seq<char>, i: int)
    requires
        0 <= i <= s.len(),
    ensures
        i <= next_non_ws(s, i) <= s.len(),
        next_non_ws(s, i) < s.len() ==> !is_ascii_ws(s[next_non_ws(s, i)]),
    decreases s.len() - i,
{
    if i < s.len() && is_ascii_ws(s[i]) {
        lemma_next_non_ws_bounds(s, i + 1);
    }
}

pub proof fn lemma_end_of_word_bounds(s: Seq<char>, i: int)
    requires
        0 <= i <= s.len(),
    ensures
        i <= end_of_word(s, i) <= s.len(),
        i < s.len() && !is_ascii_ws(s[i]) ==> end_of_word(s, i) > i,
    decreases s.len() - i,
{
    if i < s.len() && !is_ascii_ws(s[i]) {
        lemma_end_of_word_bounds(s, i + 1);
    }
}

/// The whitespace-separated words of `s` from position `i` on.
pub open spec fn tokens_from(s: Seq<char>, i: int) -> Seq<Seq<char>>
    decreases s.len() - i,
        when 0 <= i <= s.len()
        via tokens_from_dec
{
    let j = next_non_ws(s, i);
    if j >= s.len() {
        Seq::empty()
    } else {
        seq![s.subrange(j, end_of_word(s, j))] + tokens_from(s, end_of_word(s, j))
    }
}

#[via_fn]
proof fn tokens_from_dec(s: Seq<char>, i: int) {
    lemma_next_non_ws_bounds(s, i);
    let j = next_non_ws(s, i);
    if j < s.len() {
        lemma_end_of_word_bounds(s, j);
    }
}

/// The whitespace-separated words of `s`.
pub open spec fn tokens(s: Seq<char>) -> Seq<Seq<char>> {
    tokens_from(s, 0)
}

pub open spec fn is_digit(c: char) -> bool {
    48 <= c as u32 <= 57
}

pub open spec fn digit_val(c: char) -> int {
    c as u32 - 48
}

pub open spec fn all_digits(w: Seq<char>) -> bool {
    forall|i: int| 0 <= i < w.len() ==> is_digit(w[i])
}

/// The value of a string of decimal digits.
pub open spec fn digits_val(w: Seq<char>) -> int
    decreases w.len(),
{
    if w.len() == 0 {
        0
    } else {
        digits_val(w.drop_last()) * 10 + digit_val(w.last())
    }
}

/// What `str::parse::<usize>` accepts: an optional leading `+`, then one or
/// more decimal digits, valued within the type's range.
pub open spec fn parse_usize_spec(w: Seq<char>) -> Option<usize> {
    let body = if w.len() > 0 && w[0] == '+' {
        w.subrange(1, w.len() as int)
    } else {
        w
    };
    if body.len() > 0 && all_digits(body) && digits_val(body) <= usize::MAX {
        Some(digits_val(body) as usize)
    } else {
        None
    }
}

proof fn lemma_digits_val_nonneg(w: Seq<char>)
    requires
        all_digits(w),
    ensures
        digits_val(w) >= 0,
    decreases w.len(),
{
    if w.len() > 0 {
        assert(forall|i: int| 0 <= i < w.len() - 1 ==> is_digit(w.drop_last()[i]));
        lemma_digits_val_nonneg(w.drop_last());
    }
}

/// Appending digits never shrinks the value: every digit prefix is bounded by
/// the whole string's value.
proof fn lemma_digits_val_prefix_le(w: Seq<char>, k: int)
    requires
        all_digits(w),
        0 <= k <= w.len(),
    ensures
        digits_val(w.subrange(0, k)) <= digits_val(w),
    decreases w.len() - k,
{
    if k < w.len() {
        lemma_digits_val_prefix_le(w, k + 1);
        let p = w.subrange(0, k + 1);
        assert(p.drop_last() =~= w.subrange(0, k));
        assert(forall|i: int| 0 <= i < p.len() ==> is_digit(p[i]));
        lemma_digits_val_nonneg(w.subrange(0, k));
        assert(digits_val(p) == digits_val(w.subrange(0, k)) * 10 + digit_val(p.last()));
    } else {
        assert(w.subrange(0, k) =~= w);
    }
}

/// Parses an unsigned decimal integer exactly as `str::parse::<usize>` does.
pub fn parse_usize(s: &str) -> (r: Option<usize>)
    ensures
        r == parse_usize_spec(s@),
{
    let n = s.unicode_len();
    let mut i: usize = 0;
    if n > 0 && s.get_char(0) == '+' {
        i = 1;
    }
    let ghost body = if s@.len() > 0 && s@[0] == '+' {
        s@.subrange(1, s@.len() as int)
    } else {
        s@
    };
    proof {
        assert(body =~= s@.subrange(i as int, s@.len() as int));
    }
    if i == n {
        return None;
    }
    let start = i;
    let mut acc: usize = 0;
    while i < n
        invariant
            start <= i <= n,
            n == s@.len(),
            body == (if s@.len() > 0 && s@[0] == '+' {
                s@.subrange(1, s@.len() as int)
            } else {
                s@
            }),
            body == s@.subrange(start as int, s@.len() as int),
            all_digits(body.subrange(0, i - start)),
            acc == digits_val(body.subrange(0, i - start)),
        decreases n - i,
    {
        let c = s.get_char(i);
        if !('0' <= c && c <= '9') {
            proof {
                assert(body[i - start] == s@[i as int]);
                assert(!is_digit(body[i - start]));
                assert(!all_digits(body));
            }
            return None;
        }
        let d = (c as u32 - 48) as usize;
        let ghost pre = body.subrange(0, i - start);
        let ghost ext = body.subrange(0, i + 1 - start);
        proof {
            assert(ext.drop_last() =~= pre);
            assert(ext.last() == s@[i as int]);
        }
        let step = acc.checked_mul(10);
        match step {
            None => {
                proof {
                    assert(ext.last() == s@[i as int]);
                    assert(digits_val(ext) == acc * 10 + d);
                    if all_digits(body) {
                        lemma_digits_val_prefix_le(body, i + 1 - start);
                        assert(digits_val(body) >= digits_val(ext));
                        assert(digits_val(body) > usize::MAX);
                    }
                }
                return None;
            },
            Some(acc10) => {
                let full = acc10.checked_add(d);
                match full {
                    None => {
                        proof {
                            assert(ext.last() == s@[i as int]);
                            assert(digits_val(ext) == acc * 10 + d);
                            if all_digits(body) {
                                lemma_digits_val_prefix_le(body, i + 1 - start);
                                assert(digits_val(body) >= digits_val(ext));
                                assert(digits_val(body) > usize::MAX);
                            }
                        }
                        return None;
                    },
                    Some(v) => {
                        acc = v;
                    },
                }
            },
        }
        i = i + 1;
    }
    proof {
        assert(body.subrange(0, i - start) =~= body);
    }
    Some(acc)
}

} // verus!

verus! {

/// The cadence named by `w`: its Unicode lowercasing (see
/// [`crate::casefold::lower_of`]) must spell a cadence name.
pub open spec fn cadence_of(w: Seq<char>) -> Option<Cadence> {
    let low = crate::casefold::lower_of(w);
    if low == "secondly"@ {
        Some(Cadence::Secondly)
    } else if low == "minutely"@ {
        Some(Cadence::Minutely)
    } else if low == "hourly"@ {
        Some(Cadence::Hourly)
    } else if low == "daily"@ {
        Some(Cadence::Daily)
    } else if low == "weekly"@ {
        Some(Cadence::Weekly)
    } else if low == "monthly"@ {
        Some(Cadence::Monthly)
    } else if low == "yearly"@ {
        Some(Cadence::Yearly)
    } else {
        None
    }
}

fn eq_text(a: &String, b: &str) -> (r: bool)
    ensures
        r == (a@ == b@),
{
    let t = b.to_owned();
    *a == t
}

impl Cadence {
    /// Parses a cadence name, lowercased without regard to case, as the
    /// recurrence grammar asks.
    pub fn from_str(s: &str) -> (r: Result<Cadence, ParseRecurrenceError>)
        ensures
            match cadence_of(s@) {
                Some(c) => r == Ok::<Cadence, ParseRecurrenceError>(c),
                None => (r matches Err(ParseRecurrenceError::UnknownCadence(t)) && t@ == s@),
            },
    {
        let low = crate::casefold::lowercase(s);
        if eq_text(&low, "secondly") {
            Ok(Cadence::Secondly)
        } else if eq_text(&low, "minutely") {
            Ok(Cadence::Minutely)
        } else if eq_text(&low, "hourly") {
            Ok(Cadence::Hourly)
        } else if eq_text(&low, "daily") {
            Ok(Cadence::Daily)
        } else if eq_text(&low, "weekly") {
            Ok(Cadence::Weekly)
        } else if eq_text(&low, "monthly") {
            Ok(Cadence::Monthly)
        } else if eq_text(&low, "yearly") {
            Ok(Cadence::Yearly)
        } else {
            Err(ParseRecurrenceError::UnknownCadence(s.to_owned()))
        }
    }
}

fn skip_ws_x(s: &str, i: usize) -> (r: usize)
    requires
        i <= s@.len(),
    ensures
        r == next_non_ws(s@, i as int),
        i <= r <= s@.len(),
{
    proof {
        lemma_next_non_ws_bounds(s@, i as int);
    }
    let n = s.unicode_len();
    let mut j = i;
    while j < n
        invariant
            i <= j <= n,
            n == s@.len(),
            next_non_ws(s@, i as int) == next_non_ws(s@, j as int),
        decreases n - j,
    {
        let c = s.get_char(j);
        if !(c == ' ' || c == '\t' || c == '\n' || c == '\r' || c == '\u{c}') {
            return j;
        }
        j = j + 1;
    }
    n
}

fn word_end_x(s: &str, i: usize) -> (r: usize)
    requires
        i <= s@.len(),
    ensures
        r == end_of_word(s@, i as int),
        i <= r <= s@.len(),
{
    proof {
        lemma_end_of_word_bounds(s@, i as int);
    }
    let n = s.unicode_len();
    let mut j = i;
    while j < n
        invariant
            i <= j <= n,
            n == s@.len(),
            end_of_word(s@, i as int) == end_of_word(s@, j as int),
        decreases n - j,
    {
        let c = s.get_char(j);
        if c == ' ' || c == '\t' || c == '\n' || c == '\r' || c == '\u{c}' {
            return j;
        }
        j = j + 1;
    }
    n
}

/// The recurrence named by `s` under the grammar
/// `"<cadence-name> <repetitions> [interval]"`, with `repetitions` and
/// `interval` unsigned integers. Any other shape means "no recurrence": in
/// particular a third token that is no unsigned integer, a repetition count
/// of zero, and a zero interval (the multiplier must be positive).
pub open spec fn parse_recurrence_spec(s: Seq<char>) -> Option<Recurrence> {
    let ts = tokens(s);
    if ts.len() < 2 || ts.len() > 3 {
        None
    } else {
        match (cadence_of(ts[0]), parse_usize_spec(ts[1])) {
            (Some(c), Some(v)) => if v == 0 {
                None
            } else if ts.len() == 2 {
                Some(Recurrence { cadence: c, repetitions: v, interval: None })
            } else {
                match parse_usize_spec(ts[2]) {
                    Some(iv) => if iv == 0 {
                        None
                    } else {
                        Some(Recurrence { cadence: c, repetitions: v, interval: Some(iv) })
                    },
                    None => None,
                }
            },
            _ => None,
        }
    }
}

/// Parses recurrence text; see [`parse_recurrence_spec`] for the grammar.
pub fn parse_recurrence(s: &str) -> (r: Option<Recurrence>)
    ensures
        r == parse_recurrence_spec(s@),
{
    let n = s.unicode_len();
    let j1 = skip_ws_x(s, 0);
    if j1 == n {
        proof {
            reveal_with_fuel(tokens_from, 5);
            assert(tokens(s@).len() == 0);
        }
        return None;
    }
    let e1 = word_end_x(s, j1);
    let j2 = skip_ws_x(s, e1);
    if j2 == n {
        proof {
            reveal_with_fuel(tokens_from, 5);
            assert(tokens(s@) =~= seq![s@.subrange(j1 as int, e1 as int)]);
        }
        return None;
    }
    let e2 = word_end_x(s, j2);
    let j3 = skip_ws_x(s, e2);
    let mut three = false;
    let mut w3 = "";
    if j3 < n {
        let e3 = word_end_x(s, j3);
        let j4 = skip_ws_x(s, e3);
        if j4 < n {
            proof {
                reveal_with_fuel(tokens_from, 5);
                assert(tokens(s@).len() >= 4);
            }
            return None;
        }
        three = true;
        w3 = s.substring_char(j3, e3);
        proof {
            reveal_with_fuel(tokens_from, 5);
            assert(tokens(s@) =~= seq![
                s@.subrange(j1 as int, e1 as int),
                s@.subrange(j2 as int, e2 as int),
                s@.subrange(j3 as int, e3 as int),
            ]);
        }
    } else {
        proof {
            reveal_with_fuel(tokens_from, 5);
            assert(tokens(s@) =~= seq![
                s@.subrange(j1 as int, e1 as int),
                s@.subrange(j2 as int, e2 as int),
            ]);
        }
    }
    let w1 = s.substring_char(j1, e1);
    let w2 = s.substring_char(j2, e2);
    let cad = Cadence::from_str(w1);
    let repeat = parse_usize(w2);
    match (cad, repeat) {
        (Ok(c), Some(v)) => {
            if v == 0 {
                None
            } else if !three {
                Some(Recurrence { cadence: c, repetitions: v, interval: None })
            } else {
                match parse_usize(w3) {
                    Some(iv) => {
                        if iv == 0 {
                            None
                        } else {
                            Some(Recurrence { cadence: c, repetitions: v, interval: Some(iv) })
                        }
                    },
                    None => None,
                }
            }
        },
        _ => None,
    }
}

} // verus!

verus! {

/// A valid library date built from parsed parts, or `None` where the parts
/// name no date the library can hold.
pub open spec fn date_from_parts(y: i32, m: u32, d: u32) -> Option<Date> {
    if 0 <= y <= 9999 && 1 <= m <= 12 && 1 <= d <= days_in_month(y as int, m as int) {
        Some(Date { year: y as u16, month: m as u8, day: d as u8 })
    } else {
        None
    }
}

/// A valid library time built from parsed parts.
pub open spec fn time_from_parts(h: u32, mi: u32, s: u32) -> Option<Time> {
    if h < 24 && mi < 60 && s < 60 {
        Some(Time { hour: h as u8, minute: mi as u8, second: s as u8 })
    } else {
        None
    }
}

/// The accepted date formats, tried in order: `%d/%m/%Y`, then `%Y-%m-%d`;
/// the first successful parse wins.
pub open spec fn parsed_date_of(s: Seq<char>) -> Option<(i32, u32, u32)> {
    match crate::timeio::chrono_date_parse(s, "%d/%m/%Y"@) {
        Some(t) => Some(t),
        None => crate::timeio::chrono_date_parse(s, "%Y-%m-%d"@),
    }
}

/// The accepted time formats, tried in order: `%H:%M`, then `%H:%M:%S`.
pub open spec fn parsed_time_of(s: Seq<char>) -> Option<(u32, u32, u32)> {
    match crate::timeio::chrono_time_parse(s, "%H:%M"@) {
        Some(t) => Some(t),
        None => crate::timeio::chrono_time_parse(s, "%H:%M:%S"@),
    }
}

/// Tags and bookkeeping timestamps; none of it weighs on an event's identity
/// except the tags.
pub struct EventMetadata {
    tags: Vec<String>,
    creation: DateTime,
    modification: DateTime,
}

/// The mathematical value of an [`EventMetadata`].
pub ghost struct MetadataV {
    pub tags: Seq<Seq<char>>,
    pub creation: DateTime,
    pub modification: DateTime,
}

impl View for EventMetadata {
    type V = MetadataV;

    closed spec fn view(&self) -> MetadataV {
        MetadataV {
            tags: self.tags.deep_view(),
            creation: self.creation,
            modification: self.modification,
        }
    }
}

fn clone_strings(v: &Vec<String>) -> (r: Vec<String>)
    ensures
        r@ == v@,
        r.deep_view() == v.deep_view(),
{
    let mut out: Vec<String> = Vec::new();
    let mut i: usize = 0;
    while i < v.len()
        invariant
            i <= v@.len(),
            out@.len() == i,
            forall|k: int| 0 <= k < i ==> out@[k] == v@[k],
        decreases v@.len() - i,
    {
        let next = v[i].clone();
        out.push(next);
        i = i + 1;
    }
    proof {
        assert(out@ =~= v@);
    }
    out
}

impl EventMetadata {
    pub fn set_tags(&mut self, tags: Vec<String>)
        ensures
            final(self)@ == (MetadataV { tags: tags.deep_view(), ..old(self)@ }),
    {
        self.tags = tags;
    }

    pub fn get_tags(&self) -> (r: Vec<String>)
        ensures
            r.deep_view() == self@.tags,
    {
        clone_strings(&self.tags)
    }

    pub fn get_creation(&self) -> (r: DateTime)
        ensures
            r == self@.creation,
    {
        self.creation
    }
}

impl Default for EventMetadata {
    /// No tags; created and modified now.
    fn default() -> (r: Self)
        ensures
            r@.tags == Seq::<Seq<char>>::empty(),
            r@.creation.wf(),
            r@.modification.wf(),
    {
        let now = crate::timeio::now_datetime();
        let r = EventMetadata { tags: Vec::new(), creation: now, modification: now };
        proof {
            assert(r@.tags =~= Seq::<Seq<char>>::empty());
        }
        r
    }
}

impl Clone for EventMetadata {
    fn clone(&self) -> (r: Self)
        ensures
            r@ == self@,
    {
        EventMetadata {
            tags: clone_strings(&self.tags),
            creation: self.creation,
            modification: self.modification,
        }
    }
}

/// One scheduled item: what happens, when it starts, how long it lasts, where,
/// how it repeats, and its tags.
pub struct Event {
    title: String,
    description: String,
    start_date: Date,
    start_time: Time,
    duration: i64,
    location: String,
    recurrence: Option<Recurrence>,
    metadata: EventMetadata,
}

/// The mathematical value of an [`Event`]. `duration_secs` counts seconds.
pub ghost struct EventV {
    pub title: Seq<char>,
    pub description: Seq<char>,
    pub start_date: Date,
    pub start_time: Time,
    pub duration_secs: int,
    pub location: Seq<char>,
    pub recurrence: Option<Recurrence>,
    pub metadata: MetadataV,
}

impl View for Event {
    type V = EventV;

    closed spec fn view(&self) -> EventV {
        EventV {
            title: self.title@,
            description: self.description@,
            start_date: self.start_date,
            start_time: self.start_time,
            duration_secs: self.duration as int,
            location: self.location@,
            recurrence: self.recurrence,
            metadata: self.metadata@,
        }
    }
}

impl EventV {
    /// A valid event: its start is a real calendar date and time and its
    /// duration is a non-negative count of seconds.
    pub open spec fn wf(self) -> bool {
        self.start_date.wf() && self.start_time.wf() && self.duration_secs >= 0
    }

    /// The event's starting instant.
    pub open spec fn start(self) -> DateTime {
        DateTime { date: self.start_date, time: self.start_time }
    }
}

impl Clone for Event {
    fn clone(&self) -> (r: Self)
        ensures
            r@ == self@,
    {
        Event {
            title: self.title.clone(),
            description: self.description.clone(),
            start_date: self.start_date,
            start_time: self.start_time,
            duration: self.duration,
            location: self.location.clone(),
            recurrence: self.recurrence,
            metadata: self.metadata.clone(),
        }
    }
}

impl Event {
    /// Builds an event from text. Date and time text is tried against the
    /// accepted formats in order; on total parse failure — or when the first
    /// successful parse names a date outside the representable years 0 to
    /// 9999, reachable only with an explicitly signed year — the field falls
    /// back to the current date or time. Recurrence text that does not fit
    /// the grammar means "no recurrence". `dur` is the duration in seconds.
    pub fn new(
        event_title: &str,
        descr: &str,
        start_date: &str,
        start_time: &str,
        dur: i64,
        location: Option<&str>,
        recurr: Option<&str>,
        tags: Option<Vec<String>>,
    ) -> (r: Event)
        requires
            dur >= 0,
        ensures
            r@.wf(),
            r@.title == event_title@,
            r@.description == descr@,
            r@.duration_secs == dur,
            r@.location == (match location {
                Some(l) => l@,
                None => Seq::<char>::empty(),
            }),
            r@.recurrence == (match recurr {
                Some(t) => parse_recurrence_spec(t@),
                None => None::<Recurrence>,
            }),
            r@.metadata.tags == (match tags {
                Some(t) => t.deep_view(),
                None => Seq::<Seq<char>>::empty(),
            }),
            (match parsed_date_of(start_date@) {
                Some(t) => (match date_from_parts(t.0, t.1, t.2) {
                    Some(d) => r@.start_date == d,
                    None => true,
                }),
                None => true,
            }),
            (match parsed_time_of(start_time@) {
                Some(t) => (match time_from_parts(t.0, t.1, t.2) {
                    Some(tm) => r@.start_time == tm,
                    None => true,
                }),
                None => true,
            }),
    {
        let date = {
            let p1 = crate::timeio::parse_date_text(start_date, "%d/%m/%Y");
            let p = match p1 {
                Some(t) => Some(t),
                None => crate::timeio::parse_date_text(start_date, "%Y-%m-%d"),
            };
            match p {
                Some((y, m, d)) => {
                    let cand = if 0 <= y && y <= 9999 && 1 <= m && m <= 12 && 1 <= d && d <= 31 {
                        Date::new(y as u16, m as u8, d as u8)
                    } else {
                        None
                    };
                    match cand {
                        Some(dd) => dd,
                        None => crate::timeio::now_datetime().date,
                    }
                },
                None => crate::timeio::now_datetime().date,
            }
        };
        let time = {
            let p1 = crate::timeio::parse_time_text(start_time, "%H:%M");
            let p = match p1 {
                Some(t) => Some(t),
                None => crate::timeio::parse_time_text(start_time, "%H:%M:%S"),
            };
            match p {
                Some((h, mi, sec)) => {
                    let cand = if h < 24 && mi < 60 && sec < 60 {
                        Time::new(h as u8, mi as u8, sec as u8)
                    } else {
                        None
                    };
                    match cand {
                        Some(t) => t,
                        None => crate::timeio::now_datetime().time,
                    }
                },
                None => crate::timeio::now_datetime().time,
            }
        };
        let rec = match recurr {
            Some(val) => parse_recurrence(val),
            None => None,
        };
        let now = crate::timeio::now_datetime();
        let metadata = match tags {
            Some(t) => EventMetadata { tags: t, creation: now, modification: now },
            None => EventMetadata { tags: Vec::new(), creation: now, modification: now },
        };
        let r = Event {
            title: event_title.to_owned(),
            description: descr.to_owned(),
            start_date: date,
            start_time: time,
            duration: dur,
            location: match location {
                Some(loc) => loc.to_owned(),
                None => String::new(),
            },
            recurrence: rec,
            metadata,
        };
        proof {
            if tags is None {
                assert(r@.metadata.tags =~= Seq::<Seq<char>>::empty());
            }
        }
        r
    }

    pub fn set_title(&mut self, new_title: &str)
        ensures
            final(self)@ == (EventV { title: new_title@, ..old(self)@ }),
    {
        self.title = new_title.to_owned();
    }

    pub fn set_description(&mut self, new_descr: &str)
        ensures
            final(self)@ == (EventV { description: new_descr@, ..old(self)@ }),
    {
        self.description = new_descr.to_owned();
    }

    /// Sets the start date from a `(day, month, year)` triple, refusing any
    /// triple that names no date the library can hold.
    pub fn set_start_date(&mut self, d_m_y: (u32, u32, i32)) -> (r: bool)
        ensures
            (match date_from_parts(d_m_y.2, d_m_y.1, d_m_y.0) {
                Some(d) => r == true && final(self)@ == (EventV { start_date: d, ..old(self)@ }),
                None => r == false && final(self)@ == old(self)@,
            }),
    {
        let (d, m, y) = d_m_y;
        let cand = if 0 <= y && y <= 9999 && 1 <= m && m <= 12 && 1 <= d && d <= 31 {
            Date::new(y as u16, m as u8, d as u8)
        } else {
            None
        };
        match cand {
            Some(date) => {
                self.start_date = date;
                true
            },
            None => false,
        }
    }

    /// Sets the start time from an `(hour, minute, second)` triple, refusing
    /// out-of-range parts.
    pub fn set_start_time(&mut self, hms: (u32, u32, u32)) -> (r: bool)
        ensures
            (match time_from_parts(hms.0, hms.1, hms.2) {
                Some(t) => r == true && final(self)@ == (EventV { start_time: t, ..old(self)@ }),
                None => r == false && final(self)@ == old(self)@,
            }),
    {
        let (h, mi, s) = hms;
        let cand = if h < 24 && mi < 60 && s < 60 {
            Time::new(h as u8, mi as u8, s as u8)
        } else {
            None
        };
        match cand {
            Some(time) => {
                self.start_time = time;
                true
            },
            None => false,
        }
    }

    /// Sets the duration, in seconds.
    pub fn set_duration(&mut self, new_duration: i64)
        requires
            new_duration >= 0,
        ensures
            final(self)@ == (EventV { duration_secs: new_duration as int, ..old(self)@ }),
    {
        self.duration = new_duration;
    }

    pub fn set_location(&mut self, loc: &str)
        ensures
            final(self)@ == (EventV { location: loc@, ..old(self)@ }),
    {
        self.location = loc.to_owned();
    }

    /// Replaces the recurrence with whatever the text names; text outside the
    /// grammar means "no recurrence".
    pub fn set_recurrence(&mut self, rec: &str)
        ensures
            final(self)@ == (EventV { recurrence: parse_recurrence_spec(rec@), ..old(self)@ }),
    {
        self.recurrence = parse_recurrence(rec);
    }

    pub fn set_tags(&mut self, tags: Vec<String>)
        ensures
            final(self)@ == (EventV {
                metadata: MetadataV { tags: tags.deep_view(), ..old(self)@.metadata },
                ..old(self)@
            }),
    {
        self.metadata.set_tags(tags);
    }

    pub fn get_title(&self) -> (r: &str)
        ensures
            r@ == self@.title,
    {
        self.title.as_str()
    }

    pub fn get_description(&self) -> (r: &str)
        ensures
            r@ == self@.description,
    {
        self.description.as_str()
    }

    pub fn get_start_date(&self) -> (r: Date)
        ensures
            r == self@.start_date,
    {
        self.start_date
    }

    pub fn get_start_time(&self) -> (r: Time)
        ensures
            r == self@.start_time,
    {
        self.start_time
    }

    /// The duration of this event, in seconds.
    pub fn get_duration(&self) -> (r: i64)
        ensures
            r == self@.duration_secs,
    {
        self.duration
    }

    /// The location of this event; empty where none was given.
    pub fn get_location(&self) -> (r: &str)
        ensures
            r@ == self@.location,
    {
        self.location.as_str()
    }

    /// The recurrence of this event, if any.
    pub fn get_recurrence(&self) -> (r: Option<&Recurrence>)
        ensures
            (r is Some) == (self@.recurrence is Some),
            (match r {
                Some(rec) => self@.recurrence == Some(*rec),
                None => self@.recurrence is None,
            }),
    {
        self.recurrence.as_ref()
    }

    pub fn get_metadata(&self) -> (r: EventMetadata)
        ensures
            r@ == self@.metadata,
    {
        self.metadata.clone()
    }
}

impl Default for Event {
    /// An empty event starting now, with no duration, recurrence or tags.
    fn default() -> (r: Event)
        ensures
            r@.wf(),
            r@.title == Seq::<char>::empty(),
            r@.description == Seq::<char>::empty(),
            r@.duration_secs == 0,
            r@.location == Seq::<char>::empty(),
            r@.recurrence is None,
            r@.metadata.tags == Seq::<Seq<char>>::empty(),
    {
        let now = crate::timeio::now_datetime();
        Event {
            title: String::new(),
            description: String::new(),
            start_date: now.date,
            start_time: now.time,
            duration: 0,
            location: String::new(),
            recurrence: None,
            metadata: EventMetadata::default(),
        }
    }
}

} // verus!

verus! {

/// The FNV-1a 64-bit offset basis.
pub const FNV_OFFSET: u64 = 0xcbf29ce484222325;

/// The FNV-1a 64-bit prime.
pub const FNV_PRIME: u64 = 0x100000001b3;

/// One FNV-1a step: fold one symbol into the running digest.
pub open spec fn mix(h: u64, v: u64) -> u64 {
    vstd::wrapping::u64_specs::wrapping_mul(h ^ v, FNV_PRIME)
}

/// Folds a whole sequence of symbols into the digest, left to right.
pub open spec fn mix_seq(h: u64, vs: Seq<u64>) -> u64
    decreases vs.len(),
{
    if vs.len() == 0 {
        h
    } else {
        mix_seq(mix(h, vs[0]), vs.drop_first())
    }
}

proof fn lemma_mix_seq_app(h: u64, a: Seq<u64>, b: Seq<u64>)
    ensures
        mix_seq(h, a + b) == mix_seq(mix_seq(h, a), b),
    decreases a.len(),
{
    if a.len() == 0 {
        assert(a + b =~= b);
    } else {
        assert((a + b).drop_first() =~= a.drop_first() + b);
        assert((a + b)[0] == a[0]);
        lemma_mix_seq_app(mix(h, a[0]), a.drop_first(), b);
    }
}

proof fn lemma_mix_seq_push(h: u64, a: Seq<u64>, v: u64)
    ensures
        mix_seq(h, a.push(v)) == mix(mix_seq(h, a), v),
{
    reveal_with_fuel(mix_seq, 3);
    assert(a.push(v) =~= a + seq![v]);
    lemma_mix_seq_app(h, a, seq![v]);
    assert(seq![v].drop_first() =~= Seq::<u64>::empty());
}

/// The symbols of a string: its length, then each character's code point, so
/// that differently split neighbouring strings never encode alike.
pub open spec fn char_syms(s: Seq<char>) -> Seq<u64> {
    Seq::new(s.len(), |i: int| s[i] as u64)
}

pub open spec fn str_syms(s: Seq<char>) -> Seq<u64> {
    seq![s.len() as u64] + char_syms(s)
}

/// A small tag for each cadence variant.
pub open spec fn cad_sym(c: Cadence) -> u64 {
    match c {
        Cadence::Secondly => 1,
        Cadence::Minutely => 2,
        Cadence::Hourly => 3,
        Cadence::Daily => 4,
        Cadence::Weekly => 5,
        Cadence::Monthly => 6,
        Cadence::Yearly => 7,
    }
}

pub open spec fn interval_syms(o: Option<usize>) -> Seq<u64> {
    match o {
        None => seq![0u64],
        Some(v) => seq![1u64, v as u64],
    }
}

pub open spec fn rec_syms(r: Option<Recurrence>) -> Seq<u64> {
    match r {
        None => seq![0u64],
        Some(rec) => seq![1u64, cad_sym(rec.cadence), rec.repetitions as u64] + interval_syms(
            rec.interval,
        ),
    }
}

/// The symbols of the tag list, each tag length-prefixed, the list
/// count-prefixed.
pub open spec fn tags_syms_rec(ts: Seq<Seq<char>>) -> Seq<u64>
    decreases ts.len(),
{
    if ts.len() == 0 {
        Seq::empty()
    } else {
        tags_syms_rec(ts.drop_last()) + str_syms(ts.last())
    }
}

pub open spec fn tags_syms(ts: Seq<Seq<char>>) -> Seq<u64> {
    seq![ts.len() as u64] + tags_syms_rec(ts)
}

/// The canonical symbol walk over an event's content fields. The metadata
/// timestamps are deliberately absent: identity must not depend on when an
/// event was created or last touched.
pub open spec fn content_syms(e: EventV) -> Seq<u64> {
    str_syms(e.title) + str_syms(e.description) + seq![
        e.start_date.year as u64,
        e.start_date.month as u64,
        e.start_date.day as u64,
        e.start_time.hour as u64,
        e.start_time.minute as u64,
        e.start_time.second as u64,
        e.duration_secs as u64,
    ] + str_syms(e.location) + rec_syms(e.recurrence) + tags_syms(e.metadata.tags)
}

/// The content fingerprint: a deterministic digest of the semantically
/// meaningful fields, and of nothing else.
#[verifier::opaque]
pub open spec fn fingerprint_of(e: EventV) -> u64 {
    mix_seq(FNV_OFFSET, content_syms(e))
}

fn mix_x(h: u64, v: u64) -> (r: u64)
    ensures
        r == mix(h, v),
{
    (h ^ v).wrapping_mul(FNV_PRIME)
}

/// Folds one string into the digest.
fn mix_str(h: u64, s: &str) -> (r: u64)
    ensures
        r == mix_seq(h, str_syms(s@)),
{
    let n = s.unicode_len();
    let mut acc = mix_x(h, n as u64);
    proof {
        reveal_with_fuel(mix_seq, 3);
        assert(seq![s@.len() as u64].drop_first() =~= Seq::<u64>::empty());
        assert(acc == mix_seq(h, seq![s@.len() as u64]));
    }
    let mut i: usize = 0;
    while i < n
        invariant
            i <= n,
            n == s@.len(),
            acc == mix_seq(h, seq![s@.len() as u64] + char_syms(s@).subrange(0, i as int)),
        decreases n - i,
    {
        let c = s.get_char(i);
        let ghost pre = seq![s@.len() as u64] + char_syms(s@).subrange(0, i as int);
        acc = mix_x(acc, c as u64);
        proof {
            lemma_mix_seq_push(h, pre, c as u64);
            assert(pre.push(c as u64) =~= seq![s@.len() as u64] + char_syms(s@).subrange(
                0,
                i + 1,
            ));
        }
        i = i + 1;
    }
    proof {
        assert(char_syms(s@).subrange(0, n as int) =~= char_syms(s@));
        assert(seq![s@.len() as u64] + char_syms(s@) =~= str_syms(s@));
    }
    acc
}

impl Event {
    /// The event's content fingerprint: the store key under which it is
    /// deduplicated. Identical content always collides; the bookkeeping
    /// timestamps play no part.
    #[verifier::rlimit(100)]
    pub fn fingerprint(&self) -> (r: u64)
        ensures
            r == fingerprint_of(self@),
    {
        proof {
            reveal(fingerprint_of);
        }
        let ghost e = self@;
        let mut h = FNV_OFFSET;
        h = mix_str(h, self.title.as_str());
        h = mix_str(h, self.description.as_str());
        proof {
            lemma_mix_seq_app(FNV_OFFSET, str_syms(e.title), str_syms(e.description));
        }
        let ghost part1 = str_syms(e.title) + str_syms(e.description);
        let ghost scalars = seq![
            e.start_date.year as u64,
            e.start_date.month as u64,
            e.start_date.day as u64,
            e.start_time.hour as u64,
            e.start_time.minute as u64,
            e.start_time.second as u64,
            e.duration_secs as u64,
        ];
        h = mix_x(h, self.start_date.year as u64);
        h = mix_x(h, self.start_date.month as u64);
        h = mix_x(h, self.start_date.day as u64);
        h = mix_x(h, self.start_time.hour as u64);
        h = mix_x(h, self.start_time.minute as u64);
        h = mix_x(h, self.start_time.second as u64);
        h = mix_x(h, self.duration as u64);
        proof {
            assert(mix_seq(mix_seq(FNV_OFFSET, part1), scalars) == h) by {
                reveal_with_fuel(mix_seq, 9);
            }
            lemma_mix_seq_app(FNV_OFFSET, part1, scalars);
        }
        let ghost part2 = part1 + scalars;
        h = mix_str(h, self.location.as_str());
        proof {
            lemma_mix_seq_app(FNV_OFFSET, part2, str_syms(e.location));
        }
        let ghost part3 = part2 + str_syms(e.location);
        match &self.recurrence {
            None => {
                h = mix_x(h, 0);
                proof {
                    reveal_with_fuel(mix_seq, 3);
                    assert(seq![0u64].drop_first() =~= Seq::<u64>::empty());
                }
            },
            Some(rec) => {
                h = mix_x(h, 1);
                let cs: u64 = match rec.cadence {
                    Cadence::Secondly => 1,
                    Cadence::Minutely => 2,
                    Cadence::Hourly => 3,
                    Cadence::Daily => 4,
                    Cadence::Weekly => 5,
                    Cadence::Monthly => 6,
                    Cadence::Yearly => 7,
                };
                h = mix_x(h, cs);
                h = mix_x(h, rec.repetitions as u64);
                match rec.interval {
                    None => {
                        h = mix_x(h, 0);
                    },
                    Some(v) => {
                        h = mix_x(h, 1);
                        h = mix_x(h, v as u64);
                    },
                }
                proof {
                    assert(mix_seq(mix_seq(FNV_OFFSET, part3), rec_syms(e.recurrence)) == h) by {
                        reveal_with_fuel(mix_seq, 6);
                    }
                }
            },
        }
        proof {
            lemma_mix_seq_app(FNV_OFFSET, part3, rec_syms(e.recurrence));
        }
        let ghost part4 = part3 + rec_syms(e.recurrence);
        h = mix_x(h, self.metadata.tags_len() as u64);
        let ghost tgs = e.metadata.tags;
        let mut i: usize = 0;
        let ghost tag_head = part4 + seq![tgs.len() as u64];
        proof {
            lemma_mix_seq_push(FNV_OFFSET, part4, tgs.len() as u64);
            assert(part4.push(tgs.len() as u64) =~= tag_head);
            assert(tags_syms_rec(tgs.subrange(0, 0)) =~= Seq::<u64>::empty());
            assert(tag_head + tags_syms_rec(tgs.subrange(0, 0)) =~= tag_head);
        }
        while i < self.metadata.tags_len()
            invariant
                i <= tgs.len(),
                tgs == self@.metadata.tags,
                self@ == e,
                h == mix_seq(FNV_OFFSET, tag_head + tags_syms_rec(tgs.subrange(0, i as int))),
            decreases tgs.len() - i,
        {
            let t = self.metadata.tag_at(i);
            let ghost done = tag_head + tags_syms_rec(tgs.subrange(0, i as int));
            proof {
                lemma_mix_seq_app(FNV_OFFSET, done, str_syms(t@));
            }
            h = mix_str(h, t);
            proof {
                let sub1 = tgs.subrange(0, i + 1);
                assert(sub1.drop_last() =~= tgs.subrange(0, i as int));
                assert(sub1.last() == tgs[i as int]);
                assert(tag_head + tags_syms_rec(tgs.subrange(0, i as int)) + str_syms(tgs[i as int])
                    =~= tag_head + tags_syms_rec(sub1));
            }
            i = i + 1;
        }
        proof {
            assert(tgs.subrange(0, tgs.len() as int) =~= tgs);
            assert(tag_head + tags_syms_rec(tgs) =~= part4 + tags_syms(tgs));
            lemma_mix_seq_app(FNV_OFFSET, part4, tags_syms(tgs));
            assert(part4 + tags_syms(tgs) =~= content_syms(e));
        }
        h
    }
}

impl EventMetadata {
    /// How many tags the event carries.
    pub fn tags_len(&self) -> (r: usize)
        ensures
            r == self@.tags.len(),
    {
        self.tags.len()
    }

    /// The tag at the given position.
    pub fn tag_at(&self, i: usize) -> (r: &str)
        requires
            i < self@.tags.len(),
        ensures
            r@ == self@.tags[i as int],
    {
        self.tags[i].as_str()
    }
}

} // verus!

verus! {

/// The span of one cadence step: in seconds for the fixed-length cadences, in
/// calendar months for Monthly and Yearly.
pub open spec fn cadence_unit(c: Cadence) -> int {
    match c {
        Cadence::Secondly => 1,
        Cadence::Minutely => 60,
        Cadence::Hourly => 3600,
        Cadence::Daily => 86400,
        Cadence::Weekly => 604800,
        Cadence::Monthly => 1,
        Cadence::Yearly => 12,
    }
}

/// Whether a cadence steps by a fixed span of seconds (true) or by calendar
/// months (false).
pub open spec fn cadence_is_fixed(c: Cadence) -> bool {
    match c {
        Cadence::Monthly => false,
        Cadence::Yearly => false,
        _ => true,
    }
}

/// Occurrence `i` of a rule anchored at `anchor`: the anchor advanced by
/// `i * interval` cadence steps. Fixed-length cadences advance the instant by
/// a span of seconds with full carry; Monthly and Yearly advance the calendar
/// month and keep the time of day, clamping the day-of-month to the target
/// month's length.
pub open spec fn occurrence_at(rec: Recurrence, anchor: DateTime, i: int) -> DateTime {
    let k = i * rec.step() * cadence_unit(rec.cadence);
    if cadence_is_fixed(rec.cadence) {
        dt_from_secs(dt_to_secs(anchor) + k)
    } else {
        DateTime { date: add_months_spec(anchor.date, k), time: anchor.time }
    }
}

/// The whole expansion stays inside the representable date range.
pub open spec fn expansion_bounded(rec: Recurrence, anchor: DateTime) -> bool {
    let k = rec.repetitions * rec.step() * cadence_unit(rec.cadence);
    if cadence_is_fixed(rec.cadence) {
        dt_to_secs(anchor) + k <= spec_max_secs()
    } else {
        month_index(anchor.date) + k <= spec_max_month_index()
    }
}

/// Occurrence 0 is the anchor itself.
pub proof fn lemma_occurrence_zero(rec: Recurrence, anchor: DateTime)
    requires
        anchor.wf(),
    ensures
        occurrence_at(rec, anchor, 0) == anchor,
{
    if cadence_is_fixed(rec.cadence) {
        crate::date::lemma_dt_secs_roundtrip(anchor);
    } else {
        let d = anchor.date;
        let mi = month_index(d);
        assert(mi / 12 == d.year && mi % 12 == d.month - 1) by (nonlinear_arith)
            requires
                mi == d.year * 12 + d.month - 1,
                1 <= d.month <= 12,
                0 <= d.year,
        ;
    }
}

impl EventV {
    /// How many concrete occurrences the event projects to: its repetitions
    /// plus the anchor, or just the anchor when it does not repeat.
    pub open spec fn occ_count(self) -> int {
        match self.recurrence {
            None => 1,
            Some(r) => r.repetitions + 1,
        }
    }

    /// The event's occurrence `i`.
    pub open spec fn occurrence(self, i: int) -> DateTime {
        match self.recurrence {
            None => self.start(),
            Some(r) => occurrence_at(r, self.start(), i),
        }
    }

    /// The event's whole expansion stays inside the representable range.
    pub open spec fn bounded(self) -> bool {
        match self.recurrence {
            None => true,
            Some(r) => expansion_bounded(r, self.start()),
        }
    }

    /// Valid and fully expandable.
    pub open spec fn ok(self) -> bool {
        self.wf() && self.bounded()
    }
}


/// Two closed intervals `[s1, s1 + d1]` and `[s2, s2 + d2]` intersect.
pub open spec fn intervals_meet(s1: int, d1: int, s2: int, d2: int) -> bool {
    s2 <= s1 + d1 && s2 + d2 >= s1
}

/// Two events overlap: some occurrence interval of one intersects some
/// occurrence interval of the other, each bounded by its own repetitions.
pub open spec fn overlaps_spec(a: EventV, b: EventV) -> bool {
    exists|i: int, j: int|
        0 <= i < a.occ_count() && 0 <= j < b.occ_count() && intervals_meet(
            dt_to_secs(a.occurrence(i)),
            a.duration_secs,
            dt_to_secs(b.occurrence(j)),
            b.duration_secs,
        )
}

/// Overlap is symmetric: `overlaps(A, B) == overlaps(B, A)`, for any two
/// events whatever.
pub proof fn lemma_overlaps_symmetric(a: EventV, b: EventV)
    ensures
        overlaps_spec(a, b) == overlaps_spec(b, a),
{
    if overlaps_spec(a, b) {
        let (i, j) = choose|i: int, j: int|
            0 <= i < a.occ_count() && 0 <= j < b.occ_count() && intervals_meet(
                dt_to_secs(a.occurrence(i)),
                a.duration_secs,
                dt_to_secs(b.occurrence(j)),
                b.duration_secs,
            );
        assert(0 <= j < b.occ_count() && 0 <= i < a.occ_count() && intervals_meet(
            dt_to_secs(b.occurrence(j)),
            b.duration_secs,
            dt_to_secs(a.occurrence(i)),
            a.duration_secs,
        ));
    }
    if overlaps_spec(b, a) {
        let (j, i) = choose|j: int, i: int|
            0 <= j < b.occ_count() && 0 <= i < a.occ_count() && intervals_meet(
                dt_to_secs(b.occurrence(j)),
                b.duration_secs,
                dt_to_secs(a.occurrence(i)),
                a.duration_secs,
            );
        assert(0 <= i < a.occ_count() && 0 <= j < b.occ_count() && intervals_meet(
            dt_to_secs(a.occurrence(i)),
            a.duration_secs,
            dt_to_secs(b.occurrence(j)),
            b.duration_secs,
        ));
    }
}

} // verus!

verus! {

impl EventV {
    /// A copy of the event whose start is overwritten to the given occurrence;
    /// queries hand these out and never touch the stored event.
    pub open spec fn projected(self, occ: DateTime) -> EventV {
        EventV { start_date: occ.date, start_time: occ.time, ..self }
    }
}

impl Event {
    /// A copy of this event with its start date and time overwritten to the
    /// given occurrence.
    pub fn project(&self, occ: DateTime) -> (r: Event)
        ensures
            r@ == self@.projected(occ),
    {
        let mut r = self.clone();
        r.start_date = occ.date;
        r.start_time = occ.time;
        r
    }

    /// The event's starting instant.
    pub fn start_dt(&self) -> (r: DateTime)
        ensures
            r == self@.start(),
    {
        DateTime { date: self.start_date, time: self.start_time }
    }

    /// Whether this event and another share a moment: their occurrence
    /// intervals `[start, start + duration]` (inclusive) are checked against
    /// each other across both expansions, stopping at the first meeting pair.
    /// Advisory only: the store warns on overlap and inserts all the same.
    #[verifier::rlimit(100)]
    pub fn overlaps(&self, other: &Event) -> (r: bool)
        requires
            self@.ok(),
            other@.ok(),
        ensures
            r == overlaps_spec(self@, other@),
    {
        let occs_a = match self.get_recurrence() {
            Some(rec) => crate::calendar::expand_recurrence(
                rec,
                &self.start_date,
                &self.start_time,
            ),
            None => {
                let mut v: Vec<DateTime> = Vec::new();
                v.push(self.start_dt());
                v
            },
        };
        let occs_b = match other.get_recurrence() {
            Some(rec) => crate::calendar::expand_recurrence(
                rec,
                &other.start_date,
                &other.start_time,
            ),
            None => {
                let mut v: Vec<DateTime> = Vec::new();
                v.push(other.start_dt());
                v
            },
        };
        proof {
            assert(occs_a@.len() == self@.occ_count());
            assert(occs_b@.len() == other@.occ_count());
            assert(forall|i: int| 0 <= i < occs_a@.len() ==> #[trigger] occs_a@[i]
                == self@.occurrence(i) && occs_a@[i].wf());
            assert(forall|j: int| 0 <= j < occs_b@.len() ==> #[trigger] occs_b@[j]
                == other@.occurrence(j) && occs_b@[j].wf());
        }
        let da = self.duration as u64;
        let db = other.duration as u64;
        let mut i: usize = 0;
        while i < occs_a.len()
            invariant
                self@.ok(),
                other@.ok(),
                i <= occs_a@.len(),
                occs_a@.len() == self@.occ_count(),
                occs_b@.len() == other@.occ_count(),
                forall|k: int| 0 <= k < occs_a@.len() ==> #[trigger] occs_a@[k]
                    == self@.occurrence(k) && occs_a@[k].wf(),
                forall|k: int| 0 <= k < occs_b@.len() ==> #[trigger] occs_b@[k]
                    == other@.occurrence(k) && occs_b@[k].wf(),
                da == self@.duration_secs,
                db == other@.duration_secs,
                forall|k: int, l: int|
                    0 <= k < i && 0 <= l < occs_b@.len() ==> !intervals_meet(
                        dt_to_secs(#[trigger] self@.occurrence(k)),
                        self@.duration_secs,
                        dt_to_secs(#[trigger] other@.occurrence(l)),
                        other@.duration_secs,
                    ),
            decreases occs_a@.len() - i,
        {
            proof {
                crate::date::lemma_range_bounds();
            }
            let sa = crate::date::dt_to_secs_x(&occs_a[i]);
            let mut j: usize = 0;
            while j < occs_b.len()
                invariant
                    self@.ok(),
                    other@.ok(),
                    i < occs_a@.len(),
                    j <= occs_b@.len(),
                    occs_a@.len() == self@.occ_count(),
                    occs_b@.len() == other@.occ_count(),
                    forall|k: int| 0 <= k < occs_a@.len() ==> #[trigger] occs_a@[k]
                        == self@.occurrence(k) && occs_a@[k].wf(),
                    forall|k: int| 0 <= k < occs_b@.len() ==> #[trigger] occs_b@[k]
                        == other@.occurrence(k) && occs_b@[k].wf(),
                    da == self@.duration_secs,
                    db == other@.duration_secs,
                    sa == dt_to_secs(self@.occurrence(i as int)),
                    sa <= spec_max_secs(),
                    forall|l: int|
                        0 <= l < j ==> !intervals_meet(
                            dt_to_secs(self@.occurrence(i as int)),
                            self@.duration_secs,
                            dt_to_secs(#[trigger] other@.occurrence(l)),
                            other@.duration_secs,
                        ),
                    forall|k: int, l: int|
                        0 <= k < i && 0 <= l < occs_b@.len() ==> !intervals_meet(
                            dt_to_secs(#[trigger] self@.occurrence(k)),
                            self@.duration_secs,
                            dt_to_secs(#[trigger] other@.occurrence(l)),
                            other@.duration_secs,
                        ),
                decreases occs_b@.len() - j,
            {
                proof {
                    crate::date::lemma_range_bounds();
                }
                let sb = crate::date::dt_to_secs_x(&occs_b[j]);
                if sb <= sa + da && sb + db >= sa {
                    proof {
                        assert(intervals_meet(
                            dt_to_secs(self@.occurrence(i as int)),
                            self@.duration_secs,
                            dt_to_secs(other@.occurrence(j as int)),
                            other@.duration_secs,
                        ));
                        assert(overlaps_spec(self@, other@));
                    }
                    return true;
                }
                j = j + 1;
            }
            i = i + 1;
        }
        proof {
            assert(!overlaps_spec(self@, other@));
        }
        false
    }

    /// The start and end of the occurrence one cadence step after this
    /// event's own: both the start instant and the end instant (start plus
    /// duration) advanced by one step of the given cadence.
    pub fn next_occurrence(ev: &Event, cadence: &Cadence) -> (r: (DateTime, DateTime))
        requires
            ev@.wf(),
            dt_to_secs(ev@.start()) + ev@.duration_secs <= spec_max_secs(),
            shift_ok(*cadence, ev@.start()),
            shift_ok(*cadence, dt_from_secs(dt_to_secs(ev@.start()) + ev@.duration_secs)),
        ensures
            r.0 == shifted(*cadence, ev@.start()),
            r.1 == shifted(*cadence, dt_from_secs(dt_to_secs(ev@.start()) + ev@.duration_secs)),
            r.0.wf(),
            r.1.wf(),
    {
        let start = ev.start_dt();
        proof {
            crate::date::lemma_dt_to_secs_le_max(start);
        }
        let end = crate::date::add_secs(&start, ev.duration as u64);
        let s2 = shift_once(&start, cadence);
        let e2 = shift_once(&end, cadence);
        (s2, e2)
    }
}

/// The instant one cadence step later stays in the representable range.
pub open spec fn shift_ok(c: Cadence, dt: DateTime) -> bool {
    if cadence_is_fixed(c) {
        dt_to_secs(dt) + cadence_unit(c) <= spec_max_secs()
    } else {
        month_index(dt.date) + cadence_unit(c) <= spec_max_month_index()
    }
}

/// The instant one cadence step later: a fixed span of seconds, or one or
/// twelve calendar months with the day clamped and the time kept.
pub open spec fn shifted(c: Cadence, dt: DateTime) -> DateTime {
    if cadence_is_fixed(c) {
        dt_from_secs(dt_to_secs(dt) + cadence_unit(c))
    } else {
        DateTime { date: add_months_spec(dt.date, cadence_unit(c)), time: dt.time }
    }
}

fn shift_once(dt: &DateTime, c: &Cadence) -> (r: DateTime)
    requires
        dt.wf(),
        shift_ok(*c, *dt),
    ensures
        r == shifted(*c, *dt),
        r.wf(),
{
    match c {
        Cadence::Secondly => crate::date::add_secs(dt, 1),
        Cadence::Minutely => crate::date::add_secs(dt, 60),
        Cadence::Hourly => crate::date::add_secs(dt, 3600),
        Cadence::Daily => crate::date::add_secs(dt, 86400),
        Cadence::Weekly => crate::date::add_secs(dt, 604800),
        Cadence::Monthly => DateTime { date: crate::date::add_months(&dt.date, 1), time: dt.time },
        Cadence::Yearly => DateTime { date: crate::date::add_months(&dt.date, 12), time: dt.time },
    }
}

} // verus!

verus! {

impl Event {
    /// Whether the event carries this exact, case-sensitive tag.
    pub fn has_tag(&self, tag: &String) -> (r: bool)
        ensures
            r == self@.metadata.tags.contains(tag@),
    {
        let n = self.metadata.tags_len();
        let mut i: usize = 0;
        while i < n
            invariant
                i <= n,
                n == self@.metadata.tags.len(),
                forall|k: int| 0 <= k < i ==> #[trigger] self@.metadata.tags[k] != tag@,
            decreases n - i,
        {
            if self.metadata.tags[i] == *tag {
                proof {
                    assert(self@.metadata.tags[i as int] == tag@);
                }
                return true;
            }
            i = i + 1;
        }
        false
    }
}

} // verus!

verus! {

impl Event {
    /// Whether this event's whole expansion stays inside the representable
    /// date range: what the store's insert and the overlap detector ask of an
    /// event before they will touch it.
    pub fn expansion_in_range(&self) -> (r: bool)
        requires
            self@.wf(),
        ensures
            r == self@.bounded(),
    {
        match &self.recurrence {
            None => true,
            Some(rec) => {
                let anchor = DateTime { date: self.start_date, time: self.start_time };
                let step: u64 = match rec.interval {
                    Some(v) => v as u64,
                    None => 1,
                };
                let unit: u64 = match rec.cadence {
                    Cadence::Secondly => 1,
                    Cadence::Minutely => 60,
                    Cadence::Hourly => 3600,
                    Cadence::Daily => 86400,
                    Cadence::Weekly => 604800,
                    Cadence::Monthly => 1,
                    Cadence::Yearly => 12,
                };
                let is_fixed = match rec.cadence {
                    Cadence::Monthly => false,
                    Cadence::Yearly => false,
                    _ => true,
                };
                let reps = rec.repetitions as u64;
                let (base, limit) = if is_fixed {
                    proof {
                        crate::date::lemma_dt_to_secs_le_max(anchor);
                    }
                    (crate::date::dt_to_secs_x(&anchor), crate::date::max_secs_x())
                } else {
                    (
                        self.start_date.year as u64 * 12 + (self.start_date.month - 1) as u64,
                        119999u64,
                    )
                };
                proof {
                    assert(limit == (if cadence_is_fixed(rec.cadence) {
                        spec_max_secs()
                    } else {
                        spec_max_month_index()
                    }));
                }
                let room = limit - base;
                match reps.checked_mul(step) {
                    None => {
                        proof {
                            let rr = reps as int;
                            let rs = step as int;
                            let ru = unit as int;
                            assert(rr * rs <= rr * rs * ru) by (nonlinear_arith)
                                requires
                                    rr >= 0,
                                    rs >= 0,
                                    ru >= 1,
                            ;
                        }
                        false
                    },
                    Some(p) => {
                        match p.checked_mul(unit) {
                            None => {
                                proof {
                                    let rr = reps as int;
                                    let rs = step as int;
                                    let ru = unit as int;
                                    assert(rr * rs * ru == (rr * rs) * ru) by (nonlinear_arith);
                                }
                                false
                            },
                            Some(k) => {
                                proof {
                                    let rr = reps as int;
                                    let rs = step as int;
                                    let ru = unit as int;
                                    assert(rr * rs * ru == (rr * rs) * ru) by (nonlinear_arith);
                                }
                                k <= room
                            },
                        }
                    },
                }
            },
        }
    }
}

} // verus!

verus! {

/// Identical-content events always collide: the fingerprint is a function of
/// the content fields alone, so in particular the bookkeeping timestamps play
/// no part in an event's identity.
pub proof fn lemma_fingerprint_content_only(a: EventV, b: EventV)
    requires
        a.title == b.title,
        a.description == b.description,
        a.start_date == b.start_date,
        a.start_time == b.start_time,
        a.duration_secs == b.duration_secs,
        a.location == b.location,
        a.recurrence == b.recurrence,
        a.metadata.tags == b.metadata.tags,
    ensures
        fingerprint_of(a) == fingerprint_of(b),
{
    reveal(fingerprint_of);
    assert(content_syms(a) == content_syms(b));
}

} // verus!

verus! {

/// Whether the date text parses, under one of the accepted formats, to a date
/// the library can hold: exactly when [`Event::new`] will use the parsed
/// value rather than fall back to the clock. Callers can warn on fallback.
pub fn date_text_accepted(s: &str) -> (r: bool)
    ensures
        r == (match parsed_date_of(s@) {
            Some(t) => date_from_parts(t.0, t.1, t.2) is Some,
            None => false,
        }),
{
    let p1 = crate::timeio::parse_date_text(s, "%d/%m/%Y");
    let p = match p1 {
        Some(t) => Some(t),
        None => crate::timeio::parse_date_text(s, "%Y-%m-%d"),
    };
    match p {
        Some((y, m, d)) => {
            let cand = if 0 <= y && y <= 9999 && 1 <= m && m <= 12 && 1 <= d && d <= 31 {
                Date::new(y as u16, m as u8, d as u8)
            } else {
                None
            };
            cand.is_some()
        },
        None => false,
    }
}

/// Whether the time text parses, under one of the accepted formats, to a
/// valid time of day: exactly when [`Event::new`] will use the parsed value
/// rather than fall back to the clock.
pub fn time_text_accepted(s: &str) -> (r: bool)
    ensures
        r == (match parsed_time_of(s@) {
            Some(t) => time_from_parts(t.0, t.1, t.2) is Some,
            None => false,
        }),
{
    let p1 = crate::timeio::parse_time_text(s, "%H:%M");
    let p = match p1 {
        Some(t) => Some(t),
        None => crate::timeio::parse_time_text(s, "%H:%M:%S"),
    };
    match p {
        Some((h, mi, sec)) => {
            let cand = if h < 24 && mi < 60 && sec < 60 {
                Time::new(h as u8, mi as u8, sec as u8)
            } else {
                None
            };
            cand.is_some()
        },
        None => false,
    }
}

} // verus!
