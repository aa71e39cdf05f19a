//! A named event that spans a positive stretch of time.
use crate::time::{Date, DateTime, Time, SECONDS_PER_DAY};
use vstd::prelude::*;

verus! {

/// What an [`Event`] holds, as mathematical values.
pub struct EventView {
    pub start: DateTime,
    pub end: DateTime,
    pub name: Seq<char>,
    pub id: u128,
}

impl EventView {
    /// The event ends strictly after it starts.
    pub open spec fn valid(self) -> bool {
        span_valid(self.start, self.end)
    }
}

/// Why a change to an event's start or end was refused.
#[derive(Clone, Copy, Debug, PartialEq, Eq, Structural)]
pub enum EventError {
    /// The new start is not strictly before the end.
    InvalidStartTime,
    /// The new end is not strictly after the start.
    InvalidEndTime,
}

/// A span is valid when its end lies a positive number of seconds after its start.
pub open spec fn span_valid(start: DateTime, end: DateTime) -> bool {
    end.timestamp() - start.timestamp() > 0
}

/// The event `e` with its start moved to `start`, if the span stays valid.
pub open spec fn start_update(e: EventView, start: DateTime) -> Result<EventView, EventError> {
    if span_valid(start, e.end) {
        Ok(EventView { start, ..e })
    } else {
        Err(EventError::InvalidStartTime)
    }
}

/// The event `e` with its end moved to `end`, if the span stays valid.
pub open spec fn end_update(e: EventView, end: DateTime) -> Result<EventView, EventError> {
    if span_valid(e.start, end) {
        Ok(EventView { end, ..e })
    } else {
        Err(EventError::InvalidEndTime)
    }
}

/// The event `e` under the name `name`.
pub open spec fn renamed(e: EventView, name: Seq<char>) -> EventView {
    EventView { name, ..e }
}

/// Relies on uuid's `Uuid::new_v4` for a random identifier, taken as a
/// number by `Uuid::as_u128`.
#[verifier::external_body]
fn random_id() -> (r: u128) {
    uuid::Uuid::new_v4().as_u128()
}

/// A calendar entry: a name, a start, an end strictly after the start, and an
/// identifier.
#[derive(Clone, Debug)]
pub struct Event {
    start: DateTime,
    end: DateTime,
    name: String,
    id: u128,
}

impl View for Event {
    type V = EventView;

    closed spec fn view(&self) -> EventView {
        EventView { start: self.start, end: self.end, name: self.name@, id: self.id }
    }
}

impl PartialEq for Event {
    /// Events are equal when all four fields are.
    fn eq(&self, other: &Event) -> (r: bool) {
        self.start == other.start && self.end == other.end && self.id == other.id && name_order(
            self.name.as_str(),
            other.name.as_str(),
        ).is_none()
    }
}

impl vstd::std_specs::cmp::PartialEqSpecImpl for Event {
    open spec fn obeys_eq_spec() -> bool {
        true
    }

    open spec fn eq_spec(&self, other: &Event) -> bool {
        self@ == other@
    }
}

impl Eq for Event {}

/// The outcome of a change to an event, as mathematical values.
pub open spec fn view_result(r: Result<Event, EventError>) -> Result<EventView, EventError> {
    match r {
        Ok(e) => Ok(e@),
        Err(err) => Err(err),
    }
}

impl Event {
    /// Whether `end` lies a positive number of seconds after `st`.
    fn start_end_times_valid(st: &DateTime, end: &DateTime) -> (r: bool)
        ensures
            r == span_valid(*st, *end),
    {
        end.seconds_since(st) > 0
    }

    /// When the event starts.
    pub fn start(&self) -> (r: DateTime)
        ensures
            r == self@.start,
    {
        self.start
    }

    /// When the event ends.
    pub fn end(&self) -> (r: DateTime)
        ensures
            r == self@.end,
    {
        self.end
    }

    /// The event's name.
    pub fn name(&self) -> (r: &str)
        ensures
            r@ == self@.name,
    {
        self.name.as_str()
    }

    /// The event's identifier.
    pub fn id(&self) -> (r: u128)
        ensures
            r == self@.id,
    {
        self.id
    }

    /// An event named `name` that takes up all of `date`, from 00:00:00 to
    /// 23:59:59, with the identifier `id`.
    pub fn with_id(name: String, date: &Date, id: u128) -> (r: Event)
        ensures
            r@.start.date == *date,
            r@.start.time.seconds() == 0,
            r@.end.date == *date,
            r@.end.time.seconds() == SECONDS_PER_DAY - 1,
            r@.name == name@,
            r@.id == id,
            r@.valid(),
    {
        Event {
            start: DateTime::new(*date, Time::day_start()),
            end: DateTime::new(*date, Time::day_end()),
            name,
            id,
        }
    }

    /// An event named `name` that takes up all of `date`, from 00:00:00 to
    /// 23:59:59, with a fresh random identifier.
    pub fn new(name: String, date: &Date) -> (r: Event)
        ensures
            r@.start.date == *date,
            r@.start.time.seconds() == 0,
            r@.end.date == *date,
            r@.end.time.seconds() == SECONDS_PER_DAY - 1,
            r@.name == name@,
            r@.valid(),
    {
        Event::with_id(name, date, random_id())
    }

    /// The event with its start moved to `start`; refused unless `start` is
    /// strictly before the end.
    pub fn set_start(self, start: DateTime) -> (r: Result<Event, EventError>)
        ensures
            view_result(r) == start_update(self@, start),
    {
        if Event::start_end_times_valid(&start, &self.end) {
            Ok(Event { start, end: self.end, name: self.name, id: self.id })
        } else {
            Err(EventError::InvalidStartTime)
        }
    }

    /// The event with its start moved to `start` on the same date.
    pub fn set_start_time(self, start: Time) -> (r: Result<Event, EventError>)
        ensures
            view_result(r) == start_update(self@, DateTime { date: self@.start.date, time: start }),
    {
        let new_start = DateTime::new(self.start.date, start);
        self.set_start(new_start)
    }

    /// The event with its start moved to `start` at the same time of day.
    pub fn set_start_date(self, start: Date) -> (r: Result<Event, EventError>)
        ensures
            view_result(r) == start_update(self@, DateTime { date: start, time: self@.start.time }),
    {
        let new_start = DateTime::new(start, self.start.time);
        self.set_start(new_start)
    }

    /// The event with its end moved to `end`; refused unless `end` is
    /// strictly after the start.
    pub fn set_end(self, end: DateTime) -> (r: Result<Event, EventError>)
        ensures
            view_result(r) == end_update(self@, end),
    {
        if Event::start_end_times_valid(&self.start, &end) {
            Ok(Event { start: self.start, end, name: self.name, id: self.id })
        } else {
            Err(EventError::InvalidEndTime)
        }
    }

    /// The event with its end moved to `end` on the same date.
    pub fn set_end_time(self, end: Time) -> (r: Result<Event, EventError>)
        ensures
            view_result(r) == end_update(self@, DateTime { date: self@.end.date, time: end }),
    {
        let new_end = DateTime::new(self.end.date, end);
        self.set_end(new_end)
    }

    /// The event with its end moved to `end` at the same time of day.
    pub fn set_end_date(self, end: Date) -> (r: Result<Event, EventError>)
        ensures
            view_result(r) == end_update(self@, DateTime { date: end, time: self@.end.time }),
    {
        let new_end = DateTime::new(end, self.end.time);
        self.set_end(new_end)
    }

    /// Whether `self` comes strictly before `other` in the order of events.
    pub fn precedes(&self, other: &Event) -> (r: bool)
        ensures
            r == event_lt(self@, other@),
    {
        let a = self.start.timestamp_seconds();
        let b = other.start.timestamp_seconds();
        if a != b {
            return a < b;
        }
        let a = self.end.timestamp_seconds();
        let b = other.end.timestamp_seconds();
        if a != b {
            return a < b;
        }
        match name_order(self.name.as_str(), other.name.as_str()) {
            Some(less) => less,
            None => self.id < other.id,
        }
    }

    /// Renames the event in place.
    pub fn set_name(&mut self, new_name: String)
        ensures
            final(self)@ == renamed(old(self)@, new_name@),
    {
        self.name = new_name;
    }
}

/// Lexicographic order on character sequences, the order of `str`'s `<`
/// (UTF-8 bytes compare as the code points they encode).
pub open spec fn chars_lt(a: Seq<char>, b: Seq<char>) -> bool
    decreases a.len(),
{
    if a.len() == 0 {
        b.len() > 0
    } else if b.len() == 0 {
        false
    } else if a[0] != b[0] {
        (a[0] as int) < (b[0] as int)
    } else {
        chars_lt(a.drop_first(), b.drop_first())
    }
}

/// The order of events: by start, then end, then name, then identifier.
pub open spec fn event_lt(a: EventView, b: EventView) -> bool {
    if a.start.timestamp() != b.start.timestamp() {
        a.start.timestamp() < b.start.timestamp()
    } else if a.end.timestamp() != b.end.timestamp() {
        a.end.timestamp() < b.end.timestamp()
    } else if a.name != b.name {
        chars_lt(a.name, b.name)
    } else {
        a.id < b.id
    }
}

/// `None` where the two strings hold the same characters, else whether `a`
/// comes first.
fn name_order(a: &str, b: &str) -> (r: Option<bool>)
    ensures
        r is None <==> a@ == b@,
        r matches Some(less) ==> less == chars_lt(a@, b@),
{
    let la = a.unicode_len();
    let lb = b.unicode_len();
    let mut i: usize = 0;
    proof {
        assert(a@.skip(0) =~= a@);
        assert(b@.skip(0) =~= b@);
        assert(a@.take(0) =~= b@.take(0));
    }
    while i < la && i < lb
        invariant
            i <= la,
            i <= lb,
            la == a@.len(),
            lb == b@.len(),
            a@.take(i as int) == b@.take(i as int),
            chars_lt(a@, b@) == chars_lt(a@.skip(i as int), b@.skip(i as int)),
        decreases la - i,
    {
        let ca = a.get_char(i);
        let cb = b.get_char(i);
        if ca != cb {
            proof {
                assert(a@.take(i as int + 1)[i as int] != b@.take(i as int + 1)[i as int]);
                assert(a@.skip(i as int)[0] == ca);
                assert(b@.skip(i as int)[0] == cb);
            }
            return Some((ca as u32) < (cb as u32));
        }
        proof {
            assert(a@.skip(i as int).drop_first() =~= a@.skip(i as int + 1));
            assert(b@.skip(i as int).drop_first() =~= b@.skip(i as int + 1));
            assert(a@.take(i as int + 1) =~= a@.take(i as int).push(ca));
            assert(b@.take(i as int + 1) =~= b@.take(i as int).push(cb));
        }
        i = i + 1;
    }
    if la == lb {
        proof {
            assert(a@ =~= a@.take(i as int));
            assert(b@ =~= b@.take(i as int));
        }
        None
    } else {
        proof {
            if i == la {
                assert(a@.skip(i as int).len() == 0);
            } else {
                assert(b@.skip(i as int).len() == 0);
            }
        }
        Some(la < lb)
    }
}

pub proof fn lemma_chars_lt_irreflexive(a: Seq<char>)
    ensures
        !chars_lt(a, a),
    decreases a.len(),
{
    if a.len() > 0 {
        lemma_chars_lt_irreflexive(a.drop_first());
    }
}

pub proof fn lemma_chars_lt_transitive(a: Seq<char>, b: Seq<char>, c: Seq<char>)
    requires
        chars_lt(a, b),
        chars_lt(b, c),
    ensures
        chars_lt(a, c),
    decreases a.len(),
{
    if a.len() > 0 && b.len() > 0 && c.len() > 0 && a[0] == b[0] && b[0] == c[0] {
        lemma_chars_lt_transitive(a.drop_first(), b.drop_first(), c.drop_first());
    }
}

pub proof fn lemma_chars_lt_total(a: Seq<char>, b: Seq<char>)
    requires
        a != b,
    ensures
        chars_lt(a, b) || chars_lt(b, a),
    decreases a.len(),
{
    if a.len() > 0 && b.len() > 0 {
        if a[0] == b[0] {
            if a.drop_first() == b.drop_first() {
                assert(a =~= seq![a[0]] + a.drop_first());
                assert(b =~= seq![b[0]] + b.drop_first());
            }
            lemma_chars_lt_total(a.drop_first(), b.drop_first());
        } else {
            assert((a[0] as int) != (b[0] as int));
        }
    } else if a.len() == 0 && b.len() == 0 {
        assert(a =~= b);
    }
}

pub proof fn lemma_chars_lt_asymmetric(a: Seq<char>, b: Seq<char>)
    requires
        chars_lt(a, b),
    ensures
        !chars_lt(b, a),
{
    if chars_lt(b, a) {
        lemma_chars_lt_transitive(a, b, a);
        lemma_chars_lt_irreflexive(a);
    }
}

pub proof fn lemma_event_lt_transitive(a: EventView, b: EventView, c: EventView)
    requires
        event_lt(a, b),
        event_lt(b, c),
    ensures
        event_lt(a, c),
{
    if a.start.timestamp() == c.start.timestamp() && a.end.timestamp() == c.end.timestamp()
        && a.start.timestamp() == b.start.timestamp() && a.end.timestamp() == b.end.timestamp() {
        if a.name == c.name {
            if a.name != b.name {
                lemma_chars_lt_asymmetric(a.name, b.name);
            }
        } else if a.name != b.name && b.name != c.name {
            lemma_chars_lt_transitive(a.name, b.name, c.name);
        }
    }
}

pub proof fn lemma_event_lt_asymmetric(a: EventView, b: EventView)
    requires
        event_lt(a, b),
    ensures
        !event_lt(b, a),
{
    if a.start.timestamp() == b.start.timestamp() && a.end.timestamp() == b.end.timestamp()
        && a.name != b.name {
        lemma_chars_lt_asymmetric(a.name, b.name);
    }
}

/// Events with different identifiers are always ordered one way or the other.
pub proof fn lemma_event_lt_total(a: EventView, b: EventView)
    requires
        a.id != b.id,
    ensures
        event_lt(a, b) || event_lt(b, a),
{
    if a.name != b.name {
        lemma_chars_lt_total(a.name, b.name);
    }
}

/// Moving the start and then the end of an event to a valid span gives an
/// event with exactly that span; the start must lie before the old end for
/// the first step to be accepted.
pub proof fn lemma_set_start_then_end(e: EventView, start: DateTime, end: DateTime)
    requires
        span_valid(start, end),
        span_valid(start, e.end),
    ensures
        start_update(e, start) is Ok,
        end_update(start_update(e, start)->Ok_0, end) == Ok::<EventView, EventError>(
            EventView { start, end, ..e },
        ),
{
}

/// A span whose end is not after its start is refused from either side: as a
/// new start against that end, and as a new end against that start.
pub proof fn lemma_backwards_span_refused(e: EventView, start: DateTime, end: DateTime)
    requires
        end.timestamp() <= start.timestamp(),
    ensures
        e.end == end ==> start_update(e, start) == Err::<EventView, EventError>(
            EventError::InvalidStartTime,
        ),
        e.start == start ==> end_update(e, end) == Err::<EventView, EventError>(
            EventError::InvalidEndTime,
        ),
{
}

/// Renaming twice to the same name is the same as renaming once, and the
/// event then carries that name.
pub proof fn lemma_rename_idempotent(e: EventView, name: Seq<char>)
    ensures
        renamed(renamed(e, name), name) == renamed(e, name),
        renamed(e, name).name == name,
{
}

} // verus!
