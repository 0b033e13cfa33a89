use vstd::prelude::*;
use crate::sort::Keyed;

verus! {

/// Seconds in one day.
pub const SECONDS_IN_DAY: u64 = 86400;

/// A configured event: a name and an instant, in seconds since the epoch.
#[derive(Debug, Clone, PartialEq, Eq)]
pub struct Event {
    pub name: String,
    pub time: u32,
}

/// An event known to lie after the reference instant, with the whole days left.
#[derive(Debug, Clone, PartialEq, Eq)]
pub struct FutureEvent {
    pub name: String,
    pub days_left: u16,
}

/// Whole days from `now` until `time`, rounded down; meaningful when `time > now`.
pub open spec fn days_between(now: u64, time: u32) -> int {
    (time - now) / (SECONDS_IN_DAY as int)
}

impl Event {
    /// The event as seen from `now`: present only when it lies strictly after `now`.
    pub open spec fn future_at(self, now: u64) -> Option<FutureEvent> {
        if self.time > now {
            Some(FutureEvent { name: self.name, days_left: days_between(now, self.time) as u16 })
        } else {
            None
        }
    }

    /// The event's instant, in seconds since the epoch.
    pub fn system_time(&self) -> (r: u64)
        ensures
            r == self.time,
    {
        self.time as u64
    }

    /// True when the event lies at or before `current_time`.
    pub fn has_passed(&self, current_time: u64) -> (r: bool)
        ensures
            r == (self.time <= current_time),
    {
        self.system_time() <= current_time
    }

    /// Whole days left until the event, or `None` when it has passed.
    ///
    /// A `u32` instant is less than 49711 days after the epoch, so the count
    /// always fits in a `u16`.
    pub fn days_left(&self, current_time: u64) -> (r: Option<u16>)
        ensures
            r == (if self.time > current_time {
                Some(days_between(current_time, self.time) as u16)
            } else {
                None::<u16>
            }),
            r is Some ==> r->0 == days_between(current_time, self.time),
    {
        let t = self.system_time();
        if t <= current_time {
            None
        } else {
            let days = (t - current_time) / SECONDS_IN_DAY;
            assert(days <= 49710) by {
                assert(t - current_time <= 4294967295);
            }
            Some(days as u16)
        }
    }

    /// The event annotated with its days left, or `None` when it has passed.
    pub fn as_future_event(&self, current_time: u64) -> (r: Option<FutureEvent>)
        ensures
            r == self.future_at(current_time),
    {
        match self.days_left(current_time) {
            Some(days) => Some(FutureEvent { name: self.name.clone(), days_left: days }),
            None => None,
        }
    }
}

/// The events of `s` that lie strictly after `now`, in their order.
pub open spec fn unexpired(now: u64, s: Seq<Event>) -> Seq<Event> {
    s.filter(|e: Event| e.time > now)
}

/// The events of `s` that lie strictly after `now`, in their order, each with
/// its whole days left.
pub open spec fn upcoming(now: u64, s: Seq<Event>) -> Seq<FutureEvent> {
    s.filter_map(|e: Event| e.future_at(now))
}

/// Keeps the events that lie strictly after `now`, in their order.
pub fn filter_expired_events(now: u64, events: &Vec<Event>) -> (r: Vec<Event>)
    ensures
        r@ == unexpired(now, events@),
{
    let mut kept: Vec<Event> = Vec::new();
    let mut i: usize = 0;
    while i < events.len()
        invariant
            i <= events@.len(),
            kept@ == unexpired(now, events@.take(i as int)),
        decreases events@.len() - i,
    {
        proof {
            assert(events@.take(i + 1) == events@.take(i as int).push(events@[i as int]));
            events@.take(i as int).lemma_filter_push(events@[i as int], |e: Event| e.time > now);
        }
        if !events[i].has_passed(now) {
            kept.push(events[i].duplicate());
        }
        i = i + 1;
    }
    assert(events@.take(events@.len() as int) == events@);
    kept
}

/// The events that lie strictly after `now`, in their order, each annotated
/// with its whole days left.
pub fn future_events(now: u64, events: &Vec<Event>) -> (r: Vec<FutureEvent>)
    ensures
        r@ == upcoming(now, events@),
{
    let mut kept: Vec<FutureEvent> = Vec::new();
    let mut i: usize = 0;
    while i < events.len()
        invariant
            i <= events@.len(),
            kept@ == upcoming(now, events@.take(i as int)),
        decreases events@.len() - i,
    {
        proof {
            events@.lemma_filter_map_take_succ(|e: Event| e.future_at(now), i as int);
        }
        match events[i].as_future_event(now) {
            Some(fe) => kept.push(fe),
            None => {},
        }
        i = i + 1;
    }
    assert(events@.take(events@.len() as int) == events@);
    kept
}

} // verus!
