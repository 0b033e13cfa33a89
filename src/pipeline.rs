use vstd::prelude::*;
use rand::seq::SliceRandom;
use crate::event::{Event, FutureEvent, days_between, unexpired, upcoming, future_events};
use crate::options::{CountdownArgs, SortOrder};
use crate::sort::{Keyed, comes_first, sorted_stably, sort_by_key, copy_all};

verus! {

/// `r` holds the elements of `s`, arranged as `order` asks: increasing days
/// left when absent.
pub open spec fn arranged(r: Seq<FutureEvent>, s: Seq<FutureEvent>, order: Option<SortOrder>) -> bool {
    &&& r.to_multiset() == s.to_multiset()
    &&& match order {
        Some(SortOrder::Shuffle) => true,
        Some(SortOrder::TimeDesc) => sorted_stably(r, s, false),
        _ => sorted_stably(r, s, true),
    }
}

/// `x` is how some event of `events` that lies strictly after `now` is seen
/// from `now`.
pub open spec fn comes_from(now: u64, events: Seq<Event>, x: FutureEvent) -> bool {
    exists|e: Event| #[trigger] events.contains(e) && e.time > now && e.future_at(now) == Some(x)
}

/// The first `n` elements of `s`, or all of them when `n` is absent or not
/// smaller than its length.
pub open spec fn limited<T>(s: Seq<T>, n: Option<usize>) -> Seq<T> {
    match n {
        Some(k) => if k < s.len() {
            s.take(k as int)
        } else {
            s
        },
        None => s,
    }
}

/// Relies on rand's `SliceRandom::shuffle`, which reorders the elements only by
/// swapping them, drawing from the thread-local generator.
#[verifier::external_body]
fn shuffle_events(v: &mut Vec<FutureEvent>)
    ensures
        final(v)@.to_multiset() == old(v)@.to_multiset(),
{
    v.shuffle(&mut rand::thread_rng());
}

/// The events sorted by time, increasing when `is_asc`, else decreasing;
/// events at the same time keep their relative order.
pub fn events_sorted_by_time(events: &Vec<Event>, is_asc: bool) -> (r: Vec<Event>)
    ensures
        sorted_stably(r@, events@, is_asc),
        r@.to_multiset() == events@.to_multiset(),
{
    sort_by_key(copy_all(events), is_asc)
}

/// The events arranged as `args.order` asks.
pub fn sort_events(events: &Vec<FutureEvent>, args: &CountdownArgs) -> (r: Vec<FutureEvent>)
    ensures
        arranged(r@, events@, args.order),
{
    let copied = copy_all(events);
    match args.order {
        Some(SortOrder::Shuffle) => {
            let mut shuffled = copied;
            shuffle_events(&mut shuffled);
            shuffled
        },
        Some(SortOrder::TimeDesc) => sort_by_key(copied, false),
        _ => sort_by_key(copied, true),
    }
}

/// The first `args.n` events, or all of them when no limit is set.
pub fn limit_events<T>(events: Vec<T>, args: &CountdownArgs) -> (r: Vec<T>)
    ensures
        r@ == limited(events@, args.n),
        r@ == events@.take(r@.len() as int),
        args.n is Some ==> r@.len() == (if args.n->0 < events@.len() {
            args.n->0 as int
        } else {
            events@.len() as int
        }),
        args.n is None ==> r@ == events@,
{
    let mut kept = events;
    match args.n {
        Some(limit) => {
            kept.truncate(limit);
            proof {
                if (limit as int) < events@.len() {
                    assert(events@.subrange(0, limit as int) == events@.take(limit as int));
                }
            }
        },
        None => {},
    }
    kept
}

/// The events that lie strictly after `now`, each with its whole days left,
/// arranged as `args.order` asks and cut to at most `args.n`.
pub fn applicable_events(now: u64, events: Vec<Event>, args: &CountdownArgs) -> (r: Vec<FutureEvent>)
    ensures
        exists|s: Seq<FutureEvent>|
            #[trigger] arranged(s, upcoming(now, events@), args.order) && r@ == limited(s, args.n),
        forall|j: int| 0 <= j < r@.len() ==> comes_from(now, events@, #[trigger] r@[j]),
        args.order != Some(SortOrder::Shuffle) && args.order != Some(SortOrder::TimeDesc)
            ==> forall|j: int|
            0 <= j < r@.len() - 1 ==> #[trigger] r@[j].days_left <= r@[j + 1].days_left,
        args.order == Some(SortOrder::TimeDesc) ==> forall|j: int|
            0 <= j < r@.len() - 1 ==> #[trigger] r@[j].days_left >= r@[j + 1].days_left,
        args.n is Some ==> r@.len() == (if args.n->0 < upcoming(now, events@).len() {
            args.n->0 as int
        } else {
            upcoming(now, events@).len() as int
        }),
        args.n is None ==> r@.len() == upcoming(now, events@).len(),
        args.n is None ==> r@.to_multiset() == upcoming(now, events@).to_multiset(),
{
    let current = future_events(now, &events);
    let sorted = sort_events(&current, args);
    let r = limit_events(sorted, args);
    proof {
        let f = |e: Event| e.future_at(now);
        assert forall|j: int| 0 <= j < r@.len() implies comes_from(now, events@, #[trigger] r@[j]) by {
            broadcast use vstd::seq_lib::group_to_multiset_ensures;
            assert(r@[j] == sorted@[j]);
            assert(sorted@.contains(sorted@[j]));
            assert(sorted@.to_multiset().count(r@[j]) > 0);
            assert(current@.contains(r@[j]));
            events@.lemma_filter_map_contains(f, r@[j]);
        }
        broadcast use vstd::seq_lib::group_to_multiset_ensures;
        assert(sorted@.to_multiset().len() == current@.to_multiset().len());
        if args.order != Some(SortOrder::Shuffle) {
            assert forall|j: int| 0 <= j < r@.len() - 1 implies comes_first(
                args.order != Some(SortOrder::TimeDesc),
                #[trigger] r@[j].key(),
                r@[j + 1].key(),
            ) by {
                assert(r@[j] == sorted@[j] && r@[j + 1] == sorted@[j + 1]);
            }
        }
    }
    r
}

/// Every event strictly after `now` is kept by the filter, and is reported
/// with its whole days left from `now`, rounded down.
pub proof fn lemma_future_event_reported(now: u64, events: Seq<Event>, i: int)
    requires
        0 <= i < events.len(),
        events[i].time > now,
    ensures
        unexpired(now, events).contains(events[i]),
        days_between(now, events[i].time) <= u16::MAX,
        exists|j: int|
            0 <= j < upcoming(now, events).len() && #[trigger] upcoming(now, events)[j].name
                == events[i].name && upcoming(now, events)[j].days_left == days_between(
                now,
                events[i].time,
            ),
    decreases events.len(),
{
    broadcast use vstd::seq_lib::group_filter_ensures;
    events.lemma_filter_contains(|e: Event| e.time > now, i);
    let n = events.len() - 1;
    let u = upcoming(now, events);
    if i == n {
        assert(u == upcoming(now, events.drop_last()) + seq![events[i].future_at(now)->0]);
        assert(u[u.len() - 1].name == events[i].name);
    } else {
        assert(events.drop_last()[i] == events[i]);
        lemma_future_event_reported(now, events.drop_last(), i);
        let v = upcoming(now, events.drop_last());
        let j = choose|j: int|
            0 <= j < v.len() && #[trigger] v[j].name == events[i].name && v[j].days_left
                == days_between(now, events[i].time);
        assert(u.take(v.len() as int) == v);
        assert(u[j] == v[j]);
        assert(u[j].name == events[i].name);
    }
}

/// Filtering the kept events again at the same instant keeps all of them.
pub proof fn lemma_filter_idempotent(now: u64, events: Seq<Event>)
    ensures
        unexpired(now, unexpired(now, events)) == unexpired(now, events),
    decreases events.len(),
{
    reveal(Seq::filter);
    if events.len() > 0 {
        let p = |e: Event| e.time > now;
        let rest = events.drop_last();
        lemma_filter_idempotent(now, rest);
        rest.filter(p).lemma_filter_push(events.last(), p);
    }
}

/// Events at or before `now` contribute nothing: annotating only the kept
/// events gives the same sequence as annotating all of them.
pub proof fn lemma_expired_events_ignored(now: u64, events: Seq<Event>)
    ensures
        upcoming(now, unexpired(now, events)) == upcoming(now, events),
    decreases events.len(),
{
    reveal(Seq::filter);
    if events.len() > 0 {
        let rest = events.drop_last();
        lemma_expired_events_ignored(now, rest);
        if events.last().time > now {
            let kept = unexpired(now, rest);
            assert(unexpired(now, events) == kept.push(events.last()));
            assert(kept.push(events.last()).drop_last() == kept);
        }
    }
}

} // verus!
