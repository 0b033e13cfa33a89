use countdown::event::{filter_expired_events, future_events, Event, FutureEvent};
use countdown::options::{collect_args, ArgsError, CountdownArgs, SortOrder};
use countdown::pipeline::{applicable_events, events_sorted_by_time, limit_events, sort_events};

const DAY: u64 = 86400;

fn ev(name: &str, time: u64) -> Event {
    Event { name: name.to_string(), time: time as u32 }
}

fn fe(name: &str, days_left: u16) -> FutureEvent {
    FutureEvent { name: name.to_string(), days_left }
}

fn args(order: Option<SortOrder>, n: Option<usize>) -> CountdownArgs {
    CountdownArgs { order, n }
}

#[test]
fn event_has_passed_is_true_when_event_expires() {
    let event = Event { name: "expired".to_string(), time: 10 };
    assert!(event.has_passed(11));
}

#[test]
fn filter_expired_events_removes_expired_events() {
    let events = vec![
        Event { name: "expired 1".to_string(), time: 900 },
        Event { name: "not expired 1".to_string(), time: 1020 },
        Event { name: "expired 3".to_string(), time: 543 },
    ];
    let result = filter_expired_events(1000, &events);

    assert_eq!(result, vec![Event { name: "not expired 1".to_string(), time: 1020 }],);
}

#[test]
fn events_sorted_by_time_sorts_in_asc_order() {
    let events = vec![
        Event { name: "test 1".to_string(), time: 900 },
        Event { name: "test 2".to_string(), time: 1020 },
        Event { name: "test 3".to_string(), time: 543 },
    ];
    let result = events_sorted_by_time(&events, true);

    assert_eq!(
        result,
        vec![
            Event { name: "test 3".to_string(), time: 543 },
            Event { name: "test 1".to_string(), time: 900 },
            Event { name: "test 2".to_string(), time: 1020 },
        ],
    );
}

#[test]
fn events_sorted_by_time_sorts_in_desc_order() {
    let events = vec![
        Event { name: "test 1".to_string(), time: 900 },
        Event { name: "test 2".to_string(), time: 1020 },
        Event { name: "test 3".to_string(), time: 543 },
    ];
    let result = events_sorted_by_time(&events, false);

    assert_eq!(
        result,
        vec![
            Event { name: "test 2".to_string(), time: 1020 },
            Event { name: "test 1".to_string(), time: 900 },
            Event { name: "test 3".to_string(), time: 543 },
        ],
    );
}

fn scenario(now: u64) -> Vec<Event> {
    vec![ev("A", now + 2 * DAY), ev("B", now - DAY), ev("C", now + 5 * DAY)]
}

#[test]
fn ascending_scenario_drops_past_event() {
    let now: u64 = 1_600_000_000;
    let out = applicable_events(now, scenario(now), &args(Some(SortOrder::TimeAsc), None));
    assert_eq!(out, vec![fe("A", 2), fe("C", 5)]);
}

#[test]
fn descending_scenario_with_limit_one() {
    let now: u64 = 1_600_000_000;
    let out = applicable_events(now, scenario(now), &args(Some(SortOrder::TimeDesc), Some(1)));
    assert_eq!(out, vec![fe("C", 5)]);
}

#[test]
fn absent_order_sorts_ascending() {
    let now: u64 = 1_600_000_000;
    let events = vec![ev("late", now + 9 * DAY), ev("soon", now + DAY), ev("mid", now + 4 * DAY)];
    let out = applicable_events(now, events, &args(None, None));
    assert_eq!(out, vec![fe("soon", 1), fe("mid", 4), fe("late", 9)]);
}

#[test]
fn event_at_reference_instant_is_excluded() {
    let now: u64 = 5_000_000;
    let event = ev("now", now);
    assert!(event.has_passed(now));
    assert_eq!(event.days_left(now), None);
    assert!(event.as_future_event(now).is_none());
    for order in [None, Some(SortOrder::TimeAsc), Some(SortOrder::TimeDesc), Some(SortOrder::Shuffle)] {
        let out = applicable_events(now, vec![ev("now", now)], &args(order, None));
        assert!(out.is_empty());
    }
}

#[test]
fn empty_event_list_gives_empty_output() {
    for order in [None, Some(SortOrder::TimeAsc), Some(SortOrder::TimeDesc), Some(SortOrder::Shuffle)] {
        let out = applicable_events(1000, Vec::new(), &args(order, Some(3)));
        assert!(out.is_empty());
    }
}

#[test]
fn one_second_ahead_is_zero_days() {
    let event = ev("soon", 1001);
    assert!(!event.has_passed(1000));
    assert_eq!(event.days_left(1000), Some(0));
    assert_eq!(event.as_future_event(1000), Some(fe("soon", 0)));
}

#[test]
fn days_left_rounds_down() {
    let now: u64 = 1_000_000;
    assert_eq!(ev("x", now + 3 * DAY - 1).days_left(now), Some(2));
    assert_eq!(ev("x", now + 3 * DAY).days_left(now), Some(3));
    assert_eq!(ev("x", now + 3 * DAY + 1).days_left(now), Some(3));
    assert_eq!(ev("x", 4_294_967_295).days_left(0), Some(49710));
}

#[test]
fn system_time_is_the_instant() {
    assert_eq!(ev("x", 1234).system_time(), 1234);
}

#[test]
fn future_events_keeps_input_order() {
    let now: u64 = 10 * DAY;
    let events = vec![ev("b", now + 5 * DAY), ev("gone", now - 1), ev("a", now + DAY + 7)];
    assert_eq!(future_events(now, &events), vec![fe("b", 5), fe("a", 1)]);
}

#[test]
fn every_future_event_is_reported_with_its_days() {
    let now: u64 = 2_000_000;
    let events = vec![ev("p", now + 10 * DAY + 5), ev("q", now - 3), ev("r", now + 1)];
    let out = applicable_events(now, events, &args(Some(SortOrder::TimeAsc), None));
    assert_eq!(out, vec![fe("r", 0), fe("p", 10)]);
}

#[test]
fn ascending_output_is_nondecreasing() {
    let now: u64 = 0;
    let events: Vec<Event> = (0..30u64).map(|i| ev("e", 1 + ((i * 7919) % 31) * DAY)).collect();
    let out = applicable_events(now, events, &args(Some(SortOrder::TimeAsc), None));
    assert_eq!(out.len(), 30);
    for w in out.windows(2) {
        assert!(w[0].days_left <= w[1].days_left);
    }
}

#[test]
fn descending_output_is_nonincreasing() {
    let now: u64 = 0;
    let events: Vec<Event> = (0..30u64).map(|i| ev("e", 1 + ((i * 7919) % 31) * DAY)).collect();
    let out = applicable_events(now, events, &args(Some(SortOrder::TimeDesc), None));
    assert_eq!(out.len(), 30);
    for w in out.windows(2) {
        assert!(w[0].days_left >= w[1].days_left);
    }
}

#[test]
fn equal_days_keep_their_order() {
    let now: u64 = 0;
    let events = vec![ev("x1", DAY + 5), ev("y", 3 * DAY), ev("x2", DAY + 1), ev("x3", DAY + 9)];
    let asc = applicable_events(now, events.clone(), &args(Some(SortOrder::TimeAsc), None));
    assert_eq!(asc, vec![fe("x1", 1), fe("x2", 1), fe("x3", 1), fe("y", 3)]);
    let desc = applicable_events(now, events, &args(Some(SortOrder::TimeDesc), None));
    assert_eq!(desc, vec![fe("y", 3), fe("x1", 1), fe("x2", 1), fe("x3", 1)]);
}

fn as_pairs(v: &[FutureEvent]) -> Vec<(String, u16)> {
    let mut p: Vec<(String, u16)> = v.iter().map(|e| (e.name.clone(), e.days_left)).collect();
    p.sort();
    p
}

#[test]
fn shuffle_keeps_the_same_events() {
    let now: u64 = 100;
    let events: Vec<Event> = (0..20u64).map(|i| ev(&format!("e{}", i), now + 1 + i * DAY)).collect();
    let filtered = future_events(now, &events);
    for _ in 0..5 {
        let out = applicable_events(now, events.clone(), &args(Some(SortOrder::Shuffle), None));
        assert_eq!(as_pairs(&out), as_pairs(&filtered));
    }
}

#[test]
fn shuffle_reorders_events() {
    let events: Vec<FutureEvent> = (0..40u16).map(|i| fe(&format!("e{}", i), i)).collect();
    let mut changed = false;
    for _ in 0..3 {
        let out = sort_events(&events, &args(Some(SortOrder::Shuffle), None));
        assert_eq!(as_pairs(&out), as_pairs(&events));
        if out != events {
            changed = true;
        }
    }
    assert!(changed);
}

#[test]
fn limit_keeps_first_n() {
    let v = vec![1, 2, 3, 4];
    assert_eq!(limit_events(v.clone(), &args(None, Some(2))), vec![1, 2]);
    assert_eq!(limit_events(v.clone(), &args(None, Some(0))), Vec::<i32>::new());
    assert_eq!(limit_events(v.clone(), &args(None, Some(4))), v);
    assert_eq!(limit_events(v.clone(), &args(None, Some(9))), v);
    assert_eq!(limit_events(v.clone(), &args(None, None)), v);
}

#[test]
fn limit_applies_after_ordering() {
    let now: u64 = 0;
    let events = vec![ev("c", 3 * DAY), ev("a", DAY), ev("b", 2 * DAY), ev("d", 4 * DAY)];
    let out = applicable_events(now, events, &args(Some(SortOrder::TimeAsc), Some(3)));
    assert_eq!(out, vec![fe("a", 1), fe("b", 2), fe("c", 3)]);
}

#[test]
fn filtering_twice_changes_nothing() {
    let events = vec![ev("a", 50), ev("b", 150), ev("c", 100), ev("d", 101)];
    let once = filter_expired_events(100, &events);
    let twice = filter_expired_events(100, &once);
    assert_eq!(once, vec![ev("b", 150), ev("d", 101)]);
    assert_eq!(twice, once);
}

#[test]
fn order_tokens_parse() {
    assert_eq!(SortOrder::parse("shuffle"), Ok(SortOrder::Shuffle));
    assert_eq!(SortOrder::parse("time-asc"), Ok(SortOrder::TimeAsc));
    assert_eq!(SortOrder::parse("time-desc"), Ok(SortOrder::TimeDesc));
    assert_eq!("time-desc".parse::<SortOrder>(), Ok(SortOrder::TimeDesc));
    assert_eq!("shuffle".parse::<SortOrder>(), Ok(SortOrder::Shuffle));
    assert_eq!("time-asc".parse::<SortOrder>(), Ok(SortOrder::TimeAsc));
    assert_eq!("Time-Asc".parse::<SortOrder>(), Err(ArgsError::InvalidOrder("Time-Asc".to_string())));
    assert_eq!(SortOrder::parse("Time-Asc"), Err(ArgsError::InvalidOrder("Time-Asc".to_string())));
    assert_eq!(SortOrder::parse(""), Err(ArgsError::InvalidOrder(String::new())));
}

#[test]
fn collect_args_reads_order_and_limit() {
    assert_eq!(collect_args(None, None), Ok(args(None, None)));
    assert_eq!(collect_args(Some("time-desc"), Some("3")), Ok(args(Some(SortOrder::TimeDesc), Some(3))));
    assert_eq!(collect_args(None, Some("+12")), Ok(args(None, Some(12))));
    assert_eq!(collect_args(None, Some("0")), Ok(args(None, Some(0))));
}

#[test]
fn collect_args_rejects_bad_values() {
    assert_eq!(collect_args(Some("newest"), Some("x")), Err(ArgsError::InvalidOrder("newest".to_string())));
    assert_eq!(collect_args(Some("shuffle"), Some("x")), Err(ArgsError::InvalidLimit("x".to_string())));
    assert_eq!(collect_args(None, Some("")), Err(ArgsError::InvalidLimit(String::new())));
    assert_eq!(collect_args(None, Some("-1")), Err(ArgsError::InvalidLimit("-1".to_string())));
    assert_eq!(collect_args(None, Some("+")), Err(ArgsError::InvalidLimit("+".to_string())));
    assert_eq!(collect_args(None, Some(" 4")), Err(ArgsError::InvalidLimit(" 4".to_string())));
    let big = "99999999999999999999999";
    assert_eq!(collect_args(None, Some(big)), Err(ArgsError::InvalidLimit(big.to_string())));
}
