use sdl2_mt::backlog::{survives_replay, EventBacklog, CAPACITY};

fn contents(backlog: &EventBacklog<u32>) -> Vec<u32> {
    let mut out = Vec::new();
    let mut i = 0;
    while let Some(event) = backlog.get(i) {
        out.push(*event);
        i += 1;
    }
    out
}

fn numbered(from: u32, count: u32) -> Vec<u32> {
    (from..from + count).collect()
}

#[test]
fn capacity_is_two_thousand() {
    assert_eq!(CAPACITY, 2000);
}

#[test]
fn new_backlog_is_empty() {
    let backlog: EventBacklog<u32> = EventBacklog::new();
    assert_eq!(backlog.len(), 0);
    assert!(backlog.is_empty());
    assert!(backlog.get(0).is_none());
}

#[test]
fn get_reads_by_age_and_stops_at_the_end() {
    let mut backlog = EventBacklog::new();
    backlog.dispatch(vec![7u32, 8, 9], |_| false);
    assert_eq!(backlog.get(0), Some(&7));
    assert_eq!(backlog.get(1), Some(&8));
    assert_eq!(backlog.get(2), Some(&9));
    assert_eq!(backlog.get(3), None);
    assert_eq!(backlog.get(usize::MAX), None);
    assert!(!backlog.is_empty());
}

#[test]
fn unclaimed_fresh_events_wait_in_arrival_order() {
    let mut backlog = EventBacklog::new();
    backlog.dispatch(vec![10u32, 20, 30, 40], |event| *event == 20);
    assert_eq!(contents(&backlog), vec![10, 30, 40]);
}

#[test]
fn a_cycle_without_events_calls_nobody() {
    let mut backlog: EventBacklog<u32> = EventBacklog::new();
    let mut calls = 0;
    backlog.dispatch(Vec::new(), |_| {
        calls += 1;
        false
    });
    assert_eq!(calls, 0);
    assert!(backlog.is_empty());
}

#[test]
fn claimed_event_is_never_offered_again() {
    let mut backlog = EventBacklog::new();
    backlog.dispatch(vec![1u32, 2, 3], |_| false);
    assert_eq!(contents(&backlog), vec![1, 2, 3]);

    backlog.dispatch(Vec::new(), |event| *event == 2);
    assert_eq!(contents(&backlog), vec![1, 3]);

    for _ in 0..5 {
        let mut seen = Vec::new();
        backlog.dispatch(Vec::new(), |event| {
            seen.push(*event);
            false
        });
        assert_eq!(seen, vec![1, 3]);
        assert_eq!(contents(&backlog), vec![1, 3]);
    }
}

#[test]
fn unclaimed_event_is_offered_in_every_cycle_until_claimed() {
    let mut backlog = EventBacklog::new();
    backlog.dispatch(vec![5u32], |_| false);
    let mut offers = 0;
    for _ in 0..3 {
        backlog.dispatch(Vec::new(), |event| {
            assert_eq!(*event, 5);
            offers += 1;
            false
        });
    }
    assert_eq!(offers, 3);
    backlog.dispatch(Vec::new(), |_| true);
    assert!(backlog.is_empty());
    backlog.dispatch(Vec::new(), |_| {
        offers += 1;
        false
    });
    assert_eq!(offers, 3);
}

#[test]
fn backlog_is_replayed_first_in_first_out() {
    let mut backlog = EventBacklog::new();
    backlog.dispatch(vec!["E1", "E2", "E3"], |_| false);

    let mut seen = Vec::new();
    backlog.dispatch(Vec::new(), |event| {
        seen.push(*event);
        *event == "E2"
    });
    assert_eq!(seen, vec!["E1", "E2", "E3"]);
    assert_eq!(backlog.len(), 2);
    assert_eq!(backlog.get(0), Some(&"E1"));
    assert_eq!(backlog.get(1), Some(&"E3"));
}

#[test]
fn backlog_is_offered_before_fresh_events() {
    let mut backlog = EventBacklog::new();
    backlog.dispatch(vec![1u32, 2], |_| false);
    let mut seen = Vec::new();
    backlog.dispatch(vec![3, 4], |event| {
        seen.push(*event);
        *event % 2 == 1
    });
    assert_eq!(seen, vec![1, 2, 3, 4]);
    assert_eq!(contents(&backlog), vec![2, 4]);
}

#[test]
fn one_event_over_capacity_evicts_the_single_oldest() {
    let mut backlog = EventBacklog::new();
    backlog.dispatch(numbered(0, 2001), |_| false);
    assert_eq!(backlog.len(), 2001);

    backlog.dispatch(Vec::new(), |_| false);
    assert_eq!(backlog.len(), 2000);
    assert_eq!(contents(&backlog), numbered(1, 2000));
}

#[test]
fn a_full_backlog_loses_nothing() {
    let mut backlog = EventBacklog::new();
    backlog.dispatch(numbered(0, 2000), |_| false);
    backlog.dispatch(Vec::new(), |_| false);
    assert_eq!(contents(&backlog), numbered(0, 2000));
    backlog.dispatch(Vec::new(), |_| false);
    assert_eq!(contents(&backlog), numbered(0, 2000));
}

#[test]
fn only_the_oldest_excess_is_evicted() {
    let mut backlog = EventBacklog::new();
    backlog.dispatch(numbered(0, 2005), |_| false);
    backlog.dispatch(Vec::new(), |_| false);
    assert_eq!(contents(&backlog), numbered(5, 2000));
}

#[test]
fn doomed_entries_are_still_offered() {
    let mut backlog = EventBacklog::new();
    backlog.dispatch(numbered(0, 2003), |_| false);
    let mut seen = Vec::new();
    backlog.dispatch(Vec::new(), |event| {
        seen.push(*event);
        false
    });
    assert_eq!(seen, numbered(0, 2003));
    assert_eq!(contents(&backlog), numbered(3, 2000));
}

#[test]
fn claims_and_eviction_work_together() {
    let mut backlog = EventBacklog::new();
    backlog.dispatch(numbered(0, 2002), |_| false);
    // 0 and 1 are given up whatever the answer; of the others the even ones are claimed.
    backlog.dispatch(Vec::new(), |event| *event % 2 == 0);
    let expected: Vec<u32> = (2..2002).filter(|n| n % 2 == 1).collect();
    assert_eq!(expected.len(), 1000);
    assert_eq!(contents(&backlog), expected);
}

#[test]
fn fresh_events_are_not_capped_until_the_next_cycle() {
    let mut backlog = EventBacklog::new();
    backlog.dispatch(numbered(0, 2000), |_| false);
    backlog.dispatch(numbered(2000, 10), |_| false);
    assert_eq!(backlog.len(), 2010);
    assert_eq!(contents(&backlog), numbered(0, 2010));

    backlog.dispatch(numbered(2010, 1), |_| false);
    assert_eq!(backlog.len(), 2001);
    assert_eq!(contents(&backlog), numbered(10, 2001));
}

#[test]
fn replay_alone_offers_the_backlog_and_keeps_the_unclaimed() {
    let mut backlog = EventBacklog::new();
    backlog.deliver(vec![1u32, 2, 3, 4], |_| false);
    let mut seen = Vec::new();
    backlog.replay(|event| {
        seen.push(*event);
        *event > 2
    });
    assert_eq!(seen, vec![1, 2, 3, 4]);
    assert_eq!(contents(&backlog), vec![1, 2]);
}

#[test]
fn deliver_alone_appends_behind_the_backlog() {
    let mut backlog = EventBacklog::new();
    backlog.deliver(vec![1u32, 2], |_| false);
    let mut seen = Vec::new();
    backlog.deliver(vec![3, 4, 5], |event| {
        seen.push(*event);
        *event == 4
    });
    assert_eq!(seen, vec![3, 4, 5]);
    assert_eq!(contents(&backlog), vec![1, 2, 3, 5]);
}

#[test]
fn deliver_never_evicts() {
    let mut backlog = EventBacklog::new();
    backlog.deliver(numbered(0, 2500), |_| false);
    assert_eq!(backlog.len(), 2500);
    backlog.replay(|_| false);
    assert_eq!(contents(&backlog), numbered(500, 2000));
}

#[test]
fn equal_events_are_kept_apart() {
    let mut backlog = EventBacklog::new();
    let mut first = true;
    backlog.dispatch(vec![9u32, 9], |_| {
        let claim = first;
        first = false;
        claim
    });
    assert_eq!(contents(&backlog), vec![9]);
}

#[test]
fn events_are_moved_not_copied() {
    let mut backlog: EventBacklog<String> = EventBacklog::new();
    backlog.dispatch(vec![String::from("resize"), String::from("quit")], |event| event == "quit");
    assert_eq!(backlog.len(), 1);
    assert_eq!(backlog.get(0).map(|s| s.as_str()), Some("resize"));
}

#[test]
fn a_claimed_entry_never_survives_replay() {
    assert!(!survives_replay(0, 1, true));
    assert!(!survives_replay(5, 10, true));
    assert!(!survives_replay(2000, 2001, true));
    assert!(!survives_replay(0, 5000, true));
}

#[test]
fn an_unclaimed_entry_survives_replay_within_capacity() {
    assert!(survives_replay(0, 1, false));
    assert!(survives_replay(0, 2000, false));
    assert!(survives_replay(1999, 2000, false));
}

#[test]
fn the_threshold_is_the_length_less_the_capacity() {
    assert!(!survives_replay(0, 2001, false));
    assert!(survives_replay(1, 2001, false));
    assert!(survives_replay(2000, 2001, false));
    assert!(!survives_replay(1999, 4000, false));
    assert!(survives_replay(2000, 4000, false));
    assert!(!survives_replay(usize::MAX - 2001, usize::MAX, false));
    assert!(survives_replay(usize::MAX - 2000, usize::MAX, false));
}
