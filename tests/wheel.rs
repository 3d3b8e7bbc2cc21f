use timer_wheel::{TimerError, TimerWheel};

const MS: u64 = 1_000_000;
const T0: u64 = 5_000_000_000;

fn drain_all<T>(w: &mut TimerWheel<T>, now: u64) -> Vec<T> {
    let mut out = Vec::new();
    while let Some(p) = w.poll(now) {
        out.push(p);
    }
    out
}

#[test]
fn fires_once_when_due() {
    let mut w: TimerWheel<u32> = TimerWheel::new(T0);
    w.insert(T0 + 430 * MS, 7).unwrap();
    assert_eq!(w.poll(T0 + 500 * MS), Some(7));
    assert_eq!(w.poll(T0 + 500 * MS), None);
    assert_eq!(w.poll(T0 + 900 * MS), None);
}

#[test]
fn not_fired_before_its_tick() {
    let mut w: TimerWheel<u32> = TimerWheel::new(T0);
    // 430 ms rounds to tick 4; 340 ms rounds to tick 3.
    w.insert(T0 + 430 * MS, 1).unwrap();
    assert_eq!(w.poll(T0 + 340 * MS), None);
    assert_eq!(w.poll(T0 + 360 * MS), Some(1));
}

#[test]
fn earlier_deadline_fires_no_later() {
    let mut w: TimerWheel<&str> = TimerWheel::new(T0);
    w.insert(T0 + 900 * MS, "late").unwrap();
    w.insert(T0 + 300 * MS, "early").unwrap();
    assert_eq!(drain_all(&mut w, T0 + 500 * MS), vec!["early"]);
    assert_eq!(drain_all(&mut w, T0 + 900 * MS), vec!["late"]);
}

#[test]
fn both_fire_in_deadline_order_across_polls() {
    let mut w: TimerWheel<u8> = TimerWheel::new(T0);
    w.insert(T0 + 1200 * MS, 2).unwrap();
    w.insert(T0 + 200 * MS, 1).unwrap();
    let mut fired = Vec::new();
    let mut now = T0;
    while fired.len() < 2 {
        now += 100 * MS;
        fired.extend(drain_all(&mut w, now));
    }
    assert_eq!(fired, vec![1, 2]);
}

#[test]
fn cancel_before_firing() {
    let mut w: TimerWheel<String> = TimerWheel::new(T0);
    let h = w.insert(T0 + 300 * MS, "x".to_string()).unwrap();
    assert_eq!(w.cancel(&h), Some("x".to_string()));
    assert_eq!(drain_all(&mut w, T0 + 10_000 * MS), Vec::<String>::new());
}

#[test]
fn cancel_after_firing_is_absent() {
    let mut w: TimerWheel<u32> = TimerWheel::new(T0);
    let h = w.insert(T0 + 300 * MS, 5).unwrap();
    assert_eq!(w.poll(T0 + 300 * MS), Some(5));
    assert_eq!(w.cancel(&h), None);
}

#[test]
fn cancel_twice_is_absent() {
    let mut w: TimerWheel<u32> = TimerWheel::new(T0);
    let h = w.insert(T0 + 300 * MS, 5).unwrap();
    assert_eq!(w.cancel(&h), Some(5));
    assert_eq!(w.cancel(&h), None);
}

#[test]
fn stale_handle_does_not_cancel_new_occupant() {
    let mut w: TimerWheel<u32> = TimerWheel::new(T0);
    let h = w.insert(T0 + 300 * MS, 5).unwrap();
    assert_eq!(w.cancel(&h), Some(5));
    let h2 = w.insert(T0 + 700 * MS, 6).unwrap();
    assert_eq!(h2.index(), h.index());
    assert_eq!(w.cancel(&h), None);
    assert_eq!(drain_all(&mut w, T0 + 700 * MS), vec![6]);
}

#[test]
fn handle_reports_deadline_and_index() {
    let mut w: TimerWheel<u32> = TimerWheel::new(T0);
    let h = w.insert(T0 + 300 * MS, 5).unwrap();
    assert!(h.index() != 0);
    assert_eq!(h.when(), T0 + 300 * MS);
    assert_eq!(w.cancel(&h), Some(5));
}

#[test]
fn growth_beyond_initial_capacity_keeps_entries() {
    let mut w: TimerWheel<u32> = TimerWheel::new(T0);
    for i in 0..1000u32 {
        w.insert(T0 + (100 + (i as u64 % 50) * 100) * MS, i).unwrap();
    }
    let mut got = drain_all(&mut w, T0 + 6000 * MS);
    got.sort();
    assert_eq!(got, (0..1000u32).collect::<Vec<_>>());
}

#[test]
fn deferred_entry_still_fires() {
    let mut w: TimerWheel<u32> = TimerWheel::new(T0);
    assert_eq!(w.poll(T0 + 1000 * MS), None);
    // The drain has passed tick 10; a deadline in the past is deferred.
    w.insert(T0 + 200 * MS, 9).unwrap();
    assert_eq!(drain_all(&mut w, T0 + 1200 * MS), vec![9]);
}

#[test]
fn deferred_entry_in_current_slot_fires_later() {
    let mut w: TimerWheel<u32> = TimerWheel::new(T0);
    w.insert(T0 + 500 * MS, 1).unwrap();
    w.insert(T0 + 500 * MS, 2).unwrap();
    assert!(w.poll(T0 + 500 * MS).is_some());
    // Mid-drain, insert at the tick being drained.
    w.insert(T0 + 500 * MS, 3).unwrap();
    let mut rest = drain_all(&mut w, T0 + 500 * MS);
    rest.extend(drain_all(&mut w, T0 + 2000 * MS));
    rest.sort();
    assert_eq!(rest.len(), 2);
    assert!(rest.contains(&3));
}

#[test]
fn scenario_from_creation() {
    let mut w: TimerWheel<&str> = TimerWheel::new(T0);
    w.insert(T0 + 50 * MS, "a").unwrap();
    assert_eq!(w.poll(T0 + 150 * MS), Some("a"));
    assert_eq!(w.poll(T0 + 150 * MS), None);
    w.insert(T0 + 10 * MS, "b").unwrap();
    w.insert(T0 + 10 * MS, "c").unwrap();
    // The drain has already passed tick 2, so both were deferred to tick 4.
    assert_eq!(w.poll(T0 + 200 * MS), None);
    let mut got = drain_all(&mut w, T0 + 350 * MS);
    got.sort();
    assert_eq!(got, vec!["b", "c"]);
    assert_eq!(w.poll(T0 + 350 * MS), None);
}

#[test]
fn overflow_is_refused() {
    let mut w: TimerWheel<u32> = TimerWheel::new(T0);
    assert_eq!(w.insert(u64::MAX - 10, 1).map(|h| h.when()), Err(TimerError::Overflow));
    assert_eq!(w.next_timeout(), None);
}

#[test]
fn next_timeout_values() {
    let mut w: TimerWheel<u32> = TimerWheel::new(T0);
    assert_eq!(w.next_timeout(), None);
    // 430 ms rounds to tick 4, which starts at 400 ms: the cache keeps 430 ms.
    w.insert(T0 + 430 * MS, 1).unwrap();
    assert_eq!(w.next_timeout(), Some(T0 + 480 * MS));
    // 960 ms rounds to tick 10, which starts at 1000 ms: clamped to the tick start.
    w.insert(T0 + 960 * MS, 2).unwrap();
    assert_eq!(w.next_timeout(), Some(T0 + 480 * MS));
    assert_eq!(drain_all(&mut w, T0 + 500 * MS), vec![1]);
    let h = w.insert(T0 + 2000 * MS, 3).unwrap();
    assert_eq!(w.cancel(&h), Some(3));
    let mut v = TimerWheel::<u32>::new(T0);
    v.insert(T0 + 960 * MS, 2).unwrap();
    assert_eq!(v.next_timeout(), Some(T0 + 1050 * MS));
}

#[test]
fn deferred_deadline_does_not_wake_early() {
    let mut w: TimerWheel<u32> = TimerWheel::new(T0);
    assert_eq!(w.poll(T0 + 1000 * MS), None);
    // The drain stands on tick 11 now; deadline 300 ms is long past, so it
    // is deferred to tick 12, which starts at 1200 ms.
    w.insert(T0 + 300 * MS, 4).unwrap();
    let wake = w.next_timeout().unwrap();
    assert_eq!(wake, T0 + 1250 * MS);
    assert!(wake >= T0 + 300 * MS);
    assert_eq!(w.poll(wake), Some(4));
}

#[test]
fn equal_deadlines_same_tick() {
    let mut w: TimerWheel<u32> = TimerWheel::new(T0);
    w.insert(T0 + 250 * MS, 1).unwrap();
    w.insert(T0 + 250 * MS, 2).unwrap();
    assert_eq!(w.poll(T0 + 240 * MS), None);
    let mut got = drain_all(&mut w, T0 + 250 * MS);
    got.sort();
    assert_eq!(got, vec![1, 2]);
}

#[test]
fn wraps_around_the_ring() {
    let mut w: TimerWheel<u32> = TimerWheel::new(T0);
    // Ticks 3 and 259 share a slot.
    w.insert(T0 + 25_900 * MS, 2).unwrap();
    w.insert(T0 + 300 * MS, 1).unwrap();
    assert_eq!(drain_all(&mut w, T0 + 300 * MS), vec![1]);
    assert_eq!(drain_all(&mut w, T0 + 25_800 * MS), Vec::<u32>::new());
    assert_eq!(drain_all(&mut w, T0 + 25_900 * MS), vec![2]);
}

#[test]
fn next_timeout_present_after_drain_with_survivors() {
    let mut w: TimerWheel<u32> = TimerWheel::new(T0);
    w.insert(T0 + 300 * MS, 1).unwrap();
    // Tick 259 shares tick 3's slot, so the drain visits it and keeps it.
    w.insert(T0 + 25_900 * MS, 2).unwrap();
    assert_eq!(drain_all(&mut w, T0 + 300 * MS), vec![1]);
    // Due at 25 900 ms; the cache was rebuilt from the survivor.
    assert_eq!(w.next_timeout(), Some(T0 + 25_950 * MS));
}
