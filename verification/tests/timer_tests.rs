use std::sync::{Arc, Mutex};
use timer::Timer;

type Action = Box<dyn FnOnce() + Send + Sync>;
type Log = Arc<Mutex<Vec<u64>>>;

fn new_log() -> Log {
    Arc::new(Mutex::new(Vec::new()))
}

fn recorder(log: &Log, tag: u64) -> Action {
    let log = Arc::clone(log);
    Box::new(move || log.lock().unwrap().push(tag))
}

fn taken(log: &Log) -> Vec<u64> {
    log.lock().unwrap().clone()
}

#[test]
fn early_tick_fires_only_matured_then_rest() {
    let log = new_log();
    let mut t: Timer<Action> = Timer::new();
    t.add(10, recorder(&log, 1));
    t.add(5, recorder(&log, 2));
    t.tick(7);
    assert_eq!(taken(&log), vec![2]);
    t.tick(10);
    assert_eq!(taken(&log), vec![2, 1]);
}

#[test]
fn equal_deadlines_fire_together_exactly_once() {
    let log = new_log();
    let mut t: Timer<Action> = Timer::new();
    t.add(5, recorder(&log, 1));
    t.add(5, recorder(&log, 2));
    t.tick(5);
    let mut fired = taken(&log);
    fired.sort();
    assert_eq!(fired, vec![1, 2]);
    t.tick(5);
    t.tick(9);
    assert_eq!(taken(&log).len(), 2);
}

#[test]
fn no_fire_before_deadline() {
    let log = new_log();
    let mut t: Timer<Action> = Timer::new();
    t.add(100, recorder(&log, 1));
    t.tick(50);
    assert_eq!(taken(&log), Vec::<u64>::new());
    t.tick(99);
    assert_eq!(taken(&log), Vec::<u64>::new());
    t.tick(100);
    assert_eq!(taken(&log), vec![1]);
}

#[test]
fn repeated_tick_with_same_now_fires_nothing_new() {
    let log = new_log();
    let mut t: Timer<Action> = Timer::new();
    t.add(3, recorder(&log, 1));
    t.add(8, recorder(&log, 2));
    t.tick(5);
    assert_eq!(taken(&log), vec![1]);
    t.tick(5);
    t.tick(5);
    assert_eq!(taken(&log), vec![1]);
    t.tick(2);
    assert_eq!(taken(&log), vec![1]);
}

#[test]
fn tick_on_empty_timer_is_noop() {
    let log = new_log();
    let mut t: Timer<Action> = Timer::new();
    t.tick(0);
    t.tick(u64::MAX);
    t.add(1, recorder(&log, 1));
    t.tick(1);
    assert_eq!(taken(&log), vec![1]);
    t.tick(2);
    t.tick(u64::MAX);
    assert_eq!(taken(&log), vec![1]);
}

#[test]
fn default_timer_is_empty() {
    let mut t: Timer<Action> = Timer::default();
    t.tick(u64::MAX);
    let fired = t.drain(u64::MAX);
    assert_eq!(fired.len(), 0);
}

#[test]
fn fires_in_nondecreasing_deadline_order() {
    let log = new_log();
    let mut t: Timer<Action> = Timer::new();
    for d in [7u64, 3, 9, 1, 8, 3] {
        t.add(d, recorder(&log, d));
    }
    t.tick(u64::MAX);
    assert_eq!(taken(&log), vec![1, 3, 3, 7, 8, 9]);
}

#[test]
fn drain_returns_matured_events_in_order_and_keeps_rest() {
    let log = new_log();
    let mut t: Timer<Action> = Timer::new();
    for d in [7u64, 3, 9, 1, 3] {
        t.add(d, recorder(&log, d));
    }
    let fired = t.drain(7);
    let deadlines: Vec<u64> = fired.iter().map(|e| e.deadline).collect();
    assert_eq!(deadlines, vec![1, 3, 3, 7]);
    for e in fired {
        (e.action)();
    }
    assert_eq!(taken(&log), vec![1, 3, 3, 7]);
    let rest = t.drain(u64::MAX);
    let rest_deadlines: Vec<u64> = rest.iter().map(|e| e.deadline).collect();
    assert_eq!(rest_deadlines, vec![9]);
}

#[test]
fn drain_on_empty_returns_nothing() {
    let mut t: Timer<Action> = Timer::new();
    let fired = t.drain(42);
    assert_eq!(fired.len(), 0);
}

#[test]
fn past_deadline_add_fires_on_next_tick_not_on_add() {
    let log = new_log();
    let mut t: Timer<Action> = Timer::new();
    t.tick(100);
    t.add(5, recorder(&log, 1));
    assert_eq!(taken(&log), Vec::<u64>::new());
    t.tick(100);
    assert_eq!(taken(&log), vec![1]);
}

#[test]
fn largest_deadline_fires_only_at_largest_now() {
    let log = new_log();
    let mut t: Timer<Action> = Timer::new();
    t.add(u64::MAX, recorder(&log, 1));
    t.tick(u64::MAX - 1);
    assert_eq!(taken(&log), Vec::<u64>::new());
    t.tick(u64::MAX);
    assert_eq!(taken(&log), vec![1]);
}

#[test]
fn every_matured_action_fires_exactly_once_across_ticks() {
    let log = new_log();
    let mut t: Timer<Action> = Timer::new();
    for d in [2u64, 4, 4, 6, 11] {
        t.add(d, recorder(&log, d));
    }
    t.tick(3);
    t.tick(3);
    t.tick(10);
    t.tick(10);
    t.tick(11);
    t.tick(11);
    assert_eq!(taken(&log), vec![2, 4, 4, 6, 11]);
}
