use delayed_stream::{Advance, DelayedStream, KeyValue, SourcePoll, Timer, TimerOp};

const A: u64 = 'A' as u64;
const B: u64 = 'B' as u64;
const C: u64 = 'C' as u64;

/// A host on a made-up clock. The source hands out `schedule[i] = (at, key,
/// value)` at the instant `at`; the timer fires once the clock has reached its
/// deadline. The host comes back whenever the source or the timer is ready,
/// and at once after it took an item in. It returns what left, with the
/// instant at which it left.
fn drive(delay: u64, schedule: &[(u64, u64, u64)]) -> Vec<(u64, u64, u64)> {
    let mut stream = DelayedStream::<(u64, u64)>::new(delay);
    let mut deadline: Option<u64> = None;
    let mut left = Vec::new();
    let mut next = 0;
    let mut now = 0;
    loop {
        let polled = if next == schedule.len() {
            SourcePoll::Finished
        } else if schedule[next].0 <= now {
            next += 1;
            SourcePoll::Item((schedule[next - 1].1, schedule[next - 1].2))
        } else {
            SourcePoll::Pending
        };
        let took_item = matches!(polled, SourcePoll::Item(_));
        match stream.source_step(polled, now) {
            TimerOp::Arm(wait) => deadline = Some(now + wait),
            TimerOp::Clear => deadline = None,
            TimerOp::Keep => {}
        }
        let fired = deadline.map_or(false, |d| now >= d);
        let (end, order) = stream.timer_step(fired, now);
        match order {
            TimerOp::Arm(wait) => deadline = Some(now + wait),
            TimerOp::Clear => deadline = None,
            TimerOp::Keep => {}
        }
        assert_eq!(deadline.is_some(), stream.timer().is_some());
        match end {
            Advance::Item((key, value)) => left.push((now, key, value)),
            Advance::Finished => break,
            Advance::Pending => {
                if !took_item {
                    let arrival = if next < schedule.len() { Some(schedule[next].0) } else { None };
                    now = match (arrival, deadline) {
                        (Some(a), Some(d)) => a.min(d),
                        (Some(a), None) => a,
                        (None, Some(d)) => d,
                        (None, None) => panic!("nothing will wake the host"),
                    };
                }
            }
        }
    }
    assert!(stream.is_finished());
    left
}

fn items(left: &[(u64, u64, u64)]) -> Vec<(u64, u64)> {
    left.iter().map(|l| (l.1, l.2)).collect()
}

/// Items that follow one another `gap` ticks apart, the first after `gap`.
fn spaced(gap: u64, values: &[(u64, u64)]) -> Vec<(u64, u64, u64)> {
    let mut at = 0;
    let mut schedule = Vec::new();
    for v in values {
        at += gap;
        schedule.push((at, v.0, v.1));
    }
    schedule
}

#[test]
fn same_key_test() {
    let values = vec![(A, 1), (A, 2), (A, 3)];
    let res = items(&drive(10, &spaced(0, &values)));
    assert_eq!(1, res.len());
    assert_eq!(3, res[0].1);
    assert_eq!(res, vec![(A, 3)]);
}

#[test]
fn different_key_test() {
    let values = vec![(A, 1), (B, 2), (C, 3)];
    let res = items(&drive(10, &spaced(0, &values)));
    assert_eq!(3, res.len());
    assert_eq!(values, res);
}

#[test]
fn same_key_delayed_test() {
    let values = vec![(A, 1u64), (A, 2), (A, 3)];
    let res = items(&drive(10, &spaced(20, &values)));
    assert_eq!(3, res.len());
    assert_eq!(values, res);
}

#[test]
fn same_key_little_delayed_test() {
    let values = vec![(A, 1u64), (A, 2), (A, 3)];
    let res = items(&drive(10, &spaced(5, &values)));
    assert_eq!(1, res.len());
    assert_eq!(3, res[0].1);
}

struct Lcg(u64);

impl Lcg {
    fn below(&mut self, n: u64) -> u64 {
        self.0 = self.0.wrapping_mul(6364136223846793005).wrapping_add(1442695040888963407);
        (self.0 >> 33) % n
    }
}

fn rand_stream(delay: u64, seed: u64) -> (Vec<(u64, u64, u64)>, Vec<(u64, u64)>) {
    let step = 3;
    let steps = 10;
    let size = 100;
    let mut rng = Lcg(seed);
    let mut schedule = Vec::with_capacity(size);
    let mut at = 0;
    for i in 0..size {
        let key = A + rng.below(10);
        let d = (1 + rng.below(steps)) * step;
        at += d;
        schedule.push((at, key, i as u64));
    }
    let res = items(&drive(delay, &schedule));
    (schedule, res)
}

#[test]
fn rand_stream_test() {
    for seed in 1..6 {
        let (_, res) = rand_stream(2000, seed);
        println!("result({}): {:?}", res.len(), res);
        assert_eq!(10, res.len());

        let (_, res) = rand_stream(100, seed);
        println!("result({}): {:?}", res.len(), res);
        assert!(res.len() > 30);
        assert!(res.len() < 90);
    }
}

#[test]
fn random_load_stays_between_the_bounds() {
    for seed in 1..20 {
        for delay in [0, 1, 7, 30, 100, 500, 5000] {
            let (schedule, res) = rand_stream(delay, seed);
            assert!(res.len() <= schedule.len());
            let mut keys: Vec<u64> = schedule.iter().map(|s| s.1).collect();
            keys.sort();
            keys.dedup();
            assert!(res.len() >= keys.len());
            for key in keys {
                let last_in = schedule.iter().rev().find(|s| s.1 == key).unwrap().2;
                let last_out = res.iter().rev().find(|r| r.0 == key).unwrap().1;
                assert_eq!(last_in, last_out);
            }
        }
    }
}

#[test]
fn nothing_leaves_before_its_delay() {
    for seed in 1..10 {
        let step = 3;
        let mut rng = Lcg(seed);
        let mut schedule = Vec::new();
        let mut at = 0;
        for i in 0..60u64 {
            at += (1 + rng.below(10)) * step;
            schedule.push((at, A + rng.below(4), i));
        }
        let delay = 20;
        for (when, key, value) in drive(delay, &schedule) {
            let arrived = schedule.iter().find(|s| s.1 == key && s.2 == value).unwrap().0;
            assert_eq!(when, arrived + delay);
        }
    }
}

#[test]
fn single_item_leaves_exactly_after_the_delay() {
    let left = drive(10, &[(7, A, 1)]);
    assert_eq!(left, vec![(17, A, 1)]);
}

#[test]
fn burst_is_held_until_the_key_is_quiet() {
    let left = drive(10, &[(0, A, 1), (9, A, 2), (18, A, 3), (27, A, 4)]);
    assert_eq!(left, vec![(37, A, 4)]);
}

#[test]
fn a_burst_of_one_key_leaves_the_others_alone() {
    let left = drive(10, &[(0, B, 1), (1, A, 1), (5, A, 2), (9, A, 3), (13, A, 4)]);
    assert_eq!(left, vec![(10, B, 1), (23, A, 4)]);
}

#[test]
fn update_exactly_at_the_delay_is_merged_when_the_source_is_polled_first() {
    let left = drive(10, &[(0, A, 1), (10, A, 2)]);
    assert_eq!(left, vec![(20, A, 2)]);
}

#[test]
fn zero_delay_passes_everything_through() {
    let left = drive(0, &[(0, A, 1), (0, A, 2), (0, B, 3), (4, A, 4)]);
    assert_eq!(left, vec![(0, A, 1), (0, A, 2), (0, B, 3), (4, A, 4)]);
}

#[test]
fn empty_source_finishes_at_once() {
    let left = drive(10, &[]);
    assert!(left.is_empty());
    let mut stream = DelayedStream::<(u64, u64)>::new(10);
    assert!(!stream.is_finished());
    assert!(matches!(stream.advance(SourcePoll::Finished, 0), Advance::Finished));
    assert!(stream.is_finished());
}

#[test]
fn new_stream_is_idle() {
    let stream = DelayedStream::<(u64, u64)>::new(25);
    assert_eq!(stream.delay(), 25);
    assert_eq!(stream.timer(), None);
    assert!(!stream.input_finished());
    assert!(!stream.is_finished());
}

#[test]
fn arrival_arms_the_timer_for_the_whole_delay() {
    let mut stream = DelayedStream::<(u64, u64)>::new(10);
    assert_eq!(stream.source_step(SourcePoll::Item((A, 1)), 100), TimerOp::Arm(10));
    assert_eq!(stream.timer(), Some(Timer { armed_at: 100, wait: 10 }));
}

#[test]
fn arrival_behind_a_waiting_entry_arms_for_the_rest_of_its_wait() {
    let mut stream = DelayedStream::<(u64, u64)>::new(10);
    assert_eq!(stream.source_step(SourcePoll::Item((A, 1)), 100), TimerOp::Arm(10));
    assert_eq!(stream.source_step(SourcePoll::Item((B, 2)), 104), TimerOp::Arm(6));
    assert_eq!(stream.timer(), Some(Timer { armed_at: 104, wait: 6 }));
    assert_eq!(stream.source_step(SourcePoll::Item((C, 3)), 110), TimerOp::Arm(0));
    assert_eq!(stream.timer(), Some(Timer { armed_at: 110, wait: 0 }));
}

#[test]
fn overdue_front_gets_a_zero_wait_and_is_not_dropped() {
    let mut stream = DelayedStream::<(u64, u64)>::new(10);
    assert_eq!(stream.source_step(SourcePoll::Item((A, 1)), 0), TimerOp::Arm(10));
    assert_eq!(stream.source_step(SourcePoll::Item((B, 2)), 500), TimerOp::Arm(0));
    let (end, order) = stream.timer_step(true, 500);
    assert!(matches!(end, Advance::Item((k, v)) if k == A && v == 1));
    assert_eq!(order, TimerOp::Arm(10));
}

#[test]
fn touching_the_front_key_hands_the_timer_to_the_next_entry() {
    let mut stream = DelayedStream::<(u64, u64)>::new(10);
    stream.source_step(SourcePoll::Item((A, 1)), 0);
    stream.source_step(SourcePoll::Item((B, 2)), 3);
    assert_eq!(stream.source_step(SourcePoll::Item((A, 9)), 5), TimerOp::Arm(8));
    let (end, order) = stream.timer_step(true, 13);
    assert!(matches!(end, Advance::Item((k, v)) if k == B && v == 2));
    assert_eq!(order, TimerOp::Arm(2));
    let (end, order) = stream.timer_step(true, 15);
    assert!(matches!(end, Advance::Item((k, v)) if k == A && v == 9));
    assert_eq!(order, TimerOp::Clear);
    assert_eq!(stream.timer(), None);
}

#[test]
fn clock_that_went_back_counts_as_no_time_waited() {
    let mut stream = DelayedStream::<(u64, u64)>::new(10);
    stream.source_step(SourcePoll::Item((A, 1)), 100);
    assert_eq!(stream.source_step(SourcePoll::Item((B, 2)), 50), TimerOp::Arm(10));
}

#[test]
fn pending_source_changes_nothing() {
    let mut stream = DelayedStream::<(u64, u64)>::new(10);
    assert_eq!(stream.source_step(SourcePoll::Pending, 3), TimerOp::Keep);
    assert_eq!(stream.timer(), None);
    assert!(!stream.input_finished());
    stream.source_step(SourcePoll::Item((A, 1)), 4);
    assert_eq!(stream.source_step(SourcePoll::Pending, 9), TimerOp::Keep);
    assert_eq!(stream.timer(), Some(Timer { armed_at: 4, wait: 10 }));
}

#[test]
fn timer_that_did_not_fire_releases_nothing() {
    let mut stream = DelayedStream::<(u64, u64)>::new(10);
    stream.source_step(SourcePoll::Item((A, 1)), 0);
    let (end, order) = stream.timer_step(false, 50);
    assert!(matches!(end, Advance::Pending));
    assert_eq!(order, TimerOp::Keep);
    assert_eq!(stream.timer(), Some(Timer { armed_at: 0, wait: 10 }));
}

#[test]
fn fired_counts_for_nothing_without_a_timer() {
    let mut stream = DelayedStream::<(u64, u64)>::new(10);
    let (end, order) = stream.timer_step(true, 50);
    assert!(matches!(end, Advance::Pending));
    assert_eq!(order, TimerOp::Keep);
}

#[test]
fn finished_source_does_not_flush_what_waits() {
    let mut stream = DelayedStream::<(u64, u64)>::new(10);
    stream.source_step(SourcePoll::Item((A, 1)), 0);
    stream.source_step(SourcePoll::Item((B, 2)), 2);
    assert_eq!(stream.source_step(SourcePoll::Finished, 3), TimerOp::Keep);
    assert!(stream.input_finished());
    assert!(!stream.is_finished());
    assert_eq!(stream.timer(), Some(Timer { armed_at: 2, wait: 8 }));
    let (end, _) = stream.timer_step(false, 3);
    assert!(matches!(end, Advance::Pending));
    let (end, order) = stream.timer_step(true, 10);
    assert!(matches!(end, Advance::Item((k, v)) if k == A && v == 1));
    assert_eq!(order, TimerOp::Arm(2));
    assert!(!stream.is_finished());
    let (end, order) = stream.timer_step(true, 12);
    assert!(matches!(end, Advance::Item((k, v)) if k == B && v == 2));
    assert_eq!(order, TimerOp::Clear);
    assert!(stream.is_finished());
    let (end, order) = stream.timer_step(false, 12);
    assert!(matches!(end, Advance::Finished));
    assert_eq!(order, TimerOp::Keep);
}

#[test]
fn finished_stream_stays_finished() {
    let mut stream = DelayedStream::<(u64, u64)>::new(10);
    stream.source_step(SourcePoll::Item((A, 1)), 0);
    stream.source_step(SourcePoll::Finished, 0);
    let (end, _) = stream.timer_step(true, 10);
    assert!(matches!(end, Advance::Item(_)));
    for now in 10..15 {
        assert!(matches!(stream.advance(SourcePoll::Finished, now), Advance::Finished));
        assert!(matches!(stream.advance(SourcePoll::Pending, now), Advance::Finished));
        assert!(stream.is_finished());
        assert!(stream.input_finished());
        assert_eq!(stream.timer(), None);
    }
}

#[test]
fn advance_decides_the_timer_by_the_clock() {
    let mut stream = DelayedStream::<(u64, u64)>::new(10);
    assert!(matches!(stream.advance(SourcePoll::Item((A, 1)), 0), Advance::Pending));
    assert!(matches!(stream.advance(SourcePoll::Item((B, 2)), 9), Advance::Pending));
    assert!(matches!(stream.advance(SourcePoll::Pending, 9), Advance::Pending));
    assert!(matches!(stream.advance(SourcePoll::Pending, 10), Advance::Item((k, v)) if k == A && v == 1));
    assert!(matches!(stream.advance(SourcePoll::Finished, 18), Advance::Pending));
    assert!(matches!(stream.advance(SourcePoll::Finished, 19), Advance::Item((k, v)) if k == B && v == 2));
    assert!(matches!(stream.advance(SourcePoll::Finished, 19), Advance::Finished));
}

#[test]
fn advance_with_zero_delay_releases_in_the_same_advance() {
    let mut stream = DelayedStream::<(u64, u64)>::new(0);
    assert!(matches!(stream.advance(SourcePoll::Item((A, 1)), 5), Advance::Item((k, v)) if k == A && v == 1));
    assert_eq!(stream.timer(), None);
}

#[test]
fn timer_is_due_from_its_deadline_on() {
    let timer = Timer { armed_at: 100, wait: 10 };
    assert!(!timer.is_due(0));
    assert!(!timer.is_due(109));
    assert!(timer.is_due(110));
    assert!(timer.is_due(u64::MAX));
    let late = Timer { armed_at: u64::MAX, wait: 5 };
    assert!(!late.is_due(u64::MAX));
    let now = Timer { armed_at: 7, wait: 0 };
    assert!(now.is_due(7));
    assert!(!now.is_due(6));
}

struct Reading {
    sensor: u64,
    level: u64,
}

impl KeyValue<u64, u64> for Reading {
    fn split(self) -> (u64, u64) {
        (self.sensor, self.level)
    }

    fn unsplit(k: u64, v: u64) -> Self {
        Reading { sensor: k, level: v }
    }
}

#[test]
fn items_of_a_user_type_are_split_and_rebuilt() {
    let mut stream = DelayedStream::<Reading>::new(10);
    stream.source_step(SourcePoll::Item(Reading { sensor: 1, level: 20 }), 0);
    stream.source_step(SourcePoll::Item(Reading { sensor: 1, level: 21 }), 1);
    let (end, _) = stream.timer_step(true, 11);
    match end {
        Advance::Item(reading) => assert_eq!((reading.sensor, reading.level), (1, 21)),
        _ => panic!("an item is due"),
    }
}

#[test]
fn large_instants_do_not_overflow() {
    let mut stream = DelayedStream::<(u64, u64)>::new(u64::MAX);
    assert_eq!(stream.source_step(SourcePoll::Item((A, 1)), u64::MAX - 1), TimerOp::Arm(u64::MAX));
    assert_eq!(stream.source_step(SourcePoll::Item((B, 1)), u64::MAX), TimerOp::Arm(u64::MAX - 1));
    assert!(matches!(stream.advance(SourcePoll::Pending, u64::MAX), Advance::Pending));
}
