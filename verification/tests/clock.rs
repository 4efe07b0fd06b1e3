use meshcore::clock::ManualClock;
use meshcore::Clock;

#[test]
fn manual_clock_advances() {
    let mut c = ManualClock::new(1000);
    assert_eq!(c.now_ms(), 1000);
    assert_eq!(c.advance(250), 1250);
    assert_eq!(c.now_ms(), 1250);
    c.set(42);
    assert_eq!(c.now_ms(), 42);
}

#[test]
fn advance_saturates() {
    let mut c = ManualClock::new(u64::MAX - 1);
    assert_eq!(c.advance(100), u64::MAX);
}

#[test]
fn clock_trait_reads_the_same_time() {
    let c = ManualClock::new(77);
    assert_eq!(Clock::now_ms(&c), 77);
}
