use meshcore::relay::{
    rebroadcast_probability, relay_delay, relay_roll, RateLimiter, RelayScheduler, SeenCache,
};
use meshcore::{MsgType, Packet, Tunables};
use rand::rngs::StdRng;
use rand::SeedableRng;

fn cfg() -> Tunables {
    Tunables::default()
}

fn pkt(ttl: u8) -> Packet {
    Packet::new(MsgType::ChannelMessage, ttl, 1, [1; 8], None, vec![1, 2, 3])
}

#[test]
fn dedup_first_is_new_rest_are_not() {
    let mut c = SeenCache::new(cfg());
    let d = [1u8; 8];
    assert!(c.observe(d, 0).is_new);
    let o = c.observe(d, 1);
    assert!(!o.is_new);
    assert_eq!(o.hear_count, 2);
    assert_eq!(c.hear_count(&d), 2);
}

#[test]
fn seen_cache_evicts_expired() {
    let mut c = SeenCache::new(cfg());
    c.observe([1; 8], 0);
    assert_eq!(c.len(), 1);
    c.evict_expired(5 * 60_000 + 1);
    assert_eq!(c.len(), 0);
}

#[test]
fn rate_limiter_allows_burst_then_greylists() {
    let mut rl = RateLimiter::new(cfg());
    let s = [9u8; 8];
    // Burst of 10 should pass at t=0.
    for _ in 0..10 {
        assert!(rl.allow(s, 0));
    }
    // 11th at the same instant is denied and greylists.
    assert!(!rl.allow(s, 0));
    assert!(rl.is_greylisted(&s, 0));
    // Still greylisted a moment later.
    assert!(!rl.allow(s, 1000));
}

#[test]
fn rate_limiter_refills_over_time() {
    let mut rl = RateLimiter::new(cfg());
    let s = [4u8; 8];
    for _ in 0..10 {
        assert!(rl.allow(s, 0));
    }
    assert!(!rl.allow(s, 0));
    // After the greylist expires and enough time to refill a token (~2s at 30/min).
    assert!(rl.allow(s, 63_000));
}

#[test]
fn scheduler_releases_when_due() {
    let mut sched = RelayScheduler::new(cfg());
    let seen = SeenCache::new(cfg());
    let p = pkt(5);
    sched.schedule([2; 8], p, 1, 100, 0);
    assert!(sched.due(50, &seen).is_empty()); // not yet
    let due = sched.due(150, &seen);
    assert_eq!(due.len(), 1);
    assert_eq!(due[0].exclude_link, 1);
}

#[test]
fn scheduler_suppresses_when_overheard() {
    let mut sched = RelayScheduler::new(cfg());
    let mut seen = SeenCache::new(cfg());
    let d = [3; 8];
    seen.observe(d, 0);
    sched.schedule(d, pkt(5), 1, 100, 0);
    // Overhear it 3 times (threshold) before it fires.
    seen.observe(d, 10);
    seen.observe(d, 20);
    assert_eq!(seen.hear_count(&d), 3);
    assert!(sched.due(150, &seen).is_empty()); // suppressed
}

#[test]
fn probability_thins_with_density() {
    let c = cfg();
    assert_eq!(rebroadcast_probability(2, &c), 1_000_000);
    assert_eq!(rebroadcast_probability(5, &c), 700_000);
    assert_eq!(rebroadcast_probability(9, &c), 450_000);
}

#[test]
fn relay_delay_within_window() {
    let c = cfg();
    let mut rng = StdRng::seed_from_u64(42);
    for _ in 0..100 {
        let d = relay_delay(&c, &mut rng);
        assert!(d >= c.jitter_min_ms && d <= c.jitter_max_ms);
    }
}

#[test]
fn relay_roll_compares_the_draw_with_the_probability() {
    let c = cfg();
    assert!(relay_roll(9, &c, 449_999));
    assert!(!relay_roll(9, &c, 450_000));
    assert!(relay_roll(2, &c, 999_999));
}

#[test]
fn seen_cache_evicts_oldest_when_full() {
    let mut small = cfg();
    small.seen_cache_capacity = 2;
    let mut c = SeenCache::new(small);
    c.observe([1; 8], 10);
    c.observe([2; 8], 5);
    c.observe([3; 8], 20); // full: the entry first seen at 5 goes
    assert_eq!(c.len(), 2);
    assert_eq!(c.hear_count(&[2; 8]), 0);
    assert_eq!(c.hear_count(&[1; 8]), 1);
    assert_eq!(c.hear_count(&[3; 8]), 1);
}

#[test]
fn denied_sender_stays_greylisted_until_it_expires() {
    let mut rl = RateLimiter::new(cfg());
    let s = [7u8; 8];
    for _ in 0..10 {
        assert!(rl.allow(s, 1000));
    }
    assert!(!rl.allow(s, 1000));
    assert!(!rl.allow(s, 1000 + 59_999));
    assert!(!rl.is_greylisted(&s, 1000 + 60_000));
    assert!(rl.allow(s, 1000 + 60_000));
}

#[test]
fn scheduler_keeps_the_first_schedule_and_releases_once() {
    let mut sched = RelayScheduler::new(cfg());
    let seen = SeenCache::new(cfg());
    sched.schedule([5; 8], pkt(4), 2, 100, 0);
    sched.schedule([5; 8], pkt(9), 7, 10, 0); // already waiting: ignored
    assert_eq!(sched.pending_count(), 1);
    let due = sched.due(100, &seen);
    assert_eq!(due.len(), 1);
    assert_eq!(due[0].exclude_link, 2);
    assert_eq!(due[0].packet.ttl, 4);
    assert!(sched.due(1000, &seen).is_empty());
    assert_eq!(sched.pending_count(), 0);
}

#[test]
fn fixed_jitter_window_gives_its_minimum() {
    let mut c = cfg();
    c.jitter_min_ms = 30;
    c.jitter_max_ms = 30;
    let mut rng = StdRng::seed_from_u64(3);
    assert_eq!(relay_delay(&c, &mut rng), 30);
}

#[test]
fn due_relays_come_out_in_ascending_digest_order() {
    let mut sched = RelayScheduler::new(cfg());
    let seen = SeenCache::new(cfg());
    sched.schedule([9; 8], pkt(7), 3, 10, 0);
    sched.schedule([2; 8], pkt(5), 1, 20, 0);
    sched.schedule([4; 8], pkt(6), 2, 500, 0);
    let due = sched.due(100, &seen);
    assert_eq!(due.len(), 2);
    assert_eq!(due[0].packet.ttl, 5);
    assert_eq!(due[0].exclude_link, 1);
    assert_eq!(due[1].packet.ttl, 7);
    assert_eq!(due[1].exclude_link, 3);
    // The one not yet due stays scheduled.
    assert_eq!(sched.due(100, &seen).len(), 0);
    assert_eq!(sched.due(600, &seen).len(), 1);
}
