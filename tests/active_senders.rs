use rpyutils::active_senders::{ActiveSenders, Slot, Slots};
use rand::seq::SliceRandom;

fn assert_slots_state(slots: &Slots, next_id: Slot, returned: &[Slot]) {
    assert_eq!(slots.next_slot(), next_id);
    assert_eq!(slots.returned_len(), returned.len());
    for (i, &slot) in returned.iter().enumerate() {
        assert_eq!(slots.returned_at(i), slot);
    }
}

/// Last out, first in.
#[test]
fn test_slots_lofi() {
    let mut slots = Slots::new();
    assert_slots_state(&slots, 0, &[]);
    assert_eq!(slots.next(), 0);
    assert_slots_state(&slots, 1, &[]);
    assert_eq!(slots.next(), 1);
    assert_slots_state(&slots, 2, &[]);
    assert_eq!(slots.next(), 2);
    assert_slots_state(&slots, 3, &[]);
    assert_eq!(slots.next(), 3);
    assert_slots_state(&slots, 4, &[]);
    slots.restore(3);
    assert_slots_state(&slots, 3, &[]);
    slots.restore(2);
    assert_slots_state(&slots, 2, &[]);
    slots.restore(1);
    assert_slots_state(&slots, 1, &[]);
    slots.restore(0);
    assert_slots_state(&slots, 0, &[]);
}

/// Last out, last in.
#[test]
fn test_slots_loli() {
    let mut slots = Slots::new();
    assert_eq!(slots.next(), 0);
    assert_eq!(slots.next(), 1);
    assert_eq!(slots.next(), 2);
    assert_eq!(slots.next(), 3);

    slots.restore(0);
    assert_slots_state(&slots, 4, &[0]);
    slots.restore(1);
    assert_slots_state(&slots, 4, &[0, 1]);
    slots.restore(2);
    assert_slots_state(&slots, 4, &[0, 1, 2]);
    slots.restore(3);
    assert_slots_state(&slots, 0, &[]);
}

/// Slots in twos.
#[test]
fn test_slot_gaps() {
    let mut slots = Slots::new();

    assert_eq!(slots.next(), 0);
    assert_eq!(slots.next(), 1);
    assert_slots_state(&slots, 2, &[]);
    slots.restore(0);
    assert_slots_state(&slots, 2, &[0]);

    assert_eq!(slots.next(), 0);
    assert_eq!(slots.next(), 2);
    assert_eq!(slots.next(), 3);
    assert_eq!(slots.next(), 4);
    assert_slots_state(&slots, 5, &[]);
    slots.restore(1);
    assert_slots_state(&slots, 5, &[1]);
    slots.restore(3);
    assert_slots_state(&slots, 5, &[1, 3]); // gap in the returned sequence

    slots.restore(4);
    assert_slots_state(&slots, 3, &[1]);

    slots.restore(2);
    assert_slots_state(&slots, 1, &[]);

    slots.restore(0);
}

/// A mock clock in milliseconds, started far from zero so that windows
/// reaching into the past stay positive.
struct Clock {
    now: u64,
}

impl Clock {
    fn new() -> Self {
        Clock { now: 1000000000u64 }
    }

    fn advance(&mut self, millis: u64) {
        self.now += millis;
    }
}

#[test]
fn test_active_senders_4_independent() {
    // Four independent senders within 300ms: no warning.
    let mut clock = Clock::new();
    let mut active_senders = ActiveSenders::new(5000, 3, 60000);
    assert_eq!(active_senders.track_established(clock.now), (0, false));

    clock.advance(100);
    assert_eq!(active_senders.track_established(clock.now), (1, false));

    clock.advance(100);
    assert_eq!(active_senders.track_established(clock.now), (2, false));

    clock.advance(100);
    assert_eq!(active_senders.track_established(clock.now), (3, false));

    active_senders.track_closed(1);
    active_senders.track_closed(2);

    clock.advance(100); // first reconnection, no trigger
    assert_eq!(active_senders.track_established(clock.now), (1, false));

    active_senders.track_closed(3);
    active_senders.track_closed(4);
    active_senders.track_closed(1);
    active_senders.track_closed(2);
}

#[test]
fn test_active_senders_fast_reconnect() {
    let mut clock = Clock::new();
    let mut active_senders = ActiveSenders::new(5000, 3, 60000);

    assert_eq!(active_senders.track_established(clock.now), (0, false));
    active_senders.track_closed(0);

    clock.advance(100);
    assert_eq!(active_senders.track_established(clock.now), (0, false));
    active_senders.track_closed(0);

    clock.advance(100);
    assert_eq!(active_senders.track_established(clock.now), (0, true)); // warn, 3rd reconnect within 5s
    active_senders.track_closed(0);

    clock.advance(100);
    assert_eq!(active_senders.track_established(clock.now), (0, false)); // suppress warning
    active_senders.track_closed(0);

    clock.advance(active_senders.quiet_window());

    assert_eq!(active_senders.track_established(clock.now), (0, false));

    clock.advance(100);
    assert_eq!(active_senders.track_established(clock.now), (1, false)); // new slot ID should not affect logic!

    active_senders.track_closed(0);

    clock.advance(100);
    assert_eq!(active_senders.track_established(clock.now), (0, false));
    active_senders.track_closed(0);

    clock.advance(100);
    assert_eq!(active_senders.track_established(clock.now), (0, true)); // warn, 3rd reconnect within 5s
}

#[test]
fn test_active_senders_slow_reconnect() {
    let mut clock = Clock::new();
    let mut active_senders = ActiveSenders::new(5000, 3, 60000);

    // Ten times: two reconnects, then a long pause.
    for _ in 0..10 {
        assert_eq!(active_senders.track_established(clock.now), (0, false));
        active_senders.track_closed(0);

        clock.advance(100);
        assert_eq!(active_senders.track_established(clock.now), (0, false));
        active_senders.track_closed(0);

        clock.advance(active_senders.reconnect_warn_window());
    }
}

#[test]
fn test_slots_random() {
    for _ in 0..100 {
        let mut slots = Slots::new();

        let mut acquired = (0..50).map(|_| slots.next()).collect::<Vec<_>>();
        assert_slots_state(&slots, 50, &[]);
        assert_eq!(acquired.len(), 50);

        let mut rng = rand::rng();
        acquired.shuffle(&mut rng);

        for &slot in &acquired {
            slots.restore(slot);
        }
        assert_slots_state(&slots, 0, &[]);
    }
}
