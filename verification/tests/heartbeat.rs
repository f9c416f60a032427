use amqp_confirms::heartbeat::{Inner, PollOutcome};

#[test]
fn waits_through_the_quiet_period_then_fires() {
    let mut hb = Inner::new(0);
    hb.set_timeout(Some(60));
    hb.update_last_write(0);

    // halfway through the quiet period: half the interval remains, no send
    assert_eq!(hb.poll_timeout(30), Some(PollOutcome::Wait(30)));
    assert_eq!(hb.last_write, 0);

    // one and a half intervals of silence: send now, idle clock reset,
    // full interval until the next poll
    assert_eq!(hb.poll_timeout(90), Some(PollOutcome::SendHeartbeat(60)));
    assert_eq!(hb.last_write, 90);

    // the reset opened a fresh quiet period
    assert_eq!(hb.poll_timeout(120), Some(PollOutcome::Wait(30)));
}

#[test]
fn fires_exactly_at_the_timeout_edge() {
    let mut hb = Inner::new(0);
    hb.set_timeout(Some(10));
    assert_eq!(hb.poll_timeout(9), Some(PollOutcome::Wait(1)));
    assert_eq!(hb.poll_timeout(10), Some(PollOutcome::SendHeartbeat(10)));
}

#[test]
fn disabled_never_schedules_anything() {
    let mut hb = Inner::new(0);
    assert_eq!(hb.poll_timeout(1_000_000), None);
    hb.set_timeout(Some(5));
    hb.set_timeout(None);
    assert_eq!(hb.poll_timeout(2_000_000), None);
    assert_eq!(hb.last_write, 0);
}

#[test]
fn any_write_postpones_the_heartbeat() {
    let mut hb = Inner::new(0);
    hb.set_timeout(Some(20));
    hb.update_last_write(15);
    // 15 quiet units would have been 15/20 of the way there; the write reset it
    assert_eq!(hb.poll_timeout(19), Some(PollOutcome::Wait(16)));
}

#[test]
fn reconfiguring_does_not_reset_the_idle_clock() {
    let mut hb = Inner::new(0);
    hb.update_last_write(5);
    hb.set_timeout(Some(3));
    assert_eq!(hb.last_write, 5);
    assert_eq!(hb.poll_timeout(7), Some(PollOutcome::Wait(1)));
    assert_eq!(hb.poll_timeout(8), Some(PollOutcome::SendHeartbeat(3)));
}

#[test]
fn default_is_disabled_at_the_origin() {
    let mut hb = Inner::default();
    assert_eq!(hb.last_write, 0);
    assert_eq!(hb.timeout, None);
    assert_eq!(hb.poll_timeout(100), None);
}
