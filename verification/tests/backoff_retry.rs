use alerter::backoff::Backoff;
use alerter::dispatcher::SpoolDispatcher;
use alerter::message::{Level, Message};
use alerter::spooler::Spooler;

fn msg(title: &str) -> Message {
    Message {
        title: title.as_bytes().to_vec(),
        text: b"t".to_vec(),
        level: Level::Warn,
        link: None,
        fields: Vec::new(),
        channel: None,
        timestamp: 0,
        version: b"v".to_vec(),
    }
}

#[test]
fn backoff_starts_at_minimum_unit() {
    let b = Backoff::new();
    assert_eq!(b.get_backoff(), 1);
}

#[test]
fn reset_is_idempotent() {
    // Any number of consecutive resets leaves the interval at the
    // minimum unit.
    let mut b = Backoff::new();
    b.backoff();
    b.backoff();
    b.backoff();
    for _ in 0..5 {
        b.reset();
        assert_eq!(b.get_backoff(), 1);
    }
}

#[test]
fn growth_is_monotonic_doubling() {
    // n consecutive doublings from the minimum unit give 2^n.
    let mut b = Backoff::new();
    let mut expected: u64 = 1;
    for _ in 0..20 {
        assert_eq!(b.get_backoff(), expected);
        b.backoff();
        expected *= 2;
    }
    assert_eq!(b.get_backoff(), 1 << 20);
}

#[test]
fn growth_wraps_at_counter_width() {
    let mut b = Backoff::new();
    for _ in 0..63 {
        b.backoff();
    }
    assert_eq!(b.get_backoff(), 1 << 63);
    b.backoff();
    assert_eq!(b.get_backoff(), 0);
}

#[test]
fn delivery_success_resets_backoff() {
    // Grow the backoff twice (interval = 4 units), then report a
    // successful delivery: the interval is back at one unit.
    let mut d = SpoolDispatcher::new(Spooler::new());
    d.on_delivery_failure(msg("a"));
    d.on_delivery_failure(msg("b"));
    assert_eq!(d.get_backoff(), 4);
    d.on_outcome(None);
    assert_eq!(d.get_backoff(), 1);
}

#[test]
fn dispatcher_failure_front_requeues_and_grows() {
    let mut spooler = Spooler::new();
    spooler.queue(msg("A"));
    spooler.queue(msg("B"));
    let mut d = SpoolDispatcher::new(spooler);
    let a = d.on_tick().unwrap();
    assert_eq!(a.title, b"A");
    d.on_outcome(Some(a));
    assert_eq!(d.get_backoff(), 2);
    let again = d.on_tick().unwrap();
    assert_eq!(again.title, b"A");
    let b = d.on_tick().unwrap();
    assert_eq!(b.title, b"B");
    assert!(d.on_tick().is_none());
}

#[test]
fn ticker_idles_on_empty_queue() {
    let mut d = SpoolDispatcher::new(Spooler::new());
    assert!(d.is_empty());
    assert_eq!(d.setup_ticker(), 86400);
    d.on_delivery_failure(msg("x"));
    assert_eq!(d.setup_ticker(), 2);
}

#[test]
fn dispatcher_snapshot_survives_restart() {
    let mut d = SpoolDispatcher::new(Spooler::new());
    d.on_delivery_failure(msg("pending"));
    let snapshot = d.store();
    let mut spooler = Spooler::new();
    assert_eq!(spooler.load(&snapshot), 0);
    let mut d2 = SpoolDispatcher::new(spooler);
    assert_eq!(d2.get_backoff(), 1);
    let m = d2.on_tick().unwrap();
    assert_eq!(m.title, b"pending");
}
