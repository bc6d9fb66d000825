use alerter::message::{Level, Message};
use alerter::spooler::Spooler;

fn msg(title: &str) -> Message {
    Message {
        title: title.as_bytes().to_vec(),
        text: b"text".to_vec(),
        level: Level::Okay,
        link: None,
        fields: Vec::new(),
        channel: None,
        timestamp: 1700000000,
        version: b"alerter v1".to_vec(),
    }
}

fn titles(spooler: &mut Spooler) -> Vec<String> {
    let mut out = Vec::new();
    while let Some(m) = spooler.pop_message() {
        out.push(String::from_utf8(m.title).unwrap());
    }
    out
}

#[test]
fn pop_on_empty_returns_nothing() {
    let mut s = Spooler::new();
    assert!(s.is_empty());
    assert!(s.pop_message().is_none());
}

#[test]
fn queue_preserves_fifo_order() {
    let mut s = Spooler::new();
    s.queue(msg("A"));
    s.queue(msg("B"));
    s.queue(msg("C"));
    assert!(!s.is_empty());
    assert_eq!(titles(&mut s), ["A", "B", "C"]);
}

#[test]
fn retry_ordering_failed_pop_is_retried_first() {
    // A and B enqueued in that order; A is popped and fails, so it is
    // front-requeued; the next pop must return A again, not B.
    let mut s = Spooler::new();
    s.queue(msg("A"));
    s.queue(msg("B"));
    let a = s.pop_message().unwrap();
    assert_eq!(a.title, b"A");
    s.queue_front(a);
    let again = s.pop_message().unwrap();
    assert_eq!(again.title, b"A");
    let b = s.pop_message().unwrap();
    assert_eq!(b.title, b"B");
}

#[test]
fn no_message_lost_through_mixed_operations() {
    // Every message enqueued is either still queued or was handed out by
    // a pop: nothing disappears.
    let mut s = Spooler::new();
    let mut handed_out = Vec::new();
    s.queue(msg("one"));
    s.queue(msg("two"));
    handed_out.push(s.pop_message().unwrap());
    s.queue(msg("three"));
    s.queue_front(msg("zero"));
    handed_out.push(s.pop_message().unwrap());
    let mut remaining = titles(&mut s);
    let mut all: Vec<String> = handed_out
        .into_iter()
        .map(|m| String::from_utf8(m.title).unwrap())
        .collect();
    all.append(&mut remaining);
    all.sort();
    assert_eq!(all, ["one", "three", "two", "zero"]);
}

#[test]
fn store_then_load_round_trip() {
    let mut s = Spooler::new();
    s.queue(msg("first"));
    s.queue(msg("second"));
    s.queue(msg("third"));
    let snapshot = s.store();
    let mut fresh = Spooler::new();
    let skipped = fresh.load(&snapshot);
    assert_eq!(skipped, 0);
    assert_eq!(titles(&mut fresh), ["first", "second", "third"]);
}

#[test]
fn crash_recovery_restores_queue_in_order() {
    // Enqueue X and Y, persist, simulate a restart with a fresh store,
    // load the same snapshot: the queue is ["X", "Y"] again.
    let mut s = Spooler::new();
    s.queue(msg("X"));
    s.queue(msg("Y"));
    let snapshot = s.store();
    let mut restarted = Spooler::new();
    assert_eq!(restarted.load(&snapshot), 0);
    assert_eq!(titles(&mut restarted), ["X", "Y"]);
}

#[test]
fn empty_queue_stores_empty_snapshot() {
    let s = Spooler::new();
    assert!(s.store().is_empty());
    let mut fresh = Spooler::new();
    assert_eq!(fresh.load(&Vec::new()), 0);
    assert!(fresh.is_empty());
}

#[test]
fn malformed_line_is_skipped_and_counted() {
    // One valid record line and one garbage line: only the valid record
    // loads, and exactly one line is reported skipped.
    let mut s = Spooler::new();
    s.queue(msg("valid"));
    let mut snapshot = s.store();
    snapshot.extend_from_slice(b"this is not a record\n");
    let mut fresh = Spooler::new();
    let skipped = fresh.load(&snapshot);
    assert_eq!(skipped, 1);
    assert_eq!(titles(&mut fresh), ["valid"]);
}

#[test]
fn garbage_between_valid_lines_preserves_the_rest() {
    let mut s = Spooler::new();
    s.queue(msg("keep1"));
    let mut snapshot = s.store();
    snapshot.extend_from_slice(b"{\"broken\n");
    let mut s2 = Spooler::new();
    s2.queue(msg("keep2"));
    snapshot.extend_from_slice(&s2.store());
    let mut fresh = Spooler::new();
    let skipped = fresh.load(&snapshot);
    assert_eq!(skipped, 1);
    assert_eq!(titles(&mut fresh), ["keep1", "keep2"]);
}

#[test]
fn load_appends_to_existing_queue() {
    let mut donor = Spooler::new();
    donor.queue(msg("loaded"));
    let snapshot = donor.store();
    let mut s = Spooler::new();
    s.queue(msg("already"));
    s.load(&snapshot);
    assert_eq!(titles(&mut s), ["already", "loaded"]);
}

#[test]
fn round_trip_keeps_every_field() {
    let mut s = Spooler::new();
    s.queue(Message {
        title: b"a \"quoted\" title".to_vec(),
        text: "line one\nline two\twith tab\r".as_bytes().to_vec(),
        level: Level::Error,
        link: Some(b"https://example.test/x?a=1".to_vec()),
        fields: vec![
            (b"host".to_vec(), b"db01".to_vec()),
            (b"disk".to_vec(), b"/dev/sda1".to_vec()),
        ],
        channel: Some(b"#alerts".to_vec()),
        timestamp: -62135596800,
        version: b"alerter v2 \\ backslash".to_vec(),
    });
    let snapshot = s.store();
    let mut fresh = Spooler::new();
    assert_eq!(fresh.load(&snapshot), 0);
    let m = fresh.pop_message().unwrap();
    assert_eq!(m.title, b"a \"quoted\" title");
    assert_eq!(m.text, "line one\nline two\twith tab\r".as_bytes());
    assert_eq!(m.level, Level::Error);
    assert_eq!(m.link.as_deref(), Some(b"https://example.test/x?a=1".as_slice()));
    assert_eq!(m.fields.len(), 2);
    assert_eq!(m.fields[0].0, b"host");
    assert_eq!(m.fields[0].1, b"db01");
    assert_eq!(m.fields[1].0, b"disk");
    assert_eq!(m.fields[1].1, b"/dev/sda1");
    assert_eq!(m.channel.as_deref(), Some(b"#alerts".as_slice()));
    assert_eq!(m.timestamp, -62135596800);
    assert_eq!(m.version, b"alerter v2 \\ backslash");
    assert!(fresh.pop_message().is_none());
}
