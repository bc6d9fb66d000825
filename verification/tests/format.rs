use alerter::message::{Level, Message, Packet, Sas};
use alerter::record::{decode_message, decode_packet, encode_message, encode_packet};

fn plain() -> Message {
    Message {
        title: b"X".to_vec(),
        text: b"t".to_vec(),
        level: Level::Okay,
        link: None,
        fields: Vec::new(),
        channel: None,
        timestamp: 0,
        version: b"v".to_vec(),
    }
}

fn full() -> Message {
    Message {
        title: b"X".to_vec(),
        text: b"t".to_vec(),
        level: Level::Warn,
        link: Some(b"http://e/".to_vec()),
        fields: vec![(b"a".to_vec(), b"b".to_vec()), (b"c".to_vec(), b"d".to_vec())],
        channel: Some(b"#ops".to_vec()),
        timestamp: -5,
        version: b"v".to_vec(),
    }
}

#[test]
fn encoding_of_plain_record_is_exact() {
    let line = encode_message(&plain());
    assert_eq!(
        String::from_utf8(line).unwrap(),
        "{\"title\":\"X\",\"text\":\"t\",\"level\":\"OK\",\"fields\":{},\"channel\":null,\"timestamp\":0,\"version\":\"v\"}"
    );
}

#[test]
fn encoding_of_full_record_is_exact() {
    let line = encode_message(&full());
    assert_eq!(
        String::from_utf8(line).unwrap(),
        "{\"title\":\"X\",\"text\":\"t\",\"level\":\"WARN\",\"link\":\"http://e/\",\"fields\":{\"a\":\"b\",\"c\":\"d\"},\"channel\":\"#ops\",\"timestamp\":-5,\"version\":\"v\"}"
    );
}

#[test]
fn decode_inverts_encode() {
    for m in [plain(), full()] {
        let line = encode_message(&m);
        let back = decode_message(&line).unwrap();
        assert_eq!(back.title, m.title);
        assert_eq!(back.text, m.text);
        assert_eq!(back.level, m.level);
        assert_eq!(back.link, m.link);
        assert_eq!(back.fields, m.fields);
        assert_eq!(back.channel, m.channel);
        assert_eq!(back.timestamp, m.timestamp);
        assert_eq!(back.version, m.version);
    }
}

#[test]
fn decode_rejects_garbage() {
    assert!(decode_message(&b"".to_vec()).is_none());
    assert!(decode_message(&b"garbage".to_vec()).is_none());
    assert!(decode_message(&b"{\"title\":\"X\"}".to_vec()).is_none());
    let mut truncated = encode_message(&plain());
    truncated.pop();
    assert!(decode_message(&truncated).is_none());
    let mut extended = encode_message(&plain());
    extended.push(b' ');
    assert!(decode_message(&extended).is_none());
}

#[test]
fn encoded_record_is_valid_json() {
    // The spool line parses as ordinary JSON, with the same values.
    let mut m = full();
    m.title = "a \"q\" b\\ c\nd\te\r".as_bytes().to_vec();
    let line = encode_message(&m);
    let text = String::from_utf8(line).unwrap();
    let value: serde_json::Value = serde_json::from_str(&text).unwrap();
    assert_eq!(value["title"].as_str().unwrap(), "a \"q\" b\\ c\nd\te\r");
    assert_eq!(value["text"].as_str().unwrap(), "t");
    assert_eq!(value["level"].as_str().unwrap(), "WARN");
    assert_eq!(value["link"].as_str().unwrap(), "http://e/");
    assert_eq!(value["fields"]["a"].as_str().unwrap(), "b");
    assert_eq!(value["fields"]["c"].as_str().unwrap(), "d");
    assert_eq!(value["channel"].as_str().unwrap(), "#ops");
    assert_eq!(value["timestamp"].as_i64().unwrap(), -5);
    assert_eq!(value["version"].as_str().unwrap(), "v");
}

#[test]
fn timestamp_extremes_round_trip() {
    for ts in [i64::MIN, -1, 0, 1, i64::MAX] {
        let mut m = plain();
        m.timestamp = ts;
        let back = decode_message(&encode_message(&m)).unwrap();
        assert_eq!(back.timestamp, ts);
    }
}

#[test]
fn every_level_round_trips() {
    for level in [Level::Okay, Level::Warn, Level::Error, Level::Unknown] {
        let mut m = plain();
        m.level = level;
        let back = decode_message(&encode_message(&m)).unwrap();
        assert_eq!(back.level, level);
    }
}

#[test]
fn packet_with_alert_round_trips() {
    let p = Packet::Message(full());
    let wire = encode_packet(&p);
    assert!(String::from_utf8(wire.clone()).unwrap().starts_with("{\"Message\":{\"title\""));
    match decode_packet(&wire).unwrap() {
        Packet::Message(m) => assert_eq!(m.title, b"X"),
        Packet::Sas(_) => panic!("wrong packet variant"),
    }
}

#[test]
fn packet_with_verification_input_round_trips() {
    let p = Packet::Sas(Sas { input: b"123,456,789".to_vec() });
    let wire = encode_packet(&p);
    assert_eq!(
        String::from_utf8(wire.clone()).unwrap(),
        "{\"Sas\":{\"input\":\"123,456,789\"}}"
    );
    match decode_packet(&wire).unwrap() {
        Packet::Sas(s) => assert_eq!(s.input, b"123,456,789"),
        Packet::Message(_) => panic!("wrong packet variant"),
    }
}

#[test]
fn packet_decode_rejects_garbage() {
    assert!(decode_packet(&b"".to_vec()).is_none());
    assert!(decode_packet(&b"{\"Other\":1}".to_vec()).is_none());
    assert!(decode_packet(&encode_message(&plain())).is_none());
}

#[test]
fn duplicate_copies_every_field() {
    let m = full();
    let d = m.duplicate();
    assert_eq!(d.title, m.title);
    assert_eq!(d.text, m.text);
    assert_eq!(d.level, m.level);
    assert_eq!(d.link, m.link);
    assert_eq!(d.fields, m.fields);
    assert_eq!(d.channel, m.channel);
    assert_eq!(d.timestamp, m.timestamp);
    assert_eq!(d.version, m.version);
    // The copy encodes to the same record.
    assert_eq!(encode_message(&d), encode_message(&m));
}
