use alerter::backend::{delivery_succeeded, level_color, transform_fields, BackendMessage};
use alerter::compose::{
    compose_message, parse_additional_fields, parse_level, sas_matches, split_user,
};
use alerter::message::Level;

#[test]
fn level_names_parse() {
    assert_eq!(parse_level(&b"OK".to_vec()), Level::Okay);
    assert_eq!(parse_level(&b"WARN".to_vec()), Level::Warn);
    assert_eq!(parse_level(&b"ERROR".to_vec()), Level::Error);
    assert_eq!(parse_level(&b"UNKNOWN".to_vec()), Level::Unknown);
    assert_eq!(parse_level(&b"warn".to_vec()), Level::Unknown);
    assert_eq!(parse_level(&b"".to_vec()), Level::Unknown);
}

#[test]
fn field_items_split_at_first_colon() {
    let items = vec![b"host:db01".to_vec(), b"path:/var:log".to_vec()];
    let (fields, dropped) = parse_additional_fields(&items);
    assert_eq!(dropped, 0);
    assert_eq!(fields.len(), 2);
    assert_eq!(fields[0], (b"host".to_vec(), b"db01".to_vec()));
    assert_eq!(fields[1], (b"path".to_vec(), b"/var:log".to_vec()));
}

#[test]
fn field_item_without_colon_is_dropped() {
    let items = vec![b"no-colon".to_vec(), b"k:v".to_vec()];
    let (fields, dropped) = parse_additional_fields(&items);
    assert_eq!(dropped, 1);
    assert_eq!(fields, vec![(b"k".to_vec(), b"v".to_vec())]);
}

#[test]
fn duplicate_field_key_takes_last_value() {
    let items = vec![b"k:old".to_vec(), b"other:x".to_vec(), b"k:new".to_vec()];
    let (fields, dropped) = parse_additional_fields(&items);
    assert_eq!(dropped, 0);
    assert_eq!(
        fields,
        vec![(b"k".to_vec(), b"new".to_vec()), (b"other".to_vec(), b"x".to_vec())]
    );
}

#[test]
fn compose_fills_defaults() {
    let m = compose_message(
        None,
        None,
        None,
        None,
        None,
        &Vec::new(),
        1234,
        b"alert v9".to_vec(),
    );
    assert!(m.title.is_empty());
    assert!(m.text.is_empty());
    assert_eq!(m.level, Level::Unknown);
    assert!(m.link.is_none());
    assert!(m.fields.is_empty());
    assert!(m.channel.is_none());
    assert_eq!(m.timestamp, 1234);
    assert_eq!(m.version, b"alert v9");
}

#[test]
fn compose_carries_all_arguments() {
    let m = compose_message(
        Some(b"disk full".to_vec()),
        Some(b"no space on /".to_vec()),
        Some(b"#ops".to_vec()),
        Some(b"ERROR".to_vec()),
        Some(b"http://wiki/disk".to_vec()),
        &vec![b"host:db01".to_vec()],
        42,
        b"v".to_vec(),
    );
    assert_eq!(m.title, b"disk full");
    assert_eq!(m.text, b"no space on /");
    assert_eq!(m.channel.as_deref(), Some(b"#ops".as_slice()));
    assert_eq!(m.level, Level::Error);
    assert_eq!(m.link.as_deref(), Some(b"http://wiki/disk".as_slice()));
    assert_eq!(m.fields, vec![(b"host".to_vec(), b"db01".to_vec())]);
    assert_eq!(m.timestamp, 42);
}

#[test]
fn user_splits_into_local_part_and_server() {
    let (user, server) = split_user(&b"alice:example.org".to_vec()).unwrap();
    assert_eq!(user, b"alice");
    assert_eq!(server, b"example.org");
    assert!(split_user(&b"no-server".to_vec()).is_none());
}

#[test]
fn sas_comparison_matches_exact_rendering() {
    assert!(sas_matches(&b"123,456,789".to_vec(), 123, 456, 789));
    assert!(sas_matches(&b"1,0,65535".to_vec(), 1, 0, 65535));
    assert!(!sas_matches(&b"123,456,788".to_vec(), 123, 456, 789));
    assert!(!sas_matches(&b"123 456 789".to_vec(), 123, 456, 789));
    assert!(!sas_matches(&b"".to_vec(), 0, 0, 0));
}

#[test]
fn level_colors_are_exact() {
    assert_eq!(level_color(Level::Okay), b"#44bb77");
    assert_eq!(level_color(Level::Warn), b"#ffaa44");
    assert_eq!(level_color(Level::Error), b"#ff5566");
    assert_eq!(level_color(Level::Unknown), b"#aa44ff");
}

#[test]
fn fields_become_short_attachment_fields() {
    let fields = vec![(b"k1".to_vec(), b"v1".to_vec()), (b"k2".to_vec(), b"v2".to_vec())];
    let out = transform_fields(&fields);
    assert_eq!(out.len(), 2);
    assert_eq!(out[0].title, b"k1");
    assert_eq!(out[0].value, b"v1");
    assert!(out[0].short);
    assert_eq!(out[1].title, b"k2");
    assert_eq!(out[1].value, b"v2");
    assert!(out[1].short);
}

#[test]
fn backend_message_renders_one_attachment() {
    let m = compose_message(
        Some(b"title".to_vec()),
        Some(b"text".to_vec()),
        Some(b"#chan".to_vec()),
        Some(b"WARN".to_vec()),
        Some(b"http://l/".to_vec()),
        &vec![b"k:v".to_vec()],
        7,
        b"ver".to_vec(),
    );
    let bm = BackendMessage::compose(&m, b"host01".to_vec());
    assert_eq!(bm.username, b"host01");
    assert_eq!(bm.channel.as_deref(), Some(b"#chan".as_slice()));
    assert_eq!(bm.attachments.len(), 1);
    let a = &bm.attachments[0];
    assert_eq!(a.title, b"title");
    assert_eq!(a.text, b"text");
    assert_eq!(a.color, b"#ffaa44");
    assert_eq!(a.title_link.as_deref(), Some(b"http://l/".as_slice()));
    assert_eq!(a.footer, b"ver");
    assert_eq!(a.ts, 7);
    assert_eq!(a.fields.len(), 1);
    assert_eq!(a.fields[0].title, b"k");
    assert_eq!(a.fields[0].value, b"v");
}

#[test]
fn only_status_200_is_success() {
    assert!(delivery_succeeded(200));
    assert!(!delivery_succeeded(201));
    assert!(!delivery_succeeded(404));
    assert!(!delivery_succeeded(500));
}
