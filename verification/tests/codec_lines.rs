//! The JSON line codec of the event log.

use gezellig::codec::{encode_event, max_event_id, parse_event, parse_log};
use gezellig::events::QueueEvent;

fn queued(id: u64, url: &str, by: Option<&str>) -> QueueEvent {
    QueueEvent {
        id,
        event_type: "queued".to_string(),
        url: Some(url.to_string()),
        title: None,
        by: by.map(|s| s.to_string()),
        ref_id: None,
        order: None,
    }
}

#[test]
fn parses_a_compact_line_in_any_key_order() {
    let e = parse_event("{\"id\":3,\"type\":\"queued\",\"url\":\"https://x/y?v=1\"}")
        .expect("line parses");
    assert_eq!(e.id, 3);
    assert_eq!(e.event_type, "queued");
    assert_eq!(e.url.as_deref(), Some("https://x/y?v=1"));

    let e2 = parse_event("{\"url\":\"u\",\"type\":\"queued\",\"id\":9}").expect("line parses");
    assert_eq!(e2.id, 9);
    assert_eq!(e2.url.as_deref(), Some("u"));
}

#[test]
fn parses_refs_orders_and_nulls() {
    let e = parse_event("{\"id\":12,\"type\":\"skip\",\"ref\":5}").expect("line parses");
    assert_eq!(e.ref_id, Some(5));

    let e2 = parse_event("{\"id\":2,\"type\":\"reordered\",\"order\":[3, 1, 2]}")
        .expect("line parses");
    assert_eq!(e2.order, Some(vec![3, 1, 2]));

    let e3 = parse_event("{\"id\":4,\"type\":\"queued\",\"url\":null,\"by\":null}")
        .expect("line parses");
    assert_eq!(e3.url, None);
    assert_eq!(e3.by, None);
}

#[test]
fn unknown_members_are_skipped() {
    let e = parse_event(
        "{\"id\":7,\"type\":\"queued\",\"extra\":true,\"note\":\"x\",\"n\":-1.5e3,\"tags\":[1,\"a\"],\"url\":\"u\"}",
    )
    .expect("line parses");
    assert_eq!(e.id, 7);
    assert_eq!(e.url.as_deref(), Some("u"));
}

#[test]
fn rejects_malformed_lines() {
    assert!(parse_event("").is_none());
    assert!(parse_event("not json").is_none());
    assert!(parse_event("{\"id\":1}").is_none());
    assert!(parse_event("{\"type\":\"queued\"}").is_none());
    assert!(parse_event("{\"id\":1,\"type\":\"x\"} trailing").is_none());
    assert!(parse_event("{\"id\":99999999999999999999999,\"type\":\"x\"}").is_none());
}

#[test]
fn string_escapes_round_trip() {
    let e = queued(1, "https://a/b?v=c&d=\"q\"\\n", Some("A\tB\nC"));
    let line = encode_event(&e);
    let back = parse_event(&line).expect("own encoding parses");
    assert_eq!(back, e);
}

#[test]
fn unicode_escapes_below_ascii_are_read() {
    let e = parse_event("{\"id\":1,\"type\":\"metadata\",\"title\":\"a\\u0041\\u000a!\"}")
        .expect("line parses");
    assert_eq!(e.title.as_deref(), Some("aA\n!"));
}

#[test]
fn encode_produces_one_compact_object() {
    let e = queued(42, "u", None);
    assert_eq!(encode_event(&e), "{\"id\":42,\"type\":\"queued\",\"url\":\"u\"}");
    let mut skip = QueueEvent::bare(12, "skip".to_string());
    skip.ref_id = Some(5);
    assert_eq!(encode_event(&skip), "{\"id\":12,\"type\":\"skip\",\"ref\":5}");
}

#[test]
fn carriage_returns_are_tolerated() {
    let e = parse_event("{\"id\":1,\"type\":\"cleared\"}\r").expect("line parses");
    assert_eq!(e.id, 1);
    let events = parse_log("{\"id\":1,\"type\":\"cleared\"}\r\n{\"id\":2,\"type\":\"cleared\"}\r\n");
    assert_eq!(events.len(), 2);
}

#[test]
fn log_parsing_skips_bad_lines() {
    let content = "{\"id\":1,\"type\":\"queued\",\"url\":\"a\"}\n\nbroken\n{\"id\":2,\"type\":\"cleared\"}\n";
    let events = parse_log(content);
    assert_eq!(events.len(), 2);
    assert_eq!(events[0].id, 1);
    assert_eq!(events[1].id, 2);
    assert_eq!(max_event_id(&events), 2);
}

#[test]
fn events_round_trip_through_a_log() {
    let evs = vec![
        queued(1, "url one", Some("Alice")),
        QueueEvent {
            id: 2,
            event_type: "playing".to_string(),
            url: Some("url one".to_string()),
            title: Some("Title One".to_string()),
            by: None,
            ref_id: Some(1),
            order: None,
        },
    ];
    let mut content = String::new();
    for e in &evs {
        content.push_str(&encode_event(e));
        content.push('\n');
    }
    assert_eq!(parse_log(&content), evs);
}
