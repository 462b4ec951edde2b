//! The bounded diagnostic line buffer.

use gezellig::logbuf::DebugLogBuffer;

#[test]
fn drain_empties_the_buffer() {
    let mut buf = DebugLogBuffer::new();
    buf.push("one".to_string());
    buf.push("two".to_string());
    assert_eq!(buf.drain(), vec!["one".to_string(), "two".to_string()]);
    assert!(buf.drain().is_empty());
}

#[test]
fn push_discards_old_lines_past_the_high_water_mark() {
    let mut buf = DebugLogBuffer::new();
    for i in 0..502 {
        buf.push(format!("line {i}"));
    }
    let lines = buf.drain();
    // At 501 stored lines the next push keeps the newest 250, then appends.
    assert_eq!(lines.len(), 251);
    assert_eq!(lines[0], "line 251");
    assert_eq!(lines[250], "line 501");
}
