//! The retry-protected append protocol, driven against an in-memory
//! versioned store, including simulated write conflicts.

use gezellig::codec::{max_event_id, parse_log};
use gezellig::queue_log::{
    append_playing_event, append_queue_event, next_event_id, should_retry_append,
};

/// A stand-in for the remote store: contents plus a version token, with
/// compare-and-swap writes.
struct MemoryStore {
    content: String,
    version: u64,
}

impl MemoryStore {
    fn new() -> MemoryStore {
        MemoryStore { content: String::new(), version: 0 }
    }

    fn read(&self) -> (String, u64) {
        (self.content.clone(), self.version)
    }

    fn write(&mut self, new_content: String, expected_version: u64) -> Result<(), ()> {
        if self.version != expected_version {
            return Err(());
        }
        self.content = new_content;
        self.version += 1;
        Ok(())
    }
}

/// One full read-modify-write cycle with the single allowed retry.
fn append_with_retry(store: &mut MemoryStore, url: &str, conflict_once: bool) -> Result<u64, ()> {
    let mut attempt: usize = 0;
    loop {
        let (content, version) = store.read();
        let (new_content, id) =
            append_queue_event(&content, url.to_string(), None).expect("id space not exhausted");
        // A concurrent writer may land between our read and our write.
        if conflict_once && attempt == 0 {
            let (other, other_version) = store.read();
            let (interloper, _) =
                append_queue_event(&other, "interloper".to_string(), None).unwrap();
            store.write(interloper, other_version).unwrap();
        }
        match store.write(new_content, version) {
            Ok(()) => return Ok(id),
            Err(()) => {
                if should_retry_append(attempt, true) {
                    attempt += 1;
                    continue;
                }
                return Err(());
            }
        }
    }
}

#[test]
fn appends_assign_consecutive_ids() {
    let mut store = MemoryStore::new();
    let mut ids = Vec::new();
    for i in 0..5 {
        ids.push(append_with_retry(&mut store, &format!("url{i}"), false).unwrap());
    }
    assert_eq!(ids, vec![1, 2, 3, 4, 5]);
    let events = parse_log(&store.content);
    assert_eq!(events.len(), 5);
    assert_eq!(max_event_id(&events), 5);
}

#[test]
fn conflicted_appends_still_get_distinct_ids() {
    let mut store = MemoryStore::new();
    let first = append_with_retry(&mut store, "a", true).unwrap();
    let second = append_with_retry(&mut store, "b", true).unwrap();
    // Each conflicting write re-read the log, so every id is distinct and
    // the log holds one event per append (two of them from interlopers).
    assert_ne!(first, second);
    let events = parse_log(&store.content);
    assert_eq!(events.len(), 4);
    let mut ids: Vec<u64> = events.iter().map(|e| e.id).collect();
    ids.sort();
    ids.dedup();
    assert_eq!(ids, vec![1, 2, 3, 4]);
}

#[test]
fn a_second_conflict_surfaces_as_an_error() {
    assert!(should_retry_append(0, true));
    assert!(!should_retry_append(1, true));
    assert!(!should_retry_append(0, false));
}

#[test]
fn next_id_is_one_past_the_maximum() {
    assert_eq!(next_event_id(""), Some(1));
    let (content, id) = append_queue_event("", "a".to_string(), None).unwrap();
    assert_eq!(id, 1);
    assert_eq!(next_event_id(&content), Some(2));
    let (content2, id2) =
        append_playing_event(&content, 1, "Title".to_string(), "a".to_string()).unwrap();
    assert_eq!(id2, 2);
    assert_eq!(next_event_id(&content2), Some(3));
}

#[test]
fn appended_lines_carry_attribution() {
    let (content, _) = append_queue_event("", "u".to_string(), Some("Alice".to_string())).unwrap();
    let events = parse_log(&content);
    assert_eq!(events.len(), 1);
    assert_eq!(events[0].by.as_deref(), Some("Alice"));
    assert_eq!(events[0].url.as_deref(), Some("u"));
    assert_eq!(events[0].event_type, "queued");
}
