//! Folding the event log into queue, now-playing and history state.

use gezellig::events::QueueEvent;
use gezellig::projection::{
    shared_queue_data_from_events, shared_queue_snapshot_from_data, shared_skip_requested,
};

fn ev(id: u64, kind: &str) -> QueueEvent {
    QueueEvent::bare(id, kind.to_string())
}

fn queued(id: u64, url: &str) -> QueueEvent {
    let mut e = ev(id, "queued");
    e.url = Some(url.to_string());
    e
}

fn with_ref(id: u64, kind: &str, r: u64) -> QueueEvent {
    let mut e = ev(id, kind);
    e.ref_id = Some(r);
    e
}

#[test]
fn projection_is_deterministic() {
    let events = vec![
        queued(1, "a"),
        queued(2, "b"),
        with_ref(3, "played", 1),
        ev(4, "cleared"),
        queued(5, "c"),
    ];
    let first = shared_queue_data_from_events(&events);
    let second = shared_queue_data_from_events(&events);
    assert_eq!(first, second);
}

#[test]
fn clear_is_a_watermark() {
    let events = vec![queued(1, "a"), ev(2, "cleared"), queued(3, "b")];
    let data = shared_queue_data_from_events(&events);
    assert_eq!(data.items.len(), 1);
    assert_eq!(data.items[0].queued_id, Some(3));
    assert_eq!(data.items[0].url, "b");
}

#[test]
fn cleared_ids_never_resurface() {
    // A stray played(ref=1) after the clear must not bring id 1 back.
    let events = vec![
        queued(1, "a"),
        ev(2, "cleared"),
        queued(3, "b"),
        with_ref(4, "played", 1),
    ];
    let data = shared_queue_data_from_events(&events);
    assert_eq!(data.items.len(), 1);
    assert_eq!(data.items[0].queued_id, Some(3));
    // And id 1 shows up in no history entry either.
    assert!(data.history.iter().all(|h| h.0 != "a"));
}

#[test]
fn skip_freshness_compares_against_the_watermark() {
    let mut playing = with_ref(10, "playing", 5);
    playing.title = Some("t".to_string());
    playing.url = Some("u".to_string());
    let events = vec![queued(5, "u"), playing, with_ref(12, "skip", 5)];
    let data = shared_queue_data_from_events(&events);
    assert!(shared_skip_requested(&data, 5, 10));
    assert!(!shared_skip_requested(&data, 5, 13));
    assert!(!shared_skip_requested(&data, 6, 0));
}

#[test]
fn played_and_failed_go_to_history_most_recent_first() {
    let events = vec![
        queued(1, "a"),
        queued(2, "b"),
        with_ref(3, "played", 1),
        with_ref(4, "failed", 2),
    ];
    let data = shared_queue_data_from_events(&events);
    assert!(data.items.is_empty());
    assert_eq!(data.history.len(), 2);
    assert_eq!(data.history[0].0, "b");
    assert_eq!(data.history[1].0, "a");
}

#[test]
fn metadata_attaches_titles() {
    let mut md = with_ref(2, "metadata", 1);
    md.title = Some("Real Title".to_string());
    let events = vec![queued(1, "a"), md, queued(3, "b")];
    let data = shared_queue_data_from_events(&events);
    assert_eq!(data.items[0].title, "Real Title");
    assert_eq!(data.items[1].title, "Loading...");
    assert_eq!(data.needs_metadata, vec![(3, "b".to_string())]);
}

#[test]
fn playing_sets_now_and_finishing_clears_it() {
    let mut playing = with_ref(2, "playing", 1);
    playing.title = Some("T".to_string());
    playing.url = Some("a".to_string());
    let events = vec![queued(1, "a"), playing.clone()];
    let data = shared_queue_data_from_events(&events);
    let now = data.now_playing.expect("a track is playing");
    assert_eq!(now.title, "T");
    assert_eq!(now.queued_id, Some(1));
    assert!(data.items.is_empty());

    let events2 = vec![queued(1, "a"), playing, with_ref(3, "played", 1)];
    let data2 = shared_queue_data_from_events(&events2);
    assert!(data2.now_playing.is_none());
}

#[test]
fn reorder_applies_latest_permutation() {
    let mut reorder = ev(4, "reordered");
    reorder.order = Some(vec![3, 1, 2]);
    let events = vec![queued(1, "a"), queued(2, "b"), queued(3, "c"), reorder];
    let data = shared_queue_data_from_events(&events);
    let urls: Vec<&str> = data.items.iter().map(|t| t.url.as_str()).collect();
    assert_eq!(urls, vec!["c", "a", "b"]);
}

#[test]
fn unknown_reordered_ids_sort_last() {
    let mut reorder = ev(4, "reordered");
    reorder.order = Some(vec![2]);
    let events = vec![queued(1, "a"), queued(2, "b"), queued(3, "c"), reorder];
    let data = shared_queue_data_from_events(&events);
    let urls: Vec<&str> = data.items.iter().map(|t| t.url.as_str()).collect();
    assert_eq!(urls, vec!["b", "a", "c"]);
}

#[test]
fn queued_by_is_attributed() {
    let mut q = queued(1, "a");
    q.by = Some("Alice".to_string());
    let data = shared_queue_data_from_events(&vec![q]);
    assert_eq!(data.items[0].queued_by.as_deref(), Some("Alice"));
}

#[test]
fn snapshot_hides_placeholder_titles() {
    let mut md = with_ref(3, "metadata", 2);
    md.title = Some("Known".to_string());
    let events = vec![queued(1, "a"), queued(2, "b"), md];
    let data = shared_queue_data_from_events(&events);
    let snap = shared_queue_snapshot_from_data(data);
    assert_eq!(snap.queue.len(), 2);
    assert_eq!(snap.queue[0].title, None);
    assert_eq!(snap.queue[0].id, 1);
    assert_eq!(snap.queue[1].title.as_deref(), Some("Known"));
    assert!(snap.now_playing.is_none());
    assert!(snap.history.is_empty());
}
