//! End-to-end: two tracks queued on an empty shared log, played through
//! the engine's transitions, leaving history most-recent-first.

use gezellig::audio::DjStatus;
use gezellig::codec::parse_log;
use gezellig::engine::PlaybackEngine;
use gezellig::projection::{shared_queue_data_from_events, shared_queue_snapshot_from_data};
use gezellig::queue_log::{append_played_event, append_playing_event, append_queue_event};

#[test]
fn queue_two_tracks_and_play_both() {
    // Two participants queue "A" and "B" on an empty shared log.
    let mut log = String::new();
    let (next, id_a) = append_queue_event(&log, "A".to_string(), None).unwrap();
    log = next;
    let (next, id_b) = append_queue_event(&log, "B".to_string(), None).unwrap();
    log = next;
    assert_eq!((id_a, id_b), (1, 2));

    let mut engine = PlaybackEngine::new();
    engine.start().unwrap();

    // The engine refreshes its queue from the projection and pops "A".
    let data = shared_queue_data_from_events(&parse_log(&log));
    engine.sync_queue(data.items);
    let track_a = engine.pop_next().expect("A is pending");
    assert_eq!(track_a.url, "A");
    engine.begin_loading();

    // The stream resolves: the engine emits playing(ref=1).
    let (next, playing_a) =
        append_playing_event(&log, track_a.queued_id.unwrap_or(0), "A".to_string(), track_a.url)
            .unwrap();
    log = next;
    assert_eq!(playing_a, 3);
    engine.begin_playing("A".to_string(), Some(playing_a));
    let mid = shared_queue_data_from_events(&parse_log(&log));
    assert_eq!(mid.now_playing.as_ref().map(|n| n.queued_id), Some(Some(1)));

    // Natural end of stream: played(ref=1) closes the attempt out.
    let (next, _) = append_played_event(&log, 1).unwrap();
    log = next;
    engine.finish_track();

    // The refresh now shows "B" pending; the engine pops and plays it.
    let data = shared_queue_data_from_events(&parse_log(&log));
    assert!(data.now_playing.is_none());
    engine.sync_queue(data.items);
    let track_b = engine.pop_next().expect("B is pending");
    assert_eq!(track_b.url, "B");
    assert_eq!(track_b.queued_id, Some(2));
    let (next, playing_b) = append_playing_event(&log, 2, "B".to_string(), track_b.url).unwrap();
    log = next;
    engine.begin_playing("B".to_string(), Some(playing_b));
    let (next, _) = append_played_event(&log, 2).unwrap();
    log = next;
    engine.finish_track();
    engine.stop().unwrap();
    assert_eq!(engine.status(), DjStatus::Idle);

    // After both finish, the history lists B then A, most recent first.
    let data = shared_queue_data_from_events(&parse_log(&log));
    assert!(data.items.is_empty());
    assert!(data.now_playing.is_none());
    let snap = shared_queue_snapshot_from_data(data);
    assert_eq!(snap.history.len(), 2);
    assert_eq!(snap.history[0].url, "B");
    assert_eq!(snap.history[1].url, "A");
}
