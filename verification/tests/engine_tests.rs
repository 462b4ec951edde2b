//! The playback engine: activation, queueing, volume, and sample scaling.

use gezellig::audio::DjStatus;
use gezellig::engine::{scale_chunk, scale_sample, PlaybackEngine};

#[test]
fn pipeline_starts_in_idle() {
    let pipeline = PlaybackEngine::new();
    assert_eq!(pipeline.status(), DjStatus::Idle);
}

#[test]
fn pipeline_start_activates() {
    let mut pipeline = PlaybackEngine::new();
    assert!(pipeline.start().is_ok());
    assert!(pipeline.active);
}

#[test]
fn pipeline_stop_deactivates_and_clears_queue() {
    let mut pipeline = PlaybackEngine::new();
    assert!(pipeline.start().is_ok());
    pipeline
        .queue_track("https://youtube.com/watch?v=test".to_string(), None)
        .unwrap_or_else(|e| panic!("queue_track failed: {e}"));
    assert_eq!(pipeline.get_queue().len(), 1);
    assert!(pipeline.stop().is_ok());
    assert_eq!(pipeline.status(), DjStatus::Idle);
    assert_eq!(pipeline.get_queue().len(), 0);
}

#[test]
fn pipeline_default_volume_is_50() {
    let pipeline = PlaybackEngine::new();
    assert_eq!(pipeline.volume(), 50);
}

#[test]
fn pipeline_set_volume() {
    let mut pipeline = PlaybackEngine::new();
    assert!(pipeline.set_volume(75).is_ok());
    assert_eq!(pipeline.volume(), 75);
}

#[test]
fn pipeline_volume_caps_at_100() {
    let mut pipeline = PlaybackEngine::new();
    assert!(pipeline.set_volume(150).is_ok());
    assert_eq!(pipeline.volume(), 100);
}

#[test]
fn pipeline_volume_floor_is_zero() {
    let mut pipeline = PlaybackEngine::new();
    assert!(pipeline.set_volume(0).is_ok());
    assert_eq!(pipeline.volume(), 0);
}

#[test]
fn queue_track_adds_to_queue() {
    let mut pipeline = PlaybackEngine::new();
    pipeline
        .queue_track("https://youtube.com/watch?v=abc".to_string(), None)
        .unwrap_or_else(|e| panic!("queue_track failed: {e}"));
    pipeline
        .queue_track("https://youtube.com/watch?v=def".to_string(), None)
        .unwrap_or_else(|e| panic!("queue_track failed: {e}"));
    let queue = pipeline.get_queue();
    assert_eq!(queue.len(), 2);
    assert_eq!(queue[0], "https://youtube.com/watch?v=abc");
    assert_eq!(queue[1], "https://youtube.com/watch?v=def");
}

#[test]
fn get_queue_empty_initially() {
    let pipeline = PlaybackEngine::new();
    assert!(pipeline.get_queue().is_empty());
}

#[test]
fn pop_next_takes_the_head() {
    let mut pipeline = PlaybackEngine::new();
    pipeline.queue_track("a".to_string(), None).unwrap();
    pipeline.queue_track("b".to_string(), Some("Bob".to_string())).unwrap();
    let first = pipeline.pop_next().expect("queue holds a track");
    assert_eq!(first.url, "a");
    assert_eq!(first.title, "Loading...");
    let second = pipeline.pop_next().expect("queue holds a second track");
    assert_eq!(second.url, "b");
    assert_eq!(second.queued_by.as_deref(), Some("Bob"));
    assert!(pipeline.pop_next().is_none());
}

#[test]
fn begin_playing_records_the_watermark() {
    let mut pipeline = PlaybackEngine::new();
    pipeline.begin_loading();
    assert_eq!(pipeline.status(), DjStatus::Loading);
    pipeline.begin_playing("Song".to_string(), Some(10));
    assert_eq!(pipeline.playing_event_id, Some(10));
    match pipeline.status() {
        DjStatus::Playing(np) => {
            assert_eq!(np.track, "Song");
            assert_eq!(np.artist, "");
        }
        other => panic!("unexpected status: {other:?}"),
    }
    pipeline.finish_track();
    assert_eq!(pipeline.playing_event_id, None);
}

#[test]
fn scale_sample_applies_percentage() {
    assert_eq!(scale_sample(1000, 50), 500);
    assert_eq!(scale_sample(-1000, 50), -500);
    assert_eq!(scale_sample(333, 33), 109);
    assert_eq!(scale_sample(1000, 0), 0);
    assert_eq!(scale_sample(1000, 100), 1000);
}

#[test]
fn scale_sample_stays_in_sample_range() {
    assert_eq!(scale_sample(i16::MAX, 100), i16::MAX);
    assert_eq!(scale_sample(i16::MIN, 100), i16::MIN);
    assert_eq!(scale_sample(i16::MIN, 50), -16384);
    assert!(scale_sample(i16::MAX, 99) <= i16::MAX);
    assert!(scale_sample(i16::MIN, 99) >= i16::MIN);
}

#[test]
fn scale_chunk_scales_each_sample() {
    // Two samples: 1000 and -2000, little endian; half volume.
    let chunk = vec![
        (1000i16 as u16 % 256) as u8,
        (1000i16 as u16 / 256) as u8,
        ((-2000i16) as u16 % 256) as u8,
        ((-2000i16) as u16 / 256) as u8,
    ];
    let out = scale_chunk(&chunk, 50);
    assert_eq!(out.len(), 4);
    let s0 = i16::from_le_bytes([out[0], out[1]]);
    let s1 = i16::from_le_bytes([out[2], out[3]]);
    assert_eq!(s0, 500);
    assert_eq!(s1, -1000);
}

#[test]
fn scale_chunk_drops_trailing_odd_byte() {
    let out = scale_chunk(&vec![1, 2, 3], 100);
    assert_eq!(out.len(), 2);
}
