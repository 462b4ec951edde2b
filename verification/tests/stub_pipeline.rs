//! The stub pipeline: status transitions and volume clamping.

use gezellig::audio::{DjStatus, NowPlaying, StubAudioPipeline, update_status};

#[test]
fn stub_starts_in_idle() {
    let pipeline = StubAudioPipeline::new();
    assert_eq!(pipeline.status(), DjStatus::Idle);
}

#[test]
fn stub_stays_idle_on_start() {
    let mut pipeline = StubAudioPipeline::new();
    assert!(pipeline.start().is_ok());
    assert_eq!(pipeline.status(), DjStatus::Idle);
}

#[test]
fn stub_transitions_to_idle_on_stop() {
    let mut pipeline = StubAudioPipeline::new();
    assert!(pipeline.start().is_ok());
    assert!(pipeline.stop().is_ok());
    assert_eq!(pipeline.status(), DjStatus::Idle);
}

#[test]
fn stub_default_volume_is_50() {
    let pipeline = StubAudioPipeline::new();
    assert_eq!(pipeline.volume(), 50);
}

#[test]
fn stub_set_volume() {
    let mut pipeline = StubAudioPipeline::new();
    assert!(pipeline.set_volume(75).is_ok());
    assert_eq!(pipeline.volume(), 75);
}

#[test]
fn stub_volume_caps_at_100() {
    let mut pipeline = StubAudioPipeline::new();
    assert!(pipeline.set_volume(150).is_ok());
    assert_eq!(pipeline.volume(), 100);
}

#[test]
fn update_status_sets_playing() {
    let mut status = DjStatus::Idle;
    update_status(
        &mut status,
        DjStatus::Playing(NowPlaying {
            track: "Test Song".to_string(),
            artist: "Test Artist".to_string(),
        }),
    );
    assert_eq!(
        status,
        DjStatus::Playing(NowPlaying {
            track: "Test Song".to_string(),
            artist: "Test Artist".to_string(),
        })
    );
}
