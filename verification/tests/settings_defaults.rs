//! Default connection settings.

use gezellig::settings::Settings;

#[test]
fn default_settings_have_reasonable_values() {
    let settings = Settings::default();
    assert_eq!(settings.livekit_url, "");
    assert_eq!(settings.shared_queue_repo, "williammartin/gezellig-queue");
    assert_eq!(settings.shared_queue_file, "queue.ndjson");
    assert_eq!(settings.gh_path, "gh");
}
