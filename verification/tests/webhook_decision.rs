//! Whether a push notification concerns the shared queue file.

use gezellig::webhook::{queue_path_touched, CommitPaths, PushEventInfo};

fn commit(added: &[&str], modified: &[&str], removed: &[&str]) -> CommitPaths {
    CommitPaths {
        added: added.iter().map(|s| s.to_string()).collect(),
        modified: modified.iter().map(|s| s.to_string()).collect(),
        removed: removed.iter().map(|s| s.to_string()).collect(),
    }
}

#[test]
fn detects_queue_path_from_push() {
    let body = PushEventInfo {
        repo_full_name: Some("owner/repo".to_string()),
        commits: vec![commit(&["events.ndjson"], &[], &[])],
        head_commit: None,
    };
    assert!(queue_path_touched(&body, &"owner/repo".to_string(), &"events.ndjson".to_string()));
    assert!(!queue_path_touched(&body, &"owner/repo".to_string(), &"other.ndjson".to_string()));
}

#[test]
fn ignores_other_repo_events() {
    let body = PushEventInfo {
        repo_full_name: Some("other/repo".to_string()),
        commits: vec![commit(&["events.ndjson"], &[], &[])],
        head_commit: None,
    };
    assert!(!queue_path_touched(&body, &"owner/repo".to_string(), &"events.ndjson".to_string()));
}

#[test]
fn falls_back_to_head_commit() {
    let body = PushEventInfo {
        repo_full_name: Some("owner/repo".to_string()),
        commits: vec![],
        head_commit: Some(commit(&[], &["queue.ndjson"], &[])),
    };
    assert!(queue_path_touched(&body, &"owner/repo".to_string(), &"queue.ndjson".to_string()));
    assert!(!queue_path_touched(&body, &"owner/repo".to_string(), &"missing.ndjson".to_string()));
}

#[test]
fn removed_paths_count_as_touched() {
    let body = PushEventInfo {
        repo_full_name: Some("owner/repo".to_string()),
        commits: vec![commit(&[], &[], &["queue.ndjson"])],
        head_commit: None,
    };
    assert!(queue_path_touched(&body, &"owner/repo".to_string(), &"queue.ndjson".to_string()));
}
