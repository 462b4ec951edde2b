//! The store's base64 transport encoding of the log text.

use gezellig::store::{decode_repo_content, encode_repo_content};

#[test]
fn decodes_store_content() {
    assert_eq!(decode_repo_content("aGVsbG8=").as_deref(), Some("hello"));
}

#[test]
fn decodes_content_wrapped_in_lines() {
    assert_eq!(decode_repo_content("aGVs\nbG8=\n").as_deref(), Some("hello"));
}

#[test]
fn rejects_ill_formed_encodings() {
    assert_eq!(decode_repo_content("!!!"), None);
    assert_eq!(decode_repo_content("/w=="), None); // 0xff is not UTF-8
}

#[test]
fn encodes_store_content() {
    assert_eq!(encode_repo_content("hi"), "aGk=");
    assert_eq!(encode_repo_content(""), "");
}

#[test]
fn log_text_round_trips_through_the_store() {
    let log = "{\"id\":1,\"type\":\"queued\",\"url\":\"https://youtu.be/x\"}\n";
    let encoded = encode_repo_content(log);
    assert_eq!(decode_repo_content(&encoded).as_deref(), Some(log));
}
