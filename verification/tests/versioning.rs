//! Release-tag normalisation and version comparison.

use gezellig::version::{is_newer_version, normalize_version, parse_version};

#[test]
fn normalize_version_strips_v_and_suffix() {
    assert_eq!(normalize_version("v0.0.7"), "0.0.7");
    assert_eq!(normalize_version("0.0.7-beta.1"), "0.0.7");
}

#[test]
fn version_compare_detects_newer() {
    assert!(is_newer_version("0.0.7", "0.0.6"));
    assert!(is_newer_version("0.1.0", "0.0.9"));
    assert!(!is_newer_version("0.0.6", "0.0.6"));
    assert!(!is_newer_version("0.0.5", "0.0.6"));
}

#[test]
fn parse_version_reads_components() {
    assert_eq!(parse_version("1.2.3"), Some(vec![1, 2, 3]));
    assert_eq!(parse_version("10.0"), Some(vec![10, 0]));
    assert_eq!(parse_version("1.2.3-rc.1"), Some(vec![1, 2, 3]));
    assert_eq!(parse_version("1..2"), None);
    assert_eq!(parse_version("1.x"), None);
    assert_eq!(parse_version(""), None);
}

#[test]
fn version_compare_pads_with_zeros() {
    assert!(is_newer_version("1.0.1", "1.0"));
    assert!(!is_newer_version("1.0", "1.0.0"));
    assert!(!is_newer_version("bad", "1.0"));
}
