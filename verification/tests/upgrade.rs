use grimoire::upgrade::{
    archive_name, check_quiet, looks_like_dev_build, needs_refresh, parse_tag_name, record_latest,
    release_url, target_for_arch, upgrade_step, Cache, TagError, UpgradeStep, CHECK_INTERVAL_SECS,
};
use std::path::PathBuf;

#[test]
fn parses_tag_name_from_typical_response() {
    let body = r#"{
      "url": "https://api.github.com/repos/strycore/grimoire/releases/123",
      "tag_name": "v0.2.1",
      "name": "v0.2.1",
      "draft": false
    }"#;
    assert_eq!(parse_tag_name(body).unwrap(), "0.2.1");
}

#[test]
fn parses_tag_without_v_prefix() {
    let body = r#"{"tag_name": "1.0.0"}"#;
    assert_eq!(parse_tag_name(body).unwrap(), "1.0.0");
}

#[test]
fn dev_build_detection() {
    let target = PathBuf::from("/home/me/proj/target/debug/grimoire");
    assert!(looks_like_dev_build(target.to_str().unwrap()));
    let installed = PathBuf::from("/home/me/.local/bin/grimoire");
    assert!(!looks_like_dev_build(installed.to_str().unwrap()));
    let system = PathBuf::from("/usr/bin/grimoire");
    assert!(!looks_like_dev_build(system.to_str().unwrap()));
}

#[test]
fn tag_name_errors() {
    assert_eq!(parse_tag_name("{}"), Err(TagError::NoField));
    assert_eq!(parse_tag_name(r#"{"tag_name" "x"}"#), Err(TagError::MissingColon));
    assert_eq!(parse_tag_name(r#"{"tag_name": 3}"#), Err(TagError::NotString));
    assert_eq!(parse_tag_name(r#"{"tag_name": "v1"#), Err(TagError::Unterminated));
    assert_eq!(parse_tag_name(r#"{"tag_name":"vv2.0","tag_name":"9"}"#).unwrap(), "2.0");
}

#[test]
fn refresh_is_weekly() {
    let mut c = Cache::default();
    record_latest(&mut c, "1.2.3".to_string(), 1000);
    assert_eq!(c.latest_version.as_deref(), Some("1.2.3"));
    assert!(!needs_refresh(&c, 1000 + CHECK_INTERVAL_SECS - 1));
    assert!(needs_refresh(&c, 1000 + CHECK_INTERVAL_SECS));
    assert!(!needs_refresh(&c, 10));
    assert_eq!(CHECK_INTERVAL_SECS, 7 * 24 * 3600);
}

#[test]
fn check_quiet_only_for_newer() {
    let c = Cache { last_check: 0, latest_version: Some("0.3.0".to_string()) };
    assert_eq!(check_quiet(true, &c, "0.2.9"), Some("0.3.0".to_string()));
    assert_eq!(check_quiet(true, &c, "0.3.0"), None);
    assert_eq!(check_quiet(false, &c, "0.1.0"), None);
    assert_eq!(check_quiet(true, &Cache::default(), "0.1.0"), None);
}

#[test]
fn upgrade_steps() {
    assert_eq!(upgrade_step("1.0.0", "1.0.0", false), UpgradeStep::UpToDate);
    assert_eq!(upgrade_step("1.1.0", "1.0.0", true), UpgradeStep::Available);
    assert_eq!(upgrade_step("1.1.0", "1.0.0", false), UpgradeStep::Install);
}

#[test]
fn release_names() {
    assert_eq!(target_for_arch("x86_64\n"), Some("linux-x86_64"));
    assert_eq!(target_for_arch("arm64"), Some("linux-aarch64"));
    assert_eq!(target_for_arch("riscv64"), None);
    let a = archive_name("0.2.1", "linux-x86_64");
    assert_eq!(a, "grimoire-0.2.1-linux-x86_64.tar.gz");
    assert_eq!(
        release_url("0.2.1", &a),
        "https://github.com/strycore/grimoire/releases/download/v0.2.1/grimoire-0.2.1-linux-x86_64.tar.gz"
    );
}
