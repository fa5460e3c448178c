use grimoire::constraint;
use grimoire::scry::{classify_absent, classify_present, version_of, Status};
use grimoire::shell::CheckOutput;
use grimoire::state::CastRecord;

fn echo_output(version_output: &str) -> CheckOutput {
    CheckOutput { exit_code: 0, stdout: format!("{version_output}\n"), stderr: String::new() }
}

#[test]
fn cast_when_no_constraint() {
    let v = version_of(&echo_output("1.95.0"));
    let st = classify_present(None, v);
    assert_eq!(st.status, Status::Cast);
    assert_eq!(st.version.as_deref(), Some("1.95.0"));
}

#[test]
fn cast_when_constraint_satisfied() {
    let req = constraint::parse("echo-spell >= 1.95").unwrap();
    let st = classify_present(Some(&req), version_of(&echo_output("1.95.0")));
    assert_eq!(st.status, Status::Cast);
}

#[test]
fn outdated_when_constraint_unsatisfied() {
    let req = constraint::parse("echo-spell >= 1.95").unwrap();
    let st = classify_present(Some(&req), version_of(&echo_output("1.94.0")));
    assert_eq!(st.status, Status::Outdated);
    assert_eq!(st.version.as_deref(), Some("1.94.0"));
}

#[test]
fn outdated_in_range_check() {
    let req = constraint::parse("echo-spell >= 18, < 20").unwrap();
    let st = classify_present(Some(&req), version_of(&echo_output("21.0.10")));
    assert_eq!(st.status, Status::Outdated);
}

#[test]
fn outdated_when_version_unknown_but_constrained() {
    let req = constraint::parse("x >= 1").unwrap();
    let silent = CheckOutput { exit_code: 0, stdout: "  \n".into(), stderr: String::new() };
    assert_eq!(version_of(&silent), None);
    assert_eq!(classify_present(Some(&req), None).status, Status::Outdated);
    let bare = constraint::parse("x").unwrap();
    assert_eq!(classify_present(Some(&bare), None).status, Status::Cast);
    let failed = CheckOutput { exit_code: 1, stdout: "1.0".into(), stderr: String::new() };
    assert_eq!(version_of(&failed), None);
}

#[test]
fn absent_states() {
    assert_eq!(classify_absent(false, None).status, Status::Unsupported);
    let st = classify_absent(true, None);
    assert_eq!(st.status, Status::Missing);
    assert!(st.last_cast_channel.is_none());
    let rec = CastRecord { ts: 1, channel: "rustup".into(), version: Some("1.0".into()) };
    let st = classify_absent(true, Some(rec));
    assert_eq!(st.status, Status::Drifted);
    assert_eq!(st.last_cast_channel.as_deref(), Some("rustup"));
}

#[test]
fn status_labels_and_icons() {
    assert_eq!(Status::Cast.label(), "cast");
    assert_eq!(Status::Unsupported.label(), "unsupported");
    assert_eq!(Status::Cast.icon(), "✓");
    assert_eq!(Status::Drifted.icon(), "⚠");
    assert_eq!(Status::Missing.icon(), "·");
}

#[test]
fn trimmed_stdout_and_ok() {
    let out = CheckOutput { exit_code: 0, stdout: "\t v1 \n".into(), stderr: String::new() };
    assert!(out.ok());
    assert_eq!(out.trimmed_stdout(), "v1");
    let bad = CheckOutput { exit_code: 2, stdout: String::new(), stderr: String::new() };
    assert!(!bad.ok());
}
