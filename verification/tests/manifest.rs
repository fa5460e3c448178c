use grimoire::constraint::ConstraintError;
use grimoire::manifest::{Manifest, ManifestError, Override, Profile};

fn strings(v: &[&str]) -> Vec<String> {
    v.iter().map(|s| s.to_string()).collect()
}

fn manifest(spells: &[&str], overrides: Vec<(&str, Option<&str>)>, profiles: Vec<(&str, &[&str])>) -> Manifest {
    Manifest {
        spells: strings(spells),
        overrides: overrides
            .into_iter()
            .map(|(k, c)| (k.to_string(), Override { channel: c.map(|s| s.to_string()) }))
            .collect(),
        profiles: profiles
            .into_iter()
            .map(|(k, s)| (k.to_string(), Profile { spells: strings(s) }))
            .collect(),
    }
}

#[test]
fn rejects_unknown_profile() {
    let m = manifest(&[], vec![], vec![]);
    assert!(m.requirements(Some("ghost")).is_err());
}

#[test]
fn manifest_requirements_basic() {
    let m = manifest(&["rust >= 1.95", "bun >= 1.0", "android-studio"], vec![("rust", Some("rustup"))], vec![]);
    assert_eq!(m.validate(), Ok(()));
    assert_eq!(m.override_for("rust").unwrap().channel.as_deref(), Some("rustup"));
    let reqs = m.requirements(None).unwrap();
    assert_eq!(reqs.len(), 3);
    assert_eq!(reqs[0].name, "rust");
    assert!(reqs[0].satisfied_by("1.95.0"));
    assert!(!reqs[0].satisfied_by("1.94.0"));
}

#[test]
fn manifest_profile_requirements() {
    let m = manifest(&[], vec![], vec![("gaming", &["lutris", "discord"]), ("work", &["rust", "slack"])]);
    let work = m.requirements(Some("work")).unwrap();
    assert_eq!(work.len(), 2);
    assert_eq!(work[0].name, "rust");
    assert!(m.profile("gaming").is_some());
}

#[test]
fn manifest_validation_errors() {
    let m = manifest(&["BAD NAME >= 1.0"], vec![], vec![]);
    assert!(matches!(m.validate(), Err(ManifestError::InvalidSpell { .. })));
    let m = manifest(&["ok"], vec![], vec![("p", &["fine", "Nope"])]);
    match m.validate() {
        Err(ManifestError::InvalidProfileSpell { profile, entry, error }) => {
            assert_eq!(profile, "p");
            assert_eq!(entry, "Nope");
            assert!(matches!(error, ConstraintError::NameStart { .. }));
        }
        other => panic!("unexpected {other:?}"),
    }
    let m = manifest(&[], vec![("Bad-Name", Some("x"))], vec![]);
    assert!(matches!(m.validate(), Err(ManifestError::InvalidOverrideKey { .. })));
    let m = manifest(&[], vec![("rust >= 1.0", Some("rustup"))], vec![]);
    match m.validate() {
        Err(ManifestError::InvalidOverrideKey { name, error }) => {
            assert_eq!(name, "rust >= 1.0");
            assert!(matches!(error, ConstraintError::NameChars { .. }));
        }
        other => panic!("unexpected {other:?}"),
    }
    assert_eq!(manifest(&[], vec![("rust", Some("rustup"))], vec![]).validate(), Ok(()));
    assert_eq!(
        manifest(&[], vec![], vec![]).requirements(Some("ghost")),
        Err(ManifestError::NoProfile { name: "ghost".to_string() })
    );
}
