use grimoire::grimoire::{checked_personal, LoadError};
use grimoire::constraint::ConstraintError;
use grimoire::distro::Distro;
use grimoire::spell::{
    Cast, Channel, ChannelProblem, ChannelType, Parameter, ParameterKind, PickError, Provides, Spell,
    SpellError,
};

fn channel(kind: ChannelType, run: Option<&str>) -> Channel {
    Channel {
        kind,
        summary: String::new(),
        run: run.map(|s| s.to_string()),
        version_hint: None,
        requires_sudo: false,
        distros: vec![],
        repo: None,
        git_ref: None,
        path: None,
        compose_file: None,
        parameters: vec![],
    }
}

fn spell(name: &str, default: &str, channels: Vec<(&str, Channel)>, requires: &[&str]) -> Spell {
    Spell {
        name: name.to_string(),
        summary: "s".to_string(),
        verify: "true".to_string(),
        cast: Cast {
            default: default.to_string(),
            channels: channels.into_iter().map(|(k, c)| (k.to_string(), c)).collect(),
        },
        description: None,
        homepage: None,
        maintainer: None,
        category: None,
        tags: vec![],
        distros: vec![],
        version_check: None,
        requires: requires.iter().map(|s| s.to_string()).collect(),
        system_requires: vec![],
        provides: Provides::default(),
        before: None,
        after: None,
        desktop: None,
    }
}

fn distro(id: &str) -> Distro {
    Distro { id: id.to_string(), id_like: vec![] }
}

#[test]
fn rejects_default_channel_not_in_channels() {
    let s = spell("x", "nope", vec![("real", channel(ChannelType::Shell, Some("true")))], &[]);
    assert!(s.validate().is_err());
}

#[test]
fn spell_rejects_bad_name() {
    let s = spell("Bad-Name", "shell", vec![("shell", channel(ChannelType::Shell, Some("true")))], &[]);
    assert!(s.validate().is_err());
}

#[test]
fn requires_must_be_parseable() {
    let s = spell(
        "x",
        "shell",
        vec![("shell", channel(ChannelType::Shell, Some("true")))],
        &["valid >= 1.0", "INVALID NAME"],
    );
    assert!(s.validate().is_err());
}

#[test]
fn validate_accepts_good_spell_and_reports_faults() {
    let good = spell(
        "rust",
        "rustup",
        vec![
            ("dnf", channel(ChannelType::Dnf, Some("sudo dnf install -y rust"))),
            ("rustup", channel(ChannelType::Shell, Some("curl | sh"))),
        ],
        &["cc-tools >= 1"],
    );
    assert_eq!(good.validate(), Ok(()));
    let none = spell("x", "a", vec![], &[]);
    assert_eq!(none.validate(), Err(SpellError::NoChannels));
    let no_run = spell("x", "a", vec![("a", channel(ChannelType::Apt, None))], &[]);
    assert_eq!(
        no_run.validate(),
        Err(SpellError::Channel {
            channel: "a".to_string(),
            problem: ChannelProblem::RunMissing { kind: ChannelType::Apt }
        })
    );
    let bad_req = spell("x", "a", vec![("a", channel(ChannelType::Shell, Some("t")))], &["ok", "Bad"]);
    assert!(matches!(
        bad_req.validate(),
        Err(SpellError::Requires { error: ConstraintError::NameStart { .. }, .. })
    ));
}

#[test]
fn compose_channel_rules() {
    let mut c = channel(ChannelType::Compose, None);
    assert_eq!(
        c.validate(),
        Err(ChannelProblem::ComposeMissing { repo: true, git_ref: true, path: true })
    );
    c.repo = Some("r".into());
    c.git_ref = Some("v1".into());
    c.path = Some(".".into());
    assert_eq!(c.validate(), Ok(()));
    c.parameters = vec![("bad-name".to_string(), Parameter::default())];
    assert_eq!(c.validate(), Err(ChannelProblem::BadParameterName { name: "bad-name".into() }));
    c.parameters = vec![(
        "SECRET".to_string(),
        Parameter { kind: Some(ParameterKind::Secret), default: Some("x".into()), ..Default::default() },
    )];
    assert_eq!(c.validate(), Err(ChannelProblem::SecretWithDefault { name: "SECRET".into() }));
    c.parameters = vec![];
    c.run = Some("x".into());
    assert_eq!(c.validate(), Err(ChannelProblem::RunNotAllowed));
}

#[test]
fn pick_channel_prefers_default_then_first_applicable() {
    let s = spell(
        "x",
        "dnf",
        vec![
            ("apt", channel(ChannelType::Apt, Some("a"))),
            ("dnf", channel(ChannelType::Dnf, Some("d"))),
            ("shell", channel(ChannelType::Shell, Some("s"))),
        ],
        &[],
    );
    assert_eq!(s.cast.pick_channel(&distro("fedora"), None).unwrap().0, "dnf");
    assert_eq!(s.cast.pick_channel(&distro("ubuntu"), None).unwrap().0, "apt");
    assert_eq!(s.cast.pick_channel(&distro("arch"), None).unwrap().0, "shell");
    assert_eq!(s.cast.pick_channel(&distro("arch"), Some("shell")).unwrap().0, "shell");
    assert!(matches!(
        s.cast.pick_channel(&distro("arch"), Some("dnf")),
        Err(PickError::NotApplicable { .. })
    ));
    assert!(matches!(
        s.cast.pick_channel(&distro("arch"), Some("nix")),
        Err(PickError::NotFound { .. })
    ));
    let only_dnf = spell("y", "dnf", vec![("dnf", channel(ChannelType::Dnf, Some("d")))], &[]);
    assert!(matches!(
        only_dnf.cast.pick_channel(&distro("arch"), None),
        Err(PickError::NoneApplicable { .. })
    ));
    assert!(!only_dnf.cast.any_applicable(&distro("arch")));
    assert!(only_dnf.cast.any_applicable(&distro("rocky")));
}

#[test]
fn implicit_distro_lists() {
    assert!(ChannelType::Dnf.implicit_distros().contains(&"fedora"));
    assert!(ChannelType::Apt.implicit_distros().contains(&"pop"));
    assert!(ChannelType::Pacman.implicit_distros().contains(&"cachyos"));
    assert!(ChannelType::Flatpak.implicit_distros().is_empty());
}

#[test]
fn parsed_requires_lists_requirements() {
    let s = spell("x", "a", vec![("a", channel(ChannelType::Shell, Some("t")))], &["b >= 1", "c"]);
    let r = s.parsed_requires().unwrap();
    assert_eq!(r.len(), 2);
    assert_eq!(r[0].name, "b");
    assert!(Provides::default().is_empty());
}

#[test]
fn personal_spell_file_stem_must_match() {
    let s = spell("rust", "a", vec![("a", channel(ChannelType::Shell, Some("t")))], &[]);
    assert_eq!(checked_personal(Some("rust"), s.clone()).unwrap().name, "rust");
    assert_eq!(checked_personal(None, s.clone()).unwrap().name, "rust");
    match checked_personal(Some("rustup"), s) {
        Err(LoadError::NameMismatch { file_stem, name }) => {
            assert_eq!(file_stem, "rustup");
            assert_eq!(name, "rust");
        }
        other => panic!("unexpected {:?}", other.map(|s| s.name)),
    }
}
