use grimoire::cli::CliError;
use grimoire::constraint::{parse, ConstraintError};
use grimoire::manifest::ManifestError;
use grimoire::resolve::ResolveError;
use grimoire::spell::{ChannelProblem, ChannelType, PickError, SpellError};
use grimoire::system_deps::{DepsError, PkgMgr};
use grimoire::upgrade::TagError;

#[test]
fn constraint_messages() {
    let e = parse("rust >= 1, <").unwrap_err();
    assert_eq!(e.message(), "constraint \"<\" is missing a version");
    assert_eq!(
        e.entry_message("  rust >= 1, <  "),
        "parsing requirement \"rust >= 1, <\": constraint \"<\" is missing a version"
    );
    let e = parse("Rust").unwrap_err();
    assert_eq!(e.message(), "spell name \"Rust\" must start with a lowercase letter");
    assert_eq!(e.entry_message("Rust"), "spell name \"Rust\" must start with a lowercase letter");
    assert_eq!(ConstraintError::Empty.message(), "empty requirement");
    assert_eq!(
        parse("rust ~1").unwrap_err().message(),
        "constraint \"~1\" must start with one of: <, <=, ==, !=, >=, >"
    );
}

#[test]
fn channel_and_spell_messages() {
    let p = ChannelProblem::ComposeMissing { repo: true, git_ref: false, path: true };
    assert_eq!(p.message("svc", "compose"), "spell \"svc\" channel \"compose\": `type: compose` requires repo, path");
    let p = ChannelProblem::RunMissing { kind: ChannelType::Dnf };
    assert_eq!(p.message("x", "dnf"), "spell \"x\" channel \"dnf\": `run` is required for `type: Dnf`");
    let p = ChannelProblem::ComposeOnly { repo: false, git_ref: true, path: false, compose_file: true, parameters: true };
    assert_eq!(
        p.message("x", "a"),
        "spell \"x\" channel \"a\": fields ref, compose_file, parameters are only valid for `type: compose`"
    );
    let e = SpellError::Requires {
        entry: "b >=".to_string(),
        error: ConstraintError::MissingVersion { constraint: ">=".to_string() },
    };
    assert_eq!(
        e.message("x"),
        "spell \"x\": invalid requires entry \"b >=\": parsing requirement \"b >=\": constraint \">=\" is missing a version"
    );
    assert_eq!(SpellError::NoChannels.message("x"), "spell \"x\" declares no cast channels");
    let e = PickError::NotFound { name: "nix".to_string(), available: vec!["apt".to_string(), "dnf".to_string()] };
    assert_eq!(e.message(), "channel \"nix\" not found (available: apt, dnf)");
}

#[test]
fn manifest_deps_cli_tag_messages() {
    let e = ManifestError::NoProfile { name: "work".to_string() };
    assert_eq!(e.message(), "manifest has no profile named \"work\"");
    let e = ManifestError::InvalidOverrideKey {
        name: "rust >= 1".to_string(),
        error: ConstraintError::NameChars { name: "rust >= 1".to_string() },
    };
    assert_eq!(
        e.message(),
        "override key \"rust >= 1\" is not a valid spell name: spell name \"rust >= 1\" must match [a-z][a-z0-9-]*"
    );
    let e = DepsError::NoPackageManager { missing: vec!["git".to_string(), "jq".to_string()], distro: "nixos".to_string() };
    assert_eq!(
        e.message(),
        "missing system dependencies [\"git\", \"jq\"] but distro \"nixos\" has no known package manager \u{2014} install them manually"
    );
    let e = DepsError::NoInstallHint { binary: "jq".to_string(), distro: "fedora".to_string(), manager: PkgMgr::Dnf };
    assert_eq!(e.message(), "no install hint for `jq` on fedora (dnf); please install it manually");
    assert_eq!(DepsError::InstallFailed { exit: -3 }.message(), "system dependency install failed (exit -3)");
    assert_eq!(CliError::SpellsFailed { count: 12 }.message(), "12 spells failed to reach state");
    assert_eq!(
        CliError::Manifest(ManifestError::NoProfile { name: "p".to_string() }).message(),
        "manifest has no profile named \"p\""
    );
    assert_eq!(
        CliError::Resolve(ResolveError::NotInGrimoire { name: "zz".to_string() }).message(),
        "spell \"zz\" is referenced but not in the grimoire"
    );
    assert_eq!(TagError::Unterminated.message(), "unterminated tag_name string");
}
