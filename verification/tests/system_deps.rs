use grimoire::distro::Distro;
use grimoire::system_deps::{
    install_outcome, package_for, path_check_snippet, plan_install, shell_quote, DepsError, PkgMgr,
};

fn distro(id: &str, id_like: &[&str]) -> Distro {
    Distro {
        id: id.to_string(),
        id_like: id_like.iter().map(|s| s.to_string()).collect(),
    }
}

#[test]
fn pkgmgr_for_known_distros() {
    assert_eq!(PkgMgr::for_distro(&distro("fedora", &[])), Some(PkgMgr::Dnf));
    assert_eq!(PkgMgr::for_distro(&distro("ubuntu", &[])), Some(PkgMgr::Apt));
    assert_eq!(PkgMgr::for_distro(&distro("arch", &[])), Some(PkgMgr::Pacman));
}

#[test]
fn pkgmgr_uses_id_like_fallback() {
    // Mint reports ID=linuxmint, ID_LIKE=ubuntu debian
    assert_eq!(
        PkgMgr::for_distro(&distro("linuxmint", &["ubuntu", "debian"])),
        Some(PkgMgr::Apt),
    );
}

#[test]
fn pkgmgr_unknown_distro() {
    assert_eq!(PkgMgr::for_distro(&distro("voidlinux", &[])), None);
}

#[test]
fn cc_maps_per_distro() {
    assert_eq!(package_for("cc", PkgMgr::Dnf), Some("gcc"));
    assert_eq!(package_for("cc", PkgMgr::Apt), Some("build-essential"));
    assert_eq!(package_for("cc", PkgMgr::Pacman), Some("base-devel"));
}

#[test]
fn common_binaries_share_name_across_managers() {
    for mgr in [PkgMgr::Dnf, PkgMgr::Apt, PkgMgr::Pacman] {
        assert_eq!(package_for("make", mgr), Some("make"));
        assert_eq!(package_for("curl", mgr), Some("curl"));
        assert_eq!(package_for("wget", mgr), Some("wget"));
        assert_eq!(package_for("git", mgr), Some("git"));
    }
}

#[test]
fn unknown_binary_returns_none() {
    assert_eq!(package_for("nonsense-tool", PkgMgr::Dnf), None);
}

#[test]
fn install_commands_have_noninteractive_flags() {
    let cmd = PkgMgr::Dnf.install_command(&["gcc"]);
    assert!(cmd.contains("-y"));
    let cmd = PkgMgr::Apt.install_command(&["build-essential"]);
    assert!(cmd.contains("-y"));
    let cmd = PkgMgr::Pacman.install_command(&["base-devel"]);
    assert!(cmd.contains("--noconfirm"));
}

#[test]
fn shell_quote_escapes_single_quotes() {
    assert_eq!(shell_quote("cc"), "'cc'");
    assert_eq!(shell_quote("a'b"), "'a'\\''b'");
}

#[test]
fn install_command_exact_text() {
    assert_eq!(PkgMgr::Apt.install_command(&["a", "b"]), "sudo apt-get install -y a b");
    assert_eq!(
        PkgMgr::Pacman.install_command(&["x"]),
        "sudo pacman -S --needed --noconfirm x"
    );
    assert_eq!(PkgMgr::Dnf.install_command(&[]), "sudo dnf install -y ");
    assert_eq!(PkgMgr::Dnf.label(), "dnf");
    assert_eq!(PkgMgr::Pacman.label(), "pacman");
}

#[test]
fn plan_sorts_and_dedups_packages() {
    let missing = vec!["make".to_string(), "cc".to_string(), "git".to_string(), "make".to_string()];
    let plan = plan_install(&missing, &distro("fedora", &[])).unwrap().unwrap();
    assert_eq!(plan.manager, PkgMgr::Dnf);
    assert_eq!(plan.packages, vec!["gcc", "git", "make"]);
    assert_eq!(plan.command, "sudo dnf install -y gcc git make");
}

#[test]
fn plan_nothing_missing() {
    assert!(plan_install(&vec![], &distro("voidlinux", &[])).unwrap().is_none());
}

#[test]
fn plan_errors() {
    let missing = vec!["cc".to_string()];
    match plan_install(&missing, &distro("voidlinux", &[])) {
        Err(DepsError::NoPackageManager { missing: m, distro: d }) => {
            assert_eq!(m, vec!["cc"]);
            assert_eq!(d, "voidlinux");
        }
        other => panic!("unexpected {other:?}"),
    }
    let missing = vec!["git".to_string(), "frobnicate".to_string(), "zz".to_string()];
    match plan_install(&missing, &distro("arch", &[])) {
        Err(DepsError::NoInstallHint { binary, distro, manager }) => {
            assert_eq!(binary, "frobnicate");
            assert_eq!(distro, "arch");
            assert_eq!(manager, PkgMgr::Pacman);
        }
        other => panic!("unexpected {other:?}"),
    }
}

#[test]
fn install_outcomes() {
    assert_eq!(install_outcome(3, vec![]), Err(DepsError::InstallFailed { exit: 3 }));
    assert_eq!(
        install_outcome(0, vec!["cc".to_string()]),
        Err(DepsError::StillMissing { missing: vec!["cc".to_string()] })
    );
    assert_eq!(install_outcome(0, vec![]), Ok(()));
}

#[test]
fn path_check_quotes_binary() {
    assert_eq!(path_check_snippet("it's"), "command -v 'it'\\''s'");
}
