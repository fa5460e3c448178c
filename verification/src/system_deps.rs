//! System dependencies: binaries that spells expect to find in `PATH` but
//! that grimoire does not manage as full spells (compilers, fetchers, build
//! glue). Each entry maps to a package name per package-manager family; if
//! missing at cast time, grimoire installs it via the distro's package
//! manager rather than failing.
use crate::distro::Distro;
use crate::spell::{implicit_distro_names, matches_any, matches_any_literal, ChannelType};
use crate::text::{
    ascending, copy_strings, join, join_strs, lemma_lex_equal, lemma_lex_trans, lex, lex_order_str,
    quote_word, shell_word, str_eq, str_views, string_views, Order, push_quoted, push_quoted_list, quoted,
    quoted_list, i32_text, int_text, join_strings,
};
use vstd::prelude::*;

verus! {

/// Distro package-manager families grimoire knows how to drive for installing
/// system dependencies.
#[derive(Debug, Clone, Copy, PartialEq, Eq, Structural)]
pub enum PkgMgr {
    Dnf,
    Apt,
    Pacman,
}

/// The package manager of `distro`: the first family whose implicit distro
/// list `distro` matches, trying dnf, then apt, then pacman.
pub open spec fn manager_of(distro: Distro) -> Option<PkgMgr> {
    if matches_any(distro, implicit_distro_names(ChannelType::Dnf)) {
        Some(PkgMgr::Dnf)
    } else if matches_any(distro, implicit_distro_names(ChannelType::Apt)) {
        Some(PkgMgr::Apt)
    } else if matches_any(distro, implicit_distro_names(ChannelType::Pacman)) {
        Some(PkgMgr::Pacman)
    } else {
        None
    }
}

/// The package that provides `binary` under `mgr`, where grimoire knows one.
pub open spec fn package_hint(binary: Seq<char>, mgr: PkgMgr) -> Option<Seq<char>> {
    if binary == "cc"@ {
        Some(
            match mgr {
                PkgMgr::Dnf => "gcc"@,
                PkgMgr::Apt => "build-essential"@,
                PkgMgr::Pacman => "base-devel"@,
            },
        )
    } else if binary == "pkg-config"@ {
        Some(
            match mgr {
                PkgMgr::Dnf => "pkgconf-pkg-config"@,
                PkgMgr::Apt => "pkg-config"@,
                PkgMgr::Pacman => "pkgconf"@,
            },
        )
    } else if binary == "make"@ {
        Some("make"@)
    } else if binary == "curl"@ {
        Some("curl"@)
    } else if binary == "wget"@ {
        Some("wget"@)
    } else if binary == "git"@ {
        Some("git"@)
    } else {
        None
    }
}

impl PkgMgr {
    /// The manager's short name.
    pub open spec fn name_of(self) -> Seq<char> {
        match self {
            PkgMgr::Dnf => "dnf"@,
            PkgMgr::Apt => "apt"@,
            PkgMgr::Pacman => "pacman"@,
        }
    }

    /// The non-interactive install command, up to the package list.
    pub open spec fn command_prefix(self) -> Seq<char> {
        match self {
            PkgMgr::Dnf => "sudo dnf install -y "@,
            PkgMgr::Apt => "sudo apt-get install -y "@,
            PkgMgr::Pacman => "sudo pacman -S --needed --noconfirm "@,
        }
    }

    /// Resolve the package manager for the current distro using the same
    /// implicit-distro lists as `ChannelType`. Returns `None` for distros
    /// grimoire can't drive automatically.
    pub fn for_distro(distro: &Distro) -> (r: Option<PkgMgr>)
        ensures
            r == manager_of(*distro),
    {
        if matches_any_literal(distro, ChannelType::Dnf.implicit_distros()) {
            Some(PkgMgr::Dnf)
        } else if matches_any_literal(distro, ChannelType::Apt.implicit_distros()) {
            Some(PkgMgr::Apt)
        } else if matches_any_literal(distro, ChannelType::Pacman.implicit_distros()) {
            Some(PkgMgr::Pacman)
        } else {
            None
        }
    }

    pub fn label(self) -> (r: &'static str)
        ensures
            r@ == self.name_of(),
    {
        match self {
            PkgMgr::Dnf => "dnf",
            PkgMgr::Apt => "apt",
            PkgMgr::Pacman => "pacman",
        }
    }

    /// Build the install command for the given packages.
    pub fn install_command(self, packages: &[&str]) -> (r: String)
        ensures
            r@ == self.command_prefix() + join(str_views(packages@), " "@),
    {
        let pkgs = join_strs(packages, " ");
        let mut out = String::from_str(
            match self {
                PkgMgr::Dnf => "sudo dnf install -y ",
                PkgMgr::Apt => "sudo apt-get install -y ",
                PkgMgr::Pacman => "sudo pacman -S --needed --noconfirm ",
            },
        );
        out.append(pkgs.as_str());
        out
    }
}

/// Look up the package that provides `binary` for the given package manager.
/// Returns `None` if grimoire has no hint for this binary on this manager;
/// the caller should treat that as a hard error.
pub fn package_for(binary: &str, mgr: PkgMgr) -> (r: Option<&'static str>)
    ensures
        match r {
            Some(p) => package_hint(binary@, mgr) == Some(p@),
            None => package_hint(binary@, mgr) is None,
        },
{
    if str_eq(binary, "cc") {
        Some(
            match mgr {
                PkgMgr::Dnf => "gcc",
                PkgMgr::Apt => "build-essential",
                PkgMgr::Pacman => "base-devel",
            },
        )
    } else if str_eq(binary, "pkg-config") {
        Some(
            match mgr {
                PkgMgr::Dnf => "pkgconf-pkg-config",
                PkgMgr::Apt => "pkg-config",
                PkgMgr::Pacman => "pkgconf",
            },
        )
    } else if str_eq(binary, "make") {
        Some("make")
    } else if str_eq(binary, "curl") {
        Some("curl")
    } else if str_eq(binary, "wget") {
        Some("wget")
    } else if str_eq(binary, "git") {
        Some("git")
    } else {
        None
    }
}

/// Quote `s` for safe inclusion inside a single-argument bash word. We never
/// expect anything exotic in `system_requires` entries, but a hostile or
/// typoed value shouldn't break out of the snippet.
pub fn shell_quote(s: &str) -> (r: String)
    ensures
        r@ == shell_word(s@),
{
    quote_word(s)
}

/// Why the system dependencies could not be put in place.
#[derive(Debug, Clone, PartialEq, Eq)]
pub enum DepsError {
    /// Binaries are missing and the distro has no known package manager.
    NoPackageManager { missing: Vec<String>, distro: String },
    /// A missing binary has no install hint for the distro's manager.
    NoInstallHint { binary: String, distro: String, manager: PkgMgr },
    /// The install command exited non-zero.
    InstallFailed { exit: i32 },
    /// Binaries are still missing after the install.
    StillMissing { missing: Vec<String> },
}

/// How the missing binaries get installed.
#[derive(Debug, Clone)]
pub struct InstallPlan {
    pub manager: PkgMgr,
    /// The packages to install, ascending, each once.
    pub packages: Vec<&'static str>,
    /// The shell command that installs them.
    pub command: String,
}

/// Index of the first binary of `missing` with no package under `mgr`, or
/// `missing.len()` when each has one.
pub open spec fn first_unhinted(missing: Seq<Seq<char>>, mgr: PkgMgr) -> int
    decreases missing.len(),
{
    if missing.len() == 0 {
        0
    } else if package_hint(missing[0], mgr) is None {
        0
    } else {
        1 + first_unhinted(missing.drop_first(), mgr)
    }
}

proof fn lemma_first_unhinted(missing: Seq<Seq<char>>, mgr: PkgMgr)
    ensures
        0 <= first_unhinted(missing, mgr) <= missing.len(),
        forall|i: int|
            0 <= i < first_unhinted(missing, mgr) ==> #[trigger] package_hint(missing[i], mgr) is Some,
        first_unhinted(missing, mgr) < missing.len() ==> package_hint(
            missing[first_unhinted(missing, mgr)],
            mgr,
        ) is None,
    decreases missing.len(),
{
    if missing.len() > 0 && package_hint(missing[0], mgr) is Some {
        lemma_first_unhinted(missing.drop_first(), mgr);
        assert forall|i: int| 0 <= i < first_unhinted(missing, mgr) implies #[trigger] package_hint(
            missing[i],
            mgr,
        ) is Some by {
            if i > 0 {
                assert(missing[i] == missing.drop_first()[i - 1]);
            }
        }
    }
}

proof fn lemma_first_unhinted_at(missing: Seq<Seq<char>>, mgr: PkgMgr, k: int)
    requires
        0 <= k < missing.len(),
        forall|i: int| 0 <= i < k ==> #[trigger] package_hint(missing[i], mgr) is Some,
        package_hint(missing[k], mgr) is None,
    ensures
        first_unhinted(missing, mgr) == k,
{
    lemma_first_unhinted(missing, mgr);
    let f = first_unhinted(missing, mgr);
    if f < k {
        assert(package_hint(missing[f], mgr) is Some);
    }
    if f > k {
        assert(package_hint(missing[k], mgr) is Some);
    }
}

/// The packages that provide the binaries `missing` under `mgr`.
pub open spec fn needed_packages(missing: Seq<Seq<char>>, mgr: PkgMgr) -> Set<Seq<char>> {
    Set::new(
        |p: Seq<char>|
            exists|i: int| 0 <= i < missing.len() && #[trigger] package_hint(missing[i], mgr) == Some(p),
    )
}

/// Add `x` to the ascending packages `v`, unless it is there already.
fn insert_package(v: &mut Vec<&'static str>, x: &'static str)
    requires
        ascending(str_views(old(v)@)),
    ensures
        ascending(str_views(final(v)@)),
        str_views(final(v)@).to_set() == str_views(old(v)@).to_set().insert(x@),
{
    let ghost s = str_views(v@);
    let mut j: usize = 0;
    while j < v.len()
        invariant
            j <= v.len(),
            s == str_views(v@),
            ascending(s),
            forall|k: int| 0 <= k < j ==> lex(#[trigger] s[k], x@) == Order::Less,
        ensures
            j <= v.len(),
            s == str_views(v@),
            forall|k: int| 0 <= k < j ==> lex(#[trigger] s[k], x@) == Order::Less,
            j < v.len() ==> lex(x@, s[j as int]) == Order::Less,
        decreases v.len() - j,
    {
        let o = lex_order_str(v[j], x);
        if o != Order::Less {
            assert(s[j as int] == v@[j as int]@);
            if o == Order::Equal {
                proof {
                    lemma_lex_equal(s[j as int], x@);
                    assert(s.to_set().insert(x@) =~= s.to_set()) by {
                        assert(s.to_set().contains(s[j as int]));
                    }
                }
                return;
            }
            proof {
                lemma_lex_equal(s[j as int], x@);
            }
            break;
        }
        assert(s[j as int] == v@[j as int]@);
        j = j + 1;
    }
    proof {
        crate::text::lemma_insert_ascending(s, j as int, x@);
    }
    v.insert(j, x);
    proof {
        assert(str_views(v@) =~= s.insert(j as int, x@));
        assert(s.insert(j as int, x@).to_set() =~= s.to_set().insert(x@)) by {
            let t = s.insert(j as int, x@);
            assert forall|y: Seq<char>| t.to_set().contains(y) implies s.to_set().insert(x@).contains(y) by {
                let a = choose|a: int| 0 <= a < t.len() && t[a] == y;
                if a < j {
                    assert(s[a] == y);
                    assert(s.to_set().contains(y));
                } else if a > j {
                    assert(s[a - 1] == y);
                    assert(s.to_set().contains(y));
                }
            }
            assert forall|y: Seq<char>| s.to_set().insert(x@).contains(y) implies t.to_set().contains(y) by {
                if y == x@ {
                    assert(t[j as int] == x@);
                } else {
                    let a = choose|a: int| 0 <= a < s.len() && s[a] == y;
                    if a < j {
                        assert(t[a] == y);
                    } else {
                        assert(t[a + 1] == y);
                    }
                }
            }
        }
    }
}

/// Plan the install of the binaries `missing` on `distro`. Nothing is
/// missing: `Ok(None)`. The distro has no known package manager:
/// `NoPackageManager`. A binary has no package under that manager:
/// `NoInstallHint` for the first such binary. Otherwise the plan holds the
/// manager, the needed packages ascending and each once, and the command
/// that installs them.
pub fn plan_install(missing: &Vec<String>, distro: &Distro) -> (r: Result<Option<InstallPlan>, DepsError>)
    ensures
        missing.len() == 0 ==> r == Ok::<Option<InstallPlan>, DepsError>(None),
        missing.len() > 0 ==> match manager_of(*distro) {
            None => (r matches Err(DepsError::NoPackageManager { missing: m, distro: d }) && string_views(
                m@,
            ) == string_views(missing@) && d@ == distro.id@),
            Some(mgr) => {
                let k = first_unhinted(string_views(missing@), mgr);
                if k < missing.len() {
                    (r matches Err(DepsError::NoInstallHint { binary: b, distro: d, manager: g }) && b@
                        == missing@[k]@ && d@ == distro.id@ && g == mgr)
                } else {
                    (r matches Ok(Some(p)) && p.manager == mgr && ascending(str_views(p.packages@))
                        && str_views(p.packages@).to_set() == needed_packages(string_views(missing@), mgr)
                        && p.command@ == mgr.command_prefix() + join(str_views(p.packages@), " "@))
                }
            },
        },
{
    if missing.len() == 0 {
        return Ok(None);
    }
    let mgr = match PkgMgr::for_distro(distro) {
        Some(m) => m,
        None => {
            return Err(DepsError::NoPackageManager { missing: copy_strings(missing), distro: distro.id.clone() });
        },
    };
    let ghost ms = string_views(missing@);
    proof {
        lemma_first_unhinted(ms, mgr);
    }
    let mut packages: Vec<&'static str> = Vec::new();
    let mut i: usize = 0;
    while i < missing.len()
        invariant
            i <= missing.len(),
            ms == string_views(missing@),
            manager_of(*distro) == Some(mgr),
            forall|k: int| 0 <= k < i ==> #[trigger] package_hint(ms[k], mgr) is Some,
            ascending(str_views(packages@)),
            str_views(packages@).to_set() == needed_packages(ms.take(i as int), mgr),
        decreases missing.len() - i,
    {
        assert(ms[i as int] == missing@[i as int]@);
        match package_for(missing[i].as_str(), mgr) {
            None => {
                proof {
                    lemma_first_unhinted_at(ms, mgr, i as int);
                }
                return Err(DepsError::NoInstallHint {
                    binary: missing[i].clone(),
                    distro: distro.id.clone(),
                    manager: mgr,
                });
            },
            Some(p) => {
                let ghost before = str_views(packages@).to_set();
                insert_package(&mut packages, p);
                proof {
                    let t = ms.take(i + 1);
                    assert(needed_packages(t, mgr) =~= needed_packages(ms.take(i as int), mgr).insert(p@)) by {
                        assert forall|q: Seq<char>| needed_packages(t, mgr).contains(q) implies needed_packages(
                            ms.take(i as int),
                            mgr,
                        ).insert(p@).contains(q) by {
                            let a = choose|a: int| 0 <= a < t.len() && #[trigger] package_hint(t[a], mgr) == Some(q);
                            if a < i {
                                assert(ms.take(i as int)[a] == t[a]);
                            }
                        }
                        assert forall|q: Seq<char>| needed_packages(ms.take(i as int), mgr).insert(p@).contains(q)
                            implies needed_packages(t, mgr).contains(q) by {
                            if q == p@ {
                                assert(t[i as int] == ms[i as int]);
                            } else {
                                let a = choose|a: int|
                                    0 <= a < ms.take(i as int).len() && #[trigger] package_hint(ms.take(i as int)[a], mgr) == Some(q);
                                assert(t[a] == ms.take(i as int)[a]);
                            }
                        }
                    }
                }
            },
        }
        i = i + 1;
    }
    proof {
        assert(ms.take(missing.len() as int) =~= ms);
        if first_unhinted(ms, mgr) < ms.len() {
            let k = first_unhinted(ms, mgr);
            assert(package_hint(ms[k], mgr) is Some);
        }
    }
    let command = mgr.install_command(packages.as_slice());
    Ok(Some(InstallPlan { manager: mgr, packages, command }))
}

/// What the install's outcome means: a non-zero `exit` is `InstallFailed`;
/// binaries `still_missing` afterwards are `StillMissing`; else success.
pub fn install_outcome(exit: i32, still_missing: Vec<String>) -> (r: Result<(), DepsError>)
    ensures
        exit != 0 ==> r == Err::<(), DepsError>(DepsError::InstallFailed { exit }),
        exit == 0 && still_missing.len() > 0 ==> (r matches Err(DepsError::StillMissing { missing: m })
            && m@ == still_missing@),
        exit == 0 && still_missing.len() == 0 ==> r is Ok,
{
    if exit != 0 {
        Err(DepsError::InstallFailed { exit })
    } else if still_missing.len() > 0 {
        Err(DepsError::StillMissing { missing: still_missing })
    } else {
        Ok(())
    }
}


/// The snippet that checks whether `binary` is in `PATH`.
pub fn path_check_snippet(binary: &str) -> (r: String)
    ensures
        r@ == "command -v "@ + shell_word(binary@),
{
    let mut s = String::from_str("command -v ");
    s.append(shell_quote(binary).as_str());
    s
}

/// Why the system dependencies are not in place, as a sentence.
pub open spec fn deps_message(e: DepsError) -> Seq<char> {
    match e {
        DepsError::NoPackageManager { missing, distro } => "missing system dependencies "@ + quoted_list(
            string_views(missing@),
        ) + " but distro "@ + quoted(distro@)
            + " has no known package manager \u{2014} install them manually"@,
        DepsError::NoInstallHint { binary, distro, manager } => "no install hint for `"@ + binary@ + "` on "@
            + distro@ + " ("@ + manager.name_of() + "); please install it manually"@,
        DepsError::InstallFailed { exit } => "system dependency install failed (exit "@ + int_text(exit as int)
            + ")"@,
        DepsError::StillMissing { missing } => "system dependencies still missing after install: "@ + join(
            string_views(missing@),
            ", "@,
        ),
    }
}

impl DepsError {
    /// The error as a sentence.
    pub fn message(&self) -> (r: String)
        ensures
            r@ == deps_message(*self),
    {
        let mut s = String::new();
        match self {
            DepsError::NoPackageManager { missing, distro } => {
                s.append("missing system dependencies ");
                push_quoted_list(&mut s, missing);
                s.append(" but distro ");
                push_quoted(&mut s, distro.as_str());
                s.append(" has no known package manager \u{2014} install them manually");
            },
            DepsError::NoInstallHint { binary, distro, manager } => {
                s.append("no install hint for `");
                s.append(binary.as_str());
                s.append("` on ");
                s.append(distro.as_str());
                s.append(" (");
                s.append(manager.label());
                s.append("); please install it manually");
            },
            DepsError::InstallFailed { exit } => {
                s.append("system dependency install failed (exit ");
                s.append(i32_text(*exit).as_str());
                s.append(")");
            },
            DepsError::StillMissing { missing } => {
                s.append("system dependencies still missing after install: ");
                s.append(join_strings(missing, ", ").as_str());
            },
        }
        proof {
            assert(s@ =~= deps_message(*self));
        }
        s
    }
}


/// Install hints come in families: a binary that has a package under one
/// package manager has one under every other, and `pkg-config` installs as
/// `pkgconf-pkg-config` with dnf, `pkg-config` with apt and `pkgconf` with
/// pacman.
pub proof fn lemma_hint_families(binary: Seq<char>, m1: PkgMgr, m2: PkgMgr)
    ensures
        package_hint(binary, m1) is Some <==> package_hint(binary, m2) is Some,
        package_hint("pkg-config"@, PkgMgr::Dnf) == Some("pkgconf-pkg-config"@),
        package_hint("pkg-config"@, PkgMgr::Apt) == Some("pkg-config"@),
        package_hint("pkg-config"@, PkgMgr::Pacman) == Some("pkgconf"@),
{
    reveal_strlit("pkg-config");
    reveal_strlit("cc");
    assert("pkg-config"@.len() == 10);
    assert("cc"@.len() == 2);
    assert("pkg-config"@ != "cc"@);
}

} // verus!
