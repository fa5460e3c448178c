//! Spells: one declared state each, with the channels that reach it.
use crate::constraint::{
    self, name_check, parse_in_bounds, requirement_parse, ConstraintError, ParseFailure,
    Requirement,
};
use crate::distro::Distro;
use crate::text::{
    join, join_strings, join_strs, keys_ascending, lemma_lex_equal, lex, push_quoted, quoted, str_eq, str_views, Order,
};
use vstd::prelude::*;

verus! {

/// A grimoire spell — one declared state.
#[derive(Debug, Clone)]
pub struct Spell {
    pub name: String,
    pub summary: String,
    pub verify: String,
    pub cast: Cast,
    pub description: Option<String>,
    pub homepage: Option<String>,
    pub maintainer: Option<String>,
    pub category: Option<String>,
    pub tags: Vec<String>,
    pub distros: Vec<String>,
    pub version_check: Option<String>,
    pub requires: Vec<String>,
    /// Bare binary names that must be in `PATH` before this spell can cast
    /// (e.g. `cc`, `make`, `curl`). If missing, grimoire installs the
    /// matching distro package via the system package manager — these are
    /// not modeled as full spells.
    pub system_requires: Vec<String>,
    pub provides: Provides,
    pub before: Option<String>,
    pub after: Option<String>,
    /// Menu entry to write for software that installs none itself.
    pub desktop: Option<DesktopEntry>,
}

/// The channels of a spell, keyed by name in ascending order, and the one
/// used by default.
#[derive(Debug, Clone)]
pub struct Cast {
    pub default: String,
    pub channels: Vec<(String, Channel)>,
}

#[derive(Debug, Clone)]
pub struct Channel {
    pub kind: ChannelType,
    pub summary: String,
    /// Bash snippet for shell-style channels (shell/dnf/apt/pacman/flatpak/
    /// snap/cargo/pip/npm). Required for those types and forbidden for
    /// `compose`, which derives its own invocation from the source/parameter
    /// fields below.
    pub run: Option<String>,
    pub version_hint: Option<VersionHint>,
    pub requires_sudo: bool,
    /// Distros this channel applies to. Empty ⇒ fall back to the implicit
    /// list from `ChannelType` (e.g. `dnf` ⇒ Fedora-family).
    pub distros: Vec<String>,
    /// Git URL to clone the compose source from. Required for `type:
    /// compose`; forbidden otherwise.
    pub repo: Option<String>,
    /// Git ref (tag, branch, commit SHA) to pin to. Required for `type:
    /// compose`.
    pub git_ref: Option<String>,
    /// Subdirectory inside the cloned repo containing the compose file.
    /// Required for `type: compose`.
    pub path: Option<String>,
    /// Compose filename within `path`. Defaults to `docker-compose.yml`.
    pub compose_file: Option<String>,
    /// Declared environment parameters, keyed by name in ascending order.
    pub parameters: Vec<(String, Parameter)>,
}

/// One declared environment parameter for a `compose` channel.
#[derive(Debug, Clone, Default)]
pub struct Parameter {
    pub summary: Option<String>,
    pub default: Option<String>,
    /// `secret` ⇒ value is auto-generated on first cast and persisted in the
    /// service's `.env` so subsequent casts reuse it.
    pub kind: Option<ParameterKind>,
    /// True if the parameter must be supplied (no default, not a secret).
    pub required: bool,
}

#[derive(Debug, Clone, Copy, PartialEq, Eq, Structural)]
pub enum ParameterKind {
    Secret,
}

#[derive(Debug, Clone, Copy, PartialEq, Eq, Structural)]
pub enum ChannelType {
    Shell,
    Dnf,
    Apt,
    Pacman,
    Flatpak,
    Snap,
    Cargo,
    Pip,
    Npm,
    Compose,
}

#[derive(Debug, Clone, Copy, PartialEq, Eq, Structural)]
pub enum VersionHint {
    Latest,
    Distro,
    Pinned,
}

#[derive(Debug, Clone, Default)]
pub struct Provides {
    pub binaries: Vec<String>,
}

/// A `desktop:` block: the XDG menu entry written for the spell.
#[derive(Debug, Clone)]
pub struct DesktopEntry {
    pub name: String,
    /// The `Exec=` command line (the `exec:` key of the block).
    pub command: String,
    pub comment: Option<String>,
    pub icon: Option<String>,
    pub categories: Vec<String>,
    pub terminal: bool,
    pub startup_wm_class: Option<String>,
    pub mime_types: Vec<String>,
}

impl Provides {
    pub fn is_empty(&self) -> (r: bool)
        ensures
            r == (self.binaries.len() == 0),
    {
        self.binaries.len() == 0
    }
}

/// The distros a channel type targets when the channel lists none itself.
pub open spec fn implicit_distro_names(kind: ChannelType) -> Seq<Seq<char>> {
    match kind {
        ChannelType::Dnf => seq![
            "fedora"@,
            "rhel"@,
            "centos"@,
            "rocky"@,
            "almalinux"@,
            "opensuse"@,
            "opensuse-tumbleweed"@,
            "opensuse-leap"@,
        ],
        ChannelType::Apt => seq![
            "debian"@,
            "ubuntu"@,
            "linuxmint"@,
            "pop"@,
            "elementary"@,
            "raspbian"@,
        ],
        ChannelType::Pacman => seq![
            "arch"@,
            "manjaro"@,
            "endeavouros"@,
            "garuda"@,
            "cachyos"@,
            "artix"@,
            "archlinux"@,
        ],
        _ => seq![],
    }
}

impl ChannelType {
    /// Distros this channel type implicitly targets when the channel doesn't
    /// override with its own `distros: [...]` list. Empty list ⇒ universal.
    pub fn implicit_distros(self) -> (r: &'static [&'static str])
        ensures
            str_views(r@) == implicit_distro_names(self),
    {
        let r: &'static [&'static str] = match self {
            ChannelType::Dnf => &[
                "fedora",
                "rhel",
                "centos",
                "rocky",
                "almalinux",
                "opensuse",
                "opensuse-tumbleweed",
                "opensuse-leap",
            ],
            ChannelType::Apt => &["debian", "ubuntu", "linuxmint", "pop", "elementary", "raspbian"],
            ChannelType::Pacman => &[
                "arch",
                "manjaro",
                "endeavouros",
                "garuda",
                "cachyos",
                "artix",
                "archlinux",
            ],
            ChannelType::Shell | ChannelType::Flatpak | ChannelType::Snap | ChannelType::Cargo
            | ChannelType::Pip | ChannelType::Npm | ChannelType::Compose => &[],
        };
        assert(str_views(r@) =~= implicit_distro_names(self));
        r
    }
}

/// Whether `distro` matches one of `names`.
pub open spec fn matches_any(distro: Distro, names: Seq<Seq<char>>) -> bool {
    exists|i: int| 0 <= i < names.len() && distro.spec_matches(#[trigger] names[i])
}

pub open spec fn string_views(s: Seq<String>) -> Seq<Seq<char>> {
    s.map_values(|x: String| x@)
}

/// Whether channel `ch` applies on `distro`: its own `distros` list when it
/// has one, else its type's implicit list, where an empty list means
/// everywhere.
pub open spec fn channel_applies(ch: Channel, distro: Distro) -> bool {
    if ch.distros.len() > 0 {
        matches_any(distro, string_views(ch.distros@))
    } else {
        implicit_distro_names(ch.kind).len() == 0 || matches_any(
            distro,
            implicit_distro_names(ch.kind),
        )
    }
}

/// Whether `distro` matches one of the strings `names`.
fn matches_any_of(distro: &Distro, names: &Vec<String>) -> (r: bool)
    ensures
        r == matches_any(*distro, string_views(names@)),
{
    let mut i: usize = 0;
    while i < names.len()
        invariant
            i <= names.len(),
            forall|j: int| 0 <= j < i ==> !distro.spec_matches(#[trigger] names@[j]@),
        decreases names.len() - i,
    {
        if distro.matches(names[i].as_str()) {
            assert(string_views(names@)[i as int] == names@[i as int]@);
            return true;
        }
        i = i + 1;
    }
    proof {
        assert forall|j: int| 0 <= j < names.len() implies !distro.spec_matches(
            #[trigger] string_views(names@)[j],
        ) by {
            assert(string_views(names@)[j] == names@[j]@);
        }
    }
    false
}

/// Whether `distro` matches one of the literals `names`.
pub fn matches_any_literal(distro: &Distro, names: &[&str]) -> (r: bool)
    ensures
        r == matches_any(*distro, str_views(names@)),
{
    let mut i: usize = 0;
    while i < names.len()
        invariant
            i <= names.len(),
            forall|j: int| 0 <= j < i ==> !distro.spec_matches(#[trigger] names@[j]@),
        decreases names.len() - i,
    {
        if distro.matches(names[i]) {
            assert(str_views(names@)[i as int] == names@[i as int]@);
            return true;
        }
        i = i + 1;
    }
    proof {
        assert forall|j: int| 0 <= j < names.len() implies !distro.spec_matches(
            #[trigger] str_views(names@)[j],
        ) by {
            assert(str_views(names@)[j] == names@[j]@);
        }
    }
    false
}

/// Why a channel's fields do not fit its type.
#[derive(Debug, Clone, PartialEq, Eq)]
pub enum ChannelProblem {
    /// `run` on a `compose` channel.
    RunNotAllowed,
    /// `requires_sudo` on a `compose` channel.
    SudoNotMeaningful,
    /// A `compose` channel lacks the fields marked `true`.
    ComposeMissing { repo: bool, git_ref: bool, path: bool },
    /// A parameter name outside `[A-Z_][A-Z0-9_]*`.
    BadParameterName { name: String },
    /// A `kind: secret` parameter with a `default`.
    SecretWithDefault { name: String },
    /// A `required: true` parameter with a `default` or a `kind`.
    RequiredWithDefault { name: String },
    /// A channel of a type other than `compose` without `run`.
    RunMissing { kind: ChannelType },
    /// A channel of a type other than `compose` with the compose-only fields
    /// marked `true`.
    ComposeOnly { repo: bool, git_ref: bool, path: bool, compose_file: bool, parameters: bool },
}

/// [`ChannelProblem`] with its strings taken by their characters.
pub enum ChannelFault {
    RunNotAllowed,
    SudoNotMeaningful,
    ComposeMissing(bool, bool, bool),
    BadParameterName(Seq<char>),
    SecretWithDefault(Seq<char>),
    RequiredWithDefault(Seq<char>),
    RunMissing(ChannelType),
    ComposeOnly(bool, bool, bool, bool, bool),
}

impl View for ChannelProblem {
    type V = ChannelFault;

    open spec fn view(&self) -> ChannelFault {
        match self {
            ChannelProblem::RunNotAllowed => ChannelFault::RunNotAllowed,
            ChannelProblem::SudoNotMeaningful => ChannelFault::SudoNotMeaningful,
            ChannelProblem::ComposeMissing { repo, git_ref, path } => ChannelFault::ComposeMissing(
                *repo,
                *git_ref,
                *path,
            ),
            ChannelProblem::BadParameterName { name } => ChannelFault::BadParameterName(name@),
            ChannelProblem::SecretWithDefault { name } => ChannelFault::SecretWithDefault(name@),
            ChannelProblem::RequiredWithDefault { name } => ChannelFault::RequiredWithDefault(
                name@,
            ),
            ChannelProblem::RunMissing { kind } => ChannelFault::RunMissing(*kind),
            ChannelProblem::ComposeOnly { repo, git_ref, path, compose_file, parameters } =>
                ChannelFault::ComposeOnly(*repo, *git_ref, *path, *compose_file, *parameters),
        }
    }
}

pub open spec fn is_param_char(c: char) -> bool {
    ('A' <= c && c <= 'Z') || ('0' <= c && c <= '9') || c == '_'
}

/// Whether `name` matches `[A-Z_][A-Z0-9_]*`.
pub open spec fn valid_param_name(name: Seq<char>) -> bool {
    &&& name.len() > 0
    &&& forall|i: int| 0 <= i < name.len() ==> is_param_char(#[trigger] name[i])
    &&& !('0' <= name[0] && name[0] <= '9')
}

/// What is wrong with one declared parameter, if anything.
pub open spec fn parameter_fault(name: Seq<char>, p: Parameter) -> Option<ChannelFault> {
    if !valid_param_name(name) {
        Some(ChannelFault::BadParameterName(name))
    } else if (p.kind matches Some(ParameterKind::Secret)) && p.default is Some {
        Some(ChannelFault::SecretWithDefault(name))
    } else if p.required && (p.default is Some || p.kind is Some) {
        Some(ChannelFault::RequiredWithDefault(name))
    } else {
        None
    }
}

/// The fault of the first faulty parameter of `ps`, in order.
pub open spec fn parameters_fault(ps: Seq<(String, Parameter)>) -> Option<ChannelFault>
    decreases ps.len(),
{
    if ps.len() == 0 {
        None
    } else {
        match parameter_fault(ps[0].0@, ps[0].1) {
            Some(f) => Some(f),
            None => parameters_fault(ps.drop_first()),
        }
    }
}

/// What is wrong with a channel, if anything: the shell-versus-compose
/// split and the shape of its parameters.
pub open spec fn channel_fault(ch: Channel) -> Option<ChannelFault> {
    if ch.kind == ChannelType::Compose {
        if ch.run is Some {
            Some(ChannelFault::RunNotAllowed)
        } else if ch.requires_sudo {
            Some(ChannelFault::SudoNotMeaningful)
        } else if ch.repo is None || ch.git_ref is None || ch.path is None {
            Some(
                ChannelFault::ComposeMissing(ch.repo is None, ch.git_ref is None, ch.path is None),
            )
        } else {
            parameters_fault(ch.parameters@)
        }
    } else {
        if ch.run is None {
            Some(ChannelFault::RunMissing(ch.kind))
        } else if ch.repo is Some || ch.git_ref is Some || ch.path is Some || ch.compose_file is Some
            || ch.parameters.len() > 0 {
            Some(
                ChannelFault::ComposeOnly(
                    ch.repo is Some,
                    ch.git_ref is Some,
                    ch.path is Some,
                    ch.compose_file is Some,
                    ch.parameters.len() > 0,
                ),
            )
        } else {
            None
        }
    }
}

/// Check a parameter name against `[A-Z_][A-Z0-9_]*`.
fn param_name_ok(name: &str) -> (r: bool)
    ensures
        r == valid_param_name(name@),
{
    let v = crate::text::chars_of(name);
    if v.len() == 0 {
        return false;
    }
    let mut i: usize = 0;
    while i < v.len()
        invariant
            v@ == name@,
            i <= v.len(),
            forall|j: int| 0 <= j < i ==> is_param_char(#[trigger] v@[j]),
        decreases v.len() - i,
    {
        let c = v[i];
        if !(('A' <= c && c <= 'Z') || ('0' <= c && c <= '9') || c == '_') {
            assert(!is_param_char(name@[i as int]));
            return false;
        }
        i = i + 1;
    }
    !('0' <= v[0] && v[0] <= '9')
}

impl Channel {
    /// Cross-field invariants that the JSON schema can't fully express.
    /// Validates the shell-vs-compose split and parameter shape.
    pub fn validate(&self) -> (r: Result<(), ChannelProblem>)
        requires
            keys_ascending(self.parameters@),
        ensures
            match r {
                Ok(()) => channel_fault(*self) is None,
                Err(p) => channel_fault(*self) == Some(p@),
            },
    {
        match self.kind {
            ChannelType::Compose => {
                if self.run.is_some() {
                    return Err(ChannelProblem::RunNotAllowed);
                }
                if self.requires_sudo {
                    return Err(ChannelProblem::SudoNotMeaningful);
                }
                if self.repo.is_none() || self.git_ref.is_none() || self.path.is_none() {
                    return Err(
                        ChannelProblem::ComposeMissing {
                            repo: self.repo.is_none(),
                            git_ref: self.git_ref.is_none(),
                            path: self.path.is_none(),
                        },
                    );
                }
                let mut i: usize = 0;
                proof {
                    assert(self.parameters@.skip(0) =~= self.parameters@);
                }
                while i < self.parameters.len()
                    invariant
                        channel_fault(*self) == parameters_fault(self.parameters@),
                        i <= self.parameters.len(),
                        parameters_fault(self.parameters@) == parameters_fault(
                            self.parameters@.skip(i as int),
                        ),
                    decreases self.parameters.len() - i,
                {
                    let ghost rest = self.parameters@.skip(i as int);
                    proof {
                        assert(rest[0] == self.parameters@[i as int]);
                        assert(rest.drop_first() =~= self.parameters@.skip(i + 1));
                    }
                    let (pname, p) = (&self.parameters[i].0, &self.parameters[i].1);
                    assert(rest[0].0@ == pname@ && rest[0].1 == *p);
                    if !param_name_ok(pname.as_str()) {
                        return Err(ChannelProblem::BadParameterName { name: pname.clone() });
                    }
                    let secret = match p.kind {
                        Some(ParameterKind::Secret) => true,
                        None => false,
                    };
                    assert(valid_param_name(pname@));
                    if secret && p.default.is_some() {
                        return Err(ChannelProblem::SecretWithDefault { name: pname.clone() });
                    }
                    if p.required && (p.default.is_some() || p.kind.is_some()) {
                        return Err(ChannelProblem::RequiredWithDefault { name: pname.clone() });
                    }
                    i = i + 1;
                }
                proof {
                    assert(self.parameters@.skip(i as int) =~= Seq::<(String, Parameter)>::empty());
                }
                Ok(())
            },
            _ => {
                if self.run.is_none() {
                    return Err(ChannelProblem::RunMissing { kind: self.kind });
                }
                if self.repo.is_some() || self.git_ref.is_some() || self.path.is_some()
                    || self.compose_file.is_some() || self.parameters.len() > 0 {
                    return Err(
                        ChannelProblem::ComposeOnly {
                            repo: self.repo.is_some(),
                            git_ref: self.git_ref.is_some(),
                            path: self.path.is_some(),
                            compose_file: self.compose_file.is_some(),
                            parameters: self.parameters.len() > 0,
                        },
                    );
                }
                Ok(())
            },
        }
    }

    /// True if this channel applies on `distro`. Universal channel types
    /// (whose implicit list is empty) apply everywhere unless explicitly
    /// restricted via the per-channel `distros: [...]` field.
    pub fn applies_to(&self, distro: &Distro) -> (r: bool)
        ensures
            r == channel_applies(*self, *distro),
    {
        if self.distros.len() > 0 {
            return matches_any_of(distro, &self.distros);
        }
        let implicit = self.kind.implicit_distros();
        if implicit.len() == 0 {
            true
        } else {
            matches_any_literal(distro, implicit)
        }
    }
}

pub open spec fn channel_keys(chs: Seq<(String, Channel)>) -> Seq<Seq<char>> {
    chs.map_values(|e: (String, Channel)| e.0@)
}

/// Index of the first channel keyed `name`, or `chs.len()`.
pub open spec fn key_index(chs: Seq<(String, Channel)>, name: Seq<char>) -> int
    decreases chs.len(),
{
    if chs.len() == 0 {
        0
    } else if chs[0].0@ == name {
        0
    } else {
        1 + key_index(chs.drop_first(), name)
    }
}

pub proof fn lemma_key_index(chs: Seq<(String, Channel)>, name: Seq<char>)
    ensures
        0 <= key_index(chs, name) <= chs.len(),
        key_index(chs, name) < chs.len() ==> chs[key_index(chs, name)].0@ == name,
        forall|i: int| 0 <= i < key_index(chs, name) ==> chs[i].0@ != name,
    decreases chs.len(),
{
    if chs.len() > 0 && chs[0].0@ != name {
        lemma_key_index(chs.drop_first(), name);
        assert forall|i: int| 0 <= i < key_index(chs, name) implies chs[i].0@ != name by {
            if i > 0 {
                assert(chs[i] == chs.drop_first()[i - 1]);
            }
        }
    }
}

pub proof fn lemma_key_index_at(chs: Seq<(String, Channel)>, name: Seq<char>, k: int)
    requires
        0 <= k <= chs.len(),
        forall|i: int| 0 <= i < k ==> chs[i].0@ != name,
        k == chs.len() || chs[k].0@ == name,
    ensures
        key_index(chs, name) == k,
{
    lemma_key_index(chs, name);
    if key_index(chs, name) < k {
        assert(chs[key_index(chs, name)].0@ == name);
    }
    if key_index(chs, name) > k {
        assert(chs[k].0@ != name);
    }
}

/// Index of the first channel that applies on `distro`, or `chs.len()`.
pub open spec fn first_applicable(chs: Seq<(String, Channel)>, distro: Distro) -> int
    decreases chs.len(),
{
    if chs.len() == 0 {
        0
    } else if channel_applies(chs[0].1, distro) {
        0
    } else {
        1 + first_applicable(chs.drop_first(), distro)
    }
}

pub proof fn lemma_first_applicable_at(chs: Seq<(String, Channel)>, distro: Distro, k: int)
    requires
        0 <= k <= chs.len(),
        forall|i: int| 0 <= i < k ==> !channel_applies(#[trigger] chs[i].1, distro),
        k == chs.len() || channel_applies(chs[k].1, distro),
    ensures
        first_applicable(chs, distro) == k,
    decreases k,
{
    if k > 0 {
        assert forall|i: int| 0 <= i < k - 1 implies !channel_applies(
            #[trigger] chs.drop_first()[i].1,
            distro,
        ) by {
            assert(chs.drop_first()[i] == chs[i + 1]);
        }
        lemma_first_applicable_at(chs.drop_first(), distro, k - 1);
    }
}

/// Why no channel could be picked.
#[derive(Debug, Clone, PartialEq, Eq)]
pub enum PickError {
    /// The requested channel is not declared; `available` lists the keys.
    NotFound { name: String, available: Vec<String> },
    /// The requested channel does not apply on the distro `distro`.
    NotApplicable { name: String, distro: String },
    /// No channel applies on the distro `distro`; `available` lists the keys.
    NoneApplicable { distro: String, available: Vec<String> },
}

impl Cast {
    /// Index of the channel keyed `name`, if any.
    pub fn find(&self, name: &str) -> (r: Option<usize>)
        ensures
            match r {
                Some(i) => i == key_index(self.channels@, name@) && i < self.channels.len(),
                None => key_index(self.channels@, name@) == self.channels.len(),
            },
    {
        let mut i: usize = 0;
        while i < self.channels.len()
            invariant
                i <= self.channels.len(),
                forall|j: int| 0 <= j < i ==> self.channels@[j].0@ != name@,
            decreases self.channels.len() - i,
        {
            if str_eq(self.channels[i].0.as_str(), name) {
                proof {
                    lemma_key_index_at(self.channels@, name@, i as int);
                }
                return Some(i);
            }
            i = i + 1;
        }
        proof {
            lemma_key_index_at(self.channels@, name@, i as int);
        }
        None
    }

    /// The channel keys, in order.
    pub fn keys(&self) -> (r: Vec<String>)
        ensures
            string_views(r@) == channel_keys(self.channels@),
    {
        let mut out: Vec<String> = Vec::new();
        let mut i: usize = 0;
        while i < self.channels.len()
            invariant
                i <= self.channels.len(),
                string_views(out@) =~= channel_keys(self.channels@).take(i as int),
            decreases self.channels.len() - i,
        {
            let k = self.channels[i].0.clone();
            let ghost before = out@;
            out.push(k);
            proof {
                assert(string_views(out@) =~= string_views(before).push(k@));
                assert(channel_keys(self.channels@).take(i + 1) =~= channel_keys(
                    self.channels@,
                ).take(i as int).push(self.channels@[i as int].0@));
            }
            i = i + 1;
        }
        assert(channel_keys(self.channels@).take(i as int) =~= channel_keys(self.channels@));
        out
    }

    /// Pick a channel for this distro.
    /// - If `override_name` is given, that channel is used (or an error is
    ///   returned if it doesn't apply on `distro`).
    /// - Else `cast.default` is used if it applies.
    /// - Else the first channel (in key order) that applies.
    /// - Else an error is returned saying the spell isn't supported here.
    pub fn pick_channel<'a>(&'a self, distro: &Distro, override_name: Option<&'a str>) -> (r:
        Result<(&'a str, &'a Channel), PickError>)
        requires
            keys_ascending(self.channels@),
        ensures
            match override_name {
                Some(name) => {
                    let i = key_index(self.channels@, name@);
                    if i == self.channels.len() {
                        r matches Err(PickError::NotFound { name: n, available }) && n@ == name@
                            && string_views(available@) == channel_keys(self.channels@)
                    } else if !channel_applies(self.channels@[i].1, *distro) {
                        r matches Err(PickError::NotApplicable { name: n, distro: d }) && n@
                            == name@ && d@ == distro.id@
                    } else {
                        r matches Ok((k, ch)) && k@ == name@ && *ch == self.channels@[i].1
                    }
                },
                None => {
                    let d = key_index(self.channels@, self.default@);
                    let f = first_applicable(self.channels@, *distro);
                    if d < self.channels.len() && channel_applies(self.channels@[d].1, *distro) {
                        r matches Ok((k, ch)) && k@ == self.default@ && *ch
                            == self.channels@[d].1
                    } else if f < self.channels.len() {
                        r matches Ok((k, ch)) && k@ == self.channels@[f].0@ && *ch
                            == self.channels@[f].1 && forall|j: int|
                            0 <= j < self.channels.len() && channel_applies(
                                #[trigger] self.channels@[j].1,
                                *distro,
                            ) && j != f ==> lex(k@, self.channels@[j].0@) == Order::Less
                    } else {
                        r matches Err(PickError::NoneApplicable { distro: d, available }) && d@
                            == distro.id@ && string_views(available@) == channel_keys(
                            self.channels@,
                        )
                    }
                },
            },
    {
        if let Some(name) = override_name {
            match self.find(name) {
                None => {
                    return Err(
                        PickError::NotFound { name: String::from_str(name), available: self.keys() },
                    );
                },
                Some(i) => {
                    let ch = &self.channels[i].1;
                    if !ch.applies_to(distro) {
                        return Err(
                            PickError::NotApplicable {
                                name: String::from_str(name),
                                distro: distro.id.clone(),
                            },
                        );
                    }
                    return Ok((name, ch));
                },
            }
        }
        if let Some(d) = self.find(self.default.as_str()) {
            let ch = &self.channels[d].1;
            if ch.applies_to(distro) {
                return Ok((self.default.as_str(), ch));
            }
        }
        let mut i: usize = 0;
        while i < self.channels.len()
            invariant
                i <= self.channels.len(),
                override_name is None,
                keys_ascending(self.channels@),
                !(key_index(self.channels@, self.default@) < self.channels.len() && channel_applies(
                    self.channels@[key_index(self.channels@, self.default@)].1,
                    *distro,
                )),
                forall|j: int| 0 <= j < i ==> !channel_applies(#[trigger] self.channels@[j].1, *distro),
            decreases self.channels.len() - i,
        {
            if self.channels[i].1.applies_to(distro) {
                proof {
                    lemma_first_applicable_at(self.channels@, *distro, i as int);
                    assert forall|j: int|
                        0 <= j < self.channels.len() && channel_applies(
                            #[trigger] self.channels@[j].1,
                            *distro,
                        ) && j != i implies lex(self.channels@[i as int].0@, self.channels@[j].0@)
                        == Order::Less by {
                        if j < i {
                            assert(!channel_applies(self.channels@[j].1, *distro));
                        }
                    }
                }
                return Ok((self.channels[i].0.as_str(), &self.channels[i].1));
            }
            i = i + 1;
        }
        proof {
            lemma_first_applicable_at(self.channels@, *distro, i as int);
        }
        Err(PickError::NoneApplicable { distro: distro.id.clone(), available: self.keys() })
    }

    /// True if at least one channel applies on `distro`.
    pub fn any_applicable(&self, distro: &Distro) -> (r: bool)
        ensures
            r == exists|i: int|
                0 <= i < self.channels.len() && channel_applies(
                    #[trigger] self.channels@[i].1,
                    *distro,
                ),
    {
        let mut i: usize = 0;
        while i < self.channels.len()
            invariant
                i <= self.channels.len(),
                forall|j: int| 0 <= j < i ==> !channel_applies(#[trigger] self.channels@[j].1, *distro),
            decreases self.channels.len() - i,
        {
            if self.channels[i].1.applies_to(distro) {
                return true;
            }
            i = i + 1;
        }
        false
    }
}

/// Without an override, a channel is picked exactly when some channel
/// applies on the distro, and the picked channel always applies.
pub proof fn lemma_pick_without_override(cast: Cast, distro: Distro)
    ensures
        first_applicable(cast.channels@, distro) < cast.channels.len() <==> exists|i: int|
            0 <= i < cast.channels.len() && channel_applies(#[trigger] cast.channels@[i].1, distro),
        first_applicable(cast.channels@, distro) < cast.channels.len() ==> channel_applies(
            cast.channels@[first_applicable(cast.channels@, distro)].1,
            distro,
        ),
{
    lemma_first_applicable(cast.channels@, distro);
}

pub proof fn lemma_first_applicable(chs: Seq<(String, Channel)>, distro: Distro)
    ensures
        0 <= first_applicable(chs, distro) <= chs.len(),
        first_applicable(chs, distro) < chs.len() ==> channel_applies(
            chs[first_applicable(chs, distro)].1,
            distro,
        ),
        forall|i: int|
            0 <= i < first_applicable(chs, distro) ==> !channel_applies(#[trigger] chs[i].1, distro),
        first_applicable(chs, distro) < chs.len() <==> exists|i: int|
            0 <= i < chs.len() && channel_applies(#[trigger] chs[i].1, distro),
    decreases chs.len(),
{
    if chs.len() > 0 && !channel_applies(chs[0].1, distro) {
        lemma_first_applicable(chs.drop_first(), distro);
        assert forall|i: int|
            0 <= i < first_applicable(chs, distro) implies !channel_applies(
            #[trigger] chs[i].1,
            distro,
        ) by {
            if i > 0 {
                assert(chs[i] == chs.drop_first()[i - 1]);
            }
        }
        if exists|i: int| 0 <= i < chs.len() && channel_applies(#[trigger] chs[i].1, distro) {
            let i = choose|i: int| 0 <= i < chs.len() && channel_applies(#[trigger] chs[i].1, distro);
            assert(i > 0);
            assert(chs.drop_first()[i - 1] == chs[i]);
        }
        if first_applicable(chs, distro) < chs.len() {
            let k = first_applicable(chs, distro);
            assert(chs[k] == chs.drop_first()[k - 1]);
        }
    } else if chs.len() > 0 {
        assert(channel_applies(chs[0].1, distro));
    }
}

/// Why a spell is refused.
#[derive(Debug, Clone, PartialEq, Eq)]
pub enum SpellError {
    /// The spell name is not `[a-z][a-z0-9-]*`.
    Name(ConstraintError),
    /// The spell declares no cast channels.
    NoChannels,
    /// `cast.default` names no declared channel.
    DefaultNotInChannels { default: String },
    /// The channel keyed `channel` is malformed.
    Channel { channel: String, problem: ChannelProblem },
    /// The `requires` entry `entry` does not parse.
    Requires { entry: String, error: ConstraintError },
}

/// [`SpellError`] with its strings taken by their characters.
pub enum SpellFault {
    Name(ParseFailure),
    NoChannels,
    DefaultNotInChannels(Seq<char>),
    Channel(Seq<char>, ChannelFault),
    Requires(Seq<char>, ParseFailure),
}

impl View for SpellError {
    type V = SpellFault;

    open spec fn view(&self) -> SpellFault {
        match self {
            SpellError::Name(e) => SpellFault::Name(e@),
            SpellError::NoChannels => SpellFault::NoChannels,
            SpellError::DefaultNotInChannels { default } => SpellFault::DefaultNotInChannels(
                default@,
            ),
            SpellError::Channel { channel, problem } => SpellFault::Channel(channel@, problem@),
            SpellError::Requires { entry, error } => SpellFault::Requires(entry@, error@),
        }
    }
}

/// The first faulty channel of `chs`, in order, with its fault.
pub open spec fn channels_fault(chs: Seq<(String, Channel)>) -> Option<(Seq<char>, ChannelFault)>
    decreases chs.len(),
{
    if chs.len() == 0 {
        None
    } else {
        match channel_fault(chs[0].1) {
            Some(f) => Some((chs[0].0@, f)),
            None => channels_fault(chs.drop_first()),
        }
    }
}

/// What is wrong with a spell, checked in this order: its name, that it has
/// channels, that its default is one of them, each channel, each `requires`
/// entry.
pub open spec fn spell_fault(s: Spell) -> Option<SpellFault> {
    let reqs = constraint::entry_views(s.requires@);
    if name_check(s.name@) is Some {
        Some(SpellFault::Name(name_check(s.name@)->0))
    } else if s.cast.channels.len() == 0 {
        Some(SpellFault::NoChannels)
    } else if key_index(s.cast.channels@, s.cast.default@) == s.cast.channels.len() {
        Some(SpellFault::DefaultNotInChannels(s.cast.default@))
    } else if let Some((key, f)) = channels_fault(s.cast.channels@) {
        Some(SpellFault::Channel(key, f))
    } else if constraint::requirements_parse(reqs) is Err {
        let (i, e) = constraint::requirements_parse(reqs)->Err_0;
        Some(SpellFault::Requires(reqs[i], e))
    } else {
        None
    }
}

/// Whether validating `s` only parses `requires` entries on which parsing is
/// defined.
pub open spec fn spell_in_bounds(s: Spell) -> bool {
    (name_check(s.name@) is None && s.cast.channels.len() > 0 && key_index(
        s.cast.channels@,
        s.cast.default@,
    ) < s.cast.channels.len() && channels_fault(s.cast.channels@) is None)
        ==> constraint::requirements_in_bounds(constraint::entry_views(s.requires@))
}

pub proof fn lemma_requirements_parse_index(rs: Seq<Seq<char>>)
    ensures
        constraint::requirements_parse(rs) matches Err((i, _)) ==> 0 <= i < rs.len(),
    decreases rs.len(),
{
    if rs.len() > 0 {
        lemma_requirements_parse_index(rs.drop_first());
    }
}

/// Whether the spell's channels, and each channel's parameters, are keyed
/// as a map lists them: each key once, in ascending order.
pub open spec fn spell_keys_ascending(s: Spell) -> bool {
    &&& keys_ascending(s.cast.channels@)
    &&& forall|i: int|
        0 <= i < s.cast.channels.len() ==> keys_ascending(#[trigger] s.cast.channels@[i].1.parameters@)
}

impl Spell {
    /// Check the spell's cross-field invariants.
    pub fn validate(&self) -> (r: Result<(), SpellError>)
        requires
            spell_in_bounds(*self),
            spell_keys_ascending(*self),
        ensures
            match r {
                Ok(()) => spell_fault(*self) is None,
                Err(e) => spell_fault(*self) == Some(e@),
            },
    {
        match constraint::validate_name(self.name.as_str()) {
            Ok(()) => {},
            Err(e) => {
                return Err(SpellError::Name(e));
            },
        }
        if self.cast.channels.len() == 0 {
            return Err(SpellError::NoChannels);
        }
        if self.cast.find(self.cast.default.as_str()).is_none() {
            return Err(SpellError::DefaultNotInChannels { default: self.cast.default.clone() });
        }
        let mut i: usize = 0;
        proof {
            assert(self.cast.channels@.skip(0) =~= self.cast.channels@);
        }
        while i < self.cast.channels.len()
            invariant
                i <= self.cast.channels.len(),
                spell_keys_ascending(*self),
                spell_fault(*self) == (if let Some((key, f)) = channels_fault(self.cast.channels@) {
                    Some(SpellFault::Channel(key, f))
                } else if constraint::requirements_parse(
                    constraint::entry_views(self.requires@),
                ) is Err {
                    let reqs = constraint::entry_views(self.requires@);
                    let (i, e) = constraint::requirements_parse(reqs)->Err_0;
                    Some(SpellFault::Requires(reqs[i], e))
                } else {
                    None
                }),
                channels_fault(self.cast.channels@) is None ==> constraint::requirements_in_bounds(
                    constraint::entry_views(self.requires@),
                ),
                channels_fault(self.cast.channels@) == channels_fault(
                    self.cast.channels@.skip(i as int),
                ),
            decreases self.cast.channels.len() - i,
        {
            let ghost rest = self.cast.channels@.skip(i as int);
            proof {
                assert(rest[0] == self.cast.channels@[i as int]);
                assert(rest.drop_first() =~= self.cast.channels@.skip(i + 1));
            }
            match self.cast.channels[i].1.validate() {
                Ok(()) => {},
                Err(p) => {
                    return Err(
                        SpellError::Channel { channel: self.cast.channels[i].0.clone(), problem: p },
                    );
                },
            }
            i = i + 1;
        }
        proof {
            assert(self.cast.channels@.skip(i as int) =~= Seq::<(String, Channel)>::empty());
        }
        match constraint::parse_all(&self.requires) {
            Ok(_) => Ok(()),
            Err((j, e)) => {
                proof {
                    lemma_requirements_parse_index(constraint::entry_views(self.requires@));
                }
                Err(SpellError::Requires { entry: self.requires[j].clone(), error: e })
            },
        }
    }

    /// The spell's `requires` entries, parsed.
    pub fn parsed_requires(&self) -> (r: Result<Vec<Requirement>, ConstraintError>)
        requires
            constraint::requirements_in_bounds(constraint::entry_views(self.requires@)),
        ensures
            match r {
                Ok(v) => constraint::requirements_parse(constraint::entry_views(self.requires@))
                    == Ok::<Seq<(Seq<char>, Seq<(constraint::Op, Seq<char>)>)>, (int, ParseFailure)>(
                    constraint::requirement_views(v@),
                ),
                Err(e) => constraint::requirements_parse(
                    constraint::entry_views(self.requires@),
                ) matches Err((_, f)) && f == e@,
            },
    {
        match constraint::parse_all(&self.requires) {
            Ok(v) => Ok(v),
            Err((_, e)) => Err(e),
        }
    }
}


/// How `{:?}` writes a channel type: its variant's name.
pub open spec fn variant_name(k: ChannelType) -> Seq<char> {
    match k {
        ChannelType::Shell => "Shell"@,
        ChannelType::Dnf => "Dnf"@,
        ChannelType::Apt => "Apt"@,
        ChannelType::Pacman => "Pacman"@,
        ChannelType::Flatpak => "Flatpak"@,
        ChannelType::Snap => "Snap"@,
        ChannelType::Cargo => "Cargo"@,
        ChannelType::Pip => "Pip"@,
        ChannelType::Npm => "Npm"@,
        ChannelType::Compose => "Compose"@,
    }
}

impl ChannelType {
    /// The variant's name, as `{:?}` writes it.
    pub fn variant_name(self) -> (r: &'static str)
        ensures
            r@ == variant_name(self),
    {
        match self {
            ChannelType::Shell => "Shell",
            ChannelType::Dnf => "Dnf",
            ChannelType::Apt => "Apt",
            ChannelType::Pacman => "Pacman",
            ChannelType::Flatpak => "Flatpak",
            ChannelType::Snap => "Snap",
            ChannelType::Cargo => "Cargo",
            ChannelType::Pip => "Pip",
            ChannelType::Npm => "Npm",
            ChannelType::Compose => "Compose",
        }
    }
}

/// `name` alone if `on`, else nothing.
pub open spec fn named_if(on: bool, name: Seq<char>) -> Seq<Seq<char>> {
    if on {
        seq![name]
    } else {
        Seq::<Seq<char>>::empty()
    }
}

/// The fields a `compose` channel lacks, in the order repo, ref, path.
pub open spec fn missing_fields(repo: bool, git_ref: bool, path: bool) -> Seq<Seq<char>> {
    named_if(repo, "repo"@) + named_if(git_ref, "ref"@) + named_if(path, "path"@)
}

/// The compose-only fields a channel of another type has.
pub open spec fn extra_fields(repo: bool, git_ref: bool, path: bool, compose_file: bool, parameters: bool) -> Seq<
    Seq<char>,
> {
    named_if(repo, "repo"@) + named_if(git_ref, "ref"@) + named_if(path, "path"@) + named_if(
        compose_file,
        "compose_file"@,
    ) + named_if(parameters, "parameters"@)
}

/// What is wrong with a channel, after naming the spell and the channel.
pub open spec fn channel_fault_message(spell: Seq<char>, key: Seq<char>, f: ChannelFault) -> Seq<char> {
    "spell "@ + quoted(spell) + " channel "@ + quoted(key) + ": "@ + match f {
        ChannelFault::RunNotAllowed =>
            "`run` is not allowed for `type: compose` (the channel derives its invocation from repo/ref/path)"@,
        ChannelFault::SudoNotMeaningful => "`requires_sudo` is not meaningful for `type: compose`"@,
        ChannelFault::ComposeMissing(r, g, p) => "`type: compose` requires "@ + join(
            missing_fields(r, g, p),
            ", "@,
        ),
        ChannelFault::BadParameterName(n) => "parameter name "@ + quoted(n) + " must match [A-Z_][A-Z0-9_]*"@,
        ChannelFault::SecretWithDefault(n) => "parameter "@ + quoted(n)
            + " is `kind: secret` and cannot have a `default`"@,
        ChannelFault::RequiredWithDefault(n) => "parameter "@ + quoted(n)
            + " is `required: true` and cannot also have `default` or `kind`"@,
        ChannelFault::RunMissing(k) => "`run` is required for `type: "@ + variant_name(k) + "`"@,
        ChannelFault::ComposeOnly(r, g, p, c, ps) => "fields "@ + join(extra_fields(r, g, p, c, ps), ", "@)
            + " are only valid for `type: compose`"@,
    }
}

/// Push `name` onto `v` if `on`.
fn push_if(v: &mut Vec<&'static str>, on: bool, name: &'static str)
    ensures
        str_views(final(v)@) == str_views(old(v)@) + named_if(on, name@),
{
    let ghost before = v@;
    if on {
        v.push(name);
        proof {
            assert(str_views(v@) =~= str_views(before) + named_if(on, name@));
        }
    } else {
        proof {
            assert(str_views(v@) =~= str_views(before) + named_if(on, name@));
        }
    }
}

impl ChannelProblem {
    /// The problem of the channel keyed `key` of the spell `spell`, as a
    /// sentence.
    pub fn message(&self, spell: &str, key: &str) -> (r: String)
        ensures
            r@ == channel_fault_message(spell@, key@, self@),
    {
        let mut s = String::from_str("spell ");
        push_quoted(&mut s, spell);
        s.append(" channel ");
        push_quoted(&mut s, key);
        s.append(": ");
        let ghost head = s@;
        match self {
            ChannelProblem::RunNotAllowed => {
                s.append(
                    "`run` is not allowed for `type: compose` (the channel derives its invocation from repo/ref/path)",
                );
            },
            ChannelProblem::SudoNotMeaningful => {
                s.append("`requires_sudo` is not meaningful for `type: compose`");
            },
            ChannelProblem::ComposeMissing { repo, git_ref, path } => {
                let mut v: Vec<&'static str> = Vec::new();
                push_if(&mut v, *repo, "repo");
                push_if(&mut v, *git_ref, "ref");
                push_if(&mut v, *path, "path");
                proof {
                    assert(str_views(v@) =~= missing_fields(*repo, *git_ref, *path));
                }
                s.append("`type: compose` requires ");
                s.append(join_strs(v.as_slice(), ", ").as_str());
            },
            ChannelProblem::BadParameterName { name } => {
                s.append("parameter name ");
                push_quoted(&mut s, name.as_str());
                s.append(" must match [A-Z_][A-Z0-9_]*");
            },
            ChannelProblem::SecretWithDefault { name } => {
                s.append("parameter ");
                push_quoted(&mut s, name.as_str());
                s.append(" is `kind: secret` and cannot have a `default`");
            },
            ChannelProblem::RequiredWithDefault { name } => {
                s.append("parameter ");
                push_quoted(&mut s, name.as_str());
                s.append(" is `required: true` and cannot also have `default` or `kind`");
            },
            ChannelProblem::RunMissing { kind } => {
                s.append("`run` is required for `type: ");
                s.append(kind.variant_name());
                s.append("`");
            },
            ChannelProblem::ComposeOnly { repo, git_ref, path, compose_file, parameters } => {
                let mut v: Vec<&'static str> = Vec::new();
                push_if(&mut v, *repo, "repo");
                push_if(&mut v, *git_ref, "ref");
                push_if(&mut v, *path, "path");
                push_if(&mut v, *compose_file, "compose_file");
                push_if(&mut v, *parameters, "parameters");
                proof {
                    assert(str_views(v@) =~= extra_fields(*repo, *git_ref, *path, *compose_file, *parameters));
                }
                s.append("fields ");
                s.append(join_strs(v.as_slice(), ", ").as_str());
                s.append(" are only valid for `type: compose`");
            },
        }
        proof {
            assert(s@ =~= channel_fault_message(spell@, key@, self@));
        }
        s
    }
}

/// What is wrong with the spell named `name`, as a sentence.
pub open spec fn spell_fault_message(name: Seq<char>, f: SpellFault) -> Seq<char> {
    match f {
        SpellFault::Name(e) => constraint::failure_message(e),
        SpellFault::NoChannels => "spell "@ + quoted(name) + " declares no cast channels"@,
        SpellFault::DefaultNotInChannels(d) => "spell "@ + quoted(name) + " default channel "@ + quoted(d)
            + " is not in channels"@,
        SpellFault::Channel(key, cf) => channel_fault_message(name, key, cf),
        SpellFault::Requires(entry, e) => "spell "@ + quoted(name) + ": invalid requires entry "@ + quoted(entry)
            + ": "@ + constraint::entry_failure_message(entry, e),
    }
}

impl SpellError {
    /// The error of the spell named `name`, as a sentence.
    pub fn message(&self, name: &str) -> (r: String)
        ensures
            r@ == spell_fault_message(name@, self@),
    {
        match self {
            SpellError::Name(e) => e.message(),
            SpellError::NoChannels => {
                let mut s = String::from_str("spell ");
                push_quoted(&mut s, name);
                s.append(" declares no cast channels");
                proof {
                    assert(s@ =~= spell_fault_message(name@, self@));
                }
                s
            },
            SpellError::DefaultNotInChannels { default } => {
                let mut s = String::from_str("spell ");
                push_quoted(&mut s, name);
                s.append(" default channel ");
                push_quoted(&mut s, default.as_str());
                s.append(" is not in channels");
                proof {
                    assert(s@ =~= spell_fault_message(name@, self@));
                }
                s
            },
            SpellError::Channel { channel, problem } => problem.message(name, channel.as_str()),
            SpellError::Requires { entry, error } => {
                let mut s = String::from_str("spell ");
                push_quoted(&mut s, name);
                s.append(": invalid requires entry ");
                push_quoted(&mut s, entry.as_str());
                s.append(": ");
                s.append(error.entry_message(entry.as_str()).as_str());
                proof {
                    assert(s@ =~= spell_fault_message(name@, self@));
                }
                s
            },
        }
    }
}

/// Why no channel could be picked, as a sentence.
pub open spec fn pick_message(e: PickError) -> Seq<char> {
    match e {
        PickError::NotFound { name, available } => "channel "@ + quoted(name@) + " not found (available: "@
            + join(crate::text::string_views(available@), ", "@) + ")"@,
        PickError::NotApplicable { name, distro } => "channel "@ + quoted(name@) + " doesn't apply on distro "@
            + quoted(distro@),
        PickError::NoneApplicable { distro, available } => "no channel applies on distro "@ + quoted(distro@)
            + " (channels: "@ + join(crate::text::string_views(available@), ", "@) + ")"@,
    }
}

impl PickError {
    /// The error as a sentence.
    pub fn message(&self) -> (r: String)
        ensures
            r@ == pick_message(*self),
    {
        let mut s = String::new();
        match self {
            PickError::NotFound { name, available } => {
                s.append("channel ");
                push_quoted(&mut s, name.as_str());
                s.append(" not found (available: ");
                s.append(join_strings(available, ", ").as_str());
                s.append(")");
            },
            PickError::NotApplicable { name, distro } => {
                s.append("channel ");
                push_quoted(&mut s, name.as_str());
                s.append(" doesn't apply on distro ");
                push_quoted(&mut s, distro.as_str());
            },
            PickError::NoneApplicable { distro, available } => {
                s.append("no channel applies on distro ");
                push_quoted(&mut s, distro.as_str());
                s.append(" (channels: ");
                s.append(join_strings(available, ", ").as_str());
                s.append(")");
            },
        }
        proof {
            assert(s@ =~= pick_message(*self));
        }
        s
    }
}


/// A channel with its own `distros` list applies on a distro exactly when
/// the distro's ID, or one of its ID_LIKE entries, is in that list, whatever
/// the channel's type. Only a channel without such a list is decided by its
/// type, and one whose type names no distros then applies everywhere.
pub proof fn lemma_channel_applies(ch: Channel, d: Distro)
    ensures
        ch.distros.len() > 0 ==> (channel_applies(ch, d) <==> exists|i: int|
            0 <= i < ch.distros.len() && (d.id@ == #[trigger] ch.distros@[i]@ || string_views(
                d.id_like@,
            ).contains(ch.distros@[i]@))),
        ch.distros.len() == 0 && implicit_distro_names(ch.kind).len() == 0 ==> channel_applies(ch, d),
{
    if ch.distros.len() > 0 {
        let names = string_views(ch.distros@);
        if channel_applies(ch, d) {
            let i = choose|i: int| 0 <= i < names.len() && d.spec_matches(#[trigger] names[i]);
            assert(names[i] == ch.distros@[i]@);
            if d.id@ != names[i] {
                let j = choose|j: int| 0 <= j < d.id_like.len() && #[trigger] d.id_like@[j]@ == names[i];
                assert(string_views(d.id_like@)[j] == d.id_like@[j]@);
            }
        }
        if exists|i: int|
            0 <= i < ch.distros.len() && (d.id@ == #[trigger] ch.distros@[i]@ || string_views(
                d.id_like@,
            ).contains(ch.distros@[i]@)) {
            let i = choose|i: int|
                0 <= i < ch.distros.len() && (d.id@ == #[trigger] ch.distros@[i]@ || string_views(
                    d.id_like@,
                ).contains(ch.distros@[i]@));
            assert(names[i] == ch.distros@[i]@);
            if d.id@ != names[i] {
                let j = choose|j: int| 0 <= j < string_views(d.id_like@).len() && string_views(d.id_like@)[j] == names[i];
                assert(string_views(d.id_like@)[j] == d.id_like@[j]@);
            }
            assert(d.spec_matches(names[i]));
        }
    }
}

/// Two channels with the same non-empty `distros` list apply on the same
/// distros, whatever their types.
pub proof fn lemma_distros_override_type(a: Channel, b: Channel, d: Distro)
    requires
        a.distros.len() > 0,
        a.distros@ == b.distros@,
    ensures
        channel_applies(a, d) == channel_applies(b, d),
{
}

proof fn lemma_parameters_fault_none(ps: Seq<(String, Parameter)>)
    requires
        parameters_fault(ps) is None,
    ensures
        forall|i: int| 0 <= i < ps.len() ==> parameter_fault(#[trigger] ps[i].0@, ps[i].1) is None,
    decreases ps.len(),
{
    if ps.len() > 0 {
        lemma_parameters_fault_none(ps.drop_first());
        assert forall|i: int| 0 <= i < ps.len() implies parameter_fault(#[trigger] ps[i].0@, ps[i].1) is None by {
            if i > 0 {
                assert(ps[i] == ps.drop_first()[i - 1]);
            }
        }
    }
}

/// What a channel that validates looks like. A `compose` channel has no
/// `run` and no `requires_sudo`, has its repo, ref and path, and each of its
/// parameters has a name of upper-case letters, digits and underscores not
/// starting with a digit; a secret parameter has no default, and a required
/// one has neither a default nor a kind. A channel of any other type has a
/// `run` snippet and none of the compose-only fields.
pub proof fn lemma_valid_channel(ch: Channel)
    requires
        channel_fault(ch) is None,
    ensures
        ch.kind == ChannelType::Compose ==> {
            &&& ch.run is None
            &&& !ch.requires_sudo
            &&& ch.repo is Some && ch.git_ref is Some && ch.path is Some
            &&& forall|i: int|
                0 <= i < ch.parameters.len() ==> {
                    let name = (#[trigger] ch.parameters@[i]).0@;
                    let p = ch.parameters@[i].1;
                    &&& name.len() > 0
                    &&& !('0' <= name[0] && name[0] <= '9')
                    &&& forall|k: int|
                        0 <= k < name.len() ==> ('A' <= #[trigger] name[k] && name[k] <= 'Z') || ('0' <= name[k]
                            && name[k] <= '9') || name[k] == '_'
                    &&& (p.kind matches Some(ParameterKind::Secret)) ==> p.default is None
                    &&& p.required ==> p.default is None && p.kind is None
                }
        },
        ch.kind != ChannelType::Compose ==> {
            &&& ch.run is Some
            &&& ch.repo is None && ch.git_ref is None && ch.path is None && ch.compose_file is None
            &&& ch.parameters.len() == 0
        },
{
    if ch.kind == ChannelType::Compose {
        lemma_parameters_fault_none(ch.parameters@);
        assert forall|i: int| 0 <= i < ch.parameters.len() implies {
            let name = (#[trigger] ch.parameters@[i]).0@;
            let p = ch.parameters@[i].1;
            &&& name.len() > 0
            &&& !('0' <= name[0] && name[0] <= '9')
            &&& forall|k: int|
                0 <= k < name.len() ==> ('A' <= #[trigger] name[k] && name[k] <= 'Z') || ('0' <= name[k]
                    && name[k] <= '9') || name[k] == '_'
            &&& (p.kind matches Some(ParameterKind::Secret)) ==> p.default is None
            &&& p.required ==> p.default is None && p.kind is None
        } by {
            let name = ch.parameters@[i].0@;
            assert(parameter_fault(name, ch.parameters@[i].1) is None);
            assert(valid_param_name(name));
            assert forall|k: int| 0 <= k < name.len() implies ('A' <= #[trigger] name[k] && name[k] <= 'Z') || (
            '0' <= name[k] && name[k] <= '9') || name[k] == '_' by {
                assert(is_param_char(name[k]));
            }
        }
    }
}


/// A channel without its own `distros` list applies by its type: a shell,
/// flatpak, snap, cargo, pip, npm or compose channel applies on every
/// distro; a dnf channel on Fedora and RHEL and the distros like them; an
/// apt channel on Debian and Ubuntu and the distros like them; a pacman
/// channel on Arch and the distros like it.
pub proof fn lemma_channel_applies_by_type(ch: Channel, d: Distro)
    requires
        ch.distros.len() == 0,
    ensures
        !(ch.kind == ChannelType::Dnf || ch.kind == ChannelType::Apt || ch.kind == ChannelType::Pacman)
            ==> channel_applies(ch, d),
        ch.kind == ChannelType::Dnf && (d.spec_matches("fedora"@) || d.spec_matches("rhel"@)) ==> channel_applies(
            ch,
            d,
        ),
        ch.kind == ChannelType::Apt && (d.spec_matches("debian"@) || d.spec_matches("ubuntu"@)) ==> channel_applies(
            ch,
            d,
        ),
        ch.kind == ChannelType::Pacman && d.spec_matches("arch"@) ==> channel_applies(ch, d),
{
    let names = implicit_distro_names(ch.kind);
    if ch.kind == ChannelType::Dnf || ch.kind == ChannelType::Apt || ch.kind == ChannelType::Pacman {
        assert(names.len() > 0);
        if ch.kind == ChannelType::Dnf && d.spec_matches("fedora"@) {
            assert(d.spec_matches(names[0]));
        }
        if ch.kind == ChannelType::Dnf && d.spec_matches("rhel"@) {
            assert(d.spec_matches(names[1]));
        }
        if ch.kind == ChannelType::Apt && d.spec_matches("debian"@) {
            assert(d.spec_matches(names[0]));
        }
        if ch.kind == ChannelType::Apt && d.spec_matches("ubuntu"@) {
            assert(d.spec_matches(names[1]));
        }
        if ch.kind == ChannelType::Pacman && d.spec_matches("arch"@) {
            assert(d.spec_matches(names[0]));
        }
    }
}

} // verus!
