//! A manifest declares which spells (with optional version constraints) a
//! project or machine wants in scope. Finding and reading the manifest file
//! is done by the program around the library; this module checks it and
//! turns it into requirements.
use crate::constraint::{
    self, entry_views, name_check, requirement_views, requirements_in_bounds,
    requirements_parse, ConstraintError, Op, ParseFailure, Requirement,
};
use crate::text::{keys_ascending, push_quoted, quoted, str_eq, string_views};
use vstd::prelude::*;

verus! {

#[derive(Debug, Clone)]
pub struct Override {
    pub channel: Option<String>,
}

#[derive(Debug, Clone)]
pub struct Profile {
    pub spells: Vec<String>,
}

/// A manifest: the top-level spell list, per-spell overrides and named
/// profiles, the latter two keyed by name in ascending order.
#[derive(Debug, Clone)]
pub struct Manifest {
    pub spells: Vec<String>,
    pub overrides: Vec<(String, Override)>,
    pub profiles: Vec<(String, Profile)>,
}

/// Where the active manifest was found.
#[derive(Debug, Clone, Copy, PartialEq, Eq, Structural)]
pub enum ManifestSource {
    /// `.grimoire.toml` found by walking up from cwd.
    Project,
    /// `~/.config/grimoire/manifest.toml`.
    User,
    /// Path supplied on the CLI via `--manifest`.
    Explicit,
}

/// What we found, and where.
#[derive(Debug, Clone)]
pub struct Discovered {
    pub manifest: Manifest,
    pub path: String,
    pub source: ManifestSource,
}

/// Why a manifest is refused, or names no requirements.
#[derive(Debug, Clone, PartialEq, Eq)]
pub enum ManifestError {
    /// A top-level `spells` entry does not parse.
    InvalidSpell { entry: String, error: ConstraintError },
    /// A profile's `spells` entry does not parse.
    InvalidProfileSpell { profile: String, entry: String, error: ConstraintError },
    /// An override key is not a valid spell name.
    InvalidOverrideKey { name: String, error: ConstraintError },
    /// No profile has the asked-for name.
    NoProfile { name: String },
}

/// Why a manifest is refused or names no requirements, by characters.
pub enum ManifestFault {
    InvalidSpell(Seq<char>, ParseFailure),
    InvalidProfileSpell(Seq<char>, Seq<char>, ParseFailure),
    InvalidOverrideKey(Seq<char>, ParseFailure),
    NoProfile(Seq<char>),
}

impl View for ManifestError {
    type V = ManifestFault;

    open spec fn view(&self) -> ManifestFault {
        match self {
            ManifestError::InvalidSpell { entry, error } => ManifestFault::InvalidSpell(entry@, error@),
            ManifestError::InvalidProfileSpell { profile, entry, error } => ManifestFault::InvalidProfileSpell(
                profile@,
                entry@,
                error@,
            ),
            ManifestError::InvalidOverrideKey { name, error } => ManifestFault::InvalidOverrideKey(
                name@,
                error@,
            ),
            ManifestError::NoProfile { name } => ManifestFault::NoProfile(name@),
        }
    }
}

/// The first fault among the profiles' entries, profile by profile.
pub open spec fn profiles_fault(ps: Seq<(String, Profile)>) -> Option<ManifestFault>
    decreases ps.len(),
{
    if ps.len() == 0 {
        None
    } else {
        let es = entry_views(ps[0].1.spells@);
        match requirements_parse(es) {
            Err((i, e)) => Some(ManifestFault::InvalidProfileSpell(ps[0].0@, es[i], e)),
            Ok(_) => profiles_fault(ps.drop_first()),
        }
    }
}

/// The first override key that is not a bare spell name.
pub open spec fn overrides_fault(os: Seq<(String, Override)>) -> Option<ManifestFault>
    decreases os.len(),
{
    if os.len() == 0 {
        None
    } else {
        match name_check(os[0].0@) {
            Some(e) => Some(ManifestFault::InvalidOverrideKey(os[0].0@, e)),
            None => overrides_fault(os.drop_first()),
        }
    }
}

/// The first fault of the manifest: in the top-level entries, then in the
/// profiles, then in the override keys.
pub open spec fn manifest_fault(m: Manifest) -> Option<ManifestFault> {
    let es = entry_views(m.spells@);
    match requirements_parse(es) {
        Err((i, e)) => Some(ManifestFault::InvalidSpell(es[i], e)),
        Ok(_) => match profiles_fault(m.profiles@) {
            Some(f) => Some(f),
            None => overrides_fault(m.overrides@),
        },
    }
}

/// Whether checking the profiles only parses where parsing is defined.
pub open spec fn profiles_in_bounds(ps: Seq<(String, Profile)>) -> bool
    decreases ps.len(),
{
    ps.len() > 0 ==> (requirements_in_bounds(entry_views(ps[0].1.spells@)) && (requirements_parse(
        entry_views(ps[0].1.spells@),
    ) is Ok ==> profiles_in_bounds(ps.drop_first())))
}

/// Whether checking the manifest only parses where parsing is defined.
pub open spec fn manifest_in_bounds(m: Manifest) -> bool {
    &&& requirements_in_bounds(entry_views(m.spells@))
    &&& requirements_parse(entry_views(m.spells@)) is Ok ==> profiles_in_bounds(m.profiles@)
}

/// Index of the first pair named `k`, or `s.len()`.
pub open spec fn pair_index<T>(s: Seq<(String, T)>, k: Seq<char>) -> int
    decreases s.len(),
{
    if s.len() == 0 {
        0
    } else if s[0].0@ == k {
        0
    } else {
        1 + pair_index(s.drop_first(), k)
    }
}

proof fn lemma_pair_index_at<T>(s: Seq<(String, T)>, k: Seq<char>, p: int)
    requires
        0 <= p <= s.len(),
        forall|i: int| 0 <= i < p ==> s[i].0@ != k,
        p == s.len() || s[p].0@ == k,
    ensures
        pair_index(s, k) == p,
    decreases p,
{
    if p > 0 {
        assert forall|i: int| 0 <= i < p - 1 implies s.drop_first()[i].0@ != k by {
            assert(s.drop_first()[i] == s[i + 1]);
        }
        lemma_pair_index_at(s.drop_first(), k, p - 1);
    }
}

impl Manifest {
    /// Whether the overrides and the profiles are keyed as a map lists
    /// them: each name once, in ascending order.
    pub open spec fn keys_ascending(self) -> bool {
        keys_ascending(self.overrides@) && keys_ascending(self.profiles@)
    }

    /// Check every `spells` entry, every profile's entries, and that every
    /// override key is a valid spell name.
    pub fn validate(&self) -> (r: Result<(), ManifestError>)
        requires
            manifest_in_bounds(*self),
            self.keys_ascending(),
        ensures
            match r {
                Ok(()) => manifest_fault(*self) is None,
                Err(e) => manifest_fault(*self) == Some(e@),
            },
    {
        match constraint::parse_all(&self.spells) {
            Err((i, e)) => {
                proof {
                    crate::spell::lemma_requirements_parse_index(entry_views(self.spells@));
                }
                return Err(ManifestError::InvalidSpell { entry: self.spells[i].clone(), error: e });
            },
            Ok(_) => {},
        }
        let mut p: usize = 0;
        proof {
            assert(self.profiles@.skip(0) =~= self.profiles@);
        }
        while p < self.profiles.len()
            invariant
                p <= self.profiles.len(),
                requirements_parse(entry_views(self.spells@)) is Ok,
                profiles_fault(self.profiles@) == profiles_fault(self.profiles@.skip(p as int)),
                profiles_in_bounds(self.profiles@.skip(p as int)),
            decreases self.profiles.len() - p,
        {
            let ghost tail = self.profiles@.skip(p as int);
            proof {
                assert(tail[0] == self.profiles@[p as int]);
                assert(tail.drop_first() =~= self.profiles@.skip(p + 1));
            }
            match constraint::parse_all(&self.profiles[p].1.spells) {
                Err((i, e)) => {
                    proof {
                        crate::spell::lemma_requirements_parse_index(entry_views(self.profiles@[p as int].1.spells@));
                    }
                    return Err(ManifestError::InvalidProfileSpell {
                        profile: self.profiles[p].0.clone(),
                        entry: self.profiles[p].1.spells[i].clone(),
                        error: e,
                    });
                },
                Ok(_) => {},
            }
            p = p + 1;
        }
        let mut o: usize = 0;
        proof {
            assert(self.overrides@.skip(0) =~= self.overrides@);
            assert(self.profiles@.skip(p as int) =~= Seq::<(String, Profile)>::empty());
        }
        while o < self.overrides.len()
            invariant
                o <= self.overrides.len(),
                manifest_fault(*self) == overrides_fault(self.overrides@.skip(o as int)),
            decreases self.overrides.len() - o,
        {
            let ghost tail = self.overrides@.skip(o as int);
            proof {
                assert(tail[0] == self.overrides@[o as int]);
                assert(tail.drop_first() =~= self.overrides@.skip(o + 1));
            }
            match constraint::validate_name(self.overrides[o].0.as_str()) {
                Err(e) => {
                    return Err(ManifestError::InvalidOverrideKey { name: self.overrides[o].0.clone(), error: e });
                },
                Ok(_) => {},
            }
            o = o + 1;
        }
        proof {
            assert(self.overrides@.skip(o as int) =~= Seq::<(String, Override)>::empty());
        }
        Ok(())
    }

    /// The profile named `name`, if any.
    pub fn profile(&self, name: &str) -> (r: Option<&Profile>)
        requires
            self.keys_ascending(),
        ensures
            match r {
                Some(p) => pair_index(self.profiles@, name@) < self.profiles.len() && *p
                    == self.profiles@[pair_index(self.profiles@, name@)].1,
                None => pair_index(self.profiles@, name@) == self.profiles.len(),
            },
    {
        let mut i: usize = 0;
        while i < self.profiles.len()
            invariant
                i <= self.profiles.len(),
                forall|j: int| 0 <= j < i ==> self.profiles@[j].0@ != name@,
            decreases self.profiles.len() - i,
        {
            if str_eq(self.profiles[i].0.as_str(), name) {
                proof {
                    lemma_pair_index_at(self.profiles@, name@, i as int);
                }
                return Some(&self.profiles[i].1);
            }
            i = i + 1;
        }
        proof {
            lemma_pair_index_at(self.profiles@, name@, i as int);
        }
        None
    }

    /// The override for the spell `name`, if any.
    pub fn override_for(&self, name: &str) -> (r: Option<&Override>)
        requires
            self.keys_ascending(),
        ensures
            match r {
                Some(o) => pair_index(self.overrides@, name@) < self.overrides.len() && *o
                    == self.overrides@[pair_index(self.overrides@, name@)].1,
                None => pair_index(self.overrides@, name@) == self.overrides.len(),
            },
    {
        let mut i: usize = 0;
        while i < self.overrides.len()
            invariant
                i <= self.overrides.len(),
                forall|j: int| 0 <= j < i ==> self.overrides@[j].0@ != name@,
            decreases self.overrides.len() - i,
        {
            if str_eq(self.overrides[i].0.as_str(), name) {
                proof {
                    lemma_pair_index_at(self.overrides@, name@, i as int);
                }
                return Some(&self.overrides[i].1);
            }
            i = i + 1;
        }
        proof {
            lemma_pair_index_at(self.overrides@, name@, i as int);
        }
        None
    }

    /// The entries that `profile` selects: that profile's spell list, or
    /// the top-level one when no profile is named.
    pub open spec fn selected(self, profile: Option<Seq<char>>) -> Option<Seq<String>> {
        match profile {
            Some(p) => if pair_index(self.profiles@, p) < self.profiles.len() {
                Some(self.profiles@[pair_index(self.profiles@, p)].1.spells@)
            } else {
                None
            },
            None => Some(self.spells@),
        }
    }

    /// Resolve to a list of Requirements. If `profile` is given, use that
    /// profile's spell list; otherwise use the top-level `spells`.
    pub fn requirements(&self, profile: Option<&str>) -> (r: Result<Vec<Requirement>, ManifestError>)
        requires
            self.keys_ascending(),
            match self.selected(
                match profile {
                    Some(p) => Some(p@),
                    None => None,
                },
            ) {
                Some(es) => requirements_in_bounds(entry_views(es)),
                None => true,
            },
        ensures
            match self.selected(
                match profile {
                    Some(p) => Some(p@),
                    None => None,
                },
            ) {
                None => r matches Err(ManifestError::NoProfile { name }) && name@ == profile->0@,
                Some(es) => match requirements_parse(entry_views(es)) {
                    Ok(v) => r matches Ok(reqs) && requirement_views(reqs@) == v,
                    Err((i, e)) => (r matches Err(ManifestError::InvalidSpell { entry, error }) && entry@
                        == entry_views(es)[i] && error@ == e),
                },
            },
    {
        let entries: &Vec<String> = match profile {
            Some(p) => match self.profile(p) {
                Some(prof) => &prof.spells,
                None => {
                    return Err(ManifestError::NoProfile { name: String::from_str(p) });
                },
            },
            None => &self.spells,
        };
        match constraint::parse_all(entries) {
            Ok(v) => Ok(v),
            Err((i, e)) => {
                proof {
                    crate::spell::lemma_requirements_parse_index(entry_views(entries@));
                }
                Err(ManifestError::InvalidSpell { entry: entries[i].clone(), error: e })
            },
        }
    }
}


/// Why a manifest is refused or names no requirements, as a sentence.
pub open spec fn manifest_message(f: ManifestFault) -> Seq<char> {
    match f {
        ManifestFault::InvalidSpell(entry, e) => "invalid spells entry "@ + quoted(entry) + ": "@
            + constraint::entry_failure_message(entry, e),
        ManifestFault::InvalidProfileSpell(profile, entry, e) => "invalid profile "@ + quoted(profile)
            + " spells entry "@ + quoted(entry) + ": "@ + constraint::entry_failure_message(entry, e),
        ManifestFault::InvalidOverrideKey(name, e) => "override key "@ + quoted(name)
            + " is not a valid spell name: "@ + constraint::failure_message(e),
        ManifestFault::NoProfile(name) => "manifest has no profile named "@ + quoted(name),
    }
}

impl ManifestError {
    /// The error as a sentence.
    pub fn message(&self) -> (r: String)
        ensures
            r@ == manifest_message(self@),
    {
        let mut s = String::new();
        match self {
            ManifestError::InvalidSpell { entry, error } => {
                s.append("invalid spells entry ");
                push_quoted(&mut s, entry.as_str());
                s.append(": ");
                s.append(error.entry_message(entry.as_str()).as_str());
            },
            ManifestError::InvalidProfileSpell { profile, entry, error } => {
                s.append("invalid profile ");
                push_quoted(&mut s, profile.as_str());
                s.append(" spells entry ");
                push_quoted(&mut s, entry.as_str());
                s.append(": ");
                s.append(error.entry_message(entry.as_str()).as_str());
            },
            ManifestError::InvalidOverrideKey { name, error } => {
                s.append("override key ");
                push_quoted(&mut s, name.as_str());
                s.append(" is not a valid spell name: ");
                s.append(error.message().as_str());
            },
            ManifestError::NoProfile { name } => {
                s.append("manifest has no profile named ");
                push_quoted(&mut s, name.as_str());
            },
        }
        proof {
            assert(s@ =~= manifest_message(self@));
        }
        s
    }
}


/// In a manifest whose profiles are keyed as a map lists them, naming a
/// profile selects exactly that profile's `spells` list, and naming none
/// selects the top-level list.
pub proof fn lemma_selected_profile(m: Manifest, i: int)
    requires
        keys_ascending(m.profiles@),
        0 <= i < m.profiles.len(),
    ensures
        m.selected(Some(m.profiles@[i].0@)) == Some(m.profiles@[i].1.spells@),
        m.selected(None) == Some(m.spells@),
{
    let k = m.profiles@[i].0@;
    assert forall|j: int| 0 <= j < i implies m.profiles@[j].0@ != k by {
        crate::text::lemma_lex_equal(m.profiles@[j].0@, k);
    }
    lemma_pair_index_at(m.profiles@, k, i);
}

/// What a named profile selects does not depend on the top-level `spells`
/// list or on the overrides: two manifests with the same profiles select
/// the same list for every profile name, or both find no such profile.
pub proof fn lemma_profile_ignores_top_level(a: Manifest, b: Manifest, p: Seq<char>)
    requires
        a.profiles@ == b.profiles@,
    ensures
        a.selected(Some(p)) == b.selected(Some(p)),
{
}

/// A profile name that no profile has selects nothing.
pub proof fn lemma_unknown_profile(m: Manifest, p: Seq<char>)
    requires
        forall|j: int| 0 <= j < m.profiles.len() ==> m.profiles@[j].0@ != p,
    ensures
        m.selected(Some(p)) is None,
{
    lemma_pair_index_at(m.profiles@, p, m.profiles.len() as int);
}

} // verus!
