//! Self-update: the decisions behind grimoire's update check and upgrade.
//!
//! Two flows use them:
//!   1. **Passive nag**: at the tail end of every command, a cache bounds
//!      release lookups to once a week, and a one-line notice is printed if a
//!      newer release exists. Skipped entirely when the binary isn't in a
//!      writable location or appears to be a `cargo` dev build.
//!   2. **Manual `grimoire upgrade`**: always checks for the latest release,
//!      downloads the tarball matching the current platform, verifies its
//!      SHA-256 and replaces the running binary.
//!
//! The lookups, downloads and file writes are done by the program around the
//! library; this module reads the release API's reply, names the release
//! files and decides what to do.
use crate::text::{
    chars_of, find_char, find_char_in, find_sub, find_sub_str, split, split_str, str_eq,
    strip_start, strip_start_str, string_views, substring, trim, trim_start, trim_start_str, trim_str,
    Order,
};
use crate::version::{version_compare, version_order};
use vstd::prelude::*;

verus! {

/// How long a release lookup stays fresh: one week, in seconds.
pub const CHECK_INTERVAL_SECS: u64 = 604800;

/// What the update check remembers between runs.
#[derive(Debug, Clone, Default)]
pub struct Cache {
    /// Unix timestamp of last successful check.
    pub last_check: u64,
    /// Latest release version string seen, with the leading `v` stripped.
    pub latest_version: Option<String>,
}

/// Seconds from `last` to `now`, or zero when `now` is earlier.
pub open spec fn elapsed(now: u64, last: u64) -> int {
    if now >= last {
        now - last
    } else {
        0
    }
}

/// Whether the cached lookup is a week old or older, so that the release
/// API should be asked again.
pub fn needs_refresh(cache: &Cache, now: u64) -> (r: bool)
    ensures
        r == (elapsed(now, cache.last_check) >= CHECK_INTERVAL_SECS),
{
    now.saturating_sub(cache.last_check) >= CHECK_INTERVAL_SECS
}

/// Remember that the release API named `latest` at time `now`.
pub fn record_latest(cache: &mut Cache, latest: String, now: u64)
    ensures
        final(cache).last_check == now,
        final(cache).latest_version == Some(latest),
{
    cache.latest_version = Some(latest);
    cache.last_check = now;
}

/// A lookup recorded at `now` is fresh for exactly one week: the cache asks
/// for no new lookup before `now + CHECK_INTERVAL_SECS` and asks from then on.
pub proof fn lemma_refresh_weekly(c: Cache, now: u64, t: u64)
    requires
        c.last_check == now,
        now <= t,
    ensures
        (elapsed(t, c.last_check) >= CHECK_INTERVAL_SECS) <==> (t >= now + CHECK_INTERVAL_SECS),
{
}

/// The release that the update notice names: the cached latest version when
/// the binary manages itself and that version is newer than `current`.
pub open spec fn newer_release(self_managed: bool, cache: Cache, current: Seq<char>) -> Option<Seq<char>> {
    if !self_managed {
        None
    } else {
        match cache.latest_version {
            Some(v) => if version_order(v@, current) == Order::Greater {
                Some(v@)
            } else {
                None
            },
            None => None,
        }
    }
}

/// Quietly decide whether a newer release is available, from the cache as
/// the caller refreshed it. Skipped in dev / non-writable installs.
pub fn check_quiet(self_managed: bool, cache: &Cache, current: &str) -> (r: Option<String>)
    ensures
        match r {
            Some(v) => newer_release(self_managed, *cache, current@) == Some(v@),
            None => newer_release(self_managed, *cache, current@) is None,
        },
{
    if !self_managed {
        return None;
    }
    match &cache.latest_version {
        Some(v) => {
            if version_compare(v.as_str(), current) == Order::Greater {
                Some(v.clone())
            } else {
                None
            }
        },
        None => None,
    }
}

/// What `grimoire upgrade` does once it knows the latest release.
#[derive(Debug, Clone, Copy, PartialEq, Eq, Structural)]
pub enum UpgradeStep {
    /// The running version is the latest or newer.
    UpToDate,
    /// A newer release exists; only report it.
    Available,
    /// A newer release exists; install it.
    Install,
}

/// Decide the upgrade step: nothing when `latest` is not newer than
/// `current`, else report or install as `check_only` says.
pub fn upgrade_step(latest: &str, current: &str, check_only: bool) -> (r: UpgradeStep)
    ensures
        version_order(latest@, current@) != Order::Greater ==> r == UpgradeStep::UpToDate,
        version_order(latest@, current@) == Order::Greater ==> r == (if check_only {
            UpgradeStep::Available
        } else {
            UpgradeStep::Install
        }),
{
    if version_compare(latest, current) != Order::Greater {
        UpgradeStep::UpToDate
    } else if check_only {
        UpgradeStep::Available
    } else {
        UpgradeStep::Install
    }
}

/// Why the release API's reply names no tag.
#[derive(Debug, Clone, Copy, PartialEq, Eq, Structural)]
pub enum TagError {
    /// The reply has no `"tag_name"` field.
    NoField,
    /// The field is not followed by a colon.
    MissingColon,
    /// The field's value does not start with a double quote.
    NotString,
    /// The field's string value has no closing quote.
    Unterminated,
}

/// Why the reply names no tag, as the phrase the error shows.
pub open spec fn tag_message(e: TagError) -> Seq<char> {
    match e {
        TagError::NoField => "no tag_name field in body"@,
        TagError::MissingColon => "malformed tag_name field (missing colon)"@,
        TagError::NotString => "tag_name value is not a string"@,
        TagError::Unterminated => "unterminated tag_name string"@,
    }
}

impl TagError {
    /// The error as a phrase.
    pub fn message(self) -> (r: &'static str)
        ensures
            r@ == tag_message(self),
    {
        match self {
            TagError::NoField => "no tag_name field in body",
            TagError::MissingColon => "malformed tag_name field (missing colon)",
            TagError::NotString => "tag_name value is not a string",
            TagError::Unterminated => "unterminated tag_name string",
        }
    }
}

/// The `"tag_name"` key, quotes included.
pub open spec fn tag_key() -> Seq<char> {
    seq!['"', 't', 'a', 'g', '_', 'n', 'a', 'm', 'e', '"']
}

/// The string value that opens `rest`, as it follows the tag key: a colon
/// and an opening quote, whitespace allowed before each, then the
/// characters up to the closing quote, without leading `v`s.
#[verifier::opaque]
pub open spec fn tag_value(rest: Seq<char>) -> Result<Seq<char>, TagError> {
    let a = trim_start(rest);
    if a.len() == 0 || a[0] != ':' {
        Err(TagError::MissingColon)
    } else {
        let b = trim_start(a.drop_first());
        if b.len() == 0 || b[0] != '"' {
            Err(TagError::NotString)
        } else {
            let c = b.drop_first();
            let e = find_char(c, '"');
            if e >= c.len() {
                Err(TagError::Unterminated)
            } else {
                Ok(strip_start(c.subrange(0, e), 'v'))
            }
        }
    }
}

/// The release version that a release API reply names: the value of the
/// first `"tag_name"` key.
pub open spec fn tag_name(body: Seq<char>) -> Result<Seq<char>, TagError> {
    match find_sub(body, tag_key()) {
        None => Err(TagError::NoField),
        Some(p) => tag_value(body.subrange(p + tag_key().len(), body.len() as int)),
    }
}

/// Read the string value that opens `rest`.
fn read_tag_value(rest: &str) -> (r: Result<String, TagError>)
    ensures
        match (r, tag_value(rest@)) {
            (Ok(v), Ok(w)) => v@ == w,
            (Err(e), Err(f)) => e == f,
            _ => false,
        },
{
    reveal(tag_value);
    let a = trim_start_str(rest);
    let av = chars_of(a.as_str());
    if av.len() == 0 || av[0] != ':' {
        return Err(TagError::MissingColon);
    }
    let after_colon = substring(a.as_str(), 1, av.len());
    proof {
        assert(a@.subrange(1, a@.len() as int) =~= a@.drop_first());
    }
    let b = trim_start_str(after_colon.as_str());
    let bv = chars_of(b.as_str());
    if bv.len() == 0 || bv[0] != '"' {
        return Err(TagError::NotString);
    }
    let c = substring(b.as_str(), 1, bv.len());
    proof {
        assert(b@.subrange(1, b@.len() as int) =~= b@.drop_first());
    }
    let cv = chars_of(c.as_str());
    match find_char_in(&cv, '"') {
        None => Err(TagError::Unterminated),
        Some(e) => {
            let value = substring(c.as_str(), 0, e);
            Ok(strip_start_str(value.as_str(), 'v'))
        },
    }
}

/// Read the release version from a release API reply. Works on both the
/// pretty-printed replies and the compact `{"tag_name":"x"}` form.
pub fn parse_tag_name(body: &str) -> (r: Result<String, TagError>)
    ensures
        match (r, tag_name(body@)) {
            (Ok(v), Ok(w)) => v@ == w,
            (Err(e), Err(f)) => e == f,
            _ => false,
        },
{
    let needle = "\"tag_name\"";
    assert(needle@ == tag_key()) by {
        reveal_strlit("\"tag_name\"");
        assert(needle@ =~= tag_key());
    }
    match find_sub_str(body, needle) {
        None => Err(TagError::NoField),
        Some(pos) => {
            let n = body.unicode_len();
            let rest = substring(body, pos + 10, n);
            read_tag_value(rest.as_str())
        },
    }
}

/// Whether the path `exe` has a `target` component, the mark of a binary
/// that `cargo build` or `cargo run` produced.
pub open spec fn dev_build_path(exe: Seq<char>) -> bool {
    split(exe, '/').contains("target"@)
}

/// True iff the path `exe` looks like a `cargo` dev build: one of its
/// components is `target`.
pub fn looks_like_dev_build(exe: &str) -> (r: bool)
    ensures
        r == dev_build_path(exe@),
{
    let parts = split_str(exe, '/');
    let ghost ps = split(exe@, '/');
    let mut i: usize = 0;
    while i < parts.len()
        invariant
            i <= parts.len(),
            string_views(parts@) == ps,
            ps == split(exe@, '/'),
            forall|j: int| 0 <= j < i ==> ps[j] != "target"@,
        decreases parts.len() - i,
    {
        assert(ps[i as int] == parts@[i as int]@);
        if str_eq(parts[i].as_str(), "target") {
            assert(ps[i as int] == "target"@);
            assert(ps.contains("target"@));
            return true;
        }
        i = i + 1;
    }
    false
}

/// The release build for the machine whose `uname -m` printed `arch`.
pub open spec fn target_of(arch: Seq<char>) -> Option<Seq<char>> {
    let a = trim(arch);
    if a == "x86_64"@ || a == "amd64"@ {
        Some("linux-x86_64"@)
    } else if a == "aarch64"@ || a == "arm64"@ {
        Some("linux-aarch64"@)
    } else {
        None
    }
}

/// The prebuilt release target for the architecture `arch`, as `uname -m`
/// prints it; `None` when no binary is built for it.
pub fn target_for_arch(arch: &str) -> (r: Option<&'static str>)
    ensures
        match r {
            Some(t) => target_of(arch@) == Some(t@),
            None => target_of(arch@) is None,
        },
{
    let a = trim_str(arch);
    if str_eq(a.as_str(), "x86_64") || str_eq(a.as_str(), "amd64") {
        Some("linux-x86_64")
    } else if str_eq(a.as_str(), "aarch64") || str_eq(a.as_str(), "arm64") {
        Some("linux-aarch64")
    } else {
        None
    }
}

/// The release tarball's file name.
pub fn archive_name(version: &str, target: &str) -> (r: String)
    ensures
        r@ == "grimoire-"@ + version@ + "-"@ + target@ + ".tar.gz"@,
{
    let mut s = String::from_str("grimoire-");
    s.append(version);
    s.append("-");
    s.append(target);
    s.append(".tar.gz");
    s
}

/// Where the release tarball `archive` of `version` is downloaded from.
pub fn release_url(version: &str, archive: &str) -> (r: String)
    ensures
        r@ == "https://github.com/strycore/grimoire/releases/download/v"@ + version@ + "/"@ + archive@,
{
    let mut s = String::from_str("https://github.com/strycore/grimoire/releases/download/v");
    s.append(version);
    s.append("/");
    s.append(archive);
    s
}

} // verus!
