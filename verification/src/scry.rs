//! The state of a spell on this machine, as `verify`, `version_check`, the
//! distro and the cast log reveal it. The snippets run and the log is read
//! by the program around the library; this module decides the state.
use crate::constraint::{all_hold, Requirement};
use crate::shell::CheckOutput;
use crate::state::CastRecord;
use crate::text::trim;
use vstd::prelude::*;

verus! {

#[derive(Debug, Clone, Copy, PartialEq, Eq, Structural)]
pub enum Status {
    /// `verify` passes; if a Requirement was supplied, its constraints are met.
    Cast,
    /// `verify` passes but the constraint isn't satisfied by `version_check`.
    Outdated,
    /// `verify` fails and there's no record of a previous successful cast.
    Missing,
    /// `verify` fails but the cast log shows a previous successful cast: the
    /// state has drifted (manual uninstall, broken upgrade, etc.).
    Drifted,
    /// `verify` exited with an unexpected error (script crash, command-not-found
    /// when the script itself is buggy). Reserved for future heuristics; not
    /// emitted today since we treat any non-zero exit as state-not-reached.
    Invalid,
    /// `verify` fails AND no `cast.channels[*]` applies on this distro. The
    /// spell can't be installed here without a new channel being added.
    Unsupported,
}

impl Status {
    /// The status's name in listings.
    pub open spec fn name_of(self) -> Seq<char> {
        match self {
            Status::Cast => "cast"@,
            Status::Outdated => "outdated"@,
            Status::Missing => "missing"@,
            Status::Drifted => "drifted"@,
            Status::Invalid => "invalid"@,
            Status::Unsupported => "unsupported"@,
        }
    }

    /// The status's one-character mark in listings.
    pub open spec fn mark_of(self) -> Seq<char> {
        match self {
            Status::Cast => "\u{2713}"@,
            Status::Outdated => "\u{2191}"@,
            Status::Missing => "\u{b7}"@,
            Status::Drifted => "\u{26a0}"@,
            Status::Invalid => "?"@,
            Status::Unsupported => "\u{2717}"@,
        }
    }

    pub fn label(self) -> (r: &'static str)
        ensures
            r@ == self.name_of(),
    {
        match self {
            Status::Cast => "cast",
            Status::Outdated => "outdated",
            Status::Missing => "missing",
            Status::Drifted => "drifted",
            Status::Invalid => "invalid",
            Status::Unsupported => "unsupported",
        }
    }

    pub fn icon(self) -> (r: &'static str)
        ensures
            r@ == self.mark_of(),
    {
        match self {
            Status::Cast => "\u{2713}",
            Status::Outdated => "\u{2191}",
            Status::Missing => "\u{b7}",
            Status::Drifted => "\u{26a0}",
            Status::Invalid => "?",
            Status::Unsupported => "\u{2717}",
        }
    }
}

#[derive(Debug, Clone)]
pub struct State {
    pub status: Status,
    pub version: Option<String>,
    pub last_cast_channel: Option<String>,
}

/// The version that a `version_check` run reports: its trimmed output, when
/// it succeeded and printed something.
pub open spec fn reported_version(out: CheckOutput) -> Option<Seq<char>> {
    if out.exit_code == 0 && trim(out.stdout@).len() > 0 {
        Some(trim(out.stdout@))
    } else {
        None
    }
}

/// Read the version from a `version_check` run.
pub fn version_of(out: &CheckOutput) -> (r: Option<String>)
    ensures
        match r {
            Some(v) => reported_version(*out) == Some(v@),
            None => reported_version(*out) is None,
        },
{
    let t = out.trimmed_stdout();
    if out.ok() && t.unicode_len() > 0 {
        Some(String::from_str(t))
    } else {
        None
    }
}

/// The status of a spell whose `verify` passes: outdated when the
/// requirement's comparators reject the version, or when it has
/// comparators and no version was reported; cast otherwise.
pub open spec fn present_status(req: Option<Requirement>, version: Option<Seq<char>>) -> Status {
    match (req, version) {
        (Some(r), Some(v)) => if !all_hold(r@.1, v) {
            Status::Outdated
        } else {
            Status::Cast
        },
        (Some(r), None) => if r.constraints.len() > 0 {
            Status::Outdated
        } else {
            Status::Cast
        },
        _ => Status::Cast,
    }
}

/// The state of a spell whose `verify` passes, given the version its
/// `version_check` reported, if any.
pub fn classify_present(requirement: Option<&Requirement>, version: Option<String>) -> (s: State)
    ensures
        s.status == present_status(
            match requirement {
                Some(r) => Some(*r),
                None => None,
            },
            match version {
                Some(v) => Some(v@),
                None => None,
            },
        ),
        s.version == version,
        s.last_cast_channel is None,
{
    let status = match (requirement, &version) {
        (Some(req), Some(v)) => if !req.satisfied_by(v.as_str()) {
            Status::Outdated
        } else {
            Status::Cast
        },
        (Some(req), None) => if req.constraints.len() > 0 {
            Status::Outdated
        } else {
            Status::Cast
        },
        _ => Status::Cast,
    };
    State { status, version, last_cast_channel: None }
}

/// The state of a spell whose `verify` fails: unsupported when no channel
/// applies on this distro; else drifted when the log holds a successful
/// cast, naming its channel, and missing when it holds none.
pub fn classify_absent(applicable: bool, prior: Option<CastRecord>) -> (s: State)
    ensures
        !applicable ==> s.status == Status::Unsupported && s.last_cast_channel is None,
        applicable && prior is Some ==> s.status == Status::Drifted && s.last_cast_channel == Some(
            prior->0.channel,
        ),
        applicable && prior is None ==> s.status == Status::Missing && s.last_cast_channel is None,
        s.version is None,
{
    if !applicable {
        return State { status: Status::Unsupported, version: None, last_cast_channel: None };
    }
    match prior {
        Some(r) => State { status: Status::Drifted, version: None, last_cast_channel: Some(r.channel) },
        None => State { status: Status::Missing, version: None, last_cast_channel: None },
    }
}

} // verus!
