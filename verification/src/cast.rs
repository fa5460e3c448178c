//! Casting one spell: the decisions of a cast and the log records it
//! writes. Running `verify`, the hooks and the channel is done by the
//! program around the library, which asks this module what to do next.
use crate::state::CastEvent;
use crate::text::{i32_text, int_text};
use vstd::prelude::*;

verus! {

pub struct CastOptions<'a> {
    pub via: Option<&'a str>,
    pub recast: bool,
    pub dry_run: bool,
}

#[derive(Debug, Clone, Copy, PartialEq, Eq, Structural)]
pub enum Outcome {
    /// Verify already passed; nothing to do.
    AlreadyCast,
    /// `--dry-run`: plan printed, nothing executed.
    DryRun,
    /// All steps ran and verify now passes.
    Cast,
    /// Channel ran but verify still fails after the run.
    VerifyStillFails,
}

/// Where a cast ends before running anything: already cast when `verify`
/// passes and no recast is asked for; a dry run when one is asked for;
/// otherwise `None`, and the channel runs.
pub fn early_outcome(initial_ok: bool, opts: &CastOptions) -> (r: Option<Outcome>)
    ensures
        initial_ok && !opts.recast ==> r == Some(Outcome::AlreadyCast),
        !(initial_ok && !opts.recast) && opts.dry_run ==> r == Some(Outcome::DryRun),
        !(initial_ok && !opts.recast) && !opts.dry_run ==> r is None,
{
    if initial_ok && !opts.recast {
        Some(Outcome::AlreadyCast)
    } else if opts.dry_run {
        Some(Outcome::DryRun)
    } else {
        None
    }
}

/// The text of a version in a status line: ` (version: v)`, or nothing.
pub open spec fn version_note(v: Option<Seq<char>>) -> Seq<char> {
    match v {
        Some(x) => " (version: "@ + x + ")"@,
        None => seq![],
    }
}

/// ` (version: v)` for a known version, else the empty string.
pub fn version_suffix(v: Option<&str>) -> (r: String)
    ensures
        r@ == version_note(
            match v {
                Some(x) => Some(x@),
                None => None,
            },
        ),
{
    match v {
        Some(x) => {
            let mut s = String::from_str(" (version: ");
            s.append(x);
            s.append(")");
            s
        },
        None => String::new(),
    }
}

/// The log record of a channel run that exited with the non-zero `exit`.
pub fn failure_event(spell: &str, channel: &str, exit: i32, version_before: Option<String>) -> (e: CastEvent)
    ensures
        e.spell@ == spell@,
        e.channel@ == channel@,
        e.exit_code == exit,
        e.version_before == version_before,
        e.version_after is None,
        e.error matches Some(m) && m@ == "channel exited with code "@ + int_text(exit as int),
{
    let mut msg = String::from_str("channel exited with code ");
    msg.append(i32_text(exit).as_str());
    CastEvent {
        spell: String::from_str(spell),
        channel: String::from_str(channel),
        exit_code: exit,
        version_before,
        version_after: None,
        error: Some(msg),
    }
}

/// The log record and outcome of a channel run that exited with `exit`,
/// once `verify` ran again: cast when it passes, and otherwise an outcome
/// and a record that say `verify` still fails.
pub fn completion(
    spell: &str,
    channel: &str,
    exit: i32,
    version_before: Option<String>,
    version_after: Option<String>,
    post_ok: bool,
) -> (r: (CastEvent, Outcome))
    ensures
        r.0.spell@ == spell@,
        r.0.channel@ == channel@,
        r.0.exit_code == exit,
        r.0.version_before == version_before,
        r.0.version_after == version_after,
        post_ok ==> r.0.error is None && r.1 == Outcome::Cast,
        !post_ok ==> (r.0.error matches Some(m) && m@ == "verify still fails after cast"@) && r.1
            == Outcome::VerifyStillFails,
{
    let error = if post_ok {
        None
    } else {
        Some(String::from_str("verify still fails after cast"))
    };
    let e = CastEvent {
        spell: String::from_str(spell),
        channel: String::from_str(channel),
        exit_code: exit,
        version_before,
        version_after,
        error,
    };
    (e, if post_ok {
        Outcome::Cast
    } else {
        Outcome::VerifyStillFails
    })
}

} // verus!
