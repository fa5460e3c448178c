//! What a shell snippet is given and what its run gives back.
//!
//! Snippets run under `bash -l -c` with `set -e` and `set -o pipefail`
//! injected; the spawning is done by the program around the library.
use crate::text::{chars_of, trim, trim_bounds};
use vstd::prelude::*;

verus! {

/// The lines put before every snippet.
pub open spec fn prelude() -> Seq<char> {
    "set -e\nset -o pipefail\n"@
}

/// The script that runs `snippet`: the prelude, then the snippet.
pub fn full_snippet(snippet: &str) -> (r: String)
    ensures
        r@ == prelude() + snippet@,
{
    let mut s = String::from_str("set -e\nset -o pipefail\n");
    s.append(snippet);
    s
}

/// A silent run of a snippet: its exit code and captured output.
#[derive(Debug, Clone)]
pub struct CheckOutput {
    pub exit_code: i32,
    pub stdout: String,
    pub stderr: String,
}

impl CheckOutput {
    pub fn ok(&self) -> (r: bool)
        ensures
            r == (self.exit_code == 0),
    {
        self.exit_code == 0
    }

    /// stdout, with surrounding whitespace trimmed (typical for version_check).
    pub fn trimmed_stdout(&self) -> (r: &str)
        ensures
            r@ == trim(self.stdout@),
    {
        let v = chars_of(self.stdout.as_str());
        let (a, b) = trim_bounds(&v);
        self.stdout.as_str().substring_char(a, b)
    }
}

/// A snippet that exited non-zero where it had to succeed.
#[derive(Debug, Clone, PartialEq, Eq)]
pub struct RunFailed {
    pub label: String,
    pub exit_code: i32,
}

/// The verdict on a snippet that must succeed: an error naming `label` and
/// the code unless `code` is zero.
pub fn require_success(label: &str, code: i32) -> (r: Result<(), RunFailed>)
    ensures
        code == 0 ==> r is Ok,
        code != 0 ==> (r matches Err(e) && e.label@ == label@ && e.exit_code == code),
{
    if code != 0 {
        Err(RunFailed { label: String::from_str(label), exit_code: code })
    } else {
        Ok(())
    }
}

} // verus!
