//! Daemon health and toast records shared by the shell, the header and the
//! shutdown dialog.

use vstd::prelude::*;
use crate::routines::{clone_opt_string, opt_text};
use crate::text::{chars_of, concat, decimal, decimal_chars, string_of};

verus! {

/// Optional runtime dependencies the daemon reports on.
#[derive(Debug, Clone, Copy, PartialEq, Eq, Structural)]
pub struct HealthDeps {
    pub tmux: bool,
    pub python3: bool,
}

impl Default for HealthDeps {
    fn default() -> (r: Self)
        ensures
            !r.tmux && !r.python3,
    {
        HealthDeps { tmux: false, python3: false }
    }
}

/// The daemon's health report.
#[derive(Debug, PartialEq)]
pub struct Health {
    pub status: String,
    pub uptime_secs: Option<u64>,
    pub running: bool,
    pub version: Option<String>,
    pub git_sha: Option<String>,
    pub dependencies: Option<HealthDeps>,
}

impl Default for Health {
    fn default() -> (r: Self)
        ensures
            r.status@ == Seq::<char>::empty(),
            r.uptime_secs is None,
            !r.running,
            r.version is None,
            r.git_sha is None,
            r.dependencies is None,
    {
        Health {
            status: String::new(),
            uptime_secs: None,
            running: false,
            version: None,
            git_sha: None,
            dependencies: None,
        }
    }
}

impl Clone for Health {
    fn clone(&self) -> (r: Self)
        ensures
            r.status@ == self.status@,
            r.uptime_secs == self.uptime_secs,
            r.running == self.running,
            opt_text(r.version) == opt_text(self.version),
            opt_text(r.git_sha) == opt_text(self.git_sha),
            r.dependencies == self.dependencies,
    {
        Health {
            status: self.status.clone(),
            uptime_secs: self.uptime_secs,
            running: self.running,
            version: clone_opt_string(&self.version),
            git_sha: clone_opt_string(&self.git_sha),
            dependencies: self.dependencies,
        }
    }
}

/// Whether a toast reports success or failure.
#[derive(Debug, Clone, Copy, PartialEq, Eq, Structural)]
pub enum ToastKind {
    /// The action succeeded.
    Success,
    /// The action failed.
    Failure,
}

/// A transient notification.
#[derive(Debug, PartialEq)]
pub struct Toast {
    pub id: u32,
    pub msg: String,
    pub kind: ToastKind,
}

impl Clone for Toast {
    fn clone(&self) -> (r: Self)
        ensures
            r.id == self.id,
            r.msg@ == self.msg@,
            r.kind == self.kind,
    {
        Toast { id: self.id, msg: self.msg.clone(), kind: self.kind }
    }
}

/// The summary toast text after a bulk action over `noun`s whose past tense is `verb`: how
/// many succeeded, or, when some failed, how many succeeded and how many failed.
pub open spec fn bulk_text(ok: nat, failed: nat, verb: Seq<char>, noun: Seq<char>) -> Seq<char> {
    if failed == 0 {
        decimal(ok) + " "@ + noun + "(s) "@ + verb
    } else {
        decimal(ok) + " "@ + verb + ", "@ + decimal(failed) + " failed"@
    }
}

/// The summary toast after a bulk action (see [`bulk_text`]): a success when nothing
/// failed, a failure otherwise.
pub fn bulk_outcome(ok: usize, failed: usize, verb: &str, noun: &str) -> (r: (String, ToastKind))
    ensures
        r.0@ == bulk_text(ok as nat, failed as nat, verb@, noun@),
        r.1 == (if failed == 0 { ToastKind::Success } else { ToastKind::Failure }),
{
    let n = decimal_chars(ok as u64);
    let sp = chars_of(" ");
    let v = chars_of(verb);
    if failed == 0 {
        let w = chars_of(noun);
        let s = chars_of("(s) ");
        let a = concat(n.as_slice(), sp.as_slice());
        let b = concat(a.as_slice(), w.as_slice());
        let c = concat(b.as_slice(), s.as_slice());
        let d = concat(c.as_slice(), v.as_slice());
        (string_of(d.as_slice()), ToastKind::Success)
    } else {
        let comma = chars_of(", ");
        let f = decimal_chars(failed as u64);
        let tail = chars_of(" failed");
        let a = concat(n.as_slice(), sp.as_slice());
        let b = concat(a.as_slice(), v.as_slice());
        let c = concat(b.as_slice(), comma.as_slice());
        let d = concat(c.as_slice(), f.as_slice());
        let e = concat(d.as_slice(), tail.as_slice());
        (string_of(e.as_slice()), ToastKind::Failure)
    }
}

} // verus!

