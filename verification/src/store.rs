//! Where the hosts file is, and in which order it and its backup are written.
//!
//! Reading and writing are the caller's work. What is decided here: which of the
//! well-known paths is used, what the backup is called, and what comes next after each
//! step of a write.
//!
//! Nothing here locks the hosts file. Every request reads the file, computes the new
//! text and writes it; of two requests at the same time the one that writes last wins,
//! and what the other wrote is lost. A backup is never read back and never undone: a
//! backup whose write then fails stays where it is.

use crate::report::{decimal, push_str, render_decimal, utf8};
use crate::text::append;
use vstd::prelude::*;

verus! {

/// Why a request failed.
#[derive(Clone, Copy, PartialEq, Eq, Structural, Debug)]
pub enum Failure {
    /// The hosts file could not be read at any of its well-known places.
    NotFound,
    /// The hosts file could be read but not written.
    PermissionDenied,
    /// The request lacks what it must hold.
    InvalidRequest,
    /// The backup that was asked for could not be made, so nothing was written.
    BackupFailed,
    /// Some names were dealt with, others were passed over or failed.
    PartialFailure,
    /// What the hosts file holds is not known.
    Unavailable,
}

/// The two well-known places of the hosts file, in the order in which they are tried.
pub fn hosts_paths() -> (paths: [&'static str; 2])
    ensures
        paths[0]@ == "C:\\Windows\\System32\\drivers\\etc\\hosts"@,
        paths[1]@ == "/etc/hosts"@,
{
    ["C:\\Windows\\System32\\drivers\\etc\\hosts", "/etc/hosts"]
}

/// The first place of `found` that holds `true`.
pub fn first_found(found: &[bool]) -> (r: Option<usize>)
    ensures
        match r {
            Some(i) => i < found@.len() && found@[i as int] && forall|k: int|
                0 <= k < i ==> !found@[k],
            None => forall|k: int| 0 <= k < found@.len() ==> !found@[k],
        },
{
    let mut i: usize = 0;
    while i < found.len()
        invariant
            i <= found.len(),
            forall|k: int| 0 <= k < i ==> !found@[k],
        decreases found.len() - i,
    {
        if found[i] {
            return Some(i);
        }
        i += 1;
    }
    None
}

/// The place of the hosts file that is written: the first that exists, and the first
/// of all where none exists. `exists` says of each well-known place whether there is a
/// file.
pub fn pick_path(exists: &[bool]) -> (r: usize)
    ensures
        r == (match first_true(exists@, 0) {
            Some(i) => i,
            None => 0int,
        }),
        r < exists@.len() || r == 0,
{
    proof {
        lemma_first_true(exists@, 0);
    }
    match first_found(exists) {
        Some(i) => {
            proof {
                lemma_first_true_is(exists@, 0, i as int);
            }
            i
        },
        None => 0,
    }
}

/// The first index at or after `from` at which `flags` holds `true`.
pub open spec fn first_true(flags: Seq<bool>, from: int) -> Option<int>
    decreases flags.len() - from,
{
    if from < 0 || from >= flags.len() {
        None
    } else if flags[from] {
        Some(from)
    } else {
        first_true(flags, from + 1)
    }
}

/// `first_true` gives the first place that holds `true`, and `None` only where none
/// does.
pub proof fn lemma_first_true(flags: Seq<bool>, from: int)
    requires
        0 <= from,
    ensures
        match first_true(flags, from) {
            Some(i) => from <= i < flags.len() && flags[i] && forall|k: int|
                from <= k < i ==> !flags[k],
            None => forall|k: int| from <= k < flags.len() ==> !flags[k],
        },
    decreases flags.len() - from,
{
    if from < flags.len() && !flags[from] {
        lemma_first_true(flags, from + 1);
    }
}

/// A place that holds `true`, with none before it that does, is what `first_true`
/// gives.
pub proof fn lemma_first_true_is(flags: Seq<bool>, from: int, at: int)
    requires
        0 <= from <= at < flags.len(),
        flags[at],
        forall|k: int| from <= k < at ==> !flags[k],
    ensures
        first_true(flags, from) == Some(at),
    decreases at - from,
{
    if from < at {
        lemma_first_true_is(flags, from + 1, at);
    }
}

/// The name of the backup of the file at `path` that is made at `seconds` after the
/// start of 1970.
pub open spec fn backup_name(path: Seq<u8>, seconds: u64) -> Seq<u8> {
    path + utf8(".clusterbanned.bak.") + decimal(seconds as nat)
}

/// Names the backup of the file at `path` that is made at `seconds` after the start of
/// 1970.
pub fn backup_path(path: &[u8], seconds: u64) -> (r: Vec<u8>)
    ensures
        r@ == backup_name(path@, seconds),
{
    let mut out: Vec<u8> = Vec::new();
    append(&mut out, path);
    push_str(&mut out, ".clusterbanned.bak.");
    let digits = render_decimal(seconds);
    append(&mut out, digits.as_slice());
    assert(out@ =~= backup_name(path@, seconds));
    out
}

/// How far a write has come.
#[derive(Clone, Copy, PartialEq, Eq, Structural, Debug)]
pub enum Stage {
    /// Nothing was done yet.
    Begin,
    /// The hosts file was read, or could not be read.
    ReadTried,
    /// The backup was tried.
    BackupTried,
    /// The hosts file was tried.
    WriteTried,
}

/// What is to be done next.
#[derive(Clone, Copy, PartialEq, Eq, Structural, Debug)]
pub enum Step {
    /// Read the hosts file.
    ReadHosts,
    /// Write the old text to the backup file.
    WriteBackup,
    /// Write the new text to the hosts file.
    WriteHosts,
    /// All is done.
    Succeed,
    /// Give up, for the reason given.
    Fail(Failure),
}

/// What comes next in reading the hosts file and writing it anew.
///
/// `went_well` says whether the step that was tried last succeeded. Once the file was
/// read, `write_due` says whether there is a new text at all, and `backup_wanted`
/// whether the caller asked for a backup. The backup comes before the hosts file, and
/// where it fails the hosts file is not touched.
pub open spec fn step_after(stage: Stage, write_due: bool, backup_wanted: bool, went_well: bool) -> Step {
    match stage {
        Stage::Begin => Step::ReadHosts,
        Stage::ReadTried => if !went_well {
            Step::Fail(Failure::NotFound)
        } else if !write_due {
            Step::Succeed
        } else if backup_wanted {
            Step::WriteBackup
        } else {
            Step::WriteHosts
        },
        Stage::BackupTried => if went_well {
            Step::WriteHosts
        } else {
            Step::Fail(Failure::BackupFailed)
        },
        Stage::WriteTried => if went_well {
            Step::Succeed
        } else {
            Step::Fail(Failure::PermissionDenied)
        },
    }
}

/// Decides what comes next in reading the hosts file and writing it anew.
pub fn next_step(stage: Stage, write_due: bool, backup_wanted: bool, went_well: bool) -> (r: Step)
    ensures
        r == step_after(stage, write_due, backup_wanted, went_well),
{
    match stage {
        Stage::Begin => Step::ReadHosts,
        Stage::ReadTried => {
            if !went_well {
                Step::Fail(Failure::NotFound)
            } else if !write_due {
                Step::Succeed
            } else if backup_wanted {
                Step::WriteBackup
            } else {
                Step::WriteHosts
            }
        },
        Stage::BackupTried => {
            if went_well {
                Step::WriteHosts
            } else {
                Step::Fail(Failure::BackupFailed)
            }
        },
        Stage::WriteTried => {
            if went_well {
                Step::Succeed
            } else {
                Step::Fail(Failure::PermissionDenied)
            }
        },
    }
}

/// The words for a failure at the file `path`, with what the system said of it.
pub open spec fn failure_words(failure: Failure, path: Seq<u8>, detail: Seq<u8>) -> Seq<u8> {
    match failure {
        Failure::NotFound => utf8("failed to read hosts file (") + path + utf8("): ") + detail,
        Failure::PermissionDenied => utf8("failed to write hosts file (") + path + utf8("): ")
            + detail + utf8(". Try running the app with elevated privileges"),
        Failure::InvalidRequest => utf8("invalid request: ") + detail,
        Failure::BackupFailed => utf8("failed to write backup ") + path + utf8(": ") + detail,
        Failure::PartialFailure => utf8("some names were passed over or failed: ") + detail,
        Failure::Unavailable => utf8("hosts file not found or unreadable"),
    }
}

/// Tells a failure in words. Where writing was denied the words say what to try.
pub fn describe_failure(failure: Failure, path: &[u8], detail: &[u8]) -> (r: Vec<u8>)
    ensures
        r@ == failure_words(failure, path@, detail@),
{
    let mut out: Vec<u8> = Vec::new();
    match failure {
        Failure::NotFound => {
            push_str(&mut out, "failed to read hosts file (");
            append(&mut out, path);
            push_str(&mut out, "): ");
            append(&mut out, detail);
        },
        Failure::PermissionDenied => {
            push_str(&mut out, "failed to write hosts file (");
            append(&mut out, path);
            push_str(&mut out, "): ");
            append(&mut out, detail);
            push_str(&mut out, ". Try running the app with elevated privileges");
        },
        Failure::InvalidRequest => {
            push_str(&mut out, "invalid request: ");
            append(&mut out, detail);
        },
        Failure::BackupFailed => {
            push_str(&mut out, "failed to write backup ");
            append(&mut out, path);
            push_str(&mut out, ": ");
            append(&mut out, detail);
        },
        Failure::PartialFailure => {
            push_str(&mut out, "some names were passed over or failed: ");
            append(&mut out, detail);
        },
        Failure::Unavailable => {
            push_str(&mut out, "hosts file not found or unreadable");
        },
    }
    assert(out@ =~= failure_words(failure, path@, detail@));
    out
}

} // verus!
