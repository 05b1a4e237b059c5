//! One request for both the hosts file and the firewall, and one answer for both.
//!
//! The two are carried out apart from each other: what goes wrong with the one does
//! not keep the other from being tried, and each is told of in its own words.

use crate::reconciler::Mode;
use crate::report::{push_str, utf8};
use crate::text::append;
use vstd::prelude::*;

verus! {

/// What a request means for the hosts file: to block is to set the names of the
/// region, to unblock is to take them away from it.
pub fn mode_for(enable: bool) -> (r: Mode)
    ensures
        r == (if enable {
            Mode::SetNames
        } else {
            Mode::RemoveNames
        }),
{
    if enable {
        Mode::SetNames
    } else {
        Mode::RemoveNames
    }
}

/// The answer to a request for both.
pub struct Combined {
    /// Whether nothing that was tried failed.
    pub success: bool,
    /// What is told of the hosts file.
    pub hosts: Vec<u8>,
    /// What is told of the firewall.
    pub firewall: Vec<u8>,
}

/// What is told of one of the two: that it was skipped, what it came to, or in which
/// words it failed.
pub open spec fn slot_words(outcome: Option<Result<Seq<u8>, Seq<u8>>>) -> Seq<u8> {
    match outcome {
        None => utf8("Skipped"),
        Some(Ok(words)) => words,
        Some(Err(words)) => utf8("Error: ") + words,
    }
}

/// One of the two failed.
pub open spec fn slot_failed(outcome: Option<Result<Seq<u8>, Seq<u8>>>) -> bool {
    outcome matches Some(Err(_))
}

/// An optional outcome as plain values.
pub open spec fn slot_view(outcome: Option<Result<Vec<u8>, Vec<u8>>>) -> Option<
    Result<Seq<u8>, Seq<u8>>,
> {
    match outcome {
        None => None,
        Some(Ok(words)) => Some(Ok(words@)),
        Some(Err(words)) => Some(Err(words@)),
    }
}

/// Tells of one of the two.
fn fill_slot(outcome: &Option<Result<Vec<u8>, Vec<u8>>>) -> (r: Vec<u8>)
    ensures
        r@ == slot_words(slot_view(*outcome)),
{
    let mut out: Vec<u8> = Vec::new();
    match outcome {
        None => {
            push_str(&mut out, "Skipped");
        },
        Some(Ok(words)) => {
            append(&mut out, words.as_slice());
        },
        Some(Err(words)) => {
            push_str(&mut out, "Error: ");
            append(&mut out, words.as_slice());
        },
    }
    assert(out@ =~= slot_words(slot_view(*outcome)));
    out
}

/// Puts the two outcomes into one answer. `None` stands for what was not asked for.
pub fn combine(
    hosts: &Option<Result<Vec<u8>, Vec<u8>>>,
    firewall: &Option<Result<Vec<u8>, Vec<u8>>>,
) -> (r: Combined)
    ensures
        r.success == (!slot_failed(slot_view(*hosts)) && !slot_failed(slot_view(*firewall))),
        r.hosts@ == slot_words(slot_view(*hosts)),
        r.firewall@ == slot_words(slot_view(*firewall)),
{
    let hosts_failed = match hosts {
        Some(Err(_)) => true,
        _ => false,
    };
    let firewall_failed = match firewall {
        Some(Err(_)) => true,
        _ => false,
    };
    Combined {
        success: !hosts_failed && !firewall_failed,
        hosts: fill_slot(hosts),
        firewall: fill_slot(firewall),
    }
}

} // verus!
