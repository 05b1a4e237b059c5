//! The words in which the engine tells what it did.

use crate::reconciler::{Change, Clearing};
use crate::text::append;
use vstd::prelude::*;
use vstd::string::StringSliceAdditionalSpecFns;

verus! {

/// The bytes in which a text is stored.
pub open spec fn utf8(s: &str) -> Seq<u8> {
    s.spec_bytes()
}

/// The decimal digits of a number, as ASCII.
pub open spec fn decimal(n: nat) -> Seq<u8>
    decreases n,
{
    if n < 10 {
        seq![(48 + n) as u8]
    } else {
        decimal(n / 10).push((48 + n % 10) as u8)
    }
}

/// Appends the bytes of `s` to `out`.
pub fn push_str(out: &mut Vec<u8>, s: &str)
    ensures
        final(out)@ == old(out)@ + utf8(s),
{
    append(out, s.as_bytes());
}

/// Writes a number in decimal digits.
pub fn render_decimal(n: u64) -> (r: Vec<u8>)
    ensures
        r@ == decimal(n as nat),
{
    let mut low: Vec<u8> = Vec::new();
    let mut m: u64 = n;
    while m >= 10
        invariant
            decimal(n as nat) == decimal(m as nat) + Seq::new(
                low@.len(),
                |i: int| low@[low@.len() - 1 - i],
            ),
        decreases m,
    {
        let ghost before = low@;
        let digit: u8 = 48 + (m % 10) as u8;
        low.push(digit);
        proof {
            let old_tail = Seq::new(before.len(), |i: int| before[before.len() - 1 - i]);
            let new_tail = Seq::new(low@.len(), |i: int| low@[low@.len() - 1 - i]);
            assert(new_tail =~= seq![digit] + old_tail);
            assert(decimal(m as nat) == decimal((m / 10) as nat).push(digit));
            assert(decimal((m / 10) as nat).push(digit) + old_tail =~= decimal((m / 10) as nat)
                + new_tail);
        }
        m = m / 10;
    }
    let mut out: Vec<u8> = Vec::new();
    out.push(48 + m as u8);
    let mut i: usize = low.len();
    let ghost tail = Seq::new(low@.len(), |i: int| low@[low@.len() - 1 - i]);
    assert(out@ =~= decimal(m as nat) + tail.take(0));
    while i > 0
        invariant
            i <= low.len(),
            tail == Seq::new(low@.len(), |i: int| low@[low@.len() - 1 - i]),
            out@ == decimal(m as nat) + tail.take(low.len() - i),
        decreases i,
    {
        i -= 1;
        out.push(low[i]);
        assert(tail.take(low.len() - i - 1).push(low@[i as int]) =~= tail.take(low.len() - i));
    }
    assert(tail.take(low.len() as int) =~= tail);
    out
}

/// The words for what a request came to, for the file at `path`.
pub open spec fn change_words(change: Change, path: Seq<u8>) -> Seq<u8> {
    match change {
        Change::Blocked { count } => utf8("Successfully blocked ") + decimal(count as nat) + utf8(
            " domains (wrote to ",
        ) + path + utf8(")"),
        Change::BlockRemoved => utf8("Removed clusterbanned block (wrote to ") + path + utf8(")"),
        Change::EntriesRemoved { removed, left } => utf8("Removed ") + decimal(removed as nat)
            + utf8(" entries, left ") + decimal(left as nat) + utf8(" entries (wrote to ") + path
            + utf8(")"),
        Change::NothingToUpdate => utf8("No cluster entries to update"),
        Change::NoMatchingEntries => utf8("No matching entries to remove"),
    }
}

/// Tells in words what a request came to, for the file at `path`.
pub fn describe_change(change: Change, path: &[u8]) -> (r: Vec<u8>)
    ensures
        r@ == change_words(change, path@),
{
    let mut out: Vec<u8> = Vec::new();
    match change {
        Change::Blocked { count } => {
            push_str(&mut out, "Successfully blocked ");
            let digits = render_decimal(count as u64);
            append(&mut out, digits.as_slice());
            push_str(&mut out, " domains (wrote to ");
            append(&mut out, path);
            push_str(&mut out, ")");
        },
        Change::BlockRemoved => {
            push_str(&mut out, "Removed clusterbanned block (wrote to ");
            append(&mut out, path);
            push_str(&mut out, ")");
        },
        Change::EntriesRemoved { removed, left } => {
            push_str(&mut out, "Removed ");
            let gone = render_decimal(removed as u64);
            append(&mut out, gone.as_slice());
            push_str(&mut out, " entries, left ");
            let stay = render_decimal(left as u64);
            append(&mut out, stay.as_slice());
            push_str(&mut out, " entries (wrote to ");
            append(&mut out, path);
            push_str(&mut out, ")");
        },
        Change::NothingToUpdate => {
            push_str(&mut out, "No cluster entries to update");
        },
        Change::NoMatchingEntries => {
            push_str(&mut out, "No matching entries to remove");
        },
    }
    assert(out@ =~= change_words(change, path@));
    out
}

/// The words for what clearing came to.
pub open spec fn clearing_words(removed: nat, halted: bool) -> Seq<u8> {
    let first = if removed > 0 {
        utf8("Successfully removed ") + decimal(removed) + utf8(" block(s) from hosts")
    } else {
        utf8("No clusterbanned blocks found in hosts")
    };
    if halted {
        first + utf8("\nStopped at a marker without an end marker; it was left in place")
    } else {
        first
    }
}

/// Tells in words what clearing came to: how many blocks went, and whether it stopped
/// at a marker that no end marker follows.
pub fn describe_clearing(clearing: &Clearing) -> (r: Vec<u8>)
    ensures
        r@ == clearing_words(clearing.removed as nat, clearing.halted),
{
    let mut out: Vec<u8> = Vec::new();
    if clearing.removed > 0 {
        push_str(&mut out, "Successfully removed ");
        let digits = render_decimal(clearing.removed as u64);
        append(&mut out, digits.as_slice());
        push_str(&mut out, " block(s) from hosts");
    } else {
        push_str(&mut out, "No clusterbanned blocks found in hosts");
    }
    if clearing.halted {
        push_str(&mut out, "\nStopped at a marker without an end marker; it was left in place");
    }
    assert(out@ =~= clearing_words(clearing.removed as nat, clearing.halted));
    out
}

} // verus!
