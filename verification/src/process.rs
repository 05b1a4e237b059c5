//! Telling a process by a part of its name.

use crate::report::{decimal, push_str, render_decimal, utf8};
use crate::text::{append, contains, includes, lowered, to_lower};
use vstd::prelude::*;

verus! {

/// `text` holds `needle`, whatever the case of the letters.
pub open spec fn mentions(text: Seq<u8>, needle: Seq<u8>) -> bool {
    contains(lowered(text), lowered(needle))
}

/// Tells whether `text` holds `needle`, whatever the case of the letters.
pub fn text_mentions(text: &[u8], needle: &[u8]) -> (r: bool)
    ensures
        r == mentions(text@, needle@),
{
    let low_text = to_lower(text);
    let low_needle = to_lower(needle);
    includes(low_text.as_slice(), low_needle.as_slice())
}

/// Tells whether a process is meant: its name, or the first word of its command line,
/// holds `needle`.
pub fn process_matches(name: &[u8], first_arg: Option<&[u8]>, needle: &[u8]) -> (r: bool)
    ensures
        r == (mentions(name@, needle@) || (match first_arg {
            Some(arg) => mentions(arg@, needle@),
            None => false,
        })),
{
    if text_mentions(name, needle) {
        return true;
    }
    match first_arg {
        Some(arg) => text_mentions(arg, needle),
        None => false,
    }
}

/// Tells whether a process is meant: its name, or any word of its command line, holds
/// `needle`.
pub fn process_matches_any(name: &[u8], args: &Vec<Vec<u8>>, needle: &[u8]) -> (r: bool)
    ensures
        r == (mentions(name@, needle@) || exists|i: int|
            0 <= i < args@.len() && mentions(#[trigger] args@[i]@, needle@)),
{
    if text_mentions(name, needle) {
        return true;
    }
    let mut i: usize = 0;
    while i < args.len()
        invariant
            i <= args.len(),
            forall|k: int| 0 <= k < i ==> !mentions(#[trigger] args@[k]@, needle@),
        decreases args.len() - i,
    {
        if text_mentions(args[i].as_slice(), needle) {
            assert(mentions(args@[i as int]@, needle@));
            return true;
        }
        i += 1;
    }
    false
}

/// The words for the number of processes that were ended.
pub open spec fn killed_words(count: nat) -> Seq<u8> {
    utf8("killed ") + decimal(count) + utf8(" processes")
}

/// Tells how many processes were ended.
pub fn describe_killed(count: u64) -> (r: Vec<u8>)
    ensures
        r@ == killed_words(count as nat),
{
    let mut out: Vec<u8> = Vec::new();
    push_str(&mut out, "killed ");
    let digits = render_decimal(count);
    append(&mut out, digits.as_slice());
    push_str(&mut out, " processes");
    assert(out@ =~= killed_words(count as nat));
    out
}

} // verus!
