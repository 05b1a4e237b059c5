//! What a request does to the text of a hosts file.
//!
//! A request sets the names of a region, takes names away from a region, or clears
//! every managed block. Each of them is computed here from the text as it was read; the
//! caller writes the new text, if there is one.

use crate::codec::{
    block_names, block_tag, encode, encoded, end_marker, end_marker_bytes, lemma_marker_lengths,
    marker_stem, marker_stem_bytes, opt_slice_view, opt_view,
};
use crate::document::{
    block_appended, found_block, lemma_found_block, span_replaced, HostsDocument,
};
use crate::names::{kept, lemma_kept, DomainSet};
use crate::text::{
    append, collapse_blank_runs, collapsed, copy_range, end_of_line, end_with_line_feed, ended,
    find, find_from, led_len, lemma_find_from, lemma_line_end, line_end, unled,
};
use vstd::prelude::*;
use vstd::slice::slice_subrange;

verus! {

/// What a request asks for.
#[derive(Clone, Copy, PartialEq, Eq, Structural, Debug)]
pub enum Mode {
    /// The region is to hold just the names given.
    SetNames,
    /// The names given are to leave the region.
    RemoveNames,
}

/// What a request came to.
#[derive(Clone, Copy, PartialEq, Eq, Structural, Debug)]
pub enum Change {
    /// A block with `count` names was written.
    Blocked { count: usize },
    /// The block of the region was taken out and none was written.
    BlockRemoved,
    /// `removed` names left the block and `left` names stay in it.
    EntriesRemoved { removed: usize, left: usize },
    /// There was no block and none was asked for: nothing is to be written.
    NothingToUpdate,
    /// None of the names was in the block: nothing is to be written.
    NoMatchingEntries,
}

/// What a request came to, with the new text where one is to be written.
pub struct Edit {
    pub change: Change,
    /// The text to write; `None` where the file stays as it is.
    pub content: Option<Vec<u8>>,
}

/// The text without the block that answers `region`, if there is one.
pub open spec fn without_block(text: Seq<u8>, region: Option<Seq<u8>>) -> Seq<u8> {
    match found_block(text, region, 0) {
        Some((s, e)) => span_replaced(text, s, e, Seq::empty()),
        None => text,
    }
}

/// The text that setting `names` for `region` writes, if it writes any: the block that
/// answers `region` goes, and where there are names a new block comes at the end. What
/// is written ends with just one line feed.
pub open spec fn set_content(text: Seq<u8>, region: Option<Seq<u8>>, names: Seq<Seq<u8>>) -> Option<
    Seq<u8>,
> {
    if names.len() > 0 {
        Some(block_appended(without_block(text, region), encoded(region, names)))
    } else if found_block(text, region, 0) is Some {
        Some(ended(without_block(text, region)))
    } else {
        None
    }
}

/// What setting `names` for `region` comes to.
pub open spec fn set_change(text: Seq<u8>, region: Option<Seq<u8>>, names: Seq<Seq<u8>>) -> Change {
    if names.len() > 0 {
        Change::Blocked { count: names.len() as usize }
    } else if found_block(text, region, 0) is Some {
        Change::BlockRemoved
    } else {
        Change::NothingToUpdate
    }
}

/// The text that taking `names` away from `region` writes, if it writes any: the block
/// that answers `region` is written anew, under its own tag and with the names that
/// stay, or goes where none stays. What is written ends with just one line feed.
pub open spec fn remove_content(
    text: Seq<u8>,
    region: Option<Seq<u8>>,
    names: Seq<Seq<u8>>,
) -> Option<Seq<u8>> {
    match found_block(text, region, 0) {
        None => None,
        Some((s, e)) => {
            let had = block_names(text.subrange(s, e));
            let left = kept(had, names);
            if left.len() == had.len() {
                None
            } else {
                Some(ended(span_replaced(text, s, e, encoded(block_tag(text, s), left))))
            }
        },
    }
}

/// What taking `names` away from `region` comes to.
pub open spec fn remove_change(
    text: Seq<u8>,
    region: Option<Seq<u8>>,
    names: Seq<Seq<u8>>,
) -> Change {
    match found_block(text, region, 0) {
        None => Change::NothingToUpdate,
        Some((s, e)) => {
            let had = block_names(text.subrange(s, e));
            let left = kept(had, names);
            if left.len() == had.len() {
                Change::NoMatchingEntries
            } else if left.len() == 0 {
                Change::BlockRemoved
            } else {
                Change::EntriesRemoved {
                    removed: (had.len() - left.len()) as usize,
                    left: left.len() as usize,
                }
            }
        },
    }
}

/// Sets the names of `region` to `names`.
///
/// The block that answers `region` is taken out. Where `names` is not empty, a new
/// block for `region` is put at the end of the text.
pub fn set_names(text: &[u8], region: Option<&[u8]>, names: &DomainSet) -> (r: Edit)
    requires
        names.wf(),
    ensures
        r.change == set_change(text@, opt_slice_view(region), names@),
        opt_view(r.content) == set_content(text@, opt_slice_view(region), names@),
{
    let mut doc = HostsDocument::new(copy_range(text, 0, text.len()));
    assert(doc@ =~= text@);
    let found = doc.find_block(region);
    let had_block = found.is_some();
    match found {
        Some(block) => {
            proof {
                lemma_found_block(text@, opt_slice_view(region), 0);
            }
            let none: Vec<u8> = Vec::new();
            doc.replace_span(block.start, block.end, none.as_slice());
            assert(none@ =~= Seq::<u8>::empty());
        },
        None => {},
    }
    assert(doc@ == without_block(text@, opt_slice_view(region)));
    if !names.is_empty() {
        let block = encode(region, names);
        doc.append_block(block.as_slice());
        Edit { change: Change::Blocked { count: names.len() }, content: Some(doc.into_bytes()) }
    } else if had_block {
        Edit {
            change: Change::BlockRemoved,
            content: Some(end_with_line_feed(doc.render())),
        }
    } else {
        Edit { change: Change::NothingToUpdate, content: None }
    }
}

/// Takes `names` away from `region`.
///
/// Where no block answers `region`, or none of `names` is in it, nothing is to be
/// written. Else the block is written anew in its place with the names that stay, or
/// taken out where none stays.
pub fn remove_names(text: &[u8], region: Option<&[u8]>, names: &DomainSet) -> (r: Edit)
    requires
        names.wf(),
    ensures
        r.change == remove_change(text@, opt_slice_view(region), names@),
        opt_view(r.content) == remove_content(text@, opt_slice_view(region), names@),
{
    let mut doc = HostsDocument::new(copy_range(text, 0, text.len()));
    assert(doc@ =~= text@);
    match doc.find_block(region) {
        None => Edit { change: Change::NothingToUpdate, content: None },
        Some(block) => {
            proof {
                lemma_found_block(text@, opt_slice_view(region), 0);
                lemma_kept(block.names@, names@);
            }
            let left = block.names.without(names);
            if left.len() == block.names.len() {
                return Edit { change: Change::NoMatchingEntries, content: None };
            }
            let tag: Option<&[u8]> = match &block.region {
                Some(t) => Some(t.as_slice()),
                None => None,
            };
            let new_block = encode(tag, &left);
            doc.replace_span(block.start, block.end, new_block.as_slice());
            let change = if left.is_empty() {
                Change::BlockRemoved
            } else {
                Change::EntriesRemoved {
                    removed: block.names.len() - left.len(),
                    left: left.len(),
                }
            };
            Edit { change, content: Some(end_with_line_feed(doc.render())) }
        },
    }
}

/// Carries out a request on `text`.
pub fn apply(text: &[u8], region: Option<&[u8]>, names: &DomainSet, mode: Mode) -> (r: Edit)
    requires
        names.wf(),
    ensures
        mode == Mode::SetNames ==> r.change == set_change(text@, opt_slice_view(region), names@)
            && opt_view(r.content) == set_content(text@, opt_slice_view(region), names@),
        mode == Mode::RemoveNames ==> r.change == remove_change(
            text@,
            opt_slice_view(region),
            names@,
        ) && opt_view(r.content) == remove_content(text@, opt_slice_view(region), names@),
{
    match mode {
        Mode::SetNames => set_names(text, region, names),
        Mode::RemoveNames => remove_names(text, region, names),
    }
}

/// The index behind the line on which index `at` stands.
pub open spec fn after_line(text: Seq<u8>, at: int) -> int {
    if line_end(text, at) < text.len() {
        line_end(text, at) + 1
    } else {
        text.len() as int
    }
}

/// What clearing finds from index `from` on: the text that is left, the number of
/// blocks taken out, and whether it stopped at a marker that no end marker follows.
///
/// A block to clear begins wherever the stem of the markers stands and runs through the
/// first end marker behind the line on which it begins. The search goes on in what is
/// left, at the index where the block began.
pub open spec fn swept(text: Seq<u8>, from: int) -> (Seq<u8>, nat, bool)
    decreases text.len(),
    via swept_decreases
{
    match find_from(text, marker_stem(), from) {
        None => (text, 0, false),
        Some(s) => match find_from(text, end_marker(), after_line(text, s)) {
            None => (text, 0, true),
            Some(e) => {
                let rest = swept(text.take(s) + text.skip(e + end_marker().len()), s);
                (rest.0, rest.1 + 1, rest.2)
            },
        },
    }
}

#[via_fn]
proof fn swept_decreases(text: Seq<u8>, from: int) {
    lemma_marker_lengths();
    match find_from(text, marker_stem(), from) {
        None => {},
        Some(s) => {
            if from >= 0 {
                lemma_find_from(text, marker_stem(), from);
                lemma_line_end(text, s);
                lemma_find_from(text, end_marker(), after_line(text, s));
            }
        },
    }
}

/// What clearing came to.
pub struct Clearing {
    /// The number of blocks that were taken out.
    pub removed: usize,
    /// A marker was found that no end marker follows: it was left where it stands, with
    /// all that follows it.
    pub halted: bool,
    /// The text to write; `None` where no block was taken out.
    pub content: Option<Vec<u8>>,
}

/// The text that clearing writes: what is left, with every run of three or more line
/// feeds cut down to two, without the line feeds it begins with, and with just one
/// line feed at its end. No line of what is left is touched.
pub open spec fn clear_content(text: Seq<u8>) -> Option<Seq<u8>> {
    if swept(text, 0).1 > 0 {
        Some(ended(unled(collapsed(swept(text, 0).0))))
    } else {
        None
    }
}

/// Takes every managed block out of `text`, whatever stands on the line of its marker.
pub fn clear_all(text: &[u8]) -> (r: Clearing)
    ensures
        r.removed == swept(text@, 0).1,
        r.halted == swept(text@, 0).2,
        opt_view(r.content) == clear_content(text@),
{
    let mut content: Vec<u8> = copy_range(text, 0, text.len());
    assert(content@ =~= text@);
    let mut removed: usize = 0;
    let mut from: usize = 0;
    let mut halted = false;
    let total: usize = text.len();
    loop
        invariant_except_break
            from <= content@.len(),
            !halted,
            swept(text@, 0).0 == swept(content@, from as int).0,
            swept(text@, 0).1 == removed + swept(content@, from as int).1,
            swept(text@, 0).2 == swept(content@, from as int).2,
        invariant
            removed + content@.len() <= total,
        ensures
            swept(text@, 0).0 == content@,
            swept(text@, 0).1 == removed,
            swept(text@, 0).2 == halted,
        decreases content@.len(),
    {
        let n: usize = content.len();
        match find(content.as_slice(), marker_stem_bytes(), from) {
            None => {
                break ;
            },
            Some(s) => {
                proof {
                    lemma_find_from(content@, marker_stem(), from as int);
                    lemma_line_end(content@, s as int);
                }
                let stop: usize = end_of_line(content.as_slice(), s);
                let behind: usize = if stop < n {
                    stop + 1
                } else {
                    n
                };
                match find(content.as_slice(), end_marker_bytes(), behind) {
                    None => {
                        halted = true;
                        break ;
                    },
                    Some(e) => {
                        proof {
                            lemma_marker_lengths();
                            lemma_find_from(content@, end_marker(), behind as int);
                        }
                        let mut next: Vec<u8> = Vec::new();
                        append(&mut next, slice_subrange(content.as_slice(), 0, s));
                        append(&mut next, slice_subrange(content.as_slice(), e + 19, n));
                        assert(next@ =~= content@.take(s as int) + content@.skip(e + 19));
                        content = next;
                        removed += 1;
                        from = s;
                    },
                }
            },
        }
    }
    if removed == 0 {
        return Clearing { removed, halted, content: None };
    }
    let squeezed = collapse_blank_runs(content.as_slice());
    let lead: usize = led_len(squeezed.as_slice());
    let out = end_with_line_feed(slice_subrange(squeezed.as_slice(), lead, squeezed.len()));
    assert(squeezed@.subrange(lead as int, squeezed@.len() as int) =~= squeezed@.skip(lead as int));
    Clearing { removed, halted, content: Some(out) }
}

} // verus!
