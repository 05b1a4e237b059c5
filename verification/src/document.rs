//! The text of a hosts file, with the edits that the engine makes to it.
//!
//! Every edit leaves the bytes outside the span it replaces as they are, but for line
//! feeds: a run of three or more of them is cut down to two.

use crate::codec::{
    block_tag, lemma_next_block, next_block, next_span, opt_slice_view, read_block,
    region_of_line, ManagedBlock,
};
use crate::text::{
    append, chomped, chomped_len, collapse_blank_runs, collapsed, end_of_line, matches_at,
    occurs_at, same_bytes, NEWLINE,
};
use vstd::prelude::*;
use vstd::slice::slice_subrange;

verus! {

/// A block with the tag `tag` answers a search for `want`: any block answers a search
/// that names no region.
pub open spec fn tag_matches(tag: Option<Seq<u8>>, want: Option<Seq<u8>>) -> bool {
    match want {
        Some(w) => tag == Some(w),
        None => true,
    }
}

/// The first block at or after `from` that answers a search for `want`.
pub open spec fn found_block(text: Seq<u8>, want: Option<Seq<u8>>, from: int) -> Option<
    (int, int),
>
    decreases text.len() - from,
    via found_block_decreases
{
    if from < 0 {
        None
    } else {
        match next_block(text, from) {
            None => None,
            Some((s, e)) => if tag_matches(block_tag(text, s), want) {
                Some((s, e))
            } else {
                found_block(text, want, e)
            },
        }
    }
}

#[via_fn]
proof fn found_block_decreases(text: Seq<u8>, want: Option<Seq<u8>>, from: int) {
    if from >= 0 {
        lemma_next_block(text, from);
    }
}

/// A block that was found lies within the text.
pub proof fn lemma_found_block(text: Seq<u8>, want: Option<Seq<u8>>, from: int)
    requires
        0 <= from,
    ensures
        match found_block(text, want, from) {
            Some((s, e)) => from <= s && s + 40 <= e <= text.len() && tag_matches(
                block_tag(text, s),
                want,
            ),
            None => true,
        },
    decreases text.len() - from,
{
    lemma_next_block(text, from);
    match next_block(text, from) {
        None => {},
        Some((s, e)) => {
            if !tag_matches(block_tag(text, s), want) {
                lemma_found_block(text, want, e);
            }
        },
    }
}

/// The text with the bytes from `start` up to `end` replaced by `new`, and with every
/// run of three or more line feeds cut down to two.
pub open spec fn span_replaced(text: Seq<u8>, start: int, end: int, new: Seq<u8>) -> Seq<u8> {
    collapsed(text.take(start) + new + text.skip(end))
}

/// The text with `block` as its last lines: one blank line before it, one line feed
/// behind it.
pub open spec fn block_appended(text: Seq<u8>, block: Seq<u8>) -> Seq<u8> {
    chomped(text) + seq![NEWLINE, NEWLINE] + block + seq![NEWLINE]
}

/// The text of a hosts file.
pub struct HostsDocument {
    text: Vec<u8>,
}

impl View for HostsDocument {
    type V = Seq<u8>;

    closed spec fn view(&self) -> Seq<u8> {
        self.text@
    }
}

impl HostsDocument {
    /// The document that holds `text`.
    pub fn new(text: Vec<u8>) -> (r: HostsDocument)
        ensures
            r@ == text@,
    {
        HostsDocument { text }
    }

    /// The text as it stands.
    pub fn render(&self) -> (r: &[u8])
        ensures
            r@ == self@,
    {
        self.text.as_slice()
    }

    /// Gives the text up.
    pub fn into_bytes(self) -> (r: Vec<u8>)
        ensures
            r@ == self@,
    {
        self.text
    }

    /// Every managed block, in the order in which they stand.
    pub fn blocks(&self) -> (r: Vec<ManagedBlock>)
        ensures
            r@.len() == crate::codec::block_spans(self@, 0).len(),
            forall|i: int|
                0 <= i < r@.len() ==> (#[trigger] r@[i]).describes(
                    self@,
                    crate::codec::block_spans(self@, 0)[i],
                ),
    {
        crate::codec::decode(self.text.as_slice())
    }

    /// The first block that names `region`, or the first block of all where `region` is
    /// `None`.
    pub fn find_block(&self, region: Option<&[u8]>) -> (r: Option<ManagedBlock>)
        ensures
            match r {
                Some(b) => found_block(self@, opt_slice_view(region), 0) == Some(
                    (b.start as int, b.end as int),
                ) && b.describes(self@, (b.start as int, b.end as int)),
                None => found_block(self@, opt_slice_view(region), 0) is None,
            },
    {
        let text = self.text.as_slice();
        let mut pos: usize = 0;
        loop
            invariant
                pos <= text.len(),
                text@ == self@,
                found_block(self@, opt_slice_view(region), 0) == found_block(
                    self@,
                    opt_slice_view(region),
                    pos as int,
                ),
            decreases text.len() - pos,
        {
            proof {
                lemma_next_block(text@, pos as int);
            }
            match next_span(text, pos) {
                None => {
                    return None;
                },
                Some((s, e)) => {
                    let stop: usize = end_of_line(text, s);
                    let tag = region_of_line(slice_subrange(text, s, stop));
                    let hit = match region {
                        None => true,
                        Some(want) => match &tag {
                            Some(t) => same_bytes(t.as_slice(), want),
                            None => false,
                        },
                    };
                    assert(hit == tag_matches(block_tag(text@, s as int), opt_slice_view(region)));
                    if hit {
                        return Some(read_block(text, s, e));
                    }
                    pos = e;
                },
            }
        }
    }

    /// Puts `new` in the place of the bytes from `start` up to `end`, then cuts every
    /// run of three or more line feeds down to two.
    pub fn replace_span(&mut self, start: usize, end: usize, new: &[u8])
        requires
            start <= end <= old(self)@.len(),
        ensures
            final(self)@ == span_replaced(old(self)@, start as int, end as int, new@),
    {
        let mut joined: Vec<u8> = Vec::new();
        let n: usize = self.text.len();
        append(&mut joined, slice_subrange(self.text.as_slice(), 0, start));
        append(&mut joined, new);
        append(&mut joined, slice_subrange(self.text.as_slice(), end, n));
        assert(joined@ =~= self@.take(start as int) + new@ + self@.skip(end as int));
        self.text = collapse_blank_runs(joined.as_slice());
    }

    /// Makes `block` the last lines of the text: the line feeds at the end of the text
    /// go, then come one blank line, the block, and one line feed.
    pub fn append_block(&mut self, block: &[u8])
        ensures
            final(self)@ == block_appended(old(self)@, block@),
    {
        let keep: usize = chomped_len(self.text.as_slice());
        self.text.truncate(keep);
        assert(self@ =~= chomped(old(self)@));
        self.text.push(NEWLINE);
        self.text.push(NEWLINE);
        append(&mut self.text, block);
        self.text.push(NEWLINE);
        assert(self@ =~= block_appended(old(self)@, block@));
    }

    /// Every index at which `needle` stands in the text, in rising order.
    pub fn find_all(&self, needle: &[u8]) -> (r: Vec<usize>)
        ensures
            forall|i: int| 0 <= i < r@.len() ==> occurs_at(self@, needle@, #[trigger] r@[i] as int),
            forall|i: int, j: int| 0 <= i < j < r@.len() ==> r@[i] < r@[j],
            forall|at: int|
                occurs_at(self@, needle@, at) ==> exists|i: int|
                    0 <= i < r@.len() && #[trigger] r@[i] == at,
    {
        let text = self.text.as_slice();
        let mut out: Vec<usize> = Vec::new();
        let mut at: usize = 0;
        while at < text.len()
            invariant
                at <= text.len(),
                text@ == self@,
                forall|i: int|
                    0 <= i < out@.len() ==> occurs_at(self@, needle@, #[trigger] out@[i] as int),
                forall|i: int| 0 <= i < out@.len() ==> #[trigger] out@[i] < at,
                forall|i: int, j: int| 0 <= i < j < out@.len() ==> out@[i] < out@[j],
                forall|k: int|
                    0 <= k < at && occurs_at(self@, needle@, k) ==> exists|i: int|
                        0 <= i < out@.len() && #[trigger] out@[i] == k,
            decreases text.len() - at,
        {
            let ghost before = out@;
            if matches_at(text, needle, at) {
                out.push(at);
            }
            proof {
                assert forall|k: int| 0 <= k < at + 1 && occurs_at(self@, needle@, k) implies exists|
                    i: int,
                | 0 <= i < out@.len() && #[trigger] out@[i] == k by {
                    if k < at {
                        let i = choose|i: int| 0 <= i < before.len() && #[trigger] before[i] == k;
                        assert(out@[i] == k);
                    } else {
                        assert(out@[before.len() as int] == k);
                    }
                }
            }
            at += 1;
        }
        if matches_at(text, needle, at) {
            let ghost before = out@;
            out.push(at);
            proof {
                assert forall|k: int| occurs_at(self@, needle@, k) implies exists|i: int|
                    0 <= i < out@.len() && #[trigger] out@[i] == k by {
                    if k < at {
                        let i = choose|i: int| 0 <= i < before.len() && #[trigger] before[i] == k;
                        assert(out@[i] == k);
                    } else {
                        assert(out@[before.len() as int] == k);
                    }
                }
            }
        }
        out
    }
}

} // verus!
