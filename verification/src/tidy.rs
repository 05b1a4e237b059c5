//! Hosts files in which the managed blocks stand apart from the other lines.
//!
//! Such a file is woven from gaps and blocks. A gap holds whatever the user wrote, but
//! nothing of the markers. A block is one managed block from its first byte to its
//! last, as the engine writes it or as a user changed it. Here is shown what reading
//! finds in such a file: each block where it stands, with its region and its names,
//! and nothing else.

use crate::codec::{
    block_names, block_spans, block_tag, encoded, end_marker, header, lemma_block_names,
    lemma_marker_lengths, marker_stem, next_block, start_marker,
};
use crate::consistency::{blocked_names, lemma_names_of_blocks, names_of_blocks};
use crate::document::{found_block, tag_matches};
use crate::joined::{
    all_tokens, is_token, lemma_find_kept, lemma_find_past, lemma_find_shift, lemma_line_end_is,
    lemma_occurs_in_join,
};
use crate::names::{all_lower, is_name_list, lemma_merged};
use crate::roundtrip::{lemma_encoded_names, lemma_encoded_span, lemma_encoded_tag, lemma_header};
use crate::reconciler::swept;
use crate::sweeping::{clearable, flat, lemma_clear_takes_blocks, quiet, woven};
use crate::text::{
    find_from, lemma_find_from, lemma_find_from_none, lemma_line_end, line_end, occurs_at,
    NEWLINE,
};
use vstd::prelude::*;

verus! {

/// Names that are tokens, each its own lower-case form.
pub open spec fn steady(names: Seq<Seq<u8>>) -> bool {
    all_lower(names) && all_tokens(names)
}

/// A text that is one managed block from its first byte to its last: it begins with a
/// start marker, the first end marker in it is what it ends with, and its first line
/// ends within it. The names that it lists are tokens in lower case, and stay as they
/// are when they are put into lower case again.
pub open spec fn whole(b: Seq<u8>) -> bool {
    &&& next_block(b, 0) == Some((0int, b.len() as int))
    &&& line_end(b, 0) < b.len()
    &&& steady(block_names(b))
}

/// The region that a block names.
pub open spec fn tag_of(b: Seq<u8>) -> Option<Seq<u8>> {
    block_tag(b, 0)
}

/// The file that begins with the first of `gaps` and goes on with a block and a gap in
/// turn.
pub open spec fn document(gaps: Seq<Seq<u8>>, blocks: Seq<Seq<u8>>) -> Seq<u8> {
    woven(gaps, blocks)
}

/// A gap that is empty or begins with a line feed: what stands before it ends its line.
pub open spec fn starts_line(g: Seq<u8>) -> bool {
    g.len() == 0 || g[0] == NEWLINE
}

/// The gaps and blocks of a tidy file: there is one gap more than there are blocks, no
/// gap holds the stem of the markers, every block is a managed block from its first
/// byte to its last, and every end marker is the last of its line.
pub open spec fn tidy(gaps: Seq<Seq<u8>>, blocks: Seq<Seq<u8>>) -> bool {
    &&& gaps.len() == blocks.len() + 1
    &&& forall|i: int| 0 <= i < gaps.len() ==> quiet(#[trigger] gaps[i])
    &&& forall|i: int| 1 <= i < gaps.len() ==> starts_line(#[trigger] gaps[i])
    &&& forall|i: int| 0 <= i < blocks.len() ==> whole(#[trigger] blocks[i])
}

/// The places of the blocks of a file that begins at index `from`.
pub open spec fn spans_of(from: int, gaps: Seq<Seq<u8>>, blocks: Seq<Seq<u8>>) -> Seq<(int, int)>
    decreases blocks.len(),
{
    if blocks.len() == 0 || gaps.len() == 0 {
        Seq::empty()
    } else {
        let s = from + gaps[0].len();
        let e = s + blocks[0].len();
        seq![(s, e)] + spans_of(e, gaps.drop_first(), blocks.drop_first())
    }
}

/// The file is its first gap, its first block, and the file of the rest.
pub proof fn lemma_document_unfold(gaps: Seq<Seq<u8>>, blocks: Seq<Seq<u8>>)
    requires
        gaps.len() == blocks.len() + 1,
        blocks.len() > 0,
    ensures
        document(gaps, blocks) == gaps[0] + blocks[0] + document(
            gaps.drop_first(),
            blocks.drop_first(),
        ),
{
}

/// A start marker is the stem and more.
proof fn lemma_start_has_stem(text: Seq<u8>, at: int)
    requires
        occurs_at(text, start_marker(), at),
    ensures
        occurs_at(text, marker_stem(), at),
{
    reveal_strlit("# clusterbanned start");
    reveal_strlit("# clusterbanned");
    assert forall|k: int| 0 <= k < marker_stem().len() implies text[at + k]
        == #[trigger] marker_stem()[k] by {
        assert(text[at + k] == start_marker()[k]);
    }
}

/// Behind a quiet gap the next start marker is the one that the rest begins with.
proof fn lemma_start_after_quiet(pre: Seq<u8>, g: Seq<u8>, tail: Seq<u8>)
    requires
        quiet(g),
        occurs_at(tail, start_marker(), 0),
    ensures
        find_from(pre + g + tail, start_marker(), pre.len() as int) == Some(
            (pre + g).len() as int,
        ),
{
    reveal_strlit("# clusterbanned start");
    let a = pre + g;
    let t = a + tail;
    assert forall|j: int| pre.len() <= j < a.len() implies !occurs_at(t, start_marker(), j) by {
        if occurs_at(t, start_marker(), j) {
            if j + 21 <= a.len() {
                lemma_occurs_in_join(a, tail, start_marker(), j);
                lemma_occurs_in_join(pre, g, start_marker(), j);
                lemma_start_has_stem(g, j - pre.len());
            } else {
                let k = a.len() - j;
                assert(t[j + k] == start_marker()[k]);
                assert(t[a.len() as int] == tail[0]);
                assert(tail[0int + 0] == start_marker()[0]);
            }
        }
    }
    lemma_find_past(a, tail, start_marker(), pre.len() as int);
    assert(find_from(tail, start_marker(), 0) == Some(0int));
}

/// What a block begins and ends with.
pub proof fn lemma_whole_ends(b: Seq<u8>)
    requires
        whole(b),
    ensures
        b.len() >= 40,
        b[0] == 35u8,
        b.last() == 100u8,
        occurs_at(b, start_marker(), 0),
        occurs_at(b, end_marker(), b.len() - 19),
        forall|j: int| 0 <= j < b.len() - 19 ==> !occurs_at(b, end_marker(), j),
{
    reveal_strlit("# clusterbanned start");
    reveal_strlit("# clusterbanned end");
    crate::codec::lemma_next_block(b, 0);
    lemma_find_from(b, start_marker(), 0);
    lemma_find_from(b, end_marker(), 0);
    assert(b[0int + 0] == start_marker()[0]);
    assert(b[b.len() - 19 + 18] == end_marker()[18]);
}

/// A block is found as it is wherever it stands behind a quiet gap.
pub proof fn lemma_first_block(pre: Seq<u8>, g: Seq<u8>, block: Seq<u8>, rest: Seq<u8>)
    requires
        quiet(g),
        whole(block),
    ensures
        ({
            let text = pre + g + block + rest;
            let s = (pre + g).len() as int;
            let e = s + block.len();
            &&& next_block(text, pre.len() as int) == Some((s, e))
            &&& block_tag(text, s) == tag_of(block)
            &&& text.subrange(s, e) == block
        }),
{
    lemma_marker_lengths();
    let a = pre + g;
    let tail = block + rest;
    let text = pre + g + block + rest;
    let s = a.len() as int;
    let e = s + block.len();
    assert(text =~= a + tail);
    assert(text =~= pre + g + tail);
    lemma_find_from(block, start_marker(), 0);
    lemma_find_from(block, end_marker(), 0);
    lemma_occurs_in_join(block, rest, start_marker(), 0);
    lemma_start_after_quiet(pre, g, tail);
    lemma_find_shift(a, tail, end_marker(), s);
    lemma_find_kept(block, rest, end_marker(), 0, block.len() - 19);
    let le = line_end(block, 0);
    lemma_line_end(block, 0);
    assert forall|k: int| s <= k < s + le implies #[trigger] text[k] != NEWLINE by {
        assert(text[k] == block[k - s]);
    }
    assert(text[s + le] == block[le]);
    lemma_line_end_is(text, s, s + le);
    assert(text.subrange(s, s + le) =~= block.subrange(0, le));
    assert(text.subrange(s, e) =~= block);
}

/// What the engine writes for a set of names is a block from its first byte to its
/// last, names the region and lists the names.
pub proof fn lemma_whole_encoded(region: Option<Seq<u8>>, names: Seq<Seq<u8>>)
    requires
        names.len() > 0,
        is_name_list(names),
        all_tokens(names),
        region matches Some(tag) ==> is_token(tag),
    ensures
        whole(encoded(region, names)),
        tag_of(encoded(region, names)) == region,
        block_names(encoded(region, names)) == names,
{
    lemma_encoded_span(region, names);
    lemma_encoded_tag(region, names);
    lemma_encoded_names(region, names);
    let block = encoded(region, names);
    let h = header(region);
    lemma_header(region);
    lemma_line_end(block, 0);
    assert(block[h.len() as int] == NEWLINE);
}

/// The gaps and blocks of the rest of a tidy file are tidy.
pub proof fn lemma_tidy_rest(gaps: Seq<Seq<u8>>, blocks: Seq<Seq<u8>>)
    requires
        tidy(gaps, blocks),
        blocks.len() > 0,
    ensures
        tidy(gaps.drop_first(), blocks.drop_first()),
{
    let gaps1 = gaps.drop_first();
    let blocks1 = blocks.drop_first();
    assert forall|i: int| 0 <= i < gaps1.len() implies quiet(#[trigger] gaps1[i]) by {
        assert(gaps1[i] == gaps[i + 1]);
    }
    assert forall|i: int| 1 <= i < gaps1.len() implies starts_line(#[trigger] gaps1[i]) by {
        assert(gaps1[i] == gaps[i + 1]);
    }
    assert forall|i: int| 0 <= i < blocks1.len() implies whole(#[trigger] blocks1[i]) by {
        assert(blocks1[i] == blocks[i + 1]);
    }
}

/// Reading a tidy file finds its blocks where they stand.
pub proof fn lemma_spans_tidy(pre: Seq<u8>, gaps: Seq<Seq<u8>>, blocks: Seq<Seq<u8>>)
    requires
        tidy(gaps, blocks),
    ensures
        ({
            let text = pre + document(gaps, blocks);
            let spans = spans_of(pre.len() as int, gaps, blocks);
            &&& block_spans(text, pre.len() as int) == spans
            &&& spans.len() == blocks.len()
            &&& forall|i: int|
                0 <= i < spans.len() ==> {
                    &&& 0 <= (#[trigger] spans[i]).0 <= spans[i].1 <= text.len()
                    &&& text.subrange(spans[i].0, spans[i].1) == blocks[i]
                    &&& block_tag(text, spans[i].0) == tag_of(blocks[i])
                }
        }),
    decreases blocks.len(),
{
    let text = pre + document(gaps, blocks);
    let spans = spans_of(pre.len() as int, gaps, blocks);
    if blocks.len() == 0 {
        let g = gaps[0];
        assert(quiet(g));
        assert(text =~= pre + g);
        lemma_find_shift(pre, g, start_marker(), pre.len() as int);
        assert forall|j: int| 0 <= j implies !occurs_at(g, start_marker(), j) by {
            if occurs_at(g, start_marker(), j) {
                lemma_start_has_stem(g, j);
            }
        }
        lemma_find_from_none(g, start_marker(), 0);
        assert(next_block(text, pre.len() as int) is None);
    } else {
        let g = gaps[0];
        let b = blocks[0];
        let gaps1 = gaps.drop_first();
        let blocks1 = blocks.drop_first();
        let rest = document(gaps1, blocks1);
        assert(quiet(g));
        assert(whole(b));
        lemma_first_block(pre, g, b, rest);
        let s = (pre + g).len() as int;
        let e = s + b.len();
        let head = pre + g + b;
        assert(text =~= pre + g + b + rest);
        assert(text =~= head + rest);
        lemma_tidy_rest(gaps, blocks);
        lemma_spans_tidy(head, gaps1, blocks1);
        let spans1 = spans_of(e, gaps1, blocks1);
        assert(spans =~= seq![(s, e)] + spans1);
        assert(block_spans(text, pre.len() as int) =~= spans);
        assert forall|i: int| 0 <= i < spans.len() implies {
            &&& 0 <= (#[trigger] spans[i]).0 <= spans[i].1 <= text.len()
            &&& text.subrange(spans[i].0, spans[i].1) == blocks[i]
            &&& block_tag(text, spans[i].0) == tag_of(blocks[i])
        } by {
            if i > 0 {
                assert(spans[i] == spans1[i - 1]);
                assert(blocks[i] == blocks1[i - 1]);
            }
        }
    }
}

/// The first of the blocks of a text that answers a search is what the search finds.
pub proof fn lemma_found_at(text: Seq<u8>, want: Option<Seq<u8>>, from: int, k: int)
    requires
        0 <= from,
        0 <= k < block_spans(text, from).len(),
        tag_matches(block_tag(text, block_spans(text, from)[k].0), want),
        forall|j: int|
            0 <= j < k ==> !tag_matches(
                block_tag(text, (#[trigger] block_spans(text, from)[j]).0),
                want,
            ),
    ensures
        found_block(text, want, from) == Some(block_spans(text, from)[k]),
    decreases k,
{
    crate::codec::lemma_next_block(text, from);
    let spans = block_spans(text, from);
    match next_block(text, from) {
        None => {},
        Some((s, e)) => {
            let rest = block_spans(text, e);
            assert(spans =~= seq![(s, e)] + rest);
            assert(spans[0] == (s, e));
            if k > 0 {
                assert(spans[k] == rest[k - 1]);
                assert forall|j: int| 0 <= j < k - 1 implies !tag_matches(
                    block_tag(text, (#[trigger] rest[j]).0),
                    want,
                ) by {
                    assert(spans[j + 1] == rest[j]);
                }
                lemma_found_at(text, want, e, k - 1);
            }
        },
    }
}

/// Where no block of a text answers a search, the search finds nothing.
pub proof fn lemma_found_nowhere(text: Seq<u8>, want: Option<Seq<u8>>, from: int)
    requires
        0 <= from,
        forall|j: int|
            0 <= j < block_spans(text, from).len() ==> !tag_matches(
                block_tag(text, (#[trigger] block_spans(text, from)[j]).0),
                want,
            ),
    ensures
        found_block(text, want, from) is None,
    decreases text.len() - from,
{
    crate::codec::lemma_next_block(text, from);
    let spans = block_spans(text, from);
    match next_block(text, from) {
        None => {},
        Some((s, e)) => {
            let rest = block_spans(text, e);
            assert(spans =~= seq![(s, e)] + rest);
            assert(spans[0] == (s, e));
            assert forall|j: int| 0 <= j < rest.len() implies !tag_matches(
                block_tag(text, (#[trigger] rest[j]).0),
                want,
            ) by {
                assert(spans[j + 1] == rest[j]);
            }
            lemma_found_nowhere(text, want, e);
        },
    }
}

/// A name is in the set of all blocks just where some block lists it.
pub proof fn lemma_names_of_blocks_hold(text: Seq<u8>, spans: Seq<(int, int)>, d: Seq<u8>)
    ensures
        names_of_blocks(text, spans).contains(d) <==> exists|i: int|
            0 <= i < spans.len() && block_names(
                text.subrange((#[trigger] spans[i]).0, spans[i].1),
            ).contains(d),
    decreases spans.len(),
{
    if spans.len() > 0 {
        let front = spans.drop_last();
        let last = spans.last();
        lemma_names_of_blocks_hold(text, front, d);
        lemma_names_of_blocks(text, front);
        lemma_block_names(text.subrange(last.0, last.1));
        lemma_merged(names_of_blocks(text, front), block_names(text.subrange(last.0, last.1)));
        if names_of_blocks(text, spans).contains(d) {
            if names_of_blocks(text, front).contains(d) {
                let i = choose|i: int|
                    0 <= i < front.len() && block_names(
                        text.subrange((#[trigger] front[i]).0, front[i].1),
                    ).contains(d);
                assert(spans[i] == front[i]);
            } else {
                assert(spans[spans.len() - 1] == last);
            }
        }
        if exists|i: int|
            0 <= i < spans.len() && block_names(
                text.subrange((#[trigger] spans[i]).0, spans[i].1),
            ).contains(d) {
            let i = choose|i: int|
                0 <= i < spans.len() && block_names(
                    text.subrange((#[trigger] spans[i]).0, spans[i].1),
                ).contains(d);
            if i < front.len() {
                assert(spans[i] == front[i]);
            }
        }
    } else {
        assert forall|x: Seq<u8>| !names_of_blocks(text, spans).contains(x) by {}
    }
}

/// The names that a tidy file blocks are the names of its blocks.
pub proof fn lemma_blocked_names_tidy(gaps: Seq<Seq<u8>>, blocks: Seq<Seq<u8>>, d: Seq<u8>)
    requires
        tidy(gaps, blocks),
    ensures
        blocked_names(document(gaps, blocks)).contains(d) <==> exists|i: int|
            0 <= i < blocks.len() && block_names(#[trigger] blocks[i]).contains(d),
{
    let none = Seq::<u8>::empty();
    let text = document(gaps, blocks);
    assert(none + text =~= text);
    lemma_spans_tidy(none, gaps, blocks);
    let spans = block_spans(text, 0);
    lemma_names_of_blocks_hold(text, spans, d);
    if blocked_names(text).contains(d) {
        let i = choose|i: int|
            0 <= i < spans.len() && block_names(
                text.subrange((#[trigger] spans[i]).0, spans[i].1),
            ).contains(d);
        assert(block_names(blocks[i]).contains(d));
    }
    if exists|i: int| 0 <= i < blocks.len() && block_names(#[trigger] blocks[i]).contains(d) {
        let i = choose|i: int|
            0 <= i < blocks.len() && block_names(#[trigger] blocks[i]).contains(d);
        assert(block_names(text.subrange(spans[i].0, spans[i].1)).contains(d));
    }
}

/// Clearing takes every block out of a tidy file and leaves its gaps, byte for byte
/// and in order.
pub proof fn lemma_clear_tidy(gaps: Seq<Seq<u8>>, blocks: Seq<Seq<u8>>)
    requires
        tidy(gaps, blocks),
    ensures
        swept(document(gaps, blocks), 0) == (flat(gaps), blocks.len(), false),
{
    assert forall|i: int| 0 <= i < blocks.len() implies clearable(#[trigger] blocks[i]) by {
        let b = blocks[i];
        assert(whole(b));
        lemma_marker_lengths();
        lemma_whole_ends(b);
        lemma_start_has_stem(b, 0);
        lemma_line_end(b, 0);
        let le = line_end(b, 0);
        assert(le + 1 <= b.len() - 19) by {
            reveal_strlit("# clusterbanned end");
            if le >= b.len() - 19 {
                assert(b[b.len() - 19 + (le - (b.len() - 19))] == end_marker()[le - (b.len() - 19)]);
            }
        }
        crate::text::lemma_find_from_is(b, end_marker(), le + 1, b.len() - 19);
    }
    assert forall|i: int| 0 <= i < blocks.len() implies quiet(#[trigger] gaps[i]) by {}
    assert(quiet(gaps[gaps.len() - 1]));
    lemma_clear_takes_blocks(gaps, blocks);
}

} // verus!
