//! What taking names away does to a tidy file: it changes one block and no other.

use crate::codec::{
    block_names, block_tag, encoded, lemma_block_names, lemma_marker_lengths, region_key,
    tag_of_line,
};
use crate::consistency::{
    blocked_names, disagrees, is_enabled, region_disagrees, selection_disagrees, Selection,
};
use crate::document::{found_block, tag_matches};
use crate::joined::is_token;
use crate::names::{kept, lemma_kept};
use crate::reconciler::remove_content;
use crate::settling::{lemma_encoded_firm, lemma_settled_tidy, settled_blocks, settled_gaps};
use crate::sweeping::quiet;
use crate::text::{
    blanked, collapsed, lemma_blanked_len, lemma_blanked_plain, lemma_find_from, lemma_token_len,
    lemma_trim_start_is_tail, lowered, token_len, trim_start,
};
use crate::tidy::{
    document, lemma_blocked_names_tidy, lemma_found_at, lemma_found_nowhere, lemma_spans_tidy,
    lemma_whole_encoded, spans_of, starts_line, tag_of, tidy, whole,
};
use crate::weaving::{
    before_block, behind_block, gaps_ended, lemma_ended_in_tidy, lemma_quiet_join, lemma_span_at,
    lemma_split, lemma_with_block, lemma_without_block, merged_gaps, other_blocks,
};
use vstd::prelude::*;

verus! {

/// Block `k` is the first that answers a search for `want`.
pub open spec fn first_answer(blocks: Seq<Seq<u8>>, want: Option<Seq<u8>>, k: int) -> bool {
    &&& 0 <= k < blocks.len()
    &&& tag_matches(tag_of(blocks[k]), want)
    &&& forall|j: int| 0 <= j < k ==> !tag_matches(tag_of(#[trigger] blocks[j]), want)
}

/// No block answers a search for `want`.
pub open spec fn no_answer(blocks: Seq<Seq<u8>>, want: Option<Seq<u8>>) -> bool {
    forall|j: int| 0 <= j < blocks.len() ==> !tag_matches(tag_of(#[trigger] blocks[j]), want)
}

/// What the blocks say: of each its region and its names.
pub open spec fn said(blocks: Seq<Seq<u8>>) -> Seq<(Option<Seq<u8>>, Seq<Seq<u8>>)> {
    Seq::new(blocks.len(), |i: int| (tag_of(blocks[i]), block_names(blocks[i])))
}

/// In a tidy file a search finds the first block that answers it, where it stands.
pub proof fn lemma_found_in_tidy(
    gaps: Seq<Seq<u8>>,
    blocks: Seq<Seq<u8>>,
    want: Option<Seq<u8>>,
    k: int,
)
    requires
        tidy(gaps, blocks),
        first_answer(blocks, want, k),
    ensures
        ({
            let text = document(gaps, blocks);
            let s = before_block(gaps, blocks, k).len() as int;
            let e = s + blocks[k].len();
            &&& found_block(text, want, 0) == Some((s, e))
            &&& text.take(s) == before_block(gaps, blocks, k)
            &&& text.skip(e) == behind_block(gaps, blocks, k)
            &&& text.subrange(s, e) == blocks[k]
            &&& block_tag(text, s) == tag_of(blocks[k])
        }),
{
    let none = Seq::<u8>::empty();
    let text = document(gaps, blocks);
    assert(none + text =~= text);
    lemma_spans_tidy(none, gaps, blocks);
    lemma_span_at(0, gaps, blocks, k);
    let spans = spans_of(0, gaps, blocks);
    assert forall|j: int| 0 <= j < k implies !tag_matches(
        block_tag(text, (#[trigger] spans[j]).0),
        want,
    ) by {
        assert(block_tag(text, spans[j].0) == tag_of(blocks[j]));
    }
    assert(block_tag(text, spans[k].0) == tag_of(blocks[k]));
    lemma_found_at(text, want, 0, k);
    lemma_split(gaps, blocks, k);
    let s = before_block(gaps, blocks, k).len() as int;
    let e = s + blocks[k].len();
    assert(text.take(s) =~= before_block(gaps, blocks, k));
    assert(text.skip(e) =~= behind_block(gaps, blocks, k));
}

/// In a tidy file a search that no block answers finds nothing.
pub proof fn lemma_not_found_in_tidy(
    gaps: Seq<Seq<u8>>,
    blocks: Seq<Seq<u8>>,
    want: Option<Seq<u8>>,
)
    requires
        tidy(gaps, blocks),
        no_answer(blocks, want),
    ensures
        found_block(document(gaps, blocks), want, 0) is None,
{
    let none = Seq::<u8>::empty();
    let text = document(gaps, blocks);
    assert(none + text =~= text);
    lemma_spans_tidy(none, gaps, blocks);
    let spans = spans_of(0, gaps, blocks);
    assert forall|j: int| 0 <= j < spans.len() implies !tag_matches(
        block_tag(text, (#[trigger] spans[j]).0),
        want,
    ) by {
        assert(block_tag(text, spans[j].0) == tag_of(blocks[j]));
    }
    lemma_found_nowhere(text, want, 0);
}

/// Where some block answers, one is the first to answer.
pub proof fn lemma_first_answer_exists(blocks: Seq<Seq<u8>>, want: Option<Seq<u8>>, j: int)
    requires
        0 <= j < blocks.len(),
        tag_matches(tag_of(blocks[j]), want),
    ensures
        exists|k: int| first_answer(blocks, want, k),
    decreases j,
{
    if forall|i: int| 0 <= i < j ==> !tag_matches(tag_of(#[trigger] blocks[i]), want) {
        assert(first_answer(blocks, want, j));
    } else {
        let i = choose|i: int| 0 <= i < j && tag_matches(tag_of(#[trigger] blocks[i]), want);
        lemma_first_answer_exists(blocks, want, i);
    }
}

/// A tidy file without one of its blocks is tidy.
pub proof fn lemma_tidy_without(gaps: Seq<Seq<u8>>, blocks: Seq<Seq<u8>>, k: int)
    requires
        tidy(gaps, blocks),
        0 <= k < blocks.len(),
    ensures
        tidy(merged_gaps(gaps, k), other_blocks(blocks, k)),
{
    let merged = merged_gaps(gaps, k);
    let others = other_blocks(blocks, k);
    assert(quiet(gaps[k]));
    assert(quiet(gaps[k + 1]));
    assert(starts_line(gaps[k + 1]));
    lemma_quiet_join(gaps[k], gaps[k + 1]);
    assert forall|i: int| 0 <= i < merged.len() implies quiet(#[trigger] merged[i]) by {
        if i < k {
            assert(merged[i] == gaps[i]);
        } else if i == k {
            assert(merged[i] == gaps[k] + gaps[k + 1]);
        } else {
            assert(merged[i] == gaps[i + 1]);
        }
    }
    assert forall|i: int| 1 <= i < merged.len() implies starts_line(#[trigger] merged[i]) by {
        if i < k {
            assert(merged[i] == gaps[i]);
        } else if i == k {
            assert(merged[i] == gaps[k] + gaps[k + 1]);
            assert(starts_line(gaps[k]));
            if gaps[k].len() > 0 {
                assert(merged[i][0] == gaps[k][0]);
            } else {
                assert(merged[i] =~= gaps[k + 1]);
            }
        } else {
            assert(merged[i] == gaps[i + 1]);
        }
    }
    assert forall|i: int| 0 <= i < others.len() implies whole(#[trigger] others[i]) by {
        if i < k {
            assert(others[i] == blocks[i]);
        } else {
            assert(others[i] == blocks[i + 1]);
        }
    }
}

/// A tidy file with another block in the place of one of its blocks is tidy.
pub proof fn lemma_tidy_with(gaps: Seq<Seq<u8>>, blocks: Seq<Seq<u8>>, k: int, x: Seq<u8>)
    requires
        tidy(gaps, blocks),
        0 <= k < blocks.len(),
        whole(x),
    ensures
        tidy(gaps, blocks.update(k, x)),
{
    let changed = blocks.update(k, x);
    assert forall|i: int| 0 <= i < changed.len() implies whole(#[trigger] changed[i]) by {
        if i != k {
            assert(changed[i] == blocks[i]);
        }
    }
}

/// The region that a line names is a token.
pub proof fn lemma_tag_is_token(line: Seq<u8>)
    ensures
        tag_of_line(line) matches Some(tag) ==> is_token(tag),
{
    let flat = blanked(line);
    match crate::text::find_from(flat, region_key(), 0) {
        None => {},
        Some(p) => {
            lemma_marker_lengths();
            lemma_find_from(flat, region_key(), 0);
            let behind = flat.skip(p + region_key().len());
            let rest = trim_start(behind);
            lemma_token_len(rest);
            lemma_blanked_len(line);
            lemma_trim_start_is_tail(behind);
            let a = p + region_key().len() + (behind.len() - rest.len());
            let n = token_len(rest) as int;
            assert(rest.take(n) =~= flat.subrange(a, a + n));
            lemma_blanked_plain(line, a, a + n);
        },
    }
}

/// The block with the names that stay when `gone` are taken away from it, written anew
/// under its own region.
pub open spec fn thinned(b: Seq<u8>, gone: Seq<Seq<u8>>) -> Seq<u8> {
    encoded(tag_of(b), kept(block_names(b), gone))
}

/// A block that keeps a name when names are taken away from it is a block again, names
/// the same region, and lists the names that stay.
pub proof fn lemma_thinned(b: Seq<u8>, gone: Seq<Seq<u8>>)
    requires
        whole(b),
        kept(block_names(b), gone).len() > 0,
    ensures
        whole(thinned(b, gone)),
        tag_of(thinned(b, gone)) == tag_of(b),
        block_names(thinned(b, gone)) == kept(block_names(b), gone),
        collapsed(thinned(b, gone)) == thinned(b, gone),
{
    let had = block_names(b);
    let left = kept(had, gone);
    lemma_block_names(b);
    lemma_kept(had, gone);
    assert forall|i: int| 0 <= i < left.len() implies is_token(#[trigger] left[i]) by {
        assert(left.contains(left[i]));
        assert(had.contains(left[i]));
        let m = choose|m: int| 0 <= m < had.len() && had[m] == left[i];
        assert(is_token(had[m]));
    }
    lemma_tag_is_token(b.subrange(0, crate::text::line_end(b, 0)));
    lemma_whole_encoded(tag_of(b), left);
    lemma_encoded_firm(tag_of(b), left);
}

/// The gaps of a tidy file after `gone` were taken away from the region, where block
/// `k` is the first that answers.
pub open spec fn gaps_after_remove(
    gaps: Seq<Seq<u8>>,
    blocks: Seq<Seq<u8>>,
    gone: Seq<Seq<u8>>,
    k: int,
) -> Seq<Seq<u8>> {
    let left = kept(block_names(blocks[k]), gone);
    if left.len() == block_names(blocks[k]).len() {
        gaps
    } else if left.len() == 0 {
        gaps_ended(settled_gaps(merged_gaps(gaps, k), 0))
    } else {
        gaps_ended(settled_gaps(gaps, 0))
    }
}

/// The blocks of a tidy file after `gone` were taken away from the region, where block
/// `k` is the first that answers.
pub open spec fn blocks_after_remove(blocks: Seq<Seq<u8>>, gone: Seq<Seq<u8>>, k: int) -> Seq<
    Seq<u8>,
> {
    let left = kept(block_names(blocks[k]), gone);
    if left.len() == block_names(blocks[k]).len() {
        blocks
    } else if left.len() == 0 {
        settled_blocks(other_blocks(blocks, k))
    } else {
        settled_blocks(blocks.update(k, thinned(blocks[k], gone)))
    }
}

/// What the blocks of a tidy file say after `gone` were taken away from the region,
/// where block `k` is the first that answers: that block keeps its region and the names
/// that were not taken, or is gone where none is left; every other block says what it
/// said.
pub open spec fn said_after_remove(blocks: Seq<Seq<u8>>, gone: Seq<Seq<u8>>, k: int) -> Seq<
    (Option<Seq<u8>>, Seq<Seq<u8>>),
> {
    let left = kept(block_names(blocks[k]), gone);
    if left.len() == block_names(blocks[k]).len() {
        said(blocks)
    } else if left.len() == 0 {
        said(blocks).take(k) + said(blocks).skip(k + 1)
    } else {
        said(blocks).update(k, (tag_of(blocks[k]), left))
    }
}

/// The text after names were taken away: what was written, or the text as it was where
/// nothing was written.
pub open spec fn after_remove(text: Seq<u8>, want: Option<Seq<u8>>, gone: Seq<Seq<u8>>) -> Seq<u8> {
    match remove_content(text, want, gone) {
        Some(content) => content,
        None => text,
    }
}

/// Taking names away from a region of a tidy file changes the block of that region and
/// nothing else.
///
/// The file that is left is tidy again. Its blocks say what the blocks said that were
/// there, in the same order, but for the first block that answers the region: that
/// block keeps its region and the names that were not taken away, and is gone where
/// none is left. Nothing is written where none of the names was in that block.
pub proof fn lemma_remove_in_tidy(
    gaps: Seq<Seq<u8>>,
    blocks: Seq<Seq<u8>>,
    want: Option<Seq<u8>>,
    gone: Seq<Seq<u8>>,
    k: int,
)
    requires
        tidy(gaps, blocks),
        first_answer(blocks, want, k),
    ensures
        after_remove(document(gaps, blocks), want, gone) == document(
            gaps_after_remove(gaps, blocks, gone, k),
            blocks_after_remove(blocks, gone, k),
        ),
        tidy(gaps_after_remove(gaps, blocks, gone, k), blocks_after_remove(blocks, gone, k)),
        said(blocks_after_remove(blocks, gone, k)) == said_after_remove(blocks, gone, k),
        remove_content(document(gaps, blocks), want, gone) is None <==> kept(
            block_names(blocks[k]),
            gone,
        ).len() == block_names(blocks[k]).len(),
{
    let text = document(gaps, blocks);
    let left = kept(block_names(blocks[k]), gone);
    let none = Seq::<u8>::empty();
    lemma_found_in_tidy(gaps, blocks, want, k);
    lemma_block_names(blocks[k]);
    lemma_kept(block_names(blocks[k]), gone);
    let s = before_block(gaps, blocks, k).len() as int;
    let e = s + blocks[k].len();
    if left.len() == block_names(blocks[k]).len() {
    } else if left.len() == 0 {
        let others = other_blocks(blocks, k);
        assert(encoded(tag_of(blocks[k]), left) =~= none);
        assert(text.take(s) + none + text.skip(e) =~= before_block(gaps, blocks, k)
            + behind_block(gaps, blocks, k));
        lemma_without_block(gaps, blocks, k);
        lemma_tidy_without(gaps, blocks, k);
        lemma_settled_tidy(merged_gaps(gaps, k), others);
        lemma_ended_in_tidy(settled_gaps(merged_gaps(gaps, k), 0), settled_blocks(others));
        assert(said(settled_blocks(others)) =~= said(blocks).take(k) + said(blocks).skip(k + 1)) by {
            assert forall|i: int| 0 <= i < others.len() implies said(settled_blocks(others))[i] == (
            said(blocks).take(k) + said(blocks).skip(k + 1))[i] by {
                if i < k {
                    assert(others[i] == blocks[i]);
                } else {
                    assert(others[i] == blocks[i + 1]);
                }
            }
        }
    } else {
        let x = thinned(blocks[k], gone);
        let changed = blocks.update(k, x);
        lemma_thinned(blocks[k], gone);
        lemma_with_block(gaps, blocks, k, x);
        lemma_tidy_with(gaps, blocks, k, x);
        lemma_settled_tidy(gaps, changed);
        lemma_ended_in_tidy(settled_gaps(gaps, 0), settled_blocks(changed));
        assert(said(settled_blocks(changed)) =~= said(blocks).update(
            k,
            (tag_of(blocks[k]), left),
        )) by {
            assert forall|i: int| 0 <= i < changed.len() implies said(settled_blocks(changed))[i]
                == said(blocks).update(k, (tag_of(blocks[k]), left))[i] by {
                if i != k {
                    assert(changed[i] == blocks[i]);
                }
            }
        }
    }
}

/// Where no block answers the region, taking names away changes nothing.
pub proof fn lemma_remove_without_answer(
    gaps: Seq<Seq<u8>>,
    blocks: Seq<Seq<u8>>,
    want: Option<Seq<u8>>,
    gone: Seq<Seq<u8>>,
)
    requires
        tidy(gaps, blocks),
        no_answer(blocks, want),
    ensures
        remove_content(document(gaps, blocks), want, gone) is None,
{
    lemma_not_found_in_tidy(gaps, blocks, want);
}

/// A name that was taken away from its region is blocked no more.
///
/// Take a tidy file and a name that no block lists but, at most, the first block that
/// answers the region. After the name was taken away from the region, with or without
/// other names, no block of the file lists it.
pub proof fn lemma_removed_name_is_free(
    gaps: Seq<Seq<u8>>,
    blocks: Seq<Seq<u8>>,
    want: Option<Seq<u8>>,
    gone: Seq<Seq<u8>>,
    d: Seq<u8>,
)
    requires
        tidy(gaps, blocks),
        gone.contains(d),
        forall|i: int|
            0 <= i < blocks.len() && block_names(#[trigger] blocks[i]).contains(d)
                ==> first_answer(blocks, want, i),
    ensures
        !blocked_names(after_remove(document(gaps, blocks), want, gone)).contains(d),
{
    if exists|k: int| first_answer(blocks, want, k) {
        let k = choose|k: int| first_answer(blocks, want, k);
        lemma_remove_in_tidy(gaps, blocks, want, gone, k);
        let gaps2 = gaps_after_remove(gaps, blocks, gone, k);
        let blocks2 = blocks_after_remove(blocks, gone, k);
        lemma_blocked_names_tidy(gaps2, blocks2, d);
        lemma_block_names(blocks[k]);
        lemma_kept(block_names(blocks[k]), gone);
        let left = kept(block_names(blocks[k]), gone);
        let told = said(blocks2);
        assert forall|i: int| 0 <= i < blocks2.len() implies !block_names(
            #[trigger] blocks2[i],
        ).contains(d) by {
            assert(told[i].1 == block_names(blocks2[i]));
            if left.len() == block_names(blocks[k]).len() {
                if block_names(blocks[i]).contains(d) {
                    assert(first_answer(blocks, want, i));
                    assert(i == k);
                }
            } else if left.len() == 0 {
                let j = if i < k {
                    i
                } else {
                    i + 1
                };
                assert(told[i] == said(blocks)[j]);
                if block_names(blocks[j]).contains(d) {
                    assert(first_answer(blocks, want, j));
                }
            } else {
                if i != k {
                    assert(told[i] == said(blocks)[i]);
                    if block_names(blocks[i]).contains(d) {
                        assert(first_answer(blocks, want, i));
                    }
                } else {
                    assert(told[i].1 == left);
                }
            }
        }
    } else {
        assert forall|j: int| 0 <= j < blocks.len() implies !tag_matches(
            tag_of(#[trigger] blocks[j]),
            want,
        ) by {
            if tag_matches(tag_of(blocks[j]), want) {
                lemma_first_answer_exists(blocks, want, j);
            }
        }
        lemma_remove_without_answer(gaps, blocks, want, gone);
        lemma_blocked_names_tidy(gaps, blocks, d);
        assert forall|i: int| 0 <= i < blocks.len() implies !block_names(
            #[trigger] blocks[i],
        ).contains(d) by {
            if block_names(blocks[i]).contains(d) {
                assert(first_answer(blocks, want, i));
            }
        }
    }
}

/// Taking names away from one region leaves the block of another region as it is.
///
/// In a tidy file let block `k` be the first that answers the region `want`, and block
/// `j`, another block, the first that names the region `other`. After names were taken
/// away from `want`, a search for `other` still finds a block, and it names the same
/// region and lists the same names as before.
pub proof fn lemma_remove_keeps_other_region(
    gaps: Seq<Seq<u8>>,
    blocks: Seq<Seq<u8>>,
    want: Option<Seq<u8>>,
    gone: Seq<Seq<u8>>,
    k: int,
    other: Seq<u8>,
    j: int,
)
    requires
        tidy(gaps, blocks),
        first_answer(blocks, want, k),
        first_answer(blocks, Some(other), j),
        j != k,
    ensures
        ({
            let after = after_remove(document(gaps, blocks), want, gone);
            match found_block(after, Some(other), 0) {
                Some((s, e)) => block_tag(after, s) == Some(other) && block_names(
                    after.subrange(s, e),
                ) == block_names(blocks[j]),
                None => false,
            }
        }),
{
    lemma_remove_in_tidy(gaps, blocks, want, gone, k);
    let gaps2 = gaps_after_remove(gaps, blocks, gone, k);
    let blocks2 = blocks_after_remove(blocks, gone, k);
    let left = kept(block_names(blocks[k]), gone);
    let told = said(blocks2);
    let at = if left.len() != block_names(blocks[k]).len() && left.len() == 0 && j > k {
        j - 1
    } else {
        j
    };
    assert(told[at] == said(blocks)[j]);
    assert(first_answer(blocks2, Some(other), at)) by {
        assert forall|i: int| 0 <= i < at implies !tag_matches(
            tag_of(#[trigger] blocks2[i]),
            Some(other),
        ) by {
            assert(told[i].0 == tag_of(blocks2[i]));
            if left.len() == block_names(blocks[k]).len() {
            } else if left.len() == 0 {
                let from = if i < k {
                    i
                } else {
                    i + 1
                };
                assert(told[i] == said(blocks)[from]);
            } else {
                if i != k {
                    assert(told[i] == said(blocks)[i]);
                }
            }
        }
    }
    lemma_found_in_tidy(gaps2, blocks2, Some(other), at);
}

/// After a name was taken away from its region, a check that wants it reachable finds
/// no mismatch.
///
/// The file is tidy, and no block lists the name but, at most, the first block that
/// answers the region. The selection holds one choice: the name, enabled.
pub proof fn lemma_check_after_remove(
    gaps: Seq<Seq<u8>>,
    blocks: Seq<Seq<u8>>,
    region: Seq<u8>,
    gone: Seq<Seq<u8>>,
    selection: Selection,
)
    requires
        tidy(gaps, blocks),
        selection.regions@.len() == 1,
        selection.regions@[0].region@ == region,
        selection.regions@[0].choices@.len() == 1,
        is_enabled(selection.regions@[0].choices@[0].enabled),
        gone.contains(lowered(selection.regions@[0].choices@[0].domain@)),
        forall|i: int|
            0 <= i < blocks.len() && block_names(#[trigger] blocks[i]).contains(
                lowered(selection.regions@[0].choices@[0].domain@),
            ) ==> first_answer(blocks, Some(region), i),
    ensures
        !selection_disagrees(
            blocked_names(after_remove(document(gaps, blocks), Some(region), gone)),
            selection,
        ),
{
    let d = lowered(selection.regions@[0].choices@[0].domain@);
    lemma_removed_name_is_free(gaps, blocks, Some(region), gone, d);
    let blocked = blocked_names(after_remove(document(gaps, blocks), Some(region), gone));
    assert(!disagrees(blocked, selection.regions@[0].choices@[0]));
    assert(!region_disagrees(blocked, selection.regions@[0]));
}

} // verus!
