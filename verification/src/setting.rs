//! What setting the names of a region does to a tidy file, and that doing it twice is
//! doing it once.

use crate::codec::{block_names, block_tag, encoded};
use crate::consistency::{blocked_names, is_enabled, selection_disagrees, Selection};
use crate::document::{block_appended, found_block, tag_matches};
use crate::joined::{all_tokens, is_token};
use crate::names::is_name_list;
use crate::reconciler::{set_content, without_block};
use crate::removing::{
    after_remove, first_answer, lemma_check_after_remove, lemma_first_answer_exists,
    lemma_found_in_tidy, lemma_not_found_in_tidy, lemma_tidy_without, no_answer, said,
};
use crate::settling::{
    lemma_collapsed_head, lemma_run_after_solid, lemma_settled_tidy, lemma_squash_join,
    lemma_squash_twice, settled_blocks, settled_gaps,
};
use crate::sweeping::quiet;
use crate::text::{chomped, collapsed, lowered, squash, NEWLINE};
use crate::tidy::{
    document, lemma_blocked_names_tidy, lemma_whole_encoded, starts_line, tag_of, tidy, whole,
};
use crate::weaving::{
    before_block, before_last_gap, behind_block, lemma_before_last_gap_ends, lemma_chomped_behind,
    gaps_ended, lemma_chomped_is_head, lemma_ended_in_tidy, lemma_join_block, lemma_last_gap,
    lemma_line_feeds_quiet, lemma_quiet_head, lemma_quiet_join, lemma_without_block, merged_gaps,
    other_blocks,
};
use vstd::prelude::*;

verus! {

/// A text without runs of line feeds and without line feed at its end comes back when
/// three line feeds are put behind it, the runs are cut down, and the line feeds at the
/// end are taken away.
pub proof fn lemma_three_line_feeds(t: Seq<u8>)
    requires
        collapsed(t) == t,
        t.len() > 0 ==> t.last() != NEWLINE,
    ensures
        chomped(collapsed(t + seq![NEWLINE, NEWLINE, NEWLINE])) == t,
{
    let three = seq![NEWLINE, NEWLINE, NEWLINE];
    let two = seq![NEWLINE, NEWLINE];
    let one = seq![NEWLINE];
    let none = Seq::<u8>::empty();
    assert(squash(three, 0) =~= two) by {
        assert(three.drop_first() =~= two);
        assert(two.drop_first() =~= one);
        assert(one.drop_first() =~= none);
        assert(squash(none, 2) =~= none);
        assert(squash(one, 2) == squash(one.drop_first(), 2));
        assert(squash(two, 1) == seq![NEWLINE] + squash(two.drop_first(), 2));
        assert(squash(three, 0) == seq![NEWLINE] + squash(three.drop_first(), 1));
    }
    assert(chomped(two) =~= none) by {
        assert(two.drop_last() =~= one);
        assert(one.drop_last() =~= none);
        assert(chomped(none) =~= none);
        assert(chomped(one) == chomped(one.drop_last()));
        assert(chomped(two) == chomped(two.drop_last()));
    }
    if t.len() == 0 {
        assert(t + three =~= three);
    } else {
        lemma_squash_join(t, three, 0);
        lemma_run_after_solid(t, 0);
        lemma_chomped_behind(t, two);
        assert(t + none =~= t);
    }
}

/// The gaps of a tidy file once the first block that answers, block `k`, is taken out;
/// `None` stands for a file in which no block answers.
pub open spec fn gaps_without(gaps: Seq<Seq<u8>>, k: Option<int>) -> Seq<Seq<u8>> {
    match k {
        Some(k) => settled_gaps(merged_gaps(gaps, k), 0),
        None => gaps,
    }
}

/// The blocks of a tidy file once the first block that answers is taken out.
pub open spec fn blocks_without(blocks: Seq<Seq<u8>>, k: Option<int>) -> Seq<Seq<u8>> {
    match k {
        Some(k) => settled_blocks(other_blocks(blocks, k)),
        None => blocks,
    }
}

/// What the blocks say once the first block that answers is taken out: what the others
/// said.
pub open spec fn said_without(blocks: Seq<Seq<u8>>, k: Option<int>) -> Seq<
    (Option<Seq<u8>>, Seq<Seq<u8>>),
> {
    match k {
        Some(k) => said(blocks).take(k) + said(blocks).skip(k + 1),
        None => said(blocks),
    }
}

/// The gaps of a file with a new block at its end: the last gap loses the line feeds at
/// its end and gets two, and one line feed stands behind the new block.
pub open spec fn gaps_appended(gaps: Seq<Seq<u8>>) -> Seq<Seq<u8>> {
    gaps.drop_last().push(chomped(gaps.last()) + seq![NEWLINE, NEWLINE]).push(seq![NEWLINE])
}

/// `k` says which block is the first to answer, or that none does.
pub open spec fn answer_is(blocks: Seq<Seq<u8>>, want: Option<Seq<u8>>, k: Option<int>) -> bool {
    match k {
        Some(k) => first_answer(blocks, want, k),
        None => no_answer(blocks, want),
    }
}

/// Taking the block of a region out of a tidy file leaves a tidy file in which the
/// other blocks say what they said.
pub proof fn lemma_without_in_tidy(
    gaps: Seq<Seq<u8>>,
    blocks: Seq<Seq<u8>>,
    want: Option<Seq<u8>>,
    k: Option<int>,
)
    requires
        tidy(gaps, blocks),
        answer_is(blocks, want, k),
    ensures
        without_block(document(gaps, blocks), want) == document(
            gaps_without(gaps, k),
            blocks_without(blocks, k),
        ),
        tidy(gaps_without(gaps, k), blocks_without(blocks, k)),
        said(blocks_without(blocks, k)) == said_without(blocks, k),
        found_block(document(gaps, blocks), want, 0) is Some <==> k is Some,
        k is Some ==> collapsed(without_block(document(gaps, blocks), want)) == without_block(
            document(gaps, blocks),
            want,
        ),
{
    let text = document(gaps, blocks);
    let none = Seq::<u8>::empty();
    match k {
        Some(k) => {
            lemma_found_in_tidy(gaps, blocks, want, k);
            let others = other_blocks(blocks, k);
            let s = before_block(gaps, blocks, k).len() as int;
            let e = s + blocks[k].len();
            assert(text.take(s) + none + text.skip(e) =~= before_block(gaps, blocks, k)
                + behind_block(gaps, blocks, k));
            lemma_without_block(gaps, blocks, k);
            lemma_tidy_without(gaps, blocks, k);
            lemma_settled_tidy(merged_gaps(gaps, k), others);
            lemma_squash_twice(text.take(s) + none + text.skip(e), 0);
            assert(said(settled_blocks(others)) =~= said(blocks).take(k) + said(blocks).skip(
                k + 1,
            )) by {
                assert forall|i: int| 0 <= i < others.len() implies said(settled_blocks(others))[i]
                    == (said(blocks).take(k) + said(blocks).skip(k + 1))[i] by {
                    if i < k {
                        assert(others[i] == blocks[i]);
                    } else {
                        assert(others[i] == blocks[i + 1]);
                    }
                }
            }
        },
        None => {
            lemma_not_found_in_tidy(gaps, blocks, want);
        },
    }
}

/// A block at the end of a tidy file makes a tidy file with one block more.
pub proof fn lemma_append_in_tidy(gaps: Seq<Seq<u8>>, blocks: Seq<Seq<u8>>, x: Seq<u8>)
    requires
        tidy(gaps, blocks),
        whole(x),
    ensures
        block_appended(document(gaps, blocks), x) == document(gaps_appended(gaps), blocks.push(x)),
        tidy(gaps_appended(gaps), blocks.push(x)),
        before_block(gaps_appended(gaps), blocks.push(x), blocks.len() as int) == chomped(
            document(gaps, blocks),
        ) + seq![NEWLINE, NEWLINE],
        behind_block(gaps_appended(gaps), blocks.push(x), blocks.len() as int) == seq![NEWLINE],
{
    let text = document(gaps, blocks);
    let two = seq![NEWLINE, NEWLINE];
    let one = seq![NEWLINE];
    let last = gaps.last();
    let new_last = chomped(last) + two;
    let head_gaps = gaps.drop_last().push(new_last);
    let all_gaps = gaps_appended(gaps);
    let all_blocks = blocks.push(x);
    let none_blocks = Seq::<Seq<u8>>::empty();
    let n = blocks.len() as int;
    // The text without the line feeds at its end.
    lemma_last_gap(gaps, blocks, new_last);
    lemma_before_last_gap_ends(gaps, blocks);
    let before = before_last_gap(gaps, blocks);
    if blocks.len() > 0 {
        lemma_chomped_behind(before, last);
    } else {
        assert(before + last =~= last);
        assert(before + chomped(last) =~= chomped(last));
    }
    assert(chomped(text) == before + chomped(last));
    assert(document(head_gaps, blocks) =~= chomped(text) + two);
    // The new block and the line feed behind it.
    let tail_gaps = seq![one];
    assert(document(tail_gaps, none_blocks) == one);
    lemma_join_block(head_gaps, blocks, x, tail_gaps, none_blocks);
    assert(head_gaps + tail_gaps =~= all_gaps);
    assert(blocks + seq![x] + none_blocks =~= all_blocks);
    assert(block_appended(text, x) =~= document(head_gaps, blocks) + x + one);
    // The new gaps are quiet and begin their lines.
    lemma_line_feeds_quiet();
    lemma_chomped_is_head(last);
    assert(quiet(last));
    lemma_quiet_head(last, chomped(last).len() as int);
    lemma_quiet_join(chomped(last), two);
    assert forall|i: int| 0 <= i < all_gaps.len() implies quiet(#[trigger] all_gaps[i]) by {
        if i < n {
            assert(all_gaps[i] == gaps[i]);
        }
    }
    assert forall|i: int| 1 <= i < all_gaps.len() implies starts_line(#[trigger] all_gaps[i]) by {
        if i < n {
            assert(all_gaps[i] == gaps[i]);
        } else if i == n {
            assert(all_gaps[i] == new_last);
            assert(starts_line(gaps[n]));
            if chomped(last).len() > 0 {
                assert(new_last[0] == chomped(last)[0]);
                assert(chomped(last)[0] == last[0]);
            } else {
                assert(new_last =~= two);
            }
        }
    }
    assert forall|i: int| 0 <= i < all_blocks.len() implies whole(#[trigger] all_blocks[i]) by {
        if i < n {
            assert(all_blocks[i] == blocks[i]);
        }
    }
    // What stands before and behind the new block.
    assert(all_gaps.take(n + 1) =~= head_gaps);
    assert(all_blocks.take(n) =~= blocks);
    assert(all_gaps.skip(n + 1) =~= tail_gaps);
    assert(all_blocks.skip(n + 1) =~= none_blocks);
}

/// The text after names were set: what was written, or the text as it was where
/// nothing was written.
pub open spec fn after_set(text: Seq<u8>, want: Option<Seq<u8>>, names: Seq<Seq<u8>>) -> Seq<u8> {
    match set_content(text, want, names) {
        Some(content) => content,
        None => text,
    }
}

/// The gaps of a tidy file after names were set for a region.
pub open spec fn gaps_after_set(gaps: Seq<Seq<u8>>, names: Seq<Seq<u8>>, k: Option<int>) -> Seq<
    Seq<u8>,
> {
    if names.len() > 0 {
        gaps_appended(gaps_without(gaps, k))
    } else if k is Some {
        gaps_ended(gaps_without(gaps, k))
    } else {
        gaps
    }
}

/// The blocks of a tidy file after names were set for a region.
pub open spec fn blocks_after_set(
    blocks: Seq<Seq<u8>>,
    want: Option<Seq<u8>>,
    names: Seq<Seq<u8>>,
    k: Option<int>,
) -> Seq<Seq<u8>> {
    if names.len() > 0 {
        blocks_without(blocks, k).push(encoded(want, names))
    } else {
        blocks_without(blocks, k)
    }
}

/// What the blocks of a tidy file say after names were set for a region: what the
/// other blocks said, and behind them, where names were given, the region and the
/// names.
pub open spec fn said_after_set(
    blocks: Seq<Seq<u8>>,
    want: Option<Seq<u8>>,
    names: Seq<Seq<u8>>,
    k: Option<int>,
) -> Seq<(Option<Seq<u8>>, Seq<Seq<u8>>)> {
    if names.len() > 0 {
        said_without(blocks, k).push((want, names))
    } else {
        said_without(blocks, k)
    }
}

/// The names and the region can be written: they are a set of tokens, and a token.
pub open spec fn writable(want: Option<Seq<u8>>, names: Seq<Seq<u8>>) -> bool {
    &&& is_name_list(names)
    &&& all_tokens(names)
    &&& want matches Some(tag) ==> is_token(tag)
}

/// Setting the names of a region in a tidy file leaves every other block as it is and
/// puts the block of the region at the end.
///
/// The file that is left is tidy. Its blocks say what the blocks said that were there,
/// but the first that answered the region, in the same order; and behind them, where
/// names were given, stands the new block with the region and the names.
pub proof fn lemma_set_in_tidy(
    gaps: Seq<Seq<u8>>,
    blocks: Seq<Seq<u8>>,
    want: Option<Seq<u8>>,
    names: Seq<Seq<u8>>,
    k: Option<int>,
)
    requires
        tidy(gaps, blocks),
        answer_is(blocks, want, k),
        writable(want, names),
    ensures
        after_set(document(gaps, blocks), want, names) == document(
            gaps_after_set(gaps, names, k),
            blocks_after_set(blocks, want, names, k),
        ),
        tidy(gaps_after_set(gaps, names, k), blocks_after_set(blocks, want, names, k)),
        said(blocks_after_set(blocks, want, names, k)) == said_after_set(blocks, want, names, k),
{
    lemma_without_in_tidy(gaps, blocks, want, k);
    if names.len() > 0 {
        let x = encoded(want, names);
        lemma_whole_encoded(want, names);
        lemma_append_in_tidy(gaps_without(gaps, k), blocks_without(blocks, k), x);
        let others = blocks_without(blocks, k);
        assert(said(others.push(x)) =~= said(others).push((want, names))) by {
            assert forall|i: int| 0 <= i < others.len() + 1 implies said(others.push(x))[i]
                == said(others).push((want, names))[i] by {
                if i < others.len() {
                    assert(others.push(x)[i] == others[i]);
                }
            }
        }
    } else if k is Some {
        lemma_ended_in_tidy(gaps_without(gaps, k), blocks_without(blocks, k));
    }
}

/// At most one block answers a search for `want`.
pub open spec fn one_answer_at_most(blocks: Seq<Seq<u8>>, want: Option<Seq<u8>>) -> bool {
    forall|i: int, j: int|
        0 <= i < blocks.len() && 0 <= j < blocks.len() && tag_matches(
            tag_of(#[trigger] blocks[i]),
            want,
        ) && tag_matches(tag_of(#[trigger] blocks[j]), want) ==> i == j
}

/// The first block that answers, if any does.
proof fn lemma_answer(blocks: Seq<Seq<u8>>, want: Option<Seq<u8>>) -> (k: Option<int>)
    ensures
        answer_is(blocks, want, k),
{
    if exists|k: int| first_answer(blocks, want, k) {
        Some(choose|k: int| first_answer(blocks, want, k))
    } else {
        assert forall|j: int| 0 <= j < blocks.len() implies !tag_matches(
            tag_of(#[trigger] blocks[j]),
            want,
        ) by {
            if tag_matches(tag_of(blocks[j]), want) {
                lemma_first_answer_exists(blocks, want, j);
            }
        }
        None
    }
}

/// Where at most one block answers, none answers once the first that answers is gone.
proof fn lemma_no_answer_left(
    gaps: Seq<Seq<u8>>,
    blocks: Seq<Seq<u8>>,
    want: Option<Seq<u8>>,
    k: Option<int>,
)
    requires
        tidy(gaps, blocks),
        answer_is(blocks, want, k),
        one_answer_at_most(blocks, want),
    ensures
        no_answer(blocks_without(blocks, k), want),
{
    let left = blocks_without(blocks, k);
    lemma_without_in_tidy(gaps, blocks, want, k);
    match k {
        Some(at) => {
            assert forall|j: int| 0 <= j < left.len() implies !tag_matches(
                tag_of(#[trigger] left[j]),
                want,
            ) by {
                let i = if j < at {
                    j
                } else {
                    j + 1
                };
                assert(said(left)[j] == said(blocks)[i]);
                if tag_matches(tag_of(blocks[i]), want) {
                    assert(tag_matches(tag_of(blocks[at]), want));
                }
            }
        },
        None => {},
    }
}

/// A text that ends with a block for the region, two line feeds before it and one
/// behind it, is written again as it is when the block is found where it stands.
proof fn lemma_rejoined(
    kept_text: Seq<u8>,
    once: Seq<u8>,
    want: Option<Seq<u8>>,
    names: Seq<Seq<u8>>,
)
    requires
        names.len() > 0,
        once == kept_text + seq![NEWLINE, NEWLINE] + encoded(want, names) + seq![NEWLINE],
        found_block(once, want, 0) == Some(
            (
                (kept_text.len() + 2) as int,
                (kept_text.len() + 2 + encoded(want, names).len()) as int,
            ),
        ),
        chomped(collapsed(kept_text + seq![NEWLINE, NEWLINE, NEWLINE])) == kept_text,
    ensures
        set_content(once, want, names) == Some(once),
{
    let block = encoded(want, names);
    let s = (kept_text.len() + 2) as int;
    let e = s + block.len();
    let none = Seq::<u8>::empty();
    let three = seq![NEWLINE, NEWLINE, NEWLINE];
    assert(once.take(s) + none + once.skip(e) =~= kept_text + three);
    assert(without_block(once, want) == collapsed(kept_text + three));
    assert(block_appended(without_block(once, want), block) =~= once);
}

/// In a tidy file without runs of line feeds in which no block answers the region,
/// setting the names again, once they were set, writes the same text.
proof fn lemma_set_again(
    gaps: Seq<Seq<u8>>,
    blocks: Seq<Seq<u8>>,
    want: Option<Seq<u8>>,
    names: Seq<Seq<u8>>,
)
    requires
        tidy(gaps, blocks),
        no_answer(blocks, want),
        collapsed(document(gaps, blocks)) == document(gaps, blocks),
        names.len() > 0,
        writable(want, names),
    ensures
        set_content(
            block_appended(document(gaps, blocks), encoded(want, names)),
            want,
            names,
        ) == Some(block_appended(document(gaps, blocks), encoded(want, names))),
{
    let base = document(gaps, blocks);
    let x = encoded(want, names);
    let m = blocks.len() as int;
    let gaps1 = gaps_appended(gaps);
    let blocks1 = blocks.push(x);
    lemma_whole_encoded(want, names);
    lemma_append_in_tidy(gaps, blocks, x);
    let once = document(gaps1, blocks1);
    assert(first_answer(blocks1, want, m)) by {
        assert(blocks1[m] == x);
        assert forall|j: int| 0 <= j < m implies !tag_matches(tag_of(#[trigger] blocks1[j]), want) by {
            assert(blocks1[j] == blocks[j]);
        }
    }
    lemma_found_in_tidy(gaps1, blocks1, want, m);
    let kept_text = chomped(base);
    lemma_chomped_is_head(base);
    lemma_collapsed_head(base, kept_text.len() as int);
    lemma_three_line_feeds(kept_text);
    lemma_rejoined(kept_text, once, want, names);
}

/// Setting the names of a region twice is setting them once.
///
/// This holds of a tidy file in which at most one block answers the region, and of
/// names and a region that are tokens. Where no block answers the region, the file
/// must hold no run of three line feeds: the first time leaves such a run alone, since
/// it replaces nothing, and the second time cuts it down.
pub proof fn lemma_set_twice(
    gaps: Seq<Seq<u8>>,
    blocks: Seq<Seq<u8>>,
    want: Option<Seq<u8>>,
    names: Seq<Seq<u8>>,
)
    requires
        tidy(gaps, blocks),
        writable(want, names),
        one_answer_at_most(blocks, want),
        no_answer(blocks, want) ==> collapsed(document(gaps, blocks)) == document(gaps, blocks),
    ensures
        after_set(after_set(document(gaps, blocks), want, names), want, names) == after_set(
            document(gaps, blocks),
            want,
            names,
        ),
{
    let k = lemma_answer(blocks, want);
    let gaps_w = gaps_without(gaps, k);
    let blocks_w = blocks_without(blocks, k);
    lemma_without_in_tidy(gaps, blocks, want, k);
    lemma_no_answer_left(gaps, blocks, want, k);
    lemma_set_in_tidy(gaps, blocks, want, names, k);
    if names.len() == 0 {
        lemma_not_found_in_tidy(gaps_after_set(gaps, names, k), blocks_w, want);
    } else {
        lemma_set_again(gaps_w, blocks_w, want, names);
    }
}

/// Setting names for a region blocks just these names there.
///
/// In a tidy file in which at most one block answers the region, once names were set
/// for it a search for the region finds a block that names the region and lists just
/// the names; and every one of the names is among the names that the file blocks.
pub proof fn lemma_set_takes_effect(
    gaps: Seq<Seq<u8>>,
    blocks: Seq<Seq<u8>>,
    want: Option<Seq<u8>>,
    names: Seq<Seq<u8>>,
)
    requires
        tidy(gaps, blocks),
        writable(want, names),
        names.len() > 0,
        one_answer_at_most(blocks, want),
    ensures
        ({
            let after = after_set(document(gaps, blocks), want, names);
            &&& match found_block(after, want, 0) {
                Some((s, e)) => block_tag(after, s) == want && block_names(after.subrange(s, e))
                    == names,
                None => false,
            }
            &&& forall|d: Seq<u8>| names.contains(d) ==> blocked_names(after).contains(d)
        }),
{
    let k = lemma_answer(blocks, want);
    lemma_no_answer_left(gaps, blocks, want, k);
    lemma_set_in_tidy(gaps, blocks, want, names, k);
    let gaps2 = gaps_after_set(gaps, names, k);
    let blocks2 = blocks_after_set(blocks, want, names, k);
    let others = blocks_without(blocks, k);
    let m = others.len() as int;
    lemma_whole_encoded(want, names);
    assert(blocks2[m] == encoded(want, names));
    assert(first_answer(blocks2, want, m)) by {
        assert forall|j: int| 0 <= j < m implies !tag_matches(tag_of(#[trigger] blocks2[j]), want) by {
            assert(blocks2[j] == others[j]);
        }
    }
    lemma_found_in_tidy(gaps2, blocks2, want, m);
    assert forall|d: Seq<u8>| names.contains(d) implies blocked_names(
        after_set(document(gaps, blocks), want, names),
    ).contains(d) by {
        lemma_blocked_names_tidy(gaps2, blocks2, d);
        assert(block_names(blocks2[m]).contains(d));
    }
}

/// Once a name was set for a region and then taken away from it, a check that wants
/// the name reachable finds no mismatch.
///
/// The file is tidy, at most one of its blocks answers the region, and no block of
/// another region lists the name. The selection holds one choice: the name, enabled.
pub proof fn lemma_check_after_set_and_remove(
    gaps: Seq<Seq<u8>>,
    blocks: Seq<Seq<u8>>,
    region: Seq<u8>,
    names: Seq<Seq<u8>>,
    gone: Seq<Seq<u8>>,
    selection: Selection,
)
    requires
        tidy(gaps, blocks),
        writable(Some(region), names),
        one_answer_at_most(blocks, Some(region)),
        selection.regions@.len() == 1,
        selection.regions@[0].region@ == region,
        selection.regions@[0].choices@.len() == 1,
        is_enabled(selection.regions@[0].choices@[0].enabled),
        names.contains(lowered(selection.regions@[0].choices@[0].domain@)),
        gone.contains(lowered(selection.regions@[0].choices@[0].domain@)),
        forall|i: int|
            0 <= i < blocks.len() && block_names(#[trigger] blocks[i]).contains(
                lowered(selection.regions@[0].choices@[0].domain@),
            ) ==> tag_matches(tag_of(blocks[i]), Some(region)),
    ensures
        !selection_disagrees(
            blocked_names(
                after_remove(
                    after_set(document(gaps, blocks), Some(region), names),
                    Some(region),
                    gone,
                ),
            ),
            selection,
        ),
{
    let want = Some(region);
    let d = lowered(selection.regions@[0].choices@[0].domain@);
    let k = lemma_answer(blocks, want);
    lemma_no_answer_left(gaps, blocks, want, k);
    lemma_without_in_tidy(gaps, blocks, want, k);
    lemma_set_in_tidy(gaps, blocks, want, names, k);
    let gaps2 = gaps_after_set(gaps, names, k);
    let blocks2 = blocks_after_set(blocks, want, names, k);
    let others = blocks_without(blocks, k);
    let m = others.len() as int;
    lemma_whole_encoded(want, names);
    assert(blocks2[m] == encoded(want, names));
    assert(first_answer(blocks2, want, m)) by {
        assert forall|j: int| 0 <= j < m implies !tag_matches(tag_of(#[trigger] blocks2[j]), want) by {
            assert(blocks2[j] == others[j]);
        }
    }
    assert forall|i: int|
        0 <= i < blocks2.len() && block_names(#[trigger] blocks2[i]).contains(
            d,
        ) implies first_answer(blocks2, want, i) by {
        if i < m {
            assert(blocks2[i] == others[i]);
            assert(said(others)[i].1 == block_names(others[i]));
            match k {
                Some(at) => {
                    let j = if i < at {
                        i
                    } else {
                        i + 1
                    };
                    assert(said(others)[i] == said(blocks)[j]);
                    assert(block_names(blocks[j]).contains(d));
                    assert(tag_matches(tag_of(blocks[j]), want));
                    assert(tag_matches(tag_of(blocks[at]), want));
                },
                None => {
                    assert(said(others)[i] == said(blocks)[i]);
                    assert(block_names(blocks[i]).contains(d));
                },
            }
        }
    }
    lemma_check_after_remove(gaps2, blocks2, region, gone, selection);
}

/// Setting names for one region leaves the block of another region as it is.
///
/// In a tidy file let block `j` be the first that names the region `other`, and let it
/// not answer the region `want`. After names were set for `want`, a search for `other`
/// still finds a block, and it names the same region and lists the same names as
/// before.
pub proof fn lemma_set_keeps_other_region(
    gaps: Seq<Seq<u8>>,
    blocks: Seq<Seq<u8>>,
    want: Option<Seq<u8>>,
    names: Seq<Seq<u8>>,
    other: Seq<u8>,
    j: int,
)
    requires
        tidy(gaps, blocks),
        writable(want, names),
        first_answer(blocks, Some(other), j),
        !tag_matches(tag_of(blocks[j]), want),
    ensures
        ({
            let after = after_set(document(gaps, blocks), want, names);
            match found_block(after, Some(other), 0) {
                Some((s, e)) => block_tag(after, s) == Some(other) && block_names(
                    after.subrange(s, e),
                ) == block_names(blocks[j]),
                None => false,
            }
        }),
{
    let k = lemma_answer(blocks, want);
    lemma_without_in_tidy(gaps, blocks, want, k);
    lemma_set_in_tidy(gaps, blocks, want, names, k);
    let gaps2 = gaps_after_set(gaps, names, k);
    let blocks2 = blocks_after_set(blocks, want, names, k);
    let told = said(blocks2);
    let at = match k {
        Some(gone) => if j > gone {
            j - 1
        } else {
            j
        },
        None => j,
    };
    assert(told[at] == said(blocks)[j]);
    assert(first_answer(blocks2, Some(other), at)) by {
        assert forall|i: int| 0 <= i < at implies !tag_matches(
            tag_of(#[trigger] blocks2[i]),
            Some(other),
        ) by {
            assert(told[i].0 == tag_of(blocks2[i]));
            match k {
                Some(gone) => {
                    let from = if i < gone {
                        i
                    } else {
                        i + 1
                    };
                    assert(told[i] == said(blocks)[from]);
                },
                None => {
                    assert(told[i] == said(blocks)[i]);
                },
            }
        }
    }
    lemma_found_in_tidy(gaps2, blocks2, Some(other), at);
}

} // verus!
