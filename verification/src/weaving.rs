//! Taking a tidy file apart at a block and putting it together again.

use crate::codec::marker_stem;
use crate::joined::lemma_occurs_in_join;
use crate::sweeping::quiet;
use crate::text::{chomped, ended, occurs_at, NEWLINE};
use crate::tidy::{
    document, lemma_document_unfold, lemma_whole_ends, spans_of, starts_line, tidy, whole,
};
use vstd::prelude::*;

verus! {

/// What stands before block `k`.
pub open spec fn before_block(gaps: Seq<Seq<u8>>, blocks: Seq<Seq<u8>>, k: int) -> Seq<u8> {
    document(gaps.take(k + 1), blocks.take(k))
}

/// What stands behind block `k`.
pub open spec fn behind_block(gaps: Seq<Seq<u8>>, blocks: Seq<Seq<u8>>, k: int) -> Seq<u8> {
    document(gaps.skip(k + 1), blocks.skip(k + 1))
}

/// The gaps of the file without block `k`: the gaps on both sides of it become one.
pub open spec fn merged_gaps(gaps: Seq<Seq<u8>>, k: int) -> Seq<Seq<u8>> {
    gaps.take(k) + seq![gaps[k] + gaps[k + 1]] + gaps.skip(k + 2)
}

/// The blocks without block `k`.
pub open spec fn other_blocks(blocks: Seq<Seq<u8>>, k: int) -> Seq<Seq<u8>> {
    blocks.take(k) + blocks.skip(k + 1)
}

/// A file is what stands before a block, the block, and what stands behind it.
pub proof fn lemma_split(gaps: Seq<Seq<u8>>, blocks: Seq<Seq<u8>>, k: int)
    requires
        gaps.len() == blocks.len() + 1,
        0 <= k < blocks.len(),
    ensures
        document(gaps, blocks) == before_block(gaps, blocks, k) + blocks[k]
            + behind_block(gaps, blocks, k),
    decreases k,
{
    let gaps1 = gaps.drop_first();
    let blocks1 = blocks.drop_first();
    lemma_document_unfold(gaps, blocks);
    if k == 0 {
        assert(gaps.take(1)[0] == gaps[0]);
        assert(before_block(gaps, blocks, 0) == gaps[0]);
        assert(gaps.skip(1) =~= gaps1);
        assert(blocks.skip(1) =~= blocks1);
    } else {
        lemma_split(gaps1, blocks1, k - 1);
        let head_gaps = gaps.take(k + 1);
        let head_blocks = blocks.take(k);
        lemma_document_unfold(head_gaps, head_blocks);
        assert(head_gaps.drop_first() =~= gaps1.take(k));
        assert(head_blocks.drop_first() =~= blocks1.take(k - 1));
        assert(head_gaps[0] == gaps[0]);
        assert(head_blocks[0] == blocks[0]);
        assert(gaps.skip(k + 1) =~= gaps1.skip(k));
        assert(blocks.skip(k + 1) =~= blocks1.skip(k));
        assert(blocks[k] == blocks1[k - 1]);
        assert(document(gaps, blocks) =~= before_block(gaps, blocks, k) + blocks[k]
            + behind_block(gaps, blocks, k));
    }
}

/// Block `k` stands behind what stands before it.
pub proof fn lemma_span_at(from: int, gaps: Seq<Seq<u8>>, blocks: Seq<Seq<u8>>, k: int)
    requires
        gaps.len() == blocks.len() + 1,
        0 <= k < blocks.len(),
    ensures
        spans_of(from, gaps, blocks).len() == blocks.len(),
        spans_of(from, gaps, blocks)[k] == (
            from + before_block(gaps, blocks, k).len(),
            from + before_block(gaps, blocks, k).len() + blocks[k].len(),
        ),
    decreases k,
{
    let gaps1 = gaps.drop_first();
    let blocks1 = blocks.drop_first();
    let e = from + gaps[0].len() + blocks[0].len();
    lemma_spans_len(e, gaps1, blocks1);
    if k == 0 {
        assert(gaps.take(1)[0] == gaps[0]);
        assert(before_block(gaps, blocks, 0) == gaps[0]);
    } else {
        lemma_span_at(e, gaps1, blocks1, k - 1);
        let head_gaps = gaps.take(k + 1);
        let head_blocks = blocks.take(k);
        lemma_document_unfold(head_gaps, head_blocks);
        assert(head_gaps.drop_first() =~= gaps1.take(k));
        assert(head_blocks.drop_first() =~= blocks1.take(k - 1));
        assert(head_gaps[0] == gaps[0]);
        assert(head_blocks[0] == blocks[0]);
        assert(blocks[k] == blocks1[k - 1]);
        assert(spans_of(from, gaps, blocks)[k] == spans_of(e, gaps1, blocks1)[k - 1]);
    }
}

/// There is a place for every block.
pub proof fn lemma_spans_len(from: int, gaps: Seq<Seq<u8>>, blocks: Seq<Seq<u8>>)
    requires
        gaps.len() == blocks.len() + 1,
    ensures
        spans_of(from, gaps, blocks).len() == blocks.len(),
    decreases blocks.len(),
{
    if blocks.len() > 0 {
        let e = from + gaps[0].len() + blocks[0].len();
        lemma_spans_len(e, gaps.drop_first(), blocks.drop_first());
    }
}

/// Two files with a block between them are one file.
pub proof fn lemma_join_block(
    gaps1: Seq<Seq<u8>>,
    blocks1: Seq<Seq<u8>>,
    x: Seq<u8>,
    gaps2: Seq<Seq<u8>>,
    blocks2: Seq<Seq<u8>>,
)
    requires
        gaps1.len() == blocks1.len() + 1,
        gaps2.len() == blocks2.len() + 1,
    ensures
        document(gaps1, blocks1) + x + document(gaps2, blocks2) == document(
            gaps1 + gaps2,
            blocks1 + seq![x] + blocks2,
        ),
    decreases blocks1.len(),
{
    let gaps = gaps1 + gaps2;
    let blocks = blocks1 + seq![x] + blocks2;
    lemma_document_unfold(gaps, blocks);
    if blocks1.len() == 0 {
        assert(document(gaps1, blocks1) == gaps1[0]);
        assert(gaps.drop_first() =~= gaps2);
        assert(blocks.drop_first() =~= blocks2);
        assert(blocks[0] == x);
    } else {
        lemma_document_unfold(gaps1, blocks1);
        lemma_join_block(gaps1.drop_first(), blocks1.drop_first(), x, gaps2, blocks2);
        assert(gaps.drop_first() =~= gaps1.drop_first() + gaps2);
        assert(blocks.drop_first() =~= blocks1.drop_first() + seq![x] + blocks2);
        assert(document(gaps1, blocks1) + x + document(gaps2, blocks2) =~= gaps1[0]
            + blocks1[0] + (document(gaps1.drop_first(), blocks1.drop_first())
            + x + document(gaps2, blocks2)));
    }
}

/// Two files one behind the other are one file: the last gap of the first and the
/// first gap of the second become one.
pub proof fn lemma_join_gaps(
    gaps1: Seq<Seq<u8>>,
    blocks1: Seq<Seq<u8>>,
    gaps2: Seq<Seq<u8>>,
    blocks2: Seq<Seq<u8>>,
)
    requires
        gaps1.len() == blocks1.len() + 1,
        gaps2.len() == blocks2.len() + 1,
    ensures
        document(gaps1, blocks1) + document(gaps2, blocks2) == document(
            gaps1.drop_last() + seq![gaps1.last() + gaps2[0]] + gaps2.drop_first(),
            blocks1 + blocks2,
        ),
    decreases blocks1.len(),
{
    let gaps = gaps1.drop_last() + seq![gaps1.last() + gaps2[0]] + gaps2.drop_first();
    let blocks = blocks1 + blocks2;
    if blocks1.len() == 0 {
        assert(document(gaps1, blocks1) == gaps1[0]);
        assert(blocks =~= blocks2);
        assert(gaps[0] == gaps1[0] + gaps2[0]);
        if blocks2.len() == 0 {
            assert(document(gaps2, blocks2) == gaps2[0]);
            assert(document(gaps, blocks) == gaps[0]);
        } else {
            lemma_document_unfold(gaps2, blocks2);
            lemma_document_unfold(gaps, blocks);
            assert(gaps.drop_first() =~= gaps2.drop_first());
            assert(document(gaps1, blocks1) + document(gaps2, blocks2) =~= gaps[0] + blocks2[0] + document(gaps2.drop_first(), blocks2.drop_first()));
        }
    } else {
        lemma_document_unfold(gaps1, blocks1);
        lemma_document_unfold(gaps, blocks);
        let inner1 = gaps1.drop_first();
        lemma_join_gaps(inner1, blocks1.drop_first(), gaps2, blocks2);
        assert(inner1.last() == gaps1.last());
        assert(gaps.drop_first() =~= inner1.drop_last() + seq![inner1.last() + gaps2[0]]
            + gaps2.drop_first());
        assert(blocks.drop_first() =~= blocks1.drop_first() + blocks2);
        assert(gaps[0] == gaps1[0]);
        assert(blocks[0] == blocks1[0]);
        assert(document(gaps1, blocks1) + document(gaps2, blocks2) =~= gaps1[0] + blocks1[0] + (document(inner1, blocks1.drop_first()) + document(gaps2, blocks2)));
    }
}

/// A file without one of its blocks is the file of the other blocks.
pub proof fn lemma_without_block(gaps: Seq<Seq<u8>>, blocks: Seq<Seq<u8>>, k: int)
    requires
        gaps.len() == blocks.len() + 1,
        0 <= k < blocks.len(),
    ensures
        before_block(gaps, blocks, k) + behind_block(gaps, blocks, k) == document(
            merged_gaps(gaps, k),
            other_blocks(blocks, k),
        ),
{
    let gaps1 = gaps.take(k + 1);
    let gaps2 = gaps.skip(k + 1);
    lemma_join_gaps(gaps1, blocks.take(k), gaps2, blocks.skip(k + 1));
    assert(gaps1.drop_last() =~= gaps.take(k));
    assert(gaps2.drop_first() =~= gaps.skip(k + 2));
    assert(gaps1.last() == gaps[k]);
    assert(gaps2[0] == gaps[k + 1]);
}

/// A file with another block in the place of one of its blocks.
pub proof fn lemma_with_block(gaps: Seq<Seq<u8>>, blocks: Seq<Seq<u8>>, k: int, x: Seq<u8>)
    requires
        gaps.len() == blocks.len() + 1,
        0 <= k < blocks.len(),
    ensures
        before_block(gaps, blocks, k) + x + behind_block(gaps, blocks, k) == document(
            gaps,
            blocks.update(k, x),
        ),
{
    lemma_join_block(gaps.take(k + 1), blocks.take(k), x, gaps.skip(k + 1), blocks.skip(k + 1));
    assert(gaps.take(k + 1) + gaps.skip(k + 1) =~= gaps);
    assert(blocks.take(k) + seq![x] + blocks.skip(k + 1) =~= blocks.update(k, x));
}

/// The stem of the markers cannot lie across a line feed.
pub proof fn lemma_quiet_join(a: Seq<u8>, b: Seq<u8>)
    requires
        quiet(a),
        quiet(b),
        starts_line(b),
    ensures
        quiet(a + b),
{
    reveal_strlit("# clusterbanned");
    let t = a + b;
    let stem = marker_stem();
    assert forall|j: int| !occurs_at(t, stem, j) by {
        if occurs_at(t, stem, j) {
            if j + stem.len() <= a.len() {
                lemma_occurs_in_join(a, b, stem, j);
            } else if j >= a.len() {
                lemma_occurs_in_join(a, b, stem, j);
            } else {
                let k = a.len() - j;
                assert(t[j + k] == stem[k]);
                assert(t[a.len() as int] == b[0]);
            }
        }
    }
}

/// What stands at the head of a quiet text is quiet.
pub proof fn lemma_quiet_head(g: Seq<u8>, n: int)
    requires
        quiet(g),
        0 <= n <= g.len(),
    ensures
        quiet(g.take(n)),
{
    let head = g.take(n);
    assert forall|j: int| !occurs_at(head, marker_stem(), j) by {
        if occurs_at(head, marker_stem(), j) {
            assert(g =~= head + g.skip(n));
            lemma_occurs_in_join(head, g.skip(n), marker_stem(), j);
        }
    }
}

/// A text without the line feeds at its end is the head of the text.
pub proof fn lemma_chomped_is_head(t: Seq<u8>)
    ensures
        chomped(t).len() <= t.len(),
        chomped(t) == t.take(chomped(t).len() as int),
        chomped(t).len() > 0 ==> chomped(t).last() != NEWLINE,
    decreases t.len(),
{
    if t.len() > 0 && t.last() == NEWLINE {
        lemma_chomped_is_head(t.drop_last());
        let n = chomped(t).len() as int;
        assert(t.drop_last().take(n) =~= t.take(n));
    } else {
        assert(t.take(t.len() as int) =~= t);
    }
}

/// Behind something that is no line feed, only the line feeds of what follows go.
pub proof fn lemma_chomped_behind(a: Seq<u8>, b: Seq<u8>)
    requires
        a.len() > 0,
        a.last() != NEWLINE,
    ensures
        chomped(a + b) == a + chomped(b),
    decreases b.len(),
{
    let t = a + b;
    if b.len() > 0 && b.last() == NEWLINE {
        assert(t.last() == b.last());
        assert(t.drop_last() =~= a + b.drop_last());
        lemma_chomped_behind(a, b.drop_last());
    } else if b.len() > 0 {
        assert(t.last() == b.last());
    } else {
        assert(t =~= a);
        assert(a + chomped(b) =~= a);
    }
}

/// The file with more text at the end of its last gap.
pub proof fn lemma_last_gap(gaps: Seq<Seq<u8>>, blocks: Seq<Seq<u8>>, last: Seq<u8>)
    requires
        gaps.len() == blocks.len() + 1,
    ensures
        document(gaps.drop_last().push(last), blocks) == before_last_gap(gaps, blocks) + last,
        document(gaps, blocks) == before_last_gap(gaps, blocks) + gaps.last(),
    decreases blocks.len(),
{
    let changed = gaps.drop_last().push(last);
    if blocks.len() == 0 {
        assert(document(changed, blocks) == changed[0]);
        assert(document(gaps, blocks) == gaps[0]);
        assert(before_last_gap(gaps, blocks) =~= Seq::<u8>::empty());
        assert(before_last_gap(gaps, blocks) + last =~= last);
        assert(before_last_gap(gaps, blocks) + gaps.last() =~= gaps[0]);
    } else {
        let gaps1 = gaps.drop_first();
        let blocks1 = blocks.drop_first();
        lemma_document_unfold(gaps, blocks);
        lemma_document_unfold(changed, blocks);
        lemma_last_gap(gaps1, blocks1, last);
        assert(changed.drop_first() =~= gaps1.drop_last().push(last));
        assert(changed[0] == gaps[0]);
        assert(gaps1.last() == gaps.last());
        assert(document(changed, blocks) =~= before_last_gap(gaps, blocks) + last);
        assert(document(gaps, blocks) =~= before_last_gap(gaps, blocks) + gaps.last());
    }
}

/// What stands before the last gap of a file.
pub open spec fn before_last_gap(gaps: Seq<Seq<u8>>, blocks: Seq<Seq<u8>>) -> Seq<u8>
    decreases blocks.len(),
{
    if blocks.len() == 0 || gaps.len() == 0 {
        Seq::empty()
    } else {
        gaps[0] + blocks[0] + before_last_gap(gaps.drop_first(), blocks.drop_first())
    }
}

/// What stands before the last gap ends with a block, if there is anything.
pub proof fn lemma_before_last_gap_ends(gaps: Seq<Seq<u8>>, blocks: Seq<Seq<u8>>)
    requires
        gaps.len() == blocks.len() + 1,
        forall|i: int| 0 <= i < blocks.len() ==> whole(#[trigger] blocks[i]),
    ensures
        blocks.len() == 0 ==> before_last_gap(gaps, blocks).len() == 0,
        blocks.len() > 0 ==> before_last_gap(gaps, blocks).len() > 0 && before_last_gap(
            gaps,
            blocks,
        ).last() != NEWLINE,
    decreases blocks.len(),
{
    if blocks.len() > 0 {
        let gaps1 = gaps.drop_first();
        let blocks1 = blocks.drop_first();
        assert(whole(blocks[0]));
        lemma_whole_ends(blocks[0]);
        assert forall|i: int| 0 <= i < blocks1.len() implies whole(#[trigger] blocks1[i]) by {
            assert(blocks1[i] == blocks[i + 1]);
        }
        lemma_before_last_gap_ends(gaps1, blocks1);
        let head = gaps[0] + blocks[0];
        let tail = before_last_gap(gaps1, blocks1);
        if blocks1.len() == 0 {
            assert(head + tail =~= head);
            assert(head.last() == blocks[0].last());
        } else {
            assert((head + tail).last() == tail.last());
        }
    }
}

/// A text of one or two line feeds is quiet.
pub proof fn lemma_line_feeds_quiet()
    ensures
        quiet(seq![NEWLINE]),
        quiet(seq![NEWLINE, NEWLINE]),
{
    reveal_strlit("# clusterbanned");
    assert forall|j: int| !occurs_at(seq![NEWLINE], marker_stem(), j) by {}
    assert forall|j: int| !occurs_at(seq![NEWLINE, NEWLINE], marker_stem(), j) by {}
}

/// The gaps of a file that ends with just one line feed: the last gap does.
pub open spec fn gaps_ended(gaps: Seq<Seq<u8>>) -> Seq<Seq<u8>> {
    gaps.drop_last().push(ended(gaps.last()))
}

/// To end a tidy file with just one line feed changes its last gap and leaves a tidy
/// file.
pub proof fn lemma_ended_in_tidy(gaps: Seq<Seq<u8>>, blocks: Seq<Seq<u8>>)
    requires
        tidy(gaps, blocks),
    ensures
        ended(document(gaps, blocks)) == document(gaps_ended(gaps), blocks),
        tidy(gaps_ended(gaps), blocks),
{
    let last = gaps.last();
    let one = seq![NEWLINE];
    let changed = gaps_ended(gaps);
    let n = blocks.len() as int;
    lemma_last_gap(gaps, blocks, ended(last));
    lemma_before_last_gap_ends(gaps, blocks);
    let before = before_last_gap(gaps, blocks);
    if blocks.len() > 0 {
        lemma_chomped_behind(before, last);
    } else {
        assert(before + last =~= last);
        assert(before + chomped(last) =~= chomped(last));
    }
    assert(ended(document(gaps, blocks)) =~= before + ended(last));
    lemma_line_feeds_quiet();
    lemma_chomped_is_head(last);
    assert(quiet(last));
    lemma_quiet_head(last, chomped(last).len() as int);
    lemma_quiet_join(chomped(last), one);
    assert forall|i: int| 0 <= i < changed.len() implies quiet(#[trigger] changed[i]) by {
        if i < n {
            assert(changed[i] == gaps[i]);
        }
    }
    assert forall|i: int| 1 <= i < changed.len() implies starts_line(#[trigger] changed[i]) by {
        if i < n {
            assert(changed[i] == gaps[i]);
        } else {
            assert(starts_line(gaps[n]));
            if chomped(last).len() > 0 {
                assert(ended(last)[0] == chomped(last)[0]);
                assert(chomped(last)[0] == last[0]);
            } else {
                assert(ended(last) =~= one);
            }
        }
    }
}

} // verus!
