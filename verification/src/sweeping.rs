//! What clearing does to a text that is woven from blocks and other lines.

use crate::codec::{end_marker, lemma_marker_lengths, marker_stem};
use crate::joined::{
    lemma_find_kept, lemma_find_past, lemma_find_shift, lemma_line_end_is, lemma_occurs_in_join,
};
use crate::reconciler::{after_line, swept};
use crate::text::{
    find_from, lemma_find_from, lemma_find_from_none, lemma_line_end, lemma_line_end_skip,
    line_end, occurs_at,
    NEWLINE,
};
use vstd::prelude::*;

verus! {

/// The texts of `parts`, one behind the other.
pub open spec fn flat(parts: Seq<Seq<u8>>) -> Seq<u8>
    decreases parts.len(),
{
    if parts.len() == 0 {
        Seq::empty()
    } else {
        parts[0] + flat(parts.drop_first())
    }
}

/// The text that begins with the first of `gaps` and goes on with a block and a gap in
/// turn. There is one gap more than there are blocks.
pub open spec fn woven(gaps: Seq<Seq<u8>>, blocks: Seq<Seq<u8>>) -> Seq<u8>
    decreases blocks.len(),
{
    if gaps.len() == 0 {
        Seq::empty()
    } else if blocks.len() == 0 {
        gaps[0]
    } else {
        gaps[0] + blocks[0] + woven(gaps.drop_first(), blocks.drop_first())
    }
}

/// A text in which the stem of the markers stands nowhere.
pub open spec fn quiet(g: Seq<u8>) -> bool {
    forall|j: int| !occurs_at(g, marker_stem(), j)
}

/// A block as clearing takes it: it begins with the stem of the markers, its first line
/// ends within it, and the first end marker behind that line is what it ends with.
pub open spec fn clearable(b: Seq<u8>) -> bool {
    &&& occurs_at(b, marker_stem(), 0)
    &&& line_end(b, 0) < b.len()
    &&& find_from(b, end_marker(), line_end(b, 0) + 1) == Some(b.len() - 19)
}

/// A text whose first marker has no end marker behind its line.
pub open spec fn left_open(g: Seq<u8>) -> bool {
    match find_from(g, marker_stem(), 0) {
        None => false,
        Some(s) => find_from(g, end_marker(), after_line(g, s)) is None,
    }
}

/// Nothing of the stem begins in a quiet text that is followed by a marker.
proof fn lemma_quiet_before_marker(pre: Seq<u8>, g: Seq<u8>, b: Seq<u8>)
    requires
        quiet(g),
        occurs_at(b, marker_stem(), 0),
    ensures
        find_from(pre + g + b, marker_stem(), pre.len() as int) == Some((pre + g).len() as int),
{
    reveal_strlit("# clusterbanned");
    let a = pre + g;
    let t = a + b;
    let stem = marker_stem();
    assert forall|j: int| pre.len() <= j < a.len() implies !occurs_at(t, stem, j) by {
        if occurs_at(t, stem, j) {
            if j + stem.len() <= a.len() {
                lemma_occurs_in_join(a, b, stem, j);
                lemma_occurs_in_join(pre, g, stem, j);
                assert(occurs_at(g, stem, j - pre.len()));
            } else {
                let k = a.len() - j;
                assert(t[j + k] == stem[k]);
                assert(t[a.len() as int] == b[0]);
                assert(b[0int + 0] == stem[0]);
            }
        }
    }
    lemma_find_past(a, b, stem, pre.len() as int);
    assert(find_from(b, stem, 0) == Some(0int));
}

/// Clearing a text that goes on, behind what was searched already, with gaps and
/// blocks in turn.
proof fn lemma_sweep(pre: Seq<u8>, gaps: Seq<Seq<u8>>, blocks: Seq<Seq<u8>>)
    requires
        gaps.len() == blocks.len() + 1,
        forall|i: int| 0 <= i < blocks.len() ==> clearable(#[trigger] blocks[i]),
        forall|i: int| 0 <= i < blocks.len() ==> quiet(#[trigger] gaps[i]),
        quiet(gaps.last()) || left_open(gaps.last()),
    ensures
        swept(pre + woven(gaps, blocks), pre.len() as int) == (
            pre + flat(gaps),
            blocks.len(),
            !quiet(gaps.last()),
        ),
    decreases blocks.len(),
{
    lemma_marker_lengths();
    let stem = marker_stem();
    if blocks.len() == 0 {
        let g = gaps[0];
        let t = pre + g;
        assert(gaps.last() == g);
        assert(flat(gaps.drop_first()) =~= Seq::<u8>::empty());
        assert(flat(gaps) =~= g);
        lemma_find_shift(pre, g, stem, pre.len() as int);
        if quiet(g) {
            lemma_find_from_none(g, stem, 0);
        } else {
            let s0 = find_from(g, stem, 0).unwrap();
            lemma_find_from(g, stem, 0);
            assert(t.skip(pre.len() as int) =~= g);
            lemma_line_end_skip(t, pre.len() as int, s0);
            lemma_line_end(g, s0);
            assert(after_line(t, pre.len() + s0) == pre.len() + after_line(g, s0));
            lemma_find_shift(pre, g, end_marker(), pre.len() + after_line(g, s0));
        }
    } else {
        let g = gaps[0];
        let b = blocks[0];
        let gaps1 = gaps.drop_first();
        let blocks1 = blocks.drop_first();
        let rest = woven(gaps1, blocks1);
        let a = pre + g;
        let t = pre + woven(gaps, blocks);
        assert(clearable(b));
        assert(quiet(g));
        assert(t =~= a + (b + rest));
        assert(t =~= pre + g + (b + rest));
        lemma_occurs_in_join(b, rest, stem, 0);
        lemma_quiet_before_marker(pre, g, b + rest);
        let s = a.len() as int;
        let le = line_end(b, 0);
        lemma_line_end(b, 0);
        assert forall|k: int| s <= k < s + le implies #[trigger] t[k] != NEWLINE by {
            assert(t[k] == b[k - s]);
        }
        assert(t[s + le] == b[le]);
        lemma_line_end_is(t, s, s + le);
        assert(after_line(t, s) == s + le + 1);
        lemma_find_kept(b, rest, end_marker(), le + 1, b.len() - 19);
        lemma_find_shift(a, b + rest, end_marker(), s + le + 1);
        assert(find_from(t, end_marker(), s + le + 1) == Some(s + b.len() - 19));
        let next = t.take(s) + t.skip(s + b.len() - 19 + end_marker().len());
        assert(next =~= a + rest);
        assert forall|i: int| 0 <= i < blocks1.len() implies clearable(#[trigger] blocks1[i]) by {
            assert(blocks1[i] == blocks[i + 1]);
        }
        assert forall|i: int| 0 <= i < blocks1.len() implies quiet(#[trigger] gaps1[i]) by {
            assert(gaps1[i] == gaps[i + 1]);
        }
        assert(gaps1.last() == gaps.last());
        lemma_sweep(a, gaps1, blocks1);
        assert(a + flat(gaps1) =~= pre + flat(gaps));
    }
}

/// Clearing takes out just the blocks.
///
/// Take a text that is woven from gaps and blocks. Each block begins with the stem of
/// the markers, whatever else stands on that line, and ends with the first end marker
/// behind its first line. The stem stands in no gap, but that the last gap may hold a
/// marker that no end marker follows. Then what clearing leaves is the gaps, byte for
/// byte and in order; it counts every block; and it tells of the open marker in the
/// last gap, which stays in the text with all that follows it.
pub proof fn lemma_clear_takes_blocks(gaps: Seq<Seq<u8>>, blocks: Seq<Seq<u8>>)
    requires
        gaps.len() == blocks.len() + 1,
        forall|i: int| 0 <= i < blocks.len() ==> clearable(#[trigger] blocks[i]),
        forall|i: int| 0 <= i < blocks.len() ==> quiet(#[trigger] gaps[i]),
        quiet(gaps.last()) || left_open(gaps.last()),
    ensures
        swept(woven(gaps, blocks), 0) == (flat(gaps), blocks.len(), !quiet(gaps.last())),
{
    let pre = Seq::<u8>::empty();
    lemma_sweep(pre, gaps, blocks);
    assert(pre + woven(gaps, blocks) =~= woven(gaps, blocks));
    assert(pre + flat(gaps) =~= flat(gaps));
}

} // verus!
