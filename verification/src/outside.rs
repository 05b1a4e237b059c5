//! What an edit leaves as it was: every line that holds anything.
//!
//! An edit replaces one span. Outside that span it takes away line feeds only, and only
//! where they make blank lines, so the lines that hold something stay as they are, byte
//! for byte and in order.

use crate::codec::{block_names, block_tag, encoded, end_marker};
use crate::document::{block_appended, found_block};
use crate::joined::{lemma_lines_join, lemma_lines_single, one_line};
use crate::names::kept;
use crate::reconciler::{clear_content, remove_content, set_content, swept, without_block};
use crate::text::{
    chomped, collapsed, ended, ends_once, lemma_ended_once, lemma_line_end, line_end, lines,
    squash, unled, NEWLINE,
};
use vstd::prelude::*;

verus! {

/// The lines of `ls` that hold something.
pub open spec fn solid(ls: Seq<Seq<u8>>) -> Seq<Seq<u8>>
    decreases ls.len(),
{
    if ls.len() == 0 {
        ls
    } else if ls[0].len() == 0 {
        solid(ls.drop_first())
    } else {
        seq![ls[0]] + solid(ls.drop_first())
    }
}

/// The lines of `t` that hold something.
pub open spec fn solid_lines(t: Seq<u8>) -> Seq<Seq<u8>> {
    solid(lines(t))
}

/// The text outside the block that answers `region`.
pub open spec fn outside(text: Seq<u8>, region: Option<Seq<u8>>) -> Seq<u8> {
    match found_block(text, region, 0) {
        Some((s, e)) => text.take(s) + text.skip(e),
        None => text,
    }
}

/// A single blank line holds nothing.
pub proof fn lemma_solid_blank()
    ensures
        solid(seq![Seq::<u8>::empty()]) == Seq::<Seq<u8>>::empty(),
{
    let blank = seq![Seq::<u8>::empty()];
    assert(blank[0].len() == 0);
    assert(blank.drop_first() =~= Seq::<Seq<u8>>::empty());
    assert(solid(blank.drop_first()) =~= Seq::<Seq<u8>>::empty());
    assert(solid(blank) == solid(blank.drop_first()));
}

/// The lines that hold something, of lines joined, are those of the ones and of the
/// others.
pub proof fn lemma_solid_join(x: Seq<Seq<u8>>, y: Seq<Seq<u8>>)
    ensures
        solid(x + y) == solid(x) + solid(y),
    decreases x.len(),
{
    if x.len() == 0 {
        assert(x + y =~= y);
        assert(solid(x) + solid(y) =~= solid(y));
    } else {
        lemma_solid_join(x.drop_first(), y);
        assert((x + y).drop_first() =~= x.drop_first() + y);
        assert((x + y)[0] == x[0]);
        if x[0].len() == 0 {
        } else {
            assert(seq![x[0]] + (solid(x.drop_first()) + solid(y)) =~= (seq![x[0]] + solid(
                x.drop_first(),
            )) + solid(y));
        }
    }
}

/// The lines of two texts with a line feed between them are the lines of the one and
/// the lines of the other.
pub proof fn lemma_lines_concat(a: Seq<u8>, b: Seq<u8>)
    ensures
        lines(a + seq![NEWLINE] + b) == lines(a) + lines(b),
    decreases a.len(),
{
    let e = line_end(a, 0);
    lemma_line_end(a, 0);
    if e >= a.len() {
        lemma_lines_join(a, b);
        lemma_lines_single(a);
    } else {
        let first = a.take(e);
        let rest = a.skip(e + 1);
        lemma_lines_concat(rest, b);
        assert(a + seq![NEWLINE] + b =~= first + seq![NEWLINE] + (rest + seq![NEWLINE] + b));
        lemma_lines_join(first, rest + seq![NEWLINE] + b);
        assert(seq![first] + (lines(rest) + lines(b)) =~= (seq![first] + lines(rest)) + lines(b));
    }
}

/// Cutting line feeds down passes over a line that holds something.
pub proof fn lemma_squash_line(line: Seq<u8>, more: Seq<u8>, run: nat)
    requires
        one_line(line),
        line.len() > 0,
    ensures
        squash(line + more, run) == line + squash(more, 0),
    decreases line.len(),
{
    let t = line + more;
    assert(t[0] == line[0]);
    let rest = line.drop_first();
    assert(t.drop_first() =~= rest + more);
    if rest.len() == 0 {
        assert(rest + more =~= more);
        assert(seq![t[0]] + squash(more, 0) =~= line + squash(more, 0));
    } else {
        assert forall|k: int| 0 <= k < rest.len() implies #[trigger] rest[k] != NEWLINE by {
            assert(rest[k] == line[k + 1]);
        }
        lemma_squash_line(rest, more, 0);
        assert(seq![t[0]] + (rest + squash(more, 0)) =~= line + squash(more, 0));
    }
}

/// Cutting runs of line feeds down takes no line away that holds something.
pub proof fn lemma_solid_lines_squash(t: Seq<u8>, run: nat)
    ensures
        solid_lines(squash(t, run)) == solid_lines(t),
    decreases t.len(),
{
    let e = line_end(t, 0);
    lemma_line_end(t, 0);
    let none = Seq::<u8>::empty();
    if e >= t.len() {
        if t.len() > 0 {
            lemma_squash_line(t, none, run);
            assert(t + none =~= t);
            assert(t + squash(none, 0) =~= t);
        }
    } else {
        let first = t.take(e);
        let rest = t.skip(e + 1);
        let tail = seq![NEWLINE] + rest;
        assert(t =~= first + seq![NEWLINE] + rest);
        assert(t =~= first + tail);
        lemma_lines_join(first, rest);
        assert(tail.drop_first() =~= rest);
        if first.len() > 0 {
            lemma_squash_line(first, tail, run);
            lemma_solid_lines_squash(rest, 1);
            assert(squash(tail, 0) == seq![NEWLINE] + squash(rest, 1));
            assert(squash(t, run) =~= first + seq![NEWLINE] + squash(rest, 1));
            lemma_lines_join(first, squash(rest, 1));
            assert((seq![first] + lines(rest)).drop_first() =~= lines(rest));
            assert((seq![first] + lines(squash(rest, 1))).drop_first() =~= lines(squash(rest, 1)));
        } else {
            assert(t =~= tail);
            assert((seq![first] + lines(rest)).drop_first() =~= lines(rest));
            if run >= 2 {
                lemma_solid_lines_squash(rest, run);
            } else {
                lemma_solid_lines_squash(rest, run + 1);
                let cut = squash(rest, run + 1);
                assert(squash(t, run) =~= none + seq![NEWLINE] + cut);
                lemma_lines_join(none, cut);
                assert((seq![none] + lines(cut)).drop_first() =~= lines(cut));
            }
        }
    }
}

/// Taking the line feeds at the end away takes no line away that holds something.
pub proof fn lemma_solid_lines_chomped(t: Seq<u8>)
    ensures
        solid_lines(chomped(t)) == solid_lines(t),
    decreases t.len(),
{
    if t.len() > 0 && t.last() == NEWLINE {
        let front = t.drop_last();
        let none = Seq::<u8>::empty();
        lemma_solid_lines_chomped(front);
        assert(t =~= front + seq![NEWLINE] + none);
        lemma_lines_concat(front, none);
        lemma_lines_single(none);
        lemma_solid_join(lines(front), seq![none]);
        lemma_solid_blank();
        assert(solid(lines(front)) + Seq::<Seq<u8>>::empty() =~= solid(lines(front)));
    }
}

/// To end a text with just one line feed takes no line away that holds something,
/// and brings none.
pub proof fn lemma_solid_lines_ended(t: Seq<u8>)
    ensures
        solid_lines(ended(t)) == solid_lines(t),
{
    let none = Seq::<u8>::empty();
    let head = chomped(t);
    assert(ended(t) =~= head + seq![NEWLINE] + none);
    lemma_lines_concat(head, none);
    lemma_lines_single(none);
    lemma_solid_join(lines(head), seq![none]);
    lemma_solid_blank();
    assert(solid(lines(head)) + Seq::<Seq<u8>>::empty() =~= solid(lines(head)));
    lemma_solid_lines_chomped(t);
}

/// A block at the end of a text adds its lines to the lines of the text.
pub proof fn lemma_solid_lines_appended(t: Seq<u8>, block: Seq<u8>)
    ensures
        solid_lines(block_appended(t, block)) == solid_lines(t) + solid_lines(block),
{
    let none = Seq::<u8>::empty();
    let head = chomped(t);
    let tail = seq![NEWLINE] + block + seq![NEWLINE];
    assert(block_appended(t, block) =~= head + seq![NEWLINE] + tail);
    lemma_lines_concat(head, tail);
    assert(tail =~= none + seq![NEWLINE] + (block + seq![NEWLINE] + none));
    lemma_lines_concat(none, block + seq![NEWLINE] + none);
    lemma_lines_concat(block, none);
    lemma_lines_single(none);
    lemma_solid_lines_chomped(t);
    let blank = seq![none];
    lemma_solid_blank();
    lemma_solid_join(lines(head), lines(tail));
    lemma_solid_join(blank, lines(block) + blank);
    lemma_solid_join(lines(block), blank);
    assert(solid(lines(tail)) =~= solid(lines(block)));
}

/// Setting the names of a region keeps every line outside the block that it takes out.
///
/// Where a text is written, its lines that hold something are those of the old text
/// outside the block that answered the region, byte for byte and in order, and behind
/// them those of the new block.
pub proof fn lemma_set_keeps_outside(text: Seq<u8>, region: Option<Seq<u8>>, names: Seq<Seq<u8>>)
    ensures
        match set_content(text, region, names) {
            Some(content) => solid_lines(content) == solid_lines(outside(text, region))
                + solid_lines(encoded(region, names)),
            None => true,
        },
{
    let base = without_block(text, region);
    let none = Seq::<u8>::empty();
    assert(solid_lines(base) == solid_lines(outside(text, region))) by {
        match found_block(text, region, 0) {
            Some((s, e)) => {
                assert(text.take(s) + none + text.skip(e) =~= text.take(s) + text.skip(e));
                lemma_solid_lines_squash(text.take(s) + text.skip(e), 0);
            },
            None => {},
        }
    }
    if names.len() > 0 {
        lemma_solid_lines_appended(base, encoded(region, names));
    } else if found_block(text, region, 0) is Some {
        lemma_solid_lines_ended(base);
        lemma_lines_single(none);
        lemma_solid_blank();
        assert(solid_lines(none) =~= Seq::<Seq<u8>>::empty());
        assert(solid_lines(base) + Seq::<Seq<u8>>::empty() =~= solid_lines(base));
    }
}

/// Taking names away from a region keeps every line outside the block of the region.
///
/// Where a text is written, its lines that hold something are those of the old text
/// with the block written anew in its place.
pub proof fn lemma_remove_keeps_outside(
    text: Seq<u8>,
    region: Option<Seq<u8>>,
    names: Seq<Seq<u8>>,
)
    ensures
        match (remove_content(text, region, names), found_block(text, region, 0)) {
            (Some(content), Some((s, e))) => solid_lines(content) == solid_lines(
                text.take(s) + encoded(
                    block_tag(text, s),
                    kept(block_names(text.subrange(s, e)), names),
                ) + text.skip(e),
            ),
            (Some(content), None) => false,
            (None, _) => true,
        },
{
    match found_block(text, region, 0) {
        Some((s, e)) => {
            let block = encoded(block_tag(text, s), kept(block_names(text.subrange(s, e)), names));
            lemma_solid_lines_squash(text.take(s) + block + text.skip(e), 0);
            lemma_solid_lines_ended(collapsed(text.take(s) + block + text.skip(e)));
        },
        None => {},
    }
}

/// Taking the line feeds at the start away takes no line away that holds something.
pub proof fn lemma_solid_lines_unled(t: Seq<u8>)
    ensures
        solid_lines(unled(t)) == solid_lines(t),
    decreases t.len(),
{
    if t.len() > 0 && t[0] == NEWLINE {
        let rest = t.drop_first();
        let none = Seq::<u8>::empty();
        lemma_solid_lines_unled(rest);
        assert(t =~= none + seq![NEWLINE] + rest);
        lemma_lines_concat(none, rest);
        lemma_lines_single(none);
        lemma_solid_join(seq![none], lines(rest));
        lemma_solid_blank();
        assert(Seq::<Seq<u8>>::empty() + solid(lines(rest)) =~= solid(lines(rest)));
    }
}

/// Clearing touches no line that it leaves.
///
/// Where a text is written, its lines that hold something are those of what is left
/// when the blocks are gone, byte for byte and in order.
pub proof fn lemma_clear_keeps_lines(text: Seq<u8>)
    ensures
        match clear_content(text) {
            Some(content) => solid_lines(content) == solid_lines(swept(text, 0).0),
            None => true,
        },
{
    let left = swept(text, 0).0;
    lemma_solid_lines_squash(left, 0);
    lemma_solid_lines_unled(collapsed(left));
    lemma_solid_lines_ended(unled(collapsed(left)));
}

/// Whatever an edit writes ends with a line feed, and with one only.
pub proof fn lemma_written_ends_once(text: Seq<u8>, region: Option<Seq<u8>>, names: Seq<Seq<u8>>)
    ensures
        set_content(text, region, names) matches Some(content) ==> ends_once(content),
        remove_content(text, region, names) matches Some(content) ==> ends_once(content),
        clear_content(text) matches Some(content) ==> ends_once(content),
{
    lemma_ended_once(without_block(text, region));
    lemma_ended_once(unled(collapsed(swept(text, 0).0)));
    match found_block(text, region, 0) {
        Some((s, e)) => {
            let block = encoded(block_tag(text, s), kept(block_names(text.subrange(s, e)), names));
            lemma_ended_once(collapsed(text.take(s) + block + text.skip(e)));
        },
        None => {},
    }
    if names.len() > 0 {
        let block = encoded(region, names);
        let written = block_appended(without_block(text, region), block);
        reveal_strlit("# clusterbanned end");
        assert(block.last() == end_marker().last());
        assert(written[written.len() - 2] == block.last());
    }
}

} // verus!
