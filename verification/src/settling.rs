//! What cutting runs of line feeds down does to a tidy file: the gaps stay quiet, and
//! the blocks stay blocks with the same regions and names.

use crate::codec::{
    block_names, encoded, end_marker, entries, entry_lead, entry_lines, entry_of, header,
    lemma_marker_lengths, marker_stem, start_marker,
};
use crate::joined::{all_tokens, is_token, lemma_line_end_is, lemma_occurs_in_join, one_line};
use crate::outside::{lemma_solid_lines_squash, lemma_squash_line, solid};
use crate::roundtrip::{lemma_entry_lines_front, lemma_header};
use crate::sweeping::quiet;
use crate::text::{
    collapsed, fields, find_from, lemma_find_from_is, lemma_line_end, line_end, lines, occurs_at,
    squash, trim_start, NEWLINE,
};
use crate::tidy::{
    document, lemma_document_unfold, lemma_whole_ends, starts_line, tag_of, tidy, whole,
};
use vstd::prelude::*;

verus! {

/// Before a byte that is no line feed, the count of line feeds does not matter.
pub proof fn lemma_squash_any_run(y: Seq<u8>, run: nat)
    requires
        y.len() > 0,
        y[0] != NEWLINE,
    ensures
        squash(y, run) == squash(y, 0),
{
}

/// The number of line feeds that stand at the end of `a`, counted up to two, where
/// `run` of them stand before it.
pub open spec fn run_after(a: Seq<u8>, run: nat) -> nat
    decreases a.len(),
{
    if a.len() == 0 {
        run
    } else if a[0] != NEWLINE {
        run_after(a.drop_first(), 0)
    } else if run >= 2 {
        run_after(a.drop_first(), run)
    } else {
        run_after(a.drop_first(), run + 1)
    }
}

/// Cutting line feeds down in two joined texts is cutting them down in the one, and in
/// the other with the count that the first leaves.
pub proof fn lemma_squash_join(a: Seq<u8>, b: Seq<u8>, run: nat)
    ensures
        squash(a + b, run) == squash(a, run) + squash(b, run_after(a, run)),
    decreases a.len(),
{
    if a.len() == 0 {
        assert(a + b =~= b);
        assert(squash(a, run) + squash(b, run) =~= squash(b, run));
    } else {
        let t = a + b;
        let rest = a.drop_first();
        assert(t[0] == a[0]);
        assert(t.drop_first() =~= rest + b);
        if a[0] != NEWLINE {
            lemma_squash_join(rest, b, 0);
            assert(seq![a[0]] + (squash(rest, 0) + squash(b, run_after(rest, 0))) =~= (seq![a[0]]
                + squash(rest, 0)) + squash(b, run_after(rest, 0)));
        } else if run >= 2 {
            lemma_squash_join(rest, b, run);
        } else {
            lemma_squash_join(rest, b, run + 1);
            assert(seq![NEWLINE] + (squash(rest, run + 1) + squash(b, run_after(rest, run + 1)))
                =~= (seq![NEWLINE] + squash(rest, run + 1)) + squash(
                b,
                run_after(rest, run + 1),
            ));
        }
    }
}

/// Cutting line feeds down makes no text longer.
pub proof fn lemma_squash_len(t: Seq<u8>, run: nat)
    ensures
        squash(t, run).len() <= t.len(),
    decreases t.len(),
{
    if t.len() > 0 {
        if t[0] != NEWLINE {
            lemma_squash_len(t.drop_first(), 0);
        } else if run >= 2 {
            lemma_squash_len(t.drop_first(), run);
        } else {
            lemma_squash_len(t.drop_first(), run + 1);
        }
    }
}

/// Behind a byte that is no line feed the count of line feeds is nought.
pub proof fn lemma_run_after_solid(a: Seq<u8>, run: nat)
    requires
        a.len() > 0,
        a.last() != NEWLINE,
    ensures
        run_after(a, run) == 0,
    decreases a.len(),
{
    let rest = a.drop_first();
    if rest.len() > 0 {
        assert(rest.last() == a.last());
        if a[0] != NEWLINE {
            lemma_run_after_solid(rest, 0);
        } else if run >= 2 {
            lemma_run_after_solid(rest, run);
        } else {
            lemma_run_after_solid(rest, run + 1);
        }
    } else {
        assert(a[0] == a.last());
        assert(run_after(rest, 0) == 0);
    }
}

/// Cutting line feeds down where they were cut down changes nothing.
pub proof fn lemma_squash_twice(t: Seq<u8>, run: nat)
    ensures
        squash(squash(t, run), run) == squash(t, run),
    decreases t.len(),
{
    if t.len() > 0 {
        let rest = t.drop_first();
        if t[0] != NEWLINE {
            lemma_squash_twice(rest, 0);
            let cut = seq![t[0]] + squash(rest, 0);
            assert(cut.drop_first() =~= squash(rest, 0));
        } else if run >= 2 {
            lemma_squash_twice(rest, run);
        } else {
            lemma_squash_twice(rest, run + 1);
            let cut = seq![NEWLINE] + squash(rest, run + 1);
            assert(cut.drop_first() =~= squash(rest, run + 1));
        }
    }
}

/// The head of a text without runs of line feeds has none.
pub proof fn lemma_collapsed_head(t: Seq<u8>, n: int)
    requires
        collapsed(t) == t,
        0 <= n <= t.len(),
    ensures
        collapsed(t.take(n)) == t.take(n),
{
    let a = t.take(n);
    let b = t.skip(n);
    assert(t =~= a + b);
    lemma_squash_join(a, b, 0);
    lemma_squash_len(a, 0);
    lemma_squash_len(b, run_after(a, 0));
    let cut = squash(a, 0);
    assert(cut.len() == a.len());
    assert(cut =~= t.take(n)) by {
        assert forall|i: int| 0 <= i < cut.len() implies cut[i] == t.take(n)[i] by {
            assert((squash(a, 0) + squash(b, run_after(a, 0)))[i] == cut[i]);
        }
    }
}

/// Cutting line feeds down in a text, and in what follows it where that begins with
/// something other than a line feed, is cutting them down in both.
pub proof fn lemma_squash_before_solid(g: Seq<u8>, y: Seq<u8>, run: nat)
    requires
        y.len() > 0,
        y[0] != NEWLINE,
    ensures
        squash(g + y, run) == squash(g, run) + squash(y, 0),
{
    lemma_squash_join(g, y, run);
    lemma_squash_any_run(y, run_after(g, run));
}

/// What a text with its line feeds cut down begins with, the text began with, as far as
/// that holds no line feed.
proof fn lemma_squash_prefix(x: Seq<u8>, needle: Seq<u8>)
    requires
        one_line(needle),
        occurs_at(squash(x, 0), needle, 0),
    ensures
        occurs_at(x, needle, 0),
    decreases needle.len(),
{
    if needle.len() > 0 {
        let cut = squash(x, 0);
        assert(cut[0int + 0] == needle[0]);
        assert(x.len() > 0);
        assert(x[0] != NEWLINE);
        let rest = x.drop_first();
        let more = needle.drop_first();
        assert(cut.drop_first() =~= squash(rest, 0));
        assert forall|k: int| 0 <= k < more.len() implies squash(rest, 0)[0 + k] == #[trigger] more[k] by {
            assert(cut[0 + (k + 1)] == needle[k + 1]);
        }
        assert forall|k: int| 0 <= k < more.len() implies #[trigger] more[k] != NEWLINE by {
            assert(more[k] == needle[k + 1]);
        }
        lemma_squash_prefix(rest, more);
        assert forall|k: int| 0 <= k < needle.len() implies x[0 + k] == #[trigger] needle[k] by {
            if k > 0 {
                assert(rest[0 + (k - 1)] == more[k - 1]);
            }
        }
    }
}

/// Cutting line feeds down brings nothing into a text that holds no line feed itself.
pub proof fn lemma_squash_brings_nothing(g: Seq<u8>, run: nat, needle: Seq<u8>)
    requires
        one_line(needle),
        needle.len() > 0,
        forall|i: int| !occurs_at(g, needle, i),
    ensures
        forall|j: int| !occurs_at(squash(g, run), needle, j),
    decreases g.len(),
{
    let cut = squash(g, run);
    if g.len() == 0 {
        assert(cut.len() == 0);
        assert forall|j: int| !occurs_at(cut, needle, j) by {}
    } else {
        let rest = g.drop_first();
        let first = seq![g[0]];
        assert(g =~= first + rest);
        assert forall|i: int| !occurs_at(rest, needle, i) by {
            if occurs_at(rest, needle, i) {
                lemma_occurs_in_join(first, rest, needle, i + 1);
                assert(occurs_at(g, needle, i + 1));
            }
        }
        if g[0] != NEWLINE {
            lemma_squash_brings_nothing(rest, 0, needle);
            let inner = squash(rest, 0);
            assert(cut =~= first + inner);
            assert forall|j: int| !occurs_at(cut, needle, j) by {
                if occurs_at(cut, needle, j) {
                    if j >= 1 {
                        lemma_occurs_in_join(first, inner, needle, j);
                    } else {
                        lemma_squash_any_run(g, run);
                        lemma_squash_prefix(g, needle);
                    }
                }
            }
        } else if run >= 2 {
            lemma_squash_brings_nothing(rest, run, needle);
            assert(cut == squash(rest, run));
        } else {
            lemma_squash_brings_nothing(rest, run + 1, needle);
            let inner = squash(rest, run + 1);
            assert(cut =~= first + inner);
            assert forall|j: int| !occurs_at(cut, needle, j) by {
                if occurs_at(cut, needle, j) {
                    if j >= 1 {
                        lemma_occurs_in_join(first, inner, needle, j);
                    } else {
                        assert(cut[0int + 0] == needle[0]);
                    }
                }
            }
        }
    }
}

/// A quiet gap stays quiet when its line feeds are cut down.
pub proof fn lemma_squash_quiet(g: Seq<u8>, run: nat)
    requires
        quiet(g),
    ensures
        quiet(squash(g, run)),
{
    reveal_strlit("# clusterbanned");
    lemma_squash_brings_nothing(g, run, marker_stem());
}

/// The names of lines joined are the names of the ones and of the others.
pub proof fn lemma_entries_join(a: Seq<Seq<u8>>, b: Seq<Seq<u8>>)
    ensures
        entries(a + b) == entries(a) + entries(b),
    decreases b.len(),
{
    if b.len() == 0 {
        assert(a + b =~= a);
        assert(entries(a) + entries(b) =~= entries(a));
    } else {
        lemma_entries_join(a, b.drop_last());
        assert((a + b).drop_last() =~= a + b.drop_last());
        assert((a + b).last() == b.last());
        match entry_of(b.last()) {
            Some(name) => {
                assert((entries(a) + entries(b.drop_last())).push(name) =~= entries(a) + entries(
                    b.drop_last(),
                ).push(name));
            },
            None => {},
        }
    }
}

/// A blank line stands for no name.
pub proof fn lemma_entry_of_blank()
    ensures
        entry_of(Seq::<u8>::empty()) is None,
{
    let none = Seq::<u8>::empty();
    crate::text::lemma_blanked_len(none);
    assert(crate::text::blanked(none) =~= none);
    assert(trim_start(none) =~= none);
    assert(fields(none) =~= Seq::<Seq<u8>>::empty());
}

/// Blank lines add nothing to the names of the lines.
pub proof fn lemma_entries_solid(ls: Seq<Seq<u8>>)
    ensures
        entries(solid(ls)) == entries(ls),
    decreases ls.len(),
{
    if ls.len() > 0 {
        let first = seq![ls[0]];
        let rest = ls.drop_first();
        assert(ls =~= first + rest);
        lemma_entries_solid(rest);
        lemma_entries_join(first, rest);
        assert(first.drop_last() =~= Seq::<Seq<u8>>::empty());
        assert(entries(first.drop_last()) =~= Seq::<Seq<u8>>::empty());
        if ls[0].len() == 0 {
            assert(ls[0] =~= Seq::<u8>::empty());
            lemma_entry_of_blank();
            assert(entries(first) =~= Seq::<Seq<u8>>::empty());
            assert(entries(first) + entries(rest) =~= entries(rest));
        } else {
            lemma_entries_join(first, solid(rest));
        }
    }
}

/// Cutting line feeds down changes no name of a text.
pub proof fn lemma_squash_names(t: Seq<u8>, run: nat)
    ensures
        block_names(squash(t, run)) == block_names(t),
{
    lemma_solid_lines_squash(t, run);
    lemma_entries_solid(lines(t));
    lemma_entries_solid(lines(squash(t, run)));
}

/// Cutting line feeds down leaves a first line that holds something as it is.
proof fn lemma_squash_first_line(b: Seq<u8>)
    requires
        b.len() > 0,
        b[0] != NEWLINE,
        line_end(b, 0) < b.len(),
    ensures
        line_end(collapsed(b), 0) == line_end(b, 0),
        line_end(b, 0) < collapsed(b).len(),
        collapsed(b).subrange(0, line_end(b, 0)) == b.subrange(0, line_end(b, 0)),
{
    let cut = collapsed(b);
    let le = line_end(b, 0);
    lemma_line_end(b, 0);
    let first = b.take(le);
    let rest = b.skip(le + 1);
    let tail = seq![NEWLINE] + rest;
    assert(b =~= first + tail);
    assert(first.len() > 0);
    lemma_squash_line(first, tail, 0);
    assert(tail.drop_first() =~= rest);
    assert(squash(tail, 0) == seq![NEWLINE] + squash(rest, 1));
    assert(cut =~= first + seq![NEWLINE] + squash(rest, 1));
    assert forall|k: int| 0 <= k < le implies #[trigger] cut[k] != NEWLINE by {
        assert(cut[k] == first[k]);
    }
    assert(cut[le] == NEWLINE);
    lemma_line_end_is(cut, 0, le);
    assert(cut.subrange(0, le) =~= b.subrange(0, le));
}

/// Where a text ends with something that stands nowhere else in it, and that holds no
/// line feed, the same is true once the line feeds of the text are cut down.
proof fn lemma_squash_keeps_end(b: Seq<u8>, needle: Seq<u8>)
    requires
        one_line(needle),
        needle.len() > 0,
        occurs_at(b, needle, b.len() - needle.len()),
        forall|j: int| 0 <= j < b.len() - needle.len() ==> !occurs_at(b, needle, j),
    ensures
        occurs_at(collapsed(b), needle, collapsed(b).len() - needle.len()),
        forall|j: int|
            0 <= j < collapsed(b).len() - needle.len() ==> !occurs_at(collapsed(b), needle, j),
{
    let cut = collapsed(b);
    let none = Seq::<u8>::empty();
    let n = needle.len() as int;
    let body = b.take(b.len() - n);
    assert(b =~= body + needle) by {
        assert forall|k: int| 0 <= k < n implies b[b.len() - n + k] == #[trigger] needle[k] by {}
    }
    lemma_squash_before_solid(body, needle, 0);
    lemma_squash_line(needle, none, 0);
    assert(needle + none =~= needle);
    assert(needle + squash(none, 0) =~= needle);
    assert(cut =~= squash(body, 0) + needle);
    let close = cut.len() - n;
    assert(occurs_at(cut, needle, close)) by {
        assert forall|k: int| 0 <= k < n implies cut[close + k] == #[trigger] needle[k] by {}
    }
    let most = b.drop_last();
    let last = seq![b.last()];
    assert(b =~= most + last);
    assert(b.last() == needle[n - 1]) by {
        assert(b[b.len() - n + (n - 1)] == needle[n - 1]);
    }
    assert forall|i: int| !occurs_at(most, needle, i) by {
        if occurs_at(most, needle, i) {
            lemma_occurs_in_join(most, last, needle, i);
        }
    }
    lemma_squash_brings_nothing(most, 0, needle);
    lemma_squash_before_solid(most, last, 0);
    assert(squash(last, 0) =~= last) by {
        assert(last.drop_first() =~= none);
    }
    assert(cut =~= squash(most, 0) + last);
    assert forall|j: int| 0 <= j < close implies !occurs_at(cut, needle, j) by {
        if occurs_at(cut, needle, j) {
            lemma_occurs_in_join(squash(most, 0), last, needle, j);
        }
    }
}

/// Cutting line feeds down leaves a block a block, with the same region and names.
pub proof fn lemma_squash_whole(b: Seq<u8>)
    requires
        whole(b),
    ensures
        whole(collapsed(b)),
        tag_of(collapsed(b)) == tag_of(b),
        block_names(collapsed(b)) == block_names(b),
{
    lemma_marker_lengths();
    lemma_whole_ends(b);
    lemma_squash_names(b, 0);
    lemma_squash_first_line(b);
    let cut = collapsed(b);
    let le = line_end(b, 0);
    lemma_line_end(b, 0);
    assert(le >= 21 && occurs_at(cut, start_marker(), 0)) by {
        reveal_strlit("# clusterbanned start");
        if le < 21 {
            assert(b[0 + le] == start_marker()[le]);
        }
        assert forall|k: int| 0 <= k < 21 implies cut[0 + k] == #[trigger] start_marker()[k] by {
            assert(cut.subrange(0, le)[k] == b.subrange(0, le)[k]);
            assert(b[0 + k] == start_marker()[k]);
        }
    }
    assert(one_line(end_marker())) by {
        reveal_strlit("# clusterbanned end");
    }
    lemma_squash_keeps_end(b, end_marker());
    lemma_find_from_is(cut, end_marker(), 0, cut.len() - 19);
    assert(find_from(cut, start_marker(), 0) == Some(0int));
}

/// Cutting line feeds down in a block and what follows it is cutting them down in
/// both.
pub proof fn lemma_squash_block(b: Seq<u8>, rest: Seq<u8>, run: nat)
    requires
        whole(b),
    ensures
        squash(b + rest, run) == collapsed(b) + squash(rest, 0),
{
    lemma_whole_ends(b);
    let t = b + rest;
    assert(t[0] == b[0]);
    lemma_squash_any_run(t, run);
    lemma_squash_join(b, rest, 0);
    lemma_run_after_solid(b, 0);
}

/// Cutting line feeds down passes over the lines of the entries and the end marker.
proof fn lemma_squash_entries(names: Seq<Seq<u8>>, run: nat)
    requires
        all_tokens(names),
    ensures
        squash(entry_lines(names) + end_marker(), run) == entry_lines(names) + end_marker(),
    decreases names.len(),
{
    let none = Seq::<u8>::empty();
    if names.len() == 0 {
        reveal_strlit("# clusterbanned end");
        assert(entry_lines(names) + end_marker() =~= end_marker() + none);
        lemma_squash_line(end_marker(), none, run);
        assert(end_marker() + squash(none, 0) =~= entry_lines(names) + end_marker());
    } else {
        let x = names[0];
        let others = names.drop_first();
        assert(names =~= seq![x] + others);
        lemma_entry_lines_front(x, others);
        assert forall|i: int| 0 <= i < others.len() implies is_token(#[trigger] others[i]) by {
            assert(others[i] == names[i + 1]);
        }
        let line = entry_lead() + x;
        let after = entry_lines(others) + end_marker();
        assert(is_token(x));
        reveal_strlit("0.0.0.0 ");
        assert forall|k: int| 0 <= k < line.len() implies #[trigger] line[k] != NEWLINE by {
            if k >= 8 {
                assert(line[k] == x[k - 8]);
            }
        }
        let tail = seq![NEWLINE] + after;
        assert(entry_lines(names) + end_marker() =~= line + tail);
        lemma_squash_line(line, tail, run);
        assert(tail.drop_first() =~= after);
        lemma_squash_entries(others, 1);
        assert(squash(tail, 0) == seq![NEWLINE] + squash(after, 1));
    }
}

/// What the engine writes for a set of names holds no run of line feeds.
pub proof fn lemma_encoded_firm(region: Option<Seq<u8>>, names: Seq<Seq<u8>>)
    requires
        names.len() > 0,
        all_tokens(names),
        region matches Some(tag) ==> is_token(tag),
    ensures
        collapsed(encoded(region, names)) == encoded(region, names),
{
    let h = header(region);
    lemma_header(region);
    let after = entry_lines(names) + end_marker();
    let tail = seq![NEWLINE] + after;
    assert(encoded(region, names) =~= h + tail);
    lemma_squash_line(h, tail, 0);
    assert(tail.drop_first() =~= after);
    lemma_squash_entries(names, 1);
    assert(squash(tail, 0) == seq![NEWLINE] + squash(after, 1));
}

/// The gaps, each with its runs of line feeds cut down. `run` counts the line feeds
/// that stand before the first gap.
pub open spec fn settled_gaps(gaps: Seq<Seq<u8>>, run: nat) -> Seq<Seq<u8>> {
    Seq::new(gaps.len(), |i: int| squash(gaps[i], if i == 0 {
        run
    } else {
        0
    }))
}

/// The blocks, each with its runs of line feeds cut down.
pub open spec fn settled_blocks(blocks: Seq<Seq<u8>>) -> Seq<Seq<u8>> {
    Seq::new(blocks.len(), |i: int| collapsed(blocks[i]))
}

/// Cutting line feeds down in a file of gaps and blocks cuts them down in each gap and
/// in each block.
pub proof fn lemma_squash_document(gaps: Seq<Seq<u8>>, blocks: Seq<Seq<u8>>, run: nat)
    requires
        gaps.len() == blocks.len() + 1,
        forall|i: int| 0 <= i < blocks.len() ==> whole(#[trigger] blocks[i]),
    ensures
        squash(document(gaps, blocks), run) == document(
            settled_gaps(gaps, run),
            settled_blocks(blocks),
        ),
    decreases blocks.len(),
{
    let settled = settled_gaps(gaps, run);
    let cut_blocks = settled_blocks(blocks);
    if blocks.len() == 0 {
        assert(document(gaps, blocks) == gaps[0]);
        assert(document(settled, cut_blocks) == settled[0]);
    } else {
        let g = gaps[0];
        let b = blocks[0];
        let gaps1 = gaps.drop_first();
        let blocks1 = blocks.drop_first();
        let rest = document(gaps1, blocks1);
        assert(whole(b));
        lemma_document_unfold(gaps, blocks);
        lemma_document_unfold(settled, cut_blocks);
        lemma_whole_ends(b);
        let tail = b + rest;
        assert(document(gaps, blocks) =~= g + tail);
        assert(tail[0] == b[0]);
        lemma_squash_before_solid(g, tail, run);
        lemma_squash_block(b, rest, 0);
        assert forall|i: int| 0 <= i < blocks1.len() implies whole(#[trigger] blocks1[i]) by {
            assert(blocks1[i] == blocks[i + 1]);
        }
        lemma_squash_document(gaps1, blocks1, 0);
        assert(settled.drop_first() =~= settled_gaps(gaps1, 0));
        assert(cut_blocks.drop_first() =~= settled_blocks(blocks1));
        assert(squash(g, run) + (collapsed(b) + squash(rest, 0)) =~= settled[0] + cut_blocks[0]
            + document(settled.drop_first(), cut_blocks.drop_first()));
    }
}

/// A tidy file stays tidy when its runs of line feeds are cut down, and its blocks
/// keep their regions and names.
pub proof fn lemma_settled_tidy(gaps: Seq<Seq<u8>>, blocks: Seq<Seq<u8>>)
    requires
        tidy(gaps, blocks),
    ensures
        tidy(settled_gaps(gaps, 0), settled_blocks(blocks)),
        collapsed(document(gaps, blocks)) == document(
            settled_gaps(gaps, 0),
            settled_blocks(blocks),
        ),
        forall|i: int|
            0 <= i < blocks.len() ==> tag_of(#[trigger] settled_blocks(blocks)[i]) == tag_of(
                blocks[i],
            ) && block_names(settled_blocks(blocks)[i]) == block_names(blocks[i]),
{
    let settled = settled_gaps(gaps, 0);
    let cut_blocks = settled_blocks(blocks);
    assert forall|i: int| 0 <= i < settled.len() implies quiet(#[trigger] settled[i]) by {
        assert(quiet(gaps[i]));
        lemma_squash_quiet(gaps[i], 0);
    }
    assert forall|i: int| 1 <= i < settled.len() implies starts_line(#[trigger] settled[i]) by {
        assert(starts_line(gaps[i]));
        if gaps[i].len() > 0 {
            assert(settled[i][0] == NEWLINE);
        }
    }
    assert forall|i: int| 0 <= i < blocks.len() implies whole(#[trigger] cut_blocks[i]) && tag_of(
        cut_blocks[i],
    ) == tag_of(blocks[i]) && block_names(cut_blocks[i]) == block_names(blocks[i]) by {
        assert(whole(blocks[i]));
        lemma_squash_whole(blocks[i]);
    }
    lemma_squash_document(gaps, blocks, 0);
}

} // verus!
