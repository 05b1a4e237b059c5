//! What an edit writes holds no run of three line feeds, and begins with the line that
//! the text began with.

use crate::codec::{block_names, block_tag, encoded, end_marker, start_marker};
use crate::document::{block_appended, found_block, lemma_found_block};
use crate::joined::{all_tokens, is_token};
use crate::names::kept;
use crate::reconciler::{clear_content, remove_content, set_content, swept, without_block};
use crate::roundtrip::lemma_header;
use crate::settling::lemma_encoded_firm;
use crate::outside::lemma_squash_line;
use crate::text::{
    chomped, collapsed, ended, lemma_line_end, line_end, squash, unled, NEWLINE,
};
use crate::weaving::lemma_chomped_is_head;
use vstd::prelude::*;

verus! {

/// Nowhere in the text do three line feeds stand in a row.
pub open spec fn no_long_run(t: Seq<u8>) -> bool {
    forall|j: int|
        0 <= j && j + 2 < t.len() ==> !(#[trigger] t[j] == NEWLINE && t[j + 1] == NEWLINE && t[j
            + 2] == NEWLINE)
}

/// The number of line feeds that the text begins with.
pub open spec fn led(t: Seq<u8>) -> nat
    decreases t.len(),
{
    if t.len() > 0 && t[0] == NEWLINE {
        1 + led(t.drop_first())
    } else {
        0
    }
}

/// Once the runs of line feeds are cut down, none is longer than two, and what the
/// text begins with makes no run longer than two with the line feeds before it.
pub proof fn lemma_squash_runs(t: Seq<u8>, run: nat)
    requires
        run <= 2,
    ensures
        no_long_run(squash(t, run)),
        led(squash(t, run)) + run <= 2,
    decreases t.len(),
{
    let out = squash(t, run);
    if t.len() == 0 {
    } else if t[0] != NEWLINE {
        let rest = squash(t.drop_first(), 0);
        lemma_squash_runs(t.drop_first(), 0);
        assert(out.drop_first() =~= rest);
        assert forall|j: int| 0 <= j && j + 2 < out.len() implies !(#[trigger] out[j] == NEWLINE
            && out[j + 1] == NEWLINE && out[j + 2] == NEWLINE) by {
            if j > 0 {
                assert(rest[j - 1] == out[j]);
                assert(rest[j] == out[j + 1]);
                assert(rest[j + 1] == out[j + 2]);
            }
        }
    } else if run >= 2 {
        lemma_squash_runs(t.drop_first(), run);
    } else {
        let rest = squash(t.drop_first(), run + 1);
        lemma_squash_runs(t.drop_first(), run + 1);
        assert(out.drop_first() =~= rest);
        assert forall|j: int| 0 <= j && j + 2 < out.len() implies !(#[trigger] out[j] == NEWLINE
            && out[j + 1] == NEWLINE && out[j + 2] == NEWLINE) by {
            if j > 0 {
                assert(rest[j - 1] == out[j]);
                assert(rest[j] == out[j + 1]);
                assert(rest[j + 1] == out[j + 2]);
            } else if out[1] == NEWLINE && out[2] == NEWLINE {
                assert(rest[0] == out[1]);
                assert(rest[1] == out[2]);
                assert(rest.drop_first()[0] == rest[1]);
                assert(led(rest) == 1 + led(rest.drop_first()));
                assert(led(rest.drop_first()) >= 1);
            }
        }
    }
}

/// A part of a text without long runs holds none.
pub proof fn lemma_part_runs(t: Seq<u8>, a: int, b: int)
    requires
        no_long_run(t),
        0 <= a <= b <= t.len(),
    ensures
        no_long_run(t.subrange(a, b)),
{
    let part = t.subrange(a, b);
    assert forall|j: int| 0 <= j && j + 2 < part.len() implies !(#[trigger] part[j] == NEWLINE
        && part[j + 1] == NEWLINE && part[j + 2] == NEWLINE) by {
        assert(t[a + j] == part[j]);
        assert(t[a + j + 1] == part[j + 1]);
        assert(t[a + j + 2] == part[j + 2]);
    }
}

/// Two texts without long runs make one, where the first does not end or the second
/// does not begin with a line feed.
pub proof fn lemma_join_runs(a: Seq<u8>, b: Seq<u8>)
    requires
        no_long_run(a),
        no_long_run(b),
        b.len() <= 2 || b[0] != NEWLINE || a.len() == 0 || a.last() != NEWLINE,
        a.len() == 0 || a.last() != NEWLINE || b.len() == 0 || b[0] != NEWLINE,
    ensures
        no_long_run(a + b),
{
    let t = a + b;
    assert forall|j: int| 0 <= j && j + 2 < t.len() implies !(#[trigger] t[j] == NEWLINE && t[j
        + 1] == NEWLINE && t[j + 2] == NEWLINE) by {
        if j + 2 < a.len() {
            assert(a[j] == t[j]);
            assert(a[j + 1] == t[j + 1]);
            assert(a[j + 2] == t[j + 2]);
        } else if j >= a.len() {
            assert(b[j - a.len()] == t[j]);
            assert(b[j - a.len() + 1] == t[j + 1]);
            assert(b[j - a.len() + 2] == t[j + 2]);
        } else {
            assert(t[a.len() - 1] == a.last());
            assert(t[a.len() as int] == b[0]);
        }
    }
}

/// What is left of a text without its line feeds at the start is the tail of the text.
pub proof fn lemma_unled_is_tail(t: Seq<u8>)
    ensures
        unled(t).len() <= t.len(),
        unled(t) == t.subrange(t.len() - unled(t).len(), t.len() as int),
    decreases t.len(),
{
    if t.len() > 0 && t[0] == NEWLINE {
        let rest = t.drop_first();
        lemma_unled_is_tail(rest);
        assert(rest.subrange(rest.len() - unled(rest).len(), rest.len() as int) =~= t.subrange(
            t.len() - unled(t).len(),
            t.len() as int,
        ));
    } else {
        assert(t.subrange(0, t.len() as int) =~= t);
    }
}

/// A text without long runs has none when it is given just one line feed at its end.
pub proof fn lemma_ended_runs(t: Seq<u8>)
    requires
        no_long_run(t),
    ensures
        no_long_run(ended(t)),
{
    lemma_chomped_is_head(t);
    let head = chomped(t);
    assert(head =~= t.subrange(0, head.len() as int));
    lemma_part_runs(t, 0, head.len() as int);
    lemma_join_runs(head, seq![NEWLINE]);
}

/// Whatever taking names away or clearing writes holds no run of three line feeds,
/// and neither does what setting names writes where it took a block out. This holds
/// of names and a region that are tokens.
///
/// Where setting names finds no block to take out, it puts the new block at the end
/// and leaves the text before it as it was, with the runs that it held.
pub proof fn lemma_written_runs(text: Seq<u8>, region: Option<Seq<u8>>, names: Seq<Seq<u8>>)
    requires
        all_tokens(names),
        region matches Some(tag) ==> is_token(tag),
    ensures
        remove_content(text, region, names) matches Some(content) ==> no_long_run(content),
        clear_content(text) matches Some(content) ==> no_long_run(content),
        found_block(text, region, 0) is Some ==> (set_content(text, region, names) matches Some(
            content,
        ) ==> no_long_run(content)),
{
    let left = collapsed(swept(text, 0).0);
    lemma_squash_runs(swept(text, 0).0, 0);
    lemma_unled_is_tail(left);
    lemma_part_runs(left, left.len() - unled(left).len(), left.len() as int);
    lemma_ended_runs(unled(left));
    match found_block(text, region, 0) {
        Some((s, e)) => {
            let block = encoded(block_tag(text, s), kept(block_names(text.subrange(s, e)), names));
            lemma_squash_runs(text.take(s) + block + text.skip(e), 0);
            lemma_ended_runs(collapsed(text.take(s) + block + text.skip(e)));
            let base = without_block(text, region);
            lemma_squash_runs(text.take(s) + Seq::<u8>::empty() + text.skip(e), 0);
            lemma_ended_runs(base);
            if names.len() > 0 {
                let fresh = encoded(region, names);
                let two = seq![NEWLINE, NEWLINE];
                let one = seq![NEWLINE];
                lemma_encoded_firm(region, names);
                lemma_squash_runs(fresh, 0);
                lemma_header(region);
                assert(fresh[0] == start_marker()[0] && fresh[0] != NEWLINE) by {
                    reveal_strlit("# clusterbanned start");
                    assert(fresh[0int + 0] == start_marker()[0]);
                }
                assert(fresh.last() == end_marker().last() && fresh.last() != NEWLINE) by {
                    reveal_strlit("# clusterbanned end");
                }
                lemma_chomped_is_head(base);
                let head = chomped(base);
                assert(head =~= base.subrange(0, head.len() as int));
                lemma_part_runs(base, 0, head.len() as int);
                lemma_join_runs(head, two);
                lemma_join_runs(head + two, fresh);
                assert((head + two + fresh).last() == fresh.last());
                lemma_join_runs(head + two + fresh, one);
                assert(block_appended(base, fresh) =~= head + two + fresh + one);
            }
        },
        None => {},
    }
}

/// The line feeds at the end of a text stand behind its last byte that is none.
pub proof fn lemma_chomped_keeps(t: Seq<u8>, k: int)
    requires
        0 < k <= t.len(),
        t[k - 1] != NEWLINE,
    ensures
        chomped(t).len() >= k,
    decreases t.len(),
{
    if t.len() > 0 && t.last() == NEWLINE {
        assert(t.drop_last()[k - 1] == t[k - 1]);
        lemma_chomped_keeps(t.drop_last(), k);
    }
}

/// A text that begins with a line, before the span that is replaced, begins with that
/// line when the span is replaced, the runs of line feeds are cut down and the text is
/// given one line feed at its end or loses those at its end.
proof fn lemma_head_stays(text: Seq<u8>, s: int, e: int, new: Seq<u8>)
    requires
        0 < line_end(text, 0) <= s <= e <= text.len(),
    ensures
        ({
            let k = line_end(text, 0);
            let w = collapsed(text.take(s) + new + text.skip(e));
            &&& k <= chomped(w).len()
            &&& chomped(w).take(k) == text.take(k)
            &&& ended(w).take(k) == text.take(k)
        }),
{
    let k = line_end(text, 0);
    let line = text.take(k);
    let more = text.subrange(k, s) + new + text.skip(e);
    lemma_line_end(text, 0);
    assert(text.take(s) + new + text.skip(e) =~= line + more);
    lemma_squash_line(line, more, 0);
    let w = collapsed(line + more);
    assert(w[k - 1] == line[k - 1]);
    lemma_chomped_keeps(w, k);
    lemma_chomped_is_head(w);
    assert(chomped(w).take(k) =~= line);
    assert(ended(w).take(k) =~= line);
}

/// The first line of the text stays where it is, byte for byte, in what an edit writes.
///
/// This holds where the block that the edit takes out or writes anew, if there is
/// one, begins behind the first line.
pub proof fn lemma_first_line_stays(text: Seq<u8>, region: Option<Seq<u8>>, names: Seq<Seq<u8>>)
    requires
        found_block(text, region, 0) matches Some((s, e)) ==> line_end(text, 0) <= s,
    ensures
        set_content(text, region, names) matches Some(content) ==> line_end(text, 0)
            <= content.len() && content.take(line_end(text, 0)) == text.take(line_end(text, 0)),
        remove_content(text, region, names) matches Some(content) ==> line_end(text, 0)
            <= content.len() && content.take(line_end(text, 0)) == text.take(line_end(text, 0)),
{
    let k = line_end(text, 0);
    let none = Seq::<u8>::empty();
    lemma_line_end(text, 0);
    lemma_found_block(text, region, 0);
    if k > 0 {
        let base = without_block(text, region);
        match found_block(text, region, 0) {
            Some((s, e)) => {
                let block = encoded(
                    block_tag(text, s),
                    kept(block_names(text.subrange(s, e)), names),
                );
                lemma_head_stays(text, s, e, block);
                lemma_head_stays(text, s, e, none);
            },
            None => {
                lemma_chomped_keeps(text, k);
                lemma_chomped_is_head(text);
                assert(chomped(text).take(k) =~= text.take(k));
            },
        }
        if names.len() > 0 {
            let fresh = encoded(region, names);
            let written = block_appended(base, fresh);
            assert(written.take(k) =~= chomped(base).take(k));
        }
    } else {
        assert(text.take(0) =~= none);
        match set_content(text, region, names) {
            Some(content) => {
                assert(content.take(0) =~= none);
            },
            None => {},
        }
        match remove_content(text, region, names) {
            Some(content) => {
                assert(content.take(0) =~= none);
            },
            None => {},
        }
    }
}

} // verus!
