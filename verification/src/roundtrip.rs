//! What is written as a block is read back as that block.

use crate::codec::{
    block_names, block_spans, block_tag, encoded, end_marker, entries, entry_lead, entry_line,
    entry_lines, entry_of, header, lemma_marker_lengths, next_block, region_key, region_lead,
    start_marker, tag_of_line,
};
use crate::joined::{
    all_tokens, is_token, lemma_fields_pair, lemma_line_end_is, lemma_lines_join,
    lemma_lines_single, lemma_token_len_is, lemma_trim_start_none, one_line,
};
use crate::names::{is_name_list, lemma_with_name_last, name_list};
use crate::text::{
    blanked, lemma_ascii_plain, lemma_find_from_is, lemma_find_from_none, lemma_occurs_blanked,
    lemma_plain_blanked, lemma_plain_join, lines, lowered, occurs_at, NEWLINE,
};
use vstd::prelude::*;

verus! {

/// The list of a set of names is that set.
pub proof fn lemma_name_list_of_set(names: Seq<Seq<u8>>)
    requires
        is_name_list(names),
    ensures
        name_list(names) == names,
    decreases names.len(),
{
    if names.len() > 0 {
        let front = names.drop_last();
        lemma_name_list_of_set(front);
        assert forall|k: int| 0 <= k < front.len() implies crate::names::lex_less(
            #[trigger] front[k],
            names.last(),
        ) by {
            assert(front[k] == names[k]);
        }
        assert(lowered(names[names.len() - 1]) == names[names.len() - 1]);
        lemma_with_name_last(front, names.last());
        assert(front.push(names.last()) =~= names);
    } else {
        assert(names =~= Seq::<Seq<u8>>::empty());
    }
}

/// The lines of the entries, each without its line feed.
pub open spec fn entry_texts(names: Seq<Seq<u8>>) -> Seq<Seq<u8>> {
    Seq::new(names.len(), |i: int| entry_lead() + names[i])
}

/// Every `#` of the text has a byte behind it that is no space.
pub open spec fn hash_safe(s: Seq<u8>) -> bool {
    forall|j: int| 0 <= j < s.len() && #[trigger] s[j] == 35u8 ==> j + 1 < s.len() && s[j + 1] != 32u8
}

/// Two safe texts joined are safe.
pub proof fn lemma_hash_safe_join(a: Seq<u8>, b: Seq<u8>)
    requires
        hash_safe(a),
        hash_safe(b),
    ensures
        hash_safe(a + b),
{
    let s = a + b;
    assert forall|j: int| 0 <= j < s.len() && #[trigger] s[j] == 35u8 implies j + 1 < s.len() && s[j
        + 1] != 32u8 by {
        if j < a.len() {
            assert(s[j] == a[j]);
            assert(s[j + 1] == a[j + 1]);
        } else {
            assert(s[j] == b[j - a.len()]);
            assert(s[j + 1] == b[j - a.len() + 1]);
        }
    }
}

/// A token with a line feed behind it is safe.
pub proof fn lemma_token_line_hash_safe(lead: Seq<u8>, name: Seq<u8>)
    requires
        forall|k: int| 0 <= k < lead.len() ==> #[trigger] lead[k] != 35u8,
        is_token(name),
    ensures
        hash_safe(lead + name + seq![NEWLINE]),
{
    let s = lead + name + seq![NEWLINE];
    assert forall|j: int| 0 <= j < s.len() && #[trigger] s[j] == 35u8 implies j + 1 < s.len() && s[j
        + 1] != 32u8 by {
        if j < lead.len() {
            assert(s[j] == lead[j]);
        } else if j < lead.len() + name.len() {
            assert(s[j] == name[j - lead.len()]);
            if j + 1 < lead.len() + name.len() {
                assert(s[j + 1] == name[j + 1 - lead.len()]);
            } else {
                assert(s[j + 1] == NEWLINE);
            }
        } else {
            assert(s[j] == NEWLINE);
        }
    }
}

/// The lines of the entries are safe.
pub proof fn lemma_entry_lines_hash_safe(names: Seq<Seq<u8>>)
    requires
        all_tokens(names),
    ensures
        hash_safe(entry_lines(names)),
    decreases names.len(),
{
    if names.len() > 0 {
        lemma_entry_lines_hash_safe(names.drop_last());
        assert(is_token(names[names.len() - 1]));
        reveal_strlit("0.0.0.0 ");
        lemma_token_line_hash_safe(entry_lead(), names.last());
        lemma_hash_safe_join(entry_lines(names.drop_last()), entry_line(names.last()));
    }
}

/// The lines of the entries are the line of the first and the lines of the others.
pub proof fn lemma_entry_lines_front(x: Seq<u8>, rest: Seq<Seq<u8>>)
    ensures
        entry_lines(seq![x] + rest) == entry_line(x) + entry_lines(rest),
    decreases rest.len(),
{
    let all = seq![x] + rest;
    if rest.len() == 0 {
        assert(all.drop_last() =~= Seq::<Seq<u8>>::empty());
        assert(all.last() == x);
        assert(entry_lines(all.drop_last()) =~= Seq::<u8>::empty());
        assert(entry_lines(all) =~= entry_line(x));
        assert(entry_line(x) + entry_lines(rest) =~= entry_line(x));
    } else {
        lemma_entry_lines_front(x, rest.drop_last());
        assert(all.drop_last() =~= seq![x] + rest.drop_last());
        assert(all.last() == rest.last());
        assert(entry_lines(all) =~= entry_line(x) + entry_lines(rest));
    }
}

/// The lines of the entries of a block, with what follows them on the last line.
pub proof fn lemma_lines_of_entries(names: Seq<Seq<u8>>, tail: Seq<u8>)
    requires
        all_tokens(names),
        one_line(tail),
    ensures
        lines(entry_lines(names) + tail) == entry_texts(names) + seq![tail],
    decreases names.len(),
{
    if names.len() == 0 {
        lemma_lines_single(tail);
        assert(entry_lines(names) + tail =~= tail);
        assert(entry_texts(names) + seq![tail] =~= seq![tail]);
    } else {
        let x = names[0];
        let rest = names.drop_first();
        assert(names =~= seq![x] + rest);
        lemma_entry_lines_front(x, rest);
        assert forall|i: int| 0 <= i < rest.len() implies is_token(#[trigger] rest[i]) by {
            assert(rest[i] == names[i + 1]);
        }
        lemma_lines_of_entries(rest, tail);
        let line = entry_lead() + x;
        assert(is_token(x));
        reveal_strlit("0.0.0.0 ");
        assert forall|k: int| 0 <= k < line.len() implies #[trigger] line[k] != NEWLINE by {
            if k >= 8 {
                assert(line[k] == x[k - 8]);
            }
        }
        lemma_lines_join(line, entry_lines(rest) + tail);
        assert(entry_lines(names) + tail =~= line + seq![NEWLINE] + (entry_lines(rest) + tail));
        assert(entry_texts(names) + seq![tail] =~= seq![line] + (entry_texts(rest) + seq![tail]));
    }
}

/// A line of a block stands for the name that is written on it.
pub proof fn lemma_entry_of_entry_text(name: Seq<u8>)
    requires
        is_token(name),
    ensures
        entry_of(entry_lead() + name) == Some(name),
{
    reveal_strlit("0.0.0.0 ");
    reveal_strlit("# clusterbanned start");
    reveal_strlit("# clusterbanned end");
    let line = entry_lead() + name;
    let address = entry_lead().take(7);
    lemma_ascii_plain(address);
    lemma_ascii_plain(entry_lead());
    lemma_plain_join(entry_lead(), name);
    lemma_plain_blanked(line);
    assert(is_token(address));
    assert(line =~= address + seq![32u8] + name);
    lemma_fields_pair(address, name);
    assert(line[0] == 48u8);
    lemma_trim_start_none(line);
    assert(!occurs_at(line, start_marker(), 0)) by {
        if occurs_at(line, start_marker(), 0) {
            assert(line[0int + 0] == start_marker()[0]);
        }
    }
    assert(!occurs_at(line, end_marker(), 0)) by {
        if occurs_at(line, end_marker(), 0) {
            assert(line[0int + 0] == end_marker()[0]);
        }
    }
}

/// A line that begins with a marker stands for no name.
pub proof fn lemma_entry_of_marker_line(line: Seq<u8>)
    requires
        occurs_at(line, start_marker(), 0) || occurs_at(line, end_marker(), 0),
    ensures
        entry_of(line) is None,
{
    reveal_strlit("# clusterbanned start");
    reveal_strlit("# clusterbanned end");
    let flat = blanked(line);
    if occurs_at(line, start_marker(), 0) {
        lemma_occurs_blanked(line, start_marker(), 0);
        assert(flat[0int + 0] == start_marker()[0]);
    } else {
        lemma_occurs_blanked(line, end_marker(), 0);
        assert(flat[0int + 0] == end_marker()[0]);
    }
    lemma_trim_start_none(flat);
}

/// The lines of the entries stand for the names, in order.
pub proof fn lemma_entries_of_texts(head: Seq<u8>, names: Seq<Seq<u8>>, k: int)
    requires
        entry_of(head) is None,
        all_tokens(names),
        0 <= k <= names.len(),
    ensures
        entries(seq![head] + entry_texts(names).take(k)) == names.take(k),
    decreases k,
{
    let ls = seq![head] + entry_texts(names).take(k);
    if k == 0 {
        assert(ls =~= seq![head]);
        assert(ls.drop_last() =~= Seq::<Seq<u8>>::empty());
        assert(ls.last() == head);
        assert(entries(ls.drop_last()) =~= Seq::<Seq<u8>>::empty());
        assert(entries(ls) =~= Seq::<Seq<u8>>::empty());
    } else {
        lemma_entries_of_texts(head, names, k - 1);
        assert(ls.drop_last() =~= seq![head] + entry_texts(names).take(k - 1));
        assert(ls.last() == entry_lead() + names[k - 1]);
        assert(is_token(names[k - 1]));
        lemma_entry_of_entry_text(names[k - 1]);
        assert(names.take(k).drop_last() =~= names.take(k - 1));
        assert(entries(ls) =~= names.take(k));
    }
}

/// The header line holds no white space but the space before the region.
proof fn lemma_header_plain(region: Option<Seq<u8>>)
    requires
        region matches Some(tag) ==> is_token(tag),
    ensures
        blanked(header(region)) == header(region),
{
    let lead = start_marker() + region_lead();
    assert(forall|i: int| 0 <= i < lead.len() ==> #[trigger] lead[i] < 128) by {
        reveal_strlit("# clusterbanned start");
        reveal_strlit(" region:");
    }
    assert(forall|i: int| 0 <= i < start_marker().len() ==> #[trigger] start_marker()[i] < 128) by {
        reveal_strlit("# clusterbanned start");
    }
    assert(lead.len() > 0 && lead.last() < 128) by {
        reveal_strlit("# clusterbanned start");
        reveal_strlit(" region:");
    }
    lemma_ascii_plain(lead);
    lemma_ascii_plain(start_marker());
    match region {
        Some(tag) => {
            lemma_plain_join(lead, tag);
        },
        None => {},
    }
    lemma_plain_blanked(header(region));
}

/// The header line holds no line feed and names its region.
pub proof fn lemma_header(region: Option<Seq<u8>>)
    requires
        region matches Some(tag) ==> is_token(tag),
    ensures
        one_line(header(region)),
        occurs_at(header(region), start_marker(), 0),
        tag_of_line(header(region)) == region,
        header(region).len() >= 21,
{
    reveal_strlit("# clusterbanned start");
    reveal_strlit(" region:");
    reveal_strlit("region:");
    let h = header(region);
    lemma_header_plain(region);
    match region {
        None => {
            assert forall|j: int| 0 <= j implies !occurs_at(h, region_key(), j) by {
                if occurs_at(h, region_key(), j) {
                    assert(h[j + 6] == region_key()[6]);
                }
            }
            lemma_find_from_none(h, region_key(), 0);
        },
        Some(tag) => {
            assert forall|k: int| 0 <= k < h.len() implies #[trigger] h[k] != NEWLINE by {
                if k >= 29 {
                    assert(h[k] == tag[k - 29]);
                }
            }
            assert(occurs_at(h, start_marker(), 0)) by {
                assert forall|k: int| 0 <= k < 21 implies h[0 + k] == #[trigger] start_marker()[k] by {}
            }
            assert(occurs_at(h, region_key(), 22)) by {
                assert forall|k: int| 0 <= k < 7 implies h[22 + k] == #[trigger] region_key()[k] by {}
            }
            assert forall|j: int| 0 <= j < 22 implies !occurs_at(h, region_key(), j) by {
                if occurs_at(h, region_key(), j) {
                    assert(h[j + 6] == region_key()[6]);
                }
            }
            lemma_find_from_is(h, region_key(), 0, 22);
            assert(h.skip(29) =~= tag);
            lemma_trim_start_none(tag);
            lemma_token_len_is(tag, tag.len() as int);
            assert(tag.take(tag.len() as int) =~= tag);
        },
    }
}

/// In what `encode` writes, the block runs from the first byte to the last.
pub proof fn lemma_encoded_span(region: Option<Seq<u8>>, names: Seq<Seq<u8>>)
    requires
        names.len() > 0,
        all_tokens(names),
        region matches Some(tag) ==> is_token(tag),
    ensures
        next_block(encoded(region, names), 0) == Some(
            (0int, encoded(region, names).len() as int),
        ),
        encoded(region, names).len() >= 40,
{
    lemma_marker_lengths();
    reveal_strlit("# clusterbanned start");
    reveal_strlit("# clusterbanned end");
    reveal_strlit(" region:");
    let text = encoded(region, names);
    let h = header(region);
    let body = entry_lines(names);
    let middle = text.subrange(21, text.len() - 19);
    let after_marker = h.skip(21);
    assert(hash_safe(after_marker + seq![NEWLINE])) by {
        match region {
            None => {
                assert(after_marker + seq![NEWLINE] =~= seq![NEWLINE]);
            },
            Some(tag) => {
                assert(after_marker + seq![NEWLINE] =~= region_lead() + tag + seq![NEWLINE]);
                lemma_token_line_hash_safe(region_lead(), tag);
            },
        }
    }
    lemma_entry_lines_hash_safe(names);
    lemma_hash_safe_join(after_marker + seq![NEWLINE], body);
    assert(middle =~= after_marker + seq![NEWLINE] + body);
    let close = text.len() - 19;
    assert(occurs_at(text, start_marker(), 0)) by {
        assert forall|k: int| 0 <= k < 21 implies text[0 + k] == #[trigger] start_marker()[k] by {
            assert(text[k] == h[k]);
        }
    }
    assert(occurs_at(text, end_marker(), close)) by {
        assert forall|k: int| 0 <= k < 19 implies text[close + k] == #[trigger] end_marker()[k] by {
            assert(text[close + k] == end_marker()[k]);
        }
    }
    assert forall|j: int| 0 <= j < close implies !occurs_at(text, end_marker(), j) by {
        if occurs_at(text, end_marker(), j) {
            assert(text[j + 0int] == end_marker()[0]);
            assert(text[j + 1] == end_marker()[1]);
            assert(text[j + 16] == end_marker()[16]);
            if j == 0 {
                assert(text[16] == h[16]);
            } else if j < 21 {
                assert(text[j] == h[j]);
            } else {
                assert(text[j] == middle[j - 21]);
                if j + 1 < close {
                    assert(text[j + 1] == middle[j + 1 - 21]);
                }
            }
        }
    }
    lemma_find_from_is(text, end_marker(), 0, close);
}

/// In what `encode` writes, the line of the start marker names the region.
pub proof fn lemma_encoded_tag(region: Option<Seq<u8>>, names: Seq<Seq<u8>>)
    requires
        names.len() > 0,
        region matches Some(tag) ==> is_token(tag),
    ensures
        block_tag(encoded(region, names), 0) == region,
{
    let text = encoded(region, names);
    let h = header(region);
    lemma_header(region);
    assert forall|k: int| 0 <= k < h.len() implies #[trigger] text[k] != NEWLINE by {
        assert(text[k] == h[k]);
    }
    assert(text[h.len() as int] == NEWLINE);
    lemma_line_end_is(text, 0, h.len() as int);
    assert(text.subrange(0, h.len() as int) =~= h);
}

/// What `encode` writes lists just the names that were given.
pub proof fn lemma_encoded_names(region: Option<Seq<u8>>, names: Seq<Seq<u8>>)
    requires
        names.len() > 0,
        is_name_list(names),
        all_tokens(names),
        region matches Some(tag) ==> is_token(tag),
    ensures
        block_names(encoded(region, names)) == names,
{
    reveal_strlit("# clusterbanned end");
    let text = encoded(region, names);
    let h = header(region);
    let body = entry_lines(names);
    lemma_header(region);
    lemma_lines_of_entries(names, end_marker());
    lemma_lines_join(h, body + end_marker());
    assert(text =~= h + seq![NEWLINE] + (body + end_marker()));
    let ls = lines(text);
    let inner = seq![h] + entry_texts(names);
    assert(ls =~= inner.push(end_marker()));
    lemma_entry_of_marker_line(h);
    assert(occurs_at(end_marker(), end_marker(), 0));
    lemma_entry_of_marker_line(end_marker());
    lemma_entries_of_texts(h, names, names.len() as int);
    assert(entry_texts(names).take(names.len() as int) =~= entry_texts(names));
    assert(ls.drop_last() =~= inner);
    assert(ls.last() == end_marker());
    assert(entries(ls) == entries(inner));
    assert(names.take(names.len() as int) =~= names);
    lemma_name_list_of_set(names);
}

/// What `encode` writes for a set of names, `decode` reads back as one block that runs
/// from the first byte to the last, names the same region and lists the same names.
/// This holds of a set of names in lower case, and of names and tags that are tokens:
/// they are not empty and hold no white space. For the empty set nothing is written,
/// and so no block is read.
pub proof fn lemma_decode_encoded(region: Option<Seq<u8>>, names: Seq<Seq<u8>>)
    requires
        is_name_list(names),
        all_tokens(names),
        region matches Some(tag) ==> is_token(tag),
    ensures
        names.len() == 0 ==> block_spans(encoded(region, names), 0).len() == 0,
        names.len() > 0 ==> {
            let text = encoded(region, names);
            &&& block_spans(text, 0) == seq![(0int, text.len() as int)]
            &&& block_tag(text, 0) == region
            &&& block_names(text.subrange(0, text.len() as int)) == names
        },
{
    lemma_marker_lengths();
    let text = encoded(region, names);
    if names.len() == 0 {
        assert(next_block(text, 0) is None);
    } else {
        lemma_encoded_span(region, names);
        lemma_encoded_tag(region, names);
        lemma_encoded_names(region, names);
        assert(next_block(text, text.len() as int) is None);
        assert(block_spans(text, text.len() as int) =~= Seq::<(int, int)>::empty());
        assert(block_spans(text, 0) =~= seq![(0int, text.len() as int)]);
        assert(text.subrange(0, text.len() as int) =~= text);
    }
}

} // verus!
