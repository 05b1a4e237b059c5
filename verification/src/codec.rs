//! The managed block: how it is written into a hosts file and how it is read back.
//!
//! A block runs from a start marker through the nearest end marker after it. The line
//! of the start marker may name a region as `region:<tag>`. Between the markers each
//! line maps the null address to one name.

use crate::names::{lemma_name_list, name_list, strictly_sorted, DomainSet};
use crate::text::{
    append, ascii, blank_wide_spaces, blanked, copy_range, end_of_line, fields, find, find_from,
    lemma_find_from, lemma_lines_from, line_end, lines, lowered, occurs_at, skip_spaces,
    split_fields, starts_with, token_end, token_len, trim_start, views, NEWLINE,
};
use vstd::prelude::*;
use vstd::slice::slice_subrange;

verus! {

/// The text that opens a managed block.
pub open spec fn start_marker() -> Seq<u8> {
    ascii("# clusterbanned start"@)
}

/// The text that closes a managed block.
pub open spec fn end_marker() -> Seq<u8> {
    ascii("# clusterbanned end"@)
}

/// What both markers begin with.
pub open spec fn marker_stem() -> Seq<u8> {
    ascii("# clusterbanned"@)
}

/// What stands before a region tag on the line of a start marker.
pub open spec fn region_key() -> Seq<u8> {
    ascii("region:"@)
}

/// What stands before the name on each line of a block.
pub open spec fn entry_lead() -> Seq<u8> {
    ascii("0.0.0.0 "@)
}

/// What joins the start marker and a region tag.
pub open spec fn region_lead() -> Seq<u8> {
    ascii(" region:"@)
}

/// The bytes of the start marker.
pub fn start_marker_bytes() -> (r: &'static [u8])
    ensures
        r@ == start_marker(),
{
    let s: &'static str = "# clusterbanned start";
    proof {
        reveal_strlit("# clusterbanned start");
        vstd::string::is_ascii_spec_bytes(s);
    }
    s.as_bytes()
}

/// The bytes of the end marker.
pub fn end_marker_bytes() -> (r: &'static [u8])
    ensures
        r@ == end_marker(),
{
    let s: &'static str = "# clusterbanned end";
    proof {
        reveal_strlit("# clusterbanned end");
        vstd::string::is_ascii_spec_bytes(s);
    }
    s.as_bytes()
}

/// The bytes of what both markers begin with.
pub fn marker_stem_bytes() -> (r: &'static [u8])
    ensures
        r@ == marker_stem(),
{
    let s: &'static str = "# clusterbanned";
    proof {
        reveal_strlit("# clusterbanned");
        vstd::string::is_ascii_spec_bytes(s);
    }
    s.as_bytes()
}

fn region_key_bytes() -> (r: &'static [u8])
    ensures
        r@ == region_key(),
{
    let s: &'static str = "region:";
    proof {
        reveal_strlit("region:");
        vstd::string::is_ascii_spec_bytes(s);
    }
    s.as_bytes()
}

fn entry_lead_bytes() -> (r: &'static [u8])
    ensures
        r@ == entry_lead(),
{
    let s: &'static str = "0.0.0.0 ";
    proof {
        reveal_strlit("0.0.0.0 ");
        vstd::string::is_ascii_spec_bytes(s);
    }
    s.as_bytes()
}

fn region_lead_bytes() -> (r: &'static [u8])
    ensures
        r@ == region_lead(),
{
    let s: &'static str = " region:";
    proof {
        reveal_strlit(" region:");
        vstd::string::is_ascii_spec_bytes(s);
    }
    s.as_bytes()
}

/// The lengths of the markers.
pub proof fn lemma_marker_lengths()
    ensures
        start_marker().len() == 21,
        end_marker().len() == 19,
        marker_stem().len() == 15,
        region_key().len() == 7,
        entry_lead().len() == 8,
        region_lead().len() == 8,
{
    reveal_strlit("# clusterbanned start");
    reveal_strlit("# clusterbanned end");
    reveal_strlit("# clusterbanned");
    reveal_strlit("region:");
    reveal_strlit("0.0.0.0 ");
    reveal_strlit(" region:");
}

/// The bytes of an optional text.
pub open spec fn opt_view(o: Option<Vec<u8>>) -> Option<Seq<u8>> {
    match o {
        Some(v) => Some(v@),
        None => None,
    }
}

/// The bytes of an optional borrowed text.
pub open spec fn opt_slice_view(o: Option<&[u8]>) -> Option<Seq<u8>> {
    match o {
        Some(v) => Some(v@),
        None => None,
    }
}

/// The line that opens a block for `region`.
pub open spec fn header(region: Option<Seq<u8>>) -> Seq<u8> {
    match region {
        Some(tag) => start_marker() + region_lead() + tag,
        None => start_marker(),
    }
}

/// The line of a block that holds `name`, with its line feed.
pub open spec fn entry_line(name: Seq<u8>) -> Seq<u8> {
    entry_lead() + name + seq![NEWLINE]
}

/// The lines of a block that hold `names`, in that order.
pub open spec fn entry_lines(names: Seq<Seq<u8>>) -> Seq<u8>
    decreases names.len(),
{
    if names.len() == 0 {
        Seq::empty()
    } else {
        entry_lines(names.drop_last()) + entry_line(names.last())
    }
}

/// The block for `region` that holds `names`: nothing at all where there are no names,
/// else the header line, one line for each name, and the end marker without a line feed.
pub open spec fn encoded(region: Option<Seq<u8>>, names: Seq<Seq<u8>>) -> Seq<u8> {
    if names.len() == 0 {
        Seq::empty()
    } else {
        header(region) + seq![NEWLINE] + entry_lines(names) + end_marker()
    }
}

/// Writes one line for each of `names` at the end of `out`.
pub fn append_entry_lines(out: &mut Vec<u8>, names: &Vec<Vec<u8>>)
    ensures
        final(out)@ == old(out)@ + entry_lines(views(names@)),
{
    let ghost head = out@;
    let mut i: usize = 0;
    assert(views(names@).take(0) =~= Seq::<Seq<u8>>::empty());
    assert(head + entry_lines(Seq::<Seq<u8>>::empty()) =~= head);
    while i < names.len()
        invariant
            i <= names.len(),
            out@ == head + entry_lines(views(names@).take(i as int)),
        decreases names.len() - i,
    {
        let ghost before = out@;
        append(out, entry_lead_bytes());
        append(out, names[i].as_slice());
        out.push(NEWLINE);
        proof {
            let upto = views(names@).take(i + 1);
            assert(upto.drop_last() =~= views(names@).take(i as int));
            assert(upto.last() == names@[i as int]@);
            assert(out@ =~= before + entry_line(names@[i as int]@));
            assert(head + entry_lines(upto) =~= before + entry_line(names@[i as int]@));
        }
        i += 1;
    }
    assert(views(names@).take(names.len() as int) =~= views(names@));
}

/// Writes the block for `region` that holds `names`. An empty set gives an empty text:
/// there is no such thing as an empty block.
pub fn encode(region: Option<&[u8]>, names: &DomainSet) -> (r: Vec<u8>)
    ensures
        r@ == encoded(opt_slice_view(region), names@),
{
    let mut out: Vec<u8> = Vec::new();
    if names.is_empty() {
        return out;
    }
    append(&mut out, start_marker_bytes());
    match region {
        Some(tag) => {
            append(&mut out, region_lead_bytes());
            append(&mut out, tag);
        },
        None => {},
    }
    out.push(NEWLINE);
    assert(out@ =~= header(opt_slice_view(region)) + seq![NEWLINE]);
    append_entry_lines(&mut out, names.as_list());
    append(&mut out, end_marker_bytes());
    out
}

/// The region that a line names: the token after the first `region:` on it. White
/// space of any kind ends the token.
pub open spec fn tag_of_line(line: Seq<u8>) -> Option<Seq<u8>> {
    let flat = blanked(line);
    match find_from(flat, region_key(), 0) {
        None => None,
        Some(p) => {
            let rest = trim_start(flat.skip(p + region_key().len()));
            let n = token_len(rest) as int;
            if n == 0 {
                None
            } else {
                Some(rest.take(n))
            }
        },
    }
}

/// The region of the block whose start marker stands at `start`: what the line of the
/// marker, from the marker on, names.
pub open spec fn block_tag(text: Seq<u8>, start: int) -> Option<Seq<u8>> {
    tag_of_line(text.subrange(start, line_end(text, start)))
}

/// Reads the region that `line` names.
pub fn region_of_line(line: &[u8]) -> (r: Option<Vec<u8>>)
    ensures
        opt_view(r) == tag_of_line(line@),
{
    let flat = blank_wide_spaces(line);
    let line = flat.as_slice();
    proof {
        lemma_marker_lengths();
        lemma_find_from(line@, region_key(), 0);
    }
    match find(line, region_key_bytes(), 0) {
        None => None,
        Some(p) => {
            let n: usize = line.len();
            assert(occurs_at(line@, region_key(), p as int));
            let a: usize = skip_spaces(line, p + 7, n);
            let b: usize = token_end(line, a);
            proof {
                assert(line@.subrange(p + 7, line.len() as int) =~= line@.skip(p + 7));
                assert(line@.subrange(a as int, line.len() as int) =~= line@.skip(a as int));
                assert(line@.skip(a as int).take(b - a) =~= line@.subrange(a as int, b as int));
            }
            if b == a {
                None
            } else {
                Some(copy_range(line, a, b))
            }
        },
    }
}

/// A line that begins, after white space, with one of the two markers.
pub open spec fn is_marker_line(line: Seq<u8>) -> bool {
    let t = trim_start(blanked(line));
    occurs_at(t, start_marker(), 0) || occurs_at(t, end_marker(), 0)
}

/// The name that a line inside a block stands for, as it is written: the second field
/// of a line that is no marker line and has two fields or more. White space of any
/// kind parts the fields.
pub open spec fn entry_of(line: Seq<u8>) -> Option<Seq<u8>> {
    if is_marker_line(line) || fields(blanked(line)).len() < 2 {
        None
    } else {
        Some(fields(blanked(line))[1])
    }
}

/// The names that the lines `ls` stand for, in the order of the lines.
pub open spec fn entries(ls: Seq<Seq<u8>>) -> Seq<Seq<u8>>
    decreases ls.len(),
{
    if ls.len() == 0 {
        Seq::empty()
    } else {
        match entry_of(ls.last()) {
            Some(name) => entries(ls.drop_last()).push(name),
            None => entries(ls.drop_last()),
        }
    }
}

/// The set of names that the lines of `text` stand for, in lower case.
pub open spec fn block_names(text: Seq<u8>) -> Seq<Seq<u8>> {
    name_list(entries(lines(text)))
}

/// `name` is the lower-case form of what some line of `text` stands for.
pub open spec fn lists_name(text: Seq<u8>, name: Seq<u8>) -> bool {
    exists|i: int|
        0 <= i < entries(lines(text)).len() && name == lowered(#[trigger] entries(lines(text))[i])
}

/// Reads the name that `line` stands for.
pub fn entry_name(line: &[u8]) -> (r: Option<Vec<u8>>)
    ensures
        opt_view(r) == entry_of(line@),
{
    let flat = blank_wide_spaces(line);
    let line = flat.as_slice();
    let a: usize = skip_spaces(line, 0, line.len());
    let t = slice_subrange(line, a, line.len());
    assert(line@.subrange(0, line.len() as int) =~= line@);
    if starts_with(t, start_marker_bytes()) || starts_with(t, end_marker_bytes()) {
        return None;
    }
    let f = split_fields(line);
    if f.len() < 2 {
        return None;
    }
    assert(views(f@)[1] == f@[1]@);
    let name = copy_range(f[1].as_slice(), 0, f[1].len());
    assert(name@ =~= f@[1]@);
    Some(name)
}

/// The names of a block are in order, without repeats, and hold just the lower-case
/// forms of what its lines stand for.
pub proof fn lemma_block_names(text: Seq<u8>)
    ensures
        strictly_sorted(block_names(text)),
        forall|d: Seq<u8>| block_names(text).contains(d) <==> lists_name(text, d),
{
    lemma_name_list(entries(lines(text)));
}

/// Reads the set of names that the lines of `text` stand for.
pub fn decode_names(text: &[u8]) -> (r: DomainSet)
    ensures
        r.wf(),
        r@ == block_names(text@),
{
    let mut out = DomainSet::new();
    let mut pos: usize = 0;
    let ghost mut done: Seq<Seq<u8>> = Seq::empty();
    assert(text@.skip(0) =~= text@);
    assert(done + lines(text@) =~= lines(text@));
    loop
        invariant
            pos <= text.len(),
            out.wf(),
            done + lines(text@.skip(pos as int)) == lines(text@),
            out@ == name_list(entries(done)),
        decreases text.len() - pos,
    {
        let e: usize = end_of_line(text, pos);
        let line = slice_subrange(text, pos, e);
        let ghost old_done = done;
        proof {
            lemma_lines_from(text@, pos as int);
            done = old_done.push(line@);
            assert(done.drop_last() =~= old_done);
        }
        match entry_name(line) {
            Some(name) => {
                out.insert(name.as_slice());
                assert(entries(done).drop_last() =~= entries(old_done));
            },
            None => {},
        }
        if e >= text.len() {
            assert(done =~= old_done + lines(text@.skip(pos as int)));
            return out;
        }
        assert(done + lines(text@.skip(e + 1)) =~= old_done + (seq![line@] + lines(
            text@.skip(e + 1),
        )));
        pos = e + 1;
    }
}

/// The first block at or after `from`: the first start marker and the first end marker
/// at or after it, as the indexes where the block begins and ends.
pub open spec fn next_block(text: Seq<u8>, from: int) -> Option<(int, int)> {
    match find_from(text, start_marker(), from) {
        None => None,
        Some(s) => match find_from(text, end_marker(), s) {
            None => None,
            Some(e) => Some((s, e + end_marker().len())),
        },
    }
}

/// A block lies within the text, behind `from`, and is longer than both markers.
pub proof fn lemma_next_block(text: Seq<u8>, from: int)
    requires
        0 <= from,
    ensures
        match next_block(text, from) {
            Some((s, e)) => {
                &&& from <= s
                &&& s + 40 <= e <= text.len()
                &&& occurs_at(text, start_marker(), s)
                &&& occurs_at(text, end_marker(), e - 19)
            },
            None => true,
        },
{
    lemma_marker_lengths();
    lemma_find_from(text, start_marker(), from);
    match find_from(text, start_marker(), from) {
        None => {},
        Some(s) => {
            lemma_find_from(text, end_marker(), s);
            match find_from(text, end_marker(), s) {
                None => {},
                Some(e) => {
                    lemma_markers_apart(text, s, e);
                },
            }
        },
    }
}

/// An end marker at or after a start marker begins behind the whole start marker.
pub proof fn lemma_markers_apart(text: Seq<u8>, s: int, e: int)
    requires
        occurs_at(text, start_marker(), s),
        occurs_at(text, end_marker(), e),
        s <= e,
    ensures
        s + 21 <= e,
{
    reveal_strlit("# clusterbanned start");
    reveal_strlit("# clusterbanned end");
    let a = start_marker();
    let b = end_marker();
    if e < s + 21 {
        let k = e - s;
        assert(text[e + 0] == b[0]);
        assert(text[s + k] == a[k]);
        if k == 0 {
            assert(text[e + 16] == b[16]);
            assert(text[s + 16] == a[16]);
        }
    }
}

/// The blocks of `text` from `from` on, each as the indexes where it begins and ends.
/// The search for the next block goes on where the last one ended, and stops at a
/// start marker that no end marker follows.
pub open spec fn block_spans(text: Seq<u8>, from: int) -> Seq<(int, int)>
    decreases text.len() - from,
    via block_spans_decreases
{
    if from < 0 {
        Seq::empty()
    } else {
        match next_block(text, from) {
            None => Seq::empty(),
            Some((s, e)) => seq![(s, e)] + block_spans(text, e),
        }
    }
}

#[via_fn]
proof fn block_spans_decreases(text: Seq<u8>, from: int) {
    if from >= 0 {
        lemma_next_block(text, from);
    }
}

/// Finds the first block at or after `from`.
pub fn next_span(text: &[u8], from: usize) -> (r: Option<(usize, usize)>)
    ensures
        match r {
            Some((s, e)) => next_block(text@, from as int) == Some((s as int, e as int)),
            None => next_block(text@, from as int) is None,
        },
{
    proof {
        lemma_marker_lengths();
    }
    let n: usize = text.len();
    match find(text, start_marker_bytes(), from) {
        None => None,
        Some(s) => match find(text, end_marker_bytes(), s) {
            None => None,
            Some(e) => {
                proof {
                    lemma_find_from(text@, end_marker(), s as int);
                    assert(occurs_at(text@, end_marker(), e as int));
                    assert(e + 19 <= n);
                }
                Some((s, e + 19))
            },
        },
    }
}

/// One managed block as it was found in a text.
pub struct ManagedBlock {
    /// The region that the line of the start marker names.
    pub region: Option<Vec<u8>>,
    /// The names that the lines of the block stand for.
    pub names: DomainSet,
    /// The index of the first byte of the start marker.
    pub start: usize,
    /// The index behind the last byte of the end marker.
    pub end: usize,
}

impl ManagedBlock {
    /// This is the block of `text` that begins at `span.0` and ends at `span.1`.
    pub open spec fn describes(&self, text: Seq<u8>, span: (int, int)) -> bool {
        &&& self.start == span.0
        &&& self.end == span.1
        &&& opt_view(self.region) == block_tag(text, span.0)
        &&& self.names.wf()
        &&& self.names@ == block_names(text.subrange(span.0, span.1))
    }
}

/// Reads the block of `text` that begins at `start` and ends at `end`.
pub fn read_block(text: &[u8], start: usize, end: usize) -> (r: ManagedBlock)
    requires
        start <= end <= text.len(),
    ensures
        r.describes(text@, (start as int, end as int)),
{
    let stop: usize = end_of_line(text, start);
    let region = region_of_line(slice_subrange(text, start, stop));
    let names = decode_names(slice_subrange(text, start, end));
    ManagedBlock { region, names, start, end }
}

/// Reads every managed block of `text`, in the order in which they stand.
pub fn decode(text: &[u8]) -> (r: Vec<ManagedBlock>)
    ensures
        r@.len() == block_spans(text@, 0).len(),
        forall|i: int|
            0 <= i < r@.len() ==> (#[trigger] r@[i]).describes(text@, block_spans(text@, 0)[i]),
{
    let mut out: Vec<ManagedBlock> = Vec::new();
    let mut pos: usize = 0;
    let ghost mut done: Seq<(int, int)> = Seq::empty();
    assert(done + block_spans(text@, 0) =~= block_spans(text@, 0));
    loop
        invariant
            pos <= text.len(),
            done + block_spans(text@, pos as int) == block_spans(text@, 0),
            out@.len() == done.len(),
            forall|i: int| 0 <= i < out@.len() ==> (#[trigger] out@[i]).describes(text@, done[i]),
        decreases text.len() - pos,
    {
        proof {
            lemma_next_block(text@, pos as int);
        }
        match next_span(text, pos) {
            None => {
                assert(done + Seq::<(int, int)>::empty() =~= done);
                return out;
            },
            Some((s, e)) => {
                let block = read_block(text, s, e);
                out.push(block);
                proof {
                    let span = (s as int, e as int);
                    assert(done.push(span) + block_spans(text@, e as int) =~= done + (seq![span]
                        + block_spans(text@, e as int)));
                    done = done.push(span);
                }
                pos = e;
            },
        }
    }
}

} // verus!
