//! Every name that a hosts file maps, in managed blocks or elsewhere.

use crate::names::{name_list, DomainSet};
use crate::text::{
    blank_wide_spaces, blanked, end_of_line, fields, lemma_lines_from, lines, skip_spaces,
    split_fields, trim_start, views,
};
use vstd::prelude::*;
use vstd::slice::slice_subrange;

verus! {

/// A text that holds a dot.
pub open spec fn has_dot(s: Seq<u8>) -> bool {
    s.contains(46u8)
}

/// The texts of `fs` that hold a dot, in order.
pub open spec fn dotted(fs: Seq<Seq<u8>>) -> Seq<Seq<u8>>
    decreases fs.len(),
{
    if fs.len() == 0 {
        fs
    } else if has_dot(fs.last()) {
        dotted(fs.drop_last()).push(fs.last())
    } else {
        dotted(fs.drop_last())
    }
}

/// The names that a line maps: of a line that is neither blank nor a comment, every
/// field behind the first that holds a dot.
pub open spec fn names_on_line(line: Seq<u8>) -> Seq<Seq<u8>> {
    let t = trim_start(line);
    if t.len() == 0 || t[0] == 35u8 || fields(line).len() < 2 {
        Seq::empty()
    } else {
        dotted(fields(line).skip(1))
    }
}

/// The names that the lines map, in order and with repeats.
pub open spec fn names_on_lines(ls: Seq<Seq<u8>>) -> Seq<Seq<u8>>
    decreases ls.len(),
{
    if ls.len() == 0 {
        Seq::empty()
    } else {
        names_on_lines(ls.drop_last()) + names_on_line(ls.last())
    }
}

/// The set of the names that `text` maps, in lower case. White space of any kind
/// parts the fields of a line.
pub open spec fn mapped_names(text: Seq<u8>) -> Seq<Seq<u8>> {
    name_list(names_on_lines(lines(blanked(text))))
}

proof fn lemma_name_list_push(items: Seq<Seq<u8>>, x: Seq<u8>)
    ensures
        name_list(items.push(x)) == crate::names::with_name(
            name_list(items),
            crate::text::lowered(x),
        ),
{
    assert(items.push(x).drop_last() =~= items);
}

/// Tells whether `s` holds a dot.
fn holds_dot(s: &[u8]) -> (r: bool)
    ensures
        r == has_dot(s@),
{
    let mut i: usize = 0;
    while i < s.len()
        invariant
            i <= s.len(),
            forall|k: int| 0 <= k < i ==> s@[k] != 46u8,
        decreases s.len() - i,
    {
        if s[i] == 46 {
            return true;
        }
        i += 1;
    }
    false
}

/// Puts the names that `line` maps into `out`.
fn add_names_on_line(out: &mut DomainSet, line: &[u8], items: Ghost<Seq<Seq<u8>>>)
    requires
        old(out).wf(),
        old(out)@ == name_list(items@),
    ensures
        final(out).wf(),
        final(out)@ == name_list(items@ + names_on_line(line@)),
{
    let a: usize = skip_spaces(line, 0, line.len());
    assert(line@.subrange(0, line.len() as int) =~= line@);
    assert(items@ + Seq::<Seq<u8>>::empty() =~= items@);
    if a >= line.len() || line[a] == 35 {
        assert(trim_start(line@).len() > 0 ==> trim_start(line@)[0] == line@[a as int]);
        return ;
    }
    assert(trim_start(line@)[0] == line@[a as int]);
    let f = split_fields(line);
    if f.len() < 2 {
        return ;
    }
    let ghost tail = fields(line@).skip(1);
    let mut k: usize = 1;
    assert(tail.take(0) =~= Seq::<Seq<u8>>::empty());
    while k < f.len()
        invariant
            1 <= k <= f.len(),
            views(f@) == fields(line@),
            tail == fields(line@).skip(1),
            out.wf(),
            out@ == name_list(items@ + dotted(tail.take(k - 1))),
        decreases f.len() - k,
    {
        proof {
            let upto = tail.take(k as int);
            assert(upto.drop_last() =~= tail.take(k - 1));
            assert(upto.last() == f@[k as int]@);
        }
        if holds_dot(f[k].as_slice()) {
            proof {
                lemma_name_list_push(items@ + dotted(tail.take(k - 1)), f@[k as int]@);
                assert((items@ + dotted(tail.take(k - 1))).push(f@[k as int]@) =~= items@
                    + dotted(tail.take(k as int)));
            }
            out.insert(f[k].as_slice());
        }
        k += 1;
    }
    assert(tail.take(f.len() - 1) =~= tail);
}

/// Reads every name that `text` maps to an address, whether in a managed block or not.
///
/// A line that is blank or begins with `#` maps nothing. Of any other line every field
/// behind the first counts that holds a dot. The names come in lower case, in order
/// and without repeats.
pub fn parse_blocked_domains_from_text(text: &[u8]) -> (r: Vec<Vec<u8>>)
    ensures
        views(r@) == mapped_names(text@),
{
    let flat = blank_wide_spaces(text);
    let body = flat.as_slice();
    let mut out = DomainSet::new();
    let mut pos: usize = 0;
    let ghost mut done: Seq<Seq<u8>> = Seq::empty();
    assert(body@.skip(0) =~= body@);
    assert(done + lines(body@) =~= lines(body@));
    loop
        invariant
            pos <= body.len(),
            body@ == blanked(text@),
            out.wf(),
            done + lines(body@.skip(pos as int)) == lines(body@),
            out@ == name_list(names_on_lines(done)),
        decreases body.len() - pos,
    {
        let e: usize = end_of_line(body, pos);
        let line = slice_subrange(body, pos, e);
        let ghost old_done = done;
        add_names_on_line(&mut out, line, Ghost(names_on_lines(old_done)));
        proof {
            lemma_lines_from(body@, pos as int);
            done = old_done.push(line@);
            assert(done.drop_last() =~= old_done);
        }
        if e >= body.len() {
            assert(done =~= old_done + lines(body@.skip(pos as int)));
            return out.to_vec();
        }
        assert(done + lines(body@.skip(e + 1)) =~= old_done + (seq![line@] + lines(
            body@.skip(e + 1),
        )));
        pos = e + 1;
    }
}

} // verus!
