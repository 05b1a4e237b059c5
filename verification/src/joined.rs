//! How lines, fields and searches behave on texts that are joined from parts.

use crate::text::{
    fields, find_from, is_space, lemma_find_from, lemma_find_from_is, line_end, lines, occurs_at,
    plain, token_len, trim_start, NEWLINE,
};
use vstd::prelude::*;

verus! {

/// A text that is not empty and holds no white space of any kind.
pub open spec fn is_token(s: Seq<u8>) -> bool {
    s.len() > 0 && plain(s) && forall|k: int| 0 <= k < s.len() ==> !is_space(#[trigger] s[k])
}

/// Every text of the list is a token.
pub open spec fn all_tokens(l: Seq<Seq<u8>>) -> bool {
    forall|i: int| 0 <= i < l.len() ==> is_token(#[trigger] l[i])
}

/// A text that holds no line feed.
pub open spec fn one_line(s: Seq<u8>) -> bool {
    forall|k: int| 0 <= k < s.len() ==> #[trigger] s[k] != NEWLINE
}

/// The first line feed is where the line ends.
pub proof fn lemma_line_end_is(t: Seq<u8>, from: int, at: int)
    requires
        0 <= from <= at <= t.len(),
        forall|k: int| from <= k < at ==> #[trigger] t[k] != NEWLINE,
        at < t.len() ==> t[at] == NEWLINE,
    ensures
        line_end(t, from) == at,
    decreases at - from,
{
    if from < at {
        lemma_line_end_is(t, from + 1, at);
    }
}

/// A text without line feed is its own single line.
pub proof fn lemma_lines_single(a: Seq<u8>)
    requires
        one_line(a),
    ensures
        lines(a) == seq![a],
{
    lemma_line_end_is(a, 0, a.len() as int);
}

/// A line, a line feed and more text: the lines are that line and the lines of the rest.
pub proof fn lemma_lines_join(a: Seq<u8>, b: Seq<u8>)
    requires
        one_line(a),
    ensures
        lines(a + seq![NEWLINE] + b) == seq![a] + lines(b),
{
    let t = a + seq![NEWLINE] + b;
    assert forall|k: int| 0 <= k < a.len() implies #[trigger] t[k] != NEWLINE by {
        assert(t[k] == a[k]);
    }
    assert(t[a.len() as int] == NEWLINE);
    lemma_line_end_is(t, 0, a.len() as int);
    assert(t.take(a.len() as int) =~= a);
    assert(t.skip(a.len() as int + 1) =~= b);
}

/// The length of the first token is where the first white space stands.
pub proof fn lemma_token_len_is(s: Seq<u8>, n: int)
    requires
        0 <= n <= s.len(),
        forall|k: int| 0 <= k < n ==> !is_space(#[trigger] s[k]),
        n < s.len() ==> is_space(s[n]),
    ensures
        token_len(s) == n,
    decreases n,
{
    if n > 0 {
        let rest = s.drop_first();
        assert forall|k: int| 0 <= k < n - 1 implies !is_space(#[trigger] rest[k]) by {
            assert(rest[k] == s[k + 1]);
        }
        if n < s.len() {
            assert(rest[n - 1] == s[n]);
        }
        lemma_token_len_is(rest, n - 1);
    }
}

/// A text that begins with something other than white space has none to lose there.
pub proof fn lemma_trim_start_none(s: Seq<u8>)
    requires
        s.len() == 0 || !is_space(s[0]),
    ensures
        trim_start(s) == s,
{
}

/// The fields of a token are the token alone.
pub proof fn lemma_fields_token(s: Seq<u8>)
    requires
        is_token(s),
    ensures
        fields(s) == seq![s],
{
    lemma_trim_start_none(s);
    lemma_token_len_is(s, s.len() as int);
    assert(s.take(s.len() as int) =~= s);
    assert(s.skip(s.len() as int) =~= Seq::<u8>::empty());
    assert(trim_start(Seq::<u8>::empty()) =~= Seq::<u8>::empty());
    assert(fields(s.skip(s.len() as int)) =~= Seq::<Seq<u8>>::empty());
    assert(seq![s] + Seq::<Seq<u8>>::empty() =~= seq![s]);
}

/// The fields of two tokens with one space between them are the two tokens.
pub proof fn lemma_fields_pair(a: Seq<u8>, b: Seq<u8>)
    requires
        is_token(a),
        is_token(b),
    ensures
        fields(a + seq![32u8] + b) == seq![a, b],
{
    let s = a + seq![32u8] + b;
    assert(s[0] == a[0]);
    lemma_trim_start_none(s);
    assert forall|k: int| 0 <= k < a.len() implies !is_space(#[trigger] s[k]) by {
        assert(s[k] == a[k]);
    }
    assert(s[a.len() as int] == 32u8);
    lemma_token_len_is(s, a.len() as int);
    assert(s.take(a.len() as int) =~= a);
    let rest = s.skip(a.len() as int);
    assert(rest =~= seq![32u8] + b);
    assert(rest.drop_first() =~= b);
    assert(is_space(rest[0]));
    lemma_trim_start_none(b);
    assert(trim_start(rest) == b);
    lemma_fields_token(b);
    lemma_token_len_is(b, b.len() as int);
    assert(b.take(b.len() as int) =~= b);
    assert(fields(rest) =~= seq![b]) by {
        assert(b.skip(b.len() as int) =~= Seq::<u8>::empty());
        assert(trim_start(Seq::<u8>::empty()) =~= Seq::<u8>::empty());
        assert(fields(b.skip(b.len() as int)) =~= Seq::<Seq<u8>>::empty());
    }
    assert(seq![a] + seq![b] =~= seq![a, b]);
}

/// An index moved along by `by`.
pub open spec fn shifted(r: Option<int>, by: int) -> Option<int> {
    match r {
        Some(i) => Some(i + by),
        None => None,
    }
}

/// What stands in the first of two joined texts stands in the whole, and what stands
/// behind the first stands in the second.
pub proof fn lemma_occurs_in_join(a: Seq<u8>, b: Seq<u8>, needle: Seq<u8>, at: int)
    ensures
        at + needle.len() <= a.len() ==> (occurs_at(a + b, needle, at) <==> occurs_at(
            a,
            needle,
            at,
        )),
        at >= a.len() ==> (occurs_at(a + b, needle, at) <==> occurs_at(b, needle, at - a.len())),
{
    let t = a + b;
    if 0 <= at && at + needle.len() <= a.len() {
        if occurs_at(t, needle, at) {
            assert forall|k: int| 0 <= k < needle.len() implies a[at + k] == #[trigger] needle[k] by {
                assert(t[at + k] == needle[k]);
                assert(t[at + k] == a[at + k]);
            }
        }
        if occurs_at(a, needle, at) {
            assert forall|k: int| 0 <= k < needle.len() implies t[at + k] == #[trigger] needle[k] by {
                assert(a[at + k] == needle[k]);
                assert(t[at + k] == a[at + k]);
            }
        }
    }
    if at >= a.len() {
        let off = at - a.len();
        if occurs_at(t, needle, at) {
            assert forall|k: int| 0 <= k < needle.len() implies b[off + k] == #[trigger] needle[k] by {
                assert(t[at + k] == needle[k]);
                assert(t[at + k] == b[off + k]);
            }
        }
        if occurs_at(b, needle, off) {
            assert forall|k: int| 0 <= k < needle.len() implies t[at + k] == #[trigger] needle[k] by {
                assert(b[off + k] == needle[k]);
                assert(t[at + k] == b[off + k]);
            }
        }
    }
}

/// A search that starts behind the first of two joined texts is a search in the second.
pub proof fn lemma_find_shift(a: Seq<u8>, b: Seq<u8>, needle: Seq<u8>, from: int)
    requires
        from >= a.len(),
    ensures
        find_from(a + b, needle, from) == shifted(
            find_from(b, needle, from - a.len()),
            a.len() as int,
        ),
    decreases a.len() + b.len() - from,
{
    let t = a + b;
    if from + needle.len() > t.len() {
    } else {
        lemma_occurs_in_join(a, b, needle, from);
        if !occurs_at(t, needle, from) {
            lemma_find_shift(a, b, needle, from + 1);
        }
    }
}

/// What a search finds in a text, it finds in that text with more behind it.
pub proof fn lemma_find_kept(a: Seq<u8>, b: Seq<u8>, needle: Seq<u8>, from: int, at: int)
    requires
        0 <= from,
        find_from(a, needle, from) == Some(at),
    ensures
        find_from(a + b, needle, from) == Some(at),
{
    lemma_find_from(a, needle, from);
    lemma_occurs_in_join(a, b, needle, at);
    assert forall|j: int| from <= j < at implies !occurs_at(a + b, needle, j) by {
        lemma_occurs_in_join(a, b, needle, j);
    }
    lemma_find_from_is(a + b, needle, from, at);
}

/// Where the first of two joined texts holds nothing of the needle from `from` on, and
/// the needle cannot lie across the joint, the search goes on in the second text.
pub proof fn lemma_find_past(a: Seq<u8>, b: Seq<u8>, needle: Seq<u8>, from: int)
    requires
        0 <= from <= a.len(),
        forall|j: int| from <= j < a.len() ==> !occurs_at(a + b, needle, j),
    ensures
        find_from(a + b, needle, from) == shifted(find_from(b, needle, 0), a.len() as int),
    decreases a.len() - from,
{
    if from < a.len() {
        lemma_find_past(a, b, needle, from + 1);
    } else {
        lemma_find_shift(a, b, needle, from);
    }
}

} // verus!
