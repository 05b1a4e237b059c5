//! Byte-level text primitives: searching, white space, fields and lines.
//!
//! A hosts file is handled as the bytes it is stored in, which are read as UTF-8.
//! White space means the characters that Unicode counts as white space. Six of them
//! are single bytes; the others take two or three bytes, and a text is searched for
//! fields once each of them is written over with space bytes. Letter case is that of
//! the standard library.

use vstd::prelude::*;
use vstd::slice::slice_subrange;
use vstd::string::StringSliceAdditionalSpecFns;
use vstd::utf8::{decode_utf8, encode_utf8, encode_utf8_decode_utf8, valid_utf8};

verus! {

/// The line terminator.
pub const NEWLINE: u8 = 10;

/// The bytes of a text that is written with ASCII characters only.
pub open spec fn ascii(s: Seq<char>) -> Seq<u8> {
    Seq::new(s.len(), |i: int| s[i] as u8)
}

/// The white space of one byte: space, tab, line feed, vertical tab, form feed and
/// carriage return.
pub open spec fn is_space(b: u8) -> bool {
    b == 32 || (9 <= b && b <= 13)
}

/// The number of bytes of the white-space character of two or three bytes that begins
/// at index `i`, or 0 where none begins there. These are U+0085, U+00A0, U+1680,
/// U+2000 to U+200A, U+2028, U+2029, U+202F, U+205F and U+3000.
pub open spec fn wide_space_at(s: Seq<u8>, i: int) -> nat {
    if i < 0 || i + 1 >= s.len() {
        0
    } else if s[i] == 0xC2 && (s[i + 1] == 0x85 || s[i + 1] == 0xA0) {
        2
    } else if i + 2 >= s.len() {
        0
    } else if s[i] == 0xE1 && s[i + 1] == 0x9A && s[i + 2] == 0x80 {
        3
    } else if s[i] == 0xE2 && s[i + 1] == 0x80 && ((0x80 <= s[i + 2] && s[i + 2] <= 0x8A) || s[i
        + 2] == 0xA8 || s[i + 2] == 0xA9 || s[i + 2] == 0xAF) {
        3
    } else if s[i] == 0xE2 && s[i + 1] == 0x81 && s[i + 2] == 0x9F {
        3
    } else if s[i] == 0xE3 && s[i + 1] == 0x80 && s[i + 2] == 0x80 {
        3
    } else {
        0
    }
}

/// The byte at index `i` belongs to a white-space character of two or three bytes.
pub open spec fn in_wide_space(s: Seq<u8>, i: int) -> bool {
    wide_space_at(s, i) >= 1 || wide_space_at(s, i - 1) >= 2 || wide_space_at(s, i - 2) >= 3
}

/// The text with a space byte in place of every byte of a white-space character of two
/// or three bytes. Every other byte stands where it stood.
#[verifier::opaque]
pub open spec fn blanked(s: Seq<u8>) -> Seq<u8> {
    Seq::new(
        s.len(),
        |i: int|
            if in_wide_space(s, i) {
                32u8
            } else {
                s[i]
            },
    )
}

/// The text holds no white-space character of two or three bytes.
pub open spec fn plain(s: Seq<u8>) -> bool {
    forall|i: int| wide_space_at(s, i) == 0
}

/// What `str::to_lowercase` gives for a text.
pub uninterp spec fn lower_case(text: Seq<char>) -> Seq<char>;

/// The lower-case form of a text that is UTF-8, as the standard library gives it. A
/// text that is no UTF-8 has no letters to speak of, and stands as it is.
#[verifier::opaque]
pub open spec fn lowered(text: Seq<u8>) -> Seq<u8> {
    if valid_utf8(text) {
        encode_utf8(lower_case(decode_utf8(text)))
    } else {
        text
    }
}

/// `needle` stands in `hay` at index `at`.
pub open spec fn occurs_at(hay: Seq<u8>, needle: Seq<u8>, at: int) -> bool {
    &&& 0 <= at
    &&& at + needle.len() <= hay.len()
    &&& forall|k: int| 0 <= k < needle.len() ==> hay[at + k] == #[trigger] needle[k]
}

/// The first index at or after `from` at which `needle` stands in `hay`.
pub open spec fn find_from(hay: Seq<u8>, needle: Seq<u8>, from: int) -> Option<int>
    decreases hay.len() - from,
{
    if from < 0 || from + needle.len() > hay.len() {
        None
    } else if occurs_at(hay, needle, from) {
        Some(from)
    } else {
        find_from(hay, needle, from + 1)
    }
}

/// `needle` stands somewhere in `hay`.
pub open spec fn contains(hay: Seq<u8>, needle: Seq<u8>) -> bool {
    find_from(hay, needle, 0) is Some
}

/// `find_from` gives the first occurrence, and `None` only where there is none.
pub proof fn lemma_find_from(hay: Seq<u8>, needle: Seq<u8>, from: int)
    requires
        0 <= from,
    ensures
        match find_from(hay, needle, from) {
            Some(i) => {
                &&& from <= i
                &&& occurs_at(hay, needle, i)
                &&& forall|j: int| from <= j < i ==> !occurs_at(hay, needle, j)
            },
            None => forall|j: int| from <= j ==> !occurs_at(hay, needle, j),
        },
    decreases hay.len() - from,
{
    if from + needle.len() > hay.len() {
    } else if occurs_at(hay, needle, from) {
    } else {
        lemma_find_from(hay, needle, from + 1);
    }
}

/// An occurrence with none before it is what `find_from` gives.
pub proof fn lemma_find_from_is(hay: Seq<u8>, needle: Seq<u8>, from: int, at: int)
    requires
        0 <= from <= at,
        occurs_at(hay, needle, at),
        forall|j: int| from <= j < at ==> !occurs_at(hay, needle, j),
    ensures
        find_from(hay, needle, from) == Some(at),
    decreases at - from,
{
    if from < at {
        lemma_find_from_is(hay, needle, from + 1, at);
    }
}

/// Where nothing occurs at or after `from`, `find_from` gives `None`.
pub proof fn lemma_find_from_none(hay: Seq<u8>, needle: Seq<u8>, from: int)
    requires
        0 <= from,
        forall|j: int| from <= j ==> !occurs_at(hay, needle, j),
    ensures
        find_from(hay, needle, from) is None,
    decreases hay.len() - from,
{
    if from + needle.len() <= hay.len() {
        lemma_find_from_none(hay, needle, from + 1);
    }
}

/// Tells whether `b` is white space of one byte.
pub fn is_space_byte(b: u8) -> (r: bool)
    ensures
        r == is_space(b),
{
    b == 32 || (9 <= b && b <= 13)
}

/// `str::to_lowercase`.
///
/// The lower-case form is what the tables of the standard library give; nothing is
/// claimed of it here but that the same text gives the same form.
#[verifier::external_body]
fn lower_case_of(s: &str) -> (r: String)
    ensures
        r@ == lower_case(s@),
{
    s.to_lowercase()
}

/// `core::str::from_utf8`: the bytes as a text where they are UTF-8, and nothing where
/// they are not. The text is made of the very bytes that were given.
#[verifier::external_body]
fn as_text(bytes: &[u8]) -> (r: Option<&str>)
    ensures
        r is Some <==> valid_utf8(bytes@),
        r matches Some(t) ==> t.spec_bytes() == bytes@,
{
    match core::str::from_utf8(bytes) {
        Ok(t) => Some(t),
        Err(_) => None,
    }
}

/// A copy of `s` in lower case.
pub fn to_lower(s: &[u8]) -> (r: Vec<u8>)
    ensures
        r@ == lowered(s@),
{
    proof {
        reveal(lowered);
    }
    match as_text(s) {
        Some(t) => {
            proof {
                encode_utf8_decode_utf8(t@);
            }
            let low = lower_case_of(t);
            let bytes = low.as_str().as_bytes();
            copy_range(bytes, 0, bytes.len())
        },
        None => copy_range(s, 0, s.len()),
    }
}

/// Tells how many bytes the white-space character of two or three bytes takes that
/// begins at index `i`.
pub fn wide_space_len(s: &[u8], i: usize) -> (r: usize)
    ensures
        r == wide_space_at(s@, i as int),
        r == 0 || r == 2 || r == 3,
        r > 0 ==> i + r <= s.len(),
{
    let n: usize = s.len();
    if n < 2 || i >= n - 1 {
        return 0;
    }
    let a: u8 = s[i];
    let b: u8 = s[i + 1];
    if a == 0xC2 && (b == 0x85 || b == 0xA0) {
        return 2;
    }
    if i >= n - 2 {
        return 0;
    }
    let c: u8 = s[i + 2];
    if a == 0xE1 && b == 0x9A && c == 0x80 {
        3
    } else if a == 0xE2 && b == 0x80 && ((0x80 <= c && c <= 0x8A) || c == 0xA8 || c == 0xA9 || c
        == 0xAF) {
        3
    } else if a == 0xE2 && b == 0x81 && c == 0x9F {
        3
    } else if a == 0xE3 && b == 0x80 && c == 0x80 {
        3
    } else {
        0
    }
}

/// A copy of `s` with a space byte in place of every byte of a white-space character
/// of two or three bytes.
pub fn blank_wide_spaces(s: &[u8]) -> (r: Vec<u8>)
    ensures
        r@ == blanked(s@),
{
    let mut out: Vec<u8> = Vec::new();
    let mut i: usize = 0;
    while i < s.len()
        invariant
            i <= s.len(),
            out@.len() == i,
            forall|k: int| 0 <= k < i ==> out@[k] == blanked(s@)[k],
        decreases s.len() - i,
    {
        proof {
            reveal(blanked);
        }
        let here: usize = wide_space_len(s, i);
        let one_back: usize = if i >= 1 {
            wide_space_len(s, i - 1)
        } else {
            0
        };
        let two_back: usize = if i >= 2 {
            wide_space_len(s, i - 2)
        } else {
            0
        };
        if here >= 1 || one_back >= 2 || two_back >= 3 {
            out.push(32);
        } else {
            out.push(s[i]);
        }
        i += 1;
    }
    proof {
        reveal(blanked);
    }
    assert(out@ =~= blanked(s@));
    out
}

/// To write the wide white space over leaves a text as long as it was.
pub proof fn lemma_blanked_len(s: Seq<u8>)
    ensures
        blanked(s).len() == s.len(),
{
    reveal(blanked);
}

/// A text in which the wide white space is written over holds none, and neither does
/// any part of it.
pub proof fn lemma_blanked_plain(s: Seq<u8>, a: int, b: int)
    requires
        0 <= a <= b <= s.len(),
    ensures
        blanked(s).len() == s.len(),
        plain(blanked(s).subrange(a, b)),
        blanked(blanked(s).subrange(a, b)) == blanked(s).subrange(a, b),
{
    reveal(blanked);
    let t = blanked(s);
    let piece = t.subrange(a, b);
    assert forall|i: int| wide_space_at(piece, i) == 0 by {
        if wide_space_at(piece, i) > 0 {
            assert(piece[i] == t[a + i]);
            assert(piece[i + 1] == t[a + i + 1]);
            assert(!in_wide_space(s, a + i));
            assert(!in_wide_space(s, a + i + 1));
            if wide_space_at(piece, i) == 3 {
                assert(piece[i + 2] == t[a + i + 2]);
                assert(!in_wide_space(s, a + i + 2));
            }
            assert(wide_space_at(s, a + i) > 0);
        }
    }
    assert(blanked(piece) =~= piece);
}

/// A text that holds no wide white space is as it is when the wide white space is
/// written over.
pub proof fn lemma_plain_blanked(s: Seq<u8>)
    requires
        plain(s),
    ensures
        blanked(s) == s,
{
    reveal(blanked);
    assert(blanked(s) =~= s);
}

/// Two texts without wide white space make one, where the first ends or the second
/// begins with a byte of ASCII.
pub proof fn lemma_plain_join(a: Seq<u8>, b: Seq<u8>)
    requires
        plain(a),
        plain(b),
        a.len() == 0 || b.len() == 0 || a.last() < 128 || b[0] < 128,
    ensures
        plain(a + b),
{
    let t = a + b;
    assert forall|i: int| wide_space_at(t, i) == 0 by {
        if wide_space_at(t, i) > 0 {
            let w = wide_space_at(t, i) as int;
            if i + w <= a.len() {
                assert(t[i] == a[i]);
                assert(t[i + 1] == a[i + 1]);
                if w == 3 {
                    assert(t[i + 2] == a[i + 2]);
                }
                assert(wide_space_at(a, i) > 0);
            } else if i >= a.len() {
                assert(t[i] == b[i - a.len()]);
                assert(t[i + 1] == b[i + 1 - a.len()]);
                if w == 3 {
                    assert(t[i + 2] == b[i + 2 - a.len()]);
                }
                assert(wide_space_at(b, i - a.len()) > 0);
            } else {
                assert(t[a.len() - 1] == a.last());
                assert(t[a.len() as int] == b[0]);
            }
        }
    }
}

/// A text of ASCII that stands in a text stands there still when the wide white space
/// is written over.
pub proof fn lemma_occurs_blanked(s: Seq<u8>, needle: Seq<u8>, at: int)
    requires
        occurs_at(s, needle, at),
        forall|i: int| 0 <= i < needle.len() ==> #[trigger] needle[i] < 128,
    ensures
        occurs_at(blanked(s), needle, at),
{
    reveal(blanked);
    assert forall|k: int| 0 <= k < needle.len() implies blanked(s)[at + k] == #[trigger] needle[k] by {
        assert(s[at + k] == needle[k]);
        assert(needle[k] < 128);
        assert(!in_wide_space(s, at + k));
    }
}

/// A text of ASCII holds no wide white space.
pub proof fn lemma_ascii_plain(s: Seq<u8>)
    requires
        forall|i: int| 0 <= i < s.len() ==> #[trigger] s[i] < 128,
    ensures
        plain(s),
{
    assert forall|i: int| wide_space_at(s, i) == 0 by {
        if 0 <= i < s.len() {
            assert(s[i] < 128);
        }
    }
}

/// Appends `s` to `out`.
pub fn append(out: &mut Vec<u8>, s: &[u8])
    ensures
        final(out)@ == old(out)@ + s@,
{
    let mut i: usize = 0;
    while i < s.len()
        invariant
            i <= s.len(),
            out@ == old(out)@ + s@.take(i as int),
        decreases s.len() - i,
    {
        out.push(s[i]);
        assert(s@.take(i as int).push(s@[i as int]) =~= s@.take(i + 1));
        i += 1;
    }
    assert(s@.take(s.len() as int) =~= s@);
}

/// A copy of the bytes of `s` from `start` up to `end`.
pub fn copy_range(s: &[u8], start: usize, end: usize) -> (r: Vec<u8>)
    requires
        start <= end <= s.len(),
    ensures
        r@ == s@.subrange(start as int, end as int),
{
    let mut out: Vec<u8> = Vec::new();
    append(&mut out, slice_subrange(s, start, end));
    out
}

/// Tells whether `a` and `b` hold the same bytes.
pub fn same_bytes(a: &[u8], b: &[u8]) -> (r: bool)
    ensures
        r == (a@ == b@),
{
    if a.len() != b.len() {
        return false;
    }
    let mut i: usize = 0;
    while i < a.len()
        invariant
            i <= a.len(),
            a.len() == b.len(),
            forall|k: int| 0 <= k < i ==> a@[k] == b@[k],
        decreases a.len() - i,
    {
        if a[i] != b[i] {
            return false;
        }
        i += 1;
    }
    assert(a@ =~= b@);
    true
}

/// Tells whether `needle` stands in `hay` at index `at`.
pub fn matches_at(hay: &[u8], needle: &[u8], at: usize) -> (r: bool)
    ensures
        r == occurs_at(hay@, needle@, at as int),
{
    if needle.len() > hay.len() || at > hay.len() - needle.len() {
        return false;
    }
    let mut k: usize = 0;
    while k < needle.len()
        invariant
            k <= needle.len(),
            at + needle.len() <= hay.len(),
            forall|j: int| 0 <= j < k ==> hay@[at + j] == #[trigger] needle@[j],
        decreases needle.len() - k,
    {
        if hay[at + k] != needle[k] {
            return false;
        }
        k += 1;
    }
    true
}

/// Tells whether `s` begins with `prefix`.
pub fn starts_with(s: &[u8], prefix: &[u8]) -> (r: bool)
    ensures
        r == occurs_at(s@, prefix@, 0),
{
    matches_at(s, prefix, 0)
}

/// The first index at or after `from` at which `needle` stands in `hay`.
pub fn find(hay: &[u8], needle: &[u8], from: usize) -> (r: Option<usize>)
    ensures
        match r {
            Some(i) => find_from(hay@, needle@, from as int) == Some(i as int),
            None => find_from(hay@, needle@, from as int) is None,
        },
{
    if needle.len() > hay.len() {
        return None;
    }
    let last: usize = hay.len() - needle.len();
    let mut i: usize = from;
    while i <= last
        invariant
            from <= i,
            last == hay.len() - needle.len(),
            find_from(hay@, needle@, from as int) == find_from(hay@, needle@, i as int),
        decreases last + 1 - i,
    {
        if matches_at(hay, needle, i) {
            return Some(i);
        }
        i += 1;
    }
    None
}

/// Tells whether `needle` stands somewhere in `hay`.
pub fn includes(hay: &[u8], needle: &[u8]) -> (r: bool)
    ensures
        r == contains(hay@, needle@),
{
    find(hay, needle, 0).is_some()
}

/// `s` without the white space of one byte that it begins with.
pub open spec fn trim_start(s: Seq<u8>) -> Seq<u8>
    decreases s.len(),
{
    if s.len() > 0 && is_space(s[0]) {
        trim_start(s.drop_first())
    } else {
        s
    }
}

/// `s` without the white space of one byte that it ends with.
pub open spec fn trim_end(s: Seq<u8>) -> Seq<u8>
    decreases s.len(),
{
    if s.len() > 0 && is_space(s.last()) {
        trim_end(s.drop_last())
    } else {
        s
    }
}

/// `s` without the white space of one byte at either end.
pub open spec fn trimmed(s: Seq<u8>) -> Seq<u8> {
    trim_end(trim_start(s))
}

/// `s` without the white space of any kind at either end.
pub open spec fn stripped(s: Seq<u8>) -> Seq<u8> {
    let flat = blanked(s);
    let from = flat.len() - trim_start(flat).len();
    s.subrange(from, from + trimmed(flat).len())
}

/// The number of bytes before the first white space of one byte in `s`.
pub open spec fn token_len(s: Seq<u8>) -> nat
    decreases s.len(),
{
    if s.len() == 0 || is_space(s[0]) {
        0
    } else {
        1 + token_len(s.drop_first())
    }
}

/// What is left when the white space at the start is gone is no longer than the text
/// and does not begin with white space.
pub proof fn lemma_trim_start_len(s: Seq<u8>)
    ensures
        trim_start(s).len() <= s.len(),
        trim_start(s).len() > 0 ==> !is_space(trim_start(s)[0]),
    decreases s.len(),
{
    if s.len() > 0 && is_space(s[0]) {
        lemma_trim_start_len(s.drop_first());
    }
}

/// What is left when the white space at the start is gone is the tail of the text.
pub proof fn lemma_trim_start_is_tail(s: Seq<u8>)
    ensures
        trim_start(s).len() <= s.len(),
        trim_start(s) == s.skip(s.len() - trim_start(s).len()),
    decreases s.len(),
{
    if s.len() > 0 && is_space(s[0]) {
        let rest = s.drop_first();
        lemma_trim_start_is_tail(rest);
        assert(rest.skip(rest.len() - trim_start(rest).len()) =~= s.skip(
            s.len() - trim_start(s).len(),
        ));
    } else {
        assert(s.skip(0) =~= s);
    }
}

/// The first token holds no white space and ends at white space or at the end.
pub proof fn lemma_token_len(s: Seq<u8>)
    ensures
        token_len(s) <= s.len(),
        s.len() > 0 && !is_space(s[0]) ==> token_len(s) >= 1,
        forall|k: int| 0 <= k < token_len(s) ==> !is_space(#[trigger] s[k]),
        token_len(s) < s.len() ==> is_space(s[token_len(s) as int]),
    decreases s.len(),
{
    if s.len() == 0 || is_space(s[0]) {
    } else {
        let rest = s.drop_first();
        lemma_token_len(rest);
        assert forall|k: int| 0 <= k < token_len(s) implies !is_space(#[trigger] s[k]) by {
            if k > 0 {
                assert(s[k] == rest[k - 1]);
            }
        }
        if token_len(s) < s.len() {
            assert(s[token_len(s) as int] == rest[token_len(rest) as int]);
        }
    }
}

/// The maximal runs of bytes that are no white space of one byte, in order. On a text
/// in which the wide white space is written over, these are the fields that white
/// space of any kind parts.
pub open spec fn fields(s: Seq<u8>) -> Seq<Seq<u8>>
    decreases s.len(),
    via fields_decreases
{
    let t = trim_start(s);
    if t.len() == 0 {
        Seq::empty()
    } else {
        let n = token_len(t) as int;
        seq![t.take(n)] + fields(t.skip(n))
    }
}

#[via_fn]
proof fn fields_decreases(s: Seq<u8>) {
    lemma_trim_start_len(s);
    lemma_token_len(trim_start(s));
}

/// The index of the first line feed at or after `from`, or the length of `t`.
pub open spec fn line_end(t: Seq<u8>, from: int) -> int
    decreases t.len() - from,
{
    if from < 0 || from >= t.len() {
        t.len() as int
    } else if t[from] == NEWLINE {
        from
    } else {
        line_end(t, from + 1)
    }
}

/// A line ends at the first line feed, or where the text ends.
pub proof fn lemma_line_end(t: Seq<u8>, from: int)
    requires
        0 <= from <= t.len(),
    ensures
        from <= line_end(t, from) <= t.len(),
        forall|k: int| from <= k < line_end(t, from) ==> t[k] != NEWLINE,
        line_end(t, from) < t.len() ==> t[line_end(t, from)] == NEWLINE,
    decreases t.len() - from,
{
    if from < t.len() && t[from] != NEWLINE {
        lemma_line_end(t, from + 1);
    }
}

/// The lines of `t`: what stands between its line feeds. A text that ends with a line
/// feed has an empty last line.
pub open spec fn lines(t: Seq<u8>) -> Seq<Seq<u8>>
    decreases t.len(),
    via lines_decreases
{
    let e = line_end(t, 0);
    if e >= t.len() {
        seq![t]
    } else {
        seq![t.take(e)] + lines(t.skip(e + 1))
    }
}

#[via_fn]
proof fn lines_decreases(t: Seq<u8>) {
    lemma_line_end(t, 0);
}

/// Where a line ends in the rest of a text, it ends in the text.
pub proof fn lemma_line_end_skip(t: Seq<u8>, a: int, k: int)
    requires
        0 <= a <= t.len(),
        0 <= k,
    ensures
        line_end(t.skip(a), k) == line_end(t, a + k) - a,
    decreases t.len() - a - k,
{
    if a + k < t.len() {
        assert(t.skip(a)[k] == t[a + k]);
        if t[a + k] != NEWLINE {
            lemma_line_end_skip(t, a, k + 1);
        }
    }
}

/// The line that begins at index `pos` is the first line of what stands from `pos`
/// on, and the lines behind it are the lines of what stands behind its line feed.
pub proof fn lemma_lines_from(t: Seq<u8>, pos: int)
    requires
        0 <= pos <= t.len(),
    ensures
        pos <= line_end(t, pos) <= t.len(),
        lines(t.skip(pos))[0] == t.subrange(pos, line_end(t, pos)),
        line_end(t, pos) >= t.len() ==> lines(t.skip(pos)) == seq![
            t.subrange(pos, line_end(t, pos)),
        ],
        line_end(t, pos) < t.len() ==> lines(t.skip(pos)) == seq![
            t.subrange(pos, line_end(t, pos)),
        ] + lines(t.skip(line_end(t, pos) + 1)),
{
    let e = line_end(t, pos);
    let rest = t.skip(pos);
    lemma_line_end(t, pos);
    lemma_line_end_skip(t, pos, 0);
    lemma_line_end(rest, 0);
    assert(rest.take(e - pos) =~= t.subrange(pos, e));
    if e >= t.len() {
        assert(rest.take(rest.len() as int) =~= rest);
    } else {
        assert(rest.skip(e - pos + 1) =~= t.skip(e + 1));
    }
}

/// `t` with every run of three or more line feeds cut down to two. `run` is the number
/// of line feeds that stand directly before `t`, counted up to two.
pub open spec fn squash(t: Seq<u8>, run: nat) -> Seq<u8>
    decreases t.len(),
{
    if t.len() == 0 {
        t
    } else if t[0] != NEWLINE {
        seq![t[0]] + squash(t.drop_first(), 0)
    } else if run >= 2 {
        squash(t.drop_first(), run)
    } else {
        seq![NEWLINE] + squash(t.drop_first(), run + 1)
    }
}

/// `t` with at most one blank line between any two lines.
pub open spec fn collapsed(t: Seq<u8>) -> Seq<u8> {
    squash(t, 0)
}

/// `t` without the line feeds it ends with.
pub open spec fn chomped(t: Seq<u8>) -> Seq<u8>
    decreases t.len(),
{
    if t.len() > 0 && t.last() == NEWLINE {
        chomped(t.drop_last())
    } else {
        t
    }
}

/// `t` without the line feeds it begins with.
pub open spec fn unled(t: Seq<u8>) -> Seq<u8>
    decreases t.len(),
{
    if t.len() > 0 && t[0] == NEWLINE {
        unled(t.drop_first())
    } else {
        t
    }
}

/// `t` with just one line feed at its end, whatever line feeds it ended with.
pub open spec fn ended(t: Seq<u8>) -> Seq<u8> {
    chomped(t) + seq![NEWLINE]
}

/// `t` ends with a line feed, and with one only.
pub open spec fn ends_once(t: Seq<u8>) -> bool {
    &&& t.len() > 0
    &&& t.last() == NEWLINE
    &&& t.len() >= 2 ==> t[t.len() - 2] != NEWLINE
}

/// A text that was given just one line feed at its end ends with one only.
pub proof fn lemma_ended_once(t: Seq<u8>)
    ensures
        ends_once(ended(t)),
    decreases t.len(),
{
    if t.len() > 0 && t.last() == NEWLINE {
        lemma_ended_once(t.drop_last());
    } else if t.len() > 0 {
        assert(ended(t)[ended(t).len() - 2] == t.last());
    }
}

/// The index at which the white space of one byte at the start of `s[from..to]` ends.
pub fn skip_spaces(s: &[u8], from: usize, to: usize) -> (r: usize)
    requires
        from <= to <= s.len(),
    ensures
        from <= r <= to,
        trim_start(s@.subrange(from as int, to as int)) == s@.subrange(r as int, to as int),
{
    let mut i: usize = from;
    while i < to && is_space_byte(s[i])
        invariant
            from <= i <= to <= s.len(),
            trim_start(s@.subrange(from as int, to as int)) == trim_start(
                s@.subrange(i as int, to as int),
            ),
        decreases to - i,
    {
        assert(s@.subrange(i as int, to as int).drop_first() =~= s@.subrange(i + 1, to as int));
        i += 1;
    }
    i
}

/// The index at which the white space of one byte at the end of `s[from..to]` begins.
pub fn skip_spaces_back(s: &[u8], from: usize, to: usize) -> (r: usize)
    requires
        from <= to <= s.len(),
    ensures
        from <= r <= to,
        trim_end(s@.subrange(from as int, to as int)) == s@.subrange(from as int, r as int),
{
    let mut j: usize = to;
    while j > from && is_space_byte(s[j - 1])
        invariant
            from <= j <= to <= s.len(),
            trim_end(s@.subrange(from as int, to as int)) == trim_end(
                s@.subrange(from as int, j as int),
            ),
        decreases j - from,
    {
        assert(s@.subrange(from as int, j as int).drop_last() =~= s@.subrange(
            from as int,
            j - 1,
        ));
        j -= 1;
    }
    j
}

/// `s` without the white space of one byte at either end.
pub fn trim(s: &[u8]) -> (r: &[u8])
    ensures
        r@ == trimmed(s@),
{
    let a: usize = skip_spaces(s, 0, s.len());
    let b: usize = skip_spaces_back(s, a, s.len());
    assert(s@.subrange(0, s.len() as int) =~= s@);
    slice_subrange(s, a, b)
}

/// `s` without the white space of any kind at either end.
pub fn strip(s: &[u8]) -> (r: &[u8])
    ensures
        r@ == stripped(s@),
{
    let flat = blank_wide_spaces(s);
    proof {
        lemma_blanked_len(s@);
    }
    let n: usize = flat.len();
    let a: usize = skip_spaces(flat.as_slice(), 0, n);
    let b: usize = skip_spaces_back(flat.as_slice(), a, n);
    assert(flat@.subrange(0, n as int) =~= flat@);
    slice_subrange(s, a, b)
}

/// The index at which the token that begins at `from` ends.
pub fn token_end(s: &[u8], from: usize) -> (r: usize)
    requires
        from <= s.len(),
    ensures
        r == from + token_len(s@.skip(from as int)),
        r <= s.len(),
{
    let mut i: usize = from;
    while i < s.len() && !is_space_byte(s[i])
        invariant
            from <= i <= s.len(),
            from + token_len(s@.skip(from as int)) == i + token_len(s@.skip(i as int)),
        decreases s.len() - i,
    {
        assert(s@.skip(i as int).drop_first() =~= s@.skip(i + 1));
        i += 1;
    }
    i
}

/// The texts that a list of byte vectors holds.
pub open spec fn views(v: Seq<Vec<u8>>) -> Seq<Seq<u8>> {
    Seq::new(v.len(), |i: int| v[i]@)
}

/// The fields of `s`, each copied.
pub fn split_fields(s: &[u8]) -> (r: Vec<Vec<u8>>)
    ensures
        views(r@) == fields(s@),
{
    let mut out: Vec<Vec<u8>> = Vec::new();
    let mut pos: usize = 0;
    assert(s@.skip(0) =~= s@);
    assert(views(out@) =~= Seq::<Seq<u8>>::empty());
    loop
        invariant
            pos <= s.len(),
            views(out@) + fields(s@.skip(pos as int)) == fields(s@),
        decreases s.len() - pos,
    {
        let a: usize = skip_spaces(s, pos, s.len());
        assert(s@.subrange(pos as int, s.len() as int) =~= s@.skip(pos as int));
        assert(s@.subrange(a as int, s.len() as int) =~= s@.skip(a as int));
        if a >= s.len() {
            assert(fields(s@.skip(pos as int)) =~= Seq::<Seq<u8>>::empty());
            assert(views(out@) + Seq::<Seq<u8>>::empty() =~= views(out@));
            return out;
        }
        let b: usize = token_end(s, a);
        proof {
            lemma_trim_start_len(s@.skip(pos as int));
            lemma_token_len(s@.skip(a as int));
        }
        let field = copy_range(s, a, b);
        proof {
            let t = s@.skip(a as int);
            let n = token_len(t) as int;
            assert(t.take(n) =~= s@.subrange(a as int, b as int));
            assert(t.skip(n) =~= s@.skip(b as int));
            assert(fields(s@.skip(pos as int)) == seq![field@] + fields(s@.skip(b as int)));
        }
        let ghost before = views(out@);
        out.push(field);
        assert(views(out@) =~= before.push(field@));
        assert(before.push(field@) + fields(s@.skip(b as int)) =~= before + (seq![field@] + fields(
            s@.skip(b as int),
        )));
        pos = b;
    }
}

/// The index of the first line feed at or after `from`, or the length of `t`.
pub fn end_of_line(t: &[u8], from: usize) -> (r: usize)
    requires
        from <= t.len(),
    ensures
        r == line_end(t@, from as int),
        from <= r <= t.len(),
{
    let mut i: usize = from;
    while i < t.len() && t[i] != NEWLINE
        invariant
            from <= i <= t.len(),
            line_end(t@, from as int) == line_end(t@, i as int),
        decreases t.len() - i,
    {
        i += 1;
    }
    i
}

/// `t` with every run of three or more line feeds cut down to two.
pub fn collapse_blank_runs(t: &[u8]) -> (r: Vec<u8>)
    ensures
        r@ == collapsed(t@),
{
    let mut out: Vec<u8> = Vec::new();
    let mut run: usize = 0;
    let mut i: usize = 0;
    assert(t@.skip(0) =~= t@);
    while i < t.len()
        invariant
            i <= t.len(),
            run <= 2,
            out@ + squash(t@.skip(i as int), run as nat) == collapsed(t@),
        decreases t.len() - i,
    {
        let ghost rest = t@.skip(i as int);
        assert(rest.drop_first() =~= t@.skip(i + 1));
        let ghost before = out@;
        let b: u8 = t[i];
        if b != NEWLINE {
            out.push(b);
            assert(before.push(b) + squash(rest.drop_first(), 0) =~= before + (seq![b] + squash(
                rest.drop_first(),
                0,
            )));
            run = 0;
        } else if run >= 2 {
        } else {
            out.push(b);
            assert(before.push(b) + squash(rest.drop_first(), (run + 1) as nat) =~= before + (
            seq![NEWLINE] + squash(rest.drop_first(), (run + 1) as nat)));
            run += 1;
        }
        i += 1;
    }
    assert(out@ + Seq::<u8>::empty() =~= out@);
    out
}

/// The length of `t` without the line feeds it ends with.
pub fn chomped_len(t: &[u8]) -> (r: usize)
    ensures
        r <= t.len(),
        t@.take(r as int) == chomped(t@),
{
    let mut j: usize = t.len();
    assert(t@.take(j as int) =~= t@);
    while j > 0 && t[j - 1] == NEWLINE
        invariant
            j <= t.len(),
            chomped(t@) == chomped(t@.take(j as int)),
        decreases j,
    {
        assert(t@.take(j as int).drop_last() =~= t@.take(j - 1));
        j -= 1;
    }
    j
}

/// The number of line feeds that `t` begins with.
pub fn led_len(t: &[u8]) -> (r: usize)
    ensures
        r <= t.len(),
        t@.skip(r as int) == unled(t@),
{
    let mut i: usize = 0;
    assert(t@.skip(0) =~= t@);
    while i < t.len() && t[i] == NEWLINE
        invariant
            i <= t.len(),
            unled(t@) == unled(t@.skip(i as int)),
        decreases t.len() - i,
    {
        assert(t@.skip(i as int).drop_first() =~= t@.skip(i + 1));
        i += 1;
    }
    i
}

/// A copy of `t` with just one line feed at its end.
pub fn end_with_line_feed(t: &[u8]) -> (r: Vec<u8>)
    ensures
        r@ == ended(t@),
{
    let n: usize = chomped_len(t);
    let mut out: Vec<u8> = copy_range(t, 0, n);
    out.push(NEWLINE);
    assert(out@ =~= ended(t@));
    out
}

} // verus!
