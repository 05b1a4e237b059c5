//! The rewrite that knows one block only.
//!
//! Before blocks named regions, a hosts file held one block for all names. This
//! rewrite takes out whatever runs from a start marker through the nearest end marker,
//! by a regular expression, and puts one block without a region at the end.

use crate::codec::{
    append_entry_lines, end_marker, end_marker_bytes, entry_lines, start_marker,
    start_marker_bytes,
};
use crate::text::{append, views, NEWLINE};
use vstd::prelude::*;
use vstd::string::StringExecFns;

verus! {

/// The error of the `regex` crate.
#[verifier::external_type_specification]
#[verifier::external_body]
pub struct ExRegexError(regex::Error);

/// A character that means something in a regular expression.
pub open spec fn is_meta(c: char) -> bool {
    c == '\\' || c == '.' || c == '+' || c == '*' || c == '?' || c == '(' || c == ')' || c == '|'
        || c == '[' || c == ']' || c == '{' || c == '}' || c == '^' || c == '$' || c == '#' || c
        == '&' || c == '-' || c == '~'
}

/// The text with a backslash before each character that means something in a regular
/// expression.
pub open spec fn escaped(text: Seq<char>) -> Seq<char>
    decreases text.len(),
{
    if text.len() == 0 {
        text
    } else if is_meta(text.last()) {
        escaped(text.drop_last()).push('\\').push(text.last())
    } else {
        escaped(text.drop_last()).push(text.last())
    }
}

/// What `regex::bytes::Regex::new` and `replace_all` give for `pattern`, the text
/// `haystack` and the replacement `replacement`: nothing where the crate turns the
/// pattern down, else the text in which every match is replaced.
pub uninterp spec fn replaced_all(
    pattern: Seq<char>,
    haystack: Seq<u8>,
    replacement: Seq<u8>,
) -> Option<Seq<u8>>;

/// `regex::escape`: the text with a backslash put before each of the eighteen
/// characters that the crate counts as meta characters; all others stand as they are.
#[verifier::external_body]
fn escape(text: &str) -> (r: String)
    ensures
        r@ == escaped(text@),
{
    regex::escape(text)
}

/// `regex::bytes::Regex::new` and, on the expression it gives, `replace_all`.
///
/// Where the pattern does not compile the error of the crate comes back. Else the
/// result is what the crate gives for these three arguments. Nothing more is claimed
/// here than that the same arguments give the same answer: whether the crate takes
/// the pattern, and the text that it then gives.
#[verifier::external_body]
fn replace_all(pattern: &str, haystack: &[u8], replacement: &[u8]) -> (r: Result<
    Vec<u8>,
    regex::Error,
>)
    ensures
        match r {
            Ok(v) => replaced_all(pattern@, haystack@, replacement@) == Some(v@),
            Err(_) => replaced_all(pattern@, haystack@, replacement@) is None,
        },
{
    match regex::bytes::Regex::new(pattern) {
        Ok(re) => Ok(re.replace_all(haystack, replacement).into_owned()),
        Err(e) => Err(e),
    }
}

/// The `Display` form of the error of the `regex` crate: what the crate has to say of
/// a pattern that it turned down. Nothing is claimed of the words.
#[verifier::external_body]
fn error_words(error: &regex::Error) -> (r: Vec<u8>) {
    format!("{}", error).into_bytes()
}

/// Why the rewrite failed.
#[derive(PartialEq, Eq, Debug)]
pub enum RewriteError {
    /// The regular expression was turned down; `detail` holds what the `regex` crate
    /// said of it.
    BadPattern { detail: Vec<u8> },
}

/// The regular expression for a block: the start marker, as few characters of any kind
/// as will do, and the end marker.
pub open spec fn block_pattern_text() -> Seq<char> {
    escaped("# clusterbanned start"@) + "[\\s\\S]*?"@ + escaped("# clusterbanned end"@)
}

/// Writes the regular expression for a block.
pub fn block_pattern() -> (r: String)
    ensures
        r@ == block_pattern_text(),
{
    let mut pattern = escape("# clusterbanned start");
    pattern.append("[\\s\\S]*?");
    let tail = escape("# clusterbanned end");
    pattern.append(tail.as_str());
    pattern
}

/// The text with one block without a region at its end: a line feed where the text
/// does not end with one, the start marker on a line, one line for each name as it was
/// given, and the end marker.
pub open spec fn single_block_appended(text: Seq<u8>, names: Seq<Seq<u8>>) -> Seq<u8> {
    (if text.len() > 0 && text.last() == NEWLINE {
        text
    } else {
        text.push(NEWLINE)
    }) + start_marker() + seq![NEWLINE] + entry_lines(names) + end_marker()
}

/// Puts one block without a region that holds `names` at the end of `text`.
pub fn append_single_block(text: Vec<u8>, names: &Vec<Vec<u8>>) -> (r: Vec<u8>)
    ensures
        r@ == single_block_appended(text@, views(names@)),
{
    let mut out = text;
    let n: usize = out.len();
    if n == 0 || out[n - 1] != NEWLINE {
        out.push(NEWLINE);
    }
    append(&mut out, start_marker_bytes());
    out.push(NEWLINE);
    append_entry_lines(&mut out, names);
    append(&mut out, end_marker_bytes());
    assert(out@ =~= single_block_appended(text@, views(names@)));
    out
}

/// Takes every match of the regular expression `pattern` out of `content`.
///
/// What the regular expression matches, and whether it is one at all, is the `regex`
/// crate's to say: a pattern that it turns down gives the error, and any other the
/// text that the crate gives.
pub fn strip_matches(pattern: &str, content: &[u8]) -> (r: Result<Vec<u8>, RewriteError>)
    ensures
        match replaced_all(pattern@, content@, Seq::empty()) {
            Some(t) => r matches Ok(v) && v@ == t,
            None => r matches Err(RewriteError::BadPattern { .. }),
        },
{
    let nothing: Vec<u8> = Vec::new();
    assert(nothing@ =~= Seq::<u8>::empty());
    stripped_from(replace_all(pattern, content, nothing.as_slice()))
}

/// Rewrites `content` so that it holds one block, without a region, for `names`.
///
/// Every match of the regular expression for a block is taken out, and the new block
/// is put at the end. What the regular expression matches is the `regex` crate's to
/// say: the result is stated over what the crate gives. Where the crate turns the
/// pattern down, nothing is rewritten, and the error says so.
pub fn rewrite_single_block(content: &[u8], names: &Vec<Vec<u8>>) -> (r: Result<
    Vec<u8>,
    RewriteError,
>)
    ensures
        match replaced_all(block_pattern_text(), content@, Seq::empty()) {
            Some(t) => r matches Ok(v) && v@ == single_block_appended(t, views(names@)),
            None => r matches Err(RewriteError::BadPattern { .. }),
        },
{
    let pattern = block_pattern();
    rewritten_from(strip_matches(pattern.as_str(), content), names)
}

/// What is made of the crate's answer to a pattern and a text: the text that it gave,
/// as it gave it, or, where it turned the pattern down, the error of the rewrite.
pub fn stripped_from(outcome: Result<Vec<u8>, regex::Error>) -> (r: Result<Vec<u8>, RewriteError>)
    ensures
        match outcome {
            Ok(text) => r == Ok::<Vec<u8>, RewriteError>(text),
            Err(_) => r matches Err(RewriteError::BadPattern { .. }),
        },
{
    match outcome {
        Ok(text) => Ok(text),
        Err(e) => Err(RewriteError::BadPattern { detail: error_words(&e) }),
    }
}

/// What is made of a text from which the old blocks were taken, or of the failure to
/// take them: the text with one block for `names` at its end, or the same failure.
pub fn rewritten_from(stripped: Result<Vec<u8>, RewriteError>, names: &Vec<Vec<u8>>) -> (r: Result<
    Vec<u8>,
    RewriteError,
>)
    ensures
        match stripped {
            Ok(text) => r matches Ok(v) && v@ == single_block_appended(text@, views(names@)),
            Err(e) => r == Err::<Vec<u8>, RewriteError>(e),
        },
{
    match stripped {
        Ok(text) => Ok(append_single_block(text, names)),
        Err(e) => Err(e),
    }
}

} // verus!
