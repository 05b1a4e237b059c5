//! Reading what the ping program printed.
//!
//! A time may be printed as `time=64ms` or as `time=63.8 ms`. The first is read here,
//! as a whole number. The second is a decimal number: it is found here, and the caller
//! reads it.

use crate::report::utf8;
use crate::text::{
    blank_wide_spaces, blanked, contains, copy_range, end_of_line, find, find_from, includes,
    lemma_find_from, lemma_lines_from, lines, trim, trimmed,
};
use vstd::prelude::*;
use vstd::slice::slice_subrange;

verus! {

/// Every byte is a decimal digit.
pub open spec fn all_digits(s: Seq<u8>) -> bool {
    forall|k: int| 0 <= k < s.len() ==> 48 <= #[trigger] s[k] <= 57
}

/// The number that decimal digits stand for.
pub open spec fn digits_value(s: Seq<u8>) -> nat
    decreases s.len(),
{
    if s.len() == 0 {
        0
    } else {
        digits_value(s.drop_last()) * 10 + (s.last() - 48) as nat
    }
}

/// The text without a `+` at its head.
pub open spec fn unsigned_part(s: Seq<u8>) -> Seq<u8> {
    if s.len() > 0 && s[0] == 43u8 {
        s.drop_first()
    } else {
        s
    }
}

/// The whole number that a text stands for: one digit or more, with or without a `+`
/// before them, and no more than 64 bits can hold.
pub open spec fn whole_number(s: Seq<u8>) -> Option<u64> {
    let d = unsigned_part(s);
    if d.len() > 0 && all_digits(d) && digits_value(d) <= u64::MAX {
        Some(digits_value(d) as u64)
    } else {
        None
    }
}

/// What a line shows of a round-trip time.
pub enum TimeShown {
    /// A whole number of milliseconds.
    Millis { value: u64 },
    /// A text before ` ms` that is no whole number: it is for the caller to read as a
    /// decimal number.
    Decimal { text: Vec<u8> },
}

/// What a line shows of a round-trip time, as plain values.
pub enum TimeView {
    Millis { value: u64 },
    Decimal { text: Seq<u8> },
}

impl View for TimeShown {
    type V = TimeView;

    open spec fn view(&self) -> TimeView {
        match *self {
            TimeShown::Millis { value } => TimeView::Millis { value },
            TimeShown::Decimal { text } => TimeView::Decimal { text: text@ },
        }
    }
}

/// What a list of times holds, as plain values.
pub open spec fn time_views(v: Seq<TimeShown>) -> Seq<TimeView> {
    Seq::new(v.len(), |i: int| v[i]@)
}

/// What a line shows of a time: behind the first `time=`, the whole number that
/// stands before `ms`; or else whatever stands before ` ms`.
pub open spec fn time_on_line(line: Seq<u8>) -> Option<TimeView> {
    let t = trimmed(line);
    match find_from(t, utf8("time="), 0) {
        None => None,
        Some(p) => {
            let after = t.skip(p + utf8("time=").len());
            let whole = match find_from(after, utf8("ms"), 0) {
                Some(e) => whole_number(trimmed(after.take(e))),
                None => None,
            };
            match whole {
                Some(value) => Some(TimeView::Millis { value }),
                None => match find_from(after, utf8(" ms"), 0) {
                    Some(e) => Some(TimeView::Decimal { text: trimmed(after.take(e)) }),
                    None => None,
                },
            }
        },
    }
}

/// What the lines show of times, in the order of the lines.
pub open spec fn times_on_lines(ls: Seq<Seq<u8>>) -> Seq<TimeView>
    decreases ls.len(),
{
    if ls.len() == 0 {
        Seq::empty()
    } else {
        match time_on_line(ls.last()) {
            Some(shown) => times_on_lines(ls.drop_last()).push(shown),
            None => times_on_lines(ls.drop_last()),
        }
    }
}

/// What the output of the ping program shows of round-trip times, line by line. White
/// space of any kind counts as white space.
pub open spec fn ping_times(output: Seq<u8>) -> Seq<TimeView> {
    times_on_lines(lines(blanked(output)))
}

/// The first of the times shown from place `i` on that is a whole number, or that the
/// caller could read as a decimal number.
pub open spec fn picked_from(shown: Seq<TimeView>, read: Seq<Option<u64>>, i: int) -> Option<u64>
    decreases shown.len() - i,
{
    if i < 0 || i >= shown.len() {
        None
    } else {
        match shown[i] {
            TimeView::Millis { value } => Some(value),
            TimeView::Decimal { .. } => if i < read.len() && read[i] is Some {
                read[i]
            } else {
                picked_from(shown, read, i + 1)
            },
        }
    }
}

/// The round-trip time in milliseconds: the first of the times shown that is a whole
/// number, or that the caller could read as a decimal number. `read` holds for each
/// time shown what the caller read it as, if anything.
pub open spec fn picked_time(shown: Seq<TimeView>, read: Seq<Option<u64>>) -> Option<u64> {
    picked_from(shown, read, 0)
}

/// Reads decimal digits. The answer is `None` where a byte is no digit, else the number
/// and whether it is too great to be held: then the greatest that can be held is
/// given.
fn read_digits(s: &[u8]) -> (r: Option<(u64, bool)>)
    ensures
        r is Some <==> all_digits(s@),
        r matches Some((v, over)) ==> {
            &&& over == (digits_value(s@) > u64::MAX)
            &&& !over ==> v == digits_value(s@)
            &&& over ==> v == u64::MAX
        },
{
    let mut acc: u64 = 0;
    let mut over = false;
    let mut i: usize = 0;
    assert(s@.take(0) =~= Seq::<u8>::empty());
    while i < s.len()
        invariant
            i <= s.len(),
            all_digits(s@.take(i as int)),
            over == (digits_value(s@.take(i as int)) > u64::MAX),
            !over ==> acc == digits_value(s@.take(i as int)),
        decreases s.len() - i,
    {
        let b: u8 = s[i];
        proof {
            let upto = s@.take(i + 1);
            assert(upto.drop_last() =~= s@.take(i as int));
            assert(upto.last() == b);
        }
        if b < 48 || b > 57 {
            proof {
                if all_digits(s@) {
                    assert(48 <= s@[i as int] <= 57);
                }
            }
            return None;
        }
        proof {
            assert forall|k: int| 0 <= k < i + 1 implies 48 <= #[trigger] s@.take(i + 1)[k]
                <= 57 by {
                if k < i {
                    assert(s@.take(i as int)[k] == s@.take(i + 1)[k]);
                }
            }
        }
        let d: u64 = (b - 48) as u64;
        if !over {
            if acc > (u64::MAX - d) / 10 {
                over = true;
            } else {
                acc = acc * 10 + d;
            }
        }
        i += 1;
    }
    assert(s@.take(s.len() as int) =~= s@);
    if over {
        Some((u64::MAX, true))
    } else {
        Some((acc, false))
    }
}

/// Reads a whole number.
pub fn parse_whole(s: &[u8]) -> (r: Option<u64>)
    ensures
        r == whole_number(s@),
{
    let n: usize = s.len();
    let start: usize = if n > 0 && s[0] == 43 {
        1
    } else {
        0
    };
    let d = slice_subrange(s, start, n);
    assert(d@ =~= unsigned_part(s@));
    if d.len() == 0 {
        return None;
    }
    match read_digits(d) {
        Some((v, over)) => if over {
            None
        } else {
            Some(v)
        },
        None => None,
    }
}

/// Reads what a line shows of a time.
fn parse_line_time(line: &[u8]) -> (r: Option<TimeShown>)
    ensures
        match r {
            Some(shown) => time_on_line(line@) == Some(shown@),
            None => time_on_line(line@) is None,
        },
{
    let t = trim(line);
    let key_text: &str = "time=";
    let unit_text: &str = "ms";
    let spaced_text: &str = " ms";
    let key = key_text.as_bytes();
    let n: usize = t.len();
    match find(t, key, 0) {
        None => None,
        Some(p) => {
            proof {
                lemma_find_from(t@, utf8("time="), 0);
            }
            let after = slice_subrange(t, p + key.len(), n);
            assert(after@ =~= t@.skip(p + utf8("time=").len()));
            let whole = match find(after, unit_text.as_bytes(), 0) {
                Some(e) => {
                    proof {
                        lemma_find_from(after@, utf8("ms"), 0);
                    }
                    let part = slice_subrange(after, 0, e);
                    assert(part@ =~= after@.take(e as int));
                    parse_whole(trim(part))
                },
                None => None,
            };
            match whole {
                Some(value) => {
                    return Some(TimeShown::Millis { value });
                },
                None => {},
            }
            match find(after, spaced_text.as_bytes(), 0) {
                Some(e) => {
                    proof {
                        lemma_find_from(after@, utf8(" ms"), 0);
                    }
                    let part = slice_subrange(after, 0, e);
                    assert(part@ =~= after@.take(e as int));
                    let kept = trim(part);
                    let text = copy_range(kept, 0, kept.len());
                    assert(text@ =~= kept@);
                    Some(TimeShown::Decimal { text })
                },
                None => None,
            }
        },
    }
}

/// Reads from the output of the ping program what it shows of round-trip times, line
/// by line. A whole number of milliseconds is read here; what is no whole number is
/// handed on as it stands, for the caller to read as a decimal number.
pub fn parse_ping_time(output: &[u8]) -> (r: Vec<TimeShown>)
    ensures
        time_views(r@) == ping_times(output@),
{
    let flat = blank_wide_spaces(output);
    let text = flat.as_slice();
    assert(text@ == blanked(output@));
    let mut out: Vec<TimeShown> = Vec::new();
    let mut pos: usize = 0;
    let ghost mut done: Seq<Seq<u8>> = Seq::empty();
    assert(text@.skip(0) =~= text@);
    assert(done + lines(text@) =~= lines(text@));
    assert(time_views(out@) =~= times_on_lines(done));
    loop
        invariant
            pos <= text.len(),
            text@ == blanked(output@),
            done + lines(text@.skip(pos as int)) == lines(text@),
            time_views(out@) == times_on_lines(done),
        decreases text.len() - pos,
    {
        let e: usize = end_of_line(text, pos);
        let line = slice_subrange(text, pos, e);
        let ghost old_done = done;
        let ghost before = time_views(out@);
        proof {
            lemma_lines_from(text@, pos as int);
            done = old_done.push(line@);
            assert(done.drop_last() =~= old_done);
        }
        match parse_line_time(line) {
            Some(shown) => {
                out.push(shown);
                assert(time_views(out@) =~= before.push(shown@));
            },
            None => {},
        }
        if e >= text.len() {
            assert(done =~= old_done + lines(text@.skip(pos as int)));
            return out;
        }
        assert(done + lines(text@.skip(e + 1)) =~= old_done + (seq![line@] + lines(
            text@.skip(e + 1),
        )));
        pos = e + 1;
    }
}

/// Picks the round-trip time in milliseconds from the times shown and from what the
/// caller read the decimal numbers among them as.
pub fn pick_time(shown: &Vec<TimeShown>, read: &Vec<Option<u64>>) -> (r: Option<u64>)
    ensures
        r == picked_time(time_views(shown@), read@),
{
    let mut i: usize = 0;
    while i < shown.len()
        invariant
            i <= shown.len(),
            picked_time(time_views(shown@), read@) == picked_from(
                time_views(shown@),
                read@,
                i as int,
            ),
        decreases shown.len() - i,
    {
        assert(time_views(shown@)[i as int] == shown@[i as int]@);
        match &shown[i] {
            TimeShown::Millis { value } => {
                return Some(*value);
            },
            TimeShown::Decimal { .. } => {
                if i < read.len() {
                    match read[i] {
                        Some(v) => {
                            return Some(v);
                        },
                        None => {},
                    }
                }
            },
        }
        i += 1;
    }
    None
}

/// The number of whole seconds to wait for an answer: the time given in milliseconds,
/// or 600 of them where none is given, rounded up.
pub fn timeout_seconds(timeout_ms: Option<u64>) -> (r: u64)
    ensures
        r == ((match timeout_ms {
            Some(ms) => ms as int,
            None => 600int,
        }) + 999) / 1000,
{
    let ms: u64 = match timeout_ms {
        Some(ms) => ms,
        None => 600,
    };
    let whole: u64 = ms / 1000;
    if ms % 1000 != 0 {
        whole + 1
    } else {
        whole
    }
}

/// Why a ping failed.
#[derive(Clone, Copy, PartialEq, Eq, Structural, Debug)]
pub enum PingFailure {
    /// No answer came in time.
    Timeout,
    /// The host could not be reached.
    Unreachable,
    /// The name of the host is not known.
    DnsError,
    /// Anything else.
    Other,
}

/// Why a ping failed, by what the ping program printed.
pub open spec fn failure_of(stdout: Seq<u8>, stderr: Seq<u8>) -> PingFailure {
    if contains(stdout, utf8("timed out")) || contains(stdout, utf8("Request timed out")) {
        PingFailure::Timeout
    } else if contains(stdout, utf8("Destination host unreachable")) {
        PingFailure::Unreachable
    } else if contains(stdout, utf8("could not find host")) || contains(
        stderr,
        utf8("could not find host"),
    ) {
        PingFailure::DnsError
    } else {
        PingFailure::Other
    }
}

/// Tells why a ping failed.
pub fn classify_failure(stdout: &[u8], stderr: &[u8]) -> (r: PingFailure)
    ensures
        r == failure_of(stdout@, stderr@),
{
    let a: &str = "timed out";
    let b: &str = "Request timed out";
    let c: &str = "Destination host unreachable";
    let d: &str = "could not find host";
    if includes(stdout, a.as_bytes()) || includes(stdout, b.as_bytes()) {
        PingFailure::Timeout
    } else if includes(stdout, c.as_bytes()) {
        PingFailure::Unreachable
    } else if includes(stdout, d.as_bytes()) || includes(stderr, d.as_bytes()) {
        PingFailure::DnsError
    } else {
        PingFailure::Other
    }
}

} // verus!
