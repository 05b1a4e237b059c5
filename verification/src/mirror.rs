//! What is told of the firewall: of one name, of a whole request, and of its rules.

use crate::firewall::{verdict_of, AddVerdict, Reply, Target};
use crate::report::{decimal, push_str, render_decimal, utf8};
use crate::store::Failure;
use crate::text::{
    append, contains, copy_range, find, find_from, includes, lemma_find_from, strip, stripped,
    NEWLINE,
};
use vstd::prelude::*;
use vstd::slice::slice_subrange;

verus! {

/// An outcome as plain values.
pub open spec fn outcome_view(r: Result<Vec<u8>, Vec<u8>>) -> Result<Seq<u8>, Seq<u8>> {
    match r {
        Ok(v) => Ok(v@),
        Err(e) => Err(e@),
    }
}

/// The lines joined, with a line feed between any two.
pub open spec fn joined_lines(lines: Seq<Seq<u8>>) -> Seq<u8>
    decreases lines.len(),
{
    if lines.len() == 0 {
        Seq::empty()
    } else if lines.len() == 1 {
        lines[0]
    } else {
        joined_lines(lines.drop_last()) + seq![NEWLINE] + lines.last()
    }
}

/// Appends `line` to `out` as one more line. `first` says that no line is there yet.
fn push_line(out: &mut Vec<u8>, line: &[u8], first: bool, lines: Ghost<Seq<Seq<u8>>>)
    requires
        old(out)@ == joined_lines(lines@),
        first == (lines@.len() == 0),
    ensures
        final(out)@ == joined_lines(lines@.push(line@)),
{
    let ghost all = lines@.push(line@);
    assert(all.drop_last() =~= lines@);
    if !first {
        out.push(NEWLINE);
    }
    append(out, line);
    assert(out@ =~= joined_lines(all));
}

/// One line for each address whose rule was made.
pub open spec fn blocked_ip_lines(ips: Seq<Seq<u8>>, made: Seq<bool>) -> Seq<Seq<u8>>
    decreases ips.len(),
{
    if ips.len() == 0 {
        Seq::empty()
    } else if ips.len() <= made.len() && made[ips.len() - 1] {
        blocked_ip_lines(ips.drop_last(), made).push(utf8("Blocked IP: ") + ips.last())
    } else {
        blocked_ip_lines(ips.drop_last(), made)
    }
}

/// The lines joined, or the words that nothing was changed.
pub open spec fn lines_or_nothing(lines: Seq<Seq<u8>>) -> Seq<u8> {
    if lines.len() == 0 {
        utf8("No firewall changes made")
    } else {
        joined_lines(lines)
    }
}

/// What is told of blocking a name.
///
/// `reply` is what came of the rule for all addresses at once. Where the firewall
/// turned the list of addresses down, `made` says of each address whether its own rule
/// was made; an address without an answer counts as not made.
pub open spec fn block_outcome(
    target: (Seq<u8>, Seq<Seq<u8>>),
    reply: Reply,
    made: Seq<bool>,
) -> Result<Seq<u8>, Seq<u8>> {
    match reply {
        Reply::Done => Ok(
            utf8("Firewall rule created for ") + target.0 + utf8(" (") + decimal(target.1.len())
                + utf8(" IPs)"),
        ),
        Reply::Failed { detail } => if verdict_of(reply) == AddVerdict::TryEachIp {
            Ok(lines_or_nothing(blocked_ip_lines(target.1, made)))
        } else {
            Err(utf8("Failed to create firewall rule: ") + detail@)
        },
        Reply::NotRun { detail } => Err(utf8("Failed to create firewall rule: ") + detail@),
    }
}

/// Tells what blocking a name came to.
pub fn block_report(target: &Target, reply: &Reply, made: &Vec<bool>) -> (r: Result<
    Vec<u8>,
    Vec<u8>,
>)
    ensures
        outcome_view(r) == block_outcome(target@, *reply, made@),
{
    let mut out: Vec<u8> = Vec::new();
    match reply {
        Reply::Done => {
            push_str(&mut out, "Firewall rule created for ");
            append(&mut out, target.domain.as_slice());
            push_str(&mut out, " (");
            let digits = render_decimal(target.ips.len() as u64);
            append(&mut out, digits.as_slice());
            push_str(&mut out, " IPs)");
            assert(out@ =~= utf8("Firewall rule created for ") + target@.0 + utf8(" (") + decimal(
                target@.1.len(),
            ) + utf8(" IPs)"));
            Ok(out)
        },
        Reply::Failed { detail } => {
            let key: &str = "remoteip";
            if !includes(detail.as_slice(), key.as_bytes()) {
                push_str(&mut out, "Failed to create firewall rule: ");
                append(&mut out, detail.as_slice());
                assert(out@ =~= utf8("Failed to create firewall rule: ") + detail@);
                return Err(out);
            }
            let ghost ips = target@.1;
            let ghost mut lines: Seq<Seq<u8>> = Seq::empty();
            let mut first = true;
            let mut i: usize = 0;
            assert(ips.take(0) =~= Seq::<Seq<u8>>::empty());
            while i < target.ips.len()
                invariant
                    i <= target.ips.len(),
                    ips == target@.1,
                    lines == blocked_ip_lines(ips.take(i as int), made@),
                    out@ == joined_lines(lines),
                    first == (lines.len() == 0),
                decreases target.ips.len() - i,
            {
                proof {
                    let upto = ips.take(i + 1);
                    assert(upto.drop_last() =~= ips.take(i as int));
                    assert(upto.last() == target.ips@[i as int]@);
                }
                if i < made.len() && made[i] {
                    let mut line: Vec<u8> = Vec::new();
                    push_str(&mut line, "Blocked IP: ");
                    append(&mut line, target.ips[i].as_slice());
                    assert(line@ =~= utf8("Blocked IP: ") + target.ips@[i as int]@);
                    push_line(&mut out, line.as_slice(), first, Ghost(lines));
                    first = false;
                    proof {
                        lines = lines.push(line@);
                    }
                }
                i += 1;
            }
            assert(ips.take(target.ips.len() as int) =~= ips);
            if first {
                assert(out@ =~= Seq::<u8>::empty());
                push_str(&mut out, "No firewall changes made");
                assert(out@ =~= utf8("No firewall changes made"));
            }
            Ok(out)
        },
        Reply::NotRun { detail } => {
            push_str(&mut out, "Failed to create firewall rule: ");
            append(&mut out, detail.as_slice());
            assert(out@ =~= utf8("Failed to create firewall rule: ") + detail@);
            Err(out)
        },
    }
}

/// What is told of unblocking a name, by what came of deleting its rule.
pub open spec fn unblock_words(domain: Seq<u8>, reply: Reply) -> Seq<u8> {
    match reply {
        Reply::Done => utf8("Firewall rule removed for ") + domain,
        Reply::Failed { detail } => utf8("Note: Firewall rule for ") + domain + utf8(
            " may not have existed",
        ),
        Reply::NotRun { detail } => utf8("No firewall changes made"),
    }
}

/// Tells what unblocking a name came to. A rule that was not there is no failure.
pub fn unblock_report(target: &Target, reply: &Reply) -> (r: Vec<u8>)
    ensures
        r@ == unblock_words(target@.0, *reply),
{
    let mut out: Vec<u8> = Vec::new();
    match reply {
        Reply::Done => {
            push_str(&mut out, "Firewall rule removed for ");
            append(&mut out, target.domain.as_slice());
        },
        Reply::Failed { detail } => {
            push_str(&mut out, "Note: Firewall rule for ");
            append(&mut out, target.domain.as_slice());
            push_str(&mut out, " may not have existed");
        },
        Reply::NotRun { detail } => {
            push_str(&mut out, "No firewall changes made");
        },
    }
    assert(out@ =~= unblock_words(target@.0, *reply));
    out
}

/// The line that the tally keeps of one name.
pub open spec fn tally_line(
    target: (Seq<u8>, Seq<Seq<u8>>),
    enable: bool,
    outcome: Option<Result<Seq<u8>, Seq<u8>>>,
) -> Seq<u8> {
    match outcome {
        None => utf8("No IPs found for ") + target.0,
        Some(Ok(words)) => target.0 + utf8(": ") + words,
        Some(Err(words)) => utf8("Failed to ") + (if enable {
            utf8("block")
        } else {
            utf8("unblock")
        }) + utf8(" ") + target.0 + utf8(": ") + words,
    }
}

/// The line that the tally keeps of a name that the region lacks.
pub open spec fn missing_line(name: Seq<u8>) -> Seq<u8> {
    utf8("No directory entry for ") + name
}

/// The addresses that the tally counts for one name: those of a name that was blocked
/// or unblocked without failure.
pub open spec fn tally_count(
    target: (Seq<u8>, Seq<Seq<u8>>),
    outcome: Option<Result<Seq<u8>, Seq<u8>>>,
) -> nat {
    match outcome {
        Some(Ok(words)) => target.1.len(),
        _ => 0,
    }
}

/// What a request to the firewall came to, name by name.
pub struct Tally {
    lines: Vec<Vec<u8>>,
    total: u64,
    troubled: bool,
}

impl Tally {
    /// The lines that were kept, in order.
    pub closed spec fn lines(&self) -> Seq<Seq<u8>> {
        crate::text::views(self.lines@)
    }

    /// The number of addresses that were counted, as far as it can be held.
    pub closed spec fn total(&self) -> nat {
        self.total as nat
    }

    /// Whether some name was passed over, for want of addresses or because the region
    /// lacks it, or failed.
    pub closed spec fn troubled(&self) -> bool {
        self.troubled
    }

    /// A tally of nothing.
    pub fn new() -> (r: Tally)
        ensures
            r.lines().len() == 0,
            r.total() == 0,
            !r.troubled(),
    {
        Tally { lines: Vec::new(), total: 0, troubled: false }
    }

    /// What went wrong on the way, if anything did: some names were passed over or
    /// failed while the others were dealt with.
    pub fn failure(&self) -> (r: Option<Failure>)
        ensures
            r == (if self.troubled() {
                Some(Failure::PartialFailure)
            } else {
                None
            }),
    {
        if self.troubled {
            Some(Failure::PartialFailure)
        } else {
            None
        }
    }

    /// Keeps that `name` was wanted and that the region lacks it.
    pub fn record_missing(&mut self, name: &[u8])
        ensures
            final(self).lines() == old(self).lines().push(missing_line(name@)),
            final(self).total() == old(self).total(),
            final(self).troubled(),
    {
        let mut line: Vec<u8> = Vec::new();
        push_str(&mut line, "No directory entry for ");
        append(&mut line, name);
        let ghost before = self.lines();
        self.lines.push(line);
        self.troubled = true;
        assert(self.lines() =~= before.push(missing_line(name@)));
    }

    /// Keeps what came of one name. `outcome` is `None` for a name without addresses.
    pub fn record(&mut self, target: &Target, enable: bool, outcome: Option<&Result<Vec<u8>, Vec<u8>>>)
        ensures
            final(self).lines() == old(self).lines().push(
                tally_line(target@, enable, match outcome {
                    Some(o) => Some(outcome_view(*o)),
                    None => None,
                }),
            ),
            final(self).total() == if old(self).total() + tally_count(
                target@,
                match outcome {
                    Some(o) => Some(outcome_view(*o)),
                    None => None,
                },
            ) <= u64::MAX {
                old(self).total() + tally_count(target@, match outcome {
                    Some(o) => Some(outcome_view(*o)),
                    None => None,
                })
            } else {
                u64::MAX as nat
            },
            final(self).troubled() == (old(self).troubled() || !(outcome matches Some(Ok(_)))),
    {
        let mut line: Vec<u8> = Vec::new();
        match outcome {
            None => {
                push_str(&mut line, "No IPs found for ");
                append(&mut line, target.domain.as_slice());
                self.troubled = true;
            },
            Some(Ok(words)) => {
                append(&mut line, target.domain.as_slice());
                push_str(&mut line, ": ");
                append(&mut line, words.as_slice());
                self.total = self.total.saturating_add(target.ips.len() as u64);
            },
            Some(Err(words)) => {
                push_str(&mut line, "Failed to ");
                if enable {
                    push_str(&mut line, "block");
                } else {
                    push_str(&mut line, "unblock");
                }
                push_str(&mut line, " ");
                append(&mut line, target.domain.as_slice());
                push_str(&mut line, ": ");
                append(&mut line, words.as_slice());
                self.troubled = true;
            },
        }
        let ghost want = tally_line(target@, enable, match outcome {
            Some(o) => Some(outcome_view(*o)),
            None => None,
        });
        assert(line@ =~= want);
        let ghost before = self.lines();
        self.lines.push(line);
        assert(self.lines() =~= before.push(want));
    }

    /// The words for the whole request: a line that sums up, and the lines of the
    /// names; or, where no name was reached, the words that nothing was done.
    pub open spec fn summary_words(self, enable: bool, region_id: Seq<u8>) -> Seq<u8> {
        if self.lines().len() == 0 {
            utf8("No firewall rules ") + (if enable {
                utf8("added")
            } else {
                utf8("removed")
            }) + utf8(" for region ") + region_id
        } else {
            (if enable {
                utf8("Blocked")
            } else {
                utf8("Unblocked")
            }) + utf8(" ") + decimal(self.total()) + utf8(" IPs across ") + decimal(
                self.lines().len(),
            ) + utf8(" domains") + seq![NEWLINE] + joined_lines(self.lines())
        }
    }

    /// Tells what the whole request came to.
    pub fn summary(&self, enable: bool, region_id: &[u8]) -> (r: Vec<u8>)
        ensures
            r@ == self.summary_words(enable, region_id@),
    {
        let mut out: Vec<u8> = Vec::new();
        if self.lines.len() == 0 {
            push_str(&mut out, "No firewall rules ");
            if enable {
                push_str(&mut out, "added");
            } else {
                push_str(&mut out, "removed");
            }
            push_str(&mut out, " for region ");
            append(&mut out, region_id);
            assert(out@ =~= self.summary_words(enable, region_id@));
            return out;
        }
        if enable {
            push_str(&mut out, "Blocked");
        } else {
            push_str(&mut out, "Unblocked");
        }
        push_str(&mut out, " ");
        let total = render_decimal(self.total);
        append(&mut out, total.as_slice());
        push_str(&mut out, " IPs across ");
        let count = render_decimal(self.lines.len() as u64);
        append(&mut out, count.as_slice());
        push_str(&mut out, " domains");
        out.push(NEWLINE);
        let ghost head = out@;
        let mut body: Vec<u8> = Vec::new();
        let mut i: usize = 0;
        assert(self.lines().take(0) =~= Seq::<Seq<u8>>::empty());
        while i < self.lines.len()
            invariant
                i <= self.lines.len(),
                body@ == joined_lines(self.lines().take(i as int)),
            decreases self.lines.len() - i,
        {
            push_line(
                &mut body,
                self.lines[i].as_slice(),
                i == 0,
                Ghost(self.lines().take(i as int)),
            );
            assert(self.lines().take(i as int).push(self.lines@[i as int]@) =~= self.lines().take(
                i + 1,
            ));
            i += 1;
        }
        assert(self.lines().take(self.lines.len() as int) =~= self.lines());
        append(&mut out, body.as_slice());
        assert(out@ =~= self.summary_words(enable, region_id@));
        out
    }
}

/// What stands before the name of a rule in the list that the firewall prints.
pub open spec fn rule_label() -> Seq<u8> {
    utf8("Rule Name:")
}

/// The name of the rule that a line of the list shows: what stands between the first
/// label and the next, without white space of any kind at either end.
pub open spec fn rule_on_line(line: Seq<u8>) -> Option<Seq<u8>> {
    match find_from(line, rule_label(), 0) {
        None => None,
        Some(p) => {
            let rest = line.skip(p + rule_label().len());
            match find_from(rest, rule_label(), 0) {
                Some(q) => Some(stripped(rest.take(q))),
                None => Some(stripped(rest)),
            }
        },
    }
}

/// The rule to delete for a line of the list: the rule it shows, where the line holds
/// `prefix`.
pub open spec fn rule_to_delete_on(line: Seq<u8>, prefix: Seq<u8>) -> Option<Seq<u8>> {
    if contains(line, prefix) {
        rule_on_line(line)
    } else {
        None
    }
}

/// Reads from a line of the list the rule to delete, if it is one that begins with
/// `prefix`.
pub fn rule_to_delete(line: &[u8], prefix: &[u8]) -> (r: Option<Vec<u8>>)
    ensures
        crate::codec::opt_view(r) == rule_to_delete_on(line@, prefix@),
{
    if !includes(line, prefix) {
        return None;
    }
    let label_text: &str = "Rule Name:";
    let label = label_text.as_bytes();
    let n: usize = line.len();
    match find(line, label, 0) {
        None => None,
        Some(p) => {
            proof {
                lemma_find_from(line@, rule_label(), 0);
            }
            let rest = slice_subrange(line, p + label.len(), n);
            assert(rest@ =~= line@.skip(p + rule_label().len()));
            let name = match find(rest, label, 0) {
                Some(q) => {
                    proof {
                        lemma_find_from(rest@, rule_label(), 0);
                    }
                    let part = slice_subrange(rest, 0, q);
                    assert(part@ =~= rest@.take(q as int));
                    strip(part)
                },
                None => strip(rest),
            };
            Some(copy_range(name, 0, name.len()))
        },
    }
}

/// The prefixes of the rules that the engine has ever made.
pub fn managed_prefixes() -> (r: [&'static str; 3])
    ensures
        r[0]@ == "WoT_Blitz_Block_"@,
        r[1]@ == "WoT_Block_"@,
        r[2]@ == "ClusterBanned_"@,
{
    ["WoT_Blitz_Block_", "WoT_Block_", "ClusterBanned_"]
}

/// A line of the list that shows a rule of the engine.
pub open spec fn shows_managed_rule(line: Seq<u8>) -> bool {
    contains(line, rule_label()) && (contains(line, utf8("WoT_Blitz")) || contains(
        line,
        utf8("WoT_Block"),
    ) || contains(line, utf8("ClusterBanned")))
}

/// Tells whether a line of the list shows a rule of the engine.
pub fn is_managed_rule_line(line: &[u8]) -> (r: bool)
    ensures
        r == shows_managed_rule(line@),
{
    let label: &str = "Rule Name:";
    let a: &str = "WoT_Blitz";
    let b: &str = "WoT_Block";
    let c: &str = "ClusterBanned";
    includes(line, label.as_bytes()) && (includes(line, a.as_bytes()) || includes(line, b.as_bytes()) || includes(
        line,
        c.as_bytes(),
    ))
}

/// The words for the number of rules that were deleted.
pub open spec fn deleted_words(count: nat) -> Seq<u8> {
    if count == 0 {
        utf8("No firewall rules found to delete")
    } else {
        utf8("Deleted ") + decimal(count) + utf8(" firewall rules")
    }
}

/// Tells how many rules were deleted.
pub fn describe_deleted(count: u64) -> (r: Vec<u8>)
    ensures
        r@ == deleted_words(count as nat),
{
    let mut out: Vec<u8> = Vec::new();
    if count == 0 {
        push_str(&mut out, "No firewall rules found to delete");
    } else {
        push_str(&mut out, "Deleted ");
        let digits = render_decimal(count);
        append(&mut out, digits.as_slice());
        push_str(&mut out, " firewall rules");
    }
    assert(out@ =~= deleted_words(count as nat));
    out
}

} // verus!
