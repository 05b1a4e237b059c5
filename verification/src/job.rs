//! Mirroring one name in the firewall, command by command.
//!
//! The caller runs the command that is due and hands the reply back, until no command
//! is due. Which command is due, and what it all came to, is decided here from the
//! replies so far.

use crate::firewall::{
    command_views, first_commands, ip_rule_name, ip_rule_name_of, judge_add, rule_name,
    rule_name_of, verdict_of, AddVerdict, Command, CommandView, Reply, Target,
};
use crate::mirror::{
    block_outcome, block_report, outcome_view, tally_count, tally_line, unblock_report,
    unblock_words, Tally,
};
use crate::text::{copy_range, views};
use vstd::prelude::*;

verus! {

/// Of each address, whether the reply to its own rule says that the rule was made. The
/// replies to the rules of the addresses are those behind the first two.
pub open spec fn made_of(history: Seq<Reply>) -> Seq<bool> {
    Seq::new(
        if history.len() >= 2 {
            (history.len() - 2) as nat
        } else {
            0
        },
        |i: int| history[i + 2] is Done,
    )
}

/// The command that is due after the replies in `history`, if one is.
///
/// To block a name, its rule is deleted, if it is there, and a rule for all addresses
/// is added; where the firewall turns the list of addresses down, one rule is added
/// for each address in turn, whatever comes of the others. To unblock it, its rule is
/// deleted, and then the rule of each address. A name without addresses is passed
/// over.
pub open spec fn due(target: (Seq<u8>, Seq<Seq<u8>>), enable: bool, history: Seq<Reply>) -> Option<
    CommandView,
> {
    let n = history.len() as int;
    let ips = target.1;
    if ips.len() == 0 {
        None
    } else if enable {
        if n == 0 {
            Some(CommandView::DeleteRule { name: rule_name_of(target.0) })
        } else if n == 1 {
            Some(CommandView::AddRule { name: rule_name_of(target.0), ips: ips })
        } else if verdict_of(history[1]) == AddVerdict::TryEachIp && n - 2 < ips.len() {
            Some(
                CommandView::AddRule {
                    name: ip_rule_name_of(target.0, ips[n - 2]),
                    ips: seq![ips[n - 2]],
                },
            )
        } else {
            None
        }
    } else {
        if n == 0 {
            Some(CommandView::DeleteRule { name: rule_name_of(target.0) })
        } else if n - 1 < ips.len() {
            Some(CommandView::DeleteRule { name: ip_rule_name_of(target.0, ips[n - 1]) })
        } else {
            None
        }
    }
}

/// What mirroring a name came to after the replies in `history`: nothing yet while a
/// command is due, and nothing at all for a name without addresses.
pub open spec fn outcome_after(
    target: (Seq<u8>, Seq<Seq<u8>>),
    enable: bool,
    history: Seq<Reply>,
) -> Option<Result<Seq<u8>, Seq<u8>>> {
    if target.1.len() == 0 || due(target, enable, history) is Some {
        None
    } else if enable {
        Some(block_outcome(target, history[1], made_of(history)))
    } else {
        Some(Ok(unblock_words(target.0, history[0])))
    }
}

/// An optional command as plain values.
pub open spec fn command_view(command: Option<Command>) -> Option<CommandView> {
    match command {
        Some(c) => Some(c@),
        None => None,
    }
}

/// An optional outcome as plain values.
pub open spec fn job_outcome_view(outcome: Option<Result<Vec<u8>, Vec<u8>>>) -> Option<
    Result<Seq<u8>, Seq<u8>>,
> {
    match outcome {
        Some(o) => Some(outcome_view(o)),
        None => None,
    }
}

/// The mirroring of one name, as far as it has come.
pub struct MirrorJob {
    target: Target,
    enable: bool,
    history: Vec<Reply>,
}

impl MirrorJob {
    /// The name and its addresses.
    pub closed spec fn target(&self) -> (Seq<u8>, Seq<Seq<u8>>) {
        self.target@
    }

    /// Whether the name is to be blocked; else it is to be unblocked.
    pub closed spec fn enable(&self) -> bool {
        self.enable
    }

    /// The replies so far, in the order of the commands.
    pub closed spec fn history(&self) -> Seq<Reply> {
        self.history@
    }

    /// Begins to mirror `target`.
    pub fn start(target: Target, enable: bool) -> (r: MirrorJob)
        ensures
            r.target() == target@,
            r.enable() == enable,
            r.history().len() == 0,
    {
        MirrorJob { target, enable, history: Vec::new() }
    }

    /// The name that is mirrored.
    pub fn target_ref(&self) -> (r: &Target)
        ensures
            r@ == self.target(),
    {
        &self.target
    }

    /// The command to run next, or `None` where all is done.
    pub fn next_command(&self) -> (r: Option<Command>)
        ensures
            command_view(r) == due(self.target(), self.enable(), self.history()),
    {
        let n: usize = self.history.len();
        let count: usize = self.target.ips.len();
        let domain = self.target.domain.as_slice();
        if count == 0 {
            return None;
        }
        if n == 0 {
            return Some(Command::DeleteRule { name: rule_name(domain) });
        }
        if self.enable {
            if n == 1 {
                let mut both = first_commands(&self.target, true);
                proof {
                    let told = command_views(both@);
                    assert(told.len() == 2);
                    assert(told[1] == both@[1]@);
                    assert(told[1] == CommandView::AddRule {
                        name: rule_name_of(self.target().0),
                        ips: self.target().1,
                    });
                }
                return both.pop();
            }
            match judge_add(&self.history[1]) {
                AddVerdict::TryEachIp => {},
                _ => {
                    return None;
                },
            }
            if n - 2 >= count {
                return None;
            }
            let ip = self.target.ips[n - 2].as_slice();
            let mut one: Vec<Vec<u8>> = Vec::new();
            let copy = copy_range(ip, 0, ip.len());
            assert(copy@ =~= ip@);
            one.push(copy);
            assert(views(one@) =~= seq![ip@]);
            Some(Command::AddRule { name: ip_rule_name(domain, ip), ips: one })
        } else {
            if n - 1 >= count {
                return None;
            }
            let ip = self.target.ips[n - 1].as_slice();
            Some(Command::DeleteRule { name: ip_rule_name(domain, ip) })
        }
    }

    /// Takes the reply to the command that was due. Where none was due the reply is
    /// passed over.
    pub fn advance(&mut self, reply: Reply)
        ensures
            final(self).target() == old(self).target(),
            final(self).enable() == old(self).enable(),
            final(self).history() == (if due(
                old(self).target(),
                old(self).enable(),
                old(self).history(),
            ) is Some {
                old(self).history().push(reply)
            } else {
                old(self).history()
            }),
    {
        if self.next_command().is_some() {
            self.history.push(reply);
        }
    }

    /// Puts what it all came to into the tally of the request.
    pub fn record_into(&self, tally: &mut Tally)
        ensures
            final(tally).lines() == old(tally).lines().push(
                tally_line(
                    self.target(),
                    self.enable(),
                    outcome_after(self.target(), self.enable(), self.history()),
                ),
            ),
            final(tally).total() == if old(tally).total() + tally_count(
                self.target(),
                outcome_after(self.target(), self.enable(), self.history()),
            ) <= u64::MAX {
                old(tally).total() + tally_count(
                    self.target(),
                    outcome_after(self.target(), self.enable(), self.history()),
                )
            } else {
                u64::MAX as nat
            },
            final(tally).troubled() == (old(tally).troubled() || !(outcome_after(
                self.target(),
                self.enable(),
                self.history(),
            ) matches Some(Ok(_)))),
    {
        let outcome = self.outcome();
        match &outcome {
            Some(o) => tally.record(&self.target, self.enable, Some(o)),
            None => tally.record(&self.target, self.enable, None),
        }
    }

    /// What it all came to, once no command is due; `None` before that, and for a name
    /// without addresses.
    pub fn outcome(&self) -> (r: Option<Result<Vec<u8>, Vec<u8>>>)
        ensures
            job_outcome_view(r) == outcome_after(self.target(), self.enable(), self.history()),
    {
        if self.target.ips.len() == 0 || self.next_command().is_some() {
            return None;
        }
        let n: usize = self.history.len();
        if self.enable {
            let mut made: Vec<bool> = Vec::new();
            let mut i: usize = 2;
            while i < n
                invariant
                    2 <= i <= n,
                    n == self.history@.len(),
                    made@.len() == i - 2,
                    forall|k: int| 0 <= k < i - 2 ==> made@[k] == (self.history@[k + 2] is Done),
                decreases n - i,
            {
                let done = match &self.history[i] {
                    Reply::Done => true,
                    _ => false,
                };
                made.push(done);
                i += 1;
            }
            assert(made@ =~= made_of(self.history()));
            Some(block_report(&self.target, &self.history[1], &made))
        } else {
            Some(Ok(unblock_report(&self.target, &self.history[0])))
        }
    }
}

} // verus!
